//! 3D Morton (Z-order) coding: encode and decode `(x, y, z)` into a 96-bit code, and helpers
//! that spread or gather bits along every-third-bit lanes.
//!
//! Coordinates are 32-bit logical indices; bit `j` of `x`, `y` and `z` lands at bits `3j`,
//! `3j + 1` and `3j + 2` of the code.

use vstd::prelude::*;

verus! {

/// Bit `i` of a 32-bit word.
pub open spec fn bit32(x: u32, i: u32) -> bool {
    (x >> i) & 1u32 == 1u32
}

/// Bit `i` of a 128-bit word.
pub open spec fn bit128(x: u128, i: u128) -> bool {
    (x >> i) & 1u128 == 1u128
}

/// `r` is `v` with bit `j` moved to bit `3j` and every other bit clear.
pub open spec fn is_spread(r: u128, v: u32) -> bool {
    forall|k: u128|
        k < 128 ==> #[trigger] bit128(r, k) == (k % 3 == 0 && k < 96 && bit32(v, (k / 3) as u32))
}

/// `r` gathers bits `0, 3, 6, …, 93` of `v`: bit `j` of `r` is bit `3j` of `v`.
pub open spec fn is_compacted(r: u32, v: u128) -> bool {
    forall|j: u32| j < 32 ==> #[trigger] bit32(r, j) == bit128(v, (3 * j) as u128)
}

/// The coordinate that owns bit `k` of a Morton code (`k % 3`: 0 = x, 1 = y, 2 = z), read at
/// its bit `k / 3`.
pub open spec fn lane_bit(x: u32, y: u32, z: u32, k: u128) -> bool {
    if k % 3 == 0 {
        bit32(x, (k / 3) as u32)
    } else if k % 3 == 1 {
        bit32(y, (k / 3) as u32)
    } else {
        bit32(z, (k / 3) as u32)
    }
}

/// `c` is the 96-bit Morton code of `(x, y, z)`: bit `3j + a` of `c` is bit `j` of coordinate
/// `a`, and bits `96..128` are clear.
pub open spec fn is_morton_code(c: u128, x: u32, y: u32, z: u32) -> bool {
    forall|k: u128| k < 128 ==> #[trigger] bit128(c, k) == (k < 96 && lane_bit(x, y, z, k))
}

/// Interleaves the low `n` bits of `x`, `y` and `z`: bit `j < n` of coordinate `a` lands at
/// bit `3j + a`.
pub open spec fn interleave(x: u32, y: u32, z: u32, n: u32) -> u128
    decreases n,
{
    if n == 0 {
        0
    } else {
        let j = (n - 1) as u32;
        interleave(x, y, z, j) | ((((x >> j) & 1u32) as u128) << ((3 * j) as u128)) | ((((y >> j)
            & 1u32) as u128) << ((3 * j + 1) as u128)) | ((((z >> j) & 1u32) as u128) << ((3 * j
            + 2) as u128))
    }
}

/// The 96-bit Morton code of `(x, y, z)`.
pub open spec fn morton_of(x: u32, y: u32, z: u32) -> u128 {
    interleave(x, y, z, 32)
}

/// Gathers bits `a, a + 3, a + 6, …` of `v` (the first `n` of them) into a word.
pub open spec fn gather(v: u128, a: u128, n: u32) -> u32
    decreases n,
{
    if n == 0 {
        0
    } else {
        let j = (n - 1) as u32;
        gather(v, a, j) | ((((v >> ((3 * j + a) as u128)) & 1u128) as u32) << j)
    }
}

/// Coordinate lane `a` (0 = x, 1 = y, 2 = z) of a Morton code.
pub open spec fn lane_of(v: u128, a: u128) -> u32 {
    gather(v, a, 32)
}

// ---------------------------------------------------------------------------------------------
// Bit-level helper facts.

proof fn lemma_zero_bits128(k: u128)
    ensures
        !bit128(0, k),
{
    lemma_zero_words(k, 0);
}

proof fn lemma_zero_bits32(j: u32)
    ensures
        !bit32(0, j),
{
    lemma_zero_words(0, j);
}

proof fn lemma_zero_words(k: u128, j: u32)
    by (bit_vector)
    ensures
        (0u128 >> k) & 1u128 == 0u128,
        (0u32 >> j) & 1u32 == 0u32,
{
}

/// Shifting by zero keeps a word, and shifting by its full width clears it.
pub(crate) proof fn lemma_shift_ends(a: u32, b: u128, v: u64)
    by (bit_vector)
    ensures
        a >> 32u32 == 0u32,
        a >> 0u32 == a,
        b >> 128u128 == 0u128,
        b >> 0u128 == b,
        (v >> 0u64) << 0u64 == v,
{
}

proof fn lemma_or_shifted_bit(a: u128, v: u128, i: u128, s: u128, k: u128)
    by (bit_vector)
    requires
        i < 32,
        s == 3 * i,
        k < 128,
    ensures
        ((a | (((v >> i) & 1u128) << s)) >> k) & 1u128 == 1u128 <==> (((a >> k) & 1u128 == 1u128)
            || (k == s && (v >> i) & 1u128 == 1u128)),
{
}

proof fn lemma_or_gathered_bit(a: u32, v: u128, i: u32, s: u128, j: u32)
    by (bit_vector)
    requires
        i < 32,
        s == 3 * i,
        j < 32,
    ensures
        ((a | ((((v >> s) & 1u128) as u32) << i)) >> j) & 1u32 == 1u32 <==> (((a >> j) & 1u32
            == 1u32) || (j == i && (v >> s) & 1u128 == 1u128)),
{
}

proof fn lemma_widen_bit(v: u32, w: u128, j: u128)
    by (bit_vector)
    requires
        w == v as u128,
        j < 32,
    ensures
        (w >> j) & 1u128 == 1u128 <==> (v >> (j as u32)) & 1u32 == 1u32,
{
}

proof fn lemma_or3_bit(a: u128, b: u128, c: u128, k: u128, k1: u128, k2: u128)
    by (bit_vector)
    requires
        k < 128,
        k >= 1 ==> k1 + 1 == k,
        k >= 2 ==> k2 + 2 == k,
    ensures
        ((a | (b << 1u128) | (c << 2u128)) >> k) & 1u128 == 1u128 <==> (((a >> k) & 1u128 == 1u128)
            || (k >= 1 && (b >> k1) & 1u128 == 1u128) || (k >= 2 && (c >> k2) & 1u128 == 1u128)),
{
}

proof fn lemma_shr_bit(c: u128, s: u128, k: u128)
    by (bit_vector)
    requires
        s < 3,
        k < 125,
    ensures
        ((c >> s) >> k) & 1u128 == 1u128 <==> (c >> (k + s)) & 1u128 == 1u128,
{
}

proof fn lemma_shr_step32(a: u32, b: u32, m: u32, n: u32)
    by (bit_vector)
    requires
        m < 32,
        n == m + 1,
        a >> n == b >> n,
        ((a >> m) & 1u32 == 1u32) == ((b >> m) & 1u32 == 1u32),
    ensures
        a >> m == b >> m,
{
}

proof fn lemma_shr_step128(a: u128, b: u128, m: u128, n: u128)
    by (bit_vector)
    requires
        m < 128,
        n == m + 1,
        a >> n == b >> n,
        ((a >> m) & 1u128 == 1u128) == ((b >> m) & 1u128 == 1u128),
    ensures
        a >> m == b >> m,
{
}

/// Two 32-bit words that agree on bits `n..32` agree after shifting right by `n`.
pub proof fn lemma_high_bits_eq32(a: u32, b: u32, n: u32)
    requires
        n <= 32,
        forall|j: u32| n <= j < 32 ==> #[trigger] bit32(a, j) == bit32(b, j),
    ensures
        a >> n == b >> n,
    decreases 32 - n,
{
    if n == 32 {
        lemma_shift_ends(a, 0, 0);
        lemma_shift_ends(b, 0, 0);
    } else {
        lemma_high_bits_eq32(a, b, (n + 1) as u32);
        assert(bit32(a, n) == bit32(b, n));
        lemma_shr_step32(a, b, n, (n + 1) as u32);
    }
}

/// Two 128-bit words that agree on bits `n..128` agree after shifting right by `n`.
pub proof fn lemma_high_bits_eq128(a: u128, b: u128, n: u128)
    requires
        n <= 128,
        forall|k: u128| n <= k < 128 ==> #[trigger] bit128(a, k) == bit128(b, k),
    ensures
        a >> n == b >> n,
    decreases 128 - n,
{
    if n == 128 {
        lemma_shift_ends(0, a, 0);
        lemma_shift_ends(0, b, 0);
    } else {
        lemma_high_bits_eq128(a, b, (n + 1) as u128);
        assert(bit128(a, n) == bit128(b, n));
        lemma_shr_step128(a, b, n, (n + 1) as u128);
    }
}

/// Two 32-bit words with equal bits are equal.
pub proof fn lemma_bits_eq32(a: u32, b: u32)
    requires
        forall|j: u32| j < 32 ==> #[trigger] bit32(a, j) == bit32(b, j),
    ensures
        a == b,
{
    lemma_high_bits_eq32(a, b, 0);
    lemma_shift_ends(a, 0, 0);
    lemma_shift_ends(b, 0, 0);
}

/// Two 128-bit words with equal bits are equal.
pub proof fn lemma_bits_eq128(a: u128, b: u128)
    requires
        forall|k: u128| k < 128 ==> #[trigger] bit128(a, k) == bit128(b, k),
    ensures
        a == b,
{
    lemma_high_bits_eq128(a, b, 0);
    lemma_shift_ends(0, a, 0);
    lemma_shift_ends(0, b, 0);
}

// ---------------------------------------------------------------------------------------------
// Executable coding.

/// Spreads the 32 bits of `v` so that bit `i` moves to bit index `3 * i` in a `u128`.
///
/// Two zero bits are inserted between each original bit, producing a 96-bit pattern that
/// leaves room to interleave `y` (offset `+1`) and `z` (offset `+2`).
pub fn expand_bits(v: u32) -> (r: u128)
    ensures
        is_spread(r, v),
{
    let w: u128 = v as u128;
    let mut acc: u128 = 0;
    let mut i: u128 = 0;
    assert forall|k: u128| k < 128 implies !#[trigger] bit128(acc, k) by {
        lemma_zero_bits128(k);
    }
    while i < 32
        invariant
            i <= 32,
            w == v as u128,
            forall|k: u128|
                k < 128 ==> #[trigger] bit128(acc, k) == (k % 3 == 0 && k < 3 * i && bit128(
                    w,
                    k / 3,
                )),
        decreases 32 - i,
    {
        let next = acc | (((w >> i) & 1) << (i * 3));
        assert forall|k: u128| k < 128 implies #[trigger] bit128(next, k) == (k % 3 == 0 && k < 3 * (
        i + 1) && bit128(w, k / 3)) by {
            lemma_or_shifted_bit(acc, w, i, (i * 3) as u128, k);
            assert(bit128(acc, k) == (k % 3 == 0 && k < 3 * i && bit128(w, k / 3)));
        }
        acc = next;
        i = i + 1;
    }
    assert forall|k: u128| k < 128 implies #[trigger] bit128(acc, k) == (k % 3 == 0 && k < 96
        && bit32(v, (k / 3) as u32)) by {
        assert(bit128(acc, k) == (k % 3 == 0 && k < 96 && bit128(w, k / 3)));
        if k < 96 {
            lemma_widen_bit(v, w, k / 3);
        }
    }
    acc
}

/// Inverse of [`expand_bits`]: collects bits from indices `0, 3, 6, …` back into a `u32`.
pub fn compact_bits(v: u128) -> (r: u32)
    ensures
        is_compacted(r, v),
{
    let mut acc: u32 = 0;
    let mut i: u32 = 0;
    assert forall|j: u32| j < 32 implies !#[trigger] bit32(acc, j) by {
        lemma_zero_bits32(j);
    }
    while i < 32
        invariant
            i <= 32,
            forall|j: u32| j < 32 ==> #[trigger] bit32(acc, j) == (j < i && bit128(v, (3 * j) as u128)),
        decreases 32 - i,
    {
        let s: u128 = (i as u128) * 3;
        let b: u128 = (v >> s) & 1;
        assert(b <= 1) by (bit_vector)
            requires
                b == (v >> s) & 1u128,
        ;
        let next = acc | ((b as u32) << i);
        assert forall|j: u32| j < 32 implies #[trigger] bit32(next, j) == (j < i + 1 && bit128(
            v,
            (3 * j) as u128,
        )) by {
            lemma_or_gathered_bit(acc, v, i, s, j);
            assert(bit32(acc, j) == (j < i && bit128(v, (3 * j) as u128)));
        }
        acc = next;
        i = i + 1;
    }
    acc
}

/// Encodes 3D logical coordinates `(x, y, z)` into a 96-bit Morton code.
pub fn encode(x: u32, y: u32, z: u32) -> (c: u128)
    ensures
        c == morton_of(x, y, z),
        is_morton_code(c, x, y, z),
{
    let ex = expand_bits(x);
    let ey = expand_bits(y);
    let ez = expand_bits(z);
    let c = ex | (ey << 1) | (ez << 2);
    assert forall|k: u128| k < 128 implies #[trigger] bit128(c, k) == (k < 96 && lane_bit(
        x,
        y,
        z,
        k,
    )) by {
        lemma_or3_bit(ex, ey, ez, k, (if k >= 1 { k - 1 } else { 0 }) as u128, (if k >= 2 { k - 2 } else { 0 }) as u128);
        assert(bit128(ex, k) == (k % 3 == 0 && k < 96 && bit32(x, (k / 3) as u32)));
        if k >= 1 {
            assert(bit128(ey, (k - 1) as u128) == ((k - 1) % 3 == 0 && k - 1 < 96 && bit32(
                y,
                ((k - 1) / 3) as u32,
            )));
        }
        if k >= 2 {
            assert(bit128(ez, (k - 2) as u128) == ((k - 2) % 3 == 0 && k - 2 < 96 && bit32(
                z,
                ((k - 2) / 3) as u32,
            )));
        }
    }
    proof {
        lemma_morton_of(x, y, z);
        lemma_morton_code_unique(c, morton_of(x, y, z), x, y, z);
    }
    c
}

/// Decodes a Morton code back to `(x, y, z)`: each coordinate gathers its own bit lane.
pub fn decode(code: u128) -> (r: (u32, u32, u32))
    ensures
        is_compacted(r.0, code),
        is_compacted(r.1, code >> 1u128),
        is_compacted(r.2, code >> 2u128),
        r == (lane_of(code, 0), lane_of(code, 1), lane_of(code, 2)),
{
    let r = (compact_bits(code), compact_bits(code >> 1), compact_bits(code >> 2));
    proof {
        lemma_gather_bits(code, 0, 32);
        lemma_gather_bits(code, 1, 32);
        lemma_gather_bits(code, 2, 32);
        assert forall|j: u32| j < 32 implies #[trigger] bit32(r.0, j) == bit32(lane_of(code, 0), j) by {}
        assert forall|j: u32| j < 32 implies #[trigger] bit32(r.1, j) == bit32(lane_of(code, 1), j) by {
            lemma_shr_bit(code, 1, (3 * j) as u128);
        }
        assert forall|j: u32| j < 32 implies #[trigger] bit32(r.2, j) == bit32(lane_of(code, 2), j) by {
            lemma_shr_bit(code, 2, (3 * j) as u128);
        }
        lemma_bits_eq32(r.0, lane_of(code, 0));
        lemma_bits_eq32(r.1, lane_of(code, 1));
        lemma_bits_eq32(r.2, lane_of(code, 2));
    }
    r
}

// ---------------------------------------------------------------------------------------------
// Laws.

/// The Morton code of `(x, y, z)` is unique.
pub proof fn lemma_morton_code_unique(c1: u128, c2: u128, x: u32, y: u32, z: u32)
    requires
        is_morton_code(c1, x, y, z),
        is_morton_code(c2, x, y, z),
    ensures
        c1 == c2,
{
    assert forall|k: u128| k < 128 implies #[trigger] bit128(c1, k) == bit128(c2, k) by {}
    lemma_bits_eq128(c1, c2);
}

/// A Morton code fits in 96 bits.
pub proof fn lemma_morton_code_bound(c: u128, x: u32, y: u32, z: u32)
    requires
        is_morton_code(c, x, y, z),
    ensures
        c < 0x1_0000_0000_0000_0000_0000_0000u128,
{
    assert(c >> 96u128 == 0u128 >> 96u128) by {
        assert forall|k: u128| 96 <= k < 128 implies #[trigger] bit128(c, k) == bit128(0, k) by {
            lemma_zero_bits128(k);
        }
        lemma_high_bits_eq128(c, 0, 96);
    }
    assert(c >> 96u128 == 0u128 >> 96u128 ==> c < 0x1_0000_0000_0000_0000_0000_0000u128)
        by (bit_vector);
}

/// Gathering the lanes of a Morton code gives back the coordinates.
pub proof fn lemma_decode_of_morton(c: u128, x: u32, y: u32, z: u32, dx: u32, dy: u32, dz: u32)
    requires
        is_morton_code(c, x, y, z),
        is_compacted(dx, c),
        is_compacted(dy, c >> 1u128),
        is_compacted(dz, c >> 2u128),
    ensures
        dx == x && dy == y && dz == z,
{
    assert forall|j: u32| j < 32 implies #[trigger] bit32(dx, j) == bit32(x, j) by {
        assert(bit128(c, (3 * j) as u128) == lane_bit(x, y, z, (3 * j) as u128));
        assert(bit32(dx, j) == bit128(c, (3 * j) as u128));
        assert(((3 * j) as u128) % 3 == 0 && ((3 * j) as u128) / 3 == j);
    }
    assert forall|j: u32| j < 32 implies #[trigger] bit32(dy, j) == bit32(y, j) by {
        assert(bit32(dy, j) == bit128(c >> 1u128, (3 * j) as u128));
        lemma_shr_bit(c, 1, (3 * j) as u128);
        assert(bit128(c, (3 * j + 1) as u128) == lane_bit(x, y, z, (3 * j + 1) as u128));
        assert(((3 * j + 1) as u128) % 3 == 1 && ((3 * j + 1) as u128) / 3 == j);
    }
    assert forall|j: u32| j < 32 implies #[trigger] bit32(dz, j) == bit32(z, j) by {
        assert(bit32(dz, j) == bit128(c >> 2u128, (3 * j) as u128));
        lemma_shr_bit(c, 2, (3 * j) as u128);
        assert(bit128(c, (3 * j + 2) as u128) == lane_bit(x, y, z, (3 * j + 2) as u128));
        assert(((3 * j + 2) as u128) % 3 == 2 && ((3 * j + 2) as u128) / 3 == j);
    }
    lemma_bits_eq32(dx, x);
    lemma_bits_eq32(dy, y);
    lemma_bits_eq32(dz, z);
}

/// Any code below `2^96` is the Morton code of its three gathered lanes.
pub proof fn lemma_morton_of_decoded(c: u128, dx: u32, dy: u32, dz: u32)
    requires
        c < 0x1_0000_0000_0000_0000_0000_0000u128,
        is_compacted(dx, c),
        is_compacted(dy, c >> 1u128),
        is_compacted(dz, c >> 2u128),
    ensures
        is_morton_code(c, dx, dy, dz),
{
    assert forall|k: u128| k < 128 implies #[trigger] bit128(c, k) == (k < 96 && lane_bit(
        dx,
        dy,
        dz,
        k,
    )) by {
        if k >= 96 {
            assert(c < 0x1_0000_0000_0000_0000_0000_0000u128 && 96 <= k < 128 ==> (c >> k) & 1u128
                == 0u128) by (bit_vector);
        } else {
            let j: u32 = (k / 3) as u32;
            if k % 3 == 0 {
                assert(bit32(dx, j) == bit128(c, (3 * j) as u128));
            } else if k % 3 == 1 {
                assert(bit32(dy, j) == bit128(c >> 1u128, (3 * j) as u128));
                lemma_shr_bit(c, 1, (3 * j) as u128);
            } else {
                assert(bit32(dz, j) == bit128(c >> 2u128, (3 * j) as u128));
                lemma_shr_bit(c, 2, (3 * j) as u128);
            }
        }
    }
}

/// Round trip: decoding the encoding of `(x, y, z)` returns `(x, y, z)`.
pub proof fn lemma_decode_encode(x: u32, y: u32, z: u32, c: u128, r: (u32, u32, u32))
    requires
        is_morton_code(c, x, y, z),
        is_compacted(r.0, c),
        is_compacted(r.1, c >> 1u128),
        is_compacted(r.2, c >> 2u128),
    ensures
        r == (x, y, z),
{
    lemma_decode_of_morton(c, x, y, z, r.0, r.1, r.2);
}

/// Round trip: encoding the decoding of a 96-bit code returns the code.
pub proof fn lemma_encode_decode(c: u128, r: (u32, u32, u32), e: u128)
    requires
        c < 0x1_0000_0000_0000_0000_0000_0000u128,
        is_compacted(r.0, c),
        is_compacted(r.1, c >> 1u128),
        is_compacted(r.2, c >> 2u128),
        is_morton_code(e, r.0, r.1, r.2),
    ensures
        e == c,
{
    lemma_morton_of_decoded(c, r.0, r.1, r.2);
    lemma_morton_code_unique(c, e, r.0, r.1, r.2);
}

/// A Morton code determines its coordinates.
pub proof fn lemma_morton_code_injective(c: u128, x1: u32, y1: u32, z1: u32, x2: u32, y2: u32, z2: u32)
    requires
        is_morton_code(c, x1, y1, z1),
        is_morton_code(c, x2, y2, z2),
    ensures
        x1 == x2 && y1 == y2 && z1 == z2,
{
    assert forall|j: u32| j < 32 implies #[trigger] bit32(x1, j) == bit32(x2, j) by {
        let k: u128 = (3 * j) as u128;
        assert(bit128(c, k) == (k < 96 && lane_bit(x1, y1, z1, k)));
        assert(bit128(c, k) == (k < 96 && lane_bit(x2, y2, z2, k)));
        assert(k % 3 == 0 && k / 3 == j);
    }
    assert forall|j: u32| j < 32 implies #[trigger] bit32(y1, j) == bit32(y2, j) by {
        let k: u128 = (3 * j + 1) as u128;
        assert(bit128(c, k) == (k < 96 && lane_bit(x1, y1, z1, k)));
        assert(bit128(c, k) == (k < 96 && lane_bit(x2, y2, z2, k)));
        assert(k % 3 == 1 && k / 3 == j);
    }
    assert forall|j: u32| j < 32 implies #[trigger] bit32(z1, j) == bit32(z2, j) by {
        let k: u128 = (3 * j + 2) as u128;
        assert(bit128(c, k) == (k < 96 && lane_bit(x1, y1, z1, k)));
        assert(bit128(c, k) == (k < 96 && lane_bit(x2, y2, z2, k)));
        assert(k % 3 == 2 && k / 3 == j);
    }
    lemma_bits_eq32(x1, x2);
    lemma_bits_eq32(y1, y2);
    lemma_bits_eq32(z1, z2);
}

proof fn lemma_or4_bit(a: u128, bx: u128, by: u128, bz: u128, s: u128, s1: u128, s2: u128, k: u128)
    by (bit_vector)
    requires
        bx <= 1,
        by <= 1,
        bz <= 1,
        s <= 93,
        s1 == s + 1,
        s2 == s + 2,
        k < 128,
    ensures
        ((a | (bx << s) | (by << s1) | (bz << s2)) >> k) & 1u128 == 1u128 <==> (((a >> k) & 1u128 == 1u128)
            || (k == s && bx == 1) || (k == s + 1 && by == 1) || (k == s + 2 && bz == 1)),
{
}

pub(crate) proof fn lemma_low_bit_u32(x: u32, j: u32)
    by (bit_vector)
    requires
        j < 32,
    ensures
        (x >> j) & 1u32 <= 1u32,
        ((x >> j) & 1u32 == 1u32) <==> (((x >> j) & 1u32) as u128 == 1u128),
{
}

/// Bits of a partial interleaving.
proof fn lemma_interleave_bits(x: u32, y: u32, z: u32, n: u32)
    requires
        n <= 32,
    ensures
        forall|k: u128| k < 128 ==> #[trigger] bit128(interleave(x, y, z, n), k) == (k < 3 * n
            && lane_bit(x, y, z, k)),
    decreases n,
{
    if n == 0 {
        assert forall|k: u128| k < 128 implies !#[trigger] bit128(interleave(x, y, z, n), k) by {
            lemma_zero_bits128(k);
        }
    } else {
        let j = (n - 1) as u32;
        lemma_interleave_bits(x, y, z, j);
        let s = (3 * j) as u128;
        let bx = ((x >> j) & 1u32) as u128;
        let by = ((y >> j) & 1u32) as u128;
        let bz = ((z >> j) & 1u32) as u128;
        lemma_low_bit_u32(x, j);
        lemma_low_bit_u32(y, j);
        lemma_low_bit_u32(z, j);
        assert forall|k: u128| k < 128 implies #[trigger] bit128(interleave(x, y, z, n), k) == (k
            < 3 * n && lane_bit(x, y, z, k)) by {
            assert(interleave(x, y, z, n) == interleave(x, y, z, j) | (bx << s) | (by << ((3 * j + 1) as u128)) | (bz << ((3 * j + 2) as u128)));
            lemma_or4_bit(interleave(x, y, z, j), bx, by, bz, s, (3 * j + 1) as u128, (3 * j + 2) as u128, k);
            assert(bit128(interleave(x, y, z, j), k) == (k < 3 * j && lane_bit(x, y, z, k)));
            if k == s {
                assert(k % 3 == 0 && k / 3 == j);
            } else if k == s + 1 {
                assert(k % 3 == 1 && k / 3 == j);
            } else if k == s + 2 {
                assert(k % 3 == 2 && k / 3 == j);
            }
        }
    }
}

/// `morton_of` is the Morton code of its arguments.
pub proof fn lemma_morton_of(x: u32, y: u32, z: u32)
    ensures
        is_morton_code(morton_of(x, y, z), x, y, z),
        morton_of(x, y, z) < 0x1_0000_0000_0000_0000_0000_0000u128,
{
    lemma_interleave_bits(x, y, z, 32);
    lemma_morton_code_bound(morton_of(x, y, z), x, y, z);
}

proof fn lemma_gather_step(acc: u32, v: u128, s: u128, j: u32, i: u32)
    by (bit_vector)
    requires
        j < 32,
        i < 32,
    ensures
        ((acc | ((((v >> s) & 1u128) as u32) << j)) >> i) & 1u32 == 1u32 <==> (((acc >> i) & 1u32
            == 1u32) || (i == j && (v >> s) & 1u128 == 1u128)),
{
}

/// Bits of a partial gathering.
proof fn lemma_gather_bits(v: u128, a: u128, n: u32)
    requires
        n <= 32,
        a < 3,
    ensures
        forall|i: u32| i < 32 ==> #[trigger] bit32(gather(v, a, n), i) == (i < n && bit128(
            v,
            (3 * i + a) as u128,
        )),
    decreases n,
{
    if n == 0 {
        assert forall|i: u32| i < 32 implies !#[trigger] bit32(gather(v, a, n), i) by {
            lemma_zero_bits32(i);
        }
    } else {
        let j = (n - 1) as u32;
        lemma_gather_bits(v, a, j);
        assert forall|i: u32| i < 32 implies #[trigger] bit32(gather(v, a, n), i) == (i < n
            && bit128(v, (3 * i + a) as u128)) by {
            assert(gather(v, a, n) == gather(v, a, j) | ((((v >> ((3 * j + a) as u128)) & 1u128) as u32) << j));
            lemma_gather_step(gather(v, a, j), v, (3 * j + a) as u128, j, i);
            assert(bit32(gather(v, a, j), i) == (i < j && bit128(v, (3 * i + a) as u128)));
        }
    }
}

/// The lanes of a code below `2^96` are the coordinates it encodes.
pub proof fn lemma_lanes_of(v: u128)
    requires
        v < 0x1_0000_0000_0000_0000_0000_0000u128,
    ensures
        is_morton_code(v, lane_of(v, 0), lane_of(v, 1), lane_of(v, 2)),
        is_compacted(lane_of(v, 0), v),
        is_compacted(lane_of(v, 1), v >> 1u128),
        is_compacted(lane_of(v, 2), v >> 2u128),
{
    lemma_gather_bits(v, 0, 32);
    lemma_gather_bits(v, 1, 32);
    lemma_gather_bits(v, 2, 32);
    assert forall|j: u32| j < 32 implies #[trigger] bit32(lane_of(v, 1), j) == bit128(v >> 1u128, (3 * j) as u128) by {
        lemma_shr_bit(v, 1, (3 * j) as u128);
    }
    assert forall|j: u32| j < 32 implies #[trigger] bit32(lane_of(v, 2), j) == bit128(v >> 2u128, (3 * j) as u128) by {
        lemma_shr_bit(v, 2, (3 * j) as u128);
    }
    lemma_morton_of_decoded(v, lane_of(v, 0), lane_of(v, 1), lane_of(v, 2));
}

} // verus!
