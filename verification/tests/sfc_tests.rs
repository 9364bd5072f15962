use fluxel::key::{Key, LogicalCell};
use fluxel::morton::{compact_bits, decode, encode, expand_bits};

#[test]
fn test_key_packing() {
    let expected_tree = 12345;
    let expected_morton = 0x1234_5678_9ABC_DEF0_1234_5678;
    let expected_level = 15;

    let key = Key::new(expected_tree, expected_morton, expected_level);

    assert_eq!(key.tree_id(), expected_tree);
    assert_eq!(key.morton(), expected_morton);
    assert_eq!(key.level(), expected_level);
}

#[test]
fn test_key_sorting() {
    // Parent cell (L=1)
    let parent = Key::from_logical(&LogicalCell::new(0, 0, 0, 0, 1));
    // Child 0 (L=2, same spatial origin as parent)
    let child_0 = Key::from_logical(&LogicalCell::new(0, 0, 0, 0, 2));
    // Child 1 (L=2, offset in +x)
    let child_1 = Key::from_logical(&LogicalCell::new(0, 1 << 30, 0, 0, 2));

    let mut keys = vec![child_1, parent, child_0];
    keys.sort();

    // Same Morton prefix: shallower level sorts first; otherwise Morton order in space.
    assert_eq!(keys, vec![parent, child_0, child_1]);
}

#[test]
fn test_algebraic_parent_children() {
    let parent_logical = LogicalCell::new(0, 1 << 31, 1 << 31, 0, 1);
    let parent_key = Key::from_logical(&parent_logical);

    let children_keys = parent_key.children();

    // Eight-way split: check first and last child
    let child_0_logical = children_keys[0].to_logical();
    assert_eq!(child_0_logical.level, 2);
    assert_eq!(child_0_logical.x, 1 << 31);
    assert_eq!(child_0_logical.y, 1 << 31);
    assert_eq!(child_0_logical.z, 0);

    let child_7_logical = children_keys[7].to_logical();
    assert_eq!(child_7_logical.level, 2);
    assert_eq!(child_7_logical.x, (1 << 31) + (1 << 30));
    assert_eq!(child_7_logical.y, (1 << 31) + (1 << 30));
    assert_eq!(child_7_logical.z, 1 << 30);

    assert_eq!(children_keys[7].parent().unwrap(), parent_key);
}

#[test]
fn test_morton_encode_decode() {
    let coords = [
        (0, 0, 0),
        (1, 0, 0),
        (0, 1, 0),
        (0, 0, 1),
        (12345, 67890, 13579),
        (u32::MAX, u32::MAX, u32::MAX), // maximum coordinate range
    ];

    coords.iter().copied().for_each(|(x, y, z)| {
        let code = encode(x, y, z);
        let decoded = decode(code);
        assert_eq!((x, y, z), decoded);
    });
}

#[test]
fn morton_interleaves_x_lowest() {
    assert_eq!(encode(1, 0, 0), 0b001);
    assert_eq!(encode(0, 1, 0), 0b010);
    assert_eq!(encode(0, 0, 1), 0b100);
    assert_eq!(encode(3, 0, 0), 0b001_001);
    assert_eq!(encode(u32::MAX, u32::MAX, u32::MAX), (1u128 << 96) - 1);
}

#[test]
fn expand_and_compact_are_inverse() {
    assert_eq!(expand_bits(0b101), 0b001_000_001);
    assert_eq!(compact_bits(0b001_000_001), 0b101);
    assert_eq!(compact_bits(expand_bits(u32::MAX)), u32::MAX);
    // Bits of the other lanes are ignored.
    assert_eq!(compact_bits(0b110_110_110), 0);
}

#[test]
fn decode_of_encode_and_encode_of_decode() {
    let code = encode(7, 9, 11);
    assert_eq!(decode(code), (7, 9, 11));
    let c: u128 = 0x0123_4567_89AB_CDEF_0123_4567;
    let (x, y, z) = decode(c);
    assert_eq!(encode(x, y, z), c);
}

#[test]
fn key_root_parent_and_children_laws() {
    let root = Key::root(3);
    assert_eq!(root.tree_id(), 3);
    assert_eq!(root.level(), 0);
    assert_eq!(root.morton(), 0);
    assert!(root.parent().is_none());

    let children = root.children();
    for (j, c) in children.iter().enumerate() {
        assert_eq!(c.level(), 1);
        assert_eq!(c.tree_id(), 3);
        assert_eq!(c.morton(), (j as u128) << 93);
        assert_eq!(c.parent().unwrap(), root);
    }
    // Children are in increasing key order and follow their parent.
    for j in 1..8 {
        assert!(children[j - 1] < children[j]);
    }
    assert!(root < children[0]);
    assert_eq!(children[0].packed(), root.packed() + 1);
}

#[test]
fn logical_round_trip_and_size() {
    let cell = LogicalCell::new(5, 3 << 29, 1 << 29, 7 << 29, 3);
    let key = Key::from_logical(&cell);
    assert_eq!(key.to_logical(), cell);
    assert_eq!(cell.size(), 1u64 << 29);
    assert_eq!(LogicalCell::root(9).size(), 1u64 << 32);
    assert_eq!(LogicalCell::root(9), LogicalCell::new(9, 0, 0, 0, 0));
    let finest = LogicalCell::new(0, 12345, 67890, 13579, 32);
    assert_eq!(finest.size(), 1);
    assert_eq!(Key::from_logical(&finest).to_logical(), finest);
}

#[test]
fn key_fields_from_packed_layout() {
    let key = Key::new(1, 2, 3);
    assert_eq!(key.packed(), (1u128 << 102) | (2u128 << 6) | 3);
}
