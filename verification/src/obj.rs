//! Patch and connectivity data of a Wavefront OBJ surface: objects, their shapes and groups,
//! turned into global triangle indices, one patch id per triangle and the patch names.

use vstd::prelude::*;
use vstd::string::StringSliceAdditionalSpecFns;

verus! {

/// One shape of an OBJ object: its group names and, when it is a triangle, its three vertex
/// indices local to the object.
pub struct ObjShape {
    pub groups: Vec<String>,
    pub triangle: Option<[usize; 3]>,
}

/// One OBJ object: its name, its number of vertices and its shapes in file order.
pub struct ObjObject {
    pub name: String,
    pub n_vertices: usize,
    pub shapes: Vec<ObjShape>,
}

impl View for ObjShape {
    type V = (Seq<Seq<char>>, Option<[usize; 3]>);

    open spec fn view(&self) -> (Seq<Seq<char>>, Option<[usize; 3]>) {
        (self.groups@.map_values(|g: String| g@), self.triangle)
    }
}

impl View for ObjObject {
    type V = (Seq<char>, usize, Seq<(Seq<Seq<char>>, Option<[usize; 3]>)>);

    open spec fn view(&self) -> (Seq<char>, usize, Seq<(Seq<Seq<char>>, Option<[usize; 3]>)>) {
        (self.name@, self.n_vertices, self.shapes@.map_values(|s: ObjShape| s@))
    }
}

/// The objects that the OBJ parser reads from `text`, or its error message.
pub uninterp spec fn obj_structure(text: Seq<char>) -> Result<Seq<(Seq<char>, usize, Seq<(Seq<Seq<char>>, Option<[usize; 3]>)>)>, Seq<char>>;

/// An ASCII digit.
pub open spec fn is_digit_byte(b: u8) -> bool {
    48 <= b <= 57
}

/// Bytes `start .. start + n` are all digits.
pub open spec fn digit_run(b: Seq<u8>, start: int, n: int) -> bool {
    forall|k: int| start <= k < start + n ==> is_digit_byte(#[trigger] b[k])
}

/// No minus sign in the text is followed by ten or more digits, so every negative number in it
/// (a negative vertex index in particular) has at most nine digits.
pub open spec fn negatives_short(b: Seq<u8>) -> bool {
    forall|i: int| 0 <= i && i + 10 < b.len() && #[trigger] b[i] == 45u8 ==> !digit_run(b, i + 1, 10)
}

/// Whether [`negatives_short`] holds of the text's bytes.
pub fn negatives_are_short(text: &str) -> (r: bool)
    ensures
        r == negatives_short(text.spec_bytes()),
{
    let b = text.as_bytes();
    let n = b.len();
    let mut i: usize = 0;
    while i < n
        invariant
            b@ == text.spec_bytes(),
            n == b@.len(),
            i <= n,
            forall|p: int| 0 <= p < i && p + 10 < n && #[trigger] b@[p] == 45u8 ==> !digit_run(b@, p + 1, 10),
        decreases n - i,
    {
        if b[i] == 45u8 && n - i > 10 {
            let mut k: usize = 1;
            while k <= 10 && b[i + k] >= 48u8 && b[i + k] <= 57u8
                invariant
                    i + 10 < n,
                    n == b@.len(),
                    1 <= k <= 11,
                    forall|q: int| i + 1 <= q < i + k ==> is_digit_byte(#[trigger] b@[q]),
                decreases 11 - k,
            {
                k = k + 1;
            }
            if k == 11 {
                assert(digit_run(b@, i + 1, 10));
                return false;
            }
            assert(!is_digit_byte(b@[(i + k) as int]));
        }
        i = i + 1;
    }
    true
}

/// Parses OBJ text with `wavefront_obj::obj::parse` and keeps, per object, its name, its
/// vertex count and, per shape in file order (the shapes of its geometries one after the
/// other), the group names and the vertex indices of a triangle. The contract claims only that
/// the result is a function of the text. The parser rewrites a negative index `x` as
/// `max - x` in `isize`, which overflows for `x` near `isize::MIN`; the `requires` admits only
/// texts whose negative numbers have at most nine digits, where that cannot happen on 32- or
/// 64-bit targets (`max` is one more than a vertex count, each vertex taking several bytes).
#[verifier::external_body]
pub fn parse_obj_structure(text: &str) -> (r: Result<Vec<ObjObject>, String>)
    requires
        negatives_short(text.spec_bytes()),
    ensures
        match r {
            Ok(v) => obj_structure(text@) == Ok::<_, Seq<char>>(v@.map_values(|o: ObjObject| o@)),
            Err(e) => obj_structure(text@) == Err::<Seq<(Seq<char>, usize, Seq<(Seq<Seq<char>>, Option<[usize; 3]>)>)>, _>(e@),
        },
{
    let set = wavefront_obj::obj::parse(text).map_err(|e| format!("{}", e))?;
    Ok(set.objects.into_iter().map(|o| ObjObject {
        name: o.name,
        n_vertices: o.vertices.len(),
        shapes: o.geometry.into_iter().flat_map(|g| g.shapes).map(|s| ObjShape {
            groups: s.groups,
            triangle: match s.primitive {
                wavefront_obj::obj::Primitive::Point(..) => None,
                wavefront_obj::obj::Primitive::Line(..) => None,
                wavefront_obj::obj::Primitive::Triangle(a, b, c) => Some([a.0, b.0, c.0]),
            },
        }).collect(),
    }).collect())
}

/// Patch name of a shape: `object_group`, or the group alone for an unnamed object; the group
/// is the shape's first group, `_default` when it has none.
pub open spec fn patch_name(obj_name: Seq<char>, groups: Seq<Seq<char>>) -> Seq<char> {
    let g = if groups.len() > 0 { groups[0] } else { "_default"@ };
    if obj_name.len() == 0 { g } else { obj_name + "_"@ + g }
}

/// `x` taken modulo `2^32`, as the 32-bit vertex ids of the surface mesh are.
pub open spec fn wrap32(x: int) -> u32 {
    (x % 0x1_0000_0000) as u32
}

/// Total vertex count of the objects.
pub open spec fn vertex_total(objs: Seq<(Seq<char>, usize, Seq<(Seq<Seq<char>>, Option<[usize; 3]>)>)>) -> nat
    decreases objs.len(),
{
    if objs.len() == 0 { 0 } else { (vertex_total(objs.drop_last()) + objs.last().1) as nat }
}

/// Record of one shape: its patch name and, for a triangle, its global vertex ids (the
/// object's local ids offset by `base`, the vertices of the objects before it).
pub open spec fn shape_record(obj_name: Seq<char>, base: nat, s: (Seq<Seq<char>>, Option<[usize; 3]>)) -> (Seq<char>, Option<[u32; 3]>) {
    (patch_name(obj_name, s.0), match s.1 {
        Some(t) => Some([wrap32(base + t[0]), wrap32(base + t[1]), wrap32(base + t[2])]),
        None => None,
    })
}

/// Records of every shape of every object, in file order.
pub open spec fn shape_records(objs: Seq<(Seq<char>, usize, Seq<(Seq<Seq<char>>, Option<[usize; 3]>)>)>) -> Seq<(Seq<char>, Option<[u32; 3]>)>
    decreases objs.len(),
{
    if objs.len() == 0 {
        Seq::empty()
    } else {
        let o = objs.last();
        shape_records(objs.drop_last()) + o.2.map_values(|s: (Seq<Seq<char>>, Option<[usize; 3]>)| shape_record(o.0, vertex_total(objs.drop_last()), s))
    }
}

/// The names in order of first appearance, without repeats.
pub open spec fn first_appearances(s: Seq<Seq<char>>) -> Seq<Seq<char>>
    decreases s.len(),
{
    if s.len() == 0 {
        Seq::empty()
    } else {
        let prev = first_appearances(s.drop_last());
        if prev.contains(s.last()) { prev } else { prev.push(s.last()) }
    }
}

/// The triangle records, in order: patch name and global vertex ids.
pub open spec fn triangles(recs: Seq<(Seq<char>, Option<[u32; 3]>)>) -> Seq<(Seq<char>, [u32; 3])>
    decreases recs.len(),
{
    if recs.len() == 0 {
        Seq::empty()
    } else {
        let prev = triangles(recs.drop_last());
        match recs.last().1 {
            Some(t) => prev.push((recs.last().0, t)),
            None => prev,
        }
    }
}

/// A shape that is a triangle has its three local vertex indices below `n`.
pub open spec fn shape_in_range(s: (Seq<Seq<char>>, Option<[usize; 3]>), n: usize) -> bool {
    match s.1 {
        Some(t) => t[0] < n && t[1] < n && t[2] < n,
        None => true,
    }
}

/// Every triangle's local vertex indices are below its object's vertex count.
pub open spec fn obj_indices_valid(objs: Seq<(Seq<char>, usize, Seq<(Seq<Seq<char>>, Option<[usize; 3]>)>)>) -> bool {
    forall|o: int, s: int| 0 <= o < objs.len() && 0 <= s < objs[o].2.len() ==>
        shape_in_range(#[trigger] objs[o].2[s], objs[o].1)
}

fn shape_patch_name(obj_name: &String, groups: &Vec<String>) -> (r: String)
    ensures
        r@ == patch_name(obj_name@, groups@.map_values(|g: String| g@)),
{
    let g = if groups.len() > 0 {
        assert(groups@.map_values(|g: String| g@)[0] == groups@[0]@);
        groups[0].clone()
    } else {
        "_default".to_owned()
    };
    if obj_name.as_str().is_empty() {
        g
    } else {
        let mut n = obj_name.clone();
        n.append("_");
        n.append(g.as_str());
        n
    }
}

/// Index of `name` in `names`, if present.
fn find_name(names: &Vec<String>, name: &String) -> (r: Option<usize>)
    ensures
        match r {
            Some(j) => j < names@.len() && names@[j as int]@ == name@,
            None => !names@.map_values(|s: String| s@).contains(name@),
        },
{
    let mut j: usize = 0;
    while j < names.len()
        invariant
            j <= names@.len(),
            forall|q: int| 0 <= q < j ==> (#[trigger] names@[q])@ != name@,
        decreases names@.len() - j,
    {
        if names[j] == *name {
            return Some(j);
        }
        j = j + 1;
    }
    proof {
        if names@.map_values(|s: String| s@).contains(name@) {
            let nv = names@.map_values(|s: String| s@);
            let q = choose|q: int| 0 <= q < nv.len() && #[trigger] nv[q] == name@;
            assert(names@[q]@ == name@);
        }
    }
    None
}

/// Adds a global offset to a local index, modulo `2^32`.
fn offset_index(base: u32, local: usize) -> (r: u32)
    ensures
        r == wrap32(base + local),
{
    let l64 = local as u64;
    let lm: u32 = (l64 % 0x1_0000_0000u64) as u32;
    assert(lm == (local as int) % 0x1_0000_0000int);
    let r = base.wrapping_add(lm);
    assert(r == wrap32(base + local)) by {
        vstd::arithmetic::div_mod::lemma_add_mod_noop(base as int, local as int, 0x1_0000_0000int);
        vstd::arithmetic::div_mod::lemma_small_mod(base as nat, 0x1_0000_0000nat);
        if base + lm >= 0x1_0000_0000 {
            vstd::arithmetic::div_mod::lemma_mod_sub_multiples_vanish(base + lm, 0x1_0000_0000int);
            vstd::arithmetic::div_mod::lemma_small_mod((base + lm - 0x1_0000_0000) as nat, 0x1_0000_0000nat);
        } else {
            vstd::arithmetic::div_mod::lemma_small_mod((base + lm) as nat, 0x1_0000_0000nat);
        }
    }
    r
}

proof fn lemma_wrap_add(a: int, b: int)
    requires
        a >= 0,
        b >= 0,
    ensures
        wrap32(wrap32(a) + b) == wrap32(a + b),
{
    let m = 0x1_0000_0000int;
    assert(0 <= a % m < m) by {
        vstd::arithmetic::div_mod::lemma_mod_bound(a, m);
    }
    assert(wrap32(a) as int == a % m);
    vstd::arithmetic::div_mod::lemma_add_mod_noop(a, b, m);
    vstd::arithmetic::div_mod::lemma_add_mod_noop(a % m, b, m);
    vstd::arithmetic::div_mod::lemma_mod_twice(a, m);
}

proof fn lemma_first_appearances_unique(s: Seq<Seq<char>>)
    ensures
        first_appearances(s).no_duplicates(),
        forall|x: Seq<char>| #[trigger] first_appearances(s).contains(x) <==> s.contains(x),
    decreases s.len(),
{
    if s.len() > 0 {
        lemma_first_appearances_unique(s.drop_last());
        let prev = first_appearances(s.drop_last());
        assert forall|x: Seq<char>| #[trigger] first_appearances(s).contains(x) <==> s.contains(x) by {
            if s.contains(x) && !s.drop_last().contains(x) {
                let i = choose|i: int| 0 <= i < s.len() && s[i] == x;
                if i < s.len() - 1 {
                    assert(s.drop_last()[i] == x);
                }
                if !prev.contains(s.last()) {
                    assert(prev.push(s.last())[prev.len() as int] == x);
                }
            }
            if s.drop_last().contains(x) {
                let i = choose|i: int| 0 <= i < s.drop_last().len() && s.drop_last()[i] == x;
                assert(s[i] == x);
                assert(prev.contains(x));
                if !prev.contains(s.last()) {
                    let j = choose|j: int| 0 <= j < prev.len() && prev[j] == x;
                    assert(prev.push(s.last())[j] == x);
                }
            }
            if first_appearances(s).contains(x) && !prev.contains(x) {
                assert(x == s.last());
                assert(s[s.len() - 1] == x);
            }
        }
        if !prev.contains(s.last()) {
            let nxt = prev.push(s.last());
            assert forall|p: int, q: int| 0 <= p < nxt.len() && 0 <= q < nxt.len() && p != q implies nxt[p] != nxt[q] by {
                if p < prev.len() && q < prev.len() {
                } else if p == prev.len() {
                    assert(nxt[q] == prev[q]);
                } else {
                    assert(nxt[p] == prev[p]);
                }
            }
        }
    }
}

/// The triangle table matches the triangle records: vertex ids in order, and each patch id
/// naming the patch of its triangle.
pub open spec fn table_matches(tris: Seq<[u32; 3]>, ids: Seq<usize>, names: Seq<Seq<char>>, tr: Seq<(Seq<char>, [u32; 3])>) -> bool {
    &&& tris.len() == tr.len()
    &&& ids.len() == tr.len()
    &&& forall|k: int| 0 <= k < tr.len() ==> #[trigger] tris[k] == tr[k].1
    &&& forall|k: int| 0 <= k < tr.len() ==> #[trigger] ids[k] < names.len() && names[ids[k] as int] == tr[k].0
}

/// Patch names of the records, in record order.
pub open spec fn record_names(recs: Seq<(Seq<char>, Option<[u32; 3]>)>) -> Seq<Seq<char>> {
    recs.map_values(|x: (Seq<char>, Option<[u32; 3]>)| x.0)
}

/// Global triangle indices, one patch id per triangle, and the patch names of an OBJ surface;
/// [`None`] when some triangle refers to a vertex its object does not have.
///
/// Patch names are taken in order of first appearance over all shapes (triangles or not);
/// only triangles are kept; each object's local vertex indices are offset by the number of
/// vertices of the objects before it.
pub fn obj_patches(objects: &[ObjObject]) -> (r: Option<(Vec<[u32; 3]>, Vec<usize>, Vec<String>)>)
    ensures
        r is Some <==> obj_indices_valid(objects@.map_values(|o: ObjObject| o@)),
        match r {
            Some((tris, ids, names)) => {
                let recs = shape_records(objects@.map_values(|o: ObjObject| o@));
                &&& names@.map_values(|s: String| s@) == first_appearances(record_names(recs))
                &&& names@.map_values(|s: String| s@).no_duplicates()
                &&& table_matches(tris@, ids@, names@.map_values(|s: String| s@), triangles(recs))
            },
            None => true,
        },
{
    let ghost objs = objects@.map_values(|o: ObjObject| o@);
    let mut tris: Vec<[u32; 3]> = Vec::new();
    let mut ids: Vec<usize> = Vec::new();
    let mut names: Vec<String> = Vec::new();
    let mut base: u32 = 0;
    let mut i: usize = 0;
    proof {
        assert(objs.take(0) =~= Seq::empty());
        assert(record_names(Seq::empty()) =~= Seq::empty());
    }
    while i < objects.len()
        invariant
            objs == objects@.map_values(|o: ObjObject| o@),
            i <= objects@.len(),
            base == wrap32(vertex_total(objs.take(i as int)) as int),
            obj_indices_valid(objs.take(i as int)),
            names@.map_values(|s: String| s@) == first_appearances(record_names(shape_records(objs.take(i as int)))),
            table_matches(tris@, ids@, names@.map_values(|s: String| s@), triangles(shape_records(objs.take(i as int)))),
        decreases objects@.len() - i,
    {
        let obj = &objects[i];
        let ghost o = objs[i as int];
        assert(o == obj@);
        let ghost prefix = objs.take(i as int);
        let ghost vt = vertex_total(prefix);
        let ghost recs0 = shape_records(prefix);
        let ghost srecs = o.2.map_values(|s: (Seq<Seq<char>>, Option<[usize; 3]>)| shape_record(o.0, vt, s));
        let mut j: usize = 0;
        proof {
            assert(recs0 + srecs.take(0) =~= recs0);
        }
        while j < obj.shapes.len()
            invariant
                objs == objects@.map_values(|o: ObjObject| o@),
                i < objects@.len(),
                o == objs[i as int],
                o == obj@,
                prefix == objs.take(i as int),
                vt == vertex_total(prefix),
                recs0 == shape_records(prefix),
                srecs == o.2.map_values(|s: (Seq<Seq<char>>, Option<[usize; 3]>)| shape_record(o.0, vt, s)),
                base == wrap32(vt as int),
                j <= obj.shapes@.len(),
                obj_indices_valid(prefix),
                forall|s: int| 0 <= s < j ==> shape_in_range(#[trigger] o.2[s], o.1),
                names@.map_values(|s: String| s@) == first_appearances(record_names(recs0 + srecs.take(j as int))),
                table_matches(tris@, ids@, names@.map_values(|s: String| s@), triangles(recs0 + srecs.take(j as int))),
            decreases obj.shapes@.len() - j,
        {
            let shape = &obj.shapes[j];
            let ghost sv = o.2[j as int];
            assert(sv == shape@);
            let ghost rec = srecs[j as int];
            let ghost recs = recs0 + srecs.take(j as int);
            let ghost recs1 = recs0 + srecs.take(j + 1);
            assert(recs1 =~= recs.push(rec));
            let ghost nm = record_names(recs);
            assert(record_names(recs1) =~= nm.push(rec.0));
            assert(recs1.drop_last() =~= recs);
            assert(nm.push(rec.0).drop_last() =~= nm);
            let ghost tr = triangles(recs);
            let ghost names_a = names@.map_values(|s: String| s@);
            let ghost tris_a = tris@;
            let ghost ids_a = ids@;
            let name = shape_patch_name(&obj.name, &shape.groups);
            assert(name@ == rec.0);
            let id = match find_name(&names, &name) {
                Some(k) => {
                    assert(names_a[k as int] == rec.0);
                    assert(first_appearances(nm).contains(rec.0));
                    k
                },
                None => {
                    names.push(name.clone());
                    proof {
                        assert(names@.map_values(|s: String| s@) =~= names_a.push(name@));
                    }
                    names.len() - 1
                },
            };
            let ghost names_b = names@.map_values(|s: String| s@);
            assert(names_b == first_appearances(record_names(recs1)));
            assert(id < names_b.len() && names_b[id as int] == rec.0);
            assert(forall|q: int| 0 <= q < names_a.len() ==> #[trigger] names_b[q] == names_a[q]);
            match shape.triangle {
                Some(t) => {
                    if t[0] >= obj.n_vertices || t[1] >= obj.n_vertices || t[2] >= obj.n_vertices {
                        proof {
                            assert(objs[i as int].2[j as int] == sv);
                            assert(!shape_in_range(objs[i as int].2[j as int], objs[i as int].1));
                        }
                        return None;
                    }
                    let g = [offset_index(base, t[0]), offset_index(base, t[1]), offset_index(base, t[2])];
                    proof {
                        lemma_wrap_add(vt as int, t[0] as int);
                        lemma_wrap_add(vt as int, t[1] as int);
                        lemma_wrap_add(vt as int, t[2] as int);
                        assert(g =~= [wrap32(vt + t[0]), wrap32(vt + t[1]), wrap32(vt + t[2])]);
                    }
                    assert(rec.1 == Some(g));
                    tris.push(g);
                    ids.push(id);
                    proof {
                        let tr1 = triangles(recs1);
                        assert(tr1 == tr.push((rec.0, g)));
                        assert forall|k: int| 0 <= k < tr1.len() implies #[trigger] tris@[k] == tr1[k].1 by {
                            if k < tr.len() {
                                assert(tris@[k] == tris_a[k]);
                            }
                        }
                        assert forall|k: int| 0 <= k < tr1.len() implies #[trigger] ids@[k] < names_b.len() && names_b[ids@[k] as int] == tr1[k].0 by {
                            if k < tr.len() {
                                assert(ids@[k] == ids_a[k]);
                                assert(ids_a[k] < names_a.len() && names_a[ids_a[k] as int] == tr[k].0);
                            }
                        }
                    }
                },
                None => {
                    proof {
                        assert(rec.1 is None);
                        assert(triangles(recs1) == tr);
                        assert forall|k: int| 0 <= k < tr.len() implies #[trigger] ids@[k] < names_b.len() && names_b[ids@[k] as int] == tr[k].0 by {
                            assert(ids_a[k] < names_a.len() && names_a[ids_a[k] as int] == tr[k].0);
                        }
                    }
                },
            }
            proof {
                assert forall|q: int| 0 <= q < j + 1 implies shape_in_range(#[trigger] o.2[q], o.1) by {
                    if q == j {
                        assert(o.2[q] == sv);
                    }
                }
            }
            j = j + 1;
        }
        proof {
            let p1 = objs.take(i + 1);
            assert(p1.drop_last() =~= prefix);
            assert(p1.last() == o);
            assert(srecs.take(o.2.len() as int) =~= srecs);
            assert(shape_records(p1) == recs0 + srecs);
            assert(vertex_total(p1) == vt + o.1);
            assert forall|oo: int, s: int| 0 <= oo < p1.len() && 0 <= s < p1[oo].2.len() implies
                shape_in_range(#[trigger] p1[oo].2[s], p1[oo].1) by {
                if oo < i {
                    assert(p1[oo] == prefix[oo]);
                } else {
                    assert(p1[oo] == o);
                }
            }
        }
        base = offset_index(base, obj.n_vertices);
        proof {
            lemma_wrap_add(vt as int, o.1 as int);
        }
        i = i + 1;
    }
    proof {
        assert(objs.take(objects@.len() as int) =~= objs);
        lemma_first_appearances_unique(record_names(shape_records(objs)));
    }
    Some((tris, ids, names))
}

/// Surface mesh file formats that can be loaded.
#[derive(Debug, Clone, Copy, PartialEq, Eq, Structural)]
pub enum MeshFormat {
    Stl,
    Obj,
}

/// `s` spells the three-letter word `lower` in any mix of lower and upper case letters
/// (`upper` is the upper-case spelling).
pub open spec fn spells_ignoring_case(s: Seq<char>, lower: Seq<char>, upper: Seq<char>) -> bool {
    s.len() == 3 && forall|i: int| 0 <= i < 3 ==> s[i] == lower[i] || s[i] == upper[i]
}

/// The format named by a file extension, compared without regard to ASCII case: `stl` or
/// `obj`; [`None`] for any other extension.
pub fn mesh_format(ext: &str) -> (r: Option<MeshFormat>)
    ensures
        r == Some(MeshFormat::Stl) <==> spells_ignoring_case(ext@, seq!['s', 't', 'l'], seq!['S', 'T', 'L']),
        r == Some(MeshFormat::Obj) <==> spells_ignoring_case(ext@, seq!['o', 'b', 'j'], seq!['O', 'B', 'J']),
{
    if ext.unicode_len() != 3 {
        return None;
    }
    let a = ext.get_char(0);
    let b = ext.get_char(1);
    let c = ext.get_char(2);
    if (a == 's' || a == 'S') && (b == 't' || b == 'T') && (c == 'l' || c == 'L') {
        proof {
            assert forall|i: int| 0 <= i < 3 implies ext@[i] == seq!['s', 't', 'l'][i] || ext@[i] == seq!['S', 'T', 'L'][i] by {}
        }
        Some(MeshFormat::Stl)
    } else if (a == 'o' || a == 'O') && (b == 'b' || b == 'B') && (c == 'j' || c == 'J') {
        proof {
            assert forall|i: int| 0 <= i < 3 implies ext@[i] == seq!['o', 'b', 'j'][i] || ext@[i] == seq!['O', 'B', 'J'][i] by {}
            assert(!spells_ignoring_case(ext@, seq!['s', 't', 'l'], seq!['S', 'T', 'L'])) by {
                assert(!(ext@[0] == seq!['s', 't', 'l'][0] || ext@[0] == seq!['S', 'T', 'L'][0]));
            }
        }
        Some(MeshFormat::Obj)
    } else {
        proof {
            if spells_ignoring_case(ext@, seq!['s', 't', 'l'], seq!['S', 'T', 'L']) {
                assert(ext@[0] == seq!['s', 't', 'l'][0] || ext@[0] == seq!['S', 'T', 'L'][0]);
                assert(ext@[1] == seq!['s', 't', 'l'][1] || ext@[1] == seq!['S', 'T', 'L'][1]);
                assert(ext@[2] == seq!['s', 't', 'l'][2] || ext@[2] == seq!['S', 'T', 'L'][2]);
            }
            if spells_ignoring_case(ext@, seq!['o', 'b', 'j'], seq!['O', 'B', 'J']) {
                assert(ext@[0] == seq!['o', 'b', 'j'][0] || ext@[0] == seq!['O', 'B', 'J'][0]);
                assert(ext@[1] == seq!['o', 'b', 'j'][1] || ext@[1] == seq!['O', 'B', 'J'][1]);
                assert(ext@[2] == seq!['o', 'b', 'j'][2] || ext@[2] == seq!['O', 'B', 'J'][2]);
            }
        }
        None
    }
}

/// Why an OBJ surface could not be read.
#[derive(Debug)]
pub enum ObjError {
    /// A minus sign is followed by ten or more digits: a negative index the parser cannot take.
    NegativeIndexTooLong,
    /// The parser's message.
    Parse(String),
    /// A triangle refers to a vertex its object does not have.
    MissingVertex,
}

/// The patch tables are those of the objects: names in order of first appearance, no name
/// twice, and the triangle table.
pub open spec fn patch_tables(
    objs: Seq<(Seq<char>, usize, Seq<(Seq<Seq<char>>, Option<[usize; 3]>)>)>,
    tris: Seq<[u32; 3]>,
    ids: Seq<usize>,
    names: Seq<Seq<char>>,
) -> bool {
    let recs = shape_records(objs);
    &&& names == first_appearances(record_names(recs))
    &&& names.no_duplicates()
    &&& table_matches(tris, ids, names, triangles(recs))
}

/// The parse gave objects with valid indices whose tables are the given ones.
pub open spec fn parsed_tables(
    s: Result<Seq<(Seq<char>, usize, Seq<(Seq<Seq<char>>, Option<[usize; 3]>)>)>, Seq<char>>,
    tris: Seq<[u32; 3]>,
    ids: Seq<usize>,
    names: Seq<Seq<char>>,
) -> bool {
    match s {
        Ok(objs) => obj_indices_valid(objs) && patch_tables(objs, tris, ids, names),
        Err(_) => false,
    }
}

/// The parse gave objects of which some triangle refers to a missing vertex.
pub open spec fn parsed_missing_vertex(s: Result<Seq<(Seq<char>, usize, Seq<(Seq<Seq<char>>, Option<[usize; 3]>)>)>, Seq<char>>) -> bool {
    match s {
        Ok(objs) => !obj_indices_valid(objs),
        Err(_) => false,
    }
}

/// Reads an OBJ surface from its text: global triangle indices, one patch id per triangle and
/// the patch names.
pub fn obj_surface(text: &str) -> (r: Result<(Vec<[u32; 3]>, Vec<usize>, Vec<String>), ObjError>)
    ensures
        match r {
            Err(ObjError::NegativeIndexTooLong) => !negatives_short(text.spec_bytes()),
            Err(ObjError::Parse(m)) => negatives_short(text.spec_bytes())
                && obj_structure(text@) == Err::<Seq<(Seq<char>, usize, Seq<(Seq<Seq<char>>, Option<[usize; 3]>)>)>, Seq<char>>(m@),
            Err(ObjError::MissingVertex) => negatives_short(text.spec_bytes()) && parsed_missing_vertex(obj_structure(text@)),
            Ok((tris, ids, names)) => negatives_short(text.spec_bytes())
                && parsed_tables(obj_structure(text@), tris@, ids@, names@.map_values(|s: String| s@)),
        },
{
    if !negatives_are_short(text) {
        return Err(ObjError::NegativeIndexTooLong);
    }
    match parse_obj_structure(text) {
        Err(m) => Err(ObjError::Parse(m)),
        Ok(objects) => match obj_patches(objects.as_slice()) {
            Some(tables) => Ok(tables),
            None => Err(ObjError::MissingVertex),
        },
    }
}

} // verus!
