use fluxel::obj::{
    mesh_format, negatives_are_short, obj_patches, obj_surface, parse_obj_structure, MeshFormat, ObjError,
    ObjObject, ObjShape,
};

#[test]
fn from_obj_file_loads_single_triangle() {
    let text = "o test\nv 0 0 0\nv 1 0 0\nv 0 1 0\nf 1 2 3\n";
    let (indices, patch_ids, patch_names) = obj_surface(text).expect("parse obj");
    assert_eq!(indices.len(), 1);
    assert!(!patch_names.is_empty());
    // The parser fans a face out from its last vertex.
    assert_eq!(indices, vec![[2, 0, 1]]);
    assert_eq!(patch_ids, vec![0]);
}

fn shape(groups: &[&str], triangle: Option<[usize; 3]>) -> ObjShape {
    ObjShape { groups: groups.iter().map(|g| g.to_string()).collect(), triangle }
}

#[test]
fn obj_patches_names_ids_and_offsets() {
    let objects = vec![
        ObjObject {
            name: "body".to_string(),
            n_vertices: 4,
            shapes: vec![
                shape(&["wall"], Some([0, 1, 2])),
                shape(&[], None),
                shape(&["inlet", "x"], Some([1, 2, 3])),
                shape(&["wall"], Some([3, 2, 0])),
            ],
        },
        ObjObject {
            name: String::new(),
            n_vertices: 3,
            shapes: vec![shape(&["wall"], Some([0, 1, 2])), shape(&[], Some([2, 1, 0]))],
        },
    ];
    let (indices, ids, names) = obj_patches(&objects).unwrap();
    assert_eq!(
        names,
        vec!["body_wall", "body__default", "body_inlet", "wall", "_default"]
    );
    assert_eq!(ids, vec![0, 2, 0, 3, 4]);
    assert_eq!(indices, vec![[0, 1, 2], [1, 2, 3], [3, 2, 0], [4, 5, 6], [6, 5, 4]]);
}

#[test]
fn obj_patches_rejects_missing_vertex() {
    let objects = vec![ObjObject {
        name: "a".to_string(),
        n_vertices: 2,
        shapes: vec![shape(&[], Some([0, 1, 2]))],
    }];
    assert!(obj_patches(&objects).is_none());
}

#[test]
fn parse_obj_structure_reports_errors_and_shapes() {
    assert!(parse_obj_structure("o a\nv 0 0 0\nbogus line\n").is_err());
    let objects = parse_obj_structure("o a\nv 0 0 0\nv 1 0 0\nv 0 1 0\ng top\nf 1 2 3\nl 1 2\n").unwrap();
    assert_eq!(objects.len(), 1);
    assert_eq!(objects[0].name, "a");
    assert_eq!(objects[0].n_vertices, 3);
    assert_eq!(objects[0].shapes.len(), 2);
    assert_eq!(objects[0].shapes[0].groups, vec!["top".to_string()]);
    assert_eq!(objects[0].shapes[0].triangle, Some([2, 0, 1]));
    assert_eq!(objects[0].shapes[1].triangle, None);
}

#[test]
fn mesh_format_ignores_ascii_case() {
    assert_eq!(mesh_format("stl"), Some(MeshFormat::Stl));
    assert_eq!(mesh_format("StL"), Some(MeshFormat::Stl));
    assert_eq!(mesh_format("OBJ"), Some(MeshFormat::Obj));
    assert_eq!(mesh_format("ply"), None);
    assert_eq!(mesh_format("stla"), None);
    assert_eq!(mesh_format(""), None);
}

#[test]
fn obj_surface_errors() {
    let huge = "v 0 0 0\nv 1 0 0\nv 0 1 0\nf -9223372036854775808 1 2\n";
    assert!(!negatives_are_short(huge));
    assert!(matches!(obj_surface(huge), Err(ObjError::NegativeIndexTooLong)));
    assert!(negatives_are_short("v -0.5 -123456789 1e-10\nf -1 -2 -3\n"));
    assert!(!negatives_are_short("x -1234567890"));
    assert!(matches!(obj_surface("o a\nbogus\n"), Err(ObjError::Parse(_))));
    // Short negative indices reach the parser, which reports them out of range.
    assert!(matches!(
        obj_surface("o a\nv 0 0 0\nv 1 0 0\nv 0 1 0\nf -3 -2 -1\n"),
        Err(ObjError::Parse(_))
    ));
    let (tris, ids, names) = obj_surface("o a\nv 0 0 0\nv 1 0 0\nv 0 1 0\nf 1 2 3\n").unwrap();
    assert_eq!(tris.len(), 1);
    assert_eq!(ids, vec![0]);
    assert_eq!(names, vec!["a__default"]);
}
