use plurtfm::design::PcbPath;
use plurtfm::load::{edges_from_rows, group_faces};
use plurtfm::make_path::{PolygonCrossing, PolygonVisit};
use plurtfm::polyhedron::{Edge, PolyError, Polyhedron};

/// The tetrahedron: faces 0..4 as vertex cycles, and its six edges with the
/// two faces each joins.
fn tetrahedron() -> Polyhedron {
    //     1
    //     r
    //   p 0 t
    //   q   s
    // 2   u   3
    let faces: Vec<Vec<u32>> = vec![vec![1, 0, 2], vec![1, 2, 3], vec![1, 3, 0], vec![0, 3, 2]];
    let mut polygon_rows = Vec::new();
    for (f, face) in faces.iter().enumerate() {
        for (i, v) in face.iter().enumerate() {
            polygon_rows.push((f as u32, *v, i as u32));
        }
    }
    let edge_rows = vec![
        (1, 2, 0, 1), // p
        (0, 2, 0, 3), // q
        (0, 1, 0, 2), // r
        (0, 3, 2, 3), // s
        (1, 3, 1, 2), // t
        (2, 3, 1, 3), // u
    ];
    assert_eq!(group_faces(&polygon_rows), faces);
    Polyhedron::from_rows("tet".to_string(), &polygon_rows, &edge_rows)
}

#[test]
fn test_make_path_tet() {
    let mut tet = tetrahedron();
    assert!(tet.is_wf());
    tet.path_jump(0);
    tet.complete_path();
    assert_eq!(
        tet.edge_path,
        vec![
            PolygonCrossing { face_idx: 0, enter: Edge::from((1, 0)), exit: Edge::from((0, 2)) },
            PolygonCrossing { face_idx: 3, enter: Edge::from((2, 0)), exit: Edge::from((0, 3)) },
            PolygonCrossing { face_idx: 2, enter: Edge::from((3, 0)), exit: Edge::from((1, 3)) },
            PolygonCrossing { face_idx: 1, enter: Edge::from((3, 1)), exit: Edge::from((1, 2)) },
        ]
    );
}

fn tet_path() -> Vec<PolygonCrossing> {
    vec![
        PolygonCrossing { face_idx: 0, enter: Edge::from((1, 0)), exit: Edge::from((0, 2)) },
        PolygonCrossing { face_idx: 3, enter: Edge::from((2, 0)), exit: Edge::from((0, 3)) },
        PolygonCrossing { face_idx: 2, enter: Edge::from((3, 0)), exit: Edge::from((1, 3)) },
        PolygonCrossing { face_idx: 1, enter: Edge::from((3, 1)), exit: Edge::from((1, 2)) },
    ]
}

#[test]
fn path_reads_back_as_turns() {
    let mut tet = tetrahedron();
    tet.path_jump(0);
    assert!(tet.complete_path());
    assert!(tet.path_complete_questionmark());
    let read = tet.current_path();
    assert_eq!(read, Some(Ok(PcbPath { start_ngon: 3, start_nth: 0, turns: vec![0, 0, 1, 0] })));
}

#[test]
fn applied_path_reads_back() {
    let path = PcbPath { start_ngon: 3, start_nth: 0, turns: vec![0, 0, 1, 0] };
    let mut tet = tetrahedron();
    assert_eq!(tet.apply_path(&path), Ok(()));
    assert_eq!(tet.edge_path, tet_path());
    assert_eq!(tet.current_path(), Some(Ok(path)));
}

#[test]
fn applied_path_with_revisit_reads_back() {
    // the fifth crossing enters face 0 again through its edge 2 and turns
    // back two edges, to edge 0
    let path = PcbPath { start_ngon: 3, start_nth: 0, turns: vec![0, 0, 1, 0, 2] };
    let mut tet = tetrahedron();
    assert_eq!(tet.apply_path(&path), Ok(()));
    let mut expected = tet_path();
    expected.push(PolygonCrossing { face_idx: 0, enter: Edge::from((2, 1)), exit: Edge::from((1, 0)) });
    assert_eq!(tet.edge_path, expected);
    assert_eq!(tet.current_path(), Some(Ok(path)));
}

#[test]
fn apply_path_stops_at_turn_past_edge_zero() {
    let path = PcbPath { start_ngon: 3, start_nth: 0, turns: vec![0, 0, 1, 0, 5] };
    let mut tet = tetrahedron();
    assert_eq!(tet.apply_path(&path), Err(4));
    assert_eq!(tet.edge_path, tet_path());
}

#[test]
fn apply_path_without_start_face() {
    let mut tet = tetrahedron();
    tet.path_jump(1);
    assert_eq!(tet.apply_path(&PcbPath { start_ngon: 4, start_nth: 0, turns: vec![0] }), Err(0));
    assert!(tet.edge_path.is_empty());
    assert_eq!(tet.current_path(), None);
}

#[test]
fn apply_path_of_no_turn_or_one() {
    let mut tet = tetrahedron();
    assert_eq!(tet.apply_path(&PcbPath { start_ngon: 3, start_nth: 2, turns: vec![] }), Ok(()));
    assert!(tet.edge_path.is_empty());
    assert_eq!(tet.apply_path(&PcbPath { start_ngon: 3, start_nth: 2, turns: vec![7] }), Ok(()));
    assert_eq!(
        tet.edge_path,
        vec![PolygonCrossing { face_idx: 2, enter: Edge::from((1, 3)), exit: Edge::from((3, 0)) }]
    );
    assert_eq!(tet.current_path(), Some(Ok(PcbPath { start_ngon: 3, start_nth: 2, turns: vec![0] })));
}

#[test]
fn pop_path_undoes_jump() {
    let mut tet = tetrahedron();
    assert_eq!(tet.path_jump(5), Some(1));
    assert_eq!(tet.edge_path, vec![PolygonCrossing { face_idx: 1, enter: Edge::from((1, 2)), exit: Edge::dev() }]);
    assert_eq!(tet.path_jump(0), None);
    assert_eq!(tet.edge_path.len(), 2);
    assert_eq!(tet.pop_path(), Some(1));
    assert_eq!(tet.edge_path.len(), 1);
    assert_eq!(tet.pop_path(), None);
    assert!(tet.edge_path.is_empty());
    assert_eq!(tet.pop_path(), None);
}

#[test]
fn add_face_to_path_starts_and_extends() {
    let mut tet = tetrahedron();
    assert_eq!(tet.add_face_to_path(2), Some(2));
    assert_eq!(tet.add_face_to_path(3), None);
    assert_eq!(tet.edge_path[0].exit, Edge::from((3, 0)));
    assert_eq!(tet.edge_path[1].face_idx, 3);
    assert_eq!(tet.edge_path[1].enter, Edge::from((0, 3)));
    assert_eq!(tet.edge_path[1].exit, Edge::dev());
    // face 3 was rotated to be entered through its edge 0
    assert_eq!(tet.edge_from_face(3, 0), Edge::from((0, 3)));
}

#[test]
fn clear_path_empties_everything() {
    let mut tet = tetrahedron();
    tet.path_jump(0);
    tet.complete_path();
    tet.clear_path();
    assert!(tet.edge_path.is_empty());
    assert!(!tet.path_complete_questionmark());
}

#[test]
fn no_edge_between_a_face_and_itself() {
    let tet = tetrahedron();
    let e = tet.edge_from_two_faces(0, 0);
    assert_eq!(e.unwrap_err().0, "No edge connecting face 0 with 0");
    assert_eq!(tet.edge_from_two_faces(0, 3).unwrap(), Edge::from((0, 2)));
    assert_eq!(tet.edge_from_two_faces(3, 0).unwrap(), Edge::from((2, 0)));
}

#[test]
fn triangles_cannot_be_revisited() {
    let tet = tetrahedron();
    assert!(!tet.can_revisit(0, Edge::from((0, 1))));
}

#[test]
fn faces_and_edges_of_the_tetrahedron() {
    let tet = tetrahedron();
    assert_eq!(tet.iter_ngon(3), vec![0, 1, 2, 3]);
    assert!(tet.iter_ngon(4).is_empty());
    assert_eq!(tet.edge_n_on_face(0, Edge::from((2, 1))), Some(2));
    assert_eq!(tet.edge_n_on_face(0, Edge::from((1, 2))), None);
    assert_eq!(tet.other_face(0, 0), 2);
    assert_eq!(tet.edge_from_face(1, 4), Edge::from((2, 3)));
    assert_eq!(tet.face_edges(1, 1), vec![Edge::from((2, 3)), Edge::from((3, 1))]);
    assert_eq!(tet.triangulate(), vec![[1, 0, 2], [1, 2, 3], [1, 3, 0], [0, 3, 2]]);
}

#[test]
fn fan_of_a_square() {
    let rows = vec![(7, 4, 0), (7, 5, 1), (7, 6, 2), (7, 9, 3)];
    let p = Polyhedron::from_rows("square".to_string(), &rows, &vec![]);
    assert_eq!(p.triangulate(), vec![[4, 5, 6], [4, 6, 9]]);
    assert!(!p.is_wf());
}

#[test]
fn edge_helpers() {
    assert_eq!(Edge::from((3, 1)).rev(), Edge::from((1, 3)));
    assert_eq!(Edge::from((3, 1)).sorted(), Edge::from((1, 3)));
    assert_eq!(Edge::from((1, 3)).sorted(), Edge::from((1, 3)));
    assert_eq!(Edge::dev(), Edge { start: u32::MAX, end: u32::MAX });
    let v = PolygonCrossing { face_idx: 2, enter: Edge::from((1, 2)), exit: Edge::dev() }.to_visit();
    assert_eq!(v, PolygonVisit { face_idx: 2, enter: Edge::from((1, 2)) });
    assert_eq!(
        v.exit(Edge::from((2, 3))),
        PolygonCrossing { face_idx: 2, enter: Edge::from((1, 2)), exit: Edge::from((2, 3)) }
    );
}

#[test]
fn rows_group_into_faces_and_edges() {
    let rows = vec![(0, 1, 0), (0, 2, 1), (0, 3, 2), (5, 3, 0), (5, 2, 1), (5, 4, 2), (0, 9, 0)];
    assert_eq!(group_faces(&rows), vec![vec![1, 2, 3], vec![3, 2, 4], vec![9]]);
    assert!(group_faces(&vec![]).is_empty());
    let edges = edges_from_rows(&vec![(1, 2, 0, 1), (2, 3, 1, 2), (1, 2, 4, 5)]);
    assert_eq!(edges.len(), 2);
    assert_eq!(edges[0].0, Edge::from((1, 2)));
    assert_eq!(edges[0].1.faces, [4, 5]);
    assert_eq!(edges[1].1.faces, [1, 2]);
}

#[test]
fn reversed_face_is_not_well_formed() {
    let mut tet = tetrahedron();
    tet.reverse_face(0);
    assert_eq!(tet.faces[0], vec![2, 0, 1]);
    assert!(!tet.is_wf());
    tet.reverse_face(0);
    assert!(tet.is_wf());
}

#[test]
fn poly_error_keeps_its_message() {
    assert_eq!(PolyError::from("bad".to_string()).0, "bad");
}

/// A hexagonal prism: face 0 the top hexagon, face 1 the bottom one, faces
/// 2 to 7 the squares around; the edge rows are found from the faces.
fn hexagonal_prism() -> Polyhedron {
    let mut faces: Vec<Vec<u32>> = vec![vec![0, 1, 2, 3, 4, 5], vec![6, 11, 10, 9, 8, 7]];
    for i in 0..6u32 {
        let j = (i + 1) % 6;
        faces.push(vec![j, i, 6 + i, 6 + j]);
    }
    let mut polygon_rows = Vec::new();
    for (f, face) in faces.iter().enumerate() {
        for (i, v) in face.iter().enumerate() {
            polygon_rows.push((f as u32, *v, i as u32));
        }
    }
    let mut edge_rows = Vec::new();
    for (f, face) in faces.iter().enumerate() {
        for i in 0..face.len() {
            let (u, v) = (face[i], face[(i + 1) % face.len()]);
            if u < v {
                let g = faces
                    .iter()
                    .position(|h| (0..h.len()).any(|k| h[k] == v && h[(k + 1) % h.len()] == u))
                    .unwrap();
                edge_rows.push((u, v, f as u32, g as u32));
            }
        }
    }
    Polyhedron::from_rows("hexagonal prism".to_string(), &polygon_rows, &edge_rows)
}

#[test]
fn crossing_rule_on_a_hexagon() {
    // the path crosses the top hexagon from its edge 0 to its edge 3, so
    // entering it again is refused through edges 0 to 3 and allowed
    // through 4 and 5
    let mut prism = hexagonal_prism();
    assert!(prism.is_wf());
    let path = PcbPath { start_ngon: 6, start_nth: 0, turns: vec![2, 0] };
    assert_eq!(prism.apply_path(&path), Ok(()));
    assert_eq!(prism.edge_path[0], PolygonCrossing { face_idx: 0, enter: Edge::from((0, 1)), exit: Edge::from((3, 4)) });
    for k in 0..6 {
        let e = prism.edge_from_face(0, k);
        assert_eq!(prism.can_revisit(0, e), k >= 4, "edge {k}");
    }
}

#[test]
fn no_edge_message_writes_the_faces_in_decimal() {
    let tet = tetrahedron();
    assert_eq!(tet.edge_from_two_faces(12, 0).unwrap_err().0, "No edge connecting face 12 with 0");
}

#[test]
fn crossing_rule_on_a_lone_hexagon() {
    // one hexagon crossed from edge 0 to edge 3: "03 disallows 0,1,2,3"
    let polygon_rows: Vec<(u32, u32, u32)> = (0..6u32).map(|v| (0, v, v)).collect();
    let mut hex = Polyhedron::from_rows("hexagon".to_string(), &polygon_rows, &vec![]);
    hex.cross(PolygonCrossing { face_idx: 0, enter: Edge::from((0, 1)), exit: Edge::from((3, 4)) });
    for (a, b, ok) in [(0, 1, false), (1, 2, false), (2, 3, false), (3, 4, false), (4, 5, true), (5, 0, true)] {
        assert_eq!(hex.can_revisit(0, Edge::from((a, b))), ok, "edge {a}{b}");
    }
}

#[test]
fn find_path_covers_the_tetrahedron() {
    let mut tet = tetrahedron();
    assert!(tet.find_path(0));
    let mut faces: Vec<usize> = tet.edge_path.iter().map(|c| c.face_idx).collect();
    assert_eq!(faces[0], 0);
    assert_eq!(tet.edge_path[0].enter, Edge::from((1, 0)));
    faces.sort();
    faces.dedup();
    assert_eq!(faces, vec![0, 1, 2, 3]);
    assert!(tet.current_path().is_some());
}

#[test]
fn read_clear_apply_gives_the_path_back() {
    let mut tet = tetrahedron();
    assert!(tet.find_path(0));
    let before = tet.edge_path.clone();
    let p = tet.current_path().unwrap().unwrap();
    tet.clear_path();
    assert_eq!(tet.apply_path(&p), Ok(()));
    assert_eq!(tet.edge_path, before);
    assert_eq!(tet.current_path(), Some(Ok(p)));
}
