use plurtfm::design::{PcBorsign, PcbDrosign, PcbPath, PcbPaths};

#[test]
fn add_merges_variants_per_ngon() {
    let sign = PcBorsign {
        polyhedra: vec!["a".to_string()],
        variant_map: vec![(3, vec![1]), (4, vec![2])],
        path: vec![],
    };
    let dro = PcbDrosign {
        polyhedron: "b".to_string(),
        variant_map: vec![(4, vec![3]), (5, vec![4]), (4, vec![5])],
        path: Some(PcbPath::default()),
    };
    let r = sign.add(dro);
    assert_eq!(r.polyhedra, vec!["a".to_string(), "b".to_string()]);
    assert_eq!(r.variant_map, vec![(3, vec![1]), (4, vec![2, 3, 5]), (5, vec![4])]);
    assert_eq!(r.path, vec![PcbPath { start_ngon: 3, start_nth: 0, turns: vec![] }]);
}

#[test]
fn add_without_path_keeps_paths() {
    let sign = PcBorsign { polyhedra: vec![], variant_map: vec![], path: vec![PcbPath::default()] };
    let dro = PcbDrosign { polyhedron: "c".to_string(), variant_map: vec![], path: None };
    let r = sign.add(dro);
    assert_eq!(r.path.len(), 1);
    assert_eq!(r.polyhedra, vec!["c".to_string()]);
}

#[test]
fn from_one_design_is_adding_it_to_nothing() {
    let mk = || PcbDrosign {
        polyhedron: "cube".to_string(),
        variant_map: vec![(4, vec![1, 2, 3, 4, 5, 6])],
        path: Some(PcbPath { start_ngon: 4, start_nth: 2, turns: vec![1, 0] }),
    };
    let a = PcBorsign::from(mk());
    let b = PcBorsign::default().add(mk());
    assert_eq!(a.polyhedra, b.polyhedra);
    assert_eq!(a.variant_map, b.variant_map);
    assert_eq!(a.path, b.path);
    let none = PcBorsign::from(PcbDrosign { polyhedron: "x".to_string(), variant_map: vec![], path: None });
    assert!(none.path.is_empty());
}

#[test]
fn default_design_and_path() {
    let d = PcBorsign::default();
    assert!(d.polyhedra.is_empty() && d.variant_map.is_empty() && d.path.is_empty());
    let p = PcbPath::default();
    assert_eq!((p.start_ngon, p.start_nth), (3, 0));
    assert!(p.turns.is_empty());
}

#[test]
fn paths_compare_by_start_and_turns() {
    let a = PcbPath { start_ngon: 3, start_nth: 1, turns: vec![2, 3] };
    assert!(a.same(&PcbPath { start_ngon: 3, start_nth: 1, turns: vec![2, 3] }));
    assert!(!a.same(&PcbPath { start_ngon: 3, start_nth: 1, turns: vec![2, 4] }));
    assert!(!a.same(&PcbPath { start_ngon: 3, start_nth: 1, turns: vec![2] }));
    assert!(!a.same(&PcbPath { start_ngon: 4, start_nth: 1, turns: vec![2, 3] }));
    assert_eq!(PcbPaths::from(vec![a]).0.len(), 1);
}
