use plurtfm::design::{PcBorsign, PcbPath};
use plurtfm::flags::{PcbId, VarFlags, VarId};
use plurtfm::pcboron::{ArrowKind, Fidx, Pcboron, PcboronError};
use plurtfm::polyhedron::{Edge, Polyhedron};

fn tetrahedron() -> Polyhedron {
    let faces: Vec<Vec<u32>> = vec![vec![1, 0, 2], vec![1, 2, 3], vec![1, 3, 0], vec![0, 3, 2]];
    let mut polygon_rows = Vec::new();
    for (f, face) in faces.iter().enumerate() {
        for (i, v) in face.iter().enumerate() {
            polygon_rows.push((f as u32, *v, i as u32));
        }
    }
    let edge_rows = vec![(1, 2, 0, 1), (0, 2, 0, 3), (0, 1, 0, 2), (0, 3, 2, 3), (1, 3, 1, 2), (2, 3, 1, 3)];
    Polyhedron::from_rows("tet".to_string(), &polygon_rows, &edge_rows)
}

fn full_path() -> PcbPath {
    PcbPath { start_ngon: 3, start_nth: 0, turns: vec![0, 0, 1, 0] }
}

#[test]
fn new_lamp_takes_variants_without_consuming() {
    let map = vec![(3, vec![1, 2]), (4, vec![9])];
    let lamp = Pcboron::new(tetrahedron(), &map, &vec![]);
    assert_eq!(lamp.n(), 1);
    assert_eq!(lamp.pcbdrons()[0].variant_map, vec![1, 2, 0, 0]);
    assert_eq!(map, vec![(3, vec![1, 2]), (4, vec![9])]);
}

#[test]
fn faces_by_kind_and_by_sides() {
    let mut lamp = Pcboron::new(tetrahedron(), &vec![(3, vec![1, 2, 1])], &vec![]);
    lamp.push_polyhedron(tetrahedron());
    assert_eq!(lamp.nth_ngon(3, 5), Some((1, 1)));
    assert_eq!(lamp.nth_ngon(3, 8), None);
    assert_eq!(lamp.nth_ngon(4, 0), None);
    let one = PcbId { n_gon: 3, variant: 1 };
    assert_eq!(lamp.varid_to_fidx(VarId { nth_ngon: 1, pcb_id: one }), Some(Fidx { dridx: 0, fidx: 2 }));
    assert_eq!(lamp.varid_to_fidx(VarId { nth_ngon: 2, pcb_id: one }), None);
    let zero = PcbId { n_gon: 3, variant: 0 };
    assert_eq!(lamp.varid_to_fidx(VarId { nth_ngon: 2, pcb_id: zero }), Some(Fidx { dridx: 1, fidx: 1 }));
    assert_eq!(lamp.pcbdrons()[0].iter_variant(one), vec![0, 2]);
}

#[test]
fn set_and_put_variants() {
    let mut lamp = Pcboron::new(tetrahedron(), &vec![], &vec![]);
    lamp.push_polyhedron(tetrahedron());
    lamp.set_variant(3, 6, 7);
    assert_eq!(lamp.pcbdrons()[1].variant_map, vec![0, 0, 7, 0]);
    lamp.set_variant(3, 9, 7);
    assert_eq!(lamp.pcbdrons()[1].variant_map, vec![0, 0, 7, 0]);
    lamp.put_variant(VarId { nth_ngon: 0, pcb_id: PcbId { n_gon: 3, variant: 7 } }, 2);
    assert_eq!(lamp.pcbdrons()[1].variant_map, vec![0, 0, 2, 0]);
    // the sixth board of variant 0 is face 1 of the second pcbdron, the
    // sixth triangle over both pcbdrons
    let r = lamp.set_variant_at(VarId { nth_ngon: 5, pcb_id: PcbId { n_gon: 3, variant: 0 } }, 5);
    assert_eq!(r, Some(VarId { nth_ngon: 5, pcb_id: PcbId { n_gon: 3, variant: 5 } }));
    assert_eq!(lamp.pcbdrons()[1].variant_map, vec![0, 5, 2, 0]);
    assert_eq!(lamp.set_variant_at(VarId { nth_ngon: 0, pcb_id: PcbId { n_gon: 3, variant: 8 } }, 5), None);
}

#[test]
fn picked_board() {
    let mut lamp = Pcboron::new(tetrahedron(), &vec![], &vec![]);
    lamp.register_pcb(PcbId { n_gon: 3, variant: 0 });
    lamp.register_pcb(PcbId { n_gon: 3, variant: 4 });
    assert_eq!(lamp.pick(1, 2), Some(VarId { nth_ngon: 2, pcb_id: PcbId { n_gon: 3, variant: 4 } }));
}

#[test]
fn first_jump_sets_the_controller() {
    let mut lamp = Pcboron::new(tetrahedron(), &vec![(3, vec![4, 4, 1, 5])], &vec![]);
    let c = lamp.path_jump(0);
    assert_eq!(c, Some(VarId { nth_ngon: 0, pcb_id: PcbId { n_gon: 3, variant: 4 } }));
    // one controller only
    assert_eq!(lamp.pcbdrons()[0].variant_map, vec![4, 0, 1, 1]);
    assert!(VarFlags::Controller.has(lamp.pcbdrons()[0].variant_map[0]));
    lamp.complete_path();
    assert_eq!(lamp.get_path().0, vec![full_path()]);
    assert_eq!(lamp.last_face(), Some(Fidx { dridx: 0, fidx: 1 }));
    // a covered lamp takes no more jumps
    assert_eq!(lamp.path_jump(0), None);
    assert_eq!(lamp.pcbdrons()[0].polyhedron.edge_path.len(), 4);
}

#[test]
fn clicked_face_starts_the_path() {
    let mut lamp = Pcboron::new(tetrahedron(), &vec![], &vec![]);
    let c = lamp.add_face_to_path(VarId { nth_ngon: 3, pcb_id: PcbId { n_gon: 3, variant: 0 } });
    assert_eq!(c, Some(VarId { nth_ngon: 3, pcb_id: PcbId { n_gon: 3, variant: 4 } }));
    assert_eq!(lamp.pcbdrons()[0].variant_map, vec![0, 0, 0, 4]);
    assert_eq!(lamp.add_face_to_path(VarId { nth_ngon: 0, pcb_id: PcbId { n_gon: 3, variant: 0 } }), None);
    assert_eq!(lamp.pcbdrons()[0].polyhedron.edge_path.len(), 2);
    assert_eq!(lamp.add_face_to_path(VarId { nth_ngon: 9, pcb_id: PcbId { n_gon: 3, variant: 0 } }), None);
    assert_eq!(lamp.pcbdrons()[0].polyhedron.edge_path.len(), 2);
}

#[test]
fn pop_path_takes_from_the_last_path() {
    let mut lamp = Pcboron::new(tetrahedron(), &vec![], &vec![]);
    assert_eq!(lamp.pop_path(), None);
    lamp.path_jump(0);
    lamp.path_jump(0);
    assert_eq!(lamp.pop_path(), Some(Fidx { dridx: 0, fidx: 0 }));
    assert_eq!(lamp.pop_path(), None);
    assert_eq!(lamp.last_face(), None);
}

#[test]
fn design_round_trip() {
    let mut lamp = Pcboron::new(tetrahedron(), &vec![(3, vec![1, 2, 3, 1])], &vec![]);
    lamp.pcbdrons[0].update_path(&full_path()).unwrap();
    lamp.push_polyhedron(tetrahedron());
    let design = lamp.get_design();
    assert_eq!(design.polyhedra, vec!["tet".to_string(), "tet".to_string()]);
    assert_eq!(design.variant_map, vec![(3, vec![1, 2, 3, 1, 0, 0, 0, 0])]);
    assert_eq!(design.path, vec![full_path()]);
    assert_eq!(lamp.loads_needed(&design), vec![false, false]);
    let mut other = Pcboron::new(tetrahedron(), &vec![], &vec![]);
    assert_eq!(other.loads_needed(&design), vec![false, true]);
    let r = other.apply_design(design, vec![None, Some(tetrahedron())]);
    assert!(matches!(r, Ok(None)));
    assert_eq!(other.n(), 2);
    assert_eq!(other.pcbdrons()[0].variant_map, vec![1, 2, 3, 1]);
    assert_eq!(other.pcbdrons()[1].variant_map, vec![0, 0, 0, 0]);
    assert_eq!(other.get_path().0, vec![full_path()]);
}

#[test]
fn own_design_gives_variants_back() {
    let mut lamp = Pcboron::new(tetrahedron(), &vec![(3, vec![4, 5, 6, 7])], &vec![]);
    lamp.push_polyhedron(tetrahedron());
    lamp.set_variant(3, 5, 8);
    let before: Vec<Vec<usize>> = lamp.pcbdrons().iter().map(|d| d.variant_map.clone()).collect();
    assert_eq!(before[0], vec![4, 5, 6, 7]);
    assert_eq!(before[1][1], 8);
    let design = lamp.get_design();
    assert_eq!(lamp.loads_needed(&design), vec![false, false]);
    let r = lamp.apply_design(design, vec![None, None]);
    assert!(matches!(r, Ok(None)));
    let after: Vec<Vec<usize>> = lamp.pcbdrons().iter().map(|d| d.variant_map.clone()).collect();
    assert_eq!(after, before);
}

#[test]
fn own_design_keeps_a_lamp_with_paths() {
    let mut lamp = Pcboron::new(tetrahedron(), &vec![(3, vec![4, 5, 6, 7])], &vec![]);
    lamp.pcbdrons[0].update_path(&full_path()).unwrap();
    lamp.push_polyhedron(tetrahedron());
    lamp.pcbdrons[1].update_path(&full_path()).unwrap();
    lamp.set_variant(3, 6, 9);
    let paths: Vec<_> = lamp.pcbdrons().iter().map(|d| d.polyhedron.edge_path.clone()).collect();
    let variants: Vec<Vec<usize>> = lamp.pcbdrons().iter().map(|d| d.variant_map.clone()).collect();
    let design = lamp.get_design();
    assert_eq!(design.path, vec![full_path(), full_path()]);
    let r = lamp.apply_design(design, vec![None, None]);
    assert!(matches!(r, Ok(None)));
    let paths_after: Vec<_> = lamp.pcbdrons().iter().map(|d| d.polyhedron.edge_path.clone()).collect();
    let variants_after: Vec<Vec<usize>> = lamp.pcbdrons().iter().map(|d| d.variant_map.clone()).collect();
    assert_eq!(paths_after, paths);
    assert_eq!(variants_after, variants);
}

#[test]
fn own_design_keeps_a_path_before_a_pathless_pcbdron() {
    // the second pcbdron has no path: applying the lamp's own design keeps
    // the first one's path and gives back the same design
    let mut lamp = Pcboron::new(tetrahedron(), &vec![(3, vec![1, 2])], &vec![]);
    lamp.pcbdrons[0].update_path(&full_path()).unwrap();
    lamp.push_polyhedron(tetrahedron());
    let path = lamp.pcbdrons()[0].polyhedron.edge_path.clone();
    let design = lamp.get_design();
    assert_eq!(design.path, vec![full_path()]);
    let (names, map) = (design.polyhedra.clone(), design.variant_map.clone());
    let r = lamp.apply_design(design, vec![None, None]);
    assert!(matches!(r, Ok(None)));
    assert_eq!(lamp.pcbdrons()[0].polyhedron.edge_path, path);
    assert!(lamp.pcbdrons()[1].polyhedron.edge_path.is_empty());
    let again = lamp.get_design();
    assert_eq!(again.polyhedra, names);
    assert_eq!(again.variant_map, map);
    assert_eq!(again.path, vec![full_path()]);
}

#[test]
fn design_with_missing_polyhedron() {
    let mut lamp = Pcboron::new(tetrahedron(), &vec![], &vec![]);
    let design = PcBorsign {
        polyhedra: vec!["tet".to_string(), "tet".to_string()],
        variant_map: vec![(3, vec![5, 5, 5, 5, 6])],
        path: vec![full_path()],
    };
    let r = lamp.apply_design(design, vec![None, None]);
    let e: PcboronError = match r {
        Err(e) => e,
        Ok(_) => panic!("the second polyhedron is missing"),
    };
    assert_eq!(e.0, "Could not load \"tet\", which is the 1th polyhedron");
    // the first position was applied
    assert_eq!(lamp.n(), 1);
    assert_eq!(lamp.pcbdrons()[0].variant_map, vec![5, 5, 5, 5]);
    assert_eq!(lamp.pcbdrons()[0].polyhedron.edge_path.len(), 4);
}

#[test]
fn design_with_other_polyhedron_that_is_missing() {
    let mut lamp = Pcboron::new(tetrahedron(), &vec![], &vec![]);
    let design = PcBorsign { polyhedra: vec!["cube".to_string()], variant_map: vec![], path: vec![] };
    assert_eq!(lamp.loads_needed(&design), vec![true]);
    match lamp.apply_design(design, vec![None]) {
        Err(e) => assert_eq!(e.0, "could not apply design for poly cube"),
        Ok(_) => panic!("the cube is missing"),
    }
}

#[test]
fn design_with_failing_path_is_corrected() {
    let mut lamp = Pcboron::new(tetrahedron(), &vec![], &vec![]);
    lamp.push_polyhedron(tetrahedron());
    let design = PcBorsign {
        polyhedra: vec!["tet".to_string()],
        variant_map: vec![(3, vec![2])],
        path: vec![PcbPath { start_ngon: 3, start_nth: 0, turns: vec![0, 0, 1, 0, 5] }],
    };
    let r = lamp.apply_design(design, vec![None]).unwrap();
    let corrected = r.expect("the path turns past edge 0");
    assert_eq!(corrected.polyhedra, vec!["tet".to_string()]);
    assert_eq!(corrected.path, vec![full_path()]);
    assert_eq!(corrected.variant_map, vec![(3, vec![2, 0, 0, 0])]);
    assert_eq!(lamp.n(), 1);
}

#[test]
fn missing_board_models() {
    let mut lamp = Pcboron::new(tetrahedron(), &vec![(3, vec![4, 0, 1, 4])], &vec![]);
    lamp.push_polyhedron(tetrahedron());
    let mut pcbs = vec![Vec::new(); 11];
    pcbs[3] = vec![true, false];
    let missing = lamp.missing_variants(&pcbs);
    assert_eq!(missing.len(), 11);
    assert_eq!(missing[3], vec![4, 1]);
    assert!(missing[4].is_empty());
}

#[test]
fn drawn_path() {
    let mut lamp = Pcboron::new(tetrahedron(), &vec![], &vec![]);
    lamp.push_polyhedron(tetrahedron());
    let empty = lamp.debug_path();
    assert_eq!(empty.drons, 1);
    assert!(empty.arrows.is_empty());
    lamp.path_jump(0);
    lamp.complete_path();
    let drawn = lamp.debug_path();
    assert_eq!(drawn.drons, 2);
    assert_eq!(drawn.arrows.len(), 4);
    let kinds: Vec<ArrowKind> = drawn.arrows.iter().map(|a| a.kind).collect();
    assert_eq!(kinds, vec![ArrowKind::CentreToExit, ArrowKind::EdgeToEdge, ArrowKind::EdgeToEdge, ArrowKind::EnterToCentre]);
    for (i, a) in drawn.arrows.iter().enumerate() {
        assert_eq!((a.dron, a.step), (0, i));
        let c = colorous::MAGMA.eval_rational(i, 3);
        assert_eq!(a.color, (c.r, c.g, c.b));
        // the last exit, edge (1, 2) of face 1, starts at the vertex with the
        // face's number, so it reads as a link on to the next pcbdron
        assert_eq!(a.link_next, i == 3);
    }
    assert_ne!(drawn.arrows[0].color, drawn.arrows[3].color);
    let last = drawn.arrows[3].step;
    assert_eq!(lamp.pcbdrons()[0].polyhedron.edge_path[last].exit, Edge::from((1, 2)));
    // without a next pcbdron there is nothing to link to
    lamp.pop_polyhedron();
    let alone = lamp.debug_path();
    assert!(!alone.arrows[3].link_next);
}

#[test]
fn next_polyhedron_counts_round() {
    let lamp = Pcboron::new(tetrahedron(), &vec![], &vec![]);
    let names = vec!["cube".to_string(), "tet".to_string(), "dodecahedron".to_string()];
    assert_eq!(lamp.next_polyhedron(&names), Some(2));
    assert_eq!(lamp.next_polyhedron(&vec!["tet".to_string()]), Some(0));
    assert_eq!(lamp.next_polyhedron(&vec!["cube".to_string()]), None);
}

#[test]
fn set_and_pop_polyhedra() {
    let mut lamp = Pcboron::new(tetrahedron(), &vec![], &vec![]);
    lamp.path_jump(0);
    lamp.push_polyhedron(tetrahedron());
    let mut map = vec![(3, vec![3, 3])];
    let mut other = tetrahedron();
    other.name = "tet2".to_string();
    assert!(lamp.set_pcbdron(other, &mut map, 0).is_ok());
    // all pcbdrons are removed; this one is left alone
    assert_eq!(lamp.n(), 1);
    assert_eq!(map, vec![(3, vec![])]);
    assert_eq!(lamp.pcbdrons()[0].polyhedron.name, "tet2");
    assert!(lamp.pcbdrons()[0].polyhedron.edge_path.is_empty());
    assert_eq!(lamp.pcbdrons()[0].variant_map, vec![3, 3, 0, 0]);
    let popped = lamp.pop_polyhedron().expect("one pcbdron");
    assert_eq!(popped.polyhedron.name, "tet2");
    assert!(lamp.pop_polyhedron().is_none());
}

#[test]
fn pcboron_error_keeps_its_message() {
    assert_eq!(PcboronError::from("x".to_string()).0, "x");
}

#[test]
fn new_lamp_counts_the_present_board_models() {
    let present = vec![vec![], vec![], vec![], vec![false, true, true], vec![true]];
    let lamp = Pcboron::new(tetrahedron(), &vec![], &present);
    let tri = |variant| PcbId { n_gon: 3, variant };
    assert_eq!(lamp.pick(0, 2), Some(VarId { nth_ngon: 2, pcb_id: tri(1) }));
    assert_eq!(lamp.pick(1, 0), Some(VarId { nth_ngon: 0, pcb_id: tri(2) }));
    assert_eq!(lamp.pick(2, 1), Some(VarId { nth_ngon: 1, pcb_id: PcbId { n_gon: 4, variant: 0 } }));
    assert_eq!(lamp.instance_map.len(), 3);
}

#[test]
fn board_model_lists_are_padded_with_none() {
    let mut models: Vec<Option<u8>> = vec![Some(1)];
    plurtfm::pcboron::pad_with_none(&mut models, 3);
    assert_eq!(models, vec![Some(1), None, None]);
    plurtfm::pcboron::pad_with_none(&mut models, 2);
    assert_eq!(models, vec![Some(1), None, None]);
}

#[test]
fn pcbdron_design_applied_back_keeps_its_variants() {
    let mut lamp = Pcboron::new(tetrahedron(), &vec![(3, vec![4, 5, 6, 7])], &vec![]);
    let before = lamp.pcbdrons()[0].variant_map.clone();
    let mut design = lamp.pcbdrons()[0].get_design();
    lamp.pcbdrons[0].apply_variant_map(&mut design.variant_map);
    assert_eq!(lamp.pcbdrons()[0].variant_map, before);
    assert!(design.variant_map.iter().all(|(_, vars)| vars.is_empty()));
}
