//! A path read back in full applies again to the same crossings.
use crate::design::PcbPath;
use crate::make_path::PolygonCrossing;
use crate::polyhedron::{lemma_ngons_same, lemma_ngons_upto, nxt, Edge, Polyhedron};
use vstd::arithmetic::div_mod::lemma_small_mod;
use vstd::prelude::*;

verus! {

/// The path has the shape of a walk: a face crossed for the first time is
/// entered through its edge 0 and left through another edge; a face
/// crossed again is not entered through its edge 0.
pub open spec fn walk_shaped(s: Polyhedron) -> bool {
    forall|j: int|
        0 <= j < s.edge_path@.len() ==> {
            let c = #[trigger] s.edge_path@[j];
            let f = c.face_idx as int;
            if !Polyhedron::on_path_before(s.edge_path@, j, f) {
                c.enter == s.fedge(f, 0) && s.pos_of(f, c.exit) != 0
            } else {
                c.enter != s.fedge(f, 0)
            }
        }
}

/// Crossing `j` of a walk-shaped path that reads back as `p` leaves as its
/// turn says.
proof fn lemma_read_step(s: Polyhedron, p: PcbPath, j: int)
    requires
        s.path_inv(),
        s.path_real(),
        walk_shaped(s),
        s.reads_as(p),
        p.turns@.len() == s.edge_path@.len(),
        0 <= j < s.edge_path@.len(),
    ensures
        ({
            let c = s.edge_path@[j];
            let f = c.face_idx as int;
            let n = s.face(f).len() as int;
            &&& 0 <= f < s.nf()
            &&& !Polyhedron::on_path_before(s.edge_path@, j, f) ==> c.enter == s.fedge(f, 0) && c.exit == s.fedge(
                f,
                (p.turns@[j] + 1) % n,
            )
            &&& Polyhedron::on_path_before(s.edge_path@, j, f) ==> s.pos_of(f, c.enter) >= p.turns@[j]
                && c.exit == s.fedge(f, s.pos_of(f, c.enter) - p.turns@[j])
        }),
{
    let path = s.edge_path@;
    let t = p.turns@;
    let c = path[j];
    let f = c.face_idx as int;
    let n = s.face(f).len() as int;
    assert(s.crossing_ok(j));
    assert(s.on_face(f, c.exit));
    assert(s.face(f).len() <= usize::MAX) by {
        broadcast use vstd::std_specs::vec::axiom_spec_len;
        assert(s.faces@[f].len() == s.face(f).len());
    }
    let x = s.pos_of(f, c.exit);
    assert(0 <= x < n && s.fedge(f, x) == c.exit);
    assert(s.turn_at(j) == Some(t[j]));
    assert(c == s.edge_path@[j]);
    if !Polyhedron::on_path_before(path, j, f) {
        assert(c.enter == s.fedge(f, 0) && x != 0);
        assert(t[j] + 1 == x);
        lemma_small_mod((t[j] + 1) as nat, n as nat);
    } else {
        assert(c.enter != s.fedge(f, 0));
        let e = s.pos_of(f, c.enter);
        assert(0 <= e < n && s.fedge(f, e) == c.enter);
    }
}

/// A walk-shaped path that reads back in full as `p` is the walk of `p`.
pub proof fn lemma_read_walks(s: Polyhedron, p: PcbPath)
    requires
        s.path_inv(),
        s.path_real(),
        s.chain_from(0),
        walk_shaped(s),
        s.reads_as(p),
        p.turns@.len() == s.edge_path@.len(),
        s.edge_path@.len() >= 1,
    ensures
        s.walks(p, p.turns@.len() as int),
{
    let path = s.edge_path@;
    let t = p.turns@;
    let first = path[0].face_idx as int;
    assert(s.crossing_ok(0));
    s.lemma_ngon_index(first);
    lemma_read_step(s, p, 0);
    assert(!Polyhedron::on_path_before(path, 0, first));
    assert forall|j: int| 1 <= j < t.len() implies #[trigger] s.step_ok(t, j) by {
        lemma_read_step(s, p, j);
        let i = j - 1;
        assert(s.edge_path@[i + 1] == path[j]);
        assert(s.edge_path@[i + 1].enter == s.edge_path@[i].exit.spec_rev());
    }
}

/// Equivalent faces that agree on the edge `f`'s cycle starts with agree
/// on its first `k + 1` vertices.
proof fn lemma_cycle_prefix(a: Polyhedron, b: Polyhedron, f: int, k: int)
    requires
        a.faces_equiv(b),
        0 <= f < a.nf(),
        a.face(f).no_duplicates(),
        0 <= k < a.face(f).len(),
        b.fedge(f, 0) == a.fedge(f, 0),
    ensures
        forall|i: int| 0 <= i <= k ==> b.face(f)[i] == a.face(f)[i],
    decreases k,
{
    let n = a.face(f).len() as int;
    assert(b.face(f).len() == n);
    assert(b.face(f).no_duplicates());
    if k == 0 {
        assert(b.face(f)[0] == b.fedge(f, 0).start);
    } else {
        lemma_cycle_prefix(a, b, f, k - 1);
        let i = k - 1;
        let e = a.fedge(f, i);
        assert(nxt(i, n) == k);
        assert(a.on_face(f, e));
        assert(b.on_face(f, e));
        let m = choose|m: int| 0 <= m < b.face(f).len() && #[trigger] b.fedge(f, m) == e;
        assert(b.face(f)[m] == a.face(f)[i]);
        assert(b.face(f)[i] == a.face(f)[i]);
        assert(m == i);
        assert(b.face(f)[k] == e.end);
    }
}

/// Equivalent faces that start with the same edge are the same cycle.
pub proof fn lemma_cycle_same(a: Polyhedron, b: Polyhedron, f: int)
    requires
        a.faces_equiv(b),
        0 <= f < a.nf(),
        a.face(f).no_duplicates(),
        a.face(f).len() >= 1,
        b.fedge(f, 0) == a.fedge(f, 0),
    ensures
        b.face(f) == a.face(f),
{
    let n = a.face(f).len() as int;
    lemma_cycle_prefix(a, b, f, n - 1);
    assert(b.face(f) =~= a.face(f));
}

/// Two walks of `p` over equivalent faces with the same edge table, from
/// the same start face, cross the same faces in the same way, and the faces
/// they cross are the same cycles.
pub proof fn lemma_walk_same(s: Polyhedron, t: Polyhedron, p: PcbPath, m: int)
    requires
        s.path_inv(),
        s.faces_equiv(t),
        t.edges == s.edges,
        s.walks(p, m),
        t.walks(p, m),
        t.faces@[s.edge_path@[0].face_idx as int] == s.faces@[s.edge_path@[0].face_idx as int],
    ensures
        forall|j: int|
            0 <= j < m ==> #[trigger] t.edge_path@[j] == s.edge_path@[j] && t.face(s.edge_path@[j].face_idx as int)
                == s.face(s.edge_path@[j].face_idx as int),
    decreases m,
{
    let sp = s.edge_path@;
    let tp = t.edge_path@;
    assert forall|f: int| 0 <= f < s.faces@.len() implies #[trigger] t.faces@[f]@.len() == s.faces@[f]@.len() by {
        assert(t.face(f).len() == s.face(f).len());
    }
    lemma_ngons_same(s.faces@, t.faces@, p.start_ngon as nat, s.nf());
    if m == 1 {
        let start = sp[0].face_idx as int;
        assert(t.face(start) == s.face(start));
        assert(tp[0] == sp[0]);
    } else {
        assert(s.walks(p, m - 1));
        assert(t.walks(p, m - 1));
        lemma_walk_same(s, t, p, m - 1);
        let j = m - 1;
        assert(s.step_ok(p.turns@, j));
        assert(t.step_ok(p.turns@, j));
        assert(tp[j - 1] == sp[j - 1]);
        assert(t.edges@ == s.edges@);
        let f = sp[j].face_idx as int;
        assert(tp[j].face_idx == sp[j].face_idx);
        assert(tp[j].enter == sp[j].enter);
        assert(s.crossing_ok(j));
        assert(Polyhedron::on_path_before(tp, j, f) == Polyhedron::on_path_before(sp, j, f)) by {
            if Polyhedron::on_path_before(sp, j, f) {
                let k = choose|k: int| 0 <= k < j && #[trigger] sp[k].face_idx == f;
                assert(tp[k] == sp[k]);
            }
            if Polyhedron::on_path_before(tp, j, f) {
                let k = choose|k: int| 0 <= k < j && #[trigger] tp[k].face_idx == f;
                assert(tp[k] == sp[k]);
            }
        }
        if !Polyhedron::on_path_before(sp, j, f) {
            assert(t.fedge(f, 0) == s.fedge(f, 0));
            lemma_cycle_same(s, t, f);
        } else {
            let k = choose|k: int| 0 <= k < j && #[trigger] sp[k].face_idx == f;
            assert(tp[k] == sp[k]);
            assert(t.face(f) == s.face(f));
        }
        assert(tp[j] == sp[j]);
        assert(t.face(f) == s.face(f));
        assert forall|i: int| 0 <= i < m implies #[trigger] t.edge_path@[i] == s.edge_path@[i] && t.face(
            s.edge_path@[i].face_idx as int,
        ) == s.face(s.edge_path@[i].face_idx as int) by {
            if i < m - 1 {
                assert(t.edge_path@[i] == s.edge_path@[i]);
            }
        }
    }
}

/// Reading a path, clearing it and applying what was read gives it back: a
/// walk-shaped path of at least two crossings that `s.current_path()`
/// reads in full as `p`, cleared (`sc`, as `clear_path` leaves it) and
/// then applied with `sc.apply_path(&p)` (ending in `new` with result `r`),
/// applies without error, crosses the faces as `s` did, and reads back as
/// `p` again.
pub proof fn lemma_read_clear_apply(s: Polyhedron, p: PcbPath, sc: Polyhedron, new: Polyhedron, r: Result<(), usize>)
    requires
        s.path_inv(),
        s.path_real(),
        s.chain_from(0),
        walk_shaped(s),
        s.edge_path@.len() >= 2,
        s.reads_as(p),
        p.turns@.len() == s.edge_path@.len(),
        sc.faces == s.faces,
        sc.edges == s.edges,
        sc.applies(new, p, r),
    ensures
        r is Ok,
        new.edge_path@ == s.edge_path@,
        new.reads_as(p),
{
    let sp = s.edge_path@;
    let len = sp.len() as int;
    lemma_read_walks(s, p);
    let start = sp[0].face_idx as int;
    assert(sc.faces@ == s.faces@);
    assert(sc.ngons(p.start_ngon as nat) == s.ngons(p.start_ngon as nat));
    s.lemma_same_faces(sc);
    crate::make_path::lemma_equiv_trans(s, sc, new);
    assert(new.faces@[start] == s.faces@[start]);
    assert(new.edges@ == s.edges@);
    if r is Err {
        let i = r->Err_0;
        {
            let np = new.edge_path@;
            assert(s.walks(p, i as int));
            lemma_walk_same(s, new, p, i as int);
            let g = new.other_face_of(np[i - 1].face_idx as int, np[i - 1].exit);
            assert(np[i - 1] == sp[i - 1]);
            assert(s.step_ok(p.turns@, i as int));
            assert(g == sp[i as int].face_idx);
            let k = choose|k: int| 0 <= k < i && #[trigger] np[k].face_idx == g;
            assert(np[k] == sp[k]);
            assert(Polyhedron::on_path_before(sp, i as int, g));
            assert(new.face(g) == s.face(g));
            assert(sp[i as int].enter == np[i - 1].exit.spec_rev());
            assert(new.pos_of(g, np[i - 1].exit.spec_rev()) == s.pos_of(g, sp[i as int].enter));
            assert(false);
        }
    } else {
        {
            lemma_walk_same(s, new, p, len);
            assert(new.edge_path@ =~= sp);
            assert forall|f: int| 0 <= f < s.faces@.len() implies #[trigger] new.faces@[f]@.len() == s.faces@[f]@.len() by {
                assert(new.face(f).len() == s.face(f).len());
            }
            lemma_ngons_same(s.faces@, new.faces@, p.start_ngon as nat, s.nf());
            assert(new.face(start) == s.face(start));
            assert(new.ngons(p.start_ngon as nat) == s.ngons(p.start_ngon as nat));
            assert(new.ngon_index(start) == s.ngon_index(start));
            assert forall|j: int| 0 <= j < p.turns@.len() implies new.turn_at(j) == Some(#[trigger] p.turns@[j]) by {
                assert(new.edge_path@[j] == sp[j]);
                assert(new.face(sp[j].face_idx as int) == s.face(sp[j].face_idx as int));
                assert(s.turn_at(j) == Some(p.turns@[j]));
            }
        }
    }
}

} // verus!
