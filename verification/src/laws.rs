//! What the path and board operations are for, stated over all inputs.
use crate::make_path::PolygonCrossing;
use crate::pcbdron::Pcbdron;
use crate::pcboron::{absent, all_ngon_variants, missing_in};
use crate::flags::VarId;
use crate::polyhedron::{Edge, Polyhedron};
use vstd::arithmetic::div_mod::lemma_small_mod;
use vstd::prelude::*;

verus! {

/// Jumping on from a face crossed for the first time (entered through its
/// edge 0, as a first visit is) leaves it through edge `jumps + 1`, counted
/// around the face, and so not through the edge it came in by unless that
/// count goes all the way round; read back, the crossing gives the turn
/// `jumps`.
pub proof fn lemma_jump_first_visit(old: Polyhedron, new: Polyhedron, jumps: usize, r: Option<usize>)
    requires
        old.path_inv(),
        old.jumps_to(new, jumps, r),
        old.edge_path@.len() > 0,
        !Polyhedron::on_path_before(
            old.edge_path@,
            old.edge_path@.len() - 1,
            old.edge_path@[old.edge_path@.len() - 1].face_idx as int,
        ),
        old.edge_path@[old.edge_path@.len() - 1].enter == old.fedge(
            old.edge_path@[old.edge_path@.len() - 1].face_idx as int,
            0,
        ),
    ensures
        ({
            let l = old.edge_path@.len() - 1;
            let c = old.edge_path@[l];
            let f = c.face_idx as int;
            let n = old.face(f).len() as int;
            &&& new.edge_path@.len() > l
            &&& new.edge_path@[l].face_idx == c.face_idx
            &&& new.edge_path@[l].enter == c.enter
            &&& new.edge_path@[l].exit == old.fedge(f, (jumps + 1) % n)
            &&& (jumps + 1) % n != 0 ==> new.edge_path@[l].exit != c.enter
            &&& jumps + 1 < n ==> new.turn_at(l) == Some(jumps)
        }),
{
    let l = old.edge_path@.len() - 1;
    let c = old.edge_path@[l];
    let f = c.face_idx as int;
    let n = old.face(f).len() as int;
    assert(old.crossing_ok(l));
    assert(old.face(f).len() >= 3 && old.face(f).no_duplicates());
    let k = (jumps + 1) % n;
    assert(0 <= k < n);
    let exit = old.fedge(f, k);
    old.lemma_pos_of(f, k);
    old.lemma_pos_of(f, 0);
    old.lemma_other_face(f, exit);
    let g = old.other_face_of(f, exit);
    assert(g != f);
    let base = old.edge_path@.drop_last().push(PolygonCrossing { face_idx: c.face_idx, enter: c.enter, exit });
    assert(base[l].exit == exit);
    assert(new.edge_path@[l] == base[l]);
    assert(new.face(f) == old.face(f)) by {
        if !Polyhedron::on_path_before(base, base.len() as int, g) {
            assert(new.faces@[f] == old.faces@[f]);
        }
    }
    if k != 0 {
        if exit == c.enter {
            old.lemma_fedge_unique(f, k, 0);
        }
    }
    if jumps + 1 < n {
        lemma_small_mod((jumps + 1) as nat, n as nat);
        assert(new.fedge(f, 0) == c.enter);
        assert(new.on_face(f, exit));
        assert(new.pos_of(f, exit) == jumps + 1);
    }
}

/// The `t`-th crossing of face `f` enters or leaves it through `e`.
pub open spec fn crosses_through(s: Polyhedron, f: int, t: int, e: Edge) -> bool {
    let c = s.edge_path@[s.fpi()[f][t] as int];
    c.enter == e || c.exit == e
}

/// The crossing rule: a triangle is never entered again; a face of more
/// sides may be entered again through an edge that lies outside the
/// stretch each of its crossings spans, from its enter to its exit edge;
/// and never through the enter or exit edge of one of its crossings.
pub proof fn lemma_crossing_rule(s: Polyhedron, f: int, e: Edge)
    ensures
        s.face(f).len() == 3 ==> !s.revisit_ok(f, e),
        s.face(f).len() != 3 && (forall|t: int|
            0 <= t < s.fpi()[f].len() ==> {
                let c = #[trigger] s.edge_path@[s.fpi()[f][t] as int];
                let k = s.pos_of(f, e);
                ||| k < s.pos_of(f, c.enter) && k < s.pos_of(f, c.exit)
                ||| k > s.pos_of(f, c.enter) && k > s.pos_of(f, c.exit)
            }) ==> s.revisit_ok(f, e),
        (exists|t: int| 0 <= t < s.fpi()[f].len() && #[trigger] crosses_through(s, f, t, e)) ==> !s.revisit_ok(f, e),
{
    if exists|t: int| 0 <= t < s.fpi()[f].len() && #[trigger] crosses_through(s, f, t, e) {
        let t = choose|t: int| 0 <= t < s.fpi()[f].len() && #[trigger] crosses_through(s, f, t, e);
        let i = s.fpi()[f][t] as int;
        let c = s.edge_path@[i];
        if c.enter == e {
            assert(s.pos_of(f, e) == s.pos_of(f, c.enter));
        } else {
            assert(c.exit == e);
            assert(s.pos_of(f, e) == s.pos_of(f, c.exit));
        }
        assert(s.revisit_blocks_on(s.edge_path@, f, e, i));
    }
    if s.face(f).len() != 3 && (forall|t: int|
        0 <= t < s.fpi()[f].len() ==> {
            let c = #[trigger] s.edge_path@[s.fpi()[f][t] as int];
            let k = s.pos_of(f, e);
            ||| k < s.pos_of(f, c.enter) && k < s.pos_of(f, c.exit)
            ||| k > s.pos_of(f, c.enter) && k > s.pos_of(f, c.exit)
        }) {
        assert forall|t: int| 0 <= t < s.fpi()[f].len() implies !#[trigger] s.revisit_blocks_on(
            s.edge_path@,
            f,
            e,
            s.fpi()[f][t] as int,
        ) by {
            let c = s.edge_path@[s.fpi()[f][t] as int];
            assert(c == s.edge_path@[s.fpi()[f][t] as int]);
        }
    }
}

/// The variants of every face with `n` sides of every pcbdron are among
/// those listed for `n`.
proof fn lemma_all_variants_hold(drons: Seq<Pcbdron>, d: int, f: int)
    requires
        0 <= d < drons.len(),
        0 <= f < drons[d].polyhedron.nf(),
    ensures
        all_ngon_variants(drons, drons[d].polyhedron.face(f).len()).contains(drons[d].variant_map@[f]),
    decreases drons.len(),
{
    let n = drons[d].polyhedron.face(f).len();
    if d == drons.len() - 1 {
        let p = drons[d].polyhedron;
        p.lemma_ngon_index(f);
        assert(p.faces@.len() <= usize::MAX) by {
            broadcast use vstd::std_specs::vec::axiom_spec_len;
            assert(p.faces@.len() == p.faces.len());
        }
        let t = p.ngon_index(f);
        let vs = drons[d].ngon_variants(n);
        assert(vs[t] == drons[d].variant_map@[f]);
        let all = all_ngon_variants(drons, n);
        let pre = all_ngon_variants(drons.drop_last(), n);
        assert(all == pre + vs);
        assert(all[pre.len() + t] == vs[t]);
    } else {
        let dl = drons.drop_last();
        assert(dl[d] == drons[d]);
        lemma_all_variants_hold(dl, d, f);
        let all = all_ngon_variants(drons, n);
        let pre = all_ngon_variants(dl, n);
        let i = choose|i: int| 0 <= i < pre.len() && pre[i] == drons[d].variant_map@[f];
        assert(all[i] == pre[i]);
    }
}

/// A variant of the list that has no model is listed as missing.
proof fn lemma_missing_in_holds(avail: Seq<bool>, vs: Seq<usize>, v: usize)
    requires
        vs.contains(v),
        absent(avail, v),
    ensures
        missing_in(avail, vs).contains(v),
    decreases vs.len(),
{
    let m = missing_in(avail, vs.drop_last());
    if vs.last() == v {
        if !m.contains(v) {
            assert(missing_in(avail, vs) == m.push(v));
            assert(missing_in(avail, vs)[m.len() as int] == v);
        }
    } else {
        let i = choose|i: int| 0 <= i < vs.len() && vs[i] == v;
        assert(vs.drop_last()[i] == v);
        lemma_missing_in_holds(avail, vs.drop_last(), v);
    }
    let mm = missing_in(avail, vs);
    if m.contains(v) {
        let i = choose|i: int| 0 <= i < m.len() && m[i] == v;
        assert(mm[i] == m[i]);
    }
}

/// What is missing: the variant of every face with `n` sides (of any
/// pcbdron of the lamp) that has no board model is in the missing list for
/// `n`.
pub proof fn lemma_missing_covers(drons: Seq<Pcbdron>, avail: Seq<bool>, d: int, f: int)
    requires
        0 <= d < drons.len(),
        0 <= f < drons[d].polyhedron.nf(),
        absent(avail, drons[d].variant_map@[f]),
    ensures
        missing_in(avail, all_ngon_variants(drons, drons[d].polyhedron.face(f).len())).contains(
            drons[d].variant_map@[f],
        ),
{
    lemma_all_variants_hold(drons, d, f);
    lemma_missing_in_holds(avail, all_ngon_variants(drons, drons[d].polyhedron.face(f).len()), drons[d].variant_map@[f]);
}

/// The controller face gets exactly the controller variant (bit 4, no other
/// flag), and the board returned is of that variant, with as many sides as
/// the face.
pub proof fn lemma_controller_exact(old: Pcbdron, new: Pcbdron, face_idx: usize, r: Option<VarId>)
    requires
        old.sets_controller(new, face_idx, r),
        face_idx < old.polyhedron.nf(),
        face_idx < old.variant_map@.len(),
    ensures
        new.variant_map@[face_idx as int] == 4,
        r matches Some(v) && v.pcb_id.variant == 4 && v.pcb_id.n_gon == old.polyhedron.face(face_idx as int).len(),
{
    assert(new.variant_map@[face_idx as int] == crate::flags::VarFlags::Controller.bit());
    assert(old.polyhedron.face(face_idx as int).len() <= usize::MAX) by {
        broadcast use vstd::std_specs::vec::axiom_spec_len;
        assert(old.polyhedron.faces@[face_idx as int].len() == old.polyhedron.face(face_idx as int).len());
    }
}

/// Adding a face to the path turns no face that is already on the path:
/// faces on the path keep their vertex order, and the crossings before the
/// last read back as before.
pub proof fn lemma_add_face_keeps_visited(old: Polyhedron, new: Polyhedron, n_face_idx: usize, r: Option<usize>)
    requires
        old.path_inv(),
        old.adds_face(new, n_face_idx, r),
    ensures
        forall|g: int| 0 <= g < old.nf() && #[trigger] old.visited(g) ==> new.faces@[g] == old.faces@[g],
        old.edge_path@.len() > 0 ==> forall|j: int|
            0 <= j < old.edge_path@.len() - 1 ==> #[trigger] new.turn_at(j) == old.turn_at(j),
{
    if old.edge_path@.len() > 0 {
        let l = old.edge_path@.len() - 1;
        assert forall|j: int| 0 <= j < l implies #[trigger] new.turn_at(j) == old.turn_at(j) by {
            let c = old.edge_path@[j];
            let g = c.face_idx as int;
            assert(old.crossing_ok(j));
            assert(old.face_consistent(g));
            assert(old.edge_path@.len() <= usize::MAX) by {
                broadcast use vstd::std_specs::vec::axiom_spec_len;
                assert(old.edge_path@.len() == old.edge_path.len());
            }
            old.lemma_visited_on_path(g);
            assert(Polyhedron::on_path_before(old.edge_path@, old.edge_path@.len() as int, g));
            assert(old.visited(g));
            assert(new.edge_path@[j] == c);
            assert(new.faces@[g] == old.faces@[g]);
            assert(new.face(g) == old.face(g));
        }
    }
}

/// Jumping on from a face crossed again leaves it `jumps` edges back from
/// the edge it came in by (not past edge 0); read back, the crossing gives
/// the turn `jumps` when it can go that far back.
pub proof fn lemma_jump_revisit(old: Polyhedron, new: Polyhedron, jumps: usize, r: Option<usize>)
    requires
        old.path_inv(),
        old.jumps_to(new, jumps, r),
        old.edge_path@.len() > 0,
        Polyhedron::on_path_before(
            old.edge_path@,
            old.edge_path@.len() - 1,
            old.edge_path@[old.edge_path@.len() - 1].face_idx as int,
        ),
        old.edge_path@[old.edge_path@.len() - 1].enter != old.fedge(
            old.edge_path@[old.edge_path@.len() - 1].face_idx as int,
            0,
        ),
    ensures
        ({
            let l = old.edge_path@.len() - 1;
            let c = old.edge_path@[l];
            let f = c.face_idx as int;
            let e = old.pos_of(f, c.enter);
            &&& new.edge_path@.len() > l
            &&& new.edge_path@[l].face_idx == c.face_idx
            &&& new.edge_path@[l].enter == c.enter
            &&& jumps <= e ==> new.edge_path@[l].exit == old.fedge(f, e - jumps) && new.turn_at(l) == Some(jumps)
            &&& jumps > e ==> new.edge_path@[l].exit == old.fedge(f, 0)
        }),
{
    let l = old.edge_path@.len() - 1;
    let c = old.edge_path@[l];
    let f = c.face_idx as int;
    let n = old.face(f).len() as int;
    assert(old.crossing_ok(l));
    let e = old.pos_of(f, c.enter);
    assert(0 <= e < n && old.fedge(f, e) == c.enter);
    let k = if e >= jumps { e - jumps } else { 0 };
    lemma_small_mod(k as nat, n as nat);
    let exit = old.fedge(f, k);
    old.lemma_pos_of(f, k);
    old.lemma_pos_of(f, e);
    old.lemma_other_face(f, exit);
    let g = old.other_face_of(f, exit);
    let base = old.edge_path@.drop_last().push(PolygonCrossing { face_idx: c.face_idx, enter: c.enter, exit });
    assert(new.edge_path@[l] == base[l]);
    assert(new.face(f) == old.face(f)) by {
        if !Polyhedron::on_path_before(base, base.len() as int, g) {
            assert(new.faces@[f] == old.faces@[f]);
        }
    }
    if jumps <= e {
        assert(new.fedge(f, 0) != c.enter);
        assert(new.pos_of(f, c.enter) == e);
        assert(new.on_face(f, exit));
        assert(new.pos_of(f, exit) == k);
    }
}

/// After a jump, a next crossing (where there is one) enters the face
/// across the exit through that edge reversed; a face crossed for the first
/// time is turned so that this is its edge 0.
pub proof fn lemma_jump_next(old: Polyhedron, new: Polyhedron, jumps: usize, r: Option<usize>)
    requires
        old.path_inv(),
        old.jumps_to(new, jumps, r),
        old.edge_path@.len() > 0,
        new.edge_path@.len() > old.edge_path@.len(),
    ensures
        ({
            let l = old.edge_path@.len() - 1;
            let x = new.edge_path@[l].exit;
            let nx = new.edge_path@[l + 1];
            &&& nx.enter == x.spec_rev()
            &&& nx.face_idx as int == old.other_face_of(old.edge_path@[l].face_idx as int, x)
            &&& nx.face_idx as int != old.edge_path@[l].face_idx as int
            &&& !Polyhedron::on_path_before(new.edge_path@, l + 1, nx.face_idx as int) ==> new.fedge(
                nx.face_idx as int,
                0,
            ) == x.spec_rev()
        }),
{
    let l = old.edge_path@.len() - 1;
    let c = old.edge_path@[l];
    let f = c.face_idx as int;
    let n = old.face(f).len() as int;
    assert(old.crossing_ok(l));
    let e = old.pos_of(f, c.enter);
    let k0 = if !Polyhedron::on_path_before(old.edge_path@, l, f) {
        jumps + 1
    } else if e >= jumps {
        e - jumps
    } else {
        0
    };
    let k = k0 % n;
    assert(0 <= k < n);
    let exit = old.fedge(f, k);
    old.lemma_pos_of(f, k);
    old.lemma_other_face(f, exit);
    let base = old.edge_path@.drop_last().push(PolygonCrossing { face_idx: c.face_idx, enter: c.enter, exit });
    assert(new.edge_path@[l] == base[l]);
    let g = old.other_face_of(f, exit);
    assert(new.edge_path@.len() == base.len() + 1);
    assert(new.edge_path@[l + 1].face_idx as int == g);
    if !Polyhedron::on_path_before(new.edge_path@, l + 1, g) {
        assert(!Polyhedron::on_path_before(base, base.len() as int, g)) by {
            if Polyhedron::on_path_before(base, base.len() as int, g) {
                let j = choose|j: int| 0 <= j < base.len() && #[trigger] base[j].face_idx == g;
                assert(new.edge_path@[j] == base[j]);
            }
        }
    }
}

/// The crossing rule, whole: a face may be entered again through `e`
/// exactly when it is no triangle and `e` lies outside the stretch, from
/// enter to exit edge, of each of its crossings.
pub proof fn lemma_crossing_rule_exact(s: Polyhedron, f: int, e: Edge)
    ensures
        s.revisit_ok(f, e) <==> s.face(f).len() != 3 && (forall|t: int|
            0 <= t < s.fpi()[f].len() ==> {
                let c = #[trigger] s.edge_path@[s.fpi()[f][t] as int];
                let k = s.pos_of(f, e);
                ||| k < s.pos_of(f, c.enter) && k < s.pos_of(f, c.exit)
                ||| k > s.pos_of(f, c.enter) && k > s.pos_of(f, c.exit)
            }),
{
    lemma_crossing_rule(s, f, e);
    if s.revisit_ok(f, e) {
        assert forall|t: int| 0 <= t < s.fpi()[f].len() implies {
            let c = #[trigger] s.edge_path@[s.fpi()[f][t] as int];
            let k = s.pos_of(f, e);
            ||| k < s.pos_of(f, c.enter) && k < s.pos_of(f, c.exit)
            ||| k > s.pos_of(f, c.enter) && k > s.pos_of(f, c.exit)
        } by {
            assert(!s.revisit_blocks_on(s.edge_path@, f, e, s.fpi()[f][t] as int));
        }
    }
}

/// Only what is missing is listed: a variant listed as missing for `n` has
/// no board model, is the variant of some face with `n` sides of some
/// pcbdron, and is listed once.
pub proof fn lemma_missing_only(drons: Seq<Pcbdron>, avail: Seq<bool>, n: nat)
    ensures
        missing_in(avail, all_ngon_variants(drons, n)).no_duplicates(),
        forall|i: int|
            0 <= i < missing_in(avail, all_ngon_variants(drons, n)).len() ==> {
                let v = #[trigger] missing_in(avail, all_ngon_variants(drons, n))[i];
                &&& absent(avail, v)
                &&& exists|d: int, f: int|
                    0 <= d < drons.len() && 0 <= f < drons[d].polyhedron.nf() && drons[d].polyhedron.face(f).len()
                        == n && #[trigger] drons[d].variant_map@[f] == v
            },
{
    let vs = all_ngon_variants(drons, n);
    lemma_missing_from(avail, vs);
    assert forall|i: int| 0 <= i < missing_in(avail, vs).len() implies {
        let v = #[trigger] missing_in(avail, vs)[i];
        &&& absent(avail, v)
        &&& exists|d: int, f: int|
            0 <= d < drons.len() && 0 <= f < drons[d].polyhedron.nf() && drons[d].polyhedron.face(f).len() == n
                && #[trigger] drons[d].variant_map@[f] == v
    } by {
        let v = missing_in(avail, vs)[i];
        let j = choose|j: int| 0 <= j < vs.len() && vs[j] == v;
        lemma_variant_source(drons, n, j);
    }
}

/// The missing list holds, once each, variants of the list that have no
/// model.
proof fn lemma_missing_from(avail: Seq<bool>, vs: Seq<usize>)
    ensures
        missing_in(avail, vs).no_duplicates(),
        forall|i: int|
            0 <= i < missing_in(avail, vs).len() ==> absent(avail, #[trigger] missing_in(avail, vs)[i])
                && vs.contains(missing_in(avail, vs)[i]),
    decreases vs.len(),
{
    if vs.len() > 0 {
        let d = vs.drop_last();
        lemma_missing_from(avail, d);
        let m = missing_in(avail, d);
        let mm = missing_in(avail, vs);
        assert forall|i: int| 0 <= i < mm.len() implies absent(avail, #[trigger] mm[i]) && vs.contains(mm[i]) by {
            if i < m.len() {
                assert(mm[i] == m[i]);
                let j = choose|j: int| 0 <= j < d.len() && d[j] == m[i];
                assert(vs[j] == d[j]);
            } else {
                assert(mm[i] == vs.last());
                assert(vs[vs.len() - 1] == vs.last());
            }
        }
    }
}

/// Entry `j` of the variants listed for `n` is the variant of a face with
/// `n` sides of some pcbdron.
proof fn lemma_variant_source(drons: Seq<Pcbdron>, n: nat, j: int)
    requires
        0 <= j < all_ngon_variants(drons, n).len(),
    ensures
        exists|d: int, f: int|
            0 <= d < drons.len() && 0 <= f < drons[d].polyhedron.nf() && drons[d].polyhedron.face(f).len() == n
                && #[trigger] drons[d].variant_map@[f] == all_ngon_variants(drons, n)[j],
    decreases drons.len(),
{
    let dl = drons.drop_last();
    let pre = all_ngon_variants(dl, n);
    let vs = drons.last().ngon_variants(n);
    assert(all_ngon_variants(drons, n) == pre + vs);
    if j < pre.len() {
        lemma_variant_source(dl, n, j);
        let (d, f) = choose|d: int, f: int|
            0 <= d < dl.len() && 0 <= f < dl[d].polyhedron.nf() && dl[d].polyhedron.face(f).len() == n
                && #[trigger] dl[d].variant_map@[f] == pre[j];
        assert(dl[d] == drons[d]);
        assert(drons[d].variant_map@[f] == all_ngon_variants(drons, n)[j]);
    } else {
        let t = j - pre.len();
        let d = drons.len() - 1;
        let p = drons[d].polyhedron;
        p.lemma_nth_ngon(n, t);
        let f = p.ngons(n)[t] as int;
        assert(drons[d].variant_map@[f] == all_ngon_variants(drons, n)[j]);
    }
}

/// Only the controller face changes its controller flag: every other face
/// keeps all its other flags and loses the controller flag.
pub proof fn lemma_controller_others(old: Pcbdron, new: Pcbdron, face_idx: usize, r: Option<VarId>)
    requires
        old.sets_controller(new, face_idx, r),
        face_idx <= old.polyhedron.nf(),
    ensures
        forall|i: int|
            0 <= i < old.variant_map@.len() && i != face_idx ==> #[trigger] new.variant_map@[i] == old.variant_map@[i]
                & !4usize,
{
    assert forall|i: int| 0 <= i < old.variant_map@.len() && i != face_idx implies #[trigger] new.variant_map@[i]
        == old.variant_map@[i] & !4usize by {
        assert(new.variant_map@[i] == old.variant_map@[i] & !crate::flags::VarFlags::Controller.bit());
    }
}

/// Adding a face that shares an edge with the last face: the last crossing
/// leaves through that edge, the face is crossed next, entered through the
/// same edge reversed, and a face new to the path is turned so that this
/// is its edge 0.
pub proof fn lemma_add_face_enters(old: Polyhedron, new: Polyhedron, n_face_idx: usize, r: Option<usize>)
    requires
        old.path_inv(),
        old.adds_face(new, n_face_idx, r),
        old.edge_path@.len() > 0,
        old.has_join(old.edge_path@[old.edge_path@.len() - 1].face_idx as int, n_face_idx as int),
    ensures
        ({
            let l = old.edge_path@.len() - 1;
            &&& new.edge_path@.len() == l + 2
            &&& new.edge_path@[l].face_idx == old.edge_path@[l].face_idx
            &&& new.edge_path@[l].enter == old.edge_path@[l].enter
            &&& new.edge_path@[l + 1].face_idx == n_face_idx
            &&& new.edge_path@[l + 1].enter == new.edge_path@[l].exit.spec_rev()
            &&& !old.visited(n_face_idx as int) ==> new.fedge(n_face_idx as int, 0) == new.edge_path@[l + 1].enter
            &&& old.visited(n_face_idx as int) ==> new.face(n_face_idx as int) == old.face(n_face_idx as int)
        }),
{
}

} // verus!
