//! The order in which a path is searched, as a function of the faces, the
//! path so far and the visit lists: what [`Polyhedron::dfs`] and
//! [`Polyhedron::revisit_dfs`] find, and the state they leave.
//!
//! A first visit turns the face so that it is entered through its edge 0.
//! When that visit covers the last face, the path leaves through edge 1.
//! Otherwise the edges are tried from edge 1 around the face: a face not
//! yet on the path is searched from, up to two such faces; a face already
//! on the path is remembered where the crossing rule lets it be entered
//! again. The remembered faces are then searched from, in order. A face
//! entered again tries the edges of its window (see
//! [`Polyhedron::in_revisit_window`]) in order, towards faces not yet on
//! the path. A search that finds nothing leaves everything as it was.
use crate::make_path::{count_empty, lemma_count_update, lemma_count_pos, PolygonCrossing, PolygonVisit};
use crate::polyhedron::{edge_at, key_in, pos_in, rotl, Edge, PolyEdge, Polyhedron};
use vstd::prelude::*;

verus! {

/// What a search reads and changes: the faces as vertex cycles, the path,
/// and the visit list of each face.
pub type SearchState = (Seq<Seq<u32>>, Seq<PolygonCrossing>, Seq<Seq<usize>>);

/// The search state of a polyhedron.
pub open spec fn state_of(p: Polyhedron) -> SearchState {
    (p.faces@.map_values(|v: Vec<u32>| v@), p.edge_path@, p.fpi())
}

/// The number of faces not on the path.
pub open spec fn open_count(a: SearchState) -> nat {
    count_empty(a.2)
}

/// Face `f` is on the path.
pub open spec fn seen(a: SearchState, f: int) -> bool {
    a.2[f].len() > 0
}

/// Every face is on the path.
pub open spec fn all_seen(a: SearchState) -> bool {
    forall|f: int| 0 <= f < a.0.len() ==> #[trigger] seen(a, f)
}

/// The face across edge `e` from face `f`, by the edge table `edges`.
pub open spec fn other_across(edges: Seq<(Edge, PolyEdge)>, f: int, e: Edge) -> int {
    let k = key_in(edges, e);
    if edges[k].1.faces[0] as int != f {
        edges[k].1.faces[0] as int
    } else {
        edges[k].1.faces[1] as int
    }
}

/// Face `f` is entered for the first time: turned left by `k`, and its
/// visit list takes the next path position.
pub open spec fn enter_face(a: SearchState, f: int, k: int) -> SearchState {
    (a.0.update(f, rotl(a.0[f], k)), a.1, a.2.update(f, a.2[f].push(a.1.len() as usize)))
}

/// Face `f`, already on the path, takes the next path position again.
pub open spec fn mark_face(a: SearchState, f: int) -> SearchState {
    (a.0, a.1, a.2.update(f, a.2[f].push(a.1.len() as usize)))
}

/// The path goes on with crossing `c`.
pub open spec fn cross_on(a: SearchState, c: PolygonCrossing) -> SearchState {
    (a.0, a.1.push(c), a.2)
}

/// Where the `t`-th crossing of face `f` leaves it, as a position on it.
pub open spec fn exit_at(a: SearchState, f: int, t: int) -> int {
    pos_in(a.0[f], a.1[a.2[f][t] as int].exit)
}

/// The crossing rule (see [`Polyhedron::revisit_ok`]): face `f` may be
/// entered again through `e`.
pub open spec fn may_reenter(a: SearchState, f: int, e: Edge) -> bool {
    &&& a.0[f].len() != 3
    &&& !exists|t: int|
        0 <= t < a.2[f].len() && #[trigger] reenter_blocked(a, f, e, a.2[f][t] as int)
}

/// Crossing `i` of face `f` blocks entering it through `e`.
pub open spec fn reenter_blocked(a: SearchState, f: int, e: Edge, i: int) -> bool {
    let cr = a.1[i];
    let x = pos_in(a.0[f], cr.enter);
    let y = pos_in(a.0[f], cr.exit);
    let k = pos_in(a.0[f], e);
    if x <= y {
        x <= k <= y
    } else {
        y <= k <= x
    }
}

/// Position `k` of the face of `v` is in its window (see
/// [`Polyhedron::in_revisit_window`]).
pub open spec fn in_window(a: SearchState, v: PolygonVisit, k: int) -> bool {
    let f = v.face_idx as int;
    let n = pos_in(a.0[f], v.enter);
    let c = a.2[f].len();
    &&& 0 <= k < a.0[f].len()
    &&& k != n
    &&& forall|t: int| 0 <= t < c && #[trigger] exit_at(a, f, t) < n ==> exit_at(a, f, t) <= k
    &&& forall|t: int| 0 <= t < c && #[trigger] exit_at(a, f, t) > n ==> k < exit_at(a, f, t)
    &&& k < n ==> exists|t: int| 0 <= t < c && #[trigger] exit_at(a, f, t) < n
}

/// A search from `v` (see [`Polyhedron::dfs`]): whether it found a path
/// over all faces, and the state it leaves.
pub open spec fn search(edges: Seq<(Edge, PolyEdge)>, a: SearchState, v: PolygonVisit) -> (bool, SearchState)
    decreases 2 * open_count(a), 0nat, 0nat,
{
    let f = v.face_idx as int;
    if !(0 <= f < a.2.len() && f < a.0.len()) || seen(a, f) {
        (false, a)
    } else {
        let a1 = enter_face(a, f, pos_in(a.0[f], v.enter));
        if all_seen(a1) {
            (true, cross_on(a1, PolygonCrossing { face_idx: v.face_idx, enter: v.enter, exit: edge_at(a1.0[f], 1) }))
        } else {
            proof {
                lemma_count_update(a.2, f, a1.2[f]);
                lemma_count_pos(a.2, f);
            }
            let (r, t, revs) = new_faces(edges, a1, v, 1, 0, Seq::empty());
            if r {
                (true, t)
            } else {
                let (r2, t2) = reentries(edges, a1, revs, 0);
                if r2 {
                    (true, t2)
                } else {
                    (false, a)
                }
            }
        }
    }
}

/// The edges of the face of `v` from `i` on, with `n` faces not on the path
/// tried so far and the re-entries `revs` remembered: a path found, or the
/// re-entries to try next.
pub open spec fn new_faces(
    edges: Seq<(Edge, PolyEdge)>,
    a1: SearchState,
    v: PolygonVisit,
    i: int,
    n: int,
    revs: Seq<(PolygonCrossing, PolygonVisit)>,
) -> (bool, SearchState, Seq<(PolygonCrossing, PolygonVisit)>)
    decreases 2 * open_count(a1) + 1, 1nat, (a1.0[v.face_idx as int].len() - i) as nat,
    when 0 <= i
{
    let f = v.face_idx as int;
    if i >= a1.0[f].len() || n >= 2 {
        (false, a1, revs)
    } else {
        let ed = edge_at(a1.0[f], i);
        let g = other_across(edges, f, ed);
        if seen(a1, g) {
            let revs2 = if may_reenter(a1, g, ed.spec_rev()) {
                revs.push(
                    (
                        PolygonCrossing { face_idx: v.face_idx, enter: v.enter, exit: ed },
                        PolygonVisit { face_idx: g as usize, enter: ed.spec_rev() },
                    ),
                )
            } else {
                revs
            };
            new_faces(edges, a1, v, i + 1, n, revs2)
        } else {
            let (r, t) = search(
                edges,
                cross_on(a1, PolygonCrossing { face_idx: v.face_idx, enter: v.enter, exit: ed }),
                PolygonVisit { face_idx: g as usize, enter: ed.spec_rev() },
            );
            if r {
                (true, t, revs)
            } else {
                new_faces(edges, a1, v, i + 1, n + 1, revs)
            }
        }
    }
}

/// The remembered re-entries from `t` on, in order.
pub open spec fn reentries(
    edges: Seq<(Edge, PolyEdge)>,
    a1: SearchState,
    revs: Seq<(PolygonCrossing, PolygonVisit)>,
    t: int,
) -> (bool, SearchState)
    decreases 2 * open_count(a1) + 1, 2nat, (revs.len() - t) as nat,
    when 0 <= t
{
    if t >= revs.len() {
        (false, a1)
    } else {
        let (r, s) = revisit_search(edges, cross_on(a1, revs[t].0), revs[t].1);
        if r {
            (true, s)
        } else {
            reentries(edges, a1, revs, t + 1)
        }
    }
}

/// A search from a face already on the path (see
/// [`Polyhedron::revisit_dfs`]).
pub open spec fn revisit_search(edges: Seq<(Edge, PolyEdge)>, b: SearchState, v: PolygonVisit) -> (bool, SearchState)
    decreases 2 * open_count(b) + 1, 1nat, 0nat,
{
    window_from(edges, b, v, 0)
}

/// The edges of the window of the face of `v` from position `k` on.
pub open spec fn window_from(edges: Seq<(Edge, PolyEdge)>, b: SearchState, v: PolygonVisit, k: int) -> (bool, SearchState)
    decreases 2 * open_count(b) + 1, 0nat, (b.0[v.face_idx as int].len() - k) as nat,
    when 0 <= k
{
    let f = v.face_idx as int;
    if k >= b.0[f].len() {
        (false, b)
    } else {
        let ed = edge_at(b.0[f], k);
        let g = other_across(edges, f, ed);
        if in_window(b, v, k) && !seen(b, g) && 0 <= f < b.2.len() && seen(b, f) {
            proof {
                lemma_count_update(b.2, f, b.2[f].push(b.1.len() as usize));
            }
            let (r, t) = search(
                edges,
                cross_on(mark_face(b, f), PolygonCrossing { face_idx: v.face_idx, enter: v.enter, exit: ed }),
                PolygonVisit { face_idx: g as usize, enter: ed.spec_rev() },
            );
            if r {
                (true, t)
            } else {
                window_from(edges, b, v, k + 1)
            }
        } else {
            window_from(edges, b, v, k + 1)
        }
    }
}

/// Positions outside the window are passed over.
pub proof fn lemma_window_skip(edges: Seq<(Edge, PolyEdge)>, b: SearchState, v: PolygonVisit, from: int, to: int)
    requires
        0 <= from <= to <= b.0[v.face_idx as int].len(),
        forall|k: int| from <= k < to ==> !#[trigger] in_window(b, v, k),
    ensures
        window_from(edges, b, v, from) == window_from(edges, b, v, to),
    decreases to - from,
{
    if from < to {
        lemma_window_skip(edges, b, v, from + 1, to);
        assert(!in_window(b, v, from));
    }
}

/// The search state reads the faces as the polyhedron does.
pub proof fn lemma_state_face(p: Polyhedron, f: int)
    requires
        0 <= f < p.faces@.len(),
    ensures
        state_of(p).0[f] == p.face(f),
        state_of(p).0.len() == p.faces@.len(),
        state_of(p).2 == p.fpi(),
        state_of(p).1 == p.edge_path@,
{
}

/// Two polyhedra with the same faces, path and visit lists have the same
/// search state.
pub proof fn lemma_state_same(a: Polyhedron, b: Polyhedron)
    requires
        b.faces@.len() == a.faces@.len(),
        forall|f: int| 0 <= f < a.faces@.len() ==> #[trigger] b.face(f) == a.face(f),
        b.edge_path@ == a.edge_path@,
        b.fpi() == a.fpi(),
    ensures
        state_of(b) == state_of(a),
{
    assert(state_of(b).0 =~= state_of(a).0) by {
        assert forall|f: int| 0 <= f < a.faces@.len() implies state_of(b).0[f] == state_of(a).0[f] by {
            assert(b.face(f) == a.face(f));
        }
    }
}

/// The window of a face, read from the search state.
pub proof fn lemma_window_state(p: Polyhedron, v: PolygonVisit, k: int)
    requires
        v.face_idx < p.faces@.len(),
    ensures
        p.in_revisit_window(v, k) == in_window(state_of(p), v, k),
{
    let f = v.face_idx as int;
    let a = state_of(p);
    assert(a.0[f] == p.face(f));
    assert forall|t: int| #[trigger] p.exit_pos(f, t) == exit_at(a, f, t) by {}
    if p.in_revisit_window(v, k) {
        assert forall|t: int| 0 <= t < a.2[f].len() && #[trigger] exit_at(a, f, t) < pos_in(a.0[f], v.enter) implies exit_at(a, f, t) <= k by {
            assert(p.exit_pos(f, t) == exit_at(a, f, t));
        }
        assert forall|t: int| 0 <= t < a.2[f].len() && #[trigger] exit_at(a, f, t) > pos_in(a.0[f], v.enter) implies k < exit_at(a, f, t) by {
            assert(p.exit_pos(f, t) == exit_at(a, f, t));
        }
        if k < pos_in(a.0[f], v.enter) {
            let t = choose|t: int| 0 <= t < p.fpi()[f].len() && #[trigger] p.exit_pos(f, t) < p.pos_of(f, v.enter);
            assert(exit_at(a, f, t) < pos_in(a.0[f], v.enter));
        }
    }
    if in_window(a, v, k) {
        assert forall|t: int| 0 <= t < p.fpi()[f].len() && #[trigger] p.exit_pos(f, t) < p.pos_of(f, v.enter) implies p.exit_pos(f, t) <= k by {
            assert(p.exit_pos(f, t) == exit_at(a, f, t));
        }
        assert forall|t: int| 0 <= t < p.fpi()[f].len() && #[trigger] p.exit_pos(f, t) > p.pos_of(f, v.enter) implies k < p.exit_pos(f, t) by {
            assert(p.exit_pos(f, t) == exit_at(a, f, t));
        }
        if k < p.pos_of(f, v.enter) {
            let t = choose|t: int| 0 <= t < a.2[f].len() && #[trigger] exit_at(a, f, t) < pos_in(a.0[f], v.enter);
            assert(p.exit_pos(f, t) < p.pos_of(f, v.enter));
        }
    }
}

/// The crossing rule, read from the search state.
pub proof fn lemma_reenter_state(p: Polyhedron, f: int, e: Edge)
    requires
        0 <= f < p.faces@.len(),
    ensures
        p.revisit_ok(f, e) == may_reenter(state_of(p), f, e),
{
    let a = state_of(p);
    assert(a.0[f] == p.face(f));
    assert forall|i: int| #[trigger] p.revisit_blocks_on(p.edge_path@, f, e, i) == reenter_blocked(a, f, e, i) by {}
    if p.revisit_ok(f, e) {
        if exists|t: int| 0 <= t < a.2[f].len() && #[trigger] reenter_blocked(a, f, e, a.2[f][t] as int) {
            let t = choose|t: int| 0 <= t < a.2[f].len() && #[trigger] reenter_blocked(a, f, e, a.2[f][t] as int);
            assert(p.revisit_blocks_on(p.edge_path@, f, e, p.fpi()[f][t] as int));
        }
    }
    if may_reenter(a, f, e) {
        if exists|t: int| 0 <= t < p.fpi()[f].len() && #[trigger] p.revisit_blocks_on(p.edge_path@, f, e, p.fpi()[f][t] as int) {
            let t = choose|t: int| 0 <= t < p.fpi()[f].len() && #[trigger] p.revisit_blocks_on(p.edge_path@, f, e, p.fpi()[f][t] as int);
            assert(reenter_blocked(a, f, e, a.2[f][t] as int));
        }
    }
}

/// The face across an edge, read from the edge table.
pub proof fn lemma_other_state(p: Polyhedron, f: int, e: Edge)
    ensures
        p.other_face_of(f, e) == other_across(p.edges@, f, e),
{
}

} // verus!
