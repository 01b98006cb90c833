//! Walking a path over the faces of a polyhedron.
use crate::design::PcbPath;
use crate::search::{
    all_seen, cross_on, enter_face, in_window, lemma_other_state, lemma_reenter_state, lemma_state_face, lemma_state_same,
    lemma_window_skip, lemma_window_state, mark_face, may_reenter, new_faces, other_across, reentries,
    revisit_search, search, seen, state_of, window_from,
};
use crate::polyhedron::{Edge, PolyEdge, PolyError, Polyhedron, nxt, lemma_mod_next, lemma_ngons_upto, lemma_ngons_same, lemma_rotl_back, rotl, edge_at, pos_in};
use crate::visits::{visits, visits_clear, visits_get, visits_is_empty, visits_len, visits_new, visits_pop, visits_push, Visits};
use vstd::arithmetic::div_mod::lemma_small_mod;
use vstd::prelude::*;

verus! {

/// A visit event of a polygon
#[derive(Debug, Clone, Copy, PartialEq, Eq, Structural)]
pub struct PolygonVisit {
    pub face_idx: usize,
    pub enter: Edge,
}

/// A polygon crossed from one edge to another.
#[derive(Debug, Clone, Copy, PartialEq, Eq, Structural)]
pub struct PolygonCrossing {
    pub face_idx: usize,
    pub enter: Edge,
    pub exit: Edge,
}

impl PolygonVisit {
    /// Leave the polygon through `exit`.
    pub fn exit(self, exit: Edge) -> (r: PolygonCrossing)
        ensures
            r == (PolygonCrossing { face_idx: self.face_idx, enter: self.enter, exit }),
    {
        PolygonCrossing { face_idx: self.face_idx, enter: self.enter, exit }
    }
}

impl PolygonCrossing {
    /// The visit that this crossing starts with.
    pub fn to_visit(self) -> (r: PolygonVisit)
        ensures
            r == (PolygonVisit { face_idx: self.face_idx, enter: self.enter }),
    {
        PolygonVisit { face_idx: self.face_idx, enter: self.enter }
    }
}

} // verus!

verus! {

/// The positions at which face `f` is crossed on `path`, in order.
pub open spec fn idx_of(path: Seq<PolygonCrossing>, f: int) -> Seq<usize>
    decreases path.len(),
{
    if path.len() == 0 {
        Seq::empty()
    } else if path.last().face_idx == f {
        idx_of(path.drop_last(), f).push((path.len() - 1) as usize)
    } else {
        idx_of(path.drop_last(), f)
    }
}

/// The number of empty lists.
pub open spec fn count_empty(s: Seq<Seq<usize>>) -> nat
    decreases s.len(),
{
    if s.len() == 0 {
        0
    } else {
        count_empty(s.drop_last()) + if s.last().len() == 0 {
            1nat
        } else {
            0nat
        }
    }
}

/// Every position that `idx_of` lists is on the path, crosses `f`, and the
/// positions increase; a crossing of `f` is listed.
pub proof fn lemma_idx_of(path: Seq<PolygonCrossing>, f: int)
    requires
        path.len() <= usize::MAX,
    ensures
        idx_of(path, f).len() <= path.len(),
        forall|t: int|
            0 <= t < idx_of(path, f).len() ==> #[trigger] idx_of(path, f)[t] < path.len()
                && path[idx_of(path, f)[t] as int].face_idx == f,
        forall|t1: int, t2: int|
            0 <= t1 < t2 < idx_of(path, f).len() ==> #[trigger] idx_of(path, f)[t1] < #[trigger] idx_of(path, f)[t2],
        forall|j: int| 0 <= j < path.len() && path[j].face_idx == f ==> idx_of(path, f).contains(j as usize),
    decreases path.len(),
{
    if path.len() > 0 {
        let d = path.drop_last();
        lemma_idx_of(d, f);
        let id = idx_of(d, f);
        let ip = idx_of(path, f);
        assert forall|j: int| 0 <= j < d.len() implies d[j] == path[j] by {}
        if path.last().face_idx == f {
            assert(ip == id.push((path.len() - 1) as usize));
            assert forall|t: int| 0 <= t < ip.len() implies #[trigger] ip[t] < path.len() && path[ip[t] as int].face_idx == f by {
                if t < id.len() {
                    assert(ip[t] == id[t]);
                    assert(id[t] < d.len());
                    assert(d[id[t] as int] == path[id[t] as int]);
                } else {
                    assert(ip[t] == path.len() - 1);
                }
            }
            assert forall|t1: int, t2: int| 0 <= t1 < t2 < ip.len() implies #[trigger] ip[t1] < #[trigger] ip[t2] by {
                if t2 < id.len() {
                    assert(ip[t1] == id[t1]);
                    assert(ip[t2] == id[t2]);
                } else {
                    assert(ip[t1] == id[t1]);
                    assert(id[t1] < d.len());
                    assert(ip[t2] == path.len() - 1);
                }
            }
        } else {
            assert(ip == id);
        }
        assert forall|j: int| 0 <= j < path.len() && path[j].face_idx == f implies ip.contains(j as usize) by {
            if j < path.len() - 1 {
                let t = choose|t: int| 0 <= t < id.len() && id[t] == j as usize;
                assert(ip[t] == j as usize);
            } else {
                assert(ip.last() == j as usize);
            }
        }
    }
}

/// Appending a crossing appends its position to the list of its face.
pub proof fn lemma_idx_of_push(path: Seq<PolygonCrossing>, c: PolygonCrossing, f: int)
    ensures
        idx_of(path.push(c), f) == if c.face_idx == f {
            idx_of(path, f).push(path.len() as usize)
        } else {
            idx_of(path, f)
        },
{
    assert(path.push(c).drop_last() =~= path);
}

/// Emptying one more list or filling an empty one changes the count by one.
pub proof fn lemma_count_update(s: Seq<Seq<usize>>, f: int, v: Seq<usize>)
    requires
        0 <= f < s.len(),
    ensures
        count_empty(s.update(f, v)) + (if s[f].len() == 0 { 1int } else { 0int }) == count_empty(s) + (if v.len() == 0 { 1int } else { 0int }),
    decreases s.len(),
{
    let u = s.update(f, v);
    if f == s.len() - 1 {
        assert(u.drop_last() =~= s.drop_last());
    } else {
        lemma_count_update(s.drop_last(), f, v);
        assert(u.drop_last() =~= s.drop_last().update(f, v));
    }
}

/// A list that is empty counts.
pub proof fn lemma_count_pos(s: Seq<Seq<usize>>, f: int)
    requires
        0 <= f < s.len(),
        s[f].len() == 0,
    ensures
        count_empty(s) > 0,
    decreases s.len(),
{
    if f < s.len() - 1 {
        lemma_count_pos(s.drop_last(), f);
    }
}

impl Polyhedron {
    /// Crossing `j` is of a face, enters through an edge of it and leaves
    /// through one; only the last crossing may leave through the placeholder.
    pub open spec fn crossing_ok(self, j: int) -> bool {
        let c = self.edge_path@[j];
        &&& c.face_idx < self.nf()
        &&& self.on_face(c.face_idx as int, c.enter)
        &&& (self.on_face(c.face_idx as int, c.exit) || (j == self.edge_path@.len() - 1 && c.exit
            == Edge::spec_dev()))
    }

    pub open spec fn path_ok(self) -> bool {
        forall|j: int| 0 <= j < self.edge_path@.len() ==> #[trigger] self.crossing_ok(j)
    }

    /// Crossing `j` is of a face without repeated vertices and enters through
    /// an edge of it.
    pub open spec fn enter_ok(self, j: int) -> bool {
        let c = self.edge_path@[j];
        &&& c.face_idx < self.nf()
        &&& self.face(c.face_idx as int).no_duplicates()
        &&& self.on_face(c.face_idx as int, c.enter)
    }

    /// What reading the path back needs: every crossing enters through an
    /// edge of its face.
    pub open spec fn path_readable(self) -> bool {
        forall|j: int| 0 <= j < self.edge_path@.len() ==> #[trigger] self.enter_ok(j)
    }

    /// A well-formed path can be read back.
    pub proof fn lemma_path_readable(self)
        requires
            self.wf(),
            self.path_ok(),
        ensures
            self.path_readable(),
    {
        assert forall|j: int| 0 <= j < self.edge_path@.len() implies #[trigger] self.enter_ok(j) by {
            assert(self.crossing_ok(j));
        }
    }

    /// Every crossing leaves through an edge of its face.
    pub open spec fn path_real(self) -> bool {
        forall|j: int|
            0 <= j < self.edge_path@.len() ==> #[trigger] self.on_face(
                self.edge_path@[j].face_idx as int,
                self.edge_path@[j].exit,
            )
    }

    /// The visit list of face `f` is the list of its positions on the path.
    pub open spec fn face_consistent(self, f: int) -> bool {
        self.fpi()[f] == idx_of(self.edge_path@, f)
    }

    pub open spec fn consistent(self) -> bool {
        forall|f: int| 0 <= f < self.nf() ==> #[trigger] self.face_consistent(f)
    }

    /// A well-formed polyhedron with a well-formed path.
    pub open spec fn path_inv(self) -> bool {
        &&& self.wf()
        &&& self.path_ok()
        &&& self.consistent()
    }

    pub open spec fn visited(self, f: int) -> bool {
        self.fpi()[f].len() > 0
    }

    pub open spec fn complete(self) -> bool {
        forall|f: int| 0 <= f < self.nf() ==> #[trigger] self.visited(f)
    }

    pub open spec fn unvisited_count(self) -> nat {
        count_empty(self.fpi())
    }

    /// From crossing `start` on, each crossing enters through the reversed exit
    /// of the one before, on the face across that exit.
    pub open spec fn chain_from(self, start: int) -> bool {
        forall|j: int|
            start <= j && j + 1 < self.edge_path@.len() ==> #[trigger] self.edge_path@[j + 1].enter
                == self.edge_path@[j].exit.spec_rev() && self.edge_path@[j + 1].face_idx
                == self.other_face_of(self.edge_path@[j].face_idx as int, self.edge_path@[j].exit)
    }

    /// Face `face_idx` may be entered again through `edge`: it is no triangle,
    /// and none of its crossings at position `i` enters below `i` and leaves
    /// above `i`, or enters or leaves through `edge` reversed.
    pub open spec fn revisit_ok(self, face_idx: int, edge: Edge) -> bool {
        self.revisit_ok_on(self.edge_path@, face_idx, edge)
    }

    /// [`Self::revisit_ok`] with this state's faces and visit lists, on `path`.
    pub open spec fn revisit_ok_on(self, path: Seq<PolygonCrossing>, face_idx: int, edge: Edge) -> bool {
        &&& self.face(face_idx).len() != 3
        &&& !exists|t: int|
            0 <= t < self.fpi()[face_idx].len() && #[trigger] self.revisit_blocks_on(path, face_idx, edge, self.fpi()[face_idx][t] as int)
    }

    /// Crossing `i` of the face blocks entering it through `edge`: the edge
    /// is the crossing's enter or exit edge, or lies between them.
    pub open spec fn revisit_blocks_on(self, path: Seq<PolygonCrossing>, face_idx: int, edge: Edge, i: int) -> bool {
        let cr = path[i];
        let e = self.pos_of(face_idx, cr.enter);
        let x = self.pos_of(face_idx, cr.exit);
        let k = self.pos_of(face_idx, edge);
        if e <= x {
            e <= k <= x
        } else {
            x <= k <= e
        }
    }

    /// The turn that crossing `j` reads as: for a crossing that enters through
    /// edge 0 (a first visit) one less than its exit edge, otherwise the
    /// number of edges from the exit back to the enter edge; `None` when the
    /// exit lies past the enter edge.
    pub open spec fn turn_at(self, j: int) -> Option<usize> {
        let c = self.edge_path@[j];
        let f = c.face_idx as int;
        if c.enter == self.fedge(f, 0) {
            Some(
                if self.on_face(f, c.exit) && self.pos_of(f, c.exit) > 0 {
                    (self.pos_of(f, c.exit) - 1) as usize
                } else {
                    0
                },
            )
        } else {
            let ne = self.pos_of(f, c.enter);
            let nx = if self.on_face(f, c.exit) {
                self.pos_of(f, c.exit)
            } else {
                ne
            };
            if ne >= nx {
                Some((ne - nx) as usize)
            } else {
                None
            }
        }
    }

    /// `p` starts on the face of the first crossing, named by its number of
    /// sides and its position among such faces, and its turns are read from
    /// the first crossings.
    pub open spec fn reads_as(self, p: PcbPath) -> bool {
        let first = self.edge_path@[0].face_idx as int;
        &&& p.start_ngon == self.face(first).len()
        &&& p.start_nth == self.ngon_index(first)
        &&& p.turns@.len() <= self.edge_path@.len()
        &&& forall|j: int| 0 <= j < p.turns@.len() ==> self.turn_at(j) == Some(#[trigger] p.turns@[j])
    }

    /// Read the path back as a [`PcbPath`]: the start face as its number of
    /// sides and its position among such faces, and one turn per crossing.
    /// `Err` holds the turns read before the first crossing that cannot be
    /// read; `None` when there is no path.
    pub fn current_path(&self) -> (r: Option<Result<PcbPath, PcbPath>>)
        requires
            self.path_readable(),
        ensures
            self.edge_path@.len() == 0 <==> r is None,
            r matches Some(res) ==> match res {
                Ok(p) => self.reads_as(p) && p.turns@.len() == self.edge_path@.len(),
                Err(p) => self.reads_as(p) && p.turns@.len() < self.edge_path@.len()
                    && self.turn_at(p.turns@.len() as int) is None,
            },
    {
        if self.edge_path.len() == 0 {
            return None;
        }
        let first_face = self.edge_path[0];
        proof {
            assert(self.enter_ok(0));
        }
        let start_ngon = self.faces[first_face.face_idx].len();
        let ngons = self.iter_ngon(start_ngon);
        proof {
            self.lemma_ngon_index(first_face.face_idx as int);
        }
        let mut start_nth: usize = 0;
        while start_nth < ngons.len() && ngons[start_nth] != first_face.face_idx
            invariant
                ngons@ == self.ngons(start_ngon as nat),
                start_ngon == self.face(first_face.face_idx as int).len(),
                first_face == self.edge_path@[0],
                0 <= first_face.face_idx < self.nf(),
                0 <= self.ngon_index(first_face.face_idx as int) < ngons@.len(),
                ngons@[self.ngon_index(first_face.face_idx as int)] == first_face.face_idx,
                0 <= start_nth <= ngons@.len(),
                forall|t: int| 0 <= t < start_nth ==> ngons@[t] != first_face.face_idx,
            decreases ngons@.len() - start_nth,
        {
            start_nth += 1;
        }
        proof {
            assert(start_nth as int == self.ngon_index(first_face.face_idx as int));
        }
        let mut turns: Vec<usize> = Vec::new();
        let mut j: usize = 0;
        while j < self.edge_path.len()
            invariant
                self.path_readable(),
                self.edge_path@.len() > 0,
                first_face == self.edge_path@[0],
                start_ngon == self.face(first_face.face_idx as int).len(),
                start_nth as int == self.ngon_index(first_face.face_idx as int),
                0 <= j <= self.edge_path@.len(),
                turns@.len() == j,
                forall|i: int| 0 <= i < j ==> self.turn_at(i) == Some(#[trigger] turns@[i]),
            decreases self.edge_path@.len() - j,
        {
            let cr = self.edge_path[j];
            proof {
                assert(self.enter_ok(j as int));
            }
            let face_idx = cr.face_idx;
            let n_exit_opt = self.edge_n_on_face(face_idx, cr.exit);
            proof {
                if self.on_face(face_idx as int, cr.exit) {
                    let p = self.pos_of(face_idx as int, cr.exit);
                    self.lemma_pos_of(face_idx as int, p);
                }
            }
            if cr.enter == self.edge_from_face(face_idx, 0) {
                let t = match n_exit_opt {
                    Some(nx) => if nx > 0 { nx - 1 } else { 0 },
                    None => 0,
                };
                turns.push(t);
            } else {
                let n_enter = self.edge_n_of(face_idx, cr.enter);
                let n_exit = match n_exit_opt {
                    Some(nx) => nx,
                    None => n_enter,
                };
                if n_enter < n_exit {
                    proof {
                        if self.on_face(face_idx as int, cr.exit) {
                            let p = self.pos_of(face_idx as int, cr.exit);
                            self.lemma_fedge_unique(face_idx as int, p, n_exit as int);
                        }
                        assert(self.turn_at(j as int) is None);
                    }
                    return Some(Err(PcbPath { start_ngon, start_nth, turns }));
                }
                turns.push(n_enter - n_exit);
            }
            j += 1;
        }
        Some(Ok(PcbPath { start_ngon, start_nth, turns }))
    }

    /// Add a visit to the path; its exit is the placeholder.
    pub fn push(&mut self, v: PolygonVisit)
        requires
            v.face_idx < old(self).face_path_index@.len(),
        ensures
            final(self).edge_path@ == old(self).edge_path@.push(PolygonCrossing { face_idx: v.face_idx, enter: v.enter, exit: Edge::spec_dev() }),
            final(self).fpi() == old(self).fpi().update(
                v.face_idx as int,
                old(self).fpi()[v.face_idx as int].push(old(self).edge_path@.len() as usize),
            ),
            final(self).faces == old(self).faces,
            final(self).edges == old(self).edges,
            final(self).name == old(self).name,
            final(self).face_path_index@.len() == old(self).face_path_index@.len(),
            old(self).face_path_index@.len() == old(self).faces@.len() && old(self).consistent() ==> final(self).consistent(),
    {
        let ghost s0 = *self;
        let l = self.edge_path.len();
        visits_push(&mut self.face_path_index[v.face_idx], l);
        self.edge_path.push(v.exit(Edge::dev()));
        proof {
            assert(self.fpi() =~= s0.fpi().update(v.face_idx as int, s0.fpi()[v.face_idx as int].push(l)));
            self.lemma_consistent_after_push(s0, PolygonCrossing { face_idx: v.face_idx, enter: v.enter, exit: Edge::spec_dev() });
        }
    }

    /// cross a face
    pub fn cross(&mut self, cr: PolygonCrossing)
        requires
            cr.face_idx < old(self).face_path_index@.len(),
        ensures
            final(self).edge_path@ == old(self).edge_path@.push(cr),
            final(self).fpi() == old(self).fpi().update(
                cr.face_idx as int,
                old(self).fpi()[cr.face_idx as int].push(old(self).edge_path@.len() as usize),
            ),
            final(self).faces == old(self).faces,
            final(self).edges == old(self).edges,
            final(self).name == old(self).name,
            final(self).face_path_index@.len() == old(self).face_path_index@.len(),
            old(self).face_path_index@.len() == old(self).faces@.len() && old(self).consistent() ==> final(self).consistent(),
    {
        let ghost s0 = *self;
        let l = self.edge_path.len();
        visits_push(&mut self.face_path_index[cr.face_idx], l);
        self.edge_path.push(cr);
        proof {
            assert(self.fpi() =~= s0.fpi().update(cr.face_idx as int, s0.fpi()[cr.face_idx as int].push(l)));
            self.lemma_consistent_after_push(s0, cr);
        }
    }

    /// Pushing a crossing and its position keeps the lists consistent.
    pub proof fn lemma_consistent_after_push(self, s0: Polyhedron, c: PolygonCrossing)
        requires
            c.face_idx < s0.face_path_index@.len(),
            self.edge_path@ == s0.edge_path@.push(c),
            self.fpi() == s0.fpi().update(
                c.face_idx as int,
                s0.fpi()[c.face_idx as int].push(s0.edge_path@.len() as usize),
            ),
            self.faces@.len() == s0.faces@.len(),
        ensures
            s0.face_path_index@.len() == s0.faces@.len() && s0.consistent() ==> self.consistent(),
    {
        if s0.face_path_index@.len() == s0.faces@.len() && s0.consistent() {
            assert forall|f: int| 0 <= f < self.nf() implies #[trigger] self.face_consistent(f) by {
                assert(s0.face_consistent(f));
                lemma_idx_of_push(s0.edge_path@, c, f);
            }
        }
    }

    /// The first position on the path at which face `f` is crossed.
    pub fn first_visit(&self, f: usize) -> (r: Option<usize>)
        requires
            f < self.face_path_index@.len(),
        ensures
            r == if self.fpi()[f as int].len() > 0 {
                Some(self.fpi()[f as int][0])
            } else {
                None::<usize>
            },
    {
        let v = &self.face_path_index[f];
        proof {
            assert(self.fpi()[f as int] == visits(*v));
        }
        if visits_len(v) > 0 {
            Some(visits_get(v, 0))
        } else {
            None
        }
    }

    /// What [`Self::pop_path`] makes of this state.
    pub open spec fn pops(self, new: Polyhedron, r: Option<usize>) -> bool {
        &&& new.faces == self.faces
        &&& new.edges == self.edges
        &&& new.name == self.name
        &&& self.edge_path@.len() == 0 ==> r is None && new.edge_path@ == self.edge_path@
            && new.fpi() == self.fpi()
        &&& self.edge_path@.len() > 0 ==> {
            let f = self.edge_path@.last().face_idx as int;
            &&& new.edge_path@ == self.edge_path@.drop_last()
            &&& new.fpi() == self.fpi().update(
                f,
                if self.fpi()[f].len() > 0 {
                    self.fpi()[f].drop_last()
                } else {
                    self.fpi()[f]
                },
            )
            &&& r == if new.edge_path@.len() > 0 {
                Some(new.edge_path@.last().face_idx)
            } else {
                None
            }
        }
        &&& self.path_inv() ==> new.path_inv()
    }

    /// pop the last crossing from the path; the face of the crossing that is
    /// now last, if any.
    pub fn pop_path(&mut self) -> (r: Option<usize>)
        requires
            old(self).edge_path@.len() > 0 ==> old(self).edge_path@.last().face_idx
                < old(self).face_path_index@.len(),
        ensures
            old(self).pops(*final(self), r),
    {
        let ghost s0 = *self;
        if self.edge_path.len() == 0 {
            return None;
        }
        let last = self.edge_path.pop().unwrap();
        let _ = visits_pop(&mut self.face_path_index[last.face_idx]);
        proof {
            let f = last.face_idx as int;
            let p0 = s0.edge_path@;
            assert(p0 =~= p0.drop_last().push(last));
            assert(s0.fpi()[f] == visits(s0.face_path_index@[f]));
            assert(self.fpi() =~= s0.fpi().update(
                f,
                if s0.fpi()[f].len() > 0 {
                    s0.fpi()[f].drop_last()
                } else {
                    s0.fpi()[f]
                },
            ));
            if s0.path_inv() {
                assert(s0.face_consistent(f));
                lemma_idx_of_push(p0.drop_last(), last, f);
                assert(s0.fpi()[f].len() > 0);
                s0.lemma_equiv_wf_self(*self);
                s0.lemma_same_faces(*self);
                assert forall|g: int| 0 <= g < self.nf() implies #[trigger] self.face_consistent(g) by {
                    assert(s0.face_consistent(g));
                    lemma_idx_of_push(p0.drop_last(), last, g);
                    if g == f {
                        assert(s0.fpi()[f] == idx_of(p0.drop_last(), f).push((p0.len() - 1) as usize));
                        assert(s0.fpi()[f].drop_last() =~= idx_of(p0.drop_last(), f));
                    } else {
                        assert(self.fpi()[g] == s0.fpi()[g]);
                    }
                }
                assert forall|j: int| 0 <= j < self.edge_path@.len() implies #[trigger] self.crossing_ok(j) by {
                    assert(s0.crossing_ok(j));
                    assert(self.edge_path@[j] == p0[j]);
                    if j == self.edge_path@.len() - 1 {
                        // the crossing before the last one leaves through a real edge
                        assert(j != p0.len() - 1);
                    }
                }
            }
        }
        match self.edge_path.last() {
            Some(cr) => Some(cr.face_idx),
            None => None,
        }
    }

    /// Remove the whole path.
    pub fn clear_path(&mut self)
        ensures
            final(self).faces == old(self).faces,
            final(self).edges == old(self).edges,
            final(self).name == old(self).name,
            final(self).edge_path@.len() == 0,
            final(self).fpi().len() == old(self).fpi().len(),
            forall|f: int| 0 <= f < final(self).fpi().len() ==> #[trigger] final(self).fpi()[f].len() == 0,
            old(self).wf() ==> final(self).path_inv(),
    {
        let ghost s0 = *self;
        self.edge_path.clear();
        let mut i: usize = 0;
        while i < self.face_path_index.len()
            invariant
                0 <= i <= self.face_path_index@.len(),
                self.face_path_index@.len() == s0.face_path_index@.len(),
                self.faces == s0.faces,
                self.edges == s0.edges,
                self.name == s0.name,
                self.edge_path@.len() == 0,
                forall|f: int| 0 <= f < i ==> #[trigger] visits(self.face_path_index@[f]).len() == 0,
            decreases self.face_path_index@.len() - i,
        {
            visits_clear(&mut self.face_path_index[i]);
            i += 1;
        }
        assert forall|f: int| 0 <= f < self.fpi().len() implies #[trigger] self.fpi()[f].len() == 0 by {
            assert(self.fpi()[f] == visits(self.face_path_index@[f]));
        }
        proof {
            if s0.wf() {
                s0.lemma_equiv_wf_self(*self);
                assert forall|f: int| 0 <= f < self.nf() implies #[trigger] self.face_consistent(f) by {
                    assert(self.fpi()[f] =~= idx_of(self.edge_path@, f));
                }
            }
        }
    }

    /// Same faces and edges keep well-formedness.
    pub proof fn lemma_equiv_wf_self(self, other: Polyhedron)
        requires
            self.wf(),
            other.faces == self.faces,
            other.edges == self.edges,
            other.face_path_index@.len() == self.face_path_index@.len(),
        ensures
            other.wf(),
    {
        self.lemma_same_faces(other);
        assert(self.faces_equiv(other));
        self.lemma_equiv_wf(other);
    }

    /// The same faces have the same edges.
    pub proof fn lemma_same_faces(self, other: Polyhedron)
        requires
            other.faces == self.faces,
        ensures
            forall|f: int| #[trigger] other.face(f) == self.face(f),
            forall|f: int, e: Edge| #[trigger] other.on_face(f, e) == self.on_face(f, e),
            self.faces_equiv(other),
    {
        assert(other.faces@ == self.faces@);
        assert forall|f: int| #[trigger] other.face(f) == self.face(f) by {}
        assert forall|f: int, e: Edge| (#[trigger] other.on_face(f, e) == self.on_face(f, e)) by {
            assert(other.face(f) == self.face(f));
            if self.on_face(f, e) {
                let i = choose|i: int| 0 <= i < self.face(f).len() && #[trigger] self.fedge(f, i) == e;
                assert(other.fedge(f, i) == e);
            }
            if other.on_face(f, e) {
                let i = choose|i: int| 0 <= i < other.face(f).len() && #[trigger] other.fedge(f, i) == e;
                assert(self.fedge(f, i) == e);
            }
        }
    }

    /// Faces that read as the same cycles are equivalent.
    pub proof fn lemma_equiv_by_faces(self, other: Polyhedron)
        requires
            faces_unchanged(self, other),
        ensures
            self.faces_equiv(other),
    {
        assert forall|f: int, e: Edge| 0 <= f < self.nf() implies (#[trigger] other.on_face(f, e) == self.on_face(f, e)) by {
            assert(other.face(f) == self.face(f));
            if self.on_face(f, e) {
                let i = choose|i: int| 0 <= i < self.face(f).len() && #[trigger] self.fedge(f, i) == e;
                assert(other.fedge(f, i) == e);
            }
            if other.on_face(f, e) {
                let i = choose|i: int| 0 <= i < other.face(f).len() && #[trigger] other.fedge(f, i) == e;
                assert(self.fedge(f, i) == e);
            }
        }
    }

    /// The visit list of face `f` names crossings of the path that enter
    /// and leave through edges of `f`.
    pub open spec fn visit_list_ok(self, f: int) -> bool {
        &&& 0 <= f < self.face_path_index@.len()
        &&& forall|t: int|
            0 <= t < self.fpi()[f].len() ==> (#[trigger] self.fpi()[f][t]) < self.edge_path@.len()
                && self.on_face(f, self.edge_path@[self.fpi()[f][t] as int].enter)
                && self.on_face(f, self.edge_path@[self.fpi()[f][t] as int].exit)
    }

    /// A consistent face on a path that leaves each face through its edges
    /// has a sound visit list.
    pub proof fn lemma_visit_list_ok(self, f: int)
        requires
            self.wf(),
            0 <= f < self.nf(),
            self.face_consistent(f),
            self.path_ok(),
            self.path_real(),
            self.edge_path@.len() <= usize::MAX,
        ensures
            self.visit_list_ok(f),
    {
        self.lemma_exits_of_face(f);
        assert forall|t: int| 0 <= t < self.fpi()[f].len() implies (#[trigger] self.fpi()[f][t]) < self.edge_path@.len()
            && self.on_face(f, self.edge_path@[self.fpi()[f][t] as int].enter)
            && self.on_face(f, self.edge_path@[self.fpi()[f][t] as int].exit) by {
            assert(self.crossing_ok(self.fpi()[f][t] as int));
        }
    }

    /// Check if a face can be revisited from the given edge
    ///
    /// crossing rule:
    /// ```text
    ///    3
    /// 2 /-\ 4
    /// 1 \_/ 5
    ///    0
    /// ```
    /// 03 disallows 0,1,2,3:
    /// - 0 because it's enter
    /// - 1,2 because it's sandwiched
    /// - 3 because it's exit
    ///
    /// So the face is no triangle, and `edge`, through which the face would
    /// be entered, is neither the enter nor the exit edge of any of its
    /// crossings nor lies between them (see [`Self::revisit_ok`]).
    pub fn can_revisit(&self, face_idx: usize, edge: Edge) -> (r: bool)
        requires
            face_idx < self.faces@.len(),
            self.face(face_idx as int).no_duplicates(),
            self.on_face(face_idx as int, edge),
            self.visit_list_ok(face_idx as int),
        ensures
            r == self.revisit_ok(face_idx as int, edge),
    {
        if self.faces[face_idx].len() == 3 {
            return false;
        }
        let ghost fv = self.fpi()[face_idx as int];
        let k = self.edge_n_of(face_idx, edge);
        let n = visits_len(&self.face_path_index[face_idx]);
        let mut t: usize = 0;
        while t < n
            invariant
                k == self.pos_of(face_idx as int, edge),
                face_idx < self.faces@.len(),
                self.face(face_idx as int).no_duplicates(),
                self.visit_list_ok(face_idx as int),
                fv == self.fpi()[face_idx as int],
                n == fv.len(),
                0 <= t <= n,
                forall|t2: int| 0 <= t2 < t ==> !#[trigger] self.revisit_blocks_on(self.edge_path@, face_idx as int, edge, fv[t2] as int),
            decreases n - t,
        {
            let i = visits_get(&self.face_path_index[face_idx], t);
            proof {
                assert(visits(self.face_path_index@[face_idx as int]) == fv);
                assert(fv[t as int] < self.edge_path@.len());
                assert(self.on_face(face_idx as int, self.edge_path@[fv[t as int] as int].enter));
                assert(self.on_face(face_idx as int, self.edge_path@[fv[t as int] as int].exit));
            }
            let cr = self.edge_path[i];
            let ne = self.edge_n_of(face_idx, cr.enter);
            let nx = self.edge_n_of(face_idx, cr.exit);
            let blocked = if ne <= nx {
                ne <= k && k <= nx
            } else {
                nx <= k && k <= ne
            };
            if blocked {
                assert(self.revisit_blocks_on(self.edge_path@, face_idx as int, edge, fv[t as int] as int));
                return false;
            }
            t += 1;
        }
        true
    }
}


/// `new` comes from `old` by rotating faces that were not on the path: same
/// edges, name and number of visit lists, faces equal up to rotation, and every
/// face on the path of `old` untouched.
pub open spec fn kept(old: Polyhedron, new: Polyhedron) -> bool {
    &&& old.faces_equiv(new)
    &&& new.edges == old.edges
    &&& new.name == old.name
    &&& new.face_path_index@.len() == old.face_path_index@.len()
    &&& forall|f: int| 0 <= f < old.nf() && #[trigger] old.visited(f) ==> new.faces@[f] == old.faces@[f]
}

/// A search that found nothing leaves the faces, the path and the visit
/// lists as they were.
pub open spec fn search_failed(old: Polyhedron, new: Polyhedron) -> bool {
    &&& kept(old, new)
    &&& faces_unchanged(old, new)
    &&& new.edge_path@ == old.edge_path@
    &&& new.fpi() == old.fpi()
}

/// Faces left unchanged twice are unchanged.
pub proof fn lemma_faces_unchanged_trans(a: Polyhedron, b: Polyhedron, c: Polyhedron)
    requires
        faces_unchanged(a, b),
        faces_unchanged(b, c),
    ensures
        faces_unchanged(a, c),
{
    assert forall|f: int| 0 <= f < a.nf() implies #[trigger] c.face(f) == a.face(f) by {
        assert(b.face(f) == a.face(f));
    }
}

/// Every face of `new` reads as the same cycle as in `old`.
pub open spec fn faces_unchanged(old: Polyhedron, new: Polyhedron) -> bool {
    &&& new.faces@.len() == old.faces@.len()
    &&& forall|f: int| 0 <= f < old.nf() ==> #[trigger] new.face(f) == old.face(f)
}

/// A search that succeeded extends the path from `visit` on, one crossing
/// after the other, until every face is on it.
pub open spec fn search_found(old: Polyhedron, new: Polyhedron, visit: PolygonVisit) -> bool {
    let l = old.edge_path@.len() as int;
    &&& kept(old, new)
    &&& new.path_inv()
    &&& new.path_real()
    &&& new.complete()
    &&& new.edge_path@.len() > l
    &&& new.edge_path@.subrange(0, l) == old.edge_path@
    &&& new.edge_path@[l].face_idx == visit.face_idx
    &&& new.edge_path@[l].enter == visit.enter
    &&& new.chain_from(l)
}

/// Equivalence of faces is transitive.
pub proof fn lemma_equiv_trans(a: Polyhedron, b: Polyhedron, c: Polyhedron)
    requires
        a.faces_equiv(b),
        b.faces_equiv(c),
    ensures
        a.faces_equiv(c),
{
    assert forall|f: int, e: Edge| 0 <= f < a.nf() implies (#[trigger] c.on_face(f, e) == a.on_face(f, e)) by {
        assert(c.on_face(f, e) == b.on_face(f, e));
        assert(b.on_face(f, e) == a.on_face(f, e));
    }
    assert forall|f: int| 0 <= f < a.nf() implies #[trigger] c.face(f).len() == a.face(f).len() by {
        assert(b.face(f).len() == a.face(f).len());
    }
    assert forall|f: int| 0 <= f < a.nf() && #[trigger] a.face(f).no_duplicates() implies c.face(f).no_duplicates() by {
        assert(b.face(f).no_duplicates());
    }
}

/// Changing one visit list changes one entry of the lists' view.
pub proof fn lemma_fpi_update(a: Polyhedron, b: Polyhedron, f: int)
    requires
        0 <= f < a.face_path_index@.len(),
        b.face_path_index@ == a.face_path_index@.update(f, b.face_path_index@[f]),
    ensures
        b.fpi() == a.fpi().update(f, visits(b.face_path_index@[f])),
{
    assert(b.fpi() =~= a.fpi().update(f, visits(b.face_path_index@[f])));
}

/// `kept` is transitive when the path of the first state stays on.
pub proof fn lemma_kept_trans(a: Polyhedron, b: Polyhedron, c: Polyhedron)
    requires
        kept(a, b),
        kept(b, c),
        forall|f: int| 0 <= f < a.nf() && #[trigger] a.visited(f) ==> b.visited(f),
    ensures
        kept(a, c),
{
    lemma_equiv_trans(a, b, c);
    assert forall|f: int| 0 <= f < a.nf() && #[trigger] a.visited(f) implies c.faces@[f] == a.faces@[f] by {
        assert(b.visited(f));
    }
}

/// Every state is kept from itself.
pub proof fn lemma_kept_refl(a: Polyhedron)
    ensures
        kept(a, a),
{
    a.lemma_same_faces(a);
}

impl Polyhedron {
    /// All lists but the one of `f` are consistent, and that one already holds
    /// the position of the crossing about to be added.
    pub open spec fn pending(self, f: int) -> bool {
        &&& forall|g: int| 0 <= g < self.nf() && g != f ==> #[trigger] self.face_consistent(g)
        &&& self.fpi()[f] == idx_of(self.edge_path@, f).push(self.edge_path@.len() as usize)
    }

    /// Adding the pending crossing makes the lists consistent.
    pub proof fn lemma_pending_push(self, s: Polyhedron, c: PolygonCrossing)
        requires
            s.pending(c.face_idx as int),
            c.face_idx < s.nf(),
            self.edge_path@ == s.edge_path@.push(c),
            self.fpi() == s.fpi(),
            self.faces@.len() == s.faces@.len(),
        ensures
            self.consistent(),
    {
        assert forall|g: int| 0 <= g < self.nf() implies #[trigger] self.face_consistent(g) by {
            lemma_idx_of_push(s.edge_path@, c, g);
            if g != c.face_idx {
                assert(s.face_consistent(g));
            }
        }
    }

    /// The same path in a kept state is as good.
    pub proof fn lemma_kept_path(self, b: Polyhedron)
        requires
            kept(self, b),
            b.edge_path@ == self.edge_path@,
        ensures
            self.path_ok() ==> b.path_ok(),
            self.path_ok() && self.path_real() ==> b.path_real(),
    {
        if self.path_ok() {
            assert forall|j: int| 0 <= j < b.edge_path@.len() implies #[trigger] b.crossing_ok(j) by {
                assert(self.crossing_ok(j));
                let c = self.edge_path@[j];
                assert(b.on_face(c.face_idx as int, c.enter) == self.on_face(c.face_idx as int, c.enter));
                assert(b.on_face(c.face_idx as int, c.exit) == self.on_face(c.face_idx as int, c.exit));
            }
        }
        if self.path_ok() && self.path_real() {
            assert forall|j: int| 0 <= j < b.edge_path@.len() implies #[trigger] b.on_face(
                b.edge_path@[j].face_idx as int,
                b.edge_path@[j].exit,
            ) by {
                assert(self.on_face(self.edge_path@[j].face_idx as int, self.edge_path@[j].exit));
                assert(self.crossing_ok(j));
            }
        }
    }

    /// Appending a crossing whose position is pending keeps the path valid.
    pub proof fn lemma_push_crossing(s: Polyhedron, t: Polyhedron, c: PolygonCrossing)
        requires
            s.wf(),
            s.path_ok(),
            s.path_real(),
            s.pending(c.face_idx as int),
            c.face_idx < s.nf(),
            s.on_face(c.face_idx as int, c.enter),
            s.on_face(c.face_idx as int, c.exit),
            t.edge_path@ == s.edge_path@.push(c),
            t.fpi() == s.fpi(),
            t.faces == s.faces,
            t.edges == s.edges,
            t.name == s.name,
            t.face_path_index@.len() == s.face_path_index@.len(),
        ensures
            t.path_inv(),
            t.path_real(),
            t.unvisited_count() == s.unvisited_count(),
            kept(s, t),
    {
        t.lemma_pending_push(s, c);
        s.lemma_same_faces(t);
        s.lemma_equiv_wf(t);
        let l = s.edge_path@.len();
        assert forall|j: int| 0 <= j < t.edge_path@.len() implies #[trigger] t.crossing_ok(j) && t.on_face(
            t.edge_path@[j].face_idx as int,
            t.edge_path@[j].exit,
        ) by {
            if j < l {
                assert(t.edge_path@[j] == s.edge_path@[j]);
                assert(s.crossing_ok(j));
                assert(s.on_face(s.edge_path@[j].face_idx as int, s.edge_path@[j].exit));
            } else {
                assert(t.edge_path@[j] == c);
            }
        }
        assert(t.path_real());
        assert forall|f: int| 0 <= f < s.nf() && #[trigger] s.visited(f) implies t.faces@[f] == s.faces@[f] by {}
    }

    /// A search that succeeded after one more crossing succeeded for the visit
    /// that crossing starts.
    pub proof fn lemma_found_extend(
        s0: Polyhedron,
        sp: Polyhedron,
        sf: Polyhedron,
        visit: PolygonVisit,
        child: PolygonVisit,
        c: PolygonCrossing,
    )
        requires
            kept(s0, sp),
            forall|f: int| 0 <= f < s0.nf() && #[trigger] s0.visited(f) ==> sp.visited(f),
            sp.edge_path@ == s0.edge_path@.push(c),
            c.face_idx == visit.face_idx,
            c.enter == visit.enter,
            child.enter == c.exit.spec_rev(),
            child.face_idx as int == s0.other_face_of(c.face_idx as int, c.exit),
            search_found(sp, sf, child),
        ensures
            search_found(s0, sf, visit),
    {
        let l = s0.edge_path@.len() as int;
        lemma_kept_trans(s0, sp, sf);
        assert(sf.edge_path@.subrange(0, l + 1) == sp.edge_path@);
        assert(sf.edge_path@.subrange(0, l) =~= s0.edge_path@) by {
            assert forall|j: int| 0 <= j < l implies sf.edge_path@[j] == s0.edge_path@[j] by {
                assert(sf.edge_path@.subrange(0, l + 1)[j] == sf.edge_path@[j]);
                assert(sp.edge_path@[j] == s0.edge_path@[j]);
            }
        }
        assert(sf.edge_path@[l] == c) by {
            assert(sf.edge_path@.subrange(0, l + 1)[l] == sf.edge_path@[l]);
        }
        assert(sf.edges@ == s0.edges@);
        assert(sf.other_face_of(c.face_idx as int, c.exit) == s0.other_face_of(c.face_idx as int, c.exit));
        assert forall|j: int| l <= j && j + 1 < sf.edge_path@.len() implies #[trigger] sf.edge_path@[j + 1].enter
            == sf.edge_path@[j].exit.spec_rev() && sf.edge_path@[j + 1].face_idx == sf.other_face_of(
            sf.edge_path@[j].face_idx as int,
            sf.edge_path@[j].exit,
        ) by {
            if j > l {
                assert(sf.chain_from(l + 1));
            }
        }
    }

    /// After a failed search, removing the crossing that started it restores
    /// the state before that crossing, up to rotation of unvisited faces.
    pub proof fn lemma_failed_restore(s0: Polyhedron, sp: Polyhedron, sfail: Polyhedron, sq: Polyhedron)
        requires
            kept(s0, sp),
            forall|f: int| 0 <= f < s0.nf() && #[trigger] s0.visited(f) ==> sp.visited(f),
            search_failed(sp, sfail),
            sq.faces == sfail.faces,
            sq.edges == sfail.edges,
            sq.name == sfail.name,
            sq.face_path_index == sfail.face_path_index,
        ensures
            kept(s0, sq),
            sq.fpi() == sp.fpi(),
            faces_unchanged(sp, sq),
    {
        sfail.lemma_same_faces(sq);
        lemma_kept_trans(s0, sp, sfail);
        sfail.lemma_same_faces(sq);
        assert(kept(sfail, sq));
        assert forall|f: int| 0 <= f < s0.nf() && #[trigger] s0.visited(f) implies sfail.visited(f) by {
            assert(sp.visited(f));
        }
        lemma_kept_trans(s0, sfail, sq);
    }

    /// Make a path, starting at the given face: on success the whole path is
    /// found and stays; otherwise nothing changes.
    ///
    /// The search goes from edge 1 around the polygon, and tries at most two
    /// new neighbours before it tries to re-enter faces already on the path;
    /// what it finds, and the state it leaves, is [`search`].
    #[verifier::spinoff_prover]
    #[verifier::rlimit(60)]
    pub(crate) fn dfs(&mut self, visit: PolygonVisit) -> (r: bool)
        requires
            old(self).path_inv(),
            old(self).path_real(),
            visit.face_idx < old(self).faces@.len(),
            old(self).on_face(visit.face_idx as int, visit.enter),
        ensures
            old(self).visited(visit.face_idx as int) ==> !r && final(self).faces == old(self).faces,
            !old(self).visited(visit.face_idx as int) && (forall|g: int|
                0 <= g < old(self).nf() && g != visit.face_idx ==> #[trigger] old(self).visited(g)) ==> r,
            r ==> search_found(*old(self), *final(self), visit),
            !r ==> search_failed(*old(self), *final(self)),
            (r, state_of(*final(self))) == search(old(self).edges@, state_of(*old(self)), visit),
        decreases 2 * old(self).unvisited_count(),
    {
        let ghost s0 = *self;
        let fidx = visit.face_idx;
        proof {
            lemma_kept_refl(s0);
            assert(s0.fpi()[fidx as int] == visits(s0.face_path_index@[fidx as int]));
        }
        if !visits_is_empty(&self.face_path_index[fidx]) {
            return false;
        }
        let rotate_amount = self.edge_n_of(fidx, visit.enter);
        self.rotate_face(fidx, rotate_amount);
        let ghost s_rot = *self;
        let l = self.edge_path.len();
        visits_push(&mut self.face_path_index[fidx], l);
        let ghost s1 = *self;
        proof {
            s_rot.lemma_same_faces(s1);
            lemma_equiv_trans(s0, s_rot, s1);
            assert(s1.face_path_index@ == s0.face_path_index@.update(fidx as int, s1.face_path_index@[fidx as int]));
            assert(visits(s1.face_path_index@[fidx as int]) =~= seq![l]);
            assert(s1.fpi() =~= s0.fpi().update(fidx as int, seq![l]));
            lemma_count_update(s0.fpi(), fidx as int, seq![l]);
            lemma_count_pos(s0.fpi(), fidx as int);
            s0.lemma_equiv_wf(s1);
            assert(kept(s0, s1));
            assert forall|f: int| 0 <= f < s0.nf() && #[trigger] s0.visited(f) implies s1.visited(f) by {
                if f != fidx {
                    assert(s1.fpi()[f] == s0.fpi()[f]);
                }
            }
            assert(s0.face_consistent(fidx as int));
            assert(s1.pending(fidx as int)) by {
                assert forall|g: int| 0 <= g < s1.nf() && g != fidx implies #[trigger] s1.face_consistent(g) by {
                    assert(s0.face_consistent(g));
                }
            }
            s0.lemma_kept_path(s1);
            assert(s1.fedge(fidx as int, 0) == visit.enter);
            lemma_small_mod(1, s1.face(fidx as int).len());
            lemma_state_face(s0, fidx as int);
            lemma_state_face(s1, fidx as int);
            assert(state_of(s1).0 =~= state_of(s0).0.update(fidx as int, rotl(state_of(s0).0[fidx as int], rotate_amount as int))) by {
                assert forall|g: int| 0 <= g < s0.faces@.len() implies state_of(s1).0[g] == state_of(s0).0.update(
                    fidx as int,
                    rotl(state_of(s0).0[fidx as int], rotate_amount as int),
                )[g] by {
                    if g != fidx {
                        assert(s_rot.faces@[g] == s0.faces@[g]);
                    }
                }
            }
            assert(state_of(s0).2[fidx as int].push(l) =~= seq![l]);
            assert(state_of(s1) == enter_face(state_of(s0), fidx as int, pos_in(state_of(s0).0[fidx as int], visit.enter)));
        }
        if self.path_complete_questionmark() {
            let exit = self.edge_from_face(fidx, 1);
            let c = visit.exit(exit);
            self.edge_path.push(c);
            proof {
                let sf = *self;
                assert(s1.on_face(fidx as int, exit));
                assert(s1.on_face(fidx as int, visit.enter));
                Polyhedron::lemma_push_crossing(s1, sf, c);
                lemma_kept_trans(s0, s1, sf);
                assert forall|f: int| 0 <= f < sf.nf() implies #[trigger] sf.visited(f) by {
                    assert(sf.fpi()[f] == s1.fpi()[f]);
                }
                assert(sf.edge_path@.subrange(0, l as int) =~= s0.edge_path@);
            }
            return true;
        }
        proof {
            assert(s1.on_face(fidx as int, visit.enter));
            assert(!(forall|g: int| 0 <= g < s0.nf() && g != fidx ==> #[trigger] s0.visited(g))) by {
                let g = choose|g: int| 0 <= g < s1.face_path_index@.len() && !(#[trigger] s1.fpi()[g].len() > 0);
                assert(g != fidx);
                assert(s1.fpi()[g] == s0.fpi()[g]);
                assert(!s0.visited(g));
            }
        }
        let ghost nf0 = new_faces(s0.edges@, state_of(s1), visit, 1, 0, Seq::empty());
        proof {
            assert(!all_seen(state_of(s1))) by {
                lemma_state_face(s1, fidx as int);
                let g = choose|g: int| 0 <= g < s1.face_path_index@.len() && !(#[trigger] s1.fpi()[g].len() > 0);
                assert(!seen(state_of(s1), g));
            }
            assert(!seen(state_of(s0), fidx as int));
            assert(search(s0.edges@, state_of(s0), visit) == (if nf0.0 {
                (true, nf0.1)
            } else {
                let rl = reentries(s0.edges@, state_of(s1), nf0.2, 0);
                if rl.0 {
                    (true, rl.1)
                } else {
                    (false, state_of(s0))
                }
            }));
        }
        let face_edges = self.face_edges(fidx, 0);
        let mut revisits: Vec<(PolygonCrossing, PolygonVisit)> = Vec::new();
        let mut n_new_faces: usize = 0;
        let mut i: usize = 1;
        while i < face_edges.len() && n_new_faces < 2
            invariant
                *old(self) == s0,
                s0.path_inv(),
                !(forall|g: int| 0 <= g < s0.nf() && g != fidx ==> #[trigger] s0.visited(g)),
                s1.wf(),
                s1.path_ok(),
                s1.path_real(),
                s1.pending(fidx as int),
                s1.fpi() == s0.fpi().update(fidx as int, seq![l]),
                kept(s0, s1),
                forall|f: int| 0 <= f < s0.nf() && #[trigger] s0.visited(f) ==> s1.visited(f),
                !s0.visited(fidx as int),
                s1.visited(fidx as int),
                s1.edge_path@ == s0.edge_path@,
                s1.unvisited_count() + 1 == s0.unvisited_count(),
                s1.fedge(fidx as int, 0) == visit.enter,
                fidx < s1.nf(),
                l == s0.edge_path@.len(),
                visit.face_idx == fidx,
                self.wf(),
                kept(s1, *self),
                self.edge_path@ == s1.edge_path@,
                self.fpi() == s1.fpi(),
                self.path_ok(),
                self.path_real(),
                self.faces@[fidx as int] == s1.faces@[fidx as int],
                faces_unchanged(s1, *self),
                s1.edges == s0.edges,
                nf0 == new_faces(s0.edges@, state_of(s1), visit, i as int, n_new_faces as int, revisits@),
                search(s0.edges@, state_of(s0), visit) == (if nf0.0 {
                    (true, nf0.1)
                } else {
                    let rl = reentries(s0.edges@, state_of(s1), nf0.2, 0);
                    if rl.0 {
                        (true, rl.1)
                    } else {
                        (false, state_of(s0))
                    }
                }),
                face_edges@.len() == s1.face(fidx as int).len(),
                forall|k: int| 0 <= k < face_edges@.len() ==> #[trigger] face_edges@[k] == s1.fedge(fidx as int, k),
                1 <= i <= face_edges@.len(),
                forall|t: int| 0 <= t < revisits@.len() ==> #[trigger] s1.revisit_entry(fidx, visit, revisits@[t]),
            decreases face_edges@.len() - i,
        {
            let edge = face_edges[i];
            let ghost sc = *self;
            proof {
                lemma_small_mod(i as nat, s1.face(fidx as int).len());
                assert(self.face(fidx as int) == s1.face(fidx as int));
                assert(self.fedge(fidx as int, i as int) == edge);
                s1.lemma_kept_path(sc);
            }
            let n_face_idx = self.other_face(fidx, i);
            let ghost i0 = i as int;
            let ghost n0 = n_new_faces as int;
            let ghost r0 = revisits@;
            proof {
                lemma_state_same(s1, sc);
                lemma_state_face(s1, fidx as int);
                lemma_other_state(s1, fidx as int, edge);
                assert(edge == edge_at(state_of(s1).0[fidx as int], i as int));
                assert(n_face_idx as int == other_across(s0.edges@, fidx as int, edge));
                assert(sc.fpi()[n_face_idx as int] == state_of(s1).2[n_face_idx as int]);
                assert(sc.fpi()[n_face_idx as int] == visits(sc.face_path_index@[n_face_idx as int]));
                assert(s1.on_face(n_face_idx as int, edge.spec_rev()) == sc.on_face(n_face_idx as int, edge.spec_rev()));
                assert(s1.on_face(fidx as int, edge) == sc.on_face(fidx as int, edge));
                assert(sc.on_face(fidx as int, edge));
                assert(sc.edges@ == s1.edges@);
            }
            if !visits_is_empty(&self.face_path_index[n_face_idx]) {
                proof {
                    lemma_reenter_state(sc, n_face_idx as int, edge.spec_rev());
                    lemma_state_face(sc, n_face_idx as int);
                    assert(seen(state_of(s1), n_face_idx as int));
                }
                if self.faces[n_face_idx].len() != 3 {
                    proof {
                        assert(s1.face_consistent(n_face_idx as int));
                        assert(sc.face_consistent(n_face_idx as int));
                        sc.lemma_exits_of_face(n_face_idx as int);
                        sc.lemma_visit_list_ok(n_face_idx as int);
                    }
                    if self.can_revisit(n_face_idx, edge.rev()) {
                        let entry = (visit.exit(edge), PolygonVisit { face_idx: n_face_idx, enter: edge.rev() });
                        proof {
                            assert(s1.revisit_entry(fidx, visit, entry));
                        }
                        revisits.push(entry);
                    }
                }
                proof {
                    assert(new_faces(s0.edges@, state_of(s1), visit, i0, n0, r0) == new_faces(
                        s0.edges@,
                        state_of(s1),
                        visit,
                        i0 + 1,
                        n0,
                        revisits@,
                    ));
                }
            } else {
                let c = visit.exit(edge);
                self.edge_path.push(c);
                let ghost sp = *self;
                proof {
                    assert(s1.on_face(fidx as int, visit.enter));
                    assert(sc.pending(fidx as int)) by {
                        assert forall|g: int| 0 <= g < sc.nf() && g != fidx implies #[trigger] sc.face_consistent(g) by {
                            assert(s1.face_consistent(g));
                        }
                    }
                    Polyhedron::lemma_push_crossing(sc, sp, c);
                    lemma_kept_trans(s1, sc, sp);
                    lemma_kept_trans(s0, s1, sp);
                    assert(!sp.visited(n_face_idx as int));
                    assert(2 * sp.unvisited_count() < 2 * s0.unvisited_count());
                    assert(sp.on_face(n_face_idx as int, edge.spec_rev()) == sc.on_face(n_face_idx as int, edge.spec_rev()));
                }
                let child = PolygonVisit { face_idx: n_face_idx, enter: edge.rev() };
                let found = self.dfs(child);
                if found {
                    proof {
                        assert forall|f: int| 0 <= f < s0.nf() && #[trigger] s0.visited(f) implies sp.visited(f) by {
                            assert(s1.visited(f));
                        }
                        Polyhedron::lemma_found_extend(s0, sp, *self, visit, child, c);
                        assert(state_of(sp) == cross_on(state_of(s1), c));
                        assert(!seen(state_of(s1), n_face_idx as int));
                        assert(new_faces(s0.edges@, state_of(s1), visit, i0, n0, r0) == (true, state_of(*self), r0));
                    }
                    return true;
                }
                let ghost sfail = *self;
                self.edge_path.pop();
                proof {
                    let sq = *self;
                    Polyhedron::lemma_failed_restore(sc, sp, sfail, sq);
                    sc.lemma_same_faces(sp);
                    lemma_faces_unchanged_trans(s1, sc, sp);
                    lemma_faces_unchanged_trans(s1, sp, sq);
                    assert(sq.edge_path@ =~= s1.edge_path@);
                    lemma_kept_trans(s1, sc, sq);
                    assert(state_of(sp) == cross_on(state_of(s1), c));
                    assert(!seen(state_of(s1), n_face_idx as int));
                    assert(new_faces(s0.edges@, state_of(s1), visit, i0, n0, r0) == new_faces(
                        s0.edges@,
                        state_of(s1),
                        visit,
                        i0 + 1,
                        n0 + 1,
                        r0,
                    ));
                }
                n_new_faces += 1;
            }
            proof {
                let sq = *self;
                s1.lemma_equiv_wf(sq);
                s1.lemma_kept_path(sq);
            }
            i += 1;
        }
        proof {
            assert(new_faces(s0.edges@, state_of(s1), visit, i as int, n_new_faces as int, revisits@) == (
                false,
                state_of(s1),
                revisits@,
            ));
        }
        let mut t: usize = 0;
        while t < revisits.len()
            invariant
                *old(self) == s0,
                s0.path_inv(),
                !(forall|g: int| 0 <= g < s0.nf() && g != fidx ==> #[trigger] s0.visited(g)),
                s1.wf(),
                s1.path_ok(),
                s1.path_real(),
                s1.pending(fidx as int),
                s1.fpi() == s0.fpi().update(fidx as int, seq![l]),
                kept(s0, s1),
                forall|f: int| 0 <= f < s0.nf() && #[trigger] s0.visited(f) ==> s1.visited(f),
                !s0.visited(fidx as int),
                s1.visited(fidx as int),
                s1.edge_path@ == s0.edge_path@,
                s1.unvisited_count() + 1 == s0.unvisited_count(),
                fidx < s1.nf(),
                l == s0.edge_path@.len(),
                visit.face_idx == fidx,
                self.wf(),
                kept(s1, *self),
                self.edge_path@ == s1.edge_path@,
                self.fpi() == s1.fpi(),
                self.path_ok(),
                self.path_real(),
                forall|t2: int| 0 <= t2 < revisits@.len() ==> #[trigger] s1.revisit_entry(fidx, visit, revisits@[t2]),
                0 <= t <= revisits@.len(),
                s1.on_face(fidx as int, visit.enter),
                faces_unchanged(s1, *self),
                s1.edges == s0.edges,
                nf0 == (false, state_of(s1), revisits@),
                reentries(s0.edges@, state_of(s1), revisits@, 0) == reentries(s0.edges@, state_of(s1), revisits@, t as int),
                search(s0.edges@, state_of(s0), visit) == (if nf0.0 {
                    (true, nf0.1)
                } else {
                    let rl = reentries(s0.edges@, state_of(s1), nf0.2, 0);
                    if rl.0 {
                        (true, rl.1)
                    } else {
                        (false, state_of(s0))
                    }
                }),
            decreases revisits@.len() - t,
        {
            let entry = revisits[t];
            let (cr, rv) = entry;
            let ghost sc = *self;
            self.edge_path.push(cr);
            let ghost sp = *self;
            proof {
                assert(s1.revisit_entry(fidx, visit, revisits@[t as int]));
                s1.lemma_same_faces(s1);
                assert(sc.on_face(fidx as int, visit.enter) == s1.on_face(fidx as int, visit.enter));
                assert(sc.on_face(fidx as int, cr.exit) == s1.on_face(fidx as int, cr.exit));
                assert(sc.pending(fidx as int)) by {
                    assert forall|g: int| 0 <= g < sc.nf() && g != fidx implies #[trigger] sc.face_consistent(g) by {
                        assert(s1.face_consistent(g));
                    }
                }
                Polyhedron::lemma_push_crossing(sc, sp, cr);
                lemma_kept_trans(s1, sc, sp);
                lemma_kept_trans(s0, s1, sp);
                assert(sp.on_face(rv.face_idx as int, rv.enter) == s1.on_face(rv.face_idx as int, rv.enter));
                assert(sp.fpi()[rv.face_idx as int] == s1.fpi()[rv.face_idx as int]);
                assert(2 * sp.unvisited_count() + 1 < 2 * s0.unvisited_count());
            }
            let found = self.revisit_dfs(rv);
            if found {
                proof {
                    assert forall|f: int| 0 <= f < s0.nf() && #[trigger] s0.visited(f) implies sp.visited(f) by {
                        assert(s1.visited(f));
                    }
                    assert(s0.edges@ == s1.edges@);
                    Polyhedron::lemma_found_extend(s0, sp, *self, visit, rv, cr);
                    lemma_state_same(s1, sc);
                    assert(state_of(sp) == cross_on(state_of(s1), cr));
                    assert(revisits@[t as int] == (cr, rv));
                    assert(reentries(s0.edges@, state_of(s1), revisits@, t as int) == (true, state_of(*self)));
                }
                return true;
            }
            let ghost sfail = *self;
            self.edge_path.pop();
            proof {
                let sq = *self;
                Polyhedron::lemma_failed_restore(sc, sp, sfail, sq);
                sc.lemma_same_faces(sp);
                lemma_faces_unchanged_trans(s1, sc, sp);
                lemma_faces_unchanged_trans(s1, sp, sq);
                assert(sq.edge_path@ =~= s1.edge_path@);
                lemma_kept_trans(s1, sc, sq);
                s1.lemma_equiv_wf(sq);
                s1.lemma_kept_path(sq);
                lemma_state_same(s1, sc);
                assert(state_of(sp) == cross_on(state_of(s1), cr));
                assert(revisits@[t as int] == (cr, rv));
                assert(reentries(s0.edges@, state_of(s1), revisits@, t as int) == reentries(
                    s0.edges@,
                    state_of(s1),
                    revisits@,
                    t + 1,
                ));
            }
            t += 1;
        }
        let ghost s2 = *self;
        let _ = visits_pop(&mut self.face_path_index[fidx]);
        let ghost s3 = *self;
        proof {
            let sf = *self;
            assert(s2.fpi()[fidx as int] == visits(s2.face_path_index@[fidx as int]));
            assert(sf.face_path_index@ == s2.face_path_index@.update(fidx as int, sf.face_path_index@[fidx as int]));
            assert(s2.fpi()[fidx as int] == seq![l]);
            assert(visits(sf.face_path_index@[fidx as int]) =~= Seq::<usize>::empty());
            assert(s0.fpi()[fidx as int] =~= Seq::<usize>::empty());
            lemma_fpi_update(s2, sf, fidx as int);
            assert(sf.fpi() =~= s0.fpi());
            s2.lemma_same_faces(sf);
            lemma_kept_trans(s1, s2, sf);
            lemma_kept_trans(s0, s1, sf);
        }
        let flen = self.faces[fidx].len();
        let back = if rotate_amount == 0 {
            0
        } else {
            flen - rotate_amount
        };
        proof {
            assert(s3.face(fidx as int) == s_rot.face(fidx as int));
            assert(s_rot.face(fidx as int) == rotl(s0.face(fidx as int), rotate_amount as int));
        }
        self.rotate_face(fidx, back);
        proof {
            let sf = *self;
            lemma_rotl_back(s0.face(fidx as int), rotate_amount as int, back as int);
            assert(sf.face(fidx as int) =~= s0.face(fidx as int));
            assert forall|f: int| 0 <= f < s0.nf() implies #[trigger] sf.face(f) == s0.face(f) by {
                if f != fidx {
                    assert(sf.faces@[f] == s3.faces@[f]);
                    assert(s3.face(f) == s_rot.face(f));
                    assert(s_rot.faces@[f] == s0.faces@[f]);
                }
            }
            lemma_state_same(s0, sf);
            assert(reentries(s0.edges@, state_of(s1), revisits@, t as int) == (false, state_of(s1)));
            assert(kept(s0, sf)) by {
                s0.lemma_equiv_by_faces(sf);
                assert forall|f: int| 0 <= f < s0.nf() && #[trigger] s0.visited(f) implies sf.faces@[f] == s0.faces@[f] by {
                    assert(f != fidx);
                    assert(sf.faces@[f] == s3.faces@[f]);
                }
            }
        }
        false
    }

    /// A remembered re-entry: leave face `fidx` (entered by `visit`) through
    /// an edge of it into a face already on the path.
    pub open spec fn revisit_entry(self, fidx: usize, visit: PolygonVisit, entry: (PolygonCrossing, PolygonVisit)) -> bool {
        let (cr, rv) = entry;
        &&& cr.face_idx == fidx
        &&& cr.enter == visit.enter
        &&& self.on_face(fidx as int, cr.exit)
        &&& rv.face_idx < self.nf()
        &&& self.visited(rv.face_idx as int)
        &&& rv.enter == cr.exit.spec_rev()
        &&& self.on_face(rv.face_idx as int, rv.enter)
        &&& rv.face_idx as int == self.other_face_of(fidx as int, cr.exit)
    }

    /// Where the `t`-th crossing of face `f` leaves it, as a position on the
    /// face.
    pub open spec fn exit_pos(self, f: int, t: int) -> int {
        self.pos_of(f, self.edge_path@[self.fpi()[f][t] as int].exit)
    }

    /// Position `k` of the face of `visit` is one that
    /// [`Self::revisit_dfs`] tries to leave through: not the enter edge, not
    /// below the nearest exit of the face below the enter edge (and, with no
    /// such exit, not below the enter edge at all), and below the nearest
    /// exit above the enter edge.
    pub open spec fn in_revisit_window(self, visit: PolygonVisit, k: int) -> bool {
        let f = visit.face_idx as int;
        let n = self.pos_of(f, visit.enter);
        let c = self.fpi()[f].len();
        &&& 0 <= k < self.face(f).len()
        &&& k != n
        &&& forall|t: int| 0 <= t < c && #[trigger] self.exit_pos(f, t) < n ==> self.exit_pos(f, t) <= k
        &&& forall|t: int| 0 <= t < c && #[trigger] self.exit_pos(f, t) > n ==> k < self.exit_pos(f, t)
        &&& k < n ==> exists|t: int| 0 <= t < c && #[trigger] self.exit_pos(f, t) < n
    }

    /// Face `g` is the one face not on the path.
    pub open spec fn last_open(self, g: int) -> bool {
        &&& 0 <= g < self.nf()
        &&& !self.visited(g)
        &&& forall|h: int| 0 <= h < self.nf() && h != g ==> #[trigger] self.visited(h)
    }

    /// The crossings of a consistent face leave through its edges.
    pub proof fn lemma_exits_of_face(self, f: int)
        requires
            self.face_consistent(f),
            self.path_real(),
            self.edge_path@.len() <= usize::MAX,
        ensures
            forall|t: int| 0 <= t < self.fpi()[f].len() ==> #[trigger] self.on_face(
                f,
                self.edge_path@[self.fpi()[f][t] as int].exit,
            ),
            forall|t: int| 0 <= t < self.fpi()[f].len() ==> (#[trigger] self.fpi()[f][t]) < self.edge_path@.len()
                && self.edge_path@[self.fpi()[f][t] as int].face_idx == f,
    {
        lemma_idx_of(self.edge_path@, f);
        assert forall|t: int| 0 <= t < self.fpi()[f].len() implies #[trigger] self.on_face(
            f,
            self.edge_path@[self.fpi()[f][t] as int].exit,
        ) by {
            let j = self.fpi()[f][t] as int;
            assert(idx_of(self.edge_path@, f)[t] == j);
            assert(self.on_face(self.edge_path@[j].face_idx as int, self.edge_path@[j].exit));
        }
    }

    /// Continue a path on a face that is already on it, leaving through an
    /// edge between the exits it already has around the enter edge; what it
    /// finds, and the state it leaves, is [`revisit_search`].
    #[verifier::spinoff_prover]
    #[verifier::rlimit(60)]
    fn revisit_dfs(&mut self, visit: PolygonVisit) -> (r: bool)
        requires
            old(self).path_inv(),
            old(self).path_real(),
            visit.face_idx < old(self).faces@.len(),
            old(self).visited(visit.face_idx as int),
            old(self).on_face(visit.face_idx as int, visit.enter),
        ensures
            r ==> search_found(*old(self), *final(self), visit),
            !r ==> search_failed(*old(self), *final(self)),
            (exists|k: int|
                #[trigger] old(self).in_revisit_window(visit, k) && old(self).last_open(
                    old(self).other_face_of(visit.face_idx as int, old(self).fedge(visit.face_idx as int, k)),
                )) ==> r,
            r ==> exists|k: int|
                #[trigger] old(self).in_revisit_window(visit, k) && !old(self).visited(
                    old(self).other_face_of(visit.face_idx as int, old(self).fedge(visit.face_idx as int, k)),
                ) && final(self).edge_path@[old(self).edge_path@.len() as int].exit == old(self).fedge(
                    visit.face_idx as int,
                    k,
                ),
            (r, state_of(*final(self))) == revisit_search(old(self).edges@, state_of(*old(self)), visit),
        decreases 2 * old(self).unvisited_count() + 1,
    {
        let ghost s0 = *self;
        let fidx = visit.face_idx;
        proof {
            lemma_kept_refl(s0);
        }
        let n = self.edge_n_of(fidx, visit.enter);
        let len = self.faces[fidx].len();
        let cnt = visits_len(&self.face_path_index[fidx]);
        proof {
            assert(self.edge_path@.len() <= usize::MAX) by {
                broadcast use vstd::std_specs::vec::axiom_spec_len;
                assert(self.edge_path@.len() == self.edge_path.len());
            }
        }
        proof {
            assert(s0.face_consistent(fidx as int));
            s0.lemma_exits_of_face(fidx as int);
        }
        let mut has_lo = false;
        let mut lo: usize = n;
        let mut has_hi = false;
        let mut hi: usize = len;
        let mut t: usize = 0;
        while t < cnt
            invariant
                s0 == *self,
                s0.wf(),
                cnt == s0.fpi()[fidx as int].len(),
                fidx < s0.nf(),
                n < len,
                len == s0.face(fidx as int).len(),
                lo <= n,
                n < hi <= len,
                0 <= t <= cnt,
                n == s0.pos_of(fidx as int, visit.enter),
                visit.face_idx == fidx,
                has_lo ==> lo < n && exists|t2: int| 0 <= t2 < t && #[trigger] s0.exit_pos(fidx as int, t2) == lo,
                !has_lo ==> lo == n && forall|t2: int| 0 <= t2 < t ==> !(#[trigger] s0.exit_pos(fidx as int, t2) < n),
                forall|t2: int| 0 <= t2 < t && #[trigger] s0.exit_pos(fidx as int, t2) < n ==> s0.exit_pos(fidx as int, t2) <= lo,
                has_hi ==> exists|t2: int| 0 <= t2 < t && #[trigger] s0.exit_pos(fidx as int, t2) == hi,
                !has_hi ==> hi == len,
                forall|t2: int| 0 <= t2 < t && #[trigger] s0.exit_pos(fidx as int, t2) > n ==> hi <= s0.exit_pos(fidx as int, t2),
                forall|t2: int| 0 <= t2 < s0.fpi()[fidx as int].len() ==> #[trigger] s0.on_face(
                    fidx as int,
                    s0.edge_path@[s0.fpi()[fidx as int][t2] as int].exit,
                ),
                forall|t2: int| 0 <= t2 < s0.fpi()[fidx as int].len() ==> (#[trigger] s0.fpi()[fidx as int][t2]) < s0.edge_path@.len()
                    && s0.edge_path@[s0.fpi()[fidx as int][t2] as int].face_idx == fidx,
            decreases cnt - t,
        {
            let v = visits_get(&self.face_path_index[fidx], t);
            proof {
                assert(s0.fpi()[fidx as int] == visits(s0.face_path_index@[fidx as int]));
            }
            let cr = self.edge_path[v];
            proof {
                assert(s0.on_face(fidx as int, s0.edge_path@[s0.fpi()[fidx as int][t as int] as int].exit));
            }
            let e = self.edge_n_of(fidx, cr.exit);
            proof {
                assert(e == s0.exit_pos(fidx as int, t as int));
            }
            if e < n && (!has_lo || e > lo) {
                lo = e;
                has_lo = true;
            }
            if e > n && (!has_hi || e < hi) {
                hi = e;
                has_hi = true;
            }
            t += 1;
        }
        proof {
            assert forall|k: int| lo <= k < hi && k != n implies #[trigger] s0.in_revisit_window(visit, k) by {
                if k < n {
                    assert(has_lo);
                    let t2 = choose|t2: int| 0 <= t2 < cnt && #[trigger] s0.exit_pos(fidx as int, t2) == lo;
                    assert(s0.exit_pos(fidx as int, t2) < n);
                }
            }
            assert forall|k: int| #[trigger] s0.in_revisit_window(visit, k) implies lo <= k < hi by {
                if k < n {
                    let t3 = choose|t3: int| 0 <= t3 < cnt && #[trigger] s0.exit_pos(fidx as int, t3) < n;
                    assert(has_lo);
                    let t2 = choose|t2: int| 0 <= t2 < cnt && #[trigger] s0.exit_pos(fidx as int, t2) == lo;
                    assert(s0.exit_pos(fidx as int, t2) < n);
                }
                if has_hi {
                    let t2 = choose|t2: int| 0 <= t2 < cnt && #[trigger] s0.exit_pos(fidx as int, t2) == hi;
                    assert(s0.exit_pos(fidx as int, t2) > n);
                }
            }
            lemma_state_face(s0, fidx as int);
            assert forall|k: int| 0 <= k < lo implies !#[trigger] in_window(state_of(s0), visit, k) by {
                lemma_window_state(s0, visit, k);
            }
            lemma_window_skip(s0.edges@, state_of(s0), visit, 0, lo as int);
            assert forall|k: int| hi <= k < len implies !#[trigger] in_window(state_of(s0), visit, k) by {
                lemma_window_state(s0, visit, k);
            }
            lemma_window_skip(s0.edges@, state_of(s0), visit, hi as int, len as int);
            assert(window_from(s0.edges@, state_of(s0), visit, len as int) == (false, state_of(s0)));
        }
        let mut edge_n: usize = lo;
        while edge_n < hi
            invariant
                revisit_search(s0.edges@, state_of(s0), visit) == window_from(s0.edges@, state_of(s0), visit, edge_n as int),
                window_from(s0.edges@, state_of(s0), visit, hi as int) == (false, state_of(s0)),
                edge_n <= hi,
                len == state_of(s0).0[fidx as int].len(),
                forall|k: int| lo <= k < hi && k != n ==> #[trigger] s0.in_revisit_window(visit, k),
                forall|k: int| #[trigger] s0.in_revisit_window(visit, k) ==> lo <= k < hi,
                forall|k: int|
                    lo <= k < edge_n && k != n ==> !#[trigger] s0.last_open(s0.other_face_of(fidx as int, s0.fedge(fidx as int, k))),
                n == s0.pos_of(fidx as int, visit.enter),
                faces_unchanged(s0, *self),
                *old(self) == s0,
                s0.path_inv(),
                s0.path_real(),
                s0.visited(fidx as int),
                s0.on_face(fidx as int, visit.enter),
                visit.face_idx == fidx,
                fidx < s0.nf(),
                len == s0.face(fidx as int).len(),
                hi <= len,
                lo <= edge_n,
                self.wf(),
                kept(s0, *self),
                self.edge_path@ == s0.edge_path@,
                self.fpi() == s0.fpi(),
                self.path_ok(),
                self.path_real(),
            decreases hi - edge_n,
        {
            if edge_n != n {
                let ghost sc = *self;
                proof {
                    lemma_small_mod(edge_n as nat, len as nat);
                    assert(sc.faces@[fidx as int] == s0.faces@[fidx as int]);
                    assert(sc.face(fidx as int) == s0.face(fidx as int));
                    assert forall|f: int| 0 <= f < sc.nf() implies #[trigger] sc.face_consistent(f) by {
                        assert(s0.face_consistent(f));
                    }
                }
                let e = self.edge_from_face(fidx, edge_n);
                let n_face_idx = self.other_face(fidx, edge_n);
                proof {
                    assert(sc.fpi()[n_face_idx as int] == visits(sc.face_path_index@[n_face_idx as int]));
                    assert(sc.on_face(fidx as int, e));
                    assert(sc.on_face(fidx as int, visit.enter) == s0.on_face(fidx as int, visit.enter));
                    assert(e == s0.fedge(fidx as int, edge_n as int));
                    assert(sc.edges == s0.edges);
                    assert(n_face_idx as int == s0.other_face_of(fidx as int, s0.fedge(fidx as int, edge_n as int)));
                    assert(s0.in_revisit_window(visit, edge_n as int));
                    lemma_state_face(s0, fidx as int);
                    lemma_window_state(s0, visit, edge_n as int);
                    lemma_other_state(s0, fidx as int, e);
                    assert(e == edge_at(state_of(s0).0[fidx as int], edge_n as int));
                    assert(in_window(state_of(s0), visit, edge_n as int));
                    assert(seen(state_of(s0), fidx as int));
                    lemma_state_same(s0, sc);
                    assert(sc.fpi()[n_face_idx as int] == state_of(s0).2[n_face_idx as int]);
                }
                if visits_is_empty(&self.face_path_index[n_face_idx]) {
                    let l = self.edge_path.len();
                    visits_push(&mut self.face_path_index[fidx], l);
                    let ghost sm = *self;
                    let c = visit.exit(e);
                    self.edge_path.push(c);
                    let ghost sp = *self;
                    proof {
                        assert(state_of(sp).0 == state_of(sc).0);
                        assert(sm.fpi() =~= sc.fpi().update(fidx as int, sc.fpi()[fidx as int].push(l)));
                        assert(state_of(sp) == cross_on(mark_face(state_of(s0), fidx as int), c));
                        assert(sp.edges == s0.edges);
                    }
                    proof {
                        assert(sc.fpi()[fidx as int] == visits(sc.face_path_index@[fidx as int]));
                        assert(sm.face_path_index@ == sc.face_path_index@.update(fidx as int, sm.face_path_index@[fidx as int]));
                        assert(sm.fpi() =~= sc.fpi().update(fidx as int, sc.fpi()[fidx as int].push(l)));
                        assert(sc.face_consistent(fidx as int));
                        lemma_count_update(sc.fpi(), fidx as int, sc.fpi()[fidx as int].push(l));
                        sc.lemma_same_faces(sm);
                        sc.lemma_equiv_wf(sm);
                        sc.lemma_kept_path(sm);
                        assert(sm.pending(fidx as int)) by {
                            assert forall|g: int| 0 <= g < sm.nf() && g != fidx implies #[trigger] sm.face_consistent(g) by {
                                assert(sc.face_consistent(g));
                            }
                        }
                        Polyhedron::lemma_push_crossing(sm, sp, c);
                        lemma_kept_trans(s0, sc, sm);
                        lemma_kept_trans(s0, sm, sp);
                        assert(sp.fpi()[n_face_idx as int] == sc.fpi()[n_face_idx as int]);
                        assert(sp.unvisited_count() == s0.unvisited_count());
                        assert(sp.on_face(n_face_idx as int, e.spec_rev()) == sc.on_face(n_face_idx as int, e.spec_rev()));
                        assert(2 * sp.unvisited_count() < 2 * s0.unvisited_count() + 1);
                    }
                    let child = PolygonVisit { face_idx: n_face_idx, enter: e.rev() };
                    let found = self.dfs(child);
                    if found {
                        proof {
                            assert forall|f: int| 0 <= f < s0.nf() && #[trigger] s0.visited(f) implies sp.visited(f) by {
                                if f == fidx {
                                    assert(sp.fpi()[f].len() > 0);
                                } else {
                                    assert(sp.fpi()[f] == s0.fpi()[f]);
                                }
                            }
                            assert(sc.edges@ == s0.edges@);
                            Polyhedron::lemma_found_extend(s0, sp, *self, visit, child, c);
                            let l0 = s0.edge_path@.len() as int;
                            assert(sp.edge_path@ == s0.edge_path@.push(c));
                            assert(self.edge_path@.subrange(0, sp.edge_path@.len() as int) == sp.edge_path@);
                            assert(self.edge_path@[l0] == self.edge_path@.subrange(0, sp.edge_path@.len() as int)[l0]);
                            assert(self.edge_path@[l0].exit == s0.fedge(fidx as int, edge_n as int));
                            assert(!s0.visited(n_face_idx as int));
                            assert(!seen(state_of(s0), n_face_idx as int));
                            assert(window_from(s0.edges@, state_of(s0), visit, edge_n as int) == search(
                                s0.edges@,
                                state_of(sp),
                                child,
                            ));
                        }
                        return true;
                    }
                    let ghost sfail = *self;
                    let _ = visits_pop(&mut self.face_path_index[fidx]);
                    self.edge_path.pop();
                    proof {
                        let sq = *self;
                        assert(sfail.fpi()[fidx as int] == visits(sfail.face_path_index@[fidx as int]));
                        assert(sq.face_path_index@ == sfail.face_path_index@.update(fidx as int, sq.face_path_index@[fidx as int]));
                        assert(sfail.fpi() == sp.fpi());
                        assert(sp.face_path_index == sm.face_path_index);
                        assert(sp.fpi() == sm.fpi());
                        assert(sfail.fpi()[fidx as int] == sc.fpi()[fidx as int].push(l));
                        assert(visits(sq.face_path_index@[fidx as int]) =~= sc.fpi()[fidx as int]);
                        lemma_fpi_update(sfail, sq, fidx as int);
                        assert(sq.fpi() =~= sc.fpi());
                        assert(sq.edge_path@ =~= sc.edge_path@);
                        assert forall|f: int| 0 <= f < s0.nf() && #[trigger] s0.visited(f) implies sp.visited(f) by {
                            if f == fidx {
                                assert(sp.fpi()[f].len() > 0);
                            } else {
                                assert(sp.fpi()[f] == s0.fpi()[f]);
                            }
                        }
                        lemma_kept_trans(s0, sp, sfail);
                        sfail.lemma_same_faces(sq);
                        assert forall|f: int| 0 <= f < s0.nf() && #[trigger] s0.visited(f) implies sfail.visited(f) by {
                            assert(sp.visited(f));
                        }
                        lemma_kept_trans(s0, sfail, sq);
                        s0.lemma_equiv_wf(sq);
                        s0.lemma_kept_path(sq);
                        sc.lemma_same_faces(sp);
                        lemma_faces_unchanged_trans(s0, sc, sp);
                        lemma_faces_unchanged_trans(s0, sp, sfail);
                        sfail.lemma_same_faces(sq);
                        lemma_faces_unchanged_trans(s0, sfail, sq);
                        assert(!seen(state_of(s0), n_face_idx as int));
                        assert(window_from(s0.edges@, state_of(s0), visit, edge_n as int) == window_from(
                            s0.edges@,
                            state_of(s0),
                            visit,
                            edge_n + 1,
                        ));
                        if s0.last_open(n_face_idx as int) {
                            assert(sp.fpi()[n_face_idx as int] == s0.fpi()[n_face_idx as int]);
                            assert forall|h: int| 0 <= h < sp.nf() && h != n_face_idx implies #[trigger] sp.visited(h) by {
                                assert(s0.visited(h));
                            }
                            assert(false);
                        }
                    }
                } else {
                    proof {
                        assert(sc.visited(n_face_idx as int));
                        assert(seen(state_of(s0), n_face_idx as int));
                    }
                }
            } else {
                proof {
                    lemma_state_face(s0, fidx as int);
                    assert(!in_window(state_of(s0), visit, edge_n as int));
                }
            }
            edge_n += 1;
        }
        proof {
            lemma_state_same(s0, *self);
        }
        false
    }

    /// `mid` is this state with the last crossing taken off the path.
    pub open spec fn popped_last(self, mid: Polyhedron) -> bool {
        let last = self.edge_path@.last();
        &&& mid.faces == self.faces
        &&& mid.edges == self.edges
        &&& mid.name == self.name
        &&& mid.face_path_index@.len() == self.face_path_index@.len()
        &&& mid.edge_path@ == self.edge_path@.drop_last()
        &&& mid.fpi() == self.fpi().update(last.face_idx as int, self.fpi()[last.face_idx as int].drop_last())
    }

    /// What [`Self::complete_path`] makes of this state: the last crossing
    /// is taken off, and the search (see [`search`]) runs from its visit.
    pub open spec fn completes(self, new: Polyhedron, r: bool) -> bool {
        &&& self.edge_path@.len() == 0 ==> !r && new.edge_path@ == self.edge_path@
            && new.fpi() == self.fpi() && new.faces == self.faces
        &&& self.edge_path@.len() > 0 ==> exists|mid: Polyhedron| {
            let last = self.edge_path@.last();
            let visit = PolygonVisit { face_idx: last.face_idx, enter: last.enter };
            &&& #[trigger] self.popped_last(mid)
            &&& (r, state_of(new)) == search(mid.edges@, state_of(mid), visit)
            &&& (r ==> search_found(mid, new, visit))
            &&& (!r ==> search_failed(mid, new))
            &&& (!mid.visited(last.face_idx as int) && (forall|g: int|
                0 <= g < mid.nf() && g != last.face_idx ==> #[trigger] mid.visited(g)) ==> r)
        }
        &&& new.path_inv()
    }

    /// Complete the path from its last visit: that visit is taken off the path
    /// and a path over all faces is searched from it. Whether one was found.
    pub fn complete_path(&mut self) -> (r: bool)
        requires
            old(self).path_inv(),
        ensures
            old(self).completes(*final(self), r),
    {
        let ghost s0 = *self;
        if self.edge_path.len() == 0 {
            return false;
        }
        let last = self.edge_path[self.edge_path.len() - 1];
        proof {
            assert(s0.crossing_ok(s0.edge_path@.len() - 1));
            assert(last == s0.edge_path@.last());
        }
        let _ = self.pop_path();
        let ghost mid = *self;
        proof {
            assert(mid.path_inv());
            assert(s0.face_consistent(last.face_idx as int));
            lemma_idx_of_push(s0.edge_path@.drop_last(), last, last.face_idx as int);
            assert(s0.edge_path@ =~= s0.edge_path@.drop_last().push(last));
            assert(s0.fpi()[last.face_idx as int].len() > 0);
            assert forall|j: int| 0 <= j < mid.edge_path@.len() implies #[trigger] mid.on_face(
                mid.edge_path@[j].face_idx as int,
                mid.edge_path@[j].exit,
            ) by {
                assert(s0.crossing_ok(j));
                assert(mid.edge_path@[j] == s0.edge_path@[j]);
                s0.lemma_same_faces(mid);
            }
            s0.lemma_same_faces(mid);
            assert(mid.on_face(last.face_idx as int, last.enter));
        }
        let found = self.dfs(last.to_visit());
        proof {
            assert(s0.popped_last(mid));
            if found {
                assert(self.path_inv());
            } else {
                s0.lemma_same_faces(mid);
                mid.lemma_equiv_wf(*self);
                mid.lemma_kept_path(*self);
                assert forall|f: int| 0 <= f < self.nf() implies #[trigger] self.face_consistent(f) by {
                    assert(mid.face_consistent(f));
                }
            }
        }
        found
    }

    /// Search a path over all faces from face `start`, entered through its
    /// edge 0, on a polyhedron with no path yet, as loading one does (see
    /// [`search`]); whether one was found. Without one, nothing changes.
    pub fn find_path(&mut self, start: usize) -> (found: bool)
        requires
            old(self).path_inv(),
            old(self).edge_path@.len() == 0,
            start < old(self).faces@.len(),
        ensures
            (found, state_of(*final(self))) == search(
                old(self).edges@,
                state_of(*old(self)),
                PolygonVisit { face_idx: start, enter: old(self).fedge(start as int, 0) },
            ),
            final(self).path_inv(),
            found ==> final(self).complete(),
            !found ==> search_failed(*old(self), *final(self)),
    {
        let ghost s0 = *self;
        proof {
            assert(s0.face(start as int).len() >= 3);
            lemma_small_mod(0, s0.face(start as int).len());
        }
        let enter = self.edge_from_face(start, 0);
        proof {
            assert(s0.on_face(start as int, enter));
        }
        let found = self.dfs(PolygonVisit { face_idx: start, enter });
        proof {
            if !found {
                s0.lemma_same_faces(s0);
                s0.lemma_equiv_wf(*self);
                s0.lemma_kept_path(*self);
                assert forall|f: int| 0 <= f < self.nf() implies #[trigger] self.face_consistent(f) by {
                    assert(s0.face_consistent(f));
                }
            }
        }
        found
    }

    /// The crossing rule only reads the faces and the visit lists.
    pub proof fn lemma_revisit_same(a: Polyhedron, b: Polyhedron, path: Seq<PolygonCrossing>, f: int, e: Edge)
        requires
            a.faces == b.faces,
            a.fpi() == b.fpi(),
        ensures
            a.revisit_ok_on(path, f, e) == b.revisit_ok_on(path, f, e),
    {
        a.lemma_same_faces(b);
        assert forall|t: int|
            #![trigger a.revisit_blocks_on(path, f, e, a.fpi()[f][t] as int)]
            #![trigger b.revisit_blocks_on(path, f, e, b.fpi()[f][t] as int)]
            0 <= t < a.fpi()[f].len() implies a.revisit_blocks_on(path, f, e, a.fpi()[f][t] as int)
            == b.revisit_blocks_on(path, f, e, b.fpi()[f][t] as int) by {
            assert(a.face(f) == b.face(f));
        }
        assert(a.face(f) == b.face(f));
    }

    /// Face `f` is crossed before position `upto`.
    pub open spec fn on_path_before(path: Seq<PolygonCrossing>, upto: int, f: int) -> bool {
        exists|j: int| 0 <= j < upto && #[trigger] path[j].face_idx == f
    }

    /// Whether face `f` is crossed before position `upto`.
    fn face_on_path(&self, f: usize, upto: usize) -> (r: bool)
        requires
            upto <= self.edge_path@.len(),
        ensures
            r == Polyhedron::on_path_before(self.edge_path@, upto as int, f as int),
    {
        let mut j: usize = 0;
        while j < upto
            invariant
                upto <= self.edge_path@.len(),
                0 <= j <= upto,
                forall|k: int| 0 <= k < j ==> self.edge_path@[k].face_idx != f,
            decreases upto - j,
        {
            if self.edge_path[j].face_idx == f {
                return true;
            }
            j += 1;
        }
        false
    }

    /// A face is on a consistent path exactly when its visit list is not empty.
    pub proof fn lemma_visited_on_path(self, f: int)
        requires
            self.face_consistent(f),
            self.edge_path@.len() <= usize::MAX,
        ensures
            self.visited(f) == Polyhedron::on_path_before(self.edge_path@, self.edge_path@.len() as int, f),
    {
        lemma_idx_of(self.edge_path@, f);
        if self.visited(f) {
            let j = self.fpi()[f][0] as int;
            assert(self.edge_path@[j].face_idx == f);
        }
        if Polyhedron::on_path_before(self.edge_path@, self.edge_path@.len() as int, f) {
            let j = choose|j: int| 0 <= j < self.edge_path@.len() && #[trigger] self.edge_path@[j].face_idx == f;
            assert(idx_of(self.edge_path@, f).contains(j as usize));
        }
    }

    /// What [`Self::path_jump`] makes of this state.
    pub open spec fn jumps_to(self, new: Polyhedron, jumps: usize, r: Option<usize>) -> bool {
        &&& new.path_inv()
        &&& new.edges == self.edges
        &&& new.name == self.name
        &&& self.faces_equiv(new)
        &&& self.edge_path@.len() == 0 ==> {
            let tri = self.ngons(3);
            &&& new.faces == self.faces
            &&& (tri.len() == 0 ==> r is None && new.edge_path@ == self.edge_path@
                && new.fpi() == self.fpi())
            &&& (tri.len() > 0 ==> {
                let f = tri[(jumps as int) % (tri.len() as int)];
                &&& r == Some(f)
                &&& new.edge_path@ == seq![PolygonCrossing { face_idx: f, enter: self.fedge(f as int, 0), exit: Edge::spec_dev() }]
            })
        }
        &&& self.edge_path@.len() > 0 ==> {
            let l = self.edge_path@.len() - 1;
            let last = self.edge_path@[l];
            let f = last.face_idx as int;
            let n = self.face(f).len() as int;
            let exit_n = if !Polyhedron::on_path_before(self.edge_path@, l, f) {
                jumps + 1
            } else if self.pos_of(f, last.enter) >= jumps {
                self.pos_of(f, last.enter) - jumps
            } else {
                0
            };
            let exit = self.fedge(f, exit_n % n);
            let g = self.other_face_of(f, exit);
            let cr = PolygonCrossing { face_idx: last.face_idx, enter: last.enter, exit };
            let base = self.edge_path@.drop_last().push(cr);
            let next = PolygonCrossing { face_idx: g as usize, enter: exit.spec_rev(), exit: Edge::spec_dev() };
            &&& r is None
            &&& !Polyhedron::on_path_before(base, base.len() as int, g) ==> {
                &&& new.edge_path@ == base.push(next)
                &&& new.fedge(g, 0) == exit.spec_rev()
                &&& forall|h: int| 0 <= h < self.nf() && h != g ==> new.faces@[h] == self.faces@[h]
            }
            &&& Polyhedron::on_path_before(base, base.len() as int, g) ==> {
                &&& new.faces == self.faces
                &&& new.edge_path@ == if self.revisit_ok_on(base, g, exit.spec_rev()) {
                    base.push(next)
                } else {
                    base
                }
            }
        }
    }

    /// Push a new move onto the path.
    ///
    /// Without a path, the `jumps`-th triangle (counted around) starts it.
    /// Otherwise the last visit leaves its face: on a first visit `jumps + 1`
    /// edges on from the enter edge, on a revisit `jumps` edges back from it
    /// (at least edge 0). The face across is then visited, rotated so that it
    /// is entered through its edge 0 if it is new; a face already on the path
    /// is visited only where the crossing rule allows it.
    ///
    /// The new start face, when a path is started.
    pub fn path_jump(&mut self, jumps: usize) -> (r: Option<usize>)
        requires
            old(self).path_inv(),
            old(self).edge_path@.len() > 0 && !Polyhedron::on_path_before(
                old(self).edge_path@,
                old(self).edge_path@.len() - 1,
                old(self).edge_path@.last().face_idx as int,
            ) ==> jumps < usize::MAX - 1,
        ensures
            old(self).jumps_to(*final(self), jumps, r),
    {
        let ghost s0 = *self;
        proof {
            assert(self.edge_path@.len() <= usize::MAX) by {
                broadcast use vstd::std_specs::vec::axiom_spec_len;
                assert(self.edge_path@.len() == self.edge_path.len());
            }
        }
        if self.edge_path.len() > 0 {
            let l = self.edge_path.len() - 1;
            let last = self.edge_path[l];
            let f = last.face_idx;
            proof {
                assert(s0.crossing_ok(l as int));
                assert(last == s0.edge_path@.last());
            }
            let first = !self.face_on_path(f, l);
            let _fl = self.faces[f].len();
            let exit_n = if first {
                jumps + 1
            } else {
                let enter_n = self.edge_n_of(f, last.enter);
                enter_n.saturating_sub(jumps)
            };
            let exit = self.edge_from_face(f, exit_n);
            let cr = last.to_visit().exit(exit);
            self.edge_path.set(l, cr);
            let ghost s1 = *self;
            proof {
                let n = s0.face(f as int).len() as int;
                vstd::arithmetic::div_mod::lemma_mod_pos_bound(exit_n as int, n);
                assert(s0.on_face(f as int, exit));
                assert(s1.edge_path@ =~= s0.edge_path@.drop_last().push(cr));
                s0.lemma_same_faces(s1);
                s0.lemma_equiv_wf_self(s1);
                assert forall|j: int| 0 <= j < s1.edge_path@.len() implies #[trigger] s1.crossing_ok(j) && s1.on_face(
                    s1.edge_path@[j].face_idx as int,
                    s1.edge_path@[j].exit,
                ) by {
                    if j < l {
                        assert(s0.crossing_ok(j));
                        assert(s1.edge_path@[j] == s0.edge_path@[j]);
                    }
                }
                assert forall|j: int| 0 <= j < s1.edge_path@.len() implies #[trigger] s1.on_face(
                    s1.edge_path@[j].face_idx as int,
                    s1.edge_path@[j].exit,
                ) by {
                    assert(s1.crossing_ok(j));
                }
                assert forall|h: int| 0 <= h < s1.nf() implies #[trigger] s1.face_consistent(h) by {
                    assert(s0.face_consistent(h));
                    lemma_idx_of_push(s0.edge_path@.drop_last(), last, h);
                    lemma_idx_of_push(s0.edge_path@.drop_last(), cr, h);
                    assert(s0.edge_path@ =~= s0.edge_path@.drop_last().push(last));
                }
                assert(s1.path_inv());
            }
            let n_face_idx = self.other_face(f, exit_n);
            let seen = self.face_on_path(n_face_idx, self.edge_path.len());
            if !seen {
                let rot = self.edge_n_of(n_face_idx, exit.rev());
                self.rotate_face(n_face_idx, rot);
                let ghost s2 = *self;
                proof {
                    s1.lemma_equiv_wf(s2);
                    s1.lemma_visited_on_path(n_face_idx as int);
                    assert(kept(s1, s2)) by {
                        assert forall|h: int| 0 <= h < s1.nf() && #[trigger] s1.visited(h) implies s2.faces@[h] == s1.faces@[h] by {}
                    }
                    s1.lemma_kept_path(s2);
                    assert forall|h: int| 0 <= h < s2.nf() implies #[trigger] s2.face_consistent(h) by {
                        assert(s1.face_consistent(h));
                    }
                    lemma_equiv_trans(s0, s1, s2);
                }
            } else {
                proof {
                    assert(s1.face_consistent(n_face_idx as int));
                    s1.lemma_exits_of_face(n_face_idx as int);
                    s1.lemma_visit_list_ok(n_face_idx as int);
                }
                let ok = self.can_revisit(n_face_idx, exit.rev());
                proof {
                    Polyhedron::lemma_revisit_same(s0, s1, s1.edge_path@, n_face_idx as int, exit.spec_rev());
                }
                if !ok {
                    return None;
                }
            }
            let ghost s3 = *self;
            self.push(PolygonVisit { face_idx: n_face_idx, enter: exit.rev() });
            proof {
                let sf = *self;
                s3.lemma_same_faces(sf);
                s3.lemma_equiv_wf_self(sf);
                lemma_equiv_trans(s0, s3, sf);
                assert(s3.on_face(n_face_idx as int, exit.spec_rev()));
                assert forall|j: int| 0 <= j < sf.edge_path@.len() implies #[trigger] sf.crossing_ok(j) by {
                    if j < s3.edge_path@.len() {
                        assert(s3.crossing_ok(j));
                        assert(sf.edge_path@[j] == s3.edge_path@[j]);
                    }
                }
            }
            None
        } else {
            let tri = self.iter_ngon(3);
            if tri.len() == 0 {
                return None;
            }
            let face_idx = tri[jumps % tri.len()];
            let _nf = self.faces.len();
            proof {
                lemma_ngons_upto(s0.faces@, 3, s0.nf());
                vstd::arithmetic::div_mod::lemma_mod_pos_bound(jumps as int, tri@.len() as int);
            }
            let enter = self.edge_from_face(face_idx, 0);
            self.push(PolygonVisit { face_idx, enter });
            proof {
                let sf = *self;
                s0.lemma_same_faces(sf);
                s0.lemma_equiv_wf_self(sf);
                lemma_small_mod(0, s0.face(face_idx as int).len());
                assert(s0.on_face(face_idx as int, enter));
                assert(sf.crossing_ok(0));
                assert(sf.edge_path@ =~= seq![PolygonCrossing { face_idx, enter, exit: Edge::spec_dev() }]);
            }
            Some(face_idx)
        }
    }

    /// What [`Self::add_face_to_path`] makes of this state.
    pub open spec fn adds_face(self, new: Polyhedron, n_face_idx: usize, r: Option<usize>) -> bool {
        &&& new.path_inv()
        &&& new.edges == self.edges
        &&& new.name == self.name
        &&& self.faces_equiv(new)
        &&& self.edge_path@.len() == 0 ==> {
            &&& r == Some(n_face_idx)
            &&& new.faces == self.faces
            &&& new.edge_path@ == seq![PolygonCrossing { face_idx: n_face_idx, enter: self.fedge(n_face_idx as int, 0), exit: Edge::spec_dev() }]
        }
        &&& self.edge_path@.len() > 0 ==> {
            let l = self.edge_path@.len() - 1;
            let last = self.edge_path@[l];
            let f = last.face_idx as int;
            &&& r is None
            &&& !self.has_join(f, n_face_idx as int) ==> {
                &&& new.faces == self.faces
                &&& new.edge_path@ == self.edge_path@
                &&& new.fpi() == self.fpi()
            }
            &&& self.has_join(f, n_face_idx as int) ==> {
                let e = self.join_edge(f, n_face_idx as int);
                &&& new.edge_path@ == self.edge_path@.drop_last().push(
                    PolygonCrossing { face_idx: last.face_idx, enter: last.enter, exit: e },
                ).push(PolygonCrossing { face_idx: n_face_idx, enter: e.spec_rev(), exit: Edge::spec_dev() })
                &&& self.visited(n_face_idx as int) ==> new.faces == self.faces
                &&& !self.visited(n_face_idx as int) ==> {
                    &&& new.fedge(n_face_idx as int, 0) == e.spec_rev()
                    &&& forall|h: int| 0 <= h < self.nf() && h != n_face_idx ==> new.faces@[h] == self.faces@[h]
                }
            }
        }
    }

    /// Add a face to the path by hand: the last visit leaves through the edge
    /// it shares with `n_face_idx`, which is then visited (rotated to be
    /// entered through its edge 0 if it is new). Without a path, the face
    /// starts it. Nothing happens when the two faces share no edge.
    ///
    /// The new start face, when a path is started.
    #[verifier::spinoff_prover]
    #[verifier::rlimit(50)]
    pub fn add_face_to_path(&mut self, n_face_idx: usize) -> (r: Option<usize>)
        requires
            old(self).path_inv(),
            old(self).edge_path@.len() > 0 || n_face_idx < old(self).faces@.len(),
        ensures
            old(self).adds_face(*final(self), n_face_idx, r),
    {
        let ghost s0 = *self;
        proof {
            assert(self.edge_path@.len() <= usize::MAX) by {
                broadcast use vstd::std_specs::vec::axiom_spec_len;
                assert(self.edge_path@.len() == self.edge_path.len());
            }
        }
        if self.edge_path.len() > 0 {
            let l = self.edge_path.len() - 1;
            let mut cr = self.edge_path[l];
            let fidx = cr.face_idx;
            proof {
                assert(s0.crossing_ok(l as int));
                assert(cr == s0.edge_path@.last());
            }
            let edge = match self.edge_from_two_faces(fidx, n_face_idx) {
                Ok(e) => e,
                Err(_) => {
                    return None;
                },
            };
            cr.exit = edge;
            self.edge_path.set(l, cr);
            let ghost s1 = *self;
            proof {
                assert(s1.edge_path@ =~= s0.edge_path@.drop_last().push(cr));
                s0.lemma_same_faces(s1);
                s0.lemma_equiv_wf_self(s1);
                assert forall|j: int| 0 <= j < s1.edge_path@.len() implies #[trigger] s1.crossing_ok(j) by {
                    if j < l {
                        assert(s0.crossing_ok(j));
                        assert(s1.edge_path@[j] == s0.edge_path@[j]);
                    }
                }
                assert forall|j: int| 0 <= j < s1.edge_path@.len() implies #[trigger] s1.on_face(
                    s1.edge_path@[j].face_idx as int,
                    s1.edge_path@[j].exit,
                ) by {
                    assert(s1.crossing_ok(j));
                    if j < l {
                        assert(s0.crossing_ok(j));
                        assert(s1.edge_path@[j] == s0.edge_path@[j]);
                    }
                }
                let last = s0.edge_path@.last();
                assert forall|h: int| 0 <= h < s1.nf() implies #[trigger] s1.face_consistent(h) by {
                    assert(s0.face_consistent(h));
                    lemma_idx_of_push(s0.edge_path@.drop_last(), last, h);
                    lemma_idx_of_push(s0.edge_path@.drop_last(), cr, h);
                    assert(s0.edge_path@ =~= s0.edge_path@.drop_last().push(last));
                }
                assert(s1.path_inv());
                assert(s0.fpi()[n_face_idx as int] == visits(s0.face_path_index@[n_face_idx as int]));
            }
            if visits_is_empty(&self.face_path_index[n_face_idx]) {
                let rot = self.edge_n_of(n_face_idx, edge.rev());
                self.rotate_face(n_face_idx, rot);
                let ghost s2 = *self;
                proof {
                    s1.lemma_equiv_wf(s2);
                    assert(kept(s1, s2)) by {
                        assert forall|h: int| 0 <= h < s1.nf() && #[trigger] s1.visited(h) implies s2.faces@[h] == s1.faces@[h] by {}
                    }
                    s1.lemma_kept_path(s2);
                    assert forall|h: int| 0 <= h < s2.nf() implies #[trigger] s2.face_consistent(h) by {
                        assert(s1.face_consistent(h));
                    }
                    lemma_equiv_trans(s0, s1, s2);
                }
            }
            let ghost s3 = *self;
            self.push(PolygonVisit { face_idx: n_face_idx, enter: edge.rev() });
            proof {
                let sf = *self;
                s3.lemma_same_faces(sf);
                s3.lemma_equiv_wf_self(sf);
                lemma_equiv_trans(s0, s3, sf);
                assert(s3.on_face(n_face_idx as int, edge.spec_rev()));
                assert forall|j: int| 0 <= j < sf.edge_path@.len() implies #[trigger] sf.crossing_ok(j) by {
                    if j < s3.edge_path@.len() {
                        assert(s3.crossing_ok(j));
                        assert(sf.edge_path@[j] == s3.edge_path@[j]);
                    }
                }
            }
            None
        } else {
            let enter = self.edge_from_face(n_face_idx, 0);
            self.push(PolygonVisit { face_idx: n_face_idx, enter });
            proof {
                let sf = *self;
                s0.lemma_same_faces(sf);
                s0.lemma_equiv_wf_self(sf);
                lemma_small_mod(0, s0.face(n_face_idx as int).len());
                assert(s0.on_face(n_face_idx as int, enter));
                assert(sf.crossing_ok(0));
                assert(sf.edge_path@ =~= seq![PolygonCrossing { face_idx: n_face_idx, enter, exit: Edge::spec_dev() }]);
            }
            Some(n_face_idx)
        }
    }

    /// Crossing `j` (after the first) follows turn `j`: it enters the face
    /// across the exit of the crossing before, through that exit reversed;
    /// on a first visit the face is entered through its edge 0 and left
    /// `turn + 1` edges on, otherwise it is left `turn` edges back from the
    /// enter edge.
    pub open spec fn step_ok(self, turns: Seq<usize>, j: int) -> bool {
        let path = self.edge_path@;
        let c = path[j];
        let prev = path[j - 1];
        let f = c.face_idx as int;
        let n = self.face(f).len() as int;
        &&& c.enter == prev.exit.spec_rev()
        &&& f == self.other_face_of(prev.face_idx as int, prev.exit)
        &&& if !Polyhedron::on_path_before(path, j, f) {
            &&& self.fedge(f, 0) == c.enter
            &&& c.exit == self.fedge(f, (turns[j] + 1) % n)
        } else {
            &&& self.pos_of(f, c.enter) >= turns[j]
            &&& c.exit == self.fedge(f, self.pos_of(f, c.enter) - turns[j])
        }
    }

    /// The first `upto` crossings of the path walk `p`: the first crossing
    /// is of its start face, entered through edge 0 and left `turns[0] + 1`
    /// edges on, and each later one follows its turn.
    pub open spec fn walks(self, p: PcbPath, upto: int) -> bool {
        let path = self.edge_path@;
        let ng = self.ngons(p.start_ngon as nat);
        let start = ng[p.start_nth as int] as int;
        &&& p.start_nth < ng.len()
        &&& 1 <= upto <= path.len()
        &&& upto <= p.turns@.len()
        &&& path[0].face_idx == start
        &&& path[0].enter == self.fedge(start, 0)
        &&& path[0].exit == self.fedge(start, (p.turns@[0] + 1) % self.face(start).len() as int)
        &&& forall|j: int| 1 <= j < upto ==> #[trigger] self.step_ok(p.turns@, j)
    }

    /// A walk stays a walk when the crossings it covers, the faces they cross,
    /// the face lengths and the edge table stay the same.
    pub proof fn lemma_walks_frame(s: Polyhedron, t: Polyhedron, p: PcbPath, upto: int)
        requires
            s.walks(p, upto),
            t.edges == s.edges,
            t.faces@.len() == s.faces@.len(),
            forall|f: int| 0 <= f < s.nf() ==> #[trigger] t.face(f).len() == s.face(f).len(),
            t.edge_path@.len() >= upto,
            forall|j: int| 0 <= j < upto ==> #[trigger] t.edge_path@[j] == s.edge_path@[j],
            forall|j: int| 0 <= j < upto ==> t.faces@[#[trigger] s.edge_path@[j].face_idx as int] == s.faces@[s.edge_path@[j].face_idx as int],
        ensures
            t.walks(p, upto),
    {
        assert forall|f: int| 0 <= f < s.faces@.len() implies #[trigger] t.faces@[f]@.len() == s.faces@[f]@.len() by {
            assert(t.face(f).len() == s.face(f).len());
        }
        lemma_ngons_same(s.faces@, t.faces@, p.start_ngon as nat, s.nf());
        assert(t.ngons(p.start_ngon as nat) == s.ngons(p.start_ngon as nat));
        assert(t.edge_path@[0] == s.edge_path@[0]);
        let start = s.edge_path@[0].face_idx as int;
        assert(t.faces@[start] == s.faces@[start]);
        assert(t.face(start) == s.face(start));
        assert(t.edges@ == s.edges@);
        assert forall|j: int| 1 <= j < upto implies #[trigger] t.step_ok(p.turns@, j) by {
            assert(s.step_ok(p.turns@, j));
            assert(t.edge_path@[j] == s.edge_path@[j]);
            assert(t.edge_path@[j - 1] == s.edge_path@[j - 1]);
            let f = s.edge_path@[j].face_idx as int;
            assert(t.faces@[f] == s.faces@[f]);
            assert(t.face(f) == s.face(f));
            assert(Polyhedron::on_path_before(t.edge_path@, j, f) == Polyhedron::on_path_before(s.edge_path@, j, f)) by {
                if Polyhedron::on_path_before(s.edge_path@, j, f) {
                    let k = choose|k: int| 0 <= k < j && #[trigger] s.edge_path@[k].face_idx == f;
                    assert(t.edge_path@[k] == s.edge_path@[k]);
                }
                if Polyhedron::on_path_before(t.edge_path@, j, f) {
                    let k = choose|k: int| 0 <= k < j && #[trigger] t.edge_path@[k].face_idx == f;
                    assert(t.edge_path@[k] == s.edge_path@[k]);
                }
            }
        }
    }

    /// What [`Self::apply_path`] makes of this state: the path is cleared,
    /// the faces are only rotated, and then either the start face is missing
    /// (`Err(0)`), or the path walks `path` in full (`Ok`), or it walks the
    /// first `i` turns and turn `i` would turn a re-entered face back past
    /// its edge 0 (`Err(i)`). A single turn crosses the start face from
    /// edge 0 to edge 1.
    pub open spec fn applies(self, new: Polyhedron, path: PcbPath, r: Result<(), usize>) -> bool {
        &&& new.path_inv()
        &&& new.path_real()
        &&& new.edges == self.edges
        &&& new.name == self.name
        &&& self.faces_equiv(new)
        &&& forall|f: int| 0 <= f < self.nf() && !new.visited(f) ==> #[trigger] new.faces@[f] == self.faces@[f]
        &&& {
            let ng = self.ngons(path.start_ngon as nat);
            &&& path.start_nth >= ng.len() ==> r == Err::<(), usize>(0) && new.edge_path@.len() == 0
                && new.faces == self.faces
            &&& path.start_nth < ng.len() ==> {
                let start = ng[path.start_nth as int] as int;
                &&& new.faces@[start] == self.faces@[start]
                &&& path.turns@.len() == 0 ==> r is Ok && new.edge_path@.len() == 0 && new.faces
                    == self.faces
                &&& path.turns@.len() == 1 ==> r is Ok && new.faces == self.faces
                    && new.edge_path@ == seq![PolygonCrossing { face_idx: start as usize, enter: self.fedge(start, 0), exit: self.fedge(start, 1) }]
                    && (path.turns@[0] == 0 ==> new.walks(path, 1))
                &&& path.turns@.len() >= 2 ==> match r {
                    Ok(()) => new.edge_path@.len() == path.turns@.len() && new.walks(path, path.turns@.len() as int),
                    Err(i) => {
                        let p = new.edge_path@;
                        let g = new.other_face_of(p[i - 1].face_idx as int, p[i - 1].exit);
                        &&& 1 <= i < path.turns@.len()
                        &&& p.len() == i
                        &&& new.walks(path, i as int)
                        &&& Polyhedron::on_path_before(p, i as int, g)
                        &&& new.pos_of(g, p[i - 1].exit.spec_rev()) < path.turns@[i as int]
                    },
                }
            }
        }
    }

    /// Apply the given path, replacing the current one.
    ///
    /// It is very possible that an impossible path is specified, in which
    /// case the number of successful turns is returned: a re-entered face
    /// cannot turn back past its edge 0. With a single turn the start face is
    /// crossed from edge 0 to edge 1.
    pub fn apply_path(&mut self, path: &PcbPath) -> (r: Result<(), usize>)
        requires
            old(self).wf(),
            forall|j: int| 0 <= j < path.turns@.len() ==> #[trigger] path.turns@[j] < usize::MAX - 1,
        ensures
            old(self).applies(*final(self), *path, r),
    {
        let ghost s0 = *self;
        self.clear_path();
        let ghost sc = *self;
        let _nf = self.faces.len();
        proof {
            s0.lemma_same_faces(sc);
            lemma_ngons_upto(sc.faces@, path.start_ngon as nat, sc.nf());
            assert(sc.path_real());
        }
        let ngons = self.iter_ngon(path.start_ngon);
        if path.start_nth >= ngons.len() {
            return Err(0);
        }
        let start_face = ngons[path.start_nth];
        proof {
            assert(sc.face(start_face as int).len() >= 3);
            lemma_small_mod(0, sc.face(start_face as int).len());
            lemma_small_mod(1, sc.face(start_face as int).len());
        }
        if path.turns.len() == 0 {
            return Ok(());
        } else if path.turns.len() == 1 {
            let c = PolygonCrossing {
                face_idx: start_face,
                enter: self.edge_from_face(start_face, 0),
                exit: self.edge_from_face(start_face, 1),
            };
            self.cross(c);
            proof {
                let sf = *self;
                sc.lemma_same_faces(sf);
                sc.lemma_equiv_wf_self(sf);
                assert(sc.on_face(start_face as int, c.enter));
                assert(sc.on_face(start_face as int, c.exit));
                assert(sf.crossing_ok(0));
                assert(sf.edge_path@ =~= seq![c]);
                assert(sf.on_face(start_face as int, c.exit));
                lemma_ngons_same(sc.faces@, sf.faces@, path.start_ngon as nat, sc.nf());
                assert(sf.ngons(path.start_ngon as nat) == sc.ngons(path.start_ngon as nat));
                assert(sf.face(start_face as int) == sc.face(start_face as int));
                if path.turns@[0] == 0 {
                    assert(sf.walks(*path, 1));
                }
            }
            return Ok(());
        }
        let n = path.turns[0] + 1;
        let exit = self.edge_from_face(start_face, n);
        let c0 = PolygonCrossing { face_idx: start_face, enter: self.edge_from_face(start_face, 0), exit };
        self.cross(c0);
        let ghost s1 = *self;
        proof {
            sc.lemma_same_faces(s1);
            sc.lemma_equiv_wf_self(s1);
            vstd::arithmetic::div_mod::lemma_mod_pos_bound(n as int, sc.face(start_face as int).len() as int);
            assert(sc.on_face(start_face as int, c0.enter));
            assert(sc.on_face(start_face as int, c0.exit));
            assert(s1.edge_path@ =~= seq![c0]);
            assert(s1.crossing_ok(0));
            assert(s1.on_face(start_face as int, c0.exit));
            assert(s1.path_real());
            assert(s1.walks(*path, 1));
        }
        let mut visit = PolygonVisit { face_idx: self.other_face(start_face, n), enter: exit.rev() };
        let mut i: usize = 1;
        while i < path.turns.len()
            invariant
                s0 == *old(self),
                s0.wf(),
                sc.faces == s0.faces,
                sc.edges == s0.edges,
                sc.name == s0.name,
                forall|j: int| 0 <= j < path.turns@.len() ==> #[trigger] path.turns@[j] < usize::MAX - 1,
                self.path_inv(),
                self.path_real(),
                self.edges == s0.edges,
                self.name == s0.name,
                s0.faces_equiv(*self),
                1 <= i <= path.turns@.len(),
                self.edge_path@.len() == i,
                self.walks(*path, i as int),
                visit.face_idx < self.nf(),
                self.on_face(visit.face_idx as int, visit.enter),
                visit.enter == self.edge_path@[i - 1].exit.spec_rev(),
                visit.face_idx as int == self.other_face_of(self.edge_path@[i - 1].face_idx as int, self.edge_path@[i - 1].exit),
                self.ngons(path.start_ngon as nat) == s0.ngons(path.start_ngon as nat),
                start_face < s0.nf(),
                forall|f: int| 0 <= f < s0.nf() && !self.visited(f) ==> #[trigger] self.faces@[f] == s0.faces@[f],
                self.edge_path@[0].face_idx == start_face,
                self.faces@[start_face as int] == s0.faces@[start_face as int],
            decreases path.turns@.len() - i,
        {
            let turn = path.turns[i];
            let ghost sa = *self;
            proof {
                assert(self.edge_path@.len() <= usize::MAX) by {
                    broadcast use vstd::std_specs::vec::axiom_spec_len;
                    assert(self.edge_path@.len() == self.edge_path.len());
                }
            }
            proof {
                assert(sa.fpi()[visit.face_idx as int] == visits(sa.face_path_index@[visit.face_idx as int]));
                assert(sa.face_consistent(visit.face_idx as int));
                sa.lemma_visited_on_path(visit.face_idx as int);
                assert(sa.fpi()[visit.face_idx as int] == idx_of(sa.edge_path@, visit.face_idx as int));
            }
            if visits_is_empty(&self.face_path_index[visit.face_idx]) {
                let rotate_amount = self.edge_n_of(visit.face_idx, visit.enter);
                self.rotate_face(visit.face_idx, rotate_amount);
                let ghost sb = *self;
                proof {
                    sa.lemma_equiv_wf(sb);
                    assert(kept(sa, sb)) by {
                        assert forall|h: int| 0 <= h < sa.nf() && #[trigger] sa.visited(h) implies sb.faces@[h] == sa.faces@[h] by {}
                    }
                    sa.lemma_kept_path(sb);
                    assert forall|h: int| 0 <= h < sb.nf() implies #[trigger] sb.face_consistent(h) by {
                        assert(sa.face_consistent(h));
                    }
                    assert(!Polyhedron::on_path_before(sa.edge_path@, sa.edge_path@.len() as int, visit.face_idx as int));
                    assert forall|j: int| 0 <= j < i implies sb.faces@[#[trigger] sa.edge_path@[j].face_idx as int] == sa.faces@[sa.edge_path@[j].face_idx as int] by {
                        assert(sa.crossing_ok(j));
                        if sa.edge_path@[j].face_idx == visit.face_idx {
                            assert(Polyhedron::on_path_before(sa.edge_path@, sa.edge_path@.len() as int, visit.face_idx as int));
                        }
                    }
                    assert forall|f: int| 0 <= f < sa.nf() implies #[trigger] sb.face(f).len() == sa.face(f).len() by {}
                    Polyhedron::lemma_walks_frame(sa, sb, *path, i as int);
                    lemma_equiv_trans(s0, sa, sb);
                    lemma_small_mod(0, sb.face(visit.face_idx as int).len());
                    lemma_ngons_same(sa.faces@, sb.faces@, path.start_ngon as nat, sa.nf());
                }
                let n = turn + 1;
                let exit = self.edge_from_face(visit.face_idx, n);
                let c = visit.exit(exit);
                let ghost sb2 = *self;
                self.cross(c);
                proof {
                    let sn = *self;
                    vstd::arithmetic::div_mod::lemma_mod_pos_bound(n as int, sb.face(visit.face_idx as int).len() as int);
                    assert(sb.on_face(visit.face_idx as int, exit));
                    assert(sb.on_face(visit.face_idx as int, visit.enter) == sa.on_face(visit.face_idx as int, visit.enter));
                    sb.lemma_same_faces(sn);
                    sb.lemma_equiv_wf_self(sn);
                    assert forall|j: int| 0 <= j < sn.edge_path@.len() implies #[trigger] sn.crossing_ok(j) && sn.on_face(
                        sn.edge_path@[j].face_idx as int,
                        sn.edge_path@[j].exit,
                    ) by {
                        if j < i {
                            assert(sn.edge_path@[j] == sb.edge_path@[j]);
                            assert(sb.crossing_ok(j));
                            assert(sb.on_face(sb.edge_path@[j].face_idx as int, sb.edge_path@[j].exit));
                        }
                    }
                    assert forall|j: int| 0 <= j < sn.edge_path@.len() implies #[trigger] sn.on_face(
                        sn.edge_path@[j].face_idx as int,
                        sn.edge_path@[j].exit,
                    ) by {
                        assert(sn.crossing_ok(j));
                    }
                    sb.lemma_same_faces(sn);
                    lemma_equiv_trans(s0, sb, sn);
                    assert forall|j: int| 0 <= j < i implies #[trigger] sn.edge_path@[j] == sb.edge_path@[j] by {}
                    Polyhedron::lemma_walks_frame(sb, sn, *path, i as int);
                    assert(sn.edge_path@[i as int] == c);
                    assert(sn.edge_path@[i - 1] == sb.edge_path@[i - 1]);
                    assert(sb.edges@ == sa.edges@);
                    assert(sn.step_ok(path.turns@, i as int));
                    lemma_ngons_same(sb.faces@, sn.faces@, path.start_ngon as nat, sb.nf());
                }
                visit = PolygonVisit { face_idx: self.other_face(visit.face_idx, n), enter: exit.rev() };
            } else {
                let n_enter = self.edge_n_of(visit.face_idx, visit.enter);
                let _flen = self.faces[visit.face_idx].len();
                let n_exit = match n_enter.checked_sub(turn) {
                    Some(x) => x,
                    None => {
                        return Err(i);
                    },
                };
                let exit = self.edge_from_face(visit.face_idx, n_exit);
                let c = visit.exit(exit);
                self.cross(c);
                proof {
                    let sn = *self;
                    lemma_small_mod(n_exit as nat, sa.face(visit.face_idx as int).len());
                    assert(sa.on_face(visit.face_idx as int, exit));
                    sa.lemma_same_faces(sn);
                    sa.lemma_equiv_wf_self(sn);
                    lemma_equiv_trans(s0, sa, sn);
                    assert forall|h: int| 0 <= h < sn.nf() implies #[trigger] sn.face_consistent(h) by {
                        assert(sa.face_consistent(h));
                        lemma_idx_of_push(sa.edge_path@, c, h);
                    }
                    assert forall|j: int| 0 <= j < sn.edge_path@.len() implies #[trigger] sn.crossing_ok(j) && sn.on_face(
                        sn.edge_path@[j].face_idx as int,
                        sn.edge_path@[j].exit,
                    ) by {
                        if j < i {
                            assert(sn.edge_path@[j] == sa.edge_path@[j]);
                            assert(sa.crossing_ok(j));
                            assert(sa.on_face(sa.edge_path@[j].face_idx as int, sa.edge_path@[j].exit));
                        }
                    }
                    assert forall|j: int| 0 <= j < sn.edge_path@.len() implies #[trigger] sn.on_face(
                        sn.edge_path@[j].face_idx as int,
                        sn.edge_path@[j].exit,
                    ) by {
                        assert(sn.crossing_ok(j));
                    }
                    assert forall|j: int| 0 <= j < i implies #[trigger] sn.edge_path@[j] == sa.edge_path@[j] by {}
                    assert forall|f: int| 0 <= f < sa.nf() implies #[trigger] sn.face(f).len() == sa.face(f).len() by {}
                    Polyhedron::lemma_walks_frame(sa, sn, *path, i as int);
                    assert(sn.edge_path@[i as int] == c);
                    assert(Polyhedron::on_path_before(sn.edge_path@, i as int, visit.face_idx as int)) by {
                        let k = choose|k: int| 0 <= k < i && #[trigger] sa.edge_path@[k].face_idx == visit.face_idx as int;
                        assert(sn.edge_path@[k] == sa.edge_path@[k]);
                    }
                    assert(sn.face(visit.face_idx as int) == sa.face(visit.face_idx as int));
                    assert(sn.pos_of(visit.face_idx as int, visit.enter) == n_enter);
                    assert(sn.step_ok(path.turns@, i as int));
                }
                visit = PolygonVisit { face_idx: self.other_face(visit.face_idx, n_exit), enter: exit.rev() };
            }
            i += 1;
        }
        Ok(())
    }

    /// Every turn of `p` can be read back from the path: a face crossed for
    /// the first time turns less than it has edges less one, and a face
    /// crossed again is not entered through its edge 0.
    pub open spec fn turns_readable(self, p: PcbPath) -> bool {
        let path = self.edge_path@;
        forall|j: int|
            0 <= j < p.turns@.len() && j < path.len() ==> if !Polyhedron::on_path_before(
                path,
                j,
                (#[trigger] path[j]).face_idx as int,
            ) {
                p.turns@[j] + 1 < self.face(path[j].face_idx as int).len()
            } else {
                path[j].enter != self.fedge(path[j].face_idx as int, 0)
            }
    }

    /// A path that [`Self::apply_path`] walked in full reads back as itself:
    /// whatever [`Self::current_path`] reads from the whole path has the
    /// start face and the turns of `p`, where each turn is readable.
    pub proof fn lemma_walk_reads_back(self, p: PcbPath)
        requires
            self.path_inv(),
            self.walks(p, p.turns@.len() as int),
            self.edge_path@.len() == p.turns@.len(),
            self.turns_readable(p),
        ensures
            self.reads_as(p),
            forall|q: PcbPath|
                #![trigger self.reads_as(q)]
                self.reads_as(q) && q.turns@.len() == self.edge_path@.len() ==> q.start_ngon == p.start_ngon
                    && q.start_nth == p.start_nth && q.turns@ == p.turns@,
    {
        let path = self.edge_path@;
        let t = p.turns@;
        let ng = self.ngons(p.start_ngon as nat);
        let start = ng[p.start_nth as int] as int;
        broadcast use vstd::std_specs::vec::axiom_spec_len;
        assert(self.faces.len() == self.faces@.len());
        lemma_ngons_upto(self.faces@, p.start_ngon as nat, self.nf());
        assert(0 <= start < self.nf() && self.face(start).len() == p.start_ngon);
        self.lemma_ngon_index(start);
        assert forall|j: int| 0 <= j < t.len() implies self.turn_at(j) == Some(#[trigger] t[j]) by {
            let c = path[j];
            let f = c.face_idx as int;
            assert(self.crossing_ok(j));
            let n = self.face(f).len() as int;
            assert(self.face(f).no_duplicates());
            if j == 0 {
                assert(!Polyhedron::on_path_before(path, 0, f));
            } else {
                assert(self.step_ok(t, j));
            }
            if !Polyhedron::on_path_before(path, j, f) {
                assert(t[j] + 1 < n);
                lemma_small_mod((t[j] + 1) as nat, n as nat);
                assert(c.enter == self.fedge(f, 0));
                assert(c.exit == self.fedge(f, t[j] + 1));
                self.lemma_pos_of(f, t[j] + 1);
            } else {
                assert(j > 0);
                assert(c.enter != self.fedge(f, 0));
                let pe = self.pos_of(f, c.enter);
                assert(0 <= pe < n);
                self.lemma_pos_of(f, pe - t[j]);
            }
        }
        assert forall|q: PcbPath|
            #![trigger self.reads_as(q)]
            self.reads_as(q) && q.turns@.len() == self.edge_path@.len() implies q.start_ngon == p.start_ngon
                && q.start_nth == p.start_nth && q.turns@ == p.turns@ by {
            assert forall|j: int| 0 <= j < t.len() implies q.turns@[j] == t[j] by {
                assert(self.turn_at(j) == Some(q.turns@[j]));
                assert(self.turn_at(j) == Some(t[j]));
            }
            assert(q.turns@ =~= t);
        }
    }

    /// Popping the path right after a crossing (or a visit) was added gives
    /// back the path and the visit lists from before.
    pub proof fn lemma_pop_undoes_cross(s0: Polyhedron, s1: Polyhedron, s2: Polyhedron, c: PolygonCrossing)
        requires
            c.face_idx < s0.fpi().len(),
            s1.edge_path@ == s0.edge_path@.push(c),
            s1.fpi() == s0.fpi().update(c.face_idx as int, s0.fpi()[c.face_idx as int].push(s0.edge_path@.len() as usize)),
            s2.edge_path@ == s1.edge_path@.drop_last(),
            s2.fpi() == s1.fpi().update(
                c.face_idx as int,
                if s1.fpi()[c.face_idx as int].len() > 0 {
                    s1.fpi()[c.face_idx as int].drop_last()
                } else {
                    s1.fpi()[c.face_idx as int]
                },
            ),
        ensures
            s2.edge_path@ == s0.edge_path@,
            s2.fpi() == s0.fpi(),
    {
        assert(s2.edge_path@ =~= s0.edge_path@);
        let f = c.face_idx as int;
        assert(s1.fpi()[f] == s0.fpi()[f].push(s0.edge_path@.len() as usize));
        assert(s1.fpi()[f].drop_last() =~= s0.fpi()[f]);
        assert(s2.fpi() =~= s0.fpi());
    }

    /// A path applied with success reads back as itself: after
    /// `s0.apply_path(&p)` returns `Ok` in state `s1`, whatever
    /// `s1.current_path()` reads has the start face and the turns of `p`, for
    /// every `p` with at least one turn whose turns are readable in `s1`
    /// (a single turn must be 0, as it always leaves through edge 1).
    pub proof fn lemma_apply_reads_back(s0: Polyhedron, s1: Polyhedron, p: PcbPath)
        requires
            s0.applies(s1, p, Ok(())),
            p.turns@.len() >= 1,
            p.turns@.len() == 1 ==> p.turns@[0] == 0,
            s1.turns_readable(p),
        ensures
            s1.edge_path@.len() == p.turns@.len(),
            s1.reads_as(p),
            forall|q: PcbPath|
                #![trigger s1.reads_as(q)]
                s1.reads_as(q) && q.turns@.len() == s1.edge_path@.len() ==> q.start_ngon == p.start_ngon
                    && q.start_nth == p.start_nth && q.turns@ == p.turns@,
    {
        if p.turns@.len() == 1 {
            assert(s1.edge_path@.len() == 1);
        }
        s1.lemma_walk_reads_back(p);
    }

    /// Completing keeps the number of faces and a well-formed path.
    pub proof fn lemma_completes_faces(self, new: Polyhedron, r: bool)
        requires
            self.path_inv(),
            self.completes(new, r),
        ensures
            new.faces@.len() == self.faces@.len(),
            new.path_inv(),
    {
        if self.edge_path@.len() > 0 {
            let mid = choose|mid: Polyhedron| {
                let last = self.edge_path@.last();
                let visit = PolygonVisit { face_idx: last.face_idx, enter: last.enter };
                &&& #[trigger] self.popped_last(mid)
                &&& (r ==> search_found(mid, new, visit))
                &&& (!r ==> search_failed(mid, new))
                &&& (!mid.visited(last.face_idx as int) && (forall|g: int|
                    0 <= g < mid.nf() && g != last.face_idx ==> #[trigger] mid.visited(g)) ==> r)
            };
            assert(kept(mid, new));
        }
    }
}

} // verus!
