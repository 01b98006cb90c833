//! Building a polyhedron from the rows of the polyhedron database, and
//! checking that it is well formed.
use crate::polyhedron::{Edge, PolyEdge, Polyhedron};
use crate::visits::{visits, visits_new, Visits};
use vstd::prelude::*;

verus! {

/// The faces of polygon rows `(face, vertex, idx)`, in row order: each run
/// of rows with the same face id is one face, with the vertices of its rows.
pub open spec fn chunks(rows: Seq<(u32, u32, u32)>) -> Seq<Seq<u32>>
    decreases rows.len(),
{
    if rows.len() == 0 {
        Seq::empty()
    } else {
        let c = chunks(rows.drop_last());
        let r = rows.last();
        if rows.len() >= 2 && rows[rows.len() - 2].0 == r.0 {
            c.update(c.len() - 1, c.last().push(r.1))
        } else {
            c.push(seq![r.1])
        }
    }
}

/// The entry of an edge row `(v0, v1, face1, face2)`.
pub open spec fn row_entry(row: (u32, u32, u32, u32)) -> (Edge, PolyEdge) {
    (Edge { start: row.0, end: row.1 }, PolyEdge { faces: [row.2 as usize, row.3 as usize] })
}

/// Put an entry in an edge table: it replaces the entry with its key, or
/// goes at the end.
pub open spec fn put_entry(t: Seq<(Edge, PolyEdge)>, e: (Edge, PolyEdge)) -> Seq<(Edge, PolyEdge)> {
    if exists|j: int| 0 <= j < t.len() && #[trigger] t[j].0 == e.0 {
        t.update(choose|j: int| 0 <= j < t.len() && #[trigger] t[j].0 == e.0, e)
    } else {
        t.push(e)
    }
}

/// The edge table of edge rows, taken in order: a key that comes again takes
/// the faces of its later row.
pub open spec fn table_of(rows: Seq<(u32, u32, u32, u32)>) -> Seq<(Edge, PolyEdge)>
    decreases rows.len(),
{
    if rows.len() == 0 {
        Seq::empty()
    } else {
        put_entry(table_of(rows.drop_last()), row_entry(rows.last()))
    }
}

/// The keys of a table built by `put_entry` are distinct.
pub open spec fn keys_distinct(t: Seq<(Edge, PolyEdge)>) -> bool {
    forall|a: int, b: int| 0 <= a < b < t.len() ==> #[trigger] t[a].0 != #[trigger] t[b].0
}

/// Group polygon rows `(face, vertex, idx)`, sorted by face and index, into
/// faces: one per run of rows of the same face.
pub fn group_faces(rows: &Vec<(u32, u32, u32)>) -> (r: Vec<Vec<u32>>)
    ensures
        r@.map_values(|f: Vec<u32>| f@) == chunks(rows@),
{
    let mut faces: Vec<Vec<u32>> = Vec::new();
    if rows.len() == 0 {
        proof {
            assert(faces@.map_values(|f: Vec<u32>| f@) =~= chunks(rows@));
        }
        return faces;
    }
    let mut cur: Vec<u32> = Vec::new();
    cur.push(rows[0].1);
    let mut i: usize = 1;
    proof {
        assert(rows@.subrange(0, 1).drop_last() =~= Seq::<(u32, u32, u32)>::empty());
        assert(chunks(rows@.subrange(0, 1).drop_last()) == Seq::<Seq<u32>>::empty());
        assert(rows@.subrange(0, 1).last() == rows@[0]);
        assert(cur@ =~= seq![rows@[0].1]);
        assert(chunks(rows@.subrange(0, 1)) == Seq::<Seq<u32>>::empty().push(seq![rows@[0].1]));
        assert(faces@.map_values(|f: Vec<u32>| f@).push(cur@) =~= chunks(rows@.subrange(0, 1)));
    }
    while i < rows.len()
        invariant
            1 <= i <= rows@.len(),
            faces@.map_values(|f: Vec<u32>| f@).push(cur@) == chunks(rows@.subrange(0, i as int)),
        decreases rows@.len() - i,
    {
        let ghost pre = rows@.subrange(0, i as int);
        let ghost nxt = rows@.subrange(0, i + 1);
        proof {
            assert(nxt.drop_last() =~= pre);
            assert(nxt[nxt.len() - 2] == rows@[i - 1]);
        }
        if rows[i].0 == rows[i - 1].0 {
            let ghost c = chunks(pre);
            cur.push(rows[i].1);
            proof {
                assert(faces@.map_values(|f: Vec<u32>| f@).push(cur@) =~= c.update(c.len() - 1, c.last().push(rows@[i as int].1)));
            }
        } else {
            let ghost c = chunks(pre);
            let done = cur;
            faces.push(done);
            cur = Vec::new();
            cur.push(rows[i].1);
            proof {
                assert(faces@.map_values(|f: Vec<u32>| f@) =~= c);
                assert(faces@.map_values(|f: Vec<u32>| f@).push(cur@) =~= c.push(seq![rows@[i as int].1]));
            }
        }
        i += 1;
    }
    proof {
        assert(rows@.subrange(0, i as int) =~= rows@);
    }
    faces.push(cur);
    proof {
        let ghost fv = faces@.map_values(|f: Vec<u32>| f@);
        assert(fv =~= chunks(rows@));
    }
    faces
}

/// The edge table of edge rows `(v0, v1, face1, face2)`: a key that comes
/// again takes the faces of its later row.
pub fn edges_from_rows(rows: &Vec<(u32, u32, u32, u32)>) -> (r: Vec<(Edge, PolyEdge)>)
    ensures
        r@ == table_of(rows@),
        keys_distinct(r@),
{
    let mut table: Vec<(Edge, PolyEdge)> = Vec::new();
    let mut i: usize = 0;
    while i < rows.len()
        invariant
            0 <= i <= rows@.len(),
            table@ == table_of(rows@.subrange(0, i as int)),
            keys_distinct(table@),
        decreases rows@.len() - i,
    {
        let row = rows[i];
        let e = (Edge { start: row.0, end: row.1 }, PolyEdge { faces: [row.2 as usize, row.3 as usize] });
        let ghost t0 = table@;
        proof {
            let nxt = rows@.subrange(0, i + 1);
            assert(nxt.drop_last() =~= rows@.subrange(0, i as int));
            assert(e == row_entry(rows@[i as int]));
        }
        let mut j: usize = 0;
        while j < table.len() && table[j].0 != e.0
            invariant
                table@ == t0,
                0 <= j <= table@.len(),
                forall|k: int| 0 <= k < j ==> table@[k].0 != e.0,
            decreases table@.len() - j,
        {
            j += 1;
        }
        if j < table.len() {
            proof {
                let w = choose|k: int| 0 <= k < t0.len() && #[trigger] t0[k].0 == e.0;
                if w != j {
                    assert(t0[w].0 == t0[j as int].0);
                }
            }
            table.set(j, e);
            proof {
                assert(table@ =~= put_entry(t0, e));
            }
        } else {
            table.push(e);
            proof {
                assert(table@ =~= put_entry(t0, e));
            }
        }
        i += 1;
    }
    proof {
        assert(rows@.subrange(0, i as int) =~= rows@);
    }
    table
}

impl Polyhedron {
    /// A polyhedron from the rows of the polyhedron database: its faces from
    /// polygon rows `(face, vertex, idx)` sorted by face and index, its edges
    /// from edge rows `(v0, v1, face1, face2)`, and no path.
    pub fn from_rows(name: String, polygon_rows: &Vec<(u32, u32, u32)>, edge_rows: &Vec<(u32, u32, u32, u32)>) -> (r: Polyhedron)
        ensures
            r.name == name,
            r.faces@.map_values(|f: Vec<u32>| f@) == chunks(polygon_rows@),
            r.edges@ == table_of(edge_rows@),
            r.edge_path@.len() == 0,
            r.face_path_index@.len() == r.faces@.len(),
            forall|f: int| 0 <= f < r.fpi().len() ==> #[trigger] r.fpi()[f].len() == 0,
            r.wf() ==> r.path_inv(),
    {
        let faces = group_faces(polygon_rows);
        let edges = edges_from_rows(edge_rows);
        let mut face_path_index: Vec<Visits> = Vec::new();
        let mut i: usize = 0;
        while i < faces.len()
            invariant
                0 <= i <= faces@.len(),
                face_path_index@.len() == i,
                forall|f: int| 0 <= f < i ==> #[trigger] visits(face_path_index@[f]).len() == 0,
            decreases faces@.len() - i,
        {
            face_path_index.push(visits_new());
            i += 1;
        }
        let r = Polyhedron { name, faces, edges, edge_path: Vec::new(), face_path_index };
        proof {
            assert forall|f: int| 0 <= f < r.fpi().len() implies #[trigger] r.fpi()[f].len() == 0 by {
                assert(r.fpi()[f] == visits(r.face_path_index@[f]));
            }
            if r.wf() {
                assert forall|f: int| 0 <= f < r.nf() implies #[trigger] r.face_consistent(f) by {
                    assert(r.fpi()[f] == visits(r.face_path_index@[f]));
                    assert(r.fpi()[f] =~= crate::make_path::idx_of(r.edge_path@, f));
                }
            }
        }
        r
    }

    /// Reverse the winding of face `f`.
    pub fn reverse_face(&mut self, f: usize)
        requires
            f < old(self).faces@.len(),
        ensures
            final(self).face(f as int) == old(self).face(f as int).reverse(),
            final(self).faces@.len() == old(self).faces@.len(),
            forall|g: int| 0 <= g < old(self).nf() && g != f ==> #[trigger] final(self).faces@[g] == old(self).faces@[g],
            final(self).name == old(self).name,
            final(self).edges == old(self).edges,
            final(self).edge_path == old(self).edge_path,
            final(self).face_path_index == old(self).face_path_index,
    {
        let face = &self.faces[f];
        let n = face.len();
        let mut rev: Vec<u32> = Vec::new();
        let mut i: usize = 0;
        while i < n
            invariant
                face@ == old(self).face(f as int),
                n == face@.len(),
                0 <= i <= n,
                rev@ == face@.reverse().subrange(0, i as int),
            decreases n - i,
        {
            rev.push(face[n - 1 - i]);
            i += 1;
            proof {
                assert(rev@ =~= face@.reverse().subrange(0, i as int));
            }
        }
        proof {
            assert(rev@ =~= face@.reverse());
        }
        self.faces.set(f, rev);
    }

    /// Whether entry `k` of the edge table is as [`Self::wf`] asks.
    fn entry_is_ok(&self, k: usize) -> (r: bool)
        requires
            k < self.edges@.len(),
        ensures
            r == self.entry_ok(k as int),
    {
        let (e, pe) = self.edges[k];
        let a = pe.faces[0];
        let b = pe.faces[1];
        if a >= self.faces.len() || b >= self.faces.len() || a == b || !(e.start < e.end) {
            return false;
        }
        let a_e = self.edge_n_on_face(a, e).is_some();
        let b_e = self.edge_n_on_face(b, e).is_some();
        let a_r = self.edge_n_on_face(a, e.rev()).is_some();
        let b_r = self.edge_n_on_face(b, e.rev()).is_some();
        (!a_e || b_r) && (a_e || (a_r && b_e)) && (!b_e || a_r) && (b_e || (b_r && a_e))
    }

    /// Whether edge `e` of face `f` is in the table as [`Self::wf`] asks.
    fn edge_listed(&self, f: usize, e: Edge) -> (r: bool)
        requires
            f < self.faces@.len(),
            forall|k: int| 0 <= k < self.ne() ==> #[trigger] self.entry_ok(k),
        ensures
            r == self.edge_ok(f as int, e),
    {
        let key = e.sorted();
        let mut k: usize = 0;
        while k < self.edges.len()
            invariant
                f < self.faces@.len(),
                forall|j: int| 0 <= j < self.ne() ==> #[trigger] self.entry_ok(j),
                key == e.spec_sorted(),
                0 <= k <= self.ne(),
                forall|j: int|
                    0 <= j < k ==> !(#[trigger] self.ek(j) == e.spec_sorted() && (self.fa(j) == f || self.fb(j) == f)
                        && self.on_face(self.other_of(j, f as int), e.spec_rev())),
            decreases self.ne() - k,
        {
            let (ke, pe) = self.edges[k];
            proof {
                assert(self.entry_ok(k as int));
            }
            if ke == key && (pe.faces[0] == f || pe.faces[1] == f) {
                let other = if pe.faces[0] != f {
                    pe.faces[0]
                } else {
                    pe.faces[1]
                };
                if self.edge_n_on_face(other, e.rev()).is_some() {
                    return true;
                }
            }
            k += 1;
        }
        false
    }

    /// Whether the faces and the edge table form a closed, consistently
    /// oriented surface, with one visit list per face (see [`Self::wf`]).
    pub fn is_wf(&self) -> (r: bool)
        ensures
            r == self.wf(),
    {
        if self.face_path_index.len() != self.faces.len() {
            return false;
        }
        let mut f: usize = 0;
        while f < self.faces.len()
            invariant
                0 <= f <= self.nf(),
                forall|g: int| 0 <= g < f ==> #[trigger] self.face(g).len() >= 3 && self.face(g).no_duplicates(),
            decreases self.nf() - f,
        {
            let face = &self.faces[f];
            if face.len() < 3 {
                proof {
                    assert(!(self.face(f as int).len() >= 3));
                }
                return false;
            }
            let mut a: usize = 0;
            while a < face.len()
                invariant
                    face@ == self.face(f as int),
                    face@.len() >= 3,
                    0 <= f < self.nf(),
                    0 <= a <= face@.len(),
                    forall|x: int, y: int| 0 <= x < a && x < y < face@.len() ==> face@[x] != face@[y],
                decreases face@.len() - a,
            {
                let mut b: usize = a + 1;
                while b < face.len()
                    invariant
                        face@ == self.face(f as int),
                        face@.len() >= 3,
                        0 <= f < self.nf(),
                        0 <= a < face@.len(),
                        a + 1 <= b <= face@.len(),
                        forall|x: int, y: int| 0 <= x < a && x < y < face@.len() ==> face@[x] != face@[y],
                        forall|y: int| a < y < b ==> face@[a as int] != face@[y],
                    decreases face@.len() - b,
                {
                    if face[a] == face[b] {
                        proof {
                            assert(self.face(f as int).len() >= 3);
                            assert(!self.face(f as int).no_duplicates());
                            assert(!(self.face(f as int).len() >= 3 && self.face(f as int).no_duplicates()));
                            assert(!self.wf()) by {
                                if self.wf() {
                                    assert(0 <= f < self.nf());
                                    assert(self.face(f as int).len() >= 3 && self.face(f as int).no_duplicates());
                                }
                            }
                        }
                        return false;
                    }
                    b += 1;
                }
                a += 1;
            }
            proof {
                assert(self.face(f as int).no_duplicates());
            }
            f += 1;
        }
        let mut k1: usize = 0;
        while k1 < self.edges.len()
            invariant
                0 <= k1 <= self.ne(),
                forall|g: int| 0 <= g < self.nf() ==> #[trigger] self.face(g).len() >= 3 && self.face(g).no_duplicates(),
                forall|x: int, y: int| 0 <= x < k1 && x < y < self.ne() ==> #[trigger] self.ek(x) != #[trigger] self.ek(y),
            decreases self.ne() - k1,
        {
            let mut k2: usize = k1 + 1;
            while k2 < self.edges.len()
                invariant
                    0 <= k1 < self.ne(),
                    k1 + 1 <= k2 <= self.ne(),
                    forall|x: int, y: int| 0 <= x < k1 && x < y < self.ne() ==> #[trigger] self.ek(x) != #[trigger] self.ek(y),
                    forall|y: int| k1 < y < k2 ==> self.ek(k1 as int) != #[trigger] self.ek(y),
                decreases self.ne() - k2,
            {
                if self.edges[k1].0 == self.edges[k2].0 {
                    proof {
                        assert(self.ek(k1 as int) == self.ek(k2 as int));
                    }
                    return false;
                }
                k2 += 1;
            }
            k1 += 1;
        }
        let mut k: usize = 0;
        while k < self.edges.len()
            invariant
                0 <= k <= self.ne(),
                forall|g: int| 0 <= g < self.nf() ==> #[trigger] self.face(g).len() >= 3 && self.face(g).no_duplicates(),
                forall|x: int, y: int| 0 <= x < y < self.ne() ==> #[trigger] self.ek(x) != #[trigger] self.ek(y),
                forall|j: int| 0 <= j < k ==> #[trigger] self.entry_ok(j),
            decreases self.ne() - k,
        {
            if !self.entry_is_ok(k) {
                return false;
            }
            k += 1;
        }
        let mut f: usize = 0;
        while f < self.faces.len()
            invariant
                self.face_path_index@.len() == self.faces@.len(),
                0 <= f <= self.nf(),
                forall|g: int| 0 <= g < self.nf() ==> #[trigger] self.face(g).len() >= 3 && self.face(g).no_duplicates(),
                forall|x: int, y: int| 0 <= x < y < self.ne() ==> #[trigger] self.ek(x) != #[trigger] self.ek(y),
                forall|j: int| 0 <= j < self.ne() ==> #[trigger] self.entry_ok(j),
                forall|g: int, e: Edge| 0 <= g < f && #[trigger] self.on_face(g, e) ==> self.edge_ok(g, e),
            decreases self.nf() - f,
        {
            let n = self.faces[f].len();
            let mut i: usize = 0;
            while i < n
                invariant
                    0 <= f < self.nf(),
                    n == self.face(f as int).len(),
                    0 <= i <= n,
                    forall|j: int| 0 <= j < self.ne() ==> #[trigger] self.entry_ok(j),
                    forall|j: int| 0 <= j < i ==> #[trigger] self.edge_ok(f as int, self.fedge(f as int, j)),
                decreases n - i,
            {
                let e = self.edge_from_face(f, i);
                proof {
                    vstd::arithmetic::div_mod::lemma_small_mod(i as nat, n as nat);
                }
                if !self.edge_listed(f, e) {
                    proof {
                        assert(self.on_face(f as int, self.fedge(f as int, i as int)));
                    }
                    return false;
                }
                i += 1;
            }
            proof {
                assert forall|e: Edge| #[trigger] self.on_face(f as int, e) implies self.edge_ok(f as int, e) by {
                    let j = choose|j: int| 0 <= j < self.face(f as int).len() && #[trigger] self.fedge(f as int, j) == e;
                    assert(self.edge_ok(f as int, self.fedge(f as int, j)));
                }
            }
            f += 1;
        }
        true
    }
}

} // verus!
