//! The combinatorial polyhedron: faces as cycles of vertex ids, the edge table
//! that knows which two faces meet at an edge, and the path over the faces.
use crate::make_path::{PolygonCrossing, PolygonVisit};
use crate::visits::{visits, visits_clear, visits_get, visits_is_empty, visits_len, visits_new, visits_pop, visits_push, Visits};
use vstd::arithmetic::div_mod::{lemma_add_mod_noop, lemma_mod_pos_bound, lemma_mod_self_0, lemma_small_mod};
use vstd::prelude::*;

verus! {

/// An edge of a polyhedron
#[derive(Debug, Clone, Copy, PartialEq, Eq, Hash, Structural)]
pub struct Edge {
    pub start: u32,
    pub end: u32,
}

/// The two faces that meet at an edge of a polyhedron.
#[derive(Debug, Clone, Copy)]
pub struct PolyEdge {
    pub faces: [usize; 2],
}

/// An error while reading a polyhedron.
#[derive(Debug, Clone)]
pub struct PolyError(pub String);

/// The next position on a cycle of length `n`.
pub open spec fn nxt(i: int, n: int) -> int {
    if i + 1 < n {
        i + 1
    } else {
        0
    }
}

/// `(x + 1) % n` is the position after `x % n`.
pub proof fn lemma_mod_next(x: int, n: int)
    requires
        0 <= x,
        0 < n,
    ensures
        0 <= x % n < n,
        (x + 1) % n == nxt(x % n, n),
{
    lemma_mod_pos_bound(x, n);
    lemma_add_mod_noop(x, 1, n);
    if n == 1 {
        lemma_mod_pos_bound(x + 1, n);
    } else {
        lemma_small_mod(1, n as nat);
        if x % n + 1 < n {
            lemma_small_mod((x % n + 1) as nat, n as nat);
        } else {
            lemma_mod_self_0(n);
        }
    }
}

impl Edge {
    pub open spec fn spec_rev(self) -> Edge {
        Edge { start: self.end, end: self.start }
    }

    pub open spec fn spec_sorted(self) -> Edge {
        if self.end < self.start {
            self.spec_rev()
        } else {
            self
        }
    }

    /// The placeholder edge that ends a path that is still being walked.
    pub open spec fn spec_dev() -> Edge {
        Edge { start: u32::MAX, end: u32::MAX }
    }

    /// The placeholder edge that ends a path that is still being walked.
    pub fn dev() -> (e: Edge)
        ensures
            e == Edge::spec_dev(),
    {
        Edge { start: u32::MAX, end: u32::MAX }
    }

    /// The same edge, walked the other way.
    #[verifier::when_used_as_spec(spec_rev)]
    pub fn rev(self) -> (e: Edge)
        ensures
            e == self.spec_rev(),
    {
        Edge { start: self.end, end: self.start }
    }

    /// The edge with its smaller vertex first.
    pub fn sorted(self) -> (e: Edge)
        ensures
            e == self.spec_sorted(),
    {
        if self.end < self.start {
            self.rev()
        } else {
            self
        }
    }

    /// The edge from the first vertex to the second.
    pub fn from(value: (u32, u32)) -> (e: Edge)
        ensures
            e == (Edge { start: value.0, end: value.1 }),
    {
        Edge { start: value.0, end: value.1 }
    }
}

impl PolyError {
    /// An error with this message.
    pub fn from(value: String) -> (r: PolyError)
        ensures
            r.0 == value,
    {
        PolyError(value)
    }
}

/// The decimal digit `d`.
pub open spec fn digit(d: nat) -> char {
    (48 + d) as char
}

/// A number written in decimal, as `Display` writes an integer.
pub open spec fn decimal(n: nat) -> Seq<char>
    decreases n,
{
    if n < 10 {
        seq![digit(n)]
    } else {
        decimal(n / 10).push(digit(n % 10))
    }
}

/// The message for two faces that share no edge, written by `std::format!`
/// with the two numbers in decimal.
#[verifier::external_body]
fn no_edge_message(face: usize, other_face: usize) -> (r: String)
    ensures
        r@ == "No edge connecting face "@ + decimal(face as nat) + " with "@ + decimal(other_face as nat),
{
    format!("No edge connecting face {} with {}", face, other_face)
}

/// A polyhedron with a path over its faces.
pub struct Polyhedron {
    pub name: String,
    /// list of faces, with their vertices
    pub faces: Vec<Vec<u32>>,
    /// Polyhedron edges, each with the two faces it connects; an edge is
    /// stored once, smaller vertex first
    pub edges: Vec<(Edge, PolyEdge)>,
    /// edge path: the crossings of faces, in order
    ///
    /// For a square, counting counter-clockwise, 01 23 is allowed, but 03 12
    /// is not. The exit edge of one crossing is the reversed enter edge of the
    /// next crossing.
    pub edge_path: Vec<PolygonCrossing>,
    /// per face, the positions in `edge_path` at which it is crossed
    pub face_path_index: Vec<Visits>,
}

/// Edge `i` of a cycle of vertices: from vertex `i` to the next one.
pub open spec fn edge_at(s: Seq<u32>, i: int) -> Edge {
    Edge { start: s[i], end: s[nxt(i, s.len() as int)] }
}

/// The position of an edge on a cycle of vertices.
pub open spec fn pos_in(s: Seq<u32>, e: Edge) -> int {
    choose|i: int| 0 <= i < s.len() && #[trigger] edge_at(s, i) == e
}

/// The entry of an edge (in either direction) in an edge table.
pub open spec fn key_in(edges: Seq<(Edge, PolyEdge)>, e: Edge) -> int {
    choose|k: int| 0 <= k < edges.len() && edges[k].0 == e.spec_sorted()
}

/// Position `j` of a cycle of length `n` rotated left by `k`.
pub open spec fn rot_idx(j: int, k: int, n: int) -> int {
    if j + k < n {
        j + k
    } else {
        j + k - n
    }
}

/// A cycle rotated left by `k`.
pub open spec fn rotl(s: Seq<u32>, k: int) -> Seq<u32> {
    Seq::new(s.len(), |j: int| s[rot_idx(j, k, s.len() as int)])
}

/// Rotating a cycle left by `k` and then by the rest of its length gives
/// it back.
pub proof fn lemma_rotl_back(s: Seq<u32>, k: int, b: int)
    requires
        0 <= k < s.len(),
        b == if k == 0 {
            0
        } else {
            s.len() - k
        },
    ensures
        rotl(rotl(s, k), b) == s,
{
    let r = rotl(s, k);
    assert forall|j: int| 0 <= j < s.len() implies #[trigger] rotl(r, b)[j] == s[j] by {
        let n = s.len() as int;
        let j1 = rot_idx(j, b, n);
        assert(0 <= j1 < n);
        assert(rot_idx(j1, k, n) == j);
    }
    assert(rotl(r, b) =~= s);
}

/// Faces with `n` sides among the first `upto` faces, in order.
pub open spec fn ngons_upto(faces: Seq<Vec<u32>>, n: nat, upto: int) -> Seq<usize>
    decreases upto,
{
    if upto <= 0 {
        Seq::empty()
    } else if faces[upto - 1]@.len() == n {
        ngons_upto(faces, n, upto - 1).push((upto - 1) as usize)
    } else {
        ngons_upto(faces, n, upto - 1)
    }
}

/// The faces that `ngons_upto` lists have `n` sides, lie below `upto`,
/// increase, and include every such face.
pub proof fn lemma_ngons_upto(faces: Seq<Vec<u32>>, n: nat, upto: int)
    requires
        0 <= upto <= faces.len(),
        upto <= usize::MAX,
    ensures
        forall|t: int| 0 <= t < ngons_upto(faces, n, upto).len() ==> (#[trigger] ngons_upto(faces, n, upto)[t]) < upto
            && faces[ngons_upto(faces, n, upto)[t] as int]@.len() == n,
        forall|t1: int, t2: int| 0 <= t1 < t2 < ngons_upto(faces, n, upto).len() ==> #[trigger] ngons_upto(faces, n, upto)[t1] < #[trigger] ngons_upto(faces, n, upto)[t2],
        forall|f: int| 0 <= f < upto && faces[f]@.len() == n ==> #[trigger] ngons_upto(faces, n, upto).contains(f as usize),
        ngons_upto(faces, n, upto).len() <= upto,
    decreases upto,
{
    if upto > 0 {
        lemma_ngons_upto(faces, n, upto - 1);
        let a = ngons_upto(faces, n, upto - 1);
        let b = ngons_upto(faces, n, upto);
        if faces[upto - 1]@.len() == n {
            assert(b == a.push((upto - 1) as usize));
            assert forall|t: int| 0 <= t < b.len() implies (#[trigger] b[t]) < upto && faces[b[t] as int]@.len() == n by {
                if t < a.len() {
                    assert(b[t] == a[t]);
                }
            }
            assert forall|t1: int, t2: int| 0 <= t1 < t2 < b.len() implies #[trigger] b[t1] < #[trigger] b[t2] by {
                assert(b[t1] == a[t1]);
                if t2 < a.len() {
                    assert(b[t2] == a[t2]);
                }
            }
            assert forall|f: int| 0 <= f < upto && faces[f]@.len() == n implies #[trigger] b.contains(f as usize) by {
                if f < upto - 1 {
                    assert(a.contains(f as usize));
                    let t = choose|t: int| 0 <= t < a.len() && a[t] == f as usize;
                    assert(b[t] == f as usize);
                } else {
                    assert(b[a.len() as int] == f as usize);
                }
            }
        } else {
            assert(b == a);
        }
    }
}

/// Faces of the same lengths list the same n-gons.
pub proof fn lemma_ngons_same(a: Seq<Vec<u32>>, b: Seq<Vec<u32>>, n: nat, upto: int)
    requires
        a.len() == b.len(),
        0 <= upto <= a.len(),
        forall|f: int| 0 <= f < a.len() ==> #[trigger] b[f]@.len() == a[f]@.len(),
    ensures
        ngons_upto(a, n, upto) == ngons_upto(b, n, upto),
    decreases upto,
{
    if upto > 0 {
        lemma_ngons_same(a, b, n, upto - 1);
        assert(b[upto - 1]@.len() == a[upto - 1]@.len());
    }
}

/// The fan of triangles of a face: `[f0, fi, fi+1]`; none below three sides.
pub open spec fn fan(s: Seq<u32>) -> Seq<Seq<u32>> {
    if s.len() < 3 {
        Seq::empty()
    } else {
        Seq::new((s.len() - 2) as nat, |i: int| seq![s[0], s[i + 1], s[i + 2]])
    }
}

/// The triangles of the first `upto` faces.
pub open spec fn fans_upto(faces: Seq<Vec<u32>>, upto: int) -> Seq<Seq<u32>>
    decreases upto,
{
    if upto <= 0 {
        Seq::empty()
    } else {
        fans_upto(faces, upto - 1) + fan(faces[upto - 1]@)
    }
}

impl Polyhedron {
    pub open spec fn nf(self) -> int {
        self.faces@.len() as int
    }

    pub open spec fn face(self, f: int) -> Seq<u32> {
        self.faces@[f]@
    }

    /// Edge `i` of face `f` (`0 <= i` < its length), in face order.
    pub open spec fn fedge(self, f: int, i: int) -> Edge {
        edge_at(self.face(f), i)
    }

    /// `e` is an edge of face `f`, walked in face order.
    pub open spec fn on_face(self, f: int, e: Edge) -> bool {
        exists|i: int| 0 <= i < self.face(f).len() && #[trigger] self.fedge(f, i) == e
    }

    /// The position of an edge on a face.
    pub open spec fn pos_of(self, f: int, e: Edge) -> int {
        pos_in(self.face(f), e)
    }

    pub open spec fn ne(self) -> int {
        self.edges@.len() as int
    }

    /// The key of edge entry `k`.
    pub open spec fn ek(self, k: int) -> Edge {
        self.edges@[k].0
    }

    pub open spec fn fa(self, k: int) -> int {
        self.edges@[k].1.faces[0] as int
    }

    pub open spec fn fb(self, k: int) -> int {
        self.edges@[k].1.faces[1] as int
    }

    /// Of the faces of entry `k`, the one that is not `f`.
    pub open spec fn other_of(self, k: int, f: int) -> int {
        if self.fa(k) != f {
            self.fa(k)
        } else {
            self.fb(k)
        }
    }

    /// The entry of an edge, in either direction.
    pub open spec fn key_for(self, e: Edge) -> int {
        key_in(self.edges@, e)
    }

    /// The face on the other side of edge `e` of face `f`.
    pub open spec fn other_face_of(self, f: int, e: Edge) -> int {
        self.other_of(self.key_for(e), f)
    }

    /// Entry `k` joins two distinct faces, its key is sorted, and it lies on
    /// one face in each direction.
    pub open spec fn entry_ok(self, k: int) -> bool {
        let e = self.ek(k);
        let a = self.fa(k);
        let b = self.fb(k);
        &&& 0 <= a < self.nf()
        &&& 0 <= b < self.nf()
        &&& a != b
        &&& e.start < e.end
        &&& (self.on_face(a, e) ==> self.on_face(b, e.spec_rev()))
        &&& (!self.on_face(a, e) ==> self.on_face(a, e.spec_rev()) && self.on_face(b, e))
        &&& (self.on_face(b, e) ==> self.on_face(a, e.spec_rev()))
        &&& (!self.on_face(b, e) ==> self.on_face(b, e.spec_rev()) && self.on_face(a, e))
    }

    /// Edge `e` of face `f` is in the table, and the face across it holds the
    /// edge the other way round.
    pub open spec fn edge_ok(self, f: int, e: Edge) -> bool {
        exists|k: int|
            0 <= k < self.ne() && #[trigger] self.ek(k) == e.spec_sorted() && (self.fa(k) == f
                || self.fb(k) == f) && self.on_face(self.other_of(k, f), e.spec_rev())
    }

    /// The faces and the edge table form a closed, consistently oriented
    /// surface, and there is one visit list per face.
    pub open spec fn wf(self) -> bool {
        &&& self.face_path_index@.len() == self.faces@.len()
        &&& forall|f: int|
            0 <= f < self.nf() ==> #[trigger] self.face(f).len() >= 3 && self.face(
                f,
            ).no_duplicates()
        &&& forall|k1: int, k2: int|
            0 <= k1 < k2 < self.ne() ==> #[trigger] self.ek(k1) != #[trigger] self.ek(k2)
        &&& forall|k: int| 0 <= k < self.ne() ==> #[trigger] self.entry_ok(k)
        &&& forall|f: int, e: Edge| 0 <= f < self.nf() && #[trigger] self.on_face(f, e) ==> self.edge_ok(f, e)
    }

    /// The visit lists, as sequences.
    pub open spec fn fpi(self) -> Seq<Seq<usize>> {
        self.face_path_index@.map_values(|v: Visits| visits(v))
    }

    /// The faces with `n` sides, in order.
    pub open spec fn ngons(self, n: nat) -> Seq<usize> {
        ngons_upto(self.faces@, n, self.nf())
    }

    /// The position of face `f` among the faces with as many sides.
    pub open spec fn ngon_index(self, f: int) -> int {
        choose|t: int| 0 <= t < self.ngons(self.face(f).len()).len() && self.ngons(self.face(f).len())[t] == f as usize
    }

    /// Every face has a unique position among the faces with as many sides.
    pub proof fn lemma_ngon_index(self, f: int)
        requires
            0 <= f < self.nf(),
        ensures
            0 <= self.ngon_index(f) < self.ngons(self.face(f).len()).len(),
            self.ngons(self.face(f).len())[self.ngon_index(f)] == f as usize,
            forall|t: int| 0 <= t < self.ngons(self.face(f).len()).len() && self.ngons(self.face(f).len())[t] == f as usize ==> t == self.ngon_index(f),
    {
        let n = self.face(f).len();
        let s = self.ngons(n);
        broadcast use vstd::std_specs::vec::axiom_spec_len;
        assert(self.faces.len() == self.faces@.len());
        lemma_ngons_upto(self.faces@, n, self.nf());
        assert(s.contains(f as usize));
        let t0 = self.ngon_index(f);
        assert forall|t: int| 0 <= t < s.len() && s[t] == f as usize implies t == t0 by {
            if t < t0 {
                assert(s[t] < s[t0]);
            } else if t0 < t {
                assert(s[t0] < s[t]);
            }
        }
    }

    /// The `t`-th face with `n` sides has `n` sides and position `t` among them.
    pub proof fn lemma_nth_ngon(self, n: nat, t: int)
        requires
            0 <= t < self.ngons(n).len(),
        ensures
            0 <= self.ngons(n)[t] < self.nf(),
            self.face(self.ngons(n)[t] as int).len() == n,
            self.ngon_index(self.ngons(n)[t] as int) == t,
    {
        broadcast use vstd::std_specs::vec::axiom_spec_len;
        assert(self.faces.len() == self.faces@.len());
        lemma_ngons_upto(self.faces@, n, self.nf());
        let f = self.ngons(n)[t] as int;
        self.lemma_ngon_index(f);
    }

    /// Two states with the same faces up to rotation of each face.
    pub open spec fn faces_equiv(self, other: Polyhedron) -> bool {
        &&& other.faces@.len() == self.faces@.len()
        &&& forall|f: int| 0 <= f < self.nf() ==> #[trigger] other.face(f).len() == self.face(f).len()
        &&& forall|f: int| 0 <= f < self.nf() && #[trigger] self.face(f).no_duplicates() ==> other.face(f).no_duplicates()
        &&& forall|f: int, e: Edge| 0 <= f < self.nf() ==> (#[trigger] other.on_face(f, e) == self.on_face(f, e))
    }

    /// Two edges of a face without repeated vertices are equal only at the same position.
    pub proof fn lemma_fedge_unique(self, f: int, i: int, j: int)
        requires
            0 <= f < self.nf(),
            self.face(f).no_duplicates(),
            0 <= i < self.face(f).len(),
            0 <= j < self.face(f).len(),
            self.fedge(f, i) == self.fedge(f, j),
        ensures
            i == j,
    {
    }

    /// On a face without repeated vertices the position of an edge is unique.
    pub proof fn lemma_pos_of(self, f: int, i: int)
        requires
            0 <= f < self.nf(),
            self.face(f).no_duplicates(),
            0 <= i < self.face(f).len(),
        ensures
            self.on_face(f, self.fedge(f, i)),
            self.pos_of(f, self.fedge(f, i)) == i,
    {
        let e = self.fedge(f, i);
        assert(self.on_face(f, e));
        let p = self.pos_of(f, e);
        self.lemma_fedge_unique(f, i, p);
    }

    /// Equivalent states are equally well formed.
    pub proof fn lemma_equiv_wf(self, other: Polyhedron)
        requires
            self.wf(),
            self.faces_equiv(other),
            other.edges@ == self.edges@,
            other.face_path_index@.len() == self.face_path_index@.len(),
        ensures
            other.wf(),
    {
        assert forall|k: int| 0 <= k < other.ne() implies #[trigger] other.entry_ok(k) by {
            assert(self.entry_ok(k));
            let e = self.ek(k);
            assert(other.on_face(self.fa(k), e) == self.on_face(self.fa(k), e));
            assert(other.on_face(self.fb(k), e) == self.on_face(self.fb(k), e));
            assert(other.on_face(self.fa(k), e.spec_rev()) == self.on_face(self.fa(k), e.spec_rev()));
            assert(other.on_face(self.fb(k), e.spec_rev()) == self.on_face(self.fb(k), e.spec_rev()));
        }
        assert forall|f: int, e: Edge| 0 <= f < other.nf() && #[trigger] other.on_face(f, e) implies other.edge_ok(f, e) by {
            assert(self.on_face(f, e));
            assert(self.edge_ok(f, e));
            let k = choose|k: int|
                0 <= k < self.ne() && #[trigger] self.ek(k) == e.spec_sorted() && (self.fa(k) == f
                    || self.fb(k) == f) && self.on_face(self.other_of(k, f), e.spec_rev());
            assert(self.entry_ok(k));
            assert(other.on_face(self.other_of(k, f), e.spec_rev()));
            assert(other.ek(k) == e.spec_sorted());
        }
        assert forall|k1: int, k2: int|
            0 <= k1 < k2 < other.ne() implies #[trigger] other.ek(k1) != #[trigger] other.ek(k2) by {
            assert(self.ek(k1) != self.ek(k2));
        }
    }

    /// In a well-formed polyhedron, the entry of an edge of a face is the one
    /// `edge_ok` names, and the face across is a different valid face that holds
    /// the reversed edge.
    pub proof fn lemma_other_face(self, f: int, e: Edge)
        requires
            self.wf(),
            0 <= f < self.nf(),
            self.on_face(f, e),
        ensures
            0 <= self.key_for(e) < self.ne(),
            self.ek(self.key_for(e)) == e.spec_sorted(),
            self.fa(self.key_for(e)) == f || self.fb(self.key_for(e)) == f,
            0 <= self.other_face_of(f, e) < self.nf(),
            self.other_face_of(f, e) != f,
            self.on_face(self.other_face_of(f, e), e.spec_rev()),
            forall|k: int| 0 <= k < self.ne() && self.ek(k) == e.spec_sorted() ==> k == self.key_for(e),
    {
        assert(self.edge_ok(f, e));
        let k = choose|k: int|
            0 <= k < self.ne() && #[trigger] self.ek(k) == e.spec_sorted() && (self.fa(k) == f
                || self.fb(k) == f) && self.on_face(self.other_of(k, f), e.spec_rev());
        let kk = self.key_for(e);
        assert(0 <= kk < self.ne() && self.ek(kk) == e.spec_sorted());
        assert forall|k2: int| 0 <= k2 < self.ne() && self.ek(k2) == e.spec_sorted() implies k2 == k by {
            if k2 < k {
                assert(self.ek(k2) != self.ek(k));
            } else if k < k2 {
                assert(self.ek(k) != self.ek(k2));
            }
        }
        assert(kk == k);
        assert(self.entry_ok(k));
    }

    /// Edge `edge_n` (counted around, modulo the length) of this face.
    pub fn edge_from_face(&self, face_idx: usize, edge_n: usize) -> (e: Edge)
        requires
            face_idx < self.faces@.len(),
            self.face(face_idx as int).len() > 0,
            edge_n < usize::MAX,
        ensures
            e == self.fedge(face_idx as int, edge_n as int % self.face(face_idx as int).len() as int),
    {
        let f = &self.faces[face_idx];
        proof {
            lemma_mod_next(edge_n as int, f@.len() as int);
        }
        Edge { start: f[edge_n % f.len()], end: f[(edge_n + 1) % f.len()] }
    }

    /// All edges of this face from `start_idx` on, in face order.
    pub fn face_edges(&self, face_idx: usize, start_idx: usize) -> (r: Vec<Edge>)
        requires
            face_idx < self.faces@.len(),
        ensures
            start_idx <= self.face(face_idx as int).len() ==> r@.len() == self.face(face_idx as int).len() - start_idx,
            start_idx > self.face(face_idx as int).len() ==> r@.len() == 0,
            forall|i: int| 0 <= i < r@.len() ==> #[trigger] r@[i] == self.fedge(face_idx as int, i + start_idx),
    {
        let f = &self.faces[face_idx];
        let n = f.len();
        let mut r: Vec<Edge> = Vec::new();
        let mut i: usize = start_idx;
        while i < n
            invariant
                f@ == self.face(face_idx as int),
                n == f@.len(),
                start_idx <= i <= n || (i == start_idx && i > n),
                i >= start_idx,
                r@.len() == i - start_idx,
                forall|j: int| 0 <= j < r@.len() ==> #[trigger] r@[j] == self.fedge(face_idx as int, j + start_idx),
            decreases n - i,
        {
            let end = if i + 1 < n { f[i + 1] } else { f[0] };
            r.push(Edge { start: f[i], end });
            i += 1;
        }
        r
    }

    /// The position of an edge on this face.
    pub fn edge_n_on_face(&self, face_idx: usize, edge: Edge) -> (r: Option<usize>)
        requires
            face_idx < self.faces@.len(),
        ensures
            match r {
                Some(i) => i < self.face(face_idx as int).len() && self.fedge(face_idx as int, i as int) == edge
                    && forall|j: int| 0 <= j < i ==> self.fedge(face_idx as int, j) != edge,
                None => !self.on_face(face_idx as int, edge),
            },
    {
        let f = &self.faces[face_idx];
        let n = f.len();
        let mut i: usize = 0;
        while i < n
            invariant
                f@ == self.face(face_idx as int),
                n == f@.len(),
                0 <= i <= n,
                forall|j: int| 0 <= j < i ==> self.fedge(face_idx as int, j) != edge,
            decreases n - i,
        {
            let end = if i + 1 < n { f[i + 1] } else { f[0] };
            if f[i] == edge.start && end == edge.end {
                return Some(i);
            }
            i += 1;
        }
        None
    }

    /// The position of an edge on a face without repeated vertices, where it lies.
    pub fn edge_n_of(&self, face_idx: usize, edge: Edge) -> (r: usize)
        requires
            face_idx < self.faces@.len(),
            self.face(face_idx as int).no_duplicates(),
            self.on_face(face_idx as int, edge),
        ensures
            r == self.pos_of(face_idx as int, edge),
            r < self.face(face_idx as int).len(),
            self.fedge(face_idx as int, r as int) == edge,
    {
        let r = self.edge_n_on_face(face_idx, edge);
        let i = r.unwrap();
        proof {
            self.lemma_pos_of(face_idx as int, i as int);
        }
        i
    }

    /// The index of the table entry of this edge (in either direction).
    fn edge_entry(&self, edge: Edge) -> (k: usize)
        requires
            exists|k: int| 0 <= k < self.ne() && self.ek(k) == edge.spec_sorted(),
        ensures
            k < self.ne(),
            self.ek(k as int) == edge.spec_sorted(),
            forall|j: int| 0 <= j < k ==> self.ek(j) != edge.spec_sorted(),
    {
        let key = edge.sorted();
        let mut k: usize = 0;
        while k < self.edges.len() && self.edges[k].0 != key
            invariant
                0 <= k <= self.edges@.len(),
                key == edge.spec_sorted(),
                exists|k: int| 0 <= k < self.ne() && self.ek(k) == edge.spec_sorted(),
                forall|j: int| 0 <= j < k ==> self.ek(j) != edge.spec_sorted(),
            decreases self.edges@.len() - k,
        {
            k += 1;
        }
        k
    }

    /// Get the face on the other side of the nth edge
    pub fn other_face(&self, my_face: usize, flip_edge: usize) -> (r: usize)
        requires
            self.wf(),
            my_face < self.faces@.len(),
            flip_edge < usize::MAX,
        ensures
            r as int == self.other_face_of(
                my_face as int,
                self.fedge(my_face as int, flip_edge as int % self.face(my_face as int).len() as int),
            ),
            r < self.faces@.len(),
            r != my_face,
            self.on_face(
                r as int,
                self.fedge(my_face as int, flip_edge as int % self.face(my_face as int).len() as int).spec_rev(),
            ),
    {
        let fe = self.edge_from_face(my_face, flip_edge);
        let edge = fe.rev();
        proof {
            let n = self.face(my_face as int).len() as int;
            lemma_mod_pos_bound(flip_edge as int, n);
            assert(self.on_face(my_face as int, fe));
            self.lemma_other_face(my_face as int, fe);
            assert(edge.spec_sorted() == fe.spec_sorted());
        }
        let k = self.edge_entry(edge);
        let faces = self.edges[k].1.faces;
        if faces[0] != my_face {
            faces[0]
        } else {
            faces[1]
        }
    }

    /// Entry `k` joins faces `a` and `b`.
    pub open spec fn joins(self, k: int, a: int, b: int) -> bool {
        (self.fa(k) == a && self.fb(k) == b) || (self.fa(k) == b && self.fb(k) == a)
    }

    /// Some entry joins faces `a` and `b`.
    pub open spec fn has_join(self, a: int, b: int) -> bool {
        exists|k: int| 0 <= k < self.ne() && #[trigger] self.joins(k, a, b)
    }

    /// The first entry that joins faces `a` and `b`.
    pub open spec fn first_join(self, a: int, b: int) -> int {
        choose|k: int| 0 <= k < self.ne() && #[trigger] self.joins(k, a, b) && forall|j: int| 0 <= j < k ==> !self.joins(j, a, b)
    }

    /// The edge between faces `a` and `b` as walked on `a`.
    pub open spec fn join_edge(self, a: int, b: int) -> Edge {
        let e = self.ek(self.first_join(a, b));
        if self.on_face(a, e) {
            e
        } else {
            e.spec_rev()
        }
    }

    /// Get the edge that connects this face to the other face, as seen from
    /// this face: the first table entry joining the two.
    pub fn edge_from_two_faces(&self, face: usize, other_face: usize) -> (r: Result<Edge, PolyError>)
        requires
            self.wf(),
        ensures
            r is Ok <==> self.has_join(face as int, other_face as int),
            r matches Err(e) ==> e.0@ == "No edge connecting face "@ + decimal(face as nat) + " with "@ + decimal(
                other_face as nat,
            ),
            r matches Ok(e) ==> {
                &&& e == self.join_edge(face as int, other_face as int)
                &&& self.on_face(face as int, e)
                &&& self.on_face(other_face as int, e.spec_rev())
                &&& face < self.nf()
                &&& other_face < self.nf()
                &&& face != other_face
            },
    {
        let mut k: usize = 0;
        while k < self.edges.len()
            invariant
                self.wf(),
                0 <= k <= self.edges@.len(),
                forall|j: int| 0 <= j < k ==> !self.joins(j, face as int, other_face as int),
            decreases self.edges@.len() - k,
        {
            let fs = self.edges[k].1.faces;
            if (fs[0] == face && fs[1] == other_face) || (fs[0] == other_face && fs[1] == face) {
                let key = self.edges[k].0;
                proof {
                    assert(self.entry_ok(k as int));
                    assert(self.joins(k as int, face as int, other_face as int));
                    let fk = self.first_join(face as int, other_face as int);
                    assert(0 <= fk < self.ne() && self.joins(fk, face as int, other_face as int)
                        && forall|j: int| 0 <= j < fk ==> !self.joins(j, face as int, other_face as int));
                    if fk < k {
                    } else if fk > k {
                    }
                    assert(fk == k);
                }
                let on = self.edge_n_on_face(face, key);
                if on.is_some() {
                    proof {
                        assert(self.on_face(face as int, key));
                    }
                    return Ok(key);
                } else {
                    return Ok(key.rev());
                }
            }
            k += 1;
        }
        Err(PolyError(no_edge_message(face, other_face)))
    }

    /// The faces with `n_sides` sides, in order.
    pub fn iter_ngon(&self, n_sides: usize) -> (r: Vec<usize>)
        ensures
            r@ == self.ngons(n_sides as nat),
    {
        let mut r: Vec<usize> = Vec::new();
        let mut i: usize = 0;
        while i < self.faces.len()
            invariant
                0 <= i <= self.faces@.len(),
                r@ == ngons_upto(self.faces@, n_sides as nat, i as int),
            decreases self.faces@.len() - i,
        {
            if self.faces[i].len() == n_sides {
                r.push(i);
            }
            i += 1;
        }
        r
    }

    /// Split every face into a fan of triangles.
    pub fn triangulate(&self) -> (r: Vec<[u32; 3]>)
        ensures
            r@.map_values(|t: [u32; 3]| t@) == fans_upto(self.faces@, self.nf()),
    {
        let mut triangles: Vec<[u32; 3]> = Vec::new();
        let mut fi: usize = 0;
        while fi < self.faces.len()
            invariant
                0 <= fi <= self.faces@.len(),
                triangles@.map_values(|t: [u32; 3]| t@) == fans_upto(self.faces@, fi as int),
            decreases self.faces@.len() - fi,
        {
            let face = &self.faces[fi];
            let ghost before = triangles@.map_values(|t: [u32; 3]| t@);
            if face.len() >= 3 {
                let mut i: usize = 1;
                while i < face.len() - 1
                    invariant
                        face@ == self.faces@[fi as int]@,
                        face@.len() >= 3,
                        1 <= i <= face@.len() - 1,
                        triangles@.map_values(|t: [u32; 3]| t@) == before + fan(face@).subrange(0, i - 1),
                    decreases face@.len() - i,
                {
                    let t = [face[0], face[i], face[i + 1]];
                    let ghost tri_before = triangles@;
                    triangles.push(t);
                    proof {
                        assert(triangles@.map_values(|t: [u32; 3]| t@) =~= tri_before.map_values(|t: [u32; 3]| t@).push(t@));
                        assert(t@ =~= seq![face@[0], face@[i as int], face@[i + 1]]);
                        assert(triangles@.map_values(|t: [u32; 3]| t@) =~= before + fan(face@).subrange(0, i as int));
                    }
                    i += 1;
                }
                proof {
                    assert(fan(face@).subrange(0, face@.len() - 2) =~= fan(face@));
                }
            } else {
                proof {
                    assert(before + fan(face@) =~= before);
                }
            }
            fi += 1;
        }
        triangles
    }

    /// Rotate face `f` left by `k` positions, so that its edge `k` becomes edge 0.
    pub fn rotate_face(&mut self, f: usize, k: usize)
        requires
            f < old(self).faces@.len(),
            k < old(self).face(f as int).len(),
        ensures
            final(self).face(f as int) == rotl(old(self).face(f as int), k as int),
            final(self).faces@.len() == old(self).faces@.len(),
            forall|g: int| 0 <= g < old(self).nf() && g != f ==> final(self).faces@[g] == old(self).faces@[g],
            final(self).edges == old(self).edges,
            final(self).edge_path == old(self).edge_path,
            final(self).face_path_index == old(self).face_path_index,
            final(self).name == old(self).name,
            old(self).faces_equiv(*final(self)),
            final(self).fedge(f as int, 0) == old(self).fedge(f as int, k as int),
            forall|i: int| 0 <= i < old(self).face(f as int).len() ==> #[trigger] final(self).fedge(f as int, i)
                == old(self).fedge(f as int, rot_idx(i, k as int, old(self).face(f as int).len() as int)),
    {
        let ghost s0 = *self;
        let n = self.faces[f].len();
        let mut v: Vec<u32> = Vec::new();
        let mut j: usize = 0;
        while j < n
            invariant
                n == s0.face(f as int).len(),
                f < s0.faces@.len(),
                k < n,
                self.faces == s0.faces,
                0 <= j <= n,
                v@.len() == j,
                forall|i: int| 0 <= i < j ==> #[trigger] v@[i] == s0.face(f as int)[rot_idx(i, k as int, n as int)],
            decreases n - j,
        {
            let idx = if j < n - k { j + k } else { j - (n - k) };
            v.push(self.faces[f][idx]);
            j += 1;
        }
        self.faces.set(f, v);
        proof {
            let old_s = s0.face(f as int);
            let nn = n as int;
            let kk = k as int;
            assert(self.face(f as int) =~= rotl(old_s, kk));
            assert forall|i: int| 0 <= i < nn implies #[trigger] self.fedge(f as int, i) == s0.fedge(f as int, rot_idx(i, kk, nn)) by {
                assert(rot_idx(nxt(i, nn), kk, nn) == nxt(rot_idx(i, kk, nn), nn));
            }
            assert forall|g: int, e: Edge| 0 <= g < s0.nf() implies (#[trigger] self.on_face(g, e) == s0.on_face(g, e)) by {
                if g == f {
                    if self.on_face(g, e) {
                        let i = choose|i: int| 0 <= i < self.face(g).len() && #[trigger] self.fedge(g, i) == e;
                        assert(s0.fedge(g, rot_idx(i, kk, nn)) == e);
                    }
                    if s0.on_face(g, e) {
                        let m = choose|m: int| 0 <= m < s0.face(g).len() && #[trigger] s0.fedge(g, m) == e;
                        let i = if m >= kk { m - kk } else { m - kk + nn };
                        assert(rot_idx(i, kk, nn) == m);
                        assert(self.fedge(g, i) == e);
                    }
                } else {
                    assert(self.face(g) == s0.face(g));
                    if self.on_face(g, e) {
                        let i = choose|i: int| 0 <= i < self.face(g).len() && #[trigger] self.fedge(g, i) == e;
                        assert(s0.fedge(g, i) == e);
                    }
                    if s0.on_face(g, e) {
                        let i = choose|i: int| 0 <= i < s0.face(g).len() && #[trigger] s0.fedge(g, i) == e;
                        assert(self.fedge(g, i) == e);
                    }
                }
            }
            assert forall|g: int| 0 <= g < s0.nf() && #[trigger] s0.face(g).no_duplicates() implies self.face(g).no_duplicates() by {
                if g == f {
                    assert forall|a: int, b: int| 0 <= a < b < nn implies self.face(g)[a] != self.face(g)[b] by {
                        assert(self.face(g)[a] == old_s[rot_idx(a, kk, nn)]);
                        assert(self.face(g)[b] == old_s[rot_idx(b, kk, nn)]);
                    }
                } else {
                    assert(self.face(g) == s0.face(g));
                }
            }
            assert forall|g: int| 0 <= g < s0.nf() implies #[trigger] self.face(g).len() == s0.face(g).len() by {
                if g != f {
                    assert(self.face(g) == s0.face(g));
                }
            }
        }
    }

    /// Every face is on the path.
    pub fn path_complete_questionmark(&self) -> (r: bool)
        ensures
            r == forall|f: int| 0 <= f < self.face_path_index@.len() ==> #[trigger] self.fpi()[f].len() > 0,
    {
        let mut i: usize = 0;
        while i < self.face_path_index.len()
            invariant
                0 <= i <= self.face_path_index@.len(),
                forall|f: int| 0 <= f < i ==> #[trigger] self.fpi()[f].len() > 0,
            decreases self.face_path_index@.len() - i,
        {
            assert(self.fpi()[i as int] == visits(self.face_path_index@[i as int]));
            if visits_is_empty(&self.face_path_index[i]) {
                assert(self.fpi()[i as int] == visits(self.face_path_index@[i as int]));
                return false;
            }
            i += 1;
        }
        true
    }
}

} // verus!
