//! Designs: the minimal descriptions from which a lamp is rebuilt.
use vstd::prelude::*;

verus! {

/// Per n-gon, the variants of the faces with that many sides, in face order.
pub type VariantMap = Vec<(usize, Vec<usize>)>;

/// The mathematical form of a [`VariantMap`].
pub open spec fn vmap_view(m: Seq<(usize, Vec<usize>)>) -> Seq<(usize, Seq<usize>)> {
    m.map_values(|e: (usize, Vec<usize>)| (e.0, e.1@))
}

/// A path through the faces of one polyhedron, as the solderer reads it.
#[derive(Debug, PartialEq, Eq)]
pub struct PcbPath {
    pub start_ngon: usize,
    pub start_nth: usize,
    /// A turn unambiguously means "number of solder jumpers to close"
    ///
    /// So for first time visit, it means `clockwise from enter + 1`
    /// for next time visit it means `counterclockwise from enter` (no +-1)
    pub turns: Vec<usize>,
}

/// The paths of all polyhedra of a lamp, in order.
#[derive(Debug, PartialEq, Eq)]
pub struct PcbPaths(pub Vec<PcbPath>);

impl PcbPath {
    /// Two paths are the same when their starts and turns are.
    pub open spec fn same_as(self, other: PcbPath) -> bool {
        &&& self.start_ngon == other.start_ngon
        &&& self.start_nth == other.start_nth
        &&& self.turns@ == other.turns@
    }

    /// Compare two paths field by field.
    pub fn same(&self, other: &PcbPath) -> (r: bool)
        ensures
            r == self.same_as(*other),
    {
        if self.start_ngon != other.start_ngon || self.start_nth != other.start_nth
            || self.turns.len() != other.turns.len() {
            return false;
        }
        let mut i: usize = 0;
        while i < self.turns.len()
            invariant
                self.turns.len() == other.turns.len(),
                0 <= i <= self.turns.len(),
                forall|j: int| 0 <= j < i ==> self.turns@[j] == other.turns@[j],
            decreases self.turns.len() - i,
        {
            if self.turns[i] != other.turns[i] {
                return false;
            }
            i += 1;
        }
        assert(self.turns@ =~= other.turns@);
        true
    }

    /// The path that starts on the first triangle and makes no turn.
    pub fn default() -> (r: PcbPath)
        ensures
            r.start_ngon == 3,
            r.start_nth == 0,
            r.turns@ == Seq::<usize>::empty(),
    {
        PcbPath { start_ngon: 3, start_nth: 0, turns: Vec::new() }
    }
}

impl PcbPaths {
    /// Wrap a list of paths.
    pub fn from(value: Vec<PcbPath>) -> (r: PcbPaths)
        ensures
            r.0@ == value@,
    {
        PcbPaths(value)
    }
}

/// A [`PcBorsign`] is a minimal description from which a lamp (a `Pcboron`)
/// can be built deterministically.
#[derive(Debug)]
pub struct PcBorsign {
    /// The polyhedra that this pcboron contains
    pub polyhedra: Vec<String>,
    /// The variant map, over all polyhedra
    pub variant_map: VariantMap,
    pub path: Vec<PcbPath>,
}

/// A design of a single polyhedron with its boards.
///
/// This is what a `Pcbdron` emits, and is collected into a [`PcBorsign`].
#[derive(Debug)]
pub struct PcbDrosign {
    pub polyhedron: String,
    pub variant_map: VariantMap,
    /// The (optional) PcbPath
    pub path: Option<PcbPath>,
}

/// Index of the first entry for `ngon` in a variant map.
pub open spec fn first_ngon(m: Seq<(usize, Seq<usize>)>, ngon: usize) -> Option<int>
    decreases m.len(),
{
    if m.len() == 0 {
        None
    } else {
        match first_ngon(m.drop_last(), ngon) {
            Some(j) => Some(j),
            None => if m.last().0 == ngon {
                Some(m.len() - 1)
            } else {
                None
            },
        }
    }
}

/// Add the variants of one n-gon to a variant map: appended to the first entry
/// of that n-gon, or as a new entry when there is none.
pub open spec fn merge_entry(m: Seq<(usize, Seq<usize>)>, e: (usize, Seq<usize>)) -> Seq<
    (usize, Seq<usize>),
> {
    match first_ngon(m, e.0) {
        Some(j) => m.update(j, (e.0, m[j].1 + e.1)),
        None => m.push(e),
    }
}

/// Merge the entries of `es`, in order, into `m`.
pub open spec fn merge_all(m: Seq<(usize, Seq<usize>)>, es: Seq<(usize, Seq<usize>)>) -> Seq<
    (usize, Seq<usize>),
>
    decreases es.len(),
{
    if es.len() == 0 {
        m
    } else {
        merge_entry(merge_all(m, es.drop_last()), es.last())
    }
}

pub proof fn lemma_first_ngon(m: Seq<(usize, Seq<usize>)>, ngon: usize)
    ensures
        match first_ngon(m, ngon) {
            Some(j) => 0 <= j < m.len() && m[j].0 == ngon && forall|k: int|
                0 <= k < j ==> m[k].0 != ngon,
            None => forall|k: int| 0 <= k < m.len() ==> m[k].0 != ngon,
        },
    decreases m.len(),
{
    if m.len() > 0 {
        let d = m.drop_last();
        lemma_first_ngon(d, ngon);
        assert forall|k: int| 0 <= k < d.len() implies d[k] == m[k] by {}
    }
}

impl PcBorsign {
    /// The empty design.
    pub fn default() -> (r: PcBorsign)
        ensures
            r.polyhedra@.len() == 0,
            r.variant_map@.len() == 0,
            r.path@.len() == 0,
    {
        PcBorsign { polyhedra: Vec::new(), variant_map: Vec::new(), path: Vec::new() }
    }

    /// Append the design of one more polyhedron: its name and path go at the
    /// end, and its variants are merged per n-gon.
    pub fn add(self, drosign: PcbDrosign) -> (r: Self)
        ensures
            r.polyhedra@ == self.polyhedra@.push(drosign.polyhedron),
            vmap_view(r.variant_map@) == merge_all(
                vmap_view(self.variant_map@),
                vmap_view(drosign.variant_map@),
            ),
            r.path@ == match drosign.path {
                Some(p) => self.path@.push(p),
                None => self.path@,
            },
    {
        let mut res = self;
        let PcbDrosign { polyhedron, variant_map, path } = drosign;
        res.polyhedra.push(polyhedron);
        let mut entries = variant_map;
        let ghost es = vmap_view(entries@);
        let ghost m0 = vmap_view(res.variant_map@);
        let mut done: Ghost<int> = Ghost(0);
        while entries.len() > 0
            invariant
                0 <= done@ <= es.len(),
                vmap_view(entries@) == es.subrange(done@, es.len() as int),
                vmap_view(res.variant_map@) == merge_all(m0, es.subrange(0, done@)),
                res.polyhedra@ == self.polyhedra@.push(drosign.polyhedron),
                res.path@ == self.path@,
                path == drosign.path,
            decreases entries.len(),
        {
            let ghost ents = entries@;
            let (ngon, mut vars) = entries.remove(0);
            let ghost e = (ngon, vars@);
            proof {
                assert(vmap_view(ents)[0] == (ents[0].0, ents[0].1@));
                assert(vmap_view(ents) == es.subrange(done@, es.len() as int));
                assert(vmap_view(ents).len() == ents.len());
                assert(done@ < es.len());
                assert(es.subrange(done@, es.len() as int)[0] == es[done@]);
                assert(vmap_view(ents)[0] == es[done@]);
                assert(entries@ =~= ents.subrange(1, ents.len() as int));
                assert(vmap_view(entries@) =~= vmap_view(ents).subrange(1, ents.len() as int));
                assert(vmap_view(entries@) =~= es.subrange(done@ + 1, es.len() as int));
            }
            let mut j: usize = 0;
            while j < res.variant_map.len() && res.variant_map[j].0 != ngon
                invariant
                    0 <= j <= res.variant_map.len(),
                    forall|k: int| 0 <= k < j ==> res.variant_map@[k].0 != ngon,
                decreases res.variant_map.len() - j,
            {
                j += 1;
            }
            let found = j < res.variant_map.len();
            let ghost before = vmap_view(res.variant_map@);
            proof {
                lemma_first_ngon(before, ngon);
                assert forall|k: int| 0 <= k < before.len() implies before[k].0
                    == res.variant_map@[k].0 by {}
                if found {
                    assert(before[j as int].0 == ngon);
                    match first_ngon(before, ngon) {
                        Some(jj) => {
                            if jj < j {
                                assert(res.variant_map@[jj].0 != ngon);
                            }
                        },
                        None => {},
                    }
                    assert(first_ngon(before, ngon) == Some(j as int));
                } else {
                    assert(first_ngon(before, ngon) is None);
                }
            }
            if found {
                res.variant_map[j].1.append(&mut vars);
                proof {
                    assert(vmap_view(res.variant_map@) =~= merge_entry(before, e));
                }
            } else {
                res.variant_map.push((ngon, vars));
                proof {
                    assert(vmap_view(res.variant_map@) =~= merge_entry(before, e));
                }
            }
            proof {
                assert(es.subrange(0, done@ + 1).drop_last() =~= es.subrange(0, done@));
                done@ = done@ + 1;
            }
        }
        assert(es.subrange(0, es.len() as int) =~= es);
        if let Some(p) = path {
            res.path.push(p);
        }
        res
    }

    /// The design of a single polyhedron.
    pub fn from(value: PcbDrosign) -> (r: PcBorsign)
        ensures
            r.polyhedra@ == seq![value.polyhedron],
            r.variant_map@ == value.variant_map@,
            r.path@ == match value.path {
                Some(p) => seq![p],
                None => Seq::<PcbPath>::empty(),
            },
    {
        let PcbDrosign { polyhedron, variant_map, path } = value;
        let mut polyhedra = Vec::new();
        polyhedra.push(polyhedron);
        let mut paths = Vec::new();
        if let Some(p) = path {
            paths.push(p);
        }
        PcBorsign { polyhedra, variant_map, path: paths }
    }
}

/// Each n-gon has at most one entry.
pub open spec fn ngons_distinct(m: Seq<(usize, Seq<usize>)>) -> bool {
    forall|a: int, b: int| 0 <= a < b < m.len() ==> #[trigger] m[a].0 != #[trigger] m[b].0
}

/// Collecting the design of one polyhedron into an empty design keeps its
/// variant map as it is, when that map names each n-gon once; so
/// `PcBorsign::default().add(d)` and `PcBorsign::from(d)` agree.
pub proof fn lemma_add_to_empty(m: Seq<(usize, Seq<usize>)>)
    requires
        ngons_distinct(m),
    ensures
        merge_all(Seq::empty(), m) == m,
    decreases m.len(),
{
    if m.len() > 0 {
        let d = m.drop_last();
        assert(ngons_distinct(d)) by {
            assert forall|a: int, b: int| 0 <= a < b < d.len() implies #[trigger] d[a].0 != #[trigger] d[b].0 by {
                assert(m[a].0 != m[b].0);
            }
        }
        lemma_add_to_empty(d);
        lemma_first_ngon(d, m.last().0);
        match first_ngon(d, m.last().0) {
            Some(j) => {
                assert(m[j].0 != m[m.len() - 1].0);
            },
            None => {},
        }
        assert(d.push(m.last()) =~= m);
    }
}

} // verus!
