//! A lamp: pcbdrons in a row, with one path through all of them.
use crate::design::{merge_all, vmap_view, PcBorsign, PcbDrosign, PcbPath, PcbPaths, VariantMap};
use crate::flags::{PcbId, VarFlags, VarId};
use crate::make_path::PolygonCrossing;
use crate::pcbdron::{assign_all, consumed, of_kind_upto, poly_set, zeros, Pcbdron};
use crate::polyhedron::{lemma_ngons_upto, Polyhedron};
use vstd::prelude::*;

verus! {

/// A face index on a pcboron
#[derive(Debug, Clone, Copy, PartialEq, Eq, Structural)]
pub struct Fidx {
    /// dron index
    pub dridx: usize,
    /// face index
    pub fidx: usize,
}

/// An error while building a pcboron.
#[derive(Debug, Clone)]
pub struct PcboronError(pub String);

impl PcboronError {
    /// An error with this message.
    pub fn from(value: String) -> (r: PcboronError)
        ensures
            r.0 == value,
    {
        PcboronError(value)
    }
}

/// A lamp made of pcbdrons. The path follows their order.
///
/// Board models are shared by all pcbdrons: each model shows one kind of
/// board, on every face of that kind.
pub struct Pcboron {
    /// A linear list of pcbdrons
    pub pcbdrons: Vec<Pcbdron>,
    /// The kind of board that each board model shows, by model index.
    pub instance_map: Vec<PcbId>,
}

/// Faces picked from each pcbdron by `sel`, over all pcbdrons in order,
/// each with the index of its pcbdron.
pub open spec fn tagged(drons: Seq<Pcbdron>, sel: spec_fn(Pcbdron) -> Seq<usize>) -> Seq<(usize, usize)>
    decreases drons.len(),
{
    if drons.len() == 0 {
        Seq::empty()
    } else {
        tagged(drons.drop_last(), sel) + sel(drons.last()).map_values(
            |f: usize| (f, (drons.len() - 1) as usize),
        )
    }
}

/// A copy of a variant map.
fn copy_variant_map(m: &VariantMap) -> (r: VariantMap)
    ensures
        vmap_view(r@) == vmap_view(m@),
{
    let mut r: VariantMap = Vec::new();
    let mut k: usize = 0;
    while k < m.len()
        invariant
            0 <= k <= m@.len(),
            vmap_view(r@) == vmap_view(m@).subrange(0, k as int),
        decreases m@.len() - k,
    {
        let (n, vars) = &m[k];
        let mut v: Vec<usize> = Vec::new();
        let mut t: usize = 0;
        while t < vars.len()
            invariant
                0 <= t <= vars@.len(),
                v@ == vars@.subrange(0, t as int),
            decreases vars@.len() - t,
        {
            v.push(vars[t]);
            t += 1;
            proof {
                assert(v@ =~= vars@.subrange(0, t as int));
            }
        }
        proof {
            assert(v@ =~= vars@);
        }
        let ghost before = vmap_view(r@);
        r.push((*n, v));
        proof {
            assert(vmap_view(r@) =~= before.push((m@[k as int].0, m@[k as int].1@)));
            assert(vmap_view(m@)[k as int] == (m@[k as int].0, m@[k as int].1@));
            assert(vmap_view(m@).subrange(0, k + 1) =~= vmap_view(m@).subrange(0, k as int).push(vmap_view(m@)[k as int]));
        }
        k += 1;
    }
    proof {
        assert(vmap_view(m@).subrange(0, k as int) =~= vmap_view(m@));
    }
    r
}

/// The faces with `n` sides over all pcbdrons, as (face, pcbdron).
pub open spec fn ngon_faces(drons: Seq<Pcbdron>, n: usize) -> Seq<(usize, usize)> {
    tagged(drons, |p: Pcbdron| p.polyhedron.ngons(n as nat))
}

/// The faces of kind `id` over all pcbdrons, as (face, pcbdron).
pub open spec fn kind_faces(drons: Seq<Pcbdron>, id: PcbId) -> Seq<(usize, usize)> {
    tagged(drons, |p: Pcbdron| p.of_kind(id))
}

/// Every entry of `tagged` is a face that `sel` picks from its pcbdron.
pub proof fn lemma_tagged(drons: Seq<Pcbdron>, sel: spec_fn(Pcbdron) -> Seq<usize>, k: int)
    requires
        0 <= k < tagged(drons, sel).len(),
        drons.len() <= usize::MAX,
    ensures
        0 <= tagged(drons, sel)[k].1 < drons.len(),
        sel(drons[tagged(drons, sel)[k].1 as int]).contains(tagged(drons, sel)[k].0),
    decreases drons.len(),
{
    let d = drons.drop_last();
    let a = tagged(d, sel);
    if k < a.len() {
        lemma_tagged(d, sel, k);
        assert(tagged(drons, sel)[k] == a[k]);
        assert(drons[a[k].1 as int] == d[a[k].1 as int]);
    } else {
        let s = sel(drons.last());
        assert(tagged(drons, sel)[k] == (s[k - a.len()], (drons.len() - 1) as usize));
        assert(drons[drons.len() - 1] == drons.last());
        assert(s[k - a.len()] == tagged(drons, sel)[k].0);
        assert(s.contains(tagged(drons, sel)[k].0));
    }
}

/// `tagged` of a longer prefix adds the faces of the next pcbdron.
pub proof fn lemma_tagged_step(drons: Seq<Pcbdron>, sel: spec_fn(Pcbdron) -> Seq<usize>, d: int)
    requires
        0 <= d < drons.len(),
    ensures
        tagged(drons.subrange(0, d + 1), sel) == tagged(drons.subrange(0, d), sel) + sel(drons[d]).map_values(
            |f: usize| (f, d as usize),
        ),
{
    assert(drons.subrange(0, d + 1).drop_last() =~= drons.subrange(0, d));
}

/// The faces that `of_kind` lists lie below the face count.
pub proof fn lemma_of_kind_bound(faces: Seq<Vec<u32>>, vm: Seq<usize>, id: PcbId, upto: int, t: int)
    requires
        0 <= t < of_kind_upto(faces, vm, id, upto).len(),
    ensures
        of_kind_upto(faces, vm, id, upto)[t] < upto,
    decreases upto,
{
    if upto > 0 {
        let a = of_kind_upto(faces, vm, id, upto - 1);
        if t < a.len() {
            lemma_of_kind_bound(faces, vm, id, upto - 1, t);
        }
    }
}

/// Dron `d`'s face `f` has variant `v` and nothing else changed.
pub open spec fn face_set(old: Seq<Pcbdron>, new: Seq<Pcbdron>, d: int, f: int, v: usize) -> bool {
    &&& new.len() == old.len()
    &&& forall|e: int| 0 <= e < old.len() && e != d ==> #[trigger] new[e] == old[e]
    &&& new[d].polyhedron == old[d].polyhedron
    &&& new[d].variant_map@ == old[d].variant_map@.update(f, v)
}

/// The first pcbdron from position `i` on for which `pred` holds.
pub open spec fn first_from(drons: Seq<Pcbdron>, pred: spec_fn(Pcbdron) -> bool, i: int) -> Option<int>
    decreases drons.len() - i,
{
    if i < 0 || i >= drons.len() {
        None
    } else if pred(drons[i]) {
        Some(i)
    } else {
        first_from(drons, pred, i + 1)
    }
}

/// `first_from` finds the first pcbdron from `i` on for which `pred` holds.
pub proof fn lemma_first_from(drons: Seq<Pcbdron>, pred: spec_fn(Pcbdron) -> bool, i: int, j: int)
    requires
        0 <= i <= j <= drons.len(),
        forall|k: int| i <= k < j ==> !pred(#[trigger] drons[k]),
        j < drons.len() ==> pred(drons[j]),
    ensures
        first_from(drons, pred, i) == if j < drons.len() {
            Some(j)
        } else {
            None::<int>
        },
    decreases j - i,
{
    if i < j {
        lemma_first_from(drons, pred, i + 1, j);
    }
}

/// The last pcbdron for which `pred` holds.
pub open spec fn last_where(drons: Seq<Pcbdron>, pred: spec_fn(Pcbdron) -> bool) -> Option<int>
    decreases drons.len(),
{
    if drons.len() == 0 {
        None
    } else if pred(drons.last()) {
        Some(drons.len() - 1)
    } else {
        last_where(drons.drop_last(), pred)
    }
}

/// `last_where` finds the last pcbdron for which `pred` holds.
pub proof fn lemma_last_where(drons: Seq<Pcbdron>, pred: spec_fn(Pcbdron) -> bool, j: int)
    requires
        -1 <= j < drons.len(),
        forall|k: int| j < k < drons.len() ==> !pred(#[trigger] drons[k]),
        j >= 0 ==> pred(drons[j]),
    ensures
        last_where(drons, pred) == if j >= 0 {
            Some(j)
        } else {
            None::<int>
        },
    decreases drons.len(),
{
    if drons.len() > 0 && j < drons.len() - 1 {
        let d = drons.drop_last();
        assert forall|k: int| j < k < d.len() implies !pred(#[trigger] d[k]) by {
            assert(d[k] == drons[k]);
        }
        if j >= 0 {
            assert(d[j] == drons[j]);
        }
        lemma_last_where(d, pred, j);
    }
}

/// A path has been started on the pcbdron but does not cover it yet.
pub open spec fn open_path(p: Pcbdron) -> bool {
    p.polyhedron.edge_path@.len() > 0 && !p.polyhedron.complete()
}

/// The path does not cover the pcbdron yet.
pub open spec fn incomplete(p: Pcbdron) -> bool {
    !p.polyhedron.complete()
}

/// The pcbdron has a path.
pub open spec fn has_path(p: Pcbdron) -> bool {
    p.polyhedron.edge_path@.len() > 0
}

/// Only pcbdron `d` may differ.
pub open spec fn only_dron(old: Seq<Pcbdron>, new: Seq<Pcbdron>, d: int) -> bool {
    &&& new.len() == old.len()
    &&& forall|e: int| 0 <= e < old.len() && e != d ==> #[trigger] new[e] == old[e]
}

/// The positions of the pcbdrons that have a path, in order.
pub open spec fn with_path(drons: Seq<Pcbdron>) -> Seq<int>
    decreases drons.len(),
{
    if drons.len() == 0 {
        Seq::empty()
    } else if has_path(drons.last()) {
        with_path(drons.drop_last()).push(drons.len() - 1)
    } else {
        with_path(drons.drop_last())
    }
}

/// The paths read from the pcbdrons that have one, in order.
pub open spec fn reads_paths(drons: Seq<Pcbdron>, paths: Seq<PcbPath>) -> bool {
    &&& paths.len() == with_path(drons).len()
    &&& forall|k: int| 0 <= k < paths.len() ==> #[trigger] drons[with_path(drons)[k]].reads_path(Some(paths[k]))
}

/// The positions `with_path` lists are pcbdrons.
pub proof fn lemma_with_path(drons: Seq<Pcbdron>)
    ensures
        forall|k: int| 0 <= k < with_path(drons).len() ==> 0 <= #[trigger] with_path(drons)[k] < drons.len(),
    decreases drons.len(),
{
    if drons.len() > 0 {
        let d = drons.drop_last();
        lemma_with_path(d);
        let w = with_path(drons);
        assert forall|k: int| 0 <= k < w.len() implies 0 <= #[trigger] w[k] < drons.len() by {
            if k < with_path(d).len() {
                assert(w[k] == with_path(d)[k]);
            }
        }
    }
}

/// The boards of the `n_gon`-gon kinds that have a model, among the first
/// `upto` variants, in order.
pub open spec fn row_ids(n_gon: usize, row: Seq<bool>, upto: int) -> Seq<PcbId>
    decreases upto,
{
    if upto <= 0 {
        Seq::empty()
    } else if row[upto - 1] {
        row_ids(n_gon, row, upto - 1).push(PcbId { n_gon, variant: (upto - 1) as usize })
    } else {
        row_ids(n_gon, row, upto - 1)
    }
}

/// The board kinds that have a model, n-gon by n-gon and variant by
/// variant: `present[n][v]` marks a model of the `n`-gon board with
/// variant `v`.
pub open spec fn present_ids(present: Seq<Seq<bool>>) -> Seq<PcbId>
    decreases present.len(),
{
    if present.len() == 0 {
        Seq::empty()
    } else {
        present_ids(present.drop_last()) + row_ids(
            (present.len() - 1) as usize,
            present.last(),
            present.last().len() as int,
        )
    }
}

/// Lengthen the list of board models of one n-gon with `None` until it has
/// at least `len` entries.
pub fn pad_with_none<T>(models: &mut Vec<Option<T>>, len: usize)
    ensures
        final(models)@.len() == if old(models)@.len() < len {
            len as int
        } else {
            old(models)@.len() as int
        },
        forall|i: int| 0 <= i < old(models)@.len() ==> #[trigger] final(models)@[i] == old(models)@[i],
        forall|i: int| old(models)@.len() <= i < final(models)@.len() ==> #[trigger] final(models)@[i] is None,
{
    let ghost m0 = models@;
    while models.len() < len
        invariant
            m0.len() <= models@.len(),
            models@.len() <= len || models@.len() == m0.len(),
            forall|i: int| 0 <= i < m0.len() ==> #[trigger] models@[i] == m0[i],
            forall|i: int| m0.len() <= i < models@.len() ==> #[trigger] models@[i] is None,
        decreases len - models@.len(),
    {
        models.push(None);
    }
}

/// The variant maps of the designs of all pcbdrons, merged in order.
pub open spec fn designs_merged(drons: Seq<Pcbdron>) -> Seq<(usize, Seq<usize>)>
    decreases drons.len(),
{
    if drons.len() == 0 {
        Seq::empty()
    } else {
        merge_all(designs_merged(drons.drop_last()), drons.last().design_upto(11))
    }
}

/// The colour at step `i` of `n` on the magma gradient, as red, green and
/// blue.
pub uninterp spec fn magma_rational(i: usize, n: usize) -> (u8, u8, u8);

/// `colorous::MAGMA.eval_rational(i, n)`, as red, green and blue. The crate
/// panics for `n == 0`; its result depends on `i` and `n` alone.
#[verifier::external_body]
fn magma(i: usize, n: usize) -> (r: (u8, u8, u8))
    requires
        n > 0,
    ensures
        r == magma_rational(i, n),
{
    let c = colorous::MAGMA.eval_rational(i, n);
    (c.r, c.g, c.b)
}

/// Which arrow marks a crossing on the drawn path.
#[derive(Debug, Clone, Copy, PartialEq, Eq, Structural)]
pub enum ArrowKind {
    /// from the enter edge to the face centre: the last crossing
    EnterToCentre,
    /// from the face centre to the exit edge: the first crossing, on the
    /// controller
    CentreToExit,
    /// from the enter edge to the exit edge
    EdgeToEdge,
}

/// One arrow of the drawn path: crossing `step` of pcbdron `dron`.
#[derive(Debug, Clone, Copy)]
pub struct PathArrow {
    pub dron: usize,
    pub step: usize,
    pub kind: ArrowKind,
    /// the colour of the step on the magma gradient
    pub color: (u8, u8, u8),
    /// an arrow on to the face `exit.end` of the next pcbdron follows: the
    /// exit of the last crossing names a face instead of an edge
    pub link_next: bool,
}

/// The drawn path: how many pcbdrons are drawn, and the arrows.
pub struct DebugPath {
    pub drons: usize,
    pub arrows: Vec<PathArrow>,
}

/// The arrow of crossing `i` of pcbdron `d`.
pub open spec fn arrow_at(drons: Seq<Pcbdron>, d: int, i: int) -> PathArrow {
    let dron = drons[d];
    let path = dron.polyhedron.edge_path@;
    let c = path[i];
    let imax = path.len() - 1;
    PathArrow {
        dron: d as usize,
        step: i as usize,
        kind: if i == imax {
            ArrowKind::EnterToCentre
        } else if i == 0 && VarFlags::Controller.is_set(dron.variant_map@[c.face_idx as int]) {
            ArrowKind::CentreToExit
        } else {
            ArrowKind::EdgeToEdge
        },
        color: magma_rational(i as usize, if imax >= 1 { imax as usize } else { 1 }),
        link_next: i == imax && c.exit.start as int == c.face_idx as int && d + 1 < drons.len(),
    }
}

/// The arrows of the paths of the first `upto` pcbdrons.
pub open spec fn arrows_upto(drons: Seq<Pcbdron>, upto: int) -> Seq<PathArrow>
    decreases upto,
{
    if upto <= 0 {
        Seq::empty()
    } else {
        arrows_upto(drons, upto - 1) + Seq::new(
            drons[upto - 1].polyhedron.edge_path@.len(),
            |i: int| arrow_at(drons, upto - 1, i),
        )
    }
}

/// The position of the first pcbdron without a path, or the count.
pub open spec fn first_pathless(drons: Seq<Pcbdron>) -> int {
    match first_from(drons, |p: Pcbdron| !has_path(p), 0) {
        Some(i) => i,
        None => drons.len() as int,
    }
}

/// A variant with no board model: past the models of its n-gon, or without one.
pub open spec fn absent(avail: Seq<bool>, v: usize) -> bool {
    v >= avail.len() || !avail[v as int]
}

/// The variants of `vs` that have no board model, each once, in order of
/// first appearance.
pub open spec fn missing_in(avail: Seq<bool>, vs: Seq<usize>) -> Seq<usize>
    decreases vs.len(),
{
    if vs.len() == 0 {
        Seq::empty()
    } else {
        let m = missing_in(avail, vs.drop_last());
        if absent(avail, vs.last()) && !m.contains(vs.last()) {
            m.push(vs.last())
        } else {
            m
        }
    }
}

/// The variants of the faces with `n` sides over all pcbdrons, in order.
pub open spec fn all_ngon_variants(drons: Seq<Pcbdron>, n: nat) -> Seq<usize>
    decreases drons.len(),
{
    if drons.len() == 0 {
        Seq::empty()
    } else {
        all_ngon_variants(drons.drop_last(), n) + drons.last().ngon_variants(n)
    }
}

/// The text `std::format!` writes for a polyhedron name that could not be
/// loaded at position `i`, the name written with `Debug` (quoted and
/// escaped).
pub uninterp spec fn load_new_text(name: Seq<char>, i: usize) -> Seq<char>;

/// The message for a polyhedron that could not be loaded for a new pcbdron:
/// `std::format!` with the name written by `Debug`; the text depends on the
/// name and the position alone.
#[verifier::external_body]
fn load_new_message(polyhedron: &String, i: usize) -> (r: String)
    ensures
        r@ == load_new_text(polyhedron@, i),
{
    format!("Could not load {polyhedron:?}, which is the {i}th polyhedron")
}

/// The message for a polyhedron that could not be loaded for a pcbdron that
/// is there, written by `std::format!` with the name as it is.
#[verifier::external_body]
fn load_existing_message(polyhedron: &String) -> (r: String)
    ensures
        r@ == "could not apply design for poly "@ + polyhedron@,
{
    format!("could not apply design for poly {}", polyhedron)
}

/// Position `i` of a design needs a loaded polyhedron: a pcbdron is added
/// there, or the one there is of another polyhedron.
pub open spec fn needs_load(drons: Seq<Pcbdron>, i: int, name: String) -> bool {
    i >= drons.len() || name@ != drons[i].polyhedron.name@
}

/// `new` is `old` with its path cleared.
pub open spec fn path_cleared(old: Polyhedron, new: Polyhedron) -> bool {
    &&& new.faces == old.faces
    &&& new.edges == old.edges
    &&& new.name == old.name
    &&& new.edge_path@.len() == 0
    &&& new.fpi().len() == old.fpi().len()
    &&& forall|f: int| 0 <= f < new.fpi().len() ==> #[trigger] new.fpi()[f].len() == 0
    &&& old.wf() ==> new.path_inv()
}

/// The path entry of a design for position `i`, if any.
pub open spec fn path_at(paths: Seq<PcbPath>, i: int) -> Option<PcbPath> {
    if 0 <= i < paths.len() {
        Some(paths[i])
    } else {
        None
    }
}

/// Step `i` of applying a design, in two halves. First (`a` to `m`) the
/// pcbdron at `i` gets its polyhedron and variants: a new pcbdron is added
/// with the loaded polyhedron, one of another polyhedron gets the loaded one
/// (see [`Pcbdron::set_poly`]), and otherwise only the variants are applied;
/// the variant map goes from `va` to `vb`. Then (`m` to `b`) the path: with
/// no path for `i`, or after a path failed (`fa`), the path of pcbdron `i`
/// is cleared; a path that reads as the
/// pcbdron's path before the step is kept; any other path is applied, and a
/// failure sets `fb`.
pub open spec fn design_step(
    a: Seq<Pcbdron>,
    m: Seq<Pcbdron>,
    b: Seq<Pcbdron>,
    i: int,
    name: String,
    l: Option<Polyhedron>,
    p: Option<PcbPath>,
    va: Seq<(usize, Seq<usize>)>,
    vb: Seq<(usize, Seq<usize>)>,
    fa: bool,
    fb: bool,
) -> bool {
    &&& 0 <= i <= a.len()
    &&& !(needs_load(a, i, name) && l is None)
    &&& if i == a.len() {
        let h = l->0;
        &&& m.len() == a.len() + 1
        &&& forall|k: int| 0 <= k < a.len() ==> #[trigger] m[k] == a[k]
        &&& m[i].polyhedron == h
        &&& m[i].variant_map@ == assign_all(h, zeros(h.nf()), va)
        &&& vb == consumed(h, va)
    } else if needs_load(a, i, name) {
        &&& only_dron(a, m, i)
        &&& poly_set(l->0, m[i], va, vb)
    } else {
        &&& only_dron(a, m, i)
        &&& m[i].polyhedron == a[i].polyhedron
        &&& m[i].variant_map@ == assign_all(a[i].polyhedron, zeros(a[i].polyhedron.nf()), va)
        &&& vb == consumed(a[i].polyhedron, va)
    }
    &&& if p is None || fa {
        &&& fb == fa
        &&& only_dron(m, b, i)
        &&& b[i].variant_map == m[i].variant_map
        &&& path_cleared(m[i].polyhedron, b[i].polyhedron)
    } else if i < a.len() && a[i].reads_path(p) {
        &&& b == m
        &&& fb == fa
    } else {
        &&& only_dron(m, b, i)
        &&& b[i].variant_map == m[i].variant_map
        &&& exists|r: Result<(), usize>| #[trigger] m[i].polyhedron.applies(b[i].polyhedron, p->0, r) && fb == (r is Err)
    }
}

/// The pcbdrons go from `st[0]` through `st[k]` by the first `k` steps of
/// applying a design.
pub open spec fn design_run(
    st: Seq<Seq<Pcbdron>>,
    mid: Seq<Seq<Pcbdron>>,
    vs: Seq<Seq<(usize, Seq<usize>)>>,
    fl: Seq<bool>,
    k: int,
    names: Seq<String>,
    loaded: Seq<Option<Polyhedron>>,
    paths: Seq<PcbPath>,
) -> bool {
    &&& st.len() == k + 1
    &&& mid.len() == k
    &&& vs.len() == k + 1
    &&& fl.len() == k + 1
    &&& fl[0] == false
    &&& forall|i: int|
        0 <= i < k ==> #[trigger] design_step(
            st[i],
            mid[i],
            st[i + 1],
            i,
            names[i],
            loaded[i],
            path_at(paths, i),
            vs[i],
            vs[i + 1],
            fl[i],
            fl[i + 1],
        )
}

/// `res` is the design of the pcbdrons (see [`Pcboron::get_design`]).
pub open spec fn design_of(drons: Seq<Pcbdron>, res: PcBorsign) -> bool {
    &&& res.polyhedra@ == drons.map_values(|p: Pcbdron| p.polyhedron.name)
    &&& vmap_view(res.variant_map@) == designs_merged(drons)
    &&& reads_paths(drons, res.path@)
}

/// The first position of `x` in `s`.
pub open spec fn first_index(s: Seq<(usize, usize)>, x: (usize, usize)) -> Option<int>
    decreases s.len(),
{
    if s.len() == 0 {
        None
    } else {
        match first_index(s.drop_last(), x) {
            Some(j) => Some(j),
            None => if s.last() == x {
                Some(s.len() - 1)
            } else {
                None
            },
        }
    }
}

/// `first_index` finds the first position of `x`.
pub proof fn lemma_first_index(s: Seq<(usize, usize)>, x: (usize, usize), j: int)
    requires
        0 <= j <= s.len(),
        forall|k: int| 0 <= k < j ==> #[trigger] s[k] != x,
        j < s.len() ==> s[j] == x,
    ensures
        first_index(s, x) == if j < s.len() {
            Some(j)
        } else {
            None::<int>
        },
    decreases s.len(),
{
    if s.len() > 0 {
        let d = s.drop_last();
        if j < s.len() - 1 {
            assert forall|k: int| 0 <= k < j implies #[trigger] d[k] != x by {
                assert(d[k] == s[k]);
            }
            assert(d[j] == s[j]);
            lemma_first_index(d, x, j);
        } else {
            assert forall|k: int| 0 <= k < d.len() implies #[trigger] d[k] != x by {
                assert(d[k] == s[k]);
            }
            lemma_first_index(d, x, d.len() as int);
        }
    }
}

/// The first of `names` that a pcbdron is of.
pub open spec fn first_used(names: Seq<String>, drons: Seq<Pcbdron>, i: int) -> Option<int>
    decreases names.len() - i,
{
    if i < 0 || i >= names.len() {
        None
    } else if exists|d: int| 0 <= d < drons.len() && #[trigger] drons[d].polyhedron.name@ == names[i]@ {
        Some(i)
    } else {
        first_used(names, drons, i + 1)
    }
}

impl Pcboron {
    /// Every pcbdron is well formed.
    pub open spec fn wf(self) -> bool {
        forall|d: int| 0 <= d < self.pcbdrons@.len() ==> #[trigger] self.pcbdrons@[d].wf()
    }

    /// The number of pcbdrons.
    pub fn n(&self) -> (r: usize)
        ensures
            r == self.pcbdrons@.len(),
    {
        self.pcbdrons.len()
    }

    /// The pcbdrons, in order.
    pub fn pcbdrons(&self) -> (r: &[Pcbdron])
        ensures
            r@ == self.pcbdrons@,
    {
        self.pcbdrons.as_slice()
    }

    /// The board hit on screen: instance `instance_id` of board model
    /// `geometry_id` is the `instance_id`-th board of that model's kind.
    pub fn pick(&self, geometry_id: u32, instance_id: u32) -> (r: Option<VarId>)
        requires
            geometry_id < self.instance_map@.len(),
        ensures
            r == Some(VarId { nth_ngon: instance_id as usize, pcb_id: self.instance_map@[geometry_id as int] }),
    {
        let id = geometry_id as usize;
        let pcb_id = self.instance_map[id];
        Some(VarId { nth_ngon: instance_id as usize, pcb_id })
    }

    /// The faces with `ngon` sides over all pcbdrons, as (face, pcbdron).
    fn all_ngons(&self, ngon: usize) -> (r: Vec<(usize, usize)>)
        ensures
            r@ == ngon_faces(self.pcbdrons@, ngon),
    {
        let ghost sel = |p: Pcbdron| p.polyhedron.ngons(ngon as nat);
        let mut all: Vec<(usize, usize)> = Vec::new();
        let mut d: usize = 0;
        while d < self.pcbdrons.len()
            invariant
                0 <= d <= self.pcbdrons@.len(),
                sel == (|p: Pcbdron| p.polyhedron.ngons(ngon as nat)),
                all@ == tagged(self.pcbdrons@.subrange(0, d as int), sel),
            decreases self.pcbdrons@.len() - d,
        {
            let faces = self.pcbdrons[d].polyhedron.iter_ngon(ngon);
            let ghost before = all@;
            let mut t: usize = 0;
            while t < faces.len()
                invariant
                    0 <= t <= faces@.len(),
                    all@ == before + faces@.subrange(0, t as int).map_values(|f: usize| (f, d)),
                decreases faces@.len() - t,
            {
                all.push((faces[t], d));
                t += 1;
                proof {
                    assert(all@ =~= before + faces@.subrange(0, t as int).map_values(|f: usize| (f, d)));
                }
            }
            proof {
                lemma_tagged_step(self.pcbdrons@, sel, d as int);
                assert(faces@.subrange(0, t as int) =~= faces@);
                assert(sel(self.pcbdrons@[d as int]) == faces@);
            }
            d += 1;
        }
        proof {
            assert(self.pcbdrons@.subrange(0, d as int) =~= self.pcbdrons@);
        }
        all
    }

    /// The faces of kind `pcb_id` over all pcbdrons, as (face, pcbdron).
    fn all_of_kind(&self, pcb_id: PcbId) -> (r: Vec<(usize, usize)>)
        ensures
            r@ == kind_faces(self.pcbdrons@, pcb_id),
    {
        let ghost sel = |p: Pcbdron| p.of_kind(pcb_id);
        let mut all: Vec<(usize, usize)> = Vec::new();
        let mut d: usize = 0;
        while d < self.pcbdrons.len()
            invariant
                0 <= d <= self.pcbdrons@.len(),
                sel == (|p: Pcbdron| p.of_kind(pcb_id)),
                all@ == tagged(self.pcbdrons@.subrange(0, d as int), sel),
            decreases self.pcbdrons@.len() - d,
        {
            let faces = self.pcbdrons[d].iter_variant(pcb_id);
            let ghost before = all@;
            let mut t: usize = 0;
            while t < faces.len()
                invariant
                    0 <= t <= faces@.len(),
                    all@ == before + faces@.subrange(0, t as int).map_values(|f: usize| (f, d)),
                decreases faces@.len() - t,
            {
                all.push((faces[t], d));
                t += 1;
                proof {
                    assert(all@ =~= before + faces@.subrange(0, t as int).map_values(|f: usize| (f, d)));
                }
            }
            proof {
                lemma_tagged_step(self.pcbdrons@, sel, d as int);
                assert(faces@.subrange(0, t as int) =~= faces@);
                assert(sel(self.pcbdrons@[d as int]) == faces@);
            }
            d += 1;
        }
        proof {
            assert(self.pcbdrons@.subrange(0, d as int) =~= self.pcbdrons@);
        }
        all
    }

    /// The `nth_ngon`-th face with `ngon` sides over all pcbdrons, as
    /// (face, pcbdron).
    pub fn nth_ngon(&self, ngon: usize, nth_ngon: usize) -> (r: Option<(usize, usize)>)
        ensures
            r == if nth_ngon < ngon_faces(self.pcbdrons@, ngon).len() {
                Some(ngon_faces(self.pcbdrons@, ngon)[nth_ngon as int])
            } else {
                None
            },
    {
        let all = self.all_ngons(ngon);
        if nth_ngon < all.len() {
            Some(all[nth_ngon])
        } else {
            None
        }
    }

    /// Where the `nth_ngon`-th board of a kind is, over all pcbdrons.
    pub fn varid_to_fidx(&self, varid: VarId) -> (r: Option<Fidx>)
        ensures
            r == if varid.nth_ngon < kind_faces(self.pcbdrons@, varid.pcb_id).len() {
                let e = kind_faces(self.pcbdrons@, varid.pcb_id)[varid.nth_ngon as int];
                Some(Fidx { fidx: e.0, dridx: e.1 })
            } else {
                None
            },
    {
        let all = self.all_of_kind(varid.pcb_id);
        if varid.nth_ngon < all.len() {
            let (fidx, dridx) = all[varid.nth_ngon];
            Some(Fidx { fidx, dridx })
        } else {
            None
        }
    }

    /// Give face `fidx` of pcbdron `dridx` variant `variant`.
    fn set_face_variant(&mut self, dridx: usize, fidx: usize, variant: usize)
        requires
            dridx < old(self).pcbdrons@.len(),
            fidx < old(self).pcbdrons@[dridx as int].variant_map@.len(),
        ensures
            face_set(old(self).pcbdrons@, final(self).pcbdrons@, dridx as int, fidx as int, variant),
            final(self).instance_map == old(self).instance_map,
            old(self).wf() ==> final(self).wf(),
    {
        let ghost s0 = *self;
        let mut dron = self.pcbdrons.remove(dridx);
        dron.variant_map.set(fidx, variant);
        self.pcbdrons.insert(dridx, dron);
        proof {
            if s0.wf() {
                assert forall|d: int| 0 <= d < self.pcbdrons@.len() implies #[trigger] self.pcbdrons@[d].wf() by {
                    assert(s0.pcbdrons@[d].wf());
                }
            }
        }
    }

    /// Set the given ngon to this variant: the `nth_ngon`-th face with `ngon`
    /// sides over all pcbdrons; nothing happens when there is none.
    pub fn set_variant(&mut self, ngon: usize, nth_ngon: usize, variant: usize)
        requires
            old(self).wf(),
        ensures
            final(self).wf(),
            final(self).instance_map == old(self).instance_map,
            nth_ngon >= ngon_faces(old(self).pcbdrons@, ngon).len() ==> final(self).pcbdrons == old(self).pcbdrons,
            nth_ngon < ngon_faces(old(self).pcbdrons@, ngon).len() ==> {
                let e = ngon_faces(old(self).pcbdrons@, ngon)[nth_ngon as int];
                face_set(old(self).pcbdrons@, final(self).pcbdrons@, e.1 as int, e.0 as int, variant)
            },
    {
        let Some((fidx, dridx)) = self.nth_ngon(ngon, nth_ngon) else {
            return;
        };
        proof {
            let sel = |p: Pcbdron| p.polyhedron.ngons(ngon as nat);
            broadcast use vstd::std_specs::vec::axiom_spec_len;
            assert(self.pcbdrons.len() == self.pcbdrons@.len());
            lemma_tagged(self.pcbdrons@, sel, nth_ngon as int);
            let dron = self.pcbdrons@[dridx as int];
            assert(dron.wf());
            let t = choose|t: int| 0 <= t < sel(dron).len() && #[trigger] sel(dron)[t] == fidx;
            dron.polyhedron.lemma_nth_ngon(ngon as nat, t);
        }
        self.set_face_variant(dridx, fidx, variant);
    }

    /// Give the `nth_ngon`-th board of a kind, over all pcbdrons, variant
    /// `new_var`; nothing happens when there is none.
    pub fn put_variant(&mut self, varid: VarId, new_var: usize)
        requires
            old(self).wf(),
        ensures
            final(self).wf(),
            final(self).instance_map == old(self).instance_map,
            varid.nth_ngon >= kind_faces(old(self).pcbdrons@, varid.pcb_id).len() ==> final(self).pcbdrons
                == old(self).pcbdrons,
            varid.nth_ngon < kind_faces(old(self).pcbdrons@, varid.pcb_id).len() ==> {
                let e = kind_faces(old(self).pcbdrons@, varid.pcb_id)[varid.nth_ngon as int];
                face_set(old(self).pcbdrons@, final(self).pcbdrons@, e.1 as int, e.0 as int, new_var)
            },
    {
        let Some(Fidx { dridx, fidx }) = self.varid_to_fidx(varid) else {
            return;
        };
        proof {
            let sel = |p: Pcbdron| p.of_kind(varid.pcb_id);
            broadcast use vstd::std_specs::vec::axiom_spec_len;
            assert(self.pcbdrons.len() == self.pcbdrons@.len());
            lemma_tagged(self.pcbdrons@, sel, varid.nth_ngon as int);
            let dron = self.pcbdrons@[dridx as int];
            assert(dron.wf());
            let t = choose|t: int| 0 <= t < sel(dron).len() && #[trigger] sel(dron)[t] == fidx;
            lemma_of_kind_bound(dron.polyhedron.faces@, dron.variant_map@, varid.pcb_id, dron.polyhedron.nf(), t);
        }
        self.set_face_variant(dridx, fidx, new_var);
    }

    /// Whether pcbdron `i` has an open path.
    fn open_at(&self, i: usize) -> (r: bool)
        requires
            i < self.pcbdrons@.len(),
            self.pcbdrons@[i as int].wf(),
        ensures
            r == open_path(self.pcbdrons@[i as int]),
    {
        let p = &self.pcbdrons[i].polyhedron;
        let c = p.path_complete_questionmark();
        proof {
            assert(p.fpi().len() == p.nf());
            assert(c == p.complete()) by {
                if c {
                    assert forall|f: int| 0 <= f < p.nf() implies #[trigger] p.visited(f) by {
                        assert(p.fpi()[f].len() > 0);
                    }
                }
                if p.complete() {
                    assert forall|f: int| 0 <= f < p.fpi().len() implies #[trigger] p.fpi()[f].len() > 0 by {
                        assert(p.visited(f));
                    }
                }
            }
        }
        p.edge_path.len() > 0 && !c
    }

    /// Whether the path of pcbdron `i` does not cover it yet.
    fn incomplete_at(&self, i: usize) -> (r: bool)
        requires
            i < self.pcbdrons@.len(),
            self.pcbdrons@[i as int].wf(),
        ensures
            r == incomplete(self.pcbdrons@[i as int]),
    {
        let p = &self.pcbdrons[i].polyhedron;
        let c = p.path_complete_questionmark();
        proof {
            assert(p.fpi().len() == p.nf());
            assert(c == p.complete()) by {
                if c {
                    assert forall|f: int| 0 <= f < p.nf() implies #[trigger] p.visited(f) by {
                        assert(p.fpi()[f].len() > 0);
                    }
                }
                if p.complete() {
                    assert forall|f: int| 0 <= f < p.fpi().len() implies #[trigger] p.fpi()[f].len() > 0 by {
                        assert(p.visited(f));
                    }
                }
            }
        }
        !c
    }

    /// Complete the path of the first pcbdron whose path is started but does
    /// not cover it (see [`Polyhedron::complete_path`]).
    pub fn complete_path(&mut self)
        requires
            old(self).wf(),
        ensures
            final(self).wf(),
            final(self).instance_map == old(self).instance_map,
            match first_from(old(self).pcbdrons@, |p: Pcbdron| open_path(p), 0) {
                None => final(self).pcbdrons == old(self).pcbdrons,
                Some(d) => {
                    &&& only_dron(old(self).pcbdrons@, final(self).pcbdrons@, d)
                    &&& final(self).pcbdrons@[d].variant_map == old(self).pcbdrons@[d].variant_map
                    &&& (old(self).pcbdrons@[d].polyhedron.completes(final(self).pcbdrons@[d].polyhedron, true)
                        || old(self).pcbdrons@[d].polyhedron.completes(final(self).pcbdrons@[d].polyhedron, false))
                },
            },
    {
        let ghost s0 = *self;
        let ghost pred = |p: Pcbdron| open_path(p);
        let mut i: usize = 0;
        while i < self.pcbdrons.len() && !self.open_at(i)
            invariant
                *self == s0,
                s0.wf(),
                pred == (|p: Pcbdron| open_path(p)),
                0 <= i <= self.pcbdrons@.len(),
                forall|k: int| 0 <= k < i ==> !pred(#[trigger] self.pcbdrons@[k]),
            decreases self.pcbdrons@.len() - i,
        {
            i += 1;
        }
        proof {
            lemma_first_from(s0.pcbdrons@, pred, 0, i as int);
        }
        if i < self.pcbdrons.len() {
            proof {
                assert(s0.pcbdrons@[i as int].wf());
            }
            let mut dron = self.pcbdrons.remove(i);
            let ghost d0 = dron;
            let found = dron.polyhedron.complete_path();
            proof {
                d0.polyhedron.lemma_completes_faces(dron.polyhedron, found);
            }
            self.pcbdrons.insert(i, dron);
            proof {
                assert forall|d: int| 0 <= d < self.pcbdrons@.len() implies #[trigger] self.pcbdrons@[d].wf() by {
                    if d != i {
                        assert(s0.pcbdrons@[d].wf());
                    }
                }
            }
        }
    }

    /// Add a face to the path by hand: the `nth_ngon`-th board of a kind over
    /// all pcbdrons (see [`Polyhedron::add_face_to_path`]). When that starts
    /// the path of the first pcbdron, its face becomes the controller; the
    /// controller board is returned then. Nothing happens when there is no
    /// such board.
    pub fn add_face_to_path(&mut self, varid: VarId) -> (r: Option<VarId>)
        requires
            old(self).wf(),
        ensures
            final(self).wf(),
            final(self).instance_map == old(self).instance_map,
            varid.nth_ngon >= kind_faces(old(self).pcbdrons@, varid.pcb_id).len() ==> final(self).pcbdrons
                == old(self).pcbdrons && r is None,
            varid.nth_ngon < kind_faces(old(self).pcbdrons@, varid.pcb_id).len() ==> {
                let e = kind_faces(old(self).pcbdrons@, varid.pcb_id)[varid.nth_ngon as int];
                let d = e.1 as int;
                let od = old(self).pcbdrons@[d];
                let nd = final(self).pcbdrons@[d];
                let c = if od.polyhedron.edge_path@.len() == 0 {
                    Some(e.0)
                } else {
                    None
                };
                &&& only_dron(old(self).pcbdrons@, final(self).pcbdrons@, d)
                &&& od.polyhedron.adds_face(nd.polyhedron, e.0, c)
                &&& (d == 0 && c is Some) ==> (Pcbdron { polyhedron: nd.polyhedron, variant_map: od.variant_map }).sets_controller(nd, e.0, r)
                &&& !(d == 0 && c is Some) ==> nd.variant_map == od.variant_map && r is None
            },
    {
        let ghost s0 = *self;
        let Some(Fidx { dridx: pidx, fidx }) = self.varid_to_fidx(varid) else {
            return None;
        };
        proof {
            let sel = |p: Pcbdron| p.of_kind(varid.pcb_id);
            broadcast use vstd::std_specs::vec::axiom_spec_len;
            assert(self.pcbdrons.len() == self.pcbdrons@.len());
            lemma_tagged(self.pcbdrons@, sel, varid.nth_ngon as int);
            let dron = self.pcbdrons@[pidx as int];
            assert(dron.wf());
            let t = choose|t: int| 0 <= t < sel(dron).len() && #[trigger] sel(dron)[t] == fidx;
            lemma_of_kind_bound(dron.polyhedron.faces@, dron.variant_map@, varid.pcb_id, dron.polyhedron.nf(), t);
        }
        let mut dron = self.pcbdrons.remove(pidx);
        let ghost d0 = dron;
        let added = dron.polyhedron.add_face_to_path(fidx);
        let ghost d1 = dron;
        let mut res: Option<VarId> = None;
        if let Some(cidx) = added {
            if pidx == 0 {
                proof {
                    assert(d0.polyhedron.faces_equiv(d1.polyhedron));
                    assert(d1.wf());
                }
                res = dron.set_controller(cidx);
            }
        }
        self.pcbdrons.insert(pidx, dron);
        proof {
            assert(d0.polyhedron.faces_equiv(d1.polyhedron));
            assert forall|d: int| 0 <= d < self.pcbdrons@.len() implies #[trigger] self.pcbdrons@[d].wf() by {
                if d != pidx {
                    assert(s0.pcbdrons@[d].wf());
                }
            }
        }
        res
    }

    /// Push a new move onto the path of the first pcbdron that is not covered
    /// yet (see [`Polyhedron::path_jump`]). When that starts the path of the
    /// first pcbdron, its start face becomes the controller; the controller
    /// board is returned then.
    pub fn path_jump(&mut self, jumps: usize) -> (r: Option<VarId>)
        requires
            old(self).wf(),
            match first_from(old(self).pcbdrons@, |p: Pcbdron| incomplete(p), 0) {
                Some(d) => {
                    let p = old(self).pcbdrons@[d].polyhedron;
                    p.edge_path@.len() > 0 && !Polyhedron::on_path_before(
                        p.edge_path@,
                        p.edge_path@.len() - 1,
                        p.edge_path@.last().face_idx as int,
                    ) ==> jumps < usize::MAX - 1
                },
                None => true,
            },
        ensures
            final(self).wf(),
            final(self).instance_map == old(self).instance_map,
            match first_from(old(self).pcbdrons@, |p: Pcbdron| incomplete(p), 0) {
                None => final(self).pcbdrons == old(self).pcbdrons && r is None,
                Some(d) => {
                    let od = old(self).pcbdrons@[d];
                    let nd = final(self).pcbdrons@[d];
                    let tri = od.polyhedron.ngons(3);
                    let c = if od.polyhedron.edge_path@.len() == 0 && tri.len() > 0 {
                        Some(tri[(jumps as int) % (tri.len() as int)])
                    } else {
                        None
                    };
                    &&& only_dron(old(self).pcbdrons@, final(self).pcbdrons@, d)
                    &&& od.polyhedron.jumps_to(nd.polyhedron, jumps, c)
                    &&& (d == 0 && c is Some) ==> (Pcbdron { polyhedron: nd.polyhedron, variant_map: od.variant_map }).sets_controller(nd, c->0, r)
                    &&& !(d == 0 && c is Some) ==> nd.variant_map == od.variant_map && r is None
                },
            },
    {
        let ghost s0 = *self;
        let ghost pred = |p: Pcbdron| incomplete(p);
        let mut i: usize = 0;
        while i < self.pcbdrons.len() && !self.incomplete_at(i)
            invariant
                *self == s0,
                s0.wf(),
                pred == (|p: Pcbdron| incomplete(p)),
                0 <= i <= self.pcbdrons@.len(),
                forall|k: int| 0 <= k < i ==> !pred(#[trigger] self.pcbdrons@[k]),
            decreases self.pcbdrons@.len() - i,
        {
            i += 1;
        }
        proof {
            lemma_first_from(s0.pcbdrons@, pred, 0, i as int);
        }
        if i >= self.pcbdrons.len() {
            return None;
        }
        proof {
            assert(s0.pcbdrons@[i as int].wf());
        }
        let mut dron = self.pcbdrons.remove(i);
        let ghost d0 = dron;
        let jumped = dron.polyhedron.path_jump(jumps);
        let ghost d1 = dron;
        let mut res: Option<VarId> = None;
        if let Some(fidx) = jumped {
            if i == 0 {
                proof {
                    assert(d0.polyhedron.faces_equiv(d1.polyhedron));
                    assert(d1.wf());
                }
                res = dron.set_controller(fidx);
            }
        }
        self.pcbdrons.insert(i, dron);
        proof {
            assert(d0.polyhedron.faces_equiv(d1.polyhedron));
            assert forall|d: int| 0 <= d < self.pcbdrons@.len() implies #[trigger] self.pcbdrons@[d].wf() by {
                if d != i {
                    assert(s0.pcbdrons@[d].wf());
                }
            }
        }
        res
    }

    /// pop the last crossing from the path of the last pcbdron that has a
    /// path (see [`Polyhedron::pop_path`]); the face of the crossing that is
    /// then last on that pcbdron, if any.
    ///
    /// Paths are linear, so only the last path may shrink.
    pub fn pop_path(&mut self) -> (r: Option<Fidx>)
        requires
            old(self).wf(),
        ensures
            final(self).wf(),
            final(self).instance_map == old(self).instance_map,
            match last_where(old(self).pcbdrons@, |p: Pcbdron| has_path(p)) {
                None => final(self).pcbdrons == old(self).pcbdrons && r is None,
                Some(d) => {
                    let od = old(self).pcbdrons@[d];
                    let nd = final(self).pcbdrons@[d];
                    &&& only_dron(old(self).pcbdrons@, final(self).pcbdrons@, d)
                    &&& nd.variant_map == od.variant_map
                    &&& od.polyhedron.pops(nd.polyhedron, match r {
                        Some(x) => Some(x.fidx),
                        None => None,
                    })
                    &&& r matches Some(x) ==> x.dridx == d
                },
            },
    {
        let ghost s0 = *self;
        let ghost pred = |p: Pcbdron| has_path(p);
        let mut i: usize = self.pcbdrons.len();
        while i > 0 && self.pcbdrons[i - 1].polyhedron.edge_path.len() == 0
            invariant
                *self == s0,
                s0.wf(),
                pred == (|p: Pcbdron| has_path(p)),
                0 <= i <= self.pcbdrons@.len(),
                forall|k: int| i <= k < self.pcbdrons@.len() ==> !pred(#[trigger] self.pcbdrons@[k]),
            decreases i,
        {
            i -= 1;
        }
        proof {
            lemma_last_where(s0.pcbdrons@, pred, i - 1);
        }
        if i == 0 {
            return None;
        }
        let dridx = i - 1;
        proof {
            assert(s0.pcbdrons@[dridx as int].wf());
            assert(s0.pcbdrons@[dridx as int].polyhedron.crossing_ok(
                s0.pcbdrons@[dridx as int].polyhedron.edge_path@.len() - 1,
            ));
        }
        let mut dron = self.pcbdrons.remove(dridx);
        let popped = dron.polyhedron.pop_path();
        self.pcbdrons.insert(dridx, dron);
        proof {
            assert forall|d: int| 0 <= d < self.pcbdrons@.len() implies #[trigger] self.pcbdrons@[d].wf() by {
                if d != dridx {
                    assert(s0.pcbdrons@[d].wf());
                }
            }
        }
        match popped {
            Some(fidx) => Some(Fidx { fidx, dridx }),
            None => None,
        }
    }

    /// The paths of the pcbdrons that have one, in order, as far as each reads.
    pub fn get_path(&self) -> (r: PcbPaths)
        requires
            self.wf(),
        ensures
            reads_paths(self.pcbdrons@, r.0@),
    {
        let mut paths: Vec<PcbPath> = Vec::new();
        let mut d: usize = 0;
        while d < self.pcbdrons.len()
            invariant
                self.wf(),
                0 <= d <= self.pcbdrons@.len(),
                reads_paths(self.pcbdrons@.subrange(0, d as int), paths@),
            decreases self.pcbdrons@.len() - d,
        {
            proof {
                assert(self.pcbdrons@[d as int].wf());
                self.pcbdrons@[d as int].polyhedron.lemma_path_readable();
            }
            let cur = self.pcbdrons[d].current_path();
            let ghost before = paths@;
            let ghost pre = self.pcbdrons@.subrange(0, d as int);
            let ghost nxt = self.pcbdrons@.subrange(0, d + 1);
            proof {
                assert(nxt.drop_last() =~= pre);
                lemma_with_path(pre);
                assert forall|j: int| 0 <= j < pre.len() implies #[trigger] nxt[j] == pre[j] by {}
            }
            if let Some(p) = cur {
                paths.push(p);
                proof {
                    assert(with_path(nxt) == with_path(pre).push(d as int));
                    assert forall|k: int| 0 <= k < paths@.len() implies #[trigger] nxt[with_path(nxt)[k]].reads_path(
                        Some(paths@[k]),
                    ) by {
                        if k < before.len() {
                            assert(with_path(nxt)[k] == with_path(pre)[k]);
                            assert(pre[with_path(pre)[k]].reads_path(Some(before[k])));
                        }
                    }
                }
            } else {
                proof {
                    assert(with_path(nxt) == with_path(pre));
                    assert forall|k: int| 0 <= k < paths@.len() implies #[trigger] nxt[with_path(nxt)[k]].reads_path(
                        Some(paths@[k]),
                    ) by {
                        assert(pre[with_path(pre)[k]].reads_path(Some(before[k])));
                    }
                }
            }
            d += 1;
        }
        proof {
            assert(self.pcbdrons@.subrange(0, d as int) =~= self.pcbdrons@);
        }
        PcbPaths::from(paths)
    }

    /// The design of the whole lamp: the designs of the pcbdrons collected in
    /// order (see [`PcBorsign::add`]).
    pub fn get_design(&self) -> (r: PcBorsign)
        requires
            self.wf(),
        ensures
            design_of(self.pcbdrons@, r),
    {
        let mut sign = PcBorsign::default();
        let mut d: usize = 0;
        proof {
            assert(sign.polyhedra@ =~= self.pcbdrons@.subrange(0, 0).map_values(|p: Pcbdron| p.polyhedron.name));
        }
        while d < self.pcbdrons.len()
            invariant
                self.wf(),
                0 <= d <= self.pcbdrons@.len(),
                sign.polyhedra@ == self.pcbdrons@.subrange(0, d as int).map_values(|p: Pcbdron| p.polyhedron.name),
                vmap_view(sign.variant_map@) == designs_merged(self.pcbdrons@.subrange(0, d as int)),
                reads_paths(self.pcbdrons@.subrange(0, d as int), sign.path@),
            decreases self.pcbdrons@.len() - d,
        {
            proof {
                assert(self.pcbdrons@[d as int].wf());
            }
            let ds = self.pcbdrons[d].get_design();
            let ghost dpath = ds.path;
            let ghost before = sign.path@;
            let ghost pre = self.pcbdrons@.subrange(0, d as int);
            let ghost nxt = self.pcbdrons@.subrange(0, d + 1);
            sign = sign.add(ds);
            proof {
                assert(nxt.drop_last() =~= pre);
                assert(nxt.last() == self.pcbdrons@[d as int]);
                assert(sign.polyhedra@ =~= nxt.map_values(|p: Pcbdron| p.polyhedron.name));
                lemma_with_path(pre);
                assert forall|j: int| 0 <= j < pre.len() implies #[trigger] nxt[j] == pre[j] by {}
                if has_path(self.pcbdrons@[d as int]) {
                    assert(with_path(nxt) == with_path(pre).push(d as int));
                    assert forall|k: int| 0 <= k < sign.path@.len() implies #[trigger] nxt[with_path(nxt)[k]].reads_path(
                        Some(sign.path@[k]),
                    ) by {
                        if k < before.len() {
                            assert(with_path(nxt)[k] == with_path(pre)[k]);
                            assert(pre[with_path(pre)[k]].reads_path(Some(before[k])));
                        }
                    }
                } else {
                    assert(with_path(nxt) == with_path(pre));
                    assert forall|k: int| 0 <= k < sign.path@.len() implies #[trigger] nxt[with_path(nxt)[k]].reads_path(
                        Some(sign.path@[k]),
                    ) by {
                        assert(pre[with_path(pre)[k]].reads_path(Some(before[k])));
                    }
                }
            }
            d += 1;
        }
        proof {
            assert(self.pcbdrons@.subrange(0, d as int) =~= self.pcbdrons@);
        }
        sign
    }

    /// Remove all pcbdrons and set the lamp to this single one: pcbdron
    /// `nth` takes the polyhedron (see [`Pcbdron::set_poly`]) and is the only
    /// one left.
    pub fn set_pcbdron(&mut self, polyhedron: Polyhedron, variant_map: &mut VariantMap, nth: usize) -> (r: Result<(), PcboronError>)
        requires
            old(self).wf(),
            nth < old(self).pcbdrons@.len(),
            polyhedron.wf(),
        ensures
            r is Ok,
            final(self).wf(),
            final(self).instance_map == old(self).instance_map,
            final(self).pcbdrons@.len() == 1,
            poly_set(polyhedron, final(self).pcbdrons@[0], vmap_view(old(variant_map)@), vmap_view(final(variant_map)@)),
    {
        let mut dron = self.pcbdrons.remove(nth);
        dron.set_poly(polyhedron, variant_map);
        self.pcbdrons = Vec::new();
        self.pcbdrons.push(dron);
        Ok(())
    }

    /// Add a pcbdron of this polyhedron at the end, every face with variant 0.
    pub fn push_polyhedron(&mut self, polyhedron: Polyhedron)
        requires
            old(self).wf(),
            polyhedron.path_inv(),
        ensures
            final(self).wf(),
            final(self).instance_map == old(self).instance_map,
            final(self).pcbdrons@.len() == old(self).pcbdrons@.len() + 1,
            forall|d: int| 0 <= d < old(self).pcbdrons@.len() ==> #[trigger] final(self).pcbdrons@[d] == old(self).pcbdrons@[d],
            final(self).pcbdrons@.last().polyhedron == polyhedron,
            final(self).pcbdrons@.last().variant_map@ == zeros(polyhedron.nf()),
    {
        let ghost s0 = *self;
        let mut empty: VariantMap = Vec::new();
        let dron = Pcbdron::new(polyhedron, &mut empty);
        self.pcbdrons.push(dron);
        proof {
            assert(vmap_view(Seq::<(usize, Vec<usize>)>::empty()) =~= Seq::empty());
            assert forall|d: int| 0 <= d < self.pcbdrons@.len() implies #[trigger] self.pcbdrons@[d].wf() by {
                if d < s0.pcbdrons@.len() {
                    assert(s0.pcbdrons@[d].wf());
                }
            }
        }
    }

    /// Take the last pcbdron off.
    pub fn pop_polyhedron(&mut self) -> (r: Option<Pcbdron>)
        requires
            old(self).wf(),
        ensures
            final(self).wf(),
            final(self).instance_map == old(self).instance_map,
            old(self).pcbdrons@.len() == 0 ==> r is None && final(self).pcbdrons@.len() == 0,
            old(self).pcbdrons@.len() > 0 ==> r == Some(old(self).pcbdrons@.last())
                && final(self).pcbdrons@ == old(self).pcbdrons@.drop_last(),
    {
        let ghost s0 = *self;
        let p = self.pcbdrons.pop();
        proof {
            assert forall|d: int| 0 <= d < self.pcbdrons@.len() implies #[trigger] self.pcbdrons@[d].wf() by {
                assert(s0.pcbdrons@[d].wf());
            }
        }
        p
    }

    /// Per n-gon, the variants used on faces with that many sides (from 3 to
    /// 10) that have no board model, each once; `pcbs[n][v]` tells whether
    /// variant `v` of the `n`-gon board has a model.
    pub fn missing_variants(&self, pcbs: &Vec<Vec<bool>>) -> (r: Vec<Vec<usize>>)
        requires
            self.wf(),
        ensures
            r@.len() == pcbs@.len(),
            forall|n: int|
                0 <= n < pcbs@.len() ==> #[trigger] r@[n]@ == if 3 <= n <= 10 {
                    missing_in(pcbs@[n]@, all_ngon_variants(self.pcbdrons@, n as nat))
                } else {
                    Seq::<usize>::empty()
                },
    {
        let mut missing: Vec<Vec<usize>> = Vec::new();
        let mut k: usize = 0;
        while k < pcbs.len()
            invariant
                0 <= k <= pcbs@.len(),
                missing@.len() == k,
                forall|n: int| 0 <= n < k ==> #[trigger] missing@[n]@ == Seq::<usize>::empty(),
            decreases pcbs@.len() - k,
        {
            missing.push(Vec::new());
            k += 1;
        }
        let mut n_gon: usize = 3;
        while n_gon <= 10
            invariant
                self.wf(),
                3 <= n_gon <= 11,
                missing@.len() == pcbs@.len(),
                forall|n: int|
                    0 <= n < pcbs@.len() ==> #[trigger] missing@[n]@ == if 3 <= n < n_gon {
                        missing_in(pcbs@[n]@, all_ngon_variants(self.pcbdrons@, n as nat))
                    } else {
                        Seq::<usize>::empty()
                    },
            decreases 11 - n_gon,
        {
            if n_gon < pcbs.len() {
                let avail = &pcbs[n_gon];
                let mut m: Vec<usize> = Vec::new();
                let mut d: usize = 0;
                while d < self.pcbdrons.len()
                    invariant
                        self.wf(),
                        avail@ == pcbs@[n_gon as int]@,
                        0 <= d <= self.pcbdrons@.len(),
                        m@ == missing_in(avail@, all_ngon_variants(self.pcbdrons@.subrange(0, d as int), n_gon as nat)),
                    decreases self.pcbdrons@.len() - d,
                {
                    proof {
                        assert(self.pcbdrons@[d as int].wf());
                    }
                    let dron = &self.pcbdrons[d];
                    let faces = dron.polyhedron.iter_ngon(n_gon);
                    let ghost pre = all_ngon_variants(self.pcbdrons@.subrange(0, d as int), n_gon as nat);
                    let mut t: usize = 0;
                    while t < faces.len()
                        invariant
                            dron.wf(),
                            faces@ == dron.polyhedron.ngons(n_gon as nat),
                            0 <= t <= faces@.len(),
                            m@ == missing_in(avail@, pre + dron.ngon_variants(n_gon as nat).subrange(0, t as int)),
                        decreases faces@.len() - t,
                    {
                        proof {
                            dron.polyhedron.lemma_nth_ngon(n_gon as nat, t as int);
                        }
                        let var = dron.variant_map[faces[t]];
                        let ghost vs = pre + dron.ngon_variants(n_gon as nat).subrange(0, t as int);
                        let ghost vs1 = pre + dron.ngon_variants(n_gon as nat).subrange(0, t + 1);
                        proof {
                            assert(vs1.drop_last() =~= vs);
                            assert(vs1.last() == var);
                        }
                        let absent_now = var >= avail.len() || !avail[var];
                        if absent_now {
                            let mut j: usize = 0;
                            while j < m.len() && m[j] != var
                                invariant
                                    0 <= j <= m@.len(),
                                    forall|u: int| 0 <= u < j ==> m@[u] != var,
                                decreases m@.len() - j,
                            {
                                j += 1;
                            }
                            if j == m.len() {
                                m.push(var);
                            }
                        }
                        t += 1;
                    }
                    proof {
                        let nxt = self.pcbdrons@.subrange(0, d + 1);
                        assert(nxt.drop_last() =~= self.pcbdrons@.subrange(0, d as int));
                        assert(dron.ngon_variants(n_gon as nat).subrange(0, t as int) =~= dron.ngon_variants(n_gon as nat));
                    }
                    d += 1;
                }
                proof {
                    assert(self.pcbdrons@.subrange(0, d as int) =~= self.pcbdrons@);
                }
                missing.set(n_gon, m);
            }
            n_gon += 1;
        }
        missing
    }

    /// The path as it is drawn: per pcbdron up to the first one without a
    /// path, one arrow per crossing, coloured by step along the magma
    /// gradient. The last crossing points from its enter edge to the face
    /// centre, the first crossing of a controller face from the centre to
    /// its exit edge, and the others from edge to edge.
    pub fn debug_path(&self) -> (r: DebugPath)
        requires
            self.wf(),
        ensures
            r.drons == if first_pathless(self.pcbdrons@) < self.pcbdrons@.len() {
                first_pathless(self.pcbdrons@) + 1
            } else {
                self.pcbdrons@.len() as int
            },
            r.arrows@ == arrows_upto(self.pcbdrons@, first_pathless(self.pcbdrons@)),
    {
        let ghost pred = |p: Pcbdron| !has_path(p);
        let mut arrows: Vec<PathArrow> = Vec::new();
        let mut d: usize = 0;
        while d < self.pcbdrons.len() && self.pcbdrons[d].polyhedron.edge_path.len() > 0
            invariant
                self.wf(),
                pred == (|p: Pcbdron| !has_path(p)),
                0 <= d <= self.pcbdrons@.len(),
                forall|k: int| 0 <= k < d ==> !pred(#[trigger] self.pcbdrons@[k]),
                arrows@ == arrows_upto(self.pcbdrons@, d as int),
            decreases self.pcbdrons@.len() - d,
        {
            let dron = &self.pcbdrons[d];
            proof {
                assert(dron.wf());
            }
            let len = dron.polyhedron.edge_path.len();
            let imax = len - 1;
            let n = if imax >= 1 { imax } else { 1 };
            let ghost before = arrows@;
            let mut i: usize = 0;
            while i < len
                invariant
                    d < self.pcbdrons@.len(),
                    dron == self.pcbdrons@[d as int],
                    dron.wf(),
                    len == dron.polyhedron.edge_path@.len(),
                    len > 0,
                    imax == len - 1,
                    n == if imax >= 1 { imax } else { 1 },
                    0 <= i <= len,
                    arrows@ == before + Seq::new(i as nat, |k: int| arrow_at(self.pcbdrons@, d as int, k)),
                decreases len - i,
            {
                let c = dron.polyhedron.edge_path[i];
                proof {
                    assert(dron.polyhedron.crossing_ok(i as int));
                }
                let kind = if i == imax {
                    ArrowKind::EnterToCentre
                } else if i == 0 && VarFlags::Controller.has(dron.variant_map[c.face_idx]) {
                    ArrowKind::CentreToExit
                } else {
                    ArrowKind::EdgeToEdge
                };
                let color = magma(i, n);
                let link_next = i == imax && c.exit.start as usize == c.face_idx && d < self.pcbdrons.len() - 1;
                arrows.push(PathArrow { dron: d, step: i, kind, color, link_next });
                i += 1;
                proof {
                    assert(arrows@ =~= before + Seq::new(i as nat, |k: int| arrow_at(self.pcbdrons@, d as int, k)));
                }
            }
            d += 1;
        }
        proof {
            lemma_first_from(self.pcbdrons@, pred, 0, d as int);
        }
        let drons = if d < self.pcbdrons.len() {
            d + 1
        } else {
            d
        };
        DebugPath { drons, arrows }
    }

    /// Which positions of a design need a loaded polyhedron.
    pub fn loads_needed(&self, design: &PcBorsign) -> (r: Vec<bool>)
        ensures
            r@.len() == design.polyhedra@.len(),
            forall|i: int| 0 <= i < r@.len() ==> #[trigger] r@[i] == needs_load(self.pcbdrons@, i, design.polyhedra@[i]),
    {
        let mut r: Vec<bool> = Vec::new();
        let mut i: usize = 0;
        while i < design.polyhedra.len()
            invariant
                0 <= i <= design.polyhedra@.len(),
                r@.len() == i,
                forall|j: int| 0 <= j < i ==> #[trigger] r@[j] == needs_load(self.pcbdrons@, j, design.polyhedra@[j]),
            decreases design.polyhedra@.len() - i,
        {
            let need = if i >= self.pcbdrons.len() {
                true
            } else {
                !(design.polyhedra[i] == self.pcbdrons[i].polyhedron.name)
            };
            r.push(need);
            i += 1;
        }
        r
    }

    /// Clear the path of pcbdron `d`.
    fn clear_dron_path(&mut self, d: usize)
        requires
            d < old(self).pcbdrons@.len(),
        ensures
            only_dron(old(self).pcbdrons@, final(self).pcbdrons@, d as int),
            final(self).pcbdrons@[d as int].variant_map == old(self).pcbdrons@[d as int].variant_map,
            path_cleared(old(self).pcbdrons@[d as int].polyhedron, final(self).pcbdrons@[d as int].polyhedron),
            final(self).instance_map == old(self).instance_map,
            old(self).wf() ==> final(self).wf(),
    {
        let ghost s0 = *self;
        let mut dron = self.pcbdrons.remove(d);
        dron.polyhedron.clear_path();
        self.pcbdrons.insert(d, dron);
        proof {
            if s0.wf() {
                assert(s0.pcbdrons@[d as int].wf());
                assert forall|e: int| 0 <= e < self.pcbdrons@.len() implies #[trigger] self.pcbdrons@[e].wf() by {
                    if e != d {
                        assert(s0.pcbdrons@[e].wf());
                    }
                }
            }
        }
    }

    /// Apply a path to pcbdron `d`.
    fn update_dron_path(&mut self, d: usize, path: &PcbPath) -> (r: Result<(), usize>)
        requires
            d < old(self).pcbdrons@.len(),
            old(self).wf(),
            forall|j: int| 0 <= j < path.turns@.len() ==> #[trigger] path.turns@[j] < usize::MAX - 1,
        ensures
            only_dron(old(self).pcbdrons@, final(self).pcbdrons@, d as int),
            final(self).pcbdrons@[d as int].variant_map == old(self).pcbdrons@[d as int].variant_map,
            old(self).pcbdrons@[d as int].polyhedron.applies(final(self).pcbdrons@[d as int].polyhedron, *path, r),
            final(self).instance_map == old(self).instance_map,
            final(self).wf(),
    {
        let ghost s0 = *self;
        proof {
            assert(s0.pcbdrons@[d as int].wf());
        }
        let mut dron = self.pcbdrons.remove(d);
        let r = dron.update_path(path);
        self.pcbdrons.insert(d, dron);
        proof {
            assert forall|e: int| 0 <= e < self.pcbdrons@.len() implies #[trigger] self.pcbdrons@[e].wf() by {
                if e != d {
                    assert(s0.pcbdrons@[e].wf());
                }
            }
        }
        r
    }

    /// Pcbdron `d` takes its variants from the variant map.
    fn apply_dron_variants(&mut self, d: usize, variant_map: &mut VariantMap)
        requires
            d < old(self).pcbdrons@.len(),
            old(self).wf(),
        ensures
            only_dron(old(self).pcbdrons@, final(self).pcbdrons@, d as int),
            final(self).pcbdrons@[d as int].polyhedron == old(self).pcbdrons@[d as int].polyhedron,
            final(self).pcbdrons@[d as int].variant_map@ == assign_all(
                old(self).pcbdrons@[d as int].polyhedron,
                zeros(old(self).pcbdrons@[d as int].polyhedron.nf()),
                vmap_view(old(variant_map)@),
            ),
            vmap_view(final(variant_map)@) == consumed(old(self).pcbdrons@[d as int].polyhedron, vmap_view(old(variant_map)@)),
            final(self).instance_map == old(self).instance_map,
            final(self).wf(),
    {
        let ghost s0 = *self;
        proof {
            assert(s0.pcbdrons@[d as int].wf());
        }
        let mut dron = self.pcbdrons.remove(d);
        dron.apply_variant_map(variant_map);
        self.pcbdrons.insert(d, dron);
        proof {
            assert forall|e: int| 0 <= e < self.pcbdrons@.len() implies #[trigger] self.pcbdrons@[e].wf() by {
                if e != d {
                    assert(s0.pcbdrons@[e].wf());
                }
            }
        }
    }

    /// Pcbdron `d` gets this polyhedron and takes its variants from the
    /// variant map.
    fn set_dron_poly(&mut self, d: usize, polyhedron: Polyhedron, variant_map: &mut VariantMap)
        requires
            d < old(self).pcbdrons@.len(),
            old(self).wf(),
            polyhedron.wf(),
        ensures
            only_dron(old(self).pcbdrons@, final(self).pcbdrons@, d as int),
            poly_set(polyhedron, final(self).pcbdrons@[d as int], vmap_view(old(variant_map)@), vmap_view(final(variant_map)@)),
            final(self).instance_map == old(self).instance_map,
            final(self).wf(),
    {
        let ghost s0 = *self;
        let mut dron = self.pcbdrons.remove(d);
        dron.set_poly(polyhedron, variant_map);
        self.pcbdrons.insert(d, dron);
        proof {
            assert forall|e: int| 0 <= e < self.pcbdrons@.len() implies #[trigger] self.pcbdrons@[e].wf() by {
                if e != d {
                    assert(s0.pcbdrons@[e].wf());
                }
            }
        }
    }

    /// Apply a [`PcBorsign`], position by position (see [`design_step`]):
    /// pcbdrons are added or changed to the polyhedra it names, take their
    /// variants from its variant map in order, and get its paths; pcbdrons
    /// past its polyhedra are dropped.
    ///
    /// `loaded[i]` is the polyhedron named at position `i`, loaded where one
    /// is needed (see [`Pcboron::loads_needed`]). Where it is missing, this
    /// stops with an error, the positions before it applied. After a path
    /// could not be applied, the design of the lamp as it then is is
    /// returned, to correct the one that was asked for.
    pub fn apply_design(&mut self, design: PcBorsign, loaded: Vec<Option<Polyhedron>>) -> (r: Result<
        Option<PcBorsign>,
        PcboronError,
    >)
        requires
            old(self).wf(),
            loaded@.len() == design.polyhedra@.len(),
            forall|i: int| 0 <= i < loaded@.len() ==> (#[trigger] loaded@[i] matches Some(h) ==> h.path_inv()),
            forall|i: int|
                0 <= i < loaded@.len() ==> (#[trigger] loaded@[i] matches Some(h) ==> h.name@ == design.polyhedra@[i]@),
            forall|i: int, j: int|
                0 <= i < design.path@.len() && 0 <= j < design.path@[i].turns@.len() ==> #[trigger] design.path@[i].turns@[j]
                    < usize::MAX - 1,
        ensures
            final(self).wf(),
            final(self).instance_map == old(self).instance_map,
            exists|
                st: Seq<Seq<Pcbdron>>,
                mid: Seq<Seq<Pcbdron>>,
                vs: Seq<Seq<(usize, Seq<usize>)>>,
                fl: Seq<bool>,
                k: int,
            |
                #![trigger design_run(st, mid, vs, fl, k, design.polyhedra@, loaded@, design.path@)]
                {
                    &&& design_run(st, mid, vs, fl, k, design.polyhedra@, loaded@, design.path@)
                    &&& st[0] == old(self).pcbdrons@
                    &&& vs[0] == vmap_view(design.variant_map@)
                    &&& 0 <= k <= design.polyhedra@.len()
                    &&& forall|j: int| 0 <= j < k ==> (#[trigger] final(self).pcbdrons@[j]).polyhedron.name@ == design.polyhedra@[j]@
                    &&& match r {
                        Err(e) => {
                            &&& k < design.polyhedra@.len()
                            &&& needs_load(st[k], k, design.polyhedra@[k])
                            &&& loaded@[k] is None
                            &&& final(self).pcbdrons@ == st[k]
                            &&& k < st[k].len() ==> e.0@ == "could not apply design for poly "@ + design.polyhedra@[k]@
                            &&& k >= st[k].len() ==> e.0@ == load_new_text(design.polyhedra@[k]@, k as usize)
                        },
                        Ok(res) => {
                            &&& k == design.polyhedra@.len()
                            &&& final(self).pcbdrons@ == st[k].subrange(0, k)
                            &&& fl[k] ==> (res matches Some(d) && design_of(final(self).pcbdrons@, d))
                            &&& !fl[k] ==> res is None
                        },
                    }
                },
    {
        let ghost s0 = *self;
        let ghost names = design.polyhedra@;
        let ghost paths = design.path@;
        let ghost loaded0 = loaded@;
        let ghost vm0 = vmap_view(design.variant_map@);
        let PcBorsign { polyhedra, mut variant_map, path } = design;
        let mut pending = loaded;
        let mut fail = false;
        let ghost mut st: Seq<Seq<Pcbdron>> = seq![self.pcbdrons@];
        let ghost mut mid: Seq<Seq<Pcbdron>> = Seq::empty();
        let ghost mut vs: Seq<Seq<(usize, Seq<usize>)>> = seq![vmap_view(variant_map@)];
        let ghost mut fl: Seq<bool> = seq![false];
        let mut i: usize = 0;
        proof {
            assert(pending@ =~= loaded0.subrange(0, loaded0.len() as int));
        }
        while i < polyhedra.len()
            invariant
                polyhedra@ == names,
                path@ == paths,
                loaded0.len() == names.len(),
                forall|j: int| 0 <= j < loaded0.len() ==> (#[trigger] loaded0[j] matches Some(h) ==> h.path_inv()),
                forall|j: int| 0 <= j < loaded0.len() ==> (#[trigger] loaded0[j] matches Some(h) ==> h.name@ == names[j]@),
                forall|j: int| 0 <= j < i ==> (#[trigger] self.pcbdrons@[j]).polyhedron.name@ == names[j]@,
                forall|a: int, j: int|
                    0 <= a < paths.len() && 0 <= j < paths[a].turns@.len() ==> #[trigger] paths[a].turns@[j] < usize::MAX - 1,
                0 <= i <= names.len(),
                pending@ == loaded0.subrange(i as int, names.len() as int),
                loaded0 == loaded@,
                names == design.polyhedra@,
                paths == design.path@,
                vm0 == vmap_view(design.variant_map@),
                design_run(st, mid, vs, fl, i as int, names, loaded0, paths),
                st[0] == s0.pcbdrons@,
                vs[0] == vm0,
                s0 == *old(self),
                self.pcbdrons@ == st[i as int],
                vmap_view(variant_map@) == vs[i as int],
                fail == fl[i as int],
                self.pcbdrons@.len() >= i,
                self.wf(),
                self.instance_map == s0.instance_map,
            decreases names.len() - i,
        {
            let ghost a = self.pcbdrons@;
            let ghost va = vmap_view(variant_map@);
            let l = pending.remove(0);
            proof {
                assert(l == loaded0[i as int]);
                assert(pending@ =~= loaded0.subrange(i + 1, names.len() as int));
            }
            let has_p = i < path.len();
            let ghost m: Seq<Pcbdron>;
            if self.pcbdrons.len() == i {
                let hedron = match l {
                    Some(h) => h,
                    None => {
                        proof {
                            assert(design_run(st, mid, vs, fl, i as int, names, loaded0, paths));
                            assert(needs_load(st[i as int], i as int, names[i as int]));
                            assert(loaded0[i as int] is None);
                        }
                        return Err(PcboronError::from(load_new_message(&polyhedra[i], i)));
                    },
                };
                let bdron = Pcbdron::new(hedron, &mut variant_map);
                self.pcbdrons.push(bdron);
                proof {
                    m = self.pcbdrons@;
                    assert forall|e: int| 0 <= e < self.pcbdrons@.len() implies #[trigger] self.pcbdrons@[e].wf() by {
                        if e < a.len() {
                            assert(a[e].wf());
                        }
                    }
                }
                if !has_p || fail {
                    self.clear_dron_path(i);
                } else {
                    let res = self.update_dron_path(i, &path[i]);
                    if res.is_err() {
                        fail = true;
                    }
                }
            } else {
                proof {
                    assert(a[i as int].wf());
                    a[i as int].polyhedron.lemma_path_readable();
                }
                let cpath = self.pcbdrons[i].current_path();
                if !(polyhedra[i] == self.pcbdrons[i].polyhedron.name) {
                    let hedron = match l {
                        Some(h) => h,
                        None => {
                            proof {
                                assert(design_run(st, mid, vs, fl, i as int, names, loaded0, paths));
                                assert(needs_load(st[i as int], i as int, names[i as int]));
                                assert(loaded0[i as int] is None);
                            }
                            return Err(PcboronError::from(load_existing_message(&polyhedra[i])));
                        },
                    };
                    self.set_dron_poly(i, hedron, &mut variant_map);
                } else {
                    self.apply_dron_variants(i, &mut variant_map);
                }
                proof {
                    m = self.pcbdrons@;
                }
                if !has_p || fail {
                    self.clear_dron_path(i);
                } else {
                    let same = match &cpath {
                        Some(q) => q.same(&path[i]),
                        None => false,
                    };
                    proof {
                        match cpath {
                            Some(q) => {
                                if a[i as int].reads_path(Some(paths[i as int])) {
                                    a[i as int].lemma_reads_path_unique(q, paths[i as int]);
                                }
                            },
                            None => {},
                        }
                        assert(same == a[i as int].reads_path(Some(paths[i as int])));
                    }
                    if !same {
                        let res = self.update_dron_path(i, &path[i]);
                        if res.is_err() {
                            fail = true;
                        }
                    }
                }
            }
            proof {
                let b = self.pcbdrons@;
                let vb = vmap_view(variant_map@);
                assert(path_at(paths, i as int) == if has_p {
                    Some(paths[i as int])
                } else {
                    None::<PcbPath>
                });
                assert(design_step(a, m, b, i as int, names[i as int], loaded0[i as int], path_at(paths, i as int), va, vb, fl[i as int], fail));
                assert(m[i as int].polyhedron.name@ == names[i as int]@);
                assert(b[i as int].polyhedron.name == m[i as int].polyhedron.name);
                assert forall|j: int| 0 <= j < i + 1 implies (#[trigger] b[j]).polyhedron.name@ == names[j]@ by {
                    if j < i {
                        assert(m[j] == a[j]);
                        assert(b[j] == m[j]);
                    }
                }
                let st1 = st.push(b);
                let mid1 = mid.push(m);
                let vs1 = vs.push(vb);
                let fl1 = fl.push(fail);
                assert forall|j: int| 0 <= j < i + 1 implies #[trigger] design_step(
                    st1[j],
                    mid1[j],
                    st1[j + 1],
                    j,
                    names[j],
                    loaded0[j],
                    path_at(paths, j),
                    vs1[j],
                    vs1[j + 1],
                    fl1[j],
                    fl1[j + 1],
                ) by {
                    if j < i {
                        assert(st1[j] == st[j] && st1[j + 1] == st[j + 1] && mid1[j] == mid[j]);
                        assert(vs1[j] == vs[j] && vs1[j + 1] == vs[j + 1] && fl1[j] == fl[j] && fl1[j + 1] == fl[j + 1]);
                    }
                }
                st = st1;
                mid = mid1;
                vs = vs1;
                fl = fl1;
            }
            i += 1;
        }
        let ghost before_cut = *self;
        self.pcbdrons.truncate(i);
        proof {
            assert forall|e: int| 0 <= e < self.pcbdrons@.len() implies #[trigger] self.pcbdrons@[e].wf() by {
                assert(before_cut.pcbdrons@[e].wf());
            }
            assert(design_run(st, mid, vs, fl, i as int, names, loaded0, paths));
        }
        if fail {
            Ok(Some(self.get_design()))
        } else {
            Ok(None)
        }
    }

    /// A lamp of one pcbdron: the polyhedron, its faces taking their
    /// variants from the variant map (which is left as it is), and one board
    /// model for each kind that `present` marks, n-gon by n-gon and variant
    /// by variant (`present[n][v]`: there is a model of the `n`-gon board
    /// with variant `v`).
    pub fn new(polyhedron: Polyhedron, variant_map: &VariantMap, present: &Vec<Vec<bool>>) -> (r: Pcboron)
        requires
            polyhedron.path_inv(),
        ensures
            r.wf(),
            r.pcbdrons@.len() == 1,
            r.pcbdrons@[0].polyhedron == polyhedron,
            r.pcbdrons@[0].variant_map@ == assign_all(polyhedron, zeros(polyhedron.nf()), vmap_view(variant_map@)),
            r.instance_map@ == present_ids(present@.map_values(|row: Vec<bool>| row@)),
    {
        let mut vmap = copy_variant_map(variant_map);
        let dron = Pcbdron::new(polyhedron, &mut vmap);
        let mut pcbdrons: Vec<Pcbdron> = Vec::new();
        pcbdrons.push(dron);
        let ghost p = present@.map_values(|row: Vec<bool>| row@);
        let mut ids: Vec<PcbId> = Vec::new();
        let mut n: usize = 0;
        while n < present.len()
            invariant
                0 <= n <= present@.len(),
                p == present@.map_values(|row: Vec<bool>| row@),
                ids@ == present_ids(p.subrange(0, n as int)),
            decreases present@.len() - n,
        {
            let row = &present[n];
            let mut v: usize = 0;
            while v < row.len()
                invariant
                    0 <= n < present@.len(),
                    row@ == p[n as int],
                    0 <= v <= row@.len(),
                    p == present@.map_values(|row: Vec<bool>| row@),
                    ids@ == present_ids(p.subrange(0, n as int)) + row_ids(n, row@, v as int),
                decreases row@.len() - v,
            {
                if row[v] {
                    ids.push(PcbId { n_gon: n, variant: v });
                }
                v += 1;
            }
            proof {
                let q = p.subrange(0, n + 1);
                assert(q.drop_last() =~= p.subrange(0, n as int));
                assert(q.last() == row@);
                assert(row@.subrange(0, row@.len() as int) =~= row@);
            }
            n += 1;
        }
        proof {
            assert(p.subrange(0, p.len() as int) =~= p);
        }
        Pcboron { pcbdrons, instance_map: ids }
    }

    /// Register a board model: it shows boards of kind `pcb_id`, and is the
    /// model with the next index.
    pub fn register_pcb(&mut self, pcb_id: PcbId)
        ensures
            final(self).instance_map@ == old(self).instance_map@.push(pcb_id),
            final(self).pcbdrons == old(self).pcbdrons,
    {
        self.instance_map.push(pcb_id);
    }

    /// Give the `nth_ngon`-th board of a kind, over all pcbdrons, variant
    /// `new_var` (see [`Pcboron::put_variant`]); the board it then is, by its
    /// position among the faces with as many sides. `None`, with nothing
    /// changed, when there is no such board.
    pub fn set_variant_at(&mut self, varid: VarId, new_var: usize) -> (r: Option<VarId>)
        requires
            old(self).wf(),
        ensures
            final(self).wf(),
            final(self).instance_map == old(self).instance_map,
            varid.nth_ngon >= kind_faces(old(self).pcbdrons@, varid.pcb_id).len() ==> final(self).pcbdrons
                == old(self).pcbdrons && r is None,
            varid.nth_ngon < kind_faces(old(self).pcbdrons@, varid.pcb_id).len() ==> {
                let e = kind_faces(old(self).pcbdrons@, varid.pcb_id)[varid.nth_ngon as int];
                let n_gon = varid.pcb_id.n_gon;
                match first_index(ngon_faces(old(self).pcbdrons@, n_gon), e) {
                    None => final(self).pcbdrons == old(self).pcbdrons && r is None,
                    Some(pos) => {
                        &&& face_set(old(self).pcbdrons@, final(self).pcbdrons@, e.1 as int, e.0 as int, new_var)
                        &&& r == Some(VarId { nth_ngon: pos as usize, pcb_id: PcbId { n_gon, variant: new_var } })
                    },
                }
            },
    {
        let Some(f_idx) = self.varid_to_fidx(varid) else {
            return None;
        };
        let n_gon = varid.pcb_id.n_gon;
        let all = self.all_ngons(n_gon);
        let target = (f_idx.fidx, f_idx.dridx);
        let mut pos: usize = 0;
        while pos < all.len() && !(all[pos].0 == target.0 && all[pos].1 == target.1)
            invariant
                0 <= pos <= all@.len(),
                forall|k: int| 0 <= k < pos ==> #[trigger] all@[k] != target,
            decreases all@.len() - pos,
        {
            pos += 1;
        }
        proof {
            lemma_first_index(all@, target, pos as int);
        }
        if pos == all.len() {
            return None;
        }
        self.put_variant(varid, new_var);
        Some(VarId { nth_ngon: pos, pcb_id: PcbId { n_gon, variant: new_var } })
    }

    /// The face that the path ends on, on the last pcbdron with a path.
    pub fn last_face(&self) -> (r: Option<Fidx>)
        ensures
            r == match last_where(self.pcbdrons@, |p: Pcbdron| has_path(p)) {
                Some(d) => Some(
                    Fidx { dridx: d as usize, fidx: self.pcbdrons@[d].polyhedron.edge_path@.last().face_idx },
                ),
                None => None,
            },
    {
        let ghost pred = |p: Pcbdron| has_path(p);
        let mut i: usize = self.pcbdrons.len();
        while i > 0 && self.pcbdrons[i - 1].polyhedron.edge_path.len() == 0
            invariant
                pred == (|p: Pcbdron| has_path(p)),
                0 <= i <= self.pcbdrons@.len(),
                forall|k: int| i <= k < self.pcbdrons@.len() ==> !pred(#[trigger] self.pcbdrons@[k]),
            decreases i,
        {
            i -= 1;
        }
        proof {
            lemma_last_where(self.pcbdrons@, pred, i - 1);
        }
        if i == 0 {
            return None;
        }
        let path = &self.pcbdrons[i - 1].polyhedron.edge_path;
        Some(Fidx { dridx: i - 1, fidx: path[path.len() - 1].face_idx })
    }

    /// The position of the polyhedron after the first of `names` that a
    /// pcbdron is of, counting round; `None` when no pcbdron is of any.
    pub fn next_polyhedron(&self, names: &Vec<String>) -> (r: Option<usize>)
        ensures
            r == match first_used(names@, self.pcbdrons@, 0) {
                Some(i) => Some(((i + 1) % (names@.len() as int)) as usize),
                None => None,
            },
    {
        let mut i: usize = 0;
        while i < names.len()
            invariant
                0 <= i <= names@.len(),
                first_used(names@, self.pcbdrons@, 0) == first_used(names@, self.pcbdrons@, i as int),
            decreases names@.len() - i,
        {
            let mut d: usize = 0;
            while d < self.pcbdrons.len() && !(self.pcbdrons[d].polyhedron.name == names[i])
                invariant
                    0 <= i < names@.len(),
                    0 <= d <= self.pcbdrons@.len(),
                    forall|k: int| 0 <= k < d ==> #[trigger] self.pcbdrons@[k].polyhedron.name@ != names@[i as int]@,
                decreases self.pcbdrons@.len() - d,
            {
                d += 1;
            }
            if d < self.pcbdrons.len() {
                return Some((i + 1) % names.len());
            }
            i += 1;
        }
        None
    }
}

} // verus!
