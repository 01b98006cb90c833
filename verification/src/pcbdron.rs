//! A polyhedron together with the board variant on each of its faces.
use crate::design::{vmap_view, PcbDrosign, PcbPath, VariantMap};
use crate::flags::{lemma_rm_clears, PcbId, VarFlags, VarId};
use crate::make_path::PolygonCrossing;
use crate::polyhedron::Polyhedron;
use vstd::prelude::*;

verus! {

/// A Pcbdron knows which board variant is on which face of a polyhedron.
///
/// This allows to have multiple polyhedra in one lamp.
pub struct Pcbdron {
    /// the polyhedron
    pub polyhedron: Polyhedron,
    /// which variant lives on which face
    ///
    /// This covers all faces of the polyhedron, in face order.
    pub variant_map: Vec<usize>,
}

/// `n` variants 0.
pub open spec fn zeros(n: int) -> Seq<usize> {
    Seq::new(n as nat, |i: int| 0usize)
}

/// The faces among the first `upto` that have `id.n_gon` sides and variant
/// `id.variant`, in order.
pub open spec fn of_kind_upto(faces: Seq<Vec<u32>>, vm: Seq<usize>, id: PcbId, upto: int) -> Seq<usize>
    decreases upto,
{
    if upto <= 0 {
        Seq::empty()
    } else if faces[upto - 1]@.len() == id.n_gon && vm[upto - 1] == id.variant {
        of_kind_upto(faces, vm, id, upto - 1).push((upto - 1) as usize)
    } else {
        of_kind_upto(faces, vm, id, upto - 1)
    }
}

/// `vm` with the faces of `n` sides taking, in face order, the variants
/// `vs`; faces beyond the end of `vs` keep theirs.
pub open spec fn assign_ngon(poly: Polyhedron, vm: Seq<usize>, n: usize, vs: Seq<usize>) -> Seq<usize> {
    Seq::new(
        vm.len(),
        |i: int|
            if poly.face(i).len() == n && 0 <= poly.ngon_index(i) < vs.len() {
                vs[poly.ngon_index(i)]
            } else {
                vm[i]
            },
    )
}

/// `vm` with the entries of a variant map assigned in order.
pub open spec fn assign_all(poly: Polyhedron, vm: Seq<usize>, m: Seq<(usize, Seq<usize>)>) -> Seq<usize>
    decreases m.len(),
{
    if m.len() == 0 {
        vm
    } else {
        assign_ngon(poly, assign_all(poly, vm, m.drop_last()), m.last().0, m.last().1)
    }
}

/// Assigning variants keeps one variant per face.
pub proof fn lemma_assign_len(poly: Polyhedron, vm: Seq<usize>, m: Seq<(usize, Seq<usize>)>)
    ensures
        assign_all(poly, vm, m).len() == vm.len(),
    decreases m.len(),
{
    if m.len() > 0 {
        lemma_assign_len(poly, vm, m.drop_last());
    }
}

/// The variants of `n`-gons that are left once each face with `n` sides
/// has taken one.
pub open spec fn left_over(poly: Polyhedron, n: usize, vs: Seq<usize>) -> Seq<usize> {
    let k = poly.ngons(n as nat).len();
    if vs.len() <= k {
        Seq::empty()
    } else {
        vs.subrange(k as int, vs.len() as int)
    }
}

/// What a variant map keeps after this polyhedron took its variants.
pub open spec fn consumed(poly: Polyhedron, m: Seq<(usize, Seq<usize>)>) -> Seq<(usize, Seq<usize>)> {
    m.map_values(|e: (usize, Seq<usize>)| (e.0, left_over(poly, e.0, e.1)))
}

/// `new` carries the faces, edges and name of `polyhedron` with no path,
/// and takes its variants from `m`, which leaves `rest`.
pub open spec fn poly_set(
    polyhedron: Polyhedron,
    new: Pcbdron,
    m: Seq<(usize, Seq<usize>)>,
    rest: Seq<(usize, Seq<usize>)>,
) -> bool {
    &&& new.polyhedron.faces == polyhedron.faces
    &&& new.polyhedron.edges == polyhedron.edges
    &&& new.polyhedron.name == polyhedron.name
    &&& new.polyhedron.edge_path@.len() == 0
    &&& forall|f: int| 0 <= f < new.polyhedron.fpi().len() ==> #[trigger] new.polyhedron.fpi()[f].len() == 0
    &&& new.variant_map@ == assign_all(new.polyhedron, zeros(polyhedron.nf()), m)
    &&& rest == consumed(new.polyhedron, m)
    &&& new.wf()
}

impl Pcbdron {
    /// One variant per face, on a polyhedron with a well-formed path.
    pub open spec fn wf(self) -> bool {
        &&& self.polyhedron.path_inv()
        &&& self.variant_map@.len() == self.polyhedron.nf()
    }

    /// The faces of kind `id`, in order.
    pub open spec fn of_kind(self, id: PcbId) -> Seq<usize> {
        of_kind_upto(
            self.polyhedron.faces@,
            self.variant_map@,
            id,
            if self.polyhedron.nf() <= self.variant_map@.len() {
                self.polyhedron.nf()
            } else {
                self.variant_map@.len() as int
            },
        )
    }

    /// The variants of the faces with `n` sides, in face order.
    pub open spec fn ngon_variants(self, n: nat) -> Seq<usize> {
        self.polyhedron.ngons(n).map_values(|f: usize| self.variant_map@[f as int])
    }

    /// Per n-gon from 3 up to (not including) `n`, the variants of its faces,
    /// where there are such faces.
    pub open spec fn design_upto(self, n: int) -> Seq<(usize, Seq<usize>)>
        decreases n,
    {
        if n <= 3 {
            Seq::empty()
        } else if self.ngon_variants((n - 1) as nat).len() > 0 {
            self.design_upto(n - 1).push(((n - 1) as usize, self.ngon_variants((n - 1) as nat)))
        } else {
            self.design_upto(n - 1)
        }
    }

    /// The path read back, whether or not all of it could be read.
    pub open spec fn reads_path(self, r: Option<PcbPath>) -> bool {
        let poly = self.polyhedron;
        &&& poly.edge_path@.len() == 0 <==> r is None
        &&& r matches Some(p) ==> poly.reads_as(p) && (p.turns@.len() == poly.edge_path@.len()
            || poly.turn_at(p.turns@.len() as int) is None)
    }

    /// Make a pcbdron of a polyhedron; the polyhedron takes its variants from
    /// the variant map, which keeps what is left.
    pub fn new(polyhedron: Polyhedron, variant_map: &mut VariantMap) -> (res: Pcbdron)
        requires
            polyhedron.path_inv(),
        ensures
            res.wf(),
            res.polyhedron == polyhedron,
            res.variant_map@ == assign_all(polyhedron, zeros(polyhedron.nf()), vmap_view(old(variant_map)@)),
            vmap_view(final(variant_map)@) == consumed(polyhedron, vmap_view(old(variant_map)@)),
    {
        let mut res = Pcbdron { polyhedron, variant_map: Vec::new() };
        res.apply_variant_map(variant_map);
        proof {
            lemma_assign_len(polyhedron, zeros(polyhedron.nf()), vmap_view(old(variant_map)@));
        }
        res
    }

    /// Apply the variant map and consume used variants: per entry, the faces
    /// with that many sides take its variants in order, and those variants
    /// leave the entry. Faces that get none have variant 0.
    pub fn apply_variant_map(&mut self, variant_map: &mut VariantMap)
        ensures
            final(self).polyhedron == old(self).polyhedron,
            final(self).variant_map@ == assign_all(old(self).polyhedron, 
                zeros(old(self).polyhedron.nf()),
                vmap_view(old(variant_map)@),
            ),
            vmap_view(final(variant_map)@) == consumed(old(self).polyhedron, vmap_view(old(variant_map)@)),
            old(self).polyhedron.path_inv() ==> final(self).wf(),
    {
        let ghost s0 = *self;
        let ghost m0 = vmap_view(variant_map@);
        let nf = self.polyhedron.faces.len();
        let mut vm: Vec<usize> = Vec::new();
        let mut i: usize = 0;
        while i < nf
            invariant
                nf == s0.polyhedron.faces@.len(),
                0 <= i <= nf,
                vm@ == zeros(i as int),
            decreases nf - i,
        {
            vm.push(0);
            i += 1;
            proof {
                assert(vm@ =~= zeros(i as int));
            }
        }
        let mut rest: VariantMap = Vec::new();
        let mut k: usize = 0;
        while k < variant_map.len()
            invariant
                *self == s0,
                m0 == vmap_view(variant_map@),
                nf == s0.polyhedron.faces@.len(),
                0 <= k <= variant_map@.len(),
                vm@.len() == nf,
                vm@ == assign_all(s0.polyhedron, zeros(nf as int), m0.subrange(0, k as int)),
                vmap_view(rest@) == consumed(s0.polyhedron, m0.subrange(0, k as int)),
            decreases variant_map@.len() - k,
        {
            let ngon = variant_map[k].0;
            let vars = &variant_map[k].1;
            let faces = self.polyhedron.iter_ngon(ngon);
            let ghost before = vm@;
            let mut counter: usize = 0;
            proof {
                assert(assign_ngon(s0.polyhedron, before, ngon, vars@.subrange(0, 0)) =~= before);
            }
            while counter < faces.len() && counter < vars.len()
                invariant
                    *self == s0,
                    faces@ == s0.polyhedron.ngons(ngon as nat),
                    nf == s0.polyhedron.faces@.len(),
                    before.len() == nf,
                    vm@.len() == nf,
                    0 <= counter <= faces@.len(),
                    counter <= vars@.len(),
                    vm@ == assign_ngon(s0.polyhedron, before, ngon, vars@.subrange(0, counter as int)),
                decreases faces@.len() - counter,
            {
                let f = faces[counter];
                proof {
                    s0.polyhedron.lemma_nth_ngon(ngon as nat, counter as int);
                }
                vm.set(f, vars[counter]);
                proof {
                    let nv = vars@.subrange(0, counter + 1);
                    assert forall|g: int| 0 <= g < nf implies #[trigger] vm@[g] == assign_ngon(s0.polyhedron, before, ngon, nv)[g] by {
                        if g != f && s0.polyhedron.face(g).len() == ngon {
                            s0.polyhedron.lemma_ngon_index(g);
                            assert(s0.polyhedron.ngon_index(g) != counter);
                        }
                    }
                    assert(vm@ =~= assign_ngon(s0.polyhedron, before, ngon, nv));
                }
                counter += 1;
            }
            proof {
                assert forall|g: int| 0 <= g < nf implies #[trigger] vm@[g] == assign_ngon(s0.polyhedron, before, ngon, vars@)[g] by {
                    if s0.polyhedron.face(g).len() == ngon {
                        s0.polyhedron.lemma_ngon_index(g);
                    }
                }
                assert(vm@ =~= assign_ngon(s0.polyhedron, before, ngon, vars@));
            }
            let mut left: Vec<usize> = Vec::new();
            let mut c = counter;
            while c < vars.len()
                invariant
                    counter <= c <= vars@.len(),
                    left@ == vars@.subrange(counter as int, c as int),
                decreases vars@.len() - c,
            {
                left.push(vars[c]);
                c += 1;
                proof {
                    assert(left@ =~= vars@.subrange(counter as int, c as int));
                }
            }
            let ghost old_rest = rest@;
            rest.push((ngon, left));
            proof {
                let mk = m0.subrange(0, k + 1);
                assert(m0[k as int] == (ngon, vars@));
                assert(mk.drop_last() =~= m0.subrange(0, k as int));
                assert(mk.last() == (ngon, vars@));
                if vars@.len() <= faces@.len() {
                    assert(left@ =~= Seq::<usize>::empty());
                } else {
                    assert(counter == faces@.len());
                }
                assert(faces@.len() == s0.polyhedron.ngons(ngon as nat).len());
                assert(left@ =~= left_over(s0.polyhedron, ngon, vars@));
                assert(vmap_view(rest@) =~= vmap_view(old_rest).push((ngon, left@)));
                assert(consumed(s0.polyhedron, mk) =~= consumed(s0.polyhedron, m0.subrange(0, k as int)).push(
                    (ngon, left_over(s0.polyhedron, ngon, vars@)),
                ));
                assert(vmap_view(rest@) =~= consumed(s0.polyhedron, mk));
            }
            k += 1;
        }
        proof {
            assert(m0.subrange(0, k as int) =~= m0);
            lemma_assign_len(s0.polyhedron, zeros(nf as int), m0);
        }
        self.variant_map = vm;
        *variant_map = rest;
    }

    /// The faces that carry boards of kind `pcb_id`, in order.
    pub fn iter_variant(&self, pcb_id: PcbId) -> (r: Vec<usize>)
        ensures
            r@ == self.of_kind(pcb_id),
    {
        let n = if self.polyhedron.faces.len() <= self.variant_map.len() {
            self.polyhedron.faces.len()
        } else {
            self.variant_map.len()
        };
        let mut r: Vec<usize> = Vec::new();
        let mut i: usize = 0;
        while i < n
            invariant
                n <= self.polyhedron.faces@.len(),
                n <= self.variant_map@.len(),
                n == if self.polyhedron.nf() <= self.variant_map@.len() {
                    self.polyhedron.nf()
                } else {
                    self.variant_map@.len() as int
                },
                0 <= i <= n,
                r@ == of_kind_upto(self.polyhedron.faces@, self.variant_map@, pcb_id, i as int),
            decreases n - i,
        {
            if self.polyhedron.faces[i].len() == pcb_id.n_gon && self.variant_map[i] == pcb_id.variant {
                r.push(i);
            }
            i += 1;
        }
        r
    }

    /// The design of this pcbdron: the polyhedron's name, per n-gon from 3 to
    /// 10 the variants of its faces (where it has such faces), and the path
    /// as far as it reads.
    pub fn get_design(&self) -> (r: PcbDrosign)
        requires
            self.wf(),
        ensures
            r.polyhedron == self.polyhedron.name,
            vmap_view(r.variant_map@) == self.design_upto(11),
            self.reads_path(r.path),
    {
        let polyhedron = self.polyhedron.name.clone();
        let mut variant_map: VariantMap = Vec::new();
        let mut n: usize = 3;
        while n <= 10
            invariant
                self.wf(),
                3 <= n <= 11,
                vmap_view(variant_map@) == self.design_upto(n as int),
            decreases 11 - n,
        {
            let faces = self.polyhedron.iter_ngon(n);
            let mut variants: Vec<usize> = Vec::new();
            let mut t: usize = 0;
            while t < faces.len()
                invariant
                    self.wf(),
                    faces@ == self.polyhedron.ngons(n as nat),
                    0 <= t <= faces@.len(),
                    variants@ == self.ngon_variants(n as nat).subrange(0, t as int),
                decreases faces@.len() - t,
            {
                proof {
                    self.polyhedron.lemma_nth_ngon(n as nat, t as int);
                }
                variants.push(self.variant_map[faces[t]]);
                t += 1;
                proof {
                    assert(variants@ =~= self.ngon_variants(n as nat).subrange(0, t as int));
                }
            }
            proof {
                assert(variants@ =~= self.ngon_variants(n as nat));
            }
            if variants.len() > 0 {
                variant_map.push((n, variants));
            }
            n += 1;
            proof {
                assert(vmap_view(variant_map@) =~= self.design_upto(n as int));
            }
        }
        proof {
            self.polyhedron.lemma_path_readable();
        }
        let path = self.current_path();
        PcbDrosign { polyhedron, variant_map, path }
    }

    /// The path of this pcbdron, read as far as it can be read; `None` when
    /// there is no path.
    pub fn current_path(&self) -> (r: Option<PcbPath>)
        requires
            self.polyhedron.path_readable(),
        ensures
            self.reads_path(r),
    {
        match self.polyhedron.current_path() {
            None => None,
            Some(Ok(p)) => Some(p),
            Some(Err(p)) => Some(p),
        }
    }

    /// Replace the path by the given one (see [`Polyhedron::apply_path`]).
    pub fn update_path(&mut self, path: &PcbPath) -> (r: Result<(), usize>)
        requires
            old(self).wf(),
            forall|j: int| 0 <= j < path.turns@.len() ==> #[trigger] path.turns@[j] < usize::MAX - 1,
        ensures
            old(self).polyhedron.applies(final(self).polyhedron, *path, r),
            final(self).variant_map == old(self).variant_map,
            final(self).wf(),
    {
        self.polyhedron.apply_path(path)
    }

    /// What [`Self::set_controller`] makes of this pcbdron.
    pub open spec fn sets_controller(self, new: Pcbdron, face_idx: usize, r: Option<VarId>) -> bool {
        &&& new.polyhedron == self.polyhedron
        &&& face_idx > self.polyhedron.nf() ==> new.variant_map == self.variant_map && r is None
        &&& face_idx <= self.polyhedron.nf() ==> new.variant_map@.len() == self.variant_map@.len()
            && forall|i: int|
            0 <= i < self.variant_map@.len() ==> #[trigger] new.variant_map@[i] == if i == face_idx {
                VarFlags::Controller.bit()
            } else {
                self.variant_map@[i] & !VarFlags::Controller.bit()
            }
        &&& face_idx <= self.polyhedron.nf() ==> forall|i: int|
            0 <= i < new.variant_map@.len() ==> (VarFlags::Controller.is_set(
                #[trigger] new.variant_map@[i],
            ) <==> i == face_idx)
        &&& face_idx == self.polyhedron.nf() ==> r is None
        &&& face_idx < self.polyhedron.nf() ==> r == Some(
            VarId {
                nth_ngon: self.polyhedron.ngon_index(face_idx as int) as usize,
                pcb_id: PcbId {
                    n_gon: self.polyhedron.face(face_idx as int).len() as usize,
                    variant: VarFlags::Controller.bit(),
                },
            },
        )
        &&& new.wf()
    }

    /// Set the controller on this pcbdron: face `face_idx` gets the
    /// controller variant and no other face keeps the controller flag.
    ///
    /// There can only be one controller and it has to be on the first
    /// pcbdron. The board that became the controller, by its position among
    /// the faces with as many sides.
    pub fn set_controller(&mut self, face_idx: usize) -> (r: Option<VarId>)
        requires
            old(self).wf(),
        ensures
            old(self).sets_controller(*final(self), face_idx, r),
    {
        let ghost s0 = *self;
        let mut res: Option<VarId> = None;
        if face_idx > self.polyhedron.faces.len() {
            return res;
        }
        let ctl = VarFlags::Controller.b0();
        let mut i: usize = 0;
        while i < self.variant_map.len()
            invariant
                s0.wf(),
                face_idx <= s0.polyhedron.nf(),
                self.polyhedron == s0.polyhedron,
                self.variant_map@.len() == s0.variant_map@.len(),
                0 <= i <= self.variant_map@.len(),
                forall|j: int|
                    0 <= j < i ==> #[trigger] self.variant_map@[j] == if j == face_idx {
                        VarFlags::Controller.bit()
                    } else {
                        s0.variant_map@[j] & !VarFlags::Controller.bit()
                    },
                forall|j: int| i <= j < self.variant_map@.len() ==> #[trigger] self.variant_map@[j] == s0.variant_map@[j],
                face_idx < i ==> res == Some(
                    VarId {
                        nth_ngon: s0.polyhedron.ngon_index(face_idx as int) as usize,
                        pcb_id: PcbId {
                            n_gon: s0.polyhedron.face(face_idx as int).len() as usize,
                            variant: VarFlags::Controller.bit(),
                        },
                    },
                ),
                face_idx >= i ==> res is None,
            decreases self.variant_map@.len() - i,
        {
            if i == face_idx {
                let variant = VarFlags::Controller.b0();
                self.variant_map.set(i, variant);
                let n_gon = self.polyhedron.faces[i].len();
                let ngons = self.polyhedron.iter_ngon(n_gon);
                proof {
                    s0.polyhedron.lemma_ngon_index(face_idx as int);
                }
                let mut t: usize = 0;
                while t < ngons.len() && ngons[t] != face_idx
                    invariant
                        ngons@ == s0.polyhedron.ngons(n_gon as nat),
                        n_gon == s0.polyhedron.face(face_idx as int).len(),
                        0 <= s0.polyhedron.ngon_index(face_idx as int) < ngons@.len(),
                        ngons@[s0.polyhedron.ngon_index(face_idx as int)] == face_idx,
                        0 <= t <= ngons@.len(),
                        forall|u: int| 0 <= u < t ==> ngons@[u] != face_idx,
                    decreases ngons@.len() - t,
                {
                    t += 1;
                }
                res = Some(VarId { nth_ngon: t, pcb_id: PcbId { n_gon, variant } });
            } else {
                let mut v = self.variant_map[i];
                VarFlags::Controller.rm(&mut v);
                self.variant_map.set(i, v);
            }
            i += 1;
        }
        proof {
            assert forall|j: int| 0 <= j < self.variant_map@.len() implies (VarFlags::Controller.is_set(
                #[trigger] self.variant_map@[j],
            ) <==> j == face_idx) by {
                lemma_rm_clears(VarFlags::Controller, VarFlags::Controller, s0.variant_map@[j]);
                assert(ctl & ctl != 0) by (bit_vector)
                    requires
                        ctl == 4usize,
                ;
            }
        }
        res
    }

    /// Set the polyhedron with the given variant map.
    ///
    /// This will also clear the path.
    pub fn set_poly(&mut self, polyhedron: Polyhedron, variant_map: &mut VariantMap)
        requires
            polyhedron.wf(),
        ensures
            poly_set(polyhedron, *final(self), vmap_view(old(variant_map)@), vmap_view(final(variant_map)@)),
    {
        self.polyhedron = polyhedron;
        self.polyhedron.clear_path();
        self.apply_variant_map(variant_map);
    }

    /// A path reads back as one path only.
    pub proof fn lemma_reads_path_unique(self, q1: PcbPath, q2: PcbPath)
        requires
            self.reads_path(Some(q1)),
            self.reads_path(Some(q2)),
        ensures
            q1.same_as(q2),
    {
        let poly = self.polyhedron;
        let l1 = q1.turns@.len();
        let l2 = q2.turns@.len();
        if l1 < l2 {
            assert(poly.turn_at(l1 as int) == Some(q2.turns@[l1 as int]));
        }
        if l2 < l1 {
            assert(poly.turn_at(l2 as int) == Some(q1.turns@[l2 as int]));
        }
        assert forall|j: int| 0 <= j < l1 implies q1.turns@[j] == q2.turns@[j] by {
            assert(poly.turn_at(j) == Some(q1.turns@[j]));
            assert(poly.turn_at(j) == Some(q2.turns@[j]));
        }
        assert(q1.turns@ =~= q2.turns@);
    }

    /// Taking the variants of the design up to `n`-gons from nothing gives
    /// each face with 3 to `n - 1` sides its variant, and 0 to the others.
    proof fn lemma_design_upto_variants(self, n: int)
        requires
            self.wf(),
            3 <= n <= 11,
        ensures
            assign_all(self.polyhedron, zeros(self.polyhedron.nf()), self.design_upto(n)).len() == self.polyhedron.nf(),
            forall|i: int|
                0 <= i < self.polyhedron.nf() ==> #[trigger] assign_all(
                    self.polyhedron,
                    zeros(self.polyhedron.nf()),
                    self.design_upto(n),
                )[i] == if 3 <= self.polyhedron.face(i).len() < n {
                    self.variant_map@[i]
                } else {
                    0
                },
            forall|k: int|
                0 <= k < self.design_upto(n).len() ==> (#[trigger] self.design_upto(n)[k]).1.len()
                    == self.polyhedron.ngons(self.design_upto(n)[k].0 as nat).len(),
        decreases n,
    {
        let poly = self.polyhedron;
        let z = zeros(poly.nf());
        lemma_assign_len(poly, z, self.design_upto(n));
        broadcast use vstd::std_specs::vec::axiom_spec_len;
        assert(poly.faces.len() == poly.faces@.len());
        if n > 3 {
            self.lemma_design_upto_variants(n - 1);
            let d = self.design_upto(n - 1);
            let prev = assign_all(poly, z, d);
            let vs = self.ngon_variants((n - 1) as nat);
            if vs.len() > 0 {
                assert(self.design_upto(n) == d.push(((n - 1) as usize, vs)));
                assert(self.design_upto(n).drop_last() =~= d);
                assert(self.design_upto(n).last() == ((n - 1) as usize, vs));
                assert(assign_all(poly, z, self.design_upto(n)) == assign_ngon(poly, prev, (n - 1) as usize, vs));
                assert(prev.len() == poly.nf());
                assert forall|i: int| 0 <= i < poly.nf() implies #[trigger] assign_all(poly, z, self.design_upto(n))[i]
                    == if 3 <= poly.face(i).len() < n {
                    self.variant_map@[i]
                } else {
                    0
                } by {
                    assert(prev[i] == if 3 <= poly.face(i).len() < n - 1 {
                        self.variant_map@[i]
                    } else {
                        0
                    });
                    if poly.face(i).len() == n - 1 {
                        poly.lemma_ngon_index(i);
                        assert(poly.ngons((n - 1) as nat)[poly.ngon_index(i)] == i as usize);
                        assert(vs[poly.ngon_index(i)] == self.variant_map@[i]);
                    }
                }
            } else {
                assert(self.design_upto(n) == d);
                assert forall|i: int| 0 <= i < poly.nf() implies #[trigger] assign_all(poly, z, self.design_upto(n))[i]
                    == if 3 <= poly.face(i).len() < n {
                    self.variant_map@[i]
                } else {
                    0
                } by {
                    assert(prev[i] == if 3 <= poly.face(i).len() < n - 1 {
                        self.variant_map@[i]
                    } else {
                        0
                    });
                    if poly.face(i).len() == n - 1 {
                        poly.lemma_ngon_index(i);
                    }
                }
            }
        }
    }

    /// The variants of a design read back: a pcbdron that takes its variants
    /// from its own design has its variant on every face with 3 to 10 sides
    /// and 0 on the others, and no variant of the design is left over.
    pub proof fn lemma_design_variants(self)
        requires
            self.wf(),
        ensures
            assign_all(self.polyhedron, zeros(self.polyhedron.nf()), self.design_upto(11)).len() == self.polyhedron.nf(),
            forall|i: int|
                0 <= i < self.polyhedron.nf() ==> #[trigger] assign_all(
                    self.polyhedron,
                    zeros(self.polyhedron.nf()),
                    self.design_upto(11),
                )[i] == if 3 <= self.polyhedron.face(i).len() <= 10 {
                    self.variant_map@[i]
                } else {
                    0
                },
            forall|k: int|
                0 <= k < self.design_upto(11).len() ==> (#[trigger] consumed(self.polyhedron, self.design_upto(11))[k]).1.len() == 0,
    {
        self.lemma_design_upto_variants(11);
        assert forall|k: int| 0 <= k < self.design_upto(11).len() implies (#[trigger] consumed(
            self.polyhedron,
            self.design_upto(11),
        )[k]).1.len() == 0 by {
            let e = self.design_upto(11)[k];
            assert(e.1.len() == self.polyhedron.ngons(e.0 as nat).len());
        }
    }

    /// The design of a pcbdron, applied back to it, gives it its variants
    /// again: `get_design` followed by `apply_variant_map` with the design's
    /// map leaves the variant of every face of 3 to 10 sides (and the whole
    /// variant map, where every face has 3 to 10 sides) and empties every
    /// list of the map. `d` is what `get_design` returned, `after` the
    /// pcbdron and `rest` the map after `apply_variant_map`.
    pub proof fn lemma_design_round_trip(self, d: PcbDrosign, after: Pcbdron, rest: Seq<(usize, Seq<usize>)>)
        requires
            self.wf(),
            vmap_view(d.variant_map@) == self.design_upto(11),
            after.polyhedron == self.polyhedron,
            after.variant_map@ == assign_all(self.polyhedron, zeros(self.polyhedron.nf()), vmap_view(d.variant_map@)),
            rest == consumed(self.polyhedron, vmap_view(d.variant_map@)),
        ensures
            after.variant_map@.len() == self.variant_map@.len(),
            forall|f: int|
                0 <= f < self.polyhedron.nf() && 3 <= self.polyhedron.face(f).len() <= 10 ==> #[trigger] after.variant_map@[f]
                    == self.variant_map@[f],
            (forall|f: int| 0 <= f < self.polyhedron.nf() ==> 3 <= #[trigger] self.polyhedron.face(f).len() <= 10)
                ==> after.variant_map@ == self.variant_map@,
            forall|k: int| 0 <= k < rest.len() ==> (#[trigger] rest[k]).1.len() == 0,
    {
        self.lemma_design_variants();
        assert forall|k: int| 0 <= k < rest.len() implies (#[trigger] rest[k]).1.len() == 0 by {
            assert(consumed(self.polyhedron, self.design_upto(11))[k] == rest[k]);
        }
        if forall|f: int| 0 <= f < self.polyhedron.nf() ==> 3 <= #[trigger] self.polyhedron.face(f).len() <= 10 {
            assert(after.variant_map@ =~= self.variant_map@) by {
                assert forall|f: int| 0 <= f < self.polyhedron.nf() implies after.variant_map@[f] == self.variant_map@[f] by {
                    assert(3 <= self.polyhedron.face(f).len() <= 10);
                }
            }
        }
    }
}

} // verus!
