//! A lamp's design gives its variants back: pcbdrons of the same polyhedra
//! that take their variants, in order, from the lamp's merged variant map
//! get the variant of every face of 3 to 10 sides again.
use crate::design::{first_ngon, lemma_first_ngon, merge_all, merge_entry, ngons_distinct, vmap_view, PcBorsign};
use crate::pcbdron::{assign_all, consumed, lemma_assign_len, left_over, zeros, Pcbdron};
use crate::pcboron::{design_of, design_run, design_step, designs_merged, has_path, lemma_with_path, needs_load, path_at, with_path};
use crate::polyhedron::Polyhedron;
use vstd::prelude::*;

verus! {

/// The variants of all entries for `n`-gons, in order.
pub open spec fn val_of(m: Seq<(usize, Seq<usize>)>, n: usize) -> Seq<usize>
    decreases m.len(),
{
    if m.len() == 0 {
        Seq::empty()
    } else {
        val_of(m.drop_last(), n) + if m.last().0 == n {
            m.last().1
        } else {
            Seq::empty()
        }
    }
}

/// Without an entry for `n`, there are no variants for it.
proof fn lemma_val_of_none(m: Seq<(usize, Seq<usize>)>, n: usize)
    requires
        forall|k: int| 0 <= k < m.len() ==> m[k].0 != n,
    ensures
        val_of(m, n) == Seq::<usize>::empty(),
    decreases m.len(),
{
    if m.len() > 0 {
        let d = m.drop_last();
        assert forall|k: int| 0 <= k < d.len() implies d[k].0 != n by {
            assert(d[k] == m[k]);
        }
        lemma_val_of_none(d, n);
        assert(m.last().0 != n);
        assert(val_of(m, n) =~= Seq::<usize>::empty());
    }
}

/// Appending `w` to the only entry for n-gon `k` appends it to its variants.
proof fn lemma_val_of_update(m: Seq<(usize, Seq<usize>)>, j: int, w: Seq<usize>, n: usize)
    requires
        ngons_distinct(m),
        0 <= j < m.len(),
    ensures
        val_of(m.update(j, (m[j].0, m[j].1 + w)), n) == val_of(m, n) + if m[j].0 == n {
            w
        } else {
            Seq::<usize>::empty()
        },
    decreases m.len(),
{
    let u = m.update(j, (m[j].0, m[j].1 + w));
    let d = m.drop_last();
    if j == m.len() - 1 {
        assert(u.drop_last() =~= d);
        if m[j].0 == n {
            assert(val_of(u, n) =~= val_of(m, n) + w);
        } else {
            assert(val_of(u, n) =~= val_of(m, n) + Seq::<usize>::empty());
        }
    } else {
        assert(ngons_distinct(d)) by {
            assert forall|a: int, b: int| 0 <= a < b < d.len() implies #[trigger] d[a].0 != #[trigger] d[b].0 by {
                assert(m[a].0 != m[b].0);
            }
        }
        lemma_val_of_update(d, j, w, n);
        assert(u.drop_last() =~= d.update(j, (d[j].0, d[j].1 + w)));
        assert(u.last() == m.last());
        assert(m[j].0 != m[m.len() - 1].0);
        if m[j].0 == n {
            assert(val_of(u, n) =~= val_of(m, n) + w);
        } else {
            assert(val_of(u, n) =~= val_of(m, n) + Seq::<usize>::empty());
        }
    }
}

/// Merging an entry keeps one entry per n-gon and appends its variants.
proof fn lemma_merge_entry(m: Seq<(usize, Seq<usize>)>, e: (usize, Seq<usize>), n: usize)
    requires
        ngons_distinct(m),
    ensures
        ngons_distinct(merge_entry(m, e)),
        val_of(merge_entry(m, e), n) == val_of(m, n) + if e.0 == n {
            e.1
        } else {
            Seq::<usize>::empty()
        },
{
    lemma_first_ngon(m, e.0);
    match first_ngon(m, e.0) {
        Some(j) => {
            lemma_val_of_update(m, j, e.1, n);
            let u = merge_entry(m, e);
            assert(u == m.update(j, (m[j].0, m[j].1 + e.1)));
            assert forall|a: int, b: int| 0 <= a < b < u.len() implies #[trigger] u[a].0 != #[trigger] u[b].0 by {
                assert(m[a].0 != m[b].0);
            }
        },
        None => {
            let u = m.push(e);
            assert(u.drop_last() =~= m);
            assert forall|a: int, b: int| 0 <= a < b < u.len() implies #[trigger] u[a].0 != #[trigger] u[b].0 by {
                if b < m.len() {
                    assert(m[a].0 != m[b].0);
                }
            }
        },
    }
}

/// Merging a map keeps one entry per n-gon and appends its variants.
proof fn lemma_merge_all(m: Seq<(usize, Seq<usize>)>, es: Seq<(usize, Seq<usize>)>, n: usize)
    requires
        ngons_distinct(m),
    ensures
        ngons_distinct(merge_all(m, es)),
        val_of(merge_all(m, es), n) == val_of(m, n) + val_of(es, n),
    decreases es.len(),
{
    if es.len() == 0 {
        assert(val_of(m, n) + val_of(es, n) =~= val_of(m, n));
    } else {
        lemma_merge_all(m, es.drop_last(), n);
        lemma_merge_entry(merge_all(m, es.drop_last()), es.last(), n);
        assert(val_of(merge_all(m, es), n) =~= val_of(m, n) + val_of(es, n));
    }
}

/// The design of a pcbdron up to `k`-gons names each n-gon once, from 3
/// on, with the variants of its faces.
proof fn lemma_val_of_design(d: Pcbdron, k: int, n: usize)
    requires
        k <= 11,
    ensures
        ngons_distinct(d.design_upto(k)),
        forall|t: int| 0 <= t < d.design_upto(k).len() ==> 3 <= (#[trigger] d.design_upto(k)[t]).0 < k,
        val_of(d.design_upto(k), n) == if 3 <= n < k {
            d.ngon_variants(n as nat)
        } else {
            Seq::<usize>::empty()
        },
    decreases k,
{
    let dk = d.design_upto(k);
    if k <= 3 {
        assert(dk.len() == 0);
        assert(val_of(dk, n) =~= Seq::<usize>::empty());
    } else {
        lemma_val_of_design(d, k - 1, n);
        let prev = d.design_upto(k - 1);
        let vs = d.ngon_variants((k - 1) as nat);
        if vs.len() > 0 {
            assert(dk == prev.push(((k - 1) as usize, vs)));
            assert(dk.drop_last() =~= prev);
            assert forall|a: int, b: int| 0 <= a < b < dk.len() implies #[trigger] dk[a].0 != #[trigger] dk[b].0 by {
                if b < prev.len() {
                    assert(prev[a].0 != prev[b].0);
                } else {
                    assert(prev[a].0 < k - 1);
                }
            }
            assert forall|t: int| 0 <= t < dk.len() implies 3 <= (#[trigger] dk[t]).0 < k by {
                if t < prev.len() {
                    assert(dk[t] == prev[t]);
                }
            }
            if n == k - 1 {
                assert(val_of(dk, n) =~= vs);
            } else {
                assert(val_of(dk, n) =~= val_of(prev, n));
            }
        } else {
            assert(dk == prev);
            if n == k - 1 {
                assert(vs =~= Seq::<usize>::empty());
            }
        }
    }
}

/// The variants of `n`-gons of the pcbdrons from position `i` on, in
/// order, counting only 3- to 10-gons as a design does.
pub open spec fn flat_from(drons: Seq<Pcbdron>, i: int, n: usize) -> Seq<usize>
    decreases drons.len() - i,
{
    if i >= drons.len() {
        Seq::empty()
    } else {
        (if 3 <= n <= 10 {
            drons[i].ngon_variants(n as nat)
        } else {
            Seq::<usize>::empty()
        }) + flat_from(drons, i + 1, n)
    }
}

/// Other n-gons than 3- to 10-gons have no variants in a design.
proof fn lemma_flat_outside(drons: Seq<Pcbdron>, i: int, n: usize)
    requires
        !(3 <= n <= 10),
    ensures
        flat_from(drons, i, n) == Seq::<usize>::empty(),
    decreases drons.len() - i,
{
    if i < drons.len() {
        lemma_flat_outside(drons, i + 1, n);
        assert(flat_from(drons, i, n) =~= Seq::<usize>::empty());
    }
}

/// The variants from position `i` on end with those of the last pcbdron.
proof fn lemma_flat_last(drons: Seq<Pcbdron>, i: int, n: usize)
    requires
        0 <= i < drons.len(),
    ensures
        flat_from(drons, i, n) == flat_from(drons.drop_last(), i, n) + flat_from(drons, drons.len() - 1, n),
    decreases drons.len() - i,
{
    let d = drons.drop_last();
    if i == drons.len() - 1 {
        assert(flat_from(d, i, n) == Seq::<usize>::empty());
        assert(flat_from(drons, i, n) =~= Seq::<usize>::empty() + flat_from(drons, i, n));
    } else {
        lemma_flat_last(drons, i + 1, n);
        assert(d[i] == drons[i]);
        assert(flat_from(drons, i, n) =~= flat_from(d, i, n) + flat_from(drons, drons.len() - 1, n));
    }
}

/// The merged design of the pcbdrons names each n-gon once, with the
/// variants of all their n-gons in order.
proof fn lemma_val_of_merged(drons: Seq<Pcbdron>, n: usize)
    ensures
        ngons_distinct(designs_merged(drons)),
        val_of(designs_merged(drons), n) == flat_from(drons, 0, n),
    decreases drons.len(),
{
    if drons.len() == 0 {
        assert(val_of(designs_merged(drons), n) =~= flat_from(drons, 0, n));
    } else {
        let d = drons.drop_last();
        let last = drons.last();
        lemma_val_of_merged(d, n);
        lemma_val_of_design(last, 11, n);
        lemma_merge_all(designs_merged(d), last.design_upto(11), n);
        lemma_flat_last(drons, 0, n);
        let j = drons.len() - 1;
        assert(flat_from(drons, j + 1, n) == Seq::<usize>::empty());
        if 3 <= n <= 10 {
            assert(flat_from(drons, j, n) =~= last.ngon_variants(n as nat));
        } else {
            assert(flat_from(drons, j, n) =~= Seq::<usize>::empty());
        }
    }
}

/// A polyhedron taking its variants from a map that names each n-gon once
/// leaves, per n-gon, what is left over of its variants.
proof fn lemma_val_of_consumed(poly: Polyhedron, m: Seq<(usize, Seq<usize>)>, n: usize)
    requires
        ngons_distinct(m),
    ensures
        ngons_distinct(consumed(poly, m)),
        val_of(consumed(poly, m), n) == left_over(poly, n, val_of(m, n)),
    decreases m.len(),
{
    let c = consumed(poly, m);
    assert forall|a: int, b: int| 0 <= a < b < c.len() implies #[trigger] c[a].0 != #[trigger] c[b].0 by {
        assert(m[a].0 != m[b].0);
    }
    if m.len() == 0 {
        assert(val_of(c, n) =~= left_over(poly, n, val_of(m, n)));
    } else {
        let d = m.drop_last();
        assert(ngons_distinct(d)) by {
            assert forall|a: int, b: int| 0 <= a < b < d.len() implies #[trigger] d[a].0 != #[trigger] d[b].0 by {
                assert(m[a].0 != m[b].0);
            }
        }
        lemma_val_of_consumed(poly, d, n);
        assert(c.drop_last() =~= consumed(poly, d));
        assert(c.last() == (m.last().0, left_over(poly, m.last().0, m.last().1)));
        if m.last().0 == n {
            assert forall|k: int| 0 <= k < d.len() implies d[k].0 != n by {
                assert(m[k].0 != m[m.len() - 1].0);
            }
            lemma_val_of_none(d, n);
            assert(left_over(poly, n, Seq::<usize>::empty()) =~= Seq::<usize>::empty());
            assert(val_of(m, n) =~= m.last().1);
            assert(val_of(c, n) =~= left_over(poly, n, val_of(m, n)));
        } else {
            assert(val_of(m, n) =~= val_of(d, n));
            assert(val_of(c, n) =~= val_of(consumed(poly, d), n));
        }
    }
}

/// What is left of the variant map `m` once the pcbdrons before position
/// `i` took their variants from it, in order.
pub open spec fn rest_after(drons: Seq<Pcbdron>, m: Seq<(usize, Seq<usize>)>, i: int) -> Seq<(usize, Seq<usize>)>
    decreases i,
{
    if i <= 0 {
        m
    } else {
        consumed(drons[i - 1].polyhedron, rest_after(drons, m, i - 1))
    }
}

/// Once the pcbdrons before `i` took their variants from the merged
/// design, what is left holds the variants of the pcbdrons from `i` on.
proof fn lemma_val_of_rest(drons: Seq<Pcbdron>, i: int, n: usize)
    requires
        0 <= i <= drons.len(),
    ensures
        ngons_distinct(rest_after(drons, designs_merged(drons), i)),
        val_of(rest_after(drons, designs_merged(drons), i), n) == flat_from(drons, i, n),
    decreases i,
{
    let dm = designs_merged(drons);
    if i == 0 {
        lemma_val_of_merged(drons, n);
    } else {
        lemma_val_of_rest(drons, i - 1, n);
        let poly = drons[i - 1].polyhedron;
        lemma_val_of_consumed(poly, rest_after(drons, dm, i - 1), n);
        let tail = flat_from(drons, i, n);
        if 3 <= n <= 10 {
            let g = drons[i - 1].ngon_variants(n as nat);
            assert(g.len() == poly.ngons(n as nat).len());
            assert(flat_from(drons, i - 1, n) == g + tail);
            assert(left_over(poly, n, g + tail) =~= tail);
        } else {
            lemma_flat_outside(drons, i - 1, n);
            lemma_flat_outside(drons, i, n);
            assert(left_over(poly, n, Seq::<usize>::empty()) =~= Seq::<usize>::empty());
        }
    }
}

/// Taking variants from a map that names each n-gon once gives face `f`
/// the variant at its place among the faces with as many sides, from the
/// entry for that many sides, where there is one.
proof fn lemma_assign_all_at(poly: Polyhedron, vm: Seq<usize>, m: Seq<(usize, Seq<usize>)>, f: int)
    requires
        ngons_distinct(m),
        0 <= f < vm.len(),
        poly.face(f).len() <= usize::MAX,
    ensures
        assign_all(poly, vm, m)[f] == ({
            let vs = val_of(m, poly.face(f).len() as usize);
            if 0 <= poly.ngon_index(f) < vs.len() {
                vs[poly.ngon_index(f)]
            } else {
                vm[f]
            }
        }),
    decreases m.len(),
{
    let l = poly.face(f).len() as usize;
    if m.len() > 0 {
        let d = m.drop_last();
        assert(ngons_distinct(d)) by {
            assert forall|a: int, b: int| 0 <= a < b < d.len() implies #[trigger] d[a].0 != #[trigger] d[b].0 by {
                assert(m[a].0 != m[b].0);
            }
        }
        lemma_assign_all_at(poly, vm, d, f);
        lemma_assign_len(poly, vm, d);
        if m.last().0 == l {
            assert forall|k: int| 0 <= k < d.len() implies d[k].0 != l by {
                assert(m[k].0 != m[m.len() - 1].0);
            }
            lemma_val_of_none(d, l);
            assert(val_of(m, l) =~= m.last().1);
        } else {
            assert(val_of(m, l) =~= val_of(d, l));
        }
    }
}

/// Applying a lamp's design to pcbdrons of its polyhedra, in order, gives
/// each face of 3 to 10 sides the variant it had, and the others 0: the
/// pcbdron at position `i` takes its variants from what the pcbdrons before
/// it left of the design's variant map.
pub proof fn lemma_design_rebuilds_variants(drons: Seq<Pcbdron>, i: int)
    requires
        0 <= i < drons.len(),
        drons[i].wf(),
    ensures
        forall|f: int|
            0 <= f < drons[i].polyhedron.nf() ==> #[trigger] assign_all(
                drons[i].polyhedron,
                zeros(drons[i].polyhedron.nf()),
                rest_after(drons, designs_merged(drons), i),
            )[f] == if 3 <= drons[i].polyhedron.face(f).len() <= 10 {
                drons[i].variant_map@[f]
            } else {
                0
            },
{
    let poly = drons[i].polyhedron;
    let rest = rest_after(drons, designs_merged(drons), i);
    assert forall|f: int| 0 <= f < poly.nf() implies #[trigger] assign_all(poly, zeros(poly.nf()), rest)[f] == if 3
        <= poly.face(f).len() <= 10 {
        drons[i].variant_map@[f]
    } else {
        0
    } by {
        broadcast use vstd::std_specs::vec::axiom_spec_len;
        assert(poly.faces@[f].len() == poly.face(f).len());
        assert(poly.faces.len() == poly.faces@.len());
        let l = poly.face(f).len() as usize;
        lemma_val_of_rest(drons, i, l);
        lemma_assign_all_at(poly, zeros(poly.nf()), rest, f);
        poly.lemma_ngon_index(f);
        if 3 <= poly.face(f).len() <= 10 {
            let g = drons[i].ngon_variants(l as nat);
            assert(flat_from(drons, i, l) == g + flat_from(drons, i + 1, l));
            assert(l as nat == poly.face(f).len());
            assert(poly.ngons(l as nat)[poly.ngon_index(f)] == f as usize);
            assert(g[poly.ngon_index(f)] == drons[i].variant_map@[f]);
        } else {
            lemma_flat_outside(drons, i, l);
        }
    }
}

/// The first `i` steps of applying the design of `drons` to `drons`
/// themselves: the pcbdrons from `i` on are untouched, the variant map has
/// gone through what the pcbdrons before `i` took, and those took their
/// variants in order.
proof fn lemma_own_design_steps(
    drons: Seq<Pcbdron>,
    design: PcBorsign,
    st: Seq<Seq<Pcbdron>>,
    mid: Seq<Seq<Pcbdron>>,
    vs: Seq<Seq<(usize, Seq<usize>)>>,
    fl: Seq<bool>,
    k: int,
    loaded: Seq<Option<Polyhedron>>,
    i: int,
)
    requires
        design_of(drons, design),
        design_run(st, mid, vs, fl, k, design.polyhedra@, loaded, design.path@),
        st[0] == drons,
        vs[0] == vmap_view(design.variant_map@),
        0 <= i <= k <= drons.len(),
    ensures
        st[i].len() == drons.len(),
        forall|j: int| i <= j < drons.len() ==> #[trigger] st[i][j] == drons[j],
        vs[i] == rest_after(drons, designs_merged(drons), i),
        forall|j: int|
            0 <= j < i ==> (#[trigger] st[i][j]).variant_map@ == assign_all(
                drons[j].polyhedron,
                zeros(drons[j].polyhedron.nf()),
                rest_after(drons, designs_merged(drons), j),
            ),
    decreases i,
{
    if i > 0 {
        let h = i - 1;
        lemma_own_design_steps(drons, design, st, mid, vs, fl, k, loaded, h);
        let names = design.polyhedra@;
        let a = st[h];
        let m = mid[h];
        let b = st[i];
        assert(design_step(st[h], mid[h], st[h + 1], h, names[h], loaded[h], path_at(design.path@, h), vs[h], vs[h + 1], fl[h], fl[h + 1]));
        assert(names[h] == drons[h].polyhedron.name);
        assert(!needs_load(a, h, names[h]));
        assert forall|j: int| 0 <= j < b.len() implies #[trigger] b[j].variant_map == m[j].variant_map by {
            if path_at(design.path@, h) is None || fl[h] {
                if j != h {
                    assert(b[j] == m[j]);
                }
            } else if h < a.len() && a[h].reads_path(path_at(design.path@, h)) {
            } else {
                if j != h {
                    assert(b[j] == m[j]);
                }
            }
        }
        assert forall|j: int| i <= j < drons.len() implies #[trigger] b[j] == drons[j] by {
            assert(m[j] == a[j]);
            if path_at(design.path@, h) is None || fl[h] {
                assert(b[j] == m[j]);
            } else if h < a.len() && a[h].reads_path(path_at(design.path@, h)) {
            } else {
                assert(b[j] == m[j]);
            }
        }
        assert forall|j: int| 0 <= j < i implies (#[trigger] b[j]).variant_map@ == assign_all(
            drons[j].polyhedron,
            zeros(drons[j].polyhedron.nf()),
            rest_after(drons, designs_merged(drons), j),
        ) by {
            assert(b[j].variant_map == m[j].variant_map);
            if j < h {
                assert(m[j] == a[j]);
            }
        }
    }
}

/// A lamp's own design, applied to the lamp (see
/// [`Pcboron::apply_design`](crate::pcboron::Pcboron::apply_design)), gives
/// every face of 3 to 10 sides on each pcbdron it reaches the variant it
/// had, and 0 to the faces with other numbers of sides.
pub proof fn lemma_own_design_gives_variants_back(
    drons: Seq<Pcbdron>,
    design: PcBorsign,
    st: Seq<Seq<Pcbdron>>,
    mid: Seq<Seq<Pcbdron>>,
    vs: Seq<Seq<(usize, Seq<usize>)>>,
    fl: Seq<bool>,
    k: int,
    loaded: Seq<Option<Polyhedron>>,
)
    requires
        forall|j: int| 0 <= j < drons.len() ==> #[trigger] drons[j].wf(),
        design_of(drons, design),
        design_run(st, mid, vs, fl, k, design.polyhedra@, loaded, design.path@),
        st[0] == drons,
        vs[0] == vmap_view(design.variant_map@),
        0 <= k <= design.polyhedra@.len(),
    ensures
        st[k].len() == drons.len(),
        forall|j: int, f: int|
            0 <= j < k && 0 <= f < drons[j].polyhedron.nf() ==> #[trigger] st[k][j].variant_map@[f] == if 3
                <= drons[j].polyhedron.face(f).len() <= 10 {
                drons[j].variant_map@[f]
            } else {
                0
            },
{
    assert(design.polyhedra@.len() == drons.len());
    lemma_own_design_steps(drons, design, st, mid, vs, fl, k, loaded, k);
    assert forall|j: int, f: int| 0 <= j < k && 0 <= f < drons[j].polyhedron.nf() implies #[trigger] st[k][j].variant_map@[f]
        == if 3 <= drons[j].polyhedron.face(f).len() <= 10 {
        drons[j].variant_map@[f]
    } else {
        0
    } by {
        lemma_design_rebuilds_variants(drons, j);
    }
}

/// The pcbdrons that have a path come first.
pub open spec fn paths_first(drons: Seq<Pcbdron>) -> bool {
    forall|j: int, j2: int| 0 <= j < j2 < drons.len() && #[trigger] has_path(drons[j2]) ==> #[trigger] has_path(drons[j])
}

/// The same polyhedron as far as the path goes: the same faces, edges,
/// name, path and visit lists.
pub open spec fn same_poly(a: Polyhedron, b: Polyhedron) -> bool {
    &&& b.faces == a.faces
    &&& b.edges == a.edges
    &&& b.name == a.name
    &&& b.edge_path@ == a.edge_path@
    &&& b.fpi() == a.fpi()
}

/// Where the pcbdrons with a path come first, each of them has its own
/// place in the list of paths of a design, and the others have none.
proof fn lemma_with_path_first(drons: Seq<Pcbdron>)
    requires
        paths_first(drons),
    ensures
        with_path(drons).len() <= drons.len(),
        forall|k: int| 0 <= k < with_path(drons).len() ==> #[trigger] with_path(drons)[k] == k,
        forall|j: int| 0 <= j < drons.len() ==> (#[trigger] has_path(drons[j]) <==> j < with_path(drons).len()),
    decreases drons.len(),
{
    if drons.len() > 0 {
        let d = drons.drop_last();
        assert(paths_first(d)) by {
            assert forall|j: int, j2: int| 0 <= j < j2 < d.len() && #[trigger] has_path(d[j2]) implies #[trigger] has_path(d[j]) by {
                assert(d[j2] == drons[j2] && d[j] == drons[j]);
            }
        }
        lemma_with_path_first(d);
        let last = drons.len() - 1;
        assert forall|j: int| 0 <= j < d.len() implies d[j] == drons[j] by {}
        if has_path(drons[last]) {
            assert forall|j: int| 0 <= j < d.len() implies #[trigger] has_path(d[j]) by {
                assert(has_path(drons[j]));
            }
            assert(with_path(d).len() == d.len()) by {
                if with_path(d).len() < d.len() {
                    assert(has_path(d[with_path(d).len() as int]));
                }
            }
        }
    }
}

/// The first `i` steps of applying the design of `drons`, whose pcbdrons
/// with a path come first, to `drons` themselves keep every polyhedron with
/// its path, and no path fails.
proof fn lemma_own_design_keeps_steps(
    drons: Seq<Pcbdron>,
    design: PcBorsign,
    st: Seq<Seq<Pcbdron>>,
    mid: Seq<Seq<Pcbdron>>,
    vs: Seq<Seq<(usize, Seq<usize>)>>,
    fl: Seq<bool>,
    k: int,
    loaded: Seq<Option<Polyhedron>>,
    i: int,
)
    requires
        forall|j: int| 0 <= j < drons.len() ==> #[trigger] drons[j].wf(),
        paths_first(drons),
        design_of(drons, design),
        design_run(st, mid, vs, fl, k, design.polyhedra@, loaded, design.path@),
        st[0] == drons,
        vs[0] == vmap_view(design.variant_map@),
        0 <= i <= k <= drons.len(),
    ensures
        st[i].len() == drons.len(),
        forall|j: int| 0 <= j < drons.len() ==> same_poly(drons[j].polyhedron, (#[trigger] st[i][j]).polyhedron),
        forall|j: int|
            0 <= j < drons.len() && has_path(drons[j]) ==> (#[trigger] st[i][j]).polyhedron == drons[j].polyhedron,
        !fl[i],
    decreases i,
{
    if i > 0 {
        let h = i - 1;
        lemma_own_design_keeps_steps(drons, design, st, mid, vs, fl, k, loaded, h);
        lemma_own_design_steps(drons, design, st, mid, vs, fl, k, loaded, h);
        lemma_with_path_first(drons);
        let names = design.polyhedra@;
        let paths = design.path@;
        let a = st[h];
        let m = mid[h];
        let b = st[i];
        assert(design_step(st[h], mid[h], st[h + 1], h, names[h], loaded[h], path_at(paths, h), vs[h], vs[h + 1], fl[h], fl[h + 1]));
        assert(names[h] == drons[h].polyhedron.name);
        assert(!needs_load(a, h, names[h]));
        assert(a[h] == drons[h]);
        if has_path(drons[h]) {
            assert(with_path(drons)[h] == h);
            assert(drons[h].reads_path(Some(paths[h])));
            assert(b == m);
        } else {
            let old_p = drons[h].polyhedron;
            let new_p = b[h].polyhedron;
            assert(path_at(paths, h) is None);
            assert(drons[h].wf());
            assert(new_p.edge_path@ =~= old_p.edge_path@);
            assert(new_p.fpi() =~= old_p.fpi()) by {
                assert forall|f: int| 0 <= f < old_p.fpi().len() implies #[trigger] new_p.fpi()[f] == old_p.fpi()[f] by {
                    assert(old_p.face_consistent(f));
                    assert(old_p.fpi()[f] =~= Seq::<usize>::empty());
                    assert(new_p.fpi()[f].len() == 0);
                }
            }
        }
        assert forall|j: int| 0 <= j < drons.len() implies same_poly(drons[j].polyhedron, (#[trigger] b[j]).polyhedron) by {
            if j != h {
                assert(m[j] == a[j]);
                assert(b[j] == m[j]);
            }
        }
        assert forall|j: int| 0 <= j < drons.len() && has_path(drons[j]) implies (#[trigger] b[j]).polyhedron
            == drons[j].polyhedron by {
            if j != h {
                assert(m[j] == a[j]);
                assert(b[j] == m[j]);
            }
        }
    }
}

/// A lamp's own design, applied to the lamp, where the pcbdrons that have a
/// path come first: no path fails, every polyhedron stays as it was (a
/// pcbdron with a path keeps it, one without stays without), and every face
/// of 3 to 10 sides gets back its variant, the others 0.
pub proof fn lemma_own_design_keeps_lamp(
    drons: Seq<Pcbdron>,
    design: PcBorsign,
    st: Seq<Seq<Pcbdron>>,
    mid: Seq<Seq<Pcbdron>>,
    vs: Seq<Seq<(usize, Seq<usize>)>>,
    fl: Seq<bool>,
    k: int,
    loaded: Seq<Option<Polyhedron>>,
)
    requires
        forall|j: int| 0 <= j < drons.len() ==> #[trigger] drons[j].wf(),
        paths_first(drons),
        design_of(drons, design),
        design_run(st, mid, vs, fl, k, design.polyhedra@, loaded, design.path@),
        st[0] == drons,
        vs[0] == vmap_view(design.variant_map@),
        0 <= k <= design.polyhedra@.len(),
    ensures
        !fl[k],
        st[k].len() == drons.len(),
        forall|j: int| 0 <= j < drons.len() ==> same_poly(drons[j].polyhedron, (#[trigger] st[k][j]).polyhedron),
        forall|j: int|
            0 <= j < drons.len() && has_path(drons[j]) ==> (#[trigger] st[k][j]).polyhedron == drons[j].polyhedron,
        forall|j: int, f: int|
            0 <= j < k && 0 <= f < drons[j].polyhedron.nf() ==> #[trigger] st[k][j].variant_map@[f] == if 3
                <= drons[j].polyhedron.face(f).len() <= 10 {
                drons[j].variant_map@[f]
            } else {
                0
            },
{
    assert(design.polyhedra@.len() == drons.len());
    lemma_own_design_keeps_steps(drons, design, st, mid, vs, fl, k, loaded, k);
    lemma_own_design_gives_variants_back(drons, design, st, mid, vs, fl, k, loaded);
}

/// Pcbdrons of the same faces whose faces of 3 to 10 sides carry the same
/// variants have the same design.
proof fn lemma_same_design_upto(a: Pcbdron, b: Pcbdron, k: int)
    requires
        b.polyhedron.faces == a.polyhedron.faces,
        forall|f: int|
            0 <= f < a.polyhedron.nf() && 3 <= a.polyhedron.face(f).len() <= 10 ==> #[trigger] b.variant_map@[f]
                == a.variant_map@[f],
        k <= 11,
    ensures
        b.design_upto(k) == a.design_upto(k),
    decreases k,
{
    if k > 3 {
        lemma_same_design_upto(a, b, k - 1);
        let n = (k - 1) as nat;
        let pa = a.polyhedron;
        assert(b.polyhedron.ngons(n) == pa.ngons(n));
        assert(b.ngon_variants(n) =~= a.ngon_variants(n)) by {
            assert forall|t: int| 0 <= t < pa.ngons(n).len() implies b.variant_map@[pa.ngons(n)[t] as int]
                == a.variant_map@[pa.ngons(n)[t] as int] by {
                pa.lemma_nth_ngon(n, t);
            }
        }
    }
}

/// Lamps whose pcbdrons have the same designs, in order, have the same
/// merged design.
proof fn lemma_same_merged(a: Seq<Pcbdron>, b: Seq<Pcbdron>)
    requires
        b.len() == a.len(),
        forall|j: int| 0 <= j < a.len() ==> (#[trigger] b[j]).design_upto(11) == a[j].design_upto(11),
    ensures
        designs_merged(b) == designs_merged(a),
    decreases a.len(),
{
    if a.len() > 0 {
        assert forall|j: int| 0 <= j < a.len() - 1 implies (#[trigger] b.drop_last()[j]).design_upto(11)
            == a.drop_last()[j].design_upto(11) by {
            assert(b.drop_last()[j] == b[j] && a.drop_last()[j] == a[j]);
        }
        lemma_same_merged(a.drop_last(), b.drop_last());
        assert(b.last().design_upto(11) == a.last().design_upto(11));
    }
}

/// Lamps whose pcbdrons have a path at the same places list them alike.
proof fn lemma_same_with_path(a: Seq<Pcbdron>, b: Seq<Pcbdron>)
    requires
        b.len() == a.len(),
        forall|j: int| 0 <= j < a.len() ==> has_path(#[trigger] b[j]) == has_path(a[j]),
    ensures
        with_path(b) == with_path(a),
    decreases a.len(),
{
    if a.len() > 0 {
        assert forall|j: int| 0 <= j < a.len() - 1 implies has_path(#[trigger] b.drop_last()[j]) == has_path(
            a.drop_last()[j],
        ) by {
            assert(b.drop_last()[j] == b[j] && a.drop_last()[j] == a[j]);
        }
        lemma_same_with_path(a.drop_last(), b.drop_last());
        assert(has_path(b.last()) == has_path(a.last()));
    }
}

/// A lamp's own design, applied to the whole lamp, where the pcbdrons that
/// have a path come first, gives the lamp back its design: the design of
/// the lamp afterwards (see [`crate::pcboron::Pcboron::get_design`]) is the
/// one applied.
pub proof fn lemma_own_design_gives_design_back(
    drons: Seq<Pcbdron>,
    design: PcBorsign,
    st: Seq<Seq<Pcbdron>>,
    mid: Seq<Seq<Pcbdron>>,
    vs: Seq<Seq<(usize, Seq<usize>)>>,
    fl: Seq<bool>,
    loaded: Seq<Option<Polyhedron>>,
)
    requires
        forall|j: int| 0 <= j < drons.len() ==> #[trigger] drons[j].wf(),
        paths_first(drons),
        design_of(drons, design),
        design_run(st, mid, vs, fl, design.polyhedra@.len() as int, design.polyhedra@, loaded, design.path@),
        st[0] == drons,
        vs[0] == vmap_view(design.variant_map@),
    ensures
        !fl[design.polyhedra@.len() as int],
        design_of(st[design.polyhedra@.len() as int], design),
{
    let k = design.polyhedra@.len() as int;
    assert(k == drons.len());
    lemma_own_design_keeps_lamp(drons, design, st, mid, vs, fl, k, loaded);
    let out = st[k];
    assert(out.map_values(|p: Pcbdron| p.polyhedron.name) =~= drons.map_values(|p: Pcbdron| p.polyhedron.name)) by {
        assert forall|j: int| 0 <= j < drons.len() implies out[j].polyhedron.name == drons[j].polyhedron.name by {
            assert(same_poly(drons[j].polyhedron, out[j].polyhedron));
        }
    }
    assert forall|j: int| 0 <= j < drons.len() implies (#[trigger] out[j]).design_upto(11) == drons[j].design_upto(11) by {
        assert(same_poly(drons[j].polyhedron, out[j].polyhedron));
        assert forall|f: int|
            0 <= f < drons[j].polyhedron.nf() && 3 <= drons[j].polyhedron.face(f).len() <= 10 implies #[trigger] out[j].variant_map@[f]
                == drons[j].variant_map@[f] by {
            assert(out[j].variant_map@[f] == if 3 <= drons[j].polyhedron.face(f).len() <= 10 {
                drons[j].variant_map@[f]
            } else {
                0
            });
        }
        lemma_same_design_upto(drons[j], out[j], 11);
    }
    lemma_same_merged(drons, out);
    assert forall|j: int| 0 <= j < drons.len() implies has_path(#[trigger] out[j]) == has_path(drons[j]) by {
        assert(same_poly(drons[j].polyhedron, out[j].polyhedron));
    }
    lemma_same_with_path(drons, out);
    lemma_with_path(drons);
    assert forall|t: int| 0 <= t < design.path@.len() implies #[trigger] out[with_path(out)[t]].reads_path(
        Some(design.path@[t]),
    ) by {
        let j = with_path(drons)[t];
        assert(drons[j].reads_path(Some(design.path@[t])));
        assert(has_path(drons[j]));
        assert(out[j].polyhedron == drons[j].polyhedron);
    }
}

} // verus!
