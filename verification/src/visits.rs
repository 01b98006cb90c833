//! The per-face list of path positions, kept in a `smallvec::SmallVec`.
use smallvec::SmallVec;
use vstd::prelude::*;

verus! {

/// The positions in the path at which one face is crossed, held in a
/// `smallvec::SmallVec` (most faces are crossed once or twice).
#[verifier::external_body]
pub struct Visits {
    inner: SmallVec<[usize; 2]>,
}

/// The items that a visit list holds, in order.
pub uninterp spec fn visits(v: Visits) -> Seq<usize>;

/// `SmallVec::new`: an empty list.
#[verifier::external_body]
pub(crate) fn visits_new() -> (r: Visits)
    ensures
        visits(r) == Seq::<usize>::empty(),
{
    Visits { inner: SmallVec::new() }
}

/// `SmallVec::push`: appends `x`. (It panics only when the length would pass
/// `usize::MAX`, which no list of `usize` in memory can reach.)
#[verifier::external_body]
pub(crate) fn visits_push(v: &mut Visits, x: usize)
    ensures
        visits(*final(v)) == visits(*old(v)).push(x),
{
    v.inner.push(x)
}

/// `SmallVec::pop`: removes and returns the last item, `None` when empty.
#[verifier::external_body]
pub(crate) fn visits_pop(v: &mut Visits) -> (r: Option<usize>)
    ensures
        visits(*old(v)).len() == 0 ==> r is None && visits(*final(v)) == visits(*old(v)),
        visits(*old(v)).len() > 0 ==> r == Some(visits(*old(v)).last()) && visits(*final(v))
            == visits(*old(v)).drop_last(),
{
    v.inner.pop()
}

/// `SmallVec::is_empty`.
#[verifier::external_body]
pub(crate) fn visits_is_empty(v: &Visits) -> (r: bool)
    ensures
        r == (visits(*v).len() == 0),
{
    v.inner.is_empty()
}

/// `SmallVec::len`.
#[verifier::external_body]
pub(crate) fn visits_len(v: &Visits) -> (r: usize)
    ensures
        r == visits(*v).len(),
{
    v.inner.len()
}

/// Indexing a `SmallVec` (through its `Index` impl) at a position in range.
#[verifier::external_body]
pub(crate) fn visits_get(v: &Visits, i: usize) -> (r: usize)
    requires
        i < visits(*v).len(),
    ensures
        r == visits(*v)[i as int],
{
    v.inner[i]
}

/// `SmallVec::clear`: removes every item.
#[verifier::external_body]
pub(crate) fn visits_clear(v: &mut Visits)
    ensures
        visits(*final(v)) == Seq::<usize>::empty(),
{
    v.inner.clear()
}

} // verus!
