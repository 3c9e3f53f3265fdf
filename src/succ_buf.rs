use vstd::prelude::*;
use crate::solver::{Move, State};

verus! {

#[verifier::external_type_specification]
#[verifier::external_body]
#[verifier::reject_recursive_types(T)]
pub struct ExHeaplessVec<T, const N: usize>(heapless::Vec<T, N>);

/// What a successor buffer holds, front to back.
pub uninterp spec fn buf_items(v: heapless::Vec<(Move, State), 12>) -> Seq<(Move, State)>;

/// Relies on heapless::Vec::new: the new vector is empty.
#[verifier::external_body]
pub(crate) fn buf_new() -> (r: heapless::Vec<(Move, State), 12>)
    ensures
        buf_items(r) == Seq::<(Move, State)>::empty(),
{
    heapless::Vec::new()
}

/// Relies on heapless::Vec::push: below the capacity of 12 the item is
/// appended and `Ok` returned; at the capacity the vector is left as it was
/// and the item handed back.
#[verifier::external_body]
pub(crate) fn buf_push(v: &mut heapless::Vec<(Move, State), 12>, item: (Move, State)) -> (r: Result<(), (Move, State)>)
    ensures
        r is Ok <==> buf_items(*old(v)).len() < 12,
        r is Ok ==> buf_items(*final(v)) == buf_items(*old(v)).push(item),
        r is Err ==> buf_items(*final(v)) == buf_items(*old(v)) && r->Err_0 == item,
{
    v.push(item)
}

/// Relies on heapless::Vec::as_slice: the slice holds the items in order.
#[verifier::external_body]
pub(crate) fn buf_as_slice(v: &heapless::Vec<(Move, State), 12>) -> (r: &[(Move, State)])
    ensures
        r@ == buf_items(*v),
{
    v.as_slice()
}

} // verus!
