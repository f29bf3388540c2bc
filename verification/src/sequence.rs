//! Taking the items of a vector out one by one, in their order.
use vstd::prelude::*;

verus! {

/// The items of `v` in reverse order, so that `pop` hands them out first to
/// last.
pub fn reversed<T>(v: Vec<T>) -> (r: Vec<T>)
    ensures
        r@ == v@.reverse(),
{
    let ghost items = v@;
    let mut v = v;
    let mut r: Vec<T> = Vec::with_capacity(v.len());
    while v.len() > 0
        invariant
            v@.len() + r@.len() == items.len(),
            forall|i: int| 0 <= i < v@.len() ==> v@[i] == items[i],
            forall|i: int| 0 <= i < r@.len() ==> r@[i] == items[items.len() - 1 - i],
        decreases v@.len(),
    {
        let last = v.pop().unwrap();
        r.push(last);
    }
    assert(r@ =~= items.reverse());
    r
}

} // verus!
