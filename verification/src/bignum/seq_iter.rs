//! Sequential stand-in for a parallel `for_each` over a slice, for targets
//! without threads.
use vstd::prelude::*;

verus! {

/// Call `f` on each item, in order.
pub fn for_each<T, F: Fn(&T)>(items: &[T], f: F)
    requires
        forall|i: int| 0 <= i < items@.len() ==> #[trigger] call_requires(f, (&items@[i],)),
    ensures
        forall|i: int| 0 <= i < items@.len() ==> #[trigger] call_ensures(f, (&items@[i],), ()),
{
    let mut i: usize = 0;
    while i < items.len()
        invariant
            i <= items@.len(),
            forall|i: int| 0 <= i < items@.len() ==> #[trigger] call_requires(f, (&items@[i],)),
            forall|j: int| 0 <= j < i ==> #[trigger] call_ensures(f, (&items@[j],), ()),
        decreases items@.len() - i,
    {
        f(&items[i]);
        i = i + 1;
    }
}

} // verus!
