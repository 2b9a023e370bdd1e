//! Helpers on sequences of items.

use vstd::prelude::*;

verus! {

/// The last item but one of a sequence, where it has two.
pub open spec fn last_but_one<T>(items: Seq<T>) -> Option<T> {
    if items.len() >= 2 {
        Some(items[items.len() - 2])
    } else {
        None
    }
}

/// The last item of a sequence, where it has one.
pub open spec fn last_of<T>(items: Seq<T>) -> Option<T> {
    if items.len() >= 1 {
        Some(items[items.len() - 1])
    } else {
        None
    }
}

/// The last two items, the earlier one first; `None` for each that the
/// sequence is too short to have.
pub fn last_two<T>(items: Vec<T>) -> (r: (Option<T>, Option<T>))
    ensures
        r.0 == last_but_one(items@),
        r.1 == last_of(items@),
{
    let mut items = items;
    let last = items.pop();
    let prev = items.pop();
    (prev, last)
}

} // verus!
