use vstd::prelude::*;

verus! {

/// One call that changes a list: an insertion of an element at an index,
/// or a removal at an index.
pub enum Step<T> {
    Add(int, T),
    Remove(int),
}

impl<T> Step<T> {
    /// The call may be made on a list of `n` elements: an insertion names
    /// an index up to `n`, a removal any index from 0 on.
    pub open spec fn allowed(self, n: int) -> bool {
        match self {
            Step::Add(i, _) => 0 <= i <= n,
            Step::Remove(i) => 0 <= i,
        }
    }

    /// The call is an insertion.
    pub open spec fn adds(self) -> bool {
        self is Add
    }

    /// The call is a removal that returns an element from a list of `n`
    /// elements: its index is below `n`.
    pub open spec fn yields(self, n: int) -> bool {
        match self {
            Step::Add(_, _) => false,
            Step::Remove(i) => 0 <= i < n,
        }
    }

    /// The list after the call: with the element inserted, with the
    /// element at the index removed, or as it was where the removal finds
    /// no element.
    pub open spec fn after(self, items: Seq<T>) -> Seq<T> {
        match self {
            Step::Add(i, x) => items.insert(i, x),
            Step::Remove(i) => if 0 <= i < items.len() {
                items.remove(i)
            } else {
                items
            },
        }
    }
}

/// The list after the calls `steps` were made, in order, on the list
/// `start`.
pub open spec fn replay<T>(start: Seq<T>, steps: Seq<Step<T>>) -> Seq<T>
    decreases steps.len(),
{
    if steps.len() == 0 {
        start
    } else {
        steps.last().after(replay(start, steps.drop_last()))
    }
}

/// Each of the calls `steps` may be made on the list that the calls
/// before it leave.
pub open spec fn all_allowed<T>(start: Seq<T>, steps: Seq<Step<T>>) -> bool
    decreases steps.len(),
{
    steps.len() > 0 ==> all_allowed(start, steps.drop_last()) && steps.last().allowed(
        replay(start, steps.drop_last()).len() as int,
    )
}

/// The number of insertions among the calls `steps`.
pub open spec fn count_added<T>(steps: Seq<Step<T>>) -> int
    decreases steps.len(),
{
    if steps.len() == 0 {
        0
    } else {
        count_added(steps.drop_last()) + if steps.last().adds() {
            1int
        } else {
            0int
        }
    }
}

/// The number of removals among the calls `steps` that return an element
/// when the calls are made, in order, on the list `start`.
pub open spec fn count_removed<T>(start: Seq<T>, steps: Seq<Step<T>>) -> int
    decreases steps.len(),
{
    if steps.len() == 0 {
        0
    } else {
        count_removed(start, steps.drop_last()) + if steps.last().yields(
            replay(start, steps.drop_last()).len() as int,
        ) {
            1int
        } else {
            0int
        }
    }
}

/// After any sequence of insertions and removals a list has as many
/// elements as it had, plus the insertions, minus the removals that
/// returned an element.
pub proof fn lemma_size_counts_calls<T>(start: Seq<T>, steps: Seq<Step<T>>)
    requires
        all_allowed(start, steps),
    ensures
        replay(start, steps).len() == start.len() + count_added(steps) - count_removed(
            start,
            steps,
        ),
        0 <= count_removed(start, steps) <= start.len() + count_added(steps),
    decreases steps.len(),
{
    if steps.len() > 0 {
        lemma_size_counts_calls(start, steps.drop_last());
    }
}

} // verus!
