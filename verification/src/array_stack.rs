use vstd::prelude::*;
use crate::history::{
    all_allowed,
    count_added,
    count_removed,
    lemma_size_counts_calls,
    replay,
    Step,
};
use crate::util::{
    allocate,
    filled_to,
    grown_capacity,
    is_filled_to,
    item_at,
    prefix_items,
    referent,
    resized_capacity,
    shrunk_capacity,
};

verus! {

/// A list stored in the first slots of a backing array that is reallocated
/// as the list grows and shrinks.
#[derive(Debug)]
pub struct ArrayStack<T> {
    a: Vec<Option<T>>,
    n: usize,
}

impl<T> View for ArrayStack<T> {
    type V = Seq<T>;

    /// The list itself: the elements of slots `0..size`, in order.
    open spec fn view(&self) -> Seq<T> {
        prefix_items(self.slots(), self.spec_size() as int)
    }
}

impl<T> ArrayStack<T> {
    /// The backing array, slot by slot.
    pub closed spec fn slots(&self) -> Seq<Option<T>> {
        self.a@
    }

    /// The number of elements in the list.
    pub closed spec fn spec_size(&self) -> usize {
        self.n
    }

    /// The number of slots in the backing array.
    pub open spec fn spec_length(&self) -> usize {
        self.slots().len() as usize
    }

    /// Slots `0..size` are populated, every slot from `size` on is empty.
    pub open spec fn wf(&self) -> bool {
        &&& filled_to(self.slots(), self.spec_size() as int)
        &&& self.slots().len() <= usize::MAX
    }

    /// What `get(i)` returns: the `i`-th element, or nothing past the end.
    pub open spec fn spec_get(&self, i: int) -> Option<T> {
        item_at(self@, i)
    }

    /// An empty list over a backing array of `length` slots.
    pub fn new(length: usize) -> (s: Self)
        ensures
            s.wf(),
            s@ == Seq::<T>::empty(),
            s.spec_length() == length,
    {
        let a = allocate(length);
        let s = Self { a, n: 0 };
        assert(s@ =~= Seq::<T>::empty());
        s
    }

    /// Builds a list from a backing array and an element count, provided
    /// that exactly the first `n` slots are populated.
    pub fn from_raw(a: Vec<Option<T>>, n: usize) -> (r: Option<Self>)
        ensures
            r is Some <==> filled_to(a@, n as int),
            r matches Some(s) ==> s.wf() && s.slots() == a@ && s.spec_size() == n,
    {
        if is_filled_to(&a, n) {
            assert(a.len() == a@.len());
            Some(Self { a, n })
        } else {
            None
        }
    }

    /// Assembles a list from parts that are known to fit together.
    pub(crate) fn from_parts(a: Vec<Option<T>>, n: usize) -> (s: Self)
        requires
            filled_to(a@, n as int),
        ensures
            s.wf(),
            s.slots() == a@,
            s.spec_size() == n,
    {
        assert(a.len() == a@.len());
        Self { a, n }
    }

    /// The capacity of the backing array.
    #[verifier::when_used_as_spec(spec_length)]
    pub fn length(&self) -> (l: usize)
        ensures
            l == self.spec_length(),
    {
        self.a.len()
    }

    /// The number of elements.
    #[verifier::when_used_as_spec(spec_size)]
    pub fn size(&self) -> (n: usize)
        ensures
            n == self.spec_size(),
            self.wf() ==> n == self@.len(),
    {
        self.n
    }

    /// The element at index `i`, if there is one.
    pub fn get(&self, i: usize) -> (r: Option<&T>)
        requires
            self.wf(),
        ensures
            referent(r) == self.spec_get(i as int),
    {
        if i < self.a.len() {
            self.a[i].as_ref()
        } else {
            None
        }
    }

    /// Replaces the element at index `i` by `x` and returns the element
    /// that was there. Past the end nothing is stored and nothing returned.
    pub fn set(&mut self, i: usize, x: T) -> (r: Option<T>)
        requires
            old(self).wf(),
        ensures
            final(self).wf(),
            final(self).spec_length() == old(self).spec_length(),
            i < old(self)@.len() ==> r == Some(old(self)@[i as int])
                && final(self)@ == old(self)@.update(i as int, x),
            i >= old(self)@.len() ==> r is None && *final(self) == *old(self),
    {
        if i < self.n {
            let r = self.a[i].take();
            self.a[i] = Some(x);
            assert(self@ =~= old(self)@.update(i as int, x));
            r
        } else {
            None
        }
    }

    /// Empties slot `i` and returns what it held, leaving the count as it is.
    pub(crate) fn take(&mut self, i: usize) -> (r: Option<T>)
        requires
            i < old(self).slots().len(),
        ensures
            r == old(self).slots()[i as int],
            final(self).slots() == old(self).slots().update(i as int, None),
            final(self).spec_size() == old(self).spec_size(),
    {
        self.a[i].take()
    }

    /// Reallocates the backing array to twice the number of elements (one
    /// slot for an empty list) and moves the elements over.
    pub fn resize(&mut self)
        requires
            old(self).wf(),
            2 * old(self)@.len() <= usize::MAX,
        ensures
            final(self).wf(),
            final(self)@ == old(self)@,
            final(self).spec_length() == resized_capacity(old(self)@.len() as int),
    {
        let cap: usize = if self.n == 0 {
            1
        } else {
            2 * self.n
        };
        let mut b: Vec<Option<T>> = allocate(cap);
        let mut k: usize = 0;
        while k < self.n
            invariant
                k <= self.n,
                self.n == old(self).n,
                self.n <= cap,
                b@.len() == cap,
                self.a@.len() == old(self).a@.len(),
                old(self).wf(),
                forall|m: int| 0 <= m < k ==> b@[m] == old(self).a@[m],
                forall|m: int| k <= m < cap ==> b@[m] is None,
                forall|m: int| k <= m < self.a@.len() ==> self.a@[m] == old(self).a@[m],
            decreases self.n - k,
        {
            let t = self.a[k].take();
            b[k] = t;
            k += 1;
        }
        self.a = b;
        assert(self@ =~= old(self)@);
    }

    /// Inserts `x` at index `i`, moving the elements from `i` on one place
    /// up. A full backing array is reallocated first.
    pub fn add(&mut self, i: usize, x: T)
        requires
            old(self).wf(),
            i <= old(self)@.len(),
            old(self).spec_size() == old(self).spec_length() ==> 2 * old(self)@.len()
                <= usize::MAX,
        ensures
            final(self)@ == Step::Add(i as int, x).after(old(self)@),
            final(self).wf(),
            final(self)@ == old(self)@.insert(i as int, x),
            final(self)@.len() == old(self)@.len() + 1,
            final(self).spec_length() == grown_capacity(
                old(self)@.len() as int,
                old(self).spec_length() as int,
            ),
    {
        if self.n >= self.a.len() {
            self.resize();
        }
        let ghost before = self.a@;
        let n = self.n;
        let mut k: usize = n;
        while k > i
            invariant
                i <= k <= n,
                n == self.n,
                n < before.len(),
                self.a@.len() == before.len(),
                filled_to(before, n as int),
                forall|m: int| 0 <= m < k ==> #[trigger] self.a@[m] == before[m],
                self.a@[k as int] is None,
                forall|m: int| k < m <= n ==> #[trigger] self.a@[m] == before[m - 1],
                forall|m: int| n < m < before.len() ==> (#[trigger] self.a@[m]) is None,
            decreases k,
        {
            let t = self.a[k - 1].take();
            self.a[k] = t;
            k -= 1;
        }
        self.a[i] = Some(x);
        self.n = n + 1;
        assert(self@ =~= old(self)@.insert(i as int, x));
    }

    /// Removes the element at index `i` and returns it, moving the elements
    /// after it one place down; past the end nothing happens. A backing
    /// array at least three times as long as the list is reallocated.
    pub fn remove(&mut self, i: usize) -> (r: Option<T>)
        requires
            old(self).wf(),
        ensures
            final(self)@ == Step::Remove(i as int).after(old(self)@),
            r is Some <==> Step::<T>::Remove(i as int).yields(old(self)@.len() as int),
            final(self).wf(),
            i < old(self)@.len() ==> r == Some(old(self)@[i as int])
                && final(self)@ == old(self)@.remove(i as int)
                && final(self)@.len() == old(self)@.len() - 1,
            i < old(self)@.len() ==> final(self).spec_length() == shrunk_capacity(
                old(self)@.len() - 1,
                old(self).spec_length() as int,
            ),
            i >= old(self)@.len() ==> r is None && *final(self) == *old(self),
    {
        if i >= self.n {
            return None;
        }
        let n = self.n;
        let r = self.a[i].take();
        let mut k: usize = i;
        while k + 1 < n
            invariant
                i <= k < n,
                n == self.n,
                n <= self.a@.len(),
                self.a@.len() == old(self).a@.len(),
                old(self).wf(),
                n == old(self).n,
                forall|m: int| 0 <= m < i ==> #[trigger] self.a@[m] == old(self).a@[m],
                forall|m: int| i <= m < k ==> #[trigger] self.a@[m] == old(self).a@[m + 1],
                self.a@[k as int] is None,
                forall|m: int| k < m < self.a@.len() ==> #[trigger] self.a@[m] == old(self).a@[m],
            decreases n - k,
        {
            let t = self.a[k + 1].take();
            self.a[k] = t;
            k += 1;
        }
        self.n = n - 1;
        assert(self.wf());
        assert(self@ =~= old(self)@.remove(i as int));
        if self.n <= self.a.len() / 3 {
            self.resize();
        }
        r
    }

    /// What `set` stores at an index of the list, `get` finds there.
    pub proof fn lemma_set_then_get(before: &Self, after: &Self, i: usize, x: T)
        requires
            before.wf(),
            after.wf(),
            i < before@.len(),
            after@ == before@.update(i as int, x),
        ensures
            after.spec_get(i as int) == Some(x),
    {
    }

    /// A list that came from an empty one by a sequence of insertions and
    /// removals has as many elements as there were insertions, less the
    /// removals that returned an element, and they fit in its slots.
    pub proof fn lemma_size_counts_calls(&self, steps: Seq<Step<T>>)
        requires
            self.wf(),
            all_allowed(Seq::<T>::empty(), steps),
            self@ == replay(Seq::<T>::empty(), steps),
        ensures
            self@.len() == count_added(steps) - count_removed(Seq::<T>::empty(), steps),
            self.spec_size() == self@.len(),
            self@.len() <= self.spec_length(),
    {
        lemma_size_counts_calls(Seq::<T>::empty(), steps);
    }
}

} // verus!
