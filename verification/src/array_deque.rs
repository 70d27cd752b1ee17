use vstd::prelude::*;
use crate::history::{
    all_allowed,
    count_added,
    count_removed,
    lemma_size_counts_calls,
    replay,
    Step,
};
use crate::ring::{
    is_ring,
    lemma_gap_filled,
    lemma_gap_opened,
    lemma_gap_wraps_to_back,
    lemma_gap_wraps_to_front,
    lemma_gapped_is_ring,
    lemma_ring_is_gapped,
    prev_slot,
    reduce,
    reduced,
    relocate,
    ring_items,
    ring_wf,
    shift_gap,
    slot,
    slot_of,
};
use crate::util::{
    allocate,
    grown_capacity,
    item_at,
    referent,
    resized_capacity,
    shrunk_capacity,
};

verus! {

/// A list stored in a circular backing array, so that inserting and
/// removing near either end moves few elements. The array is reallocated
/// as the list grows and shrinks.
#[derive(Debug)]
pub struct ArrayDeque<T> {
    a: Vec<Option<T>>,
    j: usize,
    n: usize,
}

impl<T> View for ArrayDeque<T> {
    type V = Seq<T>;

    /// The list itself, from its first element to its last.
    open spec fn view(&self) -> Seq<T> {
        ring_items(self.slots(), self.spec_offset() as int, self.spec_size() as int)
    }
}

impl<T> ArrayDeque<T> {
    /// The backing array, slot by slot.
    pub closed spec fn slots(&self) -> Seq<Option<T>> {
        self.a@
    }

    /// The slot of the first element.
    pub closed spec fn spec_offset(&self) -> usize {
        self.j
    }

    /// The number of elements in the list.
    pub closed spec fn spec_size(&self) -> usize {
        self.n
    }

    /// The number of slots in the backing array.
    pub open spec fn spec_length(&self) -> usize {
        self.slots().len() as usize
    }

    /// The offset is a slot of the backing array, and exactly the `size`
    /// slots from it on, going round, are populated.
    pub open spec fn wf(&self) -> bool {
        &&& ring_wf(self.slots(), self.spec_offset() as int, self.spec_size() as int)
        &&& self.slots().len() <= usize::MAX
    }

    /// What `get(i)` returns: the `i`-th element, or nothing past the end.
    pub open spec fn spec_get(&self, i: int) -> Option<T> {
        item_at(self@, i)
    }

    /// An empty list over a backing array of `length` slots.
    pub fn new(length: usize) -> (d: Self)
        ensures
            d.wf(),
            d@ == Seq::<T>::empty(),
            d.spec_length() == length,
            d.spec_offset() == 0,
    {
        let a = allocate(length);
        let d = Self { a, j: 0, n: 0 };
        assert(d@ =~= Seq::<T>::empty());
        d
    }

    /// Builds a list from a backing array, the offset of its first
    /// element and an element count. The offset is taken modulo the
    /// capacity; exactly the `n` slots from there on must be populated.
    pub fn from_raw(a: Vec<Option<T>>, offset: usize, n: usize) -> (r: Option<Self>)
        ensures
            r is Some <==> ring_wf(a@, reduced(offset as int, a@.len() as int), n as int),
            r matches Some(q) ==> q.wf() && q.slots() == a@ && q.spec_size() == n
                && q.spec_offset() == reduced(offset as int, a@.len() as int),
    {
        let j = reduce(offset, a.len());
        if is_ring(&a, j, n) {
            assert(a.len() == a@.len());
            Some(Self { a, j, n })
        } else {
            None
        }
    }

    /// The capacity of the backing array.
    #[verifier::when_used_as_spec(spec_length)]
    pub fn length(&self) -> (l: usize)
        ensures
            l == self.spec_length(),
    {
        self.a.len()
    }

    /// The number of elements.
    #[verifier::when_used_as_spec(spec_size)]
    pub fn size(&self) -> (n: usize)
        ensures
            n == self.spec_size(),
            self.wf() ==> n == self@.len(),
    {
        self.n
    }

    /// The slot of the first element.
    #[verifier::when_used_as_spec(spec_offset)]
    pub fn offset(&self) -> (j: usize)
        ensures
            j == self.spec_offset(),
    {
        self.j
    }

    /// The content of slot `k` of the backing array.
    pub fn slot(&self, k: usize) -> (r: Option<&T>)
        ensures
            referent(r) == if k < self.slots().len() {
                self.slots()[k as int]
            } else {
                None
            },
    {
        if k < self.a.len() {
            self.a[k].as_ref()
        } else {
            None
        }
    }

    /// The element at index `i`, if there is one.
    pub fn get(&self, i: usize) -> (r: Option<&T>)
        requires
            self.wf(),
        ensures
            referent(r) == self.spec_get(i as int),
    {
        if i >= self.n {
            return None;
        }
        let p = slot(self.j, i, self.a.len());
        self.a[p].as_ref()
    }

    /// Replaces the element at index `i` by `x` and returns the element
    /// that was there. Past the end nothing is stored and nothing returned.
    pub fn set(&mut self, i: usize, x: T) -> (r: Option<T>)
        requires
            old(self).wf(),
        ensures
            final(self).wf(),
            final(self).spec_length() == old(self).spec_length(),
            final(self).spec_offset() == old(self).spec_offset(),
            i < old(self)@.len() ==> r == Some(old(self)@[i as int])
                && final(self)@ == old(self)@.update(i as int, x),
            i >= old(self)@.len() ==> r is None && *final(self) == *old(self),
    {
        if i >= self.n {
            return None;
        }
        let p = slot(self.j, i, self.a.len());
        let r = self.a[p].take();
        self.a[p] = Some(x);
        assert(self@ =~= old(self)@.update(i as int, x));
        r
    }

    /// Reallocates the backing array to twice the number of elements (one
    /// slot for an empty list) and moves the elements to its start.
    pub fn resize(&mut self)
        requires
            old(self).wf(),
            2 * old(self)@.len() <= usize::MAX,
        ensures
            final(self).wf(),
            final(self)@ == old(self)@,
            final(self).spec_length() == resized_capacity(old(self)@.len() as int),
            final(self).spec_offset() == 0,
    {
        let cap: usize = if self.n == 0 {
            1
        } else {
            2 * self.n
        };
        let b = relocate(&mut self.a, self.j, self.n, cap);
        self.a = b;
        self.j = 0;
        assert(self@ =~= old(self)@);
    }

    /// Inserts `x` at index `i`. Of the elements before `i` and those from
    /// `i` on, the smaller part moves one slot away to make room: the part
    /// before `i` when `i` is less than half the size, rounded up. A full
    /// backing array is reallocated first.
    pub fn add(&mut self, i: usize, x: T)
        requires
            old(self).wf(),
            i <= old(self)@.len(),
            old(self).spec_size() == old(self).spec_length() ==> 2 * old(self)@.len()
                <= usize::MAX,
        ensures
            final(self)@ == Step::Add(i as int, x).after(old(self)@),
            final(self).wf(),
            final(self)@ == old(self)@.insert(i as int, x),
            final(self)@.len() == old(self)@.len() + 1,
            final(self).spec_length() == grown_capacity(
                old(self)@.len() as int,
                old(self).spec_length() as int,
            ),
            final(self).spec_offset() == ({
                let origin: int = if old(self).spec_size() == old(self).spec_length() {
                    0
                } else {
                    old(self).spec_offset() as int
                };
                if i < (old(self)@.len() + 1) / 2 {
                    prev_slot(origin, final(self).spec_length() as int)
                } else {
                    origin
                }
            }),
    {
        if self.n >= self.a.len() {
            self.resize();
        }
        let ghost items = self@;
        let cap = self.a.len();
        let n = self.n;
        proof {
            lemma_ring_is_gapped(self.a@, self.j as int, n as int);
        }
        let old_j = self.j;
        if i < n / 2 + n % 2 {
            self.j = if self.j == 0 {
                cap - 1
            } else {
                self.j - 1
            };
            proof {
                lemma_gap_wraps_to_front(self.a@, items, old_j as int);
            }
            shift_gap(&mut self.a, self.j, 0, i, Ghost(items));
        } else {
            shift_gap(&mut self.a, self.j, n, i, Ghost(items));
        }
        let p = slot(self.j, i, cap);
        proof {
            lemma_gap_filled(self.a@, items, self.j as int, i as int, x);
        }
        self.a[p] = Some(x);
        self.n = n + 1;
        proof {
            lemma_gapped_is_ring(self.a@, items.insert(i as int, x), self.j as int);
        }
    }

    /// Removes the element at index `i` and returns it; past the end
    /// nothing happens. Of the elements before `i` and those after it, the
    /// smaller part moves one slot closer to fill the place: the part before
    /// `i` when `i` is less than half the size, rounded up. A backing array
    /// at least three times as long as the list is reallocated.
    pub fn remove(&mut self, i: usize) -> (r: Option<T>)
        requires
            old(self).wf(),
        ensures
            final(self)@ == Step::Remove(i as int).after(old(self)@),
            r is Some <==> Step::<T>::Remove(i as int).yields(old(self)@.len() as int),
            final(self).wf(),
            i >= old(self)@.len() ==> r is None && *final(self) == *old(self),
            i < old(self)@.len() ==> r == Some(old(self)@[i as int])
                && final(self)@ == old(self)@.remove(i as int)
                && final(self)@.len() == old(self)@.len() - 1,
            i < old(self)@.len() ==> final(self).spec_length() == shrunk_capacity(
                old(self)@.len() - 1,
                old(self).spec_length() as int,
            ),
            i < old(self)@.len() ==> final(self).spec_offset() == if old(self).spec_length() >= 3
                * (old(self)@.len() - 1) {
                0
            } else if i < (old(self)@.len() + 1) / 2 {
                slot_of(old(self).spec_offset() as int, 1, old(self).spec_length() as int)
            } else {
                old(self).spec_offset() as int
            },
    {
        if i >= self.n {
            return None;
        }
        let ghost items = self@.remove(i as int);
        let cap = self.a.len();
        let n = self.n;
        proof {
            lemma_ring_is_gapped(self.a@, self.j as int, n as int);
            lemma_gap_opened(self.a@, self@, self.j as int, i as int);
        }
        let p = slot(self.j, i, cap);
        let r = self.a[p].take();
        if i < n / 2 + n % 2 {
            shift_gap(&mut self.a, self.j, i, 0, Ghost(items));
            proof {
                lemma_gap_wraps_to_back(self.a@, items, self.j as int);
            }
            self.j = if self.j + 1 == cap {
                0
            } else {
                self.j + 1
            };
        } else {
            shift_gap(&mut self.a, self.j, i, n - 1, Ghost(items));
        }
        self.n = n - 1;
        proof {
            lemma_gapped_is_ring(self.a@, items, self.j as int);
        }
        if self.n <= cap / 3 {
            self.resize();
        }
        r
    }

    /// What `set` stores at an index of the list, `get` finds there.
    pub proof fn lemma_set_then_get(before: &Self, after: &Self, i: usize, x: T)
        requires
            before.wf(),
            after.wf(),
            i < before@.len(),
            after@ == before@.update(i as int, x),
        ensures
            after.spec_get(i as int) == Some(x),
    {
    }

    /// A list that came from an empty one by a sequence of insertions and
    /// removals has as many elements as there were insertions, less the
    /// removals that returned an element, and they fit in its slots.
    pub proof fn lemma_size_counts_calls(&self, steps: Seq<Step<T>>)
        requires
            self.wf(),
            all_allowed(Seq::<T>::empty(), steps),
            self@ == replay(Seq::<T>::empty(), steps),
        ensures
            self@.len() == count_added(steps) - count_removed(Seq::<T>::empty(), steps),
            self.spec_size() == self@.len(),
            self@.len() <= self.spec_length(),
    {
        lemma_size_counts_calls(Seq::<T>::empty(), steps);
    }
}

} // verus!
