use vstd::prelude::*;
use crate::history::{
    all_allowed,
    count_added,
    count_removed,
    lemma_size_counts_calls,
    replay,
    Step,
};
use crate::array_stack::ArrayStack;
use crate::util::{
    allocate,
    filled_to,
    grown_capacity,
    item_at,
    prefix_items,
    referent,
    resized_capacity,
    shrunk_capacity,
};

verus! {

/// The sizes and capacities of the two stacks of a `DualArrayDeque`.
pub struct Shape {
    pub front_size: int,
    pub front_length: int,
    pub back_size: int,
    pub back_length: int,
}

impl Shape {
    /// The number of elements in both stacks together.
    pub open spec fn size(self) -> int {
        self.front_size + self.back_size
    }

    /// One stack holds more than three times as many elements as the other.
    pub open spec fn skewed(self) -> bool {
        3 * self.front_size < self.back_size || 3 * self.back_size < self.front_size
    }

    /// Neither stack holds more than three times as many elements as the
    /// other, but for a back of one element more.
    pub open spec fn even(self) -> bool {
        self.front_size <= 3 * self.back_size && self.back_size <= 3 * self.front_size + 1
    }

    /// The shape after rebalancing: a skewed deque gives half of its
    /// elements, rounded down, to the front and the rest to the back, each
    /// in a fresh array; any other deque stays as it is.
    pub open spec fn balanced(self) -> Shape {
        if self.skewed() {
            let nf = self.size() / 2;
            let nb = self.size() - nf;
            Shape {
                front_size: nf,
                front_length: resized_capacity(nf),
                back_size: nb,
                back_length: resized_capacity(nb),
            }
        } else {
            self
        }
    }

    /// The shape after an element is inserted at index `i`, before any
    /// rebalancing: the stack that owns the index grows by one element,
    /// and is reallocated first if it was full.
    pub open spec fn grown(self, i: int) -> Shape {
        if i < self.front_size {
            Shape {
                front_size: self.front_size + 1,
                front_length: grown_capacity(self.front_size, self.front_length),
                ..self
            }
        } else {
            Shape {
                back_size: self.back_size + 1,
                back_length: grown_capacity(self.back_size, self.back_length),
                ..self
            }
        }
    }

    /// The shape after the element at index `i` is removed, before any
    /// rebalancing: the stack that owns the index shrinks by one element,
    /// and is reallocated if its array is then at least three times as
    /// long as its list.
    pub open spec fn shrunk(self, i: int) -> Shape {
        if i < self.front_size {
            Shape {
                front_size: self.front_size - 1,
                front_length: shrunk_capacity(self.front_size - 1, self.front_length),
                ..self
            }
        } else {
            Shape {
                back_size: self.back_size - 1,
                back_length: shrunk_capacity(self.back_size - 1, self.back_length),
                ..self
            }
        }
    }

    /// Rebalancing leaves no stack with more than three times the elements
    /// of the other, but for a back of one element more.
    pub proof fn lemma_balanced_is_even(self)
        requires
            0 <= self.front_size,
            0 <= self.back_size,
        ensures
            self.balanced().even(),
            self.balanced().size() == self.size(),
    {
    }

    /// After an insertion and the rebalancing that follows it the deque
    /// has one element more, and no stack has more than three times the
    /// elements of the other, but for a back of one element more.
    pub proof fn lemma_add_stays_even(self, i: int)
        requires
            0 <= self.front_size,
            0 <= self.back_size,
            0 <= i <= self.size(),
        ensures
            self.grown(i).balanced().even(),
            self.grown(i).balanced().size() == self.size() + 1,
    {
    }

    /// After a removal and the rebalancing that follows it the deque has
    /// one element less, and no stack has more than three times the
    /// elements of the other, but for a back of one element more.
    pub proof fn lemma_remove_stays_even(self, i: int)
        requires
            0 <= self.front_size,
            0 <= self.back_size,
            0 <= i < self.size(),
        ensures
            self.shrunk(i).balanced().even(),
            self.shrunk(i).balanced().size() == self.size() - 1,
    {
    }
}

/// The list that two slot arrays hold back to back: the first `f` slots of
/// `fs` read backwards, then the first `b` slots of `bs`.
pub open spec fn joined<T>(fs: Seq<Option<T>>, f: int, bs: Seq<Option<T>>, b: int) -> Seq<T> {
    prefix_items(fs, f).reverse() + prefix_items(bs, b)
}

/// The slot arrays `front` and `back` are `fs` and `bs` with the slots of
/// the first `k` elements of their list emptied.
#[verifier::opaque]
spec fn drained<T>(
    front: Seq<Option<T>>,
    back: Seq<Option<T>>,
    fs: Seq<Option<T>>,
    f: int,
    bs: Seq<Option<T>>,
    k: int,
) -> bool {
    &&& front.len() == fs.len()
    &&& back.len() == bs.len()
    &&& forall|m: int|
        0 <= m < fs.len() ==> #[trigger] front[m] == if m + k < f {
            fs[m]
        } else {
            None
        }
    &&& forall|m: int|
        0 <= m < bs.len() ==> #[trigger] back[m] == if m + f >= k {
            bs[m]
        } else {
            None
        }
}

/// Slot arrays filled to `f` and `b` have none of their elements' slots
/// emptied.
proof fn lemma_drained_none<T>(fs: Seq<Option<T>>, f: int, bs: Seq<Option<T>>, b: int)
    requires
        filled_to(fs, f),
        filled_to(bs, b),
    ensures
        drained(fs, bs, fs, f, bs, 0),
{
    reveal(drained);
}

/// Emptying the slot of element `k` leaves the slots of the first `k + 1`
/// elements emptied, and what the slot held is element `k`.
proof fn lemma_drained_next<T>(
    front: Seq<Option<T>>,
    back: Seq<Option<T>>,
    fs: Seq<Option<T>>,
    f: int,
    bs: Seq<Option<T>>,
    b: int,
    k: int,
)
    requires
        filled_to(fs, f),
        filled_to(bs, b),
        drained(front, back, fs, f, bs, k),
        0 <= k < f + b,
    ensures
        k < f ==> front[f - k - 1] == Some(joined(fs, f, bs, b)[k]) && drained(
            front.update(f - k - 1, None),
            back,
            fs,
            f,
            bs,
            k + 1,
        ),
        k >= f ==> back[k - f] == Some(joined(fs, f, bs, b)[k]) && drained(
            front,
            back.update(k - f, None),
            fs,
            f,
            bs,
            k + 1,
        ),
{
    reveal(drained);
    if k < f {
        assert(front[f - k - 1] == fs[f - k - 1]);
        assert(prefix_items(fs, f).reverse()[k] == prefix_items(fs, f)[f - k - 1]);
    } else {
        assert(back[k - f] == bs[k - f]);
        assert(joined(fs, f, bs, b)[k] == prefix_items(bs, b)[k - f]);
    }
}

/// Two slot arrays that hold the first `nf` elements of a list backwards
/// and the remaining `nb` elements forwards hold that list back to back.
proof fn lemma_rebuilt<T>(
    af: Seq<Option<T>>,
    nf: int,
    ab: Seq<Option<T>>,
    nb: int,
    items: Seq<T>,
)
    requires
        0 <= nf <= af.len(),
        0 <= nb <= ab.len(),
        items.len() == nf + nb,
        forall|m: int|
            0 <= m < af.len() ==> #[trigger] af[m] == if m < nf {
                Some(items[nf - 1 - m])
            } else {
                None
            },
        forall|m: int|
            0 <= m < ab.len() ==> #[trigger] ab[m] == if m < nb {
                Some(items[nf + m])
            } else {
                None
            },
    ensures
        filled_to(af, nf),
        filled_to(ab, nb),
        joined(af, nf, ab, nb) == items,
{
    assert forall|k: int| 0 <= k < nf + nb implies #[trigger] joined(af, nf, ab, nb)[k]
        == items[k] by {
        if k < nf {
            assert(prefix_items(af, nf).reverse()[k] == prefix_items(af, nf)[nf - 1 - k]);
            assert(af[nf - 1 - k] == Some(items[k]));
        } else {
            assert(joined(af, nf, ab, nb)[k] == prefix_items(ab, nb)[k - nf]);
            assert(ab[k - nf] == Some(items[k]));
        }
    }
    assert(joined(af, nf, ab, nb) =~= items);
}

/// A list kept in two stacks set back to back: the front stack holds the
/// first elements in reverse order, the back stack holds the rest in
/// order. Rebalancing keeps the two about equally long, so that inserting
/// and removing is cheap near both ends.
#[derive(Debug)]
pub struct DualArrayDeque<T> {
    front: ArrayStack<T>,
    back: ArrayStack<T>,
}

impl<T> View for DualArrayDeque<T> {
    type V = Seq<T>;

    /// The list itself: the front stack read backwards, then the back stack.
    open spec fn view(&self) -> Seq<T> {
        joined(
            self.spec_front().slots(),
            self.spec_front().spec_size() as int,
            self.spec_back().slots(),
            self.spec_back().spec_size() as int,
        )
    }
}

impl<T> DualArrayDeque<T> {
    /// The stack that holds the first elements, reversed.
    pub closed spec fn spec_front(&self) -> ArrayStack<T> {
        self.front
    }

    /// The stack that holds the remaining elements.
    pub closed spec fn spec_back(&self) -> ArrayStack<T> {
        self.back
    }

    /// Both stacks are in order, and their capacities can be added up.
    pub open spec fn wf(&self) -> bool {
        &&& self.spec_front().wf()
        &&& self.spec_back().wf()
        &&& self.spec_front().spec_length() + self.spec_back().spec_length() <= usize::MAX
    }

    /// The sizes and capacities of the two stacks.
    pub open spec fn shape(&self) -> Shape {
        Shape {
            front_size: self.spec_front().spec_size() as int,
            front_length: self.spec_front().spec_length() as int,
            back_size: self.spec_back().spec_size() as int,
            back_length: self.spec_back().spec_length() as int,
        }
    }

    /// The number of slots of both backing arrays together.
    pub open spec fn spec_length(&self) -> usize {
        (self.spec_front().spec_length() + self.spec_back().spec_length()) as usize
    }

    /// The number of elements.
    pub open spec fn spec_size(&self) -> usize {
        (self.spec_front().spec_size() + self.spec_back().spec_size()) as usize
    }

    /// What `get(i)` returns: the `i`-th element, or nothing past the end.
    pub open spec fn spec_get(&self, i: int) -> Option<T> {
        item_at(self@, i)
    }

    /// An empty deque with `length` slots, half of them, rounded down, in
    /// the front stack.
    pub fn new(length: usize) -> (d: Self)
        ensures
            d.wf(),
            d@ == Seq::<T>::empty(),
            d.spec_length() == length,
            d.spec_front().spec_length() == length / 2,
            d.spec_back().spec_length() == length - length / 2,
    {
        let nf = length / 2;
        let nb = length - nf;
        let d = Self { front: ArrayStack::new(nf), back: ArrayStack::new(nb) };
        assert(d@ =~= Seq::<T>::empty());
        d
    }

    /// Sets two stacks back to back, unless their capacities together
    /// exceed what a `usize` holds.
    pub fn from_stacks(front: ArrayStack<T>, back: ArrayStack<T>) -> (r: Option<Self>)
        requires
            front.wf(),
            back.wf(),
        ensures
            r is Some <==> front.spec_length() + back.spec_length() <= usize::MAX,
            r matches Some(d) ==> d.wf() && d.spec_front() == front && d.spec_back() == back,
    {
        if front.length() <= usize::MAX - back.length() {
            Some(Self { front, back })
        } else {
            None
        }
    }

    /// The stack that holds the first elements, reversed.
    pub fn front(&self) -> (s: &ArrayStack<T>)
        ensures
            *s == self.spec_front(),
    {
        &self.front
    }

    /// The stack that holds the remaining elements.
    pub fn back(&self) -> (s: &ArrayStack<T>)
        ensures
            *s == self.spec_back(),
    {
        &self.back
    }

    /// The capacity of both backing arrays together.
    #[verifier::when_used_as_spec(spec_length)]
    pub fn length(&self) -> (l: usize)
        requires
            self.wf(),
        ensures
            l == self.spec_length(),
            l == self.spec_front().spec_length() + self.spec_back().spec_length(),
    {
        self.front.length() + self.back.length()
    }

    /// The number of elements.
    #[verifier::when_used_as_spec(spec_size)]
    pub fn size(&self) -> (n: usize)
        requires
            self.wf(),
        ensures
            n == self.spec_size(),
            n == self@.len(),
    {
        self.front.size() + self.back.size()
    }

    /// The element at index `i`, if there is one.
    pub fn get(&self, i: usize) -> (r: Option<&T>)
        requires
            self.wf(),
        ensures
            referent(r) == self.spec_get(i as int),
    {
        let f = self.front.size();
        if i < f {
            self.front.get(f - i - 1)
        } else {
            self.back.get(i - f)
        }
    }

    /// Replaces the element at index `i` by `x` and returns the element
    /// that was there. Past the end nothing is stored and nothing returned.
    pub fn set(&mut self, i: usize, x: T) -> (r: Option<T>)
        requires
            old(self).wf(),
        ensures
            final(self).wf(),
            final(self).shape() == old(self).shape(),
            i < old(self)@.len() ==> r == Some(old(self)@[i as int])
                && final(self)@ == old(self)@.update(i as int, x),
            i >= old(self)@.len() ==> r is None && *final(self) == *old(self),
    {
        let f = self.front.size();
        if i < f {
            let r = self.front.set(f - i - 1, x);
            assert(self@ =~= old(self)@.update(i as int, x));
            r
        } else {
            let r = self.back.set(i - f, x);
            assert(i < old(self)@.len() ==> self@ =~= old(self)@.update(i as int, x));
            r
        }
    }

    /// Empties the slot of element `k` and returns the element, where the
    /// slots of the elements before it were emptied already.
    fn take(
        &mut self,
        k: usize,
        Ghost(fs): Ghost<Seq<Option<T>>>,
        Ghost(bs): Ghost<Seq<Option<T>>>,
    ) -> (r: Option<T>)
        requires
            filled_to(fs, old(self).spec_front().spec_size() as int),
            filled_to(bs, old(self).spec_back().spec_size() as int),
            drained(
                old(self).spec_front().slots(),
                old(self).spec_back().slots(),
                fs,
                old(self).spec_front().spec_size() as int,
                bs,
                k as int,
            ),
            k < old(self).spec_front().spec_size() + old(self).spec_back().spec_size(),
        ensures
            final(self).spec_front().spec_size() == old(self).spec_front().spec_size(),
            final(self).spec_back().spec_size() == old(self).spec_back().spec_size(),
            drained(
                final(self).spec_front().slots(),
                final(self).spec_back().slots(),
                fs,
                old(self).spec_front().spec_size() as int,
                bs,
                k + 1,
            ),
            r == Some(
                joined(
                    fs,
                    old(self).spec_front().spec_size() as int,
                    bs,
                    old(self).spec_back().spec_size() as int,
                )[k as int],
            ),
    {
        let f = self.front.size();
        proof {
            lemma_drained_next(
                self.front.slots(),
                self.back.slots(),
                fs,
                f as int,
                bs,
                self.back.spec_size() as int,
                k as int,
            );
            reveal(drained);
        }
        if k < f {
            self.front.take(f - k - 1)
        } else {
            self.back.take(k - f)
        }
    }

    /// Rebalances a skewed deque: half of the elements, rounded down, go
    /// to a fresh front stack and the rest to a fresh back stack, each with
    /// twice as many slots as elements (and at least one). A deque that is
    /// not skewed is left as it is.
    pub fn balance(&mut self)
        requires
            old(self).wf(),
            2 * old(self)@.len() + 1 <= usize::MAX,
        ensures
            final(self).wf(),
            final(self)@ == old(self)@,
            final(self).shape() == old(self).shape().balanced(),
            final(self).shape().even(),
            !old(self).shape().skewed() ==> *final(self) == *old(self),
    {
        let f = self.front.size();
        let b = self.back.size();
        let front_short = b / 3 > f || (b / 3 == f && b % 3 > 0);
        let back_short = f / 3 > b || (f / 3 == b && f % 3 > 0);
        if !(front_short || back_short) {
            return;
        }
        let ghost items = self@;
        let ghost fs = self.front.slots();
        let ghost bs = self.back.slots();
        proof {
            lemma_drained_none(fs, f as int, bs, b as int);
        }
        let n = f + b;
        let nf = n / 2;
        let nb = n - nf;
        let fcap: usize = if nf == 0 {
            1
        } else {
            2 * nf
        };
        let bcap: usize = if nb == 0 {
            1
        } else {
            2 * nb
        };
        let af = self.gather_front(nf, fcap, Ghost(fs), Ghost(bs));
        let ab = self.gather_back(nf, nb, bcap, Ghost(fs), Ghost(bs));
        proof {
            lemma_rebuilt(af@, nf as int, ab@, nb as int, items);
        }
        self.front = ArrayStack::from_parts(af, nf);
        self.back = ArrayStack::from_parts(ab, nb);
    }

    /// Moves the first `nf` elements into the first slots of a fresh
    /// array of `cap` slots, in reverse order.
    fn gather_front(
        &mut self,
        nf: usize,
        cap: usize,
        Ghost(fs): Ghost<Seq<Option<T>>>,
        Ghost(bs): Ghost<Seq<Option<T>>>,
    ) -> (af: Vec<Option<T>>)
        requires
            filled_to(fs, old(self).front.spec_size() as int),
            filled_to(bs, old(self).back.spec_size() as int),
            drained(
                old(self).front.slots(),
                old(self).back.slots(),
                fs,
                old(self).front.spec_size() as int,
                bs,
                0,
            ),
            nf <= old(self).front.spec_size() + old(self).back.spec_size(),
            nf <= cap,
        ensures
            final(self).front.spec_size() == old(self).front.spec_size(),
            final(self).back.spec_size() == old(self).back.spec_size(),
            drained(
                final(self).front.slots(),
                final(self).back.slots(),
                fs,
                old(self).front.spec_size() as int,
                bs,
                nf as int,
            ),
            af@.len() == cap,
            forall|m: int|
                0 <= m < cap ==> #[trigger] af@[m] == if m < nf {
                    Some(
                        joined(
                            fs,
                            old(self).front.spec_size() as int,
                            bs,
                            old(self).back.spec_size() as int,
                        )[nf - 1 - m],
                    )
                } else {
                    None
                },
    {
        let ghost f = self.front.spec_size() as int;
        let ghost b = self.back.spec_size() as int;
        let ghost items = joined(fs, f, bs, b);
        let mut af: Vec<Option<T>> = allocate(cap);
        let mut i: usize = 0;
        while i < nf
            invariant
                i <= nf <= cap,
                nf <= f + b,
                af@.len() == cap,
                items == joined(fs, f, bs, b),
                filled_to(fs, f),
                filled_to(bs, b),
                self.front.spec_size() == f,
                self.back.spec_size() == b,
                drained(self.front.slots(), self.back.slots(), fs, f, bs, i as int),
                forall|m: int|
                    0 <= m < cap ==> #[trigger] af@[m] == if nf - i <= m < nf {
                        Some(items[nf - 1 - m])
                    } else {
                        None
                    },
            decreases nf - i,
        {
            let t = self.take(i, Ghost(fs), Ghost(bs));
            af[nf - i - 1] = t;
            i += 1;
        }
        af
    }

    /// Moves the `nb` elements from index `nf` on into the first slots of
    /// a fresh array of `cap` slots, in order.
    fn gather_back(
        &mut self,
        nf: usize,
        nb: usize,
        cap: usize,
        Ghost(fs): Ghost<Seq<Option<T>>>,
        Ghost(bs): Ghost<Seq<Option<T>>>,
    ) -> (ab: Vec<Option<T>>)
        requires
            filled_to(fs, old(self).front.spec_size() as int),
            filled_to(bs, old(self).back.spec_size() as int),
            drained(
                old(self).front.slots(),
                old(self).back.slots(),
                fs,
                old(self).front.spec_size() as int,
                bs,
                nf as int,
            ),
            nf + nb == old(self).front.spec_size() + old(self).back.spec_size(),
            nf + nb <= usize::MAX,
            nb <= cap,
        ensures
            ab@.len() == cap,
            forall|m: int|
                0 <= m < cap ==> #[trigger] ab@[m] == if m < nb {
                    Some(
                        joined(
                            fs,
                            old(self).front.spec_size() as int,
                            bs,
                            old(self).back.spec_size() as int,
                        )[nf + m],
                    )
                } else {
                    None
                },
    {
        let ghost f = self.front.spec_size() as int;
        let ghost b = self.back.spec_size() as int;
        let ghost items = joined(fs, f, bs, b);
        let mut ab: Vec<Option<T>> = allocate(cap);
        let mut i: usize = 0;
        while i < nb
            invariant
                i <= nb <= cap,
                nf + nb == f + b,
                nf + nb <= usize::MAX,
                ab@.len() == cap,
                items == joined(fs, f, bs, b),
                filled_to(fs, f),
                filled_to(bs, b),
                self.front.spec_size() == f,
                self.back.spec_size() == b,
                drained(self.front.slots(), self.back.slots(), fs, f, bs, nf + i),
                forall|m: int|
                    0 <= m < cap ==> #[trigger] ab@[m] == if m < i {
                        Some(items[nf + m])
                    } else {
                        None
                    },
            decreases nb - i,
        {
            let t = self.take(nf + i, Ghost(fs), Ghost(bs));
            ab[i] = t;
            i += 1;
        }
        ab
    }

    /// Inserts `x` at index `i`, in the stack that owns the index, and
    /// rebalances.
    pub fn add(&mut self, i: usize, x: T)
        requires
            old(self).wf(),
            i <= old(self)@.len(),
            old(self).spec_length() + old(self)@.len() + 3 <= usize::MAX,
        ensures
            final(self)@ == Step::Add(i as int, x).after(old(self)@),
            final(self).wf(),
            final(self)@ == old(self)@.insert(i as int, x),
            final(self)@.len() == old(self)@.len() + 1,
            final(self).shape() == old(self).shape().grown(i as int).balanced(),
            final(self).shape().even(),
    {
        let f = self.front.size();
        if i < f {
            self.front.add(f - i, x);
        } else {
            self.back.add(i - f, x);
        }
        assert(self@ =~= old(self)@.insert(i as int, x));
        self.balance();
    }

    /// Removes the element at index `i` from the stack that owns it,
    /// rebalances and returns the element; past the end nothing happens.
    pub fn remove(&mut self, i: usize) -> (r: Option<T>)
        requires
            old(self).wf(),
            2 * old(self)@.len() <= usize::MAX,
        ensures
            final(self)@ == Step::Remove(i as int).after(old(self)@),
            r is Some <==> Step::<T>::Remove(i as int).yields(old(self)@.len() as int),
            final(self).wf(),
            i >= old(self)@.len() ==> r is None && *final(self) == *old(self),
            i < old(self)@.len() ==> r == Some(old(self)@[i as int])
                && final(self)@ == old(self)@.remove(i as int)
                && final(self)@.len() == old(self)@.len() - 1,
            i < old(self)@.len() ==> final(self).shape() == old(self).shape().shrunk(
                i as int,
            ).balanced() && final(self).shape().even(),
    {
        let f = self.front.size();
        let b = self.back.size();
        if i >= f + b {
            return None;
        }
        let r = if i < f {
            self.front.remove(f - i - 1)
        } else {
            self.back.remove(i - f)
        };
        assert(self@ =~= old(self)@.remove(i as int));
        self.balance();
        r
    }

    /// What `set` stores at an index of the list, `get` finds there.
    pub proof fn lemma_set_then_get(before: &Self, after: &Self, i: usize, x: T)
        requires
            before.wf(),
            after.wf(),
            i < before@.len(),
            after@ == before@.update(i as int, x),
        ensures
            after.spec_get(i as int) == Some(x),
    {
    }

    /// A list that came from an empty one by a sequence of insertions and
    /// removals has as many elements as there were insertions, less the
    /// removals that returned an element, and they fit in its slots.
    pub proof fn lemma_size_counts_calls(&self, steps: Seq<Step<T>>)
        requires
            self.wf(),
            all_allowed(Seq::<T>::empty(), steps),
            self@ == replay(Seq::<T>::empty(), steps),
        ensures
            self@.len() == count_added(steps) - count_removed(Seq::<T>::empty(), steps),
            self.spec_size() == self@.len(),
            self@.len() <= self.spec_length(),
    {
        lemma_size_counts_calls(Seq::<T>::empty(), steps);
    }
}

} // verus!
