use vstd::prelude::*;
use crate::history::{
    all_allowed,
    count_added,
    count_removed,
    lemma_size_counts_calls,
    replay,
    Step,
};
use crate::util::{item_at, referent};

verus! {

/// A node of the list: an element and the place of the node after it.
/// Unused nodes hold no element and are chained in the same way.
struct Node<T> {
    x: Option<T>,
    next: Option<usize>,
}

impl<T> Node<T> {
    /// A node that holds `x` and links to `next`.
    fn new(x: T, next: Option<usize>) -> (node: Self)
        ensures
            node.x == Some(x),
            node.next == next,
    {
        Self { x: Some(x), next }
    }
}

/// The nodes at the places `path` form a chain that starts at `first`:
/// each links to the next, the last links nowhere, no node occurs twice,
/// and all of them hold an element (`filled`) or none of them does.
spec fn chained<T>(nodes: Seq<Node<T>>, path: Seq<usize>, first: Option<usize>, filled: bool)
    -> bool {
    &&& first == if path.len() > 0 {
        Some(path[0])
    } else {
        None::<usize>
    }
    &&& forall|i: int| 0 <= i < path.len() ==> #[trigger] path[i] < nodes.len()
    &&& forall|i: int, j: int| 0 <= i < j < path.len() ==> path[i] != path[j]
    &&& forall|i: int|
        0 <= i < path.len() ==> ((#[trigger] nodes[path[i] as int]).x is Some) == filled
    &&& forall|i: int|
        0 <= i < path.len() ==> (#[trigger] nodes[path[i] as int]).next == if i + 1
            < path.len() {
            Some(path[i + 1])
        } else {
            None::<usize>
        }
}

/// A singly linked list with a link to its last node, so that elements can
/// be added at both ends and removed at the front in constant time. The
/// nodes live in an arena and link to each other by their places in it.
pub struct SLList<T> {
    nodes: Vec<Node<T>>,
    head: Option<usize>,
    tail: Option<usize>,
    free: Option<usize>,
    n: usize,
    order: Ghost<Seq<usize>>,
    spare: Ghost<Seq<usize>>,
}

impl<T> View for SLList<T> {
    type V = Seq<T>;

    /// The elements from the first node to the last.
    closed spec fn view(&self) -> Seq<T> {
        Seq::new(self.order@.len(), |i: int| self.nodes@[self.order@[i] as int].x.unwrap())
    }
}

impl<T> SLList<T> {
    /// The list's nodes are chained from the head to the tail, the unused
    /// nodes are chained from the free link, and the arena holds no other
    /// node.
    pub closed spec fn wf(&self) -> bool {
        &&& self.n == self.order@.len()
        &&& self.n + self.spare@.len() == self.nodes@.len()
        &&& chained(self.nodes@, self.order@, self.head, true)
        &&& chained(self.nodes@, self.spare@, self.free, false)
        &&& self.tail == if self.n > 0 {
            Some(self.order@[self.n - 1])
        } else {
            None::<usize>
        }
    }

    /// What `get(i)` returns: the `i`-th element, or nothing past the end.
    pub open spec fn spec_get(&self, i: int) -> Option<T> {
        item_at(self@, i)
    }

    /// An empty list.
    pub fn new() -> (l: Self)
        ensures
            l.wf(),
            l@ == Seq::<T>::empty(),
    {
        let l = Self {
            nodes: Vec::new(),
            head: None,
            tail: None,
            free: None,
            n: 0,
            order: Ghost(Seq::empty()),
            spare: Ghost(Seq::empty()),
        };
        assert(l@ =~= Seq::<T>::empty());
        l
    }

    /// The number of elements.
    pub fn size(&self) -> (n: usize)
        requires
            self.wf(),
        ensures
            n == self@.len(),
    {
        self.n
    }

    /// The first element, if there is one.
    pub fn head(&self) -> (r: Option<&T>)
        requires
            self.wf(),
        ensures
            referent(r) == item_at(self@, 0),
    {
        match self.head {
            Some(h) => self.nodes[h].x.as_ref(),
            None => None,
        }
    }

    /// The last element, if there is one.
    pub fn tail(&self) -> (r: Option<&T>)
        requires
            self.wf(),
        ensures
            referent(r) == item_at(self@, self@.len() - 1),
    {
        match self.tail {
            Some(t) => self.nodes[t].x.as_ref(),
            None => None,
        }
    }

    /// The element at index `i`, if there is one, found by walking from the
    /// head.
    pub fn get(&self, i: usize) -> (r: Option<&T>)
        requires
            self.wf(),
        ensures
            referent(r) == self.spec_get(i as int),
    {
        if i >= self.n {
            return None;
        }
        let mut at: usize = self.head.unwrap();
        let mut k: usize = 0;
        while k < i
            invariant
                self.wf(),
                k <= i < self.n,
                at == self.order@[k as int],
            decreases i - k,
        {
            at = self.nodes[at].next.unwrap();
            k += 1;
        }
        self.nodes[at].x.as_ref()
    }

    /// Takes a node for `x` that links to `next`: the first unused node,
    /// or a new one where none is unused. Returns the node's place.
    fn claim(&mut self, x: T, next: Option<usize>) -> (at: usize)
        requires
            old(self).n + old(self).spare@.len() == old(self).nodes@.len(),
            chained(old(self).nodes@, old(self).order@, old(self).head, true),
            chained(old(self).nodes@, old(self).spare@, old(self).free, false),
        ensures
            final(self).n == old(self).n,
            final(self).head == old(self).head,
            final(self).tail == old(self).tail,
            final(self).order@ == old(self).order@,
            final(self).n + final(self).spare@.len() + 1 == final(self).nodes@.len(),
            at < final(self).nodes@.len(),
            final(self).nodes@[at as int].x == Some(x),
            final(self).nodes@[at as int].next == next,
            forall|i: int| 0 <= i < old(self).order@.len() ==> old(self).order@[i] != at,
            forall|i: int| 0 <= i < final(self).spare@.len() ==> final(self).spare@[i] != at,
            forall|p: int|
                0 <= p < old(self).nodes@.len() && p != at ==> #[trigger] final(self).nodes@[p]
                    == old(self).nodes@[p],
            old(self).nodes@.len() <= final(self).nodes@.len() <= usize::MAX,
            chained(final(self).nodes@, final(self).spare@, final(self).free, false),
    {
        assert(self.nodes.len() <= usize::MAX);
        match self.free {
            Some(f) => {
                self.free = self.nodes[f].next;
                self.nodes[f] = Node::new(x, next);
                proof {
                    let rest = self.spare@.drop_first();
                    assert forall|i: int| 0 <= i < rest.len() implies rest[i] != f by {
                        assert(rest[i] == old(self).spare@[i + 1]);
                    }
                    self.spare@ = rest;
                }
                f
            },
            None => {
                let at = self.nodes.len();
                self.nodes.push(Node::new(x, next));
                assert(self.nodes.len() <= usize::MAX);
                at
            },
        }
    }

    /// Adds `x` in front of the first element.
    pub fn push(&mut self, x: T)
        requires
            old(self).wf(),
        ensures
            final(self)@ == Step::Add(0, x).after(old(self)@),
            final(self).wf(),
            final(self)@ == old(self)@.insert(0, x),
            final(self)@.len() == old(self)@.len() + 1,
    {
        let at = self.claim(x, self.head);
        if self.n == 0 {
            self.tail = Some(at);
        }
        self.head = Some(at);
        self.n = self.n + 1;
        proof {
            self.order@ = self.order@.insert(0, at);
            assert forall|i: int| 0 <= i < self.order@.len() implies (
            #[trigger] self.nodes@[self.order@[i] as int]).next
                == if i + 1 < self.order@.len() {
                Some(self.order@[i + 1])
            } else {
                None::<usize>
            } by {
                if i > 0 {
                    assert(self.order@[i] == old(self).order@[i - 1]);
                }
            }
            assert(self@ =~= old(self)@.insert(0, x));
        }
    }

    /// Adds `x` behind the last element.
    pub fn add(&mut self, x: T)
        requires
            old(self).wf(),
        ensures
            final(self)@ == Step::Add(old(self)@.len() as int, x).after(old(self)@),
            final(self).wf(),
            final(self)@ == old(self)@.push(x),
            final(self)@.len() == old(self)@.len() + 1,
    {
        let at = self.claim(x, None);
        match self.tail {
            Some(t) => {
                self.nodes[t].next = Some(at);
            },
            None => {
                self.head = Some(at);
            },
        }
        self.tail = Some(at);
        self.n = self.n + 1;
        proof {
            self.order@ = self.order@.push(at);
            assert(self@ =~= old(self)@.push(x));
        }
    }

    /// Removes the first element and returns it; an empty list is left as
    /// it is.
    pub fn pop(&mut self) -> (r: Option<T>)
        requires
            old(self).wf(),
        ensures
            final(self)@ == Step::Remove(0).after(old(self)@),
            r is Some <==> Step::<T>::Remove(0).yields(old(self)@.len() as int),
            final(self).wf(),
            old(self)@.len() == 0 ==> r is None && final(self)@ == old(self)@,
            old(self)@.len() > 0 ==> r == Some(old(self)@[0]) && final(self)@ == old(
                self,
            )@.drop_first() && final(self)@.len() == old(self)@.len() - 1,
    {
        match self.head {
            None => None,
            Some(h) => {
                let r = self.nodes[h].x.take();
                self.head = self.nodes[h].next;
                self.nodes[h].next = self.free;
                self.free = Some(h);
                self.n = self.n - 1;
                if self.n == 0 {
                    self.tail = None;
                }
                proof {
                    self.order@ = self.order@.drop_first();
                    self.spare@ = self.spare@.insert(0, h);
                    assert forall|i: int| 0 <= i < self.order@.len() implies self.order@[i]
                        != h by {
                        assert(self.order@[i] == old(self).order@[i + 1]);
                    }
                    assert forall|i: int| 0 <= i < self.spare@.len() implies (
                    #[trigger] self.nodes@[self.spare@[i] as int]).next == if i + 1
                        < self.spare@.len() {
                        Some(self.spare@[i + 1])
                    } else {
                        None::<usize>
                    } by {
                        if i > 0 {
                            assert(self.spare@[i] == old(self).spare@[i - 1]);
                        }
                    }
                    assert(self@ =~= old(self)@.drop_first());
                }
                r
            },
        }
    }

    /// Removes the first element and returns it; an empty list is left as
    /// it is.
    pub fn remove(&mut self) -> (r: Option<T>)
        requires
            old(self).wf(),
        ensures
            final(self)@ == Step::Remove(0).after(old(self)@),
            r is Some <==> Step::<T>::Remove(0).yields(old(self)@.len() as int),
            final(self).wf(),
            old(self)@.len() == 0 ==> r is None && final(self)@ == old(self)@,
            old(self)@.len() > 0 ==> r == Some(old(self)@[0]) && final(self)@ == old(
                self,
            )@.drop_first() && final(self)@.len() == old(self)@.len() - 1,
    {
        self.pop()
    }

    /// A list that came from an empty one by a sequence of insertions and
    /// removals has as many elements as there were insertions, less the
    /// removals that returned an element.
    pub proof fn lemma_size_counts_calls(&self, steps: Seq<Step<T>>)
        requires
            self.wf(),
            all_allowed(Seq::<T>::empty(), steps),
            self@ == replay(Seq::<T>::empty(), steps),
        ensures
            self@.len() == count_added(steps) - count_removed(Seq::<T>::empty(), steps),
    {
        lemma_size_counts_calls(Seq::<T>::empty(), steps);
    }
}

impl<T> Default for SLList<T> {
    /// An empty list.
    fn default() -> (l: Self)
        ensures
            l.wf(),
            l@ == Seq::<T>::empty(),
    {
        Self::new()
    }
}

} // verus!
