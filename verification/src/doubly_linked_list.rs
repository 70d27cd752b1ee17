use vstd::prelude::*;
use crate::history::{
    all_allowed,
    count_added,
    count_removed,
    lemma_size_counts_calls,
    replay,
    Step,
};
use crate::util::item_at;

verus! {

/// A node of the list: an element and the places of the nodes before and
/// after it. The two dummy nodes at the ends and the unused nodes hold no
/// element.
#[derive(Debug)]
pub struct Node<T> {
    x: Option<T>,
    prev: Option<usize>,
    next: Option<usize>,
}

impl<T> Node<T> {
    /// A node without an element, as stands at each end of the list.
    fn dummy(prev: Option<usize>, next: Option<usize>) -> (node: Self)
        ensures
            node.x is None,
            node.prev == prev,
            node.next == next,
    {
        Self { x: None, prev, next }
    }

    /// A node that holds `x` between the nodes `prev` and `next`.
    fn new(x: T, prev: usize, next: usize) -> (node: Self)
        ensures
            node.x == Some(x),
            node.prev == Some(prev),
            node.next == Some(next),
    {
        Self { x: Some(x), prev: Some(prev), next: Some(next) }
    }
}

/// The places of the nodes from the dummy head, through the list, to the
/// dummy tail.
spec fn strand(order: Seq<usize>) -> Seq<usize> {
    seq![0usize] + order + seq![1usize]
}

/// The nodes at the places `s` are linked in both directions, each to its
/// neighbours in `s`, and no node occurs twice.
spec fn linked<T>(nodes: Seq<Node<T>>, s: Seq<usize>) -> bool {
    &&& forall|i: int| 0 <= i < s.len() ==> #[trigger] s[i] < nodes.len()
    &&& forall|i: int, j: int| 0 <= i < j < s.len() ==> s[i] != s[j]
    &&& forall|i: int|
        0 <= i < s.len() - 1 ==> (#[trigger] nodes[s[i] as int]).next == Some(s[i + 1])
    &&& forall|i: int| 0 < i < s.len() ==> (#[trigger] nodes[s[i] as int]).prev == Some(s[i - 1])
}

/// The unused nodes at the places `spare` form a chain that starts at
/// `free`; none of them holds an element and none occurs twice.
spec fn shelved<T>(nodes: Seq<Node<T>>, spare: Seq<usize>, free: Option<usize>) -> bool {
    &&& free == if spare.len() > 0 {
        Some(spare[0])
    } else {
        None::<usize>
    }
    &&& forall|i: int| 0 <= i < spare.len() ==> 2 <= #[trigger] spare[i] < nodes.len()
    &&& forall|i: int, j: int| 0 <= i < j < spare.len() ==> spare[i] != spare[j]
    &&& forall|i: int| 0 <= i < spare.len() ==> (#[trigger] nodes[spare[i] as int]).x is None
    &&& forall|i: int|
        0 <= i < spare.len() ==> (#[trigger] nodes[spare[i] as int]).next == if i + 1
            < spare.len() {
            Some(spare[i + 1])
        } else {
            None::<usize>
        }
}

/// The two dummy nodes hold no element, and nothing lies beyond them.
spec fn capped<T>(nodes: Seq<Node<T>>) -> bool {
    &&& nodes.len() >= 2
    &&& nodes[0].prev is None
    &&& nodes[1].next is None
    &&& nodes[0].x is None
    &&& nodes[1].x is None
}

/// Every node at a place in `order` holds an element.
spec fn filled<T>(nodes: Seq<Node<T>>, order: Seq<usize>) -> bool {
    forall|i: int| 0 <= i < order.len() ==> (#[trigger] nodes[order[i] as int]).x is Some
}

/// Every node that holds an element has its place in `order`.
spec fn covered<T>(nodes: Seq<Node<T>>, order: Seq<usize>) -> bool {
    forall|h: usize|
        h < nodes.len() && (#[trigger] nodes[h as int]).x is Some ==> order.contains(h)
}

/// The dummy nodes and the nodes at the places `order` are linked in order
/// in both directions, the unused nodes at the places `spare` are chained
/// from `free`, the arena holds no other node, and exactly the nodes in
/// `order` hold an element.
spec fn arena_wf<T>(
    nodes: Seq<Node<T>>,
    order: Seq<usize>,
    spare: Seq<usize>,
    free: Option<usize>,
) -> bool {
    &&& order.len() + spare.len() + 2 == nodes.len()
    &&& capped(nodes)
    &&& linked(nodes, strand(order))
    &&& filled(nodes, order)
    &&& shelved(nodes, spare, free)
    &&& covered(nodes, order)
}

/// The elements of the nodes at the places `order`.
spec fn items<T>(nodes: Seq<Node<T>>, order: Seq<usize>) -> Seq<T> {
    Seq::new(order.len(), |i: int| nodes[order[i] as int].x.unwrap())
}

/// The arena `b` is the arena `a` with the node `u` linked in between the
/// nodes `v` and `w`, or, where `u` is `w`, with `v` linked to `w`.
spec fn relinked<T>(a: Seq<Node<T>>, b: Seq<Node<T>>, v: usize, w: usize, u: usize) -> bool {
    &&& a.len() == b.len()
    &&& b[v as int].next == Some(u)
    &&& b[v as int].prev == a[v as int].prev
    &&& b[v as int].x == a[v as int].x
    &&& b[w as int].prev == Some(if u == w {
        v
    } else {
        u
    })
    &&& b[w as int].next == a[w as int].next
    &&& b[w as int].x == a[w as int].x
    &&& forall|h: int| 0 <= h < a.len() && h != v && h != w ==> #[trigger] b[h] == a[h]
}

/// The places in `order` are places of the arena other than those of the
/// dummies, and no two of them are the same.
proof fn lemma_strand<T>(nodes: Seq<Node<T>>, order: Seq<usize>)
    requires
        linked(nodes, strand(order)),
    ensures
        forall|i: int| 0 <= i < order.len() ==> 2 <= #[trigger] order[i] < nodes.len(),
        forall|i: int| 0 <= i < order.len() ==> #[trigger] order[i] == strand(order)[i + 1],
        forall|i: int, j: int|
            0 <= i < order.len() && 0 <= j < order.len() && i != j ==> order[i] != order[j],
        strand(order).len() == order.len() + 2,
        strand(order)[0] == 0,
        strand(order)[order.len() as int + 1] == 1,
        2 <= nodes.len(),
{
    let s = strand(order);
    assert(s[0] == 0 && s[s.len() - 1] == 1);
    assert(s[0] < nodes.len() && s[s.len() - 1] < nodes.len());
    assert forall|i: int| 0 <= i < order.len() implies 2 <= #[trigger] order[i] < nodes.len()
        && order[i] == s[i + 1] by {
        assert(s[i + 1] == order[i]);
    }
    assert forall|i: int, j: int|
        0 <= i < order.len() && 0 <= j < order.len() && i != j implies order[i] != order[j] by {
        assert(s[i + 1] == order[i] && s[j + 1] == order[j]);
    }
}

/// No unused node is a node of the strand.
proof fn lemma_spare_apart<T>(
    nodes: Seq<Node<T>>,
    order: Seq<usize>,
    spare: Seq<usize>,
    free: Option<usize>,
    q: int,
)
    requires
        linked(nodes, strand(order)),
        filled(nodes, order),
        shelved(nodes, spare, free),
        0 <= q < order.len() + 2,
    ensures
        forall|i: int| 0 <= i < spare.len() ==> #[trigger] spare[i] != strand(order)[q],
{
    lemma_strand(nodes, order);
    let s = strand(order);
    assert forall|i: int| 0 <= i < spare.len() implies #[trigger] spare[i] != s[q] by {
        assert(nodes[spare[i] as int].x is None);
        if 0 < q < order.len() + 1 {
            assert(s[q] == order[q - 1]);
            assert(nodes[order[q - 1] as int].x is Some);
        }
    }
}

/// The arena `b` holds the elements of the arena `a`, but for the node `u`.
spec fn same_elements<T>(a: Seq<Node<T>>, b: Seq<Node<T>>, u: usize) -> bool {
    forall|h: int| 0 <= h < a.len() && h < b.len() && h != u ==> (#[trigger] b[h]).x == a[h].x
}

/// With an element put into a node outside `order`, and the node's place
/// inserted at index `p`, the nodes in `order` are again those that hold
/// an element, and the element is the one at index `p`.
proof fn lemma_element_added<T>(
    before: Seq<Node<T>>,
    after: Seq<Node<T>>,
    order: Seq<usize>,
    p: int,
    u: usize,
    x: T,
)
    requires
        0 <= p <= order.len(),
        filled(before, order),
        covered(before, order),
        forall|i: int| 0 <= i < order.len() ==> #[trigger] order[i] < before.len(),
        forall|i: int| 0 <= i < order.len() ==> #[trigger] order[i] != u,
        before.len() <= after.len(),
        after.len() == before.len() || (after.len() == before.len() + 1 && u == before.len()),
        u < after.len(),
        after[u as int].x == Some(x),
        same_elements(before, after, u),
    ensures
        filled(after, order.insert(p, u)),
        covered(after, order.insert(p, u)),
        items(after, order.insert(p, u)) == items(before, order).insert(p, x),
{
    let grown = order.insert(p, u);
    assert forall|i: int| 0 <= i < grown.len() implies (#[trigger] after[grown[i] as int]).x
        == if i == p {
        Some(x)
    } else if i < p {
        before[order[i] as int].x
    } else {
        before[order[i - 1] as int].x
    } by {
        if i < p {
            assert(grown[i] == order[i]);
        } else if i > p {
            assert(grown[i] == order[i - 1]);
        }
    }
    assert forall|i: int| 0 <= i < grown.len() implies (
    #[trigger] after[grown[i] as int]).x is Some by {
        if i < p {
            assert(before[order[i] as int].x is Some);
        } else if i > p {
            assert(before[order[i - 1] as int].x is Some);
        }
    }
    assert forall|h: usize|
        h < after.len() && (#[trigger] after[h as int]).x is Some implies grown.contains(h) by {
        if h != u {
            assert(before[h as int].x is Some);
        }
        lemma_insert_contains(order, p, u, h);
    }
    assert(items(after, grown) =~= items(before, order).insert(p, x));
}

/// With the element taken out of the node at index `p`, and the node's
/// place removed from `order`, the nodes in `order` are again those that
/// hold an element, and the element that was at index `p` is gone.
proof fn lemma_element_removed<T>(
    before: Seq<Node<T>>,
    after: Seq<Node<T>>,
    order: Seq<usize>,
    p: int,
)
    requires
        0 <= p < order.len(),
        filled(before, order),
        covered(before, order),
        forall|i: int| 0 <= i < order.len() ==> #[trigger] order[i] < before.len(),
        forall|i: int, j: int|
            0 <= i < order.len() && 0 <= j < order.len() && i != j ==> order[i] != order[j],
        after.len() == before.len(),
        after[order[p] as int].x is None,
        same_elements(before, after, order[p]),
    ensures
        filled(after, order.remove(p)),
        covered(after, order.remove(p)),
        items(after, order.remove(p)) == items(before, order).remove(p),
{
    let rest = order.remove(p);
    let w = order[p];
    assert forall|i: int| 0 <= i < rest.len() implies (#[trigger] after[rest[i] as int]).x
        == if i < p {
        before[order[i] as int].x
    } else {
        before[order[i + 1] as int].x
    } by {
        if i < p {
            assert(rest[i] == order[i]);
        } else {
            assert(rest[i] == order[i + 1]);
        }
    }
    assert forall|i: int| 0 <= i < rest.len() implies (
    #[trigger] after[rest[i] as int]).x is Some by {
        if i < p {
            assert(before[order[i] as int].x is Some);
        } else {
            assert(before[order[i + 1] as int].x is Some);
        }
    }
    assert forall|h: usize|
        h < after.len() && (#[trigger] after[h as int]).x is Some implies rest.contains(h) by {
        assert(h != w);
        assert(before[h as int].x is Some);
        lemma_remove_contains(order, p, h);
    }
    assert(items(after, rest) =~= items(before, order).remove(p));
}

/// Unused nodes that are left as they were are still chained.
proof fn lemma_shelf_kept<T>(
    before: Seq<Node<T>>,
    after: Seq<Node<T>>,
    spare: Seq<usize>,
    free: Option<usize>,
)
    requires
        shelved(before, spare, free),
        before.len() <= after.len(),
        forall|i: int|
            0 <= i < spare.len() ==> #[trigger] after[spare[i] as int]
                == before[spare[i] as int],
    ensures
        shelved(after, spare, free),
{
    assert forall|i: int| 0 <= i < spare.len() implies (#[trigger] after[spare[i] as int]).x is None
        && after[spare[i] as int].next == if i + 1 < spare.len() {
        Some(spare[i + 1])
    } else {
        None::<usize>
    } by {
        assert(after[spare[i] as int] == before[spare[i] as int]);
    }
}

/// An emptied node that links to the first unused node goes in front of
/// the chain of unused nodes.
proof fn lemma_shelf_grown<T>(
    nodes: Seq<Node<T>>,
    spare: Seq<usize>,
    free: Option<usize>,
    w: usize,
)
    requires
        shelved(nodes, spare, free),
        2 <= w < nodes.len(),
        nodes[w as int].x is None,
        nodes[w as int].next == free,
        forall|i: int| 0 <= i < spare.len() ==> #[trigger] spare[i] != w,
    ensures
        shelved(nodes, spare.insert(0, w), Some(w)),
{
    let shelf = spare.insert(0, w);
    assert forall|i: int| 0 <= i < shelf.len() implies 2 <= #[trigger] shelf[i] < nodes.len() by {
        if i > 0 {
            assert(shelf[i] == spare[i - 1]);
        }
    }
    assert forall|i: int, j: int| 0 <= i < j < shelf.len() implies shelf[i] != shelf[j] by {
        if i > 0 {
            assert(shelf[i] == spare[i - 1]);
        }
        assert(shelf[j] == spare[j - 1]);
    }
    assert forall|i: int| 0 <= i < shelf.len() implies (#[trigger] nodes[shelf[i] as int]).x is None
        && nodes[shelf[i] as int].next == if i + 1 < shelf.len() {
        Some(shelf[i + 1])
    } else {
        None::<usize>
    } by {
        if i > 0 {
            assert(shelf[i] == spare[i - 1]);
            assert(nodes[spare[i - 1] as int].x is None);
            if i + 1 < shelf.len() {
                assert(shelf[i + 1] == spare[i]);
            }
        } else if shelf.len() > 1 {
            assert(shelf[1] == spare[0]);
        }
    }
}

/// After a node for `x` was claimed and linked in before the node at
/// position `p` of the strand, the arena is in order again, with `x` at
/// index `p`.
proof fn lemma_added<T>(
    before: Seq<Node<T>>,
    claimed: Seq<Node<T>>,
    after: Seq<Node<T>>,
    order: Seq<usize>,
    spare: Seq<usize>,
    free: Option<usize>,
    p: int,
    u: usize,
    x: T,
)
    requires
        0 <= p <= order.len(),
        capped(before),
        linked(before, strand(order)),
        filled(before, order),
        covered(before, order),
        before.len() <= claimed.len(),
        claimed.len() == before.len() || (claimed.len() == before.len() + 1 && u == before.len()),
        order.len() + spare.len() + 3 == claimed.len(),
        2 <= u < claimed.len(),
        claimed[u as int].x == Some(x),
        claimed[u as int].prev == Some(strand(order)[p]),
        claimed[u as int].next == Some(strand(order)[p + 1]),
        forall|i: int| 0 <= i < order.len() ==> order[i] != u,
        forall|i: int| 0 <= i < spare.len() ==> spare[i] != u,
        forall|h: int| 0 <= h < before.len() && h != u ==> #[trigger] claimed[h] == before[h],
        shelved(claimed, spare, free),
        relinked(claimed, after, strand(order)[p], strand(order)[p + 1], u),
    ensures
        arena_wf(after, order.insert(p, u), spare, free),
        items(after, order.insert(p, u)) == items(before, order).insert(p, x),
{
    let s = strand(order);
    let grown = order.insert(p, u);
    let v = s[p];
    let w = s[p + 1];
    lemma_strand(before, order);
    assert(v != u && w != u && v != w && v < before.len() && w < before.len()) by {
        if p > 0 {
            assert(s[p] == order[p - 1]);
        }
        if p < order.len() {
            assert(s[p + 1] == order[p]);
        }
    }
    assert(linked(after, strand(grown))) by {
        assert forall|i: int| 0 <= i < s.len() implies s[i] != u by {
            if 0 < i < s.len() - 1 {
                assert(s[i] == order[i - 1]);
            }
        }
        lemma_linked_insert(before, after, s, p + 1, u);
        assert(strand(grown) =~= s.insert(p + 1, u));
    }
    assert(capped(after));
    assert(same_elements(before, after, u));
    lemma_element_added(before, after, order, p, u, x);
    assert(shelved(after, spare, free)) by {
        assert forall|i: int| 0 <= i < spare.len() implies #[trigger] after[spare[i] as int]
            == claimed[spare[i] as int] by {
            assert(claimed[spare[i] as int].x is None);
            assert(before[spare[i] as int] == claimed[spare[i] as int]);
            if 0 < p && spare[i] == v {
                assert(before[order[p - 1] as int].x is Some);
            }
            if p < order.len() && spare[i] == w {
                assert(before[order[p] as int].x is Some);
            }
        }
        lemma_shelf_kept(claimed, after, spare, free);
    }
}

/// After the node at index `p` was emptied, taken out of the strand and
/// put in front of the unused nodes, the arena is in order again, without
/// the element that was at index `p`.
proof fn lemma_removed<T>(
    before: Seq<Node<T>>,
    unlinked: Seq<Node<T>>,
    after: Seq<Node<T>>,
    order: Seq<usize>,
    spare: Seq<usize>,
    free: Option<usize>,
    p: int,
)
    requires
        0 <= p < order.len(),
        arena_wf(before, order, spare, free),
        relinked(before, unlinked, strand(order)[p], strand(order)[p + 2], strand(order)[p + 2]),
        after.len() == unlinked.len(),
        after[order[p] as int].x is None,
        after[order[p] as int].next == free,
        forall|h: int| 0 <= h < after.len() && h != order[p] ==> #[trigger] after[h] == unlinked[h],
    ensures
        arena_wf(after, order.remove(p), spare.insert(0, order[p]), Some(order[p])),
        items(after, order.remove(p)) == items(before, order).remove(p),
{
    let s = strand(order);
    let rest = order.remove(p);
    let w = order[p];
    let v = s[p];
    let z = s[p + 2];
    lemma_strand(before, order);
    assert(s[p + 1] == w);
    assert(v != w && z != w && v != z && v < before.len() && z < before.len()) by {
        if p > 0 {
            assert(s[p] == order[p - 1]);
        }
        if p + 1 < order.len() {
            assert(s[p + 2] == order[p + 1]);
        }
    }
    assert(linked(after, strand(rest))) by {
        lemma_linked_remove(before, after, s, p + 1);
        assert(strand(rest) =~= s.remove(p + 1));
    }
    assert(capped(after));
    assert(same_elements(before, after, w));
    lemma_element_removed(before, after, order, p);
    lemma_spare_apart(before, order, spare, free, p);
    lemma_spare_apart(before, order, spare, free, p + 1);
    lemma_spare_apart(before, order, spare, free, p + 2);
    assert forall|i: int| 0 <= i < spare.len() implies #[trigger] after[spare[i] as int]
        == before[spare[i] as int] by {
        assert(spare[i] != s[p] && spare[i] != s[p + 1] && spare[i] != s[p + 2]);
    }
    lemma_shelf_kept(before, after, spare, free);
    lemma_shelf_grown(after, spare, free, w);
}

/// Linking a fresh node `u` between two neighbours puts it between them
/// in the strand.
proof fn lemma_linked_insert<T>(
    nodes: Seq<Node<T>>,
    after: Seq<Node<T>>,
    s: Seq<usize>,
    q: int,
    u: usize,
)
    requires
        linked(nodes, s),
        0 < q < s.len(),
        u < after.len(),
        nodes.len() <= after.len(),
        forall|i: int| 0 <= i < s.len() ==> s[i] != u,
        after[u as int].prev == Some(s[q - 1]),
        after[u as int].next == Some(s[q]),
        after[s[q - 1] as int].next == Some(u),
        after[s[q - 1] as int].prev == nodes[s[q - 1] as int].prev,
        after[s[q] as int].prev == Some(u),
        after[s[q] as int].next == nodes[s[q] as int].next,
        forall|h: int|
            0 <= h < nodes.len() && h != s[q - 1] && h != s[q] && h != u ==> #[trigger] after[h]
                == nodes[h],
    ensures
        linked(after, s.insert(q, u)),
{
    let t = s.insert(q, u);
    assert forall|i: int| 0 <= i < t.len() - 1 implies (#[trigger] after[t[i] as int]).next
        == Some(t[i + 1]) by {
        if i < q - 1 {
            assert(t[i] == s[i] && t[i + 1] == s[i + 1]);
            assert(nodes[s[i] as int].next == Some(s[i + 1]));
        } else if i == q - 1 {
            assert(t[i] == s[q - 1] && t[i + 1] == u);
        } else if i == q {
            assert(t[i] == u && t[i + 1] == s[q]);
        } else {
            assert(t[i] == s[i - 1] && t[i + 1] == s[i]);
            assert(nodes[s[i - 1] as int].next == Some(s[i]));
        }
    }
    assert forall|i: int| 0 < i < t.len() implies (#[trigger] after[t[i] as int]).prev == Some(
        t[i - 1],
    ) by {
        if i < q {
            assert(t[i] == s[i] && t[i - 1] == s[i - 1]);
            assert(nodes[s[i] as int].prev == Some(s[i - 1]));
        } else if i == q {
            assert(t[i] == u && t[i - 1] == s[q - 1]);
        } else if i == q + 1 {
            assert(t[i] == s[q] && t[i - 1] == u);
        } else {
            assert(t[i] == s[i - 1] && t[i - 1] == s[i - 2]);
            assert(nodes[s[i - 1] as int].prev == Some(s[i - 2]));
        }
    }
    assert forall|i: int, j: int| 0 <= i < j < t.len() implies t[i] != t[j] by {
        let a = if i < q {
            i
        } else {
            i - 1
        };
        let b = if j < q {
            j
        } else {
            j - 1
        };
        if i != q && j != q {
            assert(t[i] == s[a] && t[j] == s[b]);
        }
    }
    assert forall|i: int| 0 <= i < t.len() implies #[trigger] t[i] < after.len() by {
        if i < q {
            assert(t[i] == s[i]);
        } else if i > q {
            assert(t[i] == s[i - 1]);
        }
    }
}

/// Linking the two neighbours of a node to each other takes the node out
/// of the strand.
proof fn lemma_linked_remove<T>(
    nodes: Seq<Node<T>>,
    after: Seq<Node<T>>,
    s: Seq<usize>,
    q: int,
)
    requires
        linked(nodes, s),
        0 < q < s.len() - 1,
        nodes.len() == after.len(),
        after[s[q - 1] as int].next == Some(s[q + 1]),
        after[s[q - 1] as int].prev == nodes[s[q - 1] as int].prev,
        after[s[q + 1] as int].prev == Some(s[q - 1]),
        after[s[q + 1] as int].next == nodes[s[q + 1] as int].next,
        forall|h: int|
            0 <= h < nodes.len() && h != s[q - 1] && h != s[q] && h != s[q + 1]
                ==> #[trigger] after[h] == nodes[h],
    ensures
        linked(after, s.remove(q)),
{
    let t = s.remove(q);
    assert forall|i: int| 0 <= i < t.len() - 1 implies (#[trigger] after[t[i] as int]).next
        == Some(t[i + 1]) by {
        if i < q - 1 {
            assert(t[i] == s[i] && t[i + 1] == s[i + 1]);
            assert(nodes[s[i] as int].next == Some(s[i + 1]));
        } else if i == q - 1 {
            assert(t[i] == s[q - 1] && t[i + 1] == s[q + 1]);
        } else {
            assert(t[i] == s[i + 1] && t[i + 1] == s[i + 2]);
            assert(nodes[s[i + 1] as int].next == Some(s[i + 2]));
        }
    }
    assert forall|i: int| 0 < i < t.len() implies (#[trigger] after[t[i] as int]).prev == Some(
        t[i - 1],
    ) by {
        if i < q {
            assert(t[i] == s[i] && t[i - 1] == s[i - 1]);
            assert(nodes[s[i] as int].prev == Some(s[i - 1]));
        } else if i == q {
            assert(t[i] == s[q + 1] && t[i - 1] == s[q - 1]);
        } else {
            assert(t[i] == s[i + 1] && t[i - 1] == s[i]);
            assert(nodes[s[i + 1] as int].prev == Some(s[i]));
        }
    }
    assert forall|i: int, j: int| 0 <= i < j < t.len() implies t[i] != t[j] by {
        let a = if i < q {
            i
        } else {
            i + 1
        };
        let b = if j < q {
            j
        } else {
            j + 1
        };
        assert(t[i] == s[a] && t[j] == s[b]);
    }
    assert forall|i: int| 0 <= i < t.len() implies #[trigger] t[i] < after.len() by {
        if i < q {
            assert(t[i] == s[i]);
        } else {
            assert(t[i] == s[i + 1]);
        }
    }
}

/// A handle that occurs in a sequence still occurs in it after another
/// is inserted, and so does the inserted one.
proof fn lemma_insert_contains(s: Seq<usize>, p: int, u: usize, h: usize)
    requires
        0 <= p <= s.len(),
        s.contains(h) || h == u,
    ensures
        s.insert(p, u).contains(h),
{
    let t = s.insert(p, u);
    if h == u {
        assert(t[p] == h);
    } else {
        let i = s.index_of(h);
        if i < p {
            assert(t[i] == h);
        } else {
            assert(t[i + 1] == h);
        }
    }
}

/// A handle that occurs in a sequence still occurs in it after another
/// is removed.
proof fn lemma_remove_contains(s: Seq<usize>, p: int, h: usize)
    requires
        0 <= p < s.len(),
        s.contains(h),
        s[p] != h,
    ensures
        s.remove(p).contains(h),
{
    let t = s.remove(p);
    let i = s.index_of(h);
    if i < p {
        assert(t[i] == h);
    } else {
        assert(t[i - 1] == h);
    }
}

/// A doubly linked list between two dummy nodes. The nodes live in an
/// arena and link to each other by their places in it; such a place is
/// the handle by which a caller names a node.
pub struct DLList<T> {
    nodes: Vec<Node<T>>,
    free: Option<usize>,
    n: usize,
    order: Ghost<Seq<usize>>,
    spare: Ghost<Seq<usize>>,
}

impl<T> View for DLList<T> {
    type V = Seq<T>;

    /// The elements from the first node to the last.
    closed spec fn view(&self) -> Seq<T> {
        items(self.nodes@, self.order@)
    }
}

impl<T> DLList<T> {
    /// What `get(i)` copies: the `i`-th element, or nothing past the end.
    pub open spec fn spec_get(&self, i: int) -> Option<T> {
        item_at(self@, i)
    }

    /// The handles of the list's nodes, from the first node to the last.
    pub closed spec fn handles(&self) -> Seq<usize> {
        self.order@
    }

    /// The handle of the dummy node in front of the first node.
    pub open spec fn head_handle() -> usize {
        0
    }

    /// The handle of the dummy node behind the last node.
    pub open spec fn tail_handle() -> usize {
        1
    }

    /// The handle names a node before which a node can be added: a node
    /// of the list, or the dummy tail.
    pub open spec fn accepts(&self, w: usize) -> bool {
        w == Self::tail_handle() || self.handles().contains(w)
    }

    /// The index of the node that the handle names; the dummy tail stands
    /// behind the last node.
    pub open spec fn position(&self, w: usize) -> int {
        if self.handles().contains(w) {
            self.handles().index_of(w)
        } else {
            self.handles().len() as int
        }
    }

    /// What follows the node named by `w`: the next handle on the way
    /// from the dummy head through the list to the dummy tail.
    pub open spec fn successor(&self, w: usize) -> Option<usize> {
        if w == Self::head_handle() {
            if self.handles().len() > 0 {
                Some(self.handles()[0])
            } else {
                Some(Self::tail_handle())
            }
        } else if self.handles().contains(w) {
            if self.position(w) + 1 < self.handles().len() {
                Some(self.handles()[self.position(w) + 1])
            } else {
                Some(Self::tail_handle())
            }
        } else {
            None
        }
    }

    /// What precedes the node named by `w`: the previous handle on the
    /// way from the dummy head through the list to the dummy tail.
    pub open spec fn predecessor(&self, w: usize) -> Option<usize> {
        if w == Self::head_handle() {
            None
        } else if self.accepts(w) {
            if self.position(w) > 0 {
                Some(self.handles()[self.position(w) - 1])
            } else {
                Some(Self::head_handle())
            }
        } else {
            None
        }
    }

    /// The dummy nodes and the list's nodes are linked in order in both
    /// directions, the unused nodes are chained from the free link, the
    /// arena holds no other node, and exactly the list's nodes hold an
    /// element.
    pub closed spec fn wf(&self) -> bool {
        &&& self.n == self.order@.len()
        &&& arena_wf(self.nodes@, self.order@, self.spare@, self.free)
    }

    /// In a list in order as many handles as elements name its nodes, no
    /// handle occurs twice, and none is the handle of a dummy node.
    pub proof fn lemma_handles(&self)
        requires
            self.wf(),
        ensures
            self.handles().len() == self@.len(),
            self.handles().no_duplicates(),
            !self.handles().contains(Self::head_handle()),
            !self.handles().contains(Self::tail_handle()),
    {
        let s = strand(self.order@);
        assert forall|i: int, j: int|
            0 <= i < self.order@.len() && 0 <= j < self.order@.len()
                && i != j implies self.order@[i]
            != self.order@[j] by {
            assert(s[i + 1] == self.order@[i] && s[j + 1] == self.order@[j]);
        }
        assert forall|i: int| 0 <= i < self.order@.len() implies self.order@[i] != 0
            && self.order@[i] != 1 by {
            assert(s[i + 1] == self.order@[i] && s[0] == 0 && s[s.len() - 1] == 1);
        }
    }

    /// The list's nodes are nodes of the arena other than the dummies, and
    /// no two of them are the same.
    proof fn lemma_order(&self)
        requires
            self.wf(),
        ensures
            forall|i: int|
                0 <= i < self.order@.len() ==> 2 <= #[trigger] self.order@[i] < self.nodes@.len(),
            forall|i: int|
                0 <= i < self.order@.len() ==> #[trigger] self.order@[i] == strand(
                    self.order@,
                )[i + 1],
            forall|i: int, j: int|
                0 <= i < self.order@.len() && 0 <= j < self.order@.len() && i != j
                    ==> self.order@[i] != self.order@[j],
            strand(self.order@).len() == self.order@.len() + 2,
            strand(self.order@)[0] == 0,
            strand(self.order@)[self.order@.len() as int + 1] == 1,
    {
        lemma_strand(self.nodes@, self.order@);
    }

    /// An empty list: the dummy head linked to the dummy tail.
    pub fn new() -> (l: Self)
        ensures
            l.wf(),
            l@ == Seq::<T>::empty(),
            l.handles() == Seq::<usize>::empty(),
    {
        let mut nodes: Vec<Node<T>> = Vec::new();
        nodes.push(Node::dummy(None, Some(1)));
        nodes.push(Node::dummy(Some(0), None));
        let l = Self {
            nodes,
            free: None,
            n: 0,
            order: Ghost(Seq::empty()),
            spare: Ghost(Seq::empty()),
        };
        proof {
            assert(strand(l.order@) =~= seq![0usize, 1usize]);
            assert(l@ =~= Seq::<T>::empty());
        }
        l
    }

    /// The number of elements.
    pub fn size(&self) -> (n: usize)
        requires
            self.wf(),
        ensures
            n == self@.len(),
    {
        self.n
    }

    /// The handle of the dummy node in front of the first node.
    pub fn head(&self) -> (w: usize)
        ensures
            w == Self::head_handle(),
    {
        0
    }

    /// The handle of the dummy node behind the last node.
    pub fn tail(&self) -> (w: usize)
        ensures
            w == Self::tail_handle(),
    {
        1
    }

    /// Tells whether `w` names a node of the list or the dummy tail.
    fn is_accepted(&self, w: usize) -> (yes: bool)
        requires
            self.wf(),
        ensures
            yes == self.accepts(w),
            yes ==> w < self.nodes@.len() && w != 0,
    {
        proof {
            self.lemma_handles();
            if self.order@.contains(w) {
                let i = self.order@.index_of(w);
                assert(strand(self.order@)[i + 1] == w);
            }
        }
        w == 1 || (w < self.nodes.len() && self.nodes[w].x.is_some())
    }

    /// The handle that follows `w` on the way from the dummy head through
    /// the list to the dummy tail; nothing for the dummy tail and for a
    /// handle that names no node of the list.
    pub fn next(&self, w: usize) -> (r: Option<usize>)
        requires
            self.wf(),
        ensures
            r == self.successor(w),
    {
        proof {
            self.lemma_handles();
            let s = strand(self.order@);
            if self.order@.contains(w) {
                let i = self.order@.index_of(w);
                assert(s[i + 1] == w);
                if i + 1 < self.order@.len() {
                    assert(s[i + 2] == self.order@[i + 1]);
                } else {
                    assert(s[i + 2] == 1);
                }
            }
            if w == 0 {
                assert(s[0] == 0);
                if self.order@.len() > 0 {
                    assert(s[1] == self.order@[0]);
                } else {
                    assert(s[1] == 1);
                }
            }
        }
        if w == 0 || (w < self.nodes.len() && self.nodes[w].x.is_some()) {
            self.nodes[w].next
        } else {
            None
        }
    }

    /// The handle that precedes `w` on the way from the dummy head through
    /// the list to the dummy tail; nothing for the dummy head and for a
    /// handle that names no node of the list.
    pub fn prev(&self, w: usize) -> (r: Option<usize>)
        requires
            self.wf(),
        ensures
            r == self.predecessor(w),
    {
        proof {
            self.lemma_handles();
            let s = strand(self.order@);
            if self.order@.contains(w) {
                let i = self.order@.index_of(w);
                assert(s[i + 1] == w);
                if i > 0 {
                    assert(s[i] == self.order@[i - 1]);
                } else {
                    assert(s[i] == 0);
                }
            } else if w == 1 {
                let n = self.order@.len() as int;
                assert(s[n + 1] == 1);
                if n > 0 {
                    assert(s[n] == self.order@[n - 1]);
                } else {
                    assert(s[n] == 0);
                }
            }
        }
        if self.is_accepted(w) {
            self.nodes[w].prev
        } else {
            None
        }
    }

    /// The handle of the node at index `i`, found by walking from the
    /// nearer end; index `size` gives the dummy tail, a greater one
    /// nothing.
    pub fn get_node(&self, i: usize) -> (r: Option<usize>)
        requires
            self.wf(),
        ensures
            i < self@.len() ==> r == Some(self.handles()[i as int]),
            i == self@.len() ==> r == Some(Self::tail_handle()),
            i > self@.len() ==> r is None,
            r matches Some(w) ==> self.accepts(w) && self.position(w) == i,
    {
        if i > self.n {
            return None;
        }
        let ghost s = strand(self.order@);
        proof {
            self.lemma_handles();
            assert(s[0] == 0 && s[self.n + 1] == 1);
        }
        let mut p: usize;
        if i < self.n / 2 {
            p = self.nodes[0].next.unwrap();
            let mut k: usize = 0;
            while k < i
                invariant
                    self.wf(),
                    s == strand(self.order@),
                    k <= i < self.n,
                    p == s[k + 1],
                decreases i - k,
            {
                p = self.nodes[p].next.unwrap();
                k += 1;
            }
        } else {
            p = 1;
            let mut k: usize = self.n;
            while k > i
                invariant
                    self.wf(),
                    s == strand(self.order@),
                    i <= k <= self.n,
                    p == s[k + 1],
                decreases k,
            {
                p = self.nodes[p].prev.unwrap();
                k -= 1;
            }
        }
        proof {
            if i < self.n {
                assert(s[i + 1] == self.order@[i as int]);
                assert(self.order@.contains(p));
                self.order@.index_of_first_ensures(p);
            }
        }
        Some(p)
    }

    /// A copy of the element at index `i`, if there is one.
    pub fn get(&self, i: usize) -> (r: Option<T>) where T: Clone
        requires
            self.wf(),
        ensures
            r is Some <==> self.spec_get(i as int) is Some,
            r is Some ==> cloned(self.spec_get(i as int).unwrap(), r.unwrap()),
    {
        if i >= self.n {
            return None;
        }
        let w = self.get_node(i).unwrap();
        proof {
            assert(strand(self.order@)[i + 1] == w);
        }
        match self.nodes[w].x.as_ref() {
            Some(v) => Some(v.clone()),
            None => None,
        }
    }

    /// Replaces the element at index `i` by `x` and returns the element
    /// that was there. Past the end nothing is stored and nothing returned.
    pub fn set(&mut self, i: usize, x: T) -> (r: Option<T>)
        requires
            old(self).wf(),
        ensures
            final(self).wf(),
            final(self).handles() == old(self).handles(),
            i < old(self)@.len() ==> r == Some(old(self)@[i as int])
                && final(self)@ == old(self)@.update(i as int, x),
            i >= old(self)@.len() ==> r is None && final(self)@ == old(self)@,
    {
        if i >= self.n {
            return None;
        }
        let w = self.get_node(i).unwrap();
        proof {
            self.lemma_order();
            assert(self.order@[i as int] == w);
            assert(self.nodes@[w as int].x is Some);
        }
        let r = self.nodes[w].x.take();
        self.nodes[w].x = Some(x);
        proof {
            assert(self.nodes@.len() == old(self).nodes@.len());
            assert(self.nodes@[w as int].x == Some(x));
            assert forall|i: int| 0 <= i < self.order@.len() implies (
            #[trigger] self.nodes@[self.order@[i] as int]).x is Some by {
                if self.order@[i] != w {
                    assert(old(self).nodes@[self.order@[i] as int].x is Some);
                }
            }
            assert forall|h: int| 0
                <= h < self.nodes@.len() implies (#[trigger] self.nodes@[h]).next
                == old(self).nodes@[h].next && self.nodes@[h].prev == old(self).nodes@[h].prev
                && (h != w ==> self.nodes@[h].x == old(self).nodes@[h].x) by {}
            assert forall|h: usize|
                h < self.nodes@.len() && (#[trigger] self.nodes@[h as int]).x is Some
                    implies self.order@.contains(h) by {
                if h != w {
                    assert(old(self).nodes@[h as int].x is Some);
                }
            }
            assert(self.wf());
            assert(self@ =~= old(self)@.update(i as int, x));
        }
        r
    }
    /// Takes a node for `x`, linked to `prev` and `next`: the first unused
    /// node, or a new one where none is unused. Returns the node's handle.
    fn claim(&mut self, x: T, prev: usize, next: usize) -> (at: usize)
        requires
            old(self).wf(),
        ensures
            final(self).n == old(self).n,
            final(self).order@ == old(self).order@,
            final(self).n + final(self).spare@.len() + 3 == final(self).nodes@.len(),
            old(self).nodes@.len() <= final(self).nodes@.len() <= usize::MAX,
            final(self).nodes@.len() == old(self).nodes@.len() || (final(self).nodes@.len() == old(
                self,
            ).nodes@.len() + 1 && at == old(self).nodes@.len()),
            2 <= at < final(self).nodes@.len(),
            final(self).nodes@[at as int].x == Some(x),
            final(self).nodes@[at as int].prev == Some(prev),
            final(self).nodes@[at as int].next == Some(next),
            forall|i: int| 0 <= i < old(self).order@.len() ==> old(self).order@[i] != at,
            forall|i: int| 0 <= i < final(self).spare@.len() ==> final(self).spare@[i] != at,
            forall|h: int|
                0 <= h < old(self).nodes@.len() && h != at ==> #[trigger] final(self).nodes@[h]
                    == old(self).nodes@[h],
            shelved(final(self).nodes@, final(self).spare@, final(self).free),
    {
        assert(self.nodes.len() <= usize::MAX);
        proof {
            self.lemma_order();
        }
        match self.free {
            Some(f) => {
                proof {
                    assert(self.spare@[0] == f);
                    assert forall|i: int| 0 <= i < self.order@.len() implies self.order@[i]
                        != f by {
                        assert(self.nodes@[self.order@[i] as int].x is Some);
                    }
                }
                self.free = self.nodes[f].next;
                self.nodes[f] = Node::new(x, prev, next);
                proof {
                    let rest = self.spare@.drop_first();
                    assert forall|i: int| 0 <= i < rest.len() implies rest[i] != f by {
                        assert(rest[i] == old(self).spare@[i + 1]);
                    }
                    self.spare@ = rest;
                }
                f
            },
            None => {
                let at = self.nodes.len();
                self.nodes.push(Node::new(x, prev, next));
                assert(self.nodes.len() <= usize::MAX);
                at
            },
        }
    }

    /// Adds `x` in a new node before the node named by `w`, which is a
    /// node of the list or the dummy tail, and returns the new node's
    /// handle. Without a handle, or with one that names no such node,
    /// nothing is added and nothing returned.
    pub fn add_before(&mut self, w: Option<usize>, x: T) -> (r: Option<usize>)
        requires
            old(self).wf(),
        ensures
            final(self).wf(),
            r is Some <==> w is Some && old(self).accepts(w.unwrap()),
            r matches Some(u) ==> {
                let p = old(self).position(w.unwrap());
                &&& 0 <= p <= old(self)@.len()
                &&& final(self)@ == old(self)@.insert(p, x)
                &&& final(self).handles() == old(self).handles().insert(p, u)
                &&& !old(self).accepts(u)
                &&& u != Self::head_handle()
                &&& final(self).handles().contains(u)
                &&& final(self).position(u) == p
            },
            r is None ==> final(self)@ == old(self)@ && final(self).handles() == old(
                self,
            ).handles(),
    {
        let w = match w {
            Some(w) => w,
            None => {
                return None;
            },
        };
        if !self.is_accepted(w) {
            return None;
        }
        let ghost p = self.position(w);
        let ghost s = strand(self.order@);
        proof {
            self.lemma_order();
            self.lemma_handles();
            if self.order@.contains(w) {
                assert(self.order@[p] == w);
            }
            assert(s[p + 1] == w);
        }
        let v = self.nodes[w].prev.unwrap();
        assert(v == s[p]);
        assert(v < self.nodes@.len());
        let u = self.claim(x, v, w);
        let ghost claimed = self.nodes@;
        self.nodes[v].next = Some(u);
        self.nodes[w].prev = Some(u);
        self.n = self.n + 1;
        proof {
            assert(relinked(claimed, self.nodes@, v, w, u));
            lemma_added(
                old(self).nodes@,
                claimed,
                self.nodes@,
                self.order@,
                self.spare@,
                self.free,
                p,
                u,
                x,
            );
            self.order@ = self.order@.insert(p, u);
            assert(self.order@[p] == u);
            self.lemma_handles();
        }
        Some(u)
    }

    /// Adds `x` at index `i`, in front of the node that is there, and
    /// returns `true`; past index `size` nothing is added and `false`
    /// returned.
    pub fn add(&mut self, i: usize, x: T) -> (r: bool)
        requires
            old(self).wf(),
        ensures
            r ==> final(self)@ == Step::Add(i as int, x).after(old(self)@),
            final(self).wf(),
            r == (i <= old(self)@.len()),
            r ==> final(self)@ == old(self)@.insert(i as int, x)
                && final(self)@.len() == old(self)@.len() + 1,
            !r ==> final(self)@ == old(self)@ && final(self).handles() == old(self).handles(),
    {
        let w = self.get_node(i);
        self.add_before(w, x).is_some()
    }

    /// Takes the node named by `w` out of the list and returns its
    /// element. Without a handle, or with one that names no node of the
    /// list, nothing is removed and nothing returned.
    pub fn remove_node(&mut self, w: Option<usize>) -> (r: Option<T>)
        requires
            old(self).wf(),
        ensures
            final(self).wf(),
            r is Some <==> w is Some && old(self).handles().contains(w.unwrap()),
            r is Some ==> {
                let p = old(self).position(w.unwrap());
                &&& 0 <= p < old(self)@.len()
                &&& r == Some(old(self)@[p])
                &&& final(self)@ == old(self)@.remove(p)
                &&& final(self).handles() == old(self).handles().remove(p)
            },
            r is None ==> final(self)@ == old(self)@ && final(self).handles() == old(
                self,
            ).handles(),
    {
        let w = match w {
            Some(w) => w,
            None => {
                return None;
            },
        };
        proof {
            self.lemma_order();
            self.lemma_handles();
            if self.order@.contains(w) {
                assert(self.order@[self.order@.index_of(w)] == w);
                assert(self.nodes@[w as int].x is Some);
            }
        }
        if !(w < self.nodes.len() && self.nodes[w].x.is_some()) {
            return None;
        }
        let ghost p = self.order@.index_of(w);
        let ghost s = strand(self.order@);
        assert(s[p + 1] == w);
        let before_w = self.nodes[w].prev.unwrap();
        let after_w = self.nodes[w].next.unwrap();
        proof {
            assert(before_w == s[p] && after_w == s[p + 2]);
            assert(before_w < self.nodes@.len() && after_w < self.nodes@.len());
            assert(before_w != after_w);
        }
        self.nodes[after_w].prev = Some(before_w);
        self.nodes[before_w].next = Some(after_w);
        let ghost unlinked = self.nodes@;
        let r = self.nodes[w].x.take();
        self.nodes[w].prev = None;
        self.nodes[w].next = self.free;
        self.free = Some(w);
        self.n = self.n - 1;
        proof {
            assert(relinked(old(self).nodes@, unlinked, before_w, after_w, after_w));
            lemma_removed(
                old(self).nodes@,
                unlinked,
                self.nodes@,
                self.order@,
                self.spare@,
                old(self).free,
                p,
            );
            self.order@ = self.order@.remove(p);
            self.spare@ = self.spare@.insert(0, w);
        }
        r
    }

    /// Removes the element at index `i` and returns it; past the end
    /// nothing happens.
    pub fn remove(&mut self, i: usize) -> (r: Option<T>)
        requires
            old(self).wf(),
        ensures
            final(self)@ == Step::Remove(i as int).after(old(self)@),
            r is Some <==> Step::<T>::Remove(i as int).yields(old(self)@.len() as int),
            final(self).wf(),
            i < old(self)@.len() ==> r == Some(old(self)@[i as int])
                && final(self)@ == old(self)@.remove(i as int)
                && final(self)@.len() == old(self)@.len() - 1,
            i >= old(self)@.len() ==> r is None && final(self)@ == old(self)@
                && final(self).handles() == old(self).handles(),
    {
        if i >= self.n {
            return None;
        }
        let w = self.get_node(i);
        proof {
            self.lemma_handles();
        }
        self.remove_node(w)
    }

    /// What `set` stores at an index of the list, `get` finds there.
    pub proof fn lemma_set_then_get(before: &Self, after: &Self, i: usize, x: T)
        requires
            before.wf(),
            after.wf(),
            i < before@.len(),
            after@ == before@.update(i as int, x),
        ensures
            after.spec_get(i as int) == Some(x),
    {
    }

    /// A list that came from an empty one by a sequence of insertions and
    /// removals has as many elements as there were insertions, less the
    /// removals that returned an element.
    pub proof fn lemma_size_counts_calls(&self, steps: Seq<Step<T>>)
        requires
            self.wf(),
            all_allowed(Seq::<T>::empty(), steps),
            self@ == replay(Seq::<T>::empty(), steps),
        ensures
            self@.len() == count_added(steps) - count_removed(Seq::<T>::empty(), steps),
    {
        lemma_size_counts_calls(Seq::<T>::empty(), steps);
    }
}

impl<T> Default for DLList<T> {
    /// An empty list.
    fn default() -> (l: Self)
        ensures
            l.wf(),
            l@ == Seq::<T>::empty(),
    {
        Self::new()
    }
}

} // verus!
