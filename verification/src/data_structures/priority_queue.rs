use vstd::prelude::*;
use vstd::seq_lib::group_to_multiset_ensures;

verus! {

/// The index of the parent of entry `i` of a binary heap.
pub open spec fn parent(i: int) -> int {
    (i - 1) / 2
}

/// `s` with the entries at `i` and `j` exchanged.
pub open spec fn swapped<A>(s: Seq<A>, i: int, j: int) -> Seq<A> {
    s.update(i, s[j]).update(j, s[i])
}

/// No entry has a larger priority than its parent.
pub open spec fn is_heap<T>(s: Seq<(u64, T)>) -> bool {
    forall|i: int| 0 < i < s.len() ==> s[parent(i)].0 >= (#[trigger] s[i]).0
}

/// The entry at `idx` moved towards the root for as long as its priority is
/// larger than its parent's.
pub open spec fn sifted_up<T>(s: Seq<(u64, T)>, idx: int) -> Seq<(u64, T)>
    decreases idx,
{
    if 0 < idx < s.len() && s[idx].0 > s[parent(idx)].0 {
        sifted_up(swapped(s, idx, parent(idx)), parent(idx))
    } else {
        s
    }
}

/// The index among `idx` and its children that holds the largest priority;
/// on equal priorities `idx` before the left child before the right child.
pub open spec fn largest_of_three<T>(s: Seq<(u64, T)>, idx: int) -> int {
    let left = 2 * idx + 1;
    let right = 2 * idx + 2;
    let first = if left < s.len() && s[left].0 > s[idx].0 {
        left
    } else {
        idx
    };
    if right < s.len() && s[right].0 > s[first].0 {
        right
    } else {
        first
    }
}

/// The entry at `idx` moved away from the root, each time exchanged with its
/// larger child, for as long as a child has a larger priority.
pub open spec fn sifted_down<T>(s: Seq<(u64, T)>, idx: int) -> Seq<(u64, T)>
    decreases s.len() - idx,
{
    let next = largest_of_three(s, idx);
    if 0 <= idx < s.len() && next != idx {
        sifted_down(swapped(s, idx, next), next)
    } else {
        s
    }
}

/// The heap after `(priority, value)` has been added to the heap `s`.
pub open spec fn pushed<T>(s: Seq<(u64, T)>, priority: u64, value: T) -> Seq<(u64, T)> {
    sifted_up(s.push((priority, value)), s.len() as int)
}

/// The heap after the root has been taken from the heap `s`.
pub open spec fn popped<T>(s: Seq<(u64, T)>) -> Seq<(u64, T)> {
    if s.len() == 0 {
        s
    } else {
        sifted_down(swapped(s, 0, s.len() - 1).drop_last(), 0)
    }
}

/// The heap that results from adding `entries` one by one to an empty heap.
pub open spec fn heap_of<T>(entries: Seq<(u64, T)>) -> Seq<(u64, T)>
    decreases entries.len(),
{
    if entries.len() == 0 {
        Seq::empty()
    } else {
        pushed(heap_of(entries.drop_last()), entries.last().0, entries.last().1)
    }
}

/// Heap order everywhere but between `idx` and its parent.
spec fn heap_but_above<T>(s: Seq<(u64, T)>, idx: int) -> bool {
    &&& forall|i: int| 0 < i < s.len() && i != idx ==> s[parent(i)].0 >= (#[trigger] s[i]).0
    &&& forall|i: int|
        0 < i < s.len() && parent(i) == idx && idx > 0 ==> s[parent(idx)].0 >= (#[trigger] s[i]).0
}

/// Heap order everywhere but between `idx` and its children.
spec fn heap_but_below<T>(s: Seq<(u64, T)>, idx: int) -> bool {
    &&& forall|i: int|
        0 < i < s.len() && parent(i) != idx ==> s[parent(i)].0 >= (#[trigger] s[i]).0
    &&& forall|i: int|
        0 < i < s.len() && parent(i) == idx && idx > 0 ==> s[parent(idx)].0 >= (#[trigger] s[i]).0
}

proof fn lemma_swapped_same_entries<A>(s: Seq<A>, i: int, j: int)
    requires
        0 <= i < s.len(),
        0 <= j < s.len(),
    ensures
        swapped(s, i, j).to_multiset() == s.to_multiset(),
        swapped(s, i, j).len() == s.len(),
{
    broadcast use group_to_multiset_ensures;

    assert(swapped(s, i, j).to_multiset() =~= s.to_multiset());
}

proof fn lemma_sifted_up<T>(s: Seq<(u64, T)>, idx: int)
    requires
        0 <= idx < s.len(),
        heap_but_above(s, idx),
    ensures
        is_heap(sifted_up(s, idx)),
        sifted_up(s, idx).to_multiset() == s.to_multiset(),
        sifted_up(s, idx).len() == s.len(),
    decreases idx,
{
    if idx > 0 && s[idx].0 > s[parent(idx)].0 {
        let p = parent(idx);
        let t = swapped(s, idx, p);
        lemma_swapped_same_entries(s, idx, p);
        assert(heap_but_above(t, p)) by {
            assert forall|i: int| 0 < i < t.len() && i != p implies t[parent(i)].0 >= (
            #[trigger] t[i]).0 by {
                if i == idx {
                } else if parent(i) == idx {
                    assert(s[p].0 >= s[i].0);
                } else if parent(i) == p {
                    assert(s[p].0 >= s[i].0);
                } else {
                    assert(s[parent(i)].0 >= s[i].0);
                }
            }
            assert forall|i: int| 0 < i < t.len() && parent(i) == p && p > 0 implies t[parent(p)].0
                >= (#[trigger] t[i]).0 by {
                assert(s[parent(p)].0 >= s[p].0);
                if i != idx {
                    assert(s[p].0 >= s[i].0);
                }
            }
        }
        lemma_sifted_up(t, p);
    } else {
        assert forall|i: int| 0 < i < s.len() implies s[parent(i)].0 >= (#[trigger] s[i]).0 by {
            if i != idx {
                assert(s[parent(i)].0 >= s[i].0);
            }
        }
    }
}

proof fn lemma_sifted_down<T>(s: Seq<(u64, T)>, idx: int)
    requires
        0 <= idx,
        heap_but_below(s, idx),
    ensures
        is_heap(sifted_down(s, idx)),
        sifted_down(s, idx).to_multiset() == s.to_multiset(),
        sifted_down(s, idx).len() == s.len(),
    decreases s.len() - idx,
{
    let next = largest_of_three(s, idx);
    if idx < s.len() && next != idx {
        let t = swapped(s, idx, next);
        lemma_swapped_same_entries(s, idx, next);
        assert(heap_but_below(t, next)) by {
            assert forall|i: int| 0 < i < t.len() && parent(i) != next implies t[parent(i)].0 >= (
            #[trigger] t[i]).0 by {
                if parent(i) == idx {
                } else if i == idx {
                    assert(s[parent(idx)].0 >= s[next].0);
                } else {
                    assert(s[parent(i)].0 >= s[i].0);
                }
            }
            assert forall|i: int|
                0 < i < t.len() && parent(i) == next && next > 0 implies t[parent(next)].0 >= (
            #[trigger] t[i]).0 by {
                assert(s[parent(i)].0 >= s[i].0);
            }
        }
        lemma_sifted_down(t, next);
    } else {
        assert forall|i: int| 0 < i < s.len() implies s[parent(i)].0 >= (#[trigger] s[i]).0 by {
            if parent(i) != idx {
                assert(s[parent(i)].0 >= s[i].0);
            }
        }
    }
}

/// Adding an entry to a heap gives a heap with that one entry more.
pub proof fn lemma_pushed<T>(s: Seq<(u64, T)>, priority: u64, value: T)
    requires
        is_heap(s),
    ensures
        is_heap(pushed(s, priority, value)),
        pushed(s, priority, value).to_multiset() == s.to_multiset().insert((priority, value)),
        pushed(s, priority, value).len() == s.len() + 1,
{
    broadcast use group_to_multiset_ensures;

    let t = s.push((priority, value));
    assert(heap_but_above(t, s.len() as int)) by {
        assert forall|i: int| 0 < i < t.len() && i != s.len() implies t[parent(i)].0 >= (
        #[trigger] t[i]).0 by {
            assert(s[parent(i)].0 >= s[i].0);
        }
    }
    lemma_sifted_up(t, s.len() as int);
}

/// Taking the root from a heap gives a heap with that one entry less.
pub proof fn lemma_popped<T>(s: Seq<(u64, T)>)
    requires
        is_heap(s),
        s.len() > 0,
    ensures
        is_heap(popped(s)),
        popped(s).to_multiset() == s.to_multiset().remove(s[0]),
        popped(s).len() == s.len() - 1,
{
    broadcast use group_to_multiset_ensures;

    let last = s.len() - 1;
    let u = swapped(s, 0, last);
    let t = u.drop_last();
    lemma_swapped_same_entries(s, 0, last);
    assert(t =~= u.remove(last));
    assert(u[last] == s[0]);
    assert(heap_but_below(t, 0)) by {
        assert forall|i: int| 0 < i < t.len() && parent(i) != 0 implies t[parent(i)].0 >= (
        #[trigger] t[i]).0 by {
            assert(s[parent(i)].0 >= s[i].0);
        }
    }
    lemma_sifted_down(t, 0);
}

/// The root of a heap holds the largest priority.
pub proof fn lemma_root_is_largest<T>(s: Seq<(u64, T)>, i: int)
    requires
        is_heap(s),
        0 <= i < s.len(),
    ensures
        s[i].0 <= s[0].0,
    decreases i,
{
    if i > 0 {
        assert(s[parent(i)].0 >= s[i].0);
        lemma_root_is_largest(s, parent(i));
    }
}

/// The heap built from `entries` is a heap and holds exactly `entries`.
pub proof fn lemma_heap_of<T>(entries: Seq<(u64, T)>)
    ensures
        is_heap(heap_of(entries)),
        heap_of(entries).to_multiset() == entries.to_multiset(),
        heap_of(entries).len() == entries.len(),
    decreases entries.len(),
{
    broadcast use group_to_multiset_ensures;

    if entries.len() > 0 {
        let rest = entries.drop_last();
        lemma_heap_of(rest);
        lemma_pushed(heap_of(rest), entries.last().0, entries.last().1);
        assert(rest.push(entries.last()) =~= entries);
    } else {
        assert(heap_of(entries).to_multiset() =~= entries.to_multiset());
    }
}

/// `<[T]>::swap`, which exchanges the elements at two indices of a slice and
/// leaves the others in place; it panics on an index out of bounds.
#[verifier::external_body]
fn swap_entries<T>(heap: &mut Vec<T>, a: usize, b: usize)
    requires
        a < old(heap)@.len(),
        b < old(heap)@.len(),
    ensures
        final(heap)@ == swapped(old(heap)@, a as int, b as int),
{
    heap.swap(a, b);
}

/// A binary max-heap of values, each with a priority.
pub struct PriorityQueue<T> {
    heap: Vec<(u64, T)>,
}

impl<T> View for PriorityQueue<T> {
    type V = Seq<(u64, T)>;

    /// The entries in the order in which the heap holds them, the root first.
    closed spec fn view(&self) -> Seq<(u64, T)> {
        self.heap@
    }
}

impl<T> PriorityQueue<T> {
    #[verifier::type_invariant]
    spec fn ordered(self) -> bool {
        is_heap(self.heap@)
    }

    pub fn new() -> (queue: Self)
        ensures
            queue@ == Seq::<(u64, T)>::empty(),
    {
        Self { heap: Vec::new() }
    }

    /// Adds `value`; a larger `priority` leaves the queue earlier.
    pub fn push(&mut self, priority: u64, value: T)
        ensures
            final(self)@ == pushed(old(self)@, priority, value),
            is_heap(old(self)@),
            is_heap(final(self)@),
            final(self)@.to_multiset() == old(self)@.to_multiset().insert((priority, value)),
            final(self)@.len() == old(self)@.len() + 1,
    {
        proof {
            use_type_invariant(&*self);
            lemma_pushed(self@, priority, value);
        }
        let mut heap = Vec::new();
        std::mem::swap(&mut heap, &mut self.heap);
        heap.push((priority, value));
        let last = heap.len() - 1;
        Self::bubble_up(&mut heap, last);
        self.heap = heap;
    }

    /// Removes an entry of the largest priority and returns its value.
    pub fn pop(&mut self) -> (top: Option<T>)
        ensures
            top == if old(self)@.len() == 0 {
                None
            } else {
                Some(old(self)@[0].1)
            },
            final(self)@ == popped(old(self)@),
            is_heap(old(self)@),
            is_heap(final(self)@),
            forall|i: int| 0 <= i < old(self)@.len() ==> (#[trigger] old(self)@[i]).0 <= old(self)@[0].0,
            old(self)@.len() > 0 ==> final(self)@.to_multiset() == old(self)@.to_multiset().remove(
                old(self)@[0],
            ),
    {
        proof {
            use_type_invariant(&*self);
            assert forall|i: int| 0 <= i < self@.len() implies (#[trigger] self@[i]).0
                <= self@[0].0 by {
                lemma_root_is_largest(self@, i);
            }
            if self@.len() > 0 {
                lemma_popped(self@);
            }
        }
        if self.heap.is_empty() {
            return None;
        }
        let mut heap = Vec::new();
        std::mem::swap(&mut heap, &mut self.heap);
        let last_idx = heap.len() - 1;
        swap_entries(&mut heap, 0, last_idx);
        let node = heap.pop().unwrap();
        if !heap.is_empty() {
            Self::bubble_down(&mut heap, 0);
        }
        self.heap = heap;
        Some(node.1)
    }

    /// The value that `pop` would return.
    pub fn peek(&self) -> (top: Option<&T>)
        ensures
            top == if self@.len() == 0 {
                None
            } else {
                Some(&self@[0].1)
            },
            forall|i: int| 0 <= i < self@.len() ==> (#[trigger] self@[i]).0 <= self@[0].0,
    {
        proof {
            use_type_invariant(self);
            assert forall|i: int| 0 <= i < self@.len() implies (#[trigger] self@[i]).0
                <= self@[0].0 by {
                lemma_root_is_largest(self@, i);
            }
        }
        if self.heap.len() == 0 {
            None
        } else {
            Some(&self.heap[0].1)
        }
    }

    pub fn is_empty(&self) -> (empty: bool)
        ensures
            empty == (self@.len() == 0),
    {
        self.heap.is_empty()
    }

    pub fn len(&self) -> (len: usize)
        ensures
            len == self@.len(),
    {
        self.heap.len()
    }

    fn bubble_up(heap: &mut Vec<(u64, T)>, idx: usize)
        requires
            idx < old(heap)@.len(),
        ensures
            final(heap)@ == sifted_up(old(heap)@, idx as int),
    {
        let mut at = idx;
        while at > 0 && heap[at].0 > heap[(at - 1) / 2].0
            invariant
                at < heap@.len(),
                sifted_up(heap@, at as int) == sifted_up(old(heap)@, idx as int),
            decreases at,
        {
            let parent = (at - 1) / 2;
            swap_entries(heap, at, parent);
            at = parent;
        }
    }

    fn bubble_down(heap: &mut Vec<(u64, T)>, idx: usize)
        requires
            idx < old(heap)@.len(),
        ensures
            final(heap)@ == sifted_down(old(heap)@, idx as int),
    {
        let mut at = idx;
        let len = heap.len();
        loop
            invariant
                at < heap@.len(),
                len == heap@.len(),
                sifted_down(heap@, at as int) == sifted_down(old(heap)@, idx as int),
            ensures
                heap@ == sifted_down(old(heap)@, idx as int),
            decreases len - at,
        {
            if at >= len / 2 {
                break ;
            }
            let left = 2 * at + 1;
            let right = 2 * at + 2;
            let mut largest = at;

            if heap[left].0 > heap[largest].0 {
                largest = left;
            }
            if right < len && heap[right].0 > heap[largest].0 {
                largest = right;
            }
            if largest != at {
                swap_entries(heap, at, largest);
                at = largest;
            } else {
                break ;
            }
        }
    }
}

impl<T> Default for PriorityQueue<T> {
    fn default() -> (queue: Self)
        ensures
            queue@ == Seq::<(u64, T)>::empty(),
    {
        Self::new()
    }
}

} // verus!
