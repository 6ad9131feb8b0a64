use vstd::prelude::*;

verus! {

/// A time window `[start, end)` that carries the id of an attraction.
#[derive(Debug, Clone, Copy, PartialEq, Eq, Structural)]
pub struct Interval {
    pub start: u32,
    pub end: u32,
    pub data: u32,
}

impl Interval {
    /// Whether `time` lies in the window.
    pub open spec fn covers(self, time: u32) -> bool {
        self.start <= time < self.end
    }
}

/// The index behind the last interval of `s` that starts at `key` or earlier.
pub open spec fn position_for(s: Seq<Interval>, key: u32) -> int
    decreases s.len(),
{
    if s.len() > 0 && key < s.last().start {
        position_for(s.drop_last(), key)
    } else {
        s.len() as int
    }
}

/// `s` with `interval` placed behind the last interval that starts no later.
pub open spec fn placed(s: Seq<Interval>, interval: Interval) -> Seq<Interval> {
    let p = position_for(s, interval.start);
    s.take(p).push(interval) + s.skip(p)
}

/// The ids of the intervals of `s` that cover `time`, in the order of `s`.
pub open spec fn open_ids(s: Seq<Interval>, time: u32) -> Seq<u32>
    decreases s.len(),
{
    if s.len() == 0 {
        Seq::empty()
    } else if s.last().covers(time) {
        open_ids(s.drop_last(), time).push(s.last().data)
    } else {
        open_ids(s.drop_last(), time)
    }
}

/// Whether the intervals of `s` are in the order of their starts.
pub open spec fn ordered_by_start(s: Seq<Interval>) -> bool {
    forall|i: int, j: int| 0 <= i <= j < s.len() ==> s[i].start <= s[j].start
}

pub proof fn lemma_position_in_range(s: Seq<Interval>, key: u32)
    ensures
        0 <= position_for(s, key) <= s.len(),
        forall|i: int| position_for(s, key) <= i < s.len() ==> key < s[i].start,
        position_for(s, key) > 0 ==> s[position_for(s, key) - 1].start <= key,
    decreases s.len(),
{
    if s.len() > 0 && key < s.last().start {
        let rest = s.drop_last();
        lemma_position_in_range(rest, key);
        assert forall|i: int| position_for(s, key) <= i < s.len() implies key < s[i].start by {
            if i < rest.len() {
                assert(s[i] == rest[i]);
            }
        }
        if position_for(s, key) > 0 {
            assert(s[position_for(s, key) - 1] == rest[position_for(rest, key) - 1]);
        }
    }
}

/// Placing an interval keeps a sequence in the order of its starts.
pub proof fn lemma_placed_keeps_order(s: Seq<Interval>, interval: Interval)
    requires
        ordered_by_start(s),
    ensures
        ordered_by_start(placed(s, interval)),
{
    lemma_position_in_range(s, interval.start);
    let p = position_for(s, interval.start);
    let t = placed(s, interval);
    assert forall|i: int, j: int| 0 <= i <= j < t.len() implies t[i].start <= t[j].start by {
        if i < p {
            assert(t[i] == s[i]);
            assert(s[i].start <= s[p - 1].start);
        }
        if j > p {
            assert(t[j] == s[j - 1]);
        }
    }
}

pub proof fn lemma_open_ids_concat(a: Seq<Interval>, b: Seq<Interval>, time: u32)
    ensures
        open_ids(a + b, time) == open_ids(a, time) + open_ids(b, time),
    decreases b.len(),
{
    if b.len() == 0 {
        assert(a + b =~= a);
        assert(open_ids(a, time) + open_ids(b, time) =~= open_ids(a, time));
    } else {
        lemma_open_ids_concat(a, b.drop_last(), time);
        assert((a + b).drop_last() =~= a + b.drop_last());
        assert((a + b).last() == b.last());
        if b.last().covers(time) {
            assert(open_ids(a, time) + open_ids(b.drop_last(), time).push(b.last().data)
                =~= (open_ids(a, time) + open_ids(b.drop_last(), time)).push(b.last().data));
        }
    }
}

/// An id is reported exactly when an interval with that id covers the time.
pub proof fn lemma_open_ids_members(s: Seq<Interval>, time: u32)
    ensures
        forall|k: int|
            #![trigger open_ids(s, time)[k]]
            0 <= k < open_ids(s, time).len() ==> exists|i: int|
                0 <= i < s.len() && (#[trigger] s[i]).covers(time) && s[i].data == open_ids(
                    s,
                    time,
                )[k],
        forall|i: int|
            0 <= i < s.len() && (#[trigger] s[i]).covers(time) ==> open_ids(s, time).contains(
                s[i].data,
            ),
    decreases s.len(),
{
    if s.len() > 0 {
        let rest = s.drop_last();
        lemma_open_ids_members(rest, time);
        assert forall|k: int| #![trigger open_ids(s, time)[k]] 0 <= k < open_ids(s, time).len() implies exists|
            i: int,
        |
            0 <= i < s.len() && (#[trigger] s[i]).covers(time) && s[i].data == open_ids(s, time)[k] by {
            if k < open_ids(rest, time).len() {
                assert(open_ids(s, time)[k] == open_ids(rest, time)[k]);
                let i = choose|i: int|
                    0 <= i < rest.len() && (#[trigger] rest[i]).covers(time) && rest[i].data
                        == open_ids(rest, time)[k];
                assert(s[i] == rest[i]);
                assert(0 <= i < s.len() && s[i].covers(time) && s[i].data == open_ids(s, time)[k]);
            } else {
                let i = s.len() - 1;
                assert(0 <= i < s.len() && s[i].covers(time) && s[i].data == open_ids(s, time)[k]);
            }
        }
        assert forall|i: int| 0 <= i < s.len() && (#[trigger] s[i]).covers(time) implies open_ids(
            s,
            time,
        ).contains(s[i].data) by {
            if i < rest.len() {
                assert(rest[i] == s[i]);
                let k = choose|k: int|
                    0 <= k < open_ids(rest, time).len() && open_ids(rest, time)[k] == s[i].data;
                assert(open_ids(s, time)[k] == s[i].data);
            } else {
                assert(open_ids(s, time)[open_ids(s, time).len() - 1] == s[i].data);
            }
        }
    } else {
        assert(open_ids(s, time).len() == 0);
    }
}

struct Node {
    interval: Interval,
    max_end: u32,
    left: Option<Box<Node>>,
    right: Option<Box<Node>>,
}

/// The intervals of a subtree: left subtree, node, right subtree.
spec fn in_order(node: Option<Box<Node>>) -> Seq<Interval>
    decreases node,
{
    match node {
        None => Seq::empty(),
        Some(n) => in_order(n.left) + seq![n.interval] + in_order(n.right),
    }
}

spec fn top_end(node: Option<Box<Node>>) -> u32 {
    match node {
        None => 0,
        Some(n) => n.max_end,
    }
}

spec fn largest(a: u32, b: u32, c: u32) -> u32 {
    if a >= b && a >= c {
        a
    } else if b >= c {
        b
    } else {
        c
    }
}

/// Search order by start, and `max_end` the largest end of the subtree.
spec fn well_formed(node: Option<Box<Node>>) -> bool
    decreases node,
{
    match node {
        None => true,
        Some(n) => {
            &&& well_formed(n.left)
            &&& well_formed(n.right)
            &&& forall|i: int|
                0 <= i < in_order(n.left).len() ==> (#[trigger] in_order(n.left)[i]).start
                    < n.interval.start
            &&& forall|i: int|
                0 <= i < in_order(n.right).len() ==> (#[trigger] in_order(n.right)[i]).start
                    >= n.interval.start
            &&& n.max_end == largest(n.interval.end, top_end(n.left), top_end(n.right))
        },
    }
}

proof fn lemma_ends_bounded(node: Option<Box<Node>>)
    requires
        well_formed(node),
    ensures
        forall|i: int| 0 <= i < in_order(node).len() ==> (#[trigger] in_order(node)[i]).end <= top_end(node),
    decreases node,
{
    if let Some(n) = node {
        lemma_ends_bounded(n.left);
        lemma_ends_bounded(n.right);
    }
}

proof fn lemma_none_open(s: Seq<Interval>, time: u32)
    requires
        forall|i: int| 0 <= i < s.len() ==> (#[trigger] s[i]).end <= time,
    ensures
        open_ids(s, time) == Seq::<u32>::empty(),
    decreases s.len(),
{
    if s.len() > 0 {
        assert(s[s.len() - 1].end <= time);
        lemma_none_open(s.drop_last(), time);
    }
}

proof fn lemma_position_left(a: Seq<Interval>, mid: Interval, b: Seq<Interval>, key: u32)
    requires
        key < mid.start,
        forall|i: int| 0 <= i < b.len() ==> (#[trigger] b[i]).start >= mid.start,
    ensures
        position_for(a + seq![mid] + b, key) == position_for(a, key),
    decreases b.len(),
{
    let whole = a + seq![mid] + b;
    if b.len() == 0 {
        assert(whole.last() == mid);
        assert(whole.drop_last() =~= a);
    } else {
        assert(whole.last() == b[b.len() - 1]);
        assert(whole.drop_last() =~= a + seq![mid] + b.drop_last());
        lemma_position_left(a, mid, b.drop_last(), key);
    }
}

proof fn lemma_position_right(a: Seq<Interval>, mid: Interval, b: Seq<Interval>, key: u32)
    requires
        key >= mid.start,
    ensures
        position_for(a + seq![mid] + b, key) == a.len() + 1 + position_for(b, key),
    decreases b.len(),
{
    let whole = a + seq![mid] + b;
    if b.len() == 0 {
        assert(whole.last() == mid);
    } else {
        assert(whole.last() == b.last());
        if key < b.last().start {
            assert(whole.drop_last() =~= a + seq![mid] + b.drop_last());
            lemma_position_right(a, mid, b.drop_last(), key);
        }
    }
}

fn larger(a: u32, b: u32) -> (m: u32)
    ensures
        m == if a >= b { a } else { b },
{
    if a >= b {
        a
    } else {
        b
    }
}

fn subtree_end(node: &Option<Box<Node>>) -> (end: u32)
    ensures
        end == top_end(*node),
{
    match node {
        None => 0,
        Some(n) => n.max_end,
    }
}

/// A search tree over time windows, ordered by their starts, in which every
/// node knows the latest end below it.
pub struct IntervalTree {
    root: Option<Box<Node>>,
}

impl View for IntervalTree {
    type V = Seq<Interval>;

    /// The intervals in the order of the tree.
    closed spec fn view(&self) -> Seq<Interval> {
        in_order(self.root)
    }
}

impl IntervalTree {
    #[verifier::type_invariant]
    spec fn valid(self) -> bool {
        well_formed(self.root)
    }

    pub fn new() -> (tree: Self)
        ensures
            tree@ == Seq::<Interval>::empty(),
    {
        Self { root: None }
    }

    /// Adds `interval` behind the intervals that start no later than it does.
    pub fn insert(&mut self, interval: Interval)
        ensures
            final(self)@ == placed(old(self)@, interval),
    {
        proof {
            use_type_invariant(&*self);
        }
        let mut root = None;
        std::mem::swap(&mut root, &mut self.root);
        self.root = Self::insert_node(root, interval);
    }

    fn insert_node(node: Option<Box<Node>>, interval: Interval) -> (out: Option<Box<Node>>)
        requires
            well_formed(node),
        ensures
            well_formed(out),
            in_order(out) == placed(in_order(node), interval),
            top_end(out) == larger_of(top_end(node), interval.end),
        decreases node,
    {
        let mut node = match node {
            None => {
                proof {
                    assert(placed(Seq::<Interval>::empty(), interval) =~= seq![interval]);
                    assert(Seq::<Interval>::empty() + seq![interval] + Seq::<Interval>::empty()
                        =~= seq![interval]);
                }
                return Some(
                    Box::new(Node { max_end: interval.end, interval, left: None, right: None }),
                );
            },
            Some(n) => n,
        };
        let ghost before = node;
        let ghost a = in_order(before.left);
        let ghost b = in_order(before.right);
        let ghost mid = before.interval;

        if interval.start < node.interval.start {
            let left = node.left.take();
            node.left = Self::insert_node(left, interval);
            proof {
                lemma_position_left(a, mid, b, interval.start);
                lemma_position_in_range(a, interval.start);
                let p = position_for(a, interval.start);
                assert(in_order(Some(node)) =~= placed(a + seq![mid] + b, interval));
                assert forall|i: int| 0 <= i < in_order(node.left).len() implies (
                #[trigger] in_order(node.left)[i]).start < node.interval.start by {
                    if i < p {
                        assert(in_order(node.left)[i] == a[i]);
                    } else if i > p {
                        assert(in_order(node.left)[i] == a[i - 1]);
                    }
                }
            }
        } else {
            let right = node.right.take();
            node.right = Self::insert_node(right, interval);
            proof {
                lemma_position_right(a, mid, b, interval.start);
                lemma_position_in_range(b, interval.start);
                let p = position_for(b, interval.start);
                assert(in_order(Some(node)) =~= placed(a + seq![mid] + b, interval));
                assert forall|i: int| 0 <= i < in_order(node.right).len() implies (
                #[trigger] in_order(node.right)[i]).start >= node.interval.start by {
                    if i < p {
                        assert(in_order(node.right)[i] == b[i]);
                    } else if i > p {
                        assert(in_order(node.right)[i] == b[i - 1]);
                    }
                }
            }
        }

        node.max_end = larger(
            node.interval.end,
            larger(subtree_end(&node.left), subtree_end(&node.right)),
        );

        Some(node)
    }

    /// The ids of the intervals that cover `time`, in the order of the tree.
    pub fn query_open_at(&self, time: u32) -> (ids: Vec<u32>)
        ensures
            ids@ == open_ids(self@, time),
    {
        proof {
            use_type_invariant(self);
        }
        let mut result = Vec::new();
        Self::query_recursive(&self.root, time, &mut result);
        assert(Seq::<u32>::empty() + open_ids(self@, time) =~= open_ids(self@, time));
        result
    }

    fn query_recursive(node: &Option<Box<Node>>, time: u32, result: &mut Vec<u32>)
        requires
            well_formed(*node),
        ensures
            final(result)@ == old(result)@ + open_ids(in_order(*node), time),
        decreases node,
    {
        if let Some(n) = node {
            let ghost a = in_order(n.left);
            let ghost b = in_order(n.right);
            proof {
                lemma_open_ids_concat(a + seq![n.interval], b, time);
                lemma_open_ids_concat(a, seq![n.interval], time);
                assert(seq![n.interval].drop_last() =~= Seq::<Interval>::empty());
                assert(seq![n.interval].last() == n.interval);
                assert(open_ids(Seq::<Interval>::empty(), time) =~= Seq::<u32>::empty());
                assert(open_ids(seq![n.interval], time) =~= if n.interval.covers(time) {
                    seq![n.interval.data]
                } else {
                    Seq::<u32>::empty()
                });
            }
            // No interval below ends after `max_end`.
            if n.max_end < time {
                proof {
                    lemma_ends_bounded(*node);
                    lemma_none_open(in_order(*node), time);
                    assert(old(result)@ + Seq::<u32>::empty() =~= old(result)@);
                }
                return ;
            }
            Self::query_recursive(&n.left, time, result);

            if n.interval.start <= time && time < n.interval.end {
                result.push(n.interval.data);
            }
            Self::query_recursive(&n.right, time, result);
            proof {
                assert(result@ =~= old(result)@ + open_ids(in_order(*node), time));
            }
        } else {
            proof {
                assert(old(result)@ + Seq::<u32>::empty() =~= old(result)@);
            }
        }
    }
}

spec fn larger_of(a: u32, b: u32) -> u32 {
    if a >= b {
        a
    } else {
        b
    }
}

impl Default for IntervalTree {
    fn default() -> (tree: Self)
        ensures
            tree@ == Seq::<Interval>::empty(),
    {
        Self::new()
    }
}

} // verus!
