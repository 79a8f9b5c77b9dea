//! The queues that threads wait in, one for each state.
use vstd::prelude::*;
use crate::sched::thread::ThreadState;

verus! {

/// Threads by their state. A thread is known by the address that its data lies at.
#[derive(Debug)]
pub struct ThreadList {
    nodes: Vec<(ThreadState, u64)>,
}

impl View for ThreadList {
    type V = Seq<(ThreadState, u64)>;

    closed spec fn view(&self) -> Seq<(ThreadState, u64)> {
        self.nodes@
    }
}

/// Where a thread stands first among the threads of its state.
pub open spec fn position(nodes: Seq<(ThreadState, u64)>, state: ThreadState, ptr: u64) -> int
    decreases nodes.len(),
{
    if nodes.len() == 0 {
        0
    } else if nodes[0] == (state, ptr) {
        0
    } else {
        1 + position(nodes.skip(1), state, ptr)
    }
}

/// The threads that wait in the queue of a state, in order.
pub open spec fn queue(nodes: Seq<(ThreadState, u64)>, state: ThreadState) -> Seq<u64>
    decreases nodes.len(),
{
    if nodes.len() == 0 {
        Seq::empty()
    } else {
        let front = queue(nodes.drop_last(), state);
        if nodes.last().0 == state {
            front.push(nodes.last().1)
        } else {
            front
        }
    }
}

/// A list without the queue of a state.
pub open spec fn without_queue(nodes: Seq<(ThreadState, u64)>, state: ThreadState) -> Seq<
    (ThreadState, u64),
>
    decreases nodes.len(),
{
    if nodes.len() == 0 {
        Seq::empty()
    } else {
        let front = without_queue(nodes.drop_last(), state);
        if nodes.last().0 == state {
            front
        } else {
            front.push(nodes.last())
        }
    }
}

/// Threads that stand in a list one after the other, all in one state.
pub open spec fn in_state(ptrs: Seq<u64>, state: ThreadState) -> Seq<(ThreadState, u64)> {
    Seq::new(ptrs.len(), |i: int| (state, ptrs[i]))
}

/// Where a whole queue leaves a list, that queue is empty then, and all others stay as
/// they are.
pub proof fn lemma_without_queue(
    nodes: Seq<(ThreadState, u64)>,
    state: ThreadState,
    other: ThreadState,
)
    ensures
        queue(without_queue(nodes, state), other) == if other == state {
            Seq::empty()
        } else {
            queue(nodes, other)
        },
    decreases nodes.len(),
{
    if nodes.len() > 0 {
        let front = without_queue(nodes.drop_last(), state);
        lemma_without_queue(nodes.drop_last(), state, other);
        assert(front.push(nodes.last()).drop_last() =~= front);
    }
}

/// Threads that enter a list one after the other in one state wait at the end of the
/// queue of that state, in their order, and all other queues stay as they are.
pub proof fn lemma_queue_enter(
    nodes: Seq<(ThreadState, u64)>,
    ptrs: Seq<u64>,
    state: ThreadState,
    other: ThreadState,
)
    ensures
        queue(nodes + in_state(ptrs, state), other) == if other == state {
            queue(nodes, other) + ptrs
        } else {
            queue(nodes, other)
        },
    decreases ptrs.len(),
{
    let entered = in_state(ptrs, state);
    if ptrs.len() == 0 {
        assert(nodes + entered =~= nodes);
        assert(queue(nodes, other) + ptrs =~= queue(nodes, other));
    } else {
        lemma_queue_enter(nodes, ptrs.drop_last(), state, other);
        assert((nodes + entered).drop_last() =~= nodes + in_state(ptrs.drop_last(), state));
        assert((nodes + entered).last() == (state, ptrs.last()));
        assert((queue(nodes, other) + ptrs.drop_last()).push(ptrs.last()) =~= queue(nodes, other)
            + ptrs);
    }
}

/// A thread that is in the list is found.
pub proof fn lemma_position(nodes: Seq<(ThreadState, u64)>, state: ThreadState, ptr: u64)
    requires
        nodes.contains((state, ptr)),
    ensures
        0 <= position(nodes, state, ptr) < nodes.len(),
        nodes[position(nodes, state, ptr)] == (state, ptr),
        forall|i: int|
            0 <= i < position(nodes, state, ptr) ==> #[trigger] nodes[i] != (state, ptr),
    decreases nodes.len(),
{
    let i = choose|i: int| 0 <= i < nodes.len() && nodes[i] == (state, ptr);
    if nodes[0] != (state, ptr) {
        let rest = nodes.skip(1);
        assert(rest[i - 1] == (state, ptr));
        lemma_position(rest, state, ptr);
        assert forall|k: int| 0 <= k < position(nodes, state, ptr) implies #[trigger] nodes[k] != (
            state,
            ptr,
        ) by {
            if k > 0 {
                assert(rest[k - 1] == nodes[k]);
            }
        }
    }
}

/// The queue of a list in two parts is the queue of the first and then that of the
/// second.
proof fn lemma_queue_add(
    a: Seq<(ThreadState, u64)>,
    b: Seq<(ThreadState, u64)>,
    state: ThreadState,
)
    ensures
        queue(a + b, state) == queue(a, state) + queue(b, state),
    decreases b.len(),
{
    if b.len() == 0 {
        assert(a + b =~= a);
        assert(queue(a, state) + queue(b, state) =~= queue(a, state));
    } else {
        assert((a + b).drop_last() =~= a + b.drop_last());
        assert((a + b).last() == b.last());
        lemma_queue_add(a, b.drop_last(), state);
        assert(queue(a + b, state) =~= queue(a, state) + queue(b, state));
    }
}

/// A thread that is put into a list waits at the end of the queue of its state, and
/// all other queues stay as they are.
pub proof fn lemma_queue_push(
    nodes: Seq<(ThreadState, u64)>,
    state: ThreadState,
    ptr: u64,
    other: ThreadState,
)
    ensures
        queue(nodes.push((state, ptr)), other) == if other == state {
            queue(nodes, other).push(ptr)
        } else {
            queue(nodes, other)
        },
{
    assert(nodes.push((state, ptr)).drop_last() =~= nodes);
}

/// A thread that is taken out of a list leaves the queue of its state, in which the
/// others keep their order, and all other queues stay as they are.
pub proof fn lemma_queue_remove(
    nodes: Seq<(ThreadState, u64)>,
    state: ThreadState,
    ptr: u64,
    other: ThreadState,
)
    requires
        nodes.contains((state, ptr)),
    ensures
        ({
            let p = position(nodes, state, ptr);
            let left = queue(nodes.remove(p), other);
            let front = queue(nodes.take(p), other);
            let back = queue(nodes.skip(p + 1), other);
            &&& left == front + back
            &&& queue(nodes, other) == if other == state {
                front.push(ptr) + back
            } else {
                left
            }
            &&& other == state ==> !front.contains(ptr)
        }),
{
    lemma_position(nodes, state, ptr);
    let p = position(nodes, state, ptr);
    let front = nodes.take(p);
    let back = nodes.skip(p + 1);
    lemma_queue_add(front, back, other);
    assert(nodes.remove(p) =~= front + back);
    lemma_queue_push(front, state, ptr, other);
    lemma_queue_add(front.push((state, ptr)), back, other);
    assert(nodes =~= front.push((state, ptr)) + back);
    if other == state {
        lemma_queue_holds(front, state, ptr);
        if front.contains((state, ptr)) {
            let i = choose|i: int| 0 <= i < front.len() && front[i] == (state, ptr);
            assert(nodes[i] == front[i]);
        }
    }
}

proof fn lemma_queue_holds(nodes: Seq<(ThreadState, u64)>, state: ThreadState, ptr: u64)
    ensures
        queue(nodes, state).contains(ptr) ==> nodes.contains((state, ptr)),
    decreases nodes.len(),
{
    if nodes.len() > 0 && queue(nodes, state).contains(ptr) {
        let front = nodes.drop_last();
        lemma_queue_holds(front, state, ptr);
        if front.contains((state, ptr)) {
            let i = choose|i: int| 0 <= i < front.len() && front[i] == (state, ptr);
            assert(nodes[i] == (state, ptr));
        } else {
            let q = queue(nodes, state);
            let i = choose|i: int| 0 <= i < q.len() && q[i] == ptr;
            if nodes.last().0 == state {
                if i < q.len() - 1 {
                    assert(queue(front, state)[i] == ptr);
                }
            } else {
                assert(queue(front, state)[i] == ptr);
            }
            assert(nodes[nodes.len() - 1] == (state, ptr));
        }
    }
}

impl ThreadList {
    pub fn new() -> (list: ThreadList)
        ensures
            list@ == Seq::<(ThreadState, u64)>::empty(),
    {
        ThreadList { nodes: Vec::new() }
    }

    /// The threads that wait in the queue of a state, in order.
    pub fn threads_in(&self, state: ThreadState) -> (ptrs: Vec<u64>)
        ensures
            ptrs@ == queue(self@, state),
    {
        let mut ptrs: Vec<u64> = Vec::new();
        let mut i: usize = 0;
        assert(self@.take(0) =~= Seq::empty());
        while i < self.nodes.len()
            invariant
                0 <= i <= self.nodes@.len(),
                ptrs@ == queue(self@.take(i as int), state),
            decreases self.nodes@.len() - i,
        {
            proof {
                assert(self@.take(i + 1).drop_last() =~= self@.take(i as int));
                assert(self@.take(i + 1).last() == self@[i as int]);
            }
            let (node_state, ptr) = self.nodes[i];
            if node_state == state {
                ptrs.push(ptr);
            }
            i = i + 1;
        }
        assert(self@.take(i as int) =~= self@);
        ptrs
    }

    /// Takes all threads out of the queue of a state, and hands them out in order.
    pub fn take_queue(&mut self, state: ThreadState) -> (ptrs: Vec<u64>)
        ensures
            ptrs@ == queue(old(self)@, state),
            final(self)@ == without_queue(old(self)@, state),
    {
        let ptrs = self.threads_in(state);
        let mut kept: Vec<(ThreadState, u64)> = Vec::new();
        let mut i: usize = 0;
        assert(self@.take(0) =~= Seq::empty());
        while i < self.nodes.len()
            invariant
                0 <= i <= self.nodes@.len(),
                kept@ == without_queue(self@.take(i as int), state),
            decreases self.nodes@.len() - i,
        {
            proof {
                assert(self@.take(i + 1).drop_last() =~= self@.take(i as int));
                assert(self@.take(i + 1).last() == self@[i as int]);
            }
            let node = self.nodes[i];
            if node.0 != state {
                kept.push(node);
            }
            i = i + 1;
        }
        assert(self@.take(i as int) =~= self@);
        self.nodes = kept;
        ptrs
    }

    /// Takes a thread out of the queue of a state.
    pub fn remove_node(&mut self, state: ThreadState, ptr: u64)
        requires
            old(self)@.contains((state, ptr)),
        ensures
            final(self)@ == old(self)@.remove(position(old(self)@, state, ptr)),
    {
        let mut i: usize = 0;
        proof {
            lemma_position(self@, state, ptr);
        }
        while self.nodes[i].0 != state || self.nodes[i].1 != ptr
            invariant
                self@ == old(self)@,
                0 <= i <= position(self@, state, ptr) < self.nodes.len(),
                self@[position(self@, state, ptr)] == (state, ptr),
                forall|k: int|
                    0 <= k < position(self@, state, ptr) ==> #[trigger] self@[k] != (state, ptr),
            decreases self.nodes@.len() - i,
        {
            assert(self@[i as int] != (state, ptr));
            assert(i < position(self@, state, ptr));
            i = i + 1;
        }
        assert(self@[i as int] == (state, ptr));
        let _ = self.nodes.remove(i);
    }

    /// Puts a thread at the end of the queue of a state.
    pub fn push(&mut self, state: ThreadState, ptr: u64)
        ensures
            final(self)@ == old(self)@.push((state, ptr)),
    {
        self.nodes.push((state, ptr));
    }
}

} // verus!
