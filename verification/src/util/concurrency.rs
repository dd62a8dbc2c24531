use vstd::prelude::*;
use std::collections::VecDeque;

verus! {

/// The order in which a queue hands out what it holds.
pub enum QueueType {
    FIFO,
    LIFO,
}

/// The priorities of a priority queue, from the highest to the lowest.
pub struct PriorityQueueBuilder<P: Copy> {
    pub priorities: VecDeque<P>,
}

impl<P: Copy> PriorityQueueBuilder<P> {
    pub fn new() -> (b: Self)
        ensures
            b.priorities@ == Seq::<P>::empty(),
    {
        Self { priorities: VecDeque::new() }
    }

    /// The priorities in the order given, the first the highest.
    pub fn from_priorities(priorities: Vec<P>) -> (b: Self)
        ensures
            b.priorities@ == priorities@,
    {
        let mut queue: VecDeque<P> = VecDeque::new();
        let mut i: usize = 0;
        while i < priorities.len()
            invariant
                i <= priorities@.len(),
                queue@ == priorities@.take(i as int),
            decreases priorities@.len() - i,
        {
            queue.push_back(priorities[i]);
            assert(priorities@.take(i + 1) =~= priorities@.take(i as int).push(priorities@[i as int]));
            i += 1;
        }
        assert(priorities@.take(priorities@.len() as int) =~= priorities@);
        Self { priorities: queue }
    }

    /// Adds a priority below all the others.
    pub fn add_low_priority(self, priority: P) -> (b: Self)
        ensures
            b.priorities@ == self.priorities@.push(priority),
    {
        let mut s = self;
        s.priorities.push_back(priority);
        s
    }

    /// Adds a priority above all the others.
    pub fn add_high_priority(self, priority: P) -> (b: Self)
        ensures
            b.priorities@ == seq![priority] + self.priorities@,
    {
        let mut s = self;
        s.priorities.push_front(priority);
        s
    }
}

} // verus!
