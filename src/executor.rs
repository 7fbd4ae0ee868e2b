use vstd::prelude::*;
use crate::choices::{ChoiceConsumer, ChoiceGenerator, set_up_from, take_step};

verus! {

/// The values of the occupied slots, in slot order.
pub open spec fn occupied<T>(slots: Seq<Option<T>>) -> Seq<T>
    decreases slots.len(),
{
    if slots.len() == 0 {
        Seq::empty()
    } else {
        match slots.last() {
            Some(t) => occupied(slots.drop_last()).push(t),
            None => occupied(slots.drop_last()),
        }
    }
}

/// Work stealing: gathers the tasks of every worker slot and puts them back one per slot
/// from the first slot on, in their slot order. Returns the slot that worker
/// `thread_id` works on next, its id modulo the number of tasks, or none where no task
/// is left and the worker stops.
pub fn rebalance<T>(slots: &mut Vec<Option<T>>, thread_id: usize) -> (r: Option<usize>)
    ensures
        final(slots)@.len() == old(slots)@.len(),
        forall|j: int|
            0 <= j < final(slots)@.len() ==> #[trigger] final(slots)@[j] == if j < occupied(old(slots)@).len() {
                Some(occupied(old(slots)@)[j])
            } else {
                None
            },
        match r {
            Some(slot) => occupied(old(slots)@).len() > 0 && slot as int == thread_id as int % occupied(old(slots)@).len() as int,
            None => occupied(old(slots)@).len() == 0,
        },
{
    let ghost before = slots@;
    let n = slots.len();
    let mut remaining: Vec<T> = Vec::new();
    let mut i: usize = 0;
    while i < n
        invariant
            i <= n,
            n == slots@.len(),
            n == before.len(),
            before == old(slots)@,
            remaining@ == occupied(before.subrange(0, i as int)),
            forall|j: int| 0 <= j < i ==> #[trigger] slots@[j] is None,
            forall|j: int| i <= j < n ==> #[trigger] slots@[j] == before[j],
        decreases n - i,
    {
        let taken = slots[i].take();
        proof {
            assert(before.subrange(0, i + 1).drop_last() =~= before.subrange(0, i as int));
        }
        match taken {
            Some(t) => {
                remaining.push(t);
            },
            None => {},
        }
        i = i + 1;
    }
    proof {
        assert(before.subrange(0, n as int) =~= before);
    }
    let ghost values = remaining@;
    let m = remaining.len();
    if m == 0 {
        return None;
    }
    assert(m <= n) by {
        lemma_occupied_len(before);
    }
    let mut k = m;
    while k > 0
        invariant
            k <= m,
            m <= n,
            m == values.len(),
            n == slots@.len(),
            values == occupied(before),
            remaining@ == values.subrange(0, k as int),
            forall|j: int| 0 <= j < k ==> #[trigger] slots@[j] is None,
            forall|j: int| m <= j < n ==> #[trigger] slots@[j] is None,
            forall|j: int| k <= j < m ==> #[trigger] slots@[j] == Some(values[j]),
        decreases k,
    {
        k = k - 1;
        match remaining.pop() {
            Some(t) => {
                slots.set(k, Some(t));
            },
            None => {},
        }
        proof {
            assert(remaining@ =~= values.subrange(0, k as int));
        }
    }
    Some(thread_id % m)
}

proof fn lemma_occupied_len<T>(s: Seq<Option<T>>)
    ensures
        occupied(s).len() <= s.len(),
    decreases s.len(),
{
    if s.len() > 0 {
        lemma_occupied_len(s.drop_last());
    }
}

/// The work of one piece: its generator of tasks, set up on the first take.
pub struct Task {
    pub piece_id: usize,
    pub target_split: usize,
    pub initialized: Option<ChoiceGenerator>,
}

impl Task {
    pub fn new(piece_id: usize, target_split: usize) -> (r: Task)
        ensures
            r.piece_id == piece_id,
            r.target_split == target_split,
            r.initialized is None,
    {
        Task { piece_id, target_split, initialized: None }
    }

    /// Hands the next task of the piece to `consumer`. The first take sets up the
    /// generator from the piece's candidate counts `choices`. Returns false, handing
    /// nothing, once the piece is `completed` or its tasks are exhausted.
    pub fn take(&mut self, choices: &[usize], completed: bool, consumer: &mut ChoiceConsumer) -> (r: bool)
        requires
            old(self).initialized matches Some(g) ==> g.wf(),
        ensures
            final(self).piece_id == old(self).piece_id,
            final(self).target_split == old(self).target_split,
            final(self).initialized matches Some(g) && g.wf(),
            completed ==> !r,
            r ==> !final(consumer).ended && final(consumer).wf(),
            !r && !completed ==> final(self).initialized->0.ended,
            old(self).initialized matches Some(g) ==> take_step(
                g,
                completed,
                r,
                *final(consumer),
                final(self).initialized->0,
            ),
            old(self).initialized is None ==> exists|g: ChoiceGenerator|
                set_up_from(g, choices@, old(self).target_split) && #[trigger] take_step(
                    g,
                    completed,
                    r,
                    *final(consumer),
                    final(self).initialized->0,
                ),
    {
        let mut generator = match self.initialized.take() {
            Some(g) => g,
            None => {
                let mut g = ChoiceGenerator::empty();
                g.reset_from(choices, self.target_split);
                g
            },
        };
        let ghost g0 = generator;
        if generator.ended() || completed {
            self.initialized = Some(generator);
            proof {
                assert(take_step(g0, completed, false, *consumer, self.initialized->0));
            }
            return false;
        }
        generator.get(consumer);
        proof {
            assert(consumer.wf());
        }
        generator.next();
        self.initialized = Some(generator);
        proof {
            assert(take_step(g0, completed, true, *consumer, self.initialized->0));
        }
        true
    }
}

} // verus!
