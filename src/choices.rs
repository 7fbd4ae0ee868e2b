use vstd::prelude::*;

verus! {

// ---------------------------------------------------------------------------
// Axes
// ---------------------------------------------------------------------------

/// An axis whose value is fixed for a task; the generator steps it from task to task.
#[derive(Clone, Copy)]
pub struct MaskRange {
    pub start: usize,
    pub end: usize,
    pub current: usize,
}

impl MaskRange {
    pub fn ended(&self) -> (r: bool)
        ensures
            r == (self.current == self.end),
    {
        self.current == self.end
    }

    /// Steps to the next value; whether one is left.
    pub fn advance(&mut self) -> (r: bool)
        ensures
            final(self).start == old(self).start,
            final(self).end == old(self).end,
            final(self).current == if old(self).current < old(self).end {
                old(self).current + 1
            } else {
                old(self).current as int
            },
            r == (final(self).current < final(self).end),
    {
        if self.current < self.end {
            self.current = self.current + 1;
        }
        self.current < self.end
    }

    pub fn reset(&mut self)
        ensures
            final(self).start == old(self).start,
            final(self).end == old(self).end,
            final(self).current == old(self).start,
    {
        self.current = self.start
    }

    pub fn get(&self) -> (r: usize)
        ensures
            r == self.current,
    {
        self.current
    }
}

/// An axis that a task iterates over in full.
#[derive(Clone, Copy)]
pub struct AllRange {
    pub start: usize,
    pub end: usize,
    pub current: usize,
}

impl AllRange {
    pub fn ended(&self) -> (r: bool)
        ensures
            r == (self.current == self.end),
    {
        self.current == self.end
    }

    /// Steps to the next value; whether one is left.
    pub fn advance(&mut self) -> (r: bool)
        ensures
            final(self).start == old(self).start,
            final(self).end == old(self).end,
            final(self).current == if old(self).current < old(self).end {
                old(self).current + 1
            } else {
                old(self).current as int
            },
            r == (final(self).current < final(self).end),
    {
        if self.current < self.end {
            self.current = self.current + 1;
        }
        self.current < self.end
    }

    pub fn get_start(&self) -> (r: usize)
        ensures
            r == self.start,
    {
        self.start
    }

    pub fn get_end(&self) -> (r: usize)
        ensures
            r == self.end,
    {
        self.end
    }

    pub fn reset(&mut self)
        ensures
            final(self).start == old(self).start,
            final(self).end == old(self).end,
            final(self).current == old(self).start,
    {
        self.current = self.start
    }

    pub fn get(&self) -> (r: usize)
        ensures
            r == self.current,
    {
        self.current
    }
}

// ---------------------------------------------------------------------------
// The odometer, as a function on positions
// ---------------------------------------------------------------------------

/// `pos` with every movable axis after `k` put back to zero.
pub open spec fn reset_after(pos: Seq<int>, movable: Seq<bool>, k: int) -> Seq<int> {
    Seq::new(pos.len(), |j: int| if j > k && movable[j] { 0 } else { pos[j] })
}

/// The next position of an odometer over the movable axes among the first `i`: the
/// rightmost movable axis that is not at its last value steps up, and the movable axes
/// to its right go back to zero; none where every movable axis is at its last value.
pub open spec fn successor_from(pos: Seq<int>, ends: Seq<int>, movable: Seq<bool>, i: int) -> Option<Seq<int>>
    decreases i,
{
    if i <= 0 {
        None
    } else if movable[i - 1] && pos[i - 1] + 1 < ends[i - 1] {
        Some(reset_after(pos.update(i - 1, pos[i - 1] + 1), movable, i - 1))
    } else {
        successor_from(pos, ends, movable, i - 1)
    }
}

pub open spec fn successor(pos: Seq<int>, ends: Seq<int>, movable: Seq<bool>) -> Option<Seq<int>> {
    successor_from(pos, ends, movable, pos.len() as int)
}

/// The product of a sequence of counts.
pub open spec fn product(s: Seq<usize>) -> int
    decreases s.len(),
{
    if s.len() == 0 {
        1
    } else {
        product(s.drop_last()) * s.last()
    }
}

pub open spec fn saturate(n: int) -> int {
    if n > usize::MAX {
        usize::MAX as int
    } else {
        n
    }
}

// ---------------------------------------------------------------------------
// The task generator
// ---------------------------------------------------------------------------

#[derive(Clone, Copy)]
pub enum ChoiceGeneratorEntry {
    MaskRange(MaskRange),
    AllRange(AllRange),
}

impl ChoiceGeneratorEntry {
    pub open spec fn end(self) -> int {
        match self {
            ChoiceGeneratorEntry::MaskRange(m) => m.end as int,
            ChoiceGeneratorEntry::AllRange(a) => a.end as int,
        }
    }

    pub open spec fn current(self) -> int {
        match self {
            ChoiceGeneratorEntry::MaskRange(m) => m.current as int,
            ChoiceGeneratorEntry::AllRange(a) => a.current as int,
        }
    }

    pub open spec fn start(self) -> int {
        match self {
            ChoiceGeneratorEntry::MaskRange(m) => m.start as int,
            ChoiceGeneratorEntry::AllRange(a) => a.start as int,
        }
    }

    pub open spec fn is_mask(self) -> bool {
        self is MaskRange
    }

    /// Steps a mask axis; a range axis does not move.
    pub fn advance(&mut self) -> (r: bool)
        ensures
            final(self).is_mask() == old(self).is_mask(),
            final(self).end() == old(self).end(),
            final(self).start() == old(self).start(),
            old(self).is_mask() ==> final(self).current() == if old(self).current() < old(self).end() {
                old(self).current() + 1
            } else {
                old(self).current()
            },
            !old(self).is_mask() ==> *final(self) == *old(self),
            r == (old(self).is_mask() && final(self).current() < final(self).end()),
    {
        match self {
            ChoiceGeneratorEntry::MaskRange(mask_range) => mask_range.advance(),
            ChoiceGeneratorEntry::AllRange(_) => false,
        }
    }

    pub fn reset(&mut self)
        ensures
            final(self).is_mask() == old(self).is_mask(),
            final(self).end() == old(self).end(),
            final(self).start() == old(self).start(),
            old(self).is_mask() ==> final(self).current() == old(self).start(),
            !old(self).is_mask() ==> *final(self) == *old(self),
    {
        match self {
            ChoiceGeneratorEntry::MaskRange(mask_range) => mask_range.reset(),
            ChoiceGeneratorEntry::AllRange(_) => {},
        }
    }
}

pub open spec fn entry_ends(sel: Seq<ChoiceGeneratorEntry>) -> Seq<int> {
    sel.map_values(|e: ChoiceGeneratorEntry| e.end())
}

pub open spec fn entry_positions(sel: Seq<ChoiceGeneratorEntry>) -> Seq<int> {
    sel.map_values(|e: ChoiceGeneratorEntry| e.current())
}

pub open spec fn entry_masks(sel: Seq<ChoiceGeneratorEntry>) -> Seq<bool> {
    sel.map_values(|e: ChoiceGeneratorEntry| e.is_mask())
}

/// The number of values of each axis that the generator steps: the end of a mask axis,
/// one for a range axis.
pub open spec fn mask_sizes(sel: Seq<ChoiceGeneratorEntry>) -> Seq<usize> {
    sel.map_values(|e: ChoiceGeneratorEntry| if e.is_mask() { e.end() as usize } else { 1usize })
}

/// What `ChoiceGenerator::reset_from(choices, target)` sets up: no task without
/// choices or with a count of zero; otherwise every axis at zero, ends the counts, and
/// mask axes that multiply to the fewest tasks that reach `target`, or no mask axis
/// where no split reaches `target`.
pub open spec fn set_up_from(g: ChoiceGenerator, choices: Seq<usize>, target: usize) -> bool {
    &&& g.wf()
    &&& (choices.len() == 0 || exists|i: int| 0 <= i < choices.len() && choices[i] == 0) <==> g.ended
    &&& !g.ended ==> {
        &&& g.selection@.len() == choices.len()
        &&& entry_ends(g.selection@) =~= choices.map_values(|c: usize| c as int)
        &&& forall|i: int| 0 <= i < choices.len() ==> (#[trigger] g.selection@[i]).current() == 0
        &&& (exists|c: Seq<usize>| is_split(c, choices) && saturate(#[trigger] product(c)) >= target)
            ==> saturate(product(mask_sizes(g.selection@))) >= target
        &&& !(exists|c: Seq<usize>| is_split(c, choices) && saturate(#[trigger] product(c)) >= target)
            ==> forall|i: int| 0 <= i < choices.len() ==> !(#[trigger] g.selection@[i]).is_mask()
        &&& forall|c: Seq<usize>|
            is_split(c, choices) && saturate(#[trigger] product(c)) >= target ==> saturate(
                product(mask_sizes(g.selection@)),
            ) <= saturate(product(c))
    }
}

/// One take from generator `g`: where it has not ended and the piece is not solved,
/// `consumer` gets its current task and `after` is `g` one step on; otherwise nothing is
/// handed and `g` stays as it is.
pub open spec fn take_step(
    g: ChoiceGenerator,
    completed: bool,
    r: bool,
    consumer: ChoiceConsumer,
    after: ChoiceGenerator,
) -> bool {
    &&& r == (!g.ended && !completed)
    &&& !r ==> after == g
    &&& r ==> consumer.selection@.len() == g.selection@.len()
    &&& r ==> forall|i: int|
        0 <= i < g.selection@.len() ==> #[trigger] consumer.selection@[i] == match g.selection@[i] {
            ChoiceGeneratorEntry::MaskRange(m) => ChoiceConsumerEntry::Mask(m.current),
            ChoiceGeneratorEntry::AllRange(a) => ChoiceConsumerEntry::AllRange(a),
        }
    &&& r ==> match successor(entry_positions(g.selection@), entry_ends(g.selection@), entry_masks(g.selection@)) {
        Some(p) => !after.ended && entry_positions(after.selection@) == p,
        None => after.ended,
    }
}

/// Splits the product of per-axis candidate counts into tasks.
pub struct ChoiceGenerator {
    pub index: usize,
    pub ended: bool,
    pub selection: Vec<ChoiceGeneratorEntry>,
}

impl ChoiceGenerator {
    /// Every axis starts at zero and holds a position below its end; the odometer looks
    /// at the last axis first.
    pub open spec fn wf(&self) -> bool {
        !self.ended ==> {
            &&& self.selection@.len() > 0
            &&& self.index == self.selection@.len() - 1
            &&& forall|i: int|
                0 <= i < self.selection@.len() ==> (#[trigger] self.selection@[i]).start() == 0
                    && 0 <= self.selection@[i].current() < self.selection@[i].end()
        }
    }

    pub fn empty() -> (r: ChoiceGenerator)
        ensures
            r.ended,
            r.wf(),
            r.selection@.len() == 0,
    {
        ChoiceGenerator { index: 0, ended: true, selection: Vec::new() }
    }

    pub fn ended(&self) -> (r: bool)
        ensures
            r == self.ended,
    {
        self.ended
    }

    /// Sets up the tasks for the candidate counts `choices` and `target` workers.
    /// Without choices, or with a count of zero, there is no task. Otherwise every
    /// axis starts at zero; the mask axes multiply to at least `target` tasks, and to
    /// no more than any other split of the axes that reaches `target`. Where no split
    /// reaches `target`, every axis is a range and one task covers the whole product.
    pub fn reset_from(&mut self, choices: &[usize], target: usize)
        ensures
            set_up_from(*final(self), choices@, target),
    {
        self.selection.clear();
        let mut any_zero = false;
        let mut k: usize = 0;
        while k < choices.len()
            invariant
                k <= choices@.len(),
                any_zero <==> exists|i: int| 0 <= i < k && choices@[i] == 0,
            decreases choices.len() - k,
        {
            if choices[k] == 0 {
                any_zero = true;
            }
            k = k + 1;
        }
        if choices.len() == 0 || any_zero {
            self.index = 0;
            self.ended = true;
            return;
        }
        let n = choices.len();
        let mut best: Vec<usize> = Vec::new();
        let mut staging: Vec<usize> = Vec::new();
        let mut k: usize = 0;
        while k < n
            invariant
                k <= n,
                n == choices@.len(),
                best@ == choices@.subrange(0, k as int),
                staging@.len() == k,
                forall|j: int| 0 <= j < k ==> #[trigger] staging@[j] == 1,
            decreases n - k,
        {
            best.push(choices[k]);
            staging.push(1);
            proof {
                assert(best@ =~= choices@.subrange(0, k + 1));
            }
            k = k + 1;
        }
        proof {
            assert(best@ =~= choices@);
        }
        let mut best_count = Self::combinations(choices);
        let ghost initial_staging = staging@;
        self.reset_from_internal(&mut staging, &mut best, &mut best_count, choices, 0, target);
        proof {
            assert forall|c: Seq<usize>|
                is_split(c, choices@) && saturate(#[trigger] product(c)) >= target implies best_count <= saturate(
                    product(c),
                ) by {
                assert(agrees_before(c, initial_staging, 0));
            }
        }
        self.ended = false;
        self.index = n - 1;
        let mut index: usize = 0;
        while index < n
            invariant
                index <= n,
                n == choices@.len(),
                n > 0,
                best@.len() == n,
                !self.ended,
                self.index == n - 1,
                forall|j: int| 0 <= j < n ==> #[trigger] choices@[j] >= 1,
                forall|j: int| 0 <= j < n ==> #[trigger] best@[j] == 1 || best@[j] == choices@[j],
                self.selection@.len() == index,
                forall|j: int|
                    0 <= j < index ==> {
                        &&& (#[trigger] self.selection@[j]).end() == choices@[j]
                        &&& self.selection@[j].current() == 0
                        &&& self.selection@[j].start() == 0
                        &&& self.selection@[j].is_mask() == (best@[j] == choices@[j] && best_count >= target)
                    },
            decreases n - index,
        {
            if best[index] == choices[index] && best_count >= target {
                let mask_range = MaskRange { start: 0, end: choices[index], current: 0 };
                self.selection.push(ChoiceGeneratorEntry::MaskRange(mask_range));
            } else {
                let all_range = AllRange { start: 0, end: choices[index], current: 0 };
                self.selection.push(ChoiceGeneratorEntry::AllRange(all_range));
            }
            index = index + 1;
        }
        proof {
            let sel = self.selection@;
            if !(exists|i: int| 0 <= i < n && (#[trigger] sel[i]).is_mask()) {
                let ones = mask_sizes(sel);
                assert forall|c: Seq<usize>|
                    is_split(c, choices@) && saturate(#[trigger] product(c)) >= target implies saturate(
                        product(ones),
                    ) <= saturate(product(c)) by {
                    assert forall|i: int| 0 <= i < c.len() implies #[trigger] c[i] >= ones[i] && ones[i] >= 1 by {
                        assert(!sel[i].is_mask());
                    }
                    lemma_product_pointwise(c, ones);
                    lemma_product_pointwise(ones, Seq::new(n as nat, |i: int| 1usize));
                    assert(forall|i: int| 0 <= i < ones.len() ==> ones[i] == 1usize);
                    lemma_product_pointwise(Seq::new(n as nat, |i: int| 1usize), ones);
                    lemma_product_ones(n as nat);
                }
            }
            if best_count >= target {
                assert(mask_sizes(sel) =~= best@);
            }
            if exists|c: Seq<usize>| is_split(c, choices@) && saturate(#[trigger] product(c)) >= target {
                let c = choose|c: Seq<usize>| is_split(c, choices@) && saturate(#[trigger] product(c)) >= target;
                if best_count < target {
                    assert(best@ == choices@);
                    lemma_product_pointwise(choices@, c);
                }
            } else {
                if best_count >= target {
                    assert(is_split(best@, choices@));
                }
            }
        }
    }

    /// Searches the splits of `choices` into mask and range axes, from axis `depth` on,
    /// for the one with the fewest tasks that still reaches `target`; keeps it in `best`
    /// if it has fewer tasks than `best_count`.
    pub fn reset_from_internal(
        &mut self,
        staging: &mut Vec<usize>,
        best: &mut Vec<usize>,
        best_count: &mut usize,
        choices: &[usize],
        depth: usize,
        target: usize,
    )
        requires
            old(staging)@.len() == choices@.len(),
            old(best)@.len() == choices@.len(),
            depth <= choices@.len(),
            choices@.len() > 0,
            forall|j: int| 0 <= j < choices@.len() ==> #[trigger] choices@[j] >= 1,
            forall|j: int| 0 <= j < choices@.len() ==> #[trigger] old(staging)@[j] == 1 || old(staging)@[j] == choices@[j],
            forall|j: int| 0 <= j < choices@.len() ==> #[trigger] old(best)@[j] == 1 || old(best)@[j] == choices@[j],
            *old(best_count) == saturate(product(old(best)@)),
            old(best)@ == choices@ || *old(best_count) >= target,
            forall|j: int| depth <= j < choices@.len() ==> #[trigger] old(staging)@[j] == 1,
        ensures
            *final(self) == *old(self),
            final(staging)@.len() == choices@.len(),
            final(best)@.len() == choices@.len(),
            forall|j: int| 0 <= j < depth ==> #[trigger] final(staging)@[j] == old(staging)@[j],
            forall|j: int| depth <= j < choices@.len() ==> #[trigger] final(staging)@[j] == 1,
            forall|j: int| 0 <= j < choices@.len() ==> #[trigger] final(best)@[j] == 1 || final(best)@[j] == choices@[j],
            *final(best_count) == saturate(product(final(best)@)),
            final(best)@ == choices@ || *final(best_count) >= target,
            *final(best_count) <= *old(best_count),
            *final(best_count) == *old(best_count) ==> final(best)@ == old(best)@,
            *final(best_count) < *old(best_count) ==> agrees_before(final(best)@, old(staging)@, depth as int)
                && *final(best_count) >= target,
            forall|c: Seq<usize>|
                is_split(c, choices@) && agrees_before(c, old(staging)@, depth as int) && saturate(
                    #[trigger] product(c),
                ) >= target ==> *final(best_count) <= saturate(product(c)),
        decreases choices@.len() - depth,
    {
        if depth == choices.len() {
            let staging_count = Self::combinations(staging.as_slice());
            if staging_count >= target && staging_count < *best_count {
                let mut index: usize = 0;
                while index < best.len()
                    invariant
                        index <= best@.len(),
                        best@.len() == choices@.len(),
                        staging@.len() == choices@.len(),
                        forall|j: int| 0 <= j < index ==> #[trigger] best@[j] == staging@[j],
                        forall|j: int|
                            index <= j < choices@.len() ==> #[trigger] best@[j] == 1 || best@[j] == choices@[j],
                    decreases best.len() - index,
                {
                    best.set(index, staging[index]);
                    index = index + 1;
                }
                proof {
                    assert(best@ =~= staging@);
                }
                *best_count = staging_count;
            }
            proof {
                assert forall|c: Seq<usize>|
                    is_split(c, choices@) && agrees_before(c, old(staging)@, depth as int) && saturate(
                        #[trigger] product(c),
                    ) >= target implies *best_count <= saturate(product(c)) by {
                    assert(c =~= staging@);
                }
            }
            return;
        }
        let ghost first = old(staging)@;
        let ghost start_count = *old(best_count);
        let ghost start_best = old(best)@;
        staging.set(depth, choices[depth]);
        let ghost with_mask = staging@;
        let staging_count = Self::combinations(staging.as_slice());
        if staging_count < *best_count {
            self.reset_from_internal(staging, best, best_count, choices, depth + 1, target);
        }
        proof {
            // Every split that makes axis `depth` a mask is done with: searched, or no
            // better than the best already.
            assert forall|c: Seq<usize>|
                is_split(c, choices@) && agrees_before(c, with_mask, depth + 1) && saturate(#[trigger] product(c))
                    >= target implies *best_count <= saturate(product(c)) by {
                if staging_count >= start_count {
                    lemma_product_above(c, with_mask, choices@, depth + 1);
                }
            }
        }
        let ghost after_mask = *best_count;
        let ghost best_after_mask = best@;
        proof {
            if after_mask < start_count {
                assert(agrees_before(best@, first, depth as int));
            }
        }
        if choices[depth] != 1 {
            staging.set(depth, 1);
            let ghost with_range = staging@;
            let staging_count = Self::combinations(staging.as_slice());
            if staging_count < *best_count {
                self.reset_from_internal(staging, best, best_count, choices, depth + 1, target);
            }
            proof {
                if *best_count < after_mask {
                    assert(agrees_before(best@, first, depth as int));
                }
                assert forall|c: Seq<usize>|
                    is_split(c, choices@) && agrees_before(c, with_range, depth + 1) && saturate(#[trigger] product(c))
                        >= target implies *best_count <= saturate(product(c)) by {
                    if staging_count >= after_mask {
                        lemma_product_above(c, with_range, choices@, depth + 1);
                    }
                }
            }
        }
        proof {
            assert forall|c: Seq<usize>|
                is_split(c, choices@) && agrees_before(c, first, depth as int) && saturate(#[trigger] product(c))
                    >= target implies *best_count <= saturate(product(c)) by {
                if c[depth as int] == choices@[depth as int] {
                    assert(agrees_before(c, with_mask, depth + 1));
                } else {
                    assert(agrees_before(c, staging@, depth + 1) || choices@[depth as int] == 1);
                }
            }
        }
    }

    /// Steps to the next task: the odometer over the mask axes moves one position on.
    /// Returns whether there is one; where there is none the generator has ended.
    pub fn next(&mut self) -> (r: bool)
        requires
            old(self).wf(),
        ensures
            final(self).wf(),
            old(self).ended ==> !r && *final(self) == *old(self),
            !old(self).ended ==> match successor(
                entry_positions(old(self).selection@),
                entry_ends(old(self).selection@),
                entry_masks(old(self).selection@),
            ) {
                Some(p) => {
                    &&& r
                    &&& !final(self).ended
                    &&& entry_positions(final(self).selection@) == p
                    &&& entry_ends(final(self).selection@) == entry_ends(old(self).selection@)
                    &&& entry_masks(final(self).selection@) == entry_masks(old(self).selection@)
                },
                None => {
                    &&& !r
                    &&& final(self).ended
                    &&& entry_ends(final(self).selection@) == entry_ends(old(self).selection@)
                    &&& entry_masks(final(self).selection@) == entry_masks(old(self).selection@)
                },
            },
    {
        if self.ended {
            return false;
        }
        let ghost old_sel = self.selection@;
        let ghost pos = entry_positions(old_sel);
        let ghost ends = entry_ends(old_sel);
        let ghost masks = entry_masks(old_sel);
        let n = self.selection.len();
        let mut k = self.index;
        loop
            invariant
                n == self.selection@.len(),
                n == old_sel.len(),
                old_sel == old(self).selection@,
                !old(self).ended,
                n > 0,
                k < n,
                !self.ended,
                self.index == n - 1,
                pos == entry_positions(old_sel),
                ends == entry_ends(old_sel),
                masks == entry_masks(old_sel),
                forall|i: int| 0 <= i < n ==> (#[trigger] old_sel[i]).start() == 0 && 0 <= old_sel[i].current() < old_sel[i].end(),
                forall|i: int| 0 <= i < n ==> {
                    &&& (#[trigger] self.selection@[i]).end() == old_sel[i].end()
                    &&& self.selection@[i].start() == old_sel[i].start()
                    &&& self.selection@[i].is_mask() == old_sel[i].is_mask()
                },
                forall|i: int| 0 <= i <= k ==> #[trigger] self.selection@[i] == old_sel[i],
                forall|i: int| k < i < n ==> (#[trigger] self.selection@[i]).is_mask() ==> self.selection@[i].current() == self.selection@[i].end(),
                forall|i: int| k < i < n ==> !(#[trigger] self.selection@[i]).is_mask() ==> self.selection@[i] == old_sel[i],
                successor(pos, ends, masks) == successor_from(pos, ends, masks, k + 1),
            decreases k,
        {
            let mut entry = self.selection[k];
            let advanced = entry.advance();
            self.selection.set(k, entry);
            if advanced {
                let ghost target = reset_after(pos.update(k as int, pos[k as int] + 1), masks, k as int);
                proof {
                    assert(masks[k as int] && pos[k as int] + 1 < ends[k as int]);
                    assert(successor_from(pos, ends, masks, k + 1) == Some(target));
                }
                let mut j = k + 1;
                while j < n
                    invariant
                        k < j <= n,
                        n == self.selection@.len(),
                        n == old_sel.len(),
                        !self.ended,
                        old_sel == old(self).selection@,
                        !old(self).ended,
                        pos[k as int] + 1 < ends[k as int],
                        ends.len() == n,
                        target.len() == n,
                        target == reset_after(pos.update(k as int, pos[k as int] + 1), masks, k as int),
                        pos == entry_positions(old_sel),
                        masks == entry_masks(old_sel),
                        ends == entry_ends(old_sel),
                        forall|i: int| 0 <= i < n ==> (#[trigger] old_sel[i]).start() == 0 && 0 <= old_sel[i].current() < old_sel[i].end(),
                        forall|i: int| 0 <= i < n ==> {
                            &&& (#[trigger] self.selection@[i]).end() == old_sel[i].end()
                            &&& self.selection@[i].start() == old_sel[i].start()
                            &&& self.selection@[i].is_mask() == old_sel[i].is_mask()
                        },
                        forall|i: int| 0 <= i < j ==> (#[trigger] self.selection@[i]).current() == target[i],
                        forall|i: int| j <= i < n ==> !(#[trigger] self.selection@[i]).is_mask() ==> self.selection@[i] == old_sel[i],
                    decreases n - j,
                {
                    let mut later = self.selection[j];
                    later.reset();
                    self.selection.set(j, later);
                    j = j + 1;
                }
                self.index = n - 1;
                proof {
                    assert(entry_positions(self.selection@) =~= target);
                    assert(entry_ends(self.selection@) =~= ends);
                    assert(entry_masks(self.selection@) =~= masks);
                }
                return true;
            }
            proof {
                assert(!(masks[k as int] && pos[k as int] + 1 < ends[k as int]));
                assert(successor_from(pos, ends, masks, k + 1) == successor_from(pos, ends, masks, k as int));
            }
            if k == 0 {
                self.ended = true;
                proof {
                    assert(entry_ends(self.selection@) =~= ends);
                    assert(entry_masks(self.selection@) =~= masks);
                }
                return false;
            }
            k = k - 1;
        }
    }

    /// Hands the current task to `consumer`: mask axes fixed at their current value,
    /// range axes over their whole range.
    pub fn get(&self, consumer: &mut ChoiceConsumer)
        ensures
            final(consumer).selection@.len() == self.selection@.len(),
            forall|i: int|
                0 <= i < self.selection@.len() ==> #[trigger] final(consumer).selection@[i] == match self.selection@[i] {
                    ChoiceGeneratorEntry::MaskRange(m) => ChoiceConsumerEntry::Mask(m.current),
                    ChoiceGeneratorEntry::AllRange(a) => ChoiceConsumerEntry::AllRange(a),
                },
            final(consumer).index == if self.selection@.len() == 0 { 0 } else { self.selection@.len() - 1 },
            final(consumer).ended == (self.selection@.len() == 0),
    {
        consumer.selection.clear();
        let mut i: usize = 0;
        while i < self.selection.len()
            invariant
                i <= self.selection@.len(),
                consumer.selection@.len() == i,
                forall|j: int|
                    0 <= j < i ==> #[trigger] consumer.selection@[j] == match self.selection@[j] {
                        ChoiceGeneratorEntry::MaskRange(m) => ChoiceConsumerEntry::Mask(m.current),
                        ChoiceGeneratorEntry::AllRange(a) => ChoiceConsumerEntry::AllRange(a),
                    },
            decreases self.selection.len() - i,
        {
            let res = match &self.selection[i] {
                ChoiceGeneratorEntry::MaskRange(mask_range) => ChoiceConsumerEntry::Mask(mask_range.get()),
                ChoiceGeneratorEntry::AllRange(all_range) => ChoiceConsumerEntry::AllRange(*all_range),
            };
            consumer.selection.push(res);
            i = i + 1;
        }
        let len = consumer.selection.len();
        consumer.index = if len > 1 { len - 1 } else { 0 };
        consumer.ended = len == 0;
    }

    /// The product of `choices`, saturated at `usize::MAX`.
    fn combinations(choices: &[usize]) -> (r: usize)
        requires
            choices@.len() > 0,
            forall|i: int| 0 <= i < choices@.len() ==> #[trigger] choices@[i] >= 1,
        ensures
            r == saturate(product(choices@)),
    {
        let mut calculated: usize = choices[0];
        proof {
            assert(choices@.subrange(0, 1).drop_last() =~= Seq::<usize>::empty());
            assert(product(Seq::<usize>::empty()) == 1);
        }
        if calculated == usize::MAX {
            proof {
                lemma_product_prefix_monotone(choices@, 1);
            }
            return calculated;
        }
        let mut index: usize = 1;
        while index < choices.len()
            invariant
                1 <= index <= choices@.len(),
                forall|i: int| 0 <= i < choices@.len() ==> #[trigger] choices@[i] >= 1,
                calculated == product(choices@.subrange(0, index as int)),
                calculated < usize::MAX,
            decreases choices.len() - index,
        {
            let choice = choices[index];
            proof {
                assert(choices@.subrange(0, index + 1).drop_last() =~= choices@.subrange(0, index as int));
            }
            calculated = match calculated.checked_mul(choice) {
                Some(v) => v,
                None => usize::MAX,
            };
            if calculated == usize::MAX {
                proof {
                    lemma_product_prefix_monotone(choices@, index + 1);
                }
                return calculated;
            }
            index = index + 1;
        }
        proof {
            assert(choices@.subrange(0, choices@.len() as int) =~= choices@);
        }
        calculated
    }
}

// ---------------------------------------------------------------------------
// The choices of one task
// ---------------------------------------------------------------------------

#[derive(Clone, Copy)]
pub enum ChoiceConsumerEntry {
    Mask(usize),
    AllRange(AllRange),
}

impl ChoiceConsumerEntry {
    /// The value an axis has now.
    pub open spec fn position(self) -> int {
        match self {
            ChoiceConsumerEntry::Mask(v) => v as int,
            ChoiceConsumerEntry::AllRange(a) => a.current as int,
        }
    }

    /// One past the last value of an axis.
    pub open spec fn limit(self) -> int {
        match self {
            ChoiceConsumerEntry::Mask(v) => v + 1,
            ChoiceConsumerEntry::AllRange(a) => a.end as int,
        }
    }

    pub fn ended(&self) -> (r: bool)
        ensures
            r == match *self {
                ChoiceConsumerEntry::AllRange(a) => a.current == a.end,
                ChoiceConsumerEntry::Mask(_) => true,
            },
    {
        match self {
            ChoiceConsumerEntry::AllRange(all_range) => all_range.ended(),
            ChoiceConsumerEntry::Mask(_) => true,
        }
    }

    /// Steps a range axis; a mask axis does not move.
    pub fn advance(&mut self) -> (r: bool)
        ensures
            (*old(self) is Mask) ==> *final(self) == *old(self) && !r,
            (*old(self) is AllRange) ==> (*final(self) is AllRange) && final(self).limit() == old(self).limit()
                && final(self)->AllRange_0.start == old(self)->AllRange_0.start
                && final(self).position() == if old(self).position() < old(self).limit() {
                    old(self).position() + 1
                } else {
                    old(self).position()
                } && r == (final(self).position() < final(self).limit()),
    {
        match self {
            ChoiceConsumerEntry::Mask(_) => false,
            ChoiceConsumerEntry::AllRange(all_range) => all_range.advance(),
        }
    }

    pub fn reset(&mut self)
        ensures
            (*old(self) is Mask) ==> *final(self) == *old(self),
            (*old(self) is AllRange) ==> (*final(self) is AllRange) && final(self).limit() == old(self).limit()
                && final(self)->AllRange_0.start == old(self)->AllRange_0.start
                && final(self).position() == old(self)->AllRange_0.start,
    {
        match self {
            ChoiceConsumerEntry::Mask(_) => {},
            ChoiceConsumerEntry::AllRange(all_range) => all_range.reset(),
        }
    }

    pub fn get(&self) -> (r: usize)
        ensures
            r == self.position(),
    {
        match self {
            ChoiceConsumerEntry::Mask(mask) => *mask,
            ChoiceConsumerEntry::AllRange(all_range) => all_range.get(),
        }
    }
}

pub open spec fn consumer_positions(sel: Seq<ChoiceConsumerEntry>) -> Seq<int> {
    sel.map_values(|e: ChoiceConsumerEntry| e.position())
}

pub open spec fn consumer_limits(sel: Seq<ChoiceConsumerEntry>) -> Seq<int> {
    sel.map_values(|e: ChoiceConsumerEntry| e.limit())
}

pub open spec fn consumer_ranges(sel: Seq<ChoiceConsumerEntry>) -> Seq<bool> {
    sel.map_values(|e: ChoiceConsumerEntry| e is AllRange)
}

/// The choices of one task: an odometer over its range axes.
pub struct ChoiceConsumer {
    pub selection: Vec<ChoiceConsumerEntry>,
    pub index: usize,
    pub ended: bool,
}

impl ChoiceConsumer {
    pub open spec fn wf(&self) -> bool {
        !self.ended ==> {
            &&& self.selection@.len() > 0
            &&& self.index == self.selection@.len() - 1
            &&& forall|i: int|
                0 <= i < self.selection@.len() ==> (#[trigger] self.selection@[i] is AllRange) ==> self.selection@[i]->AllRange_0.start == 0
                    && 0 <= self.selection@[i].position() < self.selection@[i].limit()
        }
    }

    pub fn empty() -> (r: ChoiceConsumer)
        ensures
            r.ended,
            r.wf(),
            r.selection@.len() == 0,
    {
        ChoiceConsumer { index: 0, ended: true, selection: Vec::new() }
    }

    pub fn ended(&self) -> (r: bool)
        ensures
            r == self.ended,
    {
        self.ended
    }

    /// Steps to the next choice: the odometer over the range axes moves one position
    /// on. Returns whether there is one; where there is none the task has ended.
    pub fn next(&mut self) -> (r: bool)
        requires
            old(self).wf(),
        ensures
            final(self).wf(),
            old(self).ended ==> !r && *final(self) == *old(self),
            !old(self).ended ==> match successor(
                consumer_positions(old(self).selection@),
                consumer_limits(old(self).selection@),
                consumer_ranges(old(self).selection@),
            ) {
                Some(p) => {
                    &&& r
                    &&& !final(self).ended
                    &&& consumer_positions(final(self).selection@) == p
                    &&& consumer_limits(final(self).selection@) == consumer_limits(old(self).selection@)
                    &&& consumer_ranges(final(self).selection@) == consumer_ranges(old(self).selection@)
                },
                None => {
                    &&& !r
                    &&& final(self).ended
                    &&& consumer_limits(final(self).selection@) == consumer_limits(old(self).selection@)
                    &&& consumer_ranges(final(self).selection@) == consumer_ranges(old(self).selection@)
                },
            },
    {
        if self.ended {
            return false;
        }
        let ghost old_sel = self.selection@;
        let ghost pos = consumer_positions(old_sel);
        let ghost ends = consumer_limits(old_sel);
        let ghost ranges = consumer_ranges(old_sel);
        let n = self.selection.len();
        let mut k = self.index;
        loop
            invariant
                n == self.selection@.len(),
                n == old_sel.len(),
                old_sel == old(self).selection@,
                !old(self).ended,
                n > 0,
                k < n,
                !self.ended,
                self.index == n - 1,
                pos == consumer_positions(old_sel),
                ends == consumer_limits(old_sel),
                ranges == consumer_ranges(old_sel),
                forall|i: int| 0 <= i < n ==> (#[trigger] old_sel[i] is AllRange) ==> old_sel[i]->AllRange_0.start == 0
                    && 0 <= old_sel[i].position() < old_sel[i].limit(),
                forall|i: int| 0 <= i < n ==> {
                    &&& (#[trigger] self.selection@[i]).limit() == old_sel[i].limit()
                    &&& (self.selection@[i] is AllRange) == (old_sel[i] is AllRange)
                    &&& (self.selection@[i] is AllRange) ==> self.selection@[i]->AllRange_0.start == old_sel[i]->AllRange_0.start
                },
                forall|i: int| 0 <= i <= k ==> #[trigger] self.selection@[i] == old_sel[i],
                forall|i: int| k < i < n ==> (#[trigger] self.selection@[i] is AllRange) ==> self.selection@[i].position() == self.selection@[i].limit(),
                forall|i: int| k < i < n ==> !(#[trigger] self.selection@[i] is AllRange) ==> self.selection@[i] == old_sel[i],
                successor(pos, ends, ranges) == successor_from(pos, ends, ranges, k + 1),
            decreases k,
        {
            let mut entry = self.selection[k];
            let advanced = entry.advance();
            self.selection.set(k, entry);
            if advanced {
                let ghost target = reset_after(pos.update(k as int, pos[k as int] + 1), ranges, k as int);
                proof {
                    assert(ranges[k as int] && pos[k as int] + 1 < ends[k as int]);
                    assert(successor_from(pos, ends, ranges, k + 1) == Some(target));
                }
                let mut j = k + 1;
                while j < n
                    invariant
                        k < j <= n,
                        n == self.selection@.len(),
                        n == old_sel.len(),
                        !self.ended,
                        old_sel == old(self).selection@,
                        !old(self).ended,
                        pos[k as int] + 1 < ends[k as int],
                        ends.len() == n,
                        target.len() == n,
                        target == reset_after(pos.update(k as int, pos[k as int] + 1), ranges, k as int),
                        pos == consumer_positions(old_sel),
                        ranges == consumer_ranges(old_sel),
                        ends == consumer_limits(old_sel),
                        forall|i: int| 0 <= i < n ==> (#[trigger] old_sel[i] is AllRange) ==> old_sel[i]->AllRange_0.start == 0
                            && 0 <= old_sel[i].position() < old_sel[i].limit(),
                        forall|i: int| 0 <= i < n ==> {
                            &&& (#[trigger] self.selection@[i]).limit() == old_sel[i].limit()
                            &&& (self.selection@[i] is AllRange) == (old_sel[i] is AllRange)
                            &&& (self.selection@[i] is AllRange) ==> self.selection@[i]->AllRange_0.start == old_sel[i]->AllRange_0.start
                        },
                        forall|i: int| 0 <= i < j ==> (#[trigger] self.selection@[i]).position() == target[i],
                        forall|i: int| j <= i < n ==> !(#[trigger] self.selection@[i] is AllRange) ==> self.selection@[i] == old_sel[i],
                    decreases n - j,
                {
                    let mut later = self.selection[j];
                    later.reset();
                    self.selection.set(j, later);
                    j = j + 1;
                }
                self.index = n - 1;
                proof {
                    assert(consumer_positions(self.selection@) =~= target);
                    assert(consumer_limits(self.selection@) =~= ends);
                    assert(consumer_ranges(self.selection@) =~= ranges);
                }
                return true;
            }
            proof {
                assert(!(ranges[k as int] && pos[k as int] + 1 < ends[k as int]));
                assert(successor_from(pos, ends, ranges, k + 1) == successor_from(pos, ends, ranges, k as int));
            }
            if k == 0 {
                self.ended = true;
                proof {
                    assert(consumer_limits(self.selection@) =~= ends);
                    assert(consumer_ranges(self.selection@) =~= ranges);
                }
                return false;
            }
            k = k - 1;
        }
    }

    pub fn get(&self, index: usize) -> (r: &ChoiceConsumerEntry)
        requires
            index < self.selection@.len(),
        ensures
            *r == self.selection@[index as int],
    {
        &self.selection[index]
    }

    pub fn len(&self) -> (r: usize)
        ensures
            r == self.selection@.len(),
    {
        self.selection.len()
    }
}

/// A split of the axes: each count kept whole (a mask axis) or made one (a range axis).
pub open spec fn is_split(c: Seq<usize>, choices: Seq<usize>) -> bool {
    &&& c.len() == choices.len()
    &&& forall|i: int| 0 <= i < c.len() ==> #[trigger] c[i] == 1 || c[i] == choices[i]
}

/// `c` and `s` agree below `k`.
pub open spec fn agrees_before(c: Seq<usize>, s: Seq<usize>, k: int) -> bool {
    forall|i: int| 0 <= i < k ==> #[trigger] c[i] == s[i]
}

/// A split that agrees with `s` below `k`, where `s` is one from `k` on, has at least
/// the product of `s`.
proof fn lemma_product_above(c: Seq<usize>, s: Seq<usize>, choices: Seq<usize>, k: int)
    requires
        is_split(c, choices),
        s.len() == c.len(),
        0 <= k <= c.len(),
        agrees_before(c, s, k),
        forall|i: int| k <= i < s.len() ==> #[trigger] s[i] == 1,
        forall|i: int| 0 <= i < choices.len() ==> #[trigger] choices[i] >= 1,
    ensures
        saturate(product(c)) >= saturate(product(s)),
{
    assert forall|i: int| 0 <= i < c.len() implies #[trigger] c[i] >= s[i] && s[i] >= 1 by {
        if i < k {
            assert(c[i] == s[i]);
        }
    }
    lemma_product_pointwise(c, s);
}

proof fn lemma_product_pointwise(c: Seq<usize>, s: Seq<usize>)
    requires
        c.len() == s.len(),
        forall|i: int| 0 <= i < c.len() ==> #[trigger] c[i] >= s[i] && s[i] >= 1,
    ensures
        product(c) >= product(s),
        product(s) >= 1,
    decreases c.len(),
{
    if c.len() > 0 {
        lemma_product_pointwise(c.drop_last(), s.drop_last());
        let a = product(c.drop_last());
        let b = product(s.drop_last());
        let x = c.last() as int;
        let y = s.last() as int;
        assert(a * x >= b * y && b * y >= 1) by (nonlinear_arith)
            requires
                a >= b,
                b >= 1,
                x >= y,
                y >= 1,
        ;
    }
}

proof fn lemma_product_ones(n: nat)
    ensures
        product(Seq::new(n, |i: int| 1usize)) == 1,
    decreases n,
{
    if n > 0 {
        lemma_product_ones((n - 1) as nat);
        assert(Seq::new(n, |i: int| 1usize).drop_last() =~= Seq::new((n - 1) as nat, |i: int| 1usize));
    }
}

proof fn lemma_product_prefix_monotone(s: Seq<usize>, k: int)
    requires
        0 <= k <= s.len(),
        forall|i: int| 0 <= i < s.len() ==> #[trigger] s[i] >= 1,
    ensures
        product(s.subrange(0, k)) <= product(s),
        product(s.subrange(0, k)) >= 1,
    decreases s.len() - k,
{
    lemma_product_positive(s.subrange(0, k));
    if k < s.len() {
        lemma_product_prefix_monotone(s, k + 1);
        let p = s.subrange(0, k + 1);
        assert(p.drop_last() =~= s.subrange(0, k));
        let a = product(s.subrange(0, k));
        let b = s[k] as int;
        assert(a <= a * b) by (nonlinear_arith)
            requires
                a >= 1,
                b >= 1,
        ;
    } else {
        assert(s.subrange(0, k) =~= s);
    }
}

proof fn lemma_product_positive(s: Seq<usize>)
    requires
        forall|i: int| 0 <= i < s.len() ==> #[trigger] s[i] >= 1,
    ensures
        product(s) >= 1,
    decreases s.len(),
{
    if s.len() > 0 {
        lemma_product_positive(s.drop_last());
        let a = product(s.drop_last());
        let b = s.last() as int;
        assert(a * b >= 1) by (nonlinear_arith)
            requires
                a >= 1,
                b >= 1,
        ;
    }
}

} // verus!

verus! {

// ---------------------------------------------------------------------------
// Every position of an odometer is reached
// ---------------------------------------------------------------------------

/// The position after `k` steps of the odometer from `start`, if it has not ended.
pub open spec fn iterate(start: Seq<int>, ends: Seq<int>, movable: Seq<bool>, k: nat) -> Option<Seq<int>>
    decreases k,
{
    if k == 0 {
        Some(start)
    } else {
        match iterate(start, ends, movable, (k - 1) as nat) {
            Some(p) => successor(p, ends, movable),
            None => None,
        }
    }
}

/// A position of the odometer: each movable axis below its end, each other axis at its
/// value in `base`.
pub open spec fn valid_position(pos: Seq<int>, base: Seq<int>, ends: Seq<int>, movable: Seq<bool>) -> bool {
    &&& pos.len() == base.len()
    &&& pos.len() == ends.len()
    &&& pos.len() == movable.len()
    &&& forall|i: int| 0 <= i < pos.len() ==> (#[trigger] movable[i] ==> 0 <= pos[i] < ends[i])
    &&& forall|i: int| 0 <= i < pos.len() ==> (!#[trigger] movable[i] ==> pos[i] == base[i])
}

/// The first position: every movable axis at zero.
pub open spec fn first_position(base: Seq<int>, movable: Seq<bool>) -> Seq<int> {
    reset_after(base, movable, -1)
}

/// The number of positions of the movable axes from `i` on.
pub open spec fn weight(ends: Seq<int>, movable: Seq<bool>, i: int) -> int
    decreases ends.len() - i,
{
    if i >= ends.len() || i < 0 {
        1
    } else if movable[i] {
        ends[i] * weight(ends, movable, i + 1)
    } else {
        weight(ends, movable, i + 1)
    }
}

/// How many steps the movable axes from `i` on are past their first position.
pub open spec fn rank(pos: Seq<int>, ends: Seq<int>, movable: Seq<bool>, i: int) -> int
    decreases ends.len() - i,
{
    if i >= ends.len() || i < 0 {
        0
    } else if movable[i] {
        pos[i] * weight(ends, movable, i + 1) + rank(pos, ends, movable, i + 1)
    } else {
        rank(pos, ends, movable, i + 1)
    }
}

proof fn lemma_rank_bounds(pos: Seq<int>, base: Seq<int>, ends: Seq<int>, movable: Seq<bool>, i: int)
    requires
        valid_position(pos, base, ends, movable),
        0 <= i <= ends.len(),
    ensures
        0 <= rank(pos, ends, movable, i) < weight(ends, movable, i),
        weight(ends, movable, i) >= 1,
    decreases ends.len() - i,
{
    if i < ends.len() {
        lemma_rank_bounds(pos, base, ends, movable, i + 1);
        if movable[i] {
            let w = weight(ends, movable, i + 1);
            let r = rank(pos, ends, movable, i + 1);
            let p = pos[i];
            let e = ends[i];
            assert(0 <= p * w + r < e * w && e * w >= 1) by (nonlinear_arith)
                requires
                    0 <= p < e,
                    0 <= r < w,
                    w >= 1,
            ;
        }
    }
}

/// The rank is zero only at the first position.
proof fn lemma_rank_zero(pos: Seq<int>, base: Seq<int>, ends: Seq<int>, movable: Seq<bool>, i: int)
    requires
        valid_position(pos, base, ends, movable),
        0 <= i <= ends.len(),
        rank(pos, ends, movable, i) == 0,
    ensures
        forall|j: int| i <= j < ends.len() && movable[j] ==> pos[j] == 0,
    decreases ends.len() - i,
{
    if i < ends.len() {
        lemma_rank_bounds(pos, base, ends, movable, i + 1);
        if movable[i] {
            let w = weight(ends, movable, i + 1);
            let r = rank(pos, ends, movable, i + 1);
            let p = pos[i];
            assert(p == 0 && r == 0) by (nonlinear_arith)
                requires
                    p * w + r == 0,
                    p >= 0,
                    r >= 0,
                    w >= 1,
            ;
        }
        lemma_rank_zero(pos, base, ends, movable, i + 1);
    }
}

/// Movable axes from `i` on all at zero give rank zero; all at their last value give
/// the largest rank.
proof fn lemma_rank_extremes(pos: Seq<int>, ends: Seq<int>, movable: Seq<bool>, i: int)
    requires
        0 <= i <= ends.len(),
        pos.len() == ends.len(),
        movable.len() == ends.len(),
        forall|j: int| 0 <= j < ends.len() ==> (#[trigger] movable[j] ==> ends[j] >= 1),
    ensures
        (forall|j: int| i <= j < ends.len() && #[trigger] movable[j] ==> pos[j] == 0) ==> rank(pos, ends, movable, i) == 0,
        (forall|j: int| i <= j < ends.len() && #[trigger] movable[j] ==> pos[j] == ends[j] - 1) ==> rank(pos, ends, movable, i)
            == weight(ends, movable, i) - 1,
    decreases ends.len() - i,
{
    if i < ends.len() {
        lemma_rank_extremes(pos, ends, movable, i + 1);
        if movable[i] {
            let w = weight(ends, movable, i + 1);
            let e = ends[i];
            assert((e - 1) * w + (w - 1) == e * w - 1) by (nonlinear_arith);
            assert(0 * w == 0) by (nonlinear_arith);
        }
    }
}

/// Positions equal on the axes from `i` on have the same rank from `i` on.
proof fn lemma_rank_suffix(p: Seq<int>, q: Seq<int>, ends: Seq<int>, movable: Seq<bool>, i: int)
    requires
        0 <= i <= ends.len(),
        forall|j: int| i <= j < ends.len() ==> p[j] == q[j],
    ensures
        rank(p, ends, movable, i) == rank(q, ends, movable, i),
    decreases ends.len() - i,
{
    if i < ends.len() {
        lemma_rank_suffix(p, q, ends, movable, i + 1);
    }
}

/// Ranks that differ by one from `i` on still differ by one below `i`, where the
/// positions agree below `i`.
proof fn lemma_rank_prefix(p: Seq<int>, q: Seq<int>, ends: Seq<int>, movable: Seq<bool>, i: int, k: int)
    requires
        0 <= k <= i <= ends.len(),
        forall|j: int| 0 <= j < i ==> p[j] == q[j],
        rank(q, ends, movable, i) == rank(p, ends, movable, i) - 1,
    ensures
        rank(q, ends, movable, k) == rank(p, ends, movable, k) - 1,
    decreases i - k,
{
    if k < i {
        lemma_rank_prefix(p, q, ends, movable, i, k + 1);
    }
}

/// Axes `j..i` that cannot step leave the search for a step to the axes before `j`.
proof fn lemma_successor_skip(q: Seq<int>, ends: Seq<int>, movable: Seq<bool>, j: int, i: int)
    requires
        0 <= j <= i <= q.len(),
        forall|t: int| j <= t < i ==> !(movable[t] && q[t] + 1 < ends[t]),
    ensures
        successor_from(q, ends, movable, i) == successor_from(q, ends, movable, j),
    decreases i - j,
{
    if j < i {
        lemma_successor_skip(q, ends, movable, j, i - 1);
    }
}

/// The rightmost movable axis below `i` that is not at zero, or -1.
pub open spec fn rightmost_nonzero(pos: Seq<int>, movable: Seq<bool>, i: int) -> int
    decreases i,
{
    if i <= 0 {
        -1
    } else if movable[i - 1] && pos[i - 1] != 0 {
        i - 1
    } else {
        rightmost_nonzero(pos, movable, i - 1)
    }
}

proof fn lemma_rightmost_nonzero(pos: Seq<int>, movable: Seq<bool>, i: int)
    requires
        0 <= i <= pos.len(),
    ensures
        -1 <= rightmost_nonzero(pos, movable, i) < i,
        rightmost_nonzero(pos, movable, i) >= 0 ==> movable[rightmost_nonzero(pos, movable, i)]
            && pos[rightmost_nonzero(pos, movable, i)] != 0,
        forall|t: int| rightmost_nonzero(pos, movable, i) < t < i && #[trigger] movable[t] ==> pos[t] == 0,
    decreases i,
{
    if i > 0 && !(movable[i - 1] && pos[i - 1] != 0) {
        lemma_rightmost_nonzero(pos, movable, i - 1);
    }
}

/// An odometer started at its first position reaches every position.
pub proof fn lemma_odometer_reaches(pos: Seq<int>, base: Seq<int>, ends: Seq<int>, movable: Seq<bool>)
    requires
        valid_position(pos, base, ends, movable),
    ensures
        exists|k: nat| iterate(first_position(base, movable), ends, movable, k) == Some(pos),
    decreases rank(pos, ends, movable, 0),
{
    let n = ends.len() as int;
    lemma_rank_bounds(pos, base, ends, movable, 0);
    let start = first_position(base, movable);
    if rank(pos, ends, movable, 0) == 0 {
        lemma_rank_zero(pos, base, ends, movable, 0);
        assert(start =~= pos);
        assert(iterate(start, ends, movable, 0) == Some(pos));
    } else {
        lemma_rightmost_nonzero(pos, movable, n);
        let j = rightmost_nonzero(pos, movable, n);
        if j < 0 {
            lemma_rank_extremes(pos, ends, movable, 0);
        }
        assert(j >= 0);
        let q = Seq::new(pos.len(), |t: int| if t == j { pos[t] - 1 } else if t > j && movable[t] { ends[t] - 1 } else { pos[t] });
        // q is a position, and its successor is pos.
        assert(valid_position(q, base, ends, movable));
        lemma_successor_skip(q, ends, movable, j + 1, n);
        assert(reset_after(q.update(j, q[j] + 1), movable, j) =~= pos);
        assert(successor(q, ends, movable) == Some(pos));
        // q is one rank below pos.
        lemma_rank_extremes(pos, ends, movable, j + 1);
        lemma_rank_extremes(q, ends, movable, j + 1);
        let w = weight(ends, movable, j + 1);
        assert(rank(q, ends, movable, j) == rank(pos, ends, movable, j) - 1) by {
            assert((pos[j] - 1) * w + (w - 1) == pos[j] * w + 0 - 1) by (nonlinear_arith);
        }
        lemma_rank_prefix(pos, q, ends, movable, j, 0);
        lemma_odometer_reaches(q, base, ends, movable);
        let k = choose|k: nat| iterate(start, ends, movable, k) == Some(q);
        assert(iterate(start, ends, movable, k + 1) == Some(pos));
    }
}

} // verus!

verus! {

/// `n` zeros.
pub open spec fn zeros(n: nat) -> Seq<int> {
    Seq::new(n, |i: int| 0)
}

/// Scheduler coverage: every choice of the candidate counts is handed out, whatever the
/// split of the axes into masks and ranges. Take a choice `v` (one candidate per axis).
/// The generator, stepping the mask axes from the first task, reaches the task whose
/// mask axes hold `v`'s values; that task's consumer, stepping the range axes from its
/// first choice, reaches `v`.
pub proof fn lemma_scheduler_coverage(choices: Seq<usize>, masks: Seq<bool>, v: Seq<int>)
    requires
        masks.len() == choices.len(),
        v.len() == choices.len(),
        forall|i: int| 0 <= i < v.len() ==> 0 <= #[trigger] v[i] < choices[i],
    ensures
        ({
            let n = choices.len();
            let ends = choices.map_values(|c: usize| c as int);
            let task = Seq::new(n, |i: int| if masks[i] { v[i] } else { 0 });
            let ranges = masks.map_values(|m: bool| !m);
            let limits = Seq::new(n, |i: int| if masks[i] { v[i] + 1 } else { choices[i] as int });
            &&& exists|k: nat| #[trigger] iterate(first_position(zeros(n), masks), ends, masks, k) == Some(task)
            &&& exists|k: nat| #[trigger] iterate(first_position(task, ranges), limits, ranges, k) == Some(v)
        }),
{
    let n = choices.len();
    let ends = choices.map_values(|c: usize| c as int);
    let task = Seq::new(n, |i: int| if masks[i] { v[i] } else { 0 });
    let ranges = masks.map_values(|m: bool| !m);
    let limits = Seq::new(n, |i: int| if masks[i] { v[i] + 1 } else { choices[i] as int });
    assert(valid_position(task, zeros(n), ends, masks));
    lemma_odometer_reaches(task, zeros(n), ends, masks);
    assert(valid_position(v, task, limits, ranges));
    lemma_odometer_reaches(v, task, limits, ranges);
}

} // verus!

verus! {

// ---------------------------------------------------------------------------
// How many positions an odometer goes through
// ---------------------------------------------------------------------------

/// From a position whose movable axes from `i` on are all at their last value, the next
/// position is one rank on; there is none only at the last position.
proof fn lemma_successor_rank(pos: Seq<int>, base: Seq<int>, ends: Seq<int>, movable: Seq<bool>, i: int)
    requires
        valid_position(pos, base, ends, movable),
        0 <= i <= ends.len(),
        forall|j: int| i <= j < ends.len() && #[trigger] movable[j] ==> pos[j] == ends[j] - 1,
    ensures
        match successor_from(pos, ends, movable, i) {
            Some(q) => valid_position(q, base, ends, movable) && rank(q, ends, movable, 0) == rank(
                pos,
                ends,
                movable,
                0,
            ) + 1,
            None => rank(pos, ends, movable, 0) == weight(ends, movable, 0) - 1,
        },
    decreases i,
{
    lemma_rank_bounds(pos, base, ends, movable, 0);
    if i == 0 {
        lemma_rank_extremes(pos, ends, movable, 0);
    } else {
        let k = i - 1;
        if movable[k] && pos[k] + 1 < ends[k] {
            let q = reset_after(pos.update(k, pos[k] + 1), movable, k);
            assert(valid_position(q, base, ends, movable));
            lemma_rank_extremes(pos, ends, movable, i);
            lemma_rank_extremes(q, ends, movable, i);
            let w = weight(ends, movable, i);
            assert((pos[k] + 1) * w + 0 == pos[k] * w + (w - 1) + 1) by (nonlinear_arith);
            assert(rank(pos, ends, movable, k) == rank(q, ends, movable, k) - 1);
            lemma_rank_prefix(q, pos, ends, movable, k, 0);
        } else {
            lemma_successor_rank(pos, base, ends, movable, k);
        }
    }
}

/// Started at its first position, an odometer goes through exactly `weight` positions:
/// after `k` steps it stands at rank `k` while `k` is below the weight, and has ended
/// once `k` reaches it.
pub proof fn lemma_odometer_count(base: Seq<int>, ends: Seq<int>, movable: Seq<bool>, k: nat)
    requires
        base.len() == ends.len(),
        movable.len() == ends.len(),
        forall|j: int| 0 <= j < ends.len() ==> (#[trigger] movable[j] ==> ends[j] >= 1),
    ensures
        k < weight(ends, movable, 0) ==> {
            &&& iterate(first_position(base, movable), ends, movable, k) is Some
            &&& valid_position(iterate(first_position(base, movable), ends, movable, k)->0, base, ends, movable)
            &&& rank(iterate(first_position(base, movable), ends, movable, k)->0, ends, movable, 0) == k
        },
        k >= weight(ends, movable, 0) ==> iterate(first_position(base, movable), ends, movable, k) is None,
    decreases k,
{
    let start = first_position(base, movable);
    assert(valid_position(start, base, ends, movable));
    lemma_rank_bounds(start, base, ends, movable, 0);
    if k == 0 {
        lemma_rank_extremes(start, ends, movable, 0);
    } else {
        lemma_odometer_count(base, ends, movable, (k - 1) as nat);
        let w = weight(ends, movable, 0);
        if k - 1 < w {
            let p = iterate(start, ends, movable, (k - 1) as nat)->0;
            lemma_successor_rank(p, base, ends, movable, ends.len() as int);
            lemma_rank_bounds(p, base, ends, movable, 0);
            if let Some(q) = successor(p, ends, movable) {
                lemma_rank_bounds(q, base, ends, movable, 0);
            }
        }
    }
}

} // verus!

verus! {

proof fn lemma_product_first(s: Seq<usize>)
    requires
        s.len() > 0,
    ensures
        product(s) == s[0] * product(s.drop_first()),
    decreases s.len(),
{
    if s.len() == 1 {
        assert(s.drop_first() =~= Seq::<usize>::empty());
        assert(s.drop_last() =~= Seq::<usize>::empty());
    } else {
        lemma_product_first(s.drop_last());
        assert(s.drop_last().drop_first() =~= s.drop_first().drop_last());
        let a = s[0] as int;
        let b = product(s.drop_first().drop_last());
        let c = s.last() as int;
        assert(a * b * c == a * (b * c)) by (nonlinear_arith);
    }
}

proof fn lemma_weight_product(sel: Seq<ChoiceGeneratorEntry>, i: int)
    requires
        0 <= i <= sel.len(),
        forall|j: int| 0 <= j < sel.len() ==> 0 <= (#[trigger] sel[j]).end() <= usize::MAX,
    ensures
        weight(entry_ends(sel), entry_masks(sel), i) == product(mask_sizes(sel).subrange(i, sel.len() as int)),
    decreases sel.len() - i,
{
    let s = mask_sizes(sel).subrange(i, sel.len() as int);
    if i == sel.len() {
        assert(s =~= Seq::<usize>::empty());
    } else {
        lemma_weight_product(sel, i + 1);
        lemma_product_first(s);
        assert(s.drop_first() =~= mask_sizes(sel).subrange(i + 1, sel.len() as int));
    }
}

/// The generator hands out exactly as many tasks as its mask axes multiply to: started
/// at its first task, it is at a task after `k` steps exactly while `k` is below that
/// product.
pub proof fn lemma_task_count(sel: Seq<ChoiceGeneratorEntry>, k: nat)
    requires
        forall|j: int| 0 <= j < sel.len() ==> 1 <= (#[trigger] sel[j]).end() <= usize::MAX,
    ensures
        iterate(
            first_position(zeros(sel.len()), entry_masks(sel)),
            entry_ends(sel),
            entry_masks(sel),
            k,
        ) is Some <==> k < product(mask_sizes(sel)),
{
    lemma_weight_product(sel, 0);
    assert(mask_sizes(sel).subrange(0, sel.len() as int) =~= mask_sizes(sel));
    lemma_odometer_count(zeros(sel.len()), entry_ends(sel), entry_masks(sel), k);
}

} // verus!
