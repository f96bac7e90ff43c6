//! Posting lists: ascending record ordinals kept as runs.
use vstd::prelude::*;

verus! {

broadcast use vstd::seq_lib::group_seq_properties;

/// Inclusive run of ordinals.
#[derive(Debug, Clone, Copy, PartialEq, Eq, Structural)]
pub struct OrdinalRun {
    /// First ordinal.
    pub first: u32,
    /// Last ordinal.
    pub last: u32,
}

/// Direction of a result.
#[derive(Debug, Clone, Copy, PartialEq, Eq, Structural)]
pub enum QueryOrder {
    /// Ascending.
    OldestFirst,
    /// Descending.
    NewestFirst,
}

/// Runs stand in ascending order and do not overlap.
pub open spec fn runs_ordered(runs: Seq<OrdinalRun>) -> bool {
    &&& forall|i: int| 0 <= i < runs.len() ==> (#[trigger] runs[i]).first <= runs[i].last
    &&& forall|i: int, j: int|
        0 <= i < j < runs.len() ==> (#[trigger] runs[i]).last < (#[trigger] runs[j]).first
}

/// Whether some run holds an ordinal.
pub open spec fn held(runs: Seq<OrdinalRun>, ordinal: int) -> bool {
    exists|i: int| 0 <= i < runs.len() && (#[trigger] runs[i]).first <= ordinal <= runs[i].last
}

/// The ordinals from `first` to `last`.
pub open spec fn span(first: int, last: int) -> Seq<u32> {
    Seq::new(
        if last < first {
            0
        } else {
            (last - first + 1) as nat
        },
        |i: int| (first + i) as u32,
    )
}

/// The ordinals of a run in `[start, end)`.
pub open spec fn run_window(run: OrdinalRun, start: u32, end: u32) -> Seq<u32> {
    span(
        if run.first < start {
            start as int
        } else {
            run.first as int
        },
        if run.last < end {
            run.last as int
        } else {
            end - 1
        },
    )
}

/// The ordinals of runs in `[start, end)`, ascending.
pub open spec fn window(runs: Seq<OrdinalRun>, start: u32, end: u32) -> Seq<u32>
    decreases runs.len(),
{
    if runs.len() == 0 {
        Seq::empty()
    } else {
        window(runs.drop_last(), start, end) + run_window(runs.last(), start, end)
    }
}

/// Number of ordinals in runs.
pub open spec fn run_total(runs: Seq<OrdinalRun>) -> nat
    decreases runs.len(),
{
    if runs.len() == 0 {
        0
    } else {
        run_total(runs.drop_last()) + (runs.last().last - runs.last().first + 1) as nat
    }
}

/// The first `limit` items.
pub open spec fn limited<T>(items: Seq<T>, limit: nat) -> Seq<T> {
    if items.len() <= limit {
        items
    } else {
        items.subrange(0, limit as int)
    }
}

/// Items in a direction, at most `limit` of them.
pub open spec fn directed<T>(items: Seq<T>, order: QueryOrder, limit: Option<usize>) -> Seq<T> {
    let turned = match order {
        QueryOrder::OldestFirst => items,
        QueryOrder::NewestFirst => items.reverse(),
    };
    match limit {
        Some(most) => limited(turned, most as nat),
        None => turned,
    }
}

/// Numbers in strictly ascending order.
pub open spec fn rising(numbers: Seq<u32>) -> bool {
    forall|i: int, j: int|
        0 <= i < j < numbers.len() ==> #[trigger] numbers[i] < #[trigger] numbers[j]
}

/// The window of a list of runs holds exactly its ordinals in the range, each once
/// and in ascending order.
pub proof fn window_is_exact(runs: Seq<OrdinalRun>, start: u32, end: u32)
    requires
        runs_ordered(runs),
    ensures
        rising(window(runs, start, end)),
        forall|i: int|
            0 <= i < window(runs, start, end).len() ==> {
                let ordinal = #[trigger] window(runs, start, end)[i];
                start <= ordinal < end && held(runs, ordinal as int)
            },
        forall|ordinal: u32|
            start <= ordinal < end && held(runs, ordinal as int) ==> #[trigger] window(
                runs,
                start,
                end,
            ).contains(ordinal),
    decreases runs.len(),
{
    if runs.len() > 0 {
        let front = runs.drop_last();
        let last = runs.last();
        let early = window(front, start, end);
        let late = run_window(last, start, end);
        let all = window(runs, start, end);
        assert(runs_ordered(front)) by {
            assert forall|i: int| 0 <= i < front.len() implies (#[trigger] front[i]).first
                <= front[i].last by {
                assert(front[i] == runs[i]);
            }
            assert forall|i: int, j: int| 0 <= i < j < front.len() implies (
            #[trigger] front[i]).last < (#[trigger] front[j]).first by {
                assert(runs[i].last < runs[j].first);
            }
        }
        window_is_exact(front, start, end);
        assert(last == runs[runs.len() - 1]);
        assert forall|i: int| 0 <= i < all.len() implies {
            let ordinal = #[trigger] all[i];
            start <= ordinal < end && held(runs, ordinal as int)
        } by {
            let ordinal = all[i];
            if i < early.len() {
                assert(all[i] == early[i]);
                let k = choose|k: int|
                    0 <= k < front.len() && (#[trigger] front[k]).first <= ordinal
                        <= front[k].last;
                assert(runs[k] == front[k]);
            } else {
                assert(all[i] == late[i - early.len()]);
                assert(runs[runs.len() - 1].first <= ordinal <= runs[runs.len() - 1].last);
            }
        }
        assert forall|i: int, j: int| 0 <= i < j < all.len() implies #[trigger] all[i]
            < #[trigger] all[j] by {
            if j < early.len() {
                assert(all[i] == early[i] && all[j] == early[j]);
            } else if i >= early.len() {
                assert(all[i] == late[i - early.len()]);
                assert(all[j] == late[j - early.len()]);
            } else {
                assert(all[i] == early[i]);
                assert(all[j] == late[j - early.len()]);
                let k = choose|k: int|
                    0 <= k < front.len() && (#[trigger] front[k]).first <= early[i]
                        <= front[k].last;
                assert(runs[k].last < runs[runs.len() - 1].first);
            }
        }
        assert forall|ordinal: u32|
            start <= ordinal < end && held(runs, ordinal as int) implies #[trigger] all.contains(
            ordinal,
        ) by {
            let k = choose|k: int|
                0 <= k < runs.len() && (#[trigger] runs[k]).first <= ordinal <= runs[k].last;
            if k < front.len() {
                assert(front[k] == runs[k]);
                assert(early.contains(ordinal));
                let p = choose|p: int| 0 <= p < early.len() && early[p] == ordinal;
                assert(all[p] == ordinal);
            } else {
                let low = if last.first < start {
                    start as int
                } else {
                    last.first as int
                };
                assert(late[ordinal - low] == ordinal);
                assert(all[early.len() + (ordinal - low)] == ordinal);
            }
        }
    }
}

/// Runs with one more run behind them; a run that continues the last one joins it.
pub open spec fn pushed(runs: Seq<OrdinalRun>, first: u32, last: u32) -> Seq<OrdinalRun> {
    if runs.len() > 0 && runs.last().last + 1 == first {
        runs.drop_last().push(OrdinalRun { first: runs.last().first, last })
    } else {
        runs.push(OrdinalRun { first, last })
    }
}

/// Whether a run may be put behind runs.
pub open spec fn may_follow(runs: Seq<OrdinalRun>, first: u32) -> bool {
    runs.len() > 0 ==> runs.last().last < first
}

/// A pushed run adds its ordinals and no others.
pub proof fn pushed_holds(runs: Seq<OrdinalRun>, first: u32, last: u32)
    requires
        runs_ordered(runs),
        first <= last,
        may_follow(runs, first),
    ensures
        runs_ordered(pushed(runs, first, last)),
        run_total(pushed(runs, first, last)) == run_total(runs) + (last - first + 1),
        pushed(runs, first, last).last().last == last,
        forall|ordinal: int|
            held(pushed(runs, first, last), ordinal) == (#[trigger] held(runs, ordinal) || first
                <= ordinal <= last),
        forall|ordinal: int|
            #[trigger] held(pushed(runs, first, last), ordinal) == (held(runs, ordinal) || first
                <= ordinal <= last),
{
    let next = pushed(runs, first, last);
    let n = runs.len() as int;
    if runs.len() > 0 {
        assert(runs.last() == runs[n - 1]);
    }
    if runs.len() > 0 && runs.last().last + 1 == first {
        assert(next.drop_last() =~= runs.drop_last());
        assert forall|ordinal: int|
            held(next, ordinal) == (#[trigger] held(runs, ordinal) || first <= ordinal
                <= last) by {
            if held(runs, ordinal) {
                let k = choose|k: int|
                    0 <= k < runs.len() && (#[trigger] runs[k]).first <= ordinal <= runs[k].last;
                if k < n - 1 {
                    assert(next[k] == runs[k]);
                } else {
                    assert(next[n - 1].first <= ordinal <= next[n - 1].last);
                }
            }
            if first <= ordinal <= last {
                assert(next[n - 1].first <= ordinal <= next[n - 1].last);
            }
            if held(next, ordinal) {
                let k = choose|k: int|
                    0 <= k < next.len() && (#[trigger] next[k]).first <= ordinal <= next[k].last;
                if k < n - 1 {
                    assert(next[k] == runs[k]);
                } else if ordinal < first {
                    assert(runs[n - 1].first <= ordinal <= runs[n - 1].last);
                }
            }
        }
    } else {
        assert(next.drop_last() =~= runs);
        assert forall|ordinal: int|
            held(next, ordinal) == (#[trigger] held(runs, ordinal) || first <= ordinal
                <= last) by {
            if held(runs, ordinal) {
                let k = choose|k: int|
                    0 <= k < runs.len() && (#[trigger] runs[k]).first <= ordinal <= runs[k].last;
                assert(next[k] == runs[k]);
            }
            if first <= ordinal <= last {
                assert(next[n].first <= ordinal <= next[n].last);
            }
            if held(next, ordinal) {
                let k = choose|k: int|
                    0 <= k < next.len() && (#[trigger] next[k]).first <= ordinal <= next[k].last;
                if k < n {
                    assert(next[k] == runs[k]);
                }
            }
        }
    }
}

proof fn lemma_total_bound(runs: Seq<OrdinalRun>)
    requires
        runs_ordered(runs),
    ensures
        run_total(runs) <= if runs.len() == 0 {
            0
        } else {
            runs.last().last + 1
        },
    decreases runs.len(),
{
    if runs.len() > 0 {
        let front = runs.drop_last();
        assert(runs_ordered(front)) by {
            assert forall|i: int| 0 <= i < front.len() implies (#[trigger] front[i]).first
                <= front[i].last by {
                assert(front[i] == runs[i]);
            }
            assert forall|i: int, j: int| 0 <= i < j < front.len() implies (
            #[trigger] front[i]).last < (#[trigger] front[j]).first by {
                assert(runs[i].last < runs[j].first);
            }
        }
        lemma_total_bound(front);
        assert(runs.last() == runs[runs.len() - 1]);
        if front.len() > 0 {
            assert(runs[runs.len() - 2].last < runs[runs.len() - 1].first);
            assert(front.last() == runs[runs.len() - 2]);
        }
    }
}

/// Posting list of one term or field.
#[derive(Debug)]
pub struct HotPostingList {
    /// Runs in ascending order.
    pub runs: Vec<OrdinalRun>,
    /// Number of ordinals.
    pub cardinality: u64,
}

impl HotPostingList {
    /// The runs are ordered and counted.
    pub open spec fn well_formed(self) -> bool {
        runs_ordered(self.runs@) && self.cardinality == run_total(self.runs@)
    }

    /// An empty list.
    pub fn new() -> (list: Self)
        ensures
            list.well_formed(),
            list.runs@ == Seq::<OrdinalRun>::empty(),
    {
        HotPostingList { runs: Vec::new(), cardinality: 0 }
    }

    /// Appends one ordinal.
    pub fn push(&mut self, ordinal: u32)
        requires
            old(self).well_formed(),
            may_follow(old(self).runs@, ordinal),
        ensures
            final(self).well_formed(),
            final(self).runs@ == pushed(old(self).runs@, ordinal, ordinal),
    {
        self.push_range(ordinal, ordinal);
    }

    /// Appends a run of ordinals.
    pub fn push_range(&mut self, first: u32, final_ordinal: u32)
        requires
            old(self).well_formed(),
            first <= final_ordinal,
            may_follow(old(self).runs@, first),
        ensures
            final(self).well_formed(),
            final(self).runs@ == pushed(old(self).runs@, first, final_ordinal),
    {
        let ghost before = self.runs@;
        let added: u64 = (final_ordinal - first) as u64 + 1;
        let count: usize = self.runs.len();
        proof {
            pushed_holds(before, first, final_ordinal);
            lemma_total_bound(before);
        }
        if count > 0 && self.runs[count - 1].last < u32::MAX && self.runs[count - 1].last + 1
            == first {
            let run = OrdinalRun { first: self.runs[count - 1].first, last: final_ordinal };
            self.runs[count - 1] = run;
            self.cardinality = self.cardinality + added;
            proof {
                assert(self.runs@ =~= pushed(before, first, final_ordinal));
            }
            return;
        }
        self.runs.push(OrdinalRun { first, last: final_ordinal });
        self.cardinality = self.cardinality + added;
    }

    /// Whether no run overlaps `[start, end)`.
    pub fn is_empty_in(&self, start: u32, end: u32) -> (empty: bool)
        requires
            self.well_formed(),
        ensures
            empty == forall|i: int|
                0 <= i < self.runs@.len() ==> !((#[trigger] self.runs@[i]).last >= start
                    && self.runs@[i].first < end),
    {
        let index: usize = first_run_from(&self.runs, start);
        if index < self.runs.len() && self.runs[index].first < end {
            return false;
        }
        proof {
            assert forall|i: int| 0 <= i < self.runs@.len() implies !((
            #[trigger] self.runs@[i]).last >= start && self.runs@[i].first < end) by {
                if i > index {
                    assert(self.runs@[index as int].last < self.runs@[i].first);
                    assert(self.runs@[index as int].first <= self.runs@[index as int].last);
                }
            }
        }
        true
    }

    /// Collects the ordinals in `[start, end)` in a direction, up to a limit.
    pub fn collect_in(&self, start: u32, end: u32, order: QueryOrder, limit: Option<usize>) -> (
    ordinals: Vec<u32>)
        requires
            self.well_formed(),
        ensures
            ordinals@ == directed(window(self.runs@, start, end), order, limit),
    {
        let mut all = self.collect_window(start, end);
        match order {
            QueryOrder::OldestFirst => {},
            QueryOrder::NewestFirst => {
                all = reversed(&all);
            },
        }
        match limit {
            Some(most) => {
                let ghost whole = all@;
                if all.len() > most {
                    all.truncate(most);
                    proof {
                        assert(all@ =~= limited(whole, most as nat));
                    }
                }
                all
            },
            None => all,
        }
    }

    /// Collects the ordinals in `[start, end)` in ascending order.
    fn collect_window(&self, start: u32, end: u32) -> (ordinals: Vec<u32>)
        requires
            self.well_formed(),
        ensures
            ordinals@ == window(self.runs@, start, end),
    {
        let mut ordinals: Vec<u32> = Vec::new();
        let ghost runs = self.runs@;
        let mut index: usize = 0;
        proof {
            assert(runs.subrange(0, 0) =~= Seq::<OrdinalRun>::empty());
        }
        while index < self.runs.len() && self.runs[index].first < end
            invariant
                index <= self.runs@.len(),
                runs == self.runs@,
                runs_ordered(runs),
                ordinals@ == window(runs.subrange(0, index as int), start, end),
            decreases self.runs@.len() - index,
        {
            let run = self.runs[index];
            let ghost before = ordinals@;
            let low: u32 = if run.first < start {
                start
            } else {
                run.first
            };
            let high: u32 = if run.last < end {
                run.last
            } else {
                end - 1
            };
            proof {
                let part = runs.subrange(0, index + 1);
                assert(part.drop_last() =~= runs.subrange(0, index as int));
                assert(part.last() == run);
                assert(before + span(low as int, low - 1) =~= before);
            }
            let mut next: u64 = low as u64;
            while next <= high as u64
                invariant
                    low <= next,
                    next <= high + 1 || next == low,
                    ordinals@ == before + span(low as int, next - 1),
                decreases high + 1 - next,
            {
                proof {
                    assert(span(low as int, next as int) =~= span(low as int, next - 1).push(
                        next as u32,
                    ));
                }
                ordinals.push(next as u32);
                next = next + 1;
            }
            proof {
                assert(ordinals@ =~= before + run_window(run, start, end));
            }
            index = index + 1;
        }
        proof {
            lemma_window_tail(runs, index as int, start, end);
        }
        ordinals
    }
}

/// Where the next run starts at or past the end of a range, the rest adds nothing.
proof fn lemma_window_tail(runs: Seq<OrdinalRun>, index: int, start: u32, end: u32)
    requires
        runs_ordered(runs),
        0 <= index <= runs.len(),
        index < runs.len() ==> runs[index].first >= end,
    ensures
        window(runs, start, end) == window(runs.subrange(0, index), start, end),
    decreases runs.len(),
{
    if index < runs.len() {
        let front = runs.drop_last();
        assert(runs_ordered(front)) by {
            assert forall|i: int| 0 <= i < front.len() implies (#[trigger] front[i]).first
                <= front[i].last by {
                assert(front[i] == runs[i]);
            }
            assert forall|i: int, j: int| 0 <= i < j < front.len() implies (
            #[trigger] front[i]).last < (#[trigger] front[j]).first by {
                assert(runs[i].last < runs[j].first);
            }
        }
        if index < front.len() {
            assert(front[index] == runs[index]);
            assert(runs[index].last < runs[runs.len() - 1].first);
            assert(runs[index].first <= runs[index].last);
        }
        lemma_window_tail(front, index, start, end);
        assert(front.subrange(0, index) =~= runs.subrange(0, index));
        assert(runs.last() == runs[runs.len() - 1]);
        assert(run_window(runs.last(), start, end) =~= Seq::<u32>::empty());
        assert(window(front, start, end) + Seq::<u32>::empty() =~= window(front, start, end));
    } else {
        assert(runs.subrange(0, index) =~= runs);
    }
}

/// First run that does not end before `start`.
fn first_run_from(runs: &Vec<OrdinalRun>, start: u32) -> (index: usize)
    requires
        runs_ordered(runs@),
    ensures
        index <= runs@.len(),
        forall|i: int| 0 <= i < index ==> (#[trigger] runs@[i]).last < start,
        forall|i: int| index <= i < runs@.len() ==> (#[trigger] runs@[i]).last >= start,
{
    let mut low: usize = 0;
    let mut high: usize = runs.len();
    while low < high
        invariant
            low <= high <= runs@.len(),
            runs_ordered(runs@),
            forall|i: int| 0 <= i < low ==> (#[trigger] runs@[i]).last < start,
            forall|i: int| high <= i < runs@.len() ==> (#[trigger] runs@[i]).last >= start,
        decreases high - low,
    {
        let middle: usize = low + (high - low) / 2;
        if runs[middle].last < start {
            proof {
                assert forall|i: int| 0 <= i < middle + 1 implies (#[trigger] runs@[i]).last
                    < start by {
                    if i < middle {
                        assert(runs@[i].last < runs@[middle as int].first);
                        assert(runs@[middle as int].first <= runs@[middle as int].last);
                    }
                }
            }
            low = middle + 1;
        } else {
            proof {
                assert forall|i: int| middle <= i < runs@.len() implies (
                #[trigger] runs@[i]).last >= start by {
                    if i > middle {
                        assert(runs@[middle as int].last < runs@[i].first);
                        assert(runs@[i].first <= runs@[i].last);
                    }
                }
            }
            high = middle;
        }
    }
    low
}

/// Numbers in the opposite order.
pub fn reversed(numbers: &Vec<u32>) -> (turned: Vec<u32>)
    ensures
        turned@ == numbers@.reverse(),
{
    let mut turned: Vec<u32> = Vec::new();
    let mut left: usize = numbers.len();
    while left > 0
        invariant
            left <= numbers@.len(),
            turned@.len() == numbers@.len() - left,
            forall|i: int| 0 <= i < turned@.len() ==> turned@[i] == numbers@.reverse()[i],
        decreases left,
    {
        left = left - 1;
        turned.push(numbers[left]);
    }
    proof {
        assert(turned@ =~= numbers@.reverse());
    }
    turned
}

/// Whether an intersection with runs keeps a candidate: some run that does not end
/// before `start` holds it, and it is below `end`.
pub open spec fn survives(runs: Seq<OrdinalRun>, start: u32, end: u32, candidate: u32) -> bool {
    candidate < end && exists|i: int|
        0 <= i < runs.len() && (#[trigger] runs[i]).last >= start && runs[i].first <= candidate
            <= runs[i].last
}

/// The candidates that an intersection with runs keeps.
pub open spec fn surviving(candidates: Seq<u32>, runs: Seq<OrdinalRun>, start: u32, end: u32) -> Seq<
    u32,
>
    decreases candidates.len(),
{
    if candidates.len() == 0 {
        Seq::empty()
    } else if survives(runs, start, end, candidates.last()) {
        surviving(candidates.drop_last(), runs, start, end).push(candidates.last())
    } else {
        surviving(candidates.drop_last(), runs, start, end)
    }
}

proof fn lemma_surviving_tail(
    candidates: Seq<u32>,
    runs: Seq<OrdinalRun>,
    start: u32,
    end: u32,
    n: int,
)
    requires
        0 <= n <= candidates.len(),
        forall|i: int|
            n <= i < candidates.len() ==> !survives(runs, start, end, #[trigger] candidates[i]),
    ensures
        surviving(candidates, runs, start, end) == surviving(
            candidates.subrange(0, n),
            runs,
            start,
            end,
        ),
    decreases candidates.len(),
{
    if n < candidates.len() {
        let front = candidates.drop_last();
        assert forall|i: int| n <= i < front.len() implies !survives(
            runs,
            start,
            end,
            #[trigger] front[i],
        ) by {
            assert(front[i] == candidates[i]);
        }
        lemma_surviving_tail(front, runs, start, end, n);
        assert(front.subrange(0, n) =~= candidates.subrange(0, n));
        assert(candidates.last() == candidates[candidates.len() - 1]);
    } else {
        assert(candidates.subrange(0, n) =~= candidates);
    }
}

/// Keeps the candidates that runs hold.
pub fn intersect_ordinal_runs(candidates: &mut Vec<u32>, runs: &Vec<OrdinalRun>, start: u32, end: u32)
    requires
        runs_ordered(runs@),
        rising(old(candidates)@),
    ensures
        final(candidates)@ == surviving(old(candidates)@, runs@, start, end),
{
    let ghost before = candidates@;
    let mut kept: Vec<u32> = Vec::new();
    let mut candidate_index: usize = 0;
    let mut run_index: usize = first_run_from(runs, start);
    proof {
        assert(before.subrange(0, 0) =~= Seq::<u32>::empty());
    }
    while candidate_index < candidates.len() && run_index < runs.len()
        && candidates[candidate_index] < end && runs[run_index].first < end
        invariant
            candidates@ == before,
            rising(before),
            runs_ordered(runs@),
            candidate_index <= before.len(),
            run_index <= runs@.len(),
            forall|i: int| run_index <= i < runs@.len() ==> (#[trigger] runs@[i]).last >= start,
            forall|i: int|
                0 <= i < run_index && candidate_index < before.len() ==> (
                #[trigger] runs@[i]).last < start || runs@[i].last
                    < before[candidate_index as int],
            kept@ == surviving(before.subrange(0, candidate_index as int), runs@, start, end),
        decreases before.len() - candidate_index + runs@.len() - run_index,
    {
        let candidate: u32 = candidates[candidate_index];
        let run = runs[run_index];
        if candidate > run.last {
            proof {
                assert forall|i: int| 0 <= i < run_index + 1 implies (
                #[trigger] runs@[i]).last < start || runs@[i].last
                    < before[candidate_index as int] by {}
            }
            run_index = run_index + 1;
        } else {
            proof {
                let part = before.subrange(0, candidate_index + 1);
                assert(part.drop_last() =~= before.subrange(0, candidate_index as int));
                assert(part.last() == candidate);
                if candidate >= run.first {
                    assert(runs@[run_index as int].first <= candidate
                        <= runs@[run_index as int].last);
                } else {
                    assert forall|i: int| 0 <= i < runs@.len() implies !((
                    #[trigger] runs@[i]).last >= start && runs@[i].first <= candidate
                        <= runs@[i].last) by {
                        if i > run_index {
                            assert(runs@[run_index as int].last < runs@[i].first);
                        }
                    }
                }
                if candidate_index + 1 < before.len() {
                    assert(before[candidate_index as int] < before[candidate_index + 1]);
                }
            }
            if candidate >= run.first {
                kept.push(candidate);
            }
            candidate_index = candidate_index + 1;
        }
    }
    proof {
        assert forall|i: int| candidate_index <= i < before.len() implies !survives(
            runs@,
            start,
            end,
            #[trigger] before[i],
        ) by {
            let candidate = before[i];
            if i > candidate_index {
                assert(before[candidate_index as int] < before[i]);
            }
            assert forall|k: int| 0 <= k < runs@.len() implies !((#[trigger] runs@[k]).last
                >= start && runs@[k].first <= candidate <= runs@[k].last && candidate < end) by {
                if k > run_index {
                    assert(runs@[run_index as int].last < runs@[k].first);
                    assert(runs@[run_index as int].first <= runs@[run_index as int].last);
                }
            }
        }
        lemma_surviving_tail(before, runs@, start, end, candidate_index as int);
    }
    *candidates = kept;
}

/// The numbers of the first list that the second holds too.
pub open spec fn common(left: Seq<u32>, right: Seq<u32>) -> Seq<u32>
    decreases left.len(),
{
    if left.len() == 0 {
        Seq::empty()
    } else if right.contains(left.last()) {
        common(left.drop_last(), right).push(left.last())
    } else {
        common(left.drop_last(), right)
    }
}

proof fn lemma_common_tail(left: Seq<u32>, right: Seq<u32>, n: int)
    requires
        0 <= n <= left.len(),
        forall|i: int| n <= i < left.len() ==> !right.contains(#[trigger] left[i]),
    ensures
        common(left, right) == common(left.subrange(0, n), right),
    decreases left.len(),
{
    if n < left.len() {
        let front = left.drop_last();
        assert forall|i: int| n <= i < front.len() implies !right.contains(
            #[trigger] front[i],
        ) by {
            assert(front[i] == left[i]);
        }
        lemma_common_tail(front, right, n);
        assert(front.subrange(0, n) =~= left.subrange(0, n));
        assert(left.last() == left[left.len() - 1]);
    } else {
        assert(left.subrange(0, n) =~= left);
    }
}

/// Candidates after one more constraint; `None` stands for all records.
pub open spec fn narrowed(current: Option<Seq<u32>>, incoming: Seq<u32>) -> Seq<u32> {
    match current {
        Some(existing) => common(existing, incoming),
        None => incoming,
    }
}

/// The numbers behind optional candidates.
pub open spec fn candidate_view(current: Option<Vec<u32>>) -> Option<Seq<u32>> {
    match current {
        Some(existing) => Some(existing@),
        None => None,
    }
}

/// Narrows candidates to those that another ascending list holds too.
pub fn intersect_frame_candidates(current: Option<Vec<u32>>, incoming: Vec<u32>) -> (kept: Vec<
    u32,
>)
    requires
        rising(incoming@),
        candidate_view(current) matches Some(existing) ==> rising(existing),
    ensures
        kept@ == narrowed(candidate_view(current), incoming@),
        rising(kept@),
{
    let existing = match current {
        Some(existing) => existing,
        None => return incoming,
    };
    let mut kept: Vec<u32> = Vec::new();
    let mut left: usize = 0;
    let mut right: usize = 0;
    proof {
        assert(existing@.subrange(0, 0) =~= Seq::<u32>::empty());
    }
    while left < existing.len() && right < incoming.len()
        invariant
            rising(existing@),
            rising(incoming@),
            left <= existing@.len(),
            right <= incoming@.len(),
            forall|i: int|
                0 <= i < right && left < existing@.len() ==> #[trigger] incoming@[i]
                    < existing@[left as int],
            kept@ == common(existing@.subrange(0, left as int), incoming@),
            rising(kept@),
            forall|i: int|
                0 <= i < kept@.len() && left < existing@.len() ==> #[trigger] kept@[i]
                    < existing@[left as int],
        decreases existing@.len() - left + incoming@.len() - right,
    {
        if existing[left] > incoming[right] {
            right = right + 1;
        } else {
            let number: u32 = existing[left];
            proof {
                let part = existing@.subrange(0, left + 1);
                assert(part.drop_last() =~= existing@.subrange(0, left as int));
                assert(part.last() == number);
                if number == incoming@[right as int] {
                    assert(incoming@.contains(number));
                } else {
                    assert forall|i: int| 0 <= i < incoming@.len() implies incoming@[i]
                        != number by {
                        if i > right {
                            assert(incoming@[right as int] < incoming@[i]);
                        }
                    }
                }
                if left + 1 < existing@.len() {
                    assert(existing@[left as int] < existing@[left + 1]);
                }
            }
            if number == incoming[right] {
                kept.push(number);
            }
            left = left + 1;
        }
    }
    proof {
        assert forall|i: int| left <= i < existing@.len() implies !incoming@.contains(
            #[trigger] existing@[i],
        ) by {
            if i > left {
                assert(existing@[left as int] < existing@[i]);
            }
            assert forall|k: int| 0 <= k < incoming@.len() implies incoming@[k]
                != existing@[i] by {}
        }
        lemma_common_tail(existing@, incoming@, left as int);
    }
    kept
}

/// The places of a range, in a direction and up to a limit.
pub fn collect_ordered_range(start: usize, end: usize, order: QueryOrder, limit: Option<usize>) -> (
ordinals: Vec<u32>)
    requires
        start <= end <= u32::MAX,
    ensures
        ordinals@ == directed(span(start as int, end - 1), order, limit),
{
    let total: usize = end - start;
    let take: usize = match limit {
        Some(most) => if most < total {
            most
        } else {
            total
        },
        None => total,
    };
    let ghost wanted = directed(span(start as int, end - 1), order, limit);
    let mut ordinals: Vec<u32> = Vec::new();
    let mut index: usize = 0;
    while index < take
        invariant
            index <= take <= total,
            total == end - start,
            start <= end <= u32::MAX,
            wanted == directed(span(start as int, end - 1), order, limit),
            wanted.len() == take,
            ordinals@.len() == index,
            forall|i: int| 0 <= i < index ==> ordinals@[i] == wanted[i],
        decreases take - index,
    {
        match order {
            QueryOrder::OldestFirst => {
                ordinals.push((start + index) as u32);
            },
            QueryOrder::NewestFirst => {
                ordinals.push((end - 1 - index) as u32);
            },
        }
        index = index + 1;
    }
    proof {
        assert(ordinals@ =~= wanted);
    }
    ordinals
}

} // verus!
