//! 3.3.3 Preparations for Implicit Processing
//!
//! http://www.unicode.org/reports/tr9/#Preparations_for_Implicit_Processing
use vstd::prelude::*;

use crate::isolates::{innermost_isolate, is_isolate_initiator, open_isolates};
use crate::level::{class_for_level, direction, rtl, run, tiles, tiles_in_range, LevelRun};
use crate::sequences::{
    are_isolating_run_sequences, assembled, assembled_in_text_order, continued, ends_in_initiator,
    in_text_order, last_kept, linked, sequences_are_isolating_run_sequences, sequences_of,
    Assembly,
};
use crate::tables::BidiClass;

verus! {

/// The classes that are ignored in steps after X9.
pub open spec fn removed(class: BidiClass) -> bool {
    ||| class == BidiClass::RLE
    ||| class == BidiClass::LRE
    ||| class == BidiClass::RLO
    ||| class == BidiClass::LRO
    ||| class == BidiClass::PDF
    ||| class == BidiClass::BN
}

/// Should this character be ignored in steps after X9?
///
/// http://www.unicode.org/reports/tr9/#X9
pub fn removed_by_x9(class: BidiClass) -> (result: bool)
    ensures
        result == removed(class),
{
    matches!(
        class,
        BidiClass::RLE | BidiClass::LRE | BidiClass::RLO | BidiClass::LRO | BidiClass::PDF
        | BidiClass::BN
    )
}

/// The opposite of `removed_by_x9`.
fn not_removed_by_x9(class: &BidiClass) -> (result: bool)
    ensures
        result == !removed(*class),
{
    !removed_by_x9(*class)
}

/// The level runs of the first `n` characters: a character that is not removed starts a new run
/// where its level is not that of the run before it.
pub open spec fn runs_of_first(levels: Seq<u8>, classes: Seq<BidiClass>, n: int) -> Seq<LevelRun>
    decreases n,
{
    if n <= 0 {
        Seq::empty()
    } else {
        let before = runs_of_first(levels, classes, n - 1);
        if before.len() == 0 || (!removed(classes[n - 1]) && levels[n - 1] != levels[
            before.last().start as int
        ]) {
            before.push(run(n - 1, n))
        } else {
            before.drop_last().push(run(before.last().start as int, n))
        }
    }
}

/// The level runs of a paragraph.
pub open spec fn runs_of(levels: Seq<u8>, classes: Seq<BidiClass>) -> Seq<LevelRun> {
    runs_of_first(levels, classes, levels.len() as int)
}

/// What makes `runs` the level runs of the first `n` characters: they cover these characters
/// without gaps, the characters of a run have the level of its first one, but for those that are
/// removed, and no run could be longer.
pub open spec fn are_level_runs(
    runs: Seq<LevelRun>,
    levels: Seq<u8>,
    classes: Seq<BidiClass>,
    n: int,
) -> bool {
    &&& tiles(runs, 0, n)
    &&& forall|k: int, i: int|
        #![trigger runs[k], levels[i]]
        0 <= k < runs.len() && runs[k].start <= i < runs[k].end && !removed(classes[i])
            ==> levels[i] == levels[runs[k].start as int]
    &&& forall|k: int| 0 < k < runs.len() ==> !removed(classes[(#[trigger] runs[k]).start as int])
    &&& forall|j: int, k: int|
        0 <= j < runs.len() - 1 && k == j + 1 ==> levels[(#[trigger] runs[j]).start as int]
            != levels[(#[trigger] runs[k]).start as int]
}

/// The level runs of a paragraph are its maximal substrings at one level, where the removed
/// characters do not count.
pub proof fn level_runs_are_maximal(levels: Seq<u8>, classes: Seq<BidiClass>, n: int)
    requires
        0 <= n <= usize::MAX,
    ensures
        are_level_runs(runs_of_first(levels, classes, n), levels, classes, n),
    decreases n,
{
    if n > 0 {
        level_runs_are_maximal(levels, classes, n - 1);
        let before = runs_of_first(levels, classes, n - 1);
        let all = runs_of_first(levels, classes, n);
        assert forall|k: int| 0 <= k < before.len() implies (#[trigger] before[k]).start
            == all[k].start && (k < all.len() - 1 ==> before[k] == all[k]) by {}
        assert forall|k: int, i: int|
            #![trigger all[k], levels[i]]
            0 <= k < all.len() && all[k].start <= i < all[k].end && !removed(
                classes[i],
            ) implies levels[i] == levels[all[k].start as int] by {
            if k < before.len() {
                assert(before[k].start == all[k].start);
            }
        }
        assert forall|k: int| 0 < k < all.len() implies !removed(
            classes[(#[trigger] all[k]).start as int],
        ) by {
            if k < before.len() {
                assert(before[k].start == all[k].start);
            }
        }
        assert forall|j: int, k: int| 0 <= j < all.len() - 1 && k == j + 1 implies levels[(
        #[trigger] all[j]).start as int] != levels[(#[trigger] all[k]).start as int] && all[j].end
            == all[k].start by {
            assert(before[j] == all[j]);
            if k < before.len() {
                assert(before[k].start == all[k].start);
            }
        }
        assert(tiles(all, 0, n)) by {
            assert forall|k: int| 0 <= k < all.len() implies (#[trigger] all[k]).start
                < all[k].end by {
                if k < before.len() {
                    assert(before[k].start < before[k].end);
                    assert(before[k].start == all[k].start);
                }
            }
            if before.len() > 0 {
                assert(before[0].start == all[0].start);
                assert(before.last() == before[before.len() - 1]);
            }
        }
    }
}

/// Finds the level runs in a paragraph.
///
/// http://www.unicode.org/reports/tr9/#BD7
pub fn level_runs(levels: &[u8], classes: &[BidiClass]) -> (runs: Vec<LevelRun>)
    requires
        levels@.len() == classes@.len(),
    ensures
        runs@ == runs_of(levels@, classes@),
        are_level_runs(runs@, levels@, classes@, levels@.len() as int),
{
    let mut runs: Vec<LevelRun> = Vec::new();
    if levels.len() == 0 {
        return runs;
    }
    let mut current_run_level: u8 = levels[0];
    let mut current_run_start: usize = 0;

    proof {
        reveal_with_fuel(runs_of_first, 2);
        assert(runs_of_first(levels@, classes@, 1) =~= runs@.push(run(0, 1)));
    }

    for i in 1..levels.len()
        invariant
            levels@.len() == classes@.len(),
            current_run_start < i,
            current_run_level == levels@[current_run_start as int],
            runs_of_first(levels@, classes@, i as int) == runs@.push(
                run(current_run_start as int, i as int),
            ),
    {
        let ghost before = runs_of_first(levels@, classes@, i as int);
        proof {
            assert(before.drop_last() =~= runs@);
        }
        if !removed_by_x9(classes[i]) {
            if levels[i] != current_run_level {
                // End the last run and start a new one.
                runs.push(current_run_start..i);
                current_run_level = levels[i];
                current_run_start = i;
            }
        }
    }
    runs.push(current_run_start..levels.len());
    proof {
        level_runs_are_maximal(levels@, classes@, levels@.len() as int);
    }
    runs
}

/// What an isolating run sequence consists of.
#[verifier::ext_equal]
pub struct RunSequence {
    pub runs: Seq<LevelRun>,
    pub sos: BidiClass,
    pub eos: BidiClass,
}

impl RunSequence {
    /// The runs lie in a text of length `n`, in text order, and the ends have a direction.
    pub open spec fn wf(self, n: int) -> bool {
        &&& in_text_order(self.runs, n)
        &&& self.sos == BidiClass::L || self.sos == BidiClass::R
        &&& self.eos == BidiClass::L || self.eos == BidiClass::R
    }
}

/// Output of `isolating_run_sequences` (steps X9-X10)
pub struct IsolatingRunSequence {
    pub runs: Vec<LevelRun>,
    /// Start-of-sequence type.
    pub sos: BidiClass,
    /// End-of-sequence type.
    pub eos: BidiClass,
}

impl View for IsolatingRunSequence {
    type V = RunSequence;

    open spec fn view(&self) -> RunSequence {
        RunSequence { runs: self.runs@, sos: self.sos, eos: self.eos }
    }
}

/// The last character before `i` that is not removed.
pub open spec fn kept_before(classes: Seq<BidiClass>, i: int) -> Option<int>
    decreases i,
{
    if i <= 0 {
        None
    } else if !removed(classes[i - 1]) {
        Some(i - 1)
    } else {
        kept_before(classes, i - 1)
    }
}

/// The first character from `i` on that is not removed.
pub open spec fn kept_from(classes: Seq<BidiClass>, i: int) -> Option<int>
    decreases classes.len() - i,
{
    if i >= classes.len() {
        None
    } else if !removed(classes[i]) {
        Some(i)
    } else {
        kept_from(classes, i + 1)
    }
}

/// The level at an index, or else that of the paragraph.
pub open spec fn level_at(para_level: u8, levels: Seq<u8>, i: Option<int>) -> u8 {
    match i {
        Some(k) => levels[k],
        None => para_level,
    }
}

/// The higher of two levels.
pub open spec fn higher(a: u8, b: u8) -> u8 {
    if a >= b {
        a
    } else {
        b
    }
}

/// X10: a sequence of runs with the classes of its ends. They are taken from the higher of the
/// level of the runs and that of the next character outside on either side; at the edges of the
/// paragraph, and behind an isolate initiator, that is the level of the paragraph. Removed
/// characters do not count.
#[verifier::opaque]
pub open spec fn with_ends(
    para_level: u8,
    classes: Seq<BidiClass>,
    levels: Seq<u8>,
    runs: Seq<LevelRun>,
) -> RunSequence {
    let start = runs[0].start as int;
    let end = runs.last().end as int;
    let level = levels[start];
    let pred_level = level_at(para_level, levels, kept_before(classes, start));
    let succ_level = if ends_in_initiator(classes, runs.last()) {
        para_level
    } else {
        level_at(para_level, levels, kept_from(classes, end))
    };
    RunSequence {
        runs,
        sos: direction(higher(level, pred_level)),
        eos: direction(higher(level, succ_level)),
    }
}

/// The isolating run sequences of a paragraph.
pub open spec fn isolating_sequences(
    para_level: u8,
    classes: Seq<BidiClass>,
    levels: Seq<u8>,
) -> Seq<RunSequence> {
    sequences_of(classes, runs_of(levels, classes)).map_values(
        |runs: Seq<LevelRun>| with_ends(para_level, classes, levels, runs),
    )
}

/// What isolating run sequences consist of, one by one.
pub open spec fn sequence_views(sequences: Seq<IsolatingRunSequence>) -> Seq<RunSequence> {
    sequences.map_values(|sequence: IsolatingRunSequence| sequence@)
}

/// The runs of every isolating run sequence lie in the paragraph, in text order.
pub proof fn isolating_sequences_well_formed(
    para_level: u8,
    classes: Seq<BidiClass>,
    levels: Seq<u8>,
)
    requires
        levels.len() == classes.len(),
        classes.len() <= usize::MAX,
    ensures
        forall|a: int|
            0 <= a < isolating_sequences(para_level, classes, levels).len() ==> (
            #[trigger] isolating_sequences(para_level, classes, levels)[a]).wf(
                classes.len() as int,
            ) && isolating_sequences(para_level, classes, levels)[a].runs.len() > 0,
{
    let runs = runs_of(levels, classes);
    let sequences = sequences_of(classes, runs);
    let all = assembled(classes, runs, runs.len() as int);
    reveal(with_ends);
    level_runs_are_maximal(levels, classes, levels.len() as int);
    assembled_in_text_order(classes, runs, runs.len() as int);
    assert forall|a: int| 0 <= a < sequences.len() implies in_text_order(
        #[trigger] sequences[a],
        classes.len() as int,
    ) && sequences[a].len() > 0 by {
        if a < all.done.len() {
            assert(sequences[a] == all.done[a]);
        } else {
            assert(sequences[a] == all.open[all.open.len() - 1 - (a - all.done.len())]);
        }
    }
}

/// The last kept character before a place is kept, and those after it are removed.
pub proof fn kept_before_is_kept(classes: Seq<BidiClass>, i: int)
    requires
        0 <= i <= classes.len(),
    ensures
        match kept_before(classes, i) {
            Some(k) => 0 <= k < i && !removed(classes[k]) && forall|m: int|
                k < m < i ==> removed(#[trigger] classes[m]),
            None => forall|m: int| 0 <= m < i ==> removed(#[trigger] classes[m]),
        },
    decreases i,
{
    if i > 0 {
        kept_before_is_kept(classes, i - 1);
    }
}

/// The first kept character from a place on is kept, and those before it are removed.
pub proof fn kept_from_is_kept(classes: Seq<BidiClass>, i: int)
    requires
        0 <= i <= classes.len(),
    ensures
        match kept_from(classes, i) {
            Some(k) => i <= k < classes.len() && !removed(classes[k]) && forall|m: int|
                i <= m < k ==> removed(#[trigger] classes[m]),
            None => forall|m: int| i <= m < classes.len() ==> removed(#[trigger] classes[m]),
        },
    decreases classes.len() - i,
{
    if i < classes.len() {
        kept_from_is_kept(classes, i + 1);
    }
}

/// Where all levels have the direction of the paragraph, so have the ends of all sequences.
pub proof fn ends_have_direction_of_levels(para_level: u8, classes: Seq<BidiClass>, levels: Seq<u8>)
    requires
        levels.len() == classes.len(),
        classes.len() <= usize::MAX,
        forall|i: int| 0 <= i < levels.len() ==> rtl(#[trigger] levels[i]) == rtl(para_level),
    ensures
        forall|a: int|
            0 <= a < isolating_sequences(para_level, classes, levels).len() ==> (
            #[trigger] isolating_sequences(para_level, classes, levels)[a]).sos == direction(
                para_level,
            ) && isolating_sequences(para_level, classes, levels)[a].eos == direction(para_level),
{
    let sequences = isolating_sequences(para_level, classes, levels);
    isolating_sequences_well_formed(para_level, classes, levels);
    assert forall|a: int| 0 <= a < sequences.len() implies (#[trigger] sequences[a]).sos
        == direction(para_level) && sequences[a].eos == direction(para_level) by {
        reveal(with_ends);
        let runs = sequences[a].runs;
        assert(sequences[a].wf(classes.len() as int));
        let first = runs[0];
        let last = runs[runs.len() - 1];
        assert(first.start < first.end <= classes.len());
        assert(last.start < last.end <= classes.len());
        kept_before_is_kept(classes, first.start as int);
        kept_from_is_kept(classes, last.end as int);
        assert(rtl(levels[first.start as int]) == rtl(para_level));
    }
}

/// Find the last character of a run that is not removed.
fn find_last_kept(classes: &[BidiClass], run: &LevelRun) -> (result: Option<usize>)
    requires
        run.start <= run.end <= classes@.len(),
    ensures
        match result {
            Some(i) => last_kept(classes@, *run) == Some(i as int) && run.start <= i < run.end,
            None => last_kept(classes@, *run) is None,
        },
{
    let mut i: usize = run.end;
    while i > run.start
        invariant
            run.start <= i <= run.end <= classes@.len(),
            kept_before(classes@, i as int) == kept_before(classes@, run.end as int),
        decreases i,
    {
        i -= 1;
        if not_removed_by_x9(&classes[i]) {
            return Some(i);
        }
    }
    proof {
        kept_before_is_kept(classes@, i as int);
    }
    None
}

/// Does a run end in an isolate initiator?
fn run_ends_in_initiator(classes: &[BidiClass], run: &LevelRun) -> (result: bool)
    requires
        run.start <= run.end <= classes@.len(),
    ensures
        result == ends_in_initiator(classes@, *run),
{
    match find_last_kept(classes, run) {
        Some(i) => is_isolate_initiator(classes[i]),
        None => false,
    }
}

/// Determine the `sos` and `eos` class for a sequence.
/// http://www.unicode.org/reports/tr9/#X10
fn determine_ends(
    para_level: u8,
    initial_classes: &[BidiClass],
    levels: &[u8],
    sequence: Vec<LevelRun>,
) -> (result: IsolatingRunSequence)
    requires
        levels@.len() == initial_classes@.len(),
        sequence@.len() > 0,
        in_text_order(sequence@, levels@.len() as int),
    ensures
        result@ == with_ends(para_level, initial_classes@, levels@, sequence@),
{
    proof {
        reveal(with_ends);
    }
    let start: usize = sequence[0].start;
    let end: usize = sequence[sequence.len() - 1].end;

    // Get the level inside these level runs.
    let level: u8 = levels[start];

    // Get the level of the last non-removed char before the runs.
    let mut pred_level: u8 = para_level;
    let mut i: usize = start;
    while i > 0
        invariant_except_break
            pred_level == para_level,
            kept_before(initial_classes@, i as int) == kept_before(initial_classes@, start as int),
        invariant
            i <= start < levels@.len(),
            levels@.len() == initial_classes@.len(),
        ensures
            pred_level == level_at(
                para_level,
                levels@,
                kept_before(initial_classes@, start as int),
            ),
        decreases i,
    {
        i -= 1;
        if not_removed_by_x9(&initial_classes[i]) {
            pred_level = levels[i];
            break;
        }
    }

    // Get the level of the next non-removed char after the runs.
    let mut succ_level: u8 = para_level;
    if !run_ends_in_initiator(initial_classes, &sequence[sequence.len() - 1]) {
        let mut j: usize = end;
        while j < initial_classes.len()
            invariant_except_break
                succ_level == para_level,
                kept_from(initial_classes@, j as int) == kept_from(initial_classes@, end as int),
                j <= levels@.len(),
            invariant
                levels@.len() == initial_classes@.len(),
            ensures
                succ_level == level_at(
                    para_level,
                    levels@,
                    kept_from(initial_classes@, end as int),
                ),
            decreases initial_classes.len() - j,
        {
            if not_removed_by_x9(&initial_classes[j]) {
                succ_level = levels[j];
                break;
            }
            j += 1;
        }
    }
    IsolatingRunSequence {
        sos: class_for_level(if level >= pred_level { level } else { pred_level }),
        eos: class_for_level(if level >= succ_level { level } else { succ_level }),
        runs: sequence,
    }
}

/// The runs of vectors of runs.
spec fn run_lists(sequences: Seq<Vec<LevelRun>>) -> Seq<Seq<LevelRun>> {
    sequences.map_values(|sequence: Vec<LevelRun>| sequence@)
}

/// The runs of isolating run sequences, one sequence after the other.
pub open spec fn sequence_runs(sequences: Seq<IsolatingRunSequence>) -> Seq<Seq<LevelRun>> {
    sequences.map_values(|sequence: IsolatingRunSequence| sequence.runs@)
}

/// Does the stack hold the isolates that are open before `i`?
spec fn holds_open_isolates(stack: Seq<usize>, classes: Seq<BidiClass>, i: int) -> bool {
    &&& stack.len() == open_isolates(classes, i).len()
    &&& forall|p: int| 0 <= p < stack.len() ==> #[trigger] stack[p] == open_isolates(classes, i)[p]
}

/// Follow the open isolates through the characters of a run.
fn pass_run(isolates: &mut Vec<usize>, classes: &[BidiClass], start: usize, end: usize)
    requires
        start <= end <= classes@.len(),
        holds_open_isolates(old(isolates)@, classes@, start as int),
    ensures
        holds_open_isolates(final(isolates)@, classes@, end as int),
{
    for i in start..end
        invariant
            start <= end <= classes@.len(),
            holds_open_isolates(isolates@, classes@, i as int),
    {
        if is_isolate_initiator(classes[i]) {
            isolates.push(i);
        } else if classes[i] == BidiClass::PDI {
            isolates.pop();
        }
    }
}

/// Take the sequence that a run continues out of the open ones.
fn take_continued(
    open: &mut Vec<Vec<LevelRun>>,
    isolates: &Vec<usize>,
    classes: &[BidiClass],
    next: &LevelRun,
) -> (sequence: Vec<LevelRun>)
    requires
        next.start < classes@.len(),
        holds_open_isolates(isolates@, classes@, next.start as int),
        forall|p: int|
            0 <= p < old(open)@.len() ==> (#[trigger] old(open)@[p])@.len() > 0 && old(
                open,
            )@[p]@.last().start <= old(open)@[p]@.last().end <= classes@.len(),
    ensures
        match continued(classes@, run_lists(old(open)@), *next) {
            Some(p) => sequence@ == run_lists(old(open)@)[p] && run_lists(final(open)@)
                == run_lists(old(open)@).remove(p),
            None => sequence@ == Seq::<LevelRun>::empty() && run_lists(final(open)@) == run_lists(
                old(open)@,
            ),
        },
{
    let start: usize = next.start;
    if classes[start] == BidiClass::PDI && isolates.len() > 0 {
        let opener: usize = isolates[isolates.len() - 1];
        let mut p: usize = open.len();
        proof {
            assert(run_lists(open@).take(p as int) =~= run_lists(open@));
        }
        while p > 0
            invariant
                p <= open.len(),
                open@ == old(open)@,
                start < classes@.len(),
                next.start == start,
                classes@[start as int] == BidiClass::PDI,
                innermost_isolate(classes@, start as int) == Some(opener as int),
                forall|p: int|
                    0 <= p < open@.len() ==> (#[trigger] open@[p])@.len() > 0
                        && open@[p]@.last().start <= open@[p]@.last().end <= classes@.len(),
                continued(classes@, run_lists(open@), *next) == continued(
                    classes@,
                    run_lists(open@).take(p as int),
                    *next,
                ),
            decreases p,
        {
            p -= 1;
            let ghost lists = run_lists(open@);
            let last: &LevelRun = &open[p][open[p].len() - 1];
            proof {
                reveal(linked);
                assert(lists.take(p + 1).last() == open@[p as int]@);
                assert(lists.take(p + 1).drop_last() =~= lists.take(p as int));
            }
            if find_last_kept(classes, last) == Some(opener) {
                let sequence = open.remove(p);
                proof {
                    assert(run_lists(open@) =~= lists.remove(p as int));
                }
                return sequence;
            }
        }
    } else {
        proof {
            lemma_not_continued(classes@, run_lists(open@), *next);
        }
    }
    Vec::new()
}

/// Only a PDI that matches an isolate initiator continues a sequence.
proof fn lemma_not_continued(
    classes: Seq<BidiClass>,
    open: Seq<Seq<LevelRun>>,
    next: LevelRun,
)
    requires
        classes[next.start as int] != BidiClass::PDI || innermost_isolate(
            classes,
            next.start as int,
        ) is None,
    ensures
        continued(classes, open, next) is None,
    decreases open.len(),
{
    reveal(linked);
    if open.len() > 0 {
        lemma_not_continued(classes, open.drop_last(), next);
    }
}

/// The open sequences on a stack.
spec fn on_stack(stack: Seq<Vec<LevelRun>>) -> Assembly {
    Assembly { done: Seq::empty(), open: run_lists(stack) }
}

/// Put one more run into its sequence.
fn add_run(
    para_level: u8,
    initial_classes: &[BidiClass],
    levels: &[u8],
    next: &LevelRun,
    stack: &mut Vec<Vec<LevelRun>>,
    isolates: &mut Vec<usize>,
    sequences: &mut Vec<IsolatingRunSequence>,
)
    requires
        levels@.len() == initial_classes@.len(),
        next.start < next.end <= initial_classes@.len(),
        holds_open_isolates(old(isolates)@, initial_classes@, next.start as int),
        forall|p: int|
            0 <= p < old(stack)@.len() ==> (#[trigger] old(stack)@[p])@.len() > 0 && old(
                stack,
            )@[p]@.last().start <= old(stack)@[p]@.last().end <= initial_classes@.len(),
        in_text_order(
            on_stack(old(stack)@).extended(initial_classes@, *next),
            levels@.len() as int,
        ),
    ensures
        holds_open_isolates(final(isolates)@, initial_classes@, next.end as int),
        run_lists(final(stack)@) == on_stack(old(stack)@).after(initial_classes@, *next).open,
        sequence_views(final(sequences)@) == if ends_in_initiator(initial_classes@, *next) {
            sequence_views(old(sequences)@)
        } else {
            sequence_views(old(sequences)@).push(
                with_ends(
                    para_level,
                    initial_classes@,
                    levels@,
                    on_stack(old(stack)@).extended(initial_classes@, *next),
                ),
            )
        },
{
    // Continue a previous sequence interrupted by an isolate, or start a new sequence.
    let mut sequence = take_continued(stack, isolates, initial_classes, next);
    sequence.push(next.start..next.end);
    proof {
        assert(sequence@ =~= on_stack(old(stack)@).extended(initial_classes@, *next));
        assert(run_lists(stack@) =~= on_stack(old(stack)@).others(initial_classes@, *next));
    }
    pass_run(isolates, initial_classes, next.start, next.end);
    if run_ends_in_initiator(initial_classes, next) {
        // Resume this sequence after the isolate.
        let ghost lists = run_lists(stack@);
        stack.push(sequence);
        proof {
            assert(run_lists(stack@) =~= lists.push(sequence@));
        }
    } else {
        // This sequence is finished.
        let finished = determine_ends(para_level, initial_classes, levels, sequence);
        sequences.push(finished);
        proof {
            assert(sequence_views(sequences@) =~= sequence_views(old(sequences)@).push(finished@));
        }
    }
}

/// Compute the set of isolating run sequences.
///
/// An isolating run sequence is a maximal sequence of level runs such that for all level runs
/// except the last one in the sequence, the last character of the run is an isolate initiator
/// whose matching PDI is the first character of the next level run in the sequence.
///
/// Note: This function does *not* return the sequences in order by their first characters.
pub fn isolating_run_sequences(
    para_level: u8,
    initial_classes: &[BidiClass],
    levels: &[u8],
) -> (result: Vec<IsolatingRunSequence>)
    requires
        levels@.len() == initial_classes@.len(),
    ensures
        sequence_views(result@) == isolating_sequences(para_level, initial_classes@, levels@),
        are_isolating_run_sequences(
            sequence_runs(result@),
            initial_classes@,
            runs_of(levels@, initial_classes@),
        ),
        forall|a: int|
            0 <= a < result@.len() ==> (#[trigger] result@[a])@.wf(levels@.len() as int),
{
    let runs = level_runs(levels, initial_classes);
    let ghost classes = initial_classes@;
    let ghost n = classes.len() as int;
    let ghost ended = |runs: Seq<LevelRun>| with_ends(para_level, classes, levels@, runs);

    // Compute the set of isolating run sequences.
    // http://www.unicode.org/reports/tr9/#BD13
    let mut sequences: Vec<IsolatingRunSequence> = Vec::with_capacity(runs.len());

    // When we encounter an isolate initiator, we push the current sequence onto the
    // stack so we can resume it after the matching PDI.
    let mut stack: Vec<Vec<LevelRun>> = Vec::new();

    // The isolate initiators that are open where the current run starts.
    let mut isolates: Vec<usize> = Vec::new();

    for k in 0..runs.len()
        invariant
            levels@.len() == initial_classes@.len(),
            classes == initial_classes@,
            n == classes.len(),
            tiles(runs@, 0, n),
            ended == (|runs: Seq<LevelRun>| with_ends(para_level, classes, levels@, runs)),
            sequence_views(sequences@) == assembled(classes, runs@, k as int).done.map_values(
                ended,
            ),
            run_lists(stack@) == assembled(classes, runs@, k as int).open,
            holds_open_isolates(
                isolates@,
                classes,
                if k < runs.len() {
                    runs@[k as int].start as int
                } else {
                    n
                },
            ),
    {
        let ghost before = assembled(classes, runs@, k as int);
        let ghost after = assembled(classes, runs@, k + 1);
        proof {
            tiles_in_range(runs@, 0, n, k as int);
            assembled_in_text_order(classes, runs@, k as int);
            assembled_in_text_order(classes, runs@, k + 1);
            assert forall|p: int| 0 <= p < stack@.len() implies (#[trigger] stack@[p])@.len() > 0
                && stack@[p]@.last().start <= stack@[p]@.last().end <= n by {
                assert(stack@[p]@ == before.open[p]);
                assert(in_text_order(before.open[p], n));
            }
            assert(in_text_order(before.extended(classes, runs@[k as int]), n)) by {
                if ends_in_initiator(classes, runs@[k as int]) {
                    assert(after.open.last() == before.extended(classes, runs@[k as int]));
                } else {
                    assert(after.done.last() == before.extended(classes, runs@[k as int]));
                }
            }
        }
        add_run(
            para_level,
            initial_classes,
            levels,
            &runs[k],
            &mut stack,
            &mut isolates,
            &mut sequences,
        );
        proof {
            if !ends_in_initiator(classes, runs@[k as int]) {
                assert(after.done.map_values(ended) =~= before.done.map_values(ended).push(
                    ended(after.done.last()),
                ));
            }
        }
    }
    let ghost all = assembled(classes, runs@, runs@.len() as int);
    let ghost expected = sequences_of(classes, runs@);
    proof {
        assert(sequence_views(sequences@) =~= expected.take(all.done.len() as int).map_values(
            ended,
        ));
        assembled_in_text_order(classes, runs@, runs@.len() as int);
    }
    // Pop any remaning sequences off the stack.
    loop
        invariant_except_break
            run_lists(stack@) == all.open.take(stack@.len() as int),
            sequence_views(sequences@) == expected.take(expected.len() - stack@.len()).map_values(
                ended,
            ),
            stack@.len() <= all.open.len(),
        invariant
            levels@.len() == initial_classes@.len(),
            classes == initial_classes@,
            n == classes.len(),
            expected == all.done + all.open.reverse(),
            ended == (|runs: Seq<LevelRun>| with_ends(para_level, classes, levels@, runs)),
            forall|a: int|
                0 <= a < all.open.len() ==> in_text_order(#[trigger] all.open[a], n)
                    && all.open[a].len() > 0,
        ensures
            sequence_views(sequences@) == expected.map_values(ended),
        decreases stack.len(),
    {
        let ghost lists = run_lists(stack@);
        let ghost views = sequence_views(sequences@);
        match stack.pop() {
            Some(sequence) => {
                let ghost k = lists.len() - 1;
                proof {
                    assert(lists[k] == sequence@);
                    assert(all.open[k] == sequence@);
                    assert(expected[expected.len() - 1 - k] == sequence@);
                    assert(run_lists(stack@) =~= all.open.take(k));
                }
                let finished = determine_ends(para_level, initial_classes, levels, sequence);
                sequences.push(finished);
                proof {
                    assert(sequence_views(sequences@) =~= views.push(finished@));
                    assert(expected.take(expected.len() - k).map_values(ended) =~= expected.take(
                        expected.len() - 1 - k,
                    ).map_values(ended).push(finished@));
                }
            },
            None => {
                proof {
                    assert(expected.take(expected.len() as int) =~= expected);
                }
                break;
            },
        }
    }
    proof {
        let views = isolating_sequences(para_level, classes, levels@);
        assert(sequence_views(sequences@) =~= views);
        isolating_sequences_well_formed(para_level, classes, levels@);
        sequences_are_isolating_run_sequences(classes, runs@);
        assert forall|a: int| 0 <= a < sequences@.len() implies (#[trigger] sequences@[a])@
            == views[a] by {
            assert(sequence_views(sequences@)[a] == views[a]);
        }
        assert(sequence_runs(sequences@) =~= expected) by {
            assert forall|a: int| 0 <= a < expected.len() implies #[trigger] sequence_runs(
                sequences@,
            )[a] == expected[a] by {
                assert(sequences@[a]@ == views[a]);
                assert(views[a].runs == expected[a]) by {
                    reveal(with_ends);
                }
            }
        }
    }
    sequences
}

} // verus!
