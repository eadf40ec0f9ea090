//! 3.4 Reordering Resolved Levels
//!
//! http://www.unicode.org/reports/tr9/#Reordering_Resolved_Levels
use std::borrow::Cow;
use std::ops::Range;

use vstd::prelude::*;
use vstd::string::*;

use crate::implicit::{highest, highest_is_greatest};
use crate::level::{is_rtl, rtl, run, tiles, tiles_in_range, LevelRun};
use crate::paragraph::ParagraphInfo;
use crate::reversal::{
    even_levels_stay, high_stretch_is, one_odd_level_turns, reordered, reordered_same_items,
    stretches_reversed,
};
use crate::visual::{
    laid_out, laid_out_append, laid_out_one, laid_out_same, reordered_runs_reorder_characters,
    run_laid_out, span, tiles_laid_out, turned, uniform,
};

verus! {

/// The level runs of the characters from `start` up to `end`: a new run starts where the level
/// changes.
pub open spec fn line_runs(levels: Seq<u8>, start: int, end: int) -> Seq<LevelRun>
    decreases end - start,
{
    if end <= start {
        Seq::empty()
    } else {
        let before = line_runs(levels, start, end - 1);
        if before.len() == 0 || levels[end - 1] != levels[end - 2] {
            before.push(run(end - 1, end))
        } else {
            before.drop_last().push(run(before.last().start as int, end))
        }
    }
}

/// The lowest of some levels; the highest number there is where there are none.
pub open spec fn lowest(levels: Seq<u8>) -> u8
    decreases levels.len(),
{
    if levels.len() == 0 {
        u8::MAX
    } else if levels.last() <= lowest(levels.drop_last()) {
        levels.last()
    } else {
        lowest(levels.drop_last())
    }
}

/// The lowest odd level at a level or above it.
pub open spec fn odd_from(level: u8) -> int {
    if rtl(level) {
        level as int
    } else {
        level + 1
    }
}

/// The level of a run.
pub open spec fn run_level(levels: Seq<u8>) -> spec_fn(LevelRun) -> u8 {
    |r: LevelRun| levels[r.start as int]
}

/// L2 on runs: the level runs from `start` up to `end` in visual order.
pub open spec fn visual_order(levels: Seq<u8>, start: int, end: int) -> Seq<LevelRun> {
    let line = levels.subrange(start, end);
    reordered(
        line_runs(levels, start, end),
        run_level(levels),
        highest(line) as int,
        odd_from(lowest(line)),
    )
}

/// The lowest level is one of the levels, and none is below it.
pub proof fn lowest_is_least(levels: Seq<u8>)
    ensures
        forall|i: int| 0 <= i < levels.len() ==> lowest(levels) <= #[trigger] levels[i],
        levels.len() > 0 ==> levels.contains(lowest(levels)),
    decreases levels.len(),
{
    if levels.len() > 0 {
        let rest = levels.drop_last();
        lowest_is_least(rest);
        assert forall|i: int| 0 <= i < levels.len() implies lowest(levels)
            <= #[trigger] levels[i] by {
            if i < rest.len() {
                assert(lowest(rest) <= rest[i]);
            }
        }
        if lowest(levels) == levels.last() {
            assert(levels[levels.len() - 1] == lowest(levels));
        } else {
            assert(rest.len() > 0);
            assert(levels[rest.index_of(lowest(rest))] == lowest(levels));
        }
    }
}

/// The level runs of a line cover it, have one level each, and could not be longer.
pub proof fn line_runs_are_maximal(levels: Seq<u8>, start: int, end: int)
    requires
        0 <= start <= end <= levels.len() <= usize::MAX,
    ensures
        tiles(line_runs(levels, start, end), start, end),
        uniform(line_runs(levels, start, end), levels),
        forall|j: int, k: int|
            0 <= j < line_runs(levels, start, end).len() - 1 && k == j + 1 ==> levels[(
            #[trigger] line_runs(levels, start, end)[j]).start as int] != levels[(
            #[trigger] line_runs(levels, start, end)[k]).start as int],
    decreases end - start,
{
    if start < end {
        line_runs_are_maximal(levels, start, end - 1);
        let before = line_runs(levels, start, end - 1);
        let all = line_runs(levels, start, end);
        if before.len() > 0 {
            assert(levels[end - 2] == levels[before.last().start as int]);
        }
        assert forall|k: int| 0 <= k < all.len() - 1 implies #[trigger] all[k] == before[k] by {}
        assert(uniform(all, levels)) by {
            assert forall|k: int|
                #![trigger all[k]]
                0 <= k < all.len() implies all[k].start < all[k].end <= levels.len() && (forall|
                i: int,
            |
                all[k].start <= i < all[k].end ==> #[trigger] levels[i] == levels[
                    all[k].start as int
                ]) by {
                if k < all.len() - 1 {
                    assert(all[k] == before[k]);
                } else if all.len() == before.len() {
                    assert(before.last() == before[k]);
                }
            }
        }
    }
}

/// Reverse the runs from `start` up to `end`.
fn reverse_runs(runs: &mut Vec<LevelRun>, start: usize, end: usize)
    requires
        start <= end <= old(runs)@.len(),
    ensures
        final(runs)@ == old(runs)@.take(start as int) + old(runs)@.subrange(
            start as int,
            end as int,
        ).reverse() + old(runs)@.skip(end as int),
{
    let ghost before = runs@;
    let mut i: usize = start;
    let mut j: usize = end;
    while i < j && i < j - 1
        invariant
            start <= i <= j <= end <= before.len(),
            i - start == end - j,
            runs@.len() == before.len(),
            forall|k: int|
                0 <= k < before.len() ==> #[trigger] runs@[k] == if start <= k < i || j <= k < end {
                    before[start + end - 1 - k]
                } else {
                    before[k]
                },
        decreases j - i,
    {
        j -= 1;
        let first: LevelRun = runs[i].start..runs[i].end;
        let last: LevelRun = runs[j].start..runs[j].end;
        runs[i] = last;
        runs[j] = first;
        i += 1;
    }
    proof {
        assert(runs@ =~= before.take(start as int) + before.subrange(
            start as int,
            end as int,
        ).reverse() + before.skip(end as int));
    }
}

/// Reverse each sequence of consecutive runs of a level or higher.
fn reverse_high_runs(runs: &mut Vec<LevelRun>, levels: &[u8], level: u8)
    requires
        forall|k: int| 0 <= k < old(runs)@.len() ==> (#[trigger] old(runs)@[k]).start < levels@.len(),
    ensures
        final(runs)@ == stretches_reversed(
            old(runs)@,
            |r: LevelRun| run_level(levels@)(r) >= level as int,
        ),
        final(runs)@.len() == old(runs)@.len(),
        forall|k: int|
            0 <= k < final(runs)@.len() ==> (#[trigger] final(runs)@[k]).start < levels@.len(),
{
    let run_count: usize = runs.len();
    let ghost before = runs@;
    let ghost high = |r: LevelRun| run_level(levels@)(r) >= level as int;

    // Look for the start of a sequence of consecutive runs of `level` or higher.
    let mut seq_start: usize = 0;
    proof {
        assert(before.skip(0) =~= before);
        assert(runs@.take(0) + stretches_reversed(before, high) =~= stretches_reversed(
            before,
            high,
        ));
    }
    while seq_start < run_count
        invariant
            run_count == before.len(),
            runs@.len() == before.len(),
            seq_start <= run_count,
            high == (|r: LevelRun| run_level(levels@)(r) >= level as int),
            forall|k: int| 0 <= k < before.len() ==> (#[trigger] before[k]).start < levels@.len(),
            forall|k: int| 0 <= k < runs@.len() ==> (#[trigger] runs@[k]).start < levels@.len(),
            forall|k: int| seq_start <= k < runs@.len() ==> #[trigger] runs@[k] == before[k],
            stretches_reversed(before, high) == runs@.take(seq_start as int) + stretches_reversed(
                before.skip(seq_start as int),
                high,
            ),
        decreases run_count - seq_start,
    {
        let ghost rest = before.skip(seq_start as int);
        let ghost done = runs@.take(seq_start as int);
        proof {
            assert(runs@[seq_start as int] == before[seq_start as int]);
            assert(rest[0] == before[seq_start as int]);
        }
        if levels[runs[seq_start].start] < level {
            proof {
                assert(!high(rest[0]));
                high_stretch_is(rest, high, 0);
                assert(rest.skip(1) =~= before.skip(seq_start + 1));
                assert(runs@.take(seq_start + 1) =~= done.push(rest[0]));
                assert(done + (seq![rest[0]] + stretches_reversed(rest.skip(1), high))
                    =~= done.push(rest[0]) + stretches_reversed(rest.skip(1), high));
            }
            seq_start += 1;
            continue;
        }
        // Found the start of a sequence. Now find the end.

        let mut seq_end: usize = seq_start + 1;
        while seq_end < run_count
            invariant_except_break
                forall|k: int| seq_start <= k < seq_end ==> high(#[trigger] before[k]),
            invariant
                run_count == before.len(),
                runs@.len() == before.len(),
                seq_start < seq_end <= run_count,
                high == (|r: LevelRun| run_level(levels@)(r) >= level as int),
                forall|k: int| 0 <= k < runs@.len() ==> (#[trigger] runs@[k]).start < levels@.len(),
                forall|k: int| seq_start <= k < runs@.len() ==> #[trigger] runs@[k] == before[k],
            ensures
                forall|k: int| seq_start <= k < seq_end ==> high(#[trigger] before[k]),
                seq_end < run_count ==> !high(before[seq_end as int]),
            decreases run_count - seq_end,
        {
            proof {
                assert(runs@[seq_end as int] == before[seq_end as int]);
            }
            if levels[runs[seq_end].start] < level {
                break;
            }
            seq_end += 1;
        }

        // Reverse the runs within this sequence.
        let ghost unreversed = runs@;
        reverse_runs(runs, seq_start, seq_end);
        proof {
            let n = seq_end - seq_start;
            assert forall|i: int| 0 <= i < n implies high(#[trigger] rest[i]) by {
                assert(rest[i] == before[seq_start + i]);
            }
            high_stretch_is(rest, high, n);
            assert(rest.skip(n) =~= before.skip(seq_end as int));
            assert(rest.take(n) =~= unreversed.subrange(seq_start as int, seq_end as int));
            assert(runs@.take(seq_end as int) =~= done + rest.take(n).reverse());
            assert(done + (rest.take(n).reverse() + stretches_reversed(rest.skip(n), high))
                =~= done + rest.take(n).reverse() + stretches_reversed(rest.skip(n), high));
            assert forall|k: int| 0 <= k < runs@.len() implies (#[trigger] runs@[k]).start
                < levels@.len() by {
                if seq_start <= k < seq_end {
                    assert(runs@[k] == unreversed[seq_start + seq_end - 1 - k]);
                } else {
                    assert(runs@[k] == unreversed[k]);
                }
            }
        }
        seq_start = seq_end;
    }
    proof {
        assert(before.skip(run_count as int) =~= Seq::empty());
        assert(stretches_reversed(before.skip(run_count as int), high) =~= Seq::empty());
        assert(runs@ =~= stretches_reversed(before, high));
    }
}

/// L2: the characters from `start` up to `end` in display order. From the highest level on the
/// line down to the lowest odd level, each contiguous stretch of characters that are at that
/// level or above is reversed.
pub open spec fn display_order(levels: Seq<u8>, start: int, end: int) -> Seq<int> {
    let line = levels.subrange(start, end);
    reordered(
        span(start, end),
        |i: int| levels[i],
        highest(line) as int,
        odd_from(lowest(line)),
    )
}

/// The runs that are laid out from right to left.
pub open spec fn backwards(levels: Seq<u8>) -> spec_fn(LevelRun) -> bool {
    |r: LevelRun| rtl(levels[r.start as int])
}

/// The runs of a line in visual order, with the characters of the right-to-left ones backwards,
/// put the characters of the line in display order.
pub proof fn visual_order_gives_display_order(levels: Seq<u8>, start: int, end: int)
    requires
        0 <= start < end <= levels.len() <= usize::MAX,
    ensures
        laid_out(visual_order(levels, start, end), backwards(levels)) == display_order(
            levels,
            start,
            end,
        ),
{
    let line = levels.subrange(start, end);
    let runs = line_runs(levels, start, end);
    let hi = highest(line) as int;
    let lo = odd_from(lowest(line));
    let order = visual_order(levels, start, end);
    highest_is_greatest(line);
    lowest_is_least(line);
    assert(line[0] == levels[start]);
    line_runs_are_maximal(levels, start, end);
    assert(run_level(levels) =~= (|r: LevelRun| levels[r.start as int]));
    reordered_runs_reorder_characters(runs, levels, hi, lo);
    assert forall|k: int| 0 <= k < runs.len() implies lowest(line) <= levels[(
    #[trigger] runs[k]).start as int] <= hi by {
        tiles_in_range(runs, start, end, k);
        assert(line[runs[k].start - start] == levels[runs[k].start as int]);
    }
    assert forall|k: int| 0 <= k < runs.len() implies !turned(levels, hi + 1)(
        #[trigger] runs[k],
    ) by {}
    tiles_laid_out(runs, turned(levels, hi + 1), start, end);
    reordered_same_items(runs, run_level(levels), hi, lo);
    assert forall|k: int| 0 <= k < order.len() implies backwards(levels)(#[trigger] order[k])
        == turned(levels, lo)(order[k]) by {
        order.to_multiset_ensures();
        runs.to_multiset_ensures();
        assert(order.contains(order[k]));
        assert(runs.to_multiset().count(order[k]) > 0);
        let q = runs.index_of(order[k]);
        assert(runs[q] == order[k]);
    }
    laid_out_same(order, backwards(levels), turned(levels, lo));
}

/// Display order shows every character of a line once.
pub proof fn display_order_keeps_characters(levels: Seq<u8>, start: int, end: int)
    requires
        0 <= start <= end <= levels.len(),
    ensures
        display_order(levels, start, end).len() == end - start,
        display_order(levels, start, end).to_multiset() == span(start, end).to_multiset(),
{
    let line = levels.subrange(start, end);
    reordered_same_items(
        span(start, end),
        |i: int| levels[i],
        highest(line) as int,
        odd_from(lowest(line)),
    );
}

/// Visual order shows every level run of a line once.
pub proof fn visual_order_keeps_runs(levels: Seq<u8>, start: int, end: int)
    requires
        0 <= start <= end <= levels.len(),
    ensures
        visual_order(levels, start, end).len() == line_runs(levels, start, end).len(),
        visual_order(levels, start, end).to_multiset() == line_runs(
            levels,
            start,
            end,
        ).to_multiset(),
{
    let line = levels.subrange(start, end);
    reordered_same_items(
        line_runs(levels, start, end),
        run_level(levels),
        highest(line) as int,
        odd_from(lowest(line)),
    );
}

/// A line without right-to-left levels is shown as it is.
pub proof fn ltr_line_is_unchanged(levels: Seq<u8>, start: int, end: int)
    requires
        0 <= start <= end <= levels.len(),
        forall|i: int| start <= i < end ==> !rtl(#[trigger] levels[i]),
    ensures
        display_order(levels, start, end) == span(start, end),
{
    let line = levels.subrange(start, end);
    let of_char = |i: int| levels[i];
    highest_is_greatest(line);
    lowest_is_least(line);
    if start < end {
        let top = line.index_of(highest(line));
        let bottom = line.index_of(lowest(line));
        assert(levels[start + top] == highest(line));
        assert(levels[start + bottom] == lowest(line));
        assert forall|k: int| 0 <= k < span(start, end).len() implies of_char(
            #[trigger] span(start, end)[k],
        ) % 2 == 0 by {
            assert(!rtl(levels[start + k]));
        }
        even_levels_stay(
            span(start, end),
            of_char,
            highest(line) as int,
            odd_from(lowest(line)),
        );
    }
}

/// A line at one right-to-left level is shown in reverse.
pub proof fn rtl_line_is_reversed(levels: Seq<u8>, start: int, end: int)
    requires
        0 <= start < end <= levels.len(),
        rtl(levels[start]),
        forall|i: int| start <= i < end ==> #[trigger] levels[i] == levels[start],
    ensures
        display_order(levels, start, end) == span(start, end).reverse(),
{
    let line = levels.subrange(start, end);
    let of_char = |i: int| levels[i];
    highest_is_greatest(line);
    lowest_is_least(line);
    let top = line.index_of(highest(line));
    let bottom = line.index_of(lowest(line));
    assert(levels[start + top] == highest(line));
    assert(levels[start + bottom] == lowest(line));
    assert forall|k: int| 0 <= k < span(start, end).len() implies of_char(
        #[trigger] span(start, end)[k],
    ) == levels[start] by {
        assert(levels[start + k] == levels[start]);
    }
    one_odd_level_turns(span(start, end), of_char, levels[start] as int);
}

/// The runs in which a line is shown, in visual order. Where the paragraph has one level only,
/// and where the line is empty, the line is one run.
pub open spec fn shown_runs(
    line: LevelRun,
    para_level: u8,
    max_level: u8,
    levels: Seq<u8>,
) -> Seq<LevelRun> {
    if max_level == para_level || line.start >= line.end {
        seq![line]
    } else {
        visual_order(levels, line.start as int, line.end as int)
    }
}

/// Find the level runs within a line and return them in visual order.
///
/// `line` is a range of char indices within `paragraph`.
///
/// http://www.unicode.org/reports/tr9/#Reordering_Resolved_Levels
pub fn visual_runs(line: Range<usize>, para_level: u8, max_level: u8, levels: &[u8]) -> (result:
    Vec<LevelRun>)
    requires
        line.start <= levels@.len(),
        line.end <= levels@.len(),
        max_level >= para_level,
    ensures
        result@ == shown_runs(line, para_level, max_level, levels@),
{
    let mut runs: Vec<LevelRun> = Vec::with_capacity((max_level - para_level) as usize + 1);

    // Optimization: If there's only one level, just return a single run for the whole line.
    if max_level == para_level || line.start >= line.end {
        runs.push(line);
        proof {
            assert(runs@ =~= seq![line]);
        }
        return runs;
    }
    let ghost from = line.start as int;
    let ghost to = line.end as int;
    proof {
        assert(levels.len() == levels@.len());
        line_runs_are_maximal(levels@, from, to);
    }

    // Find consecutive level runs.
    let mut start: usize = line.start;
    let mut level: u8 = levels[start];
    let mut min_level: u8 = level;
    let mut max_level: u8 = level;

    proof {
        reveal_with_fuel(line_runs, 2);
        reveal_with_fuel(highest, 2);
        reveal_with_fuel(lowest, 2);
        let first = levels@.subrange(from, from + 1);
        assert(first.drop_last() =~= Seq::empty());
        assert(line_runs(levels@, from, from + 1) =~= runs@.push(run(from, from + 1)));
    }
    for i in (line.start + 1)..line.end
        invariant
            line.start == from,
            line.end == to,
            line.start < i <= line.end <= levels@.len(),
            from <= start < i,
            level == levels@[i - 1],
            line_runs(levels@, from, i as int) == runs@.push(run(start as int, i as int)),
            min_level == lowest(levels@.subrange(from, i as int)),
            max_level == highest(levels@.subrange(from, i as int)),
    {
        let new_level: u8 = levels[i];
        proof {
            let seen = levels@.subrange(from, i as int);
            assert(levels@.subrange(from, i + 1).drop_last() =~= seen);
            highest_is_greatest(seen);
            lowest_is_least(seen);
            assert(seen[i - 1 - from] == level);
            assert(runs@.push(run(start as int, i as int)).drop_last() =~= runs@);
        }
        if new_level != level {
            // End of the previous run, start of a new one.
            runs.push(start..i);
            start = i;
            level = new_level;

            if level < min_level {
                min_level = level;
            }
            if level > max_level {
                max_level = level;
            }
        }
    }
    runs.push(start..line.end);

    // Re-order the odd runs.
    // http://www.unicode.org/reports/tr9/#L2

    let ghost hi = max_level as int;
    let ghost lo = odd_from(min_level);
    proof {
        let all = levels@.subrange(from, to);
        highest_is_greatest(all);
        lowest_is_least(all);
        assert(all[0] == levels@[from]);
        assert(min_level | 1 == if min_level % 2 == 1 {
            min_level as int
        } else {
            min_level + 1
        }) by (bit_vector);
        assert forall|k: int| 0 <= k < runs@.len() implies (#[trigger] runs@[k]).start
            < levels@.len() by {
            tiles_in_range(runs@, from, to, k);
        }
    }
    // Stop at the lowest *odd* level.
    min_level = min_level | 1;

    while max_level >= min_level
        invariant
            lo == min_level,
            min_level >= 1,
            hi >= max_level,
            visual_order(levels@, from, to) == reordered(
                runs@,
                run_level(levels@),
                max_level as int,
                lo,
            ),
            forall|k: int| 0 <= k < runs@.len() ==> (#[trigger] runs@[k]).start < levels@.len(),
        decreases max_level,
    {
        proof {
            assert((|r: LevelRun| run_level(levels@)(r) >= max_level as int) =~= (|x: LevelRun|
                run_level(levels@)(x) >= max_level));
        }
        reverse_high_runs(&mut runs, levels, max_level);
        max_level -= 1;
    }
    runs
}

/// The characters of a text at some indices.
pub open spec fn characters(text: Seq<char>, indices: Seq<int>) -> Seq<char> {
    indices.map_values(|i: int| text[i])
}

/// The same indices in another order give the same characters in another order.
proof fn lemma_same_characters(text: Seq<char>, left: Seq<int>, right: Seq<int>)
    requires
        left.to_multiset() == right.to_multiset(),
    ensures
        characters(text, left).to_multiset() == characters(text, right).to_multiset(),
    decreases left.len(),
{
    left.to_multiset_ensures();
    right.to_multiset_ensures();
    let l = characters(text, left);
    let r = characters(text, right);
    if left.len() == 0 {
        assert(l =~= r);
    } else {
        let last = left.last();
        let p = right.index_of(last);
        assert(left.contains(left[left.len() - 1]));
        assert(left.to_multiset().count(last) > 0);
        assert(right.to_multiset().count(last) > 0);
        assert(right.contains(last));
        let rest = left.drop_last();
        let others = right.remove(p);
        assert(left =~= left.remove(left.len() - 1).push(last));
        assert(rest =~= left.remove(left.len() - 1));
        lemma_same_characters(text, rest, others);
        l.to_multiset_ensures();
        r.to_multiset_ensures();
        assert(characters(text, rest) =~= l.remove(l.len() - 1));
        assert(characters(text, others) =~= r.remove(p));
        assert(l[l.len() - 1] == r[p]);
        assert(l.contains(l[l.len() - 1]) && r.contains(r[p]));
        assert(l.to_multiset() =~= l.remove(l.len() - 1).to_multiset().insert(text[last]));
        assert(r.to_multiset() =~= r.remove(p).to_multiset().insert(text[last]));
    }
}

/// A line in display order has the characters of the line, each as often as it occurs.
pub proof fn display_keeps_characters(text: Seq<char>, levels: Seq<u8>, start: int, end: int)
    requires
        0 <= start <= end <= levels.len(),
        levels.len() == text.len(),
    ensures
        characters(text, display_order(levels, start, end)).to_multiset() == text.subrange(
            start,
            end,
        ).to_multiset(),
{
    display_order_keeps_characters(levels, start, end);
    lemma_same_characters(text, display_order(levels, start, end), span(start, end));
    assert(characters(text, span(start, end)) =~= text.subrange(start, end));
}

/// Append the characters of a text to a string, in reverse order: the second half of the text
/// before the first.
fn push_reversed(result: &mut String, text: &str)
    ensures
        final(result)@ == old(result)@ + text@.reverse(),
    decreases text@.len(),
{
    let len: usize = text.unicode_len();
    if len <= 1 {
        result.append(text);
        proof {
            assert(text@.reverse() =~= text@);
        }
    } else {
        let mid: usize = len / 2;
        let first = text.substring_char(0, mid);
        let second = text.substring_char(mid, len);
        push_reversed(result, second);
        push_reversed(result, first);
        proof {
            assert(text@ =~= first@ + second@);
            assert(text@.reverse() =~= second@.reverse() + first@.reverse());
            assert(result@ =~= old(result)@ + text@.reverse());
        }
    }
}

/// A line that is one run is that run in visual order.
proof fn lemma_one_run(levels: Seq<u8>, start: int, end: int)
    requires
        0 <= start < end <= levels.len() <= usize::MAX,
        forall|i: int| start <= i < end ==> #[trigger] levels[i] == levels[start],
    ensures
        visual_order(levels, start, end) == seq![run(start, end)],
    decreases end - start,
{
    lemma_one_line_run(levels, start, end);
    let line = levels.subrange(start, end);
    let runs = line_runs(levels, start, end);
    let order = visual_order(levels, start, end);
    reordered_same_items(
        runs,
        run_level(levels),
        highest(line) as int,
        odd_from(lowest(line)),
    );
    order.to_multiset_ensures();
    runs.to_multiset_ensures();
    assert(order.contains(order[0]));
    assert(runs.to_multiset().count(order[0]) > 0);
    assert(runs.contains(order[0]));
    assert(order =~= runs);
}

proof fn lemma_one_line_run(levels: Seq<u8>, start: int, end: int)
    requires
        0 <= start < end <= levels.len() <= usize::MAX,
        forall|i: int| start <= i < end ==> #[trigger] levels[i] == levels[start],
    ensures
        line_runs(levels, start, end) == seq![run(start, end)],
    decreases end - start,
{
    if start + 1 < end {
        lemma_one_line_run(levels, start, end - 1);
        assert(levels[end - 1] == levels[end - 2]);
    } else {
        assert(line_runs(levels, start, start) =~= Seq::empty());
    }
    assert(line_runs(levels, start, end) =~= seq![run(start, end)]);
}

/// Where the levels of a paragraph lie between its own and the highest one, the runs in which a
/// line is shown put its characters in display order.
pub proof fn shown_runs_give_display_order(info: ParagraphInfo, line: LevelRun)
    requires
        info.wf(),
        line.start < line.end <= info.levels@.len() <= usize::MAX,
    ensures
        laid_out(
            shown_runs(line, info.para_level, info.max_level, info.levels@),
            backwards(info.levels@),
        ) == display_order(info.levels@, line.start as int, line.end as int),
{
    let levels = info.levels@;
    visual_order_gives_display_order(levels, line.start as int, line.end as int);
    if info.max_level == info.para_level {
        assert forall|i: int| line.start <= i < line.end implies #[trigger] levels[i]
            == levels[line.start as int] by {
            assert(info.para_level <= levels[i] <= info.max_level);
        }
        lemma_one_run(levels, line.start as int, line.end as int);
        assert(run(line.start as int, line.end as int) == line);
    }
}

/// The runs in which a line is shown are not empty, and lie in the line.
proof fn lemma_shown_runs_in_line(
    line: LevelRun,
    para_level: u8,
    max_level: u8,
    levels: Seq<u8>,
    k: int,
)
    requires
        line.start < line.end <= levels.len() <= usize::MAX,
        0 <= k < shown_runs(line, para_level, max_level, levels).len(),
    ensures
        line.start <= shown_runs(line, para_level, max_level, levels)[k].start < shown_runs(
            line,
            para_level,
            max_level,
            levels,
        )[k].end <= line.end,
{
    if max_level != para_level {
        let start = line.start as int;
        let end = line.end as int;
        let sub = levels.subrange(start, end);
        let runs = line_runs(levels, start, end);
        let order = visual_order(levels, start, end);
        line_runs_are_maximal(levels, start, end);
        reordered_same_items(
            runs,
            run_level(levels),
            highest(sub) as int,
            odd_from(lowest(sub)),
        );
        order.to_multiset_ensures();
        runs.to_multiset_ensures();
        assert(order.contains(order[k]));
        assert(runs.to_multiset().count(order[k]) > 0);
        let q = runs.index_of(order[k]);
        assert(runs[q] == order[k]);
        tiles_in_range(runs, start, end, q);
    }
}

/// The characters of a run, forwards or backwards.
proof fn lemma_characters_of_run(text: Seq<char>, r: LevelRun, turned_round: bool)
    requires
        r.start < r.end <= text.len(),
    ensures
        characters(text, run_laid_out(r, turned_round)) == if turned_round {
            text.subrange(r.start as int, r.end as int).reverse()
        } else {
            text.subrange(r.start as int, r.end as int)
        },
{
    let part = text.subrange(r.start as int, r.end as int);
    assert(characters(text, span(r.start as int, r.end as int)) =~= part);
    assert(characters(text, span(r.start as int, r.end as int).reverse()) =~= part.reverse());
}

/// Re-order a line based on resolved levels.
///
/// `info` is the result of calling `process_paragraph` on `paragraph`.
/// `line` is a range of char indices within `paragraph`.
///
/// Returns the line in display order. It is borrowed from the paragraph where it is empty or one
/// left-to-right run.
pub fn reorder_line<'a>(
    paragraph: &'a str,
    line: Range<usize>,
    info: &ParagraphInfo,
) -> (result: Cow<'a, str>)
    requires
        info.levels@.len() == paragraph@.len(),
        line.start <= info.levels@.len(),
        line.end <= info.levels@.len(),
        line.start < line.end ==> info.max_level >= info.para_level,
    ensures
        result@ == if line.start < line.end {
            characters(
                paragraph@,
                laid_out(
                    shown_runs(line, info.para_level, info.max_level, info.levels@),
                    backwards(info.levels@),
                ),
            )
        } else {
            Seq::<char>::empty()
        },
        info.wf() && line.start < line.end ==> result@ == characters(
            paragraph@,
            display_order(info.levels@, line.start as int, line.end as int),
        ),
        result is Borrowed <==> line.start >= line.end || ({
            let runs = shown_runs(line, info.para_level, info.max_level, info.levels@);
            runs.len() == 1 && !rtl(info.levels@[runs[0].start as int])
        }),
{
    let ghost shown = line;
    let ghost levels = info.levels@;
    let start: usize = line.start;
    let end: usize = line.end;
    proof {
        assert(info.levels.len() == levels.len());
        if info.wf() && start < end {
            shown_runs_give_display_order(*info, line);
        }
    }
    if start >= end {
        return Cow::Borrowed(paragraph.substring_char(start, start));
    }
    let runs = visual_runs(line, info.para_level, info.max_level, &info.levels);
    proof {
        assert forall|k: int| 0 <= k < runs@.len() implies (#[trigger] runs@[k]).start
            < runs@[k].end <= levels.len() by {
            lemma_shown_runs_in_line(shown, info.para_level, info.max_level, levels, k);
        }
        if runs@.len() == 1 {
            assert(runs@ =~= seq![runs@[0]]);
            laid_out_one(runs@[0], backwards(levels));
            lemma_characters_of_run(paragraph@, runs@[0], rtl(levels[runs@[0].start as int]));
        }
    }
    if runs.len() == 1 && !is_rtl(info.levels[runs[0].start]) {
        return Cow::Borrowed(paragraph.substring_char(runs[0].start, runs[0].end));
    }
    let mut result = String::new();
    for k in 0..runs.len()
        invariant
            levels == info.levels@,
            levels.len() == paragraph@.len(),
            forall|k: int|
                0 <= k < runs@.len() ==> (#[trigger] runs@[k]).start < runs@[k].end <= levels.len(),
            result@ == characters(
                paragraph@,
                laid_out(runs@.take(k as int), backwards(levels)),
            ),
    {
        let slice = paragraph.substring_char(runs[k].start, runs[k].end);
        proof {
            let r = runs@[k as int];
            let shown_before = laid_out(runs@.take(k as int), backwards(levels));
            let added = run_laid_out(r, rtl(levels[r.start as int]));
            assert(runs@.take(k + 1) =~= runs@.take(k as int) + seq![r]);
            laid_out_append(runs@.take(k as int), seq![r], backwards(levels));
            laid_out_one(r, backwards(levels));
            lemma_characters_of_run(paragraph@, r, rtl(levels[r.start as int]));
            assert(characters(paragraph@, shown_before + added) =~= characters(
                paragraph@,
                shown_before,
            ) + characters(paragraph@, added));
        }
        if is_rtl(info.levels[runs[k].start]) {
            push_reversed(&mut result, slice);
        } else {
            result.append(slice);
        }
    }
    proof {
        assert(runs@.take(runs@.len() as int) =~= runs@);
    }
    Cow::Owned(result)
}

} // verus!
