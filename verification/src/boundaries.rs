//! Where level runs start, and how they follow each other in isolating run sequences.
use vstd::prelude::*;

use crate::isolates::{initiator, matching_pdi_is_unique};
use crate::level::{tiles, tiles_cover, tiles_in_order, tiles_in_range, LevelRun};
use crate::nesting::{
    isolates_opened, matching_pdi_by_counting, opens_isolate, pdis_met, stands_in,
};
use crate::order::visual_order_of_two_runs;
use crate::prepare::{
    kept_before, kept_before_is_kept, level_runs_are_maximal, removed, runs_of,
};
use crate::reorder::{line_runs, line_runs_are_maximal, shown_runs, visual_order_keeps_runs};
use crate::rules::ignored;
use crate::sequences::{
    last_kept, last_kept_in_run, linked, runs_in_contains,
    runs_in_finds, sequences_are_isolating_run_sequences, sequences_of,
};
use crate::tables::BidiClass;

verus! {

/// Does a run start at a character?
pub open spec fn starts_run(runs: Seq<LevelRun>, b: int) -> bool {
    exists|r: int| 0 <= r < runs.len() && (#[trigger] runs[r]).start == b
}

/// The runs of a paragraph of length `n`, or of a part of it, follow each other without gaps, and
/// none is empty.
pub open spec fn cover(runs: Seq<LevelRun>, from: int, to: int) -> bool {
    &&& from < to ==> runs.len() > 0 && runs[0].start == from && runs[runs.len() - 1].end == to
    &&& from >= to ==> runs.len() == 0
    &&& forall|r: int| 0 <= r < runs.len() ==> (#[trigger] runs[r]).start < runs[r].end
    &&& forall|q: int, r: int|
        0 <= q < r < runs.len() && r == q + 1 ==> (#[trigger] runs[q]).end == (
        #[trigger] runs[r]).start
}

proof fn lemma_cover(runs: Seq<LevelRun>, from: int, to: int)
    requires
        tiles(runs, from, to),
        from <= to,
    ensures
        cover(runs, from, to),
{
    if runs.len() > 0 {
        tiles_in_range(runs, from, to, 0);
        assert(runs.last() == runs[runs.len() - 1]);
    }
}

/// The level runs of a paragraph cover it. A run starts at its first character, and else just at
/// those characters that are not ignored and whose level differs from that of the last character
/// before them that is not ignored. Here `p` is the place of that character, or 0.
pub proof fn level_run_starts_where_level_changes(
    levels: Seq<u8>,
    classes: Seq<BidiClass>,
    p: int,
    b: int,
)
    requires
        levels.len() == classes.len(),
        levels.len() <= usize::MAX,
        0 <= p < b < levels.len(),
        p == 0 || !ignored(classes[p]),
        forall|m: int| p < m < b ==> ignored(#[trigger] classes[m]),
    ensures
        cover(runs_of(levels, classes), 0, levels.len() as int),
        starts_run(runs_of(levels, classes), b) <==> !ignored(classes[b]) && levels[b]
            != levels[p],
{
    let n = levels.len() as int;
    let runs = runs_of(levels, classes);
    level_runs_are_maximal(levels, classes, n);
    lemma_cover(runs, 0, n);
    let r = tiles_cover(runs, 0, n, b);
    let start = runs[r].start as int;
    assert(levels[start] == levels[runs[r].start as int]);
    if start < b {
        assert(start <= p) by {
            if p < start {
                assert(r > 0) by {
                    if r == 0 {
                        assert(runs[0].start == 0);
                    }
                }
                assert(ignored(classes[start]));
            }
        }
        assert(levels[p] == levels[start]);
        assert(!removed(classes[b]) ==> levels[b] == levels[start]);
        if starts_run(runs, b) {
            let q = choose|q: int| 0 <= q < runs.len() && (#[trigger] runs[q]).start == b;
            assert(runs[q].start < runs[q].end);
            if q < r {
                tiles_in_order(runs, 0, n, q, r);
            } else if r < q {
                tiles_in_order(runs, 0, n, r, q);
            }
        }
    } else {
        assert(starts_run(runs, b));
        assert(r > 0) by {
            if r == 0 {
                assert(runs[0].start == 0);
            }
        }
        let prev = runs[r - 1];
        assert(runs[r - 1].end == runs[r].start);
        assert(runs[r - 1].start < runs[r - 1].end);
        let first = prev.start as int;
        if p < first {
            assert(r - 1 > 0) by {
                if r - 1 == 0 {
                    assert(runs[0].start == 0);
                }
            }
            assert(ignored(classes[first]));
        }
        assert(levels[p] == levels[first]);
        assert(levels[runs[r - 1].start as int] != levels[runs[r].start as int]);
    }
}

/// The level runs of a line cover it, and a run starts just where the level changes.
pub proof fn line_run_starts_where_level_changes(levels: Seq<u8>, start: int, end: int, b: int)
    requires
        0 <= start < b < end <= levels.len() <= usize::MAX,
    ensures
        cover(line_runs(levels, start, end), start, end),
        starts_run(line_runs(levels, start, end), b) <==> levels[b] != levels[b - 1],
{
    let runs = line_runs(levels, start, end);
    line_runs_are_maximal(levels, start, end);
    lemma_cover(runs, start, end);
    let r = tiles_cover(runs, start, end, b);
    let first = runs[r].start as int;
    if first < b {
        assert(levels[b] == levels[first]);
        assert(levels[b - 1] == levels[first]);
        if starts_run(runs, b) {
            let q = choose|q: int| 0 <= q < runs.len() && (#[trigger] runs[q]).start == b;
            assert(runs[q].start < runs[q].end);
            if q < r {
                tiles_in_order(runs, start, end, q, r);
            } else if r < q {
                tiles_in_order(runs, start, end, r, q);
            }
        }
    } else {
        assert(starts_run(runs, b));
        assert(r > 0) by {
            if r == 0 {
                assert(runs[0].start == start);
            }
        }
        assert(runs[r - 1].end == runs[r].start);
        assert(runs[r - 1].start < runs[r - 1].end);
        assert(levels[b - 1] == levels[runs[r - 1].start as int]);
        assert(levels[runs[r - 1].start as int] != levels[runs[r].start as int]);
    }
}

/// An empty line, and any line of a paragraph with one level only, is shown as one run. The runs
/// of any other line are its level runs, in another order: of two of them the first comes first if
/// and only if the lowest level from one to the other is even. Here `a` and `b` are the places of
/// the level runs `j` and `k`, and `low` is the place of a character at the lowest level.
pub proof fn shown_runs_of_a_line(
    line: LevelRun,
    para_level: u8,
    max_level: u8,
    levels: Seq<u8>,
    j: int,
    k: int,
    low: int,
    a: int,
    b: int,
)
    requires
        line.start <= levels.len(),
        line.end <= levels.len(),
        levels.len() <= usize::MAX,
    ensures
        max_level == para_level || line.start >= line.end ==> shown_runs(
            line,
            para_level,
            max_level,
            levels,
        ) == seq![line],
        ({
            let runs = line_runs(levels, line.start as int, line.end as int);
            let shown = shown_runs(line, para_level, max_level, levels);
            max_level != para_level && line.start < line.end ==> {
                &&& shown.len() == runs.len()
                &&& shown.to_multiset() == runs.to_multiset()
                &&& 0 <= j < k < runs.len() && runs[j].start <= low < runs[k].end && (forall|m: int|
                    runs[j].start <= m < runs[k].end ==> levels[low] <= #[trigger] levels[m]) && 0
                    <= a < shown.len() && 0 <= b < shown.len() && shown[a] == runs[j] && shown[b]
                    == runs[k] ==> (a < b <==> levels[low] % 2 == 0)
            }
        }),
{
    if max_level != para_level && line.start < line.end {
        let start = line.start as int;
        let end = line.end as int;
        let runs = line_runs(levels, start, end);
        let shown = shown_runs(line, para_level, max_level, levels);
        visual_order_keeps_runs(levels, start, end);
        if 0 <= j < k < runs.len() && runs[j].start <= low < runs[k].end && (forall|m: int|
            runs[j].start <= m < runs[k].end ==> levels[low] <= #[trigger] levels[m]) && 0 <= a
            < shown.len() && 0 <= b < shown.len() && shown[a] == runs[j] && shown[b] == runs[k] {
            visual_order_of_two_runs(levels, start, end, j, k, low, a, b);
        }
    }
}

/// Is the last character of the first run that is not ignored an isolate initiator, and the first
/// character of the second run the PDI that closes the isolate?
pub open spec fn closes_after(
    classes: Seq<BidiClass>,
    first: LevelRun,
    second: LevelRun,
    l: int,
) -> bool {
    let j = second.start as int;
    &&& first.start <= l < first.end
    &&& !ignored(classes[l])
    &&& forall|m: int| l < m < first.end ==> ignored(#[trigger] classes[m])
    &&& classes[j] == BidiClass::PDI
    &&& stands_in(classes, l, j)
    &&& isolates_opened(classes, l + 1, j) == pdis_met(classes, l + 1, j)
}

proof fn lemma_linked(classes: Seq<BidiClass>, first: LevelRun, second: LevelRun)
    requires
        first.end <= classes.len(),
        second.start < classes.len(),
    ensures
        linked(classes, first, second) <==> exists|l: int|
            #[trigger] closes_after(classes, first, second, l),
{
    reveal(linked);
    let j = second.start as int;
    let end = first.end as int;
    kept_before_is_kept(classes, end);
    last_kept_in_run(classes, first);
    if linked(classes, first, second) {
        let l = last_kept(classes, first)->0;
        matching_pdi_by_counting(classes, l, j);
        assert forall|m: int| l < m < first.end implies ignored(#[trigger] classes[m]) by {
            assert(removed(classes[m]));
        }
        assert(closes_after(classes, first, second, l));
    }
    if exists|l: int| #[trigger] closes_after(classes, first, second, l) {
        let l = choose|l: int| #[trigger] closes_after(classes, first, second, l);
        matching_pdi_by_counting(classes, l, j);
        match kept_before(classes, end) {
            Some(k) => {
                if k < l {
                    assert(removed(classes[l]));
                } else if l < k {
                    assert(ignored(classes[k]));
                }
            },
            None => {
                assert(removed(classes[l]));
            },
        }
    }
}

/// Does the second run come next after the first in one of the sequences?
pub open spec fn comes_next(
    sequences: Seq<Seq<LevelRun>>,
    first: LevelRun,
    second: LevelRun,
) -> bool {
    exists|a: int, b: int|
        0 <= a < sequences.len() && 0 <= b < sequences[a].len() - 1 && #[trigger] sequences[a][b]
            == first && sequences[a][b + 1] == second
}

/// Of the level runs of a paragraph one comes next after another in an isolating run sequence just
/// where the first ends in an isolate initiator whose isolate is closed by the PDI that the second
/// starts with.
pub proof fn run_comes_next_behind_isolate(
    levels: Seq<u8>,
    classes: Seq<BidiClass>,
    j: int,
    k: int,
)
    requires
        levels.len() == classes.len(),
        levels.len() <= usize::MAX,
        0 <= j < runs_of(levels, classes).len(),
        0 <= k < runs_of(levels, classes).len(),
    ensures
        ({
            let runs = runs_of(levels, classes);
            comes_next(sequences_of(classes, runs), runs[j], runs[k]) <==> exists|l: int|
                #[trigger] closes_after(classes, runs[j], runs[k], l)
        }),
{
    let n = levels.len() as int;
    let runs = runs_of(levels, classes);
    let sequences = sequences_of(classes, runs);
    level_runs_are_maximal(levels, classes, n);
    sequences_are_isolating_run_sequences(classes, runs);
    tiles_in_range(runs, 0, n, j);
    tiles_in_range(runs, 0, n, k);
    lemma_linked(classes, runs[j], runs[k]);
    if comes_next(sequences, runs[j], runs[k]) {
        let (a, b) = choose|a: int, b: int|
            0 <= a < sequences.len() && 0 <= b < sequences[a].len() - 1
                && #[trigger] sequences[a][b] == runs[j] && sequences[a][b + 1] == runs[k];
        assert(linked(classes, sequences[a][b], sequences[a][b + 1]));
    }
    if linked(classes, runs[j], runs[k]) {
        runs.to_multiset_ensures();
        assert(runs.contains(runs[j]));
        let a = runs_in_finds(sequences, runs[j]);
        let b = sequences[a].index_of(runs[j]);
        assert(sequences[a][b] == runs[j]);
        if b == sequences[a].len() - 1 {
            assert(sequences[a].last() == runs[j]);
            assert(!linked(classes, sequences[a].last(), runs[k]));
        } else {
            let next = sequences[a][b + 1];
            assert(linked(classes, sequences[a][b], next));
            runs_in_contains(sequences, a, b + 1);
            assert(runs.contains(next));
            let m = runs.index_of(next);
            tiles_in_range(runs, 0, n, m);
            assert(next.start == runs[k].start) by {
                reveal(linked);
                let l = last_kept(classes, runs[j])->0;
                matching_pdi_is_unique(
                    classes,
                    l,
                    next.start as int,
                    runs[k].start as int,
                );
            }
            if m < k {
                tiles_in_order(runs, 0, n, m, k);
            } else if k < m {
                tiles_in_order(runs, 0, n, k, m);
            }
            assert(next == runs[k]);
            assert(comes_next(sequences, runs[j], runs[k]));
        }
    }
}

/// The classes that open isolates are LRI, RLI and FSI.
pub proof fn isolate_initiators(class: BidiClass)
    ensures
        initiator(class) <==> opens_isolate(class),
{
}

} // verus!
