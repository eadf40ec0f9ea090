//! Embedding levels and runs of them.
use std::ops::Range;

use vstd::prelude::*;

use crate::tables::BidiClass;

verus! {

/// A maximal substring of characters with the same embedding level.
///
/// Represented as a range of char indices within a paragraph.
pub type LevelRun = Range<usize>;

/// The run of the characters from `start` up to but not including `end`.
pub open spec fn run(start: int, end: int) -> LevelRun {
    Range { start: start as usize, end: end as usize }
}

/// Do the runs cover the characters from `from` to `to`, in order, without gaps or empty runs?
pub open spec fn tiles(runs: Seq<LevelRun>, from: int, to: int) -> bool {
    &&& forall|k: int| 0 <= k < runs.len() ==> (#[trigger] runs[k]).start < runs[k].end
    &&& forall|j: int, k: int|
        0 <= j < runs.len() - 1 && k == j + 1 ==> (#[trigger] runs[j]).end == (
        #[trigger] runs[k]).start
    &&& runs.len() == 0 ==> from == to
    &&& runs.len() > 0 ==> runs[0].start == from && runs.last().end == to
}

/// Runs that cover a text follow each other.
pub proof fn tiles_in_order(runs: Seq<LevelRun>, from: int, to: int, j: int, k: int)
    requires
        tiles(runs, from, to),
        0 <= j < k < runs.len(),
    ensures
        runs[j].end <= runs[k].start,
    decreases k,
{
    if j < k - 1 {
        tiles_in_order(runs, from, to, j, k - 1);
        assert(runs[k - 1].end == runs[k].start);
        assert(runs[k - 1].start < runs[k - 1].end);
    }
}

/// Runs that cover a text lie in it.
pub proof fn tiles_in_range(runs: Seq<LevelRun>, from: int, to: int, k: int)
    requires
        tiles(runs, from, to),
        0 <= k < runs.len(),
    ensures
        from <= runs[k].start < runs[k].end <= to,
{
    if k > 0 {
        tiles_in_order(runs, from, to, 0, k);
    }
    if k < runs.len() - 1 {
        tiles_in_order(runs, from, to, k, runs.len() - 1);
    }
}

/// Every character of a text lies in one of the runs that cover it.
pub proof fn tiles_cover(runs: Seq<LevelRun>, from: int, to: int, i: int) -> (k: int)
    requires
        tiles(runs, from, to),
        from <= i < to,
    ensures
        0 <= k < runs.len(),
        runs[k].start <= i < runs[k].end,
    decreases runs.len(),
{
    let last = runs.last();
    if last.start <= i {
        runs.len() - 1
    } else {
        let rest = runs.drop_last();
        assert(runs[runs.len() - 1].start > from);
        assert(rest.last() == runs[runs.len() - 2]);
        assert(tiles(rest, from, last.start as int));
        tiles_cover(rest, from, last.start as int, i)
    }
}

/// A character lies in only one of the runs that cover a text.
pub proof fn tiles_apart(runs: Seq<LevelRun>, from: int, to: int, j: int, k: int, i: int)
    requires
        tiles(runs, from, to),
        0 <= j < runs.len(),
        0 <= k < runs.len(),
        runs[j].start <= i < runs[j].end,
        runs[k].start <= i < runs[k].end,
    ensures
        j == k,
{
    if j < k {
        tiles_in_order(runs, from, to, j, k);
    } else if k < j {
        tiles_in_order(runs, from, to, k, j);
    }
}

/// Even levels are left-to-right, and odd levels are right-to-left.
pub open spec fn rtl(level: u8) -> bool {
    level % 2 == 1
}

/// Even levels are left-to-right, and odd levels are right-to-left.
///
/// http://www.unicode.org/reports/tr9/#BD2
pub fn is_rtl(level: u8) -> (result: bool)
    ensures
        result == rtl(level),
{
    level % 2 == 1
}

/// The strong class in the direction of a level.
pub open spec fn direction(level: u8) -> BidiClass {
    if rtl(level) {
        BidiClass::R
    } else {
        BidiClass::L
    }
}

/// Generate a character type based on a level (as specified in steps X10 and N2).
pub fn class_for_level(level: u8) -> (class: BidiClass)
    ensures
        class == direction(level),
{
    if is_rtl(level) {
        BidiClass::R
    } else {
        BidiClass::L
    }
}

} // verus!
