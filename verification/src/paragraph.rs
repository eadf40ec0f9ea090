//! The levels of a paragraph.
use vstd::prelude::*;

use crate::explicit;
use crate::explicit::{
    explicit_classes, explicit_fits, explicit_levels, explicit_levels_are_bounded,
};
use crate::implicit;
use crate::implicit::{
    highest, highest_is_greatest, implicit_fits, implicit_levels, neutral_resolved,
    positions_increase, weak_resolved,
};
use crate::initial::{initial_scan, paragraph_level, settled_classes};
use crate::prepare;
use crate::prepare::{isolating_sequences, sequence_views, RunSequence};
use crate::tables::BidiClass;

verus! {

/// The classes after the rules on weak and neutral types have been applied to the first `k`
/// sequences, one after the other.
pub open spec fn types_resolved(
    classes: Seq<BidiClass>,
    levels: Seq<u8>,
    sequences: Seq<RunSequence>,
    k: int,
) -> Seq<BidiClass>
    decreases k,
{
    if k <= 0 {
        classes
    } else {
        neutral_resolved(
            weak_resolved(types_resolved(classes, levels, sequences, k - 1), sequences[k - 1]),
            levels,
            sequences[k - 1],
        )
    }
}

/// The classes of a paragraph before the implicit levels are taken from them.
pub open spec fn resolved_types(para_level: u8, classes: Seq<BidiClass>) -> Seq<BidiClass> {
    let levels = explicit_levels(para_level, classes);
    let sequences = isolating_sequences(para_level, classes, levels);
    types_resolved(
        explicit_classes(para_level, classes),
        levels,
        sequences,
        sequences.len() as int,
    )
}

/// The levels of the characters of a paragraph, from its level and its classes.
pub open spec fn resolved_levels(para_level: u8, classes: Seq<BidiClass>) -> Seq<u8> {
    implicit_levels(resolved_types(para_level, classes), explicit_levels(para_level, classes))
}

/// Are all levels of the paragraph within a `u8`? Only levels above 253 that are given for the
/// paragraph leave this open.
pub open spec fn levels_fit(para_level: u8, classes: Seq<BidiClass>) -> bool {
    &&& explicit_fits(para_level, classes)
    &&& implicit_fits(resolved_types(para_level, classes), explicit_levels(para_level, classes))
}

/// Output of `process_paragraph`
///
/// The `classes` and `levels` vectors are indexed by char indices into the paragraph text.
#[derive(Debug, PartialEq)]
pub struct ParagraphInfo {
    /// The BidiClass of each character in the paragraph.
    pub classes: Vec<BidiClass>,
    /// The directional embedding level of each character in the paragraph.
    pub levels: Vec<u8>,
    /// The paragraph embedding level.
    ///
    /// http://www.unicode.org/reports/tr9/#BD4
    pub para_level: u8,
    /// The highest embedding level in the paragraph. (Can be used for optimizations.)
    pub max_level: u8,
}

impl ParagraphInfo {
    /// Every character has a class and a level, and the levels lie between that of the paragraph
    /// and the highest one.
    pub open spec fn wf(self) -> bool {
        &&& self.levels@.len() == self.classes@.len()
        &&& self.max_level == highest(self.levels@)
        &&& forall|i: int|
            0 <= i < self.levels@.len() ==> self.para_level <= #[trigger] self.levels@[i]
                <= self.max_level
    }
}

proof fn lemma_types_resolved_len(
    classes: Seq<BidiClass>,
    levels: Seq<u8>,
    sequences: Seq<RunSequence>,
    k: int,
)
    ensures
        types_resolved(classes, levels, sequences, k).len() == classes.len(),
    decreases k,
{
    if k > 0 {
        lemma_types_resolved_len(classes, levels, sequences, k - 1);
    }
}

/// A paragraph level up to 253 leaves room for all levels.
pub proof fn low_levels_fit(para_level: u8, classes: Seq<BidiClass>)
    requires
        para_level <= 253,
    ensures
        levels_fit(para_level, classes),
{
    let levels = explicit_levels(para_level, classes);
    let types = resolved_types(para_level, classes);
    assert forall|i: int| 0 <= i < levels.len() implies implicit::implicit_level(
        #[trigger] levels[i],
        types[i],
    ) <= u8::MAX by {
        explicit_levels_are_bounded(para_level, classes, i);
    }
}

/// No character of a paragraph is at a level below that of the paragraph.
pub proof fn resolved_levels_are_bounded(para_level: u8, classes: Seq<BidiClass>)
    requires
        levels_fit(para_level, classes),
    ensures
        resolved_levels(para_level, classes).len() == classes.len(),
        forall|i: int|
            0 <= i < classes.len() ==> para_level <= #[trigger] resolved_levels(
                para_level,
                classes,
            )[i] <= highest(resolved_levels(para_level, classes)),
{
    let levels = explicit_levels(para_level, classes);
    highest_is_greatest(resolved_levels(para_level, classes));
    assert forall|i: int| 0 <= i < classes.len() implies para_level <= #[trigger] resolved_levels(
        para_level,
        classes,
    )[i] by {
        explicit_levels_are_bounded(para_level, classes, i);
        let types = resolved_types(para_level, classes);
        assert(implicit::implicit_level(levels[i], types[i]) <= u8::MAX);
    }
}

/// Determine the bidirectional embedding levels for a single paragraph.
pub fn process_paragraph(text: &str, level: Option<u8>) -> (info: ParagraphInfo)
    requires
        level matches Some(given) ==> given <= 253 || levels_fit(given, settled_classes(text@)),
    ensures
        info.para_level == paragraph_level(text@, level),
        info.classes@ == settled_classes(text@),
        info.levels@ == resolved_levels(info.para_level, info.classes@),
        info.max_level == highest(info.levels@),
        info.wf(),
        info.levels@.len() == text@.len(),
{
    let initial = initial_scan(text, level);
    let para_level = initial.para_level;
    let initial_classes = initial.initial_classes;
    let ghost given = initial_classes@;
    proof {
        if para_level <= 253 {
            low_levels_fit(para_level, given);
        }
        assert(levels_fit(para_level, given));
        resolved_levels_are_bounded(para_level, given);
    }
    let result = explicit::compute(para_level, &initial_classes);
    let mut classes = result.classes;
    let mut levels = result.levels;
    let ghost start_classes = classes@;
    let ghost start_levels = levels@;

    let sequences = prepare::isolating_run_sequences(para_level, &initial_classes, &levels);
    let ghost views = sequence_views(sequences@);
    for k in 0..sequences.len()
        invariant
            levels@ == start_levels,
            start_levels.len() == start_classes.len(),
            views == sequence_views(sequences@),
            forall|a: int|
                0 <= a < sequences@.len() ==> (#[trigger] sequences@[a])@.wf(
                    start_levels.len() as int,
                ),
            classes@ == types_resolved(start_classes, start_levels, views, k as int),
    {
        let sequence = &sequences[k];
        proof {
            lemma_types_resolved_len(start_classes, start_levels, views, k as int);
            assert(views[k as int] == sequence@);
            assert(sequence@.wf(start_levels.len() as int));
            positions_increase(classes@, sequence@.runs, start_levels.len() as int);
            let weak = weak_resolved(classes@, sequence@);
            positions_increase(weak, sequence@.runs, start_levels.len() as int);
        }
        implicit::resolve_weak(sequence, &mut classes);
        implicit::resolve_neutral(sequence, &levels, &mut classes);
    }
    proof {
        lemma_types_resolved_len(start_classes, start_levels, views, views.len() as int);
        assert(classes@ == resolved_types(para_level, given));
    }
    let max_level = implicit::resolve_levels(&classes, &mut levels);
    ParagraphInfo { levels, classes: initial_classes, para_level, max_level }
}

} // verus!
