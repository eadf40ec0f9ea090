//! Paragraphs that run in one direction: what the rules make of them, from their classes to the
//! order in which they are displayed.
use vstd::prelude::*;

use crate::explicit::{
    below_isolate, directions, directions_well_formed, explicit_classes, explicit_levels, opens,
    opens_rtl, Directions, OverrideStatus, Status,
};
use crate::implicit::{
    after_w1, after_w2, after_w3, after_w4, after_w5, after_w6, after_w7, along, follows_number,
    last_strong, levels_along, next_firm, positions, positions_increase, precedes_number, prev_firm,
    w1_class, weak_classes,
};
use crate::initial::{first_strong, first_strong_is_first, settled_classes, strong, text_classes};
use crate::level::rtl;
use crate::paragraph::{resolved_levels, resolved_types};
use crate::prepare::{
    ends_have_direction_of_levels, isolating_sequences, isolating_sequences_well_formed, removed,
};
use crate::reorder::{display_order, ltr_line_is_unchanged, rtl_line_is_reversed};
use crate::resolution::{
    kept_character_has_type_of_sequence, removed_characters_are_ignored, sequence_types,
};
use crate::tables::BidiClass;
use crate::visual::span;

verus! {

/// Classes that do not pull against a direction. Arabic numbers run against both directions, and
/// European numbers against right-to-left.
pub open spec fn runs_with(to_rtl: bool, class: BidiClass) -> bool {
    &&& class != BidiClass::AN
    &&& if to_rtl {
        class != BidiClass::L && class != BidiClass::EN
    } else {
        class != BidiClass::R && class != BidiClass::AL
    }
}

/// A paragraph in which nothing pulls against a direction, and nothing opens in the other one.
pub open spec fn one_direction(to_rtl: bool, classes: Seq<BidiClass>) -> bool {
    forall|i: int|
        0 <= i < classes.len() ==> runs_with(to_rtl, #[trigger] classes[i]) && (opens(classes[i])
            ==> opens_rtl(classes[i]) == to_rtl)
}

/// A directional status whose levels and overrides are all in one direction.
spec fn status_in_direction(to_rtl: bool, status: Directions) -> bool {
    forall|k: int|
        0 <= k < status.stack.len() ==> rtl((#[trigger] status.stack[k]).level) == to_rtl && if to_rtl {
            status.stack[k].status != OverrideStatus::LTR
        } else {
            status.stack[k].status != OverrideStatus::RTL
        }
}

proof fn lemma_below_isolate_prefix(stack: Seq<Status>)
    ensures
        below_isolate(stack).len() <= stack.len(),
        forall|k: int|
            0 <= k < below_isolate(stack).len() ==> #[trigger] below_isolate(stack)[k] == stack[k],
    decreases stack.len(),
{
    if stack.len() > 0 && stack.last().status != OverrideStatus::Isolate {
        lemma_below_isolate_prefix(stack.drop_last());
    }
}

proof fn lemma_directions_in_direction(
    to_rtl: bool,
    para_level: u8,
    classes: Seq<BidiClass>,
    i: int,
)
    requires
        rtl(para_level) == to_rtl,
        one_direction(to_rtl, classes),
        i <= classes.len(),
    ensures
        status_in_direction(to_rtl, directions(para_level, classes, i)),
    decreases i,
{
    if i > 0 {
        lemma_directions_in_direction(to_rtl, para_level, classes, i - 1);
        directions_well_formed(para_level, classes, i - 1);
        let status = directions(para_level, classes, i - 1);
        lemma_below_isolate_prefix(status.stack);
        assert(rtl(status.stack[status.stack.len() - 1].level) == to_rtl);
        assert(runs_with(to_rtl, classes[i - 1]));
    }
}

/// Explicit levels and overrides keep to the direction.
proof fn lemma_explicit_in_direction(to_rtl: bool, para_level: u8, classes: Seq<BidiClass>)
    requires
        rtl(para_level) == to_rtl,
        one_direction(to_rtl, classes),
    ensures
        forall|i: int|
            0 <= i < classes.len() ==> rtl(#[trigger] explicit_levels(para_level, classes)[i])
                == to_rtl,
        forall|i: int|
            0 <= i < classes.len() ==> runs_with(
                to_rtl,
                #[trigger] explicit_classes(para_level, classes)[i],
            ),
{
    assert forall|i: int| 0 <= i < classes.len() implies rtl(
        #[trigger] explicit_levels(para_level, classes)[i],
    ) == to_rtl && runs_with(to_rtl, explicit_classes(para_level, classes)[i]) by {
        lemma_directions_in_direction(to_rtl, para_level, classes, i);
        lemma_directions_in_direction(to_rtl, para_level, classes, i + 1);
        directions_well_formed(para_level, classes, i);
        directions_well_formed(para_level, classes, i + 1);
        let status = directions(para_level, classes, i);
        let next = directions(para_level, classes, i + 1);
        assert(rtl(status.stack[status.stack.len() - 1].level) == to_rtl);
        assert(rtl(next.stack[next.stack.len() - 1].level) == to_rtl);
        assert(runs_with(to_rtl, classes[i]));
    }
    assert forall|i: int| 0 <= i < classes.len() implies runs_with(
        to_rtl,
        #[trigger] explicit_classes(para_level, classes)[i],
    ) by {
        assert(rtl(explicit_levels(para_level, classes)[i]) == to_rtl);
    }
}

/// Do all classes of a sequence run with a direction?
spec fn all_run_with(to_rtl: bool, s: Seq<BidiClass>) -> bool {
    forall|k: int| 0 <= k < s.len() ==> runs_with(to_rtl, #[trigger] s[k])
}

proof fn lemma_w1_in_direction(to_rtl: bool, s: Seq<BidiClass>, sos: BidiClass, k: int)
    requires
        all_run_with(to_rtl, s),
        runs_with(to_rtl, sos),
        0 <= k < s.len(),
    ensures
        runs_with(to_rtl, w1_class(s, sos, k)),
    decreases k,
{
    assert(runs_with(to_rtl, s[k]));
    if k > 0 {
        lemma_w1_in_direction(to_rtl, s, sos, k - 1);
    }
}

proof fn lemma_last_strong_in_direction(to_rtl: bool, s: Seq<BidiClass>, sos: BidiClass, k: int)
    requires
        all_run_with(to_rtl, s),
        runs_with(to_rtl, sos),
        strong(sos),
        k <= s.len(),
    ensures
        runs_with(to_rtl, last_strong(s, sos, k)),
        strong(last_strong(s, sos, k)),
    decreases k,
{
    if k > 0 {
        lemma_last_strong_in_direction(to_rtl, s, sos, k - 1);
        assert(runs_with(to_rtl, s[k - 1]));
    }
}

/// No number is next to an ET where there is none.
proof fn lemma_no_number(s: Seq<BidiClass>, k: int)
    requires
        forall|j: int| 0 <= j < s.len() ==> #[trigger] s[j] != BidiClass::EN,
        0 <= k < s.len(),
    ensures
        !follows_number(s, k),
        !precedes_number(s, k),
{
    lemma_no_number_before(s, k);
    lemma_no_number_after(s, k);
}

proof fn lemma_no_number_before(s: Seq<BidiClass>, k: int)
    requires
        forall|j: int| 0 <= j < s.len() ==> #[trigger] s[j] != BidiClass::EN,
        0 <= k < s.len(),
    ensures
        !follows_number(s, k),
    decreases k,
{
    if k > 0 {
        lemma_no_number_before(s, k - 1);
    }
}

proof fn lemma_no_number_after(s: Seq<BidiClass>, k: int)
    requires
        forall|j: int| 0 <= j < s.len() ==> #[trigger] s[j] != BidiClass::EN,
        0 <= k < s.len(),
    ensures
        !precedes_number(s, k),
    decreases s.len() - k,
{
    if k + 1 < s.len() {
        lemma_no_number_after(s, k + 1);
    }
}

/// The first rules on weak types keep to the direction.
proof fn lemma_first_weak_rules_in_direction(to_rtl: bool, s: Seq<BidiClass>, sos: BidiClass)
    requires
        all_run_with(to_rtl, s),
        runs_with(to_rtl, sos),
        strong(sos),
    ensures
        all_run_with(to_rtl, after_w3(after_w2(after_w1(s, sos), sos))),
{
    let marked = after_w1(s, sos);
    assert forall|k: int| 0 <= k < s.len() implies runs_with(to_rtl, #[trigger] marked[k]) by {
        lemma_w1_in_direction(to_rtl, s, sos, k);
    }
    let arabic = after_w3(after_w2(marked, sos));
    assert forall|k: int| 0 <= k < s.len() implies runs_with(to_rtl, #[trigger] arabic[k]) by {
        assert(runs_with(to_rtl, marked[k]));
        lemma_last_strong_in_direction(to_rtl, marked, sos, k);
    }
}

/// The rules on weak types keep to the direction, and leave no numbers.
proof fn lemma_weak_in_direction(to_rtl: bool, s: Seq<BidiClass>, sos: BidiClass)
    requires
        all_run_with(to_rtl, s),
        runs_with(to_rtl, sos),
        strong(sos),
    ensures
        all_run_with(to_rtl, weak_classes(s, sos)),
        forall|k: int| 0 <= k < s.len() ==> #[trigger] weak_classes(s, sos)[k] != BidiClass::EN,
{
    let arabic = after_w3(after_w2(after_w1(s, sos), sos));
    lemma_first_weak_rules_in_direction(to_rtl, s, sos);
    let separated = after_w4(arabic);
    assert forall|k: int| 0 <= k < s.len() implies runs_with(to_rtl, #[trigger] separated[k]) by {
        assert(runs_with(to_rtl, arabic[k]));
        if 0 < k < s.len() - 1 {
            assert(runs_with(to_rtl, arabic[k - 1]));
        }
    }
    let named = after_w6(after_w5(separated));
    assert forall|k: int| 0 <= k < s.len() implies runs_with(to_rtl, #[trigger] named[k]) by {
        assert(runs_with(to_rtl, separated[k]));
        if to_rtl {
            assert forall|j: int| 0 <= j < s.len() implies #[trigger] separated[j]
                != BidiClass::EN by {
                assert(runs_with(to_rtl, separated[j]));
            }
            lemma_no_number(separated, k);
        }
    }
    let weak = weak_classes(s, sos);
    assert(weak == after_w7(named, sos));
    assert forall|k: int| 0 <= k < s.len() implies runs_with(to_rtl, #[trigger] weak[k]) && weak[k]
        != BidiClass::EN by {
        assert(runs_with(to_rtl, named[k]));
        lemma_last_strong_in_direction(to_rtl, named, sos, k);
    }
}

proof fn lemma_firm_in_direction(
    to_rtl: bool,
    s: Seq<BidiClass>,
    sos: BidiClass,
    eos: BidiClass,
    k: int,
)
    requires
        all_run_with(to_rtl, s),
        forall|j: int| 0 <= j < s.len() ==> #[trigger] s[j] != BidiClass::EN,
        sos == eos,
        runs_with(to_rtl, sos),
        sos != BidiClass::EN,
        0 <= k <= s.len(),
    ensures
        runs_with(to_rtl, prev_firm(s, sos, k)) && prev_firm(s, sos, k) != BidiClass::EN,
        runs_with(to_rtl, next_firm(s, eos, k)) && next_firm(s, eos, k) != BidiClass::EN,
{
    lemma_prev_firm_in_direction(to_rtl, s, sos, k);
    lemma_next_firm_in_direction(to_rtl, s, eos, k);
}

proof fn lemma_prev_firm_in_direction(to_rtl: bool, s: Seq<BidiClass>, sos: BidiClass, k: int)
    requires
        all_run_with(to_rtl, s),
        forall|j: int| 0 <= j < s.len() ==> #[trigger] s[j] != BidiClass::EN,
        runs_with(to_rtl, sos),
        sos != BidiClass::EN,
        k <= s.len(),
    ensures
        runs_with(to_rtl, prev_firm(s, sos, k)),
        prev_firm(s, sos, k) != BidiClass::EN,
    decreases k,
{
    if k > 0 {
        lemma_prev_firm_in_direction(to_rtl, s, sos, k - 1);
        assert(runs_with(to_rtl, s[k - 1]));
    }
}

proof fn lemma_next_firm_in_direction(to_rtl: bool, s: Seq<BidiClass>, eos: BidiClass, k: int)
    requires
        all_run_with(to_rtl, s),
        forall|j: int| 0 <= j < s.len() ==> #[trigger] s[j] != BidiClass::EN,
        runs_with(to_rtl, eos),
        eos != BidiClass::EN,
        0 <= k,
    ensures
        runs_with(to_rtl, next_firm(s, eos, k)),
        next_firm(s, eos, k) != BidiClass::EN,
    decreases s.len() - k,
{
    if k < s.len() {
        lemma_next_firm_in_direction(to_rtl, s, eos, k + 1);
        assert(runs_with(to_rtl, s[k]));
    }
}

/// The rules on weak and neutral types leave only the class of the direction.
proof fn lemma_sequence_in_direction(
    to_rtl: bool,
    s: Seq<BidiClass>,
    levels: Seq<u8>,
    sos: BidiClass,
    k: int,
)
    requires
        all_run_with(to_rtl, s),
        sos == if to_rtl {
            BidiClass::R
        } else {
            BidiClass::L
        },
        0 <= k < s.len(),
        rtl(levels[k]) == to_rtl,
    ensures
        runs_with(to_rtl, sequence_types(s, levels, sos, sos)[k]),
        sequence_types(s, levels, sos, sos)[k] != BidiClass::EN,
{
    let weak = weak_classes(s, sos);
    lemma_weak_in_direction(to_rtl, s, sos);
    lemma_firm_in_direction(to_rtl, weak, sos, sos, k);
    assert(runs_with(to_rtl, weak[k]));
    assert(weak[k] != BidiClass::EN);
}

/// In a paragraph that runs in one direction every character stays at its explicit level, and all
/// levels have the direction of the paragraph.
pub proof fn one_direction_has_levels_of_direction(
    to_rtl: bool,
    para_level: u8,
    classes: Seq<BidiClass>,
)
    requires
        rtl(para_level) == to_rtl,
        one_direction(to_rtl, classes),
        classes.len() <= usize::MAX,
    ensures
        resolved_levels(para_level, classes) == explicit_levels(para_level, classes),
        forall|i: int|
            0 <= i < classes.len() ==> rtl(#[trigger] resolved_levels(para_level, classes)[i])
                == to_rtl,
{
    let levels = explicit_levels(para_level, classes);
    let overridden = explicit_classes(para_level, classes);
    let sequences = isolating_sequences(para_level, classes, levels);
    let types = resolved_types(para_level, classes);
    lemma_explicit_in_direction(to_rtl, para_level, classes);
    isolating_sequences_well_formed(para_level, classes, levels);
    ends_have_direction_of_levels(para_level, classes, levels);
    assert forall|i: int| 0 <= i < classes.len() implies #[trigger] resolved_levels(
        para_level,
        classes,
    )[i] == levels[i] by {
        assert(rtl(levels[i]) == to_rtl);
        if removed(classes[i]) {
            removed_characters_are_ignored(para_level, classes, i);
        } else {
            let at = kept_character_has_type_of_sequence(para_level, classes, i);
            let sequence = sequences[at.0];
            let indices = positions(classes, sequence.runs);
            let s = along(overridden, indices);
            positions_increase(classes, sequence.runs, classes.len() as int);
            assert forall|k: int| 0 <= k < s.len() implies runs_with(
                to_rtl,
                #[trigger] s[k],
            ) by {
                assert(runs_with(to_rtl, overridden[indices[k]]));
            }
            assert(sequence.eos == sequence.sos);
            lemma_sequence_in_direction(
                to_rtl,
                s,
                levels_along(levels, indices),
                sequence.sos,
                at.1,
            );
        }
    }
    assert(resolved_levels(para_level, classes) =~= levels);
}

/// Settling the FSIs keeps to the direction.
proof fn lemma_settled_in_direction(to_rtl: bool, text: Seq<char>)
    requires
        one_direction(to_rtl, text_classes(text)),
    ensures
        one_direction(to_rtl, settled_classes(text)),
{
    let classes = text_classes(text);
    assert forall|i: int| 0 <= i < text.len() implies runs_with(
        to_rtl,
        #[trigger] settled_classes(text)[i],
    ) && (opens(settled_classes(text)[i]) ==> opens_rtl(settled_classes(text)[i]) == to_rtl) by {
        first_strong_is_first(classes, Some(i), i + 1);
        assert(runs_with(to_rtl, classes[i]));
        match first_strong(classes, Some(i), i + 1) {
            Some(k) => {
                assert(runs_with(to_rtl, classes[k]));
            },
            None => {},
        }
    }
}

/// Text without right-to-left characters, Arabic numbers and right-to-left embeddings is displayed
/// as it is in a left-to-right paragraph, on every line: all its levels are left-to-right.
pub proof fn ltr_text_is_displayed_unchanged(
    text: Seq<char>,
    para_level: u8,
    start: int,
    end: int,
)
    requires
        !rtl(para_level),
        one_direction(false, text_classes(text)),
        0 <= start <= end <= text.len() <= usize::MAX,
    ensures
        forall|i: int|
            0 <= i < text.len() ==> !rtl(
                #[trigger] resolved_levels(para_level, settled_classes(text))[i],
            ),
        display_order(resolved_levels(para_level, settled_classes(text)), start, end) == span(
            start,
            end,
        ),
{
    lemma_settled_in_direction(false, text);
    one_direction_has_levels_of_direction(false, para_level, settled_classes(text));
    ltr_line_is_unchanged(resolved_levels(para_level, settled_classes(text)), start, end);
}

/// Without opening classes all characters are at the level of the paragraph.
proof fn lemma_flat_levels(para_level: u8, classes: Seq<BidiClass>, i: int)
    requires
        0 <= i <= classes.len(),
        forall|k: int| 0 <= k < classes.len() ==> !opens(#[trigger] classes[k]),
    ensures
        directions(para_level, classes, i) == Directions::initial(para_level),
    decreases i,
{
    if i > 0 {
        lemma_flat_levels(para_level, classes, i - 1);
    }
}

/// Text without left-to-right characters, numbers, embeddings and isolates is displayed in
/// reverse in a right-to-left paragraph, on every line: all its characters are at the level of
/// the paragraph.
pub proof fn rtl_text_is_displayed_reversed(
    text: Seq<char>,
    para_level: u8,
    start: int,
    end: int,
)
    requires
        rtl(para_level),
        one_direction(true, text_classes(text)),
        forall|i: int| 0 <= i < text.len() ==> !opens(#[trigger] text_classes(text)[i]),
        0 <= start < end <= text.len() <= usize::MAX,
    ensures
        forall|i: int|
            0 <= i < text.len() ==> #[trigger] resolved_levels(para_level, settled_classes(text))[i]
                == para_level,
        display_order(resolved_levels(para_level, settled_classes(text)), start, end) == span(
            start,
            end,
        ).reverse(),
{
    let classes = settled_classes(text);
    let levels = resolved_levels(para_level, classes);
    lemma_settled_in_direction(true, text);
    one_direction_has_levels_of_direction(true, para_level, classes);
    assert forall|i: int| 0 <= i < text.len() implies !opens(#[trigger] classes[i]) by {
        assert(!opens(text_classes(text)[i]));
    }
    assert forall|i: int| 0 <= i < text.len() implies #[trigger] levels[i] == para_level by {
        assert(!opens(classes[i]));
        lemma_flat_levels(para_level, classes, i);
    }
    rtl_line_is_reversed(levels, start, end);
}

} // verus!
