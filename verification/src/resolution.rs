//! Isolating run sequences are resolved one by one, and none of them touches another.
use vstd::prelude::*;

use crate::explicit::{explicit_classes, explicit_levels};
use crate::implicit::{
    along, increasing, kept_span, kept_span_is_in_span, leaves_with_weak_rules, levels_along,
    neutral_classes, neutral_resolved, neutral_rules_replace, positions, positions_increase,
    replaced, runs_within, weak_classes, weak_resolved, weak_rules_keep, weak_rules_replace,
};
use crate::level::{tiles_cover, LevelRun};
use crate::paragraph::{resolved_types, types_resolved};
use crate::prepare::{
    isolating_sequences, isolating_sequences_well_formed, level_runs_are_maximal, removed, runs_of,
    with_ends, RunSequence,
};
use crate::sequences::{
    runs_in_finds, sequences_apart, sequences_are_isolating_run_sequences, sequences_of,
};
use crate::tables::BidiClass;

verus! {

/// The kept characters of a span are all there.
proof fn lemma_kept_span_holds(classes: Seq<BidiClass>, start: int, end: int, i: int)
    requires
        start <= i < end,
        !removed(classes[i]),
    ensures
        kept_span(classes, start, end).contains(i),
    decreases end - start,
{
    let all = kept_span(classes, start, end);
    if i == end - 1 {
        assert(all[all.len() - 1] == i);
    } else {
        lemma_kept_span_holds(classes, start, end - 1, i);
        let rest = kept_span(classes, start, end - 1);
        assert(all[rest.index_of(i)] == i);
    }
}

/// A character at a position in some runs lies in one of them, and is not removed.
pub proof fn positions_lie_in_runs(classes: Seq<BidiClass>, runs: Seq<LevelRun>, i: int) -> (k: int)
    requires
        positions(classes, runs).contains(i),
    ensures
        0 <= k < runs.len(),
        runs[k].start <= i < runs[k].end,
        !removed(classes[i]),
    decreases runs.len(),
{
    let rest = runs.drop_last();
    let before = positions(classes, rest);
    let all = positions(classes, runs);
    let p = all.index_of(i);
    assert(all[p] == i);
    if p >= before.len() {
        let last = runs.last();
        kept_span_is_in_span(classes, last.start as int, last.end as int);
        assert(kept_span(classes, last.start as int, last.end as int)[p - before.len()] == i);
        runs.len() - 1
    } else {
        assert(before[p] == i);
        positions_lie_in_runs(classes, rest, i)
    }
}

/// The characters of a run that are not removed are at the positions in all the runs.
pub proof fn positions_hold_runs(classes: Seq<BidiClass>, runs: Seq<LevelRun>, k: int, i: int)
    requires
        0 <= k < runs.len(),
        runs[k].start <= i < runs[k].end,
        !removed(classes[i]),
    ensures
        positions(classes, runs).contains(i),
    decreases runs.len(),
{
    let rest = runs.drop_last();
    let before = positions(classes, rest);
    let all = positions(classes, runs);
    if k == runs.len() - 1 {
        lemma_kept_span_holds(classes, runs[k].start as int, runs[k].end as int, i);
        let added = kept_span(classes, runs[k].start as int, runs[k].end as int);
        assert(all[before.len() + added.index_of(i)] == i);
    } else {
        positions_hold_runs(classes, rest, k, i);
        assert(all[before.index_of(i)] == i);
    }
}

/// Are the same characters removed by X9?
pub open spec fn same_removed(left: Seq<BidiClass>, right: Seq<BidiClass>) -> bool {
    &&& left.len() == right.len()
    &&& forall|i: int|
        #![trigger left[i]]
        #![trigger right[i]]
        0 <= i < left.len() ==> removed(left[i]) == removed(right[i])
}

proof fn lemma_same_kept_span(left: Seq<BidiClass>, right: Seq<BidiClass>, start: int, end: int)
    requires
        same_removed(left, right),
        0 <= start,
        end <= left.len(),
    ensures
        kept_span(left, start, end) == kept_span(right, start, end),
    decreases end - start,
{
    if start < end {
        lemma_same_kept_span(left, right, start, end - 1);
        assert(removed(left[end - 1]) == removed(right[end - 1]));
    }
}

/// The positions in some runs depend only on which characters are removed.
pub proof fn same_positions(left: Seq<BidiClass>, right: Seq<BidiClass>, runs: Seq<LevelRun>)
    requires
        same_removed(left, right),
        runs_within(runs, left.len() as int),
    ensures
        positions(left, runs) == positions(right, runs),
    decreases runs.len(),
{
    if runs.len() > 0 {
        let rest = runs.drop_last();
        let last = runs.last();
        assert(runs_within(rest, left.len() as int)) by {
            assert forall|k: int|
                0 <= k < rest.len() && (#[trigger] rest[k]).start < rest[k].end implies rest[k].end
                <= left.len() by {
                assert(runs[k].end <= left.len());
            }
        }
        same_positions(left, right, rest);
        if last.start < last.end {
            assert(runs[runs.len() - 1].end <= left.len());
            lemma_same_kept_span(left, right, last.start as int, last.end as int);
        } else {
            assert(kept_span(left, last.start as int, last.end as int) == kept_span(
                right,
                last.start as int,
                last.end as int,
            ));
        }
    }
}

/// Directional overrides turn no character into one that X9 removes, nor one that is removed into
/// another.
pub proof fn explicit_classes_keep_removed(para_level: u8, classes: Seq<BidiClass>)
    ensures
        same_removed(explicit_classes(para_level, classes), classes),
{
}

/// The runs of the isolating run sequences of a paragraph.
proof fn lemma_sequence_runs(para_level: u8, classes: Seq<BidiClass>, levels: Seq<u8>, a: int)
    requires
        0 <= a < isolating_sequences(para_level, classes, levels).len(),
    ensures
        isolating_sequences(para_level, classes, levels)[a].runs == sequences_of(
            classes,
            runs_of(levels, classes),
        )[a],
{
    reveal(with_ends);
}

/// No character stands in two isolating run sequences.
pub proof fn sequences_are_disjoint(
    para_level: u8,
    classes: Seq<BidiClass>,
    levels: Seq<u8>,
    a: int,
    b: int,
    i: int,
)
    requires
        levels.len() == classes.len(),
        classes.len() <= usize::MAX,
        0 <= a < isolating_sequences(para_level, classes, levels).len(),
        0 <= b < isolating_sequences(para_level, classes, levels).len(),
        positions(classes, isolating_sequences(para_level, classes, levels)[a].runs).contains(i),
        positions(classes, isolating_sequences(para_level, classes, levels)[b].runs).contains(i),
    ensures
        a == b,
{
    let n = classes.len() as int;
    let sequences = isolating_sequences(para_level, classes, levels);
    let runs = runs_of(levels, classes);
    level_runs_are_maximal(levels, classes, n);
    sequences_are_isolating_run_sequences(classes, runs);
    lemma_sequence_runs(para_level, classes, levels, a);
    lemma_sequence_runs(para_level, classes, levels, b);
    let j = positions_lie_in_runs(classes, sequences[a].runs, i);
    let k = positions_lie_in_runs(classes, sequences[b].runs, i);
    let first = sequences[a].runs[j];
    let second = sequences[b].runs[k];
    sequences_apart(sequences_of(classes, runs), classes, runs, a, b, first, second, i);
}

/// Every character that is not removed stands in an isolating run sequence.
pub proof fn sequences_cover_paragraph(
    para_level: u8,
    classes: Seq<BidiClass>,
    levels: Seq<u8>,
    i: int,
) -> (a: int)
    requires
        levels.len() == classes.len(),
        classes.len() <= usize::MAX,
        0 <= i < classes.len(),
        !removed(classes[i]),
    ensures
        0 <= a < isolating_sequences(para_level, classes, levels).len(),
        positions(classes, isolating_sequences(para_level, classes, levels)[a].runs).contains(i),
{
    let n = classes.len() as int;
    let runs = runs_of(levels, classes);
    let sequences = sequences_of(classes, runs);
    level_runs_are_maximal(levels, classes, n);
    sequences_are_isolating_run_sequences(classes, runs);
    let k = tiles_cover(runs, 0, n, i);
    runs.to_multiset_ensures();
    assert(runs.contains(runs[k]));
    let a = runs_in_finds(sequences, runs[k]);
    lemma_sequence_runs(para_level, classes, levels, a);
    positions_hold_runs(classes, sequences[a], sequences[a].index_of(runs[k]), i);
    a
}

/// The classes of a sequence after the rules on weak and neutral types, from what the sequence
/// holds alone.
pub open spec fn sequence_types(
    s: Seq<BidiClass>,
    levels: Seq<u8>,
    sos: BidiClass,
    eos: BidiClass,
) -> Seq<BidiClass> {
    neutral_classes(weak_classes(s, sos), levels, sos, eos)
}

/// The rules on weak and neutral types leave only L, R, EN and AN in a sequence.
pub proof fn sequence_types_are_firm(
    s: Seq<BidiClass>,
    levels: Seq<u8>,
    sos: BidiClass,
    eos: BidiClass,
)
    requires
        sos == BidiClass::L || sos == BidiClass::R,
        forall|k: int| 0 <= k < s.len() ==> !removed(#[trigger] s[k]),
    ensures
        forall|k: int|
            0 <= k < s.len() ==> firm(#[trigger] sequence_types(s, levels, sos, eos)[k]),
{
    weak_rules_replace(s, sos);
    weak_rules_keep(s, sos);
    neutral_rules_replace(weak_classes(s, sos), levels, sos, eos);
    assert forall|k: int| 0 <= k < s.len() implies firm(
        #[trigger] sequence_types(s, levels, sos, eos)[k],
    ) by {
        let weak = weak_classes(s, sos)[k];
        assert(!leaves_with_weak_rules(weak) && !removed(weak));
    }
}

/// The classes that implicit levels are taken from.
pub open spec fn firm(class: BidiClass) -> bool {
    ||| class == BidiClass::L
    ||| class == BidiClass::R
    ||| class == BidiClass::EN
    ||| class == BidiClass::AN
}

/// What has been put along indices is found along them, and nothing has changed elsewhere.
proof fn lemma_replaced_along(classes: Seq<BidiClass>, indices: Seq<int>, values: Seq<BidiClass>)
    requires
        increasing(indices, classes.len() as int),
        values.len() == indices.len(),
    ensures
        along(replaced(classes, indices, values), indices) == values,
        forall|k: int|
            0 <= k < indices.len() ==> replaced(classes, indices, values)[#[trigger] indices[k]]
                == values[k],
{
    let after = replaced(classes, indices, values);
    assert forall|k: int| 0 <= k < indices.len() implies after[#[trigger] indices[k]]
        == values[k] by {
        assert(indices.contains(indices[k]));
        let p = indices.index_of(indices[k]);
        assert(indices[p] == indices[k]);
        if p < k {
            assert(indices[p] < indices[k]);
        } else if k < p {
            assert(indices[k] < indices[p]);
        }
    }
    assert(along(after, indices) =~= values);
}

/// Where the characters at some positions, and what is put there, are not removed, the same
/// characters are removed before and after.
proof fn lemma_replaced_same_removed(
    classes: Seq<BidiClass>,
    indices: Seq<int>,
    values: Seq<BidiClass>,
)
    requires
        values.len() == indices.len(),
        forall|k: int| 0 <= k < indices.len() ==> !removed(classes[#[trigger] indices[k]]),
        forall|k: int| 0 <= k < indices.len() ==> !removed(#[trigger] values[k]),
    ensures
        same_removed(replaced(classes, indices, values), classes),
{
    let after = replaced(classes, indices, values);
    assert forall|i: int|
        #![trigger after[i]]
        #![trigger classes[i]]
        0 <= i < classes.len() implies removed(after[i]) == removed(classes[i]) by {
        if indices.contains(i) {
            let p = indices.index_of(i);
            assert(indices[p] == i && !removed(values[p]));
        }
    }
}

/// Resolving a sequence changes its characters as `sequence_types` says, and no others.
pub proof fn sequence_is_resolved(classes: Seq<BidiClass>, levels: Seq<u8>, sequence: RunSequence)
    requires
        sequence.wf(classes.len() as int),
    ensures
        along(
            neutral_resolved(weak_resolved(classes, sequence), levels, sequence),
            positions(classes, sequence.runs),
        ) == sequence_types(
            along(classes, positions(classes, sequence.runs)),
            levels_along(levels, positions(classes, sequence.runs)),
            sequence.sos,
            sequence.eos,
        ),
        forall|i: int|
            0 <= i < classes.len() && !positions(classes, sequence.runs).contains(i)
                ==> #[trigger] neutral_resolved(
                weak_resolved(classes, sequence),
                levels,
                sequence,
            )[i] == classes[i],
        same_removed(
            neutral_resolved(weak_resolved(classes, sequence), levels, sequence),
            classes,
        ),
{
    let n = classes.len() as int;
    let indices = positions(classes, sequence.runs);
    positions_increase(classes, sequence.runs, n);
    let s = along(classes, indices);
    assert forall|k: int| 0 <= k < s.len() implies !removed(#[trigger] s[k]) by {
        assert(!removed(classes[indices[k]]));
    }
    let weak = weak_classes(s, sequence.sos);
    let middle = weak_resolved(classes, sequence);
    weak_rules_keep(s, sequence.sos);
    lemma_replaced_along(classes, indices, weak);
    lemma_replaced_same_removed(classes, indices, weak);
    same_positions(middle, classes, sequence.runs);
    let lv = levels_along(levels, indices);
    let last = neutral_classes(weak, lv, sequence.sos, sequence.eos);
    lemma_replaced_along(middle, indices, last);
    sequence_types_are_firm(s, lv, sequence.sos, sequence.eos);
    assert forall|k: int| 0 <= k < indices.len() implies !removed(#[trigger] last[k]) by {
        assert(firm(sequence_types(s, lv, sequence.sos, sequence.eos)[k]));
    }
    assert forall|k: int| 0 <= k < indices.len() implies !removed(
        middle[#[trigger] indices[k]],
    ) by {
        assert(middle[indices[k]] == weak[k]);
    }
    lemma_replaced_same_removed(middle, indices, last);
    let after = neutral_resolved(middle, levels, sequence);
    assert(same_removed(after, classes)) by {
        assert forall|i: int|
            #![trigger after[i]]
            #![trigger classes[i]]
            0 <= i < classes.len() implies removed(after[i]) == removed(classes[i]) by {
            assert(removed(after[i]) == removed(middle[i]));
        }
    }
}

proof fn lemma_resolved_so_far(
    para_level: u8,
    classes: Seq<BidiClass>,
    levels: Seq<u8>,
    start: Seq<BidiClass>,
    a: int,
    m: int,
)
    requires
        levels.len() == classes.len(),
        same_removed(start, classes),
        classes.len() <= usize::MAX,
        0 <= a < isolating_sequences(para_level, classes, levels).len(),
        0 <= m <= isolating_sequences(para_level, classes, levels).len(),
    ensures
        ({
            let sequences = isolating_sequences(para_level, classes, levels);
            let indices = positions(classes, sequences[a].runs);
            let resolved = types_resolved(start, levels, sequences, m);
            &&& same_removed(resolved, classes)
            &&& along(resolved, indices) == if m <= a {
                along(start, indices)
            } else {
                sequence_types(
                    along(start, indices),
                    levels_along(levels, indices),
                    sequences[a].sos,
                    sequences[a].eos,
                )
            }
        }),
    decreases m,
{
    if m > 0 {
        let n = classes.len() as int;
        let sequences = isolating_sequences(para_level, classes, levels);
        let indices = positions(classes, sequences[a].runs);
        let before = types_resolved(start, levels, sequences, m - 1);
        let after = types_resolved(start, levels, sequences, m);
        isolating_sequences_well_formed(para_level, classes, levels);
        assert(sequences[m - 1].wf(n));
        assert(sequences[a].wf(n));
        positions_increase(classes, sequences[a].runs, n);
        lemma_resolved_so_far(para_level, classes, levels, start, a, m - 1);
        same_positions(before, classes, sequences[m - 1].runs);
        sequence_is_resolved(before, levels, sequences[m - 1]);
        assert(same_removed(after, classes)) by {
            assert forall|i: int|
                #![trigger after[i]]
                #![trigger classes[i]]
                0 <= i < n implies removed(after[i]) == removed(classes[i]) by {
                assert(removed(after[i]) == removed(before[i]));
            }
        }
        if m - 1 != a {
            assert forall|k: int| 0 <= k < indices.len() implies after[#[trigger] indices[k]]
                == before[indices[k]] by {
                assert(indices.contains(indices[k]));
                if positions(classes, sequences[m - 1].runs).contains(indices[k]) {
                    sequences_are_disjoint(para_level, classes, levels, a, m - 1, indices[k]);
                }
            }
            assert(along(after, indices) =~= along(before, indices));
        }
    }
}

/// The classes of each isolating run sequence come from that sequence alone: from the classes and
/// levels of its characters and from its two ends.
pub proof fn each_sequence_is_resolved_on_its_own(
    para_level: u8,
    classes: Seq<BidiClass>,
    a: int,
)
    requires
        classes.len() <= usize::MAX,
        0 <= a < isolating_sequences(
            para_level,
            classes,
            explicit_levels(para_level, classes),
        ).len(),
    ensures
        ({
            let levels = explicit_levels(para_level, classes);
            let sequence = isolating_sequences(para_level, classes, levels)[a];
            let indices = positions(classes, sequence.runs);
            along(resolved_types(para_level, classes), indices) == sequence_types(
                along(explicit_classes(para_level, classes), indices),
                levels_along(levels, indices),
                sequence.sos,
                sequence.eos,
            )
        }),
{
    let levels = explicit_levels(para_level, classes);
    explicit_classes_keep_removed(para_level, classes);
    lemma_resolved_so_far(
        para_level,
        classes,
        levels,
        explicit_classes(para_level, classes),
        a,
        isolating_sequences(para_level, classes, levels).len() as int,
    );
}

proof fn lemma_removed_so_far(
    para_level: u8,
    classes: Seq<BidiClass>,
    levels: Seq<u8>,
    start: Seq<BidiClass>,
    i: int,
    m: int,
)
    requires
        levels.len() == classes.len(),
        same_removed(start, classes),
        classes.len() <= usize::MAX,
        0 <= i < classes.len(),
        removed(classes[i]),
        0 <= m <= isolating_sequences(para_level, classes, levels).len(),
    ensures
        same_removed(
            types_resolved(start, levels, isolating_sequences(para_level, classes, levels), m),
            classes,
        ),
        types_resolved(start, levels, isolating_sequences(para_level, classes, levels), m)[i]
            == start[i],
    decreases m,
{
    if m > 0 {
        let sequences = isolating_sequences(para_level, classes, levels);
        let before = types_resolved(start, levels, sequences, m - 1);
        let after = types_resolved(start, levels, sequences, m);
        isolating_sequences_well_formed(para_level, classes, levels);
        assert(sequences[m - 1].wf(classes.len() as int));
        lemma_removed_so_far(para_level, classes, levels, start, i, m - 1);
        sequence_is_resolved(before, levels, sequences[m - 1]);
        if positions(before, sequences[m - 1].runs).contains(i) {
            let k = positions_lie_in_runs(before, sequences[m - 1].runs, i);
            assert(removed(before[i]) == removed(classes[i]));
        }
        assert(same_removed(after, classes)) by {
            assert forall|j: int|
                #![trigger after[j]]
                #![trigger classes[j]]
                0 <= j < classes.len() implies removed(after[j]) == removed(classes[j]) by {
                assert(removed(after[j]) == removed(before[j]));
            }
        }
    }
}

/// A character that X9 removes is left alone by the rules on weak and neutral types.
pub proof fn removed_characters_are_ignored(para_level: u8, classes: Seq<BidiClass>, i: int)
    requires
        classes.len() <= usize::MAX,
        0 <= i < classes.len(),
        removed(classes[i]),
    ensures
        resolved_types(para_level, classes)[i] == classes[i],
{
    let levels = explicit_levels(para_level, classes);
    explicit_classes_keep_removed(para_level, classes);
    lemma_removed_so_far(
        para_level,
        classes,
        levels,
        explicit_classes(para_level, classes),
        i,
        isolating_sequences(para_level, classes, levels).len() as int,
    );
}

/// What a character that is not removed becomes is said by its place in its sequence.
pub proof fn kept_character_has_type_of_sequence(
    para_level: u8,
    classes: Seq<BidiClass>,
    i: int,
) -> (at: (int, int))
    requires
        classes.len() <= usize::MAX,
        0 <= i < classes.len(),
        !removed(classes[i]),
    ensures
        ({
            let levels = explicit_levels(para_level, classes);
            let sequences = isolating_sequences(para_level, classes, levels);
            let sequence = sequences[at.0];
            let indices = positions(classes, sequence.runs);
            &&& 0 <= at.0 < sequences.len()
            &&& 0 <= at.1 < indices.len()
            &&& indices[at.1] == i
            &&& resolved_types(para_level, classes)[i] == sequence_types(
                along(explicit_classes(para_level, classes), indices),
                levels_along(levels, indices),
                sequence.sos,
                sequence.eos,
            )[at.1]
        }),
{
    let levels = explicit_levels(para_level, classes);
    let a = sequences_cover_paragraph(para_level, classes, levels, i);
    let sequence = isolating_sequences(para_level, classes, levels)[a];
    let indices = positions(classes, sequence.runs);
    let k = indices.index_of(i);
    each_sequence_is_resolved_on_its_own(para_level, classes, a);
    assert(along(resolved_types(para_level, classes), indices)[k] == resolved_types(
        para_level,
        classes,
    )[i]);
    (a, k)
}

/// In the end every character that is not removed is L, R, EN or AN.
pub proof fn resolved_types_are_firm(para_level: u8, classes: Seq<BidiClass>, i: int)
    requires
        classes.len() <= usize::MAX,
        0 <= i < classes.len(),
        !removed(classes[i]),
    ensures
        firm(resolved_types(para_level, classes)[i]),
{
    let levels = explicit_levels(para_level, classes);
    let at = kept_character_has_type_of_sequence(para_level, classes, i);
    let sequence = isolating_sequences(para_level, classes, levels)[at.0];
    let indices = positions(classes, sequence.runs);
    let s = along(explicit_classes(para_level, classes), indices);
    isolating_sequences_well_formed(para_level, classes, levels);
    positions_increase(classes, sequence.runs, classes.len() as int);
    explicit_classes_keep_removed(para_level, classes);
    assert forall|k: int| 0 <= k < s.len() implies !removed(#[trigger] s[k]) by {
        assert(!removed(classes[indices[k]]));
    }
    sequence_types_are_firm(s, levels_along(levels, indices), sequence.sos, sequence.eos);
}

} // verus!
