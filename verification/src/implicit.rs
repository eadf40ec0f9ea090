//! 3.3.4 - 3.3.6. Resolve implicit levels and types.
use vstd::prelude::*;

use crate::initial::strong;
use crate::isolates::initiator;
use crate::level::{class_for_level, direction, is_rtl, rtl, LevelRun};
use crate::prepare::{higher, removed, removed_by_x9, IsolatingRunSequence, RunSequence};
use crate::sequences::in_text_order;
use crate::tables::BidiClass;

verus! {

/// The indices from `start` up to `end` of the characters that are not removed by X9.
pub open spec fn kept_span(classes: Seq<BidiClass>, start: int, end: int) -> Seq<int>
    decreases end - start,
{
    if end <= start {
        Seq::empty()
    } else if removed(classes[end - 1]) {
        kept_span(classes, start, end - 1)
    } else {
        kept_span(classes, start, end - 1).push(end - 1)
    }
}

/// The indices of the characters in some runs, one run after the other, without those that are
/// removed by X9.
pub open spec fn positions(classes: Seq<BidiClass>, runs: Seq<LevelRun>) -> Seq<int>
    decreases runs.len(),
{
    if runs.len() == 0 {
        Seq::empty()
    } else {
        let last = runs.last();
        positions(classes, runs.drop_last()) + kept_span(
            classes,
            last.start as int,
            last.end as int,
        )
    }
}

/// The classes at some indices.
pub open spec fn along(classes: Seq<BidiClass>, indices: Seq<int>) -> Seq<BidiClass> {
    Seq::new(indices.len(), |k: int| classes[indices[k]])
}

/// The classes with new ones at some indices.
pub open spec fn replaced(
    classes: Seq<BidiClass>,
    indices: Seq<int>,
    values: Seq<BidiClass>,
) -> Seq<BidiClass> {
    Seq::new(
        classes.len(),
        |i: int|
            if indices.contains(i) {
                values[indices.index_of(i)]
            } else {
                classes[i]
            },
    )
}

/// Indices into a text of length `n`, in text order.
pub open spec fn increasing(indices: Seq<int>, n: int) -> bool {
    &&& forall|k: int| 0 <= k < indices.len() ==> 0 <= #[trigger] indices[k] < n
    &&& forall|j: int, k: int|
        0 <= j < k < indices.len() ==> #[trigger] indices[j] < #[trigger] indices[k]
}

/// Indices into a text of length `n`, none of them twice.
pub open spec fn distinct(indices: Seq<int>, n: int) -> bool {
    &&& forall|k: int| 0 <= k < indices.len() ==> 0 <= #[trigger] indices[k] < n
    &&& forall|j: int, k: int|
        0 <= j < k < indices.len() ==> #[trigger] indices[j] != #[trigger] indices[k]
}

/// Do the characters of the runs lie in a text of length `n`?
pub open spec fn runs_within(runs: Seq<LevelRun>, n: int) -> bool {
    forall|k: int|
        0 <= k < runs.len() && (#[trigger] runs[k]).start < runs[k].end ==> runs[k].end <= n
}

/// The kept characters of a span lie in it, in text order.
pub proof fn kept_span_is_in_span(classes: Seq<BidiClass>, start: int, end: int)
    ensures
        forall|k: int|
            0 <= k < kept_span(classes, start, end).len() ==> start <= #[trigger] kept_span(
                classes,
                start,
                end,
            )[k] < end && !removed(classes[kept_span(classes, start, end)[k]]),
        forall|j: int, k: int|
            0 <= j < k < kept_span(classes, start, end).len() ==> #[trigger] kept_span(
                classes,
                start,
                end,
            )[j] < #[trigger] kept_span(classes, start, end)[k],
    decreases end - start,
{
    if start < end {
        kept_span_is_in_span(classes, start, end - 1);
        let before = kept_span(classes, start, end - 1);
        let all = kept_span(classes, start, end);
        assert forall|k: int| 0 <= k < all.len() implies start <= #[trigger] all[k] < end
            && !removed(classes[all[k]]) by {
            if k < before.len() {
                assert(all[k] == before[k]);
            }
        }
        assert forall|j: int, k: int| 0 <= j < k < all.len() implies #[trigger] all[j]
            < #[trigger] all[k] by {
            assert(all[j] == before[j]);
            if k < before.len() {
                assert(all[k] == before[k]);
            }
        }
    }
}

/// The characters of runs in text order are in text order, and none of them is removed.
pub proof fn positions_increase(classes: Seq<BidiClass>, runs: Seq<LevelRun>, n: int)
    requires
        in_text_order(runs, n),
    ensures
        increasing(positions(classes, runs), n),
        forall|k: int|
            0 <= k < positions(classes, runs).len() ==> runs.len() > 0 && #[trigger] positions(
                classes,
                runs,
            )[k] < runs.last().end,
        forall|k: int|
            0 <= k < positions(classes, runs).len() ==> !removed(
                classes[#[trigger] positions(classes, runs)[k]],
            ),
    decreases runs.len(),
{
    if runs.len() > 0 {
        let rest = runs.drop_last();
        assert(in_text_order(rest, n));
        positions_increase(classes, rest, n);
        let before = positions(classes, rest);
        let last = runs.last();
        let added = kept_span(classes, last.start as int, last.end as int);
        kept_span_is_in_span(classes, last.start as int, last.end as int);
        assert forall|k: int| 0 <= k < before.len() implies #[trigger] before[k] < last.start by {
            assert(before[k] < rest.last().end);
            assert(runs[runs.len() - 2].end <= runs[runs.len() - 1].start);
        }
        let all = positions(classes, runs);
        assert forall|k: int| 0 <= k < all.len() implies 0 <= #[trigger] all[k] < n && all[k]
            < last.end && !removed(classes[all[k]]) by {
            if k < before.len() {
                assert(all[k] == before[k]);
            } else {
                assert(all[k] == added[k - before.len()]);
            }
        }
        assert forall|j: int, k: int| 0 <= j < k < all.len() implies #[trigger] all[j]
            < #[trigger] all[k] by {
            if k < before.len() {
                assert(all[j] == before[j] && all[k] == before[k]);
            } else if j < before.len() {
                assert(all[j] == before[j] && all[k] == added[k - before.len()]);
            } else {
                assert(all[j] == added[j - before.len()] && all[k] == added[k - before.len()]);
            }
        }
    }
}

/// Indices as mathematical integers.
spec fn as_ints(indices: Seq<usize>) -> Seq<int> {
    Seq::new(indices.len(), |k: int| indices[k] as int)
}

/// The indices of the characters of some runs, without those that are removed by X9.
fn indices_of(classes: &[BidiClass], runs: &Vec<LevelRun>) -> (indices: Vec<usize>)
    requires
        runs_within(runs@, classes@.len() as int),
    ensures
        as_ints(indices@) == positions(classes@, runs@),
{
    let mut indices: Vec<usize> = Vec::new();
    for r in 0..runs.len()
        invariant
            runs_within(runs@, classes@.len() as int),
            as_ints(indices@) == positions(classes@, runs@.take(r as int)),
    {
        let start: usize = runs[r].start;
        let end: usize = runs[r].end;
        let ghost before = positions(classes@, runs@.take(r as int));
        proof {
            assert(runs@.take(r + 1).drop_last() =~= runs@.take(r as int));
            assert(start < end ==> end <= classes@.len()) by {
                assert(runs@[r as int].start == start);
            }
        }
        let mut i: usize = start;
        while i < end
            invariant
                start <= i,
                i <= end || i == start,
                start < end ==> end <= classes@.len(),
                as_ints(indices@) == before + kept_span(classes@, start as int, i as int),
            decreases end - i,
        {
            let ghost so_far = as_ints(indices@);
            if !removed_by_x9(classes[i]) {
                indices.push(i);
                proof {
                    assert(as_ints(indices@) =~= so_far.push(i as int));
                }
            }
            i += 1;
            proof {
                assert(as_ints(indices@) =~= before + kept_span(
                    classes@,
                    start as int,
                    i as int,
                ));
            }
        }
        proof {
            assert(kept_span(classes@, start as int, i as int) =~= kept_span(
                classes@,
                start as int,
                end as int,
            ));
        }
    }
    proof {
        assert(runs@.take(runs@.len() as int) =~= runs@);
    }
    indices
}

/// W1 at character `k` of a sequence: a nonspacing mark takes the class of the character before
/// it, which at the start is that of the start of the sequence. After an isolate initiator or a
/// PDI it becomes ON.
///
/// http://www.unicode.org/reports/tr9/#W1
pub open spec fn w1_class(s: Seq<BidiClass>, sos: BidiClass, k: int) -> BidiClass
    decreases k,
{
    if s[k] == BidiClass::NSM {
        let prev_class = if k <= 0 {
            sos
        } else {
            w1_class(s, sos, k - 1)
        };
        if initiator(prev_class) || prev_class == BidiClass::PDI {
            BidiClass::ON
        } else {
            prev_class
        }
    } else {
        s[k]
    }
}

/// The classes of a sequence after W1.
pub open spec fn after_w1(s: Seq<BidiClass>, sos: BidiClass) -> Seq<BidiClass> {
    Seq::new(s.len(), |k: int| w1_class(s, sos, k))
}

/// The last strong class before character `k` of a sequence, or else that of the start.
pub open spec fn last_strong(s: Seq<BidiClass>, sos: BidiClass, k: int) -> BidiClass
    decreases k,
{
    if k <= 0 {
        sos
    } else if strong(s[k - 1]) {
        s[k - 1]
    } else {
        last_strong(s, sos, k - 1)
    }
}

/// W2: an EN becomes AN where the last strong class before it is AL.
///
/// http://www.unicode.org/reports/tr9/#W2
pub open spec fn after_w2(s: Seq<BidiClass>, sos: BidiClass) -> Seq<BidiClass> {
    Seq::new(
        s.len(),
        |k: int|
            if s[k] == BidiClass::EN && last_strong(s, sos, k) == BidiClass::AL {
                BidiClass::AN
            } else {
                s[k]
            },
    )
}

/// W3: AL becomes R.
///
/// http://www.unicode.org/reports/tr9/#W3
pub open spec fn after_w3(s: Seq<BidiClass>) -> Seq<BidiClass> {
    Seq::new(
        s.len(),
        |k: int|
            if s[k] == BidiClass::AL {
                BidiClass::R
            } else {
                s[k]
            },
    )
}

/// Does character `k` of a sequence stand between two others of a class?
pub open spec fn is_between(s: Seq<BidiClass>, class: BidiClass, k: int) -> bool {
    0 < k < s.len() - 1 && s[k - 1] == class && s[k + 1] == class
}

/// W4: a single ES between two ENs becomes EN, and a single CS between two numbers of the same
/// class takes that class.
///
/// http://www.unicode.org/reports/tr9/#W4
pub open spec fn after_w4(s: Seq<BidiClass>) -> Seq<BidiClass> {
    Seq::new(
        s.len(),
        |k: int|
            if (s[k] == BidiClass::ES || s[k] == BidiClass::CS) && is_between(
                s,
                BidiClass::EN,
                k,
            ) {
                BidiClass::EN
            } else if s[k] == BidiClass::CS && is_between(s, BidiClass::AN, k) {
                BidiClass::AN
            } else {
                s[k]
            },
    )
}

/// Is there an EN before character `k` of a sequence, with only ETs in between?
pub open spec fn follows_number(s: Seq<BidiClass>, k: int) -> bool
    decreases k,
{
    k > 0 && (s[k - 1] == BidiClass::EN || (s[k - 1] == BidiClass::ET && follows_number(s, k - 1)))
}

/// Is there an EN after character `k` of a sequence, with only ETs in between?
pub open spec fn precedes_number(s: Seq<BidiClass>, k: int) -> bool
    decreases s.len() - k,
{
    k + 1 < s.len() && (s[k + 1] == BidiClass::EN || (s[k + 1] == BidiClass::ET
        && precedes_number(s, k + 1)))
}

/// W5: a run of ETs next to an EN becomes EN.
///
/// http://www.unicode.org/reports/tr9/#W5
pub open spec fn after_w5(s: Seq<BidiClass>) -> Seq<BidiClass> {
    Seq::new(
        s.len(),
        |k: int|
            if s[k] == BidiClass::ET && (follows_number(s, k) || precedes_number(s, k)) {
                BidiClass::EN
            } else {
                s[k]
            },
    )
}

/// W6: the separators and terminators that are left become ON.
///
/// http://www.unicode.org/reports/tr9/#W6
pub open spec fn after_w6(s: Seq<BidiClass>) -> Seq<BidiClass> {
    Seq::new(
        s.len(),
        |k: int|
            if s[k] == BidiClass::ES || s[k] == BidiClass::ET || s[k] == BidiClass::CS {
                BidiClass::ON
            } else {
                s[k]
            },
    )
}

/// W7: an EN becomes L where the last strong class before it is L.
///
/// http://www.unicode.org/reports/tr9/#W7
pub open spec fn after_w7(s: Seq<BidiClass>, sos: BidiClass) -> Seq<BidiClass> {
    Seq::new(
        s.len(),
        |k: int|
            if s[k] == BidiClass::EN && last_strong(s, sos, k) == BidiClass::L {
                BidiClass::L
            } else {
                s[k]
            },
    )
}

/// The classes of a sequence after the rules on weak types, which apply one after the other.
pub open spec fn weak_classes(s: Seq<BidiClass>, sos: BidiClass) -> Seq<BidiClass> {
    after_w7(
        after_w6(after_w5(after_w4(after_w3(after_w2(after_w1(s, sos), sos))))),
        sos,
    )
}

/// The weak classes that the rules on weak types replace wherever they stand, and AL.
pub open spec fn leaves_with_weak_rules(class: BidiClass) -> bool {
    ||| class == BidiClass::AL
    ||| class == BidiClass::NSM
    ||| class == BidiClass::ES
    ||| class == BidiClass::ET
    ||| class == BidiClass::CS
}

proof fn lemma_w1_class(s: Seq<BidiClass>, sos: BidiClass, k: int)
    requires
        0 <= k < s.len(),
    ensures
        sos != BidiClass::NSM ==> w1_class(s, sos, k) != BidiClass::NSM,
        !removed(sos) && (forall|j: int| 0 <= j < s.len() ==> !removed(#[trigger] s[j]))
            ==> !removed(w1_class(s, sos, k)),
    decreases k,
{
    if k > 0 {
        lemma_w1_class(s, sos, k - 1);
    }
}

/// The rules on weak types leave no AL, NSM, ES, ET or CS in a sequence.
pub proof fn weak_rules_replace(s: Seq<BidiClass>, sos: BidiClass)
    requires
        sos != BidiClass::NSM,
    ensures
        forall|k: int|
            0 <= k < s.len() ==> !leaves_with_weak_rules(#[trigger] weak_classes(s, sos)[k]),
{
    assert forall|k: int| 0 <= k < s.len() implies !leaves_with_weak_rules(
        #[trigger] weak_classes(s, sos)[k],
    ) by {
        lemma_w1_class(s, sos, k);
    }
}

/// The rules on weak types turn no character into one that X9 removes.
pub proof fn weak_rules_keep(s: Seq<BidiClass>, sos: BidiClass)
    requires
        !removed(sos),
        forall|k: int| 0 <= k < s.len() ==> !removed(#[trigger] s[k]),
    ensures
        forall|k: int| 0 <= k < s.len() ==> !removed(#[trigger] weak_classes(s, sos)[k]),
{
    assert forall|k: int| 0 <= k < s.len() implies !removed(
        #[trigger] weak_classes(s, sos)[k],
    ) by {
        lemma_w1_class(s, sos, k);
    }
}

/// The classes of a paragraph after the rules on weak types have been applied to one sequence.
pub open spec fn weak_resolved(classes: Seq<BidiClass>, sequence: RunSequence) -> Seq<BidiClass> {
    let indices = positions(classes, sequence.runs);
    replaced(classes, indices, weak_classes(along(classes, indices), sequence.sos))
}

/// W1. A nonspacing mark takes the class of the previous character.
fn resolve_marks(s: &Vec<BidiClass>, sos: BidiClass) -> (classes: Vec<BidiClass>)
    ensures
        classes@ == after_w1(s@, sos),
{
    let mut classes: Vec<BidiClass> = Vec::with_capacity(s.len());
    let mut prev_class = sos;
    for k in 0..s.len()
        invariant
            classes@ == after_w1(s@, sos).take(k as int),
            prev_class == if k == 0 {
                sos
            } else {
                w1_class(s@, sos, k - 1)
            },
    {
        if s[k] == BidiClass::NSM {
            prev_class = match prev_class {
                BidiClass::RLI | BidiClass::LRI | BidiClass::FSI | BidiClass::PDI => BidiClass::ON,
                _ => prev_class,
            };
        } else {
            prev_class = s[k];
        }
        classes.push(prev_class);
        proof {
            assert(classes@ =~= after_w1(s@, sos).take(k + 1));
        }
    }
    proof {
        assert(after_w1(s@, sos).take(s@.len() as int) =~= after_w1(s@, sos));
    }
    classes
}

/// W2. If the previous strong character was AL, change EN to AN.
/// W3. Change AL to R.
fn resolve_arabic(s: &Vec<BidiClass>, sos: BidiClass) -> (classes: Vec<BidiClass>)
    ensures
        classes@ == after_w3(after_w2(s@, sos)),
{
    let ghost expected = after_w3(after_w2(s@, sos));
    let mut classes: Vec<BidiClass> = Vec::with_capacity(s.len());
    let mut last_strong_is_al = sos == BidiClass::AL;
    for k in 0..s.len()
        invariant
            expected == after_w3(after_w2(s@, sos)),
            classes@ == expected.take(k as int),
            last_strong_is_al == (last_strong(s@, sos, k as int) == BidiClass::AL),
    {
        let class = s[k];
        let new_class = match class {
            BidiClass::EN => if last_strong_is_al {
                BidiClass::AN
            } else {
                BidiClass::EN
            },
            BidiClass::AL => BidiClass::R,
            _ => class,
        };
        match class {
            BidiClass::L | BidiClass::R => {
                last_strong_is_al = false;
            },
            BidiClass::AL => {
                last_strong_is_al = true;
            },
            _ => {},
        }
        classes.push(new_class);
        proof {
            assert(classes@ =~= expected.take(k + 1));
        }
    }
    proof {
        assert(expected.take(s@.len() as int) =~= expected);
    }
    classes
}

/// W4. Change a single separator between two numbers.
fn resolve_separators(s: &Vec<BidiClass>) -> (classes: Vec<BidiClass>)
    ensures
        classes@ == after_w4(s@),
{
    let mut classes: Vec<BidiClass> = Vec::with_capacity(s.len());
    for k in 0..s.len()
        invariant
            classes@ == after_w4(s@).take(k as int),
    {
        let class = s[k];
        let new_class = if 0 < k && k < s.len() - 1 {
            match (s[k - 1], class, s[k + 1]) {
                (BidiClass::EN, BidiClass::ES, BidiClass::EN)
                | (BidiClass::EN, BidiClass::CS, BidiClass::EN) => BidiClass::EN,
                (BidiClass::AN, BidiClass::CS, BidiClass::AN) => BidiClass::AN,
                (_, _, _) => class,
            }
        } else {
            class
        };
        classes.push(new_class);
        proof {
            assert(classes@ =~= after_w4(s@).take(k + 1));
        }
    }
    proof {
        assert(after_w4(s@).take(s@.len() as int) =~= after_w4(s@));
    }
    classes
}

/// W5. If a run of ETs is adjacent to an EN, change the ETs to EN.
fn resolve_terminators(s: &Vec<BidiClass>) -> (classes: Vec<BidiClass>)
    ensures
        classes@ == after_w5(s@),
{
    let mut classes: Vec<BidiClass> = Vec::with_capacity(s.len());
    // The ETs after a number.
    let mut after_number = false;
    for k in 0..s.len()
        invariant
            classes@.len() == k,
            forall|j: int|
                0 <= j < k ==> #[trigger] classes@[j] == if s@[j] == BidiClass::ET
                    && follows_number(s@, j) {
                    BidiClass::EN
                } else {
                    s@[j]
                },
            after_number == follows_number(s@, k as int),
    {
        let class = s[k];
        if class == BidiClass::ET && after_number {
            classes.push(BidiClass::EN);
        } else {
            classes.push(class);
            after_number = class == BidiClass::EN;
        }
    }
    // The ETs before a number.
    let mut before_number = false;
    let mut k: usize = s.len();
    while k > 0
        invariant
            k <= s@.len(),
            classes@.len() == s@.len(),
            forall|j: int|
                0 <= j < s@.len() ==> #[trigger] classes@[j] == if s@[j] == BidiClass::ET && (
                follows_number(s@, j) || (j >= k && precedes_number(s@, j))) {
                    BidiClass::EN
                } else {
                    s@[j]
                },
            before_number == precedes_number(s@, k - 1),
        decreases k,
    {
        k -= 1;
        let class = s[k];
        if class == BidiClass::ET && before_number {
            classes[k] = BidiClass::EN;
        } else {
            before_number = class == BidiClass::EN;
        }
    }
    proof {
        assert(classes@ =~= after_w5(s@));
    }
    classes
}

/// W6. Change the other separators and terminators to ON.
/// W7. If the previous strong character was L, change EN to L.
fn resolve_numbers(s: &Vec<BidiClass>, sos: BidiClass) -> (classes: Vec<BidiClass>)
    ensures
        classes@ == after_w7(after_w6(s@), sos),
{
    let ghost expected = after_w7(after_w6(s@), sos);
    let mut classes: Vec<BidiClass> = Vec::with_capacity(s.len());
    let mut last_strong_is_l = sos == BidiClass::L;
    for k in 0..s.len()
        invariant
            expected == after_w7(after_w6(s@), sos),
            classes@ == expected.take(k as int),
            last_strong_is_l == (last_strong(after_w6(s@), sos, k as int) == BidiClass::L),
    {
        let class = s[k];
        let new_class = match class {
            BidiClass::ES | BidiClass::ET | BidiClass::CS => BidiClass::ON,
            BidiClass::EN => if last_strong_is_l {
                BidiClass::L
            } else {
                BidiClass::EN
            },
            _ => class,
        };
        match class {
            BidiClass::L => {
                last_strong_is_l = true;
            },
            BidiClass::R | BidiClass::AL => {
                last_strong_is_l = false;
            },
            _ => {},
        }
        classes.push(new_class);
        proof {
            assert(classes@ =~= expected.take(k + 1));
        }
    }
    proof {
        assert(expected.take(s@.len() as int) =~= expected);
    }
    classes
}

/// Apply the rules on weak types to the classes of a sequence.
fn resolve_weak_types(s: &Vec<BidiClass>, sos: BidiClass) -> (classes: Vec<BidiClass>)
    ensures
        classes@ == weak_classes(s@, sos),
{
    let marked = resolve_marks(s, sos);
    let arabic = resolve_arabic(&marked, sos);
    let separated = resolve_separators(&arabic);
    let terminated = resolve_terminators(&separated);
    resolve_numbers(&terminated, sos)
}

/// The classes at some indices.
fn classes_along(classes: &[BidiClass], indices: &Vec<usize>) -> (result: Vec<BidiClass>)
    requires
        distinct(as_ints(indices@), classes@.len() as int),
    ensures
        result@ == along(classes@, as_ints(indices@)),
{
    let mut result: Vec<BidiClass> = Vec::with_capacity(indices.len());
    for k in 0..indices.len()
        invariant
            distinct(as_ints(indices@), classes@.len() as int),
            result@ == along(classes@, as_ints(indices@)).take(k as int),
    {
        proof {
            assert(0 <= as_ints(indices@)[k as int] < classes@.len());
        }
        result.push(classes[indices[k]]);
    }
    proof {
        let all = along(classes@, as_ints(indices@));
        assert(all.take(indices@.len() as int) =~= all);
    }
    result
}

/// Put new classes at some indices.
fn replace_along(classes: &mut [BidiClass], indices: &Vec<usize>, values: &Vec<BidiClass>)
    requires
        distinct(as_ints(indices@), old(classes)@.len() as int),
        values@.len() == indices@.len(),
    ensures
        final(classes)@ == replaced(old(classes)@, as_ints(indices@), values@),
{
    let ghost before = classes@;
    let ghost pos = as_ints(indices@);
    for k in 0..indices.len()
        invariant
            before == old(classes)@,
            classes@.len() == before.len(),
            pos == as_ints(indices@),
            distinct(pos, before.len() as int),
            values@.len() == indices@.len(),
            forall|i: int|
                0 <= i < before.len() && !pos.contains(i) ==> #[trigger] classes@[i] == before[i],
            forall|j: int| 0 <= j < k ==> classes@[#[trigger] pos[j]] == values@[j],
    {
        proof {
            assert(0 <= pos[k as int] < before.len());
            assert(pos.contains(pos[k as int]));
        }
        classes[indices[k]] = values[k];
    }
    proof {
        assert forall|i: int| 0 <= i < before.len() implies classes@[i] == #[trigger] replaced(
            before,
            pos,
            values@,
        )[i] by {
            if pos.contains(i) {
                assert(pos[pos.index_of(i)] == i);
            }
        }
        assert(classes@ =~= replaced(before, pos, values@));
    }
}

/// 3.3.4 Resolving Weak Types
///
/// http://www.unicode.org/reports/tr9/#Resolving_Weak_Types
pub fn resolve_weak(sequence: &IsolatingRunSequence, classes: &mut [BidiClass])
    requires
        runs_within(sequence@.runs, old(classes)@.len() as int),
        distinct(positions(old(classes)@, sequence@.runs), old(classes)@.len() as int),
    ensures
        final(classes)@ == weak_resolved(old(classes)@, sequence@),
{
    let indices = indices_of(classes, &sequence.runs);
    let s = classes_along(classes, &indices);
    let resolved = resolve_weak_types(&s, sequence.sos);
    replace_along(classes, &indices, &resolved);
}

/// The neutral and isolate formatting characters.
///
/// http://www.unicode.org/reports/tr9/#NI
pub open spec fn neutral(class: BidiClass) -> bool {
    ||| class == BidiClass::B
    ||| class == BidiClass::S
    ||| class == BidiClass::WS
    ||| class == BidiClass::ON
    ||| class == BidiClass::FSI
    ||| class == BidiClass::LRI
    ||| class == BidiClass::RLI
    ||| class == BidiClass::PDI
}

/// http://www.unicode.org/reports/tr9/#NI
fn ni(class: BidiClass) -> (result: bool)
    ensures
        result == neutral(class),
{
    matches!(
        class,
        BidiClass::B | BidiClass::S | BidiClass::WS | BidiClass::ON | BidiClass::FSI
        | BidiClass::LRI | BidiClass::RLI | BidiClass::PDI
    )
}

/// R, and the numbers, which act as if they were R.
pub open spec fn acts_as_r(class: BidiClass) -> bool {
    class == BidiClass::R || class == BidiClass::AN || class == BidiClass::EN
}

/// N1 and N2: the class of a neutral between two others. It is theirs where they agree, and else
/// that of the embedding level.
pub open spec fn class_between(
    prev_class: BidiClass,
    next_class: BidiClass,
    level: u8,
) -> BidiClass {
    if prev_class == BidiClass::L && next_class == BidiClass::L {
        BidiClass::L
    } else if acts_as_r(prev_class) && acts_as_r(next_class) {
        BidiClass::R
    } else {
        direction(level)
    }
}

/// The last class before character `k` that is not neutral, or else that of the start.
pub open spec fn prev_firm(s: Seq<BidiClass>, sos: BidiClass, k: int) -> BidiClass
    decreases k,
{
    if k <= 0 {
        sos
    } else if neutral(s[k - 1]) {
        prev_firm(s, sos, k - 1)
    } else {
        s[k - 1]
    }
}

/// The first class from character `k` on that is not neutral, or else that of the end.
pub open spec fn next_firm(s: Seq<BidiClass>, eos: BidiClass, k: int) -> BidiClass
    decreases s.len() - k,
{
    if k >= s.len() {
        eos
    } else if neutral(s[k]) {
        next_firm(s, eos, k + 1)
    } else {
        s[k]
    }
}

/// What character `k` of a sequence becomes by the rules on neutral types: each character of a
/// run of neutrals goes by the classes on both sides of the run, and the other characters keep
/// their classes.
pub open spec fn neutral_class(
    s: Seq<BidiClass>,
    levels: Seq<u8>,
    sos: BidiClass,
    eos: BidiClass,
    k: int,
) -> BidiClass {
    if neutral(s[k]) {
        class_between(prev_firm(s, sos, k), next_firm(s, eos, k), levels[k])
    } else {
        s[k]
    }
}

/// The classes of a sequence after the rules on neutral types.
pub open spec fn neutral_classes(
    s: Seq<BidiClass>,
    levels: Seq<u8>,
    sos: BidiClass,
    eos: BidiClass,
) -> Seq<BidiClass> {
    Seq::new(s.len(), |k: int| neutral_class(s, levels, sos, eos, k))
}

/// The rules on neutral types leave no neutral in a sequence.
pub proof fn neutral_rules_replace(
    s: Seq<BidiClass>,
    levels: Seq<u8>,
    sos: BidiClass,
    eos: BidiClass,
)
    ensures
        forall|k: int|
            0 <= k < s.len() ==> !neutral(#[trigger] neutral_classes(s, levels, sos, eos)[k]),
{
}

/// The levels at some indices.
pub open spec fn levels_along(levels: Seq<u8>, indices: Seq<int>) -> Seq<u8> {
    Seq::new(indices.len(), |k: int| levels[indices[k]])
}

/// The classes of a paragraph after the rules on neutral types have been applied to one sequence.
pub open spec fn neutral_resolved(
    classes: Seq<BidiClass>,
    levels: Seq<u8>,
    sequence: RunSequence,
) -> Seq<BidiClass> {
    let indices = positions(classes, sequence.runs);
    replaced(
        classes,
        indices,
        neutral_classes(
            along(classes, indices),
            levels_along(levels, indices),
            sequence.sos,
            sequence.eos,
        ),
    )
}

/// The end of the run of neutrals from character `k` on, and the class behind it.
fn neutral_run_end(s: &Vec<BidiClass>, eos: BidiClass, k: usize) -> (result: (usize, BidiClass))
    requires
        k <= s@.len(),
    ensures
        k <= result.0 <= s@.len(),
        forall|j: int| k <= j < result.0 ==> neutral(#[trigger] s@[j]),
        result.0 < s@.len() ==> !neutral(s@[result.0 as int]),
        result.1 == next_firm(s@, eos, k as int),
{
    let mut end: usize = k;
    while end < s.len()
        invariant
            k <= end <= s@.len(),
            forall|j: int| k <= j < end ==> neutral(#[trigger] s@[j]),
            next_firm(s@, eos, k as int) == next_firm(s@, eos, end as int),
        decreases s@.len() - end,
    {
        if !ni(s[end]) {
            return (end, s[end]);
        }
        end += 1;
    }
    (end, eos)
}

/// N1-N2.
fn resolve_between(prev_class: BidiClass, next_class: BidiClass, level: u8) -> (class: BidiClass)
    ensures
        class == class_between(prev_class, next_class, level),
{
    match (prev_class, next_class) {
        (BidiClass::L, BidiClass::L) => BidiClass::L,
        (BidiClass::R, BidiClass::R)
        | (BidiClass::R, BidiClass::AN)
        | (BidiClass::R, BidiClass::EN)
        | (BidiClass::AN, BidiClass::R)
        | (BidiClass::AN, BidiClass::AN)
        | (BidiClass::AN, BidiClass::EN)
        | (BidiClass::EN, BidiClass::R)
        | (BidiClass::EN, BidiClass::AN)
        | (BidiClass::EN, BidiClass::EN) => BidiClass::R,
        (_, _) => class_for_level(level),
    }
}

/// Apply the rules on neutral types to the classes of a sequence.
fn resolve_neutral_types(
    s: &Vec<BidiClass>,
    indices: &Vec<usize>,
    levels: &[u8],
    sos: BidiClass,
    eos: BidiClass,
) -> (classes: Vec<BidiClass>)
    requires
        indices@.len() == s@.len(),
        distinct(as_ints(indices@), levels@.len() as int),
    ensures
        classes@ == neutral_classes(s@, levels_along(levels@, as_ints(indices@)), sos, eos),
{
    let ghost expected = neutral_classes(
        s@,
        levels_along(levels@, as_ints(indices@)),
        sos,
        eos,
    );
    let mut classes: Vec<BidiClass> = Vec::with_capacity(s.len());
    let mut prev_class = sos;
    let mut k: usize = 0;
    while k < s.len()
        invariant
            indices@.len() == s@.len(),
            distinct(as_ints(indices@), levels@.len() as int),
            expected == neutral_classes(s@, levels_along(levels@, as_ints(indices@)), sos, eos),
            k <= s@.len(),
            classes@ == expected.take(k as int),
            prev_class == prev_firm(s@, sos, k as int),
        decreases s@.len() - k,
    {
        if ni(s[k]) {
            // Consume a run of consecutive NI characters.
            let (end, next_class) = neutral_run_end(s, eos, k);
            let ghost first = k as int;
            while k < end
                invariant
                    0 <= first <= k <= end <= s@.len(),
                    indices@.len() == s@.len(),
                    distinct(as_ints(indices@), levels@.len() as int),
                    expected == neutral_classes(
                        s@,
                        levels_along(levels@, as_ints(indices@)),
                        sos,
                        eos,
                    ),
                    forall|j: int| first <= j < end ==> neutral(#[trigger] s@[j]),
                    classes@ == expected.take(k as int),
                    prev_class == prev_firm(s@, sos, k as int),
                    next_class == next_firm(s@, eos, k as int),
                decreases end - k,
            {
                proof {
                    assert(neutral(s@[k as int]));
                    assert(0 <= as_ints(indices@)[k as int] < levels@.len());
                }
                classes.push(resolve_between(prev_class, next_class, levels[indices[k]]));
                k += 1;
                proof {
                    assert(classes@ =~= expected.take(k as int));
                }
            }
        } else {
            prev_class = s[k];
            classes.push(prev_class);
            k += 1;
            proof {
                assert(classes@ =~= expected.take(k as int));
            }
        }
    }
    proof {
        assert(expected.take(s@.len() as int) =~= expected);
    }
    classes
}

/// Is the last character of some runs neutral?
pub open spec fn ends_in_neutral(classes: Seq<BidiClass>, runs: Seq<LevelRun>) -> bool {
    let indices = positions(classes, runs);
    indices.len() > 0 && neutral(classes[indices.last()])
}

/// 3.3.5 Resolving Neutral Types
///
/// A sequence that ends in a neutral needs an end that has a direction.
///
/// http://www.unicode.org/reports/tr9/#Resolving_Neutral_Types
pub fn resolve_neutral(
    sequence: &IsolatingRunSequence,
    levels: &[u8],
    classes: &mut [BidiClass],
)
    requires
        runs_within(sequence@.runs, old(classes)@.len() as int),
        distinct(positions(old(classes)@, sequence@.runs), old(classes)@.len() as int),
        distinct(positions(old(classes)@, sequence@.runs), levels@.len() as int),
        ends_in_neutral(old(classes)@, sequence@.runs) ==> !neutral(sequence@.eos),
    ensures
        final(classes)@ == neutral_resolved(old(classes)@, levels@, sequence@),
{
    let indices = indices_of(classes, &sequence.runs);
    let s = classes_along(classes, &indices);
    let resolved = resolve_neutral_types(&s, &indices, levels, sequence.sos, sequence.eos);
    replace_along(classes, &indices, &resolved);
}

/// The level that a character has in the end.
///
/// http://www.unicode.org/reports/tr9/#Resolving_Implicit_Levels
pub open spec fn implicit_level(level: u8, class: BidiClass) -> int {
    if rtl(level) {
        // I2
        if class == BidiClass::L || class == BidiClass::EN || class == BidiClass::AN {
            level + 1
        } else {
            level as int
        }
    } else {
        // I1
        if class == BidiClass::R {
            level + 1
        } else if class == BidiClass::AN || class == BidiClass::EN {
            level + 2
        } else {
            level as int
        }
    }
}

/// Implicit levels rise by two at the most. L comes to stand at an even level, R at an odd one,
/// and numbers at an even one above their explicit level.
pub proof fn implicit_level_has_direction_of_class(level: u8, class: BidiClass)
    ensures
        level <= implicit_level(level, class) <= level + 2,
        class == BidiClass::L ==> implicit_level(level, class) % 2 == 0,
        class == BidiClass::R ==> implicit_level(level, class) % 2 == 1,
        class == BidiClass::EN || class == BidiClass::AN ==> implicit_level(level, class) % 2 == 0
            && implicit_level(level, class) > level,
{
}

/// Do all characters end up at levels that a `u8` holds?
pub open spec fn implicit_fits(classes: Seq<BidiClass>, levels: Seq<u8>) -> bool {
    forall|i: int|
        0 <= i < levels.len() ==> implicit_level(#[trigger] levels[i], classes[i]) <= u8::MAX
}

/// The levels that the characters have in the end.
pub open spec fn implicit_levels(classes: Seq<BidiClass>, levels: Seq<u8>) -> Seq<u8> {
    Seq::new(levels.len(), |i: int| implicit_level(levels[i], classes[i]) as u8)
}

/// The highest of some levels; zero where there are none.
pub open spec fn highest(levels: Seq<u8>) -> u8
    decreases levels.len(),
{
    if levels.len() == 0 {
        0
    } else {
        higher(highest(levels.drop_last()), levels.last())
    }
}

/// The highest level is one of the levels, and none is above it.
pub proof fn highest_is_greatest(levels: Seq<u8>)
    ensures
        forall|i: int| 0 <= i < levels.len() ==> #[trigger] levels[i] <= highest(levels),
        levels.len() > 0 ==> levels.contains(highest(levels)),
    decreases levels.len(),
{
    if levels.len() > 0 {
        let rest = levels.drop_last();
        highest_is_greatest(rest);
        assert forall|i: int| 0 <= i < levels.len() implies #[trigger] levels[i] <= highest(
            levels,
        ) by {
            if i < rest.len() {
                assert(rest[i] <= highest(rest));
            }
        }
        if highest(levels) == levels.last() {
            assert(levels[levels.len() - 1] == highest(levels));
        } else {
            assert(levels[rest.index_of(highest(rest))] == highest(levels));
        }
    }
}

/// 3.3.6 Resolving Implicit Levels
///
/// Returns the maximum embedding level in the paragraph.
///
/// http://www.unicode.org/reports/tr9/#Resolving_Implicit_Levels
pub fn resolve_levels(classes: &[BidiClass], levels: &mut [u8]) -> (max_level: u8)
    requires
        classes@.len() == old(levels)@.len(),
        implicit_fits(classes@, old(levels)@),
    ensures
        final(levels)@ == implicit_levels(classes@, old(levels)@),
        max_level == highest(final(levels)@),
{
    let ghost before = levels@;
    let ghost expected = implicit_levels(classes@, before);
    let mut max_level: u8 = 0;
    for i in 0..classes.len()
        invariant
            before == old(levels)@,
            expected == implicit_levels(classes@, before),
            classes@.len() == before.len(),
            levels@.len() == before.len(),
            implicit_fits(classes@, before),
            forall|j: int|
                0 <= j < before.len() ==> #[trigger] levels@[j] == if j < i {
                    expected[j]
                } else {
                    before[j]
                },
            max_level == highest(expected.take(i as int)),
    {
        proof {
            assert(implicit_level(before[i as int], classes@[i as int]) <= u8::MAX);
            assert(expected.take(i + 1).drop_last() =~= expected.take(i as int));
        }
        let level: u8 = levels[i];
        levels[i] = match (is_rtl(level), classes[i]) {
            // http://www.unicode.org/reports/tr9/#I1
            (false, BidiClass::R) => level + 1,
            (false, BidiClass::AN) | (false, BidiClass::EN) => level + 2,
            // http://www.unicode.org/reports/tr9/#I2
            (true, BidiClass::L) | (true, BidiClass::EN) | (true, BidiClass::AN) => level + 1,
            (_, _) => level,
        };
        if levels[i] > max_level {
            max_level = levels[i];
        }
    }
    proof {
        assert(expected.take(before.len() as int) =~= expected);
        assert(levels@ =~= expected);
    }
    max_level
}

} // verus!
