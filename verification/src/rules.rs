//! The rules on weak and neutral types and on implicit levels, by what they make of each class.
use vstd::prelude::*;

use crate::explicit::{explicit_classes, explicit_levels};
use crate::implicit::{
    after_w1, after_w2, after_w3, after_w4, after_w5, after_w6, along, follows_number,
    implicit_fits, implicit_level, implicit_levels, increasing, is_between, last_strong, levels_along, neutral_classes,
    neutral_resolved, next_firm, positions, positions_increase, precedes_number, prev_firm,
    replaced, w1_class, weak_classes, weak_resolved,
};
use crate::level::{direction, rtl, LevelRun};
use crate::paragraph::{levels_fit, resolved_levels, resolved_types};
use crate::prepare::{
    isolating_sequences, kept_before, kept_before_is_kept, kept_from, kept_from_is_kept,
    level_runs_are_maximal, removed, runs_of, with_ends, RunSequence,
};
use crate::resolution::{
    kept_character_has_type_of_sequence, positions_hold_runs, positions_lie_in_runs,
    removed_characters_are_ignored,
};
use crate::sequences::{
    are_isolating_run_sequences, in_text_order, sequences_are_isolating_run_sequences,
    sequences_of,
};
use crate::tables::BidiClass;

verus! {

/// L, R and AL.
pub open spec fn lettered(class: BidiClass) -> bool {
    class == BidiClass::L || class == BidiClass::R || class == BidiClass::AL
}

/// EN and AN.
pub open spec fn numbered(class: BidiClass) -> bool {
    class == BidiClass::EN || class == BidiClass::AN
}

/// Whitespace, separators, other neutrals and the isolate formatting characters.
pub open spec fn undirected(class: BidiClass) -> bool {
    ||| class == BidiClass::B
    ||| class == BidiClass::S
    ||| class == BidiClass::WS
    ||| class == BidiClass::ON
    ||| class == BidiClass::FSI
    ||| class == BidiClass::LRI
    ||| class == BidiClass::RLI
    ||| class == BidiClass::PDI
}

/// A sequence without nonspacing marks.
pub open spec fn unmarked(s: Seq<BidiClass>) -> bool {
    forall|k: int| 0 <= k < s.len() ==> #[trigger] s[k] != BidiClass::NSM
}

/// Letters, Arabic numbers and neutrals pass the rules on weak types as they are, but that AL
/// becomes R.
pub proof fn letters_and_neutrals_pass_weak_rules(s: Seq<BidiClass>, sos: BidiClass, k: int)
    requires
        0 <= k < s.len(),
    ensures
        s[k] == BidiClass::AL ==> weak_classes(s, sos)[k] == BidiClass::R,
        s[k] == BidiClass::L || s[k] == BidiClass::R || s[k] == BidiClass::AN || undirected(s[k])
            ==> weak_classes(s, sos)[k] == s[k],
{
}

/// The classes of a sequence before W7.
spec fn before_w7(s: Seq<BidiClass>, sos: BidiClass) -> Seq<BidiClass> {
    after_w6(after_w5(after_w4(after_w3(after_w2(after_w1(s, sos), sos)))))
}

/// What W3 makes of a class.
spec fn without_al(class: BidiClass) -> BidiClass {
    if class == BidiClass::AL {
        BidiClass::R
    } else {
        class
    }
}

proof fn lemma_letters_before_w7(s: Seq<BidiClass>, sos: BidiClass, k: int)
    requires
        0 <= k < s.len(),
    ensures
        lettered(before_w7(s, sos)[k]) == lettered(after_w1(s, sos)[k]),
        lettered(after_w1(s, sos)[k]) ==> before_w7(s, sos)[k] == without_al(after_w1(s, sos)[k]),
{
}

proof fn lemma_last_strong_before_w7(s: Seq<BidiClass>, sos: BidiClass, k: int)
    requires
        0 <= k <= s.len(),
        sos == BidiClass::L || sos == BidiClass::R,
    ensures
        last_strong(before_w7(s, sos), sos, k) == without_al(last_strong(after_w1(s, sos), sos, k)),
    decreases k,
{
    if k > 0 {
        lemma_last_strong_before_w7(s, sos, k - 1);
        lemma_letters_before_w7(s, sos, k - 1);
    }
}

/// The last strong class stays the same where no other strong class follows. Marks only repeat
/// it.
proof fn lemma_last_strong_from(s: Seq<BidiClass>, sos: BidiClass, j: int, k: int)
    requires
        0 <= j < k <= s.len(),
        lettered(s[j]),
        forall|m: int| j < m < k ==> !lettered(#[trigger] s[m]),
    ensures
        last_strong(after_w1(s, sos), sos, k) == s[j],
        lettered(w1_class(s, sos, k - 1)) ==> w1_class(s, sos, k - 1) == s[j],
    decreases k,
{
    if j < k - 1 {
        lemma_last_strong_from(s, sos, j, k - 1);
        assert(!lettered(s[k - 1]));
    }
}

proof fn lemma_last_strong_from_start(s: Seq<BidiClass>, sos: BidiClass, k: int)
    requires
        0 <= k <= s.len(),
        lettered(sos),
        forall|m: int| 0 <= m < k ==> !lettered(#[trigger] s[m]),
    ensures
        last_strong(after_w1(s, sos), sos, k) == sos,
        k > 0 && lettered(w1_class(s, sos, k - 1)) ==> w1_class(s, sos, k - 1) == sos,
    decreases k,
{
    if k > 0 {
        lemma_last_strong_from_start(s, sos, k - 1);
        assert(!lettered(s[k - 1]));
    }
}

/// A European number goes by the last letter before it: after an Arabic letter it is an Arabic
/// number, after L it is L, and after R it stays a European number.
pub proof fn number_goes_by_last_letter(s: Seq<BidiClass>, sos: BidiClass, j: int, k: int)
    requires
        0 <= j < k < s.len(),
        sos == BidiClass::L || sos == BidiClass::R,
        s[k] == BidiClass::EN,
        s[j] == BidiClass::L || s[j] == BidiClass::R || s[j] == BidiClass::AL,
        forall|m: int|
            j < m < k ==> #[trigger] s[m] != BidiClass::L && s[m] != BidiClass::R && s[m]
                != BidiClass::AL,
    ensures
        weak_classes(s, sos)[k] == BidiClass::AN <==> s[j] == BidiClass::AL,
        weak_classes(s, sos)[k] == BidiClass::L <==> s[j] == BidiClass::L,
        weak_classes(s, sos)[k] == BidiClass::EN <==> s[j] == BidiClass::R,
{
    lemma_last_strong_from(s, sos, j, k);
    lemma_last_strong_before_w7(s, sos, k);
}

/// A European number without a letter before it goes by the start of the sequence.
pub proof fn number_goes_by_start(s: Seq<BidiClass>, sos: BidiClass, k: int)
    requires
        0 <= k < s.len(),
        sos == BidiClass::L || sos == BidiClass::R,
        s[k] == BidiClass::EN,
        forall|m: int|
            0 <= m < k ==> #[trigger] s[m] != BidiClass::L && s[m] != BidiClass::R && s[m]
                != BidiClass::AL,
    ensures
        sos == BidiClass::L ==> weak_classes(s, sos)[k] == BidiClass::L,
        sos == BidiClass::R ==> weak_classes(s, sos)[k] == BidiClass::EN,
{
    lemma_last_strong_from_start(s, sos, k);
    lemma_last_strong_before_w7(s, sos, k);
}

/// A nonspacing mark could as well have the class of the character before it, or be ON after an
/// isolate initiator or a PDI; at the start it could have the class of the start.
pub proof fn mark_may_be_replaced(s: Seq<BidiClass>, sos: BidiClass, k: int, class: BidiClass)
    requires
        0 <= k < s.len(),
        s[k] == BidiClass::NSM,
        sos == BidiClass::L || sos == BidiClass::R,
        k > 0 ==> s[k - 1] != BidiClass::NSM,
        class == if k == 0 {
            sos
        } else if s[k - 1] == BidiClass::LRI || s[k - 1] == BidiClass::RLI || s[k - 1]
            == BidiClass::FSI || s[k - 1] == BidiClass::PDI {
            BidiClass::ON
        } else {
            s[k - 1]
        },
    ensures
        weak_classes(s, sos) == weak_classes(s.update(k, class), sos),
{
    let t = s.update(k, class);
    reveal_with_fuel(w1_class, 2);
    assert forall|m: int| 0 <= m < s.len() implies #[trigger] after_w1(s, sos)[m] == after_w1(
        t,
        sos,
    )[m] by {
        lemma_mark_replaced(s, sos, k, class, m);
    }
    assert(after_w1(s, sos) =~= after_w1(t, sos));
}

proof fn lemma_mark_replaced(s: Seq<BidiClass>, sos: BidiClass, k: int, class: BidiClass, m: int)
    requires
        0 <= k < s.len(),
        0 <= m < s.len(),
        class != BidiClass::NSM,
        w1_class(s, sos, k) == class,
    ensures
        w1_class(s, sos, m) == w1_class(s.update(k, class), sos, m),
    decreases m,
{
    if m > 0 {
        lemma_mark_replaced(s, sos, k, class, m - 1);
    }
}

proof fn lemma_unmarked(s: Seq<BidiClass>, sos: BidiClass)
    requires
        unmarked(s),
    ensures
        after_w1(s, sos) == s,
{
    assert(after_w1(s, sos) =~= s);
}

/// A common separator between two numbers that come out alike comes out like them, and any other
/// becomes ON.
pub proof fn common_separator_joins_like_numbers(s: Seq<BidiClass>, sos: BidiClass, k: int)
    requires
        0 <= k < s.len(),
        s[k] == BidiClass::CS,
        unmarked(s),
        sos == BidiClass::L || sos == BidiClass::R,
    ensures
        weak_classes(s, sos)[k] == if 0 < k < s.len() - 1 && numbered(s[k - 1]) && numbered(
            s[k + 1],
        ) && weak_classes(s, sos)[k - 1] == weak_classes(s, sos)[k + 1] {
            weak_classes(s, sos)[k - 1]
        } else {
            BidiClass::ON
        },
{
    lemma_unmarked(s, sos);
    lemma_last_strong_before_w7(s, sos, k);
    if 0 < k < s.len() - 1 {
        lemma_number(s, sos, k - 1);
        lemma_number(s, sos, k + 1);
        reveal_with_fuel(last_strong, 3);
        lemma_last_strong_before_w7(s, sos, k - 1);
        lemma_last_strong_before_w7(s, sos, k + 1);
    }
}

/// What becomes of a European number, by the last strong class.
proof fn lemma_number(s: Seq<BidiClass>, sos: BidiClass, k: int)
    requires
        0 <= k < s.len(),
        unmarked(s),
        sos == BidiClass::L || sos == BidiClass::R,
    ensures
        s[k] == BidiClass::EN ==> weak_classes(s, sos)[k] == if last_strong(s, sos, k)
            == BidiClass::AL {
            BidiClass::AN
        } else if last_strong(s, sos, k) == BidiClass::L {
            BidiClass::L
        } else {
            BidiClass::EN
        },
        s[k] == BidiClass::AN ==> weak_classes(s, sos)[k] == BidiClass::AN,
{
    lemma_unmarked(s, sos);
    lemma_last_strong_before_w7(s, sos, k);
    lemma_last_strong_is_lettered(s, sos, k);
}

proof fn lemma_last_strong_is_lettered(s: Seq<BidiClass>, sos: BidiClass, k: int)
    requires
        lettered(sos),
        k <= s.len(),
    ensures
        lettered(last_strong(s, sos, k)),
    decreases k,
{
    if k > 0 {
        lemma_last_strong_is_lettered(s, sos, k - 1);
    }
}

/// A European separator between two European numbers that did not become Arabic ones comes out
/// like them, and any other becomes ON.
pub proof fn european_separator_joins_european_numbers(
    s: Seq<BidiClass>,
    sos: BidiClass,
    k: int,
)
    requires
        0 <= k < s.len(),
        s[k] == BidiClass::ES,
        unmarked(s),
        sos == BidiClass::L || sos == BidiClass::R,
    ensures
        weak_classes(s, sos)[k] == if 0 < k < s.len() - 1 && s[k - 1] == BidiClass::EN && s[k + 1]
            == BidiClass::EN && weak_classes(s, sos)[k - 1] != BidiClass::AN {
            weak_classes(s, sos)[k - 1]
        } else {
            BidiClass::ON
        },
{
    lemma_unmarked(s, sos);
    lemma_last_strong_before_w7(s, sos, k);
    if 0 < k < s.len() - 1 {
        lemma_number(s, sos, k - 1);
        lemma_number(s, sos, k + 1);
        reveal_with_fuel(last_strong, 3);
        lemma_last_strong_before_w7(s, sos, k - 1);
        lemma_last_strong_before_w7(s, sos, k + 1);
    }
}

/// Does only a row of ETs lie between a European number at `p` and character `k`?
pub open spec fn terminates(s: Seq<BidiClass>, p: int, k: int) -> bool {
    &&& 0 <= p < s.len()
    &&& s[p] == BidiClass::EN
    &&& forall|m: int| (p < m < k || k < m < p) ==> #[trigger] s[m] == BidiClass::ET
}

spec fn before_w5(s: Seq<BidiClass>, sos: BidiClass) -> Seq<BidiClass> {
    after_w4(after_w3(after_w2(after_w1(s, sos), sos)))
}

proof fn lemma_last_strong_same(s: Seq<BidiClass>, sos: BidiClass, j: int, k: int)
    requires
        0 <= j <= k <= s.len(),
        forall|m: int| j <= m < k ==> !lettered(#[trigger] s[m]),
    ensures
        last_strong(s, sos, k) == last_strong(s, sos, j),
    decreases k,
{
    if j < k {
        assert(!lettered(s[k - 1]));
        lemma_last_strong_same(s, sos, j, k - 1);
    }
}

proof fn lemma_follows(u: Seq<BidiClass>, p: int, k: int)
    requires
        0 <= p < k < u.len(),
        u[p] == BidiClass::EN,
        forall|m: int| p < m < k ==> #[trigger] u[m] == BidiClass::ET,
    ensures
        follows_number(u, k),
    decreases k - p,
{
    if p < k - 1 {
        lemma_follows(u, p, k - 1);
        assert(u[k - 1] == BidiClass::ET);
    }
}

proof fn lemma_precedes(u: Seq<BidiClass>, p: int, k: int)
    requires
        0 <= k < p < u.len(),
        u[p] == BidiClass::EN,
        forall|m: int| k < m < p ==> #[trigger] u[m] == BidiClass::ET,
    ensures
        precedes_number(u, k),
    decreases p - k,
{
    if k + 1 < p {
        lemma_precedes(u, p, k + 1);
        assert(u[k + 1] == BidiClass::ET);
    }
}

proof fn lemma_followed(u: Seq<BidiClass>, k: int) -> (p: int)
    requires
        0 <= k < u.len(),
        follows_number(u, k),
    ensures
        0 <= p < k,
        u[p] == BidiClass::EN,
        forall|m: int| p < m < k ==> #[trigger] u[m] == BidiClass::ET,
    decreases k,
{
    if u[k - 1] == BidiClass::EN {
        k - 1
    } else {
        lemma_followed(u, k - 1)
    }
}

proof fn lemma_preceded(u: Seq<BidiClass>, k: int) -> (p: int)
    requires
        0 <= k < u.len(),
        precedes_number(u, k),
    ensures
        k < p < u.len(),
        u[p] == BidiClass::EN,
        forall|m: int| k < m < p ==> #[trigger] u[m] == BidiClass::ET,
    decreases u.len() - k,
{
    if u[k + 1] == BidiClass::EN {
        k + 1
    } else {
        lemma_preceded(u, k + 1)
    }
}

/// A terminator next to a European number that did not become an Arabic one, with only
/// terminators in between, comes out like the number.
pub proof fn terminator_goes_with_number(s: Seq<BidiClass>, sos: BidiClass, p: int, k: int)
    requires
        0 <= k < s.len(),
        s[k] == BidiClass::ET,
        unmarked(s),
        sos == BidiClass::L || sos == BidiClass::R,
        terminates(s, p, k),
        weak_classes(s, sos)[p] != BidiClass::AN,
    ensures
        weak_classes(s, sos)[k] == weak_classes(s, sos)[p],
{
    let u = before_w5(s, sos);
    let t = before_w7(s, sos);
    lemma_unmarked(s, sos);
    lemma_number(s, sos, p);
    assert(u[p] == BidiClass::EN);
    assert forall|m: int| (p < m < k || k < m < p) implies #[trigger] u[m] == BidiClass::ET by {
        assert(s[m] == BidiClass::ET);
    }
    assert(u[k] == BidiClass::ET);
    if p < k {
        lemma_follows(u, p, k);
        assert forall|m: int| p <= m < k implies !lettered(#[trigger] t[m]) by {
            assert(u[m] == BidiClass::ET || u[m] == BidiClass::EN);
        }
        lemma_last_strong_same(t, sos, p, k);
    } else {
        lemma_precedes(u, p, k);
        assert forall|m: int| k <= m < p implies !lettered(#[trigger] t[m]) by {
            assert(u[m] == BidiClass::ET);
        }
        lemma_last_strong_same(t, sos, k, p);
    }
}

/// Any other terminator becomes ON.
pub proof fn other_terminators_become_neutral(s: Seq<BidiClass>, sos: BidiClass, k: int)
    requires
        0 <= k < s.len(),
        s[k] == BidiClass::ET,
        unmarked(s),
        sos == BidiClass::L || sos == BidiClass::R,
        forall|p: int|
            #[trigger] terminates(s, p, k) ==> weak_classes(s, sos)[p] == BidiClass::AN,
    ensures
        weak_classes(s, sos)[k] == BidiClass::ON,
{
    let u = before_w5(s, sos);
    lemma_unmarked(s, sos);
    if follows_number(u, k) {
        let p = lemma_followed(u, k);
        lemma_joined(s, sos, p, k);
    }
    if precedes_number(u, k) {
        let p = lemma_preceded(u, k);
        lemma_joined(s, sos, p, k);
    }
}

/// An EN before W5 with only ETs between it and an ET was one from the start.
proof fn lemma_joined(s: Seq<BidiClass>, sos: BidiClass, p: int, k: int)
    requires
        0 <= k < s.len(),
        0 <= p < s.len(),
        p != k,
        s[k] == BidiClass::ET,
        unmarked(s),
        sos == BidiClass::L || sos == BidiClass::R,
        before_w5(s, sos)[p] == BidiClass::EN,
        forall|m: int|
            (p < m < k || k < m < p) ==> #[trigger] before_w5(s, sos)[m] == BidiClass::ET,
    ensures
        terminates(s, p, k),
        weak_classes(s, sos)[p] != BidiClass::AN,
{
    let u = before_w5(s, sos);
    lemma_unmarked(s, sos);
    assert forall|m: int| (p < m < k || k < m < p) implies #[trigger] s[m] == BidiClass::ET by {
        assert(u[m] == BidiClass::ET);
    }
    let n = if p < k {
        p + 1
    } else {
        p - 1
    };
    assert(s[n] == BidiClass::ET);
    let arabic = after_w3(after_w2(after_w1(s, sos), sos));
    assert(arabic[n] == BidiClass::ET);
    assert(!is_between(arabic, BidiClass::EN, p));
    assert(s[p] == BidiClass::EN);
    lemma_number(s, sos, p);
}

proof fn lemma_prev_firm(s: Seq<BidiClass>, sos: BidiClass, p: int, k: int)
    requires
        -1 <= p < k <= s.len(),
        p >= 0 ==> !undirected(s[p]),
        forall|m: int| p < m < k ==> undirected(#[trigger] s[m]),
    ensures
        prev_firm(s, sos, k) == if p >= 0 {
            s[p]
        } else {
            sos
        },
    decreases k,
{
    if p < k - 1 {
        assert(undirected(s[k - 1]));
        lemma_prev_firm(s, sos, p, k - 1);
    }
}

proof fn lemma_next_firm(s: Seq<BidiClass>, eos: BidiClass, k: int, q: int)
    requires
        0 <= k <= q <= s.len(),
        q < s.len() ==> !undirected(s[q]),
        forall|m: int| k <= m < q ==> undirected(#[trigger] s[m]),
    ensures
        next_firm(s, eos, k) == if q < s.len() {
            s[q]
        } else {
            eos
        },
    decreases q - k,
{
    if k < q {
        assert(undirected(s[k]));
        lemma_next_firm(s, eos, k + 1, q);
    }
}

/// A neutral in a run of neutrals between the characters `p` and `q`, where -1 stands for the
/// start of the sequence and its length for the end. Between L and L it becomes L. Between R and
/// R, R and a number, a number and R, or two numbers it becomes R. Between any other two it
/// becomes L at an even level and R at an odd one.
pub proof fn neutral_goes_by_both_sides(
    s: Seq<BidiClass>,
    levels: Seq<u8>,
    sos: BidiClass,
    eos: BidiClass,
    p: int,
    k: int,
    q: int,
)
    requires
        -1 <= p < k < q <= s.len(),
        p >= 0 ==> !undirected(s[p]),
        q < s.len() ==> !undirected(s[q]),
        forall|m: int| p < m < q ==> undirected(#[trigger] s[m]),
    ensures
        ({
            let prev = if p >= 0 {
                s[p]
            } else {
                sos
            };
            let next = if q < s.len() {
                s[q]
            } else {
                eos
            };
            neutral_classes(s, levels, sos, eos)[k] == match (prev, next) {
                (BidiClass::L, BidiClass::L) => BidiClass::L,
                (BidiClass::R, BidiClass::R) => BidiClass::R,
                (BidiClass::R, BidiClass::EN) => BidiClass::R,
                (BidiClass::R, BidiClass::AN) => BidiClass::R,
                (BidiClass::EN, BidiClass::R) => BidiClass::R,
                (BidiClass::EN, BidiClass::EN) => BidiClass::R,
                (BidiClass::EN, BidiClass::AN) => BidiClass::R,
                (BidiClass::AN, BidiClass::R) => BidiClass::R,
                (BidiClass::AN, BidiClass::EN) => BidiClass::R,
                (BidiClass::AN, BidiClass::AN) => BidiClass::R,
                _ => if levels[k] % 2 == 1 {
                    BidiClass::R
                } else {
                    BidiClass::L
                },
            }
        }),
{
    assert(undirected(s[k]));
    lemma_prev_firm(s, sos, p, k);
    lemma_next_firm(s, eos, k, q);
}

/// Other classes pass the rules on neutral types as they are.
pub proof fn other_classes_pass_neutral_rules(
    s: Seq<BidiClass>,
    levels: Seq<u8>,
    sos: BidiClass,
    eos: BidiClass,
    k: int,
)
    requires
        0 <= k < s.len(),
        !undirected(s[k]),
    ensures
        neutral_classes(s, levels, sos, eos)[k] == s[k],
{
}

/// The implicit level of L is the least even level that is not below the explicit one, that of R
/// the least such odd level, and that of a number the least even level above the explicit one.
/// Other classes stay at their level.
pub proof fn implicit_level_is_least(level: u8, class: BidiClass)
    ensures
        class == BidiClass::L ==> {
            &&& implicit_level(level, class) % 2 == 0
            &&& level <= implicit_level(level, class) < level + 2
        },
        class == BidiClass::R ==> {
            &&& implicit_level(level, class) % 2 == 1
            &&& level <= implicit_level(level, class) < level + 2
        },
        class == BidiClass::EN || class == BidiClass::AN ==> {
            &&& implicit_level(level, class) % 2 == 0
            &&& level < implicit_level(level, class) <= level + 2
        },
        class != BidiClass::L && class != BidiClass::R && class != BidiClass::EN && class
            != BidiClass::AN ==> implicit_level(level, class) == level,
{
}

/// The levels of a paragraph after the implicit rules are the least ones that its classes ask for,
/// one by one.
pub proof fn implicit_levels_are_least(classes: Seq<BidiClass>, levels: Seq<u8>, i: int)
    requires
        classes.len() == levels.len(),
        implicit_fits(classes, levels),
        0 <= i < levels.len(),
    ensures
        implicit_levels(classes, levels).len() == levels.len(),
        ({
            let after = implicit_levels(classes, levels)[i];
            match classes[i] {
                BidiClass::L => after % 2 == 0 && levels[i] <= after < levels[i] + 2,
                BidiClass::R => after % 2 == 1 && levels[i] <= after < levels[i] + 2,
                BidiClass::EN => after % 2 == 0 && levels[i] < after <= levels[i] + 2,
                BidiClass::AN => after % 2 == 0 && levels[i] < after <= levels[i] + 2,
                _ => after == levels[i],
            }
        }),
{
    assert(implicit_level(levels[i], classes[i]) <= u8::MAX);
}

/// The embedding and override initiators, PDF and BN are ignored after X9, and no others.
pub proof fn removed_classes(class: BidiClass)
    ensures
        removed(class) <==> ignored(class),
{
}

/// RLE, LRE, RLO, LRO, PDF and BN.
pub open spec fn ignored(class: BidiClass) -> bool {
    ||| class == BidiClass::RLE
    ||| class == BidiClass::LRE
    ||| class == BidiClass::RLO
    ||| class == BidiClass::LRO
    ||| class == BidiClass::PDF
    ||| class == BidiClass::BN
}

/// Level 0 is left-to-right, the direction changes from each level to the next, and a level has
/// the class of its direction.
pub proof fn directions_alternate(level: u8)
    ensures
        !rtl(0),
        level < u8::MAX ==> rtl((level + 1) as u8) == !rtl(level),
        rtl(level) ==> direction(level) == BidiClass::R,
        !rtl(level) ==> direction(level) == BidiClass::L,
{
}

/// The positions in runs that are in text order: the indices of those characters of the runs that
/// are not ignored, each once, in text order.
pub proof fn positions_are_characters_of_runs(
    classes: Seq<BidiClass>,
    runs: Seq<LevelRun>,
    n: int,
)
    requires
        in_text_order(runs, n),
    ensures
        forall|j: int, k: int|
            0 <= j < k < positions(classes, runs).len() ==> #[trigger] positions(classes, runs)[j]
                < #[trigger] positions(classes, runs)[k],
        forall|i: int| #[trigger]
            positions(classes, runs).contains(i) <==> lies_in(runs, i) && !ignored(classes[i]),
{
    positions_increase(classes, runs, n);
    assert forall|i: int| #[trigger]
        positions(classes, runs).contains(i) <==> lies_in(runs, i) && !ignored(classes[i]) by {
        if positions(classes, runs).contains(i) {
            let r = positions_lie_in_runs(classes, runs, i);
            assert(runs[r].start <= i < runs[r].end);
        } else if lies_in(runs, i) && !ignored(classes[i]) {
            let r = choose|r: int|
                0 <= r < runs.len() && (#[trigger] runs[r]).start <= i < runs[r].end;
            positions_hold_runs(classes, runs, r, i);
        }
    }
}

/// Does a character lie in one of the runs?
pub open spec fn lies_in(runs: Seq<LevelRun>, i: int) -> bool {
    exists|r: int| 0 <= r < runs.len() && (#[trigger] runs[r]).start <= i < runs[r].end
}

/// The rules on weak types change the characters at the positions of a sequence, by their classes
/// alone, and no others.
pub proof fn weak_rules_apply_at_positions(classes: Seq<BidiClass>, sequence: RunSequence)
    requires
        in_text_order(sequence.runs, classes.len() as int),
    ensures
        ({
            let at = positions(classes, sequence.runs);
            let met = Seq::new(at.len(), |k: int| classes[at[k]]);
            let result = weak_resolved(classes, sequence);
            &&& result.len() == classes.len()
            &&& forall|k: int|
                0 <= k < at.len() ==> result[#[trigger] at[k]] == weak_classes(
                    met,
                    sequence.sos,
                )[k]
            &&& forall|i: int|
                0 <= i < classes.len() && !at.contains(i) ==> #[trigger] result[i] == classes[i]
        }),
{
    let at = positions(classes, sequence.runs);
    let met = Seq::new(at.len(), |k: int| classes[at[k]]);
    positions_increase(classes, sequence.runs, classes.len() as int);
    assert(along(classes, at) =~= met);
    lemma_put(classes, at, weak_classes(met, sequence.sos));
}

/// The rules on neutral types change the characters at the positions of a sequence, by their
/// classes and levels and the two ends, and no others.
pub proof fn neutral_rules_apply_at_positions(
    classes: Seq<BidiClass>,
    levels: Seq<u8>,
    sequence: RunSequence,
)
    requires
        in_text_order(sequence.runs, classes.len() as int),
    ensures
        ({
            let at = positions(classes, sequence.runs);
            let met = Seq::new(at.len(), |k: int| classes[at[k]]);
            let met_levels = Seq::new(at.len(), |k: int| levels[at[k]]);
            let result = neutral_resolved(classes, levels, sequence);
            &&& result.len() == classes.len()
            &&& forall|k: int|
                0 <= k < at.len() ==> result[#[trigger] at[k]] == neutral_classes(
                    met,
                    met_levels,
                    sequence.sos,
                    sequence.eos,
                )[k]
            &&& forall|i: int|
                0 <= i < classes.len() && !at.contains(i) ==> #[trigger] result[i] == classes[i]
        }),
{
    let at = positions(classes, sequence.runs);
    let met = Seq::new(at.len(), |k: int| classes[at[k]]);
    let met_levels = Seq::new(at.len(), |k: int| levels[at[k]]);
    positions_increase(classes, sequence.runs, classes.len() as int);
    assert(along(classes, at) =~= met);
    assert(levels_along(levels, at) =~= met_levels);
    lemma_put(classes, at, neutral_classes(met, met_levels, sequence.sos, sequence.eos));
}

proof fn lemma_put(classes: Seq<BidiClass>, at: Seq<int>, values: Seq<BidiClass>)
    requires
        increasing(at, classes.len() as int),
        values.len() == at.len(),
    ensures
        forall|k: int|
            0 <= k < at.len() ==> replaced(classes, at, values)[#[trigger] at[k]] == values[k],
{
    assert forall|k: int| 0 <= k < at.len() implies replaced(classes, at, values)[#[trigger] at[k]]
        == values[k] by {
        assert(at.contains(at[k]));
        let p = at.index_of(at[k]);
        assert(at[p] == at[k]);
        if p < k {
            assert(at[p] < at[k]);
        } else if k < p {
            assert(at[k] < at[p]);
        }
    }
}

/// The level that a character which is not ignored has in the end: from its explicit level, and
/// from what the rules on weak and neutral types make of it in its sequence.
pub proof fn level_comes_from_sequence(
    para_level: u8,
    classes: Seq<BidiClass>,
    i: int,
) -> (at: (int, int))
    requires
        classes.len() <= usize::MAX,
        0 <= i < classes.len(),
        !ignored(classes[i]),
        levels_fit(para_level, classes),
    ensures
        ({
            let levels = explicit_levels(para_level, classes);
            let sequences = isolating_sequences(para_level, classes, levels);
            let sequence = sequences[at.0];
            let places = positions(classes, sequence.runs);
            let met = Seq::new(
                places.len(),
                |k: int| explicit_classes(para_level, classes)[places[k]],
            );
            let met_levels = Seq::new(places.len(), |k: int| levels[places[k]]);
            &&& 0 <= at.0 < sequences.len()
            &&& 0 <= at.1 < places.len()
            &&& places[at.1] == i
            &&& resolved_levels(para_level, classes)[i] == implicit_level(
                levels[i],
                neutral_classes(
                    weak_classes(met, sequence.sos),
                    met_levels,
                    sequence.sos,
                    sequence.eos,
                )[at.1],
            )
        }),
{
    let levels = explicit_levels(para_level, classes);
    let at = kept_character_has_type_of_sequence(para_level, classes, i);
    let sequence = isolating_sequences(para_level, classes, levels)[at.0];
    let places = positions(classes, sequence.runs);
    let met = Seq::new(
        places.len(),
        |k: int| explicit_classes(para_level, classes)[places[k]],
    );
    let met_levels = Seq::new(places.len(), |k: int| levels[places[k]]);
    assert(along(explicit_classes(para_level, classes), places) =~= met);
    assert(levels_along(levels, places) =~= met_levels);
    let types = resolved_types(para_level, classes);
    assert(implicit_level(levels[i], types[i]) <= u8::MAX);
    at
}

/// A character that is ignored stays at its explicit level.
pub proof fn ignored_character_keeps_level(para_level: u8, classes: Seq<BidiClass>, i: int)
    requires
        classes.len() <= usize::MAX,
        0 <= i < classes.len(),
        ignored(classes[i]),
    ensures
        resolved_levels(para_level, classes)[i] == explicit_levels(para_level, classes)[i],
{
    removed_characters_are_ignored(para_level, classes, i);
}

/// R at an odd level, and L at an even one.
pub open spec fn class_at_level(level: u8) -> BidiClass {
    if level % 2 == 1 {
        BidiClass::R
    } else {
        BidiClass::L
    }
}

/// The greater of two levels.
pub open spec fn greater_level(a: u8, b: u8) -> u8 {
    if a < b {
        b
    } else {
        a
    }
}

/// The start of a sequence goes by the greater of its level and that of the last character before
/// it that is not ignored, or that of the paragraph where there is none. Here `p` is the place of
/// that character, or -1.
pub proof fn start_goes_by_greater_level(
    para_level: u8,
    classes: Seq<BidiClass>,
    levels: Seq<u8>,
    runs: Seq<LevelRun>,
    p: int,
)
    requires
        runs.len() > 0,
        -1 <= p < runs[0].start <= classes.len(),
        p >= 0 ==> !ignored(classes[p]),
        forall|m: int| p < m < runs[0].start ==> ignored(#[trigger] classes[m]),
    ensures
        with_ends(para_level, classes, levels, runs).runs == runs,
        with_ends(para_level, classes, levels, runs).sos == class_at_level(
            greater_level(
                levels[runs[0].start as int],
                if p >= 0 {
                    levels[p]
                } else {
                    para_level
                },
            ),
        ),
{
    reveal(with_ends);
    let start = runs[0].start as int;
    kept_before_is_kept(classes, start);
    match kept_before(classes, start) {
        Some(k) => {
            if k < p {
                assert(removed(classes[p]));
            } else if p < k {
                assert(ignored(classes[k]));
            }
        },
        None => {
            if p >= 0 {
                assert(removed(classes[p]));
            }
        },
    }
}

/// The end of a sequence whose last character is an isolate initiator goes by the greater of its
/// level and that of the paragraph. Here `l` is the place of that character; what follows it in
/// the last run is ignored.
pub proof fn end_behind_initiator_goes_by_paragraph(
    para_level: u8,
    classes: Seq<BidiClass>,
    levels: Seq<u8>,
    runs: Seq<LevelRun>,
    l: int,
)
    requires
        runs.len() > 0,
        runs.last().start <= l < runs.last().end <= classes.len(),
        classes[l] == BidiClass::LRI || classes[l] == BidiClass::RLI || classes[l]
            == BidiClass::FSI,
        forall|m: int| l < m < runs.last().end ==> ignored(#[trigger] classes[m]),
    ensures
        with_ends(para_level, classes, levels, runs).eos == class_at_level(
            greater_level(levels[runs[0].start as int], para_level),
        ),
{
    reveal(with_ends);
    let end = runs.last().end as int;
    lemma_last_kept(classes, l, end);
}

proof fn lemma_last_kept(classes: Seq<BidiClass>, l: int, end: int)
    requires
        0 <= l < end <= classes.len(),
        !ignored(classes[l]),
        forall|m: int| l < m < end ==> ignored(#[trigger] classes[m]),
    ensures
        kept_before(classes, end) == Some(l),
{
    kept_before_is_kept(classes, end);
    match kept_before(classes, end) {
        Some(k) => {
            if k < l {
                assert(removed(classes[l]));
            } else if l < k {
                assert(ignored(classes[k]));
            }
        },
        None => {
            assert(removed(classes[l]));
        },
    }
}

/// The end of any other sequence goes by the greater of its level and that of the next character
/// after it that is not ignored, or that of the paragraph where there is none. Here `l` is the
/// place of the last character of the sequence that is not ignored, and `q` that of the next one,
/// or the length of the paragraph.
pub proof fn end_goes_by_greater_level(
    para_level: u8,
    classes: Seq<BidiClass>,
    levels: Seq<u8>,
    runs: Seq<LevelRun>,
    l: int,
    q: int,
)
    requires
        runs.len() > 0,
        runs.last().start <= l < runs.last().end <= q <= classes.len(),
        !ignored(classes[l]),
        classes[l] != BidiClass::LRI && classes[l] != BidiClass::RLI && classes[l]
            != BidiClass::FSI,
        forall|m: int| l < m < runs.last().end ==> ignored(#[trigger] classes[m]),
        forall|m: int| runs.last().end <= m < q ==> ignored(#[trigger] classes[m]),
        q < classes.len() ==> !ignored(classes[q]),
    ensures
        with_ends(para_level, classes, levels, runs).eos == class_at_level(
            greater_level(
                levels[runs[0].start as int],
                if q < classes.len() {
                    levels[q]
                } else {
                    para_level
                },
            ),
        ),
{
    reveal(with_ends);
    let end = runs.last().end as int;
    lemma_last_kept(classes, l, end);
    kept_from_is_kept(classes, end);
    match kept_from(classes, end) {
        Some(k) => {
            if k < q {
                assert(ignored(classes[k]));
            } else if q < k {
                assert(removed(classes[q]));
            }
        },
        None => {
            if q < classes.len() {
                assert(removed(classes[q]));
            }
        },
    }
}

/// The isolating run sequences of a paragraph are the sequences of its level runs, with their
/// ends.
pub proof fn isolating_sequences_have_ends(
    para_level: u8,
    classes: Seq<BidiClass>,
    levels: Seq<u8>,
)
    requires
        levels.len() == classes.len(),
        classes.len() <= usize::MAX,
    ensures
        ({
            let sequences = isolating_sequences(para_level, classes, levels);
            &&& are_isolating_run_sequences(
                Seq::new(sequences.len(), |a: int| sequences[a].runs),
                classes,
                runs_of(levels, classes),
            )
            &&& sequences.len() == sequences_of(classes, runs_of(levels, classes)).len()
            &&& forall|a: int|
                0 <= a < sequences.len() ==> #[trigger] sequences[a] == with_ends(
                    para_level,
                    classes,
                    levels,
                    sequences_of(classes, runs_of(levels, classes))[a],
                )
        }),
{
    let sequences = isolating_sequences(para_level, classes, levels);
    let runs = runs_of(levels, classes);
    level_runs_are_maximal(levels, classes, levels.len() as int);
    sequences_are_isolating_run_sequences(classes, runs);
    assert forall|a: int| 0 <= a < sequences.len() implies #[trigger] sequences[a] == with_ends(
        para_level,
        classes,
        levels,
        sequences[a].runs,
    ) && sequences[a].runs == sequences_of(classes, runs)[a] by {
        reveal(with_ends);
    }
    assert(Seq::new(sequences.len(), |a: int| sequences[a].runs) =~= sequences_of(classes, runs));
}

} // verus!
