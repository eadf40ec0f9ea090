//! Isolates and embeddings by how they nest: what is open where, and what the first letter, the
//! explicit levels and the overrides follow from that.
use vstd::prelude::*;

use crate::explicit::{
    below_isolate, directions, explicit_classes, explicit_levels, Directions,
    OverrideStatus, Status,
};
use crate::initial::{
    first_strong, first_strong_is_first, paragraph_level, settled_classes, text_classes,
};
use crate::isolates::{
    innermost_isolate, matching_pdi, open_isolates, open_isolates_are_initiators,
};
use crate::tables::{class_of, BidiClass};

verus! {

/// LRI, RLI and FSI.
pub open spec fn opens_isolate(class: BidiClass) -> bool {
    class == BidiClass::LRI || class == BidiClass::RLI || class == BidiClass::FSI
}

/// LRE, RLE, LRO and RLO.
pub open spec fn opens_embedding(class: BidiClass) -> bool {
    ||| class == BidiClass::LRE
    ||| class == BidiClass::RLE
    ||| class == BidiClass::LRO
    ||| class == BidiClass::RLO
}

/// How many isolates open from `from` up to `to`.
pub open spec fn isolates_opened(classes: Seq<BidiClass>, from: int, to: int) -> int
    decreases to - from,
{
    if to <= from {
        0
    } else {
        isolates_opened(classes, from, to - 1) + if opens_isolate(classes[to - 1]) {
            1int
        } else {
            0int
        }
    }
}

/// How many PDIs there are from `from` up to `to`.
pub open spec fn pdis_met(classes: Seq<BidiClass>, from: int, to: int) -> int
    decreases to - from,
{
    if to <= from {
        0
    } else {
        pdis_met(classes, from, to - 1) + if classes[to - 1] == BidiClass::PDI {
            1int
        } else {
            0int
        }
    }
}

/// Does character `k` stand in the isolate that opens at `i`? It does if at no place between
/// them more PDIs have been met than isolates opened.
pub open spec fn stands_in(classes: Seq<BidiClass>, i: int, k: int) -> bool {
    &&& 0 <= i < k <= classes.len()
    &&& opens_isolate(classes[i])
    &&& forall|m: int|
        i < m <= k ==> #[trigger] pdis_met(classes, i + 1, m) <= isolates_opened(classes, i + 1, m)
}

/// Does character `k` stand in the isolate that opens at `i`, and in none that opens in it?
pub open spec fn stands_directly_in(classes: Seq<BidiClass>, i: int, k: int) -> bool {
    &&& stands_in(classes, i, k)
    &&& forall|j: int| i < j < k ==> !#[trigger] stands_in(classes, j, k)
}

/// Does character `k` stand in no isolate?
pub open spec fn stands_outside(classes: Seq<BidiClass>, k: int) -> bool {
    forall|i: int| !#[trigger] stands_in(classes, i, k)
}

/// Where an open isolate stands among the open ones.
proof fn lemma_open_isolate(classes: Seq<BidiClass>, i: int, k: int) -> (p: int)
    requires
        0 <= i < k <= classes.len(),
    ensures
        stands_in(classes, i, k) ==> {
            &&& 0 <= p < open_isolates(classes, k).len()
            &&& open_isolates(classes, k)[p] == i
            &&& open_isolates(classes, k).len() - 1 - p == isolates_opened(classes, i + 1, k) - pdis_met(
                classes,
                i + 1,
                k,
            )
        },
        !stands_in(classes, i, k) ==> !open_isolates(classes, k).contains(i),
    decreases k,
{
    open_isolates_are_initiators(classes, k - 1);
    let before = open_isolates(classes, k - 1);
    let after = open_isolates(classes, k);
    if k == i + 1 {
        if opens_isolate(classes[i]) {
            assert(isolates_opened(classes, i + 1, k) == 0 && pdis_met(classes, i + 1, k) == 0);
            assert(stands_in(classes, i, k));
            before.len() as int
        } else {
            if after.contains(i) {
                let q = after.index_of(i);
                assert(before[q] == i);
            }
            0
        }
    } else {
        let p = lemma_open_isolate(classes, i, k - 1);
        if stands_in(classes, i, k) {
            assert(stands_in(classes, i, k - 1)) by {
                assert forall|m: int| i < m <= k - 1 implies #[trigger] pdis_met(classes, i + 1, m)
                    <= isolates_opened(classes, i + 1, m) by {}
            }
            assert(pdis_met(classes, i + 1, k) <= isolates_opened(classes, i + 1, k));
        } else if after.contains(i) {
            let q = after.index_of(i);
            assert(after[q] == i);
            assert(before[q] == i);
            assert(before.contains(i));
            assert(stands_in(classes, i, k - 1));
            assert(q == p) by {
                assert(before[p] == i);
                if q < p {
                    assert(before[q] < before[p]);
                } else if p < q {
                    assert(before[p] < before[q]);
                }
            }
            assert forall|m: int| i < m <= k implies #[trigger] pdis_met(classes, i + 1, m)
                <= isolates_opened(classes, i + 1, m) by {}
        }
        p
    }
}

/// An isolate is open before a character just where the character stands in it.
pub proof fn open_isolates_are_those_around(classes: Seq<BidiClass>, i: int, k: int)
    requires
        0 <= k <= classes.len(),
    ensures
        open_isolates(classes, k).contains(i) <==> stands_in(classes, i, k),
{
    open_isolates_are_initiators(classes, k);
    if 0 <= i < k {
        let p = lemma_open_isolate(classes, i, k);
    } else if open_isolates(classes, k).contains(i) {
        let q = open_isolates(classes, k).index_of(i);
        assert(open_isolates(classes, k)[q] == i);
    }
}

/// The innermost isolate is the one that a character stands directly in.
pub proof fn innermost_isolate_is_directly_around(classes: Seq<BidiClass>, k: int)
    requires
        0 <= k <= classes.len(),
    ensures
        forall|i: int|
            innermost_isolate(classes, k) == Some(i) <==> #[trigger] stands_directly_in(
                classes,
                i,
                k,
            ),
        innermost_isolate(classes, k) is None <==> stands_outside(classes, k),
{
    let open = open_isolates(classes, k);
    open_isolates_are_initiators(classes, k);
    assert forall|i: int| open.contains(i) == #[trigger] stands_in(classes, i, k) by {
        open_isolates_are_those_around(classes, i, k);
    }
    if open.len() > 0 {
        let last = open[open.len() - 1];
        assert(open.contains(last));
        assert(stands_in(classes, last, k));
        assert forall|j: int| last < j < k implies !#[trigger] stands_in(classes, j, k) by {
            if stands_in(classes, j, k) {
                assert(open.contains(j));
                let q = open.index_of(j);
                assert(open[q] == j);
            }
        }
        assert(stands_directly_in(classes, last, k));
        assert forall|i: int| #[trigger] stands_directly_in(classes, i, k) implies i == last by {
            assert(open.contains(i));
            let q = open.index_of(i);
            assert(open[q] == i);
            if i < last {
                assert(!stands_in(classes, last, k));
            }
        }
    } else {
        assert forall|i: int| !#[trigger] stands_in(classes, i, k) by {
            assert(!open.contains(i));
        }
    }
}

/// A PDI matches an isolate initiator just where it stands in the isolate, and all isolates that
/// open in between are closed in between.
pub proof fn matching_pdi_by_counting(classes: Seq<BidiClass>, i: int, j: int)
    ensures
        matching_pdi(classes, i, j) <==> {
            &&& 0 <= j < classes.len()
            &&& classes[j] == BidiClass::PDI
            &&& stands_in(classes, i, j)
            &&& isolates_opened(classes, i + 1, j) == pdis_met(classes, i + 1, j)
        },
{
    if 0 <= j < classes.len() {
        let open = open_isolates(classes, j);
        open_isolates_are_those_around(classes, i, j);
        open_isolates_are_initiators(classes, j);
        if stands_in(classes, i, j) {
            let p = lemma_open_isolate(classes, i, j);
            if innermost_isolate(classes, j) == Some(i) && p < open.len() - 1 {
                assert(open[p] < open[open.len() - 1]);
            }
        } else if innermost_isolate(classes, j) == Some(i) {
            assert(open[open.len() - 1] == i);
            assert(open.contains(i));
        }
    }
}

/// L, R and AL.
pub open spec fn letter(class: BidiClass) -> bool {
    class == BidiClass::L || class == BidiClass::R || class == BidiClass::AL
}

/// The classes of the characters of a text.
pub open spec fn classes_in(text: Seq<char>) -> Seq<BidiClass> {
    Seq::new(text.len(), |i: int| class_of(text[i]))
}

/// The first letter outside isolates gives the level of a paragraph: 0 if it is L, and 1 if it is
/// R or AL.
pub proof fn first_letter_gives_paragraph_level(text: Seq<char>, k: int)
    requires
        0 <= k < text.len(),
        letter(class_of(text[k])),
        stands_outside(classes_in(text), k),
        forall|m: int|
            0 <= m < k && #[trigger] stands_outside(classes_in(text), m) ==> !letter(
                class_of(text[m]),
            ),
    ensures
        class_of(text[k]) == BidiClass::L ==> paragraph_level(text, None) == 0,
        class_of(text[k]) != BidiClass::L ==> paragraph_level(text, None) == 1,
{
    let classes = text_classes(text);
    assert(classes =~= classes_in(text));
    first_strong_is_first(classes, None, 0);
    innermost_isolate_is_directly_around(classes, k);
    assert(letter(classes[k]));
    match first_strong(classes, None, 0) {
        Some(m) => {
            innermost_isolate_is_directly_around(classes, m);
            assert(letter(class_of(text[m])));
            assert(stands_outside(classes_in(text), m));
            assert(m == k);
        },
        None => {
            assert(innermost_isolate(classes, k) is None);
        },
    }
}

/// Without a letter outside isolates the level of a paragraph is 0.
pub proof fn paragraph_without_letters_is_left_to_right(text: Seq<char>)
    requires
        forall|m: int|
            0 <= m < text.len() && #[trigger] stands_outside(classes_in(text), m) ==> !letter(
                class_of(text[m]),
            ),
    ensures
        paragraph_level(text, None) == 0,
{
    let classes = text_classes(text);
    assert(classes =~= classes_in(text));
    first_strong_is_first(classes, None, 0);
    match first_strong(classes, None, 0) {
        Some(m) => {
            innermost_isolate_is_directly_around(classes, m);
            assert(stands_outside(classes_in(text), m));
        },
        None => {},
    }
}

/// A level that is given is the level of the paragraph, whatever the text.
pub proof fn given_level_is_paragraph_level(text: Seq<char>, level: u8)
    ensures
        paragraph_level(text, Some(level)) == level,
{
}

/// An FSI takes its direction from the first letter that stands directly in its isolate: it
/// becomes LRI if that is L, and RLI if it is R or AL.
pub proof fn first_letter_gives_direction_of_isolate(text: Seq<char>, i: int, k: int)
    requires
        0 <= i < k < text.len(),
        class_of(text[i]) == BidiClass::FSI,
        letter(class_of(text[k])),
        stands_directly_in(classes_in(text), i, k),
        forall|m: int|
            i < m < k && #[trigger] stands_directly_in(classes_in(text), i, m) ==> !letter(
                class_of(text[m]),
            ),
    ensures
        class_of(text[k]) == BidiClass::L ==> settled_classes(text)[i] == BidiClass::LRI,
        class_of(text[k]) != BidiClass::L ==> settled_classes(text)[i] == BidiClass::RLI,
{
    let classes = text_classes(text);
    assert(classes =~= classes_in(text));
    first_strong_is_first(classes, Some(i), i + 1);
    innermost_isolate_is_directly_around(classes, k);
    assert(innermost_isolate(classes, k) == Some(i));
    assert(letter(classes[k]));
    match first_strong(classes, Some(i), i + 1) {
        Some(m) => {
            innermost_isolate_is_directly_around(classes, m);
            assert(stands_directly_in(classes_in(text), i, m));
            assert(letter(class_of(text[m])));
            assert(m == k);
        },
        None => {},
    }
}

/// An FSI without such a letter stays an FSI, and all other characters keep their classes.
pub proof fn other_classes_are_kept(text: Seq<char>, i: int)
    requires
        0 <= i < text.len(),
        class_of(text[i]) == BidiClass::FSI ==> forall|m: int|
            i < m < text.len() && #[trigger] stands_directly_in(classes_in(text), i, m)
                ==> !letter(class_of(text[m])),
    ensures
        settled_classes(text).len() == text.len(),
        settled_classes(text)[i] == class_of(text[i]),
{
    let classes = text_classes(text);
    assert(classes =~= classes_in(text));
    if class_of(text[i]) == BidiClass::FSI {
        first_strong_is_first(classes, Some(i), i + 1);
        match first_strong(classes, Some(i), i + 1) {
            Some(m) => {
                innermost_isolate_is_directly_around(classes, m);
                assert(stands_directly_in(classes_in(text), i, m));
            },
            None => {},
        }
    }
}

/// What is left of some openers when a PDI has closed the last isolate among them, with all that
/// opened in it.
pub open spec fn before_last_isolate(classes: Seq<BidiClass>, openers: Seq<int>) -> Seq<int>
    decreases openers.len(),
{
    if openers.len() == 0 {
        openers
    } else if opens_isolate(classes[openers.last()]) {
        openers.drop_last()
    } else {
        before_last_isolate(classes, openers.drop_last())
    }
}

/// Is there an isolate among some openers?
pub open spec fn holds_isolate(classes: Seq<BidiClass>, openers: Seq<int>) -> bool {
    exists|p: int| 0 <= p < openers.len() && opens_isolate(classes[#[trigger] openers[p]])
}

/// The characters whose embeddings and isolates are open before character `k`, the innermost
/// last, however deep they nest. A PDF closes the innermost if that is an embedding; a PDI closes
/// the innermost isolate with all that opened in it.
pub open spec fn open_at(classes: Seq<BidiClass>, k: int) -> Seq<int>
    decreases k,
{
    if k <= 0 {
        Seq::empty()
    } else {
        let before = open_at(classes, k - 1);
        let class = classes[k - 1];
        if opens_isolate(class) || opens_embedding(class) {
            before.push(k - 1)
        } else if class == BidiClass::PDI && holds_isolate(classes, before) {
            before_last_isolate(classes, before)
        } else if class == BidiClass::PDF && before.len() > 0 && opens_embedding(
            classes[before.last()],
        ) {
            before.drop_last()
        } else {
            before
        }
    }
}

/// The least odd level above a level for RLE, RLO and RLI, and the least even one for the others.
pub open spec fn level_above(level: int, class: BidiClass) -> int {
    if class == BidiClass::RLE || class == BidiClass::RLO || class == BidiClass::RLI {
        level + 1 + level % 2
    } else {
        level + 2 - level % 2
    }
}

/// The level in nested embeddings and isolates, one in the other.
pub open spec fn level_in(para_level: u8, classes: Seq<BidiClass>, openers: Seq<int>) -> int
    decreases openers.len(),
{
    if openers.len() == 0 {
        para_level as int
    } else {
        level_above(
            level_in(para_level, classes, openers.drop_last()),
            classes[openers.last()],
        )
    }
}

/// How many of some openers, from the outermost on, lead to levels up to 125. What opens in one
/// that does not has no effect.
pub open spec fn effective(para_level: u8, classes: Seq<BidiClass>, openers: Seq<int>) -> int
    decreases openers.len(),
{
    if openers.len() == 0 {
        0
    } else {
        let outer = effective(para_level, classes, openers.drop_last());
        if outer == openers.len() - 1 && level_in(para_level, classes, openers) <= 125 {
            openers.len() as int
        } else {
            outer
        }
    }
}

/// The level before character `k`.
pub open spec fn level_before(para_level: u8, classes: Seq<BidiClass>, k: int) -> int {
    let openers = open_at(classes, k);
    level_in(para_level, classes, openers.take(effective(para_level, classes, openers)))
}

proof fn lemma_effective(para_level: u8, classes: Seq<BidiClass>, openers: Seq<int>)
    ensures
        0 <= effective(para_level, classes, openers) <= openers.len(),
    decreases openers.len(),
{
    if openers.len() > 0 {
        lemma_effective(para_level, classes, openers.drop_last());
    }
}

proof fn lemma_effective_take(
    para_level: u8,
    classes: Seq<BidiClass>,
    openers: Seq<int>,
    n: int,
)
    requires
        0 <= n <= openers.len(),
    ensures
        effective(para_level, classes, openers.take(n)) == if n <= effective(
            para_level,
            classes,
            openers,
        ) {
            n
        } else {
            effective(para_level, classes, openers)
        },
    decreases openers.len(),
{
    lemma_effective(para_level, classes, openers);
    if n == openers.len() {
        assert(openers.take(n) =~= openers);
    } else {
        let rest = openers.drop_last();
        lemma_effective(para_level, classes, rest);
        lemma_effective_take(para_level, classes, rest, n);
        assert(rest.take(n) =~= openers.take(n));
    }
}

spec fn isolates_in(classes: Seq<BidiClass>, openers: Seq<int>) -> nat
    decreases openers.len(),
{
    if openers.len() == 0 {
        0
    } else {
        isolates_in(classes, openers.drop_last()) + if opens_isolate(classes[openers.last()]) {
            1nat
        } else {
            0nat
        }
    }
}

/// How many embeddings come before the first isolate.
spec fn leading_embeddings(classes: Seq<BidiClass>, openers: Seq<int>) -> nat
    decreases openers.len(),
{
    if openers.len() == 0 {
        0
    } else if isolates_in(classes, openers) == 0 {
        openers.len()
    } else {
        leading_embeddings(classes, openers.drop_last())
    }
}

spec fn entry(para_level: u8, classes: Seq<BidiClass>, openers: Seq<int>, n: int) -> Status {
    if n <= 0 {
        Status { level: para_level, status: OverrideStatus::Neutral }
    } else {
        let class = classes[openers[n - 1]];
        Status {
            level: level_in(para_level, classes, openers.take(n)) as u8,
            status: if class == BidiClass::RLO {
                OverrideStatus::RTL
            } else if class == BidiClass::LRO {
                OverrideStatus::LTR
            } else if opens_isolate(class) {
                OverrideStatus::Isolate
            } else {
                OverrideStatus::Neutral
            },
        }
    }
}

/// What a directional status has to do with the openers that are open.
spec fn follows(
    status: Directions,
    para_level: u8,
    classes: Seq<BidiClass>,
    openers: Seq<int>,
) -> bool {
    let n = effective(para_level, classes, openers);
    let beyond = openers.skip(n);
    &&& status.stack.len() == n + 1
    &&& forall|m: int|
        0 <= m <= n ==> #[trigger] status.stack[m] == entry(para_level, classes, openers, m)
    &&& status.overflow_isolates == isolates_in(classes, beyond)
    &&& status.overflow_embeddings == leading_embeddings(classes, beyond)
    &&& status.valid_isolates == isolates_in(classes, openers.take(n))
}

proof fn lemma_effective_level(para_level: u8, classes: Seq<BidiClass>, openers: Seq<int>)
    ensures
        0 <= effective(para_level, classes, openers) <= openers.len(),
        effective(para_level, classes, openers) > 0 ==> 0 <= level_in(
            para_level,
            classes,
            openers.take(effective(para_level, classes, openers)),
        ) <= 125,
    decreases openers.len(),
{
    if openers.len() > 0 {
        let rest = openers.drop_last();
        let n = effective(para_level, classes, openers);
        lemma_effective_level(para_level, classes, rest);
        lemma_level_in(para_level, classes, openers);
        if n == openers.len() {
            assert(openers.take(n) =~= openers);
        } else {
            assert(openers.take(n) =~= rest.take(n));
        }
    }
}

proof fn lemma_level_in(para_level: u8, classes: Seq<BidiClass>, openers: Seq<int>)
    ensures
        level_in(para_level, classes, openers) >= para_level,
    decreases openers.len(),
{
    if openers.len() > 0 {
        lemma_level_in(para_level, classes, openers.drop_last());
    }
}

/// Entries go by the outermost openers alone.
proof fn lemma_entry_take(
    para_level: u8,
    classes: Seq<BidiClass>,
    left: Seq<int>,
    right: Seq<int>,
    n: int,
    m: int,
)
    requires
        m <= n <= left.len(),
        n <= right.len(),
        left.take(n) == right.take(n),
    ensures
        entry(para_level, classes, left, m) == entry(para_level, classes, right, m),
{
    if m > 0 {
        assert(left.take(m) =~= left.take(n).take(m));
        assert(right.take(m) =~= right.take(n).take(m));
        assert(left[m - 1] == left.take(n)[m - 1]);
        assert(right[m - 1] == right.take(n)[m - 1]);
    }
}

proof fn lemma_isolates_append(classes: Seq<BidiClass>, left: Seq<int>, right: Seq<int>)
    ensures
        isolates_in(classes, left + right) == isolates_in(classes, left) + isolates_in(
            classes,
            right,
        ),
    decreases right.len(),
{
    if right.len() == 0 {
        assert(left + right =~= left);
    } else {
        lemma_isolates_append(classes, left, right.drop_last());
        assert((left + right).drop_last() =~= left + right.drop_last());
    }
}

proof fn lemma_holds_isolate(classes: Seq<BidiClass>, openers: Seq<int>)
    ensures
        holds_isolate(classes, openers) <==> isolates_in(classes, openers) > 0,
    decreases openers.len(),
{
    if openers.len() > 0 {
        let rest = openers.drop_last();
        lemma_holds_isolate(classes, rest);
        if opens_isolate(classes[openers.last()]) {
            assert(opens_isolate(classes[openers[openers.len() - 1]]));
        } else if holds_isolate(classes, openers) {
            let p = choose|p: int|
                0 <= p < openers.len() && opens_isolate(classes[#[trigger] openers[p]]);
            assert(rest[p] == openers[p]);
        } else if holds_isolate(classes, rest) {
            let p = choose|p: int|
                0 <= p < rest.len() && opens_isolate(classes[#[trigger] rest[p]]);
            assert(openers[p] == rest[p]);
        }
    }
}

proof fn lemma_before_last_isolate(classes: Seq<BidiClass>, openers: Seq<int>)
    requires
        isolates_in(classes, openers) > 0,
    ensures
        before_last_isolate(classes, openers).len() < openers.len(),
        before_last_isolate(classes, openers) == openers.take(
            before_last_isolate(classes, openers).len() as int,
        ),
        isolates_in(classes, before_last_isolate(classes, openers)) == isolates_in(
            classes,
            openers,
        ) - 1,
        leading_embeddings(classes, before_last_isolate(classes, openers)) == leading_embeddings(
            classes,
            openers,
        ),
    decreases openers.len(),
{
    let rest = openers.drop_last();
    if !opens_isolate(classes[openers.last()]) {
        lemma_before_last_isolate(classes, rest);
        let n = before_last_isolate(classes, openers).len() as int;
        assert(rest.take(n) =~= openers.take(n));
    } else {
        assert(rest =~= openers.take(openers.len() - 1));
    }
}

proof fn lemma_before_last_isolate_append(
    classes: Seq<BidiClass>,
    left: Seq<int>,
    right: Seq<int>,
)
    ensures
        before_last_isolate(classes, left + right) == if isolates_in(classes, right) > 0 {
            left + before_last_isolate(classes, right)
        } else {
            before_last_isolate(classes, left)
        },
    decreases right.len(),
{
    if right.len() == 0 {
        assert(left + right =~= left);
    } else {
        assert((left + right).drop_last() =~= left + right.drop_last());
        assert((left + right).last() == right.last());
        if !opens_isolate(classes[right.last()]) {
            lemma_before_last_isolate_append(classes, left, right.drop_last());
        }
    }
}

proof fn lemma_below_isolate(classes: Seq<BidiClass>, stack: Seq<Status>, openers: Seq<int>)
    requires
        stack.len() == openers.len() + 1,
        forall|m: int|
            0 <= m < stack.len() ==> ((#[trigger] stack[m]).status == OverrideStatus::Isolate) == (m
                >= 1 && opens_isolate(classes[openers[m - 1]])),
        isolates_in(classes, openers) > 0,
    ensures
        below_isolate(stack) == stack.take(before_last_isolate(classes, openers).len() as int + 1),
    decreases openers.len(),
{
    let n = openers.len() as int;
    assert(stack[n] == stack.last());
    if opens_isolate(classes[openers.last()]) {
        assert(stack.drop_last() =~= stack.take(n));
    } else {
        lemma_below_isolate(classes, stack.drop_last(), openers.drop_last());
        lemma_before_last_isolate(classes, openers.drop_last());
        let l = before_last_isolate(classes, openers).len() as int + 1;
        assert(stack.drop_last().take(l) =~= stack.take(l));
    }
}

/// All openers are embedding or isolate initiators before `k`.
proof fn lemma_open_at(classes: Seq<BidiClass>, k: int)
    requires
        k <= classes.len(),
    ensures
        forall|p: int|
            0 <= p < open_at(classes, k).len() ==> 0 <= #[trigger] open_at(classes, k)[p] < k && (
            opens_isolate(classes[open_at(classes, k)[p]]) || opens_embedding(
                classes[open_at(classes, k)[p]],
            )),
    decreases k,
{
    if k > 0 {
        lemma_open_at(classes, k - 1);
        let before = open_at(classes, k - 1);
        if classes[k - 1] == BidiClass::PDI && holds_isolate(classes, before) {
            lemma_holds_isolate(classes, before);
            lemma_before_last_isolate(classes, before);
            let after = open_at(classes, k);
            assert forall|p: int| 0 <= p < after.len() implies #[trigger] after[p]
                == before[p] by {
                assert(after[p] == before.take(after.len() as int)[p]);
            }
        }
    }
}

proof fn lemma_follows_opener(
    status: Directions,
    para_level: u8,
    classes: Seq<BidiClass>,
    openers: Seq<int>,
    k: int,
)
    requires
        follows(status, para_level, classes, openers),
        opens_isolate(classes[k]) || opens_embedding(classes[k]),
    ensures
        follows(status.after(classes[k]), para_level, classes, openers.push(k)),
        status.admits(classes[k]) == (effective(para_level, classes, openers.push(k))
            == openers.len() + 1),
        status.admits(classes[k]) ==> status.level_inside(classes[k]) == level_in(
            para_level,
            classes,
            openers.push(k),
        ),
{
    let class = classes[k];
    let n = effective(para_level, classes, openers);
    let more = openers.push(k);
    let beyond = openers.skip(n);
    let next = status.after(class);
    lemma_effective_level(para_level, classes, openers);
    assert(more.drop_last() =~= openers);
    assert(status.stack[n] == entry(para_level, classes, openers, n));
    assert(openers.len() == n ==> openers.take(n) =~= openers);
    if n == openers.len() {
        assert(beyond =~= Seq::empty());
        assert(status.level_inside(class) == level_in(para_level, classes, more));
    } else {
        assert(beyond.len() > 0);
    }
    let l = effective(para_level, classes, more);
    if status.admits(class) {
        assert(l == n + 1);
        assert(more.take(l) =~= more);
        assert(more.skip(l) =~= Seq::empty());
        lemma_effective_level(para_level, classes, more);
        assert forall|m: int| 0 <= m <= l implies #[trigger] next.stack[m] == entry(
            para_level,
            classes,
            more,
            m,
        ) by {
            if m <= n {
                assert(more.take(n) =~= openers.take(n));
                lemma_entry_take(para_level, classes, openers, more, n, m);
                assert(next.stack[m] == status.stack[m]);
            }
        }
    } else {
        assert(l == n);
        assert(more.take(n) =~= openers.take(n));
        assert(more.skip(n) =~= beyond.push(k));
        assert(beyond.push(k).drop_last() =~= beyond);
        assert forall|m: int| 0 <= m <= n implies #[trigger] next.stack[m] == entry(
            para_level,
            classes,
            more,
            m,
        ) by {
            lemma_entry_take(para_level, classes, openers, more, n, m);
            assert(next.stack[m] == status.stack[m]);
        }
    }
}

proof fn lemma_follows_pdi(
    status: Directions,
    para_level: u8,
    classes: Seq<BidiClass>,
    openers: Seq<int>,
)
    requires
        follows(status, para_level, classes, openers),
        holds_isolate(classes, openers),
    ensures
        follows(
            status.after(BidiClass::PDI),
            para_level,
            classes,
            before_last_isolate(classes, openers),
        ),
{
    let n = effective(para_level, classes, openers);
    let inner = openers.take(n);
    let beyond = openers.skip(n);
    let less = before_last_isolate(classes, openers);
    let next = status.after(BidiClass::PDI);
    lemma_effective_level(para_level, classes, openers);
    lemma_holds_isolate(classes, openers);
    assert(openers =~= inner + beyond);
    lemma_isolates_append(classes, inner, beyond);
    lemma_before_last_isolate_append(classes, inner, beyond);
    lemma_before_last_isolate(classes, openers);
    let l = less.len() as int;
    lemma_effective_take(para_level, classes, openers, l);
    assert(less == openers.take(l));
    if status.overflow_isolates > 0 {
        lemma_before_last_isolate(classes, beyond);
        assert(less.take(n) =~= inner);
        assert(less.skip(n) =~= before_last_isolate(classes, beyond));
        assert forall|m: int| 0 <= m <= n implies #[trigger] next.stack[m] == entry(
            para_level,
            classes,
            less,
            m,
        ) by {
            lemma_entry_take(para_level, classes, openers, less, n, m);
            assert(next.stack[m] == status.stack[m]);
        }
    } else {
        lemma_before_last_isolate(classes, inner);
        assert forall|m: int| 0 <= m < status.stack.len() implies ((
        #[trigger] status.stack[m]).status == OverrideStatus::Isolate) == (m >= 1 && opens_isolate(
            classes[inner[m - 1]],
        )) by {
            assert(status.stack[m] == entry(para_level, classes, openers, m));
        }
        lemma_below_isolate(classes, status.stack, inner);
        assert(less.take(l) =~= less);
        assert(less.skip(l) =~= Seq::empty());
        assert forall|m: int| 0 <= m <= l implies #[trigger] next.stack[m] == entry(
            para_level,
            classes,
            less,
            m,
        ) by {
            assert(openers.take(l) =~= less.take(l));
            lemma_entry_take(para_level, classes, openers, less, l, m);
            assert(next.stack[m] == status.stack[m]);
        }
    }
}

proof fn lemma_follows_pdf(
    status: Directions,
    para_level: u8,
    classes: Seq<BidiClass>,
    openers: Seq<int>,
)
    requires
        follows(status, para_level, classes, openers),
        openers.len() > 0,
        opens_embedding(classes[openers.last()]),
    ensures
        follows(status.after(BidiClass::PDF), para_level, classes, openers.drop_last()),
{
    let n = effective(para_level, classes, openers);
    let beyond = openers.skip(n);
    let less = openers.drop_last();
    let next = status.after(BidiClass::PDF);
    lemma_effective_level(para_level, classes, openers);
    assert(less =~= openers.take(openers.len() - 1));
    lemma_effective_take(para_level, classes, openers, openers.len() - 1);
    if n < openers.len() {
        assert(beyond.last() == openers.last());
        assert(less.skip(n) =~= beyond.drop_last());
        assert(less.take(n) =~= openers.take(n));
        assert(isolates_in(classes, beyond.drop_last()) == isolates_in(classes, beyond));
        assert forall|m: int| 0 <= m <= n implies #[trigger] next.stack[m] == entry(
            para_level,
            classes,
            less,
            m,
        ) by {
            lemma_entry_take(para_level, classes, openers, less, n, m);
            assert(next.stack[m] == status.stack[m]);
        }
    } else {
        assert(beyond =~= Seq::empty());
        assert(less.skip(n - 1) =~= Seq::empty());
        assert(less.take(n - 1) =~= less);
        assert(openers.take(n) =~= openers);
        assert(status.stack[n] == entry(para_level, classes, openers, n));
        assert(status.closes_embedding());
        assert forall|m: int| 0 <= m <= n - 1 implies #[trigger] next.stack[m] == entry(
            para_level,
            classes,
            less,
            m,
        ) by {
            assert(openers.take(n - 1) =~= less.take(n - 1));
            lemma_entry_take(para_level, classes, openers, less, n - 1, m);
            assert(next.stack[m] == status.stack[m]);
        }
    }
}

proof fn lemma_directions_follow(para_level: u8, classes: Seq<BidiClass>, k: int)
    requires
        0 <= k <= classes.len(),
    ensures
        follows(
            directions(para_level, classes, k),
            para_level,
            classes,
            open_at(classes, k),
        ),
    decreases k,
{
    if k == 0 {
        let none = open_at(classes, 0);
        assert(none.skip(0) =~= none);
        assert(none.take(0) =~= none);
    } else {
        lemma_directions_follow(para_level, classes, k - 1);
        lemma_open_at(classes, k - 1);
        let status = directions(para_level, classes, k - 1);
        let before = open_at(classes, k - 1);
        let class = classes[k - 1];
        let n = effective(para_level, classes, before);
        lemma_effective_level(para_level, classes, before);
        if opens_isolate(class) || opens_embedding(class) {
            lemma_follows_opener(status, para_level, classes, before, k - 1);
        } else if class == BidiClass::PDI {
            lemma_holds_isolate(classes, before);
            assert(before =~= before.take(n) + before.skip(n));
            lemma_isolates_append(classes, before.take(n), before.skip(n));
            if holds_isolate(classes, before) {
                lemma_follows_pdi(status, para_level, classes, before);
            }
        } else if class == BidiClass::PDF {
            if before.len() > 0 && opens_embedding(classes[before.last()]) {
                lemma_follows_pdf(status, para_level, classes, before);
            } else {
                assert(status.after(class) == status) by {
                    if before.len() > 0 {
                        assert(opens_isolate(classes[before[before.len() - 1]]));
                        if n < before.len() {
                            assert(before.skip(n).last() == before.last());
                            assert(isolates_in(classes, before.skip(n)) > 0);
                        } else {
                            assert(before.skip(n) =~= Seq::empty());
                            assert(status.stack[n] == entry(para_level, classes, before, n));
                        }
                    } else {
                        assert(before.skip(n) =~= Seq::empty());
                    }
                }
            }
        }
    }
}

/// Characters that take a level and an override from what is open around them.
pub open spec fn ordinary(class: BidiClass) -> bool {
    &&& !opens_isolate(class)
    &&& !opens_embedding(class)
    &&& class != BidiClass::PDI
    &&& class != BidiClass::PDF
    &&& class != BidiClass::B
    &&& class != BidiClass::BN
}

/// An ordinary character is at the level of what is open around it, up to 125. Directly inside an
/// effective LRO it becomes L and directly inside an effective RLO it becomes R, whatever its
/// class; elsewhere it keeps its class.
pub proof fn ordinary_character_goes_by_what_is_open(
    para_level: u8,
    classes: Seq<BidiClass>,
    k: int,
)
    requires
        0 <= k < classes.len(),
        ordinary(classes[k]),
    ensures
        explicit_levels(para_level, classes)[k] == level_before(para_level, classes, k),
        ({
            let openers = open_at(classes, k);
            let n = effective(para_level, classes, openers);
            explicit_classes(para_level, classes)[k] == if n > 0 && classes[openers[n - 1]]
                == BidiClass::LRO {
                BidiClass::L
            } else if n > 0 && classes[openers[n - 1]] == BidiClass::RLO {
                BidiClass::R
            } else {
                classes[k]
            }
        }),
{
    let openers = open_at(classes, k);
    let n = effective(para_level, classes, openers);
    let status = directions(para_level, classes, k);
    lemma_directions_follow(para_level, classes, k);
    lemma_effective_level(para_level, classes, openers);
    assert(status.stack[n] == entry(para_level, classes, openers, n));
    assert(n == 0 ==> openers.take(n) =~= Seq::empty());
}

/// An isolate initiator is at the level around it, and a PDI at the level that follows it. They
/// keep their classes.
pub proof fn isolate_formatting_goes_by_what_is_open(
    para_level: u8,
    classes: Seq<BidiClass>,
    k: int,
)
    requires
        0 <= k < classes.len(),
        opens_isolate(classes[k]) || classes[k] == BidiClass::PDI,
    ensures
        opens_isolate(classes[k]) ==> explicit_levels(para_level, classes)[k] == level_before(
            para_level,
            classes,
            k,
        ),
        classes[k] == BidiClass::PDI ==> explicit_levels(para_level, classes)[k] == level_before(
            para_level,
            classes,
            k + 1,
        ),
        explicit_classes(para_level, classes)[k] == classes[k],
{
    let at = if classes[k] == BidiClass::PDI {
        k + 1
    } else {
        k
    };
    let openers = open_at(classes, at);
    let n = effective(para_level, classes, openers);
    let status = directions(para_level, classes, at);
    lemma_directions_follow(para_level, classes, at);
    lemma_effective_level(para_level, classes, openers);
    assert(status.stack[n] == entry(para_level, classes, openers, n));
    assert(n == 0 ==> openers.take(n) =~= Seq::empty());
}

/// An embedding initiator is at the level inside if it is effective, and else at that of the
/// paragraph. A PDF is at the level that follows it if all that is open before it is effective,
/// and else at that of the paragraph. B and BN are at the level of the paragraph. All of them keep
/// their classes.
pub proof fn other_formatting_goes_by_what_is_open(
    para_level: u8,
    classes: Seq<BidiClass>,
    k: int,
)
    requires
        0 <= k < classes.len(),
        opens_embedding(classes[k]) || classes[k] == BidiClass::PDF || classes[k] == BidiClass::B
            || classes[k] == BidiClass::BN,
    ensures
        opens_embedding(classes[k]) ==> explicit_levels(para_level, classes)[k] == if effective(
            para_level,
            classes,
            open_at(classes, k + 1),
        ) == open_at(classes, k + 1).len() {
            level_before(para_level, classes, k + 1)
        } else {
            para_level as int
        },
        classes[k] == BidiClass::PDF ==> explicit_levels(para_level, classes)[k] == if effective(
            para_level,
            classes,
            open_at(classes, k),
        ) == open_at(classes, k).len() {
            level_before(para_level, classes, k + 1)
        } else {
            para_level as int
        },
        classes[k] == BidiClass::B || classes[k] == BidiClass::BN ==> explicit_levels(
            para_level,
            classes,
        )[k] == para_level,
        explicit_classes(para_level, classes)[k] == classes[k],
{
    let before = open_at(classes, k);
    let after = open_at(classes, k + 1);
    let n = effective(para_level, classes, before);
    let l = effective(para_level, classes, after);
    let status = directions(para_level, classes, k);
    let next = directions(para_level, classes, k + 1);
    lemma_directions_follow(para_level, classes, k);
    lemma_directions_follow(para_level, classes, k + 1);
    lemma_effective_level(para_level, classes, before);
    lemma_effective_level(para_level, classes, after);
    assert(next.stack[l] == entry(para_level, classes, after, l));
    assert(l == 0 ==> after.take(l) =~= Seq::empty());
    if opens_embedding(classes[k]) {
        lemma_follows_opener(status, para_level, classes, before, k);
        assert(after.drop_last() =~= before);
        if l == after.len() {
            assert(after.take(l) =~= after);
        }
    } else if classes[k] == BidiClass::PDF {
        if n == before.len() {
            assert(before.skip(n) =~= Seq::empty());
        } else {
            assert(before.skip(n).len() > 0);
        }
    }
}

proof fn lemma_open_at_stays(classes: Seq<BidiClass>, i: int, k: int)
    requires
        0 <= i <= k <= classes.len(),
        forall|m: int|
            i <= m < k ==> !opens_isolate(#[trigger] classes[m]) && !opens_embedding(classes[m])
                && classes[m] != BidiClass::PDI && classes[m] != BidiClass::PDF,
    ensures
        open_at(classes, k) == open_at(classes, i),
    decreases k,
{
    if i < k {
        assert(!opens_isolate(classes[k - 1]));
        lemma_open_at_stays(classes, i, k - 1);
    }
}

/// After an embedding or override initiator that found room, up to the next formatting character,
/// ordinary characters are at its level. After LRO they are L and after RLO they are R, whatever
/// their classes; after LRE and RLE they keep their classes.
pub proof fn override_sets_classes(para_level: u8, classes: Seq<BidiClass>, i: int, k: int)
    requires
        0 <= i < k < classes.len(),
        opens_embedding(classes[i]),
        explicit_levels(para_level, classes)[i] > para_level,
        forall|m: int|
            i < m < k ==> !opens_isolate(#[trigger] classes[m]) && !opens_embedding(classes[m])
                && classes[m] != BidiClass::PDI && classes[m] != BidiClass::PDF,
        ordinary(classes[k]),
    ensures
        explicit_levels(para_level, classes)[k] == explicit_levels(para_level, classes)[i],
        classes[i] == BidiClass::LRO ==> explicit_classes(para_level, classes)[k] == BidiClass::L,
        classes[i] == BidiClass::RLO ==> explicit_classes(para_level, classes)[k] == BidiClass::R,
        classes[i] == BidiClass::LRE || classes[i] == BidiClass::RLE ==> explicit_classes(
            para_level,
            classes,
        )[k] == classes[k],
{
    lemma_open_at_stays(classes, i + 1, k);
    other_formatting_goes_by_what_is_open(para_level, classes, i);
    ordinary_character_goes_by_what_is_open(para_level, classes, k);
    let openers = open_at(classes, k);
    assert(openers.last() == i);
}

/// Before the first formatting character nothing has a level or a class but its own: all ordinary
/// characters are at the level of the paragraph, and keep their classes.
pub proof fn nothing_is_open_at_first(para_level: u8, classes: Seq<BidiClass>, k: int)
    requires
        0 <= k < classes.len(),
        forall|m: int|
            0 <= m < k ==> !opens_isolate(#[trigger] classes[m]) && !opens_embedding(classes[m])
                && classes[m] != BidiClass::PDI && classes[m] != BidiClass::PDF,
        ordinary(classes[k]),
    ensures
        explicit_levels(para_level, classes)[k] == para_level,
        explicit_classes(para_level, classes)[k] == classes[k],
{
    lemma_open_at_stays(classes, 0, k);
    ordinary_character_goes_by_what_is_open(para_level, classes, k);
}

} // verus!
