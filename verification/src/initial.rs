//! 3.3.1 The Paragraph Level
//!
//! http://www.unicode.org/reports/tr9/#The_Paragraph_Level
use vstd::prelude::*;

use crate::isolates::{
    closed_isolates_stay_closed, innermost_isolate, matching_pdi, matching_pdi_closes,
    open_isolates, open_isolates_are_initiators,
};
use crate::tables::{bidi_class, class_of, BidiClass};

verus! {

/// L, R and AL have a direction of their own.
pub open spec fn strong(class: BidiClass) -> bool {
    class == BidiClass::L || class == BidiClass::R || class == BidiClass::AL
}

/// The classes of the characters of a text, one by one.
pub open spec fn text_classes(text: Seq<char>) -> Seq<BidiClass> {
    text.map_values(|c: char| class_of(c))
}

/// The first strong character at `from` or after it whose innermost isolate is `isolate`; with
/// `None`, the first that stands in no isolate.
pub open spec fn first_strong(
    classes: Seq<BidiClass>,
    isolate: Option<int>,
    from: int,
) -> Option<int>
    decreases classes.len() - from,
{
    if from >= classes.len() {
        None
    } else if strong(classes[from]) && innermost_isolate(classes, from) == isolate {
        Some(from)
    } else {
        first_strong(classes, isolate, from + 1)
    }
}

/// P2 and P3: the level of a paragraph, from its first strong character outside isolates.
pub open spec fn detected_level(classes: Seq<BidiClass>) -> u8 {
    match first_strong(classes, None, 0) {
        Some(k) => if classes[k] == BidiClass::L {
            0
        } else {
            1
        },
        None => 0,
    }
}

/// X5c: an FSI takes the direction of the first strong character in its isolate, and stays an FSI
/// where there is none. Other characters keep their classes.
pub open spec fn settled_class(classes: Seq<BidiClass>, i: int) -> BidiClass {
    if classes[i] == BidiClass::FSI {
        match first_strong(classes, Some(i), i + 1) {
            Some(k) => if classes[k] == BidiClass::L {
                BidiClass::LRI
            } else {
                BidiClass::RLI
            },
            None => BidiClass::FSI,
        }
    } else {
        classes[i]
    }
}

/// The classes of a text with the FSIs settled.
pub open spec fn settled_classes(text: Seq<char>) -> Seq<BidiClass> {
    Seq::new(text.len(), |i: int| settled_class(text_classes(text), i))
}

/// The level of a paragraph: the one that is given, or else the one that the text shows.
pub open spec fn paragraph_level(text: Seq<char>, given: Option<u8>) -> u8 {
    match given {
        Some(level) => level,
        None => detected_level(text_classes(text)),
    }
}

/// The first strong character is one, and no earlier one is.
pub proof fn first_strong_is_first(classes: Seq<BidiClass>, isolate: Option<int>, from: int)
    requires
        0 <= from,
    ensures
        match first_strong(classes, isolate, from) {
            Some(k) => {
                &&& from <= k < classes.len()
                &&& strong(classes[k])
                &&& innermost_isolate(classes, k) == isolate
                &&& forall|m: int|
                    from <= m < k && #[trigger] innermost_isolate(classes, m) == isolate
                        ==> !strong(classes[m])
            },
            None => forall|m: int|
                from <= m < classes.len() && #[trigger] innermost_isolate(classes, m) == isolate
                    ==> !strong(classes[m]),
        },
    decreases classes.len() - from,
{
    if from < classes.len() {
        first_strong_is_first(classes, isolate, from + 1);
    }
}

/// The strong character that settles an FSI stands before the matching PDI.
pub proof fn fsi_is_settled_before_matching_pdi(classes: Seq<BidiClass>, i: int, j: int)
    requires
        matching_pdi(classes, i, j),
    ensures
        first_strong(classes, Some(i), i + 1) matches Some(k) ==> i < k < j,
{
    matching_pdi_closes(classes, i, j);
    first_strong_is_first(classes, Some(i), i + 1);
    match first_strong(classes, Some(i), i + 1) {
        Some(k) => {
            if j < k {
                open_isolates_are_initiators(classes, i);
                assert(!open_isolates(classes, j + 1).contains(i));
                closed_isolates_stay_closed(classes, i, j + 1, k);
                let open = open_isolates(classes, k);
                assert(open[open.len() - 1] == i);
            }
        },
        None => {},
    }
}

/// Settling the FSIs keeps the isolates as they are.
pub proof fn settling_keeps_isolates(text: Seq<char>, i: int)
    requires
        i <= text.len(),
    ensures
        open_isolates(settled_classes(text), i) == open_isolates(text_classes(text), i),
    decreases i,
{
    if i > 0 {
        settling_keeps_isolates(text, i - 1);
    }
}

/// The level that a text shows is 0 or 1, and to give it makes no difference.
pub proof fn detected_level_may_be_given(text: Seq<char>)
    ensures
        paragraph_level(text, None) <= 1,
        paragraph_level(text, Some(paragraph_level(text, None))) == paragraph_level(text, None),
{
}

/// Output of `initial_scan`
#[derive(PartialEq, Debug)]
pub struct InitialProperties {
    /// The paragraph embedding level.
    pub para_level: u8,
    /// The BidiClass of each character in the paragraph.
    pub initial_classes: Vec<BidiClass>,
}

proof fn lemma_open_isolates_of_prefix(classes: Seq<BidiClass>, class: BidiClass, i: int)
    requires
        i <= classes.len(),
    ensures
        open_isolates(classes.push(class), i) == open_isolates(classes, i),
    decreases i,
{
    if i > 0 {
        lemma_open_isolates_of_prefix(classes, class, i - 1);
    }
}

/// One more character changes the first strong character only where there was none yet.
proof fn lemma_first_strong_grows(
    classes: Seq<BidiClass>,
    class: BidiClass,
    isolate: Option<int>,
    from: int,
)
    requires
        0 <= from <= classes.len(),
    ensures
        first_strong(classes.push(class), isolate, from) == match first_strong(
            classes,
            isolate,
            from,
        ) {
            Some(k) => Some(k),
            None => if strong(class) && innermost_isolate(classes, classes.len() as int)
                == isolate {
                Some(classes.len() as int)
            } else {
                None
            },
        },
        first_strong(classes, isolate, from) matches Some(k) ==> from <= k < classes.len(),
    decreases classes.len() - from,
{
    lemma_open_isolates_of_prefix(classes, class, from);
    if from < classes.len() {
        lemma_first_strong_grows(classes, class, isolate, from + 1);
    } else {
        reveal_with_fuel(first_strong, 2);
    }
}

/// What one more character does to the classes that are settled so far.
proof fn lemma_settled_class_grows(classes: Seq<BidiClass>, class: BidiClass, i: int)
    requires
        0 <= i < classes.len(),
    ensures
        settled_class(classes.push(class), i) == if strong(class) && innermost_isolate(
            classes,
            classes.len() as int,
        ) == Some(i) && settled_class(classes, i) == BidiClass::FSI {
            if class == BidiClass::L {
                BidiClass::LRI
            } else {
                BidiClass::RLI
            }
        } else {
            settled_class(classes, i)
        },
{
    lemma_first_strong_grows(classes, class, Some(i), i + 1);
}

/// Find the paragraph embedding level, and the BidiClass for each character.
///
/// http://www.unicode.org/reports/tr9/#The_Paragraph_Level
///
/// Also sets the class for each First Strong Isolate initiator (FSI) to LRI or RLI if a strong
/// character is found before the matching PDI.  If no strong character is found, the class will
/// remain FSI, and it's up to later stages to treat these as LRI when needed.
pub fn initial_scan(paragraph: &str, para_level: Option<u8>) -> (result: InitialProperties)
    ensures
        result.para_level == paragraph_level(paragraph@, para_level),
        result.initial_classes@ == settled_classes(paragraph@),
{
    let mut classes: Vec<BidiClass> = Vec::new();
    let mut level: Option<u8> = para_level;

    // The stack contains the starting char index for each nested isolate we're inside.
    let mut isolate_stack: Vec<usize> = Vec::new();

    let ghost mut seen: Seq<BidiClass> = Seq::empty();

    for c in it: paragraph.chars()
        invariant
            it.seq() == paragraph@,
            seen == text_classes(paragraph@.take(it.index())),
            classes.len() == seen.len(),
            forall|i: int|
                0 <= i < seen.len() ==> #[trigger] classes@[i] == settled_class(seen, i),
            isolate_stack.len() == open_isolates(seen, seen.len() as int).len(),
            forall|p: int|
                0 <= p < isolate_stack.len() ==> #[trigger] isolate_stack@[p] == open_isolates(
                    seen,
                    seen.len() as int,
                )[p],
            level == match para_level {
                Some(given) => Some(given),
                None => match first_strong(seen, None, 0) {
                    Some(k) => Some(
                        if seen[k] == BidiClass::L {
                            0u8
                        } else {
                            1u8
                        },
                    ),
                    None => None,
                },
            },
    {
        let class = bidi_class(c);
        let i: usize = classes.len();
        let ghost before = seen;
        proof {
            seen = before.push(class);
            assert(seen =~= text_classes(paragraph@.take(it.index() + 1)));
            lemma_open_isolates_of_prefix(before, class, before.len() as int);
            lemma_first_strong_grows(before, class, None, 0);
            open_isolates_are_initiators(before, before.len() as int);
            assert forall|k: int| 0 <= k < before.len() implies #[trigger] settled_class(seen, k)
                == if strong(class) && innermost_isolate(before, before.len() as int) == Some(k)
                && settled_class(before, k) == BidiClass::FSI {
                if class == BidiClass::L {
                    BidiClass::LRI
                } else {
                    BidiClass::RLI
                }
            } else {
                settled_class(before, k)
            } by {
                lemma_settled_class_grows(before, class, k);
            }
        }
        classes.push(class);
        match class {
            BidiClass::L | BidiClass::R | BidiClass::AL => {
                if isolate_stack.len() > 0 {
                    let start: usize = isolate_stack[isolate_stack.len() - 1];
                    if classes[start] == BidiClass::FSI {
                        // X5c. If the first strong character between FSI and its matching PDI is
                        // R or AL, treat it as RLI. Otherwise, treat it as LRI.
                        classes[start] = if class == BidiClass::L {
                            BidiClass::LRI
                        } else {
                            BidiClass::RLI
                        };
                    }
                } else if level.is_none() {
                    // P2. Find the first character of type L, AL, or R, while skipping any
                    // characters between an isolate initiator and its matching PDI.
                    level = Some(
                        if class == BidiClass::L {
                            0
                        } else {
                            1
                        },
                    );
                }
            },
            BidiClass::RLI | BidiClass::LRI | BidiClass::FSI => {
                isolate_stack.push(i);
            },
            BidiClass::PDI => {
                isolate_stack.pop();
            },
            _ => {},
        }
        proof {
            assert(settled_class(seen, i as int) == class);
        }
    }
    proof {
        assert(paragraph@.take(paragraph@.len() as int) =~= paragraph@);
    }
    InitialProperties {
        // P3. If no character is found in p2, set the paragraph level to zero.
        para_level: match level {
            Some(found) => found,
            None => 0,
        },
        initial_classes: classes,
    }
}

} // verus!
