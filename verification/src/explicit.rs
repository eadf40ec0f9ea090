//! 3.3.2 Explicit Levels and Directions
//!
//! http://www.unicode.org/reports/tr9/#Explicit_Levels_and_Directions
use vstd::prelude::*;

use crate::isolates::{
    initiator, is_isolate_initiator, matching_pdi, matching_pdi_closes, open_isolates,
};
use crate::tables::BidiClass;

verus! {

/// Maximum depth of the directional status stack.
pub const MAX_DEPTH: u8 = 125;

/// What an entry of the directional status stack does to the characters under it.
#[derive(Clone, Copy, Debug, PartialEq, Eq, Structural)]
pub enum OverrideStatus {
    /// The characters keep their classes.
    Neutral,
    /// The characters become right-to-left.
    RTL,
    /// The characters become left-to-right.
    LTR,
    /// The characters keep their classes, and the entry stays until its isolate is closed.
    Isolate,
}

/// Entries in the directional status stack.
#[derive(Clone, Copy, Debug, PartialEq, Eq, Structural)]
pub struct Status {
    pub level: u8,
    pub status: OverrideStatus,
}

/// The classes that open an embedding or an isolate (X2 to X5c).
pub open spec fn opens(class: BidiClass) -> bool {
    ||| initiator(class)
    ||| class == BidiClass::RLE
    ||| class == BidiClass::LRE
    ||| class == BidiClass::RLO
    ||| class == BidiClass::LRO
}

/// Those of the opening classes that are right-to-left.
pub open spec fn opens_rtl(class: BidiClass) -> bool {
    class == BidiClass::RLE || class == BidiClass::RLO || class == BidiClass::RLI
}

/// The least level above `level` in the direction that is asked for: odd for right-to-left,
/// even for left-to-right.
pub open spec fn next_level(level: int, to_rtl: bool) -> int {
    if to_rtl == (level % 2 == 0) {
        level + 1
    } else {
        level + 2
    }
}

/// The status that an opening class puts on the stack.
pub open spec fn status_of(class: BidiClass) -> OverrideStatus {
    if class == BidiClass::RLO {
        OverrideStatus::RTL
    } else if class == BidiClass::LRO {
        OverrideStatus::LTR
    } else if initiator(class) {
        OverrideStatus::Isolate
    } else {
        OverrideStatus::Neutral
    }
}

/// How many isolates are on a stack.
pub open spec fn isolate_count(stack: Seq<Status>) -> nat
    decreases stack.len(),
{
    if stack.len() == 0 {
        0
    } else {
        isolate_count(stack.drop_last()) + if stack.last().status == OverrideStatus::Isolate {
            1nat
        } else {
            0nat
        }
    }
}

/// What is left of a stack below its last isolate.
pub open spec fn below_isolate(stack: Seq<Status>) -> Seq<Status>
    decreases stack.len(),
{
    if stack.len() == 0 {
        stack
    } else if stack.last().status == OverrideStatus::Isolate {
        stack.drop_last()
    } else {
        below_isolate(stack.drop_last())
    }
}

/// The directional status that the rules X1 to X8 carry from one character to the next.
#[verifier::ext_equal]
pub struct Directions {
    /// The directional status stack.
    pub stack: Seq<Status>,
    /// Open isolates that found no room on the stack.
    pub overflow_isolates: nat,
    /// Open embeddings that found no room on the stack, since the last isolate.
    pub overflow_embeddings: nat,
    /// Open isolates that are on the stack.
    pub valid_isolates: nat,
}

impl Directions {
    /// X1: the status at the start of a paragraph.
    pub open spec fn initial(para_level: u8) -> Directions {
        Directions {
            stack: seq![Status { level: para_level, status: OverrideStatus::Neutral }],
            overflow_isolates: 0,
            overflow_embeddings: 0,
            valid_isolates: 0,
        }
    }

    /// The level of the last entry on the stack.
    pub open spec fn level(self) -> u8 {
        self.stack.last().level
    }

    /// The level that an opening class leads to from here.
    pub open spec fn level_inside(self, class: BidiClass) -> int {
        next_level(self.level() as int, opens_rtl(class))
    }

    /// Is there room for the entry of an opening class?
    pub open spec fn admits(self, class: BidiClass) -> bool {
        &&& self.level_inside(class) <= MAX_DEPTH
        &&& self.overflow_isolates == 0
        &&& self.overflow_embeddings == 0
    }

    /// Does a PDI that comes next close an isolate on the stack?
    pub open spec fn closes_isolate(self) -> bool {
        self.overflow_isolates == 0 && self.valid_isolates > 0
    }

    /// Does a PDF that comes next close an embedding on the stack?
    pub open spec fn closes_embedding(self) -> bool {
        &&& self.overflow_isolates == 0
        &&& self.overflow_embeddings == 0
        &&& self.stack.last().status != OverrideStatus::Isolate
        &&& self.stack.len() >= 2
    }

    /// X2 to X7: the status after a character.
    pub open spec fn after(self, class: BidiClass) -> Directions {
        if opens(class) {
            if self.admits(class) {
                Directions {
                    stack: self.stack.push(
                        Status { level: self.level_inside(class) as u8, status: status_of(class) },
                    ),
                    valid_isolates: self.valid_isolates + if initiator(class) {
                        1nat
                    } else {
                        0nat
                    },
                    ..self
                }
            } else if initiator(class) {
                Directions { overflow_isolates: self.overflow_isolates + 1, ..self }
            } else if self.overflow_isolates == 0 {
                Directions { overflow_embeddings: self.overflow_embeddings + 1, ..self }
            } else {
                self
            }
        } else if class == BidiClass::PDI {
            if self.overflow_isolates > 0 {
                Directions { overflow_isolates: (self.overflow_isolates - 1) as nat, ..self }
            } else if self.valid_isolates > 0 {
                Directions {
                    stack: below_isolate(self.stack),
                    overflow_embeddings: 0,
                    valid_isolates: (self.valid_isolates - 1) as nat,
                    ..self
                }
            } else {
                self
            }
        } else if class == BidiClass::PDF {
            if self.overflow_isolates == 0 && self.overflow_embeddings > 0 {
                Directions { overflow_embeddings: (self.overflow_embeddings - 1) as nat, ..self }
            } else if self.closes_embedding() {
                Directions { stack: self.stack.drop_last(), ..self }
            } else {
                self
            }
        } else {
            self
        }
    }

    /// The explicit level of a character that is met in this status.
    pub open spec fn level_of(self, class: BidiClass, para_level: u8) -> u8 {
        if initiator(class) {
            self.level()
        } else if opens(class) {
            if self.admits(class) {
                self.level_inside(class) as u8
            } else {
                para_level
            }
        } else if class == BidiClass::PDI {
            self.after(class).level()
        } else if class == BidiClass::PDF {
            if self.overflow_isolates == 0 && self.overflow_embeddings == 0 {
                self.after(class).level()
            } else {
                para_level
            }
        } else if class == BidiClass::B || class == BidiClass::BN {
            para_level
        } else {
            self.level()
        }
    }

    /// The class of a character that is met in this status, after directional overrides.
    pub open spec fn class_of(self, class: BidiClass) -> BidiClass {
        if opens(class) || class == BidiClass::PDI || class == BidiClass::PDF || class
            == BidiClass::B || class == BidiClass::BN {
            class
        } else if self.stack.last().status == OverrideStatus::RTL {
            BidiClass::R
        } else if self.stack.last().status == OverrideStatus::LTR {
            BidiClass::L
        } else {
            class
        }
    }

    /// What holds of every status in a paragraph at `para_level`: the bottom entry is that of the
    /// paragraph, the levels rise from entry to entry up to `MAX_DEPTH`, and the isolates on the
    /// stack are counted.
    pub open spec fn wf(self, para_level: u8) -> bool {
        &&& self.stack.len() > 0
        &&& self.stack[0] == Status { level: para_level, status: OverrideStatus::Neutral }
        &&& forall|k: int| 0 < k < self.stack.len() ==> (#[trigger] self.stack[k]).level <= MAX_DEPTH
        &&& forall|j: int, k: int|
            0 <= j < k < self.stack.len() ==> (#[trigger] self.stack[j]).level < (
            #[trigger] self.stack[k]).level
        &&& isolate_count(self.stack) == self.valid_isolates
    }
}

/// The directional status before character `i` of a paragraph.
pub open spec fn directions(para_level: u8, classes: Seq<BidiClass>, i: int) -> Directions
    decreases i,
{
    if i <= 0 {
        Directions::initial(para_level)
    } else {
        directions(para_level, classes, i - 1).after(classes[i - 1])
    }
}

/// The explicit levels of a paragraph.
pub open spec fn explicit_levels(para_level: u8, classes: Seq<BidiClass>) -> Seq<u8> {
    Seq::new(
        classes.len(),
        |i: int| directions(para_level, classes, i).level_of(classes[i], para_level),
    )
}

/// The classes of a paragraph after directional overrides.
pub open spec fn explicit_classes(para_level: u8, classes: Seq<BidiClass>) -> Seq<BidiClass> {
    Seq::new(classes.len(), |i: int| directions(para_level, classes, i).class_of(classes[i]))
}

/// No class asks for a level that a `u8` cannot hold. Only paragraph levels above 253 leave this
/// open.
pub open spec fn explicit_fits(para_level: u8, classes: Seq<BidiClass>) -> bool {
    forall|i: int|
        0 <= i < classes.len() && opens(#[trigger] classes[i]) ==> next_level(
            para_level as int,
            opens_rtl(classes[i]),
        ) <= u8::MAX
}

proof fn lemma_below_isolate(stack: Seq<Status>)
    requires
        isolate_count(stack) > 0,
    ensures
        below_isolate(stack).len() < stack.len(),
        below_isolate(stack) == stack.take(below_isolate(stack).len() as int),
        isolate_count(below_isolate(stack)) == isolate_count(stack) - 1,
        stack[below_isolate(stack).len() as int].status == OverrideStatus::Isolate,
    decreases stack.len(),
{
    if stack.last().status != OverrideStatus::Isolate {
        lemma_below_isolate(stack.drop_last());
        let n = below_isolate(stack).len() as int;
        assert(stack.drop_last().take(n) =~= stack.take(n));
    } else {
        assert(stack.drop_last() =~= stack.take(stack.len() - 1));
    }
}

/// Every rule keeps the directional status well-formed.
pub proof fn status_stays_well_formed(status: Directions, class: BidiClass, para_level: u8)
    requires
        status.wf(para_level),
    ensures
        status.after(class).wf(para_level),
{
    let next = status.after(class);
    if opens(class) && status.admits(class) {
        assert(next.stack.drop_last() =~= status.stack);
    } else if class == BidiClass::PDI && status.closes_isolate() {
        lemma_below_isolate(status.stack);
        let n = next.stack.len() as int;
        assert(next.stack == status.stack.take(n));
        assert(status.stack[n].status == OverrideStatus::Isolate);
        assert(n > 0);
    } else if class == BidiClass::PDF && status.closes_embedding() {
        assert(isolate_count(status.stack.drop_last()) == isolate_count(status.stack));
    }
}

/// The directional status is well-formed at every character.
pub proof fn directions_well_formed(para_level: u8, classes: Seq<BidiClass>, i: int)
    ensures
        directions(para_level, classes, i).wf(para_level),
    decreases i,
{
    if i <= 0 {
        let stack = Directions::initial(para_level).stack;
        assert(stack.drop_last() =~= Seq::empty());
        reveal_with_fuel(isolate_count, 2);
    } else {
        directions_well_formed(para_level, classes, i - 1);
        status_stays_well_formed(
            directions(para_level, classes, i - 1),
            classes[i - 1],
            para_level,
        );
    }
}

/// Explicit levels lie between the level of the paragraph and the deeper of that and `MAX_DEPTH`.
pub proof fn explicit_levels_are_bounded(para_level: u8, classes: Seq<BidiClass>, i: int)
    requires
        0 <= i < classes.len(),
    ensures
        para_level <= explicit_levels(para_level, classes)[i],
        explicit_levels(para_level, classes)[i] <= para_level || explicit_levels(
            para_level,
            classes,
        )[i] <= MAX_DEPTH,
{
    directions_well_formed(para_level, classes, i);
    directions_well_formed(para_level, classes, i + 1);
    let status = directions(para_level, classes, i);
    let next = directions(para_level, classes, i + 1);
    assert(status.stack[0].level <= status.stack.last().level);
    assert(next.stack[0].level <= next.stack.last().level);
}

/// The open isolates are those on the stack and those that found no room there.
pub proof fn isolates_are_counted(para_level: u8, classes: Seq<BidiClass>, i: int)
    ensures
        open_isolates(classes, i).len() == directions(para_level, classes, i).valid_isolates
            + directions(para_level, classes, i).overflow_isolates,
    decreases i,
{
    if i > 0 {
        isolates_are_counted(para_level, classes, i - 1);
    }
}

proof fn lemma_isolate_count_of_prefix(stack: Seq<Status>, n: int)
    requires
        0 <= n <= stack.len(),
    ensures
        isolate_count(stack.take(n)) <= isolate_count(stack),
        n < stack.len() && stack[n].status == OverrideStatus::Isolate ==> isolate_count(
            stack.take(n),
        ) < isolate_count(stack),
    decreases stack.len(),
{
    if n < stack.len() {
        lemma_isolate_count_of_prefix(stack.drop_last(), n);
        assert(stack.drop_last().take(n) =~= stack.take(n));
    } else {
        assert(stack.take(n) =~= stack);
    }
}

/// While an isolate that is on the stack stays open, what was on the stack with it stays there.
proof fn lemma_inside_valid_isolate(
    para_level: u8,
    classes: Seq<BidiClass>,
    i: int,
    j: int,
    k: int,
)
    requires
        matching_pdi(classes, i, j),
        directions(para_level, classes, i).admits(classes[i]),
        i < k <= j,
    ensures
        directions(para_level, classes, i + 1).stack.is_prefix_of(
            directions(para_level, classes, k).stack,
        ),
    decreases k,
{
    matching_pdi_closes(classes, i, j);
    if k > i + 1 {
        lemma_inside_valid_isolate(para_level, classes, i, j, k - 1);
        let base = directions(para_level, classes, i + 1).stack;
        let status = directions(para_level, classes, k - 1);
        let class = classes[k - 1];
        let outer = open_isolates(classes, i);
        directions_well_formed(para_level, classes, i + 1);
        directions_well_formed(para_level, classes, k - 1);
        isolates_are_counted(para_level, classes, i);
        isolates_are_counted(para_level, classes, k - 1);
        assert(outer.push(i).is_prefix_of(open_isolates(classes, k)));
        assert(outer.push(i).is_prefix_of(open_isolates(classes, k - 1)));
        if class == BidiClass::PDI && status.closes_isolate() {
            lemma_below_isolate(status.stack);
            let n = below_isolate(status.stack).len() as int;
            assert(open_isolates(classes, k - 1).len() >= outer.len() + 2);
            if n < base.len() {
                assert(base.take(n) =~= status.stack.take(n));
                assert(base[n] == status.stack[n]);
                lemma_isolate_count_of_prefix(base, n);
                assert(false);
            }
            assert(base =~= below_isolate(status.stack).take(base.len() as int));
        } else if class == BidiClass::PDF && status.closes_embedding() {
            assert(base.last().status == OverrideStatus::Isolate);
            assert(base.len() < status.stack.len());
        }
    }
}

/// While an isolate that found no room on the stack stays open, nothing changes but the count of
/// such isolates.
proof fn lemma_inside_overflow_isolate(
    para_level: u8,
    classes: Seq<BidiClass>,
    i: int,
    j: int,
    k: int,
)
    requires
        matching_pdi(classes, i, j),
        !directions(para_level, classes, i).admits(classes[i]),
        i < k <= j,
    ensures
        directions(para_level, classes, k) == (Directions {
            overflow_isolates: directions(para_level, classes, k).overflow_isolates,
            ..directions(para_level, classes, i)
        }),
        directions(para_level, classes, k).overflow_isolates == directions(
            para_level,
            classes,
            i,
        ).overflow_isolates + open_isolates(classes, k).len() - open_isolates(classes, i).len(),
        directions(para_level, classes, k).overflow_isolates > 0,
    decreases k,
{
    matching_pdi_closes(classes, i, j);
    if k > i + 1 {
        lemma_inside_overflow_isolate(para_level, classes, i, j, k - 1);
        let outer = open_isolates(classes, i);
        assert(outer.push(i).is_prefix_of(open_isolates(classes, k)));
        assert(outer.push(i).is_prefix_of(open_isolates(classes, k - 1)));
    }
}

/// An isolate, from its initiator through the matching PDI, leaves the directional status as it
/// was, whatever embeddings and isolates it holds.
pub proof fn isolate_restores_directions(
    para_level: u8,
    classes: Seq<BidiClass>,
    i: int,
    j: int,
)
    requires
        matching_pdi(classes, i, j),
    ensures
        directions(para_level, classes, j + 1) == directions(para_level, classes, i),
{
    matching_pdi_closes(classes, i, j);
    let status = directions(para_level, classes, i);
    let inside = directions(para_level, classes, j);
    let outer = open_isolates(classes, i);
    assert(outer.push(i).is_prefix_of(open_isolates(classes, j)));
    assert(open_isolates(classes, j).len() == outer.len() + 1) by {
        assert(open_isolates(classes, j).drop_last().len() == outer.len());
    }
    if status.admits(classes[i]) {
        lemma_inside_valid_isolate(para_level, classes, i, j, j);
        let base = directions(para_level, classes, i + 1).stack;
        directions_well_formed(para_level, classes, i);
        directions_well_formed(para_level, classes, i + 1);
        directions_well_formed(para_level, classes, j);
        isolates_are_counted(para_level, classes, i);
        isolates_are_counted(para_level, classes, j);
        assert(base == inside.stack.take(base.len() as int));
        lemma_isolate_count_of_prefix(inside.stack, base.len() as int);
        lemma_below_isolate(inside.stack);
        let n = below_isolate(inside.stack).len() as int;
        if n < base.len() - 1 {
            assert(status.stack.take(n) =~= inside.stack.take(n)) by {
                assert(base.drop_last() =~= status.stack);
            }
            assert(status.stack[n] == inside.stack[n]) by {
                assert(base[n] == status.stack[n]);
            }
            lemma_isolate_count_of_prefix(status.stack, n);
        } else if n > base.len() - 1 {
            lemma_isolate_count_of_prefix(below_isolate(inside.stack), base.len() as int);
            assert(below_isolate(inside.stack).take(base.len() as int) =~= base);
        }
        assert(below_isolate(inside.stack) =~= status.stack);
    } else {
        lemma_inside_overflow_isolate(para_level, classes, i, j, j);
    }
}

/// The PDI that matches an isolate initiator has its level.
pub proof fn matching_pdi_has_level_of_initiator(
    para_level: u8,
    classes: Seq<BidiClass>,
    i: int,
    j: int,
)
    requires
        matching_pdi(classes, i, j),
    ensures
        explicit_levels(para_level, classes)[j] == explicit_levels(para_level, classes)[i],
{
    matching_pdi_closes(classes, i, j);
    isolate_restores_directions(para_level, classes, i, j);
}

/// No level that an opening class leads to is beyond a `u8`.
proof fn lemma_level_fits(para_level: u8, classes: Seq<BidiClass>, i: int)
    requires
        explicit_fits(para_level, classes),
        0 <= i < classes.len(),
        opens(classes[i]),
    ensures
        directions(para_level, classes, i).level_inside(classes[i]) <= u8::MAX,
{
    directions_well_formed(para_level, classes, i);
}

/// Levels from 0 through max_depth are valid at this stage.
/// http://www.unicode.org/reports/tr9/#X1
fn valid(level: u8) -> (result: bool)
    ensures
        result == (level <= MAX_DEPTH),
{
    level <= MAX_DEPTH
}

/// The next odd level greater than `level`.
fn next_rtl_level(level: u8) -> (next: u8)
    requires
        next_level(level as int, true) <= u8::MAX,
    ensures
        next == next_level(level as int, true),
{
    let above: u8 = level + 1;
    assert(above | 1 == if above % 2 == 1 { above as int } else { above + 1 }) by (bit_vector);
    above | 1
}

/// The next even level greater than `level`.
fn next_ltr_level(level: u8) -> (next: u8)
    requires
        next_level(level as int, false) <= u8::MAX,
    ensures
        next == next_level(level as int, false),
{
    let above: u8 = level + 2;
    assert(above & !1u8 == above - above % 2) by (bit_vector);
    above & !1u8
}

/// The directional status stack.
struct DirectionalStatusStack {
    vec: Vec<Status>,
}

impl View for DirectionalStatusStack {
    type V = Seq<Status>;

    closed spec fn view(&self) -> Seq<Status> {
        self.vec@
    }
}

impl DirectionalStatusStack {
    fn new() -> (stack: Self)
        ensures
            stack@ == Seq::<Status>::empty(),
    {
        DirectionalStatusStack { vec: Vec::with_capacity(MAX_DEPTH as usize + 2) }
    }

    fn push(&mut self, level: u8, status: OverrideStatus)
        ensures
            final(self)@ == old(self)@.push(Status { level, status }),
    {
        self.vec.push(Status { level, status });
    }

    fn last(&self) -> (status: &Status)
        requires
            self@.len() > 0,
        ensures
            *status == self@.last(),
    {
        &self.vec[self.vec.len() - 1]
    }

    /// Pop the last entry, but not the one at the bottom, and not an isolate.
    fn pop_embedding(&mut self)
        requires
            old(self)@.len() > 0,
        ensures
            final(self)@ == if old(self)@.last().status != OverrideStatus::Isolate && old(
                self,
            )@.len() >= 2 {
                old(self)@.drop_last()
            } else {
                old(self)@
            },
    {
        if self.last().status != OverrideStatus::Isolate && self.vec.len() >= 2 {
            self.vec.pop();
        }
    }

    /// Pop everything up to and including the last Isolate status.
    fn pop_isolate(&mut self)
        ensures
            final(self)@ == below_isolate(old(self)@),
    {
        loop
            invariant_except_break
                below_isolate(self.vec@) == below_isolate(old(self)@),
            ensures
                self.vec@ == below_isolate(old(self)@),
            decreases self.vec.len(),
        {
            match self.vec.pop() {
                Some(entry) => {
                    if entry.status == OverrideStatus::Isolate {
                        break;
                    }
                },
                None => {
                    break;
                },
            }
        }
    }
}

/// Output of the explicit levels algorithm.
pub struct Result {
    pub levels: Vec<u8>,
    pub classes: Vec<BidiClass>,
}

/// Compute explicit embedding levels for one paragraph of text (X1-X8).
pub fn compute(para_level: u8, classes: &[BidiClass]) -> (result: Result)
    requires
        explicit_fits(para_level, classes@),
    ensures
        result.levels@ == explicit_levels(para_level, classes@),
        result.classes@ == explicit_classes(para_level, classes@),
{
    let mut levels: Vec<u8> = Vec::with_capacity(classes.len());
    let mut new_classes: Vec<BidiClass> = Vec::with_capacity(classes.len());

    // http://www.unicode.org/reports/tr9/#X1
    let mut stack = DirectionalStatusStack::new();
    stack.push(para_level, OverrideStatus::Neutral);

    let mut overflow_isolate_count: usize = 0;
    let mut overflow_embedding_count: usize = 0;
    let mut valid_isolate_count: usize = 0;

    proof {
        assert(stack@ =~= Directions::initial(para_level).stack);
    }

    for i in 0..classes.len()
        invariant
            explicit_fits(para_level, classes@),
            levels@ == explicit_levels(para_level, classes@).take(i as int),
            new_classes@ == explicit_classes(para_level, classes@).take(i as int),
            directions(para_level, classes@, i as int) == (Directions {
                stack: stack@,
                overflow_isolates: overflow_isolate_count as nat,
                overflow_embeddings: overflow_embedding_count as nat,
                valid_isolates: valid_isolate_count as nat,
            }),
            overflow_isolate_count <= i,
            overflow_embedding_count <= i,
            valid_isolate_count <= i,
    {
        let class = classes[i];
        let mut level: u8 = para_level;
        let mut new_class = class;
        let ghost status = directions(para_level, classes@, i as int);
        proof {
            directions_well_formed(para_level, classes@, i as int);
            directions_well_formed(para_level, classes@, i + 1);
        }
        match class {
            // Rules X2-X5c
            BidiClass::RLE
            | BidiClass::LRE
            | BidiClass::RLO
            | BidiClass::LRO
            | BidiClass::RLI
            | BidiClass::LRI
            | BidiClass::FSI => {
                let last_level: u8 = stack.last().level;
                let to_rtl = matches!(class, BidiClass::RLE | BidiClass::RLO | BidiClass::RLI);
                proof {
                    lemma_level_fits(para_level, classes@, i as int);
                }
                let new_level: u8 = if to_rtl {
                    next_rtl_level(last_level)
                } else {
                    next_ltr_level(last_level)
                };

                // X5a-X5c: Isolate initiators get the level of the last entry on the stack.
                let is_isolate = is_isolate_initiator(class);
                if is_isolate {
                    level = last_level;
                }
                if valid(new_level) && overflow_isolate_count == 0 && overflow_embedding_count == 0 {
                    stack.push(
                        new_level,
                        match class {
                            BidiClass::RLO => OverrideStatus::RTL,
                            BidiClass::LRO => OverrideStatus::LTR,
                            BidiClass::RLI | BidiClass::LRI | BidiClass::FSI
                                => OverrideStatus::Isolate,
                            _ => OverrideStatus::Neutral,
                        },
                    );
                    if is_isolate {
                        valid_isolate_count += 1;
                    } else {
                        level = new_level;
                    }
                } else if is_isolate {
                    overflow_isolate_count += 1;
                } else if overflow_isolate_count == 0 {
                    overflow_embedding_count += 1;
                }
            },
            // http://www.unicode.org/reports/tr9/#X6a
            BidiClass::PDI => {
                if overflow_isolate_count > 0 {
                    overflow_isolate_count -= 1;
                } else if valid_isolate_count > 0 {
                    overflow_embedding_count = 0;
                    stack.pop_isolate();
                    valid_isolate_count -= 1;
                }
                // In all cases, the PDI gets the level of the last entry on the stack.
                level = stack.last().level;
            },
            // http://www.unicode.org/reports/tr9/#X7
            BidiClass::PDF => {
                if overflow_isolate_count == 0 {
                    if overflow_embedding_count > 0 {
                        overflow_embedding_count -= 1;
                    } else {
                        stack.pop_embedding();
                        level = stack.last().level;
                    }
                }
            },
            // http://www.unicode.org/reports/tr9/#X6
            BidiClass::B | BidiClass::BN => {},
            _ => {
                let last = stack.last();
                level = last.level;
                match last.status {
                    OverrideStatus::RTL => {
                        new_class = BidiClass::R;
                    },
                    OverrideStatus::LTR => {
                        new_class = BidiClass::L;
                    },
                    _ => {},
                }
            },
        }
        levels.push(level);
        new_classes.push(new_class);
    }
    proof {
        let n = classes@.len() as int;
        assert(explicit_levels(para_level, classes@).take(n) =~= explicit_levels(
            para_level,
            classes@,
        ));
        assert(explicit_classes(para_level, classes@).take(n) =~= explicit_classes(
            para_level,
            classes@,
        ));
    }
    Result { levels, classes: new_classes }
}

} // verus!
