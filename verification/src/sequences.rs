//! Isolating run sequences, as sequences of level runs.
//!
//! http://www.unicode.org/reports/tr9/#BD13
use vstd::multiset::Multiset;
use vstd::prelude::*;

use crate::isolates::{initiator, matching_pdi, matching_pdi_closes, matching_pdi_is_unique};
use crate::level::{tiles, tiles_apart, tiles_in_order, tiles_in_range, LevelRun};
use crate::prepare::{kept_before, kept_before_is_kept, removed};
use crate::tables::BidiClass;

verus! {

/// The last character of a run that is not removed by X9.
pub open spec fn last_kept(classes: Seq<BidiClass>, r: LevelRun) -> Option<int> {
    match kept_before(classes, r.end as int) {
        Some(i) => if i >= r.start {
            Some(i)
        } else {
            None
        },
        None => None,
    }
}

/// Is the last character of the first run an isolate initiator whose matching PDI is the first
/// character of the second run? Removed characters do not count.
#[verifier::opaque]
pub open spec fn linked(classes: Seq<BidiClass>, first: LevelRun, second: LevelRun) -> bool {
    match last_kept(classes, first) {
        Some(i) => matching_pdi(classes, i, second.start as int),
        None => false,
    }
}

/// Does the run end in an isolate initiator? Removed characters do not count.
pub open spec fn ends_in_initiator(classes: Seq<BidiClass>, last: LevelRun) -> bool {
    match last_kept(classes, last) {
        Some(i) => initiator(classes[i]),
        None => false,
    }
}

/// The place in `open` of the sequence that `next` continues, if it continues one.
pub open spec fn continued(
    classes: Seq<BidiClass>,
    open: Seq<Seq<LevelRun>>,
    next: LevelRun,
) -> Option<int>
    decreases open.len(),
{
    if open.len() == 0 {
        None
    } else if linked(classes, open.last().last(), next) {
        Some(open.len() - 1)
    } else {
        continued(classes, open.drop_last(), next)
    }
}

/// Sequences of level runs that are put together run by run.
#[verifier::ext_equal]
pub struct Assembly {
    /// The sequences that are finished.
    pub done: Seq<Seq<LevelRun>>,
    /// The sequences that end in an isolate initiator, and may be continued.
    pub open: Seq<Seq<LevelRun>>,
}

impl Assembly {
    /// The sequence that `next` comes to stand in.
    pub open spec fn extended(self, classes: Seq<BidiClass>, next: LevelRun) -> Seq<LevelRun> {
        match continued(classes, self.open, next) {
            Some(p) => self.open[p].push(next),
            None => seq![next],
        }
    }

    /// The open sequences without the one that `next` continues.
    pub open spec fn others(self, classes: Seq<BidiClass>, next: LevelRun) -> Seq<Seq<LevelRun>> {
        match continued(classes, self.open, next) {
            Some(p) => self.open.remove(p),
            None => self.open,
        }
    }

    /// The sequences with one more run.
    pub open spec fn after(self, classes: Seq<BidiClass>, next: LevelRun) -> Assembly {
        let sequence = self.extended(classes, next);
        let others = self.others(classes, next);
        if ends_in_initiator(classes, next) {
            Assembly { done: self.done, open: others.push(sequence) }
        } else {
            Assembly { done: self.done.push(sequence), open: others }
        }
    }
}

/// The sequences of the first `k` runs.
pub open spec fn assembled(classes: Seq<BidiClass>, runs: Seq<LevelRun>, k: int) -> Assembly
    decreases k,
{
    if k <= 0 {
        Assembly { done: Seq::empty(), open: Seq::empty() }
    } else {
        assembled(classes, runs, k - 1).after(classes, runs[k - 1])
    }
}

/// The isolating run sequences that level runs form: first those that do not end in an isolate
/// initiator, by their last runs, then the others, the latest first.
pub open spec fn sequences_of(classes: Seq<BidiClass>, runs: Seq<LevelRun>) -> Seq<Seq<LevelRun>> {
    let all = assembled(classes, runs, runs.len() as int);
    all.done + all.open.reverse()
}

/// All runs of some sequences, each as often as it occurs.
pub open spec fn runs_in(sequences: Seq<Seq<LevelRun>>) -> Multiset<LevelRun>
    decreases sequences.len(),
{
    if sequences.len() == 0 {
        Multiset::empty()
    } else {
        runs_in(sequences.drop_last()).add(sequences.last().to_multiset())
    }
}

/// What makes `sequences` the isolating run sequences of `runs`: every level run stands in one
/// sequence, once; in a sequence each run but the last ends in an isolate initiator whose
/// matching PDI is the first character of the next; and no sequence could be longer at either
/// end.
///
/// http://www.unicode.org/reports/tr9/#BD13
pub open spec fn are_isolating_run_sequences(
    sequences: Seq<Seq<LevelRun>>,
    classes: Seq<BidiClass>,
    runs: Seq<LevelRun>,
) -> bool {
    &&& runs_in(sequences) == runs.to_multiset()
    &&& forall|a: int| 0 <= a < sequences.len() ==> (#[trigger] sequences[a]).len() > 0
    &&& forall|a: int, b: int, c: int|
        0 <= a < sequences.len() && 0 <= b < sequences[a].len() - 1 && c == b + 1 ==> linked(
            classes,
            #[trigger] sequences[a][b],
            #[trigger] sequences[a][c],
        )
    &&& forall|a: int, k: int|
        #![trigger sequences[a], runs[k]]
        0 <= a < sequences.len() && 0 <= k < runs.len() ==> !linked(
            classes,
            sequences[a].last(),
            runs[k],
        ) && !linked(classes, runs[k], sequences[a][0])
}

proof fn lemma_continued(classes: Seq<BidiClass>, open: Seq<Seq<LevelRun>>, next: LevelRun)
    ensures
        match continued(classes, open, next) {
            Some(p) => 0 <= p < open.len() && linked(classes, open[p].last(), next),
            None => forall|p: int|
                0 <= p < open.len() ==> !linked(classes, (#[trigger] open[p]).last(), next),
        },
    decreases open.len(),
{
    if open.len() > 0 {
        lemma_continued(classes, open.drop_last(), next);
        if continued(classes, open, next) is None {
            assert forall|p: int| 0 <= p < open.len() implies !linked(
                classes,
                (#[trigger] open[p]).last(),
                next,
            ) by {
                if p < open.len() - 1 {
                    assert(open.drop_last()[p] == open[p]);
                }
            }
        }
    }
}

proof fn lemma_runs_in_push(sequences: Seq<Seq<LevelRun>>, last: Seq<LevelRun>)
    ensures
        runs_in(sequences.push(last)) == runs_in(sequences).add(last.to_multiset()),
{
    assert(sequences.push(last).drop_last() =~= sequences);
}

proof fn lemma_runs_in_remove(sequences: Seq<Seq<LevelRun>>, p: int)
    requires
        0 <= p < sequences.len(),
    ensures
        runs_in(sequences) == runs_in(sequences.remove(p)).add(sequences[p].to_multiset()),
    decreases sequences.len(),
{
    if p == sequences.len() - 1 {
        assert(sequences.remove(p) =~= sequences.drop_last());
    } else {
        lemma_runs_in_remove(sequences.drop_last(), p);
        assert(sequences.remove(p).drop_last() =~= sequences.drop_last().remove(p));
        assert(sequences.remove(p).last() == sequences.last());
        assert(runs_in(sequences) =~= runs_in(sequences.remove(p)).add(
            sequences[p].to_multiset(),
        ));
    }
}

proof fn lemma_runs_in_append(left: Seq<Seq<LevelRun>>, right: Seq<Seq<LevelRun>>)
    ensures
        runs_in(left + right) == runs_in(left).add(runs_in(right)),
    decreases right.len(),
{
    if right.len() == 0 {
        assert(left + right =~= left);
        assert(runs_in(left).add(Multiset::empty()) =~= runs_in(left));
    } else {
        lemma_runs_in_append(left, right.drop_last());
        assert((left + right).drop_last() =~= left + right.drop_last());
        assert(runs_in(left + right) =~= runs_in(left).add(runs_in(right)));
    }
}

proof fn lemma_runs_in_reverse(sequences: Seq<Seq<LevelRun>>)
    ensures
        runs_in(sequences.reverse()) == runs_in(sequences),
    decreases sequences.len(),
{
    if sequences.len() > 0 {
        let rest = sequences.drop_last();
        lemma_runs_in_reverse(rest);
        assert(sequences.reverse() =~= seq![sequences.last()] + rest.reverse());
        lemma_runs_in_append(seq![sequences.last()], rest.reverse());
        assert(runs_in(seq![sequences.last()]) =~= sequences.last().to_multiset()) by {
            lemma_runs_in_push(Seq::empty(), sequences.last());
            assert(Seq::empty().push(sequences.last()) =~= seq![sequences.last()]);
            assert(runs_in(Seq::<Seq<LevelRun>>::empty()) =~= Multiset::empty());
        }
        assert(runs_in(sequences.reverse()) =~= runs_in(sequences));
    }
}

/// A sequence of runs in which each is linked to the next.
pub open spec fn chain(classes: Seq<BidiClass>, sequence: Seq<LevelRun>) -> bool {
    &&& sequence.len() > 0
    &&& forall|b: int, c: int|
        0 <= b < sequence.len() - 1 && c == b + 1 ==> linked(
            classes,
            #[trigger] sequence[b],
            #[trigger] sequence[c],
        )
}

/// No run is linked to the start of the sequence.
spec fn starts_fresh(
    classes: Seq<BidiClass>,
    runs: Seq<LevelRun>,
    sequence: Seq<LevelRun>,
) -> bool {
    forall|j: int| 0 <= j < runs.len() ==> !linked(classes, #[trigger] runs[j], sequence[0])
}

/// Is `end` the last run of an open sequence?
spec fn is_open_end(open: Seq<Seq<LevelRun>>, end: LevelRun) -> bool {
    exists|p: int| 0 <= p < open.len() && (#[trigger] open[p]).last() == end
}

/// Is one of the first `k` runs linked after `end`?
spec fn is_continued(
    classes: Seq<BidiClass>,
    runs: Seq<LevelRun>,
    k: int,
    end: LevelRun,
) -> bool {
    exists|j: int| 0 <= j < k && linked(classes, end, #[trigger] runs[j])
}

/// What holds of a finished sequence.
spec fn done_wf(
    classes: Seq<BidiClass>,
    runs: Seq<LevelRun>,
    sequence: Seq<LevelRun>,
) -> bool {
    &&& chain(classes, sequence)
    &&& starts_fresh(classes, runs, sequence)
    &&& !ends_in_initiator(classes, sequence.last())
}

/// What holds of an open sequence after the first `k` runs.
spec fn open_wf(
    classes: Seq<BidiClass>,
    runs: Seq<LevelRun>,
    k: int,
    sequence: Seq<LevelRun>,
) -> bool {
    &&& chain(classes, sequence)
    &&& starts_fresh(classes, runs, sequence)
    &&& ends_in_initiator(classes, sequence.last())
    &&& !is_continued(classes, runs, k, sequence.last())
    &&& exists|j: int| 0 <= j < k && #[trigger] runs[j] == sequence.last()
}

/// What holds of the sequences of the first `k` runs.
spec fn assembly_wf(
    classes: Seq<BidiClass>,
    runs: Seq<LevelRun>,
    k: int,
    assembly: Assembly,
) -> bool {
    let done = assembly.done;
    let open = assembly.open;
    &&& runs_in(done).add(runs_in(open)) == runs.take(k).to_multiset()
    &&& forall|p: int| 0 <= p < done.len() ==> done_wf(classes, runs, #[trigger] done[p])
    &&& forall|p: int| 0 <= p < open.len() ==> open_wf(classes, runs, k, #[trigger] open[p])
    &&& forall|p: int, q: int|
        0 <= p < q < open.len() ==> (#[trigger] open[p]).last().end != (
        #[trigger] open[q]).last().end
    &&& forall|j: int|
        0 <= j < k && ends_in_initiator(classes, #[trigger] runs[j]) ==> is_open_end(
            open,
            runs[j],
        ) || is_continued(classes, runs, k, runs[j])
}

/// The last kept character of a run lies in the run.
pub proof fn last_kept_in_run(classes: Seq<BidiClass>, r: LevelRun)
    requires
        r.end <= classes.len(),
    ensures
        last_kept(classes, r) matches Some(i) ==> r.start <= i < r.end && !removed(classes[i]),
{
    kept_before_is_kept(classes, r.end as int);
}

/// A run is linked from one run only.
proof fn lemma_linked_from_one(
    classes: Seq<BidiClass>,
    runs: Seq<LevelRun>,
    first: LevelRun,
    other: LevelRun,
    second: LevelRun,
)
    requires
        tiles(runs, 0, classes.len() as int),
        runs.contains(first),
        runs.contains(other),
        linked(classes, first, second),
        linked(classes, other, second),
    ensures
        first == other,
{
    reveal(linked);
    let n = classes.len() as int;
    let j = runs.index_of(first);
    let k = runs.index_of(other);
    tiles_in_range(runs, 0, n, j);
    tiles_in_range(runs, 0, n, k);
    last_kept_in_run(classes, first);
    last_kept_in_run(classes, other);
    tiles_apart(runs, 0, n, j, k, last_kept(classes, first)->0);
}

/// A run is linked to runs at one place only.
proof fn lemma_linked_to_one(
    classes: Seq<BidiClass>,
    first: LevelRun,
    second: LevelRun,
    other: LevelRun,
)
    requires
        linked(classes, first, second),
        linked(classes, first, other),
    ensures
        second.start == other.start,
{
    reveal(linked);
    matching_pdi_is_unique(
        classes,
        last_kept(classes, first)->0,
        second.start as int,
        other.start as int,
    );
}

/// A run that is linked to another ends in an isolate initiator.
pub proof fn linked_from_initiator(classes: Seq<BidiClass>, first: LevelRun, second: LevelRun)
    requires
        linked(classes, first, second),
    ensures
        ends_in_initiator(classes, first),
{
    reveal(linked);
    matching_pdi_closes(classes, last_kept(classes, first)->0, second.start as int);
}

/// A run is linked only to runs after it.
pub proof fn linked_forward(classes: Seq<BidiClass>, runs: Seq<LevelRun>, j: int, k: int)
    requires
        tiles(runs, 0, classes.len() as int),
        0 <= k < runs.len(),
        0 <= j < runs.len(),
        linked(classes, runs[j], runs[k]),
    ensures
        j < k,
        runs[j].end <= runs[k].start,
{
    let n = classes.len() as int;
    let i = last_kept(classes, runs[j])->0;
    tiles_in_range(runs, 0, n, j);
    tiles_in_range(runs, 0, n, k);
    last_kept_in_run(classes, runs[j]);
    assert(last_kept(classes, runs[j]) is Some && i < runs[k].start) by {
        reveal(linked);
        matching_pdi_closes(classes, i, runs[k].start as int);
    }
    if k < j {
        tiles_in_order(runs, 0, n, k, j);
    } else if j < k {
        tiles_in_order(runs, 0, n, j, k);
    }
}

/// One more run is one more run of the sequences.
proof fn lemma_step_runs(
    classes: Seq<BidiClass>,
    runs: Seq<LevelRun>,
    k: int,
    assembly: Assembly,
)
    requires
        tiles(runs, 0, classes.len() as int),
        0 <= k < runs.len(),
        assembly_wf(classes, runs, k, assembly),
    ensures
        runs_in(assembly.after(classes, runs[k]).done).add(
            runs_in(assembly.after(classes, runs[k]).open),
        ) == runs.take(k + 1).to_multiset(),
{
    let next = runs[k];
    let open = assembly.open;
    let found = continued(classes, open, next);
    let sequence = assembly.extended(classes, next);
    let others = assembly.others(classes, next);
    let result = assembly.after(classes, next);
    lemma_continued(classes, open, next);
    assert(runs.take(k + 1) =~= runs.take(k).push(next));
    runs.take(k).to_multiset_ensures();
    let base = match found {
        Some(p) => open[p],
        None => Seq::empty(),
    };
    base.to_multiset_ensures();
    assert(sequence =~= base.push(next));
    assert(runs_in(open) =~= runs_in(others).add(base.to_multiset())) by {
        if found is Some {
            lemma_runs_in_remove(open, found->0);
        } else {
            assert(base.to_multiset() =~= Multiset::empty());
        }
    }
    lemma_runs_in_push(others, sequence);
    lemma_runs_in_push(assembly.done, sequence);
    assert(runs_in(result.done).add(runs_in(result.open)) =~= runs.take(k + 1).to_multiset());
}

/// The sequence that a run comes to stand in is a chain, and could not start earlier.
proof fn lemma_step_sequence(
    classes: Seq<BidiClass>,
    runs: Seq<LevelRun>,
    k: int,
    assembly: Assembly,
)
    requires
        tiles(runs, 0, classes.len() as int),
        0 <= k < runs.len(),
        assembly_wf(classes, runs, k, assembly),
    ensures
        chain(classes, assembly.extended(classes, runs[k])),
        starts_fresh(classes, runs, assembly.extended(classes, runs[k])),
        assembly.extended(classes, runs[k]).last() == runs[k],
        !is_continued(classes, runs, k + 1, runs[k]),
{
    let next = runs[k];
    let open = assembly.open;
    let found = continued(classes, open, next);
    let sequence = assembly.extended(classes, next);
    lemma_continued(classes, open, next);
    if found is Some {
        let base = open[found->0];
        assert(open_wf(classes, runs, k, base));
        assert(sequence[0] == base[0]);
        assert forall|b: int, c: int|
            0 <= b < sequence.len() - 1 && c == b + 1 implies linked(
            classes,
            #[trigger] sequence[b],
            #[trigger] sequence[c],
        ) by {
            if c < sequence.len() - 1 {
                assert(linked(classes, base[b], base[c]));
            }
        }
    } else {
        assert forall|j: int| 0 <= j < runs.len() implies !linked(
            classes,
            #[trigger] runs[j],
            next,
        ) by {
            if linked(classes, runs[j], next) {
                linked_forward(classes, runs, j, k);
                linked_from_initiator(classes, runs[j], next);
                if is_continued(classes, runs, k, runs[j]) {
                    let other = choose|i: int|
                        0 <= i < k && linked(classes, runs[j], #[trigger] runs[i]);
                    lemma_linked_to_one(classes, runs[j], runs[other], next);
                    tiles_in_order(runs, 0, classes.len() as int, other, k);
                }
            }
        }
    }
    if is_continued(classes, runs, k + 1, next) {
        let other = choose|i: int| 0 <= i < k + 1 && linked(classes, next, #[trigger] runs[i]);
        linked_forward(classes, runs, k, other);
    }
}

/// The place in `open` of the open sequence at `q` among those that a run does not continue.
spec fn place(found: Option<int>, q: int) -> int {
    if found is Some && q >= found->0 {
        q + 1
    } else {
        q
    }
}

/// An open sequence that a run does not continue stays as it is.
proof fn lemma_step_other(
    classes: Seq<BidiClass>,
    runs: Seq<LevelRun>,
    k: int,
    sequence: Seq<LevelRun>,
)
    requires
        tiles(runs, 0, classes.len() as int),
        0 <= k < runs.len(),
        open_wf(classes, runs, k, sequence),
        !linked(classes, sequence.last(), runs[k]),
    ensures
        open_wf(classes, runs, k + 1, sequence),
        sequence.last().end != runs[k].end,
{
    if is_continued(classes, runs, k + 1, sequence.last()) {
        let i = choose|i: int|
            0 <= i < k + 1 && linked(classes, sequence.last(), #[trigger] runs[i]);
        assert(i == k);
    }
    let j = choose|j: int| 0 <= j < k && #[trigger] runs[j] == sequence.last();
    assert(runs[j] == sequence.last());
    tiles_in_order(runs, 0, classes.len() as int, j, k);
}

/// The open sequences that a run does not continue stay as they are.
proof fn lemma_step_others(
    classes: Seq<BidiClass>,
    runs: Seq<LevelRun>,
    k: int,
    assembly: Assembly,
)
    requires
        tiles(runs, 0, classes.len() as int),
        0 <= k < runs.len(),
        assembly_wf(classes, runs, k, assembly),
    ensures
        forall|q: int|
            0 <= q < assembly.others(classes, runs[k]).len() ==> open_wf(
                classes,
                runs,
                k + 1,
                #[trigger] assembly.others(classes, runs[k])[q],
            ) && assembly.others(classes, runs[k])[q].last().end != runs[k].end,
        forall|p: int, q: int|
            0 <= p < q < assembly.others(classes, runs[k]).len() ==> (
            #[trigger] assembly.others(classes, runs[k])[p]).last().end != (
            #[trigger] assembly.others(classes, runs[k])[q]).last().end,
{
    let next = runs[k];
    let open = assembly.open;
    let found = continued(classes, open, next);
    let others = assembly.others(classes, next);
    lemma_continued(classes, open, next);
    assert forall|q: int| 0 <= q < others.len() implies #[trigger] others[q] == open[place(
        found,
        q,
    )] by {}
    assert forall|q: int| 0 <= q < others.len() implies open_wf(
        classes,
        runs,
        k + 1,
        #[trigger] others[q],
    ) && others[q].last().end != next.end by {
        let p = place(found, q);
        assert(open_wf(classes, runs, k, open[p]));
        if linked(classes, open[p].last(), next) {
            let base = open[found->0];
            assert(open_wf(classes, runs, k, base));
            lemma_linked_from_one(classes, runs, open[p].last(), base.last(), next);
            assert(open[p].last().end == base.last().end);
            assert(false);
        }
        lemma_step_other(classes, runs, k, open[p]);
    }
}

/// A run that ends in an isolate initiator ends an open sequence until it is continued.
proof fn lemma_step_end(
    classes: Seq<BidiClass>,
    runs: Seq<LevelRun>,
    k: int,
    assembly: Assembly,
    j: int,
)
    requires
        0 <= j <= k < runs.len(),
        ends_in_initiator(classes, runs[j]),
        j == k || is_open_end(assembly.open, runs[j]) || is_continued(classes, runs, k, runs[j]),
    ensures
        is_open_end(assembly.after(classes, runs[k]).open, runs[j]) || is_continued(
            classes,
            runs,
            k + 1,
            runs[j],
        ),
{
    let next = runs[k];
    let open = assembly.open;
    let found = continued(classes, open, next);
    let others = assembly.others(classes, next);
    let result = assembly.after(classes, next);
    lemma_continued(classes, open, next);
    if j == k {
        assert(result.open[result.open.len() - 1].last() == next);
    } else if is_continued(classes, runs, k, runs[j]) {
        let i = choose|i: int| 0 <= i < k && linked(classes, runs[j], #[trigger] runs[i]);
        assert(linked(classes, runs[j], runs[i]));
    } else {
        let p = choose|p: int| 0 <= p < open.len() && (#[trigger] open[p]).last() == runs[j];
        if found == Some(p) {
            assert(linked(classes, runs[j], runs[k]));
        } else {
            let q = if found is Some && p > found->0 {
                p - 1
            } else {
                p
            };
            assert(others[q] == open[p]);
            assert(result.open[q] == open[p]);
        }
    }
}

proof fn lemma_assembly_step(
    classes: Seq<BidiClass>,
    runs: Seq<LevelRun>,
    k: int,
    assembly: Assembly,
)
    requires
        tiles(runs, 0, classes.len() as int),
        0 <= k < runs.len(),
        assembly_wf(classes, runs, k, assembly),
    ensures
        assembly_wf(classes, runs, k + 1, assembly.after(classes, runs[k])),
{
    let next = runs[k];
    let sequence = assembly.extended(classes, next);
    lemma_step_runs(classes, runs, k, assembly);
    lemma_step_sequence(classes, runs, k, assembly);
    lemma_step_others(classes, runs, k, assembly);
    assert forall|j: int|
        0 <= j < k + 1 && ends_in_initiator(classes, #[trigger] runs[j]) implies is_open_end(
        assembly.after(classes, next).open,
        runs[j],
    ) || is_continued(classes, runs, k + 1, runs[j]) by {
        lemma_step_end(classes, runs, k, assembly, j);
    }
    if ends_in_initiator(classes, next) {
        assert(open_wf(classes, runs, k + 1, sequence)) by {
            assert(runs[k] == sequence.last());
        }
    } else {
        assert(done_wf(classes, runs, sequence));
    }
}

proof fn lemma_assembled(classes: Seq<BidiClass>, runs: Seq<LevelRun>, k: int)
    requires
        tiles(runs, 0, classes.len() as int),
        0 <= k <= runs.len(),
    ensures
        assembly_wf(classes, runs, k, assembled(classes, runs, k)),
    decreases k,
{
    if k > 0 {
        lemma_assembled(classes, runs, k - 1);
        lemma_assembly_step(classes, runs, k - 1, assembled(classes, runs, k - 1));
    } else {
        runs.take(0).to_multiset_ensures();
        assert(runs.take(0).to_multiset() =~= Multiset::empty());
        assert(Multiset::<LevelRun>::empty().add(Multiset::empty()) =~= Multiset::empty());
    }
}

/// The sequences are the isolating run sequences: every level run is in one of them, once, the
/// runs of each are linked from isolate initiator to matching PDI, and none could be longer.
pub proof fn sequences_are_isolating_run_sequences(
    classes: Seq<BidiClass>,
    runs: Seq<LevelRun>,
)
    requires
        tiles(runs, 0, classes.len() as int),
    ensures
        are_isolating_run_sequences(sequences_of(classes, runs), classes, runs),
{
    let n = runs.len() as int;
    let all = assembled(classes, runs, n);
    let sequences = sequences_of(classes, runs);
    lemma_assembled(classes, runs, n);
    lemma_runs_in_append(all.done, all.open.reverse());
    lemma_runs_in_reverse(all.open);
    assert(runs.take(n) =~= runs);
    assert forall|a: int| 0 <= a < sequences.len() implies chain(
        classes,
        #[trigger] sequences[a],
    ) && starts_fresh(classes, runs, sequences[a]) && !is_continued(
        classes,
        runs,
        n,
        sequences[a].last(),
    ) by {
        if a < all.done.len() {
            assert(done_wf(classes, runs, all.done[a]));
            assert(sequences[a] == all.done[a]);
            if is_continued(classes, runs, n, sequences[a].last()) {
                let j = choose|j: int|
                    0 <= j < n && linked(classes, sequences[a].last(), #[trigger] runs[j]);
                linked_from_initiator(classes, sequences[a].last(), runs[j]);
            }
        } else {
            let p = all.open.len() - 1 - (a - all.done.len());
            assert(open_wf(classes, runs, n, all.open[p]));
            assert(sequences[a] == all.open[p]);
        }
    }
    assert forall|a: int, b: int, c: int|
        0 <= a < sequences.len() && 0 <= b < sequences[a].len() - 1 && c == b + 1 implies linked(
        classes,
        #[trigger] sequences[a][b],
        #[trigger] sequences[a][c],
    ) by {
        assert(chain(classes, sequences[a]));
    }
    assert forall|a: int, k: int|
        #![trigger sequences[a], runs[k]]
        0 <= a < sequences.len() && 0 <= k < runs.len() implies !linked(
        classes,
        sequences[a].last(),
        runs[k],
    ) && !linked(classes, runs[k], sequences[a][0]) by {
        assert(starts_fresh(classes, runs, sequences[a]));
        assert(!is_continued(classes, runs, n, sequences[a].last()));
    }
}

/// Runs of characters of a text of length `n`, in text order.
pub open spec fn in_text_order(runs: Seq<LevelRun>, n: int) -> bool {
    &&& forall|k: int| 0 <= k < runs.len() ==> (#[trigger] runs[k]).start < runs[k].end <= n
    &&& forall|j: int, k: int|
        0 <= j < k < runs.len() ==> (#[trigger] runs[j]).end <= (#[trigger] runs[k]).start
}

/// The runs of a sequence are among the runs of all sequences.
pub proof fn runs_in_contains(sequences: Seq<Seq<LevelRun>>, a: int, b: int)
    requires
        0 <= a < sequences.len(),
        0 <= b < sequences[a].len(),
    ensures
        runs_in(sequences).contains(sequences[a][b]),
    decreases sequences.len(),
{
    if a < sequences.len() - 1 {
        runs_in_contains(sequences.drop_last(), a, b);
    } else {
        sequences.last().to_multiset_ensures();
        assert(sequences.last().contains(sequences[a][b]));
    }
}

/// A run that is among the runs of all sequences stands in one of them.
pub proof fn runs_in_finds(sequences: Seq<Seq<LevelRun>>, r: LevelRun) -> (a: int)
    requires
        runs_in(sequences).contains(r),
    ensures
        0 <= a < sequences.len(),
        sequences[a].contains(r),
    decreases sequences.len(),
{
    sequences.last().to_multiset_ensures();
    if sequences.last().contains(r) {
        sequences.len() - 1
    } else {
        runs_in_finds(sequences.drop_last(), r)
    }
}

/// A character lies in a run of only one of the isolating run sequences.
pub proof fn sequences_apart(
    sequences: Seq<Seq<LevelRun>>,
    classes: Seq<BidiClass>,
    runs: Seq<LevelRun>,
    a: int,
    b: int,
    first: LevelRun,
    second: LevelRun,
    i: int,
)
    requires
        are_isolating_run_sequences(sequences, classes, runs),
        tiles(runs, 0, classes.len() as int),
        0 <= a < sequences.len(),
        0 <= b < sequences.len(),
        sequences[a].contains(first),
        sequences[b].contains(second),
        first.start <= i < first.end,
        second.start <= i < second.end,
    ensures
        a == b,
{
    let n = classes.len() as int;
    runs_in_contains(sequences, a, sequences[a].index_of(first));
    runs_in_contains(sequences, b, sequences[b].index_of(second));
    runs.to_multiset_ensures();
    assert(runs.contains(first) && runs.contains(second));
    tiles_apart(runs, 0, n, runs.index_of(first), runs.index_of(second), i);
    assert(first == second);
    if a != b {
        let rest = sequences.remove(a);
        let c = if b < a {
            b
        } else {
            b - 1
        };
        lemma_runs_in_remove(sequences, a);
        assert(rest[c] == sequences[b]);
        runs_in_contains(rest, c, rest[c].index_of(second));
        sequences[a].to_multiset_ensures();
        assert(runs_in(sequences).count(first) >= 2);
        assert forall|j: int, k: int| 0 <= j < k < runs.len() implies runs[j] != runs[k] by {
            tiles_in_order(runs, 0, n, j, k);
            tiles_in_range(runs, 0, n, j);
            tiles_in_range(runs, 0, n, k);
        }
        assert(runs.no_duplicates());
        runs.lemma_multiset_has_no_duplicates();
        assert(runs.to_multiset().count(first) == 1);
    }
}

/// Linked runs follow each other in the text.
pub proof fn chain_is_in_text_order(
    classes: Seq<BidiClass>,
    runs: Seq<LevelRun>,
    sequence: Seq<LevelRun>,
)
    requires
        tiles(runs, 0, classes.len() as int),
        chain(classes, sequence),
        forall|b: int| 0 <= b < sequence.len() ==> runs.contains(#[trigger] sequence[b]),
    ensures
        in_text_order(sequence, classes.len() as int),
    decreases sequence.len(),
{
    assert forall|k: int| 0 <= k < sequence.len() implies (#[trigger] sequence[k]).start
        < sequence[k].end <= classes.len() by {
        let j = runs.index_of(sequence[k]);
        tiles_in_range(runs, 0, classes.len() as int, j);
    }
    if sequence.len() > 1 {
        let rest = sequence.drop_last();
        assert forall|b: int| 0 <= b < rest.len() implies runs.contains(#[trigger] rest[b]) by {
            assert(rest[b] == sequence[b]);
        }
        chain_is_in_text_order(classes, runs, rest);
        let n = sequence.len() - 1;
        assert(linked(classes, sequence[n - 1], sequence[n]));
        linked_forward(
            classes,
            runs,
            runs.index_of(sequence[n - 1]),
            runs.index_of(sequence[n]),
        );
        assert forall|j: int, k: int| 0 <= j < k < sequence.len() implies (
        #[trigger] sequence[j]).end <= (#[trigger] sequence[k]).start by {
            if k < n {
                assert(rest[j].end <= rest[k].start);
            } else if j < n - 1 {
                assert(rest[j].end <= rest[n - 1].start);
                assert(rest[n - 1] == sequence[n - 1]);
            }
        }
    }
}

/// The sequences of the first runs hold runs in text order.
pub proof fn assembled_in_text_order(classes: Seq<BidiClass>, runs: Seq<LevelRun>, k: int)
    requires
        tiles(runs, 0, classes.len() as int),
        0 <= k <= runs.len(),
    ensures
        forall|a: int|
            0 <= a < assembled(classes, runs, k).done.len() ==> in_text_order(
                #[trigger] assembled(classes, runs, k).done[a],
                classes.len() as int,
            ) && assembled(classes, runs, k).done[a].len() > 0,
        forall|a: int|
            0 <= a < assembled(classes, runs, k).open.len() ==> in_text_order(
                #[trigger] assembled(classes, runs, k).open[a],
                classes.len() as int,
            ) && assembled(classes, runs, k).open[a].len() > 0,
{
    let all = assembled(classes, runs, k);
    lemma_assembled(classes, runs, k);
    runs.take(k).to_multiset_ensures();
    assert forall|a: int| 0 <= a < all.done.len() implies in_text_order(
        #[trigger] all.done[a],
        classes.len() as int,
    ) && all.done[a].len() > 0 by {
        assert(done_wf(classes, runs, all.done[a]));
        assert forall|b: int| 0 <= b < all.done[a].len() implies runs.contains(
            #[trigger] all.done[a][b],
        ) by {
            runs_in_contains(all.done, a, b);
            assert(runs.take(k).to_multiset().count(all.done[a][b]) > 0);
            assert(runs.take(k).contains(all.done[a][b]));
        }
        chain_is_in_text_order(classes, runs, all.done[a]);
    }
    assert forall|a: int| 0 <= a < all.open.len() implies in_text_order(
        #[trigger] all.open[a],
        classes.len() as int,
    ) && all.open[a].len() > 0 by {
        assert(open_wf(classes, runs, k, all.open[a]));
        assert forall|b: int| 0 <= b < all.open[a].len() implies runs.contains(
            #[trigger] all.open[a][b],
        ) by {
            runs_in_contains(all.open, a, b);
            assert(runs.take(k).to_multiset().count(all.open[a][b]) > 0);
            assert(runs.take(k).contains(all.open[a][b]));
        }
        chain_is_in_text_order(classes, runs, all.open[a]);
    }
}

} // verus!
