//! The characters of level runs, and how reversing runs reverses their characters.
use vstd::prelude::*;

use crate::level::{tiles, LevelRun};
use crate::reversal::{
    high_stretch, high_stretch_is_longest, high_stretch_turns, low_items_stay, reordered,
    stretches_reversed, stretches_reversed_same_items,
};

verus! {

/// The indices from `start` up to but not including `end`.
pub open spec fn span(start: int, end: int) -> Seq<int> {
    if start < end {
        Seq::new((end - start) as nat, |k: int| start + k)
    } else {
        Seq::empty()
    }
}

/// The characters of a run, forwards or backwards.
pub open spec fn run_laid_out(r: LevelRun, backwards: bool) -> Seq<int> {
    if backwards {
        span(r.start as int, r.end as int).reverse()
    } else {
        span(r.start as int, r.end as int)
    }
}

/// The characters of some runs, one run after the other, each forwards or backwards.
pub open spec fn laid_out(runs: Seq<LevelRun>, backwards: spec_fn(LevelRun) -> bool) -> Seq<int>
    decreases runs.len(),
{
    if runs.len() == 0 {
        Seq::empty()
    } else {
        run_laid_out(runs[0], backwards(runs[0])) + laid_out(runs.skip(1), backwards)
    }
}

/// Runs that are not empty, and whose characters have the level of the first one.
pub open spec fn uniform(runs: Seq<LevelRun>, levels: Seq<u8>) -> bool {
    forall|k: int|
        #![trigger runs[k]]
        0 <= k < runs.len() ==> runs[k].start < runs[k].end <= levels.len() && (forall|i: int|
            runs[k].start <= i < runs[k].end ==> #[trigger] levels[i] == levels[
                runs[k].start as int
            ])
}

/// Runs are laid out one part after the other.
pub proof fn laid_out_append(
    left: Seq<LevelRun>,
    right: Seq<LevelRun>,
    backwards: spec_fn(LevelRun) -> bool,
)
    ensures
        laid_out(left + right, backwards) == laid_out(left, backwards) + laid_out(right, backwards),
    decreases left.len(),
{
    if left.len() == 0 {
        assert(left + right =~= right);
        assert(laid_out(left, backwards) + laid_out(right, backwards) =~= laid_out(
            right,
            backwards,
        ));
    } else {
        laid_out_append(left.skip(1), right, backwards);
        assert((left + right).skip(1) =~= left.skip(1) + right);
        assert(laid_out(left + right, backwards) =~= laid_out(left, backwards) + laid_out(
            right,
            backwards,
        ));
    }
}

/// One run laid out.
pub proof fn laid_out_one(r: LevelRun, backwards: spec_fn(LevelRun) -> bool)
    ensures
        laid_out(seq![r], backwards) == run_laid_out(r, backwards(r)),
{
    assert(seq![r].skip(1) =~= Seq::empty());
    assert(laid_out(seq![r].skip(1), backwards) =~= Seq::empty());
    assert(laid_out(seq![r], backwards) =~= run_laid_out(r, backwards(r)));
}

/// How runs are laid out depends on the direction of each alone.
pub proof fn laid_out_same(
    runs: Seq<LevelRun>,
    f: spec_fn(LevelRun) -> bool,
    g: spec_fn(LevelRun) -> bool,
)
    requires
        forall|k: int| 0 <= k < runs.len() ==> f(#[trigger] runs[k]) == g(runs[k]),
    ensures
        laid_out(runs, f) == laid_out(runs, g),
    decreases runs.len(),
{
    if runs.len() > 0 {
        assert forall|k: int| 0 <= k < runs.skip(1).len() implies f(#[trigger] runs.skip(1)[k])
            == g(runs.skip(1)[k]) by {
            assert(runs.skip(1)[k] == runs[k + 1]);
        }
        assert(f(runs[0]) == g(runs[0]));
        laid_out_same(runs.skip(1), f, g);
    }
}

/// Laid out backwards, runs come in reverse order, and each turns round.
proof fn lemma_laid_out_reverse(
    runs: Seq<LevelRun>,
    f: spec_fn(LevelRun) -> bool,
    g: spec_fn(LevelRun) -> bool,
)
    requires
        forall|k: int| 0 <= k < runs.len() ==> g(#[trigger] runs[k]) == !f(runs[k]),
    ensures
        laid_out(runs, f).reverse() == laid_out(runs.reverse(), g),
    decreases runs.len(),
{
    if runs.len() == 0 {
        assert(runs.reverse() =~= runs);
        assert(laid_out(runs, f).reverse() =~= laid_out(runs, f));
    } else {
        let rest = runs.skip(1);
        assert forall|k: int| 0 <= k < rest.len() implies g(#[trigger] rest[k]) == !f(
            rest[k],
        ) by {
            assert(rest[k] == runs[k + 1]);
        }
        lemma_laid_out_reverse(rest, f, g);
        assert(runs.reverse() =~= rest.reverse() + seq![runs[0]]);
        laid_out_append(rest.reverse(), seq![runs[0]], g);
        laid_out_one(runs[0], g);
        assert(g(runs[0]) == !f(runs[0]));
        let first = run_laid_out(runs[0], f(runs[0]));
        assert(first.reverse() =~= run_laid_out(runs[0], g(runs[0])));
        assert((first + laid_out(rest, f)).reverse() =~= laid_out(rest, f).reverse()
            + first.reverse());
    }
}

/// What holds of all characters of the runs holds of all characters that are laid out.
proof fn lemma_laid_out_all(
    runs: Seq<LevelRun>,
    backwards: spec_fn(LevelRun) -> bool,
    p: spec_fn(int) -> bool,
)
    requires
        forall|k: int, i: int|
            #![trigger runs[k], p(i)]
            0 <= k < runs.len() && runs[k].start <= i < runs[k].end ==> p(i),
    ensures
        forall|j: int|
            0 <= j < laid_out(runs, backwards).len() ==> p(#[trigger] laid_out(runs, backwards)[j]),
    decreases runs.len(),
{
    if runs.len() > 0 {
        let rest = runs.skip(1);
        assert forall|k: int, i: int|
            #![trigger rest[k], p(i)]
            0 <= k < rest.len() && rest[k].start <= i < rest[k].end implies p(i) by {
            assert(rest[k] == runs[k + 1]);
        }
        lemma_laid_out_all(rest, backwards, p);
        let first = run_laid_out(runs[0], backwards(runs[0]));
        assert forall|j: int| 0 <= j < laid_out(runs, backwards).len() implies p(
            #[trigger] laid_out(runs, backwards)[j],
        ) by {
            if j < first.len() {
                let i = first[j];
                assert(runs[0].start <= i < runs[0].end);
            } else {
                assert(laid_out(runs, backwards)[j] == laid_out(rest, backwards)[j - first.len()]);
            }
        }
    }
}

/// Reversing the stretches of runs at level `m` or above, and turning each of these runs round,
/// reverses the stretches of characters at that level or above.
proof fn lemma_stage(
    runs: Seq<LevelRun>,
    levels: Seq<u8>,
    m: int,
    f: spec_fn(LevelRun) -> bool,
    g: spec_fn(LevelRun) -> bool,
)
    requires
        uniform(runs, levels),
        forall|k: int|
            0 <= k < runs.len() ==> g(#[trigger] runs[k]) == if levels[runs[k].start as int] >= m {
                !f(runs[k])
            } else {
                f(runs[k])
            },
    ensures
        stretches_reversed(laid_out(runs, f), |i: int| levels[i] >= m) == laid_out(
            stretches_reversed(runs, |r: LevelRun| levels[r.start as int] >= m),
            g,
        ),
    decreases runs.len(),
{
    let high_run = |r: LevelRun| levels[r.start as int] >= m;
    let high_char = |i: int| levels[i] >= m;
    let low_char = |i: int| !(levels[i] >= m);
    if runs.len() > 0 {
        let n = high_stretch(runs, high_run) as int;
        high_stretch_is_longest(runs, high_run);
        let k = if n == 0 {
            1
        } else {
            n
        };
        let head = runs.take(k);
        let rest = runs.skip(k);
        assert(head + rest =~= runs);
        assert(uniform(head, levels)) by {
            assert forall|q: int| 0 <= q < head.len() implies #[trigger] head[q] == runs[q] by {}
        }
        assert forall|q: int| 0 <= q < rest.len() implies #[trigger] rest[q] == runs[q + k] by {}
        assert(uniform(rest, levels));
        lemma_stage(rest, levels, m, f, g);
        laid_out_append(head, rest, f);
        let laid_head = laid_out(head, f);
        let laid_rest = laid_out(rest, f);
        if n == 0 {
            assert(head =~= seq![runs[0]]);
            assert(!high_run(runs[0]));
            assert(g(runs[0]) == f(runs[0]));
            lemma_laid_out_all(head, f, low_char);
            assert forall|j: int| 0 <= j < laid_head.len() implies !high_char(
                #[trigger] laid_head[j],
            ) by {
                assert(low_char(laid_head[j]));
            }
            low_items_stay(laid_head, laid_rest, high_char);
            laid_out_one(runs[0], f);
            laid_out_one(runs[0], g);
            laid_out_append(seq![runs[0]], stretches_reversed(rest, high_run), g);
        } else {
            assert forall|q: int| 0 <= q < head.len() implies g(#[trigger] head[q]) == !f(
                head[q],
            ) by {
                assert(high_run(runs[q]));
                assert(head[q] == runs[q]);
            }
            assert forall|q: int, i: int|
                #![trigger head[q], high_char(i)]
                0 <= q < head.len() && head[q].start <= i < head[q].end implies high_char(i) by {
                assert(high_run(runs[q]));
                assert(head[q] == runs[q]);
            }
            lemma_laid_out_all(head, f, high_char);
            assert(laid_head.len() > 0) by {
                assert(head[0] == runs[0]);
                assert(run_laid_out(runs[0], f(runs[0])).len() > 0);
            }
            if laid_rest.len() > 0 {
                assert(rest.len() > 0);
                assert(rest[0] == runs[n]);
                assert(!high_run(rest[0]));
                let first = run_laid_out(rest[0], f(rest[0]));
                assert(laid_rest[0] == first[0]);
                assert(rest[0].start <= first[0] < rest[0].end);
            }
            high_stretch_turns(laid_head, laid_rest, high_char);
            lemma_laid_out_reverse(head, f, g);
            laid_out_append(head.reverse(), stretches_reversed(rest, high_run), g);
        }
    }
}

/// Which runs are laid out backwards when the levels down to `m` have been reversed: those that
/// have been reversed an odd number of times.
pub open spec fn turned(levels: Seq<u8>, m: int) -> spec_fn(LevelRun) -> bool {
    |r: LevelRun| levels[r.start as int] >= m && (levels[r.start as int] - m) % 2 == 0
}

/// Reordering runs from level `hi` down to level `lo` reorders their characters.
pub proof fn reordered_runs_reorder_characters(
    runs: Seq<LevelRun>,
    levels: Seq<u8>,
    hi: int,
    lo: int,
)
    requires
        uniform(runs, levels),
        hi >= lo - 1,
    ensures
        laid_out(
            reordered(runs, |r: LevelRun| levels[r.start as int], hi, lo),
            turned(levels, lo),
        ) == reordered(laid_out(runs, turned(levels, hi + 1)), |i: int| levels[i], hi, lo),
    decreases hi - lo + 1,
{
    if hi >= lo {
        let of_run = |r: LevelRun| levels[r.start as int];
        let of_char = |i: int| levels[i];
        let high_run = |r: LevelRun| of_run(r) >= hi;
        let high_char = |i: int| of_char(i) >= hi;
        assert(high_run =~= (|r: LevelRun| levels[r.start as int] >= hi));
        assert(high_char =~= (|i: int| levels[i] >= hi));
        let next = stretches_reversed(runs, high_run);
        lemma_stage(runs, levels, hi, turned(levels, hi + 1), turned(levels, hi));
        stretches_reversed_same_items(runs, high_run);
        assert(uniform(next, levels)) by {
            assert forall|k: int| #![trigger next[k]] 0 <= k < next.len() implies next[k].start
                < next[k].end <= levels.len() && (forall|i: int|
                next[k].start <= i < next[k].end ==> #[trigger] levels[i] == levels[
                    next[k].start as int
                ]) by {
                next.to_multiset_ensures();
                runs.to_multiset_ensures();
                assert(next.contains(next[k]));
                assert(runs.to_multiset().count(next[k]) > 0);
                let q = runs.index_of(next[k]);
                assert(runs[q] == next[k]);
            }
        }
        reordered_runs_reorder_characters(next, levels, hi - 1, lo);
    }
}

/// Runs that cover a text, laid out forwards, are the text.
pub proof fn tiles_laid_out(
    runs: Seq<LevelRun>,
    backwards: spec_fn(LevelRun) -> bool,
    start: int,
    end: int,
)
    requires
        tiles(runs, start, end),
        forall|k: int| 0 <= k < runs.len() ==> !backwards(#[trigger] runs[k]),
    ensures
        laid_out(runs, backwards) == span(start, end),
        start <= end,
    decreases runs.len(),
{
    if runs.len() == 0 {
        assert(span(start, end) =~= Seq::empty());
    } else {
        let rest = runs.skip(1);
        let mid = runs[0].end as int;
        assert forall|k: int| 0 <= k < rest.len() implies #[trigger] rest[k] == runs[k + 1] by {}
        if rest.len() > 0 {
            assert(rest[0] == runs[1]);
            assert(rest.last() == runs.last());
        }
        assert(tiles(rest, mid, end)) by {
            assert forall|j: int, k: int| 0 <= j < rest.len() - 1 && k == j + 1 implies (
            #[trigger] rest[j]).end == (#[trigger] rest[k]).start by {
                assert(rest[j] == runs[j + 1]);
                assert(rest[k] == runs[k + 1]);
            }
        }
        tiles_laid_out(rest, backwards, mid, end);
        assert(!backwards(runs[0]));
        assert(span(start, mid) + span(mid, end) =~= span(start, end));
    }
}

} // verus!
