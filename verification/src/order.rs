//! The order of display, by pairs: of two characters on a line the first is shown first if and only
//! if the lowest level from one to the other is even.
use vstd::prelude::*;

use crate::implicit::{highest, highest_is_greatest};
use crate::level::{tiles_cover, tiles_in_order, tiles_in_range};
use crate::reorder::{
    characters, display_order, display_order_keeps_characters, line_runs, line_runs_are_maximal,
    lowest, lowest_is_least, odd_from, run_level, visual_order, visual_order_keeps_runs,
};
use crate::reversal::{
    high_stretch, high_stretch_is_longest, reordered, stretches_reversed,
    stretches_reversed_same_items,
};
use crate::visual::span;

verus! {

/// The place to which reversing stretches brings the item at `p`.
spec fn place<T>(s: Seq<T>, high: spec_fn(T) -> bool, p: int) -> int
    decreases s.len(),
{
    let n = high_stretch(s, high) as int;
    if s.len() == 0 {
        p
    } else if n == 0 {
        if p <= 0 {
            p
        } else {
            1 + place(s.skip(1), high, p - 1)
        }
    } else if p < n {
        n - 1 - p
    } else {
        proof {
            high_stretch_is_longest(s, high);
        }
        n + place(s.skip(n), high, p - n)
    }
}

proof fn lemma_place<T>(s: Seq<T>, high: spec_fn(T) -> bool, p: int)
    requires
        0 <= p < s.len(),
    ensures
        0 <= place(s, high, p) < s.len(),
        stretches_reversed(s, high).len() == s.len(),
        stretches_reversed(s, high)[place(s, high, p)] == s[p],
    decreases s.len(),
{
    let n = high_stretch(s, high) as int;
    high_stretch_is_longest(s, high);
    stretches_reversed_same_items(s, high);
    if n == 0 {
        stretches_reversed_same_items(s.skip(1), high);
        if p > 0 {
            lemma_place(s.skip(1), high, p - 1);
        }
    } else {
        stretches_reversed_same_items(s.skip(n), high);
        if p >= n {
            lemma_place(s.skip(n), high, p - n);
        }
    }
}

/// Two items of a stretch change sides, and any other two keep theirs.
proof fn lemma_places<T>(s: Seq<T>, high: spec_fn(T) -> bool, p: int, q: int)
    requires
        0 <= p < q < s.len(),
    ensures
        (forall|m: int| p <= m <= q ==> high(#[trigger] s[m])) ==> place(s, high, q) < place(
            s,
            high,
            p,
        ),
        !(forall|m: int| p <= m <= q ==> high(#[trigger] s[m])) ==> place(s, high, p) < place(
            s,
            high,
            q,
        ),
    decreases s.len(),
{
    let n = high_stretch(s, high) as int;
    high_stretch_is_longest(s, high);
    if n == 0 {
        let rest = s.skip(1);
        if p > 0 {
            lemma_places(rest, high, p - 1, q - 1);
            lemma_shifted(s, high, 1, p, q);
        } else {
            lemma_place(rest, high, q - 1);
            assert(!high(s[0]));
        }
    } else {
        let rest = s.skip(n);
        if p >= n {
            lemma_places(rest, high, p - n, q - n);
            lemma_shifted(s, high, n, p, q);
        } else if q >= n {
            lemma_place(rest, high, q - n);
            assert(!high(s[n]));
        }
    }
}

proof fn lemma_shifted<T>(s: Seq<T>, high: spec_fn(T) -> bool, n: int, p: int, q: int)
    requires
        0 <= n <= p <= q < s.len(),
    ensures
        (forall|m: int| p <= m <= q ==> high(#[trigger] s[m])) == (forall|m: int|
            p - n <= m <= q - n ==> high(#[trigger] s.skip(n)[m])),
{
    let rest = s.skip(n);
    if forall|m: int| p - n <= m <= q - n ==> high(#[trigger] rest[m]) {
        assert forall|m: int| p <= m <= q implies high(#[trigger] s[m]) by {
            assert(high(rest[m - n]));
        }
    }
}

/// Every place is taken.
proof fn lemma_place_from<T>(s: Seq<T>, high: spec_fn(T) -> bool, r: int) -> (p: int)
    requires
        0 <= r < s.len(),
    ensures
        0 <= p < s.len(),
        place(s, high, p) == r,
    decreases s.len(),
{
    let n = high_stretch(s, high) as int;
    high_stretch_is_longest(s, high);
    if n == 0 {
        if r == 0 {
            0
        } else {
            let p = lemma_place_from(s.skip(1), high, r - 1);
            p + 1
        }
    } else if r < n {
        n - 1 - r
    } else {
        let p = lemma_place_from(s.skip(n), high, r - n);
        p + n
    }
}

/// Are all items from `p` to `q` at a level or above it?
spec fn all_from<T>(s: Seq<T>, level: spec_fn(T) -> u8, p: int, q: int, v: int) -> bool {
    forall|m: int| p <= m <= q ==> level(#[trigger] s[m]) >= v
}

/// The two places of a pair, the lesser first.
spec fn lesser(a: int, b: int) -> int {
    if a <= b {
        a
    } else {
        b
    }
}

spec fn greater(a: int, b: int) -> int {
    if a <= b {
        b
    } else {
        a
    }
}

/// Whether all items from one to another are at a level or above it is not changed by reversing
/// stretches at that level or a higher one.
proof fn lemma_all_from_stays<T>(
    s: Seq<T>,
    level: spec_fn(T) -> u8,
    hi: int,
    p: int,
    q: int,
    v: int,
)
    requires
        0 <= p < q < s.len(),
        v <= hi,
    ensures
        ({
            let high = |x: T| level(x) >= hi;
            all_from(s, level, p, q, v) == all_from(
                stretches_reversed(s, high),
                level,
                lesser(place(s, high, p), place(s, high, q)),
                greater(place(s, high, p), place(s, high, q)),
                v,
            )
        }),
{
    let high = |x: T| level(x) >= hi;
    let t = stretches_reversed(s, high);
    let a = place(s, high, p);
    let b = place(s, high, q);
    lemma_places(s, high, p, q);
    lemma_place(s, high, p);
    lemma_place(s, high, q);
    if all_from(s, level, p, q, v) {
        assert forall|r: int| lesser(a, b) <= r <= greater(a, b) implies level(#[trigger] t[r])
            >= v by {
            let m = lemma_place_from(s, high, r);
            lemma_place(s, high, m);
            if !high(s[m]) {
                lemma_low_between(s, high, p, q, m);
                assert(level(s[m]) >= v);
            }
        }
    }
    if all_from(t, level, lesser(a, b), greater(a, b), v) {
        assert forall|m: int| p <= m <= q implies level(#[trigger] s[m]) >= v by {
            lemma_place(s, high, m);
            if !high(s[m]) {
                lemma_low_between(s, high, p, q, m);
                assert(level(t[place(s, high, m)]) >= v);
            }
        }
    }
}

/// A low item is between two others after stretches have been reversed just where it was before.
proof fn lemma_low_between<T>(s: Seq<T>, high: spec_fn(T) -> bool, p: int, q: int, m: int)
    requires
        0 <= p < q < s.len(),
        0 <= m < s.len(),
        !high(s[m]),
    ensures
        p <= m <= q <==> lesser(place(s, high, p), place(s, high, q)) <= place(s, high, m)
            <= greater(place(s, high, p), place(s, high, q)),
{
    lemma_places(s, high, p, q);
    if m < p {
        lemma_places(s, high, m, p);
        lemma_places(s, high, m, q);
    } else if p < m && m < q {
        lemma_places(s, high, p, m);
        lemma_places(s, high, m, q);
    } else if q < m {
        lemma_places(s, high, p, m);
        lemma_places(s, high, q, m);
    }
}

/// The place to which reordering brings the item at `p`.
spec fn final_place<T>(s: Seq<T>, level: spec_fn(T) -> u8, hi: int, lo: int, p: int) -> int
    decreases hi - lo + 1,
{
    if hi < lo {
        p
    } else {
        let high = |x: T| level(x) >= hi;
        final_place(stretches_reversed(s, high), level, hi - 1, lo, place(s, high, p))
    }
}

proof fn lemma_final_place<T>(s: Seq<T>, level: spec_fn(T) -> u8, hi: int, lo: int, p: int)
    requires
        0 <= p < s.len(),
    ensures
        0 <= final_place(s, level, hi, lo, p) < s.len(),
        reordered(s, level, hi, lo).len() == s.len(),
        reordered(s, level, hi, lo)[final_place(s, level, hi, lo, p)] == s[p],
    decreases hi - lo + 1,
{
    if hi >= lo {
        let high = |x: T| level(x) >= hi;
        lemma_place(s, high, p);
        lemma_final_place(stretches_reversed(s, high), level, hi - 1, lo, place(s, high, p));
    }
}

/// How often the items of a pair change sides, where `v` is the lowest level from one to the
/// other.
spec fn turns(v: int, hi: int, lo: int) -> int {
    if v < lo || hi < lo {
        0
    } else if v <= hi {
        v - lo + 1
    } else {
        hi - lo + 1
    }
}

/// Is `v` the lowest level from `p` to `q`?
spec fn is_lowest<T>(s: Seq<T>, level: spec_fn(T) -> u8, p: int, q: int, v: int) -> bool {
    all_from(s, level, p, q, v) && !all_from(s, level, p, q, v + 1)
}

proof fn lemma_has_lowest<T>(s: Seq<T>, level: spec_fn(T) -> u8, p: int, q: int) -> (v: int)
    requires
        p <= q,
    ensures
        is_lowest(s, level, p, q, v),
    decreases q - p,
{
    let last = level(s[q]) as int;
    if p == q {
        assert(!(level(s[q]) >= last + 1));
        assert(all_from(s, level, p, q, last));
        last
    } else {
        let v = lemma_has_lowest(s, level, p, q - 1);
        let least = if last < v {
            last
        } else {
            v
        };
        assert(all_from(s, level, p, q, least)) by {
            assert forall|m: int| p <= m <= q implies level(#[trigger] s[m]) >= least by {
                if m < q {
                    assert(level(s[m]) >= v);
                }
            }
        }
        if last < v {
            assert(!(level(s[q]) >= least + 1));
        } else {
            let m = choose|m: int| p <= m <= q - 1 && level(#[trigger] s[m]) < v + 1;
            assert(level(s[m]) < v + 1);
        }
        least
    }
}

/// Two items end up in the order that the number of their turns says.
proof fn lemma_turns<T>(
    s: Seq<T>,
    level: spec_fn(T) -> u8,
    hi: int,
    lo: int,
    p: int,
    q: int,
    v: int,
)
    requires
        0 <= p < q < s.len(),
        is_lowest(s, level, p, q, v),
    ensures
        turns(v, hi, lo) % 2 == 0 ==> final_place(s, level, hi, lo, p) < final_place(
            s,
            level,
            hi,
            lo,
            q,
        ),
        turns(v, hi, lo) % 2 != 0 ==> final_place(s, level, hi, lo, q) < final_place(
            s,
            level,
            hi,
            lo,
            p,
        ),
    decreases hi - lo + 1,
{
    if hi >= lo {
        let high = |x: T| level(x) >= hi;
        let t = stretches_reversed(s, high);
        let a = place(s, high, p);
        let b = place(s, high, q);
        lemma_places(s, high, p, q);
        lemma_place(s, high, p);
        lemma_place(s, high, q);
        let x = lesser(a, b);
        let y = greater(a, b);
        let w = lemma_has_lowest(t, level, x, y);
        assert(all_from(s, level, p, q, hi) == (forall|m: int|
            p <= m <= q ==> high(#[trigger] s[m])));
        lemma_all_from_stays(s, level, hi, p, q, hi);
        lemma_all_from_weaker(s, level, p, q, v, hi);
        lemma_all_from_weaker(t, level, x, y, w, hi);
        if v < hi {
            lemma_all_from_stays(s, level, hi, p, q, v);
            lemma_all_from_stays(s, level, hi, p, q, v + 1);
            lemma_all_from_weaker(t, level, x, y, w, v);
            lemma_all_from_weaker(t, level, x, y, w, v + 1);
            assert(w == v);
        }
        lemma_turns(t, level, hi - 1, lo, x, y, w);
    }
}

/// Being at a level or above it is being at the lowest one or above that.
proof fn lemma_all_from_weaker<T>(
    s: Seq<T>,
    level: spec_fn(T) -> u8,
    p: int,
    q: int,
    v: int,
    w: int,
)
    requires
        is_lowest(s, level, p, q, v),
    ensures
        all_from(s, level, p, q, w) <==> w <= v,
{
    if w <= v {
        assert forall|m: int| p <= m <= q implies level(#[trigger] s[m]) >= w by {
            assert(level(s[m]) >= v);
        }
    } else if all_from(s, level, p, q, w) {
        assert forall|m: int| p <= m <= q implies level(#[trigger] s[m]) >= v + 1 by {
            assert(level(s[m]) >= w);
        }
    }
}

/// Two items of a line are shown in the order that the lowest level from one to the other says.
proof fn lemma_order<T>(
    s: Seq<T>,
    level: spec_fn(T) -> u8,
    hi: int,
    lo: int,
    p: int,
    q: int,
    v: int,
    a: int,
    b: int,
)
    requires
        0 <= p < q < s.len(),
        is_lowest(s, level, p, q, v),
        lo % 2 == 1,
        lo - 1 <= v <= hi,
        s.no_duplicates(),
        0 <= a < s.len(),
        0 <= b < s.len(),
        reordered(s, level, hi, lo)[a] == s[p],
        reordered(s, level, hi, lo)[b] == s[q],
        reordered(s, level, hi, lo).to_multiset() == s.to_multiset(),
    ensures
        a < b <==> v % 2 == 0,
{
    let t = reordered(s, level, hi, lo);
    lemma_turns(s, level, hi, lo, p, q, v);
    lemma_final_place(s, level, hi, lo, p);
    lemma_final_place(s, level, hi, lo, q);
    s.lemma_multiset_has_no_duplicates();
    t.lemma_multiset_has_no_duplicates_conv();
    assert(a == final_place(s, level, hi, lo, p));
    assert(b == final_place(s, level, hi, lo, q));
}

/// Of two characters on a line the first is shown first if and only if the lowest level from one
/// to the other is even. Here `a` and `b` are the places on display of the characters `i` and `j`,
/// and `low` is the place of a character at the lowest level.
pub proof fn display_order_of_two_characters(
    levels: Seq<u8>,
    start: int,
    end: int,
    i: int,
    j: int,
    low: int,
    a: int,
    b: int,
)
    requires
        0 <= start <= i < j < end <= levels.len(),
        i <= low <= j,
        forall|m: int| i <= m <= j ==> levels[low] <= #[trigger] levels[m],
        0 <= a < end - start,
        0 <= b < end - start,
        display_order(levels, start, end)[a] == i,
        display_order(levels, start, end)[b] == j,
    ensures
        a < b <==> levels[low] % 2 == 0,
{
    let line = levels.subrange(start, end);
    let of_char = |i: int| levels[i];
    let s = span(start, end);
    highest_is_greatest(line);
    lowest_is_least(line);
    assert(line[low - start] == levels[low]);
    display_order_keeps_characters(levels, start, end);
    let p = i - start;
    let q = j - start;
    let v = levels[low] as int;
    assert(all_from(s, of_char, p, q, v)) by {
        assert forall|m: int| p <= m <= q implies of_char(#[trigger] s[m]) >= v by {
            assert(levels[low] <= levels[m + start]);
        }
    }
    assert(!(of_char(s[low - start]) >= v + 1));
    lemma_order(
        s,
        of_char,
        highest(line) as int,
        odd_from(lowest(line)),
        p,
        q,
        v,
        a,
        b,
    );
}

/// Every character of a line has a place on display.
pub proof fn every_character_is_displayed(levels: Seq<u8>, start: int, end: int, i: int) -> (a: int)
    requires
        0 <= start <= i < end <= levels.len(),
    ensures
        0 <= a < end - start,
        display_order(levels, start, end)[a] == i,
{
    let line = levels.subrange(start, end);
    let of_char = |i: int| levels[i];
    let s = span(start, end);
    let hi = highest(line) as int;
    let lo = odd_from(lowest(line));
    lemma_final_place(s, of_char, hi, lo, i - start);
    final_place(s, of_char, hi, lo, i - start)
}

/// Of two level runs on a line the first comes first in visual order if and only if the lowest
/// level from one to the other is even. Here `a` and `b` are the places in visual order of the
/// runs `j` and `k` of the line, and `low` is the place of a character at the lowest level.
pub proof fn visual_order_of_two_runs(
    levels: Seq<u8>,
    start: int,
    end: int,
    j: int,
    k: int,
    low: int,
    a: int,
    b: int,
)
    requires
        0 <= start < end <= levels.len() <= usize::MAX,
        0 <= j < k < line_runs(levels, start, end).len(),
        line_runs(levels, start, end)[j].start <= low < line_runs(levels, start, end)[k].end,
        forall|m: int|
            line_runs(levels, start, end)[j].start <= m < line_runs(levels, start, end)[k].end
                ==> levels[low] <= #[trigger] levels[m],
        0 <= a < visual_order(levels, start, end).len(),
        0 <= b < visual_order(levels, start, end).len(),
        visual_order(levels, start, end)[a] == line_runs(levels, start, end)[j],
        visual_order(levels, start, end)[b] == line_runs(levels, start, end)[k],
    ensures
        a < b <==> levels[low] % 2 == 0,
{
    let line = levels.subrange(start, end);
    let runs = line_runs(levels, start, end);
    let of_run = run_level(levels);
    highest_is_greatest(line);
    lowest_is_least(line);
    line_runs_are_maximal(levels, start, end);
    visual_order_keeps_runs(levels, start, end);
    tiles_in_range(runs, start, end, j);
    tiles_in_range(runs, start, end, k);
    assert(line[low - start] == levels[low]);
    let v = levels[low] as int;
    assert forall|x: int, y: int| 0 <= x < y < runs.len() implies runs[x] != runs[y] by {
        tiles_in_order(runs, start, end, x, y);
        tiles_in_range(runs, start, end, x);
        tiles_in_range(runs, start, end, y);
    }
    assert(runs.no_duplicates());
    assert forall|m: int| j <= m <= k implies of_run(#[trigger] runs[m]) >= v by {
        tiles_in_range(runs, start, end, m);
        if j < m {
            tiles_in_order(runs, start, end, j, m);
        }
        if m < k {
            tiles_in_order(runs, start, end, m, k);
        }
        assert(levels[low] <= levels[runs[m].start as int]);
    }
    assert(all_from(runs, of_run, j, k, v));
    let r = tiles_cover(runs, start, end, low);
    tiles_in_range(runs, start, end, r);
    if r < j {
        tiles_in_order(runs, start, end, r, j);
    }
    if k < r {
        tiles_in_order(runs, start, end, k, r);
    }
    assert(levels[low] == levels[runs[r].start as int]);
    assert(!(of_run(runs[r]) >= v + 1));
    lemma_order(
        runs,
        of_run,
        highest(line) as int,
        odd_from(lowest(line)),
        j,
        k,
        v,
        a,
        b,
    );
}

/// The characters at some indices are the characters of the text there, one for one.
pub proof fn characters_are_those_of_the_text(text: Seq<char>, indices: Seq<int>)
    ensures
        characters(text, indices).len() == indices.len(),
        forall|k: int|
            0 <= k < indices.len() ==> #[trigger] characters(text, indices)[k] == text[indices[k]],
{
}

} // verus!
