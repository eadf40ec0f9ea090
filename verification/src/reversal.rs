//! Rule L2 on sequences of things that have levels: reversing what is at a level or above it.
//!
//! http://www.unicode.org/reports/tr9/#L2
use vstd::prelude::*;

verus! {

/// The end of the stretch of high items that a sequence starts with.
pub open spec fn high_stretch<T>(s: Seq<T>, high: spec_fn(T) -> bool) -> nat
    decreases s.len(),
{
    if s.len() == 0 || !high(s[0]) {
        0
    } else {
        1 + high_stretch(s.skip(1), high)
    }
}

/// A sequence with each contiguous stretch of high items reversed.
pub open spec fn stretches_reversed<T>(s: Seq<T>, high: spec_fn(T) -> bool) -> Seq<T>
    decreases s.len(),
{
    let n = high_stretch(s, high) as int;
    if s.len() == 0 {
        s
    } else if n == 0 {
        seq![s[0]] + stretches_reversed(s.skip(1), high)
    } else {
        proof {
            high_stretch_is_longest(s, high);
        }
        s.take(n).reverse() + stretches_reversed(s.skip(n), high)
    }
}

/// From level `hi` down to level `lo`, each contiguous stretch of items at that level or above is
/// reversed.
pub open spec fn reordered<T>(s: Seq<T>, level: spec_fn(T) -> u8, hi: int, lo: int) -> Seq<T>
    decreases hi - lo + 1,
{
    if hi < lo {
        s
    } else {
        reordered(stretches_reversed(s, |x: T| level(x) >= hi), level, hi - 1, lo)
    }
}

/// The stretch that a sequence starts with is high, and what follows it is not.
pub proof fn high_stretch_is_longest<T>(s: Seq<T>, high: spec_fn(T) -> bool)
    ensures
        high_stretch(s, high) <= s.len(),
        forall|i: int| 0 <= i < high_stretch(s, high) ==> high(#[trigger] s[i]),
        high_stretch(s, high) < s.len() ==> !high(s[high_stretch(s, high) as int]),
    decreases s.len(),
{
    if s.len() > 0 && high(s[0]) {
        let rest = s.skip(1);
        high_stretch_is_longest(rest, high);
        assert forall|i: int| 0 <= i < high_stretch(s, high) implies high(#[trigger] s[i]) by {
            if i > 0 {
                assert(rest[i - 1] == s[i]);
            }
        }
    }
}

/// A stretch that is high and is not followed by a high item is the stretch that the sequence
/// starts with.
pub proof fn high_stretch_is<T>(s: Seq<T>, high: spec_fn(T) -> bool, n: int)
    requires
        0 <= n <= s.len(),
        forall|i: int| 0 <= i < n ==> high(#[trigger] s[i]),
        n < s.len() ==> !high(s[n]),
    ensures
        high_stretch(s, high) == n,
{
    high_stretch_is_longest(s, high);
    let m = high_stretch(s, high) as int;
    if m < n {
        assert(high(s[m]));
    } else if n < m {
        assert(high(s[n]));
    }
}

/// Reversing stretches keeps the items.
pub proof fn stretches_reversed_same_items<T>(s: Seq<T>, high: spec_fn(T) -> bool)
    ensures
        stretches_reversed(s, high).len() == s.len(),
        stretches_reversed(s, high).to_multiset() == s.to_multiset(),
    decreases s.len(),
{
    broadcast use vstd::seq_lib::group_to_multiset_ensures;

    let n = high_stretch(s, high) as int;
    high_stretch_is_longest(s, high);
    if s.len() > 0 {
        if n == 0 {
            stretches_reversed_same_items(s.skip(1), high);
            vstd::seq_lib::lemma_multiset_commutative(
                seq![s[0]],
                stretches_reversed(s.skip(1), high),
            );
            vstd::seq_lib::lemma_multiset_commutative(seq![s[0]], s.skip(1));
            assert(seq![s[0]] + s.skip(1) =~= s);
        } else {
            stretches_reversed_same_items(s.skip(n), high);
            s.take(n).lemma_reverse_to_multiset();
            vstd::seq_lib::lemma_multiset_commutative(
                s.take(n).reverse(),
                stretches_reversed(s.skip(n), high),
            );
            vstd::seq_lib::lemma_multiset_commutative(s.take(n), s.skip(n));
            assert(s.take(n) + s.skip(n) =~= s);
        }
    }
}

/// Reordering keeps the items.
pub proof fn reordered_same_items<T>(s: Seq<T>, level: spec_fn(T) -> u8, hi: int, lo: int)
    ensures
        reordered(s, level, hi, lo).len() == s.len(),
        reordered(s, level, hi, lo).to_multiset() == s.to_multiset(),
    decreases hi - lo + 1,
{
    if hi >= lo {
        let high = |x: T| level(x) >= hi;
        stretches_reversed_same_items(s, high);
        reordered_same_items(stretches_reversed(s, high), level, hi - 1, lo);
    }
}

/// Low items stay in place.
pub proof fn low_items_stay<T>(low: Seq<T>, s: Seq<T>, high: spec_fn(T) -> bool)
    requires
        forall|i: int| 0 <= i < low.len() ==> !high(#[trigger] low[i]),
    ensures
        stretches_reversed(low + s, high) == low + stretches_reversed(s, high),
    decreases low.len(),
{
    if low.len() == 0 {
        assert(low + s =~= s);
        assert(low + stretches_reversed(s, high) =~= stretches_reversed(s, high));
    } else {
        let rest = low.skip(1);
        assert forall|i: int| 0 <= i < rest.len() implies !high(#[trigger] rest[i]) by {
            assert(rest[i] == low[i + 1]);
        }
        low_items_stay(rest, s, high);
        assert(!high(low[0]));
        assert((low + s).skip(1) =~= rest + s);
        assert(stretches_reversed(low + s, high) =~= low + stretches_reversed(s, high));
    }
}

/// High items that nothing high follows are reversed.
pub proof fn high_stretch_turns<T>(stretch: Seq<T>, s: Seq<T>, high: spec_fn(T) -> bool)
    requires
        stretch.len() > 0,
        forall|i: int| 0 <= i < stretch.len() ==> high(#[trigger] stretch[i]),
        s.len() > 0 ==> !high(s[0]),
    ensures
        stretches_reversed(stretch + s, high) == stretch.reverse() + stretches_reversed(s, high),
{
    let n = stretch.len() as int;
    assert forall|i: int| 0 <= i < n implies high(#[trigger] (stretch + s)[i]) by {
        assert((stretch + s)[i] == stretch[i]);
    }
    high_stretch_is(stretch + s, high, n);
    assert((stretch + s).take(n) =~= stretch);
    assert((stretch + s).skip(n) =~= s);
}

/// Which stretches are reversed depends on the items alone.
pub proof fn stretches_reversed_same<T>(
    s: Seq<T>,
    f: spec_fn(T) -> bool,
    g: spec_fn(T) -> bool,
)
    requires
        forall|i: int| 0 <= i < s.len() ==> f(#[trigger] s[i]) == g(s[i]),
    ensures
        stretches_reversed(s, f) == stretches_reversed(s, g),
    decreases s.len(),
{
    let n = high_stretch(s, f) as int;
    high_stretch_is_longest(s, f);
    assert forall|i: int| 0 <= i < n implies g(#[trigger] s[i]) by {
        assert(f(s[i]));
    }
    high_stretch_is(s, g, n);
    if s.len() > 0 {
        let k = if n == 0 {
            1
        } else {
            n
        };
        let rest = s.skip(k);
        assert forall|i: int| 0 <= i < rest.len() implies f(#[trigger] rest[i]) == g(rest[i]) by {
            assert(rest[i] == s[i + k]);
        }
        stretches_reversed_same(rest, f, g);
    }
}

/// Reversing the stretches of high items twice changes nothing.
pub proof fn stretches_reversed_twice<T>(s: Seq<T>, high: spec_fn(T) -> bool)
    ensures
        stretches_reversed(stretches_reversed(s, high), high) == s,
    decreases s.len(),
{
    let n = high_stretch(s, high) as int;
    high_stretch_is_longest(s, high);
    if s.len() > 0 {
        if n == 0 {
            let rest = s.skip(1);
            stretches_reversed_twice(rest, high);
            low_items_stay(seq![s[0]], stretches_reversed(rest, high), high);
            assert(seq![s[0]] + rest =~= s);
        } else {
            let stretch = s.take(n);
            let rest = s.skip(n);
            stretches_reversed_twice(rest, high);
            stretches_reversed_same_items(rest, high);
            assert forall|i: int| 0 <= i < n implies high(#[trigger] stretch.reverse()[i]) by {
                assert(high(s[n - 1 - i]));
            }
            if rest.len() > 0 {
                assert(rest[0] == s[n]);
                high_stretch_is(rest, high, 0);
                assert(stretches_reversed(rest, high)[0] == rest[0]);
            }
            high_stretch_turns(stretch.reverse(), stretches_reversed(rest, high), high);
            assert(stretch.reverse().reverse() =~= stretch);
            assert(stretch + rest =~= s);
        }
    }
}

/// Where no level is odd, reordering changes nothing: every stretch is reversed twice.
pub proof fn even_levels_stay<T>(s: Seq<T>, level: spec_fn(T) -> u8, hi: int, lo: int)
    requires
        forall|i: int| 0 <= i < s.len() ==> level(#[trigger] s[i]) % 2 == 0,
        hi % 2 == 0,
        lo % 2 == 1,
    ensures
        reordered(s, level, hi, lo) == s,
    decreases hi - lo + 1,
{
    if hi >= lo {
        let upper = |x: T| level(x) >= hi;
        let lower = |x: T| level(x) >= hi - 1;
        let once = stretches_reversed(s, upper);
        stretches_reversed_same_items(s, upper);
        assert forall|i: int| 0 <= i < once.len() implies upper(#[trigger] once[i]) == lower(
            once[i],
        ) by {
            once.to_multiset_ensures();
            s.to_multiset_ensures();
            assert(once.contains(once[i]));
            assert(s.to_multiset().count(once[i]) > 0);
            let q = s.index_of(once[i]);
            assert(s[q] == once[i]);
        }
        stretches_reversed_same(once, upper, lower);
        stretches_reversed_twice(s, upper);
        even_levels_stay(s, level, hi - 2, lo);
        assert(reordered(s, level, hi, lo) == reordered(once, level, hi - 1, lo));
        assert(reordered(once, level, hi - 1, lo) == reordered(s, level, hi - 2, lo));
    }
}

/// Where all levels are the same odd one, reordering reverses everything.
pub proof fn one_odd_level_turns<T>(s: Seq<T>, level: spec_fn(T) -> u8, hi: int)
    requires
        forall|i: int| 0 <= i < s.len() ==> level(#[trigger] s[i]) == hi,
    ensures
        reordered(s, level, hi, hi) == s.reverse(),
{
    let high = |x: T| level(x) >= hi;
    if s.len() > 0 {
        high_stretch_turns(s, Seq::empty(), high);
        assert(s + Seq::empty() =~= s);
        assert(s.reverse() + Seq::empty() =~= s.reverse());
    } else {
        assert(s.reverse() =~= s);
    }
    assert(reordered(s, level, hi, hi) == reordered(
        stretches_reversed(s, high),
        level,
        hi - 1,
        hi,
    ));
}

} // verus!
