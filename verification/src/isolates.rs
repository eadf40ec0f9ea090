//! Isolate initiators and the PDIs that match them.
use vstd::prelude::*;

use crate::tables::BidiClass;

verus! {

/// LRI, RLI and FSI open an isolate.
///
/// http://www.unicode.org/reports/tr9/#BD8
pub open spec fn initiator(class: BidiClass) -> bool {
    class == BidiClass::RLI || class == BidiClass::LRI || class == BidiClass::FSI
}

/// Does this class open an isolate?
pub fn is_isolate_initiator(class: BidiClass) -> (result: bool)
    ensures
        result == initiator(class),
{
    matches!(class, BidiClass::RLI | BidiClass::LRI | BidiClass::FSI)
}

/// The isolate initiators that are open before character `i`, the innermost last.
pub open spec fn open_isolates(classes: Seq<BidiClass>, i: int) -> Seq<int>
    decreases i,
{
    if i <= 0 {
        Seq::empty()
    } else {
        let before = open_isolates(classes, i - 1);
        let class = classes[i - 1];
        if initiator(class) {
            before.push(i - 1)
        } else if class == BidiClass::PDI && before.len() > 0 {
            before.drop_last()
        } else {
            before
        }
    }
}

/// The innermost isolate that character `i` stands in, by the index of its initiator.
pub open spec fn innermost_isolate(classes: Seq<BidiClass>, i: int) -> Option<int> {
    let open = open_isolates(classes, i);
    if open.len() == 0 {
        None
    } else {
        Some(open.last())
    }
}

/// Is `j` the PDI that matches the isolate initiator at `i`?
///
/// http://www.unicode.org/reports/tr9/#BD9
pub open spec fn matching_pdi(classes: Seq<BidiClass>, i: int, j: int) -> bool {
    &&& 0 <= j < classes.len()
    &&& classes[j] == BidiClass::PDI
    &&& innermost_isolate(classes, j) == Some(i)
}

/// Indices of isolate initiators before `i`, in text order.
pub open spec fn initiators_before(classes: Seq<BidiClass>, i: int, indices: Seq<int>) -> bool {
    &&& forall|p: int|
        0 <= p < indices.len() ==> 0 <= #[trigger] indices[p] < i && initiator(classes[indices[p]])
    &&& forall|p: int, q: int|
        0 <= p < q < indices.len() ==> #[trigger] indices[p] < #[trigger] indices[q]
}

/// The open isolates before `i` are initiators before `i`, in text order.
pub proof fn open_isolates_are_initiators(classes: Seq<BidiClass>, i: int)
    ensures
        initiators_before(classes, i, open_isolates(classes, i)),
    decreases i,
{
    if i > 0 {
        open_isolates_are_initiators(classes, i - 1);
        assert(initiators_before(classes, i, open_isolates(classes, i - 1)));
    }
}

/// An isolate that is open before `j` has been open since its initiator, with the same isolates
/// around it.
pub proof fn open_isolates_persist(classes: Seq<BidiClass>, p: int, i: int, j: int)
    requires
        j <= classes.len(),
        0 <= p < open_isolates(classes, j).len(),
        open_isolates(classes, j)[p] < i <= j,
    ensures
        p < open_isolates(classes, i).len(),
        open_isolates(classes, i).take(p + 1) == open_isolates(classes, j).take(p + 1),
    decreases j,
{
    if i < j {
        open_isolates_are_initiators(classes, j);
        let before = open_isolates(classes, j - 1);
        let after = open_isolates(classes, j);
        assert(p < before.len());
        assert(before.take(p + 1) =~= after.take(p + 1));
        assert(before[p] == after[p]);
        open_isolates_persist(classes, p, i, j - 1);
    }
}

/// Between an isolate initiator and its matching PDI the isolate stays open, and after the PDI
/// the same isolates are open as before the initiator.
pub proof fn matching_pdi_closes(classes: Seq<BidiClass>, i: int, j: int)
    requires
        matching_pdi(classes, i, j),
    ensures
        0 <= i < j,
        initiator(classes[i]),
        open_isolates(classes, j + 1) == open_isolates(classes, i),
        forall|k: int|
            i < k <= j ==> open_isolates(classes, i).push(i).is_prefix_of(
                #[trigger] open_isolates(classes, k),
            ),
{
    let outer = open_isolates(classes, i);
    let inner = open_isolates(classes, j);
    let p = inner.len() - 1;
    open_isolates_are_initiators(classes, i);
    open_isolates_are_initiators(classes, j);
    assert(inner[p] == i);
    assert(open_isolates(classes, i + 1) == outer.push(i));
    open_isolates_persist(classes, p, i + 1, j);
    assert(outer.push(i).take(p + 1)[p] == inner.take(p + 1)[p]);
    assert(outer.push(i)[p] == i);
    assert(p == outer.len());
    assert(outer.push(i).take(p + 1) =~= outer.push(i));
    assert(inner.take(p + 1) =~= inner);
    assert(inner.drop_last() =~= outer);
    assert forall|k: int| i < k <= j implies outer.push(i).is_prefix_of(
        #[trigger] open_isolates(classes, k),
    ) by {
        open_isolates_persist(classes, p, k, j);
        assert(open_isolates(classes, k).take(p + 1) == outer.push(i));
    }
}

/// An initiator has at most one matching PDI.
pub proof fn matching_pdi_is_unique(classes: Seq<BidiClass>, i: int, j: int, k: int)
    requires
        matching_pdi(classes, i, j),
        matching_pdi(classes, i, k),
    ensures
        j == k,
{
    if j < k {
        lemma_matched_once(classes, i, j, k);
    } else if k < j {
        lemma_matched_once(classes, i, k, j);
    }
}

proof fn lemma_matched_once(classes: Seq<BidiClass>, i: int, j: int, k: int)
    requires
        matching_pdi(classes, i, j),
        matching_pdi(classes, i, k),
    ensures
        j >= k,
{
    matching_pdi_closes(classes, i, j);
    matching_pdi_closes(classes, i, k);
    if j < k {
        let outer = open_isolates(classes, i);
        assert(outer.push(i).is_prefix_of(open_isolates(classes, j + 1)));
    }
}

/// Once an isolate is closed it stays closed.
pub proof fn closed_isolates_stay_closed(classes: Seq<BidiClass>, i: int, j: int, k: int)
    requires
        i < j <= k <= classes.len(),
        !open_isolates(classes, j).contains(i),
    ensures
        !open_isolates(classes, k).contains(i),
{
    if open_isolates(classes, k).contains(i) {
        let p = open_isolates(classes, k).index_of(i);
        open_isolates_persist(classes, p, j, k);
        assert(open_isolates(classes, j).take(p + 1)[p] == open_isolates(classes, k).take(
            p + 1,
        )[p]);
        assert(open_isolates(classes, j)[p] == i);
    }
}

/// A PDI inside an isolate matches an initiator inside the isolate.
pub proof fn inner_pdi_matches_inside(classes: Seq<BidiClass>, i: int, j: int, m: int) -> (k: int)
    requires
        matching_pdi(classes, i, j),
        i < m < j,
        classes[m] == BidiClass::PDI,
    ensures
        i < k < m,
        matching_pdi(classes, k, m),
{
    matching_pdi_closes(classes, i, j);
    open_isolates_are_initiators(classes, m);
    let outer = open_isolates(classes, i);
    let inner = open_isolates(classes, m);
    assert(outer.push(i).is_prefix_of(inner));
    assert(outer.push(i).is_prefix_of(open_isolates(classes, m + 1)));
    let n = outer.len() as int;
    assert(outer.push(i)[n] == inner.subrange(0, n + 1)[n]);
    inner.last()
}

/// An isolate that is open at one place and not at a later one is closed by a PDI in between.
pub proof fn isolate_closes(classes: Seq<BidiClass>, k: int, from: int, to: int) -> (m: int)
    requires
        0 <= k < from <= to <= classes.len(),
        open_isolates(classes, from).contains(k),
        !open_isolates(classes, to).contains(k),
    ensures
        from <= m < to,
        matching_pdi(classes, k, m),
    decreases to,
{
    let before = open_isolates(classes, to - 1);
    if before.contains(k) {
        let p = before.index_of(k);
        let after = open_isolates(classes, to);
        if p < after.len() {
            assert(after[p] == k);
        }
        to - 1
    } else {
        isolate_closes(classes, k, from, to - 1)
    }
}

/// An initiator inside an isolate is matched inside the isolate.
pub proof fn inner_initiator_is_matched_inside(
    classes: Seq<BidiClass>,
    i: int,
    j: int,
    k: int,
) -> (m: int)
    requires
        matching_pdi(classes, i, j),
        i < k < j,
        initiator(classes[k]),
    ensures
        k < m < j,
        matching_pdi(classes, k, m),
{
    matching_pdi_closes(classes, i, j);
    open_isolates_are_initiators(classes, j);
    let inner = open_isolates(classes, j);
    let opened = open_isolates(classes, k + 1);
    assert(opened[opened.len() - 1] == k);
    if inner.contains(k) {
        let p = inner.index_of(k);
        assert(inner[p] == k && inner[inner.len() - 1] == i);
    }
    isolate_closes(classes, k, k + 1, j)
}

} // verus!
