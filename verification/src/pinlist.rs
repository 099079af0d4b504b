//! Ordered lists of pin handles, and taking handles out of them.

use vstd::prelude::*;
use crate::handle::PinIndex;

verus! {

/// `pins` without the handles in `gone`; what stays keeps its order.
pub open spec fn prune(pins: Seq<PinIndex>, gone: Set<PinIndex>) -> Seq<PinIndex> {
    pins.filter(|p: PinIndex| !gone.contains(p))
}

/// Pruning a list that ends in `p` prunes the front and keeps or drops `p`.
pub proof fn lemma_prune_push(pins: Seq<PinIndex>, p: PinIndex, gone: Set<PinIndex>)
    ensures
        prune(pins.push(p), gone) == if gone.contains(p) {
            prune(pins, gone)
        } else {
            prune(pins, gone).push(p)
        },
{
    reveal(Seq::filter);
    assert(pins.push(p).drop_last() == pins);
}

/// A handle is in the pruned list exactly when it was in the list and is not
/// in `gone`.
pub proof fn lemma_prune_contains(pins: Seq<PinIndex>, gone: Set<PinIndex>, p: PinIndex)
    ensures
        prune(pins, gone).contains(p) <==> (pins.contains(p) && !gone.contains(p)),
    decreases pins.len(),
{
    reveal(Seq::filter);
    if pins.len() > 0 {
        let front = pins.drop_last();
        let last = pins.last();
        lemma_prune_contains(front, gone, p);
        assert(pins == front.push(last));
        lemma_prune_push(front, last, gone);
        if pins.contains(p) {
            let i = choose|i: int| 0 <= i < pins.len() && pins[i] == p;
            if i < front.len() {
                assert(front[i] == p);
            }
        }
        if front.contains(p) {
            let i = choose|i: int| 0 <= i < front.len() && front[i] == p;
            assert(pins[i] == p);
        }
        assert(pins[pins.len() - 1] == last);
        let pruned = prune(front, gone);
        if !gone.contains(last) {
            assert(pruned.push(last)[pruned.len() as int] == last);
            if pruned.push(last).contains(p) {
                let i = choose|i: int| 0 <= i < pruned.push(last).len() && pruned.push(last)[i] == p;
                if i < pruned.len() {
                    assert(pruned[i] == p);
                }
            }
            if pruned.contains(p) {
                let i = choose|i: int| 0 <= i < pruned.len() && pruned[i] == p;
                assert(pruned.push(last)[i] == p);
            }
        }
    }
}

/// Pruning a list without repetitions leaves a list without repetitions.
pub proof fn lemma_prune_no_duplicates(pins: Seq<PinIndex>, gone: Set<PinIndex>)
    requires
        pins.no_duplicates(),
    ensures
        prune(pins, gone).no_duplicates(),
    decreases pins.len(),
{
    reveal(Seq::filter);
    if pins.len() > 0 {
        let front = pins.drop_last();
        let last = pins.last();
        lemma_prune_no_duplicates(front, gone);
        assert(pins == front.push(last));
        lemma_prune_push(front, last, gone);
        lemma_prune_contains(front, gone, last);
        if front.contains(last) {
            let i = choose|i: int| 0 <= i < front.len() && front[i] == last;
            assert(pins[i] == pins[pins.len() - 1]);
        }
    }
}

/// Pruning changes nothing where no handle of the list is in `gone`.
pub proof fn lemma_prune_disjoint(pins: Seq<PinIndex>, gone: Set<PinIndex>)
    requires
        forall|i: int| 0 <= i < pins.len() ==> !gone.contains(#[trigger] pins[i]),
    ensures
        prune(pins, gone) == pins,
    decreases pins.len(),
{
    reveal(Seq::filter);
    if pins.len() > 0 {
        let front = pins.drop_last();
        lemma_prune_disjoint(front, gone);
        assert(pins == front.push(pins.last()));
    } else {
        assert(pins.filter(|p: PinIndex| !gone.contains(p)) == pins);
    }
}

/// Pruning twice is pruning once by the union.
pub proof fn lemma_prune_twice(pins: Seq<PinIndex>, first: Set<PinIndex>, second: Set<PinIndex>)
    ensures
        prune(prune(pins, first), second) == prune(pins, first.union(second)),
    decreases pins.len(),
{
    reveal(Seq::filter);
    if pins.len() > 0 {
        let front = pins.drop_last();
        let last = pins.last();
        lemma_prune_twice(front, first, second);
        assert(pins == front.push(last));
        lemma_prune_push(front, last, first);
        lemma_prune_push(front, last, first.union(second));
        if !first.contains(last) {
            lemma_prune_push(prune(front, first), last, second);
        }
    }
}

/// A list that ends in `p` holds `p` and what the front holds.
pub proof fn lemma_push_contains(pins: Seq<PinIndex>, p: PinIndex, x: PinIndex)
    ensures
        pins.push(p).contains(x) <==> (pins.contains(x) || x == p),
{
    let grown = pins.push(p);
    if pins.contains(x) {
        let i = choose|i: int| 0 <= i < pins.len() && pins[i] == x;
        assert(grown[i] == x);
    }
    if x == p {
        assert(grown[pins.len() as int] == x);
    }
    if grown.contains(x) {
        let i = choose|i: int| 0 <= i < grown.len() && grown[i] == x;
        if i < pins.len() {
            assert(pins[i] == x);
        }
    }
}

/// Two lists in a row hold what either holds.
pub proof fn lemma_concat_contains(front: Seq<PinIndex>, back: Seq<PinIndex>, x: PinIndex)
    ensures
        (front + back).contains(x) <==> (front.contains(x) || back.contains(x)),
{
    let both = front + back;
    if front.contains(x) {
        let i = choose|i: int| 0 <= i < front.len() && front[i] == x;
        assert(both[i] == x);
    }
    if back.contains(x) {
        let i = choose|i: int| 0 <= i < back.len() && back[i] == x;
        assert(both[front.len() + i] == x);
    }
    if both.contains(x) {
        let i = choose|i: int| 0 <= i < both.len() && both[i] == x;
        if i < front.len() {
            assert(front[i] == x);
        } else {
            assert(back[i - front.len()] == x);
        }
    }
}

/// Takes every occurrence of `pin` out of `list`.
pub fn remove_from(list: &mut Vec<PinIndex>, pin: PinIndex)
    ensures
        final(list)@ == prune(old(list)@, set![pin]),
{
    let ghost gone = set![pin];
    let mut kept: Vec<PinIndex> = Vec::new();
    let mut i: usize = 0;
    proof {
        reveal(Seq::filter);
        assert(list@.take(0) == Seq::<PinIndex>::empty());
    }
    while i < list.len()
        invariant
            i <= list.len(),
            list@ == old(list)@,
            gone == set![pin],
            kept@ == prune(list@.take(i as int), gone),
        decreases list.len() - i,
    {
        let p = list[i];
        proof {
            assert(list@.take(i + 1) == list@.take(i as int).push(p));
            lemma_prune_push(list@.take(i as int), p, gone);
        }
        if p != pin {
            kept.push(p);
        }
        i += 1;
    }
    proof {
        assert(list@.take(i as int) == list@);
    }
    *list = kept;
}

} // verus!
