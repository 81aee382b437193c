//! Laws of evaluation: the cut of a one-sided labelling, the bound on the
//! cut, and the balance bound as a function of the tolerance.

use vstd::prelude::*;
use crate::layout::{prefix_sum, side_sum, size_limit, Index, Layout};

verus! {

/// The cut nets weigh no more than all nets.
pub proof fn lemma_cut_sum_bound(s: Layout, labels: Seq<bool>, n: nat)
    ensures
        s.cut_sum(labels, n) <= prefix_sum(s.w, n),
    decreases n,
{
    if n > 0 {
        lemma_cut_sum_bound(s, labels, (n - 1) as nat);
    }
}

/// The sum of the nets' weights grows with the number of nets summed.
pub proof fn lemma_prefix_sum_monotone(w: Seq<u64>, i: nat, j: nat)
    requires
        i <= j,
    ensures
        prefix_sum(w, i) <= prefix_sum(w, j),
    decreases j,
{
    if i < j {
        lemma_prefix_sum_monotone(w, i, (j - 1) as nat);
    }
}

/// Trivial cut: a labelling that puts every pin on one side cuts no net,
/// so the cut weighs nothing.
pub proof fn lemma_trivial_cut(s: Layout, labels: Seq<bool>, side: bool)
    requires
        s.safe(),
        labels.len() == s.v.len(),
        forall|i: int| 0 <= i < labels.len() ==> labels[i] == side,
    ensures
        s.cut_weight(labels) == 0,
{
    assert forall|e: Index, k: int| s.is_net(e) && 0 <= k < s.pins_of(e).len() implies (
    #[trigger] s.pins_of(e)[k]) < labels.len() by {
        assert(s.net_start(e) + s.net_size(e) <= s.a.len());
        assert(s.is_pin(s.pin_at(e, k)));
    }
    lemma_no_cut_upto(s, labels, side, s.e.len());
}

/// `lemma_trivial_cut` for the first `n` nets.
pub proof fn lemma_no_cut_upto(s: Layout, labels: Seq<bool>, side: bool, n: nat)
    requires
        n <= s.e.len(),
        forall|i: int| 0 <= i < labels.len() ==> labels[i] == side,
        forall|e: Index, k: int|
            s.is_net(e) && 0 <= k < s.pins_of(e).len() ==> (#[trigger] s.pins_of(e)[k])
                < labels.len(),
    ensures
        s.cut_sum(labels, n) == 0,
    decreases n,
{
    if n > 0 {
        lemma_no_cut_upto(s, labels, side, (n - 1) as nat);
        let e = (n - 1) as Index;
        if s.e.len() <= u32::MAX {
            assert(s.is_net(e));
            if s.is_cut(labels, e) {
                let (x, y) = choose|x: Index, y: Index|
                    #![trigger s.pins_of(e).contains(x), s.pins_of(e).contains(y)]
                    s.pins_of(e).contains(x) && s.pins_of(e).contains(y) && labels[x as int]
                        != labels[y as int];
                let i = choose|i: int| 0 <= i < s.pins_of(e).len() && s.pins_of(e)[i] == x;
                let j = choose|j: int| 0 <= j < s.pins_of(e).len() && s.pins_of(e)[j] == y;
                assert(s.pins_of(e)[i] < labels.len());
                assert(s.pins_of(e)[j] < labels.len());
            }
        }
    }
}

/// Monotone balance bound: a larger tolerance never allows less, and at
/// tolerance zero a side may hold half the total capacity.
pub proof fn lemma_size_limit(total: nat, epsilon: nat, larger: nat)
    requires
        epsilon <= larger,
    ensures
        size_limit(total, epsilon) <= size_limit(total, larger),
        size_limit(total, 0) == total / 2,
{
    assert((1_000_000 + epsilon) * total <= (1_000_000 + larger) * total) by (nonlinear_arith)
        requires
            epsilon <= larger,
    ;
    assert(1_000_000 * total / 2_000_000 == total / 2) by (nonlinear_arith);
    assert((1_000_000 + epsilon) * total / 2_000_000 <= (1_000_000 + larger) * total / 2_000_000)
        by (nonlinear_arith)
        requires
            (1_000_000 + epsilon) * total <= (1_000_000 + larger) * total,
    ;
    assert((1_000_000 + epsilon) * total >= 0) by (nonlinear_arith);
    assert((1_000_000 + epsilon) * total / 2_000_000 >= 0) by (nonlinear_arith)
        requires
            (1_000_000 + epsilon) * total >= 0,
    ;
}

/// The summed capacity of the pins that `labels` puts on `side`.
pub open spec fn side_weight(capacities: Seq<u64>, labels: Seq<bool>, side: bool) -> nat {
    side_sum(capacities, Seq::new(capacities.len(), |i: int| true), labels, side, capacities.len())
}

/// The capacity of the heavier side of `labels`.
pub open spec fn heavier_side(capacities: Seq<u64>, labels: Seq<bool>) -> nat {
    if side_weight(capacities, labels, true) >= side_weight(capacities, labels, false) {
        side_weight(capacities, labels, true)
    } else {
        side_weight(capacities, labels, false)
    }
}

/// The net `pins` has pins on both sides of `labels`.
pub open spec fn net_cut(pins: Seq<Index>, labels: Seq<bool>) -> bool {
    exists|x: Index, y: Index|
        #![trigger pins.contains(x), pins.contains(y)]
        pins.contains(x) && pins.contains(y) && labels[x as int] != labels[y as int]
}

/// The summed weight of those of the first `n` nets that `labels` cuts.
pub open spec fn cut_of(weights: Seq<u64>, nets: Seq<Seq<Index>>, labels: Seq<bool>, n: nat) -> nat
    decreases n,
{
    if n == 0 {
        0
    } else {
        cut_of(weights, nets, labels, (n - 1) as nat) + if net_cut(nets[n - 1], labels) {
            weights[n - 1] as nat
        } else {
            0nat
        }
    }
}

/// Structures that agree evaluate every bipartition alike.
pub proof fn lemma_agrees_evaluates(s: Layout, r: Layout, labels: Seq<bool>)
    requires
        s.wf(),
        s.agrees(r),
    ensures
        r.imbalance(labels) == s.imbalance(labels),
        r.cut_weight(labels) == s.cut_weight(labels),
{
    lemma_agrees_cut(s, r, labels, s.e.len());
}

/// `lemma_agrees_evaluates` for the first `n` nets.
pub proof fn lemma_agrees_cut(s: Layout, r: Layout, labels: Seq<bool>, n: nat)
    requires
        s.wf(),
        s.agrees(r),
        n <= s.e.len(),
    ensures
        r.cut_sum(labels, n) == s.cut_sum(labels, n),
    decreases n,
{
    if n > 0 {
        lemma_agrees_cut(s, r, labels, (n - 1) as nat);
        let e = (n - 1) as Index;
        assert(s.is_net(e));
        if s.is_cut(labels, e) {
            let (x, y) = choose|x: Index, y: Index|
                #![trigger s.pins_of(e).contains(x), s.pins_of(e).contains(y)]
                s.pins_of(e).contains(x) && s.pins_of(e).contains(y) && labels[x as int]
                    != labels[y as int];
            assert(r.pins_of(e).contains(x) && r.pins_of(e).contains(y));
        }
        if r.is_cut(labels, e) {
            let (x, y) = choose|x: Index, y: Index|
                #![trigger r.pins_of(e).contains(x), r.pins_of(e).contains(y)]
                r.pins_of(e).contains(x) && r.pins_of(e).contains(y) && labels[x as int]
                    != labels[y as int];
            assert(s.pins_of(e).contains(x) && s.pins_of(e).contains(y));
        }
    }
}

/// A structure in which every pin is enabled and every net lists the pins
/// of the input evaluates a bipartition as the input does.
pub proof fn lemma_built_evaluates(
    s: Layout,
    capacities: Seq<u64>,
    weights: Seq<u64>,
    nets: Seq<Seq<Index>>,
    labels: Seq<bool>,
)
    requires
        s.sized(),
        s.c == capacities,
        s.w == weights,
        s.e.len() == nets.len(),
        forall|p: Index| s.is_pin(p) ==> s.enabled[p as int],
        forall|e: Index| s.is_net(e) ==> #[trigger] s.pins_of(e) == nets[e as int],
    ensures
        s.imbalance(labels) == heavier_side(capacities, labels),
        s.cut_weight(labels) == cut_of(weights, nets, labels, nets.len()),
{
    let on = Seq::new(capacities.len(), |i: int| true);
    assert forall|i: int| 0 <= i < s.v.len() implies s.enabled[i] == on[i] by {
        assert(s.is_pin(i as Index));
    }
    lemma_side_same(s.c, s.enabled, on, labels, true, s.v.len());
    lemma_side_same(s.c, s.enabled, on, labels, false, s.v.len());
    lemma_built_cut(s, weights, nets, labels, nets.len());
}

/// The side sums under two masks that agree on the first `n` flags.
pub proof fn lemma_side_same(
    c: Seq<u64>,
    on: Seq<bool>,
    on2: Seq<bool>,
    labels: Seq<bool>,
    side: bool,
    n: nat,
)
    requires
        forall|i: int| 0 <= i < n ==> on[i] == on2[i],
    ensures
        side_sum(c, on, labels, side, n) == side_sum(c, on2, labels, side, n),
    decreases n,
{
    if n > 0 {
        lemma_side_same(c, on, on2, labels, side, (n - 1) as nat);
    }
}

/// `lemma_built_evaluates` for the first `n` nets.
pub proof fn lemma_built_cut(
    s: Layout,
    weights: Seq<u64>,
    nets: Seq<Seq<Index>>,
    labels: Seq<bool>,
    n: nat,
)
    requires
        s.sized(),
        s.w == weights,
        s.e.len() == nets.len(),
        n <= nets.len(),
        forall|e: Index| s.is_net(e) ==> #[trigger] s.pins_of(e) == nets[e as int],
    ensures
        s.cut_sum(labels, n) == cut_of(weights, nets, labels, n),
    decreases n,
{
    if n > 0 {
        lemma_built_cut(s, weights, nets, labels, (n - 1) as nat);
        let e = (n - 1) as Index;
        assert(s.is_net(e));
        assert(s.pins_of(e) == nets[n - 1]);
    }
}

} // verus!
