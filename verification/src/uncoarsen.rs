//! Uncoarsening: the contractions are undone latest first, and after each
//! the bipartition is refined by a local search around the two pins that
//! were parted.

use vstd::prelude::*;
use vstd::multiset::Multiset;
use crate::bipartite::{Bipartite, Bipartition};
use crate::layout::{lemma_count_false_bound, prefix_sum, Index, Layout, Memento};
use crate::queue::{lemma_filter_insert, lemma_filter_remove, lemma_top, top, Entry, Queue};
use crate::reversal::lemma_replayed;

verus! {

/// A pass of the local search ends with this many moves in a row that gain
/// nothing.
pub const MAX_STALL: usize = 20;

/// How many of the first `k` pins of net `e` are on `side`.
pub open spec fn on_side(s: Layout, labels: Seq<bool>, e: Index, side: bool, k: nat) -> nat
    decreases k,
{
    if k == 0 {
        0
    } else {
        on_side(s, labels, e, side, (k - 1) as nat) + if labels[s.pin_at(e, k - 1) as int] == side {
            1nat
        } else {
            0nat
        }
    }
}

/// Moving pin `v` to the other side frees net `e`: all but one of its pins
/// are on the other side already.
pub open spec fn frees(s: Layout, labels: Seq<bool>, v: Index, e: Index) -> bool {
    on_side(s, labels, e, !labels[v as int], s.net_size(e) as nat) == s.net_size(e) - 1
}

/// Moving pin `v` to the other side cuts net `e`: all its pins are on
/// `v`'s side.
pub open spec fn binds(s: Layout, labels: Seq<bool>, v: Index, e: Index) -> bool {
    on_side(s, labels, e, labels[v as int], s.net_size(e) as nat) == s.net_size(e)
}

/// The summed weight of those of the first `k` nets of `v` that a move of
/// `v` frees.
pub open spec fn upside(s: Layout, labels: Seq<bool>, v: Index, k: nat) -> nat
    decreases k,
{
    if k == 0 {
        0
    } else {
        upside(s, labels, v, (k - 1) as nat) + if frees(s, labels, v, s.net_at(v, k - 1)) {
            s.w[s.net_at(v, k - 1) as int] as nat
        } else {
            0nat
        }
    }
}

/// The summed weight of those of the first `k` nets of `v` that a move of
/// `v` cuts.
pub open spec fn downside(s: Layout, labels: Seq<bool>, v: Index, k: nat) -> nat
    decreases k,
{
    if k == 0 {
        0
    } else {
        downside(s, labels, v, (k - 1) as nat) + if binds(s, labels, v, s.net_at(v, k - 1)) {
            s.w[s.net_at(v, k - 1) as int] as nat
        } else {
            0nat
        }
    }
}

/// The gain of moving pin `v` to the other side: the weight of the nets
/// that the move frees less the weight of the nets that it cuts.
pub open spec fn gain_of(s: Layout, labels: Seq<bool>, v: Index) -> int {
    upside(s, labels, v, s.degree(v) as nat) - downside(s, labels, v, s.degree(v) as nat)
}

/// The summed weight of the nets that `picks` names.
pub open spec fn picked(w: Seq<u64>, picks: Seq<Index>) -> nat
    decreases picks.len(),
{
    if picks.len() == 0 {
        0
    } else {
        picked(w, picks.drop_last()) + w[picks.last() as int] as nat
    }
}

/// Taking one pick out takes its weight out of the sum.
pub proof fn lemma_picked_remove(w: Seq<u64>, picks: Seq<Index>, i: int)
    requires
        0 <= i < picks.len(),
    ensures
        picked(w, picks) == picked(w, picks.remove(i)) + w[picks[i] as int],
    decreases picks.len(),
{
    if i == picks.len() - 1 {
        assert(picks.remove(i) =~= picks.drop_last());
    } else {
        assert(picks.remove(i).drop_last() =~= picks.drop_last().remove(i));
        lemma_picked_remove(w, picks.drop_last(), i);
    }
}

/// Nets named once each, all below `m`, weigh no more together than the
/// first `m` nets.
pub proof fn lemma_picked_bound(w: Seq<u64>, picks: Seq<Index>, m: nat)
    requires
        picks.no_duplicates(),
        forall|j: int| 0 <= j < picks.len() ==> (#[trigger] picks[j]) < m,
    ensures
        picked(w, picks) <= prefix_sum(w, m),
    decreases m,
{
    if m == 0 {
        if picks.len() > 0 {
            assert(picks[0] < 0);
        }
    } else {
        let top = (m - 1) as Index;
        if exists|i: int| 0 <= i < picks.len() && picks[i] == m - 1 {
            let i = choose|i: int| 0 <= i < picks.len() && picks[i] == m - 1;
            let rest = picks.remove(i);
            assert forall|j: int| 0 <= j < rest.len() implies (#[trigger] rest[j]) < m - 1 by {
                if j < i {
                    assert(rest[j] == picks[j]);
                } else {
                    assert(rest[j] == picks[j + 1]);
                }
            }
            assert(rest.no_duplicates()) by {
                assert forall|a: int, b: int|
                    0 <= a < rest.len() && 0 <= b < rest.len() && a != b implies rest[a]
                    != rest[b] by {
                    let a2 = if a < i {
                        a
                    } else {
                        a + 1
                    };
                    let b2 = if b < i {
                        b
                    } else {
                        b + 1
                    };
                    assert(rest[a] == picks[a2] && rest[b] == picks[b2]);
                }
            }
            lemma_picked_remove(w, picks, i);
            lemma_picked_bound(w, rest, (m - 1) as nat);
        } else {
            assert forall|j: int| 0 <= j < picks.len() implies (#[trigger] picks[j]) < m - 1 by {}
            lemma_picked_bound(w, picks, (m - 1) as nat);
        }
    }
}

/// Neither side of a gain is more than the weight of the pin's first `k`
/// nets.
pub proof fn lemma_sides_bound(s: Layout, labels: Seq<bool>, v: Index, k: nat)
    requires
        s.safe(),
        s.is_pin(v),
        k <= s.degree(v),
    ensures
        upside(s, labels, v, k) <= picked(s.w, s.nets_of(v).take(k as int)),
        downside(s, labels, v, k) <= picked(s.w, s.nets_of(v).take(k as int)),
    decreases k,
{
    if k > 0 {
        lemma_sides_bound(s, labels, v, (k - 1) as nat);
        assert(s.pin_start(v) + s.degree(v) <= s.a.len());
        assert(s.nets_of(v).take(k as int).drop_last() =~= s.nets_of(v).take(k - 1));
        assert(s.nets_of(v).take(k as int).last() == s.net_at(v, k - 1));
    }
}

/// Neither side of a gain is more than the weight of all nets.
pub proof fn lemma_sides_within_total(s: Layout, labels: Seq<bool>, v: Index, k: nat)
    requires
        s.wf(),
        s.is_pin(v),
        k <= s.degree(v),
    ensures
        upside(s, labels, v, k) <= s.total_weight(),
        downside(s, labels, v, k) <= s.total_weight(),
{
    lemma_sides_bound(s, labels, v, k);
    let picks = s.nets_of(v).take(k as int);
    assert(s.pin_start(v) + s.degree(v) <= s.a.len());
    assert(s.nets_of(v).no_duplicates());
    assert forall|j: int| 0 <= j < picks.len() implies (#[trigger] picks[j]) < s.e.len() by {
        assert(s.is_net(s.net_at(v, j)));
    }
    lemma_picked_bound(s.w, picks, s.e.len());
}

/// `labels` with pin `v` on the other side.
pub open spec fn moved(labels: Seq<bool>, v: Index) -> Seq<bool> {
    labels.update(v as int, !labels[v as int])
}

/// The weight of net `e` where `flag` holds, and nothing otherwise.
pub open spec fn weight_if(s: Layout, e: Index, flag: bool) -> int {
    if flag {
        s.w[e as int] as int
    } else {
        0
    }
}

/// What the counts say of a net: no pin among the first `k` is on a side
/// that counts nothing, and every one is on a side that counts `k`.
pub proof fn lemma_on_side(s: Layout, labels: Seq<bool>, e: Index, side: bool, k: nat)
    ensures
        on_side(s, labels, e, side, k) <= k,
        on_side(s, labels, e, side, k) + on_side(s, labels, e, !side, k) == k,
        on_side(s, labels, e, side, k) == 0 <==> forall|j: int|
            0 <= j < k ==> labels[#[trigger] s.pin_at(e, j) as int] != side,
    decreases k,
{
    if k > 0 {
        lemma_on_side(s, labels, e, side, (k - 1) as nat);
        if on_side(s, labels, e, side, k) == 0 {
            assert forall|j: int| 0 <= j < k implies labels[#[trigger] s.pin_at(e, j) as int]
                != side by {
                if j < k - 1 {
                    assert(on_side(s, labels, e, side, (k - 1) as nat) == 0);
                }
            }
        }
    }
}

/// A net is cut exactly when it has a pin on either side.
pub proof fn lemma_cut_by_counts(s: Layout, labels: Seq<bool>, e: Index)
    requires
        s.safe(),
        s.is_net(e),
    ensures
        s.is_cut(labels, e) <==> (on_side(s, labels, e, true, s.net_size(e) as nat) > 0 && on_side(
            s,
            labels,
            e,
            false,
            s.net_size(e) as nat,
        ) > 0),
{
    let n = s.net_size(e) as nat;
    let pins = s.pins_of(e);
    assert(s.net_start(e) + s.net_size(e) <= s.a.len());
    lemma_on_side(s, labels, e, true, n);
    lemma_on_side(s, labels, e, false, n);
    if s.is_cut(labels, e) {
        let (x, y) = choose|x: Index, y: Index|
            #![trigger pins.contains(x), pins.contains(y)]
            pins.contains(x) && pins.contains(y) && labels[x as int] != labels[y as int];
        let i = choose|i: int| 0 <= i < pins.len() && pins[i] == x;
        let j = choose|j: int| 0 <= j < pins.len() && pins[j] == y;
        assert(s.pin_at(e, i) == x && s.pin_at(e, j) == y);
    }
    if on_side(s, labels, e, true, n) > 0 && on_side(s, labels, e, false, n) > 0 {
        let i = choose|i: int| 0 <= i < n && labels[#[trigger] s.pin_at(e, i) as int] == true;
        let j = choose|j: int| 0 <= j < n && labels[#[trigger] s.pin_at(e, j) as int] == false;
        assert(pins[i] == s.pin_at(e, i) && pins[j] == s.pin_at(e, j));
        assert(pins.contains(s.pin_at(e, i)) && pins.contains(s.pin_at(e, j)));
    }
}

/// The counts of a net after pin `v` changes sides: a net that holds `v`
/// once has one pin fewer on `v`'s old side; a net without `v` counts as
/// before.
pub proof fn lemma_on_side_moved(
    s: Layout,
    labels: Seq<bool>,
    v: Index,
    e: Index,
    side: bool,
    k: nat,
)
    requires
        s.safe(),
        s.is_net(e),
        s.is_pin(v),
        labels.len() == s.v.len(),
        k <= s.net_size(e),
        s.pins_of(e).no_duplicates(),
    ensures
        on_side(s, moved(labels, v), e, side, k) == on_side(s, labels, e, side, k) + if s.pins_of(
            e,
        ).take(k as int).contains(v) {
            if labels[v as int] == side {
                -1int
            } else {
                1int
            }
        } else {
            0int
        },
    decreases k,
{
    let pins = s.pins_of(e);
    assert(s.net_start(e) + s.net_size(e) <= s.a.len());
    if k > 0 {
        lemma_on_side_moved(s, labels, v, e, side, (k - 1) as nat);
        let p = s.pin_at(e, k - 1);
        assert(pins[k - 1] == p);
        assert(s.is_pin(p));
        let shorter = pins.take(k - 1);
        let longer = pins.take(k as int);
        assert(longer[k - 1] == p);
        if p == v {
            assert(longer.contains(v));
            assert(!shorter.contains(v)) by {
                if shorter.contains(v) {
                    let j = choose|j: int| 0 <= j < shorter.len() && shorter[j] == v;
                    assert(pins[j] == pins[k - 1]);
                }
            }
        } else {
            if longer.contains(v) {
                let j = choose|j: int| 0 <= j < longer.len() && longer[j] == v;
                assert(shorter[j] == v);
            }
            if shorter.contains(v) {
                let j = choose|j: int| 0 <= j < shorter.len() && shorter[j] == v;
                assert(longer[j] == v);
            }
        }
    } else {
        assert(!pins.take(0).contains(v));
    }
}

/// What a move of pin `v` does to one net: the net's part in the cut falls
/// by its weight where the move frees it, rises by it where the move cuts
/// it, and stays where the net does not hold `v`.
pub proof fn lemma_net_delta(s: Layout, labels: Seq<bool>, v: Index, e: Index)
    requires
        s.wf(),
        s.is_net(e),
        s.is_pin(v),
        labels.len() == s.v.len(),
    ensures
        weight_if(s, e, s.is_cut(labels, e)) - weight_if(s, e, s.is_cut(moved(labels, v), e))
            == if s.pins_of(e).contains(v) {
            weight_if(s, e, frees(s, labels, v, e)) - weight_if(s, e, binds(s, labels, v, e))
        } else {
            0
        },
{
    let n = s.net_size(e) as nat;
    let pins = s.pins_of(e);
    assert(pins.no_duplicates());
    assert(pins.take(n as int) =~= pins);
    lemma_cut_by_counts(s, labels, e);
    lemma_cut_by_counts(s, moved(labels, v), e);
    lemma_on_side_moved(s, labels, v, e, true, n);
    lemma_on_side_moved(s, labels, v, e, false, n);
    lemma_on_side(s, labels, e, true, n);
    lemma_on_side(s, labels, e, false, n);
}

/// The summed `g` of those nets below `m` that `picks` names.
pub open spec fn sum_where(picks: Seq<Index>, g: spec_fn(Index) -> int, m: nat) -> int
    decreases m,
{
    if m == 0 {
        0
    } else {
        sum_where(picks, g, (m - 1) as nat) + if picks.contains((m - 1) as Index) {
            g((m - 1) as Index)
        } else {
            0
        }
    }
}

/// The summed `g` of the nets that `picks` names, one after the other.
pub open spec fn sum_over(picks: Seq<Index>, g: spec_fn(Index) -> int) -> int
    decreases picks.len(),
{
    if picks.len() == 0 {
        0
    } else {
        sum_over(picks.drop_last(), g) + g(picks.last())
    }
}

/// Taking one pick out takes its `g` out of the sum.
pub proof fn lemma_sum_over_remove(picks: Seq<Index>, g: spec_fn(Index) -> int, i: int)
    requires
        0 <= i < picks.len(),
    ensures
        sum_over(picks, g) == sum_over(picks.remove(i), g) + g(picks[i]),
    decreases picks.len(),
{
    if i == picks.len() - 1 {
        assert(picks.remove(i) =~= picks.drop_last());
    } else {
        assert(picks.remove(i).drop_last() =~= picks.drop_last().remove(i));
        lemma_sum_over_remove(picks.drop_last(), g, i);
    }
}

/// Summing over nets named once each is summing over all nets those that
/// are named.
pub proof fn lemma_sum_where(picks: Seq<Index>, g: spec_fn(Index) -> int, m: nat)
    requires
        picks.no_duplicates(),
        forall|j: int| 0 <= j < picks.len() ==> (#[trigger] picks[j]) < m,
        m <= u32::MAX,
    ensures
        sum_where(picks, g, m) == sum_over(picks, g),
    decreases m,
{
    if m == 0 {
        if picks.len() > 0 {
            assert(picks[0] < 0);
        }
    } else {
        let top = (m - 1) as Index;
        if picks.contains(top) {
            let i = choose|i: int| 0 <= i < picks.len() && picks[i] == top;
            let rest = picks.remove(i);
            assert forall|j: int| 0 <= j < rest.len() implies (#[trigger] rest[j]) < m - 1 by {
                if j < i {
                    assert(rest[j] == picks[j]);
                } else {
                    assert(rest[j] == picks[j + 1]);
                }
            }
            assert(rest.no_duplicates()) by {
                assert forall|a: int, b: int|
                    0 <= a < rest.len() && 0 <= b < rest.len() && a != b implies rest[a]
                    != rest[b] by {
                    let a2 = if a < i {
                        a
                    } else {
                        a + 1
                    };
                    let b2 = if b < i {
                        b
                    } else {
                        b + 1
                    };
                    assert(rest[a] == picks[a2] && rest[b] == picks[b2]);
                }
            }
            assert forall|e: Index| e < m - 1 implies (picks.contains(e) <==> rest.contains(e)) by {
                if picks.contains(e) {
                    let j = choose|j: int| 0 <= j < picks.len() && picks[j] == e;
                    if j < i {
                        assert(rest[j] == e);
                    } else {
                        assert(rest[j - 1] == e);
                    }
                }
                if rest.contains(e) {
                    let j = choose|j: int| 0 <= j < rest.len() && rest[j] == e;
                    if j < i {
                        assert(picks[j] == e);
                    } else {
                        assert(picks[j + 1] == e);
                    }
                }
            }
            lemma_sum_over_remove(picks, g, i);
            lemma_sum_where(rest, g, (m - 1) as nat);
            lemma_sum_where_same(picks, rest, g, (m - 1) as nat);
        } else {
            assert forall|j: int| 0 <= j < picks.len() implies (#[trigger] picks[j]) < m - 1 by {
                assert(picks.contains(picks[j]));
            }
            lemma_sum_where(picks, g, (m - 1) as nat);
        }
    }
}

/// Two lists that name the same nets below `m` sum alike over them.
pub proof fn lemma_sum_where_same(
    picks: Seq<Index>,
    rest: Seq<Index>,
    g: spec_fn(Index) -> int,
    m: nat,
)
    requires
        forall|e: Index| e < m ==> (picks.contains(e) <==> rest.contains(e)),
        m <= u32::MAX,
    ensures
        sum_where(picks, g, m) == sum_where(rest, g, m),
    decreases m,
{
    if m > 0 {
        lemma_sum_where_same(picks, rest, g, (m - 1) as nat);
    }
}

/// The gain of a net under a move of `v`, as a function of the net.
pub open spec fn net_gain(s: Layout, labels: Seq<bool>, v: Index) -> spec_fn(Index) -> int {
    |e: Index| weight_if(s, e, frees(s, labels, v, e)) - weight_if(s, e, binds(s, labels, v, e))
}

/// The gain is the sum of its nets' gains.
pub proof fn lemma_gain_as_sum(s: Layout, labels: Seq<bool>, v: Index, k: nat)
    requires
        s.safe(),
        s.is_pin(v),
        k <= s.degree(v),
    ensures
        upside(s, labels, v, k) - downside(s, labels, v, k) == sum_over(
            s.nets_of(v).take(k as int),
            net_gain(s, labels, v),
        ),
    decreases k,
{
    if k > 0 {
        lemma_gain_as_sum(s, labels, v, (k - 1) as nat);
        assert(s.pin_start(v) + s.degree(v) <= s.a.len());
        assert(s.nets_of(v).take(k as int).drop_last() =~= s.nets_of(v).take(k - 1));
        assert(s.nets_of(v).take(k as int).last() == s.net_at(v, k - 1));
    }
}

/// The fall of the cut over the first `m` nets under a move of `v`.
pub proof fn lemma_cut_delta(s: Layout, labels: Seq<bool>, v: Index, m: nat)
    requires
        s.wf(),
        s.is_pin(v),
        s.enabled[v as int],
        labels.len() == s.v.len(),
        m <= s.e.len(),
    ensures
        s.cut_sum(labels, m) - s.cut_sum(moved(labels, v), m) == sum_where(
            s.nets_of(v),
            net_gain(s, labels, v),
            m,
        ),
    decreases m,
{
    if m > 0 {
        lemma_cut_delta(s, labels, v, (m - 1) as nat);
        let e = (m - 1) as Index;
        assert(s.is_net(e));
        lemma_net_delta(s, labels, v, e);
        assert(s.nets_of(v).contains(e) <==> s.pins_of(e).contains(v));
    }
}

/// The gain of a move is the fall of the cut: moving the enabled pin `v`
/// to the other side makes the cut lighter by exactly `v`'s gain.
pub proof fn lemma_gain_is_cut_fall(s: Layout, labels: Seq<bool>, v: Index)
    requires
        s.wf(),
        s.is_pin(v),
        s.enabled[v as int],
        labels.len() == s.v.len(),
    ensures
        s.cut_weight(labels) - s.cut_weight(moved(labels, v)) == gain_of(s, labels, v),
{
    let picks = s.nets_of(v);
    lemma_cut_delta(s, labels, v, s.e.len());
    assert(s.pin_start(v) + s.degree(v) <= s.a.len());
    assert(picks.no_duplicates());
    assert forall|j: int| 0 <= j < picks.len() implies (#[trigger] picks[j]) < s.e.len() by {
        assert(s.is_net(s.net_at(v, j)));
    }
    lemma_sum_where(picks, net_gain(s, labels, v), s.e.len());
    lemma_gain_as_sum(s, labels, v, s.degree(v) as nat);
    assert(picks.take(s.degree(v)) =~= picks);
}

/// How many pins of net `e` are on `side`.
pub fn count_on_side(h: &Bipartite, partition: &Bipartition, e: Index, side: bool) -> (count: usize)
    requires
        h@.safe(),
        h@.is_net(e),
        partition@.len() == h@.v.len(),
    ensures
        count == on_side(h@, partition@, e, side, h@.net_size(e) as nat),
        count <= h@.net_size(e),
{
    let n = h.net_size(e);
    let mut count: usize = 0;
    let mut k: usize = 0;
    while k < n
        invariant
            h@.safe(),
            h@.is_net(e),
            partition@.len() == h@.v.len(),
            n == h@.net_size(e),
            k <= n,
            count == on_side(h@, partition@, e, side, k as nat),
            count <= k,
        decreases n - k,
    {
        let p = h.pin_in_net(e, k);
        if partition[p as usize] == side {
            count += 1;
        }
        k += 1;
    }
    count
}

/// The gain of moving pin `v` to the other side.
pub fn gain(h: &Bipartite, v: Index, partition: &Bipartition) -> (g: i128)
    requires
        h@.wf(),
        h@.is_pin(v),
        partition@.len() == h@.v.len(),
    ensures
        g == gain_of(h@, partition@, v),
        -0xffff_ffff_ffff_ffff <= g <= 0xffff_ffff_ffff_ffff,
{
    let b_v = partition[v as usize];
    let d = h.degree(v);
    let mut up: u64 = 0;
    let mut down: u64 = 0;
    let mut k: usize = 0;
    while k < d
        invariant
            h@.wf(),
            h@.is_pin(v),
            partition@.len() == h@.v.len(),
            b_v == partition@[v as int],
            d == h@.degree(v),
            k <= d,
            up == upside(h@, partition@, v, k as nat),
            down == downside(h@, partition@, v, k as nat),
        decreases d - k,
    {
        proof {
            lemma_sides_within_total(h@, partition@, v, (k + 1) as nat);
        }
        let e = h.incident_net(v, k);
        let size = h.net_size(e);
        let w = h.weight(e);
        if size >= 1 && count_on_side(h, partition, e, !b_v) == size - 1 {
            up = up + w;
        }
        if count_on_side(h, partition, e, b_v) == size {
            down = down + w;
        }
        k += 1;
    }
    up as i128 - down as i128
}

/// Pin `v` is at the border: a pin that shares a net with it is on the
/// other side.
pub open spec fn at_border(s: Layout, labels: Seq<bool>, v: Index) -> bool {
    exists|i: int|
        0 <= i < s.neighbors(v).len() && labels[#[trigger] s.neighbors(v)[i] as int]
            != labels[v as int]
}

/// Whether pin `v` is at the border.
pub fn on_border(h: &Bipartite, v: Index, partition: &Bipartition) -> (border: bool)
    requires
        h@.safe(),
        h@.is_pin(v),
        partition@.len() == h@.v.len(),
    ensures
        border == at_border(h@, partition@, v),
{
    let nb = h.incident_pins(v);
    let side = partition[v as usize];
    let mut i: usize = 0;
    while i < nb.len()
        invariant
            i <= nb.len(),
            nb@ == h@.neighbors(v),
            partition@.len() == h@.v.len(),
            h@.is_pin(v),
            side == partition@[v as int],
            forall|j: int| 0 <= j < nb.len() ==> h@.is_pin(#[trigger] nb[j]),
            forall|j: int| 0 <= j < i ==> partition@[#[trigger] nb@[j] as int] == side,
        decreases nb.len() - i,
    {
        if partition[nb[i] as usize] != side {
            return true;
        }
        i += 1;
    }
    false
}

/// The entry's key differs from the gain on record for its pin.
pub open spec fn stale(gains: Seq<i128>) -> spec_fn(Entry) -> bool {
    |e: Entry| e.key != gains[e.first as int]
}

/// Every entry names a pin of the index space.
pub open spec fn firsts_ok(q: Multiset<Entry>, n: nat) -> bool {
    forall|x: Entry| #[trigger] q.contains(x) ==> x.first < n
}

/// Every gain on record is within the weight that nets can have together.
pub open spec fn gains_ok(gains: Seq<i128>) -> bool {
    forall|p: int|
        0 <= p < gains.len() ==> -0xffff_ffff_ffff_ffff <= #[trigger] gains[p]
            <= 0xffff_ffff_ffff_ffff
}

/// The gains on record after those of the first `k` of the pins `nb` are
/// brought up to date for `labels`.
pub open spec fn refreshed(
    gains: Seq<i128>,
    s: Layout,
    labels: Seq<bool>,
    nb: Seq<Index>,
    k: nat,
) -> Seq<i128>
    decreases k,
{
    if k == 0 {
        gains
    } else {
        refreshed(gains, s, labels, nb, (k - 1) as nat).update(
            nb[k - 1] as int,
            gain_of(s, labels, nb[k - 1]) as i128,
        )
    }
}

/// The state of a pass of the local search.
pub struct Pass {
    pub labels: Seq<bool>,
    pub queue: Multiset<Entry>,
    pub gains: Seq<i128>,
    /// The pins moved so far, in order.
    pub steps: Seq<Index>,
    /// The number of moves after which the summed gain was highest.
    pub best_step: nat,
    pub best_gain: int,
    pub current_gain: int,
    /// The number of moves in a row that gained nothing.
    pub stall: nat,
}

/// The state in which a pass ends. The entry that comes out of the queue
/// next is taken; where its gain is not the one on record for its pin, an
/// entry with the gain on record takes its place. Otherwise, unless it
/// would be the `MAX_STALL`-th move in a row to gain nothing, which ends the
/// pass, its pin is moved to the other side and the gains on record of the
/// pin's neighbours are brought up to date. The pass ends with the queue.
pub open spec fn pass_end(s: Layout, p: Pass) -> Pass
    decreases p.queue.len(), p.queue.filter(stale(p.gains)).len(),
{
    let e = top(p.queue);
    if p.queue.len() == 0 || !p.queue.contains(e) {
        p
    } else if e.key != p.gains[e.first as int] {
        let fresh = Entry { key: p.gains[e.first as int], first: e.first, second: 0 };
        proof {
            lemma_filter_remove(p.queue, e, stale(p.gains));
            lemma_filter_insert(p.queue.remove(e), fresh, stale(p.gains));
        }
        pass_end(
            s,
            Pass {
                labels: p.labels,
                queue: p.queue.remove(e).insert(fresh),
                gains: p.gains,
                steps: p.steps,
                best_step: p.best_step,
                best_gain: p.best_gain,
                current_gain: p.current_gain,
                stall: p.stall,
            },
        )
    } else {
        let stall = if e.key <= 0 {
            p.stall + 1
        } else {
            0
        };
        proof {
            lemma_filter_remove(p.queue, e, stale(p.gains));
        }
        if stall >= 20 {
            Pass {
                labels: p.labels,
                queue: p.queue.remove(e),
                gains: p.gains,
                steps: p.steps,
                best_step: p.best_step,
                best_gain: p.best_gain,
                current_gain: p.current_gain,
                stall,
            }
        } else {
            let labels = moved(p.labels, e.first);
            let steps = p.steps.push(e.first);
            let current = p.current_gain + e.key;
            pass_end(
                s,
                Pass {
                    labels,
                    queue: p.queue.remove(e),
                    gains: refreshed(
                        p.gains,
                        s,
                        labels,
                        s.neighbors(e.first),
                        s.neighbors(e.first).len(),
                    ),
                    steps,
                    best_step: if current >= p.best_gain {
                        steps.len()
                    } else {
                        p.best_step
                    },
                    best_gain: if current >= p.best_gain {
                        current
                    } else {
                        p.best_gain
                    },
                    current_gain: current,
                    stall,
                },
            )
        }
    }
}

/// `labels` with the moves `steps[keep..upto]` taken back, latest first.
pub open spec fn taken_back(labels: Seq<bool>, steps: Seq<Index>, upto: nat, keep: nat) -> Seq<bool>
    decreases upto,
{
    if upto <= keep {
        labels
    } else {
        taken_back(moved(labels, steps[upto - 1]), steps, (upto - 1) as nat, keep)
    }
}

/// The start of a pass on `labels`, with the queue and the gains on record
/// as given.
pub open spec fn pass_start(labels: Seq<bool>, queue: Multiset<Entry>, gains: Seq<i128>) -> Pass {
    Pass {
        labels,
        queue,
        gains,
        steps: Seq::empty(),
        best_step: 0,
        best_gain: 0,
        current_gain: 0,
        stall: 0,
    }
}

/// The labels that a pass leaves: those at its end, with the moves taken
/// back that came after the summed gain was highest, so that of equally
/// good runs of moves the longest is kept.
pub open spec fn refined(s: Layout, labels: Seq<bool>, queue: Multiset<Entry>, gains: Seq<i128>) -> Seq<
    bool,
> {
    let end = pass_end(s, pass_start(labels, queue, gains));
    taken_back(end.labels, end.steps, end.steps.len(), end.best_step)
}

/// One pass of the local search. The entry with the highest gain is taken
/// from the queue; where its gain is not the one on record for its pin, an
/// entry with the gain on record takes its place. Otherwise the pin is
/// moved to the other side, and the gains on record of its neighbours are
/// brought up to date. The pass ends with the queue, or before the move
/// that would be the `MAX_STALL`-th in a row to gain nothing. Then the moves
/// behind the longest run of moves with the highest summed gain are taken
/// back.
pub fn refine(
    h: &Bipartite,
    partition: &mut Bipartition,
    gain_pq: &mut Queue,
    gain_vec: &mut Vec<i128>,
)
    requires
        h@.wf(),
        old(partition)@.len() == h@.v.len(),
        old(gain_vec)@.len() == h@.v.len(),
        gains_ok(old(gain_vec)@),
        firsts_ok(old(gain_pq)@, h@.v.len()),
        old(gain_pq)@.len() <= 0x2_0000_0000,
    ensures
        final(partition)@ == refined(h@, old(partition)@, old(gain_pq)@, old(gain_vec)@),
        final(gain_pq)@ == pass_end(
            h@,
            pass_start(old(partition)@, old(gain_pq)@, old(gain_vec)@),
        ).queue,
        final(gain_vec)@ == pass_end(
            h@,
            pass_start(old(partition)@, old(gain_pq)@, old(gain_vec)@),
        ).gains,
        final(partition)@.len() == old(partition)@.len(),
        final(gain_vec)@.len() == old(gain_vec)@.len(),
        gains_ok(final(gain_vec)@),
        firsts_ok(final(gain_pq)@, h@.v.len()),
        final(gain_pq)@.len() <= old(gain_pq)@.len(),
{
    let ghost n = h@.v.len();
    let ghost start = gain_pq@.len();
    let ghost end = pass_end(h@, pass_start(partition@, gain_pq@, gain_vec@));
    let mut steps: Vec<Index> = Vec::new();
    let mut best_step: usize = 0;
    let mut best_gain: i128 = 0;
    let mut current_gain: i128 = 0;
    let mut non_increase_count: usize = 0;
    loop
        invariant_except_break
            non_increase_count < MAX_STALL,
            pass_end(
                h@,
                Pass {
                    labels: partition@,
                    queue: gain_pq@,
                    gains: gain_vec@,
                    steps: steps@,
                    best_step: best_step as nat,
                    best_gain: best_gain as int,
                    current_gain: current_gain as int,
                    stall: non_increase_count as nat,
                },
            ) == end,
        invariant
            h@.wf(),
            n == h@.v.len(),
            partition@.len() == n,
            gain_vec@.len() == n,
            gains_ok(gain_vec@),
            firsts_ok(gain_pq@, n),
            start <= 0x2_0000_0000,
            steps@.len() + gain_pq@.len() <= start,
            best_step <= steps@.len(),
            forall|i: int| 0 <= i < steps@.len() ==> (#[trigger] steps@[i]) < n,
            -0xffff_ffff_ffff_ffff * steps@.len() <= current_gain <= 0xffff_ffff_ffff_ffff
                * steps@.len(),
        ensures
            (Pass {
                labels: partition@,
                queue: gain_pq@,
                gains: gain_vec@,
                steps: steps@,
                best_step: best_step as nat,
                best_gain: best_gain as int,
                current_gain: current_gain as int,
                stall: non_increase_count as nat,
            }) == end,
        decreases gain_pq@.len(), gain_pq@.filter(stale(gain_vec@)).len(),
    {
        let ghost queued = gain_pq@;
        let entry = match gain_pq.pop() {
            Some(e) => e,
            None => {
                break ;
            },
        };
        let g = entry.key;
        let v = entry.first;
        proof {
            lemma_top(queued, entry);
            lemma_filter_remove(queued, entry, stale(gain_vec@));
            assert forall|x: Entry| #[trigger] gain_pq@.contains(x) implies x.first < n by {
                broadcast use vstd::multiset::group_multiset_properties;

                assert(queued.contains(x));
            }
        }
        if g != gain_vec[v as usize] {
            let fresh = Entry { key: gain_vec[v as usize], first: v, second: 0 };
            let ghost shorter = gain_pq@;
            gain_pq.push(fresh);
            proof {
                lemma_filter_insert(shorter, fresh, stale(gain_vec@));
                assert forall|x: Entry| #[trigger] gain_pq@.contains(x) implies x.first < n by {
                    broadcast use vstd::multiset::group_multiset_properties;

                    if x != fresh {
                        assert(shorter.contains(x));
                    }
                }
            }
        } else {
            if g <= 0 {
                non_increase_count += 1;
            } else {
                non_increase_count = 0;
            }
            if non_increase_count >= MAX_STALL {
                break ;
            }
            proof {
                let k = steps@.len() as int;
                assert(0xffff_ffff_ffff_ffff * (k + 1) == 0xffff_ffff_ffff_ffff * k
                    + 0xffff_ffff_ffff_ffff) by (nonlinear_arith);
                assert(-0xffff_ffff_ffff_ffff * (k + 1) == -0xffff_ffff_ffff_ffff * k
                    - 0xffff_ffff_ffff_ffff) by (nonlinear_arith);
                assert(0xffff_ffff_ffff_ffff * (k + 1) <= 0xffff_ffff_ffff_ffff * 0x2_0000_0000)
                    by (nonlinear_arith)
                    requires
                        k + 1 <= 0x2_0000_0000,
                ;
            }
            current_gain = current_gain + g;
            let side = partition[v as usize];
            partition.set(v as usize, !side);
            steps.push(v);
            if current_gain >= best_gain {
                best_step = steps.len();
                best_gain = current_gain;
            }
            let nb = h.incident_pins(v);
            let ghost recorded = gain_vec@;
            let mut i: usize = 0;
            while i < nb.len()
                invariant
                    h@.wf(),
                    n == h@.v.len(),
                    partition@.len() == n,
                    gain_vec@.len() == n,
                    gains_ok(gain_vec@),
                    i <= nb.len(),
                    gain_vec@ == refreshed(recorded, h@, partition@, nb@, i as nat),
                    forall|j: int| 0 <= j < nb.len() ==> h@.is_pin(#[trigger] nb[j]),
                decreases nb.len() - i,
            {
                let p = nb[i];
                let fresh_gain = gain(h, p, partition);
                gain_vec.set(p as usize, fresh_gain);
                i += 1;
            }
        }
    }
    let ghost last = partition@;
    let mut idx: usize = steps.len();
    while idx > best_step
        invariant
            best_step <= idx <= steps@.len(),
            partition@.len() == n,
            forall|i: int| 0 <= i < steps@.len() ==> (#[trigger] steps@[i]) < n,
            taken_back(partition@, steps@, idx as nat, best_step as nat) == taken_back(
                last,
                steps@,
                steps@.len(),
                best_step as nat,
            ),
        decreases idx,
    {
        idx -= 1;
        let step = steps[idx];
        let side = partition[step as usize];
        partition.set(step as usize, !side);
    }
}

/// A vector of `n` zero gains.
fn no_gains(n: usize) -> (gains: Vec<i128>)
    ensures
        gains@ == Seq::new(n as nat, |i: int| 0i128),
        gains_ok(gains@),
{
    let mut gains: Vec<i128> = Vec::new();
    let mut i: usize = 0;
    while i < n
        invariant
            i <= n,
            gains@ == Seq::new(i as nat, |j: int| 0i128),
        decreases n - i,
    {
        gains.push(0);
        i += 1;
        assert(gains@ =~= Seq::new(i as nat, |j: int| 0i128));
    }
    gains
}

/// What the refiner carries from level to level: the bipartition, the
/// queue of pins to move, and the gains on record.
pub struct Refinement {
    pub labels: Seq<bool>,
    pub queue: Multiset<Entry>,
    pub gains: Seq<i128>,
}

/// The refinement after pin `v` was considered for the queue: where it is
/// at the border, it is queued with its gain, and the gain is put on
/// record.
pub open spec fn considered(s: Layout, r: Refinement, v: Index) -> Refinement {
    if at_border(s, r.labels, v) {
        Refinement {
            labels: r.labels,
            queue: r.queue.insert(
                Entry { key: gain_of(s, r.labels, v) as i128, first: v, second: 0 },
            ),
            gains: r.gains.update(v as int, gain_of(s, r.labels, v) as i128),
        }
    } else {
        r
    }
}

/// The refinement after one level, on the structure `s` in which the
/// contraction that `m` records has just been undone: the pin set free
/// takes the side of the pin that had absorbed it, the two are considered
/// for the queue, and where one of them is at the border a pass follows.
pub open spec fn level(s: Layout, m: Memento, r: Refinement) -> Refinement {
    let handed = Refinement {
        labels: r.labels.update(m.v as int, r.labels[m.u as int]),
        queue: r.queue,
        gains: r.gains,
    };
    let queued = considered(s, considered(s, handed, m.u), m.v);
    if at_border(s, handed.labels, m.u) || at_border(s, handed.labels, m.v) {
        let end = pass_end(s, pass_start(queued.labels, queued.queue, queued.gains));
        Refinement {
            labels: taken_back(end.labels, end.steps, end.steps.len(), end.best_step),
            queue: end.queue,
            gains: end.gains,
        }
    } else {
        queued
    }
}

/// The refinement after the contractions that `ms` records are undone in
/// `s`, latest first, with one level of refinement after each.
pub open spec fn uncoarsened(s: Layout, ms: Seq<Memento>, r: Refinement) -> Refinement
    decreases ms.len(),
{
    if ms.len() == 0 {
        r
    } else {
        uncoarsened(
            s.uncontracted(ms.last()),
            ms.drop_last(),
            level(s.uncontracted(ms.last()), ms.last(), r),
        )
    }
}

/// Puts pin `v` in the queue with its gain, and records the gain, where
/// `v` is at the border. Says whether it is.
fn enqueue_border(
    h: &Bipartite,
    v: Index,
    partition: &Bipartition,
    gain_pq: &mut Queue,
    gain_vec: &mut Vec<i128>,
) -> (border: bool)
    requires
        h@.wf(),
        h@.is_pin(v),
        partition@.len() == h@.v.len(),
        old(gain_vec)@.len() == h@.v.len(),
        gains_ok(old(gain_vec)@),
        firsts_ok(old(gain_pq)@, h@.v.len()),
    ensures
        border == at_border(h@, partition@, v),
        (Refinement { labels: partition@, queue: final(gain_pq)@, gains: final(gain_vec)@ })
            == considered(
            h@,
            Refinement { labels: partition@, queue: old(gain_pq)@, gains: old(gain_vec)@ },
            v,
        ),
        final(gain_vec)@.len() == old(gain_vec)@.len(),
        gains_ok(final(gain_vec)@),
        firsts_ok(final(gain_pq)@, h@.v.len()),
        final(gain_pq)@.len() <= old(gain_pq)@.len() + 1,
{
    let border = on_border(h, v, partition);
    if border {
        let g = gain(h, v, partition);
        let entry = Entry { key: g, first: v, second: 0 };
        let ghost before = gain_pq@;
        gain_pq.push(entry);
        gain_vec.set(v as usize, g);
        proof {
            broadcast use vstd::multiset::group_multiset_properties;

            assert forall|x: Entry| #[trigger] gain_pq@.contains(x) implies x.first < h@.v.len() by {
                if x != entry {
                    assert(before.contains(x));
                }
            }
        }
    }
    border
}

/// Undoes the contractions that `mementos` records, latest first. After
/// each, the pin that is set free takes the side of the pin that had
/// absorbed it, and where one of the two is at the border a pass of the
/// local search follows. The size constraint is taken for the caller's
/// sake; the search does not consult it.
#[allow(unused_variables)]
pub fn uncoarsen(
    h: &mut Bipartite,
    size_constraint: u128,
    mementos: Vec<Memento>,
    partition: &mut Bipartition,
)
    requires
        old(h)@.replayable(mementos@),
        old(partition)@.len() == old(h)@.v.len(),
    ensures
        final(h)@ == old(h)@.replayed(mementos@),
        final(h)@.wf(),
        final(h)@.num_pins() == old(h)@.num_pins() + mementos@.len(),
        final(partition)@ == uncoarsened(
            old(h)@,
            mementos@,
            Refinement {
                labels: old(partition)@,
                queue: Multiset::empty(),
                gains: Seq::new(old(h)@.v.len(), |i: int| 0i128),
            },
        ).labels,
        final(partition)@.len() == old(partition)@.len(),
{
    let ghost pre = h@;
    let ghost ms = mementos@;
    let n = h.pin_index_space_size();
    let mut gain_pq = Queue::new();
    let mut gain_vec = no_gains(n);
    let ghost target = uncoarsened(
        pre,
        ms,
        Refinement { labels: partition@, queue: gain_pq@, gains: gain_vec@ },
    );
    let mut i: usize = mementos.len();
    proof {
        lemma_replayed(pre, ms);
        assert(ms.take(i as int) =~= ms);
        lemma_first_undoable(pre, ms);
        lemma_count_false_bound(pre.enabled);
    }
    while i > 0
        invariant
            ms == mementos@,
            i <= ms.len(),
            ms.len() <= 0xffff_ffff,
            h@.replayable(ms.take(i as int)),
            h@.replayed(ms.take(i as int)) == pre.replayed(ms),
            uncoarsened(
                h@,
                ms.take(i as int),
                Refinement { labels: partition@, queue: gain_pq@, gains: gain_vec@ },
            ) == target,
            h@.wf(),
            h@.v.len() == n,
            h@.num_pins() == pre.num_pins() + (ms.len() - i),
            partition@.len() == n,
            gain_vec@.len() == n,
            gains_ok(gain_vec@),
            firsts_ok(gain_pq@, n as nat),
            gain_pq@.len() <= 2 * (ms.len() - i),
        decreases i,
    {
        let ghost before = h@;
        let ghost left = ms.take(i as int);
        let ghost carried = Refinement { labels: partition@, queue: gain_pq@, gains: gain_vec@ };
        let memento = mementos[i - 1];
        assert(left.last() == memento);
        assert(left.drop_last() =~= ms.take(i - 1));
        i -= 1;
        let u = memento.u;
        let v = memento.v;
        h.uncontract(memento);
        proof {
            lemma_first_undoable(h@, ms.take(i as int));
            crate::layout::lemma_undoable_facts(before, memento);
        }
        let side = partition[u as usize];
        partition.set(v as usize, side);
        let border_u = enqueue_border(h, u, partition, &mut gain_pq, &mut gain_vec);
        let border_v = enqueue_border(h, v, partition, &mut gain_pq, &mut gain_vec);
        if border_u || border_v {
            refine(h, partition, &mut gain_pq, &mut gain_vec);
        }
        assert((Refinement { labels: partition@, queue: gain_pq@, gains: gain_vec@ }) == level(
            h@,
            memento,
            carried,
        ));
    }
}

/// What can be replayed starts from a hypergraph.
pub proof fn lemma_first_undoable(s: Layout, ms: Seq<Memento>)
    requires
        s.replayable(ms),
    ensures
        s.wf(),
{
}

} // verus!
