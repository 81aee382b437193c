//! Coarsening: pins are contracted pairwise, heaviest rated pair first,
//! until fewer than the target number are left.

use vstd::prelude::*;
use crate::bipartite::Bipartite;
use crate::bits::{bits_get, bits_of, bits_repeat, bits_set};
use crate::layout::{
    count_set, lemma_count_false_bound, lemma_count_false_update, prefix_sum, Index, Layout,
    Memento,
};
use crate::balance::lemma_prefix_sum_monotone;
use crate::queue::{lemma_queue_len, top, Entry, Queue};
use crate::reversal::{
    lemma_agrees_self, lemma_agrees_trans, lemma_contract_replayable,
    lemma_contraction_unique, lemma_replayed,
};
use vstd::multiset::Multiset;

verus! {

/// Coarsening stops below this number of enabled pins.
pub const TARGET_PINS: usize = 320;

/// Only a pin whose capacity is at most 13/4 of the mean capacity per pin at
/// the target size seeds a contraction: the numerator of that factor.
pub const SEED_CAP_NUM: u128 = 13;

/// The denominator of the factor.
pub const SEED_CAP_DEN: u128 = 4;

/// Ratings are fixed-point numbers with 32 binary places.
pub const RATE_UNIT: u128 = 0x1_0000_0000;

/// Net `e` joins the pins `u` and `v`: it lists both, and more than one pin.
pub open spec fn joins(s: Layout, e: Index, u: Index, v: Index) -> bool {
    s.pins_of(e).contains(u) && s.pins_of(e).contains(v) && s.net_size(e) >= 2
}

/// The heavy-edge score of `u` and `v` over the first `n` nets: each net
/// that joins them adds its weight divided by the number of its other pins.
pub open spec fn heavy_edge(s: Layout, u: Index, v: Index, n: nat) -> nat
    decreases n,
{
    if n == 0 {
        0
    } else {
        heavy_edge(s, u, v, (n - 1) as nat) + if joins(s, (n - 1) as Index, u, v) {
            (s.w[n - 1] * 0x1_0000_0000 / (s.net_size((n - 1) as Index) - 1)) as nat
        } else {
            0nat
        }
    }
}

/// The rating of the pair `u`, `v`: their heavy-edge score divided by the
/// product of their capacities, and zero where that product is zero.
pub open spec fn rating(s: Layout, u: Index, v: Index) -> nat {
    let product = s.c[u as int] * s.c[v as int];
    if product == 0 {
        0
    } else {
        (heavy_edge(s, u, v, s.e.len()) as int / product) as nat
    }
}

/// The capacity above which a pin seeds no contraction.
pub open spec fn seed_cap(total: nat) -> nat {
    (13 * total / (4 * 320)) as nat
}

/// Place `i` of `nb` holds the best match for `u`: no neighbour is rated
/// higher, and none behind it as high.
pub open spec fn is_best(s: Layout, u: Index, nb: Seq<Index>, i: int) -> bool {
    &&& 0 <= i < nb.len()
    &&& forall|j: int| 0 <= j < nb.len() ==> rating(s, u, #[trigger] nb[j]) <= rating(s, u, nb[i])
    &&& forall|j: int| i < j < nb.len() ==> rating(s, u, #[trigger] nb[j]) < rating(s, u, nb[i])
}

/// There is one best match: two places that both hold it are the same.
pub proof fn lemma_best_unique(s: Layout, u: Index, nb: Seq<Index>, i: int, j: int)
    requires
        is_best(s, u, nb, i),
        is_best(s, u, nb, j),
    ensures
        i == j,
{
    if i < j {
        assert(rating(s, u, nb[j]) < rating(s, u, nb[i]));
        assert(rating(s, u, nb[i]) <= rating(s, u, nb[j]));
    } else if j < i {
        assert(rating(s, u, nb[i]) < rating(s, u, nb[j]));
        assert(rating(s, u, nb[j]) <= rating(s, u, nb[i]));
    }
}

/// The best match for pin `u`: the last of its neighbours that none is
/// rated higher than.
pub open spec fn match_of(s: Layout, u: Index) -> Index {
    s.neighbors(u)[choose|i: int| is_best(s, u, s.neighbors(u), i)]
}

/// The queue entry for pin `u`: its rating with its best match, `u`, and
/// the match.
pub open spec fn entry_for(s: Layout, u: Index) -> Entry {
    Entry { key: rating(s, u, match_of(s, u)) as i128, first: u, second: match_of(s, u) }
}

/// The queue that coarsening starts from, as far as the pins below `k` go:
/// it holds the entry of each enabled pin that has a neighbour and a
/// capacity of at most `cap`.
pub open spec fn seeded(s: Layout, cap: nat, k: nat) -> Multiset<Entry>
    decreases k,
{
    if k == 0 {
        Multiset::empty()
    } else {
        let q = seeded(s, cap, (k - 1) as nat);
        let u = (k - 1) as Index;
        if s.enabled[u as int] && s.c[u as int] <= cap && s.neighbors(u).len() > 0 {
            q.insert(entry_for(s, u))
        } else {
            q
        }
    }
}

/// `t` is what contracting `v` into `u` makes of `s`.
#[verifier::opaque]
pub open spec fn is_contraction(s: Layout, t: Layout, u: Index, v: Index) -> bool {
    s.contracts_to(t, u, v)
}

/// A contraction disables one pin.
pub proof fn lemma_contraction_counts(s: Layout, t: Layout, u: Index, v: Index)
    requires
        is_contraction(s, t, u, v),
        s.is_pin(u),
    ensures
        t.num_pins() == s.num_pins() - 1,
{
    reveal(is_contraction);
}

/// The structure after pin `v` is contracted into pin `u`.
pub open spec fn contracted(s: Layout, u: Index, v: Index) -> Layout {
    choose|t: Layout| s.contracts_to(t, u, v)
}

/// The flags `invalid` with those of the first `k` of the pins `nb` set.
pub open spec fn marked(invalid: Seq<bool>, nb: Seq<Index>, k: nat) -> Seq<bool>
    decreases k,
{
    if k == 0 {
        invalid
    } else {
        marked(invalid, nb, (k - 1) as nat).update(nb[k - 1] as int, true)
    }
}

/// The state of coarsening: the structure, the queue of rated pairs, the
/// pins whose entry is out of date, and the mementos so far.
pub struct Coarsening {
    pub s: Layout,
    pub queue: Multiset<Entry>,
    pub invalid: Seq<bool>,
    pub mementos: Seq<Memento>,
}

/// The state in which coarsening ends. While at least `TARGET_PINS` pins
/// are enabled and the queue holds an entry, the entry that comes out next
/// is taken. Where one of its pins has been absorbed, it is dropped. Where
/// its first pin is marked out of date, the mark is cleared and the pin's
/// entry is made afresh, if the pin has a neighbour. Otherwise its second
/// pin is contracted into its first, the memento is put at the end, and all
/// neighbours of the first pin are marked out of date.
pub open spec fn coarsened(c: Coarsening) -> Coarsening
    decreases c.s.num_pins(), count_set(c.invalid) + c.queue.len(),
{
    let e = top(c.queue);
    let u = e.first;
    let v = e.second;
    if c.s.num_pins() < 320 || c.queue.len() == 0 || !c.queue.contains(e) || u
        >= c.invalid.len() || !c.s.is_pin(u) || !c.s.is_pin(v) {
        c
    } else if !c.s.enabled[u as int] || !c.s.enabled[v as int] {
        proof {
            lemma_queue_len(c.queue, e);
            lemma_count_false_bound(c.invalid);
        }
        coarsened(
            Coarsening { s: c.s, queue: c.queue.remove(e), invalid: c.invalid, mementos: c.mementos },
        )
    } else if c.invalid[u as int] {
        proof {
            lemma_queue_len(c.queue, e);
            lemma_queue_len(c.queue.remove(e), entry_for(c.s, u));
            lemma_count_false_update(c.invalid, u as int, false);
            lemma_count_false_bound(c.invalid.update(u as int, false));
        }
        coarsened(
            Coarsening {
                s: c.s,
                queue: if c.s.neighbors(u).len() > 0 {
                    c.queue.remove(e).insert(entry_for(c.s, u))
                } else {
                    c.queue.remove(e)
                },
                invalid: c.invalid.update(u as int, false),
                mementos: c.mementos,
            },
        )
    } else {
        let t = contracted(c.s, u, v);
        if !is_contraction(c.s, t, u, v) {
            c
        } else {
            proof {
                lemma_contraction_counts(c.s, t, u, v);
            }
            coarsened(
                Coarsening {
                    s: t,
                    queue: c.queue.remove(e),
                    invalid: marked(c.invalid, t.neighbors(u), t.neighbors(u).len()),
                    mementos: c.mementos.push(c.s.memento(u, v)),
                },
            )
        }
    }
}

/// The state in which coarsening of `s` ends.
pub open spec fn coarsening(s: Layout) -> Coarsening {
    coarsened(
        Coarsening {
            s,
            queue: seeded(s, seed_cap(s.total_capacity()), s.v.len()),
            invalid: Seq::new(s.v.len(), |i: int| false),
            mementos: Seq::empty(),
        },
    )
}

/// The heavy-edge score is at most the summed weight, in rating units.
pub proof fn lemma_heavy_edge_bound(s: Layout, u: Index, v: Index, n: nat)
    ensures
        heavy_edge(s, u, v, n) <= 0x1_0000_0000 * prefix_sum(s.w, n),
    decreases n,
{
    if n > 0 {
        lemma_heavy_edge_bound(s, u, v, (n - 1) as nat);
        let e = (n - 1) as Index;
        if joins(s, e, u, v) {
            let w = s.w[n - 1] as int;
            let d = s.net_size(e) - 1;
            assert(w * 0x1_0000_0000 / d <= w * 0x1_0000_0000) by (nonlinear_arith)
                requires
                    w >= 0,
                    d >= 1,
            ;
            assert(w * 0x1_0000_0000 / d >= 0) by (nonlinear_arith)
                requires
                    w >= 0,
                    d >= 1,
            ;
        }
        assert(0x1_0000_0000 * prefix_sum(s.w, n) == 0x1_0000_0000 * prefix_sum(
            s.w,
            (n - 1) as nat,
        ) + 0x1_0000_0000 * s.w[n - 1]) by (nonlinear_arith)
            requires
                prefix_sum(s.w, n) == prefix_sum(s.w, (n - 1) as nat) + s.w[n - 1],
        ;
    }
}

/// The rating of the pair `u`, `v`.
pub fn rate(h: &Bipartite, u: Index, v: Index) -> (r: u128)
    requires
        h@.safe(),
        h@.weighed(),
        h@.is_pin(u),
        h@.is_pin(v),
        h@.enabled[u as int],
        h@.enabled[v as int],
    ensures
        r == rating(h@, u, v),
        r <= 0xffff_ffff_ffff_ffff_ffff_ffff,
{
    let c_u: u128 = h.capacity(u) as u128;
    let c_v: u128 = h.capacity(v) as u128;
    assert(c_u * c_v <= 0xffff_ffff_ffff_ffff * 0xffff_ffff_ffff_ffff) by (nonlinear_arith)
        requires
            c_u <= 0xffff_ffff_ffff_ffff,
            c_v <= 0xffff_ffff_ffff_ffff,
    ;
    let product: u128 = c_u * c_v;
    let num_e = h.num_nets();
    let mut heavy: u128 = 0;
    let mut e: usize = 0;
    while e < num_e
        invariant
            h@.safe(),
            h@.weighed(),
            num_e == h@.e.len(),
            e <= num_e,
            heavy == heavy_edge(h@, u, v, e as nat),
        decreases num_e - e,
    {
        proof {
            lemma_heavy_edge_bound(h@, u, v, (e + 1) as nat);
            lemma_prefix_sum_monotone(h@.w, (e + 1) as nat, num_e as nat);
            assert(0x1_0000_0000 * prefix_sum(h@.w, (e + 1) as nat) <= 0x1_0000_0000
                * 0xffff_ffff_ffff_ffff) by (nonlinear_arith)
                requires
                    prefix_sum(h@.w, (e + 1) as nat) <= 0xffff_ffff_ffff_ffff,
            ;
        }
        let size = h.net_size(e as Index);
        if size >= 2 && h.net_lists(e as Index, u) && h.net_lists(e as Index, v) {
            let w: u128 = h.weight(e as Index) as u128;
            assert(w * 0x1_0000_0000 <= 0xffff_ffff_ffff_ffff * 0x1_0000_0000) by (nonlinear_arith)
                requires
                    w <= 0xffff_ffff_ffff_ffff,
            ;
            heavy = heavy + w * RATE_UNIT / ((size - 1) as u128);
        }
        e += 1;
    }
    proof {
        lemma_heavy_edge_bound(h@, u, v, num_e as nat);
        assert(0x1_0000_0000 * prefix_sum(h@.w, num_e as nat) <= 0x1_0000_0000
            * 0xffff_ffff_ffff_ffff) by (nonlinear_arith)
            requires
                prefix_sum(h@.w, num_e as nat) <= 0xffff_ffff_ffff_ffff,
        ;
    }
    if product == 0 {
        0
    } else {
        assert(heavy / product <= heavy) by (nonlinear_arith)
            requires
                product >= 1,
                heavy >= 0,
        ;
        heavy / product
    }
}

/// The best match for pin `u` among its neighbours, with its rating: the
/// last of those rated highest; none where `u` has no neighbour.
pub fn best_match(h: &Bipartite, u: Index) -> (found: Option<(Index, u128)>)
    requires
        h@.wf(),
        h@.is_pin(u),
        h@.enabled[u as int],
    ensures
        found is None <==> h@.neighbors(u).len() == 0,
        found matches Some((v, r)) ==> r == rating(h@, u, v) && r <= 0xffff_ffff_ffff_ffff_ffff_ffff
            && h@.is_pin(v) && v != u && h@.enabled[v as int] && exists|i: int|
            is_best(h@, u, h@.neighbors(u), i) && h@.neighbors(u)[i] == v,
        found matches Some((v, r)) ==> v == match_of(h@, u) && (Entry {
            key: r as i128,
            first: u,
            second: v,
        }) == entry_for(h@, u),
{
    let nb = h.incident_pins(u);
    if nb.len() == 0 {
        return None;
    }
    let mut best: usize = 0;
    let mut best_rate: u128 = rate(h, u, nb[0]);
    let mut i: usize = 1;
    while i < nb.len()
        invariant
            h@.wf(),
            h@.is_pin(u),
            h@.enabled[u as int],
            nb@ == h@.neighbors(u),
            forall|j: int| 0 <= j < nb.len() ==> h@.is_pin(#[trigger] nb[j]) && nb[j] != u,
            forall|j: int| 0 <= j < nb.len() ==> h@.enabled[#[trigger] nb[j] as int],
            best < i <= nb.len(),
            best_rate == rating(h@, u, nb[best as int]),
            best_rate <= 0xffff_ffff_ffff_ffff_ffff_ffff,
            forall|j: int| 0 <= j < i ==> rating(h@, u, #[trigger] nb[j]) <= best_rate,
            forall|j: int| best < j < i ==> rating(h@, u, #[trigger] nb[j]) < best_rate,
        decreases nb.len() - i,
    {
        let r = rate(h, u, nb[i]);
        if r >= best_rate {
            best = i;
            best_rate = r;
        }
        i += 1;
    }
    proof {
        assert(is_best(h@, u, h@.neighbors(u), best as int));
        let place = choose|i: int| is_best(h@, u, h@.neighbors(u), i);
        lemma_best_unique(h@, u, h@.neighbors(u), best as int, place);
    }
    Some((nb[best], best_rate))
}

/// Every entry names two distinct pins of the index space.
pub open spec fn pairs_ok(q: vstd::multiset::Multiset<Entry>, n: nat) -> bool {
    forall|x: Entry| #[trigger] q.contains(x) ==> x.first < n && x.second < n && x.first != x.second
}

/// An entry pushed keeps the queue's entries proper, and makes the queue one
/// longer.
pub proof fn lemma_pairs_push(q: vstd::multiset::Multiset<Entry>, e: Entry, n: nat)
    requires
        pairs_ok(q, n),
        e.first < n,
        e.second < n,
        e.first != e.second,
    ensures
        pairs_ok(q.insert(e), n),
        q.insert(e).len() == q.len() + 1,
{
    broadcast use vstd::multiset::group_multiset_properties;

    assert forall|x: Entry| #[trigger] q.insert(e).contains(x) implies x.first < n && x.second < n
        && x.first != x.second by {
        if x != e {
            assert(q.contains(x));
        }
    }
}

/// An entry popped was proper, leaves the queue's entries proper, and makes
/// the queue one shorter.
pub proof fn lemma_pairs_pop(q: vstd::multiset::Multiset<Entry>, e: Entry, n: nat)
    requires
        pairs_ok(q, n),
        q.contains(e),
    ensures
        pairs_ok(q.remove(e), n),
        q.remove(e).len() == q.len() - 1,
        e.first < n,
        e.second < n,
        e.first != e.second,
{
    broadcast use vstd::multiset::group_multiset_properties;

    assert forall|x: Entry| #[trigger] q.remove(e).contains(x) implies q.contains(x) by {}
}

/// Coarsens the hypergraph: while at least `TARGET_PINS` pins are enabled
/// and the queue of rated pairs is not empty, takes the best rated pair out
/// of it, drops it where one of its pins has been absorbed since, rates its
/// first pin afresh where that pin's neighbourhood has changed since, and
/// contracts it otherwise. Returns the mementos, earliest first.
pub fn coarsen(h: &mut Bipartite) -> (mementos: Vec<Memento>)
    requires
        old(h)@.wf(),
    ensures
        final(h)@ == coarsening(old(h)@).s,
        mementos@ == coarsening(old(h)@).mementos,
        final(h)@.wf(),
        final(h)@.replayable(mementos@),
        old(h)@.agrees(final(h)@.replayed(mementos@)),
        final(h)@.v.len() == old(h)@.v.len(),
        final(h)@.e.len() == old(h)@.e.len(),
        mementos@.len() == old(h)@.num_pins() - final(h)@.num_pins(),
        old(h)@.num_pins() < TARGET_PINS ==> mementos@.len() == 0 && final(h)@ == old(h)@,
        old(h)@.num_pins() >= TARGET_PINS ==> final(h)@.num_pins() >= TARGET_PINS - 1,
{
    let ghost pre = h@;
    let n = h.pin_index_space_size();
    let mut mementos: Vec<Memento> = Vec::new();
    proof {
        lemma_agrees_self(pre);
    }
    if h.num_pins() < TARGET_PINS {
        return mementos;
    }
    let total: u128 = h.total_capacity() as u128;
    assert(13 * total <= 13 * 0xffff_ffff_ffff_ffff) by (nonlinear_arith)
        requires
            total <= 0xffff_ffff_ffff_ffff,
    ;
    let c_max: u128 = SEED_CAP_NUM * total / (SEED_CAP_DEN * TARGET_PINS as u128);

    let mut pq = Queue::new();
    let mut u: usize = 0;
    while u < n
        invariant
            h@ == pre,
            pre.wf(),
            n == pre.v.len(),
            u <= n,
            c_max == seed_cap(pre.total_capacity()),
            pq@ == seeded(pre, c_max as nat, u as nat),
            pairs_ok(pq@, n as nat),
        decreases n - u,
    {
        if h.enabled(u as Index) && h.capacity(u as Index) as u128 <= c_max {
            match best_match(h, u as Index) {
                Some((v, r)) => {
                    let ghost before = pq@;
                    let entry = Entry { key: r as i128, first: u as Index, second: v };
                    pq.push(entry);
                    proof {
                        lemma_pairs_push(before, entry, n as nat);
                    }
                },
                None => {},
            }
        }
        u += 1;
    }
    let mut invalid = bits_repeat(false, n);
    let ghost target = coarsening(pre);

    while h.num_pins() >= TARGET_PINS && pq.len() > 0
        invariant
            coarsened(
                Coarsening {
                    s: h@,
                    queue: pq@,
                    invalid: bits_of(invalid),
                    mementos: mementos@,
                },
            ) == target,
            pre.wf(),
            h@.wf(),
            n == pre.v.len(),
            h@.v.len() == pre.v.len(),
            h@.e.len() == pre.e.len(),
            h@.replayable(mementos@),
            pre.agrees(h@.replayed(mementos@)),
            mementos@.len() == pre.num_pins() - h@.num_pins(),
            h@.num_pins() >= TARGET_PINS - 1,
            pairs_ok(pq@, n as nat),
            bits_of(invalid).len() == n,
        decreases h@.num_pins(), count_set(bits_of(invalid)) + pq@.len(),
    {
        proof {
            broadcast use vstd::multiset::group_multiset_properties;

            lemma_count_false_bound(bits_of(invalid));
            lemma_count_false_bound(h@.enabled);
        }
        let ghost queued = pq@;
        let top = pq.pop();
        let entry = top.unwrap();
        let u = entry.first;
        let v = entry.second;
        assert(queued.contains(entry));
        proof {
            lemma_pairs_pop(queued, entry, n as nat);
        }
        assert(pq@.len() == queued.len() - 1);
        if !h.enabled(u) || !h.enabled(v) {
            // One of the two has been absorbed since the entry was made.
        } else if bits_get(&invalid, u as usize) {
            proof {
                lemma_count_false_update(bits_of(invalid), u as int, false);
            }
            bits_set(&mut invalid, u as usize, false);
            match best_match(h, u) {
                Some((w, r)) => {
                    let ghost shorter = pq@;
                    let fresh = Entry { key: r as i128, first: u, second: w };
                    pq.push(fresh);
                    proof {
                        lemma_pairs_push(shorter, fresh, n as nat);
                    }
                },
                None => {},
            }
            proof {
                lemma_count_false_bound(bits_of(invalid));
            }
        } else {
            let ghost before = h@;
            let m = h.contract(u, v);
            let ghost earlier = mementos@;
            mementos.push(m);
            proof {
                lemma_contract_replayable(before, h@, u, v, earlier);
                lemma_replayed(before, earlier);
                lemma_agrees_trans(pre, before.replayed(earlier), h@.replayed(mementos@));
                reveal(is_contraction);
                lemma_contraction_unique(before, h@, contracted(before, u, v), u, v);
            }
            let nb = h.incident_pins(u);
            let ghost flags = bits_of(invalid);
            let mut i: usize = 0;
            while i < nb.len()
                invariant
                    i <= nb.len(),
                    bits_of(invalid).len() == n,
                    bits_of(invalid) == marked(flags, nb@, i as nat),
                    n == h@.v.len(),
                    forall|j: int| 0 <= j < nb.len() ==> h@.is_pin(#[trigger] nb[j]),
                decreases nb.len() - i,
            {
                bits_set(&mut invalid, nb[i] as usize, true);
                i += 1;
            }
        }
    }
    mementos
}

} // verus!
