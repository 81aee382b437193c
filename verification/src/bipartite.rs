//! The incidence structure: a bipartite graph between pins and nets, stored
//! in three index arrays, with contraction of two pins and its exact
//! reversal.

use vstd::prelude::*;
use crate::bits::{bits_clone, bits_get, bits_of, bits_repeat, bits_set, Bits};
use crate::balance::{lemma_cut_sum_bound, lemma_prefix_sum_monotone};
use crate::reversal::{lemma_contract_lists, lemma_contract_replayable, lemma_round_trip};
use crate::layout::{
    built, input_ok, is_not, lemma_count_false_bound, lemma_count_false_none,
    lemma_count_false_some, lemma_filter_push, lemma_masked_sum_all, lemma_nets_holding,
    lemma_offset_monotone, lemma_side_sum, lemma_sums_monotone, lemma_two_within_total,
    lemma_undoable_facts, nets_flat, nets_holding, not_in, offset, pins_flat, rewritten, Index,
    Layout, Memento, EPSILON_UNIT,
};

verus! {

/// A bipartition assigns a side to every pin of the index space.
pub type Bipartition = Vec<bool>;

/// A hypergraph as a bipartite graph between pins and nets.
#[derive(Debug, PartialEq)]
pub struct Bipartite {
    // Slices into `a`: per pin its nets, per net its pins.
    v: Vec<(usize, usize)>,
    e: Vec<(usize, usize)>,
    a: Vec<Index>,
    // Which pins have not been absorbed by a contraction.
    v_enabled: Bits,
    num_disabled: usize,
    // Capacities of pins and weights of nets.
    c: Vec<u64>,
    w: Vec<u64>,
}

impl View for Bipartite {
    type V = Layout;

    closed spec fn view(&self) -> Layout {
        Layout {
            v: self.v@,
            e: self.e@,
            a: self.a@,
            enabled: bits_of(self.v_enabled),
            num_disabled: self.num_disabled as nat,
            c: self.c@,
            w: self.w@,
        }
    }
}

impl Clone for Bipartite {
    /// A copy of the structure, array for array.
    fn clone(&self) -> (h: Self)
        ensures
            h@ == self@,
    {
        Bipartite {
            v: copy_of(&self.v),
            e: copy_of(&self.e),
            a: copy_of(&self.a),
            v_enabled: bits_clone(&self.v_enabled),
            num_disabled: self.num_disabled,
            c: copy_of(&self.c),
            w: copy_of(&self.w),
        }
    }
}

/// A bit set with the given bits.
fn bits_from(flags: &Vec<bool>) -> (b: Bits)
    requires
        flags.len() <= usize::MAX / 8,
    ensures
        bits_of(b) == flags@,
{
    let mut b = bits_repeat(false, flags.len());
    let mut i: usize = 0;
    while i < flags.len()
        invariant
            i <= flags.len(),
            bits_of(b).len() == flags.len(),
            forall|j: int| 0 <= j < i ==> bits_of(b)[j] == flags[j],
        decreases flags.len() - i,
    {
        bits_set(&mut b, i, flags[i]);
        i += 1;
    }
    assert(bits_of(b) =~= flags@);
    b
}

/// A vector with the same entries.
fn copy_of<T: Copy>(items: &Vec<T>) -> (out: Vec<T>)
    ensures
        out@ == items@,
{
    let mut out: Vec<T> = Vec::new();
    let mut i: usize = 0;
    while i < items.len()
        invariant
            i <= items.len(),
            out@ == items@.take(i as int),
        decreases items.len() - i,
    {
        out.push(items[i]);
        i += 1;
        assert(out@ =~= items@.take(i as int));
    }
    assert(out@ =~= items@);
    out
}

/// The nets of an input, each as a sequence of pins.
pub open spec fn nets_view(nets: &[&[Index]]) -> Seq<Seq<Index>> {
    Seq::new(nets@.len(), |i: int| nets@[i]@)
}

/// Appends the entries of `items` to `a`.
fn append(a: &mut Vec<Index>, items: &[Index])
    ensures
        final(a)@ == old(a)@ + items@,
{
    let mut k: usize = 0;
    while k < items.len()
        invariant
            k <= items.len(),
            a@ == old(a)@ + items@.take(k as int),
        decreases items.len() - k,
    {
        a.push(items[k]);
        k += 1;
        assert(a@ =~= old(a)@ + items@.take(k as int));
    }
    assert(a@ =~= old(a)@ + items@);
}

/// The first place in `a[start..end]` that holds `x`, or `end`.
fn find(a: &Vec<Index>, start: usize, end: usize, x: Index) -> (at: usize)
    requires
        start <= end <= a.len(),
    ensures
        start <= at <= end,
        at < end ==> a[at as int] == x,
        forall|i: int| start <= i < at ==> a[i] != x,
{
    let mut at = start;
    while at < end
        invariant
            start <= at <= end,
            end <= a.len(),
            forall|i: int| start <= i < at ==> a[i] != x,
        decreases end - at,
    {
        if a[at] == x {
            return at;
        }
        at += 1;
    }
    at
}

/// Merges pin `v` into pin `u` in the pin list `a[start..start + len]`,
/// which holds `v`: `v` changes places with the last pin, and unless the
/// list holds `u` already, `u` is written over `v`. Says whether it held `u`.
fn merge_in_net(a: &mut Vec<Index>, start: usize, len: usize, u: Index, v: Index) -> (held: bool)
    requires
        start + len <= old(a).len(),
        old(a)@.subrange(start as int, start + len).contains(v),
        old(a)@.subrange(start as int, start + len).no_duplicates(),
        u != v,
    ensures
        final(a).len() == old(a).len(),
        held == old(a)@.subrange(start as int, start + len).contains(u),
        final(a)@.subrange(start as int, start + len) == rewritten(
            old(a)@.subrange(start as int, start + len),
            u,
            v,
        ),
        forall|i: int|
            0 <= i < old(a).len() && !(start <= i < start + len) ==> final(a)[i] == old(a)[i],
{
    let ghost pins = a@.subrange(start as int, start + len);
    let end = start + len;
    let at = find(a, start, end, v);
    proof {
        let i = choose|i: int| 0 <= i < pins.len() && pins[i] == v;
        assert(a[start + i] == v);
        assert(pins[at - start] == v);
        assert(pins.index_of(v) == at - start);
    }
    let last = end - 1;
    let tail = a[last];
    a.set(at, tail);
    a.set(last, v);
    let ghost swapped = pins.update(at - start, pins[len - 1]).update(len - 1, v);
    assert(a@.subrange(start as int, start + len) =~= swapped);
    let pos = find(a, start, end, u);
    let held = pos < end;
    proof {
        if held {
            assert(swapped[pos - start] == u);
            if pos == at {
                assert(pins[len - 1] == u);
            } else {
                assert(pins[pos - start] == u);
            }
        }
        if pins.contains(u) {
            let i = choose|i: int| 0 <= i < pins.len() && pins[i] == u;
            if i == len - 1 {
                assert(swapped[at - start] == u);
                assert(a[at as int] == u);
            } else {
                assert(swapped[i] == u);
                assert(a[start + i] == u);
            }
        }
    }
    if !held {
        a.set(last, u);
        assert(a@.subrange(start as int, start + len) =~= swapped.update(len - 1, u));
    }
    held
}

/// Whether `net` lists pin `p`.
fn lists(net: &[Index], p: Index) -> (found: bool)
    ensures
        found == net@.contains(p),
{
    let mut k: usize = 0;
    while k < net.len()
        invariant
            k <= net.len(),
            forall|j: int| 0 <= j < k ==> net@[j] != p,
        decreases net.len() - k,
    {
        if net[k] == p {
            return true;
        }
        k += 1;
    }
    false
}

/// Whether the entries of `values` sum to no more than 64 bits hold.
fn sum_fits(values: &[u64]) -> (fits: bool)
    ensures
        fits == (crate::layout::prefix_sum(values@, values@.len()) <= u64::MAX),
{
    let mut sum: u64 = 0;
    let mut k: usize = 0;
    while k < values.len()
        invariant
            k <= values.len(),
            sum == crate::layout::prefix_sum(values@, k as nat),
        decreases values.len() - k,
    {
        if sum > u64::MAX - values[k] {
            proof {
                lemma_prefix_sum_monotone(values@, (k + 1) as nat, values@.len());
            }
            return false;
        }
        sum = sum + values[k];
        k += 1;
    }
    true
}

/// Whether `net` names pins below `num_pins` only, and none twice.
fn net_is_valid(net: &[Index], num_pins: usize) -> (ok: bool)
    ensures
        ok == (net@.no_duplicates() && forall|k: int|
            0 <= k < net@.len() ==> (#[trigger] net@[k]) < num_pins),
{
    let mut i: usize = 0;
    while i < net.len()
        invariant
            i <= net.len(),
            forall|k: int| 0 <= k < i ==> (#[trigger] net@[k]) < num_pins,
            forall|a: int, b: int| 0 <= a < i && 0 <= b < i && a != b ==> net@[a] != net@[b],
        decreases net.len() - i,
    {
        if net[i] as usize >= num_pins {
            return false;
        }
        let mut j: usize = 0;
        while j < i
            invariant
                j <= i < net.len(),
                forall|b: int| 0 <= b < j ==> net@[b] != net@[i as int],
            decreases i - j,
        {
            if net[j] == net[i] {
                return false;
            }
            j += 1;
        }
        i += 1;
    }
    true
}

/// Whether the input is one that `Bipartite::new` accepts.
pub fn input_is_valid(capacities: &[u64], weights: &[u64], nets: &[&[Index]]) -> (ok: bool)
    ensures
        ok == input_ok(capacities@, weights@, nets_view(nets)),
{
    let ghost input = nets_view(nets);
    if weights.len() != nets.len() {
        return false;
    }
    if capacities.len() > 0xffff_ffff || capacities.len() > usize::MAX / 8 {
        return false;
    }
    if nets.len() > 0xffff_ffff || nets.len() > usize::MAX / 8 {
        return false;
    }
    let mut e: usize = 0;
    while e < nets.len()
        invariant
            input == nets_view(nets),
            e <= nets.len(),
            forall|x: int| 0 <= x < e ==> (#[trigger] input[x]).no_duplicates(),
            forall|x: int, k: int|
                0 <= x < e && 0 <= k < input[x].len() ==> (#[trigger] input[x][k])
                    < capacities@.len(),
        decreases nets.len() - e,
    {
        let net = nets[e];
        assert(net@ == input[e as int]);
        if !net_is_valid(net, capacities.len()) {
            proof {
                if input_ok(capacities@, weights@, input) {
                    assert(input[e as int].no_duplicates());
                    assert forall|k: int| 0 <= k < net@.len() implies (#[trigger] net@[k])
                        < capacities@.len() by {
                        assert(input[e as int][k] < capacities@.len());
                    }
                }
            }
            return false;
        }
        e += 1;
    }
    sum_fits(capacities) && sum_fits(weights)
}

impl Bipartite {
    /// Builds the structure of a hypergraph: the nets' pin lists are copied
    /// one after the other, and behind them each pin gets the list of the
    /// nets that name it, in rising order.
    pub fn new(capacities: &[u64], weights: &[u64], nets: &[&[Index]]) -> (h: Self)
        requires
            input_ok(capacities@, weights@, nets_view(nets)),
        ensures
            h@ == built(capacities@, weights@, nets_view(nets)),
            h@.wf(),
            h@.c == capacities@,
            h@.w == weights@,
            h@.num_disabled == 0,
            h@.v.len() == capacities@.len(),
            h@.e.len() == nets@.len(),
            forall|p: Index| h@.is_pin(p) ==> h@.enabled[p as int],
            forall|e: Index| h@.is_net(e) ==> #[trigger] h@.pins_of(e) == nets_view(nets)[e as int],
            forall|e: Index|
                h@.is_net(e) ==> #[trigger] h@.net_start(e) == offset(nets_view(nets), e as nat),
            forall|p: Index|
                h@.is_pin(p) ==> #[trigger] h@.nets_of(p) == nets_holding(
                    nets_view(nets),
                    p,
                    nets@.len(),
                ),
    {
        let num_v = capacities.len();
        let num_e = weights.len();
        let ghost input = nets_view(nets);
        let mut e: Vec<(usize, usize)> = Vec::new();
        let mut a: Vec<Index> = Vec::new();

        let mut i: usize = 0;
        while i < num_e
            invariant
                input == nets_view(nets),
                num_e == nets@.len(),
                i <= num_e,
                e.len() == i,
                a.len() == offset(input, i as nat),
                a@ == nets_flat(input, i as nat),
                forall|j: int|
                    0 <= j < i ==> (#[trigger] e[j]).0 == offset(input, j as nat) && e[j].1
                        == input[j].len() && e[j].0 + e[j].1 <= a.len() && a@.subrange(
                        e[j].0 as int,
                        e[j].0 + e[j].1,
                    ) == input[j],
            decreases num_e - i,
        {
            let net = nets[i];
            assert(net@ == input[i as int]);
            let ghost a_before = a@;
            let start = a.len();
            e.push((start, net.len()));
            append(&mut a, net);
            proof {
                assert(a@.subrange(start as int, start + net@.len()) =~= net@);
                assert forall|j: int| 0 <= j < i implies a@.subrange(
                    (#[trigger] e[j]).0 as int,
                    e[j].0 + e[j].1,
                ) == input[j] by {
                    assert(a@.subrange(e[j].0 as int, e[j].0 + e[j].1) =~= a_before.subrange(
                        e[j].0 as int,
                        e[j].0 + e[j].1,
                    ));
                }
            }
            i += 1;
        }

        let ghost net_end = a.len();
        let ghost a_nets = a@;
        let mut v: Vec<(usize, usize)> = Vec::new();
        let mut p: usize = 0;
        while p < num_v
            invariant
                input == nets_view(nets),
                input_ok(capacities@, weights@, input),
                num_e == nets@.len(),
                num_v == capacities@.len(),
                p <= num_v,
                v.len() == p,
                net_end == offset(input, num_e as nat),
                net_end <= a.len(),
                a@ == a_nets + pins_flat(input, p as nat),
                a_nets == nets_flat(input, num_e as nat),
                forall|q: int|
                    0 <= q < p ==> (#[trigger] v[q]).0 == net_end + pins_flat(input, q as nat).len(),
                e.len() == num_e,
                forall|j: int|
                    0 <= j < num_e ==> (#[trigger] e[j]).0 == offset(input, j as nat) && e[j].1
                        == input[j].len() && e[j].0 + e[j].1 <= net_end && a_nets.subrange(
                        e[j].0 as int,
                        e[j].0 + e[j].1,
                    ) == input[j],
                a@.take(net_end as int) == a_nets,
                forall|q: int|
                    0 <= q < p ==> net_end <= (#[trigger] v[q]).0 && v[q].0 + v[q].1 <= a.len(),
                forall|q: int|
                    0 <= q < p ==> a@.subrange((#[trigger] v[q]).0 as int, v[q].0 + v[q].1)
                        == nets_holding(input, q as Index, num_e as nat),
            decreases num_v - p,
        {
            let old_a = a.len();
            let ghost a_before = a@;
            let mut n: usize = 0;
            while n < num_e
                invariant
                    input == nets_view(nets),
                    num_e == nets@.len(),
                    num_e <= u32::MAX,
                    p < num_v,
                    num_v <= u32::MAX,
                    n <= num_e,
                    old_a <= a.len(),
                    a@.take(old_a as int) == a_before,
                    a@.subrange(old_a as int, a.len() as int) == nets_holding(
                        input,
                        p as Index,
                        n as nat,
                    ),
                decreases num_e - n,
            {
                let net = nets[n];
                assert(net@ == input[n as int]);
                if lists(net, p as Index) {
                    a.push(n as Index);
                    assert(a@.subrange(old_a as int, a.len() as int) =~= nets_holding(
                        input,
                        p as Index,
                        n as nat,
                    ).push(n as Index));
                }
                assert(a@.take(old_a as int) =~= a_before);
                n += 1;
            }
            let num_nets = a.len() - old_a;
            v.push((old_a, num_nets));
            proof {
                assert(a@ =~= a_before + a@.subrange(old_a as int, a.len() as int));
                assert(a@ =~= a_nets + pins_flat(input, (p + 1) as nat));
                assert(a@.take(net_end as int) =~= a_before.take(net_end as int));
                assert forall|q: int| 0 <= q < p implies a@.subrange(
                    (#[trigger] v[q]).0 as int,
                    v[q].0 + v[q].1,
                ) == nets_holding(input, q as Index, num_e as nat) by {
                    assert(a@.subrange(v[q].0 as int, v[q].0 + v[q].1) =~= a_before.subrange(
                        v[q].0 as int,
                        v[q].0 + v[q].1,
                    ));
                }
            }
            p += 1;
        }

        let v_enabled = bits_repeat(true, num_v);
        let mut c: Vec<u64> = Vec::new();
        let mut w: Vec<u64> = Vec::new();
        let mut j: usize = 0;
        while j < num_v
            invariant
                j <= num_v,
                num_v == capacities@.len(),
                c@ == capacities@.take(j as int),
            decreases num_v - j,
        {
            c.push(capacities[j]);
            j += 1;
            assert(c@ =~= capacities@.take(j as int));
        }
        j = 0;
        while j < num_e
            invariant
                j <= num_e,
                num_e == weights@.len(),
                w@ == weights@.take(j as int),
            decreases num_e - j,
        {
            w.push(weights[j]);
            j += 1;
            assert(w@ =~= weights@.take(j as int));
        }
        assert(c@ =~= capacities@);
        assert(w@ =~= weights@);
        let h = Bipartite { v, e, a, v_enabled, num_disabled: 0, c, w };
        proof {
            let s = h@;
            let b = built(capacities@, weights@, input);
            assert(s.enabled =~= b.enabled);
            assert(s.e =~= b.e);
            assert(s.v =~= b.v) by {
                assert forall|q: int| 0 <= q < num_v implies s.v[q] == b.v[q] by {
                    assert(v[q].0 == net_end + pins_flat(input, q as nat).len());
                    assert(a@.subrange(v[q].0 as int, v[q].0 + v[q].1) == nets_holding(
                        input,
                        q as Index,
                        num_e as nat,
                    ));
                }
            }
            assert(s == b);
            lemma_count_false_none(s.enabled);
            lemma_masked_sum_all(s.c, s.enabled, s.v.len());
            assert forall|x: Index| s.is_net(x) implies #[trigger] s.net_start(x) + s.net_size(x)
                <= net_end && s.pins_of(x) == input[x as int] && s.net_start(x) == offset(
                input,
                x as nat,
            ) by {
                lemma_offset_monotone(input, (x + 1) as nat, num_e as nat);
                assert(a_nets.subrange(e[x as int].0 as int, e[x as int].0 + e[x as int].1)
                    == input[x as int]);
                assert(s.pins_of(x) =~= a_nets.subrange(
                    e[x as int].0 as int,
                    e[x as int].0 + e[x as int].1,
                ));
            }
            assert forall|q: Index| s.is_pin(q) implies #[trigger] s.nets_of(q) == nets_holding(
                input,
                q,
                num_e as nat,
            ) && net_end <= s.pin_start(q) && s.pin_start(q) + s.degree(q) <= s.a.len() by {
                assert(net_end <= v[q as int].0);
            }
            assert(s.sized());
            assert(s.bounded()) by {
                assert forall|q: Index, k: int| s.is_pin(q) && 0 <= k < s.degree(q) implies s.is_net(
                    #[trigger] s.net_at(q, k),
                ) by {
                    lemma_nets_holding(input, q, num_e as nat);
                    assert(s.nets_of(q)[k] == s.net_at(q, k));
                }
                assert forall|x: Index, k: int| s.is_net(x) && 0 <= k < s.net_size(x) implies s.is_pin(
                    #[trigger] s.pin_at(x, k),
                ) by {
                    assert(s.pins_of(x)[k] == s.pin_at(x, k));
                    assert(input[x as int][k] < capacities@.len());
                }
            }
            assert(s.separate()) by {
                assert forall|e1: Index, e2: Index, i: int|
                    s.is_net(e1) && s.is_net(e2) && #[trigger] s.in_net(e1, i) && #[trigger] s.in_net(
                        e2,
                        i,
                    ) implies e1 == e2 by {
                    if e1 < e2 {
                        lemma_offset_monotone(input, (e1 + 1) as nat, e2 as nat);
                    } else if e2 < e1 {
                        lemma_offset_monotone(input, (e2 + 1) as nat, e1 as nat);
                    }
                }
                assert forall|x: Index, q: Index, i: int|
                    s.is_net(x) && s.is_pin(q) && #[trigger] s.in_net(x, i) implies !#[trigger] s.in_pin(
                        q,
                        i,
                    ) by {
                    assert(s.net_start(x) + s.net_size(x) <= net_end);
                    assert(s.nets_of(q) == nets_holding(input, q, num_e as nat));
                }
            }
            assert(s.distinct()) by {
                assert forall|q: Index| s.is_pin(q) implies #[trigger] s.nets_of(q).no_duplicates() by {
                    lemma_nets_holding(input, q, num_e as nat);
                }
            }
            assert(s.incident()) by {
                assert forall|x: Index, k: int|
                    s.is_net(x) && 0 <= k < s.net_size(x) implies s.enabled[#[trigger] s.pin_at(
                    x,
                    k,
                ) as int] by {
                    assert(s.is_pin(s.pin_at(x, k)));
                }
                assert forall|q: Index, x: Index|
                    #![trigger s.nets_of(q).contains(x)]
                    #![trigger s.pins_of(x).contains(q)]
                    s.is_pin(q) && s.is_net(x) && s.enabled[q as int] implies (s.nets_of(q).contains(
                        x,
                    ) <==> s.pins_of(x).contains(q)) by {
                    lemma_nets_holding(input, q, num_e as nat);
                    assert(s.pins_of(x) == input[x as int]);
                    assert(s.nets_of(q) == nets_holding(input, q, num_e as nat));
                    if s.nets_of(q).contains(x) {
                        let i = choose|i: int| 0 <= i < s.nets_of(q).len() && s.nets_of(q)[i] == x;
                        assert(input[nets_holding(input, q, num_e as nat)[i] as int].contains(q));
                    }
                }
            }
            assert(s.weighed());
        }
        h
    }

    /// Contracts pin `v` into pin `u`: `u` takes over `v`'s capacity and
    /// `v`'s place in every net of `v`, and `v` is disabled. Returns the
    /// record by which the contraction is undone.
    pub fn contract(&mut self, u: Index, v: Index) -> (m: Memento)
        requires
            old(self)@.wf(),
            u != v,
            old(self)@.is_pin(u),
            old(self)@.is_pin(v),
            old(self)@.enabled[u as int],
            old(self)@.enabled[v as int],
        ensures
            old(self)@.contracts_to(final(self)@, u, v),
            m == old(self)@.memento(u, v),
            final(self)@.wf(),
            final(self)@.undoable(m),
            old(self)@.agrees(final(self)@.uncontracted(m)),
            forall|ms: Seq<Memento>| #[trigger]
                old(self)@.replayable(ms) ==> final(self)@.replayable(ms.push(m)),
            final(self)@.num_pins() == old(self)@.num_pins() - 1,
            forall|e: Index|
                old(self)@.is_net(e) ==> #[trigger] final(self)@.pins_of(e) == old(self)@.pins_after(
                    u,
                    v,
                    e,
                ),
            forall|p: Index|
                old(self)@.is_pin(p) ==> #[trigger] final(self)@.nets_of(p) == old(self)@.nets_after(
                    u,
                    v,
                    p,
                ),
    {
        let ghost pre = self@;
        let u_idx = self.v[u as usize].0;
        let u_len = self.v[u as usize].1;
        let m = Memento { u, v, u_idx, u_len };
        proof {
            lemma_two_within_total(pre.c, pre.enabled, u as int, v as int);
            lemma_count_false_some(pre.enabled, v as int);
        }
        let c_v = self.c[v as usize];
        let c_u = self.c[u as usize];
        self.c.set(u as usize, c_u + c_v);
        let v_idx = self.v[v as usize].0;
        let v_len = self.v[v as usize].1;
        let mut copy = true;
        let mut k: usize = 0;
        proof {
            reveal(Seq::filter);
            assert(pre.nets_of(v).take(0) =~= Seq::<Index>::empty());
            assert(pre.merged_upto(self@, u, v, 0)) by {
                assert(self@.v =~= pre.v);
                assert(self@.window(pre.a.len() as int, 0) =~= Seq::<Index>::empty());
            }
        }
        while k < v_len
            invariant
                pre.wf(),
                u != v,
                pre.is_pin(u),
                pre.is_pin(v),
                pre.enabled[u as int],
                pre.enabled[v as int],
                pre.c[u as int] + pre.c[v as int] <= u64::MAX,
                m == pre.memento(u, v),
                u_idx == pre.pin_start(u),
                u_len == pre.degree(u),
                v_idx == pre.pin_start(v),
                v_len == pre.degree(v),
                k <= v_len,
                pre.merged_upto(self@, u, v, k as int),
                self@.enabled == pre.enabled,
                self@.num_disabled == pre.num_disabled,
                copy == (pre.gained_upto(u, v, k as int).len() == 0),
            decreases v_len - k,
        {
            let ghost mid = self@;
            let ghost e0 = pre.net_at(v, k as int);
            let ghost pins = pre.pins_of(e0);
            let ghost gained_before = pre.gained_upto(u, v, k as int);
            proof {
                assert(pre.pin_start(v) + pre.degree(v) <= pre.a.len());
                assert(pre.pin_start(u) + pre.degree(u) <= pre.a.len());
                assert(pre.in_pin(v, v_idx + k));
                assert(!pre.touched(v, k as int, v_idx + k));
                assert(pre.is_net(e0));
                assert(pre.nets_of(v)[k as int] == e0);
                assert(pre.nets_of(v).no_duplicates());
                assert(!pre.met(v, k as int, e0)) by {
                    if pre.met(v, k as int, e0) {
                        let j = choose|j: int| 0 <= j < k && pre.net_at(v, j) == e0;
                        assert(pre.nets_of(v)[j] == e0);
                    }
                }
                assert(pre.nets_of(v).contains(e0));
                assert(pins.contains(v));
                assert(pins.no_duplicates());
                assert forall|i: int| pre.in_net(e0, i) implies mid.a[i] == pre.a[i] by {
                    if pre.touched(v, k as int, i) {
                        let j = choose|j: int| 0 <= j < k && pre.in_net(pre.net_at(v, j), i);
                        assert(pre.is_net(pre.net_at(v, j)));
                        assert(pre.met(v, k as int, e0));
                    }
                }
                assert(pre.net_start(e0) + pre.net_size(e0) <= pre.a.len());
                assert(mid.window(pre.net_start(e0), pre.net_size(e0)) =~= pins);
            }
            assert(v_idx + k < self.a.len());
            let e = self.a[v_idx + k];
            let e_idx = self.e[e as usize].0;
            let e_len = self.e[e as usize].1;
            assert(e == e0 && e_idx == pre.net_start(e) && e_len == pre.net_size(e));
            let held = merge_in_net(&mut self.a, e_idx, e_len, u, v);
            let ghost merged = self@;
            proof {
                assert(held == pre.nets_of(u).contains(e));
                assert(merged.window(pre.net_start(e), pre.net_size(e)) == rewritten(pins, u, v));
                assert(pre.nets_of(v).take(k + 1) =~= pre.nets_of(v).take(k as int).push(e));
                lemma_filter_push(pre.nets_of(v).take(k as int), e, not_in(pre.nets_of(u)));
                assert forall|j: int| 0 <= j < k implies merged.window(
                    pre.net_start(#[trigger] pre.net_at(v, j)),
                    pre.net_size(pre.net_at(v, j)),
                ) == rewritten(pre.pins_of(pre.net_at(v, j)), u, v) by {
                    let ej = pre.net_at(v, j);
                    assert(pre.is_net(ej));
                    assert(pre.met(v, k as int, ej));
                    assert(pre.net_start(ej) + pre.net_size(ej) <= pre.a.len());
                    assert(pre.nets_of(v)[j] == ej);
                    assert(ej != e);
                    assert forall|i: int| pre.in_net(ej, i) implies !pre.in_net(e, i) by {}
                    assert forall|i: int| pre.in_net(ej, i) implies merged.a[i] == mid.a[i] by {
                        assert(!pre.in_net(e, i));
                    }
                    assert(merged.window(pre.net_start(ej), pre.net_size(ej)) =~= mid.window(
                        pre.net_start(ej),
                        pre.net_size(ej),
                    ));
                }
                assert forall|i: int|
                    0 <= i < pre.a.len() && !pre.touched(v, k + 1, i) implies #[trigger] merged.a[i]
                    == pre.a[i] by {
                    assert(!pre.in_net(pre.net_at(v, k as int), i));
                    if pre.touched(v, k as int, i) {
                        let j = choose|j: int| 0 <= j < k && pre.in_net(pre.net_at(v, j), i);
                        assert(pre.in_net(pre.net_at(v, j), i));
                    }
                }
                assert(merged.window(
                    pre.a.len() as int,
                    merged.a.len() - pre.a.len(),
                ) =~= mid.window(pre.a.len() as int, mid.a.len() - pre.a.len()));
                assert forall|x: Index| pre.is_net(x) implies (pre.met(v, k + 1, x) <==> (x == e
                    || pre.met(v, k as int, x))) by {
                    if pre.met(v, k + 1, x) {
                        let j = choose|j: int| 0 <= j < k + 1 && pre.net_at(v, j) == x;
                        if j < k {
                            assert(pre.met(v, k as int, x));
                        }
                    }
                    if pre.met(v, k as int, x) {
                        let j = choose|j: int| 0 <= j < k && pre.net_at(v, j) == x;
                        assert(0 <= j < k + 1 && pre.net_at(v, j) == x);
                    }
                    if x == e {
                        assert(0 <= k < k + 1 && pre.net_at(v, k as int) == x);
                    }
                }
            }
            if !held {
                if copy {
                    assert(merged.a.len() == pre.a.len());
                    assert forall|i: int| pre.in_pin(u, i) implies merged.a[i] == pre.a[i] by {
                        assert(!pre.in_net(e, i));
                        if pre.touched(v, k as int, i) {
                            let j = choose|j: int| 0 <= j < k && pre.in_net(pre.net_at(v, j), i);
                            assert(pre.is_net(pre.net_at(v, j)));
                        }
                    }
                    let mut j: usize = 0;
                    while j < u_len
                        invariant
                            pre.wf(),
                            pre.is_pin(u),
                            u_idx == pre.pin_start(u),
                            u_len == pre.degree(u),
                            j <= u_len,
                            merged.a.len() == pre.a.len(),
                            self.a.len() == pre.a.len() + j,
                            self@.a.take(pre.a.len() as int) == merged.a,
                            forall|i: int| pre.in_pin(u, i) ==> merged.a[i] == pre.a[i],
                            self@.a.subrange(pre.a.len() as int, self.a.len() as int)
                                == pre.nets_of(u).take(j as int),
                            self@.v == merged.v,
                            self@.e == merged.e,
                            self@.c == merged.c,
                            self@.w == merged.w,
                            self@.enabled == merged.enabled,
                            self@.num_disabled == merged.num_disabled,
                        decreases u_len - j,
                    {
                        assert(pre.in_pin(u, u_idx + j));
                        assert(self@.a.take(pre.a.len() as int)[u_idx + j] == merged.a[u_idx + j]);
                        let x = self.a[u_idx + j];
                        self.a.push(x);
                        j += 1;
                        assert(self@.a.take(pre.a.len() as int) =~= merged.a);
                        assert(self@.a.subrange(pre.a.len() as int, self.a.len() as int)
                            =~= pre.nets_of(u).take(j as int));
                    }
                    self.v.set(u as usize, (self.a.len() - u_len, u_len));
                    copy = false;
                    assert(self@.a =~= merged.a + pre.nets_of(u)) by {
                        let tail = self@.a.subrange(pre.a.len() as int, self.a.len() as int);
                        assert(pre.nets_of(u).take(u_len as int) =~= pre.nets_of(u));
                        assert forall|i: int| 0 <= i < self@.a.len() implies self@.a[i] == (merged.a
                            + pre.nets_of(u))[i] by {
                            if i < pre.a.len() {
                                assert(self@.a.take(pre.a.len() as int)[i] == self@.a[i]);
                            } else {
                                assert(tail[i - pre.a.len()] == self@.a[i]);
                            }
                        }
                    }
                } else {
                    assert(self@.a == merged.a);
                    assert(self@.v[u as int] == (
                        pre.a.len() as usize,
                        (pre.degree(u) + gained_before.len()) as usize,
                    ));
                }
                let ghost grown = self@;
                assert(grown.a.len() == pre.a.len() + pre.degree(u) + gained_before.len());
                assert(grown.window(pre.a.len() as int, pre.degree(u) + gained_before.len())
                    =~= pre.nets_of(u) + gained_before) by {
                    if gained_before.len() > 0 {
                        assert(grown.window(
                            pre.a.len() as int,
                            pre.degree(u) + gained_before.len(),
                        ) =~= mid.window(pre.a.len() as int, pre.degree(u) + gained_before.len()));
                    }
                }
                self.a.push(e);
                let slot = self.v[u as usize];
                self.v.set(u as usize, (slot.0, slot.1 + 1));
            } else {
                self.e.set(e as usize, (e_idx, e_len - 1));
            }
            k += 1;
            proof {
                let next = self@;
                let gained = pre.gained_upto(u, v, k as int);
                assert(next.a.take(merged.a.len() as int) =~= merged.a);
                assert forall|j: int| 0 <= j < k implies next.window(
                    pre.net_start(#[trigger] pre.net_at(v, j)),
                    pre.net_size(pre.net_at(v, j)),
                ) == rewritten(pre.pins_of(pre.net_at(v, j)), u, v) by {
                    let ej = pre.net_at(v, j);
                    assert(pre.is_net(ej));
                    assert(pre.net_start(ej) + pre.net_size(ej) <= pre.a.len());
                    assert(next.window(pre.net_start(ej), pre.net_size(ej)) =~= merged.window(
                        pre.net_start(ej),
                        pre.net_size(ej),
                    ));
                }
                if !held {
                    assert(gained == gained_before.push(e));
                    assert(next.window(pre.a.len() as int, pre.degree(u) + gained.len())
                        =~= (pre.nets_of(u) + gained_before).push(e));
                    assert((pre.nets_of(u) + gained_before).push(e) =~= pre.nets_of(u) + gained);
                } else {
                    assert(gained == gained_before);
                    assert(next.a == merged.a);
                }
                assert forall|i: int|
                    0 <= i < pre.a.len() && !pre.touched(v, k as int, i) implies #[trigger] next.a[i]
                    == pre.a[i] by {
                    assert(next.a[i] == merged.a[i]);
                }
                assert forall|x: Index| pre.is_net(x) implies #[trigger] next.e[x as int] == if pre.met(
                    v,
                    k as int,
                    x,
                ) && pre.nets_of(u).contains(x) {
                    (pre.e[x as int].0, (pre.e[x as int].1 - 1) as usize)
                } else {
                    pre.e[x as int]
                } by {
                    if x != e {
                        assert(next.e[x as int] == mid.e[x as int]);
                    }
                }
                let block = if gained.len() == 0 {
                    0
                } else {
                    pre.degree(u) + gained.len()
                };
                assert(next.w == pre.w);
                assert(next.c == pre.c.update(u as int, (pre.c[u as int] + pre.c[v as int]) as u64));
                assert(next.a.len() == pre.a.len() + block);
                assert(next.v == if gained.len() == 0 {
                    pre.v
                } else {
                    pre.v.update(u as int, (pre.a.len() as usize, block as usize))
                }) by {
                    if !held {
                        assert(next.v =~= pre.v.update(
                            u as int,
                            (pre.a.len() as usize, block as usize),
                        ));
                    }
                }
                assert(gained.len() > 0 ==> next.window(pre.a.len() as int, block) == pre.nets_of(u)
                    + gained);
                assert(pre.merged_upto(next, u, v, k as int));
            }
        }
        assert(pre.nets_of(v).take(v_len as int) =~= pre.nets_of(v));
        assert(self@.a.len() == self.a.len());
        bits_set(&mut self.v_enabled, v as usize, false);
        self.num_disabled += 1;
        proof {
            lemma_round_trip(pre, self@, u, v);
            lemma_contract_lists(pre, self@, u, v);
            assert forall|ms: Seq<Memento>| #[trigger] pre.replayable(ms) implies self@.replayable(
                ms.push(m),
            ) by {
                lemma_contract_replayable(pre, self@, u, v, ms);
            }
        }
        m
    }

    /// Undoes the contraction that `m` records, which must be the latest one
    /// not yet undone.
    pub fn uncontract(&mut self, m: Memento)
        requires
            old(self)@.undoable(m),
        ensures
            final(self)@ == old(self)@.uncontracted(m),
            final(self)@.wf(),
    {
        let ghost pre = self@;
        proof {
            lemma_undoable_facts(pre, m);
        }
        let u = m.u;
        let v = m.v;
        bits_set(&mut self.v_enabled, v as usize, true);
        self.num_disabled -= 1;
        let ghost base = self@;
        let num_e = self.e.len();
        let mut b = bits_repeat(false, num_e);
        let v_idx = self.v[v as usize].0;
        let v_len = self.v[v as usize].1;
        assert(pre.pin_start(v) + pre.degree(v) <= pre.a.len());
        assert(pre.pin_start(u) + pre.degree(u) <= pre.a.len());

        let mut k: usize = 0;
        while k < v_len
            invariant
                pre.wf(),
                pre.is_pin(v),
                v_idx == pre.pin_start(v),
                v_len == pre.degree(v),
                v_idx + v_len <= pre.a.len(),
                k <= v_len,
                self@ == base,
                base.a == pre.a,
                bits_of(b).len() == pre.e.len(),
                forall|x: Index| pre.is_net(x) ==> bits_of(b)[x as int] == pre.met(v, k as int, x),
            decreases v_len - k,
        {
            let e = self.a[v_idx + k];
            assert(e == pre.net_at(v, k as int));
            assert(pre.is_net(e));
            let ghost before = bits_of(b);
            bits_set(&mut b, e as usize, true);
            proof {
                assert forall|x: Index| pre.is_net(x) implies bits_of(b)[x as int] == pre.met(
                    v,
                    k + 1,
                    x,
                ) by {
                    if pre.met(v, k + 1, x) {
                        let j = choose|j: int| 0 <= j < k + 1 && pre.net_at(v, j) == x;
                        if j < k {
                            assert(pre.met(v, k as int, x));
                        }
                    }
                    if pre.met(v, k as int, x) {
                        let j = choose|j: int| 0 <= j < k && pre.net_at(v, j) == x;
                        assert(0 <= j < k + 1 && pre.net_at(v, j) == x);
                    }
                    if x == e {
                        assert(0 <= k < k + 1 && pre.net_at(v, k as int) == x);
                    }
                }
            }
            k += 1;
        }
        proof {
            assert forall|x: Index| pre.is_net(x) implies (pre.met(v, v_len as int, x)
                <==> pre.nets_of(v).contains(x)) by {
                if pre.met(v, v_len as int, x) {
                    let j = choose|j: int| 0 <= j < v_len && pre.net_at(v, j) == x;
                    assert(pre.nets_of(v)[j] == x);
                }
                if pre.nets_of(v).contains(x) {
                    let j = choose|j: int| 0 <= j < pre.nets_of(v).len() && pre.nets_of(v)[j] == x;
                    assert(pre.net_at(v, j) == x);
                }
            }
        }

        let mut k: usize = 0;
        while k < m.u_len
            invariant
                pre.wf(),
                m.u_idx + m.u_len <= pre.a.len(),
                k <= m.u_len,
                self@ == base,
                base.a == pre.a,
                bits_of(b).len() == pre.e.len(),
                forall|j: int|
                    m.u_idx <= j < m.u_idx + m.u_len ==> pre.is_net(#[trigger] pre.a[j]),
                forall|x: Index|
                    pre.is_net(x) ==> bits_of(b)[x as int] == (pre.nets_of(v).contains(x)
                        && !pre.old_nets(m).take(k as int).contains(x)),
            decreases m.u_len - k,
        {
            let e = self.a[m.u_idx + k];
            assert(pre.is_net(pre.a[m.u_idx + k]));
            assert(e == pre.old_nets(m)[k as int]);
            bits_set(&mut b, e as usize, false);
            proof {
                let shorter = pre.old_nets(m).take(k as int);
                let longer = pre.old_nets(m).take(k + 1);
                assert(longer =~= shorter.push(e));
                assert forall|x: Index| longer.contains(x) <==> (x == e || shorter.contains(
                    x,
                )) by {
                    if longer.contains(x) {
                        let j = choose|j: int| 0 <= j < longer.len() && longer[j] == x;
                        if j < k {
                            assert(shorter[j] == x);
                        }
                    }
                    if shorter.contains(x) {
                        let j = choose|j: int| 0 <= j < shorter.len() && shorter[j] == x;
                        assert(longer[j] == x);
                    }
                    if x == e {
                        assert(longer[k as int] == x);
                    }
                }
            }
            k += 1;
        }
        assert(pre.old_nets(m).take(m.u_len as int) =~= pre.old_nets(m));
        assert(forall|x: Index| pre.is_net(x) ==> bits_of(b)[x as int] == pre.taken(m, x));

        let u_idx_now = self.v[u as usize].0;
        let u_len_now = self.v[u as usize].1;
        if u_len_now > m.u_len {
            let mut k: usize = 0;
            while k < u_len_now
                invariant
                    pre.wf(),
                    pre.is_pin(u),
                    u == m.u,
                    v == m.v,
                    u != v,
                    u_idx_now == pre.pin_start(u),
                    u_len_now == pre.degree(u),
                    u_idx_now + u_len_now <= pre.a.len(),
                    k <= u_len_now,
                    self@.v == base.v,
                    self@.e == base.e,
                    self@.c == base.c,
                    self@.w == base.w,
                    self@.enabled == base.enabled,
                    self@.num_disabled == base.num_disabled,
                    base.e == pre.e,
                    bits_of(b).len() == pre.e.len(),
                    forall|x: Index| pre.is_net(x) ==> bits_of(b)[x as int] == pre.taken(m, x),
                    self@.a.len() == pre.a.len(),
                    forall|i: int|
                        0 <= i < pre.a.len() ==> #[trigger] self@.a[i] == if pre.patched_upto(
                            m,
                            k as int,
                            i,
                        ) {
                            v
                        } else {
                            pre.a[i]
                        },
                decreases u_len_now - k,
            {
                let ghost mid = self@;
                proof {
                    assert(pre.in_pin(u, u_idx_now + k));
                    assert(!pre.patched_upto(m, k as int, u_idx_now + k)) by {
                        if pre.patched_upto(m, k as int, u_idx_now + k) {
                            let j = choose|j: int|
                                0 <= j < k && pre.taken(m, pre.net_at(m.u, j)) && pre.in_net(
                                    #[trigger] pre.net_at(m.u, j),
                                    u_idx_now + k,
                                );
                            assert(pre.is_net(pre.net_at(m.u, j)));
                        }
                    }
                }
                let e = self.a[u_idx_now + k];
                assert(e == pre.net_at(u, k as int));
                assert(pre.is_net(e));
                if bits_get(&b, e as usize) {
                    let e_idx = self.e[e as usize].0;
                    let e_len = self.e[e as usize].1;
                    proof {
                        assert(pre.net_start(e) + pre.net_size(e) <= pre.a.len());
                        assert(pre.nets_of(u).no_duplicates());
                        assert(pre.nets_of(u)[k as int] == e);
                        assert forall|i: int| pre.in_net(e, i) implies mid.a[i] == pre.a[i] by {
                            if pre.patched_upto(m, k as int, i) {
                                let j = choose|j: int|
                                    0 <= j < k && pre.taken(m, pre.net_at(m.u, j)) && pre.in_net(
                                        #[trigger] pre.net_at(m.u, j),
                                        i,
                                    );
                                assert(pre.is_net(pre.net_at(m.u, j)));
                                assert(pre.nets_of(u)[j] == pre.net_at(m.u, j));
                            }
                        }
                    }
                    let at = find(&self.a, e_idx, e_idx + e_len, u);
                    if at < e_idx + e_len {
                        self.a.set(at, v);
                    }
                    proof {
                        assert(pre.pins_of(e).no_duplicates());
                        assert forall|i: int| 0 <= i < pre.a.len() implies #[trigger] self@.a[i]
                            == if pre.patched_upto(m, k + 1, i) {
                            v
                        } else {
                            pre.a[i]
                        } by {
                            if pre.in_net(e, i) {
                                assert(mid.a[i] == pre.a[i]);
                                if pre.a[i] == u {
                                    assert(pre.pins_of(e)[i - e_idx] == u);
                                    if at < e_idx + e_len {
                                        assert(pre.pins_of(e)[at - e_idx] == u);
                                    }
                                    assert(i == at);
                                    assert(pre.taken(m, pre.net_at(m.u, k as int)) && pre.in_net(
                                        pre.net_at(m.u, k as int),
                                        i,
                                    ));
                                    assert(pre.patched_upto(m, k + 1, i));
                                } else {
                                    if at < e_idx + e_len {
                                        assert(pre.in_net(e, at as int));
                                        assert(mid.a[at as int] == pre.a[at as int]);
                                    }
                                    assert(i != at);
                                }
                            } else {
                                assert(at < e_idx + e_len ==> i != at);
                                if pre.patched_upto(m, k + 1, i) {
                                    let j = choose|j: int|
                                        0 <= j < k + 1 && pre.taken(m, pre.net_at(m.u, j))
                                            && pre.in_net(#[trigger] pre.net_at(m.u, j), i);
                                    assert(j < k);
                                    assert(pre.patched_upto(m, k as int, i));
                                }
                                if pre.patched_upto(m, k as int, i) {
                                    let j = choose|j: int|
                                        0 <= j < k && pre.taken(m, pre.net_at(m.u, j)) && pre.in_net(
                                            #[trigger] pre.net_at(m.u, j),
                                            i,
                                        );
                                    assert(0 <= j < k + 1 && pre.taken(m, pre.net_at(m.u, j))
                                        && pre.in_net(pre.net_at(m.u, j), i));
                                }
                            }
                        }
                    }
                } else {
                    proof {
                        assert forall|i: int| 0 <= i < pre.a.len() implies (pre.patched_upto(
                            m,
                            k + 1,
                            i,
                        ) <==> pre.patched_upto(m, k as int, i)) by {
                            if pre.patched_upto(m, k + 1, i) {
                                let j = choose|j: int|
                                    0 <= j < k + 1 && pre.taken(m, pre.net_at(m.u, j)) && pre.in_net(
                                        #[trigger] pre.net_at(m.u, j),
                                        i,
                                    );
                                assert(j < k);
                            }
                            if pre.patched_upto(m, k as int, i) {
                                let j = choose|j: int|
                                    0 <= j < k && pre.taken(m, pre.net_at(m.u, j)) && pre.in_net(
                                        #[trigger] pre.net_at(m.u, j),
                                        i,
                                    );
                                assert(0 <= j < k + 1 && pre.taken(m, pre.net_at(m.u, j))
                                    && pre.in_net(pre.net_at(m.u, j), i));
                            }
                        }
                    }
                }
                k += 1;
            }
            proof {
                assert forall|i: int| 0 <= i < pre.a.len() implies (pre.patched_upto(
                    m,
                    u_len_now as int,
                    i,
                ) <==> pre.patched(m, i)) by {
                    if pre.patched_upto(m, u_len_now as int, i) {
                        let j = choose|j: int|
                            0 <= j < u_len_now && pre.taken(m, pre.net_at(m.u, j)) && pre.in_net(
                                #[trigger] pre.net_at(m.u, j),
                                i,
                            );
                        assert(pre.is_net(pre.net_at(m.u, j)));
                    }
                    if pre.patched(m, i) {
                        let e = choose|e: Index|
                            pre.is_net(e) && pre.taken(m, e) && #[trigger] pre.in_net(e, i);
                        assert(pre.pins_of(e)[i - pre.net_start(e)] == u);
                        assert(pre.pins_of(e).contains(u));
                        assert(pre.nets_of(u).contains(e));
                        let j = choose|j: int|
                            0 <= j < pre.nets_of(u).len() && pre.nets_of(u)[j] == e;
                        assert(pre.net_at(m.u, j) == e);
                    }
                }
            }
        }
        assert(self@.a =~= pre.uncontracted(m).a);
        let ghost patched = self@;

        self.v.set(u as usize, (m.u_idx, m.u_len));
        let c_v = self.c[v as usize];
        let c_u = self.c[u as usize];
        self.c.set(u as usize, c_u - c_v);

        let mut k: usize = 0;
        while k < v_len
            invariant
                pre.wf(),
                pre.is_pin(v),
                v == m.v,
                v_idx == pre.pin_start(v),
                v_len == pre.degree(v),
                v_idx + v_len <= pre.a.len(),
                k <= v_len,
                self@.a == pre.uncontracted(m).a,
                self@.v == pre.uncontracted(m).v,
                self@.c == pre.uncontracted(m).c,
                self@.w == pre.w,
                self@.enabled == pre.uncontracted(m).enabled,
                self@.num_disabled == pre.uncontracted(m).num_disabled,
                self@.e.len() == pre.e.len(),
                bits_of(b).len() == pre.e.len(),
                forall|x: Index| pre.is_net(x) ==> bits_of(b)[x as int] == pre.taken(m, x),
                forall|e: Index|
                    pre.is_net(e) && #[trigger] pre.shrunk(m, e) ==> pre.net_start(e) + pre.net_size(
                        e,
                    ) + 1 <= pre.a.len(),
                forall|x: Index|
                    pre.is_net(x) ==> #[trigger] self@.e[x as int] == if pre.shrunk(m, x) && pre.met(
                        v,
                        k as int,
                        x,
                    ) {
                        (pre.e[x as int].0, (pre.e[x as int].1 + 1) as usize)
                    } else {
                        pre.e[x as int]
                    },
            decreases v_len - k,
        {
            proof {
                assert(pre.in_pin(v, v_idx + k));
                assert(!pre.patched(m, v_idx + k)) by {
                    if pre.patched(m, v_idx + k) {
                        let e = choose|e: Index|
                            pre.is_net(e) && pre.taken(m, e) && #[trigger] pre.in_net(e, v_idx + k);
                    }
                }
            }
            let e = self.a[v_idx + k];
            assert(e == pre.net_at(v, k as int));
            assert(pre.is_net(e));
            proof {
                assert(pre.nets_of(v).no_duplicates());
                assert(pre.nets_of(v)[k as int] == e);
                assert(pre.nets_of(v).contains(e));
                assert(!pre.met(v, k as int, e)) by {
                    if pre.met(v, k as int, e) {
                        let j = choose|j: int| 0 <= j < k && pre.net_at(v, j) == e;
                        assert(pre.nets_of(v)[j] == e);
                    }
                }
                assert forall|x: Index| pre.is_net(x) implies (pre.met(v, k + 1, x) <==> (x == e
                    || pre.met(v, k as int, x))) by {
                    if pre.met(v, k + 1, x) {
                        let j = choose|j: int| 0 <= j < k + 1 && pre.net_at(v, j) == x;
                        if j < k {
                            assert(pre.met(v, k as int, x));
                        }
                    }
                    if pre.met(v, k as int, x) {
                        let j = choose|j: int| 0 <= j < k && pre.net_at(v, j) == x;
                        assert(0 <= j < k + 1 && pre.net_at(v, j) == x);
                    }
                    if x == e {
                        assert(0 <= k < k + 1 && pre.net_at(v, k as int) == x);
                    }
                }
            }
            if !bits_get(&b, e as usize) {
                assert(pre.shrunk(m, e));
                let slot = self.e[e as usize];
                self.e.set(e as usize, (slot.0, slot.1 + 1));
            }
            k += 1;
        }
        proof {
            assert forall|x: Index| pre.is_net(x) && pre.shrunk(m, x) implies pre.met(
                v,
                v_len as int,
                x,
            ) by {
                let j = choose|j: int| 0 <= j < pre.nets_of(v).len() && pre.nets_of(v)[j] == x;
                assert(pre.net_at(v, j) == x);
            }
            assert forall|i: int| 0 <= i < pre.e.len() implies self@.e[i] == pre.uncontracted(
                m,
            ).e[i] by {
                let x = i as Index;
                assert(pre.is_net(x));
                assert(self@.e[x as int] == pre.uncontracted(m).e[x as int]);
            }
            assert(self@.e =~= pre.uncontracted(m).e);
            assert(self@ == pre.uncontracted(m));
        }
    }

    /// Assembles a structure from its seven parts, as they are.
    pub fn from_parts(
        v: Vec<(usize, usize)>,
        e: Vec<(usize, usize)>,
        a: Vec<Index>,
        enabled: Vec<bool>,
        num_disabled: usize,
        c: Vec<u64>,
        w: Vec<u64>,
    ) -> (h: Self)
        requires
            (Layout {
                v: v@,
                e: e@,
                a: a@,
                enabled: enabled@,
                num_disabled: num_disabled as nat,
                c: c@,
                w: w@,
            }).wf(),
        ensures
            h@ == (Layout {
                v: v@,
                e: e@,
                a: a@,
                enabled: enabled@,
                num_disabled: num_disabled as nat,
                c: c@,
                w: w@,
            }),
    {
        let v_enabled = bits_from(&enabled);
        Bipartite { v, e, a, v_enabled, num_disabled, c, w }
    }

    /// Whether pin `v` has not been absorbed.
    pub fn enabled(&self, v: Index) -> (b: bool)
        requires
            self@.sized(),
            self@.is_pin(v),
        ensures
            b == self@.enabled[v as int],
    {
        bits_get(&self.v_enabled, v as usize)
    }

    /// The capacity of the enabled pin `v`.
    pub fn capacity(&self, v: Index) -> (c: u64)
        requires
            self@.sized(),
            self@.is_pin(v),
            self@.enabled[v as int],
        ensures
            c == self@.c[v as int],
    {
        self.c[v as usize]
    }

    /// The weight of net `e`.
    pub fn weight(&self, e: Index) -> (w: u64)
        requires
            self@.sized(),
            self@.is_net(e),
        ensures
            w == self@.w[e as int],
    {
        self.w[e as usize]
    }

    /// The number of enabled pins.
    pub fn num_pins(&self) -> (n: usize)
        requires
            self@.sized(),
        ensures
            n == self@.num_pins(),
    {
        proof {
            lemma_count_false_bound(self@.enabled);
        }
        self.v.len() - self.num_disabled
    }

    /// The size of the pin index space, absorbed pins included.
    pub fn pin_index_space_size(&self) -> (n: usize)
        ensures
            n == self@.v.len(),
    {
        self.v.len()
    }

    /// The number of nets.
    pub fn num_nets(&self) -> (n: usize)
        ensures
            n == self@.e.len(),
    {
        self.e.len()
    }

    /// How many nets pin `v` lists.
    pub fn degree(&self, v: Index) -> (d: usize)
        requires
            self@.is_pin(v),
        ensures
            d == self@.degree(v),
    {
        self.v[v as usize].1
    }

    /// The `k`-th net of pin `v`.
    pub fn incident_net(&self, v: Index, k: usize) -> (e: Index)
        requires
            self@.safe(),
            self@.is_pin(v),
            k < self@.degree(v),
        ensures
            e == self@.net_at(v, k as int),
            e == self@.nets_of(v)[k as int],
            self@.is_net(e),
    {
        assert(self@.pin_start(v) + self@.degree(v) <= self@.a.len());
        assert(self@.is_net(self@.net_at(v, k as int)));
        let start = self.v[v as usize].0;
        assert(start + k < self.a.len());
        self.a[start + k]
    }

    /// How many pins net `e` lists.
    pub fn net_size(&self, e: Index) -> (d: usize)
        requires
            self@.is_net(e),
        ensures
            d == self@.net_size(e),
    {
        self.e[e as usize].1
    }

    /// The `k`-th pin of net `e`.
    pub fn pin_in_net(&self, e: Index, k: usize) -> (p: Index)
        requires
            self@.safe(),
            self@.is_net(e),
            k < self@.net_size(e),
        ensures
            p == self@.pin_at(e, k as int),
            p == self@.pins_of(e)[k as int],
            self@.is_pin(p),
            self@.incident() ==> self@.enabled[p as int],
    {
        assert(self@.net_start(e) + self@.net_size(e) <= self@.a.len());
        assert(self@.is_pin(self@.pin_at(e, k as int)));
        let start = self.e[e as usize].0;
        assert(start + k < self.a.len());
        self.a[start + k]
    }

    /// The pins that share a net with pin `v`: for each net of `v` in turn
    /// its pins in stored order, `v` itself left out. A pin that shares
    /// several nets with `v` comes once for each.
    pub fn incident_pins(&self, v: Index) -> (pins: Vec<Index>)
        requires
            self@.safe(),
            self@.is_pin(v),
        ensures
            pins@ == self@.neighbors(v),
            forall|i: int| 0 <= i < pins.len() ==> self@.is_pin(#[trigger] pins[i]) && pins[i] != v,
            self@.incident() ==> forall|i: int|
                0 <= i < pins.len() ==> self@.enabled[#[trigger] pins[i] as int],
    {
        let d = self.degree(v);
        let mut pins: Vec<Index> = Vec::new();
        let mut k: usize = 0;
        while k < d
            invariant
                self@.safe(),
                self@.is_pin(v),
                d == self@.degree(v),
                k <= d,
                pins@ == self@.neighbors_upto(v, k as nat),
                forall|i: int|
                    0 <= i < pins.len() ==> self@.is_pin(#[trigger] pins[i]) && pins[i] != v,
                self@.incident() ==> forall|i: int|
                    0 <= i < pins.len() ==> self@.enabled[#[trigger] pins[i] as int],
            decreases d - k,
        {
            let e = self.incident_net(v, k);
            let n = self.net_size(e);
            let ghost before = pins@;
            let mut j: usize = 0;
            proof {
                reveal(Seq::filter);
                assert(self@.pins_of(e).take(0) =~= Seq::<Index>::empty());
                assert(before + Seq::<Index>::empty() =~= before);
            }
            while j < n
                invariant
                    self@.safe(),
                    self@.is_net(e),
                    n == self@.net_size(e),
                    j <= n,
                    pins@ == before + self@.pins_of(e).take(j as int).filter(is_not(v)),
                    forall|i: int|
                        0 <= i < pins.len() ==> self@.is_pin(#[trigger] pins[i]) && pins[i] != v,
                    self@.incident() ==> forall|i: int|
                        0 <= i < pins.len() ==> self@.enabled[#[trigger] pins[i] as int],
                decreases n - j,
            {
                let p = self.pin_in_net(e, j);
                proof {
                    let seen = self@.pins_of(e).take(j as int);
                    assert(self@.pins_of(e).take(j + 1) =~= seen.push(p));
                    lemma_filter_push(seen, p, is_not(v));
                }
                if p != v {
                    pins.push(p);
                    assert(pins@ =~= before + self@.pins_of(e).take(j + 1).filter(is_not(v)));
                }
                j += 1;
            }
            assert(self@.pins_of(e).take(n as int) =~= self@.pins_of(e));
            k += 1;
        }
        pins
    }

    /// The enabled pins, in rising order.
    pub fn pins(&self) -> (pins: Vec<Index>)
        requires
            self@.sized(),
        ensures
            pins@ == self@.pins_upto(self@.v.len()),
    {
        let n = self.v.len();
        let mut pins: Vec<Index> = Vec::new();
        let mut p: usize = 0;
        while p < n
            invariant
                self@.sized(),
                n == self@.v.len(),
                p <= n,
                pins@ == self@.pins_upto(p as nat),
            decreases n - p,
        {
            if bits_get(&self.v_enabled, p) {
                pins.push(p as Index);
            }
            p += 1;
        }
        pins
    }

    /// The nets, in rising order.
    pub fn nets(&self) -> (nets: Vec<Index>)
        requires
            self@.sized(),
        ensures
            nets@ == Seq::new(self@.e.len(), |i: int| i as Index),
    {
        let n = self.e.len();
        let mut nets: Vec<Index> = Vec::new();
        let mut e: usize = 0;
        while e < n
            invariant
                n == self@.e.len(),
                n <= u32::MAX,
                e <= n,
                nets@ == Seq::new(e as nat, |i: int| i as Index),
            decreases n - e,
        {
            nets.push(e as Index);
            e += 1;
            assert(nets@ =~= Seq::new(e as nat, |i: int| i as Index));
        }
        nets
    }

    /// The summed capacity of the enabled pins.
    pub fn total_capacity(&self) -> (total: u64)
        requires
            self@.sized(),
            self@.weighed(),
        ensures
            total == self@.total_capacity(),
    {
        let n = self.v.len();
        let mut total: u64 = 0;
        let mut p: usize = 0;
        while p < n
            invariant
                self@.sized(),
                self@.weighed(),
                n == self@.v.len(),
                p <= n,
                total == crate::layout::masked_sum(self@.c, self@.enabled, p as nat),
            decreases n - p,
        {
            proof {
                lemma_sums_monotone(self@.c, self@.enabled, Seq::empty(), true, (p + 1) as nat, n as nat);
            }
            if bits_get(&self.v_enabled, p) {
                total = total + self.c[p];
            }
            p += 1;
        }
        total
    }

    /// The largest capacity that a side of a balanced bipartition may have,
    /// for a tolerance of `epsilon` millionths.
    pub fn size_constraint(&self, epsilon: u32) -> (limit: u128)
        requires
            self@.sized(),
            self@.weighed(),
        ensures
            limit == self@.size_constraint(epsilon as nat),
    {
        let total: u128 = self.total_capacity() as u128;
        let factor: u128 = EPSILON_UNIT as u128 + epsilon as u128;
        assert(factor * total <= 0x1_000f_4240 * 0xffff_ffff_ffff_ffff) by (nonlinear_arith)
            requires
                factor <= 0x1_000f_4240,
                total <= 0xffff_ffff_ffff_ffff,
        ;
        factor * total / (2 * EPSILON_UNIT as u128)
    }

    /// Whether net `e` lists pin `p`.
    pub fn net_lists(&self, e: Index, p: Index) -> (found: bool)
        requires
            self@.safe(),
            self@.is_net(e),
        ensures
            found == self@.pins_of(e).contains(p),
    {
        let n = self.net_size(e);
        let mut k: usize = 0;
        while k < n
            invariant
                self@.safe(),
                self@.is_net(e),
                n == self@.net_size(e),
                k <= n,
                forall|j: int| 0 <= j < k ==> self@.pins_of(e)[j] != p,
            decreases n - k,
        {
            if self.pin_in_net(e, k) == p {
                return true;
            }
            k += 1;
        }
        false
    }

    /// Whether net `e` has pins on both sides of `p`.
    pub fn cuts(&self, p: &Bipartition, e: Index) -> (cut: bool)
        requires
            self@.safe(),
            self@.is_net(e),
            p@.len() == self@.v.len(),
        ensures
            cut == self@.is_cut(p@, e),
    {
        let n = self.net_size(e);
        let ghost pins = self@.pins_of(e);
        if n == 0 {
            return false;
        }
        let first = p[self.pin_in_net(e, 0) as usize];
        let mut k: usize = 1;
        while k < n
            invariant
                self@.safe(),
                self@.is_net(e),
                p@.len() == self@.v.len(),
                pins == self@.pins_of(e),
                n == self@.net_size(e),
                1 <= k <= n,
                first == p@[pins[0] as int],
                forall|j: int| 0 <= j < k ==> p@[#[trigger] pins[j] as int] == first,
            decreases n - k,
        {
            let q = self.pin_in_net(e, k);
            if p[q as usize] != first {
                assert(pins.contains(pins[0]) && pins.contains(pins[k as int]));
                return true;
            }
            k += 1;
        }
        proof {
            if self@.is_cut(p@, e) {
                let (x, y) = choose|x: Index, y: Index|
                    #![trigger pins.contains(x), pins.contains(y)]
                    pins.contains(x) && pins.contains(y) && p@[x as int] != p@[y as int];
                let i = choose|i: int| 0 <= i < pins.len() && pins[i] == x;
                let j = choose|j: int| 0 <= j < pins.len() && pins[j] == y;
                assert(p@[pins[i] as int] == first);
                assert(p@[pins[j] as int] == first);
            }
        }
        false
    }

    /// Evaluates a bipartition: the capacity of the heavier side, and the
    /// summed weight of the nets that have pins on both sides.
    pub fn evaluate_bipartition(&self, p: &Bipartition) -> (eval: (u64, u64))
        requires
            self@.safe(),
            self@.weighed(),
            p@.len() == self@.v.len(),
        ensures
            eval.0 == self@.imbalance(p@),
            eval.1 == self@.cut_weight(p@),
    {
        let num_e = self.e.len();
        let mut cut_weight: u64 = 0;
        let mut e: usize = 0;
        while e < num_e
            invariant
                self@.safe(),
                self@.weighed(),
                p@.len() == self@.v.len(),
                num_e == self@.e.len(),
                e <= num_e,
                cut_weight == self@.cut_sum(p@, e as nat),
            decreases num_e - e,
        {
            proof {
                lemma_cut_sum_bound(self@, p@, (e + 1) as nat);
                lemma_prefix_sum_monotone(self@.w, (e + 1) as nat, num_e as nat);
            }
            if self.cuts(p, e as Index) {
                cut_weight = cut_weight + self.w[e];
            }
            e += 1;
        }

        let n = self.v.len();
        let mut capacity1: u64 = 0;
        let mut capacity2: u64 = 0;
        let mut v: usize = 0;
        while v < n
            invariant
                self@.safe(),
                self@.weighed(),
                p@.len() == self@.v.len(),
                n == self@.v.len(),
                v <= n,
                capacity1 == crate::layout::side_sum(self@.c, self@.enabled, p@, true, v as nat),
                capacity2 == crate::layout::side_sum(self@.c, self@.enabled, p@, false, v as nat),
            decreases n - v,
        {
            proof {
                lemma_side_sum(self@.c, self@.enabled, p@, (v + 1) as nat);
                lemma_sums_monotone(self@.c, self@.enabled, p@, true, (v + 1) as nat, n as nat);
            }
            if bits_get(&self.v_enabled, v) {
                let c = self.c[v];
                if p[v] {
                    capacity1 = capacity1 + c;
                } else {
                    capacity2 = capacity2 + c;
                }
            }
            v += 1;
        }
        let imbalance = if capacity1 >= capacity2 {
            capacity1
        } else {
            capacity2
        };
        (imbalance, cut_weight)
    }

    /// The nets incident to pin `v`, in stored order.
    pub fn incident_nets(&self, v: Index) -> (nets: Vec<Index>)
        requires
            self@.safe(),
            self@.is_pin(v),
        ensures
            nets@ == self@.nets_of(v),
    {
        let n = self.degree(v);
        let mut nets: Vec<Index> = Vec::new();
        let mut k: usize = 0;
        while k < n
            invariant
                self@.safe(),
                self@.is_pin(v),
                n == self@.degree(v),
                k <= n,
                nets@ == self@.nets_of(v).take(k as int),
            decreases n - k,
        {
            let e = self.incident_net(v, k);
            nets.push(e);
            k += 1;
            assert(nets@ =~= self@.nets_of(v).take(k as int));
        }
        assert(nets@ =~= self@.nets_of(v));
        nets
    }

    /// The pins of net `e`, in stored order.
    pub fn pins_in_net(&self, e: Index) -> (pins: Vec<Index>)
        requires
            self@.safe(),
            self@.is_net(e),
        ensures
            pins@ == self@.pins_of(e),
    {
        let n = self.net_size(e);
        let mut pins: Vec<Index> = Vec::new();
        let mut k: usize = 0;
        while k < n
            invariant
                self@.safe(),
                self@.is_net(e),
                n == self@.net_size(e),
                k <= n,
                pins@ == self@.pins_of(e).take(k as int),
            decreases n - k,
        {
            let p = self.pin_in_net(e, k);
            pins.push(p);
            k += 1;
            assert(pins@ =~= self@.pins_of(e).take(k as int));
        }
        assert(pins@ =~= self@.pins_of(e));
        pins
    }
}

} // verus!
