//! The mathematical model of the incidence structure: the three index arrays
//! as sequences, what it means for them to describe a hypergraph, and what
//! contraction and its reversal do to them.

use vstd::prelude::*;

verus! {

/// Pins and nets are named by 32-bit indices.
pub type Index = u32;

/// The record of one contraction: the pin `u` that absorbed, the pin `v` that
/// was absorbed, and where `u`'s net list stood before.
#[derive(Clone, Copy, Debug, PartialEq, Eq)]
pub struct Memento {
    pub u: Index,
    pub v: Index,
    pub u_idx: usize,
    pub u_len: usize,
}

/// The incidence structure as plain sequences.
///
/// `v[p]` and `e[n]` are (offset, length) slices of the shared array `a`:
/// a pin's slice lists its nets, a net's slice lists its pins.
pub struct Layout {
    pub v: Seq<(usize, usize)>,
    pub e: Seq<(usize, usize)>,
    pub a: Seq<Index>,
    pub enabled: Seq<bool>,
    pub num_disabled: nat,
    pub c: Seq<u64>,
    pub w: Seq<u64>,
}

/// How many entries of `s` are `false`.
pub open spec fn count_false(s: Seq<bool>) -> nat
    decreases s.len(),
{
    if s.len() == 0 {
        0
    } else {
        count_false(s.drop_last()) + if s.last() { 0nat } else { 1nat }
    }
}

/// How many flags of `s` are set.
pub open spec fn count_set(s: Seq<bool>) -> int {
    s.len() - count_false(s)
}

/// The sum of the first `n` entries of `c` whose flag in `on` is set.
pub open spec fn masked_sum(c: Seq<u64>, on: Seq<bool>, n: nat) -> nat
    decreases n,
{
    if n == 0 {
        0
    } else {
        masked_sum(c, on, (n - 1) as nat) + if on[n - 1] { c[n - 1] as nat } else { 0nat }
    }
}

/// The sum of those of the first `n` entries of `c` whose flag in `on` is
/// set and whose label is `side`.
pub open spec fn side_sum(c: Seq<u64>, on: Seq<bool>, labels: Seq<bool>, side: bool, n: nat) -> nat
    decreases n,
{
    if n == 0 {
        0
    } else {
        side_sum(c, on, labels, side, (n - 1) as nat) + if on[n - 1] && labels[n - 1] == side {
            c[n - 1] as nat
        } else {
            0nat
        }
    }
}

/// The balance tolerance is given in millionths.
pub const EPSILON_UNIT: u64 = 1_000_000;

/// The largest capacity that a side may have when the pins weigh `total`
/// together and the tolerance is `epsilon` millionths: `(1 + epsilon)`
/// times half the total, rounded down.
pub open spec fn size_limit(total: nat, epsilon: nat) -> nat {
    ((1_000_000 + epsilon) * total / 2_000_000) as nat
}

/// The sum of the first `n` entries of `w`.
pub open spec fn prefix_sum(w: Seq<u64>, n: nat) -> nat
    decreases n,
{
    if n == 0 {
        0
    } else {
        prefix_sum(w, (n - 1) as nat) + w[n - 1] as nat
    }
}

/// The summed length of the first `i` nets.
pub open spec fn offset(nets: Seq<Seq<Index>>, i: nat) -> nat
    decreases i,
{
    if i == 0 {
        0
    } else {
        offset(nets, (i - 1) as nat) + nets[i - 1].len()
    }
}

/// Those of the first `k` nets that list pin `p`, in rising order.
pub open spec fn nets_holding(nets: Seq<Seq<Index>>, p: Index, k: nat) -> Seq<Index>
    decreases k,
{
    if k == 0 {
        Seq::empty()
    } else {
        let rest = nets_holding(nets, p, (k - 1) as nat);
        if nets[k - 1].contains(p) {
            rest.push((k - 1) as Index)
        } else {
            rest
        }
    }
}

/// The pin lists of the first `k` nets, one after the other.
pub open spec fn nets_flat(nets: Seq<Seq<Index>>, k: nat) -> Seq<Index>
    decreases k,
{
    if k == 0 {
        Seq::empty()
    } else {
        nets_flat(nets, (k - 1) as nat) + nets[k - 1]
    }
}

/// The net lists of the first `p` pins, one after the other.
pub open spec fn pins_flat(nets: Seq<Seq<Index>>, p: nat) -> Seq<Index>
    decreases p,
{
    if p == 0 {
        Seq::empty()
    } else {
        pins_flat(nets, (p - 1) as nat) + nets_holding(nets, (p - 1) as Index, nets.len())
    }
}

/// The structure of a hypergraph as construction lays it out: the nets'
/// pin lists one after the other in `a`, behind them each pin's net list,
/// the pins in rising order and each pin's nets in rising order.
pub open spec fn built(capacities: Seq<u64>, weights: Seq<u64>, nets: Seq<Seq<Index>>) -> Layout {
    Layout {
        v: Seq::new(
            capacities.len(),
            |p: int|
                (
                    (offset(nets, nets.len()) + pins_flat(nets, p as nat).len()) as usize,
                    nets_holding(nets, p as Index, nets.len()).len() as usize,
                ),
        ),
        e: Seq::new(nets.len(), |e: int| (offset(nets, e as nat) as usize, nets[e].len() as usize)),
        a: nets_flat(nets, nets.len()) + pins_flat(nets, capacities.len()),
        enabled: Seq::new(capacities.len(), |i: int| true),
        num_disabled: 0,
        c: capacities,
        w: weights,
    }
}

/// What construction accepts: one weight per net, pins in range and named
/// once per net, and sizes and sums within the machine's limits.
pub open spec fn input_ok(capacities: Seq<u64>, weights: Seq<u64>, nets: Seq<Seq<Index>>) -> bool {
    &&& weights.len() == nets.len()
    &&& capacities.len() <= u32::MAX
    &&& capacities.len() <= usize::MAX / 8
    &&& nets.len() <= u32::MAX
    &&& nets.len() <= usize::MAX / 8
    &&& forall|e: int, k: int|
        0 <= e < nets.len() && 0 <= k < nets[e].len() ==> (#[trigger] nets[e][k]) < capacities.len()
    &&& forall|e: int| 0 <= e < nets.len() ==> (#[trigger] nets[e]).no_duplicates()
    &&& prefix_sum(capacities, capacities.len()) <= u64::MAX
    &&& prefix_sum(weights, weights.len()) <= u64::MAX
}

/// The test "is not in `s`".
pub open spec fn not_in(s: Seq<Index>) -> spec_fn(Index) -> bool {
    |e: Index| !s.contains(e)
}

/// `pins`, which holds `v`, with `v` moved to the last place by changing
/// places with the pin that stood there.
pub open spec fn moved_last(pins: Seq<Index>, v: Index) -> Seq<Index> {
    pins.update(pins.index_of(v), pins[pins.len() - 1]).update(pins.len() - 1, v)
}

/// A net's pin list after pin `v`, which it holds, was merged into `u`:
/// `v` moves to the last place, and where the net did not hold `u` yet, `u`
/// then takes that place. (Where it did, the caller drops the last place
/// from the list.)
pub open spec fn rewritten(pins: Seq<Index>, u: Index, v: Index) -> Seq<Index> {
    if pins.contains(u) {
        moved_last(pins, v)
    } else {
        moved_last(pins, v).update(pins.len() - 1, u)
    }
}

/// The test "differs from `p`".
pub open spec fn is_not(p: Index) -> spec_fn(Index) -> bool {
    |x: Index| x != p
}

impl Layout {
    pub open spec fn is_pin(self, p: Index) -> bool {
        (p as int) < self.v.len()
    }

    pub open spec fn is_net(self, e: Index) -> bool {
        (e as int) < self.e.len()
    }

    pub open spec fn pin_start(self, p: Index) -> int {
        self.v[p as int].0 as int
    }

    pub open spec fn degree(self, p: Index) -> int {
        self.v[p as int].1 as int
    }

    pub open spec fn net_start(self, e: Index) -> int {
        self.e[e as int].0 as int
    }

    pub open spec fn net_size(self, e: Index) -> int {
        self.e[e as int].1 as int
    }

    /// The `k`-th net in pin `p`'s list.
    pub open spec fn net_at(self, p: Index, k: int) -> Index {
        self.a[self.pin_start(p) + k]
    }

    /// The `k`-th pin in net `e`'s list.
    pub open spec fn pin_at(self, e: Index, k: int) -> Index {
        self.a[self.net_start(e) + k]
    }

    /// The nets incident to pin `p`, in stored order.
    pub open spec fn nets_of(self, p: Index) -> Seq<Index> {
        self.a.subrange(self.pin_start(p), self.pin_start(p) + self.degree(p))
    }

    /// The pins of net `e`, in stored order.
    pub open spec fn pins_of(self, e: Index) -> Seq<Index> {
        self.a.subrange(self.net_start(e), self.net_start(e) + self.net_size(e))
    }

    /// Position `i` of `a` lies in pin `p`'s slice.
    pub open spec fn in_pin(self, p: Index, i: int) -> bool {
        self.pin_start(p) <= i < self.pin_start(p) + self.degree(p)
    }

    /// Position `i` of `a` lies in net `e`'s slice.
    pub open spec fn in_net(self, e: Index, i: int) -> bool {
        self.net_start(e) <= i < self.net_start(e) + self.net_size(e)
    }

    /// Position `i` of `a` lies in the slice of some net.
    pub open spec fn in_some_net(self, i: int) -> bool {
        exists|e: Index| self.is_net(e) && self.in_net(e, i)
    }

    /// The part of `a` that starts at `start` and has `len` entries.
    pub open spec fn window(self, start: int, len: int) -> Seq<Index> {
        self.a.subrange(start, start + len)
    }

    /// Those of the first `k` nets of `v` that `u` does not list, in `v`'s
    /// order: what `u` gains from them.
    pub open spec fn gained_upto(self, u: Index, v: Index, k: int) -> Seq<Index> {
        self.nets_of(v).take(k).filter(not_in(self.nets_of(u)))
    }

    /// The nets that `u` gains by absorbing `v`.
    pub open spec fn gained(self, u: Index, v: Index) -> Seq<Index> {
        self.gained_upto(u, v, self.degree(v))
    }

    /// Net `e` is among the first `k` nets of `v`.
    pub open spec fn met(self, v: Index, k: int, e: Index) -> bool {
        exists|j: int| 0 <= j < k && #[trigger] self.net_at(v, j) == e
    }

    /// Position `i` of `a` lies in one of the first `k` nets of `v`.
    pub open spec fn touched(self, v: Index, k: int, i: int) -> bool {
        exists|j: int| 0 <= j < k && self.in_net(#[trigger] self.net_at(v, j), i)
    }

    /// `mid` is what the arrays look like when pin `v` has been merged into
    /// `u` in the first `k` of `v`'s nets.
    pub open spec fn merged_upto(self, mid: Layout, u: Index, v: Index, k: int) -> bool {
        let gained = self.gained_upto(u, v, k);
        let block = if gained.len() == 0 {
            0
        } else {
            self.degree(u) + gained.len()
        };
        &&& mid.w == self.w
        &&& mid.c == self.c.update(u as int, (self.c[u as int] + self.c[v as int]) as u64)
        &&& mid.v == if gained.len() == 0 {
            self.v
        } else {
            self.v.update(u as int, (self.a.len() as usize, block as usize))
        }
        &&& mid.e.len() == self.e.len()
        &&& forall|e: Index|
            self.is_net(e) ==> #[trigger] mid.e[e as int] == if self.met(v, k, e) && self.nets_of(
                u,
            ).contains(e) {
                (self.e[e as int].0, (self.e[e as int].1 - 1) as usize)
            } else {
                self.e[e as int]
            }
        &&& mid.a.len() == self.a.len() + block
        &&& forall|i: int|
            0 <= i < self.a.len() && !self.touched(v, k, i) ==> #[trigger] mid.a[i] == self.a[i]
        &&& forall|j: int|
            0 <= j < k ==> mid.window(
                self.net_start(#[trigger] self.net_at(v, j)),
                self.net_size(self.net_at(v, j)),
            ) == rewritten(self.pins_of(self.net_at(v, j)), u, v)
        &&& gained.len() > 0 ==> mid.window(self.a.len() as int, block) == self.nets_of(u) + gained
    }

    /// The pin list of net `e` after pin `v` was contracted into pin `u`: as
    /// before where the net did not hold `v`; without `v` where it held
    /// both; with `u` in `v`'s stead where it held `v` alone.
    pub open spec fn pins_after(self, u: Index, v: Index, e: Index) -> Seq<Index> {
        if !self.nets_of(v).contains(e) {
            self.pins_of(e)
        } else if self.nets_of(u).contains(e) {
            moved_last(self.pins_of(e), v).drop_last()
        } else {
            moved_last(self.pins_of(e), v).update(self.net_size(e) - 1, u)
        }
    }

    /// The net list of pin `p` after pin `v` was contracted into pin `u`:
    /// `u` lists, behind its own nets, those it gained; every other pin,
    /// `v` too, lists what it did.
    pub open spec fn nets_after(self, u: Index, v: Index, p: Index) -> Seq<Index> {
        if p == u {
            self.nets_of(u) + self.gained(u, v)
        } else {
            self.nets_of(p)
        }
    }

    /// `post` is the structure after pin `v` was contracted into pin `u`:
    /// `u` has `v`'s capacity added and lists, behind its own nets, those it
    /// gained, in a fresh block at the end of `a`; in each net of `v` the
    /// pin list is rewritten, and is one shorter where it held both; `v` is
    /// disabled and keeps its list.
    pub open spec fn contracts_to(self, post: Layout, u: Index, v: Index) -> bool {
        &&& self.merged_upto(post, u, v, self.degree(v))
        &&& post.a.len() <= usize::MAX
        &&& post.enabled == self.enabled.update(v as int, false)
        &&& post.num_disabled == self.num_disabled + 1
    }

    /// The record that contracting `v` into `u` leaves.
    pub open spec fn memento(self, u: Index, v: Index) -> Memento {
        Memento { u, v, u_idx: self.v[u as int].0, u_len: self.v[u as int].1 }
    }

    /// The net list that `u` had before the contraction that `m` records.
    pub open spec fn old_nets(self, m: Memento) -> Seq<Index> {
        self.window(m.u_idx as int, m.u_len as int)
    }

    /// Net `e` is one in which `u` took `v`'s place: `v` lists it and `u`
    /// did not.
    pub open spec fn taken(self, m: Memento, e: Index) -> bool {
        self.nets_of(m.v).contains(e) && !self.old_nets(m).contains(e)
    }

    /// Net `e` is one that lost a place: both `v` and `u` listed it.
    pub open spec fn shrunk(self, m: Memento, e: Index) -> bool {
        self.nets_of(m.v).contains(e) && self.old_nets(m).contains(e)
    }

    /// Position `i` of `a` is one where undoing `m` writes `v` back over `u`.
    pub open spec fn patched(self, m: Memento, i: int) -> bool {
        &&& self.degree(m.u) > m.u_len
        &&& self.a[i] == m.u
        &&& exists|e: Index| self.is_net(e) && self.taken(m, e) && #[trigger] self.in_net(e, i)
    }

    /// Position `i` of `a` holds `u` and lies in one of the first `k` nets of
    /// `u` that is a net in which `u` took `v`'s place.
    pub open spec fn patched_upto(self, m: Memento, k: int, i: int) -> bool {
        &&& self.a[i] == m.u
        &&& exists|j: int|
            0 <= j < k && self.taken(m, self.net_at(m.u, j)) && self.in_net(
                #[trigger] self.net_at(m.u, j),
                i,
            )
    }

    /// The structure after the contraction that `m` records is undone: `v`
    /// is enabled again, `u` has its old net list and capacity back, the
    /// nets that `u` took over name `v` again, and the nets that lost a
    /// place have it back.
    pub open spec fn uncontracted(self, m: Memento) -> Layout {
        Layout {
            v: self.v.update(m.u as int, (m.u_idx, m.u_len)),
            e: Seq::new(
                self.e.len(),
                |x: int|
                    if self.shrunk(m, x as Index) {
                        (self.e[x].0, (self.e[x].1 + 1) as usize)
                    } else {
                        self.e[x]
                    },
            ),
            a: Seq::new(
                self.a.len(),
                |i: int|
                    if self.patched(m, i) {
                        m.v
                    } else {
                        self.a[i]
                    },
            ),
            enabled: self.enabled.update(m.v as int, true),
            num_disabled: (self.num_disabled - 1) as nat,
            c: self.c.update(m.u as int, (self.c[m.u as int] - self.c[m.v as int]) as u64),
            w: self.w,
        }
    }

    /// `m` can be undone here: it names an enabled and a disabled pin, and
    /// undoing it gives a structure that describes a hypergraph.
    pub open spec fn undoable(self, m: Memento) -> bool {
        &&& self.wf()
        &&& m.u != m.v
        &&& self.is_pin(m.u)
        &&& self.is_pin(m.v)
        &&& self.enabled[m.u as int]
        &&& !self.enabled[m.v as int]
        &&& m.u_idx + m.u_len <= self.a.len()
        &&& self.c[m.u as int] >= self.c[m.v as int]
        &&& forall|e: Index|
            self.is_net(e) && #[trigger] self.shrunk(m, e) ==> self.net_start(e) + self.net_size(e)
                < self.a.len()
        &&& self.uncontracted(m).wf()
    }

    /// The mementos `ms`, latest last, can be undone one after the other,
    /// latest first.
    pub open spec fn replayable(self, ms: Seq<Memento>) -> bool
        decreases ms.len(),
    {
        if ms.len() == 0 {
            self.wf()
        } else {
            self.undoable(ms.last()) && self.uncontracted(ms.last()).replayable(ms.drop_last())
        }
    }

    /// The structure after the mementos `ms` are undone, latest first.
    pub open spec fn replayed(self, ms: Seq<Memento>) -> Layout
        decreases ms.len(),
    {
        if ms.len() == 0 {
            self
        } else {
            self.uncontracted(ms.last()).replayed(ms.drop_last())
        }
    }

    /// `other` holds the same hypergraph in the same places: all but `a` is
    /// equal, `a` may have grown, it is equal outside the nets' slices, and
    /// each net's slice names the same pins, none twice, in some order.
    pub open spec fn agrees(self, other: Layout) -> bool {
        &&& other.v == self.v
        &&& other.e == self.e
        &&& other.c == self.c
        &&& other.w == self.w
        &&& other.enabled == self.enabled
        &&& other.num_disabled == self.num_disabled
        &&& self.a.len() <= other.a.len() <= usize::MAX
        &&& forall|i: int|
            0 <= i < self.a.len() && !self.in_some_net(i) ==> #[trigger] other.a[i] == self.a[i]
        &&& forall|e: Index| self.is_net(e) ==> #[trigger] other.pins_of(e).no_duplicates()
        &&& forall|e: Index, x: Index|
            self.is_net(e) ==> (#[trigger] other.pins_of(e).contains(x) <==> self.pins_of(
                e,
            ).contains(x))
    }

    /// What read-only traversal needs: matching lengths and slices in range.
    pub open spec fn safe(self) -> bool {
        self.sized() && self.bounded()
    }

    /// The pins met when walking the first `k` nets of pin `p`, each net's
    /// pins in stored order, `p` itself left out.
    pub open spec fn neighbors_upto(self, p: Index, k: nat) -> Seq<Index>
        decreases k,
    {
        if k == 0 {
            Seq::empty()
        } else {
            self.neighbors_upto(p, (k - 1) as nat) + self.pins_of(self.net_at(p, k - 1)).filter(
                is_not(p),
            )
        }
    }

    /// The pins that share a net with `p`, once for each shared net.
    pub open spec fn neighbors(self, p: Index) -> Seq<Index> {
        self.neighbors_upto(p, self.degree(p) as nat)
    }

    /// The number of enabled pins.
    pub open spec fn num_pins(self) -> int {
        self.v.len() - self.num_disabled
    }

    /// The summed capacity of the enabled pins.
    pub open spec fn total_capacity(self) -> nat {
        masked_sum(self.c, self.enabled, self.v.len())
    }

    /// The summed weight of all nets.
    pub open spec fn total_weight(self) -> nat {
        prefix_sum(self.w, self.e.len())
    }

    /// The enabled pins below `n`, in rising order.
    pub open spec fn pins_upto(self, n: nat) -> Seq<Index>
        decreases n,
    {
        if n == 0 {
            Seq::empty()
        } else {
            let rest = self.pins_upto((n - 1) as nat);
            if self.enabled[n - 1] {
                rest.push((n - 1) as Index)
            } else {
                rest
            }
        }
    }

    /// The summed capacity of the enabled pins labelled `side`.
    pub open spec fn side_capacity(self, labels: Seq<bool>, side: bool) -> nat {
        side_sum(self.c, self.enabled, labels, side, self.v.len())
    }

    /// The capacity of the heavier side.
    pub open spec fn imbalance(self, labels: Seq<bool>) -> nat {
        if self.side_capacity(labels, true) >= self.side_capacity(labels, false) {
            self.side_capacity(labels, true)
        } else {
            self.side_capacity(labels, false)
        }
    }

    /// Net `e` has pins on both sides.
    pub open spec fn is_cut(self, labels: Seq<bool>, e: Index) -> bool {
        exists|x: Index, y: Index|
            #![trigger self.pins_of(e).contains(x), self.pins_of(e).contains(y)]
            self.pins_of(e).contains(x) && self.pins_of(e).contains(y) && labels[x as int]
                != labels[y as int]
    }

    /// The summed weight of those of the first `n` nets that are cut.
    pub open spec fn cut_sum(self, labels: Seq<bool>, n: nat) -> nat
        decreases n,
    {
        if n == 0 {
            0
        } else {
            self.cut_sum(labels, (n - 1) as nat) + if self.is_cut(labels, (n - 1) as Index) {
                self.w[n - 1] as nat
            } else {
                0nat
            }
        }
    }

    /// The summed weight of the nets that are cut.
    pub open spec fn cut_weight(self, labels: Seq<bool>) -> nat {
        self.cut_sum(labels, self.e.len())
    }

    /// The largest capacity that a side may have at tolerance `epsilon`.
    pub open spec fn size_constraint(self, epsilon: nat) -> nat {
        size_limit(self.total_capacity(), epsilon)
    }

    /// The arrays have matching lengths, within what 32-bit indices and the
    /// bit sets can address, and the disabled count is right.
    pub open spec fn sized(self) -> bool {
        &&& self.v.len() <= u32::MAX
        &&& self.v.len() <= usize::MAX / 8
        &&& self.e.len() <= u32::MAX
        &&& self.e.len() <= usize::MAX / 8
        &&& self.a.len() <= usize::MAX
        &&& self.enabled.len() == self.v.len()
        &&& self.c.len() == self.v.len()
        &&& self.w.len() == self.e.len()
        &&& self.num_disabled == count_false(self.enabled)
    }

    /// Every slice lies inside `a`, pin slices hold net indices and net
    /// slices hold pin indices.
    pub open spec fn bounded(self) -> bool {
        &&& forall|p: Index|
            self.is_pin(p) ==> #[trigger] self.pin_start(p) + self.degree(p) <= self.a.len()
        &&& forall|e: Index|
            self.is_net(e) ==> #[trigger] self.net_start(e) + self.net_size(e) <= self.a.len()
        &&& forall|p: Index, k: int|
            self.is_pin(p) && 0 <= k < self.degree(p) ==> self.is_net(#[trigger] self.net_at(p, k))
        &&& forall|e: Index, k: int|
            self.is_net(e) && 0 <= k < self.net_size(e) ==> self.is_pin(
                #[trigger] self.pin_at(e, k),
            )
    }

    /// No position of `a` belongs to two nets, or to a net and a pin.
    pub open spec fn separate(self) -> bool {
        &&& forall|e1: Index, e2: Index, i: int|
            self.is_net(e1) && self.is_net(e2) && #[trigger] self.in_net(e1, i)
                && #[trigger] self.in_net(e2, i) ==> e1 == e2
        &&& forall|e: Index, p: Index, i: int|
            self.is_net(e) && self.is_pin(p) && #[trigger] self.in_net(e, i) ==> !#[trigger] self.in_pin(
                p,
                i,
            )
    }

    /// No list names anything twice.
    pub open spec fn distinct(self) -> bool {
        &&& forall|e: Index| self.is_net(e) ==> #[trigger] self.pins_of(e).no_duplicates()
        &&& forall|p: Index| self.is_pin(p) ==> #[trigger] self.nets_of(p).no_duplicates()
    }

    /// Nets list enabled pins only, and an enabled pin lists a net exactly
    /// when the net lists the pin.
    pub open spec fn incident(self) -> bool {
        &&& forall|e: Index, k: int|
            self.is_net(e) && 0 <= k < self.net_size(e) ==> self.enabled[#[trigger] self.pin_at(
                e,
                k,
            ) as int]
        &&& forall|p: Index, e: Index|
            #![trigger self.nets_of(p).contains(e)]
            #![trigger self.pins_of(e).contains(p)]
            self.is_pin(p) && self.is_net(e) && self.enabled[p as int] ==> (self.nets_of(
                p,
            ).contains(e) <==> self.pins_of(e).contains(p))
    }

    /// The sums that the algorithms form fit in 64 bits.
    pub open spec fn weighed(self) -> bool {
        &&& self.total_capacity() <= u64::MAX
        &&& self.total_weight() <= u64::MAX
    }

    /// The structure describes a hypergraph.
    pub open spec fn wf(self) -> bool {
        &&& self.sized()
        &&& self.bounded()
        &&& self.separate()
        &&& self.distinct()
        &&& self.incident()
        &&& self.weighed()
    }
}

/// What undoing may rely on: `u`'s old list lies outside every net and
/// names nets, and a net that gets a place back has room for it.
pub proof fn lemma_undoable_facts(s: Layout, m: Memento)
    requires
        s.undoable(m),
    ensures
        forall|i: int|
            m.u_idx <= i < m.u_idx + m.u_len ==> s.is_net(#[trigger] s.a[i]) && !s.in_some_net(i),
        forall|e: Index|
            s.is_net(e) && #[trigger] s.shrunk(m, e) ==> s.net_start(e) + s.net_size(e) + 1
                <= s.a.len(),
        s.num_disabled >= 1,
{
    let post = s.uncontracted(m);
    assert forall|i: int| m.u_idx <= i < m.u_idx + m.u_len implies s.is_net(#[trigger] s.a[i])
        && !s.in_some_net(i) by {
        let k = i - m.u_idx;
        assert(post.in_pin(m.u, i));
        if s.in_some_net(i) {
            let e = choose|e: Index| s.is_net(e) && s.in_net(e, i);
            assert(post.in_net(e, i));
        }
        assert(!s.patched(m, i)) by {
            if s.patched(m, i) {
                let e = choose|e: Index| s.is_net(e) && s.taken(m, e) && s.in_net(e, i);
                assert(s.in_some_net(i));
            }
        }
        assert(post.is_net(post.net_at(m.u, k)));
    }
    lemma_count_false_has(s.enabled, m.v as int);
}

/// Clearing a set flag adds one to the count, setting a clear flag takes
/// one away.
pub proof fn lemma_count_false_update(s: Seq<bool>, i: int, b: bool)
    requires
        0 <= i < s.len(),
        s[i] != b,
    ensures
        count_false(s.update(i, b)) == count_false(s) + if b {
            -1
        } else {
            1int
        },
    decreases s.len(),
{
    if i < s.len() - 1 {
        assert(s.update(i, b).drop_last() =~= s.drop_last().update(i, b));
        lemma_count_false_update(s.drop_last(), i, b);
    } else {
        assert(s.update(i, b).drop_last() =~= s.drop_last());
    }
}

/// Where one flag is clear, something counts as `false`.
pub proof fn lemma_count_false_has(s: Seq<bool>, i: int)
    requires
        0 <= i < s.len(),
        !s[i],
    ensures
        count_false(s) >= 1,
    decreases s.len(),
{
    if i < s.len() - 1 {
        lemma_count_false_has(s.drop_last(), i);
    }
}

/// Filtering a sequence with one more entry.
pub proof fn lemma_filter_push(s: Seq<Index>, x: Index, pred: spec_fn(Index) -> bool)
    ensures
        s.push(x).filter(pred) == if pred(x) {
            s.filter(pred).push(x)
        } else {
            s.filter(pred)
        },
{
    reveal(Seq::filter);
    assert(s.push(x).drop_last() =~= s);
}

/// The masked sum when the entries at two places change.
pub proof fn lemma_masked_sum_two(
    c: Seq<u64>,
    on: Seq<bool>,
    c2: Seq<u64>,
    on2: Seq<bool>,
    x: int,
    y: int,
    n: nat,
)
    requires
        n <= c.len(),
        c.len() == on.len(),
        c2.len() == c.len(),
        on2.len() == c.len(),
        0 <= x < c.len(),
        0 <= y < c.len(),
        x != y,
        forall|i: int| 0 <= i < c.len() && i != x && i != y ==> c2[i] == c[i] && on2[i] == on[i],
    ensures
        masked_sum(c2, on2, n) + (if x < n && on[x] {
            c[x] as int
        } else {
            0
        }) + (if y < n && on[y] {
            c[y] as int
        } else {
            0
        }) == masked_sum(c, on, n) + (if x < n && on2[x] {
            c2[x] as int
        } else {
            0
        }) + (if y < n && on2[y] {
            c2[y] as int
        } else {
            0
        }),
    decreases n,
{
    if n > 0 {
        lemma_masked_sum_two(c, on, c2, on2, x, y, (n - 1) as nat);
    }
}

/// Two distinct enabled pins weigh no more together than all enabled pins.
pub proof fn lemma_two_within_total(c: Seq<u64>, on: Seq<bool>, x: int, y: int)
    requires
        c.len() == on.len(),
        0 <= x < c.len(),
        0 <= y < c.len(),
        x != y,
        on[x],
        on[y],
    ensures
        c[x] + c[y] <= masked_sum(c, on, c.len()),
{
    let off = on.update(x, false).update(y, false);
    lemma_masked_sum_two(c, on, c, off, x, y, c.len());
}

/// Offsets rise with the net index.
pub proof fn lemma_offset_monotone(nets: Seq<Seq<Index>>, i: nat, j: nat)
    requires
        i <= j,
    ensures
        offset(nets, i) <= offset(nets, j),
    decreases j,
{
    if i < j {
        lemma_offset_monotone(nets, i, (j - 1) as nat);
    }
}

/// `nets_holding` lists exactly the nets below `k` that hold `p`, in
/// strictly rising order.
pub proof fn lemma_nets_holding(nets: Seq<Seq<Index>>, p: Index, k: nat)
    requires
        k <= nets.len(),
        k <= u32::MAX,
    ensures
        nets_holding(nets, p, k).len() <= k,
        forall|i: int|
            0 <= i < nets_holding(nets, p, k).len() ==> (#[trigger] nets_holding(nets, p, k)[i]) < k
                && nets[nets_holding(nets, p, k)[i] as int].contains(p),
        forall|i: int, j: int|
            0 <= i < j < nets_holding(nets, p, k).len() ==> nets_holding(nets, p, k)[i]
                < nets_holding(nets, p, k)[j],
        forall|e: Index|
            e < k && nets[e as int].contains(p) ==> #[trigger] nets_holding(nets, p, k).contains(e),
        nets_holding(nets, p, k).no_duplicates(),
    decreases k,
{
    if k > 0 {
        let rest = nets_holding(nets, p, (k - 1) as nat);
        lemma_nets_holding(nets, p, (k - 1) as nat);
        let all = nets_holding(nets, p, k);
        assert forall|e: Index| e < k && nets[e as int].contains(p) implies all.contains(e) by {
            if e < k - 1 {
                assert(rest.contains(e));
                let i = choose|i: int| 0 <= i < rest.len() && rest[i] == e;
                assert(all[i] == e);
            } else {
                assert(all[all.len() - 1] == e);
            }
        }
    }
}

/// One side weighs no more than all enabled pins, and the two sides
/// together weigh as much.
pub proof fn lemma_side_sum(c: Seq<u64>, on: Seq<bool>, labels: Seq<bool>, n: nat)
    ensures
        side_sum(c, on, labels, true, n) + side_sum(c, on, labels, false, n) == masked_sum(c, on, n),
    decreases n,
{
    if n > 0 {
        lemma_side_sum(c, on, labels, (n - 1) as nat);
    }
}

/// Sums grow with the number of entries summed.
pub proof fn lemma_sums_monotone(
    c: Seq<u64>,
    on: Seq<bool>,
    labels: Seq<bool>,
    side: bool,
    i: nat,
    j: nat,
)
    requires
        i <= j,
    ensures
        side_sum(c, on, labels, side, i) <= side_sum(c, on, labels, side, j),
        masked_sum(c, on, i) <= masked_sum(c, on, j),
        prefix_sum(c, i) <= prefix_sum(c, j),
    decreases j,
{
    if i < j {
        lemma_sums_monotone(c, on, labels, side, i, (j - 1) as nat);
    }
}

/// The list of enabled pins below `n` names exactly those, in rising
/// order, and is as long as there are enabled pins below `n`.
pub proof fn lemma_pins_upto(s: Layout, n: nat)
    requires
        n <= s.enabled.len(),
        n <= u32::MAX,
    ensures
        s.pins_upto(n).len() + count_false(s.enabled.take(n as int)) == n,
        forall|i: int|
            0 <= i < s.pins_upto(n).len() ==> (#[trigger] s.pins_upto(n)[i]) < n
                && s.enabled[s.pins_upto(n)[i] as int],
        forall|p: Index| p < n && s.enabled[p as int] ==> #[trigger] s.pins_upto(n).contains(p),
    decreases n,
{
    if n > 0 {
        lemma_pins_upto(s, (n - 1) as nat);
        let rest = s.pins_upto((n - 1) as nat);
        let all = s.pins_upto(n);
        assert(s.enabled.take(n as int).drop_last() =~= s.enabled.take(n - 1));
        assert forall|p: Index| p < n && s.enabled[p as int] implies #[trigger] all.contains(
            p,
        ) by {
            if p < n - 1 {
                assert(rest.contains(p));
                let i = choose|i: int| 0 <= i < rest.len() && rest[i] == p;
                assert(all[i] == p);
            } else {
                assert(all[all.len() - 1] == p);
            }
        }
    } else {
        assert(s.enabled.take(0) =~= Seq::<bool>::empty());
    }
}

/// Setting a flag raises the number of set flags by one at most.
pub proof fn lemma_count_set_update(s: Seq<bool>, i: int)
    requires
        0 <= i < s.len(),
    ensures
        count_set(s.update(i, true)) <= count_set(s) + 1,
        count_set(s.update(i, true)) >= count_set(s),
        !s[i] ==> count_set(s.update(i, true)) == count_set(s) + 1,
{
    if s[i] {
        assert(s.update(i, true) =~= s);
    } else {
        lemma_count_false_update(s, i, true);
    }
}

/// With every flag set nothing counts as `false`.
pub proof fn lemma_count_false_none(s: Seq<bool>)
    requires
        forall|i: int| 0 <= i < s.len() ==> s[i],
    ensures
        count_false(s) == 0,
    decreases s.len(),
{
    if s.len() > 0 {
        lemma_count_false_none(s.drop_last());
    }
}

/// Where one flag is set, fewer entries are `false` than there are entries.
pub proof fn lemma_count_false_some(s: Seq<bool>, i: int)
    requires
        0 <= i < s.len(),
        s[i],
    ensures
        count_false(s) < s.len(),
    decreases s.len(),
{
    if i < s.len() - 1 {
        lemma_count_false_some(s.drop_last(), i);
    } else {
        lemma_count_false_bound(s.drop_last());
    }
}

/// No more entries are `false` than there are entries.
pub proof fn lemma_count_false_bound(s: Seq<bool>)
    ensures
        count_false(s) <= s.len(),
    decreases s.len(),
{
    if s.len() > 0 {
        lemma_count_false_bound(s.drop_last());
    }
}

/// With every flag set the masked sum is the plain sum.
pub proof fn lemma_masked_sum_all(c: Seq<u64>, on: Seq<bool>, n: nat)
    requires
        n <= c.len(),
        n <= on.len(),
        forall|i: int| 0 <= i < n ==> on[i],
    ensures
        masked_sum(c, on, n) == prefix_sum(c, n),
    decreases n,
{
    if n > 0 {
        lemma_masked_sum_all(c, on, (n - 1) as nat);
    }
}

} // verus!
