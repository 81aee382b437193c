//! Initial partitioning of the coarse hypergraph: a portfolio of random,
//! breadth-first and label-propagation bipartitions, of which the best by
//! balance, then by cut, is taken.

use vstd::prelude::*;
use std::collections::VecDeque;
use crate::bipartite::{Bipartite, Bipartition};
use crate::bits::{bits_get, bits_of, bits_repeat, bits_set, Bits};
use crate::chance::{random_bool, random_index, shuffle};
use crate::layout::{
    count_false, count_set, lemma_count_false_bound,
    lemma_count_false_update, lemma_count_set_update, lemma_pins_upto, Index, Layout,
};

verus! {

/// How often each heuristic of the portfolio runs.
pub const NUM_ITERS: usize = 20;

/// How many neighbours of each seed label propagation puts on the seed's
/// side at the start.
pub const TAU: usize = 5;

/// A vector of `n` entries `value`.
pub fn filled(n: usize, value: bool) -> (out: Vec<bool>)
    ensures
        out@ == Seq::new(n as nat, |i: int| value),
{
    let mut out: Vec<bool> = Vec::new();
    let mut i: usize = 0;
    while i < n
        invariant
            i <= n,
            out@ == Seq::new(i as nat, |j: int| value),
        decreases n - i,
    {
        out.push(value);
        i += 1;
        assert(out@ =~= Seq::new(i as nat, |j: int| value));
    }
    out
}

/// A bipartition that puts each pin on a side drawn at random.
pub fn random_partitioning(h: &Bipartite) -> (p: Bipartition)
    ensures
        p@.len() == h@.v.len(),
{
    let n = h.pin_index_space_size();
    let mut p: Vec<bool> = Vec::new();
    let mut i: usize = 0;
    while i < n
        invariant
            i <= n,
            p@.len() == i,
        decreases n - i,
    {
        p.push(random_bool());
        i += 1;
    }
    p
}

/// The enabled pin that the drawn `number` selects: of the enabled pins in
/// rising order, the one at place `number` modulo their count. None where no
/// pin is enabled.
pub fn pick(h: &Bipartite, number: Index) -> (pin: Option<Index>)
    requires
        h@.sized(),
    ensures
        pin is None <==> h@.num_pins() == 0,
        pin matches Some(p) ==> p == h@.pins_upto(h@.v.len())[number as int % h@.num_pins()]
            && h@.is_pin(p) && h@.enabled[p as int],
{
    let pins = h.pins();
    proof {
        lemma_pins_upto(h@, h@.v.len());
        assert(h@.enabled.take(h@.v.len() as int) =~= h@.enabled);
    }
    if pins.len() == 0 {
        None
    } else {
        let at = number as usize % pins.len();
        Some(pins[at])
    }
}

/// An enabled pin drawn at random, each with the same chance up to the
/// rounding of the draw. None where no pin is enabled.
pub fn random_vertex(h: &Bipartite) -> (pin: Option<Index>)
    requires
        h@.sized(),
    ensures
        pin is None <==> h@.num_pins() == 0,
        pin matches Some(p) ==> h@.is_pin(p) && h@.enabled[p as int],
{
    pick(h, random_index())
}

/// The state of a breadth-first search: which pins it has seen, and the
/// pins that wait to be taken, first in first out.
pub struct Search {
    pub visited: Seq<bool>,
    pub queue: Seq<Index>,
}

/// The search after the first `k` of the pins `nb` were offered to it: each
/// that it had not seen is marked seen and put at the end of the queue.
pub open spec fn enqueued(search: Search, nb: Seq<Index>, k: nat) -> Search
    decreases k,
{
    if k == 0 {
        search
    } else {
        let before = enqueued(search, nb, (k - 1) as nat);
        let p = nb[k - 1];
        if before.visited[p as int] {
            before
        } else {
            Search { visited: before.visited.update(p as int, true), queue: before.queue.push(p) }
        }
    }
}

/// The search after its first waiting pin is taken and that pin's
/// neighbours are offered to it.
pub open spec fn advanced(s: Layout, search: Search) -> Search {
    enqueued(
        Search { visited: search.visited, queue: search.queue.drop_first() },
        s.neighbors(search.queue[0]),
        s.neighbors(search.queue[0]).len(),
    )
}

/// The search that starts at `start`.
pub open spec fn search_from(s: Layout, start: Index) -> Search {
    Search {
        visited: Seq::new(s.v.len(), |i: int| false).update(start as int, true),
        queue: seq![start],
    }
}

/// The labels that the search for a half ends with, when `count` pins are
/// labelled so far: while a pin waits and fewer than `quota` are labelled,
/// the first waiting pin is labelled true and the search advances. `fuel`
/// bounds the number of steps.
pub open spec fn half_labels(
    s: Layout,
    search: Search,
    labels: Seq<bool>,
    count: nat,
    quota: nat,
    fuel: nat,
) -> Seq<bool>
    decreases fuel,
{
    if fuel == 0 || search.queue.len() == 0 || count >= quota {
        labels
    } else {
        half_labels(
            s,
            advanced(s, search),
            labels.update(search.queue[0] as int, true),
            count + 1,
            quota,
            (fuel - 1) as nat,
        )
    }
}

/// The breadth-first bipartition from `start`: the first half of the
/// enabled pins that a breadth-first search from `start` takes from its
/// queue are true.
pub open spec fn bfs_half_labels(s: Layout, start: Index) -> Seq<bool> {
    half_labels(
        s,
        search_from(s, start),
        Seq::new(s.v.len(), |i: int| false),
        0,
        (s.num_pins() / 2) as nat,
        s.v.len() + 1,
    )
}

/// The pin that the search takes last, when `last` is the latest taken so
/// far. `fuel` bounds the number of steps.
pub open spec fn last_taken(s: Layout, search: Search, last: Index, fuel: nat) -> Index
    decreases fuel,
{
    if fuel == 0 || search.queue.len() == 0 {
        last
    } else {
        last_taken(s, advanced(s, search), search.queue[0], (fuel - 1) as nat)
    }
}

/// The pin that a breadth-first search from `start` takes last.
pub open spec fn bfs_last(s: Layout, start: Index) -> Index {
    last_taken(s, search_from(s, start), start, s.v.len() + 1)
}

/// What a breadth-first search keeps true of its state: the visited set
/// spans the index space, and the queue holds enabled pins.
pub open spec fn searching(s: Layout, visited: Seq<bool>, queue: Seq<Index>) -> bool {
    &&& visited.len() == s.v.len()
    &&& forall|i: int|
        0 <= i < queue.len() ==> s.is_pin(#[trigger] queue[i]) && s.enabled[queue[i] as int]
}

/// Puts the neighbours of `pin` that the search has not seen yet at the end
/// of the queue, and marks them seen.
fn enqueue_neighbors(h: &Bipartite, pin: Index, visited: &mut Bits, queue: &mut VecDeque<Index>)
    requires
        h@.wf(),
        h@.is_pin(pin),
        searching(h@, bits_of(*old(visited)), old(queue)@),
    ensures
        (Search { visited: bits_of(*final(visited)), queue: final(queue)@ }) == enqueued(
            Search { visited: bits_of(*old(visited)), queue: old(queue)@ },
            h@.neighbors(pin),
            h@.neighbors(pin).len(),
        ),
        searching(h@, bits_of(*final(visited)), final(queue)@),
        count_false(bits_of(*final(visited))) + final(queue)@.len() == count_false(
            bits_of(*old(visited)),
        ) + old(queue)@.len(),
        forall|p: int|
            0 <= p < h@.v.len() && bits_of(*old(visited))[p] ==> bits_of(*final(visited))[p],
        old(queue)@.len() <= final(queue)@.len(),
        final(queue)@.take(old(queue)@.len() as int) == old(queue)@,
{
    let nb = h.incident_pins(pin);
    let mut i: usize = 0;
    while i < nb.len()
        invariant
            h@.wf(),
            i <= nb.len(),
            nb@ == h@.neighbors(pin),
            (Search { visited: bits_of(*visited), queue: queue@ }) == enqueued(
                Search { visited: bits_of(*old(visited)), queue: old(queue)@ },
                nb@,
                i as nat,
            ),
            forall|j: int| 0 <= j < nb.len() ==> h@.is_pin(#[trigger] nb[j]),
            forall|j: int| 0 <= j < nb.len() ==> h@.enabled[#[trigger] nb[j] as int],
            searching(h@, bits_of(*visited), queue@),
            count_false(bits_of(*visited)) + queue@.len() == count_false(bits_of(*old(visited)))
                + old(queue)@.len(),
            forall|p: int|
                0 <= p < h@.v.len() && bits_of(*old(visited))[p] ==> bits_of(*visited)[p],
            old(queue)@.len() <= queue@.len(),
            queue@.take(old(queue)@.len() as int) == old(queue)@,
        decreases nb.len() - i,
    {
        let neighbor = nb[i];
        if !bits_get(visited, neighbor as usize) {
            proof {
                lemma_count_false_update(bits_of(*visited), neighbor as int, true);
            }
            bits_set(visited, neighbor as usize, true);
            queue.push_back(neighbor);
            assert(queue@.take(old(queue)@.len() as int) =~= old(queue)@);
        }
        i += 1;
    }
}

/// The breadth-first bipartition from `start`: pins are taken from the
/// queue in the order of a breadth-first search, and labelled true until
/// half of the enabled pins are; the search ends with the first pin taken
/// after that, or with the queue.
pub fn bfs_half_from(h: &Bipartite, start: Index) -> (labels: Bipartition)
    requires
        h@.wf(),
        h@.is_pin(start),
        h@.enabled[start as int],
    ensures
        labels@ == bfs_half_labels(h@, start),
        labels@.len() == h@.v.len(),
        forall|p: int| 0 <= p < labels@.len() && labels@[p] ==> h@.enabled[p],
        count_set(labels@) <= h@.num_pins() / 2,
        h@.num_pins() / 2 >= 1 ==> labels@[start as int],
{
    let n = h.pin_index_space_size();
    let quota = h.num_pins() / 2;
    let mut queue: VecDeque<Index> = VecDeque::new();
    queue.push_back(start);
    let mut visited = bits_repeat(false, n);
    bits_set(&mut visited, start as usize, true);
    let mut labels = filled(n, false);
    let mut num_visited: usize = 0;
    proof {
        assert(count_set(labels@) == 0) by {
            lemma_all_clear(labels@);
        }
        assert(queue@ =~= seq![start]);
        lemma_all_clear(Seq::new(n as nat, |i: int| false));
        lemma_count_false_update(Seq::new(n as nat, |i: int| false), start as int, true);
    }
    loop
        invariant_except_break
            num_visited == 0 ==> queue@.len() >= 1 && queue@[0] == start,
            half_labels(
                h@,
                Search { visited: bits_of(visited), queue: queue@ },
                labels@,
                num_visited as nat,
                quota as nat,
                (1 + count_false(bits_of(visited)) + queue@.len()) as nat,
            ) == bfs_half_labels(h@, start),
        invariant
            h@.wf(),
            h@.is_pin(start),
            n == h@.v.len(),
            quota == h@.num_pins() / 2,
            searching(h@, bits_of(visited), queue@),
            labels@.len() == n,
            forall|p: int| 0 <= p < n && labels@[p] ==> h@.enabled[p],
            count_set(labels@) <= num_visited <= quota,
            num_visited >= 1 ==> labels@[start as int],
        ensures
            labels@ == bfs_half_labels(h@, start),
            labels@.len() == n,
            forall|p: int| 0 <= p < n && labels@[p] ==> h@.enabled[p],
            count_set(labels@) <= quota,
            quota >= 1 ==> labels@[start as int],
        decreases count_false(bits_of(visited)) + queue@.len(),
    {
        let ghost waiting = queue@;
        let ghost seen = bits_of(visited);
        let pop = match queue.pop_front() {
            Some(p) => p,
            None => {
                break ;
            },
        };
        assert(queue@ =~= waiting.drop_first());
        assert(h@.is_pin(waiting[0]));
        assert(searching(h@, bits_of(visited), queue@)) by {
            assert forall|i: int| 0 <= i < queue@.len() implies h@.is_pin(#[trigger] queue@[i])
                && h@.enabled[queue@[i] as int] by {
                assert(queue@[i] == waiting[i + 1]);
            }
        }
        enqueue_neighbors(h, pop, &mut visited, &mut queue);
        if num_visited < quota {
            proof {
                lemma_count_set_update(labels@, pop as int);
            }
            labels.set(pop as usize, true);
            num_visited += 1;
        } else {
            break ;
        }
    }
    labels
}

/// No flag of a sequence of `false` is set.
pub proof fn lemma_all_clear(s: Seq<bool>)
    requires
        forall|i: int| 0 <= i < s.len() ==> !s[i],
    ensures
        count_set(s) == 0,
    decreases s.len(),
{
    if s.len() > 0 {
        lemma_all_clear(s.drop_last());
    }
}

/// The breadth-first bipartition from an enabled pin drawn at random; all
/// false where no pin is enabled.
pub fn bfs_half(h: &Bipartite) -> (labels: Bipartition)
    requires
        h@.wf(),
    ensures
        labels@.len() == h@.v.len(),
        forall|p: int| 0 <= p < labels@.len() && labels@[p] ==> h@.enabled[p],
        count_set(labels@) <= h@.num_pins() / 2,
        is_bfs_half(h@, labels@),
{
    match random_vertex(h) {
        Some(start) => bfs_half_from(h, start),
        None => {
            let labels = filled(h.pin_index_space_size(), false);
            proof {
                lemma_all_clear(labels@);
            }
            labels
        },
    }
}

/// The pin that a breadth-first search from `start` takes from its queue
/// last.
pub fn last_bfs(h: &Bipartite, start: Index) -> (last: Index)
    requires
        h@.wf(),
        h@.is_pin(start),
        h@.enabled[start as int],
    ensures
        last == bfs_last(h@, start),
        h@.is_pin(last),
        h@.enabled[last as int],
{
    let n = h.pin_index_space_size();
    let mut queue: VecDeque<Index> = VecDeque::new();
    queue.push_back(start);
    let mut visited = bits_repeat(false, n);
    bits_set(&mut visited, start as usize, true);
    let mut last = start;
    proof {
        assert(queue@ =~= seq![start]);
        lemma_all_clear(Seq::new(n as nat, |i: int| false));
        lemma_count_false_update(Seq::new(n as nat, |i: int| false), start as int, true);
    }
    loop
        invariant_except_break
            last_taken(
                h@,
                Search { visited: bits_of(visited), queue: queue@ },
                last,
                (1 + count_false(bits_of(visited)) + queue@.len()) as nat,
            ) == bfs_last(h@, start),
        invariant
            h@.wf(),
            n == h@.v.len(),
            searching(h@, bits_of(visited), queue@),
            h@.is_pin(last),
            h@.enabled[last as int],
        ensures
            last == bfs_last(h@, start),
            h@.is_pin(last),
            h@.enabled[last as int],
        decreases count_false(bits_of(visited)) + queue@.len(),
    {
        let ghost waiting = queue@;
        let pop = match queue.pop_front() {
            Some(p) => p,
            None => {
                break ;
            },
        };
        assert(queue@ =~= waiting.drop_first());
        assert(h@.is_pin(waiting[0]));
        assert(searching(h@, bits_of(visited), queue@)) by {
            assert forall|i: int| 0 <= i < queue@.len() implies h@.is_pin(#[trigger] queue@[i])
                && h@.enabled[queue@[i] as int] by {
                assert(queue@[i] == waiting[i + 1]);
            }
        }
        enqueue_neighbors(h, pop, &mut visited, &mut queue);
        last = pop;
    }
    last
}

/// Two pins far apart: the last pin of a search from a pin drawn at random,
/// and the last pin of a search from that one. None where no pin is enabled.
pub fn pseudo_peripheral_vertices(h: &Bipartite) -> (ends: Option<(Index, Index)>)
    requires
        h@.wf(),
    ensures
        ends is None <==> h@.num_pins() == 0,
        ends matches Some((a, b)) ==> h@.is_pin(a) && h@.enabled[a as int] && h@.is_pin(b)
            && h@.enabled[b as int] && b == bfs_last(h@, a) && exists|from: Index|
            h@.is_pin(from) && h@.enabled[from as int] && a == #[trigger] bfs_last(h@, from),
{
    match random_vertex(h) {
        Some(v1) => {
            let v2 = last_bfs(h, v1);
            let v3 = last_bfs(h, v2);
            Some((v2, v3))
        },
        None => None,
    }
}

/// The summed capacity of those of the first `k` pins that are labelled
/// `side`.
pub open spec fn label_sum(c: Seq<u64>, labels: Seq<Option<bool>>, side: bool, k: nat) -> nat
    decreases k,
{
    if k == 0 {
        0
    } else {
        label_sum(c, labels, side, (k - 1) as nat) + if labels[k - 1] == Some(side) {
            c[k - 1] as nat
        } else {
            0nat
        }
    }
}

/// How many of the first `k` pins are labelled.
pub open spec fn count_some(labels: Seq<Option<bool>>, k: nat) -> nat
    decreases k,
{
    if k == 0 {
        0
    } else {
        count_some(labels, (k - 1) as nat) + if labels[k - 1] is Some {
            1nat
        } else {
            0nat
        }
    }
}

/// The sums of `label_sum` and the count of `count_some` after the label
/// at `v` changes.
pub proof fn lemma_relabel(
    c: Seq<u64>,
    labels: Seq<Option<bool>>,
    v: int,
    new: Option<bool>,
    side: bool,
    k: nat,
)
    requires
        0 <= v < labels.len(),
        k <= labels.len(),
        c.len() == labels.len(),
    ensures
        label_sum(c, labels.update(v, new), side, k) + (if v < k && labels[v] == Some(side) {
            c[v] as int
        } else {
            0
        }) == label_sum(c, labels, side, k) + (if v < k && new == Some(side) {
            c[v] as int
        } else {
            0
        }),
        count_some(labels.update(v, new), k) + (if v < k && labels[v] is Some {
            1int
        } else {
            0
        }) == count_some(labels, k) + (if v < k && new is Some {
            1int
        } else {
            0
        }),
    decreases k,
{
    if k > 0 {
        lemma_relabel(c, labels, v, new, side, (k - 1) as nat);
    }
}

/// Where only enabled pins are labelled, the two sides together weigh no
/// more than the enabled pins, and no more pins are labelled than there are.
pub proof fn lemma_label_sum_bound(c: Seq<u64>, on: Seq<bool>, labels: Seq<Option<bool>>, k: nat)
    requires
        k <= labels.len(),
        c.len() == labels.len(),
        on.len() == labels.len(),
        forall|p: int| 0 <= p < labels.len() && labels[p] is Some ==> on[p],
    ensures
        label_sum(c, labels, true, k) + label_sum(c, labels, false, k) <= crate::layout::masked_sum(
            c,
            on,
            k,
        ),
        count_some(labels, k) <= k,
    decreases k,
{
    if k > 0 {
        lemma_label_sum_bound(c, on, labels, (k - 1) as nat);
    }
}

/// The labels that label propagation has given so far, with what it keeps
/// account of: the capacity on either side and the number of labelled pins.
pub struct Labelling {
    pub labels: Vec<Option<bool>>,
    pub c1: u64,
    pub c2: u64,
    pub n: usize,
}

impl Labelling {
    /// The accounts are right, and only enabled pins are labelled.
    pub open spec fn wf(&self, s: Layout) -> bool {
        &&& self.labels@.len() == s.v.len()
        &&& forall|p: int| 0 <= p < self.labels@.len() && self.labels@[p] is Some ==> s.enabled[p]
        &&& self.c1 == label_sum(s.c, self.labels@, true, s.v.len())
        &&& self.c2 == label_sum(s.c, self.labels@, false, s.v.len())
        &&& self.n == count_some(self.labels@, s.v.len())
    }

    /// No pin labelled.
    pub fn new(h: &Bipartite) -> (state: Self)
        requires
            h@.sized(),
        ensures
            state.wf(h@),
            forall|p: int| 0 <= p < state.labels@.len() ==> state.labels@[p] is None,
    {
        let n = h.pin_index_space_size();
        let mut labels: Vec<Option<bool>> = Vec::new();
        let mut i: usize = 0;
        while i < n
            invariant
                i <= n,
                labels@.len() == i,
                forall|p: int| 0 <= p < i ==> labels@[p] is None,
            decreases n - i,
        {
            labels.push(None);
            i += 1;
        }
        let state = Labelling { labels, c1: 0, c2: 0, n: 0 };
        proof {
            lemma_unlabelled(h@.c, state.labels@, h@.v.len());
        }
        state
    }

    /// Labels the enabled pin `v` with `side`, and brings the accounts up
    /// to date: a pin that changes sides moves its capacity over, a pin
    /// labelled for the first time adds it and is counted.
    pub fn assign(&mut self, h: &Bipartite, v: Index, side: bool)
        requires
            h@.sized(),
            h@.weighed(),
            old(self).wf(h@),
            h@.is_pin(v),
            h@.enabled[v as int],
        ensures
            final(self).wf(h@),
            final(self).labels@ == old(self).labels@.update(v as int, Some(side)),
            final(self).n == old(self).n + if old(self).labels@[v as int] is None {
                1int
            } else {
                0
            },
    {
        let ghost before = self.labels@;
        let ghost after = before.update(v as int, Some(side));
        proof {
            let k = h@.v.len();
            lemma_relabel(h@.c, before, v as int, Some(side), true, k);
            lemma_relabel(h@.c, before, v as int, Some(side), false, k);
            lemma_label_sum_bound(h@.c, h@.enabled, after, k);
        }
        let old_label = self.labels[v as usize];
        self.labels.set(v as usize, Some(side));
        let c = h.capacity(v);
        match (old_label, side) {
            (Some(false), true) => {
                self.c1 = self.c1 + c;
                self.c2 = self.c2 - c;
            },
            (Some(true), false) => {
                self.c1 = self.c1 - c;
                self.c2 = self.c2 + c;
            },
            (None, true) => {
                self.c1 = self.c1 + c;
                self.n = self.n + 1;
            },
            (None, false) => {
                self.c2 = self.c2 + c;
                self.n = self.n + 1;
            },
            _ => {},
        }
    }
}

/// Where only enabled pins are labelled, no more pins are labelled than
/// are enabled.
pub proof fn lemma_labelled_enabled(labels: Seq<Option<bool>>, on: Seq<bool>, k: nat)
    requires
        k <= labels.len(),
        on.len() == labels.len(),
        forall|p: int| 0 <= p < labels.len() && labels[p] is Some ==> on[p],
    ensures
        count_some(labels, k) + count_false(on.take(k as int)) <= k,
    decreases k,
{
    if k > 0 {
        lemma_labelled_enabled(labels, on, (k - 1) as nat);
        assert(on.take(k as int).drop_last() =~= on.take(k - 1));
    } else {
        assert(on.take(0) =~= Seq::<bool>::empty());
    }
}

/// With no pin labelled the accounts are zero.
pub proof fn lemma_unlabelled(c: Seq<u64>, labels: Seq<Option<bool>>, k: nat)
    requires
        k <= labels.len(),
        forall|p: int| 0 <= p < labels.len() ==> labels[p] is None,
    ensures
        label_sum(c, labels, true, k) == 0,
        label_sum(c, labels, false, k) == 0,
        count_some(labels, k) == 0,
    decreases k,
{
    if k > 0 {
        lemma_unlabelled(c, labels, (k - 1) as nat);
    }
}

/// Net `e` holds a pin labelled `side`.
pub open spec fn net_has_label(
    s: Layout,
    labels: Seq<Option<bool>>,
    e: Index,
    side: bool,
) -> bool {
    exists|k: int| 0 <= k < s.net_size(e) && labels[#[trigger] s.pin_at(e, k) as int] == Some(side)
}

/// The pull of `side` on pin `v` over the first `k` of its nets: the summed
/// weight of those that hold a pin labelled `side`.
pub open spec fn side_pull(
    s: Layout,
    labels: Seq<Option<bool>>,
    v: Index,
    side: bool,
    k: nat,
) -> nat
    decreases k,
{
    if k == 0 {
        0
    } else {
        side_pull(s, labels, v, side, (k - 1) as nat) + if net_has_label(
            s,
            labels,
            s.net_at(v, k - 1),
            side,
        ) {
            s.w[s.net_at(v, k - 1) as int] as nat
        } else {
            0nat
        }
    }
}

/// One of the first `k` nets of pin `v` holds a labelled pin.
pub open spec fn reached(s: Layout, labels: Seq<Option<bool>>, v: Index, k: int) -> bool {
    exists|j: int|
        0 <= j < k && (net_has_label(s, labels, #[trigger] s.net_at(v, j), true) || net_has_label(
            s,
            labels,
            s.net_at(v, j),
            false,
        ))
}

/// The side that label propagation gives a pin of capacity `cap` that is
/// pulled by `w1` to the true side, which holds `c1`, and by `w2` to the
/// false side, which holds `c2`: the side that pulls at least as hard, the
/// true side first; the other side where the pin would bring the preferred
/// one up to the limit; and false where it would do so on both.
pub open spec fn sclap_side(w1: nat, w2: nat, c1: nat, c2: nat, cap: nat, limit: nat) -> bool {
    let fits_true = c1 + cap < limit;
    let fits_false = c2 + cap < limit;
    fits_true && (w1 >= w2 || !fits_false)
}

/// The side for a pin, by `sclap_side`.
pub fn choose_side(w1: u128, w2: u128, c1: u64, c2: u64, cap: u64, limit: u128) -> (side: bool)
    ensures
        side == sclap_side(w1 as nat, w2 as nat, c1 as nat, c2 as nat, cap as nat, limit as nat),
{
    let fits_true = (c1 as u128) + (cap as u128) < limit;
    let fits_false = (c2 as u128) + (cap as u128) < limit;
    fits_true && (w1 >= w2 || !fits_false)
}

/// Whether net `e` holds a pin labelled `side`.
fn net_labelled(h: &Bipartite, labels: &Vec<Option<bool>>, e: Index, side: bool) -> (found: bool)
    requires
        h@.safe(),
        h@.is_net(e),
        labels@.len() == h@.v.len(),
    ensures
        found == net_has_label(h@, labels@, e, side),
{
    let n = h.net_size(e);
    let mut k: usize = 0;
    while k < n
        invariant
            h@.safe(),
            h@.is_net(e),
            labels@.len() == h@.v.len(),
            n == h@.net_size(e),
            k <= n,
            forall|j: int| 0 <= j < k ==> labels@[#[trigger] h@.pin_at(e, j) as int] != Some(side),
        decreases n - k,
    {
        let p = h.pin_in_net(e, k);
        match labels[p as usize] {
            Some(l) => {
                if l == side {
                    return true;
                }
            },
            None => {},
        }
        k += 1;
    }
    false
}

/// A pull over `k` nets is at most `k` times the greatest weight.
pub proof fn lemma_pull_bound(s: Layout, labels: Seq<Option<bool>>, v: Index, side: bool, k: nat)
    ensures
        side_pull(s, labels, v, side, k) <= k * 0xffff_ffff_ffff_ffff,
    decreases k,
{
    if k > 0 {
        lemma_pull_bound(s, labels, v, side, (k - 1) as nat);
        assert(k * 0xffff_ffff_ffff_ffff == (k - 1) * 0xffff_ffff_ffff_ffff + 0xffff_ffff_ffff_ffff)
            by (nonlinear_arith);
    }
}

/// The pulls of the two sides on pin `v`, and whether any of its nets
/// holds a labelled pin.
pub fn pull(h: &Bipartite, labels: &Vec<Option<bool>>, v: Index) -> (r: (u128, u128, bool))
    requires
        h@.safe(),
        h@.is_pin(v),
        labels@.len() == h@.v.len(),
    ensures
        r.0 == side_pull(h@, labels@, v, true, h@.degree(v) as nat),
        r.1 == side_pull(h@, labels@, v, false, h@.degree(v) as nat),
        r.2 == reached(h@, labels@, v, h@.degree(v)),
{
    let d = h.degree(v);
    let mut w1: u128 = 0;
    let mut w2: u128 = 0;
    let mut any = false;
    let mut k: usize = 0;
    while k < d
        invariant
            h@.safe(),
            h@.is_pin(v),
            labels@.len() == h@.v.len(),
            d == h@.degree(v),
            k <= d,
            w1 == side_pull(h@, labels@, v, true, k as nat),
            w2 == side_pull(h@, labels@, v, false, k as nat),
            any == reached(h@, labels@, v, k as int),
        decreases d - k,
    {
        proof {
            lemma_pull_bound(h@, labels@, v, true, (k + 1) as nat);
            lemma_pull_bound(h@, labels@, v, false, (k + 1) as nat);
            assert((k + 1) * 0xffff_ffff_ffff_ffff <= 0xffff_ffff_ffff_ffff * 0xffff_ffff_ffff_ffff)
                by (nonlinear_arith)
                requires
                    k + 1 <= 0xffff_ffff_ffff_ffff,
            ;
        }
        let e = h.incident_net(v, k);
        let w: u128 = h.weight(e) as u128;
        let has1 = net_labelled(h, labels, e, true);
        let has2 = net_labelled(h, labels, e, false);
        if has1 {
            w1 = w1 + w;
        }
        if has2 {
            w2 = w2 + w;
        }
        proof {
            if reached(h@, labels@, v, k + 1) {
                let j = choose|j: int|
                    0 <= j < k + 1 && (net_has_label(h@, labels@, #[trigger] h@.net_at(v, j), true)
                        || net_has_label(h@, labels@, h@.net_at(v, j), false));
                if j < k {
                    assert(reached(h@, labels@, v, k as int));
                }
            }
            if reached(h@, labels@, v, k as int) {
                let j = choose|j: int|
                    0 <= j < k && (net_has_label(h@, labels@, #[trigger] h@.net_at(v, j), true)
                        || net_has_label(h@, labels@, h@.net_at(v, j), false));
                assert(0 <= j < k + 1 && (net_has_label(h@, labels@, h@.net_at(v, j), true)
                    || net_has_label(h@, labels@, h@.net_at(v, j), false)));
            }
            if has1 || has2 {
                assert(0 <= k < k + 1 && (net_has_label(h@, labels@, h@.net_at(v, k as int), true)
                    || net_has_label(h@, labels@, h@.net_at(v, k as int), false)));
            }
        }
        any = any || has1 || has2;
        k += 1;
    }
    (w1, w2, any)
}

/// `labels` with the first `k` of `pins` labelled `side`, one after the
/// other.
pub open spec fn with_labels(
    labels: Seq<Option<bool>>,
    pins: Seq<Index>,
    side: bool,
    k: nat,
) -> Seq<Option<bool>>
    decreases k,
{
    if k == 0 {
        labels
    } else {
        with_labels(labels, pins, side, (k - 1) as nat).update(pins[k - 1] as int, Some(side))
    }
}

/// The smaller of two numbers.
pub open spec fn least(a: int, b: int) -> int {
    if a <= b {
        a
    } else {
        b
    }
}

/// The labels that label propagation starts from: the first seed true,
/// the second false, then up to `TAU` of the first seed's neighbours true
/// and up to `TAU` of the second's false, each in the order given.
pub open spec fn seed_labels(
    n: nat,
    v1: Index,
    v2: Index,
    n1: Seq<Index>,
    n2: Seq<Index>,
) -> Seq<Option<bool>> {
    let blank = Seq::new(n, |i: int| None::<bool>);
    let seeded = blank.update(v1 as int, Some(true)).update(v2 as int, Some(false));
    let first = with_labels(seeded, n1, true, least(n1.len() as int, 5) as nat);
    with_labels(first, n2, false, least(n2.len() as int, 5) as nat)
}

/// Labels up to `TAU` of `pins`, from the front, with `side`.
fn seed_side(state: &mut Labelling, h: &Bipartite, pins: &Vec<Index>, side: bool)
    requires
        h@.sized(),
        h@.weighed(),
        old(state).wf(h@),
        forall|i: int|
            0 <= i < pins.len() ==> h@.is_pin(#[trigger] pins[i]) && h@.enabled[pins[i] as int],
    ensures
        final(state).wf(h@),
        final(state).labels@ == with_labels(
            old(state).labels@,
            pins@,
            side,
            least(pins.len() as int, 5) as nat,
        ),
{
    let mut i: usize = 0;
    while i < pins.len() && i < TAU
        invariant
            h@.sized(),
            h@.weighed(),
            state.wf(h@),
            forall|j: int|
                0 <= j < pins.len() ==> h@.is_pin(#[trigger] pins[j]) && h@.enabled[pins[j] as int],
            i <= pins.len(),
            i <= TAU,
            state.labels@ == with_labels(old(state).labels@, pins@, side, i as nat),
        decreases pins.len() - i,
    {
        state.assign(h, pins[i], side);
        i += 1;
    }
}

/// The labels after a sweep has passed the pins below `v`, in rising
/// order: each enabled pin without a label, one of whose nets holds a
/// labelled pin, gets the side that `sclap_side` gives it for the labels as
/// they are when the sweep comes to it.
pub open spec fn swept(s: Layout, labels: Seq<Option<bool>>, limit: nat, v: nat) -> Seq<
    Option<bool>,
>
    decreases v,
{
    if v == 0 {
        labels
    } else {
        let before = swept(s, labels, limit, (v - 1) as nat);
        let p = (v - 1) as Index;
        if s.enabled[p as int] && before[p as int] is None && reached(
            s,
            before,
            p,
            s.degree(p),
        ) {
            before.update(
                p as int,
                Some(
                    sclap_side(
                        side_pull(s, before, p, true, s.degree(p) as nat),
                        side_pull(s, before, p, false, s.degree(p) as nat),
                        label_sum(s.c, before, true, s.v.len()),
                        label_sum(s.c, before, false, s.v.len()),
                        s.c[p as int] as nat,
                        limit,
                    ),
                ),
            )
        } else {
            before
        }
    }
}

/// The labels when propagation has come to rest: sweep follows sweep until
/// every enabled pin is labelled or a sweep changes nothing. `fuel` bounds
/// the number of sweeps.
pub open spec fn propagated(s: Layout, labels: Seq<Option<bool>>, limit: nat, fuel: nat) -> Seq<
    Option<bool>,
>
    decreases fuel,
{
    if fuel == 0 || count_some(labels, s.v.len()) >= s.num_pins() {
        labels
    } else {
        let next = swept(s, labels, limit, s.v.len());
        if next == labels {
            labels
        } else {
            propagated(s, next, limit, (fuel - 1) as nat)
        }
    }
}

/// The bipartition by label propagation from the seeds `v1` and `v2` and
/// the neighbours `n1` and `n2` given for them: a pin is true where
/// propagation from the seed labels labels it true.
pub open spec fn sclap_labels(
    s: Layout,
    epsilon: nat,
    v1: Index,
    v2: Index,
    n1: Seq<Index>,
    n2: Seq<Index>,
) -> Seq<bool> {
    let settled = propagated(
        s,
        seed_labels(s.v.len(), v1, v2, n1, n2),
        s.size_constraint(epsilon),
        s.v.len() + 1,
    );
    Seq::new(s.v.len(), |p: int| settled[p] == Some(true))
}

/// One sweep of label propagation over the pins in rising order: each
/// enabled pin that has no label yet, and has a net that holds a labelled
/// pin, gets the side that `sclap_side` gives it. Says whether any pin got a
/// label.
fn sweep(state: &mut Labelling, h: &Bipartite, limit: u128) -> (progress: bool)
    requires
        h@.wf(),
        old(state).wf(h@),
    ensures
        final(state).wf(h@),
        final(state).labels@ == swept(h@, old(state).labels@, limit as nat, h@.v.len()),
        forall|p: int|
            0 <= p < old(state).labels@.len() && old(state).labels@[p] is Some
                ==> final(state).labels@[p] == old(state).labels@[p],
        progress ==> final(state).n > old(state).n,
        !progress ==> final(state).labels@ == old(state).labels@,
{
    let n = h.pin_index_space_size();
    let mut progress = false;
    let mut v: usize = 0;
    while v < n
        invariant
            h@.wf(),
            n == h@.v.len(),
            v <= n,
            state.wf(h@),
            state.labels@ == swept(h@, old(state).labels@, limit as nat, v as nat),
            state.labels@.len() == old(state).labels@.len(),
            forall|p: int|
                0 <= p < old(state).labels@.len() && old(state).labels@[p] is Some
                    ==> state.labels@[p] == old(state).labels@[p],
            progress ==> state.n > old(state).n,
            !progress ==> state.labels@ == old(state).labels@,
            state.n >= old(state).n,
        decreases n - v,
    {
        if h.enabled(v as Index) && state.labels[v].is_none() {
            let (w1, w2, any) = pull(h, &state.labels, v as Index);
            if any {
                let side = choose_side(w1, w2, state.c1, state.c2, h.capacity(v as Index), limit);
                state.assign(h, v as Index, side);
                progress = true;
            }
        }
        v += 1;
    }
    progress
}

/// Label propagation from given seeds: the seeds and up to `TAU` of the
/// neighbours given for each are labelled, then sweeps follow until every
/// enabled pin is labelled or a sweep labels none. A pin that no sweep
/// reaches is labelled false.
pub fn label_propagation_from(
    h: &Bipartite,
    epsilon: u32,
    v1: Index,
    v2: Index,
    n1: &Vec<Index>,
    n2: &Vec<Index>,
) -> (labels: Bipartition)
    requires
        h@.wf(),
        h@.is_pin(v1),
        h@.enabled[v1 as int],
        h@.is_pin(v2),
        h@.enabled[v2 as int],
        forall|i: int| 0 <= i < n1.len() ==> h@.is_pin(#[trigger] n1[i]) && h@.enabled[n1[i] as int],
        forall|i: int| 0 <= i < n2.len() ==> h@.is_pin(#[trigger] n2[i]) && h@.enabled[n2[i] as int],
    ensures
        labels@ == sclap_labels(h@, epsilon as nat, v1, v2, n1@, n2@),
        labels@.len() == h@.v.len(),
        forall|p: int| 0 <= p < labels@.len() && labels@[p] ==> h@.enabled[p],
        forall|p: int|
            0 <= p < labels@.len() ==> (#[trigger] seed_labels(h@.v.len(), v1, v2, n1@, n2@)[p]
                matches Some(side) ==> labels@[p] == side),
{
    let n = h.pin_index_space_size();
    let mut state = Labelling::new(h);
    assert(state.labels@ =~= Seq::new(n as nat, |i: int| None::<bool>));
    state.assign(h, v1, true);
    state.assign(h, v2, false);
    seed_side(&mut state, h, n1, true);
    seed_side(&mut state, h, n2, false);
    let ghost seeds = state.labels@;
    assert(seeds == seed_labels(h@.v.len(), v1, v2, n1@, n2@));
    let limit = h.size_constraint(epsilon);
    let enabled_pins = h.num_pins();
    let ghost sweeps: nat = 0;
    let ghost settled = propagated(h@, seeds, limit as nat, (n + 1) as nat);
    proof {
        lemma_count_false_bound(h@.enabled);
    }
    while state.n < enabled_pins
        invariant_except_break
            propagated(h@, state.labels@, limit as nat, (n + 1 - sweeps) as nat) == settled,
            sweeps <= state.n,
        invariant
            h@.wf(),
            state.wf(h@),
            n == h@.v.len(),
            enabled_pins == h@.num_pins(),
            enabled_pins <= n,
            seeds.len() == n,
            forall|p: int|
                0 <= p < seeds.len() && seeds[p] is Some ==> state.labels@[p] == seeds[p],
        ensures
            state.labels@ == settled,
        decreases enabled_pins - state.n,
    {
        let ghost before = state.labels@;
        let progress = sweep(&mut state, h, limit);
        proof {
            sweeps = sweeps + 1;
        }
        proof {
            lemma_labelled_enabled(state.labels@, h@.enabled, h@.v.len());
            assert(h@.enabled.take(h@.v.len() as int) =~= h@.enabled);
        }
        assert forall|p: int| 0 <= p < seeds.len() && seeds[p] is Some implies state.labels@[p]
            == seeds[p] by {
            assert(before[p] == seeds[p]);
        }
        if !progress {
            break ;
        }
    }
    let mut labels: Vec<bool> = Vec::new();
    let mut p: usize = 0;
    while p < n
        invariant
            state.wf(h@),
            n == h@.v.len(),
            p <= n,
            labels@.len() == p,
            forall|q: int|
                0 <= q < p ==> labels@[q] == (state.labels@[q] matches Some(side) && side),
        decreases n - p,
    {
        let side = match state.labels[p] {
            Some(side) => side,
            None => false,
        };
        labels.push(side);
        p += 1;
    }
    assert(labels@ =~= sclap_labels(h@, epsilon as nat, v1, v2, n1@, n2@));
    labels
}

/// Size-constrained label propagation: the seeds are two pins far apart,
/// found by searches from a pin drawn at random, and up to `TAU` neighbours
/// of each, taken in shuffled order. All false where no pin is enabled.
pub fn size_constrained_label_propagation(h: &Bipartite, epsilon: u32) -> (labels: Bipartition)
    requires
        h@.wf(),
    ensures
        labels@.len() == h@.v.len(),
        forall|p: int| 0 <= p < labels@.len() && labels@[p] ==> h@.enabled[p],
        is_sclap(h@, epsilon as nat, labels@),
{
    match pseudo_peripheral_vertices(h) {
        Some((v1, v2)) => {
            let mut n1 = h.incident_pins(v1);
            let mut n2 = h.incident_pins(v2);
            let ghost near1 = n1@;
            let ghost near2 = n2@;
            shuffle(&mut n1);
            shuffle(&mut n2);
            proof {
                broadcast use vstd::seq_lib::group_to_multiset_ensures;

                assert forall|i: int| 0 <= i < n1.len() implies h@.is_pin(#[trigger] n1[i])
                    && h@.enabled[n1[i] as int] by {
                    assert(n1@.contains(n1[i]));
                    assert(n1@.to_multiset().count(n1[i]) > 0);
                    assert(near1.contains(n1[i]));
                }
                assert forall|i: int| 0 <= i < n2.len() implies h@.is_pin(#[trigger] n2[i])
                    && h@.enabled[n2[i] as int] by {
                    assert(n2@.contains(n2[i]));
                    assert(n2@.to_multiset().count(n2[i]) > 0);
                    assert(near2.contains(n2[i]));
                }
            }
            label_propagation_from(h, epsilon, v1, v2, &n1, &n2)
        },
        None => filled(h.pin_index_space_size(), false),
    }
}

/// The score of a bipartition, smaller is better: first the capacity of
/// its heavier side or the limit, whichever is greater, then the weight of
/// its cut.
pub open spec fn score(s: Layout, labels: Seq<bool>, limit: nat) -> (nat, nat) {
    (
        if s.imbalance(labels) >= limit {
            s.imbalance(labels)
        } else {
            limit
        },
        s.cut_weight(labels),
    )
}

/// Score `a` is strictly better than score `b`.
pub open spec fn better(a: (nat, nat), b: (nat, nat)) -> bool {
    a.0 < b.0 || (a.0 == b.0 && a.1 < b.1)
}

/// Candidate `i` is the first of the best: none scores better, and each
/// before it scores worse.
pub open spec fn is_first_best(s: Layout, candidates: Seq<Vec<bool>>, limit: nat, i: int) -> bool {
    &&& 0 <= i < candidates.len()
    &&& forall|j: int|
        0 <= j < candidates.len() ==> !better(
            score(s, (#[trigger] candidates[j])@, limit),
            score(s, candidates[i]@, limit),
        )
    &&& forall|j: int|
        0 <= j < i ==> better(
            score(s, candidates[i]@, limit),
            score(s, (#[trigger] candidates[j])@, limit),
        )
}

/// The first of the best candidates.
pub fn select_best(h: &Bipartite, candidates: &Vec<Bipartition>, limit: u128) -> (best: usize)
    requires
        h@.safe(),
        h@.weighed(),
        candidates@.len() >= 1,
        forall|j: int| 0 <= j < candidates@.len() ==> (#[trigger] candidates@[j])@.len() == h@.v.len(),
    ensures
        is_first_best(h@, candidates@, limit as nat, best as int),
{
    let first = h.evaluate_bipartition(&candidates[0]);
    let mut best: usize = 0;
    let mut best_balance: u128 = if first.0 as u128 >= limit {
        first.0 as u128
    } else {
        limit
    };
    let mut best_cut: u64 = first.1;
    let mut i: usize = 1;
    while i < candidates.len()
        invariant
            h@.safe(),
            h@.weighed(),
            forall|j: int|
                0 <= j < candidates@.len() ==> (#[trigger] candidates@[j])@.len() == h@.v.len(),
            best < i <= candidates.len(),
            (best_balance as nat, best_cut as nat) == score(
                h@,
                candidates@[best as int]@,
                limit as nat,
            ),
            forall|j: int|
                0 <= j < i ==> !better(
                    score(h@, (#[trigger] candidates@[j])@, limit as nat),
                    score(h@, candidates@[best as int]@, limit as nat),
                ),
            forall|j: int|
                0 <= j < best ==> better(
                    score(h@, candidates@[best as int]@, limit as nat),
                    score(h@, (#[trigger] candidates@[j])@, limit as nat),
                ),
        decreases candidates.len() - i,
    {
        let eval = h.evaluate_bipartition(&candidates[i]);
        let balance: u128 = if eval.0 as u128 >= limit {
            eval.0 as u128
        } else {
            limit
        };
        if balance < best_balance || (balance == best_balance && eval.1 < best_cut) {
            best = i;
            best_balance = balance;
            best_cut = eval.1;
        }
        i += 1;
    }
    best
}

/// `labels` is a breadth-first bipartition from some enabled pin; all false
/// where no pin is enabled.
pub open spec fn is_bfs_half(s: Layout, labels: Seq<bool>) -> bool {
    if s.num_pins() == 0 {
        labels == Seq::new(s.v.len(), |i: int| false)
    } else {
        exists|start: Index|
            s.is_pin(start) && s.enabled[start as int] && labels == #[trigger] bfs_half_labels(
                s,
                start,
            )
    }
}

/// `labels` is a bipartition by label propagation from two seeds, the
/// second the pin that a search from the first takes last, and from the
/// neighbours of each in some order; all false where no pin is enabled.
pub open spec fn is_sclap(s: Layout, epsilon: nat, labels: Seq<bool>) -> bool {
    if s.num_pins() == 0 {
        labels == Seq::new(s.v.len(), |i: int| false)
    } else {
        exists|v1: Index, v2: Index, n1: Seq<Index>, n2: Seq<Index>|
            labels == #[trigger] sclap_labels(s, epsilon, v1, v2, n1, n2) && s.is_pin(v1)
                && s.is_pin(v2) && v2 == bfs_last(s, v1) && n1.to_multiset() == s.neighbors(
                v1,
            ).to_multiset() && n2.to_multiset() == s.neighbors(v2).to_multiset()
    }
}

/// `candidates` is a portfolio: sixty bipartitions, of which the second
/// twenty are breadth-first ones and the last twenty are by label
/// propagation.
pub open spec fn is_portfolio(s: Layout, epsilon: nat, candidates: Seq<Vec<bool>>) -> bool {
    &&& candidates.len() == 60
    &&& forall|j: int| 0 <= j < 60 ==> (#[trigger] candidates[j])@.len() == s.v.len()
    &&& forall|j: int| 20 <= j < 40 ==> is_bfs_half(s, (#[trigger] candidates[j])@)
    &&& forall|j: int| 40 <= j < 60 ==> is_sclap(s, epsilon, (#[trigger] candidates[j])@)
}

/// The portfolio: `NUM_ITERS` random bipartitions, then as many
/// breadth-first ones, then as many by label propagation.
pub fn portfolio(h: &Bipartite, epsilon: u32) -> (candidates: Vec<Bipartition>)
    requires
        h@.wf(),
    ensures
        is_portfolio(h@, epsilon as nat, candidates@),
{
    let mut candidates: Vec<Bipartition> = Vec::new();
    let mut i: usize = 0;
    while i < NUM_ITERS
        invariant
            i <= NUM_ITERS,
            candidates@.len() == i,
            forall|j: int|
                0 <= j < candidates@.len() ==> (#[trigger] candidates@[j])@.len() == h@.v.len(),
        decreases NUM_ITERS - i,
    {
        candidates.push(random_partitioning(h));
        i += 1;
    }
    i = 0;
    while i < NUM_ITERS
        invariant
            h@.wf(),
            i <= NUM_ITERS,
            candidates@.len() == NUM_ITERS + i,
            forall|j: int|
                0 <= j < candidates@.len() ==> (#[trigger] candidates@[j])@.len() == h@.v.len(),
            forall|j: int|
                20 <= j < candidates@.len() ==> is_bfs_half(h@, (#[trigger] candidates@[j])@),
        decreases NUM_ITERS - i,
    {
        candidates.push(bfs_half(h));
        i += 1;
    }
    i = 0;
    while i < NUM_ITERS
        invariant
            h@.wf(),
            i <= NUM_ITERS,
            candidates@.len() == 2 * NUM_ITERS + i,
            forall|j: int|
                0 <= j < candidates@.len() ==> (#[trigger] candidates@[j])@.len() == h@.v.len(),
            forall|j: int| 20 <= j < 40 ==> is_bfs_half(h@, (#[trigger] candidates@[j])@),
            forall|j: int|
                40 <= j < candidates@.len() ==> is_sclap(
                    h@,
                    epsilon as nat,
                    (#[trigger] candidates@[j])@,
                ),
        decreases NUM_ITERS - i,
    {
        candidates.push(size_constrained_label_propagation(h, epsilon));
        i += 1;
    }
    candidates
}

/// `labels` is an initial bipartition: the first of the best of some
/// portfolio, scored against the size constraint at tolerance `epsilon`.
pub open spec fn is_initial(s: Layout, epsilon: nat, labels: Seq<bool>) -> bool {
    exists|candidates: Seq<Vec<bool>>, i: int|
        is_portfolio(s, epsilon, candidates) && #[trigger] is_first_best(
            s,
            candidates,
            s.size_constraint(epsilon),
            i,
        ) && labels == candidates[i]@
}

/// An initial bipartition of the coarse hypergraph: the first of the best
/// of the sixty candidates of the portfolio, scored against the size
/// constraint at tolerance `epsilon`.
pub fn initial_partitioning(h: &Bipartite, epsilon: u32) -> (labels: Bipartition)
    requires
        h@.wf(),
    ensures
        labels@.len() == h@.v.len(),
        is_initial(h@, epsilon as nat, labels@),
{
    let mut candidates = portfolio(h, epsilon);
    let limit = h.size_constraint(epsilon);
    let best = select_best(h, &candidates, limit);
    let ghost all = candidates@;
    let labels = candidates.swap_remove(best);
    assert(is_portfolio(h@, epsilon as nat, all) && is_first_best(
        h@,
        all,
        h@.size_constraint(epsilon as nat),
        best as int,
    ) && labels@ == all[best as int]@);
    labels
}

} // verus!
