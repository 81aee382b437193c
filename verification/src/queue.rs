//! A max-priority queue of keyed entries, kept as a binary heap. The
//! coarsener and the refiner use it alike: entries are never changed in
//! place, a caller that finds a popped entry out of date pushes a fresh one.

use vstd::prelude::*;
use vstd::multiset::Multiset;
use crate::layout::Index;

verus! {

/// A queue entry: a key and the one or two pins it speaks of.
#[derive(Clone, Copy, Debug, PartialEq, Eq)]
pub struct Entry {
    pub key: i128,
    pub first: Index,
    pub second: Index,
}

/// `a` comes out of the queue no earlier than `b`: entries are ordered by
/// key, then by first pin, then by second pin.
pub open spec fn precedes(a: Entry, b: Entry) -> bool {
    a.key < b.key || (a.key == b.key && (a.first < b.first || (a.first == b.first && a.second
        <= b.second)))
}

/// Whether `a` is strictly behind `b` in the queue's order.
fn behind(a: Entry, b: Entry) -> (r: bool)
    ensures
        r == !precedes(b, a),
{
    a.key < b.key || (a.key == b.key && (a.first < b.first || (a.first == b.first && a.second
        < b.second)))
}

/// The place above place `i` in the heap.
pub open spec fn parent(i: int) -> int {
    (i - 1) / 2
}

/// The entry at place `i` comes out no earlier than the one above it.
pub open spec fn below(s: Seq<Entry>, i: int) -> bool {
    precedes(s[i], s[parent(i)])
}

/// The entries are in heap order: each comes out no earlier than the one
/// above it.
pub open spec fn heap_ok(s: Seq<Entry>) -> bool {
    forall|i: int| 1 <= i < s.len() ==> #[trigger] below(s, i)
}

/// In heap order but for place `hole`, whose entry may come out later than
/// the one above it; the entries under `hole` are in order with the entry
/// above `hole`.
pub open spec fn rising(s: Seq<Entry>, hole: int) -> bool {
    &&& forall|i: int| 1 <= i < s.len() && i != hole ==> #[trigger] below(s, i)
    &&& hole >= 1 ==> forall|c: int|
        1 <= c < s.len() && parent(c) == hole ==> precedes(#[trigger] s[c], s[parent(hole)])
}

/// In heap order but for the places under `hole`, whose entries may come
/// out earlier than the one at `hole`; they are in order with the entry
/// above `hole`.
pub open spec fn sinking(s: Seq<Entry>, hole: int) -> bool {
    &&& forall|i: int| 1 <= i < s.len() && parent(i) != hole ==> #[trigger] below(s, i)
    &&& hole >= 1 ==> forall|c: int|
        1 <= c < s.len() && parent(c) == hole ==> precedes(#[trigger] s[c], s[parent(hole)])
}

/// In heap order the first entry is a greatest.
pub proof fn lemma_root_max(s: Seq<Entry>, i: int)
    requires
        heap_ok(s),
        0 <= i < s.len(),
    ensures
        precedes(s[i], s[0]),
    decreases i,
{
    if i > 0 {
        assert(below(s, i));
        lemma_root_max(s, parent(i));
    }
}

/// Two entries changing places leaves the entries what they were.
pub proof fn lemma_swap(s: Seq<Entry>, i: int, j: int)
    requires
        0 <= i < s.len(),
        0 <= j < s.len(),
    ensures
        s.update(i, s[j]).update(j, s[i]).to_multiset() == s.to_multiset(),
{
    broadcast use vstd::multiset::group_multiset_axioms;
    broadcast use vstd::multiset::group_multiset_properties;

    if i == j {
        assert(s.update(i, s[j]).update(j, s[i]) =~= s);
    } else {
        let m = s.to_multiset();
        assert(s.contains(s[i]) && s.contains(s[j]));
        vstd::seq_lib::to_multiset_contains(s, s[i]);
        vstd::seq_lib::to_multiset_contains(s, s[j]);
        vstd::seq_lib::to_multiset_update(s, i, s[j]);
        vstd::seq_lib::to_multiset_update(s.update(i, s[j]), j, s[i]);
        assert(m.insert(s[j]).remove(s[i]).insert(s[i]).remove(s[j]) =~= m);
    }
}

/// Lets the entries at `i` and `j` change places.
fn swap(items: &mut Vec<Entry>, i: usize, j: usize)
    requires
        i < old(items).len(),
        j < old(items).len(),
    ensures
        final(items)@ == old(items)@.update(i as int, old(items)@[j as int]).update(
            j as int,
            old(items)@[i as int],
        ),
        final(items)@.to_multiset() == old(items)@.to_multiset(),
{
    proof {
        lemma_swap(items@, i as int, j as int);
    }
    let a = items[i];
    let b = items[j];
    items.set(i, b);
    items.set(j, a);
}

/// Moves the entry at `hole` up until the entry above it comes out no
/// later.
fn sift_up(items: &mut Vec<Entry>, hole: usize)
    requires
        hole < old(items).len(),
        rising(old(items)@, hole as int),
    ensures
        heap_ok(final(items)@),
        final(items)@.to_multiset() == old(items)@.to_multiset(),
{
    let mut i = hole;
    while i > 0
        invariant
            i < items.len(),
            rising(items@, i as int),
            items@.to_multiset() == old(items)@.to_multiset(),
        ensures
            heap_ok(items@),
            items@.to_multiset() == old(items)@.to_multiset(),
        decreases i,
    {
        let up = (i - 1) / 2;
        if !behind(items[up], items[i]) {
            assert(below(items@, i as int));
            break ;
        }
        let ghost before = items@;
        swap(items, up, i);
        proof {
            assert forall|j: int| 1 <= j < items@.len() && j != up implies #[trigger] below(
                items@,
                j,
            ) by {
                if j != i {
                    assert(below(before, j));
                    if parent(j) == i {
                        assert(precedes(before[j], before[parent(i as int)]));
                    }
                }
            }
            if up >= 1 {
                assert forall|c: int| 1 <= c < items@.len() && parent(c) == up implies precedes(
                    #[trigger] items@[c],
                    items@[parent(up as int)],
                ) by {
                    assert(below(before, up as int));
                    if c != i {
                        assert(below(before, c));
                    }
                }
            }
        }
        i = up;
    }
}

/// Moves the entry at `hole` down until no entry under it comes out
/// earlier.
fn sift_down(items: &mut Vec<Entry>, hole: usize)
    requires
        hole < old(items).len(),
        sinking(old(items)@, hole as int),
    ensures
        heap_ok(final(items)@),
        final(items)@.to_multiset() == old(items)@.to_multiset(),
{
    let n = items.len();
    let mut i = hole;
    while i < n / 2
        invariant
            n == items.len(),
            i < n,
            sinking(items@, i as int),
            items@.to_multiset() == old(items)@.to_multiset(),
        ensures
            heap_ok(items@),
            items@.to_multiset() == old(items)@.to_multiset(),
        decreases n - i,
    {
        let left = 2 * i + 1;
        let right = 2 * i + 2;
        let mut child = left;
        if right < n && behind(items[left], items[right]) {
            child = right;
        }
        if !behind(items[i], items[child]) {
            assert forall|j: int| 1 <= j < items@.len() implies #[trigger] below(items@, j) by {
                if parent(j) == i {
                    assert(j == left || j == right);
                }
            }
            break ;
        }
        let ghost before = items@;
        swap(items, i, child);
        proof {
            assert forall|j: int| 1 <= j < items@.len() && parent(j) != child implies #[trigger] below(
                items@,
                j,
            ) by {
                if parent(j) == i {
                    assert(j == left || j == right);
                } else if j == i {
                    assert(precedes(before[child as int], before[parent(i as int)]));
                } else {
                    assert(below(before, j));
                }
            }
            assert forall|c: int| 1 <= c < items@.len() && parent(c) == child implies precedes(
                #[trigger] items@[c],
                items@[parent(child as int)],
            ) by {
                assert(below(before, c));
            }
        }
        i = child;
    }
    proof {
        if i >= n / 2 {
            assert forall|j: int| 1 <= j < items@.len() implies #[trigger] below(items@, j) by {
                assert(parent(j) != i);
            }
        }
    }
}

/// The queue: a binary heap. Its view is the multiset of the entries it
/// holds.
pub struct Queue {
    items: Vec<Entry>,
}

impl View for Queue {
    type V = Multiset<Entry>;

    closed spec fn view(&self) -> Multiset<Entry> {
        self.items@.to_multiset()
    }
}

impl Queue {
    /// The entries are kept in heap order.
    #[verifier::type_invariant]
    spec fn ordered(self) -> bool {
        heap_ok(self.items@)
    }

    /// An empty queue.
    pub fn new() -> (q: Self)
        ensures
            q@ == Multiset::<Entry>::empty(),
    {
        let q = Queue { items: Vec::new() };
        proof {
            broadcast use vstd::seq_lib::group_to_multiset_ensures;

            assert(q.items@ =~= Seq::<Entry>::empty());
            assert(q@ =~= Multiset::<Entry>::empty());
        }
        q
    }

    /// The number of entries.
    pub fn len(&self) -> (n: usize)
        ensures
            n == self@.len(),
    {
        proof {
            broadcast use vstd::seq_lib::group_to_multiset_ensures;

        }
        self.items.len()
    }

    /// Adds an entry.
    pub fn push(&mut self, entry: Entry)
        ensures
            final(self)@ == old(self)@.insert(entry),
    {
        proof {
            use_type_invariant(&*self);
            broadcast use vstd::seq_lib::group_to_multiset_ensures;

        }
        let mut items: Vec<Entry> = Vec::new();
        std::mem::swap(&mut items, &mut self.items);
        let ghost before = items@;
        items.push(entry);
        proof {
            assert forall|i: int| 1 <= i < items@.len() && i != items@.len() - 1 implies #[trigger] below(
                items@,
                i,
            ) by {
                assert(below(before, i));
            }
        }
        let last = items.len() - 1;
        sift_up(&mut items, last);
        self.items = items;
    }

    /// Takes out the greatest entry, if there is any entry.
    pub fn pop(&mut self) -> (top: Option<Entry>)
        ensures
            top is None <==> old(self)@.len() == 0,
            top is None ==> final(self)@ == old(self)@,
            top matches Some(e) ==> e == self::top(old(self)@) && old(self)@.contains(e),
            top matches Some(e) ==> final(self)@ == old(self)@.remove(e),
            top matches Some(e) ==> forall|x: Entry| old(self)@.contains(x) ==> precedes(x, e),
    {
        proof {
            use_type_invariant(&*self);
            broadcast use vstd::seq_lib::group_to_multiset_ensures;

        }
        let n = self.items.len();
        if n == 0 {
            return None;
        }
        let mut items: Vec<Entry> = Vec::new();
        std::mem::swap(&mut items, &mut self.items);
        let ghost before = items@;
        proof {
            assert forall|x: Entry| before.to_multiset().contains(x) implies precedes(
                x,
                before[0],
            ) by {
                assert(before.contains(x));
                let j = choose|j: int| 0 <= j < before.len() && before[j] == x;
                lemma_root_max(before, j);
            }
            assert(before.contains(before[0]));
            lemma_top(before.to_multiset(), before[0]);
        }
        swap(&mut items, 0, n - 1);
        let ghost swapped = items@;
        let e = items.pop().unwrap();
        proof {
            assert(items@ =~= swapped.remove(n - 1));
            vstd::seq_lib::to_multiset_remove(swapped, n - 1);
        }
        if n > 1 {
            proof {
                assert forall|i: int| 1 <= i < items@.len() && parent(i) != 0 implies #[trigger] below(
                    items@,
                    i,
                ) by {
                    assert(below(before, i));
                }
            }
            sift_down(&mut items, 0);
        }
        self.items = items;
        Some(e)
    }
}

/// The entry that comes out of the queue next: the greatest by key, then
/// by pin.
pub open spec fn top(q: Multiset<Entry>) -> Entry {
    choose|e: Entry| q.contains(e) && forall|x: Entry| q.contains(x) ==> precedes(x, e)
}

/// An entry of the queue that none comes after is the one that comes out.
pub proof fn lemma_top(q: Multiset<Entry>, e: Entry)
    requires
        q.contains(e),
        forall|x: Entry| q.contains(x) ==> precedes(x, e),
    ensures
        top(q) == e,
{
    let t = top(q);
    assert(q.contains(t) && forall|x: Entry| q.contains(x) ==> precedes(x, t));
    assert(precedes(e, t) && precedes(t, e));
}

/// Taking an entry out makes the queue one shorter, putting one in makes it
/// one longer.
pub proof fn lemma_queue_len(q: Multiset<Entry>, e: Entry)
    ensures
        q.insert(e).len() == q.len() + 1,
        q.contains(e) ==> q.remove(e).len() == q.len() - 1,
{
    broadcast use vstd::multiset::group_multiset_axioms;
    broadcast use vstd::multiset::group_multiset_properties;

}

/// How many entries of `q` meet `f`, after an entry is taken out.
pub proof fn lemma_filter_remove(q: Multiset<Entry>, e: Entry, f: spec_fn(Entry) -> bool)
    requires
        q.contains(e),
    ensures
        q.remove(e).filter(f).len() == q.filter(f).len() - if f(e) {
            1int
        } else {
            0
        },
        q.remove(e).len() == q.len() - 1,
{
    broadcast use vstd::multiset::group_multiset_axioms;
    broadcast use vstd::multiset::group_multiset_properties;

    if f(e) {
        assert(q.filter(f).contains(e));
        assert(q.remove(e).filter(f) =~= q.filter(f).remove(e));
    } else {
        assert(q.remove(e).filter(f) =~= q.filter(f));
    }
}

/// How many entries of `q` meet `f`, after an entry is put in.
pub proof fn lemma_filter_insert(q: Multiset<Entry>, e: Entry, f: spec_fn(Entry) -> bool)
    ensures
        q.insert(e).filter(f).len() == q.filter(f).len() + if f(e) {
            1int
        } else {
            0
        },
        q.insert(e).len() == q.len() + 1,
{
    broadcast use vstd::multiset::group_multiset_axioms;
    broadcast use vstd::multiset::group_multiset_properties;

    if f(e) {
        assert(q.insert(e).filter(f) =~= q.filter(f).insert(e));
    } else {
        assert(q.insert(e).filter(f) =~= q.filter(f));
    }
}

} // verus!
