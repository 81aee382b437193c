//! What contraction does to the hypergraph, and that undoing it gives the
//! hypergraph back.

use vstd::prelude::*;
use crate::layout::{
    lemma_count_false_update, lemma_masked_sum_two, lemma_two_within_total, lemma_undoable_facts,
    moved_last, not_in, Index, Layout, Memento,
};

verus! {

/// Moving `v` to the last place keeps the pins, names none twice, and puts
/// `v` last and nowhere else.
pub proof fn lemma_moved_last(pins: Seq<Index>, v: Index)
    requires
        pins.no_duplicates(),
        pins.contains(v),
    ensures
        moved_last(pins, v).len() == pins.len(),
        moved_last(pins, v).no_duplicates(),
        moved_last(pins, v).last() == v,
        forall|x: Index| moved_last(pins, v).contains(x) <==> pins.contains(x),
        moved_last(pins, v).drop_last().no_duplicates(),
        forall|x: Index|
            moved_last(pins, v).drop_last().contains(x) <==> (pins.contains(x) && x != v),
{
    let n = pins.len() as int;
    let i = pins.index_of(v);
    let m = moved_last(pins, v);
    let d = m.drop_last();
    assert(0 <= i < n && pins[i] == v);
    assert forall|k: int| 0 <= k < n implies #[trigger] m[k] == if k == n - 1 {
        v
    } else if k == i {
        pins[n - 1]
    } else {
        pins[k]
    } by {}
    assert forall|x: Index| m.contains(x) <==> pins.contains(x) by {
        if m.contains(x) {
            let k = choose|k: int| 0 <= k < m.len() && m[k] == x;
            if k == n - 1 {
                assert(pins[i] == x);
            } else if k == i {
                assert(pins[n - 1] == x);
            } else {
                assert(pins[k] == x);
            }
        }
        if pins.contains(x) {
            let k = choose|k: int| 0 <= k < pins.len() && pins[k] == x;
            if k == i {
                assert(m[n - 1] == x);
            } else if k == n - 1 {
                assert(m[i] == x);
            } else {
                assert(m[k] == x);
            }
        }
    }
    assert forall|x: Index| d.contains(x) <==> (pins.contains(x) && x != v) by {
        if d.contains(x) {
            let k = choose|k: int| 0 <= k < d.len() && d[k] == x;
            assert(m[k] == x);
            if k == i {
                assert(pins[n - 1] == x);
            } else {
                assert(pins[k] == x);
            }
        }
        if pins.contains(x) && x != v {
            let k = choose|k: int| 0 <= k < pins.len() && pins[k] == x;
            if k == n - 1 {
                assert(d[i] == x);
            } else {
                assert(d[k] == x);
            }
        }
    }
}

/// What filtering by "not in `mine`" keeps: the entries of `theirs` that
/// `mine` lacks, none twice where `theirs` had none twice.
pub proof fn lemma_gained(theirs: Seq<Index>, mine: Seq<Index>)
    requires
        theirs.no_duplicates(),
    ensures
        theirs.filter(not_in(mine)).no_duplicates(),
        forall|e: Index|
            theirs.filter(not_in(mine)).contains(e) <==> (theirs.contains(e) && !mine.contains(e)),
    decreases theirs.len(),
{
    reveal(Seq::filter);
    let kept = theirs.filter(not_in(mine));
    if theirs.len() > 0 {
        let front = theirs.drop_last();
        let last = theirs.last();
        let kept_front = front.filter(not_in(mine));
        lemma_gained(front, mine);
        assert(!front.contains(last)) by {
            if front.contains(last) {
                let k = choose|k: int| 0 <= k < front.len() && front[k] == last;
                assert(theirs[k] == theirs[theirs.len() - 1]);
            }
        }
        assert forall|e: Index| kept.contains(e) <==> (theirs.contains(e) && !mine.contains(
            e,
        )) by {
            if kept.contains(e) {
                let k = choose|k: int| 0 <= k < kept.len() && kept[k] == e;
                if k < kept_front.len() {
                    assert(kept_front[k] == e);
                    assert(kept_front.contains(e));
                    let j = choose|j: int| 0 <= j < front.len() && front[j] == e;
                    assert(theirs[j] == e);
                } else {
                    assert(e == last);
                    assert(theirs[theirs.len() - 1] == e);
                }
            }
            if theirs.contains(e) && !mine.contains(e) {
                let j = choose|j: int| 0 <= j < theirs.len() && theirs[j] == e;
                if j < front.len() {
                    assert(front[j] == e);
                    assert(kept_front.contains(e));
                    let k = choose|k: int| 0 <= k < kept_front.len() && kept_front[k] == e;
                    assert(kept[k] == e);
                } else {
                    assert(kept[kept.len() - 1] == e);
                }
            }
        }
    }
}

/// What a contraction of `v` into `u` may start from.
pub open spec fn can_contract(s: Layout, u: Index, v: Index) -> bool {
    &&& s.wf()
    &&& u != v
    &&& s.is_pin(u)
    &&& s.is_pin(v)
    &&& s.enabled[u as int]
    &&& s.enabled[v as int]
}

/// Contraction has one outcome: two structures that both are what
/// contracting `v` into `u` gives are equal.
pub proof fn lemma_contraction_unique(s: Layout, t1: Layout, t2: Layout, u: Index, v: Index)
    requires
        can_contract(s, u, v),
        s.contracts_to(t1, u, v),
        s.contracts_to(t2, u, v),
    ensures
        t1 == t2,
{
    let d = s.degree(v);
    assert(t1.e =~= t2.e) by {
        assert forall|i: int| 0 <= i < s.e.len() implies t1.e[i] == t2.e[i] by {
            let e = i as Index;
            assert(s.is_net(e));
            assert(t1.e[e as int] == t2.e[e as int]);
        }
    }
    assert(t1.a =~= t2.a) by {
        assert forall|i: int| 0 <= i < t1.a.len() implies t1.a[i] == t2.a[i] by {
            if i >= s.a.len() {
                let block = t1.a.len() - s.a.len();
                assert(t1.window(s.a.len() as int, block)[i - s.a.len()] == t1.a[i]);
                assert(t2.window(s.a.len() as int, block)[i - s.a.len()] == t2.a[i]);
            } else if s.touched(v, d, i) {
                let j = choose|j: int| 0 <= j < d && s.in_net(#[trigger] s.net_at(v, j), i);
                let e = s.net_at(v, j);
                assert(s.is_net(e));
                assert(s.net_start(e) + s.net_size(e) <= s.a.len());
                let w1 = t1.window(s.net_start(e), s.net_size(e));
                let w2 = t2.window(s.net_start(e), s.net_size(e));
                assert(w1 == w2);
                assert(w1[i - s.net_start(e)] == t1.a[i]);
                assert(w2[i - s.net_start(e)] == t2.a[i]);
            }
        }
    }
}

/// What contraction does, list by list: each net's pins and each pin's nets
/// afterwards, and what it leaves in place.
pub proof fn lemma_contract_lists(s: Layout, t: Layout, u: Index, v: Index)
    requires
        can_contract(s, u, v),
        s.contracts_to(t, u, v),
    ensures
        forall|e: Index|
            s.is_net(e) ==> #[trigger] t.pins_of(e) == s.pins_after(u, v, e) && t.net_start(e)
                == s.net_start(e) && t.net_size(e) == if s.nets_of(v).contains(e) && s.nets_of(
                u,
            ).contains(e) {
                s.net_size(e) - 1
            } else {
                s.net_size(e)
            },
        forall|e: Index|
            s.is_net(e) && s.nets_of(v).contains(e) && #[trigger] s.nets_of(u).contains(e)
                ==> s.net_size(e) >= 1 && t.a[s.net_start(e) + s.net_size(e) - 1] == v,
        forall|p: Index| s.is_pin(p) ==> #[trigger] t.nets_of(p) == s.nets_after(u, v, p),
        forall|p: Index| s.is_pin(p) && p != u ==> #[trigger] t.v[p as int] == s.v[p as int],
        forall|i: int| 0 <= i < s.a.len() && !s.in_some_net(i) ==> #[trigger] t.a[i] == s.a[i],
        t.window(s.pin_start(u), s.degree(u)) == s.nets_of(u),
        t.degree(u) == if s.gained(u, v).len() == 0 {
            s.degree(u)
        } else {
            s.degree(u) + s.gained(u, v).len()
        },
        s.a.len() <= t.a.len(),
{
    let nv = s.nets_of(v);
    let gained = s.gained(u, v);
    let d = s.degree(v);
    assert(nv.take(d) =~= nv);
    assert(s.pin_start(v) + s.degree(v) <= s.a.len());
    assert(s.pin_start(u) + s.degree(u) <= s.a.len());
    assert forall|i: int| 0 <= i < s.a.len() && !s.in_some_net(i) implies #[trigger] t.a[i]
        == s.a[i] by {
        if s.touched(v, d, i) {
            let j = choose|j: int| 0 <= j < d && s.in_net(#[trigger] s.net_at(v, j), i);
            assert(s.is_net(s.net_at(v, j)));
        }
    }
    assert forall|p: Index, i: int| s.is_pin(p) && s.in_pin(p, i) implies t.a[i] == s.a[i] by {
        assert(s.pin_start(p) + s.degree(p) <= s.a.len());
        if s.in_some_net(i) {
            let e = choose|e: Index| s.is_net(e) && s.in_net(e, i);
            assert(s.in_net(e, i));
        }
    }
    assert forall|p: Index| s.is_pin(p) && p != u implies #[trigger] t.nets_of(p) == s.nets_after(
        u,
        v,
        p,
    ) by {
        assert(s.pin_start(p) + s.degree(p) <= s.a.len());
        assert forall|k: int| 0 <= k < s.degree(p) implies t.nets_of(p)[k] == s.nets_of(p)[k] by {
            assert(s.in_pin(p, s.pin_start(p) + k));
        }
        assert(t.nets_of(p) =~= s.nets_of(p));
    }
    assert(t.window(s.pin_start(u), s.degree(u)) =~= s.nets_of(u)) by {
        assert forall|k: int| 0 <= k < s.degree(u) implies t.window(
            s.pin_start(u),
            s.degree(u),
        )[k] == s.nets_of(u)[k] by {
            assert(s.in_pin(u, s.pin_start(u) + k));
        }
    }
    assert(t.nets_of(u) == s.nets_after(u, v, u)) by {
        if gained.len() == 0 {
            assert(t.nets_of(u) =~= t.window(s.pin_start(u), s.degree(u)));
            assert(s.nets_of(u) + gained =~= s.nets_of(u));
        } else {
            assert(t.nets_of(u) =~= t.window(s.a.len() as int, s.degree(u) + gained.len()));
        }
    }
    assert forall|e: Index| s.is_net(e) implies #[trigger] t.pins_of(e) == s.pins_after(u, v, e)
        && t.net_start(e) == s.net_start(e) && t.net_size(e) == if s.nets_of(v).contains(e)
        && s.nets_of(u).contains(e) {
        s.net_size(e) - 1
    } else {
        s.net_size(e)
    } && (s.nets_of(v).contains(e) && s.nets_of(u).contains(e) ==> s.net_size(e) >= 1 && t.a[s.net_start(
        e,
    ) + s.net_size(e) - 1] == v) by {
        let pins = s.pins_of(e);
        let n = s.net_size(e);
        assert(s.net_start(e) + n <= s.a.len());
        if nv.contains(e) {
            let j = choose|j: int| 0 <= j < nv.len() && nv[j] == e;
            assert(s.net_at(v, j) == e);
            assert(s.met(v, d, e));
            assert(t.window(s.net_start(e), n) == crate::layout::rewritten(pins, u, v));
            assert(pins.contains(v));
            assert(pins.no_duplicates());
            assert(pins.contains(u) <==> s.nets_of(u).contains(e));
            lemma_moved_last(pins, v);
            if s.nets_of(u).contains(e) {
                assert(t.pins_of(e) =~= moved_last(pins, v).drop_last());
                assert(t.window(s.net_start(e), n)[n - 1] == v);
            } else {
                assert(t.pins_of(e) =~= t.window(s.net_start(e), n));
            }
        } else {
            assert(!s.met(v, d, e)) by {
                if s.met(v, d, e) {
                    let j = choose|j: int| 0 <= j < d && s.net_at(v, j) == e;
                    assert(nv[j] == e);
                }
            }
            assert forall|k: int| 0 <= k < n implies t.pins_of(e)[k] == pins[k] by {
                let i = s.net_start(e) + k;
                assert(s.in_net(e, i));
                if s.touched(v, d, i) {
                    let j = choose|j: int| 0 <= j < d && s.in_net(#[trigger] s.net_at(v, j), i);
                    assert(s.is_net(s.net_at(v, j)));
                    assert(nv[j] == e);
                }
            }
            assert(t.pins_of(e) =~= pins);
        }
    }
    assert forall|e: Index|
        s.is_net(e) && s.nets_of(v).contains(e) && #[trigger] s.nets_of(u).contains(
            e,
        ) implies s.net_size(e) >= 1 && t.a[s.net_start(e) + s.net_size(e) - 1] == v by {
        assert(t.pins_of(e) == s.pins_after(u, v, e));
    }
}

/// Who is in net `e` after a contraction: where the net held `v` it holds
/// `u` and no longer `v`, its other pins stay. It names no pin twice.
pub proof fn lemma_pins_after(s: Layout, u: Index, v: Index, e: Index)
    requires
        can_contract(s, u, v),
        s.is_net(e),
    ensures
        s.pins_after(u, v, e).no_duplicates(),
        forall|x: Index|
            #[trigger] s.pins_after(u, v, e).contains(x) <==> if s.nets_of(v).contains(e) {
                (s.pins_of(e).contains(x) && x != v) || x == u
            } else {
                s.pins_of(e).contains(x)
            },
{
    let nv = s.nets_of(v);
    let mine = s.nets_of(u);
    let pins = s.pins_of(e);
    let n = pins.len() as int;
    let after = s.pins_after(u, v, e);
    assert(pins.no_duplicates());
    if nv.contains(e) {
        assert(pins.contains(v));
        assert(pins.contains(u) <==> mine.contains(e));
        lemma_moved_last(pins, v);
        let moved = moved_last(pins, v);
        if !mine.contains(e) {
            assert forall|k: int| 0 <= k < n - 1 implies #[trigger] after[k] != u && after[k]
                == moved.drop_last()[k] by {
                assert(moved.drop_last()[k] == moved[k]);
                assert(moved.drop_last().contains(moved[k]));
            }
            assert forall|x: Index| after.contains(x) <==> ((pins.contains(x) && x != v) || x
                == u) by {
                if after.contains(x) {
                    let k = choose|k: int| 0 <= k < after.len() && after[k] == x;
                    if k < n - 1 {
                        assert(moved.drop_last()[k] == x);
                        assert(moved.drop_last().contains(x));
                    }
                }
                if pins.contains(x) && x != v {
                    assert(moved.drop_last().contains(x));
                    let k = choose|k: int|
                        0 <= k < moved.drop_last().len() && moved.drop_last()[k] == x;
                    assert(after[k] == x);
                }
                if x == u {
                    assert(after[n - 1] == x);
                }
            }
        }
    }
}

/// Which nets pin `p` lists after a contraction: `u` lists its nets and
/// `v`'s, every other pin what it did. No list names a net twice.
pub proof fn lemma_nets_after(s: Layout, u: Index, v: Index, p: Index)
    requires
        can_contract(s, u, v),
        s.is_pin(p),
    ensures
        s.nets_after(u, v, p).no_duplicates(),
        forall|x: Index|
            #[trigger] s.nets_after(u, v, p).contains(x) <==> if p == u {
                s.nets_of(u).contains(x) || s.nets_of(v).contains(x)
            } else {
                s.nets_of(p).contains(x)
            },
{
    let nv = s.nets_of(v);
    let mine = s.nets_of(u);
    let gained = s.gained(u, v);
    assert(nv.take(s.degree(v)) =~= nv);
    assert(nv.no_duplicates());
    assert(mine.no_duplicates());
    lemma_gained(nv, mine);
    assert(s.nets_of(p).no_duplicates());
    if p == u {
        let all = mine + gained;
        assert forall|i: int, j: int|
            0 <= i < mine.len() && 0 <= j < gained.len() implies mine[i] != gained[j] by {
            assert(gained.contains(gained[j]));
            assert(mine.contains(mine[i]));
        }
        vstd::seq_lib::lemma_no_dup_in_concat(mine, gained);
        assert forall|x: Index| all.contains(x) <==> (mine.contains(x) || nv.contains(x)) by {
            if all.contains(x) {
                let k = choose|k: int| 0 <= k < all.len() && all[k] == x;
                if k < mine.len() {
                    assert(mine[k] == x);
                } else {
                    assert(gained[k - mine.len()] == x);
                    assert(gained.contains(x));
                }
            }
            if mine.contains(x) {
                let k = choose|k: int| 0 <= k < mine.len() && mine[k] == x;
                assert(all[k] == x);
            } else if nv.contains(x) {
                assert(gained.contains(x));
                let k = choose|k: int| 0 <= k < gained.len() && gained[k] == x;
                assert(all[mine.len() + k] == x);
            }
        }
    }
}

/// Contraction keeps the structure a hypergraph.
pub proof fn lemma_contract_wf(s: Layout, t: Layout, u: Index, v: Index)
    requires
        can_contract(s, u, v),
        s.contracts_to(t, u, v),
    ensures
        t.wf(),
{
    lemma_contract_lists(s, t, u, v);
    let nv = s.nets_of(v);
    let gained = s.gained(u, v);
    assert(t.sized()) by {
        lemma_count_false_update(s.enabled, v as int, false);
    }
    assert(t.is_pin(u) && t.is_pin(v));
    assert forall|p: Index| t.is_pin(p) implies #[trigger] t.pin_start(p) + t.degree(p)
        <= t.a.len() by {
        assert(s.pin_start(p) + s.degree(p) <= s.a.len());
    }
    assert forall|e: Index| t.is_net(e) implies #[trigger] t.net_start(e) + t.net_size(e)
        <= t.a.len() by {
        assert(t.pins_of(e) == s.pins_after(u, v, e));
        assert(s.net_start(e) + s.net_size(e) <= s.a.len());
    }
    assert forall|p: Index, k: int| t.is_pin(p) && 0 <= k < t.degree(p) implies t.is_net(
        #[trigger] t.net_at(p, k),
    ) by {
        lemma_nets_after(s, u, v, p);
        let x = t.net_at(p, k);
        assert(t.nets_of(p)[k] == x);
        assert(s.nets_after(u, v, p).contains(x));
        lemma_listed_is_net(s, x);
    }
    assert forall|e: Index, k: int| t.is_net(e) && 0 <= k < t.net_size(e) implies t.is_pin(
        #[trigger] t.pin_at(e, k),
    ) && t.enabled[t.pin_at(e, k) as int] by {
        lemma_pins_after(s, u, v, e);
        let x = t.pin_at(e, k);
        assert(t.pins_of(e)[k] == x);
        assert(s.pins_after(u, v, e).contains(x));
        if x != u {
            assert(s.pins_of(e).contains(x));
            lemma_held_is_pin(s, e, x);
            assert(nv.contains(e) <==> s.pins_of(e).contains(v));
        }
    }
    assert(t.bounded());
    assert(t.separate()) by {
        assert forall|e1: Index, e2: Index, i: int|
            t.is_net(e1) && t.is_net(e2) && #[trigger] t.in_net(e1, i) && #[trigger] t.in_net(
                e2,
                i,
            ) implies e1 == e2 by {
            assert(t.pins_of(e1) == s.pins_after(u, v, e1));
            assert(t.pins_of(e2) == s.pins_after(u, v, e2));
            assert(s.in_net(e1, i) && s.in_net(e2, i));
        }
        assert forall|e: Index, p: Index, i: int|
            t.is_net(e) && t.is_pin(p) && #[trigger] t.in_net(e, i) implies !#[trigger] t.in_pin(
                p,
                i,
            ) by {
            assert(t.pins_of(e) == s.pins_after(u, v, e));
            assert(s.in_net(e, i));
            assert(s.net_start(e) + s.net_size(e) <= s.a.len());
            if p != u || gained.len() == 0 {
                assert(!s.in_pin(p, i));
            }
        }
    }
    assert(t.distinct()) by {
        assert forall|e: Index| t.is_net(e) implies #[trigger] t.pins_of(e).no_duplicates() by {
            lemma_pins_after(s, u, v, e);
        }
        assert forall|p: Index| t.is_pin(p) implies #[trigger] t.nets_of(p).no_duplicates() by {
            lemma_nets_after(s, u, v, p);
        }
    }
    assert(t.incident()) by {
        assert forall|p: Index, e: Index|
            #![trigger t.nets_of(p).contains(e)]
            #![trigger t.pins_of(e).contains(p)]
            t.is_pin(p) && t.is_net(e) && t.enabled[p as int] implies (t.nets_of(p).contains(e)
            <==> t.pins_of(e).contains(p)) by {
            lemma_nets_after(s, u, v, p);
            lemma_pins_after(s, u, v, e);
            assert(t.nets_of(p) == s.nets_after(u, v, p));
            assert(t.pins_of(e) == s.pins_after(u, v, e));
            assert(s.nets_of(p).contains(e) <==> s.pins_of(e).contains(p));
            assert(s.nets_of(u).contains(e) <==> s.pins_of(e).contains(u));
        }
    }
    assert(t.weighed()) by {
        lemma_two_within_total(s.c, s.enabled, u as int, v as int);
        lemma_masked_sum_two(s.c, s.enabled, t.c, t.enabled, u as int, v as int, s.v.len());
    }
}

/// What a pin lists is a net.
pub proof fn lemma_listed_is_net(s: Layout, x: Index)
    requires
        s.safe(),
    ensures
        forall|p: Index| s.is_pin(p) && #[trigger] s.nets_of(p).contains(x) ==> s.is_net(x),
{
    assert forall|p: Index| s.is_pin(p) && #[trigger] s.nets_of(p).contains(x) implies s.is_net(
        x,
    ) by {
        let k = choose|k: int| 0 <= k < s.nets_of(p).len() && s.nets_of(p)[k] == x;
        assert(s.pin_start(p) + s.degree(p) <= s.a.len());
        assert(s.net_at(p, k) == x);
    }
}

/// What a net holds is a pin.
pub proof fn lemma_held_is_pin(s: Layout, e: Index, x: Index)
    requires
        s.safe(),
        s.is_net(e),
        s.pins_of(e).contains(x),
    ensures
        s.is_pin(x),
        s.incident() ==> s.enabled[x as int],
{
    let k = choose|k: int| 0 <= k < s.pins_of(e).len() && s.pins_of(e)[k] == x;
    assert(s.net_start(e) + s.net_size(e) <= s.a.len());
    assert(s.pin_at(e, k) == x);
}

/// A position in a pin's slice lies in no net's slice.
pub proof fn lemma_pin_slice_free(s: Layout, p: Index, i: int)
    requires
        s.separate(),
        s.is_pin(p),
        s.in_pin(p, i),
    ensures
        !s.in_some_net(i),
{
    if s.in_some_net(i) {
        let e = choose|e: Index| s.is_net(e) && s.in_net(e, i);
        assert(s.in_net(e, i));
    }
}

/// A structure that agrees with a hypergraph is one.
pub proof fn lemma_agrees_wf(s: Layout, r: Layout)
    requires
        s.wf(),
        s.agrees(r),
    ensures
        r.wf(),
        forall|p: Index| s.is_pin(p) ==> #[trigger] r.nets_of(p) == s.nets_of(p),
{
    assert forall|p: Index| s.is_pin(p) implies #[trigger] r.nets_of(p) == s.nets_of(p) by {
        assert(s.pin_start(p) + s.degree(p) <= s.a.len());
        assert forall|k: int| 0 <= k < s.degree(p) implies r.nets_of(p)[k] == s.nets_of(p)[k] by {
            lemma_pin_slice_free(s, p, s.pin_start(p) + k);
        }
        assert(r.nets_of(p) =~= s.nets_of(p));
    }
    assert(r.sized());
    assert(r.bounded()) by {
        assert forall|p: Index| r.is_pin(p) implies #[trigger] r.pin_start(p) + r.degree(p)
            <= r.a.len() by {
            assert(s.pin_start(p) + s.degree(p) <= s.a.len());
        }
        assert forall|e: Index| r.is_net(e) implies #[trigger] r.net_start(e) + r.net_size(e)
            <= r.a.len() by {
            assert(s.net_start(e) + s.net_size(e) <= s.a.len());
        }
        assert forall|p: Index, k: int| r.is_pin(p) && 0 <= k < r.degree(p) implies r.is_net(
            #[trigger] r.net_at(p, k),
        ) by {
            assert(s.pin_start(p) + s.degree(p) <= s.a.len());
            lemma_pin_slice_free(s, p, s.pin_start(p) + k);
            assert(s.is_net(s.net_at(p, k)));
        }
        assert forall|e: Index, k: int| r.is_net(e) && 0 <= k < r.net_size(e) implies r.is_pin(
            #[trigger] r.pin_at(e, k),
        ) by {
            assert(s.net_start(e) + s.net_size(e) <= s.a.len());
            assert(r.pins_of(e)[k] == r.pin_at(e, k));
            assert(r.pins_of(e).contains(r.pin_at(e, k)));
            lemma_held_is_pin(s, e, r.pin_at(e, k));
        }
    }
    assert(r.separate()) by {
        assert forall|e1: Index, e2: Index, i: int|
            r.is_net(e1) && r.is_net(e2) && #[trigger] r.in_net(e1, i) && #[trigger] r.in_net(
                e2,
                i,
            ) implies e1 == e2 by {
            assert(s.in_net(e1, i) && s.in_net(e2, i));
        }
        assert forall|e: Index, p: Index, i: int|
            r.is_net(e) && r.is_pin(p) && #[trigger] r.in_net(e, i) implies !#[trigger] r.in_pin(
                p,
                i,
            ) by {
            assert(s.in_net(e, i));
            assert(!s.in_pin(p, i));
        }
    }
    assert(r.distinct()) by {
        assert forall|p: Index| r.is_pin(p) implies #[trigger] r.nets_of(p).no_duplicates() by {
            assert(s.nets_of(p).no_duplicates());
        }
    }
    assert(r.incident()) by {
        assert forall|e: Index, k: int|
            r.is_net(e) && 0 <= k < r.net_size(e) implies r.enabled[#[trigger] r.pin_at(
            e,
            k,
        ) as int] by {
            assert(s.net_start(e) + s.net_size(e) <= s.a.len());
            assert(r.pins_of(e)[k] == r.pin_at(e, k));
            assert(r.pins_of(e).contains(r.pin_at(e, k)));
            lemma_held_is_pin(s, e, r.pin_at(e, k));
        }
        assert forall|p: Index, e: Index|
            #![trigger r.nets_of(p).contains(e)]
            #![trigger r.pins_of(e).contains(p)]
            r.is_pin(p) && r.is_net(e) && r.enabled[p as int] implies (r.nets_of(p).contains(e)
            <==> r.pins_of(e).contains(p)) by {
            assert(r.nets_of(p) == s.nets_of(p));
            assert(r.pins_of(e).contains(p) <==> s.pins_of(e).contains(p));
            assert(s.nets_of(p).contains(e) <==> s.pins_of(e).contains(p));
        }
    }
    assert(r.weighed());
}

/// Round trip: contracting `v` into `u` and undoing it gives the structure
/// back. All of `v`, `e`, the capacities, the weights, the enabled set and
/// the disabled count are equal to what they were, every pin lists the same
/// nets in the same order, and every net names the same pins; in the nets
/// of `v`, `v` has moved to the last place. (The array `a` itself may have
/// grown by a block that nothing refers to any more.)
pub proof fn lemma_round_trip(s: Layout, t: Layout, u: Index, v: Index)
    requires
        can_contract(s, u, v),
        s.contracts_to(t, u, v),
    ensures
        t.undoable(s.memento(u, v)),
        t.uncontracted(s.memento(u, v)).v == s.v,
        t.uncontracted(s.memento(u, v)).e == s.e,
        t.uncontracted(s.memento(u, v)).c == s.c,
        t.uncontracted(s.memento(u, v)).w == s.w,
        t.uncontracted(s.memento(u, v)).enabled == s.enabled,
        t.uncontracted(s.memento(u, v)).num_disabled == s.num_disabled,
        forall|p: Index|
            s.is_pin(p) ==> #[trigger] t.uncontracted(s.memento(u, v)).nets_of(p) == s.nets_of(p),
        forall|e: Index|
            s.is_net(e) ==> #[trigger] t.uncontracted(s.memento(u, v)).pins_of(e) == if s.nets_of(
                v,
            ).contains(e) {
                moved_last(s.pins_of(e), v)
            } else {
                s.pins_of(e)
            },
        s.agrees(t.uncontracted(s.memento(u, v))),
{
    let m = s.memento(u, v);
    let r = t.uncontracted(m);
    let nv = s.nets_of(v);
    let mine = s.nets_of(u);
    let gained = s.gained(u, v);
    lemma_contract_wf(s, t, u, v);
    lemma_contract_lists(s, t, u, v);
    lemma_two_within_total(s.c, s.enabled, u as int, v as int);
    assert(nv.take(s.degree(v)) =~= nv);
    lemma_gained(nv, mine);
    assert(t.nets_of(v) == nv) by {
        assert(t.nets_of(v) == s.nets_after(u, v, v));
    }
    assert(t.old_nets(m) == mine);
    assert(s.pin_start(u) + s.degree(u) <= s.a.len());
    assert(r.v =~= s.v);
    assert(r.c =~= s.c);
    assert(r.enabled =~= s.enabled);
    assert forall|x: int| 0 <= x < s.e.len() implies r.e[x] == s.e[x] by {
        let e = x as Index;
        assert(s.is_net(e));
        assert(t.pins_of(e) == s.pins_after(u, v, e));
        if nv.contains(e) && mine.contains(e) {
            assert(s.net_size(e) >= 1);
        }
        assert(s.net_start(e) + s.net_size(e) <= s.a.len());
    }
    assert(r.e =~= s.e);
    // Where undoing writes: at the last place of each net that `u` took over.
    assert forall|e: Index, i: int| s.is_net(e) && s.in_net(e, i) implies (t.patched(m, i) <==> (
    nv.contains(e) && !mine.contains(e) && i == s.net_start(e) + s.net_size(e) - 1)) by {
        lemma_pins_after(s, u, v, e);
        assert(t.pins_of(e) == s.pins_after(u, v, e));
        assert(s.net_start(e) + s.net_size(e) <= s.a.len());
        let n = s.net_size(e);
        if t.patched(m, i) {
            let e2 = choose|e2: Index| t.is_net(e2) && t.taken(m, e2) && #[trigger] t.in_net(e2, i);
            assert(t.pins_of(e2) == s.pins_after(u, v, e2));
            assert(s.in_net(e2, i));
            assert(e2 == e);
            assert(s.pins_of(e).contains(v));
            assert(s.pins_of(e).no_duplicates());
            lemma_moved_last(s.pins_of(e), v);
            let k = i - s.net_start(e);
            assert(t.pins_of(e)[k] == u);
            if k < n - 1 {
                assert(moved_last(s.pins_of(e), v).drop_last()[k] == u);
                assert(moved_last(s.pins_of(e), v).drop_last().contains(u));
                assert(s.pins_of(e).contains(u));
                assert(mine.contains(e));
            }
        }
        if nv.contains(e) && !mine.contains(e) && i == s.net_start(e) + n - 1 {
            assert(s.pins_of(e).contains(v));
            assert(gained.contains(e));
            assert(t.pins_of(e)[n - 1] == u);
            assert(t.taken(m, e) && t.in_net(e, i));
        }
    }
    assert forall|i: int| 0 <= i < s.a.len() && !s.in_some_net(i) implies #[trigger] r.a[i]
        == s.a[i] by {
        if t.patched(m, i) {
            let e2 = choose|e2: Index| t.is_net(e2) && t.taken(m, e2) && #[trigger] t.in_net(e2, i);
            assert(t.pins_of(e2) == s.pins_after(u, v, e2));
            assert(s.in_net(e2, i));
        }
    }
    assert forall|p: Index| s.is_pin(p) implies #[trigger] r.nets_of(p) == s.nets_of(p) by {
        assert(s.pin_start(p) + s.degree(p) <= s.a.len());
        assert forall|k: int| 0 <= k < s.degree(p) implies r.nets_of(p)[k] == s.nets_of(p)[k] by {
            lemma_pin_slice_free(s, p, s.pin_start(p) + k);
        }
        assert(r.nets_of(p) =~= s.nets_of(p));
    }
    assert forall|e: Index| s.is_net(e) implies #[trigger] r.pins_of(e) == if nv.contains(e) {
        moved_last(s.pins_of(e), v)
    } else {
        s.pins_of(e)
    } by {
        let pins = s.pins_of(e);
        let n = s.net_size(e);
        assert(s.net_start(e) + n <= s.a.len());
        assert(t.pins_of(e) == s.pins_after(u, v, e));
        assert(pins.no_duplicates());
        if nv.contains(e) {
            assert(pins.contains(v));
            lemma_moved_last(pins, v);
            let moved = moved_last(pins, v);
            assert forall|k: int| 0 <= k < n implies r.pins_of(e)[k] == moved[k] by {
                let i = s.net_start(e) + k;
                assert(s.in_net(e, i));
                if mine.contains(e) {
                    if k < n - 1 {
                        assert(t.pins_of(e)[k] == moved[k]);
                    }
                } else {
                    if k < n - 1 {
                        assert(t.pins_of(e)[k] == moved[k]);
                    }
                }
            }
            assert(r.pins_of(e) =~= moved);
        } else {
            assert forall|k: int| 0 <= k < n implies r.pins_of(e)[k] == pins[k] by {
                let i = s.net_start(e) + k;
                assert(s.in_net(e, i));
                assert(t.pins_of(e)[k] == pins[k]);
            }
            assert(r.pins_of(e) =~= pins);
        }
    }
    assert(s.agrees(r)) by {
        assert forall|e: Index| s.is_net(e) implies #[trigger] r.pins_of(e).no_duplicates() by {
            assert(s.pins_of(e).no_duplicates());
            if nv.contains(e) {
                assert(s.pins_of(e).contains(v));
                lemma_moved_last(s.pins_of(e), v);
            }
        }
        assert forall|e: Index, x: Index| s.is_net(e) implies (#[trigger] r.pins_of(e).contains(x)
            <==> s.pins_of(e).contains(x)) by {
            assert(s.pins_of(e).no_duplicates());
            if nv.contains(e) {
                assert(s.pins_of(e).contains(v));
                lemma_moved_last(s.pins_of(e), v);
            }
        }
    }
    lemma_agrees_wf(s, r);
    assert forall|e: Index| t.is_net(e) && #[trigger] t.shrunk(m, e) implies t.net_start(e)
        + t.net_size(e) < t.a.len() by {
        assert(t.pins_of(e) == s.pins_after(u, v, e));
        assert(s.net_start(e) + s.net_size(e) <= s.a.len());
    }
}

/// Agreement carries over: what agrees with a structure that agrees with a
/// hypergraph agrees with the hypergraph.
pub proof fn lemma_agrees_trans(s: Layout, r: Layout, q: Layout)
    requires
        s.wf(),
        s.agrees(r),
        r.agrees(q),
    ensures
        s.agrees(q),
{
    assert forall|i: int| 0 <= i < s.a.len() && !s.in_some_net(i) implies #[trigger] q.a[i]
        == s.a[i] by {
        if r.in_some_net(i) {
            let e = choose|e: Index| r.is_net(e) && r.in_net(e, i);
            assert(s.is_net(e) && s.in_net(e, i));
        }
        assert(r.a[i] == s.a[i]);
    }
    assert forall|e: Index| s.is_net(e) implies #[trigger] q.pins_of(e).no_duplicates() by {
        assert(r.is_net(e));
    }
    assert forall|e: Index, x: Index| s.is_net(e) implies (#[trigger] q.pins_of(e).contains(x)
        <==> s.pins_of(e).contains(x)) by {
        assert(r.is_net(e));
        assert(r.pins_of(e).contains(x) <==> s.pins_of(e).contains(x));
    }
}

/// A structure agrees with itself.
pub proof fn lemma_agrees_self(s: Layout)
    requires
        s.wf(),
    ensures
        s.agrees(s),
{
    assert forall|e: Index| s.is_net(e) implies #[trigger] s.pins_of(e).no_duplicates() by {}
}

/// Undoing respects agreement: where two structures agree and a memento
/// can be undone in the first, it can be undone in the second, and the
/// results agree.
pub proof fn lemma_uncontract_agrees(s: Layout, r: Layout, m: Memento)
    requires
        s.undoable(m),
        s.agrees(r),
    ensures
        r.undoable(m),
        s.uncontracted(m).agrees(r.uncontracted(m)),
{
    let u = m.u;
    let v = m.v;
    let s2 = s.uncontracted(m);
    let r2 = r.uncontracted(m);
    lemma_agrees_wf(s, r);
    lemma_undoable_facts(s, m);
    assert(r.nets_of(v) == s.nets_of(v));
    assert(r.nets_of(u) == s.nets_of(u));
    assert(r.old_nets(m) =~= s.old_nets(m)) by {
        assert forall|k: int| 0 <= k < m.u_len implies r.old_nets(m)[k] == s.old_nets(m)[k] by {
            let i = m.u_idx + k;
            assert(s.is_net(s.a[i]) && !s.in_some_net(i));
            assert(r.a[i] == s.a[i]);
        }
    }
    assert forall|e: Index| s.is_net(e) implies (r.shrunk(m, e) <==> s.shrunk(m, e)) && (r.taken(
        m,
        e,
    ) <==> s.taken(m, e)) by {}
    assert(r2.e =~= s2.e);
    assert(r2.v == s2.v);
    // A net's slice after undoing covers its slice before.
    assert forall|e: Index, i: int| s.is_net(e) && s.in_net(e, i) implies s2.in_net(e, i) by {
        if s.shrunk(m, e) {
            assert(s.net_start(e) + s.net_size(e) < s.a.len());
        }
    }
    assert forall|i: int| s.in_some_net(i) implies s2.in_some_net(i) by {
        let e = choose|e: Index| s.is_net(e) && s.in_net(e, i);
        assert(s2.is_net(e) && s2.in_net(e, i));
    }
    assert forall|i: int| 0 <= i < r.a.len() && r.patched(m, i) implies s.in_some_net(i) by {
        let e = choose|e: Index| r.is_net(e) && r.taken(m, e) && #[trigger] r.in_net(e, i);
        assert(s.is_net(e) && s.in_net(e, i));
    }
    assert forall|i: int| 0 <= i < s.a.len() && s.patched(m, i) implies s.in_some_net(i) by {
        let e = choose|e: Index| s.is_net(e) && s.taken(m, e) && #[trigger] s.in_net(e, i);
        assert(s.is_net(e) && s.in_net(e, i));
    }
    assert forall|i: int| 0 <= i < s2.a.len() && !s2.in_some_net(i) implies #[trigger] r2.a[i]
        == s2.a[i] by {
        assert(!s.in_some_net(i));
        assert(r.a[i] == s.a[i]);
    }
    assert forall|e: Index| s2.is_net(e) implies #[trigger] r2.pins_of(e).no_duplicates()
        && forall|x: Index| #[trigger]
        r2.pins_of(e).contains(x) <==> s2.pins_of(e).contains(x) by {
        lemma_net_undone(s, r, m, e);
    }
    assert forall|e: Index, x: Index| s2.is_net(e) implies (#[trigger] r2.pins_of(e).contains(x)
        <==> s2.pins_of(e).contains(x)) by {
        lemma_net_undone(s, r, m, e);
    }
    assert(s2.agrees(r2));
    lemma_agrees_wf(s2, r2);
    assert forall|e: Index| r.is_net(e) && #[trigger] r.shrunk(m, e) implies r.net_start(e)
        + r.net_size(e) < r.a.len() by {
        assert(s.shrunk(m, e));
    }
}

/// One net under `lemma_uncontract_agrees`: after undoing in two
/// structures that agree, the net names the same pins in both, and none
/// twice.
pub proof fn lemma_net_undone(s: Layout, r: Layout, m: Memento, e: Index)
    requires
        s.undoable(m),
        s.agrees(r),
        s.is_net(e),
    ensures
        r.uncontracted(m).pins_of(e).no_duplicates(),
        forall|x: Index|
            #[trigger] r.uncontracted(m).pins_of(e).contains(x) <==> s.uncontracted(m).pins_of(
                e,
            ).contains(x),
{
    let u = m.u;
    let v = m.v;
    let s2 = s.uncontracted(m);
    let r2 = r.uncontracted(m);
    lemma_agrees_wf(s, r);
    lemma_undoable_facts(s, m);
    assert(r.nets_of(v) == s.nets_of(v));
    assert(r.old_nets(m) =~= s.old_nets(m)) by {
        assert forall|k: int| 0 <= k < m.u_len implies r.old_nets(m)[k] == s.old_nets(m)[k] by {
            let i = m.u_idx + k;
            assert(s.is_net(s.a[i]) && !s.in_some_net(i));
            assert(r.a[i] == s.a[i]);
        }
    }
    let start = s.net_start(e);
    let n = s.net_size(e);
    assert(start + n <= s.a.len());
    let sp = s.pins_of(e);
    let rp = r.pins_of(e);
    let sp2 = s2.pins_of(e);
    let rp2 = r2.pins_of(e);
    assert(rp.no_duplicates());
    assert(sp.no_duplicates());
    assert(sp2.no_duplicates());
    assert(forall|x: Index| rp.contains(x) <==> sp.contains(x));
    // In this net's slice, a place is written exactly when the net is one
    // that `u` took over, `u` has gained nets, and the place holds `u`.
    assert forall|i: int| s.in_net(e, i) implies (s.patched(m, i) <==> (s.degree(u) > m.u_len
        && s.a[i] == u && s.taken(m, e))) && (r.patched(m, i) <==> (s.degree(u) > m.u_len
        && r.a[i] == u && s.taken(m, e))) by {
        if s.patched(m, i) {
            let e2 = choose|e2: Index| s.is_net(e2) && s.taken(m, e2) && #[trigger] s.in_net(e2, i);
            assert(e2 == e);
        }
        if r.patched(m, i) {
            let e2 = choose|e2: Index| r.is_net(e2) && r.taken(m, e2) && #[trigger] r.in_net(e2, i);
            assert(s.in_net(e2, i));
            assert(e2 == e);
        }
        if s.taken(m, e) {
            assert(r.is_net(e) && r.taken(m, e) && r.in_net(e, i));
        }
    }
    if s.shrunk(m, e) {
        let slot = start + n;
        assert(slot < s.a.len());
        assert(s2.in_net(e, slot));
        assert(!s.in_some_net(slot)) by {
            if s.in_some_net(slot) {
                let e2 = choose|e2: Index| s.is_net(e2) && s.in_net(e2, slot);
                if s.shrunk(m, e2) {
                    assert(s.net_start(e2) + s.net_size(e2) < s.a.len());
                }
                assert(s2.in_net(e2, slot));
                assert(e2 == e);
            }
        }
        assert(!s.patched(m, slot)) by {
            if s.patched(m, slot) {
                let e2 = choose|e2: Index|
                    s.is_net(e2) && s.taken(m, e2) && #[trigger] s.in_net(e2, slot);
                assert(s.in_some_net(slot));
            }
        }
        assert(!r.patched(m, slot)) by {
            if r.patched(m, slot) {
                let e2 = choose|e2: Index|
                    r.is_net(e2) && r.taken(m, e2) && #[trigger] r.in_net(e2, slot);
                assert(s.is_net(e2) && s.in_net(e2, slot));
                assert(s.in_some_net(slot));
            }
        }
        let h = s.a[slot];
        assert(r.a[slot] == h);
        assert(sp2 =~= sp.push(h)) by {
            assert forall|k: int| 0 <= k < n implies sp2[k] == sp[k] by {
                assert(s.in_net(e, start + k));
            }
        }
        assert(rp2 =~= rp.push(h)) by {
            assert forall|k: int| 0 <= k < n implies rp2[k] == rp[k] by {
                assert(s.in_net(e, start + k));
            }
        }
        assert(!sp.contains(h)) by {
            if sp.contains(h) {
                let k = choose|k: int| 0 <= k < sp.len() && sp[k] == h;
                assert(sp2[k] == sp2[n]);
            }
        }
        assert(rp2.no_duplicates()) by {
            assert forall|i: int, j: int| 0 <= i < rp2.len() && 0 <= j < rp2.len() && i
                != j implies rp2[i] != rp2[j] by {
                if i < n {
                    assert(rp.contains(rp[i]));
                }
                if j < n {
                    assert(rp.contains(rp[j]));
                }
            }
        }
        assert forall|x: Index| #[trigger] rp2.contains(x) <==> sp2.contains(x) by {
            lemma_push_contains(rp, h, x);
            lemma_push_contains(sp, h, x);
        }
    } else if s.taken(m, e) && s.degree(u) > m.u_len {
        assert(!sp.contains(v)) by {
            if sp.contains(v) {
                lemma_held_is_pin(s, e, v);
            }
        }
        assert(sp2 =~= renamed(sp, u, v)) by {
            assert forall|k: int| 0 <= k < n implies sp2[k] == renamed(sp, u, v)[k] by {
                assert(s.in_net(e, start + k));
            }
        }
        assert(rp2 =~= renamed(rp, u, v)) by {
            assert forall|k: int| 0 <= k < n implies rp2[k] == renamed(rp, u, v)[k] by {
                assert(s.in_net(e, start + k));
            }
        }
        lemma_renamed(sp, u, v);
        lemma_renamed(rp, u, v);
    } else {
        assert(sp2 =~= sp) by {
            assert forall|k: int| 0 <= k < n implies sp2[k] == sp[k] by {
                assert(s.in_net(e, start + k));
            }
        }
        assert(rp2 =~= rp) by {
            assert forall|k: int| 0 <= k < n implies rp2[k] == rp[k] by {
                assert(s.in_net(e, start + k));
            }
        }
    }
}

/// `pins` with every `u` replaced by `v`.
pub open spec fn renamed(pins: Seq<Index>, u: Index, v: Index) -> Seq<Index> {
    Seq::new(
        pins.len(),
        |k: int|
            if pins[k] == u {
                v
            } else {
                pins[k]
            },
    )
}

/// Renaming `u` to `v` in a list without `v`, and without repeats, gives a
/// list without repeats that holds `v` where it held `u`.
pub proof fn lemma_renamed(pins: Seq<Index>, u: Index, v: Index)
    requires
        pins.no_duplicates(),
        !pins.contains(v),
        u != v,
    ensures
        renamed(pins, u, v).no_duplicates(),
        forall|x: Index|
            #[trigger] renamed(pins, u, v).contains(x) <==> ((pins.contains(x) && x != u) || (x
                == v && pins.contains(u))),
{
    let out = renamed(pins, u, v);
    assert forall|i: int, j: int| 0 <= i < out.len() && 0 <= j < out.len() && i != j implies out[i]
        != out[j] by {
        assert(pins.contains(pins[i]));
        assert(pins.contains(pins[j]));
    }
    assert forall|x: Index| #[trigger]
        out.contains(x) <==> ((pins.contains(x) && x != u) || (x == v && pins.contains(u))) by {
        if out.contains(x) {
            let k = choose|k: int| 0 <= k < out.len() && out[k] == x;
            assert(pins.contains(pins[k]));
        }
        if pins.contains(x) && x != u {
            let k = choose|k: int| 0 <= k < pins.len() && pins[k] == x;
            assert(out[k] == x);
        }
        if x == v && pins.contains(u) {
            let k = choose|k: int| 0 <= k < pins.len() && pins[k] == u;
            assert(out[k] == x);
        }
    }
}

/// Who is in a list with one more entry.
pub proof fn lemma_push_contains(s: Seq<Index>, h: Index, x: Index)
    ensures
        s.push(h).contains(x) <==> (s.contains(x) || x == h),
{
    if s.push(h).contains(x) {
        let k = choose|k: int| 0 <= k < s.push(h).len() && s.push(h)[k] == x;
        if k < s.len() {
            assert(s[k] == x);
        }
    }
    if s.contains(x) {
        let k = choose|k: int| 0 <= k < s.len() && s[k] == x;
        assert(s.push(h)[k] == x);
    }
    if x == h {
        assert(s.push(h)[s.len() as int] == x);
    }
}

/// Replay respects agreement: mementos that can be undone in a structure
/// can be undone in one that agrees with it, and the results agree.
pub proof fn lemma_replay_agrees(s: Layout, r: Layout, ms: Seq<Memento>)
    requires
        s.replayable(ms),
        s.wf(),
        s.agrees(r),
    ensures
        r.replayable(ms),
        s.replayed(ms).wf(),
        s.replayed(ms).agrees(r.replayed(ms)),
    decreases ms.len(),
{
    if ms.len() == 0 {
        lemma_agrees_wf(s, r);
    } else {
        lemma_uncontract_agrees(s, r, ms.last());
        lemma_replay_agrees(s.uncontracted(ms.last()), r.uncontracted(ms.last()), ms.drop_last());
    }
}

/// A contraction extends what can be replayed: after contracting `v` into
/// `u`, the new memento and then the earlier ones can be undone, and that
/// gives a structure that agrees with what undoing the earlier ones gave
/// before.
pub proof fn lemma_contract_replayable(
    s: Layout,
    t: Layout,
    u: Index,
    v: Index,
    ms: Seq<Memento>,
)
    requires
        can_contract(s, u, v),
        s.contracts_to(t, u, v),
        s.replayable(ms),
    ensures
        t.replayable(ms.push(s.memento(u, v))),
        s.replayed(ms).agrees(t.replayed(ms.push(s.memento(u, v)))),
{
    let m = s.memento(u, v);
    lemma_round_trip(s, t, u, v);
    lemma_replay_agrees(s, t.uncontracted(m), ms);
    assert(ms.push(m).drop_last() =~= ms);
}

/// Undoing everything that can be replayed gives a hypergraph, with as
/// many more pins enabled as there are mementos.
pub proof fn lemma_replayed(s: Layout, ms: Seq<Memento>)
    requires
        s.replayable(ms),
    ensures
        s.replayed(ms).wf(),
        s.replayed(ms).v.len() == s.v.len(),
        s.replayed(ms).e.len() == s.e.len(),
        s.replayed(ms).num_disabled + ms.len() == s.num_disabled,
        s.replayed(ms).num_pins() == s.num_pins() + ms.len(),
    decreases ms.len(),
{
    if ms.len() > 0 {
        lemma_undoable_facts(s, ms.last());
        lemma_replayed(s.uncontracted(ms.last()), ms.drop_last());
    }
}

} // verus!
