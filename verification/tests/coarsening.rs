use hyperpart::bipartite::Bipartite;
use hyperpart::coarsen::{best_match, coarsen, rate, TARGET_PINS};
use hyperpart::queue::{Entry, Queue};
use hyperpart::uncoarsen::uncoarsen;

fn figure(weights: &[u64], capacities: &[u64]) -> Bipartite {
    let nets: Vec<&[u32]> = vec![&[0, 1, 2, 3], &[4, 1, 5]];
    Bipartite::new(capacities, weights, &nets)
}

/// A ring of `n` pins, each net joining a pin with the next two.
fn ring(n: u32) -> Bipartite {
    let lists: Vec<Vec<u32>> = (0..n).map(|p| vec![p, (p + 1) % n, (p + 2) % n]).collect();
    let nets: Vec<&[u32]> = lists.iter().map(|l| l.as_slice()).collect();
    let capacities: Vec<u64> = (0..n).map(|p| 1 + (p % 3) as u64).collect();
    let weights: Vec<u64> = (0..n).map(|e| 1 + (e % 5) as u64).collect();
    Bipartite::new(&capacities, &weights, &nets)
}

#[test]
fn rate_is_weight_over_other_pins_over_capacities() {
    let h = figure(&[1, 1], &[1; 6]);
    // One net of four pins: a third of the unit, rounded down.
    assert_eq!(rate(&h, 0, 1), 1_431_655_765);
    // One net of three pins: half the unit.
    assert_eq!(rate(&h, 1, 4), 2_147_483_648);
    // No net joins the two.
    assert_eq!(rate(&h, 0, 4), 0);
}

#[test]
fn rate_divides_by_the_product_of_capacities() {
    let h = figure(&[6, 5], &[2, 3, 1, 1, 4, 1]);
    // 6 units over 3 other pins, over 2 * 3.
    assert_eq!(rate(&h, 0, 1), 6 * 4_294_967_296 / 3 / 6);
    // 5 units over 2 other pins, over 3 * 4, rounded down.
    assert_eq!(rate(&h, 1, 4), 894_784_853);
    assert_eq!(rate(&h, 4, 1), 894_784_853);
}

#[test]
fn rate_sums_over_the_nets_that_join() {
    let nets: Vec<&[u32]> = vec![&[0, 1], &[1, 0, 2], &[2, 1]];
    let h = Bipartite::new(&[1; 3], &[3, 4, 5], &nets);
    assert_eq!(rate(&h, 0, 1), 3 * 4_294_967_296 + 2 * 4_294_967_296);
}

#[test]
fn rate_with_a_weightless_pin_is_zero() {
    let h = figure(&[1, 1], &[0, 1, 1, 1, 1, 1]);
    assert_eq!(rate(&h, 0, 1), 0);
    assert_eq!(rate(&h, 1, 0), 0);
}

#[test]
fn best_match_is_the_last_of_the_highest_rated() {
    let h = figure(&[1, 1], &[1; 6]);
    // Pins 4 and 5 share the smaller net with pin 1; 5 comes last.
    assert_eq!(best_match(&h, 1), Some((5, 2_147_483_648)));
    // Pins 1, 2 and 3 are rated alike for pin 0.
    assert_eq!(best_match(&h, 0), Some((3, 1_431_655_765)));
}

#[test]
fn best_match_of_a_lone_pin_is_none() {
    let nets: Vec<&[u32]> = vec![&[0]];
    let h = Bipartite::new(&[1, 1], &[1], &nets);
    assert_eq!(best_match(&h, 0), None);
    assert_eq!(best_match(&h, 1), None);
}

#[test]
fn queue_gives_the_greatest_entry_first() {
    let mut q = Queue::new();
    assert_eq!(q.len(), 0);
    assert_eq!(q.pop(), None);
    q.push(Entry { key: 5, first: 1, second: 2 });
    q.push(Entry { key: 9, first: 0, second: 7 });
    q.push(Entry { key: -3, first: 4, second: 4 });
    q.push(Entry { key: 9, first: 3, second: 0 });
    q.push(Entry { key: 9, first: 3, second: 1 });
    q.push(Entry { key: 5, first: 1, second: 2 });
    assert_eq!(q.len(), 6);
    assert_eq!(q.pop(), Some(Entry { key: 9, first: 3, second: 1 }));
    assert_eq!(q.pop(), Some(Entry { key: 9, first: 3, second: 0 }));
    assert_eq!(q.pop(), Some(Entry { key: 9, first: 0, second: 7 }));
    assert_eq!(q.pop(), Some(Entry { key: 5, first: 1, second: 2 }));
    assert_eq!(q.pop(), Some(Entry { key: 5, first: 1, second: 2 }));
    assert_eq!(q.pop(), Some(Entry { key: -3, first: 4, second: 4 }));
    assert_eq!(q.pop(), None);
    assert_eq!(q.len(), 0);
}

#[test]
fn queue_sorts_many_entries() {
    let mut q = Queue::new();
    let mut expected = Vec::new();
    let mut x: u64 = 12345;
    for _ in 0..500 {
        x = x.wrapping_mul(6364136223846793005).wrapping_add(1442695040888963407);
        let entry = Entry {
            key: ((x >> 33) % 50) as i128 - 25,
            first: ((x >> 20) % 7) as u32,
            second: ((x >> 10) % 3) as u32,
        };
        q.push(entry);
        expected.push((entry.key, entry.first, entry.second));
    }
    expected.sort();
    expected.reverse();
    assert_eq!(q.len(), 500);
    for want in expected {
        let got = q.pop().unwrap();
        assert_eq!((got.key, got.first, got.second), want);
    }
    assert_eq!(q.pop(), None);
}

#[test]
fn coarsen_leaves_a_small_hypergraph_alone() {
    let before = ring(100);
    let mut h = before.clone();
    let mementos = coarsen(&mut h);
    assert!(mementos.is_empty());
    assert_eq!(h, before);
}

#[test]
fn coarsen_stops_just_below_the_target() {
    let mut h = ring(400);
    let mementos = coarsen(&mut h);
    assert_eq!(h.num_pins(), TARGET_PINS - 1);
    assert_eq!(mementos.len(), 400 - h.num_pins());
    assert_eq!(h.pin_index_space_size(), 400);
    assert_eq!(h.total_capacity(), 133 + 2 * 133 + 3 * 133 + 1);
    for m in &mementos {
        assert!(m.u != m.v);
        assert!(!h.enabled(m.v));
    }
}

#[test]
fn coarsen_at_the_target_contracts_once() {
    let mut h = ring(320);
    let mementos = coarsen(&mut h);
    assert_eq!(mementos.len(), 1);
    assert_eq!(h.num_pins(), 319);
}

#[test]
fn coarsen_contracts_the_best_rated_pair_first() {
    let before = ring(320);
    // The seeds are the pins of capacity at most 13/4 of the total over the
    // target; here every pin is one.
    let cap = 13 * before.total_capacity() as u128 / (4 * 320);
    let mut best: Option<(u128, u32, u32)> = None;
    for u in 0..320 {
        if before.capacity(u) as u128 <= cap {
            let (v, r) = best_match(&before, u).unwrap();
            if best.is_none() || (r, u, v) > best.unwrap() {
                best = Some((r, u, v));
            }
        }
    }
    let (_, u, v) = best.unwrap();
    let mut h = before.clone();
    let mementos = coarsen(&mut h);
    assert_eq!(mementos.len(), 1);
    assert_eq!((mementos[0].u, mementos[0].v), (u, v));
    let mut by_hand = before.clone();
    by_hand.contract(u, v);
    assert_eq!(h, by_hand);
}

#[test]
fn coarsen_passes_over_heavy_seeds() {
    // Pin 0 outweighs the cap, so it seeds nothing, but may be absorbed.
    let n = 320u32;
    let lists: Vec<Vec<u32>> = (0..n - 1).map(|p| vec![p, p + 1]).collect();
    let nets: Vec<&[u32]> = lists.iter().map(|l| l.as_slice()).collect();
    let mut capacities = vec![1u64; n as usize];
    capacities[0] = 1_000;
    let weights = vec![1u64; n as usize - 1];
    let mut h = Bipartite::new(&capacities, &weights, &nets);
    let mementos = coarsen(&mut h);
    assert_eq!(mementos.len(), 1);
    assert!(mementos[0].u != 0);
}

#[test]
fn coarsen_ends_when_no_pair_is_left() {
    // No nets, so no pin has a match.
    let nets: Vec<&[u32]> = vec![];
    let capacities = vec![1; 400];
    let mut h = Bipartite::new(&capacities, &[], &nets);
    let mementos = coarsen(&mut h);
    assert!(mementos.is_empty());
    assert_eq!(h.num_pins(), 400);
}

#[test]
fn uncoarsen_restores_the_hypergraph() {
    let before = ring(400);
    let mut h = before.clone();
    let mementos = coarsen(&mut h);
    let count = mementos.len();
    let mut labels: Vec<bool> = (0..400).map(|p| h.enabled(p) && p % 2 == 0).collect();
    let limit = h.size_constraint(30_000);
    uncoarsen(&mut h, limit, mementos, &mut labels);
    assert_eq!(h.num_pins(), 319 + count);
    assert_eq!(h.num_pins(), 400);
    assert_eq!(labels.len(), 400);
    for p in 0..400 {
        assert!(h.enabled(p));
        assert_eq!(h.capacity(p), before.capacity(p));
        assert_eq!(h.incident_nets(p), before.incident_nets(p));
    }
    for e in 0..400 {
        let mut now = h.pins_in_net(e);
        let mut then = before.pins_in_net(e);
        now.sort();
        then.sort();
        assert_eq!(now, then);
        assert_eq!(h.weight(e), before.weight(e));
    }
    assert_eq!(h.evaluate_bipartition(&labels), before.evaluate_bipartition(&labels));
}
