use std::collections::BTreeSet;

use hyperpart::bipartite::Bipartite;
use hyperpart::bipartition;
use hyperpart::initial::{
    bfs_half, bfs_half_from, choose_side, filled, initial_partitioning, label_propagation_from,
    last_bfs, pick, portfolio, pseudo_peripheral_vertices, pull, random_partitioning,
    random_vertex, select_best, size_constrained_label_propagation, Labelling,
};

fn figure() -> Bipartite {
    let nets: Vec<&[u32]> = vec![&[0, 1, 2, 3], &[4, 1, 5]];
    Bipartite::new(&[1; 6], &[1; 2], &nets)
}

/// A path of `n` pins: net `e` joins pin `e` and pin `e + 1`.
fn path(n: u32) -> Bipartite {
    let lists: Vec<Vec<u32>> = (0..n - 1).map(|p| vec![p, p + 1]).collect();
    let nets: Vec<&[u32]> = lists.iter().map(|l| l.as_slice()).collect();
    let capacities = vec![1; n as usize];
    let weights = vec![1; n as usize - 1];
    Bipartite::new(&capacities, &weights, &nets)
}

#[test]
fn bipartition_random_hypergraph() {
    let num_v = 200;
    let num_e = 80;
    let max_net_size = 4;

    let capacities: Vec<u64> = (0..num_v).map(|_| rand::random::<u32>() as u64).collect();
    let weights: Vec<u64> = (0..num_e).map(|_| rand::random::<u32>() as u64).collect();
    let nets: Vec<Vec<u32>> = (0..num_e)
        .map(|_| {
            let pins: BTreeSet<u32> =
                (0..max_net_size).map(|_| rand::random::<u32>() % num_v).collect();
            pins.into_iter().collect()
        })
        .collect();
    let nets_ref: Vec<&[u32]> = nets.iter().map(|vec| &**vec).collect();
    let best_eval = (0..32)
        .map(|_| bipartition(&capacities, &weights, &nets_ref, 30_000).1)
        .min_by_key(|(_, cost)| *cost);
    println!(
        "{:?} {:?} {:?}",
        best_eval,
        capacities.iter().sum::<u64>(),
        weights.iter().sum::<u64>()
    );
}

#[test]
fn bipartition_evaluates_what_it_returns() {
    let capacities: Vec<u64> = (0..50).map(|p| 1 + p % 4).collect();
    let lists: Vec<Vec<u32>> = (0..48).map(|p| vec![p, p + 1, p + 2]).collect();
    let nets: Vec<&[u32]> = lists.iter().map(|l| l.as_slice()).collect();
    let weights: Vec<u64> = (0..48).map(|e| 1 + e % 3).collect();
    let (labels, eval) = bipartition(&capacities, &weights, &nets, 30_000);
    assert_eq!(labels.len(), 50);
    let fresh = Bipartite::new(&capacities, &weights, &nets);
    assert_eq!(fresh.evaluate_bipartition(&labels), eval);
    let true_side: u64 = (0..50).filter(|p| labels[*p]).map(|p| capacities[p]).sum();
    let false_side: u64 = (0..50).filter(|p| !labels[*p]).map(|p| capacities[p]).sum();
    assert_eq!(eval.0, true_side.max(false_side));
}

#[test]
fn bipartition_of_a_large_hypergraph_goes_through_all_stages() {
    let n = 500u32;
    let capacities: Vec<u64> = (0..n).map(|p| 1 + (p % 2) as u64).collect();
    let lists: Vec<Vec<u32>> = (0..n).map(|p| vec![p, (p + 1) % n, (p + 7) % n]).collect();
    let nets: Vec<&[u32]> = lists.iter().map(|l| l.as_slice()).collect();
    let weights: Vec<u64> = vec![1; n as usize];
    let (labels, eval) = bipartition(&capacities, &weights, &nets, 30_000);
    assert_eq!(labels.len(), 500);
    let fresh = Bipartite::new(&capacities, &weights, &nets);
    assert_eq!(fresh.evaluate_bipartition(&labels), eval);
}

#[test]
fn bipartition_of_nothing() {
    let nets: Vec<&[u32]> = vec![];
    let (labels, eval) = bipartition(&[], &[], &nets, 0);
    assert_eq!(labels, Vec::<bool>::new());
    assert_eq!(eval, (0, 0));
}

#[test]
fn bipartition_of_pins_without_nets() {
    let nets: Vec<&[u32]> = vec![];
    let (labels, eval) = bipartition(&[1; 10], &[], &nets, 0);
    assert_eq!(labels.len(), 10);
    assert_eq!(eval.1, 0);
    assert!(eval.0 >= 5);
}

#[test]
fn nets_over_most_pins_are_cut_by_a_balanced_bipartition() {
    // Eight pins; each net leaves out one pin only, so a side of at most
    // six pins cannot hold a whole net.
    let lists: Vec<Vec<u32>> = (0..8).map(|out| (0..8).filter(|p| *p != out).collect()).collect();
    let nets: Vec<&[u32]> = lists.iter().map(|l| l.as_slice()).collect();
    let capacities = [1u64; 8];
    let weights = [1u64; 8];
    let (labels, (imbalance, cut_weight)) = bipartition(&capacities, &weights, &nets, 500_000);
    let h = Bipartite::new(&capacities, &weights, &nets);
    assert_eq!(h.size_constraint(500_000), 6);
    assert!(cut_weight > 0);
    assert!(imbalance as u128 <= h.size_constraint(500_000));
    assert_eq!(h.evaluate_bipartition(&labels), (imbalance, cut_weight));
}

#[test]
fn select_best_takes_balance_first_then_cut_then_the_first() {
    let h = figure();
    let candidates = vec![
        vec![true, true, true, true, true, false],
        vec![true, true, true, true, false, false],
        vec![true, false, true, false, true, false],
        vec![false, false, false, false, true, true],
        vec![true, false, true, true, false, false],
    ];
    // Limit 3: only the balanced ones reach it; of those the last cuts less.
    assert_eq!(select_best(&h, &candidates, 3), 4);
    // Limit 4: the second is the first to reach it with a cut of one.
    assert_eq!(select_best(&h, &candidates, 4), 1);
    // Limit 6: every candidate is within it; the one-sided ones cut least.
    let one_sided = vec![vec![true; 6], vec![false; 6], vec![true; 6]];
    assert_eq!(select_best(&h, &one_sided, 6), 0);
    // Limit 0: the heavier side alone decides, then the cut.
    assert_eq!(select_best(&h, &candidates, 0), 4);
}

#[test]
fn initial_partitioning_is_no_worse_than_a_breadth_first_half() {
    let h = path(40);
    let labels = initial_partitioning(&h, 0);
    assert_eq!(labels.len(), 40);
    let (imbalance, cut) = h.evaluate_bipartition(&labels);
    // A breadth-first half from either end is balanced and cuts one net;
    // from elsewhere it is balanced too.
    assert_eq!(imbalance, 20);
    assert!(cut >= 1);
}

#[test]
fn portfolio_holds_sixty_candidates() {
    let h = figure();
    let candidates = portfolio(&h, 30_000);
    assert_eq!(candidates.len(), 60);
    for c in &candidates {
        assert_eq!(c.len(), 6);
    }
    let limit = h.size_constraint(30_000);
    let best = select_best(&h, &candidates, limit);
    let key = |c: &Vec<bool>| {
        let (imbalance, cut) = h.evaluate_bipartition(c);
        ((imbalance as u128).max(limit), cut)
    };
    for (i, c) in candidates.iter().enumerate() {
        assert!(key(&candidates[best]) <= key(c));
        if i < best {
            assert!(key(&candidates[best]) < key(c));
        }
    }
}

#[test]
fn random_partitioning_labels_every_pin() {
    let h = figure();
    assert_eq!(random_partitioning(&h).len(), 6);
    assert_eq!(filled(3, true), vec![true, true, true]);
    assert_eq!(filled(0, false), Vec::<bool>::new());
}

#[test]
fn pick_counts_enabled_pins_only() {
    let mut h = figure();
    h.contract(0, 1);
    h.contract(0, 3);
    // Enabled: 0, 2, 4, 5.
    assert_eq!(pick(&h, 0), Some(0));
    assert_eq!(pick(&h, 1), Some(2));
    assert_eq!(pick(&h, 2), Some(4));
    assert_eq!(pick(&h, 3), Some(5));
    assert_eq!(pick(&h, 4), Some(0));
    assert_eq!(pick(&h, 4_294_967_295), Some(5));
    for _ in 0..50 {
        let p = random_vertex(&h).unwrap();
        assert!(h.enabled(p));
    }
}

#[test]
fn pick_of_no_pin_is_none() {
    let nets: Vec<&[u32]> = vec![];
    let h = Bipartite::new(&[], &[], &nets);
    assert_eq!(pick(&h, 7), None);
    assert_eq!(random_vertex(&h), None);
    assert_eq!(pseudo_peripheral_vertices(&h), None);
    assert_eq!(bfs_half(&h), Vec::<bool>::new());
    assert_eq!(size_constrained_label_propagation(&h, 0), Vec::<bool>::new());
}

#[test]
fn bfs_half_labels_the_first_half_reached() {
    let h = path(6);
    assert_eq!(bfs_half_from(&h, 0), vec![true, true, true, false, false, false]);
    assert_eq!(bfs_half_from(&h, 5), vec![false, false, false, true, true, true]);
    assert_eq!(bfs_half_from(&h, 2), vec![false, true, true, true, false, false]);
    let labels = bfs_half(&h);
    assert_eq!(labels.iter().filter(|l| **l).count(), 3);
}

#[test]
fn bfs_half_stays_within_the_component() {
    let nets: Vec<&[u32]> = vec![&[0, 1], &[2, 3, 4, 5]];
    let h = Bipartite::new(&[1; 6], &[1; 2], &nets);
    assert_eq!(bfs_half_from(&h, 0), vec![true, true, false, false, false, false]);
    assert_eq!(bfs_half_from(&h, 3), vec![false, false, true, true, true, false]);
}

#[test]
fn bfs_half_of_one_pin_labels_none() {
    let nets: Vec<&[u32]> = vec![];
    let h = Bipartite::new(&[1], &[], &nets);
    assert_eq!(bfs_half_from(&h, 0), vec![false]);
}

#[test]
fn last_bfs_ends_far_away() {
    let h = path(9);
    assert_eq!(last_bfs(&h, 0), 8);
    assert_eq!(last_bfs(&h, 8), 0);
    assert_eq!(last_bfs(&h, 3), 8);
    let (a, b) = pseudo_peripheral_vertices(&h).unwrap();
    assert!((a, b) == (0, 8) || (a, b) == (8, 0));
}

#[test]
fn choose_side_prefers_the_stronger_pull_within_the_limit() {
    // Both sides have room: the stronger pull wins, the true side on a tie.
    assert!(choose_side(5, 4, 3, 3, 2, 10));
    assert!(!choose_side(4, 5, 3, 3, 2, 10));
    assert!(choose_side(4, 4, 3, 3, 2, 10));
    // The preferred side has no room: the other one.
    assert!(!choose_side(5, 4, 9, 3, 2, 10));
    assert!(choose_side(4, 5, 3, 9, 2, 10));
    // Neither has room: false.
    assert!(!choose_side(5, 4, 9, 9, 2, 10));
    assert!(!choose_side(4, 5, 9, 9, 2, 10));
    // Reaching the limit exactly counts as no room.
    assert!(!choose_side(5, 4, 8, 3, 2, 10));
    assert!(choose_side(5, 4, 7, 3, 2, 10));
}

#[test]
fn labelling_keeps_its_accounts() {
    let nets: Vec<&[u32]> = vec![&[0, 1, 2]];
    let h = Bipartite::new(&[2, 3, 5], &[1], &nets);
    let mut state = Labelling::new(&h);
    assert_eq!((state.c1, state.c2, state.n), (0, 0, 0));
    state.assign(&h, 0, true);
    assert_eq!((state.c1, state.c2, state.n), (2, 0, 1));
    state.assign(&h, 1, false);
    assert_eq!((state.c1, state.c2, state.n), (2, 3, 2));
    state.assign(&h, 0, false);
    assert_eq!((state.c1, state.c2, state.n), (0, 5, 2));
    state.assign(&h, 0, false);
    assert_eq!((state.c1, state.c2, state.n), (0, 5, 2));
    state.assign(&h, 1, true);
    assert_eq!((state.c1, state.c2, state.n), (3, 2, 2));
    state.assign(&h, 2, true);
    assert_eq!((state.c1, state.c2, state.n), (8, 2, 3));
    assert_eq!(state.labels, vec![Some(false), Some(true), Some(true)]);
}

#[test]
fn pull_sums_the_nets_with_a_labelled_pin() {
    let nets: Vec<&[u32]> = vec![&[0, 1], &[1, 2], &[1, 3]];
    let h = Bipartite::new(&[1; 4], &[3, 5, 7], &nets);
    let labels = vec![Some(true), None, Some(false), None];
    assert_eq!(pull(&h, &labels, 1), (3, 5, true));
    assert_eq!(pull(&h, &labels, 3), (0, 0, false));
    let labels = vec![Some(true), None, Some(true), Some(false)];
    assert_eq!(pull(&h, &labels, 1), (8, 7, true));
}

#[test]
fn label_propagation_spreads_from_the_seeds() {
    let h = path(8);
    // Seeds at the ends, no further neighbours seeded, room on both sides.
    let labels = label_propagation_from(&h, 1_000_000, 0, 7, &vec![], &vec![]);
    // The first sweep runs upwards from pin 1, which only the true seed pulls;
    // each pin then pulls the next, until pin 6 is pulled both ways alike.
    assert_eq!(labels, vec![true, true, true, true, true, true, true, false]);
}

#[test]
fn label_propagation_heeds_the_size_constraint() {
    let h = path(8);
    // At tolerance zero a side may hold four pins, and is full with three
    // when a fourth would reach the limit.
    let labels = label_propagation_from(&h, 0, 0, 7, &vec![], &vec![]);
    assert_eq!(labels, vec![true, true, true, false, false, false, false, false]);
}

#[test]
fn label_propagation_seeds_up_to_five_neighbours() {
    let nets: Vec<&[u32]> = vec![&[0, 1, 2, 3, 4, 5, 6, 7], &[8, 9]];
    let h = Bipartite::new(&[1; 10], &[1; 2], &nets);
    let near: Vec<u32> = vec![1, 2, 3, 4, 5, 6, 7];
    let labels = label_propagation_from(&h, 3_000_000, 0, 8, &near, &vec![9]);
    assert_eq!(&labels[..6], &[true; 6]);
    assert!(!labels[8]);
    assert!(!labels[9]);
}

#[test]
fn label_propagation_leaves_unreached_pins_false() {
    // Pins 2 and 3 share no net with a seed.
    let nets: Vec<&[u32]> = vec![&[0, 1], &[2, 3]];
    let h = Bipartite::new(&[1; 4], &[1; 2], &nets);
    let labels = label_propagation_from(&h, 3_000_000, 0, 0, &vec![1], &vec![]);
    assert_eq!(labels, vec![false, true, false, false]);
}

#[test]
fn label_propagation_from_random_seeds_labels_every_pin() {
    let h = path(30);
    for _ in 0..10 {
        let labels = size_constrained_label_propagation(&h, 30_000);
        assert_eq!(labels.len(), 30);
    }
}
