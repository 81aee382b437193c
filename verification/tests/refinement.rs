use hyperpart::bipartite::Bipartite;
use hyperpart::queue::{Entry, Queue};
use hyperpart::uncoarsen::{count_on_side, gain, on_border, refine, uncoarsen};

fn figure(weights: &[u64]) -> Bipartite {
    let nets: Vec<&[u32]> = vec![&[0, 1, 2, 3], &[4, 1, 5]];
    Bipartite::new(&[1; 6], weights, &nets)
}

#[test]
fn gain_is_freed_weight_less_cut_weight() {
    let h = figure(&[3, 5]);
    // Pin 1 alone on the false side: moving it frees both nets.
    let labels = vec![true, false, true, true, true, true];
    assert_eq!(gain(&h, 1, &labels), 8);
    // All on one side: moving pin 1 cuts both nets.
    let labels = vec![true; 6];
    assert_eq!(gain(&h, 1, &labels), -8);
    assert_eq!(gain(&h, 0, &labels), -3);
    // Pin 1 with the first net, against the second: one freed, one cut.
    let labels = vec![true, true, true, true, false, false];
    assert_eq!(gain(&h, 1, &labels), 2);
    // A net that stays cut either way counts for nothing.
    assert_eq!(gain(&h, 4, &labels), 0);
}

#[test]
fn gain_is_the_fall_of_the_cut() {
    let h = figure(&[3, 5]);
    for bits in 0..64u32 {
        let labels: Vec<bool> = (0..6).map(|p| bits >> p & 1 == 1).collect();
        let cut = h.evaluate_bipartition(&labels).1 as i128;
        for v in 0..6u32 {
            let mut moved = labels.clone();
            moved[v as usize] = !moved[v as usize];
            let after = h.evaluate_bipartition(&moved).1 as i128;
            assert_eq!(gain(&h, v, &labels), cut - after);
        }
    }
}

#[test]
fn a_net_of_one_pin_gains_nothing() {
    let nets: Vec<&[u32]> = vec![&[0]];
    let h = Bipartite::new(&[1], &[9], &nets);
    assert_eq!(gain(&h, 0, &vec![true]), 0);
    assert_eq!(gain(&h, 0, &vec![false]), 0);
}

#[test]
fn count_on_side_counts_labels_in_a_net() {
    let h = figure(&[1, 1]);
    let labels = vec![true, false, true, true, false, false];
    assert_eq!(count_on_side(&h, &labels, 0, true), 3);
    assert_eq!(count_on_side(&h, &labels, 0, false), 1);
    assert_eq!(count_on_side(&h, &labels, 1, false), 3);
}

#[test]
fn border_pins_have_a_neighbour_across() {
    let h = figure(&[1, 1]);
    let labels = vec![true, true, true, true, false, false];
    assert!(on_border(&h, 1, &labels));
    assert!(on_border(&h, 4, &labels));
    assert!(!on_border(&h, 0, &labels));
    assert!(!on_border(&h, 0, &vec![false; 6]));
}

#[test]
fn refine_keeps_the_moves_that_pay() {
    let h = figure(&[3, 5]);
    let mut labels = vec![true, false, true, true, true, true];
    let mut queue = Queue::new();
    let mut gains = vec![0i128; 6];
    gains[1] = gain(&h, 1, &labels);
    queue.push(Entry { key: gains[1], first: 1, second: 0 });
    refine(&h, &mut labels, &mut queue, &mut gains);
    assert_eq!(labels, vec![true; 6]);
    assert_eq!(queue.len(), 0);
    assert_eq!(h.evaluate_bipartition(&labels).1, 0);
}

#[test]
fn refine_takes_back_the_moves_that_cost() {
    let h = figure(&[3, 5]);
    let mut labels = vec![true; 6];
    let mut queue = Queue::new();
    let mut gains = vec![0i128; 6];
    gains[1] = gain(&h, 1, &labels);
    gains[0] = gain(&h, 0, &labels);
    queue.push(Entry { key: gains[1], first: 1, second: 0 });
    queue.push(Entry { key: gains[0], first: 0, second: 0 });
    refine(&h, &mut labels, &mut queue, &mut gains);
    assert_eq!(labels, vec![true; 6]);
    assert_eq!(queue.len(), 0);
}

#[test]
fn refine_replaces_an_entry_that_is_out_of_date() {
    let h = figure(&[3, 5]);
    let mut labels = vec![true, false, true, true, true, true];
    let mut queue = Queue::new();
    let mut gains = vec![0i128; 6];
    gains[1] = 8;
    // Queued with a gain that is not the one on record.
    queue.push(Entry { key: 100, first: 1, second: 0 });
    refine(&h, &mut labels, &mut queue, &mut gains);
    assert_eq!(labels, vec![true; 6]);
    assert_eq!(queue.len(), 0);
}

#[test]
fn refine_on_an_empty_queue_changes_nothing() {
    let h = figure(&[3, 5]);
    let mut labels = vec![true, false, true, false, true, false];
    let mut queue = Queue::new();
    let mut gains = vec![0i128; 6];
    refine(&h, &mut labels, &mut queue, &mut gains);
    assert_eq!(labels, vec![true, false, true, false, true, false]);
}

#[test]
fn uncoarsen_hands_the_side_down_and_refines() {
    let before = figure(&[3, 5]);
    let mut h = before.clone();
    let m1 = h.contract(0, 1);
    let m2 = h.contract(4, 5);
    let mut labels = vec![true, false, true, true, false, true];
    let limit = h.size_constraint(0);
    uncoarsen(&mut h, limit, vec![m1, m2], &mut labels);
    assert_eq!(h.num_pins(), 6);
    assert_eq!(labels.len(), 6);
    assert!(h.evaluate_bipartition(&labels).1 <= 5);
    for p in 0..6 {
        assert_eq!(h.incident_nets(p), before.incident_nets(p));
    }
}

#[test]
fn uncoarsen_hands_the_side_down_away_from_the_border() {
    let before = figure(&[3, 5]);
    let mut h = before.clone();
    let m = h.contract(2, 3);
    // The label of the absorbed pin 3 does not count; it takes that of pin 2.
    let mut labels = vec![true, true, true, false, true, true];
    uncoarsen(&mut h, 3, vec![m], &mut labels);
    assert_eq!(labels, vec![true; 6]);
    let mut labels = vec![false, false, false, true, false, false];
    let mut h = before.clone();
    let m = h.contract(2, 3);
    uncoarsen(&mut h, 3, vec![m], &mut labels);
    assert_eq!(labels, vec![false; 6]);
}

#[test]
fn uncoarsen_without_mementos_changes_nothing() {
    let before = figure(&[3, 5]);
    let mut h = before.clone();
    let mut labels = vec![true, false, true, false, true, false];
    uncoarsen(&mut h, 3, vec![], &mut labels);
    assert_eq!(h, before);
    assert_eq!(labels, vec![true, false, true, false, true, false]);
}
