use hyperpart::bipartite::{input_is_valid, Bipartite};

fn figure() -> Bipartite {
    // Six pins, the nets {0, 1, 2, 3} and {1, 4, 5}, pin lists first.
    Bipartite::from_parts(
        vec![(0, 1), (1, 2), (3, 1), (4, 1), (5, 1), (6, 1)],
        vec![(7, 4), (11, 3)],
        vec![0, 0, 1, 0, 0, 1, 1, 0, 1, 2, 3, 1, 4, 5],
        vec![true; 6],
        0,
        vec![1; 6],
        vec![1; 2],
    )
}

fn built() -> Bipartite {
    let nets: Vec<&[u32]> = vec![&[0, 1, 2, 3], &[4, 1, 5]];
    Bipartite::new(&[1; 6], &[1; 2], &nets)
}

#[test]
fn simple_contract() {
    let before = figure();

    let mut contract = before.clone();
    let m = contract.contract(0, 1);

    let correct = Bipartite::from_parts(
        vec![(14, 2), (1, 2), (3, 1), (4, 1), (5, 1), (6, 1)],
        vec![(7, 3), (11, 3)],
        vec![0, 0, 1, 0, 0, 1, 1, 0, 3, 2, 1, 5, 4, 0, 0, 1],
        vec![true, false, true, true, true, true],
        1,
        vec![2, 1, 1, 1, 1, 1],
        vec![1; 2],
    );
    assert_eq!(contract, correct);

    contract.uncontract(m);

    let correct = Bipartite::from_parts(
        vec![(0, 1), (1, 2), (3, 1), (4, 1), (5, 1), (6, 1)],
        vec![(7, 4), (11, 3)],
        vec![0, 0, 1, 0, 0, 1, 1, 0, 3, 2, 1, 5, 4, 1, 0, 1],
        vec![true; 6],
        0,
        vec![1; 6],
        vec![1; 2],
    );
    assert_eq!(contract, correct);
}

#[test]
fn new_lays_nets_first_then_pins() {
    let expected = Bipartite::from_parts(
        vec![(7, 1), (8, 2), (10, 1), (11, 1), (12, 1), (13, 1)],
        vec![(0, 4), (4, 3)],
        vec![0, 1, 2, 3, 4, 1, 5, 0, 0, 1, 0, 0, 1, 1],
        vec![true; 6],
        0,
        vec![1; 6],
        vec![1; 2],
    );
    assert_eq!(built(), expected);
}

#[test]
fn new_of_nothing_is_empty() {
    let nets: Vec<&[u32]> = vec![];
    let h = Bipartite::new(&[], &[], &nets);
    assert_eq!(h.pin_index_space_size(), 0);
    assert_eq!(h.num_pins(), 0);
    assert_eq!(h.num_nets(), 0);
    assert_eq!(h.total_capacity(), 0);
    assert_eq!(h.pins(), Vec::<u32>::new());
    assert_eq!(h.nets(), Vec::<u32>::new());
}

#[test]
fn new_keeps_empty_nets_and_lone_pins() {
    let nets: Vec<&[u32]> = vec![&[], &[2]];
    let h = Bipartite::new(&[4, 5, 6], &[7, 8], &nets);
    assert_eq!(h.pins_in_net(0), Vec::<u32>::new());
    assert_eq!(h.pins_in_net(1), vec![2]);
    assert_eq!(h.incident_nets(0), Vec::<u32>::new());
    assert_eq!(h.incident_nets(2), vec![1]);
    assert_eq!(h.incident_pins(2), Vec::<u32>::new());
}

#[test]
fn contract_on_built_structure_gives_these_arrays() {
    let mut h = built();
    let m = h.contract(0, 1);
    assert_eq!(m.u, 0);
    assert_eq!(m.v, 1);
    assert_eq!(m.u_idx, 7);
    assert_eq!(m.u_len, 1);
    let expected = Bipartite::from_parts(
        vec![(14, 2), (8, 2), (10, 1), (11, 1), (12, 1), (13, 1)],
        vec![(0, 3), (4, 3)],
        vec![0, 3, 2, 1, 4, 5, 0, 0, 0, 1, 0, 0, 1, 1, 0, 1],
        vec![true, false, true, true, true, true],
        1,
        vec![2, 1, 1, 1, 1, 1],
        vec![1; 2],
    );
    assert_eq!(h, expected);
}

#[test]
fn round_trip_restores_all_but_the_order_in_nets() {
    let before = built();
    let mut h = before.clone();
    let m = h.contract(0, 1);
    h.uncontract(m);
    assert_eq!(h.num_pins(), 6);
    for p in 0..6 {
        assert!(h.enabled(p));
        assert_eq!(h.capacity(p), before.capacity(p));
        assert_eq!(h.incident_nets(p), before.incident_nets(p));
        assert_eq!(h.degree(p), before.degree(p));
    }
    // In each net of the absorbed pin, that pin has moved to the last place.
    assert_eq!(h.pins_in_net(0), vec![0, 3, 2, 1]);
    assert_eq!(h.pins_in_net(1), vec![4, 5, 1]);
    assert_eq!(h.net_size(0), 4);
    assert_eq!(h.net_size(1), 3);
}

#[test]
fn round_trip_is_exact_where_nothing_moves() {
    // The absorbed pin is last in its only net, which holds the absorber too.
    let nets: Vec<&[u32]> = vec![&[0, 1]];
    let before = Bipartite::new(&[3, 4], &[1], &nets);
    let mut h = before.clone();
    let m = h.contract(0, 1);
    assert_eq!(h.capacity(0), 7);
    assert_eq!(h.pins_in_net(0), vec![0]);
    h.uncontract(m);
    assert_eq!(h, before);
}

#[test]
fn contract_merges_capacity_and_disables() {
    let mut h = built();
    h.contract(2, 3);
    assert_eq!(h.num_pins(), 5);
    assert!(h.enabled(2));
    assert!(!h.enabled(3));
    assert_eq!(h.capacity(2), 2);
    assert_eq!(h.total_capacity(), 6);
    assert_eq!(h.pins(), vec![0, 1, 2, 4, 5]);
    assert_eq!(h.pins_in_net(0).len(), 3);
    assert_eq!(h.incident_nets(2), vec![0]);
}

#[test]
fn nested_contractions_undo_in_reverse() {
    let before = built();
    let mut h = before.clone();
    let m1 = h.contract(0, 1);
    let m2 = h.contract(4, 0);
    let m3 = h.contract(4, 5);
    assert_eq!(h.num_pins(), 3);
    assert_eq!(h.capacity(4), 4);
    h.uncontract(m3);
    h.uncontract(m2);
    h.uncontract(m1);
    assert_eq!(h.num_pins(), 6);
    for p in 0..6 {
        assert!(h.enabled(p));
        assert_eq!(h.capacity(p), 1);
        assert_eq!(h.incident_nets(p), before.incident_nets(p));
    }
    for e in 0..2 {
        let mut now = h.pins_in_net(e);
        let mut then = before.pins_in_net(e);
        now.sort();
        then.sort();
        assert_eq!(now, then);
    }
}

#[test]
fn views_of_the_figure() {
    let h = figure();
    assert_eq!(h.incident_nets(1), vec![0, 1]);
    assert_eq!(h.pins_in_net(0), vec![0, 1, 2, 3]);
    assert_eq!(h.pins_in_net(1), vec![1, 4, 5]);
    assert_eq!(h.incident_pins(1), vec![0, 2, 3, 4, 5]);
    assert_eq!(h.incident_pins(4), vec![1, 5]);
    assert_eq!(h.incident_net(1, 1), 1);
    assert_eq!(h.pin_in_net(1, 2), 5);
    assert_eq!(h.nets(), vec![0, 1]);
    assert_eq!(h.pins(), vec![0, 1, 2, 3, 4, 5]);
    assert_eq!(h.weight(1), 1);
    assert!(h.net_lists(1, 4));
    assert!(!h.net_lists(0, 4));
}

#[test]
fn a_pin_in_two_shared_nets_is_a_neighbour_twice() {
    let nets: Vec<&[u32]> = vec![&[0, 1], &[1, 0, 2]];
    let h = Bipartite::new(&[1; 3], &[1; 2], &nets);
    assert_eq!(h.incident_pins(0), vec![1, 1, 2]);
}

#[test]
fn clone_is_equal_and_apart() {
    let h = built();
    let mut copy = h.clone();
    assert_eq!(copy, h);
    copy.contract(0, 1);
    assert!(h.enabled(1));
    assert!(!copy.enabled(1));
}

#[test]
fn input_checks() {
    let ok: Vec<&[u32]> = vec![&[0, 1, 2, 3], &[4, 1, 5]];
    assert!(input_is_valid(&[1; 6], &[1; 2], &ok));
    // One weight too few.
    assert!(!input_is_valid(&[1; 6], &[1; 1], &ok));
    // A pin out of range.
    let far: Vec<&[u32]> = vec![&[0, 6]];
    assert!(!input_is_valid(&[1; 6], &[1], &far));
    // A pin named twice in one net.
    let twice: Vec<&[u32]> = vec![&[0, 1, 0]];
    assert!(!input_is_valid(&[1; 6], &[1], &twice));
    // Capacities that do not sum in 64 bits.
    let none: Vec<&[u32]> = vec![];
    assert!(!input_is_valid(&[u64::MAX, 1], &[], &none));
    assert!(input_is_valid(&[u64::MAX - 1, 1], &[], &none));
    // Weights that do not sum in 64 bits.
    let two: Vec<&[u32]> = vec![&[0], &[1]];
    assert!(!input_is_valid(&[1, 1], &[u64::MAX, 1], &two));
}
