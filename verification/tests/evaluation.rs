use hyperpart::bipartite::Bipartite;

fn built() -> Bipartite {
    let nets: Vec<&[u32]> = vec![&[0, 1, 2, 3], &[4, 1, 5]];
    Bipartite::new(&[1, 2, 3, 4, 5, 6], &[10, 7], &nets)
}

#[test]
fn evaluate_gives_heavier_side_and_cut() {
    let h = built();
    let labels = vec![true, true, true, true, false, false];
    // True side 1 + 2 + 3 + 4, false side 5 + 6; the second net is cut.
    assert_eq!(h.evaluate_bipartition(&labels), (11, 7));
    let labels = vec![true, false, false, false, false, false];
    assert_eq!(h.evaluate_bipartition(&labels), (20, 10));
    let labels = vec![true, false, true, true, true, false];
    assert_eq!(h.evaluate_bipartition(&labels), (13, 17));
}

#[test]
fn one_sided_labellings_cut_nothing() {
    let h = built();
    assert_eq!(h.evaluate_bipartition(&vec![true; 6]), (21, 0));
    assert_eq!(h.evaluate_bipartition(&vec![false; 6]), (21, 0));
}

#[test]
fn evaluate_counts_enabled_pins_only() {
    let mut h = built();
    h.contract(4, 5);
    // Pin 4 now weighs 11; the label of pin 5 no longer counts.
    let labels = vec![true, true, true, true, false, true];
    assert_eq!(h.evaluate_bipartition(&labels), (11, 7));
}

#[test]
fn nets_with_fewer_than_two_pins_are_never_cut() {
    let nets: Vec<&[u32]> = vec![&[], &[1]];
    let h = Bipartite::new(&[1, 1], &[5, 6], &nets);
    assert!(!h.cuts(&vec![true, false], 0));
    assert!(!h.cuts(&vec![true, false], 1));
    assert_eq!(h.evaluate_bipartition(&vec![true, false]), (1, 0));
}

#[test]
fn cuts_tells_the_nets_apart() {
    let h = built();
    let labels = vec![true, true, true, true, false, false];
    assert!(!h.cuts(&labels, 0));
    assert!(h.cuts(&labels, 1));
}

#[test]
fn total_capacity_sums_enabled_pins() {
    let mut h = built();
    assert_eq!(h.total_capacity(), 21);
    h.contract(0, 1);
    assert_eq!(h.total_capacity(), 21);
    assert_eq!(h.capacity(0), 3);
}

#[test]
fn size_constraint_values() {
    let h = built();
    // Half of 21, rounded down.
    assert_eq!(h.size_constraint(0), 10);
    // 1.03 * 21 / 2 = 10.815.
    assert_eq!(h.size_constraint(30_000), 10);
    // 1.05 * 21 / 2 = 11.025.
    assert_eq!(h.size_constraint(50_000), 11);
    // 1.5 * 21 / 2 = 15.75.
    assert_eq!(h.size_constraint(500_000), 15);
    assert_eq!(h.size_constraint(1_000_000), 21);
    assert_eq!(h.size_constraint(u32::MAX), 45_107);
}

#[test]
fn size_constraint_never_falls_with_the_tolerance() {
    let h = built();
    let mut last = h.size_constraint(0);
    for epsilon in [1, 10, 47_619, 47_620, 100_000, 999_999, 1_000_000, 5_000_000] {
        let limit = h.size_constraint(epsilon);
        assert!(limit >= last);
        last = limit;
    }
}

#[test]
fn size_constraint_of_the_largest_total() {
    let nets: Vec<&[u32]> = vec![];
    let h = Bipartite::new(&[u64::MAX], &[], &nets);
    assert_eq!(h.size_constraint(0), (u64::MAX / 2) as u128);
    assert_eq!(h.size_constraint(1_000_000), u64::MAX as u128);
    assert_eq!(h.size_constraint(3_000_000), 2 * (u64::MAX as u128));
}
