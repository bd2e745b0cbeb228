use plasmod::{mod_cigar, new_cigar, ref_occupancy, Cigar};

#[test]
fn test_simplest_case() {
    // ref seq is 100bp; alignment is simple 10bp match at start
    assert_eq!(
        (0, vec![Cigar::Match(10)]),
        mod_cigar(100, 0, &vec![Cigar::Match(10)], true)
    );
}

#[test]
fn test_entirely_second() {
    // ref seq is 100bp; alignment is simple 10bp match starting at position 100,
    // ie, entirely in the second duplicate
    assert_eq!(
        (0, vec![Cigar::Match(10)]),
        mod_cigar(100, 100, &vec![Cigar::Match(10)], true)
    );
}

#[test]
fn test_spanning() {
    assert_eq!(
        (
            0,
            vec![Cigar::Match(10), Cigar::RefSkip(80), Cigar::Match(10)]
        ),
        mod_cigar(100, 90, &vec![Cigar::Match(20)], false)
    );
}

#[test]
fn test_spanning_del() {
    assert_eq!(
        (0, vec![Cigar::Match(10), Cigar::Del(80), Cigar::Match(10)]),
        mod_cigar(100, 90, &vec![Cigar::Match(20)], true)
    );
}

#[test]
fn test_mix() {
    assert_eq!(
        (
            0,
            vec![
                Cigar::Match(10),
                Cigar::RefSkip(40),
                Cigar::Match(20),
                Cigar::Ins(20),
                Cigar::Match(30)
            ]
        ),
        mod_cigar(
            100,
            50,
            &vec![Cigar::Match(20), Cigar::Ins(20), Cigar::Match(40)],
            false
        )
    );
}

#[test]
fn no_wrap_keeps_start_and_ops() {
    let ops = vec![Cigar::SoftClip(5), Cigar::Match(30), Cigar::Del(2), Cigar::Equal(7)];
    assert_eq!((20, ops.clone()), mod_cigar(100, 20, &ops, false));
}

#[test]
fn second_copy_moves_back_one_length() {
    let ops = vec![Cigar::Match(30), Cigar::Ins(4), Cigar::Diff(3)];
    assert_eq!((37, ops.clone()), mod_cigar(100, 137, &ops, true));
}

#[test]
fn empty_ops_stay_empty() {
    assert_eq!((42, vec![]), mod_cigar(100, 42, &vec![], false));
    assert_eq!((0, vec![]), mod_cigar(100, 100, &vec![], false));
}

#[test]
fn ending_exactly_at_boundary_splits_with_empty_tail() {
    assert_eq!(
        (0, vec![Cigar::Match(0), Cigar::Del(90), Cigar::Match(10)]),
        mod_cigar(100, 90, &vec![Cigar::Match(10)], true)
    );
}

#[test]
fn full_coverage_gives_zero_gap() {
    assert_eq!(
        (0, vec![Cigar::Match(50), Cigar::RefSkip(0), Cigar::Match(50)]),
        mod_cigar(100, 50, &vec![Cigar::Match(100)], false)
    );
}

#[test]
fn insertion_near_boundary_is_not_cut() {
    // an insertion covers no reference, so it stays before the boundary
    assert_eq!(
        (
            0,
            vec![Cigar::Equal(5), Cigar::Del(85), Cigar::Match(5), Cigar::Ins(30), Cigar::Equal(5)]
        ),
        mod_cigar(
            100,
            90,
            &vec![Cigar::Match(5), Cigar::Ins(30), Cigar::Equal(10)],
            true
        )
    );
}

#[test]
fn operations_after_crossing_land_first() {
    assert_eq!(
        (
            0,
            vec![
                Cigar::Diff(2),
                Cigar::Del(3),
                Cigar::Match(4),
                Cigar::SoftClip(6),
                Cigar::RefSkip(83),
                Cigar::Match(5),
                Cigar::Diff(3)
            ]
        ),
        mod_cigar(
            100,
            92,
            &vec![
                Cigar::Match(5),
                Cigar::Diff(5),
                Cigar::Del(3),
                Cigar::Match(4),
                Cigar::SoftClip(6)
            ],
            false
        )
    );
}

#[test]
fn gap_length_same_for_both_kinds() {
    let ops = vec![Cigar::Match(30), Cigar::Del(5), Cigar::Match(20)];
    let (a, x) = mod_cigar(200, 180, &ops, true);
    let (b, y) = mod_cigar(200, 180, &ops, false);
    assert_eq!(a, b);
    assert_eq!(x[3], Cigar::Del(145));
    assert_eq!(y[3], Cigar::RefSkip(145));
    assert_eq!(&x[..3], &y[..3]);
    assert_eq!(&x[4..], &y[4..]);
    assert_eq!(&x[4..], &[Cigar::Match(20)]);
}

#[test]
fn gap_accounting_sums_to_reference_length() {
    let ops = vec![Cigar::Match(25), Cigar::Ins(3), Cigar::RefSkip(10), Cigar::Match(15)];
    let (start, out) = mod_cigar(120, 100, &ops, false);
    assert_eq!(start, 0);
    assert_eq!(ref_occupancy(&out), 120);
}

#[test]
fn occupancy_counts_reference_kinds_only() {
    let ops = vec![
        Cigar::Match(1),
        Cigar::Ins(10),
        Cigar::Del(2),
        Cigar::RefSkip(4),
        Cigar::SoftClip(20),
        Cigar::HardClip(30),
        Cigar::Pad(40),
        Cigar::Equal(8),
        Cigar::Diff(16),
    ];
    assert_eq!(ref_occupancy(&ops), 31);
    assert_eq!(ref_occupancy(&[]), 0);
    assert_eq!(ref_occupancy(&[Cigar::Match(u32::MAX), Cigar::Del(u32::MAX)]), 2 * u32::MAX as u128);
}

#[test]
fn new_cigar_keeps_kind() {
    assert_eq!(new_cigar(&Cigar::Ins(3), 9), Cigar::Ins(9));
    assert_eq!(new_cigar(&Cigar::HardClip(3), 0), Cigar::HardClip(0));
    assert_eq!(new_cigar(&Cigar::Diff(1), 7), Cigar::Diff(7));
    assert_eq!(Cigar::Pad(6).len(), 6);
    assert_eq!(Cigar::Pad(6).ref_len(), 0);
    assert_eq!(Cigar::Equal(6).ref_len(), 6);
}
