use ruvault::net::journal::PatchJournal;

#[test]
fn empty_journal_never_claims_coverage() {
    let j = PatchJournal::new(4);
    assert!(j.ranges_since(1).is_none());
}

#[test]
fn returns_combined_ranges_when_fully_covered() {
    let mut j = PatchJournal::new(4);
    j.record(1, vec![(0, vec![1, 2])]);
    j.record(2, vec![(100, vec![3, 4])]);
    j.record(3, vec![(200, vec![5, 6])]);

    // Peer is at seq 1 (i.e. next_seq == 1, meaning they have
    // everything up through seq 0) -- needs records 1, 2, and 3.
    let combined = j.ranges_since(1).unwrap();
    assert_eq!(combined, vec![(0, vec![1, 2]), (100, vec![3, 4]), (200, vec![5, 6])]);

    // Peer already has seq 1 applied (next_seq == 2) -- needs 2 and 3 only.
    let combined = j.ranges_since(2).unwrap();
    assert_eq!(combined, vec![(100, vec![3, 4]), (200, vec![5, 6])]);
}

#[test]
fn falls_back_to_none_once_history_rolls_off() {
    let mut j = PatchJournal::new(2);
    j.record(1, vec![(0, vec![1])]);
    j.record(2, vec![(1, vec![2])]);
    j.record(3, vec![(2, vec![3])]); // seq 1 now evicted (capacity 2)

    // Peer needs seq 1 onward, but we no longer have it.
    assert!(j.ranges_since(1).is_none());
    // Peer needs seq 2 onward -- still covered.
    assert!(j.ranges_since(2).is_some());
}

#[test]
fn brand_new_peer_always_gets_none_even_if_covered() {
    let mut j = PatchJournal::new(4);
    j.record(1, vec![(0, vec![1])]);
    assert!(j.ranges_since(0).is_none());
}

#[test]
fn zero_capacity_journal_never_covers_anything() {
    let mut j = PatchJournal::new(0);
    j.record(1, vec![(0, vec![1])]);
    assert!(j.ranges_since(1).is_none());
}

#[test]
fn a_run_of_recordings_is_handed_out_from_any_point() {
    for c in [0usize, 1, 3, 10] {
        let mut j = PatchJournal::new(c);
        for s in 5..=9u64 {
            j.record(s, vec![(s, vec![s as u8]), (s + 100, vec![])]);
        }
        let lo = if c == 0 { u64::MAX } else { 5u64.max(10 - c as u64) };
        for p in 0..12u64 {
            let expected = if p == 0 || p < lo {
                None
            } else {
                let all: Vec<(u64, Vec<u8>)> = (p..=9)
                    .flat_map(|s| vec![(s, vec![s as u8]), (s + 100, vec![])])
                    .collect();
                Some(all)
            };
            assert_eq!(j.ranges_since(p), expected);
        }
        j.forget();
        assert_eq!(j.ranges_since(9), None);
    }
}
