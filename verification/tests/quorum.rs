use ledger_sync::chain::{CheckpointBeacon, Hash256};
use ledger_sync::quorum::{mode_consensus, resolve, resolve_reports, PeerReport};

fn beacon(epoch: u32, tag: u64) -> CheckpointBeacon {
    CheckpointBeacon { epoch, block_hash: Hash256 { w0: tag, w1: 0, w2: 0, w3: tag } }
}

#[test]
fn single_value_wins_under_any_threshold() {
    for threshold in [0usize, 1, 50, 60, 99, 100] {
        assert_eq!(resolve(vec!['a'], threshold), Some('a'));
        assert_eq!(resolve(vec!['a', 'a', 'a', 'a'], threshold), Some('a'));
    }
}

#[test]
fn single_value_wins_even_above_a_hundred() {
    assert_eq!(resolve(vec![7u32, 7, 7], 101), Some(7));
    assert_eq!(resolve(vec![7u32], usize::MAX), Some(7));
}

#[test]
fn quorum_rejection_at_half() {
    assert_eq!(resolve(vec!['a', 'a', 'b', 'b'], 60), None);
}

#[test]
fn quorum_acceptance_at_three_quarters() {
    assert_eq!(resolve(vec!['a', 'a', 'a', 'b'], 60), Some('a'));
}

#[test]
fn empty_input_has_no_consensus() {
    for threshold in [0usize, 1, 60, 100, usize::MAX] {
        assert_eq!(resolve(Vec::<char>::new(), threshold), None);
        assert_eq!(mode_consensus(Vec::<u8>::new().into_iter(), threshold), None);
    }
}

#[test]
fn iterator_front_end_agrees_with_resolve() {
    let reports = vec!["x", "y", "x", "x", "z"];
    assert_eq!(mode_consensus(reports.clone().into_iter(), 60), Some("x"));
    assert_eq!(resolve(reports.clone(), 60), Some("x"));
    assert_eq!(mode_consensus(reports.clone().into_iter(), 61), None);
    assert_eq!(resolve(reports, 61), None);
}

#[test]
fn most_common_value_need_not_come_first() {
    assert_eq!(resolve(vec!['b', 'a', 'a'], 50), Some('a'));
    assert_eq!(resolve(vec!['c', 'b', 'a', 'a', 'b', 'a'], 50), Some('a'));
}

#[test]
fn share_is_rounded_down() {
    // 2 of 3 is 66 percent, not 67.
    assert_eq!(resolve(vec!['a', 'a', 'b'], 66), Some('a'));
    assert_eq!(resolve(vec!['a', 'a', 'b'], 67), None);
    // 1 of 3 is 33 percent.
    assert_eq!(resolve(vec!['a', 'b', 'c'], 33), Some('a'));
    assert_eq!(resolve(vec!['a', 'b', 'c'], 34), None);
}

#[test]
fn tie_below_threshold_is_no_consensus() {
    assert_eq!(resolve(vec!['a', 'b'], 51), None);
    assert_eq!(resolve(vec!['b', 'a', 'a', 'b'], 51), None);
    assert_eq!(resolve(vec!['a', 'b', 'c'], 50), None);
}

#[test]
fn tie_that_clears_threshold_goes_to_earliest_seen() {
    assert_eq!(resolve(vec!['a', 'b'], 50), Some('a'));
    assert_eq!(resolve(vec!['b', 'a'], 50), Some('b'));
    assert_eq!(resolve(vec!['b', 'a', 'a', 'b'], 50), Some('b'));
    assert_eq!(resolve(vec!['c', 'a', 'b', 'b', 'a'], 40), Some('a'));
    assert_eq!(resolve(vec!['c', 'b', 'a', 'a', 'b'], 40), Some('b'));
}

#[test]
fn zero_threshold_lets_any_report_win() {
    assert_eq!(resolve(vec!['q'], 0), Some('q'));
    assert_eq!(resolve(vec!['x', 'y', 'z'], 0), Some('x'));
    assert_eq!(resolve(vec!['x', 'y', 'y'], 0), Some('y'));
}

#[test]
fn full_threshold_needs_unanimity() {
    assert_eq!(resolve(vec![1u8, 1, 1, 1], 100), Some(1));
    assert_eq!(resolve(vec![1u8, 1, 1, 2], 100), None);
    let mut many = vec![3u16; 200];
    many.push(4);
    assert_eq!(resolve(many, 100), None);
}

#[test]
fn beacons_are_resolved_by_epoch_and_hash() {
    let a = beacon(10, 1);
    let fork = beacon(10, 2);
    let behind = beacon(9, 1);
    assert_eq!(mode_consensus(vec![a, fork, a, a, behind].into_iter(), 60), Some(a));
    assert_eq!(mode_consensus(vec![a, fork, a, fork, behind].into_iter(), 60), None);
    assert_eq!(mode_consensus(vec![fork, a, a, fork, behind].into_iter(), 40), Some(fork));
}

#[test]
fn large_counts_do_not_overflow_the_share() {
    let mut reports = vec![true; 5000];
    reports.extend(vec![false; 4999]);
    assert_eq!(resolve(reports.clone(), 50), Some(true));
    assert_eq!(resolve(reports, 51), None);
}

#[test]
fn peer_reports_are_resolved_by_their_beacons() {
    let tip = beacon(10, 1);
    let fork = beacon(10, 2);
    let reports: Vec<PeerReport> = vec![
        PeerReport { peer_id: 1, beacon: tip },
        PeerReport { peer_id: 2, beacon: fork },
        PeerReport { peer_id: 3, beacon: tip },
        PeerReport { peer_id: 4, beacon: tip },
    ];
    assert_eq!(resolve_reports(&reports, 75), Some(tip));
    assert_eq!(resolve_reports(&reports, 76), None);
    assert_eq!(resolve_reports(&vec![], 0), None);
    assert_eq!(resolve_reports(&reports[1..2].to_vec(), 100), Some(fork));
}
