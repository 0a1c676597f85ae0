use rinha_de_backend_2026_fabio_rust::partition::{bucket_code, collect_ring_candidates, PartitionIndex};
use rinha_de_backend_2026_fabio_rust::scoring::{
    fraud_count, is_approved, vote_nearest, vote_without_references, NeighborVote,
};
use rinha_de_backend_2026_fabio_rust::topk::{TopK, TopKEntry};
use rinha_de_backend_2026_fabio_rust::types::ReferenceLabel;

#[test]
fn top_k_keeps_everything_while_there_is_room() {
    let mut top_k = TopK::<5>::new();
    top_k.push(30, false);
    top_k.push(10, true);
    top_k.push(20, false);
    let sorted = top_k.into_sorted();
    assert_eq!(
        sorted,
        vec![
            TopKEntry { distance: 10, is_fraud: true },
            TopKEntry { distance: 20, is_fraud: false },
            TopKEntry { distance: 30, is_fraud: false },
        ]
    );
}

#[test]
fn top_k_replaces_the_last_farthest_entry_and_keeps_ties_in_order() {
    let mut top_k = TopK::<2>::new();
    top_k.push(5, false);
    top_k.push(5, true);
    top_k.push(1, false);
    let sorted = top_k.into_sorted();
    assert_eq!(
        sorted,
        vec![TopKEntry { distance: 1, is_fraud: false }, TopKEntry { distance: 5, is_fraud: false }]
    );

    let mut top_k = TopK::<3>::new();
    top_k.push(7, true);
    top_k.push(7, false);
    top_k.push(7, true);
    top_k.push(7, false);
    let sorted = top_k.into_sorted();
    assert_eq!(
        sorted,
        vec![
            TopKEntry { distance: 7, is_fraud: true },
            TopKEntry { distance: 7, is_fraud: false },
            TopKEntry { distance: 7, is_fraud: true },
        ]
    );
}

#[test]
fn top_k_ignores_entries_no_closer_than_the_worst() {
    let mut top_k = TopK::<1>::new();
    top_k.push(3, true);
    top_k.push(3, false);
    top_k.push(4, false);
    assert_eq!(top_k.into_sorted(), vec![TopKEntry { distance: 3, is_fraud: true }]);
}

#[test]
fn approval_needs_fewer_than_sixty_percent_fraud_votes() {
    assert!(is_approved(0, 5));
    assert!(is_approved(2, 5));
    assert!(!is_approved(3, 5));
    assert!(!is_approved(5, 5));
    assert!(is_approved(1, 2));
    assert!(!is_approved(0, 0));
}

#[test]
fn fraud_count_counts_fraud_entries() {
    let entries = [
        TopKEntry { distance: 1, is_fraud: true },
        TopKEntry { distance: 2, is_fraud: false },
        TopKEntry { distance: 3, is_fraud: true },
    ];
    assert_eq!(fraud_count(&entries), 2);
    assert_eq!(fraud_count(&[]), 0);
}

#[test]
fn nearest_five_vote_on_the_request() {
    let labels = vec![
        ReferenceLabel::Legit,
        ReferenceLabel::Fraud,
        ReferenceLabel::Fraud,
        ReferenceLabel::Legit,
        ReferenceLabel::Fraud,
        ReferenceLabel::Fraud,
        ReferenceLabel::Legit,
    ];
    let candidates = [0, 1, 2, 3, 4, 5, 6];
    let distances = [1, 2, 3, 4, 5, 100, 0];
    let vote = vote_nearest(&labels, &candidates, &distances);
    assert_eq!(vote, NeighborVote { fraud_count: 2, neighbor_count: 5, approved: true });

    let vote = vote_nearest(&labels, &[1, 2, 4, 0, 3, 5], &[1, 2, 3, 4, 5, 6]);
    assert_eq!(vote, NeighborVote { fraud_count: 3, neighbor_count: 5, approved: false });

    let vote = vote_nearest(&labels, &[0, 3], &[9, 8]);
    assert_eq!(vote, NeighborVote { fraud_count: 0, neighbor_count: 2, approved: true });

    let vote = vote_nearest(&labels, &[], &[]);
    assert_eq!(vote, NeighborVote { fraud_count: 0, neighbor_count: 0, approved: false });
}

#[test]
fn candidates_widen_to_the_first_ring_when_the_center_bucket_is_thin() {
    let keys = vec![[0, 0, 0, 0], [1, 0, 0, 0], [0, 0, -1, 1], [5, 5, 5, 5], [0, 1, 0, 0], [1, 1, 1, 1], [0, 0, 0, 0]];
    let index = PartitionIndex::build(&keys);
    let candidates = index.candidate_indices(&[0, 0, 0, 0], keys.len());
    assert_eq!(candidates, vec![0, 6, 2, 4, 1, 5]);
}

#[test]
fn candidates_stop_at_the_center_bucket_when_it_has_enough() {
    let keys = vec![[2, 2, 2, 2]; 6];
    let mut with_neighbor = keys.clone();
    with_neighbor.push([2, 2, 2, 3]);
    let index = PartitionIndex::build(&with_neighbor);
    let candidates = index.candidate_indices(&[2, 2, 2, 2], with_neighbor.len());
    assert_eq!(candidates, vec![0, 1, 2, 3, 4, 5]);
}

#[test]
fn candidates_fall_back_to_a_full_scan() {
    let keys = vec![[0, 0, 0, 0], [9, 9, 9, 9]];
    let index = PartitionIndex::build(&keys);
    assert_eq!(index.candidate_indices(&[0, 0, 0, 0], 2), vec![0, 1]);

    let empty = PartitionIndex::build(&[]);
    assert_eq!(empty.candidate_indices(&[0, 0, 0, 0], 3), vec![0, 1, 2]);
}

#[test]
fn ring_collection_visits_only_the_requested_ring() {
    let keys = vec![[0, 0, 0, 0], [1, 1, 1, 1], [-1, 0, 0, 0], [2, 0, 0, 0]];
    let index = PartitionIndex::build(&keys);
    let center = [0, 0, 0, 0];

    let mut current = center;
    let mut ring0 = Vec::new();
    collect_ring_candidates(&index, &center, 0, 0, &mut current, &mut ring0);
    assert_eq!(ring0, vec![0]);

    let mut current = center;
    let mut ring1 = vec![42];
    collect_ring_candidates(&index, &center, 1, 0, &mut current, &mut ring1);
    assert_eq!(ring1, vec![42, 2, 1]);
}

#[test]
fn bucket_codes_tell_buckets_apart() {
    assert_eq!(bucket_code(&[0, 0, 0, 0]), 0x8000_8000_8000_8000);
    assert_eq!(bucket_code(&[i16::MIN, i16::MIN, i16::MIN, i16::MIN]), 0);
    assert_eq!(bucket_code(&[i16::MAX, 0, 0, 0]), 0x8000_8000_8000_ffff);
    assert_ne!(bucket_code(&[-1, 0, 0, 0]), bucket_code(&[0, -1, 0, 0]));
    assert_ne!(bucket_code(&[1, 0, 0, 0]), bucket_code(&[0, 0, 0, 1]));
}

#[test]
fn empty_index_scans_everything_even_at_the_i16_end() {
    let empty = PartitionIndex::build(&[]);
    let center = [i16::MAX, 0, 0, 0];
    assert!(empty.can_search(&center));
    assert_eq!(empty.candidate_indices(&center, 3), vec![0, 1, 2]);
}

#[test]
fn center_bucket_at_the_i16_end_suffices_when_it_has_enough() {
    let center = [i16::MAX, 0, 0, i16::MIN];
    let index = PartitionIndex::build(&vec![center; 5]);
    assert!(index.can_search(&center));
    assert_eq!(index.candidate_indices(&center, 5), vec![0, 1, 2, 3, 4]);

    let thin = PartitionIndex::build(&vec![center; 4]);
    assert!(!thin.can_search(&center));

    let inner = [i16::MAX - 1, 0, 0, i16::MIN + 1];
    assert!(thin.can_search(&inner));
    assert_eq!(thin.candidate_indices(&inner, 4), vec![0, 1, 2, 3]);
}

#[test]
fn ring_two_collects_buckets_at_distance_two() {
    let keys = vec![[2, 0, 0, 0], [1, 1, 0, 0], [0, 0, -2, 2], [3, 0, 0, 0], [-2, 2, 1, 0]];
    let index = PartitionIndex::build(&keys);
    let center = [0, 0, 0, 0];
    let mut current = center;
    let mut ring2 = Vec::new();
    collect_ring_candidates(&index, &center, 2, 0, &mut current, &mut ring2);
    assert_eq!(ring2, vec![4, 2, 0]);
}

#[test]
fn rings_zero_and_one_cover_the_neighbourhood_once() {
    let keys = vec![
        [1, 0, 0, 0],
        [0, 0, 0, 0],
        [0, -1, 1, 0],
        [2, 0, 0, 0],
        [0, 0, 0, 0],
        [-1, -1, -1, -1],
        [1, 0, 0, 0],
    ];
    let index = PartitionIndex::build(&keys);
    let center = [0, 0, 0, 0];
    let mut current = center;
    let mut candidates = Vec::new();
    collect_ring_candidates(&index, &center, 0, 0, &mut current, &mut candidates);
    collect_ring_candidates(&index, &center, 1, 0, &mut current, &mut candidates);
    assert_eq!(candidates, vec![1, 4, 5, 2, 0, 6]);
}

#[test]
fn relabelling_a_reference_as_fraud_never_lowers_the_fraud_vote() {
    let before = vec![
        ReferenceLabel::Legit,
        ReferenceLabel::Fraud,
        ReferenceLabel::Legit,
        ReferenceLabel::Fraud,
        ReferenceLabel::Legit,
        ReferenceLabel::Legit,
    ];
    let mut after = before.clone();
    after[2] = ReferenceLabel::Fraud;
    after[5] = ReferenceLabel::Fraud;
    let candidates = [0, 1, 2, 3, 4, 5];
    let distances = [4, 1, 3, 2, 5, 9];

    let vote_before = vote_nearest(&before, &candidates, &distances);
    let vote_after = vote_nearest(&after, &candidates, &distances);
    assert_eq!(vote_before, NeighborVote { fraud_count: 2, neighbor_count: 5, approved: true });
    assert_eq!(vote_after, NeighborVote { fraud_count: 3, neighbor_count: 5, approved: false });
}

#[test]
fn no_references_approve_with_no_votes() {
    assert_eq!(
        vote_without_references(0),
        Some(NeighborVote { fraud_count: 0, neighbor_count: 0, approved: true })
    );
    assert_eq!(vote_without_references(3), None);
}
