use rinha_de_backend_2026_fabio_rust::partition::{BucketKey, PartitionIndex};
use rinha_de_backend_2026_fabio_rust::topk::TopK;
use rinha_de_backend_2026_fabio_rust::types::ReferenceLabel;

const PARTITION_DIMS: [usize; 4] = [0, 3, 5, 12];
const PARTITION_WIDTHS: [f64; 4] = [0.05, 0.05, 0.05, 0.10];

struct Reference {
    vector: [f64; 14],
    #[allow(dead_code)]
    label: ReferenceLabel,
}

fn bucket_key(vector: &[f64; 14]) -> BucketKey {
    let mut key = [0_i16; 4];
    for (slot, (&dimension, &width)) in PARTITION_DIMS.iter().zip(PARTITION_WIDTHS.iter()).enumerate() {
        let bucket = (vector[dimension] / width).floor();
        key[slot] = bucket.clamp(i16::MIN as f64, i16::MAX as f64) as i16;
    }
    key
}

#[test]
fn fixed_top_k_keeps_smallest_distances_even_when_better_matches_arrive_late() {
    let mut top_k = TopK::<5>::new();

    for value in [10.0_f64, 9.0, 8.0, 7.0, 6.0, 0.4, 0.3, 0.2, 0.1, 0.05] {
        top_k.push(value.to_bits(), value < 0.25);
    }

    let collected = top_k.into_sorted();
    let distances = collected
        .iter()
        .map(|entry| f64::from_bits(entry.distance))
        .collect::<Vec<_>>();
    let frauds = collected.iter().filter(|entry| entry.is_fraud).count();

    assert_eq!(distances, vec![0.05, 0.1, 0.2, 0.3, 0.4]);
    assert_eq!(frauds, 3);
}

#[test]
fn partition_index_returns_local_candidates_without_scanning_distant_cluster() {
    let references = vec![
        Reference {
            vector: [
                0.10, 0.20, 0.30, 0.15, 0.33, 0.12, 0.01, 0.02, 0.10, 0.0, 1.0, 0.0, 0.10, 0.03,
            ],
            label: ReferenceLabel::Legit,
        },
        Reference {
            vector: [
                0.11, 0.20, 0.31, 0.16, 0.33, 0.11, 0.02, 0.03, 0.10, 0.0, 1.0, 0.0, 0.11, 0.03,
            ],
            label: ReferenceLabel::Fraud,
        },
        Reference {
            vector: [
                0.12, 0.19, 0.29, 0.14, 0.33, 0.13, 0.01, 0.02, 0.10, 0.0, 1.0, 0.0, 0.09, 0.03,
            ],
            label: ReferenceLabel::Legit,
        },
        Reference {
            vector: [
                0.13, 0.21, 0.30, 0.17, 0.33, 0.12, 0.03, 0.01, 0.10, 0.0, 1.0, 0.0, 0.10, 0.03,
            ],
            label: ReferenceLabel::Fraud,
        },
        Reference {
            vector: [
                0.14, 0.20, 0.32, 0.18, 0.33, 0.12, 0.01, 0.02, 0.10, 0.0, 1.0, 0.0, 0.12, 0.03,
            ],
            label: ReferenceLabel::Legit,
        },
        Reference {
            vector: [
                0.95, 0.80, 0.90, 0.90, 0.80, 0.95, 0.90, 0.90, 0.80, 1.0, 0.0, 1.0, 0.90, 0.90,
            ],
            label: ReferenceLabel::Fraud,
        },
        Reference {
            vector: [
                0.96, 0.81, 0.91, 0.91, 0.81, 0.96, 0.91, 0.91, 0.81, 1.0, 0.0, 1.0, 0.91, 0.91,
            ],
            label: ReferenceLabel::Fraud,
        },
    ];

    let keys = references.iter().map(|reference| bucket_key(&reference.vector)).collect::<Vec<_>>();
    let partition_index = PartitionIndex::build(&keys);
    let query = [
        0.115, 0.20, 0.30, 0.16, 0.33, 0.12, 0.02, 0.02, 0.10, 0.0, 1.0, 0.0, 0.10, 0.03,
    ];

    let candidate_indices = partition_index.candidate_indices(&bucket_key(&query), references.len());

    assert_eq!(candidate_indices.len(), 5);
    assert!(candidate_indices.iter().all(|index| *index < 5));
}
