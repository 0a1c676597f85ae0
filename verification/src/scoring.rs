use vstd::prelude::*;

use crate::topk::{
    lemma_push_all_keeps_smallest, spec_push, spec_push_all, spec_stable_sorted, spec_worst_index,
    TopK, TopKEntry,
};
use crate::types::ReferenceLabel;
use crate::vectorize::VectorizeError;

verus! {

broadcast use vstd::seq_lib::group_to_multiset_ensures;

/// Number of nearest references that vote on a request.
pub const K_NEIGHBORS: usize = 5;

/// Why a request could not be scored.
#[derive(Debug, PartialEq, Eq)]
pub enum ScoringError {
    Vectorize(VectorizeError),
}

/// How the nearest references voted on a request.
#[derive(Debug, Clone, Copy, PartialEq, Eq, Structural)]
pub struct NeighborVote {
    /// How many of the nearest references are labelled fraud.
    pub fraud_count: usize,
    /// How many nearest references voted.
    pub neighbor_count: usize,
    /// The share of fraud votes is below 0.6.
    pub approved: bool,
}

/// Number of entries labelled fraud.
pub open spec fn spec_fraud_count(entries: Seq<TopKEntry>) -> nat
    decreases entries.len(),
{
    if entries.len() == 0 {
        0
    } else {
        spec_fraud_count(entries.drop_last()) + if entries.last().is_fraud {
            1nat
        } else {
            0nat
        }
    }
}

/// A request is approved when fewer than 60% of its voting neighbours are
/// labelled fraud; with no neighbour the share is undefined and the request
/// is not approved.
pub open spec fn spec_approves(fraud_count: int, neighbor_count: int) -> bool {
    neighbor_count > 0 && 5 * fraud_count < 3 * neighbor_count
}

/// The entry that candidate `j` contributes: its distance key and whether
/// the reference it points to is labelled fraud.
pub open spec fn spec_candidate_entries(
    labels: Seq<ReferenceLabel>,
    candidates: Seq<usize>,
    distances: Seq<u64>,
) -> Seq<TopKEntry> {
    Seq::new(
        candidates.len(),
        |j: int|
            TopKEntry {
                distance: distances[j],
                is_fraud: labels[candidates[j] as int] == ReferenceLabel::Fraud,
            },
    )
}

/// The vote of the `K_NEIGHBORS` nearest of the given entries.
pub open spec fn spec_vote(entries: Seq<TopKEntry>) -> NeighborVote {
    let nearest = spec_push_all(K_NEIGHBORS as nat, entries);
    NeighborVote {
        fraud_count: spec_fraud_count(nearest) as usize,
        neighbor_count: nearest.len() as usize,
        approved: spec_approves(spec_fraud_count(nearest) as int, nearest.len() as int),
    }
}

proof fn lemma_fraud_count_le_len(entries: Seq<TopKEntry>)
    ensures
        spec_fraud_count(entries) <= entries.len(),
    decreases entries.len(),
{
    if entries.len() > 0 {
        lemma_fraud_count_le_len(entries.drop_last());
    }
}

proof fn lemma_fraud_count_add(a: Seq<TopKEntry>, b: Seq<TopKEntry>)
    ensures
        spec_fraud_count(a + b) == spec_fraud_count(a) + spec_fraud_count(b),
    decreases b.len(),
{
    if b.len() == 0 {
        assert(a + b =~= a);
    } else {
        assert((a + b).drop_last() =~= a + b.drop_last());
        lemma_fraud_count_add(a, b.drop_last());
    }
}

proof fn lemma_fraud_count_remove(s: Seq<TopKEntry>, i: int)
    requires
        0 <= i < s.len(),
    ensures
        spec_fraud_count(s) == spec_fraud_count(s.remove(i)) + if s[i].is_fraud {
            1nat
        } else {
            0nat
        },
{
    let single = seq![s[i]];
    assert(s =~= s.take(i) + single + s.skip(i + 1));
    assert(s.remove(i) =~= s.take(i) + s.skip(i + 1));
    lemma_fraud_count_add(s.take(i) + single, s.skip(i + 1));
    lemma_fraud_count_add(s.take(i), single);
    lemma_fraud_count_add(s.take(i), s.skip(i + 1));
    assert(single.drop_last() =~= Seq::<TopKEntry>::empty());
    assert(spec_fraud_count(Seq::<TopKEntry>::empty()) == 0);
    assert(spec_fraud_count(single) == if s[i].is_fraud {
        1nat
    } else {
        0nat
    });
}

/// Reordering entries does not change how many are labelled fraud.
pub proof fn lemma_fraud_count_permutation(a: Seq<TopKEntry>, b: Seq<TopKEntry>)
    requires
        a.to_multiset() == b.to_multiset(),
    ensures
        spec_fraud_count(a) == spec_fraud_count(b),
    decreases a.len(),
{
    broadcast use vstd::multiset::group_multiset_axioms;
    broadcast use vstd::multiset::group_multiset_properties;

    if a.len() == 0 {
        assert(a.to_multiset().len() == 0);
        assert(b.len() == 0);
        assert(a =~= b);
    } else {
        let e = a.last();
        assert(a =~= a.drop_last().push(e));
        assert(a.to_multiset() == a.drop_last().to_multiset().insert(e));
        assert(b.to_multiset().count(e) > 0);
        assert(b.contains(e));
        let i = choose|i: int| 0 <= i < b.len() && b[i] == e;
        assert(b.remove(i).to_multiset() == b.to_multiset().remove(e));
        assert(a.drop_last().to_multiset() =~= b.remove(i).to_multiset());
        lemma_fraud_count_permutation(a.drop_last(), b.remove(i));
        lemma_fraud_count_remove(b, i);
    }
}

/// `K_NEIGHBORS` references vote, or every candidate when there are fewer,
/// and the fraud votes are among them.
pub proof fn lemma_vote_counts(entries: Seq<TopKEntry>)
    ensures
        spec_vote(entries).neighbor_count == if entries.len() < K_NEIGHBORS {
            entries.len()
        } else {
            K_NEIGHBORS as nat
        },
        spec_vote(entries).fraud_count <= spec_vote(entries).neighbor_count,
{
    let nearest = spec_push_all(K_NEIGHBORS as nat, entries);
    lemma_push_all_keeps_smallest(K_NEIGHBORS as nat, entries);
    lemma_fraud_count_le_len(nearest);
}

proof fn lemma_fraud_count_is_filter(entries: Seq<TopKEntry>)
    ensures
        spec_fraud_count(entries) == entries.filter(|e: TopKEntry| e.is_fraud).len(),
    decreases entries.len(),
{
    reveal_with_fuel(Seq::filter, 1);
    if entries.len() > 0 {
        lemma_fraud_count_is_filter(entries.drop_last());
    }
}

proof fn lemma_fraud_count_uniform(entries: Seq<TopKEntry>, fraud: bool)
    requires
        forall|i: int| 0 <= i < entries.len() ==> (#[trigger] entries[i]).is_fraud == fraud,
    ensures
        spec_fraud_count(entries) == if fraud {
            entries.len()
        } else {
            0
        },
    decreases entries.len(),
{
    if entries.len() > 0 {
        let prefix = entries.drop_last();
        assert forall|i: int| 0 <= i < prefix.len() implies (#[trigger] prefix[i]).is_fraud
            == fraud by {
            assert(prefix[i] == entries[i]);
        }
        lemma_fraud_count_uniform(prefix, fraud);
        assert(entries.last() == entries[entries.len() - 1]);
    }
}

/// How the vote is tallied: the nearest entries kept from `entries` vote,
/// `K_NEIGHBORS` of them or all when there are fewer; every kept entry
/// labelled fraud is one fraud vote, and no other entry is; the request is
/// approved exactly when some entry votes and fraud votes are fewer than
/// three fifths of the votes. So when every entry is fraud every vote is a
/// fraud vote, and when none is there is no fraud vote.
pub proof fn lemma_vote_tally(entries: Seq<TopKEntry>)
    ensures
        spec_vote(entries).neighbor_count == if entries.len() < K_NEIGHBORS {
            entries.len()
        } else {
            K_NEIGHBORS as nat
        },
        spec_vote(entries).neighbor_count == spec_push_all(K_NEIGHBORS as nat, entries).len(),
        spec_vote(entries).fraud_count == spec_push_all(K_NEIGHBORS as nat, entries).filter(
            |e: TopKEntry| e.is_fraud,
        ).len(),
        spec_vote(entries).approved <==> spec_vote(entries).neighbor_count > 0 && 5
            * spec_vote(entries).fraud_count < 3 * spec_vote(entries).neighbor_count,
        (forall|i: int| 0 <= i < entries.len() ==> (#[trigger] entries[i]).is_fraud)
            ==> spec_vote(entries).fraud_count == spec_vote(entries).neighbor_count,
        (forall|i: int| 0 <= i < entries.len() ==> !(#[trigger] entries[i]).is_fraud)
            ==> spec_vote(entries).fraud_count == 0,
{
    broadcast use vstd::multiset::group_multiset_axioms;

    let nearest = spec_push_all(K_NEIGHBORS as nat, entries);
    lemma_push_all_keeps_smallest(K_NEIGHBORS as nat, entries);
    lemma_fraud_count_le_len(nearest);
    lemma_fraud_count_is_filter(nearest);
    if forall|i: int| 0 <= i < entries.len() ==> (#[trigger] entries[i]).is_fraud {
        assert forall|i: int| 0 <= i < nearest.len() implies (#[trigger] nearest[i]).is_fraud by {
            let x = nearest[i];
            assert(nearest.to_multiset().count(x) > 0);
            assert(entries.to_multiset().count(x) > 0);
            assert(entries.contains(x));
        }
        lemma_fraud_count_uniform(nearest, true);
    }
    if forall|i: int| 0 <= i < entries.len() ==> !(#[trigger] entries[i]).is_fraud {
        assert forall|i: int| 0 <= i < nearest.len() implies (#[trigger] nearest[i]).is_fraud
            == false by {
            let x = nearest[i];
            assert(nearest.to_multiset().count(x) > 0);
            assert(entries.to_multiset().count(x) > 0);
            assert(entries.contains(x));
        }
        lemma_fraud_count_uniform(nearest, false);
    }
}

/// `b` is `a` with some entries relabelled from legit to fraud: the same
/// distances in the same order, and every fraud entry of `a` still fraud.
pub open spec fn spec_relabelled(a: Seq<TopKEntry>, b: Seq<TopKEntry>) -> bool {
    &&& a.len() == b.len()
    &&& forall|i: int|
        0 <= i < a.len() ==> (#[trigger] a[i]).distance == b[i].distance && (a[i].is_fraud
            ==> b[i].is_fraud)
}

proof fn lemma_worst_index_same_distances(a: Seq<TopKEntry>, b: Seq<TopKEntry>)
    requires
        a.len() == b.len(),
        forall|i: int| 0 <= i < a.len() ==> (#[trigger] a[i]).distance == b[i].distance,
    ensures
        spec_worst_index(a) == spec_worst_index(b),
    decreases a.len(),
{
    if a.len() > 1 {
        lemma_worst_index_same_distances(a.drop_last(), b.drop_last());
        crate::topk::lemma_worst_index(a.drop_last());
    }
}

proof fn lemma_push_all_relabelled(k: nat, a: Seq<TopKEntry>, b: Seq<TopKEntry>)
    requires
        k > 0,
        spec_relabelled(a, b),
    ensures
        spec_relabelled(spec_push_all(k, a), spec_push_all(k, b)),
    decreases a.len(),
{
    if a.len() > 0 {
        let ka = spec_push_all(k, a.drop_last());
        let kb = spec_push_all(k, b.drop_last());
        assert forall|i: int| 0 <= i < a.drop_last().len() implies (#[trigger] a.drop_last()[i]).distance
            == b.drop_last()[i].distance && (a.drop_last()[i].is_fraud
            ==> b.drop_last()[i].is_fraud) by {
            assert(a.drop_last()[i] == a[i]);
            assert(b.drop_last()[i] == b[i]);
        }
        lemma_push_all_relabelled(k, a.drop_last(), b.drop_last());
        let ea = a.last();
        let eb = b.last();
        assert(ea == a[a.len() - 1]);
        assert(eb == b[b.len() - 1]);
        assert(ea.distance == eb.distance && (ea.is_fraud ==> eb.is_fraud));
        let pa = spec_push(ka, k, ea);
        let pb = spec_push(kb, k, eb);
        assert(spec_push_all(k, a) == pa);
        assert(spec_push_all(k, b) == pb);
        if ka.len() < k {
            assert(pa == ka.push(ea));
            assert(pb == kb.push(eb));
            assert forall|i: int| 0 <= i < pa.len() implies (#[trigger] pa[i]).distance
                == pb[i].distance && (pa[i].is_fraud ==> pb[i].is_fraud) by {
                if i < ka.len() {
                    assert(ka[i].distance == kb[i].distance);
                }
            }
        } else {
            lemma_worst_index_same_distances(ka, kb);
            crate::topk::lemma_worst_index(ka);
            let w = spec_worst_index(ka);
            assert(ka[w].distance == kb[w].distance);
            assert forall|i: int| 0 <= i < pa.len() implies (#[trigger] pa[i]).distance
                == pb[i].distance && (pa[i].is_fraud ==> pb[i].is_fraud) by {
                assert(ka[i].distance == kb[i].distance);
            }
        }
    }
}

proof fn lemma_fraud_count_relabelled(a: Seq<TopKEntry>, b: Seq<TopKEntry>)
    requires
        spec_relabelled(a, b),
    ensures
        spec_fraud_count(a) <= spec_fraud_count(b),
    decreases a.len(),
{
    if a.len() > 0 {
        assert(spec_relabelled(a.drop_last(), b.drop_last()));
        lemma_fraud_count_relabelled(a.drop_last(), b.drop_last());
        assert(a.last().is_fraud ==> b.last().is_fraud);
    }
}

/// Relabelling candidates from legit to fraud never lowers the number of
/// fraud votes, keeps the number of votes, and never turns a rejection
/// into an approval.
pub proof fn lemma_relabel_to_fraud(a: Seq<TopKEntry>, b: Seq<TopKEntry>)
    requires
        spec_relabelled(a, b),
    ensures
        spec_vote(b).neighbor_count == spec_vote(a).neighbor_count,
        spec_vote(a).fraud_count <= spec_vote(b).fraud_count,
        spec_vote(b).approved ==> spec_vote(a).approved,
{
    let ka = spec_push_all(K_NEIGHBORS as nat, a);
    let kb = spec_push_all(K_NEIGHBORS as nat, b);
    lemma_push_all_relabelled(K_NEIGHBORS as nat, a, b);
    lemma_push_all_keeps_smallest(K_NEIGHBORS as nat, a);
    lemma_fraud_count_le_len(ka);
    lemma_fraud_count_le_len(kb);
    lemma_fraud_count_relabelled(ka, kb);
}

/// Relabelling references from legit to fraud, with the same candidates at
/// the same distances, never lowers the fraud votes of a request, keeps the
/// number of votes, and never turns a rejection into an approval.
pub proof fn lemma_relabel_references_to_fraud(
    labels_a: Seq<ReferenceLabel>,
    labels_b: Seq<ReferenceLabel>,
    candidates: Seq<usize>,
    distances: Seq<u64>,
)
    requires
        labels_a.len() == labels_b.len(),
        forall|i: int|
            0 <= i < labels_a.len() && #[trigger] labels_a[i] == ReferenceLabel::Fraud ==> labels_b[i]
                == ReferenceLabel::Fraud,
        candidates.len() == distances.len(),
        forall|j: int| 0 <= j < candidates.len() ==> #[trigger] candidates[j] < labels_a.len(),
    ensures
        ({
            let vote_a = spec_vote(spec_candidate_entries(labels_a, candidates, distances));
            let vote_b = spec_vote(spec_candidate_entries(labels_b, candidates, distances));
            &&& vote_b.neighbor_count == vote_a.neighbor_count
            &&& vote_a.fraud_count <= vote_b.fraud_count
            &&& vote_b.approved ==> vote_a.approved
        }),
{
    let a = spec_candidate_entries(labels_a, candidates, distances);
    let b = spec_candidate_entries(labels_b, candidates, distances);
    assert forall|j: int| 0 <= j < a.len() implies (#[trigger] a[j]).distance == b[j].distance && (
    a[j].is_fraud ==> b[j].is_fraud) by {
        assert(0 <= candidates[j] < labels_a.len());
    }
    assert(spec_relabelled(a, b));
    lemma_relabel_to_fraud(a, b);
}

/// Number of entries labelled fraud.
pub fn fraud_count(entries: &[TopKEntry]) -> (count: usize)
    ensures
        count == spec_fraud_count(entries@),
{
    let mut count: usize = 0;
    let mut i: usize = 0;
    while i < entries.len()
        invariant
            0 <= i <= entries@.len(),
            count == spec_fraud_count(entries@.take(i as int)),
        decreases entries@.len() - i,
    {
        assert(entries@.take(i + 1).drop_last() =~= entries@.take(i as int));
        proof {
            lemma_fraud_count_le_len(entries@.take(i as int));
        }
        if entries[i].is_fraud {
            count = count + 1;
        }
        i = i + 1;
    }
    assert(entries@.take(entries@.len() as int) =~= entries@);
    count
}

/// The vote of a request when there is no reference to compare it with:
/// approved, with no vote (a fraud score of 0); `None` when there are
/// references to vote.
pub fn vote_without_references(reference_count: usize) -> (vote: Option<NeighborVote>)
    ensures
        vote == if reference_count == 0 {
            Some(NeighborVote { fraud_count: 0, neighbor_count: 0, approved: true })
        } else {
            None::<NeighborVote>
        },
{
    if reference_count == 0 {
        Some(NeighborVote { fraud_count: 0, neighbor_count: 0, approved: true })
    } else {
        None
    }
}

/// Whether fewer than 60% of `neighbor_count` votes are fraud votes.
pub fn is_approved(fraud_count: usize, neighbor_count: usize) -> (approved: bool)
    ensures
        approved == spec_approves(fraud_count as int, neighbor_count as int),
{
    neighbor_count > 0 && (fraud_count as u128) * 5 < (neighbor_count as u128) * 3
}

/// Ranks the candidates by distance, keeps the `K_NEIGHBORS` nearest and
/// lets them vote: `distances[j]` is the distance key of reference
/// `candidates[j]`, whose label is `labels[candidates[j]]`.
pub fn vote_nearest(labels: &[ReferenceLabel], candidates: &[usize], distances: &[u64]) -> (vote:
    NeighborVote)
    requires
        candidates@.len() == distances@.len(),
        forall|j: int| 0 <= j < candidates@.len() ==> #[trigger] candidates@[j] < labels@.len(),
    ensures
        vote == spec_vote(spec_candidate_entries(labels@, candidates@, distances@)),
{
    let ghost entries = spec_candidate_entries(labels@, candidates@, distances@);
    let mut top_k = TopK::<K_NEIGHBORS>::new();
    let mut j: usize = 0;
    while j < candidates.len()
        invariant
            0 <= j <= candidates@.len(),
            candidates@.len() == distances@.len(),
            forall|k: int| 0 <= k < candidates@.len() ==> #[trigger] candidates@[k] < labels@.len(),
            entries == spec_candidate_entries(labels@, candidates@, distances@),
            top_k.wf(),
            top_k@ == spec_push_all(K_NEIGHBORS as nat, entries.take(j as int)),
        decreases candidates@.len() - j,
    {
        let reference_index = candidates[j];
        let is_fraud = match labels[reference_index] {
            ReferenceLabel::Fraud => true,
            ReferenceLabel::Legit => false,
        };
        top_k.push(distances[j], is_fraud);
        assert(entries.take(j + 1).drop_last() =~= entries.take(j as int));
        j = j + 1;
    }
    assert(entries.take(candidates@.len() as int) =~= entries);
    let ghost kept = top_k@;
    let nearest = top_k.into_sorted();
    proof {
        lemma_push_all_keeps_smallest(K_NEIGHBORS as nat, entries);
        lemma_fraud_count_permutation(nearest@, kept);
        lemma_fraud_count_le_len(kept);
        assert(kept == spec_push_all(K_NEIGHBORS as nat, entries));
        assert(spec_stable_sorted(kept, nearest@));
        assert(nearest@.to_multiset() == kept.to_multiset());
        assert(nearest@.to_multiset().len() == kept.to_multiset().len());
        assert(nearest@.len() == kept.len());
    }
    let fraud = fraud_count(nearest.as_slice());
    let neighbors = nearest.len();
    NeighborVote { fraud_count: fraud, neighbor_count: neighbors, approved: is_approved(fraud, neighbors) }
}

} // verus!
