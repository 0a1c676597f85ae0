use vstd::prelude::*;

verus! {

broadcast use vstd::seq_lib::group_to_multiset_ensures;

/// A scored reference: its distance key and whether it is labelled fraud.
///
/// The distance key is the IEEE-754 bit pattern of a non-negative squared
/// distance; for non-negative values the patterns order as the values do.
#[derive(Debug, Clone, Copy, PartialEq, Eq, Structural)]
pub struct TopKEntry {
    pub distance: u64,
    pub is_fraud: bool,
}

/// Keeps the `K` entries with the smallest distances among those pushed.
#[derive(Debug)]
pub struct TopK<const K: usize> {
    entries: Vec<TopKEntry>,
}

/// Index of the entry that a new closer entry replaces: the last one among
/// those with the largest distance.
pub open spec fn spec_worst_index(entries: Seq<TopKEntry>) -> int
    decreases entries.len(),
{
    if entries.len() <= 1 {
        0
    } else {
        let w = spec_worst_index(entries.drop_last());
        if entries[w].distance <= entries.last().distance {
            entries.len() - 1
        } else {
            w
        }
    }
}

/// The kept entries after pushing `entry` into a collection of capacity `k`.
pub open spec fn spec_push(entries: Seq<TopKEntry>, k: nat, entry: TopKEntry) -> Seq<TopKEntry> {
    if entries.len() < k {
        entries.push(entry)
    } else {
        let w = spec_worst_index(entries);
        if entry.distance < entries[w].distance {
            entries.update(w, entry)
        } else {
            entries
        }
    }
}

/// The kept entries after pushing each of `pushed`, in order, into an empty
/// collection of capacity `k`.
pub open spec fn spec_push_all(k: nat, pushed: Seq<TopKEntry>) -> Seq<TopKEntry>
    decreases pushed.len(),
{
    if pushed.len() == 0 {
        Seq::empty()
    } else {
        spec_push(spec_push_all(k, pushed.drop_last()), k, pushed.last())
    }
}

/// The entries with distance `d`, in their order.
pub open spec fn spec_at_distance(entries: Seq<TopKEntry>, d: u64) -> Seq<TopKEntry>
    decreases entries.len(),
{
    if entries.len() == 0 {
        Seq::empty()
    } else if entries.last().distance == d {
        spec_at_distance(entries.drop_last(), d).push(entries.last())
    } else {
        spec_at_distance(entries.drop_last(), d)
    }
}

/// Distances never decrease along the sequence.
pub open spec fn spec_is_sorted(entries: Seq<TopKEntry>) -> bool {
    forall|i: int, j: int| 0 <= i <= j < entries.len() ==> entries[i].distance <= entries[j].distance
}

/// `sorted` orders `entries` by distance, keeping entries of equal distance
/// in the order they had.
pub open spec fn spec_stable_sorted(entries: Seq<TopKEntry>, sorted: Seq<TopKEntry>) -> bool {
    &&& spec_is_sorted(sorted)
    &&& sorted.to_multiset() == entries.to_multiset()
    &&& forall|d: u64| #[trigger] spec_at_distance(sorted, d) == spec_at_distance(entries, d)
}

pub proof fn lemma_worst_index(entries: Seq<TopKEntry>)
    requires
        entries.len() >= 1,
    ensures
        0 <= spec_worst_index(entries) < entries.len(),
        forall|i: int|
            0 <= i < entries.len() ==> (#[trigger] entries[i]).distance <= entries[spec_worst_index(
                entries,
            )].distance,
    decreases entries.len(),
{
    if entries.len() > 1 {
        let prefix = entries.drop_last();
        lemma_worst_index(prefix);
        let w = spec_worst_index(entries);
        assert forall|i: int| 0 <= i < entries.len() implies (#[trigger] entries[i]).distance
            <= entries[w].distance by {
            if i < entries.len() - 1 {
                assert(entries[i] == prefix[i]);
            }
        }
    }
}

proof fn lemma_at_distance_add(a: Seq<TopKEntry>, b: Seq<TopKEntry>, d: u64)
    ensures
        spec_at_distance(a + b, d) == spec_at_distance(a, d) + spec_at_distance(b, d),
    decreases b.len(),
{
    if b.len() == 0 {
        assert(a + b =~= a);
        assert(spec_at_distance(a, d) + spec_at_distance(b, d) =~= spec_at_distance(a, d));
    } else {
        assert((a + b).drop_last() =~= a + b.drop_last());
        lemma_at_distance_add(a, b.drop_last(), d);
        if b.last().distance == d {
            assert(spec_at_distance(a, d) + spec_at_distance(b, d) =~= (spec_at_distance(a, d)
                + spec_at_distance(b.drop_last(), d)).push(b.last()));
        } else {
        }
    }
}

proof fn lemma_at_distance_none(s: Seq<TopKEntry>, d: u64)
    requires
        forall|j: int| 0 <= j < s.len() ==> s[j].distance != d,
    ensures
        spec_at_distance(s, d) == Seq::<TopKEntry>::empty(),
    decreases s.len(),
{
    if s.len() > 0 {
        lemma_at_distance_none(s.drop_last(), d);
    }
}

/// Inserting an entry before the first strictly farther one keeps the
/// sequence sorted and puts the entry last among those of equal distance.
proof fn lemma_insert_sorted(s: Seq<TopKEntry>, p: int, e: TopKEntry)
    requires
        spec_is_sorted(s),
        0 <= p <= s.len(),
        forall|j: int| 0 <= j < p ==> s[j].distance <= e.distance,
        p < s.len() ==> s[p].distance > e.distance,
    ensures
        spec_is_sorted(s.insert(p, e)),
        forall|d: u64|
            #[trigger] spec_at_distance(s.insert(p, e), d) == spec_at_distance(s, d) + if d
                == e.distance {
                seq![e]
            } else {
                Seq::empty()
            },
{
    let t = s.insert(p, e);
    assert forall|i: int, j: int| 0 <= i <= j < t.len() implies t[i].distance <= t[j].distance by {
        if i < p && j > p {
            assert(s[i].distance <= s[j - 1].distance);
        } else if i == p && j > p {
            assert(s[p].distance <= s[j - 1].distance);
        } else if i > p {
            assert(s[i - 1].distance <= s[j - 1].distance);
        }
    }
    assert forall|d: u64|
        #[trigger] spec_at_distance(s.insert(p, e), d) == spec_at_distance(s, d) + if d
            == e.distance {
            seq![e]
        } else {
            Seq::empty()
        } by {
        let left = s.take(p);
        let right = s.skip(p);
        assert(t =~= left + seq![e] + right);
        assert(s =~= left + right);
        lemma_at_distance_add(left + seq![e], right, d);
        lemma_at_distance_add(left, seq![e], d);
        lemma_at_distance_add(left, right, d);
        assert(seq![e].drop_last() =~= Seq::<TopKEntry>::empty());
        assert(spec_at_distance(Seq::<TopKEntry>::empty(), d) == Seq::<TopKEntry>::empty());
        if d == e.distance {
            assert(spec_at_distance(seq![e], d) =~= seq![e]);
            assert forall|j: int| 0 <= j < right.len() implies right[j].distance != d by {
                assert(s[p].distance <= s[p + j].distance);
            }
            lemma_at_distance_none(right, d);
            assert(spec_at_distance(left, d) + seq![e] =~= spec_at_distance(left, d) + seq![e]
                + spec_at_distance(right, d));
        } else {
            assert(spec_at_distance(seq![e], d) =~= Seq::<TopKEntry>::empty());
            assert(spec_at_distance(left, d) + spec_at_distance(seq![e], d) =~= spec_at_distance(
                left,
                d,
            ));
            assert(spec_at_distance(s, d) + Seq::empty() =~= spec_at_distance(s, d));
        }
    }
}

/// Pushing entries one by one into a collection of capacity `k` keeps the
/// `k` closest of them: it keeps `min(k, n)` of the `n` pushed entries
/// (all of them, in order, while there is room), each kept entry was pushed,
/// and every kept entry is at least as close as every pushed entry that was
/// not kept.
pub proof fn lemma_push_all_keeps_smallest(k: nat, pushed: Seq<TopKEntry>)
    requires
        k > 0,
    ensures
        spec_push_all(k, pushed).len() == if pushed.len() < k {
            pushed.len()
        } else {
            k
        },
        pushed.len() <= k ==> spec_push_all(k, pushed) == pushed,
        forall|x: TopKEntry|
            #[trigger] spec_push_all(k, pushed).to_multiset().count(x)
                <= pushed.to_multiset().count(x),
        forall|a: TopKEntry, b: TopKEntry|
            #![trigger spec_push_all(k, pushed).to_multiset().count(a), spec_push_all(k, pushed).to_multiset().count(b)]
            spec_push_all(k, pushed).to_multiset().count(a) > 0 && spec_push_all(
                k,
                pushed,
            ).to_multiset().count(b) < pushed.to_multiset().count(b) ==> a.distance
                <= b.distance,
    decreases pushed.len(),
{
    broadcast use vstd::multiset::group_multiset_axioms;
    broadcast use vstd::multiset::group_multiset_properties;

    let kept = spec_push_all(k, pushed);
    if pushed.len() == 0 {
        assert(kept =~= pushed);
    } else {
        let prev = pushed.drop_last();
        let e = pushed.last();
        let kept0 = spec_push_all(k, prev);
        lemma_push_all_keeps_smallest(k, prev);
        assert(pushed =~= prev.push(e));
        assert(pushed.to_multiset() =~= prev.to_multiset().insert(e));
        if kept0.len() < k {
            assert(kept0 == prev);
            assert(kept =~= pushed);
        } else {
            let w = spec_worst_index(kept0);
            lemma_worst_index(kept0);
            let worst = kept0[w];
            assert(kept0.to_multiset().count(worst) > 0);
            assert forall|a: TopKEntry| kept0.to_multiset().count(a) > 0 implies a.distance
                <= worst.distance by {
                assert(kept0.contains(a));
                let i = choose|i: int| 0 <= i < kept0.len() && kept0[i] == a;
                assert(kept0[i].distance <= kept0[w].distance);
            }
            if e.distance < worst.distance {
                assert(kept == kept0.update(w, e));
                assert(kept.to_multiset() == kept0.to_multiset().insert(e).remove(worst));
                assert forall|x: TopKEntry| #[trigger]
                    kept.to_multiset().count(x) <= pushed.to_multiset().count(x) by {
                    assert(kept0.to_multiset().count(x) <= prev.to_multiset().count(x));
                }
                assert forall|a: TopKEntry, b: TopKEntry|
                    #![trigger kept.to_multiset().count(a), kept.to_multiset().count(b)]
                    kept.to_multiset().count(a) > 0 && kept.to_multiset().count(b)
                        < pushed.to_multiset().count(b) implies a.distance <= b.distance by {
                    assert(kept0.to_multiset().count(b) < prev.to_multiset().count(b) || b
                        == worst);
                    if kept0.to_multiset().count(b) < prev.to_multiset().count(b) {
                        assert(worst.distance <= b.distance);
                    }
                    if a != e {
                        assert(kept0.to_multiset().count(a) > 0);
                    }
                }
            } else {
                assert(kept == kept0);
                assert forall|x: TopKEntry| #[trigger]
                    kept.to_multiset().count(x) <= pushed.to_multiset().count(x) by {
                    assert(kept0.to_multiset().count(x) <= prev.to_multiset().count(x));
                }
                assert forall|a: TopKEntry, b: TopKEntry|
                    #![trigger kept.to_multiset().count(a), kept.to_multiset().count(b)]
                    kept.to_multiset().count(a) > 0 && kept.to_multiset().count(b)
                        < pushed.to_multiset().count(b) implies a.distance <= b.distance by {
                    if b != e {
                        assert(kept0.to_multiset().count(b) < prev.to_multiset().count(b));
                    }
                }
            }
        }
    }
}

impl<const K: usize> View for TopK<K> {
    type V = Seq<TopKEntry>;

    closed spec fn view(&self) -> Seq<TopKEntry> {
        self.entries@
    }
}

impl<const K: usize> TopK<K> {
    /// Holds no more than `K` entries.
    pub closed spec fn wf(&self) -> bool {
        self.entries@.len() <= K
    }

    pub fn new() -> (top_k: Self)
        ensures
            top_k.wf(),
            top_k@ == Seq::<TopKEntry>::empty(),
    {
        TopK { entries: Vec::new() }
    }

    pub fn push(&mut self, distance: u64, is_fraud: bool)
        requires
            K > 0,
            old(self).wf(),
        ensures
            final(self).wf(),
            final(self)@ == spec_push(old(self)@, K as nat, TopKEntry { distance, is_fraud }),
    {
        let entry = TopKEntry { distance, is_fraud };
        if self.entries.len() < K {
            self.entries.push(entry);
            return;
        }
        let len = self.entries.len();
        let mut worst: usize = 0;
        let mut i: usize = 1;
        while i < len
            invariant
                1 <= i <= len,
                len == self.entries@.len(),
                worst == spec_worst_index(self.entries@.take(i as int)),
                0 <= worst < i,
            decreases len - i,
        {
            let ghost prefix = self.entries@.take(i + 1);
            assert(prefix.drop_last() =~= self.entries@.take(i as int));
            if self.entries[worst].distance <= self.entries[i].distance {
                worst = i;
            }
            i = i + 1;
        }
        assert(self.entries@.take(len as int) =~= self.entries@);
        if distance < self.entries[worst].distance {
            self.entries.set(worst, entry);
        }
    }

    pub fn into_sorted(self) -> (sorted: Vec<TopKEntry>)
        ensures
            spec_stable_sorted(self@, sorted@),
    {
        let entries = self.entries;
        let mut sorted: Vec<TopKEntry> = Vec::new();
        let mut i: usize = 0;
        assert(entries@.take(0) =~= sorted@);
        while i < entries.len()
            invariant
                0 <= i <= entries@.len(),
                spec_stable_sorted(entries@.take(i as int), sorted@),
            decreases entries@.len() - i,
        {
            let entry = entries[i];
            let mut p: usize = 0;
            while p < sorted.len() && sorted[p].distance <= entry.distance
                invariant
                    0 <= p <= sorted@.len(),
                    forall|j: int| 0 <= j < p ==> sorted@[j].distance <= entry.distance,
                decreases sorted@.len() - p,
            {
                p = p + 1;
            }
            proof {
                lemma_insert_sorted(sorted@, p as int, entry);
                assert(entries@.take(i + 1) =~= entries@.take(i as int).push(entry));
                assert forall|d: u64|
                    #[trigger] spec_at_distance(entries@.take(i + 1), d) == spec_at_distance(
                        entries@.take(i as int),
                        d,
                    ) + if d == entry.distance {
                        seq![entry]
                    } else {
                        Seq::empty()
                    } by {
                    assert(entries@.take(i + 1).drop_last() =~= entries@.take(i as int));
                }
            }
            sorted.insert(p, entry);
            i = i + 1;
        }
        assert(entries@.take(entries@.len() as int) =~= entries@);
        sorted
    }
}

} // verus!
