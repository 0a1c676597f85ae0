use std::collections::HashMap;

use vstd::prelude::*;

use crate::scoring::K_NEIGHBORS;

verus! {

broadcast use vstd::std_specs::hash::group_hash_axioms;

/// Number of vector components that place a reference in a bucket.
pub const PARTITION_DIMS: usize = 4;

/// A search stops widening once it has this many candidates.
pub const PARTITION_TARGET_CANDIDATES: usize = 256;

/// Widest ring of neighbouring buckets that a search visits.
pub const PARTITION_MAX_RING: i16 = 1;

/// Bucket coordinates of a vector, one per partition dimension.
pub type BucketKey = [i16; 4];

/// The map key that stands for a bucket: each coordinate, shifted to be
/// non-negative, in its own 16 bits.
pub open spec fn spec_bucket_code(key: Seq<i16>) -> u64 {
    ((key[0] + 32768) as u64) | (((key[1] + 32768) as u64) << 16u64) | (((key[2] + 32768) as u64)
        << 32u64) | (((key[3] + 32768) as u64) << 48u64)
}

pub fn bucket_code(key: &BucketKey) -> (code: u64)
    ensures
        code == spec_bucket_code(key@),
{
    let c0 = (key[0] as i32 + 32768) as u64;
    let c1 = (key[1] as i32 + 32768) as u64;
    let c2 = (key[2] as i32 + 32768) as u64;
    let c3 = (key[3] as i32 + 32768) as u64;
    c0 | (c1 << 16u64) | (c2 << 32u64) | (c3 << 48u64)
}

/// Distinct buckets have distinct map keys.
pub proof fn lemma_bucket_code_injective(a: Seq<i16>, b: Seq<i16>)
    requires
        a.len() == 4,
        b.len() == 4,
        spec_bucket_code(a) == spec_bucket_code(b),
    ensures
        a == b,
{
    let a0 = (a[0] + 32768) as u64;
    let a1 = (a[1] + 32768) as u64;
    let a2 = (a[2] + 32768) as u64;
    let a3 = (a[3] + 32768) as u64;
    let b0 = (b[0] + 32768) as u64;
    let b1 = (b[1] + 32768) as u64;
    let b2 = (b[2] + 32768) as u64;
    let b3 = (b[3] + 32768) as u64;
    assert(a0 < 65536 && a1 < 65536 && a2 < 65536 && a3 < 65536);
    assert(b0 < 65536 && b1 < 65536 && b2 < 65536 && b3 < 65536);
    assert(a0 == b0 && a1 == b1 && a2 == b2 && a3 == b3) by (bit_vector)
        requires
            a0 < 65536 && a1 < 65536 && a2 < 65536 && a3 < 65536,
            b0 < 65536 && b1 < 65536 && b2 < 65536 && b3 < 65536,
            a0 | (a1 << 16u64) | (a2 << 32u64) | (a3 << 48u64) == b0 | (b1 << 16u64) | (b2
                << 32u64) | (b3 << 48u64),
    ;
    assert(a =~= b);
}

/// The reference indices whose bucket is `key`, in increasing order, among
/// the first `n` of `keys`.
pub open spec fn spec_indices_with_key(keys: Seq<BucketKey>, key: Seq<i16>, n: nat) -> Seq<usize>
    decreases n,
{
    if n == 0 {
        Seq::empty()
    } else if keys[n - 1]@ == key {
        spec_indices_with_key(keys, key, (n - 1) as nat).push((n - 1) as usize)
    } else {
        spec_indices_with_key(keys, key, (n - 1) as nat)
    }
}

/// The indices in the bucket `key` of a map from bucket codes.
pub open spec fn spec_bucket_of(buckets: Map<u64, Vec<usize>>, key: Seq<i16>) -> Seq<usize> {
    if buckets.contains_key(spec_bucket_code(key)) {
        buckets[spec_bucket_code(key)]@
    } else {
        Seq::empty()
    }
}

/// The indices in bucket `key`: none when the bucket is not stored.
pub open spec fn spec_bucket(buckets: Map<Seq<i16>, Seq<usize>>, key: Seq<i16>) -> Seq<usize> {
    if buckets.contains_key(key) {
        buckets[key]
    } else {
        Seq::empty()
    }
}

/// Every map key is the code of some bucket.
proof fn lemma_bucket_code_onto(code: u64)
    ensures
        exists|key: Seq<i16>| key.len() == 4 && #[trigger] spec_bucket_code(key) == code,
{
    let c0 = code & 0xffff;
    let c1 = (code >> 16u64) & 0xffff;
    let c2 = (code >> 32u64) & 0xffff;
    let c3 = (code >> 48u64) & 0xffff;
    assert(c0 < 65536 && c1 < 65536 && c2 < 65536 && c3 < 65536) by (bit_vector)
        requires
            c0 == code & 0xffff,
            c1 == (code >> 16u64) & 0xffff,
            c2 == (code >> 32u64) & 0xffff,
            c3 == (code >> 48u64) & 0xffff,
    ;
    assert(c0 | (c1 << 16u64) | (c2 << 32u64) | (c3 << 48u64) == code) by (bit_vector)
        requires
            c0 == code & 0xffff,
            c1 == (code >> 16u64) & 0xffff,
            c2 == (code >> 32u64) & 0xffff,
            c3 == (code >> 48u64) & 0xffff,
    ;
    let key = seq![
        (c0 - 32768) as i16,
        (c1 - 32768) as i16,
        (c2 - 32768) as i16,
        (c3 - 32768) as i16,
    ];
    assert(spec_bucket_code(key) == code);
}

/// Largest distance between `key` and `center` over the first `n` coordinates.
pub open spec fn spec_chebyshev(key: Seq<i16>, center: Seq<i16>, n: nat) -> int
    decreases n,
{
    if n == 0 {
        0
    } else {
        let rest = spec_chebyshev(key, center, (n - 1) as nat);
        let diff = key[n - 1] - center[n - 1];
        let gap = if diff < 0 {
            -diff
        } else {
            diff
        };
        if gap > rest {
            gap
        } else {
            rest
        }
    }
}

/// Buckets far enough from the ends of the `i16` range that a ring of
/// width `ring` around `center` can be enumerated.
pub open spec fn spec_ring_fits(center: Seq<i16>, ring: int) -> bool {
    &&& center.len() == 4
    &&& 0 <= ring
    &&& forall|d: int| 0 <= d < 4 ==> i16::MIN + ring <= #[trigger] center[d] <= i16::MAX - ring
}

/// A coordinate difference whose absolute value is an `i16`.
pub open spec fn spec_gap_fits(diff: int) -> bool {
    -i16::MAX <= diff <= i16::MAX
}

/// The search from ring `ring` on, having collected `collected`, only
/// widens to rings that fit around `center`.
pub open spec fn spec_search_fits(
    buckets: Map<Seq<i16>, Seq<usize>>,
    center: Seq<i16>,
    ring: int,
    collected: Seq<usize>,
) -> bool
    decreases PARTITION_MAX_RING + 1 - ring,
{
    if ring > PARTITION_MAX_RING {
        true
    } else {
        let widened = collected + spec_gather(buckets, center, ring, Seq::empty());
        spec_ring_fits(center, ring) && (spec_enough_candidates(widened.len()) || spec_search_fits(
            buckets,
            center,
            ring + 1,
            widened,
        ))
    }
}

/// The indices that the search for ring `ring` around `center` collects
/// once the first coordinates of the visited bucket are fixed to `prefix`:
/// it visits, in lexicographic order of the offsets `-ring..=ring` of the
/// remaining coordinates, every bucket at Chebyshev distance exactly `ring`,
/// and concatenates their contents.
pub open spec fn spec_gather(
    buckets: Map<Seq<i16>, Seq<usize>>,
    center: Seq<i16>,
    ring: int,
    prefix: Seq<i16>,
) -> Seq<usize>
    decreases 4 - prefix.len(), 1int, 0int,
{
    if prefix.len() >= 4 {
        if spec_chebyshev(prefix, center, 4) == ring {
            spec_bucket(buckets, prefix)
        } else {
            Seq::empty()
        }
    } else {
        spec_gather_from(buckets, center, ring, prefix, -ring)
    }
}

/// The part of `spec_gather` for the offsets `offset..=ring` of the next
/// coordinate.
pub open spec fn spec_gather_from(
    buckets: Map<Seq<i16>, Seq<usize>>,
    center: Seq<i16>,
    ring: int,
    prefix: Seq<i16>,
    offset: int,
) -> Seq<usize>
    decreases 4 - prefix.len(), 0int, ring + 1 - offset,
{
    if prefix.len() >= 4 || offset > ring {
        Seq::empty()
    } else {
        spec_gather(buckets, center, ring, prefix.push((center[prefix.len() as int] + offset) as i16))
            + spec_gather_from(buckets, center, ring, prefix, offset + 1)
    }
}

/// `0, 1, ..., n - 1`.
pub open spec fn spec_full_scan(n: nat) -> Seq<usize> {
    Seq::new(n, |i: int| i as usize)
}

/// Enough candidates have been collected to stop widening the search.
pub open spec fn spec_enough_candidates(count: nat) -> bool {
    count >= PARTITION_TARGET_CANDIDATES || count >= K_NEIGHBORS
}

/// The candidates of a search that has collected `collected` from the rings
/// before `ring`: widen ring by ring until there are enough, and fall back to
/// every reference when the widest ring does not give enough.
pub open spec fn spec_candidates_from(
    buckets: Map<Seq<i16>, Seq<usize>>,
    center: Seq<i16>,
    ring: int,
    collected: Seq<usize>,
    full_scan_count: nat,
) -> Seq<usize>
    decreases PARTITION_MAX_RING + 1 - ring,
{
    if ring > PARTITION_MAX_RING {
        spec_full_scan(full_scan_count)
    } else {
        let widened = collected + spec_gather(buckets, center, ring, Seq::empty());
        if spec_enough_candidates(widened.len()) {
            widened
        } else {
            spec_candidates_from(buckets, center, ring + 1, widened, full_scan_count)
        }
    }
}

proof fn lemma_chebyshev_bounds(key: Seq<i16>, center: Seq<i16>, n: nat, d: int)
    requires
        0 <= d < n,
    ensures
        spec_chebyshev(key, center, n) >= key[d] - center[d],
        spec_chebyshev(key, center, n) >= center[d] - key[d],
    decreases n,
{
    if d < n - 1 {
        lemma_chebyshev_bounds(key, center, (n - 1) as nat, d);
    }
}

/// A bucket that extends `prefix` and lies at Chebyshev distance exactly
/// `ring` from `center` holds `x`.
pub open spec fn spec_ring_bucket_holds(
    buckets: Map<Seq<i16>, Seq<usize>>,
    center: Seq<i16>,
    ring: int,
    prefix: Seq<i16>,
    key: Seq<i16>,
    x: usize,
) -> bool {
    &&& key.len() == 4
    &&& key.take(prefix.len() as int) == prefix
    &&& spec_chebyshev(key, center, 4) == ring
    &&& spec_bucket(buckets, key).contains(x)
}

proof fn lemma_gather_members(
    buckets: Map<Seq<i16>, Seq<usize>>,
    center: Seq<i16>,
    ring: int,
    prefix: Seq<i16>,
    x: usize,
)
    requires
        spec_ring_fits(center, ring),
        prefix.len() <= 4,
    ensures
        spec_gather(buckets, center, ring, prefix).contains(x) <==> exists|key: Seq<i16>|
            spec_ring_bucket_holds(buckets, center, ring, prefix, key, x),
    decreases 4 - prefix.len(), 1int, 0int,
{
    if prefix.len() == 4 {
        if spec_gather(buckets, center, ring, prefix).contains(x) {
            assert(prefix.take(4) =~= prefix);
            assert(spec_ring_bucket_holds(buckets, center, ring, prefix, prefix, x));
        }
        if exists|key: Seq<i16>| spec_ring_bucket_holds(buckets, center, ring, prefix, key, x) {
            let key = choose|key: Seq<i16>|
                spec_ring_bucket_holds(buckets, center, ring, prefix, key, x);
            assert(key.take(4) =~= key);
        }
    } else {
        lemma_gather_from_members(buckets, center, ring, prefix, -ring, x);
        if exists|key: Seq<i16>| spec_ring_bucket_holds(buckets, center, ring, prefix, key, x) {
            let key = choose|key: Seq<i16>|
                spec_ring_bucket_holds(buckets, center, ring, prefix, key, x);
            lemma_chebyshev_bounds(key, center, 4, prefix.len() as int);
        }
    }
}

proof fn lemma_gather_from_members(
    buckets: Map<Seq<i16>, Seq<usize>>,
    center: Seq<i16>,
    ring: int,
    prefix: Seq<i16>,
    offset: int,
    x: usize,
)
    requires
        spec_ring_fits(center, ring),
        prefix.len() < 4,
        -ring <= offset,
    ensures
        spec_gather_from(buckets, center, ring, prefix, offset).contains(x) <==> exists|
            key: Seq<i16>,
        |
            spec_ring_bucket_holds(buckets, center, ring, prefix, key, x) && key[prefix.len() as int]
                - center[prefix.len() as int] >= offset,
    decreases 4 - prefix.len(), 0int, ring + 1 - offset,
{
    let n = prefix.len() as int;
    if offset > ring {
        if exists|key: Seq<i16>|
            spec_ring_bucket_holds(buckets, center, ring, prefix, key, x) && key[n] - center[n]
                >= offset {
            let key = choose|key: Seq<i16>|
                spec_ring_bucket_holds(buckets, center, ring, prefix, key, x) && key[n] - center[n]
                    >= offset;
            lemma_chebyshev_bounds(key, center, 4, n);
        }
    } else {
        let value = (center[n] + offset) as i16;
        assert(center[n] + offset == value) by {
            assert(i16::MIN + ring <= center[n] <= i16::MAX - ring);
        }
        let next = prefix.push(value);
        lemma_gather_members(buckets, center, ring, next, x);
        lemma_gather_from_members(buckets, center, ring, prefix, offset + 1, x);
        let whole = spec_gather_from(buckets, center, ring, prefix, offset);
        let first = spec_gather(buckets, center, ring, next);
        let rest = spec_gather_from(buckets, center, ring, prefix, offset + 1);
        assert(whole == first + rest);
        if whole.contains(x) {
            let i = choose|i: int| 0 <= i < whole.len() && whole[i] == x;
            if i < first.len() {
                assert(first[i] == x);
                let key = choose|key: Seq<i16>|
                    spec_ring_bucket_holds(buckets, center, ring, next, key, x);
                assert(key.take(n) =~= key.take(n + 1).take(n));
                assert(next.take(n) =~= prefix);
                assert(key.take(n) =~= prefix);
                assert(key[n] == key.take(n + 1)[n]);
                assert(key[n] == value);
                assert(spec_ring_bucket_holds(buckets, center, ring, prefix, key, x) && key[n]
                    - center[n] >= offset);
            } else {
                assert(rest[i - first.len()] == x);
            }
        }
        if exists|key: Seq<i16>|
            spec_ring_bucket_holds(buckets, center, ring, prefix, key, x) && key[n] - center[n]
                >= offset {
            let key = choose|key: Seq<i16>|
                spec_ring_bucket_holds(buckets, center, ring, prefix, key, x) && key[n] - center[n]
                    >= offset;
            if key[n] - center[n] == offset {
                assert(key.take(n + 1) =~= next);
                assert(spec_ring_bucket_holds(buckets, center, ring, next, key, x));
                assert(first.contains(x));
                let i = choose|i: int| 0 <= i < first.len() && first[i] == x;
                assert(whole[i] == x);
            } else {
                assert(rest.contains(x));
                let i = choose|i: int| 0 <= i < rest.len() && rest[i] == x;
                assert(whole[first.len() + i] == x);
            }
        }
    }
}

proof fn lemma_indices_with_key_members(keys: Seq<BucketKey>, key: Seq<i16>, n: nat, x: usize)
    requires
        n <= keys.len(),
        keys.len() <= usize::MAX,
    ensures
        spec_indices_with_key(keys, key, n).contains(x) <==> x < n && keys[x as int]@ == key,
    decreases n,
{
    if n > 0 {
        lemma_indices_with_key_members(keys, key, (n - 1) as nat, x);
        let prev = spec_indices_with_key(keys, key, (n - 1) as nat);
        if keys[n - 1]@ == key {
            let cur = prev.push((n - 1) as usize);
            if cur.contains(x) {
                let i = choose|i: int| 0 <= i < cur.len() && cur[i] == x;
                if i < prev.len() {
                    assert(prev[i] == x);
                }
            }
            if x < n && keys[x as int]@ == key && x != n - 1 {
                let i = choose|i: int| 0 <= i < prev.len() && prev[i] == x;
                assert(cur[i] == x);
            }
            if x == n - 1 {
                assert(cur[prev.len() as int] == x);
            }
        }
    }
}

/// Groups reference indices by the bucket of their vector.
#[derive(Debug)]
pub struct PartitionIndex {
    buckets: HashMap<u64, Vec<usize>>,
}

impl View for PartitionIndex {
    /// The reference indices in each bucket, in the order they were added.
    type V = Map<Seq<i16>, Seq<usize>>;

    closed spec fn view(&self) -> Map<Seq<i16>, Seq<usize>> {
        Map::new(
            |key: Seq<i16>| key.len() == 4 && self.buckets@.contains_key(spec_bucket_code(key)),
            |key: Seq<i16>| self.buckets@[spec_bucket_code(key)]@,
        )
    }
}

impl PartitionIndex {
    /// No bucket is stored.
    pub open spec fn holds_nothing(&self) -> bool {
        forall|key: Seq<i16>| !#[trigger] self@.contains_key(key)
    }

    proof fn lemma_holds_nothing(&self)
        ensures
            self.holds_nothing() <==> self.buckets@.dom().len() == 0,
    {
        broadcast use vstd::set::group_set_axioms;
        if self.buckets@.dom().len() != 0 {
            assert(self.buckets@.dom().finite());
            let code = self.buckets@.dom().choose();
            assert(self.buckets@.dom().contains(code));
            lemma_bucket_code_onto(code);
            let key = choose|key: Seq<i16>| key.len() == 4 && #[trigger] spec_bucket_code(key) == code;
            assert(self@.contains_key(key));
        }
        if !self.holds_nothing() {
            let key = choose|key: Seq<i16>| #[trigger] self@.contains_key(key);
            assert(self.buckets@.dom().contains(spec_bucket_code(key)));
        }
    }

    /// Places reference `i` in the bucket `keys[i]`, for every `i`.
    pub fn build(keys: &[BucketKey]) -> (index: Self)
        ensures
            spec_built_from(index, keys@),
            index.holds_nothing() <==> keys@.len() == 0,
    {
        let mut buckets: HashMap<u64, Vec<usize>> = HashMap::new();
        let mut i: usize = 0;
        while i < keys.len()
            invariant
                0 <= i <= keys@.len(),
                forall|key: Seq<i16>|
                    key.len() == 4 ==> #[trigger] spec_bucket_of(buckets@, key)
                        == spec_indices_with_key(keys@, key, i as nat),
                i > 0 ==> buckets@.contains_key(spec_bucket_code(keys@[0]@)),
                i == 0 ==> buckets@ == Map::<u64, Vec<usize>>::empty(),
                forall|c: u64| #[trigger] buckets@.contains_key(c) ==> buckets@[c]@.len() > 0,
            decreases keys@.len() - i,
        {
            let code = bucket_code(&keys[i]);
            let ghost old_buckets = buckets@;
            buckets.entry(code).or_insert(Vec::new()).push(i);
            proof {
                assert(buckets@.dom() == old_buckets.dom().insert(code));
                assert(buckets@[code]@ == spec_bucket_of(old_buckets, keys@[i as int]@).push(i));
                assert(forall|c: u64| c != code && old_buckets.contains_key(c) ==> buckets@[c] == old_buckets[c]);
                assert forall|key: Seq<i16>| key.len() == 4 implies #[trigger] spec_bucket_of(
                    buckets@,
                    key,
                ) == spec_indices_with_key(keys@, key, (i + 1) as nat) by {
                    if spec_bucket_code(key) == code {
                        lemma_bucket_code_injective(key, keys@[i as int]@);
                    } else {
                        if keys@[i as int]@ == key {
                            assert(spec_bucket_code(keys@[i as int]@) == spec_bucket_code(key));
                        }
                        assert(spec_bucket_of(buckets@, key) == spec_bucket_of(old_buckets, key));
                    }
                }
            }
            i = i + 1;
        }
        let index = PartitionIndex { buckets };
        proof {
            index.lemma_holds_nothing();
            assert forall|key: Seq<i16>|
                key.len() == 4 implies #[trigger] spec_bucket(index@, key) == spec_indices_with_key(
                keys@,
                key,
                keys@.len(),
            ) by {
                assert(spec_bucket_of(index.buckets@, key) == spec_indices_with_key(
                    keys@,
                    key,
                    keys@.len(),
                ));
            }
            if keys@.len() > 0 {
                assert(index.buckets@.dom().contains(spec_bucket_code(keys@[0]@)));
            } else {
                assert(index.buckets@.dom() =~= Set::<u64>::empty());
            }
        }
        index
    }

    /// The search around `center` can widen as far as it needs: the index
    /// is empty, ring 0 gives enough candidates, or ring 1 fits in the
    /// `i16` range.
    pub open spec fn search_fits(&self, center: Seq<i16>) -> bool {
        &&& center.len() == 4
        &&& self.holds_nothing() || spec_enough_candidates(self.ring(center, 0).len())
            || spec_ring_fits(center, 1)
    }

    proof fn lemma_search_fits(&self, center: Seq<i16>)
        requires
            self.search_fits(center),
            !self.holds_nothing(),
        ensures
            spec_search_fits(self@, center, 0, Seq::empty()),
    {
        let w0 = Seq::<usize>::empty() + spec_gather(self@, center, 0, Seq::empty());
        assert(w0 =~= self.ring(center, 0));
        let w1 = w0 + spec_gather(self@, center, 1, Seq::empty());
        assert(spec_search_fits(self@, center, 2, w1));
        assert(spec_ring_fits(center, 0));
        if !spec_enough_candidates(w0.len()) {
            assert(spec_ring_fits(center, 1));
            assert(spec_search_fits(self@, center, 1, w0));
        }
    }

    /// Whether `candidate_indices` may be called for `center`.
    pub fn can_search(&self, center: &BucketKey) -> (fits: bool)
        ensures
            fits == self.search_fits(center@),
    {
        proof {
            self.lemma_holds_nothing();
        }
        if self.buckets.is_empty() {
            return true;
        }
        let mut d: usize = 0;
        let mut ring_one_fits = true;
        while d < PARTITION_DIMS
            invariant
                0 <= d <= 4,
                ring_one_fits == forall|k: int|
                    0 <= k < d ==> i16::MIN + 1 <= #[trigger] center@[k] <= i16::MAX - 1,
            decreases 4 - d,
        {
            if center[d] == i16::MIN || center[d] == i16::MAX {
                ring_one_fits = false;
            }
            d = d + 1;
        }
        if ring_one_fits {
            return true;
        }
        let mut current: BucketKey = *center;
        let mut ring_zero: Vec<usize> = Vec::new();
        let ghost current_before = current@;
        assert(current_before.take(0) =~= Seq::<i16>::empty());
        collect_ring_candidates(self, center, 0, 0, &mut current, &mut ring_zero);
        assert(ring_zero@ =~= self.ring(center@, 0));
        ring_zero.len() >= PARTITION_TARGET_CANDIDATES || ring_zero.len() >= K_NEIGHBORS
    }

    /// What `candidate_indices` returns.
    pub open spec fn spec_candidates(&self, center: Seq<i16>, full_scan_count: nat) -> Seq<
        usize,
    > {
        if self.holds_nothing() {
            spec_full_scan(full_scan_count)
        } else {
            spec_candidates_from(self@, center, 0, Seq::empty(), full_scan_count)
        }
    }

    /// The indices collected for ring `ring` around `center`.
    pub open spec fn ring(&self, center: Seq<i16>, ring: int) -> Seq<usize> {
        spec_gather(self@, center, ring, Seq::empty())
    }

    /// The references to compare with a vector whose bucket is `center`:
    /// the buckets of ring 0, then of ring 1, as soon as enough have been
    /// collected; every reference when the index is empty or the rings do
    /// not give enough.
    pub fn candidate_indices(&self, center: &BucketKey, full_scan_count: usize) -> (candidates:
        Vec<usize>)
        requires
            self.search_fits(center@),
        ensures
            candidates@ == self.spec_candidates(center@, full_scan_count as nat),
    {
        proof {
            self.lemma_holds_nothing();
        }
        if self.buckets.is_empty() {
            return full_scan(full_scan_count);
        }
        proof {
            self.lemma_search_fits(center@);
        }
        let mut current: BucketKey = *center;
        let mut candidates: Vec<usize> = Vec::new();
        let mut ring: i16 = 0;
        while ring <= PARTITION_MAX_RING
            invariant
                0 <= ring <= PARTITION_MAX_RING + 1,
                !self.holds_nothing(),
                ring <= PARTITION_MAX_RING ==> spec_search_fits(self@, center@, ring as int, candidates@),
                spec_candidates_from(self@, center@, 0, Seq::empty(), full_scan_count as nat)
                    == spec_candidates_from(
                    self@,
                    center@,
                    ring as int,
                    candidates@,
                    full_scan_count as nat,
                ),
            decreases PARTITION_MAX_RING + 1 - ring,
        {
            let ghost current_before = current@;
            assert(current_before.take(0) =~= Seq::<i16>::empty());
            collect_ring_candidates(self, center, ring, 0, &mut current, &mut candidates);
            if candidates.len() >= PARTITION_TARGET_CANDIDATES || candidates.len() >= K_NEIGHBORS {
                return candidates;
            }
            ring = ring + 1;
        }
        full_scan(full_scan_count)
    }
}

/// What the search returns: every index below `full_scan_count`, once and
/// in order, when the index is empty; otherwise the center bucket's ring
/// when it holds at least `K_NEIGHBORS` references, else rings 0 and 1
/// together when they do, else again every index below `full_scan_count`
/// in order.
pub proof fn lemma_candidates_shape(index: PartitionIndex, center: Seq<i16>, full_scan_count: nat)
    requires
        full_scan_count <= usize::MAX,
    ensures
        ({
            let found = index.spec_candidates(center, full_scan_count);
            let ring0 = index.ring(center, 0);
            let rings = index.ring(center, 0) + index.ring(center, 1);
            &&& index.holds_nothing() || rings.len() < K_NEIGHBORS ==> found.len() == full_scan_count
                && forall|i: int| 0 <= i < full_scan_count ==> #[trigger] found[i] == i
            &&& !index.holds_nothing() && ring0.len() >= K_NEIGHBORS ==> found == ring0
            &&& !index.holds_nothing() && ring0.len() < K_NEIGHBORS && rings.len() >= K_NEIGHBORS
                ==> found == rings
        }),
{
    let ring0 = Seq::<usize>::empty() + index.ring(center, 0);
    assert(ring0 =~= index.ring(center, 0));
    let rings = ring0 + index.ring(center, 1);
    let full = spec_full_scan(full_scan_count);
    assert(spec_candidates_from(index@, center, 2, rings, full_scan_count) == full);
    assert(spec_candidates_from(index@, center, 1, ring0, full_scan_count) == if spec_enough_candidates(
        rings.len(),
    ) {
        rings
    } else {
        full
    });
    assert(spec_candidates_from(index@, center, 0, Seq::empty(), full_scan_count) == if spec_enough_candidates(
        ring0.len(),
    ) {
        ring0
    } else {
        spec_candidates_from(index@, center, 1, ring0, full_scan_count)
    });
    assert(forall|i: int| 0 <= i < full_scan_count ==> #[trigger] full[i] == i);
}

/// For an index built from `keys`, ring `ring` around `center` collects
/// exactly the references whose bucket lies at Chebyshev distance `ring`
/// from `center`.
pub proof fn lemma_ring_members(
    keys: Seq<BucketKey>,
    index: PartitionIndex,
    center: Seq<i16>,
    ring: int,
    x: usize,
)
    requires
        spec_ring_fits(center, ring),
        spec_built_from(index, keys),
    ensures
        index.ring(center, ring).contains(x) <==> x < keys.len() && spec_chebyshev(
            keys[x as int]@,
            center,
            4,
        ) == ring,
{
    lemma_gather_members(index@, center, ring, Seq::empty(), x);
    if index.ring(center, ring).contains(x) {
        let key = choose|key: Seq<i16>|
            spec_ring_bucket_holds(index@, center, ring, Seq::empty(), key, x);
        lemma_indices_with_key_members(keys, key, keys.len(), x);
    }
    if x < keys.len() && spec_chebyshev(keys[x as int]@, center, 4) == ring {
        let key = keys[x as int]@;
        lemma_indices_with_key_members(keys, key, keys.len(), x);
        assert(key.take(0) =~= Seq::<i16>::empty());
        assert(spec_ring_bucket_holds(index@, center, ring, Seq::empty(), key, x));
    }
}

proof fn lemma_candidates_from_in_range(
    keys: Seq<BucketKey>,
    index: PartitionIndex,
    center: Seq<i16>,
    ring: int,
    collected: Seq<usize>,
)
    requires
        spec_search_fits(index@, center, ring, collected),
        0 <= ring,
        spec_built_from(index, keys),
        forall|i: int| 0 <= i < collected.len() ==> #[trigger] collected[i] < keys.len(),
    ensures
        forall|i: int|
            0 <= i < spec_candidates_from(index@, center, ring, collected, keys.len()).len()
                ==> #[trigger] spec_candidates_from(
                index@,
                center,
                ring,
                collected,
                keys.len(),
            )[i] < keys.len(),
    decreases PARTITION_MAX_RING + 1 - ring,
{
    if ring <= PARTITION_MAX_RING {
        let gathered = spec_gather(index@, center, ring, Seq::empty());
        let widened = collected + gathered;
        assert forall|i: int| 0 <= i < widened.len() implies #[trigger] widened[i] < keys.len() by {
            if i >= collected.len() {
                let x = gathered[i - collected.len()];
                assert(gathered.contains(x));
                lemma_ring_members(keys, index, center, ring, x);
            }
        }
        let result = spec_candidates_from(index@, center, ring, collected, keys.len());
        if spec_enough_candidates(widened.len()) {
            assert(result == widened);
        } else {
            lemma_candidates_from_in_range(keys, index, center, ring + 1, widened);
            assert(result == spec_candidates_from(
                index@,
                center,
                ring + 1,
                widened,
                keys.len(),
            ));
        }
    } else {
        let scan = spec_full_scan(keys.len());
        assert forall|i: int| 0 <= i < scan.len() implies #[trigger] scan[i] < keys.len() by {
            assert(scan[i] == i as usize);
        }
    }
}

/// For an index built from `keys`, a search with `keys.len()` as the full
/// scan count only returns indices of references.
pub proof fn lemma_candidates_in_range(keys: Seq<BucketKey>, index: PartitionIndex, center: Seq<i16>)
    requires
        index.search_fits(center),
        spec_built_from(index, keys),
    ensures
        forall|i: int|
            0 <= i < index.spec_candidates(center, keys.len()).len() ==> #[trigger] index.spec_candidates(
                center,
                keys.len(),
            )[i] < keys.len(),
{
    if index.holds_nothing() {
        let scan = spec_full_scan(keys.len());
        assert forall|i: int| 0 <= i < scan.len() implies #[trigger] scan[i] < keys.len() by {
            assert(scan[i] == i as usize);
        }
    } else {
        index.lemma_search_fits(center);
        lemma_candidates_from_in_range(keys, index, center, 0, Seq::empty());
    }
}

proof fn lemma_candidates_from_enough(
    index: PartitionIndex,
    center: Seq<i16>,
    ring: int,
    collected: Seq<usize>,
    full_scan_count: nat,
)
    requires
        0 <= ring,
    ensures
        spec_enough_candidates(
            spec_candidates_from(index@, center, ring, collected, full_scan_count).len(),
        ) || spec_candidates_from(index@, center, ring, collected, full_scan_count)
            == spec_full_scan(full_scan_count),
    decreases PARTITION_MAX_RING + 1 - ring,
{
    if ring <= PARTITION_MAX_RING {
        let widened = collected + spec_gather(index@, center, ring, Seq::empty());
        lemma_candidates_from_enough(index, center, ring + 1, widened, full_scan_count);
    }
}

/// A search returns at least `K_NEIGHBORS` candidates, or else every index
/// below the full scan count, in order.
pub proof fn lemma_candidates_enough(index: PartitionIndex, center: Seq<i16>, full_scan_count: nat)
    ensures
        index.spec_candidates(center, full_scan_count).len() >= K_NEIGHBORS
            || index.spec_candidates(center, full_scan_count) == spec_full_scan(full_scan_count),
{
    if !index.holds_nothing() {
        lemma_candidates_from_enough(index, center, 0, Seq::empty(), full_scan_count);
    }
}

/// The index built from `keys` has, in each bucket, the references of that
/// bucket.
pub open spec fn spec_built_from(index: PartitionIndex, keys: Seq<BucketKey>) -> bool {
    &&& keys.len() <= usize::MAX
    &&& forall|key: Seq<i16>|
        key.len() == 4 ==> #[trigger] spec_bucket(index@, key) == spec_indices_with_key(
            keys,
            key,
            keys.len(),
        )
    &&& forall|key: Seq<i16>|
        #[trigger] index@.contains_key(key) ==> key.len() == 4 && index@[key].len() > 0
}

proof fn lemma_concat_no_duplicates(a: Seq<usize>, b: Seq<usize>)
    requires
        a.no_duplicates(),
        b.no_duplicates(),
        forall|x: usize| a.contains(x) ==> !b.contains(x),
    ensures
        (a + b).no_duplicates(),
{
    let c = a + b;
    assert forall|i: int, j: int| 0 <= i < c.len() && 0 <= j < c.len() && i != j implies c[i]
        != c[j] by {
        if i < a.len() && j >= a.len() {
            assert(a.contains(c[i]));
            assert(b.contains(c[j]));
            assert(b[j - a.len()] == c[j]);
        } else if i >= a.len() && j < a.len() {
            assert(a.contains(c[j]));
            assert(b[i - a.len()] == c[i]);
            assert(b.contains(c[i]));
        }
    }
}

proof fn lemma_indices_with_key_no_duplicates(keys: Seq<BucketKey>, key: Seq<i16>, n: nat)
    requires
        n <= keys.len(),
        keys.len() <= usize::MAX,
    ensures
        spec_indices_with_key(keys, key, n).no_duplicates(),
    decreases n,
{
    if n > 0 {
        lemma_indices_with_key_no_duplicates(keys, key, (n - 1) as nat);
        let prev = spec_indices_with_key(keys, key, (n - 1) as nat);
        if keys[n - 1]@ == key {
            lemma_indices_with_key_members(keys, key, (n - 1) as nat, (n - 1) as usize);
            assert(!prev.contains((n - 1) as usize));
            lemma_concat_no_duplicates(prev, seq![(n - 1) as usize]);
            assert(prev + seq![(n - 1) as usize] =~= prev.push((n - 1) as usize));
        }
    }
}

/// A reference collected for the buckets that extend `prefix` lies in a
/// bucket that extends `prefix`.
proof fn lemma_gather_owner(
    index: PartitionIndex,
    keys: Seq<BucketKey>,
    center: Seq<i16>,
    ring: int,
    prefix: Seq<i16>,
    x: usize,
)
    requires
        spec_ring_fits(center, ring),
        spec_built_from(index, keys),
        prefix.len() <= 4,
        spec_gather(index@, center, ring, prefix).contains(x),
    ensures
        x < keys.len(),
        keys[x as int]@.take(prefix.len() as int) == prefix,
        spec_chebyshev(keys[x as int]@, center, 4) == ring,
{
    lemma_gather_members(index@, center, ring, prefix, x);
    let key = choose|key: Seq<i16>| spec_ring_bucket_holds(index@, center, ring, prefix, key, x);
    lemma_indices_with_key_members(keys, key, keys.len(), x);
}

proof fn lemma_gather_no_duplicates(
    index: PartitionIndex,
    keys: Seq<BucketKey>,
    center: Seq<i16>,
    ring: int,
    prefix: Seq<i16>,
)
    requires
        spec_ring_fits(center, ring),
        spec_built_from(index, keys),
        prefix.len() <= 4,
    ensures
        spec_gather(index@, center, ring, prefix).no_duplicates(),
    decreases 4 - prefix.len(), 1int, 0int,
{
    if prefix.len() == 4 {
        lemma_indices_with_key_no_duplicates(keys, prefix, keys.len());
    } else {
        lemma_gather_from_no_duplicates(index, keys, center, ring, prefix, -ring);
    }
}

proof fn lemma_gather_from_no_duplicates(
    index: PartitionIndex,
    keys: Seq<BucketKey>,
    center: Seq<i16>,
    ring: int,
    prefix: Seq<i16>,
    offset: int,
)
    requires
        spec_ring_fits(center, ring),
        spec_built_from(index, keys),
        prefix.len() < 4,
        -ring <= offset,
    ensures
        spec_gather_from(index@, center, ring, prefix, offset).no_duplicates(),
        forall|x: usize|
            #[trigger] spec_gather_from(index@, center, ring, prefix, offset).contains(x) ==> x
                < keys.len() && keys[x as int]@[prefix.len() as int] - center[prefix.len() as int]
                >= offset,
    decreases 4 - prefix.len(), 0int, ring + 1 - offset,
{
    let n = prefix.len() as int;
    if offset <= ring {
        let value = (center[n] + offset) as i16;
        assert(center[n] + offset == value) by {
            assert(i16::MIN + ring <= center[n] <= i16::MAX - ring);
        }
        let next = prefix.push(value);
        let first = spec_gather(index@, center, ring, next);
        let rest = spec_gather_from(index@, center, ring, prefix, offset + 1);
        lemma_gather_no_duplicates(index, keys, center, ring, next);
        lemma_gather_from_no_duplicates(index, keys, center, ring, prefix, offset + 1);
        assert forall|x: usize| first.contains(x) implies x < keys.len() && keys[x as int]@[n]
            - center[n] == offset by {
            lemma_gather_owner(index, keys, center, ring, next, x);
            assert(keys[x as int]@[n] == keys[x as int]@.take(n + 1)[n]);
        }
        lemma_concat_no_duplicates(first, rest);
        assert forall|x: usize|
            #[trigger] spec_gather_from(index@, center, ring, prefix, offset).contains(x) implies x
                < keys.len() && keys[x as int]@[n] - center[n] >= offset by {
            let whole = first + rest;
            let i = choose|i: int| 0 <= i < whole.len() && whole[i] == x;
            if i < first.len() {
                assert(first.contains(x));
            } else {
                assert(rest[i - first.len()] == x);
                assert(rest.contains(x));
            }
        }
    }
}

proof fn lemma_candidates_from_no_duplicates(
    index: PartitionIndex,
    keys: Seq<BucketKey>,
    center: Seq<i16>,
    ring: int,
    collected: Seq<usize>,
)
    requires
        spec_search_fits(index@, center, ring, collected),
        spec_built_from(index, keys),
        0 <= ring,
        collected.no_duplicates(),
        forall|x: usize|
            #[trigger] collected.contains(x) ==> x < keys.len() && spec_chebyshev(
                keys[x as int]@,
                center,
                4,
            ) < ring,
    ensures
        spec_candidates_from(index@, center, ring, collected, keys.len()).no_duplicates(),
    decreases PARTITION_MAX_RING + 1 - ring,
{
    if ring <= PARTITION_MAX_RING {
        let gathered = spec_gather(index@, center, ring, Seq::empty());
        lemma_gather_no_duplicates(index, keys, center, ring, Seq::empty());
        assert forall|x: usize| gathered.contains(x) implies x < keys.len() && spec_chebyshev(
            keys[x as int]@,
            center,
            4,
        ) == ring by {
            lemma_gather_owner(index, keys, center, ring, Seq::empty(), x);
        }
        lemma_concat_no_duplicates(collected, gathered);
        let widened = collected + gathered;
        assert forall|x: usize| #[trigger] widened.contains(x) implies x < keys.len()
            && spec_chebyshev(keys[x as int]@, center, 4) < ring + 1 by {
            let i = choose|i: int| 0 <= i < widened.len() && widened[i] == x;
            if i < collected.len() {
                assert(collected.contains(x));
            } else {
                assert(gathered[i - collected.len()] == x);
                assert(gathered.contains(x));
            }
        }
        if !spec_enough_candidates(widened.len()) {
            lemma_candidates_from_no_duplicates(index, keys, center, ring + 1, widened);
        }
    } else {
        let scan = spec_full_scan(keys.len());
        assert forall|i: int, j: int| 0 <= i < scan.len() && 0 <= j < scan.len() && i != j implies scan[i]
            != scan[j] by {
            assert(scan[i] == i as usize);
            assert(scan[j] == j as usize);
        }
    }
}

/// For an index built from `keys`, a search with `keys.len()` as the full
/// scan count returns each reference at most once.
pub proof fn lemma_candidates_distinct(index: PartitionIndex, keys: Seq<BucketKey>, center: Seq<i16>)
    requires
        index.search_fits(center),
        spec_built_from(index, keys),
    ensures
        index.spec_candidates(center, keys.len()).no_duplicates(),
{
    if index.holds_nothing() {
        let scan = spec_full_scan(keys.len());
        assert forall|i: int, j: int| 0 <= i < scan.len() && 0 <= j < scan.len() && i != j implies scan[i]
            != scan[j] by {
            assert(scan[i] == i as usize);
            assert(scan[j] == j as usize);
        }
    } else {
        index.lemma_search_fits(center);
        lemma_candidates_from_no_duplicates(index, keys, center, 0, Seq::empty());
    }
}

proof fn lemma_indices_with_key_increasing(keys: Seq<BucketKey>, key: Seq<i16>, n: nat)
    requires
        n <= keys.len(),
        keys.len() <= usize::MAX,
    ensures
        forall|j: int, k: int|
            0 <= j < k < spec_indices_with_key(keys, key, n).len() ==> spec_indices_with_key(
                keys,
                key,
                n,
            )[j] < spec_indices_with_key(keys, key, n)[k],
    decreases n,
{
    if n > 0 {
        let prev = spec_indices_with_key(keys, key, (n - 1) as nat);
        lemma_indices_with_key_increasing(keys, key, (n - 1) as nat);
        if keys[n - 1]@ == key {
            assert forall|j: int| 0 <= j < prev.len() implies prev[j] < n - 1 by {
                assert(prev.contains(prev[j]));
                lemma_indices_with_key_members(keys, key, (n - 1) as nat, prev[j]);
            }
        }
    }
}

/// An index built from `keys` stores exactly the non-empty buckets: reference
/// `i` is in the bucket `keys[i]` and in no other, and each stored bucket
/// lists its references in strictly increasing order.
pub proof fn lemma_built_buckets(index: PartitionIndex, keys: Seq<BucketKey>)
    requires
        spec_built_from(index, keys),
    ensures
        forall|i: int|
            #![trigger keys[i]]
            0 <= i < keys.len() ==> index@.contains_key(keys[i]@) && index@[keys[i]@].contains(
                i as usize,
            ),
        forall|key: Seq<i16>, x: usize|
            #[trigger] spec_bucket(index@, key).contains(x) ==> x < keys.len() && keys[x as int]@
                == key,
        forall|key: Seq<i16>| #[trigger] index@.contains_key(key) ==> index@[key].len() > 0,
        forall|key: Seq<i16>, j: int, k: int|
            #![trigger spec_bucket(index@, key)[j], spec_bucket(index@, key)[k]]
            0 <= j < k < spec_bucket(index@, key).len() ==> spec_bucket(index@, key)[j]
                < spec_bucket(index@, key)[k],
{
    assert forall|i: int| #![trigger keys[i]] 0 <= i < keys.len() implies index@.contains_key(
        keys[i]@,
    ) && index@[keys[i]@].contains(i as usize) by {
        let key = keys[i]@;
        lemma_indices_with_key_members(keys, key, keys.len(), i as usize);
        assert(spec_bucket(index@, key).contains(i as usize));
    }
    assert forall|key: Seq<i16>, x: usize| #[trigger] spec_bucket(index@, key).contains(x) implies x
        < keys.len() && keys[x as int]@ == key by {
        lemma_indices_with_key_members(keys, key, keys.len(), x);
    }
    assert forall|key: Seq<i16>, j: int, k: int|
        0 <= j < k < spec_bucket(index@, key).len() implies spec_bucket(index@, key)[j]
        < spec_bucket(index@, key)[k] by {
        lemma_indices_with_key_increasing(keys, key, keys.len());
    }
}

proof fn lemma_chebyshev_self(center: Seq<i16>, n: nat)
    ensures
        spec_chebyshev(center, center, n) == 0,
    decreases n,
{
    if n > 0 {
        lemma_chebyshev_self(center, (n - 1) as nat);
    }
}

proof fn lemma_gather_ring_zero(buckets: Map<Seq<i16>, Seq<usize>>, center: Seq<i16>, n: nat)
    requires
        center.len() == 4,
        n <= 4,
    ensures
        spec_gather(buckets, center, 0, center.take(n as int)) == spec_bucket(buckets, center),
    decreases 4 - n,
{
    if n == 4 {
        assert(center.take(4) =~= center);
        lemma_chebyshev_self(center, 4);
    } else {
        let prefix = center.take(n as int);
        let next = prefix.push((center[n as int] + 0) as i16);
        assert(next =~= center.take(n as int + 1));
        lemma_gather_ring_zero(buckets, center, n + 1);
        assert(spec_gather_from(buckets, center, 0, prefix, 1) == Seq::<usize>::empty());
        assert(spec_gather_from(buckets, center, 0, prefix, 0) =~= spec_gather(
            buckets,
            center,
            0,
            next,
        ));
    }
}

/// Ring 0 is the bucket of the center itself.
pub proof fn lemma_ring_zero_is_center(index: PartitionIndex, center: Seq<i16>)
    requires
        center.len() == 4,
    ensures
        index.ring(center, 0) == spec_bucket(index@, center),
{
    lemma_gather_ring_zero(index@, center, 0);
    assert(center.take(0) =~= Seq::<i16>::empty());
}

/// For an index built from `keys`, rings 0 and 1 together hold each
/// reference whose bucket is within Chebyshev distance 1 of the center
/// exactly once, and no other; the center bucket comes first.
pub proof fn lemma_rings_cover_neighbourhood(
    index: PartitionIndex,
    keys: Seq<BucketKey>,
    center: Seq<i16>,
)
    requires
        spec_ring_fits(center, 1),
        spec_built_from(index, keys),
    ensures
        (index.ring(center, 0) + index.ring(center, 1)).no_duplicates(),
        index.ring(center, 0) == spec_bucket(index@, center),
        forall|x: usize|
            #[trigger] (index.ring(center, 0) + index.ring(center, 1)).contains(x) <==> x
                < keys.len() && spec_chebyshev(keys[x as int]@, center, 4) <= 1,
{
    let r0 = index.ring(center, 0);
    let r1 = index.ring(center, 1);
    assert(spec_ring_fits(center, 0));
    lemma_ring_zero_is_center(index, center);
    lemma_gather_no_duplicates(index, keys, center, 0, Seq::empty());
    lemma_gather_no_duplicates(index, keys, center, 1, Seq::empty());
    assert forall|x: usize| r0.contains(x) implies !r1.contains(x) by {
        lemma_ring_members(keys, index, center, 0, x);
        lemma_ring_members(keys, index, center, 1, x);
    }
    lemma_concat_no_duplicates(r0, r1);
    assert forall|x: usize| #[trigger] (r0 + r1).contains(x) <==> x < keys.len() && spec_chebyshev(
        keys[x as int]@,
        center,
        4,
    ) <= 1 by {
        lemma_ring_members(keys, index, center, 0, x);
        lemma_ring_members(keys, index, center, 1, x);
        let both = r0 + r1;
        if both.contains(x) {
            let i = choose|i: int| 0 <= i < both.len() && both[i] == x;
            if i < r0.len() {
                assert(r0.contains(x));
            } else {
                assert(r1[i - r0.len()] == x);
                assert(r1.contains(x));
            }
        }
        if x < keys.len() && spec_chebyshev(keys[x as int]@, center, 4) <= 1 {
            lemma_chebyshev_nonnegative(keys[x as int]@, center, 4);
            if spec_chebyshev(keys[x as int]@, center, 4) == 0 {
                let i = choose|i: int| 0 <= i < r0.len() && r0[i] == x;
                assert(both[i] == x);
            } else {
                let i = choose|i: int| 0 <= i < r1.len() && r1[i] == x;
                assert(both[r0.len() + i] == x);
            }
        }
    }
}

proof fn lemma_chebyshev_nonnegative(key: Seq<i16>, center: Seq<i16>, n: nat)
    ensures
        spec_chebyshev(key, center, n) >= 0,
    decreases n,
{
    if n > 0 {
        lemma_chebyshev_nonnegative(key, center, (n - 1) as nat);
    }
}

fn full_scan(full_scan_count: usize) -> (indices: Vec<usize>)
    ensures
        indices@ == spec_full_scan(full_scan_count as nat),
        indices@.len() == full_scan_count,
        forall|i: int| 0 <= i < full_scan_count ==> #[trigger] indices@[i] == i,
{
    let mut indices: Vec<usize> = Vec::new();
    let mut i: usize = 0;
    while i < full_scan_count
        invariant
            0 <= i <= full_scan_count,
            indices@ == spec_full_scan(i as nat),
        decreases full_scan_count - i,
    {
        indices.push(i);
        assert(indices@ =~= spec_full_scan((i + 1) as nat));
        i = i + 1;
    }
    assert(forall|k: int| 0 <= k < full_scan_count ==> #[trigger] indices@[k] == k);
    indices
}

fn chebyshev_distance(current: &BucketKey, center: &BucketKey) -> (distance: i16)
    requires
        forall|d: int| 0 <= d < 4 ==> spec_gap_fits(#[trigger] current@[d] - center@[d]),
    ensures
        distance == spec_chebyshev(current@, center@, 4),
{
    let mut distance: i16 = 0;
    let mut d: usize = 0;
    while d < PARTITION_DIMS
        invariant
            0 <= d <= 4,
            forall|k: int| 0 <= k < 4 ==> spec_gap_fits(#[trigger] current@[k] - center@[k]),
            distance == spec_chebyshev(current@, center@, d as nat),
            0 <= distance,
        decreases 4 - d,
    {
        let diff = current[d] - center[d];
        let gap = if diff < 0 {
            -diff
        } else {
            diff
        };
        if gap > distance {
            distance = gap;
        }
        d = d + 1;
    }
    distance
}

/// Appends to `candidates` the indices of the buckets at Chebyshev distance
/// exactly `ring` from `center` whose first `dimension` coordinates are those
/// of `current`, visiting the remaining coordinates at offsets `-ring..=ring`
/// in lexicographic order.
pub fn collect_ring_candidates(
    index: &PartitionIndex,
    center: &BucketKey,
    ring: i16,
    dimension: usize,
    current: &mut BucketKey,
    candidates: &mut Vec<usize>,
)
    requires
        spec_ring_fits(center@, ring as int),
        dimension <= 4,
        forall|d: int| 0 <= d < dimension ==> spec_gap_fits(#[trigger] old(current)@[d] - center@[d]),
    ensures
        final(candidates)@ == old(candidates)@ + spec_gather(
            index@,
            center@,
            ring as int,
            old(current)@.take(dimension as int),
        ),
        final(current)@.take(dimension as int) == old(current)@.take(dimension as int),
    decreases 4 - dimension,
{
    let ghost prefix = current@.take(dimension as int);
    if dimension == PARTITION_DIMS {
        assert(current@.take(4) =~= current@);
        let distance = chebyshev_distance(current, center);
        if distance == ring {
            let code = bucket_code(current);
            match index.buckets.get(&code) {
                Some(indices) => {
                    let ghost start = candidates@;
                    let mut j: usize = 0;
                    while j < indices.len()
                        invariant
                            0 <= j <= indices@.len(),
                            candidates@ == start + indices@.take(j as int),
                        decreases indices@.len() - j,
                    {
                        candidates.push(indices[j]);
                        assert(indices@.take(j + 1) =~= indices@.take(j as int).push(
                            indices@[j as int],
                        ));
                        j = j + 1;
                    }
                    assert(indices@.take(indices@.len() as int) =~= indices@);
                },
                None => {
                    assert(candidates@ =~= candidates@ + Seq::<usize>::empty());
                },
            }
        } else {
            assert(candidates@ =~= candidates@ + Seq::<usize>::empty());
        }
        return;
    }
    let ghost start = candidates@;
    let mut offset: i32 = -(ring as i32);
    while offset <= ring as i32
        invariant
            -ring <= offset <= ring + 1,
            spec_ring_fits(center@, ring as int),
            dimension < 4,
            prefix.len() == dimension,
            current@.take(dimension as int) == prefix,
            forall|d: int| 0 <= d < dimension ==> spec_gap_fits(#[trigger] current@[d] - center@[d]),
            start + spec_gather_from(index@, center@, ring as int, prefix, -ring as int)
                == candidates@ + spec_gather_from(
                index@,
                center@,
                ring as int,
                prefix,
                offset as int,
            ),
        decreases ring + 1 - offset,
    {
        let ghost loop_current = current@;
        assert(i16::MIN + ring <= center@[dimension as int] <= i16::MAX - ring);
        current[dimension] = (center[dimension] as i32 + offset) as i16;
        assert(current@ == loop_current.update(dimension as int, (center@[dimension as int] + offset) as i16));
        assert(current@.take(dimension + 1) =~= prefix.push((center@[dimension as int] + offset) as i16));
        let ghost set_current = current@;
        collect_ring_candidates(index, center, ring, dimension + 1, current, candidates);
        assert forall|d: int| 0 <= d < dimension implies spec_gap_fits(
            #[trigger] current@[d] - center@[d],
        ) by {
            assert(current@.take(dimension + 1)[d] == set_current.take(dimension + 1)[d]);
            assert(set_current[d] == loop_current[d]);
            assert(spec_gap_fits(loop_current[d] - center@[d]));
        }
        assert(current@.take(dimension as int) =~= current@.take(dimension + 1).take(dimension as int));
        assert(start + spec_gather_from(index@, center@, ring as int, prefix, -ring as int)
            =~= candidates@ + spec_gather_from(
            index@,
            center@,
            ring as int,
            prefix,
            offset + 1,
        ));
        offset = offset + 1;
    }
    assert(candidates@ + spec_gather_from(index@, center@, ring as int, prefix, offset as int)
        =~= candidates@);
}

} // verus!
