//! Which objects are worth a delta, and which of two is the better base.

use crate::codec::{DeltaCodec, DeltaModel};
use crate::hash::same_bytes;
use crate::object::Entry;
use ahash::AHasher;
use std::hash::{Hash, Hasher};
use vstd::prelude::*;
use vstd::slice::slice_subrange;

verus! {

/// No object is rebuilt from more deltas than this.
pub const MAX_CHAIN_LEN: usize = 50;

/// The rate that a delta has to exceed: one half.
pub const MIN_DELTA_RATE: u64 = 0x10_0000_0000_0000;

/// Rates that differ by no more than this are tied: 0.15 of the whole, rounded down.
pub const TIE_EPSILON: u64 = 1351079888211148;

/// A rate that exceeds another one by more than this is the better one. One unit
/// more than [`TIE_EPSILON`], as 0.15 of the whole is no whole number of units.
pub const CLEARLY_BETTER: u64 = 1351079888211149;

/// Hashes two slices with `ahash::AHasher`, each with a hasher of its own made by
/// `AHasher::default()`. These hashers share the keys that the process drew at
/// random, so equal slices have equal hashes. Nothing is claimed of the hashes
/// themselves, which differ from process to process, nor of the hashes of slices
/// that differ.
#[verifier::external_body]
fn calc_hash(a: &[u8], b: &[u8]) -> (r: (u64, u64))
    ensures
        a@ == b@ ==> r.0 == r.1,
{
    let mut hasher_a = AHasher::default();
    let mut hasher_b = AHasher::default();
    a.hash(&mut hasher_a);
    b.hash(&mut hasher_b);
    (hasher_a.finish(), hasher_b.finish())
}

/// The shorter of two lengths.
pub open spec fn shorter(a: nat, b: nat) -> nat {
    if a <= b {
        a
    } else {
        b
    }
}

/// The longer of two lengths.
pub open spec fn longer(a: nat, b: nat) -> nat {
    if a <= b {
        b
    } else {
        a
    }
}

/// How long the samples are that are taken from `min_len` bytes.
pub open spec fn sample_len(min_len: nat) -> nat {
    shorter(min_len, 64)
}

/// Where the five samples start: at the quarters of what can be a start.
pub open spec fn sample_start(min_len: nat, k: int) -> nat {
    let max_start = (min_len - sample_len(min_len)) as nat;
    if k == 0 {
        0
    } else if k == 1 {
        max_start / 4
    } else if k == 2 {
        max_start / 2
    } else if k == 3 {
        shorter(max_start * 3, usize::MAX as nat) / 4
    } else {
        max_start
    }
}

/// Whether the sample is not the one before it.
pub open spec fn is_new_sample(min_len: nat, k: int) -> bool {
    k == 0 || sample_start(min_len, k) != sample_start(min_len, k - 1)
}

/// How many of the first `n` samples are different ones.
pub open spec fn unique_samples(min_len: nat, n: nat) -> nat
    decreases n,
{
    if n == 0 {
        0
    } else {
        unique_samples(min_len, (n - 1) as nat) + if is_new_sample(min_len, n - 1) {
            1nat
        } else {
            0nat
        }
    }
}

/// The bytes of a sample.
pub open spec fn sample(data: Seq<u8>, min_len: nat, k: int) -> Seq<u8> {
    let start = sample_start(min_len, k) as int;
    data.subrange(start, start + sample_len(min_len))
}

/// How many of the first `n` samples are the same bytes on both sides, each
/// different one counted once.
pub open spec fn equal_samples(a: Seq<u8>, b: Seq<u8>, n: nat) -> nat
    decreases n,
{
    let min_len = shorter(a.len(), b.len());
    if n == 0 {
        0
    } else {
        equal_samples(a, b, (n - 1) as nat) + if is_new_sample(min_len, n - 1) && sample(
            a,
            min_len,
            n - 1,
        ) == sample(b, min_len, n - 1) {
            1nat
        } else {
            0nat
        }
    }
}

/// What is concluded from `matches` samples out of `unique` that match: one is
/// enough in short data, half of them are needed in longer data.
pub open spec fn verdict(min_len: nat, matches: nat, unique: nat) -> bool {
    matches > 0 && (min_len < 512 || matches * 2 >= unique)
}

/// Whether `similar` is an answer that [`cheap_similar`] may give. Data without
/// bytes is similar to nothing, short data only to itself. For other data the
/// samples that match are counted: all that are the same bytes do, and others may,
/// where two different samples happen to have the same hash.
pub open spec fn plausible(a: Seq<u8>, b: Seq<u8>, similar: bool) -> bool {
    let min_len = shorter(a.len(), b.len());
    if min_len == 0 {
        !similar
    } else if min_len <= 32 {
        similar == (a == b)
    } else {
        exists|matches: nat|
            equal_samples(a, b, 5) <= matches <= unique_samples(min_len, 5) && similar
                == #[trigger] verdict(min_len, matches, unique_samples(min_len, 5))
    }
}

/// How many of the first `n` pairs of hashes are pairs of equal ones.
pub open spec fn equal_pairs(pairs: Seq<(u64, u64)>, n: int) -> nat
    decreases n,
{
    if n <= 0 {
        0
    } else {
        equal_pairs(pairs, n - 1) + if pairs[n - 1].0 == pairs[n - 1].1 {
            1nat
        } else {
            0nat
        }
    }
}

/// There are no more pairs of equal hashes than pairs.
proof fn equal_pairs_are_pairs(pairs: Seq<(u64, u64)>, n: int)
    requires
        n >= 0,
    ensures
        equal_pairs(pairs, n) <= n,
    decreases n,
{
    if n > 0 {
        equal_pairs_are_pairs(pairs, n - 1);
    }
}

/// Concludes from the hashes of the samples, one pair for each different sample,
/// whether data is similar.
pub fn similar_verdict(min_len: usize, pairs: &Vec<(u64, u64)>) -> (r: bool)
    requires
        pairs.len() <= 5,
    ensures
        r == verdict(
            min_len as nat,
            equal_pairs(pairs@, pairs@.len() as int),
            pairs@.len(),
        ),
{
    let mut matches: usize = 0;
    let mut k: usize = 0;
    while k < pairs.len()
        invariant
            k <= pairs.len() <= 5,
            matches == equal_pairs(pairs@, k as int),
            matches <= k,
        decreases pairs.len() - k,
    {
        if pairs[k].0 == pairs[k].1 {
            matches += 1;
        }
        k += 1;
    }
    matches > 0 && (min_len < 512 || matches * 2 >= pairs.len())
}

/// Where the samples of `min_len` bytes start.
fn sample_starts(min_len: usize) -> (r: Vec<usize>)
    ensures
        r.len() == 5,
        forall|k: int| 0 <= k < 5 ==> #[trigger] r@[k] == sample_start(min_len as nat, k),
        forall|k: int| 0 <= k < 5 ==> #[trigger] r@[k] + sample_len(min_len as nat) <= min_len,
{
    let len: usize = if min_len < 64 {
        min_len
    } else {
        64
    };
    let max_start: usize = min_len - len;
    let tripled: usize = if max_start <= usize::MAX / 3 {
        max_start * 3
    } else {
        usize::MAX
    };
    let mut starts: Vec<usize> = Vec::with_capacity(5);
    starts.push(0);
    starts.push(max_start / 4);
    starts.push(max_start / 2);
    starts.push(tripled / 4);
    starts.push(max_start);
    starts
}

/// The different ones among the first `n` samples, each from both sides.
pub open spec fn different_samples(a: Seq<u8>, b: Seq<u8>, n: nat) -> Seq<(Seq<u8>, Seq<u8>)>
    decreases n,
{
    let min_len = shorter(a.len(), b.len());
    if n == 0 {
        Seq::empty()
    } else {
        let before = different_samples(a, b, (n - 1) as nat);
        if is_new_sample(min_len, n - 1) {
            before.push((sample(a, min_len, n - 1), sample(b, min_len, n - 1)))
        } else {
            before
        }
    }
}

/// The bytes of pairs of slices.
pub open spec fn slice_pairs(pairs: Seq<(&[u8], &[u8])>) -> Seq<(Seq<u8>, Seq<u8>)> {
    Seq::new(pairs.len(), |k: int| (pairs[k].0@, pairs[k].1@))
}

/// Cuts the samples out of two slices that have bytes, each different one once.
pub fn cut_samples<'a>(a: &'a [u8], b: &'a [u8]) -> (r: Vec<(&'a [u8], &'a [u8])>)
    requires
        a@.len() > 0,
        b@.len() > 0,
    ensures
        slice_pairs(r@) == different_samples(a@, b@, 5),
        r.len() == unique_samples(shorter(a@.len(), b@.len()), 5),
        r.len() <= 5,
{
    let min_len: usize = if a.len() <= b.len() {
        a.len()
    } else {
        b.len()
    };
    let len: usize = if min_len < 64 {
        min_len
    } else {
        64
    };
    let starts = sample_starts(min_len);
    let mut samples: Vec<(&'a [u8], &'a [u8])> = Vec::with_capacity(5);
    let mut k: usize = 0;
    while k < 5
        invariant
            k <= 5,
            starts.len() == 5,
            min_len == shorter(a@.len(), b@.len()),
            len == sample_len(min_len as nat),
            forall|j: int|
                0 <= j < 5 ==> #[trigger] starts@[j] == sample_start(min_len as nat, j),
            forall|j: int|
                0 <= j < 5 ==> #[trigger] starts@[j] + sample_len(min_len as nat) <= min_len,
            slice_pairs(samples@) =~= different_samples(a@, b@, k as nat),
            samples.len() == unique_samples(min_len as nat, k as nat),
            samples.len() <= k,
        decreases 5 - k,
    {
        let start: usize = starts[k];
        assert(k > 0 ==> starts@[k - 1] == sample_start(min_len as nat, k - 1));
        if k == 0 || start != starts[k - 1] {
            let ghost before = samples@;
            let from_a = slice_subrange(a, start, start + len);
            let from_b = slice_subrange(b, start, start + len);
            samples.push((from_a, from_b));
            assert(slice_pairs(samples@) =~= slice_pairs(before).push((from_a@, from_b@)));
        }
        k += 1;
    }
    samples
}

/// Hashes that the samples may have: the same bytes have the same hash.
pub open spec fn may_hash_to(
    samples: Seq<(Seq<u8>, Seq<u8>)>,
    pairs: Seq<(u64, u64)>,
) -> bool {
    &&& pairs.len() == samples.len()
    &&& forall|k: int|
        0 <= k < samples.len() && (#[trigger] samples[k]).0 == samples[k].1 ==> pairs[k].0
            == pairs[k].1
}

/// The hasher gave these hashes for bytes of both sides.
pub closed spec fn are_hashes_of(a: Seq<u8>, b: Seq<u8>, pair: (u64, u64)) -> bool {
    exists|x: &[u8], y: &[u8]| x@ == a && y@ == b && #[trigger] calc_hash.ensures((x, y), pair)
}

/// The hasher gave these hashes for the samples.
pub open spec fn are_hashes_of_all(
    samples: Seq<(Seq<u8>, Seq<u8>)>,
    pairs: Seq<(u64, u64)>,
) -> bool {
    &&& pairs.len() == samples.len()
    &&& forall|k: int|
        0 <= k < samples.len() ==> are_hashes_of(
            (#[trigger] samples[k]).0,
            samples[k].1,
            pairs[k],
        )
}

/// Calls a hasher.
fn hash_with<F: Fn(&[u8], &[u8]) -> (u64, u64)>(hasher: F, a: &[u8], b: &[u8]) -> (r: (u64, u64))
    requires
        hasher.requires((a, b)),
    ensures
        hasher.ensures((a, b), r),
{
    hasher(a, b)
}

/// Hashes the samples of both sides.
fn hash_samples(samples: &Vec<(&[u8], &[u8])>) -> (r: Vec<(u64, u64)>)
    ensures
        may_hash_to(slice_pairs(samples@), r@),
        are_hashes_of_all(slice_pairs(samples@), r@),
{
    let mut pairs: Vec<(u64, u64)> = Vec::with_capacity(samples.len());
    let mut k: usize = 0;
    while k < samples.len()
        invariant
            k <= samples.len(),
            pairs.len() == k,
            forall|j: int|
                0 <= j < k ==> are_hashes_of(
                    (#[trigger] slice_pairs(samples@)[j]).0,
                    slice_pairs(samples@)[j].1,
                    pairs@[j],
                ),
            forall|j: int|
                0 <= j < k && (#[trigger] slice_pairs(samples@)[j]).0 == slice_pairs(
                    samples@,
                )[j].1 ==> pairs@[j].0 == pairs@[j].1,
        decreases samples.len() - k,
    {
        let (from_a, from_b) = samples[k];
        let pair = hash_with(calc_hash, from_a, from_b);
        assert(are_hashes_of(from_a@, from_b@, pair));
        pairs.push(pair);
        k += 1;
    }
    pairs
}

/// Samples that are the same bytes count among the equal hashes.
proof fn equal_samples_have_equal_hashes(
    a: Seq<u8>,
    b: Seq<u8>,
    pairs: Seq<(u64, u64)>,
    n: nat,
)
    requires
        n <= 5,
        may_hash_to(different_samples(a, b, 5), pairs),
    ensures
        different_samples(a, b, n).len() <= pairs.len(),
        forall|k: int|
            0 <= k < different_samples(a, b, n).len() ==> #[trigger] different_samples(a, b, n)[k]
                == different_samples(a, b, 5)[k],
        equal_samples(a, b, n) <= equal_pairs(pairs, different_samples(a, b, n).len() as int),
    decreases n,
{
    samples_begin_alike(a, b, n, 5);
    if n > 0 {
        equal_samples_have_equal_hashes(a, b, pairs, (n - 1) as nat);
        samples_begin_alike(a, b, (n - 1) as nat, n);
        let all = different_samples(a, b, n);
        if is_new_sample(shorter(a.len(), b.len()), n - 1) {
            assert(all[all.len() - 1] == different_samples(a, b, 5)[all.len() - 1]);
        }
    }
}

/// The first samples stay the first ones.
proof fn samples_begin_alike(a: Seq<u8>, b: Seq<u8>, n: nat, m: nat)
    requires
        n <= m,
    ensures
        different_samples(a, b, n).len() <= different_samples(a, b, m).len(),
        forall|k: int|
            0 <= k < different_samples(a, b, n).len() ==> #[trigger] different_samples(a, b, n)[k]
                == different_samples(a, b, m)[k],
    decreases m,
{
    if n < m {
        samples_begin_alike(a, b, n, (m - 1) as nat);
        let before = different_samples(a, b, (m - 1) as nat);
        let all = different_samples(a, b, m);
        assert forall|k: int| 0 <= k < different_samples(a, b, n).len() implies #[trigger]
            different_samples(a, b, n)[k] == all[k] by {
            assert(all[k] == before[k]);
        }
    }
}

/// For data of more than 32 bytes, the answer follows from hashes that the hasher gave for
/// the samples.
pub open spec fn rests_on_hashes(a: Seq<u8>, b: Seq<u8>, similar: bool) -> bool {
    let min_len = shorter(a.len(), b.len());
    min_len > 32 ==> exists|pairs: Seq<(u64, u64)>| #[trigger]
        are_hashes_of_all(different_samples(a, b, 5), pairs) && similar == verdict(
            min_len,
            equal_pairs(pairs, pairs.len() as int),
            pairs.len(),
        )
}

/// A cheap test whether two slices are similar: compares samples of them.
pub fn cheap_similar(a: &[u8], b: &[u8]) -> (r: bool)
    ensures
        plausible(a@, b@, r),
        rests_on_hashes(a@, b@, r),
{
    let min_len: usize = if a.len() <= b.len() {
        a.len()
    } else {
        b.len()
    };
    if min_len == 0 {
        return false;
    }
    if min_len <= 32 {
        return same_bytes(a, b);
    }
    let samples = cut_samples(a, b);
    let pairs = hash_samples(&samples);
    proof {
        equal_samples_have_equal_hashes(a@, b@, pairs@, 5);
        equal_pairs_are_pairs(pairs@, pairs@.len() as int);
        assert(pairs@.len() == unique_samples(min_len as nat, 5));
    }
    similar_verdict(min_len, &pairs)
}

/// Data is found similar to itself exactly if it has bytes.
pub proof fn data_is_similar_to_itself(a: Seq<u8>, similar: bool)
    requires
        plausible(a, a, similar),
    ensures
        similar == (a.len() > 0),
{
    if a.len() > 32 {
        assert(a =~= a.take(a.len() as int));
        data_is_similar_to_what_continues_it(a, a, similar);
    }
}

/// Data of more than 32 bytes is always found similar to data that begins with it.
pub proof fn data_is_similar_to_what_continues_it(a: Seq<u8>, b: Seq<u8>, similar: bool)
    requires
        32 < a.len() <= b.len(),
        a == b.take(a.len() as int),
        plausible(a, b, similar),
    ensures
        similar,
{
    let min_len = a.len();
    common_beginnings_match(a, b, 5);
    assert(unique_samples(min_len, 1) == 1) by {
        reveal_with_fuel(unique_samples, 2);
    }
    assert(unique_samples(min_len, 5) >= 1) by {
        reveal_with_fuel(unique_samples, 6);
    }
}

/// Every sample of data matches the same sample of data that begins with it.
proof fn common_beginnings_match(a: Seq<u8>, b: Seq<u8>, n: nat)
    requires
        n <= 5,
        a.len() <= b.len(),
        a == b.take(a.len() as int),
    ensures
        equal_samples(a, b, n) == unique_samples(a.len(), n),
    decreases n,
{
    if n > 0 {
        common_beginnings_match(a, b, (n - 1) as nat);
        let start = sample_start(a.len(), n - 1) as int;
        assert(start + sample_len(a.len()) <= a.len());
        assert(sample(a, a.len(), n - 1) =~= sample(b, a.len(), n - 1));
    }
}

/// The answers that may be given are the same for both orders of the data.
pub proof fn possible_answers_are_symmetric(a: Seq<u8>, b: Seq<u8>, similar: bool)
    ensures
        plausible(a, b, similar) == plausible(b, a, similar),
{
    equal_samples_are_symmetric(a, b, 5);
}

/// As many samples are equal one way round as the other.
proof fn equal_samples_are_symmetric(a: Seq<u8>, b: Seq<u8>, n: nat)
    ensures
        equal_samples(a, b, n) == equal_samples(b, a, n),
    decreases n,
{
    if n > 0 {
        equal_samples_are_symmetric(a, b, (n - 1) as nat);
    }
}

/// Hashes that are swapped lead to the same verdict.
pub proof fn swapped_hashes_lead_to_the_same_verdict(
    min_len: nat,
    pairs: Seq<(u64, u64)>,
    swapped: Seq<(u64, u64)>,
)
    requires
        swapped.len() == pairs.len(),
        forall|k: int|
            0 <= k < pairs.len() ==> #[trigger] swapped[k] == (pairs[k].1, pairs[k].0),
    ensures
        verdict(min_len, equal_pairs(swapped, swapped.len() as int), swapped.len()) == verdict(
            min_len,
            equal_pairs(pairs, pairs.len() as int),
            pairs.len(),
        ),
{
    swapped_pairs_are_equal_alike(pairs, swapped, pairs.len() as int);
}

/// Swapping keeps pairs equal or unequal.
proof fn swapped_pairs_are_equal_alike(
    pairs: Seq<(u64, u64)>,
    swapped: Seq<(u64, u64)>,
    n: int,
)
    requires
        n <= pairs.len() == swapped.len(),
        forall|k: int|
            0 <= k < pairs.len() ==> #[trigger] swapped[k] == (pairs[k].1, pairs[k].0),
    ensures
        equal_pairs(swapped, n) == equal_pairs(pairs, n),
    decreases n,
{
    if n > 0 {
        swapped_pairs_are_equal_alike(pairs, swapped, n - 1);
        assert(swapped[n - 1] == (pairs[n - 1].1, pairs[n - 1].0));
    }
}

/// No more samples match than there are.
proof fn matches_are_samples(a: Seq<u8>, b: Seq<u8>, n: nat)
    ensures
        equal_samples(a, b, n) <= unique_samples(shorter(a.len(), b.len()), n),
    decreases n,
{
    if n > 0 {
        matches_are_samples(a, b, (n - 1) as nat);
    }
}

/// For any data there is an answer that may be given.
pub proof fn some_answer_is_plausible(a: Seq<u8>, b: Seq<u8>)
    ensures
        exists|similar: bool| #[trigger] plausible(a, b, similar),
{
    let min_len = shorter(a.len(), b.len());
    if min_len == 0 {
        assert(plausible(a, b, false));
    } else if min_len <= 32 {
        assert(plausible(a, b, a == b));
    } else {
        matches_are_samples(a, b, 5);
        assert(plausible(
            a,
            b,
            verdict(min_len, equal_samples(a, b, 5), unique_samples(min_len, 5)),
        ));
    }
}

/// Whether `base` can be the base of a delta for `entry`, as far as their kinds,
/// names, sizes and the deltas below the base go. The shorter of the two has to be
/// at least half as long as the longer one.
pub open spec fn can_be_base(base: Entry, entry: Entry) -> bool {
    &&& base.obj_type == entry.obj_type
    &&& base.chain_len < MAX_CHAIN_LEN
    &&& base.hash != entry.hash
    &&& 2 * shorter(base.data@.len(), entry.data@.len()) >= longer(
        base.data@.len(),
        entry.data@.len(),
    )
}

/// The rate at which `entry` can be stored as a delta against `base`, if that is
/// worth it. `similar` tells whether the data was found similar.
pub open spec fn candidate_score(
    base: Entry,
    entry: Entry,
    similar: bool,
    model: DeltaModel,
) -> Option<u64> {
    if can_be_base(base, entry) && similar {
        let rate = if (base.data@.len() + entry.data@.len()) / 2 > 64 {
            (model.heuristic_encode_rate)(base.data@, entry.data@)
        } else {
            (model.encode_rate)(base.data@, entry.data@)
        };
        if rate > MIN_DELTA_RATE {
            Some(rate)
        } else {
            None
        }
    } else {
        None
    }
}

/// The rate at which `entry` can be stored as a delta against `base`, if that is
/// worth it.
pub fn score_delta_candidate<
    R: Fn(&[u8], &[u8]) -> u64,
    H: Fn(&[u8], &[u8]) -> u64,
    E: Fn(&[u8], &[u8]) -> Vec<u8>,
    D: Fn(&[u8], &[u8]) -> Result<Vec<u8>, String>,
>(base: &Entry, entry: &Entry, codec: &DeltaCodec<R, H, E, D>) -> (r: Option<u64>)
    requires
        codec.total(),
    ensures
        exists|similar: bool| #[trigger]
            plausible(base.data@, entry.data@, similar) && forall|model: DeltaModel| #[trigger]
                codec.follows(model) ==> r == candidate_score(*base, *entry, similar, model),
        can_be_base(*base, *entry) ==> exists|similar: bool| #[trigger]
            rests_on_hashes(base.data@, entry.data@, similar) && plausible(
                base.data@,
                entry.data@,
                similar,
            ) && forall|model: DeltaModel| #[trigger]
                codec.follows(model) ==> r == candidate_score(*base, *entry, similar, model),
        r matches Some(rate) ==> can_be_base(*base, *entry) && rate > MIN_DELTA_RATE,
{
    proof {
        some_answer_is_plausible(base.data@, entry.data@);
    }
    if base.obj_type != entry.obj_type {
        return None;
    }
    if base.chain_len >= MAX_CHAIN_LEN {
        return None;
    }
    if base.hash == entry.hash {
        return None;
    }
    let base_len: usize = base.data.len();
    let entry_len: usize = entry.data.len();
    let (min_len, max_len): (usize, usize) = if base_len <= entry_len {
        (base_len, entry_len)
    } else {
        (entry_len, base_len)
    };
    if min_len < max_len - min_len {
        return None;
    }
    let similar = cheap_similar(base.data.as_slice(), entry.data.as_slice());
    if !similar {
        return None;
    }
    let rate: u64 = if base_len >= 130 || base_len + entry_len >= 130 {
        codec.heuristic_rate(base.data.as_slice(), entry.data.as_slice())
    } else {
        codec.rate(base.data.as_slice(), entry.data.as_slice())
    };
    if rate > MIN_DELTA_RATE {
        Some(rate)
    } else {
        None
    }
}

/// Whether a candidate with this rate and this many deltas below it is a better
/// base than the best one so far. A clearly higher rate decides; of tied rates the
/// one with fewer deltas below it is better.
pub open spec fn is_better(rate: u64, chain_len: nat, best_rate: u64, best_chain_len: nat) -> bool {
    ||| rate > best_rate + CLEARLY_BETTER
    ||| {
        &&& rate - best_rate <= TIE_EPSILON
        &&& best_rate - rate <= TIE_EPSILON
        &&& chain_len < best_chain_len
    }
}

/// Whether `base` is a better base than `best_base`.
pub fn candidate_is_better(rate: u64, base: &Entry, best_rate: u64, best_base: &Entry) -> (r: bool)
    ensures
        r == is_better(rate, base.chain_len as nat, best_rate, best_base.chain_len as nat),
{
    if rate >= best_rate {
        let above: u64 = rate - best_rate;
        above > CLEARLY_BETTER || (above <= TIE_EPSILON && base.chain_len < best_base.chain_len)
    } else {
        best_rate - rate <= TIE_EPSILON && base.chain_len < best_base.chain_len
    }
}

/// The bytes of both sides that stand at a quarter of what can be the start of a sample:
/// as many as the shorter side has, but no more than 64.
pub open spec fn at_quarter(a: Seq<u8>, b: Seq<u8>, k: int) -> (Seq<u8>, Seq<u8>) {
    let min_len = if a.len() <= b.len() {
        a.len() as int
    } else {
        b.len() as int
    };
    let len = if min_len <= 64 {
        min_len
    } else {
        64
    };
    let start = k * (min_len - len) / 4;
    (a.subrange(start, start + len), b.subrange(start, start + len))
}

/// One if both sides are the same at the quarter, and else none.
pub open spec fn agrees_at(a: Seq<u8>, b: Seq<u8>, k: int) -> nat {
    if at_quarter(a, b, k).0 == at_quarter(a, b, k).1 {
        1
    } else {
        0
    }
}

/// At how many of the quarters both sides are the same.
pub open spec fn quarters_that_agree(a: Seq<u8>, b: Seq<u8>) -> nat {
    agrees_at(a, b, 0) + agrees_at(a, b, 1) + agrees_at(a, b, 2) + agrees_at(a, b, 3) + agrees_at(
        a,
        b,
        4,
    )
}

/// The samples are those at the quarters.
proof fn samples_stand_at_quarters(a: Seq<u8>, b: Seq<u8>, k: int)
    requires
        0 <= k < 5,
        3 * shorter(a.len(), b.len()) <= usize::MAX,
    ensures
        ({
            let min_len = shorter(a.len(), b.len());
            at_quarter(a, b, k) == (sample(a, min_len, k), sample(b, min_len, k))
        }),
{
    let min_len = shorter(a.len(), b.len());
    let max_start = min_len - sample_len(min_len);
    let product = k * max_start;
    assert(product == if k == 0 {
        0
    } else if k == 1 {
        max_start
    } else if k == 2 {
        2 * max_start
    } else if k == 3 {
        3 * max_start
    } else {
        4 * max_start
    }) by (nonlinear_arith)
        requires
            0 <= k < 5,
            product == k * max_start,
    ;
    assert(product / 4 == sample_start(min_len, k));
}

/// What makes data of more than 32 bytes similar. In short data both sides have to be the
/// same at one of the quarters, in data from 512 bytes on at three of the five. Then they
/// are found similar; otherwise that they are not is an answer that may be given, and is
/// given unless different samples have the same hash.
pub proof fn quarters_decide(a: Seq<u8>, b: Seq<u8>)
    requires
        a.len() > 32,
        b.len() > 32,
        3 * shorter(a.len(), b.len()) <= usize::MAX,
    ensures
        a.len() < 512 || b.len() < 512 ==> plausible(a, b, quarters_that_agree(a, b) > 0),
        a.len() < 512 || b.len() < 512 ==> (quarters_that_agree(a, b) > 0 ==> !plausible(
            a,
            b,
            false,
        )),
        a.len() >= 512 && b.len() >= 512 ==> plausible(a, b, quarters_that_agree(a, b) >= 3),
        a.len() >= 512 && b.len() >= 512 ==> (quarters_that_agree(a, b) >= 3 ==> !plausible(
            a,
            b,
            false,
        )),
{
    let min_len = shorter(a.len(), b.len());
    reveal_with_fuel(equal_samples, 6);
    reveal_with_fuel(unique_samples, 6);
    samples_stand_at_quarters(a, b, 0);
    samples_stand_at_quarters(a, b, 1);
    samples_stand_at_quarters(a, b, 2);
    samples_stand_at_quarters(a, b, 3);
    samples_stand_at_quarters(a, b, 4);
    matches_are_samples(a, b, 5);
    let matches = equal_samples(a, b, 5);
    let unique = unique_samples(min_len, 5);
    assert(min_len < 512 ==> (matches > 0 <==> quarters_that_agree(a, b) > 0));
    if min_len >= 512 {
        assert(unique == 5 && matches == quarters_that_agree(a, b));
    }
    assert(plausible(a, b, verdict(min_len, matches, unique)));
}

/// The samples that are cut are exactly those at the quarters.
pub proof fn samples_are_cut_at_the_quarters(a: Seq<u8>, b: Seq<u8>, n: nat)
    requires
        n <= 5,
        3 * shorter(a.len(), b.len()) <= usize::MAX,
    ensures
        forall|k: int|
            0 <= k < n ==> different_samples(a, b, n).contains(#[trigger] at_quarter(a, b, k)),
        forall|j: int|
            0 <= j < different_samples(a, b, n).len() ==> is_at_a_quarter(
                a,
                b,
                #[trigger] different_samples(a, b, n)[j],
            ),
    decreases n,
{
    if n > 0 {
        samples_are_cut_at_the_quarters(a, b, (n - 1) as nat);
        samples_stand_at_quarters(a, b, n - 1);
        let before = different_samples(a, b, (n - 1) as nat);
        let all = different_samples(a, b, n);
        assert forall|k: int| 0 <= k < n implies all.contains(#[trigger] at_quarter(a, b, k)) by {
            if k < n - 1 {
                let j = choose|j: int| 0 <= j < before.len() && before[j] == at_quarter(a, b, k);
                assert(all[j] == at_quarter(a, b, k));
            } else if is_new_sample(shorter(a.len(), b.len()), n - 1) {
                assert(all[all.len() - 1] == at_quarter(a, b, k));
            } else {
                samples_stand_at_quarters(a, b, n - 2);
                assert(at_quarter(a, b, n - 2) == at_quarter(a, b, n - 1));
                assert(before.contains(at_quarter(a, b, n - 2)));
            }
        }
        assert forall|j: int| 0 <= j < all.len() implies is_at_a_quarter(
            a,
            b,
            #[trigger] all[j],
        ) by {
            if j < before.len() {
                assert(all[j] == before[j]);
            } else {
                assert(all[j] == at_quarter(a, b, n - 1));
            }
        }
    }
}

/// The sample stands at one of the quarters.
pub open spec fn is_at_a_quarter(a: Seq<u8>, b: Seq<u8>, both: (Seq<u8>, Seq<u8>)) -> bool {
    exists|k: int| 0 <= k < 5 && #[trigger] at_quarter(a, b, k) == both
}

/// Data of up to 32 bytes is similar exactly if it is the same and there is any.
pub proof fn short_data_is_similar_if_it_is_the_same(a: Seq<u8>, b: Seq<u8>, similar: bool)
    requires
        a.len() <= 32 || b.len() <= 32,
        plausible(a, b, similar),
    ensures
        similar <==> a == b && a.len() > 0,
{
}

/// What is concluded from the hashes of the samples: nothing is similar without a match;
/// one match is enough below 512 bytes, and from there on half of the samples have to
/// match.
pub proof fn matches_decide(min_len: nat, matches: nat, unique: nat)
    requires
        matches <= unique,
    ensures
        matches == 0 ==> !verdict(min_len, matches, unique),
        matches > 0 && min_len < 512 ==> verdict(min_len, matches, unique),
        matches > 0 && min_len >= 512 ==> (verdict(min_len, matches, unique) <==> matches >= unique
            - matches),
        unique > 0 ==> verdict(min_len, unique, unique),
{
}

/// Equal hashes are counted once for every sample.
pub proof fn equal_hashes_are_counted_once(pairs: Seq<(u64, u64)>, n: int)
    requires
        0 <= n <= pairs.len(),
    ensures
        equal_pairs(pairs, n) == pairs.take(n).filter(
            |pair: (u64, u64)| pair.0 == pair.1,
        ).len(),
    decreases n,
{
    reveal(Seq::filter);
    if n > 0 {
        equal_hashes_are_counted_once(pairs, n - 1);
        assert(pairs.take(n).drop_last() =~= pairs.take(n - 1));
    }
}

} // verus!
