//! Blobs, each stored as a delta against another version of its file, against a
//! blob of the same name, or against a similar blob.

use crate::codec::{DeltaCodec, DeltaModel};
use crate::delta::{delta_kind, deltas_are};
use crate::errors::{ErrorView, GitError};
use crate::hash::ObjectHash;
use crate::names::{
    anchor, anchor_is_the_largest, basename, can_try_basename_zstdelta, count_names,
    frequent_basename, frequent_name, is_name_base, is_same_path, name_count, records_anchors,
    same_blob_path, update_anchors, BASENAME_DELTA_MIN_COUNT,
};
use crate::object::{Entry, EntryMeta, IndexEntry, ObjectType, PackEntry};
use crate::placement::{
    encoded_is_stored, is_sound, may_fail_with, outcome, outcome_of, settled, step, stored,
    Layout, Placed,
};
use crate::similarity::{plausible, MAX_CHAIN_LEN};
use crate::window::{
    best_delta, choose_best_delta, chosen_view, plausible_row, plausible_rows, score_window,
    some_row, some_row_is_plausible, some_rows, some_rows_are_plausible, start_of_window,
    window_scores, window_start, zstd_delta, zstd_delta_of,
};
use vstd::hash_map::StringHashMap;
use vstd::prelude::*;

verus! {

/// The entries without what is known of them.
pub open spec fn inners(bucket: Seq<PackEntry>) -> Seq<Entry> {
    Seq::new(bucket.len(), |k: int| bucket[k].inner)
}

/// What is known of the entries.
pub open spec fn metas_of(bucket: Seq<PackEntry>) -> Seq<EntryMeta> {
    Seq::new(bucket.len(), |k: int| bucket[k].meta)
}

/// Parts entries from what is known of them.
pub fn split_meta(bucket: Vec<PackEntry>) -> (r: (Vec<Entry>, Vec<EntryMeta>))
    ensures
        r.0@ == inners(bucket@),
        r.1@ == metas_of(bucket@),
{
    let mut entries: Vec<Entry> = Vec::with_capacity(bucket.len());
    let mut metas: Vec<EntryMeta> = Vec::with_capacity(bucket.len());
    for item in it: bucket
        invariant
            entries@ =~= inners(it.seq().take(it.index())),
            metas@ =~= metas_of(it.seq().take(it.index())),
            it.seq() == bucket@,
    {
        entries.push(item.inner);
        metas.push(item.meta);
    }
    assert(entries@ =~= inners(bucket@));
    assert(metas@ =~= metas_of(bucket@));
    (entries, metas)
}

/// Whether the entry at place `j` is an earlier version of the file that the entry
/// at place `i` belongs to, and can be its base.
pub open spec fn is_version(entries: Seq<Entry>, metas: Seq<EntryMeta>, i: int, j: int) -> bool {
    &&& is_same_path(metas[j], metas[i])
    &&& entries[j].chain_len < MAX_CHAIN_LEN
    &&& entries[j].hash != entries[i].hash
}

/// The places of the versions between `lo` and `hi`, the last one first.
pub open spec fn versions(
    entries: Seq<Entry>,
    metas: Seq<EntryMeta>,
    i: int,
    lo: int,
    hi: int,
) -> Seq<int>
    decreases hi - lo,
{
    if hi <= lo {
        Seq::empty()
    } else if is_version(entries, metas, i, hi - 1) {
        seq![hi - 1] + versions(entries, metas, i, lo, hi - 1)
    } else {
        versions(entries, metas, i, lo, hi - 1)
    }
}

/// The place of the anchor of the file name of the entry at place `i`, if a delta
/// against it is tried.
pub open spec fn anchor_base(entries: Seq<Entry>, metas: Seq<EntryMeta>, i: int) -> Seq<int> {
    match frequent_name(metas, i) {
        None => Seq::empty(),
        Some(name) => match anchor(entries, metas, name, i) {
            None => Seq::empty(),
            Some(j) => if is_name_base(entries[j], metas[j], entries[i], metas[i]) {
                seq![j]
            } else {
                Seq::empty()
            },
        },
    }
}

/// The places of the bases that are tried because of their names: the versions of
/// the file in the window, then the anchor of the file name.
pub open spec fn named_bases(
    entries: Seq<Entry>,
    metas: Seq<EntryMeta>,
    i: int,
    lo: int,
) -> Seq<int> {
    versions(entries, metas, i, lo, i) + anchor_base(entries, metas, i)
}

/// The places of the first `n` entries of the window that have a score.
pub open spec fn scored_bases(scores: Seq<Option<u64>>, lo: int, n: int) -> Seq<int>
    decreases n,
{
    if n <= 0 {
        Seq::empty()
    } else if scores[n - 1] is Some {
        scored_bases(scores, lo, n - 1).push(lo + n - 1)
    } else {
        scored_bases(scores, lo, n - 1)
    }
}

/// Places as mathematical integers.
pub open spec fn places(bases: Seq<usize>) -> Seq<int> {
    Seq::new(bases.len(), |k: int| bases[k] as int)
}

/// The base among the first `n` whose zstd delta is the shortest, and that delta.
/// Only deltas that are shorter than the entry itself count, the first of equally
/// short ones is taken, and the first delta that fails ends the search.
pub open spec fn shortest_delta(
    entries: Seq<Entry>,
    i: int,
    bases: Seq<int>,
    n: int,
    model: DeltaModel,
) -> Result<Option<(int, Seq<u8>)>, ErrorView>
    decreases n,
{
    if n <= 0 {
        Ok(None)
    } else {
        match shortest_delta(entries, i, bases, n - 1, model) {
            Err(e) => Err(e),
            Ok(best) => match zstd_delta(entries[bases[n - 1]], entries[i], model) {
                Err(e) => Err(e),
                Ok(delta) => if delta.len() < entries[i].data@.len() && (best matches Some((
                    _,
                    shortest,
                )) ==> delta.len() < shortest.len()) {
                    Ok(Some((bases[n - 1], delta)))
                } else {
                    Ok(best)
                },
            },
        }
    }
}

/// The base and the delta that a blob is stored with, if any. With zstd deltas the
/// bases that are tried because of their names go first; only where none of them
/// helps, the similar ones in the window are tried. With other deltas the best
/// candidate in the window is the base.
pub open spec fn blob_choice(
    entries: Seq<Entry>,
    metas: Seq<EntryMeta>,
    i: int,
    lo: int,
    zstd: bool,
    row: Seq<bool>,
    model: DeltaModel,
) -> Result<Option<(int, Seq<u8>)>, ErrorView> {
    if zstd {
        let named = named_bases(entries, metas, i, lo);
        match shortest_delta(entries, i, named, named.len() as int, model) {
            Err(e) => Err(e),
            Ok(Some(found)) => Ok(Some(found)),
            Ok(None) => {
                let scored = scored_bases(
                    window_scores(entries, i, lo, row, model),
                    lo,
                    i - lo,
                );
                shortest_delta(entries, i, scored, scored.len() as int, model)
            },
        }
    } else {
        best_delta(entries, i, lo, false, row, model)
    }
}

/// The first `n` blobs laid out; or the first error.
pub open spec fn blob_layout(
    entries: Seq<Entry>,
    metas: Seq<EntryMeta>,
    n: nat,
    window_size: usize,
    zstd: bool,
    rows: Seq<Seq<bool>>,
    model: DeltaModel,
) -> Result<Seq<Placed>, ErrorView>
    decreases n,
{
    if n == 0 {
        Ok(Seq::empty())
    } else {
        let i = n - 1;
        match blob_layout(entries, metas, i as nat, window_size, zstd, rows, model) {
            Err(e) => Err(e),
            Ok(placed) => match blob_choice(
                settled(entries, placed),
                metas,
                i,
                window_start(i, window_size),
                zstd,
                rows[i],
                model,
            ) {
                Err(e) => Err(e),
                Ok(choice) => step(entries, placed, choice, delta_kind(zstd)),
            },
        }
    }
}

/// Every base can be the base of the entry at place `i`.
spec fn are_bases(entries: Seq<Entry>, i: int, bases: Seq<usize>) -> bool {
    forall|k: int|
        0 <= k < bases.len() ==> {
            &&& (#[trigger] bases[k]) < i
            &&& entries[bases[k] as int].chain_len < MAX_CHAIN_LEN
            &&& entries[bases[k] as int].hash != entries[i].hash
        }
}

/// Every base stands in the window, or has the file name of the entry.
spec fn are_near(metas: Seq<EntryMeta>, i: int, lo: int, bases: Seq<usize>) -> bool {
    forall|k: int| 0 <= k < bases.len() ==> is_near(metas, i, lo, #[trigger] bases[k] as int)
}

/// The entry at place `j` stands in the window, or has the file name of the entry at
/// place `i`, and enough others have it.
pub open spec fn is_near(metas: Seq<EntryMeta>, i: int, lo: int, j: int) -> bool {
    lo <= j || (frequent_name(metas, i) is Some && basename(metas[j]) == frequent_name(metas, i))
}

/// The entry at place `j` is tried as a base for the entry at place `i` because of
/// its name: it stands at the same path, or has the same file name, and enough others
/// have it.
pub open spec fn is_namesake(metas: Seq<EntryMeta>, i: int, j: int) -> bool {
    is_same_path(metas[j], metas[i]) || (frequent_name(metas, i) is Some && basename(metas[j])
        == frequent_name(metas, i))
}

/// Every base is tried because of its name.
spec fn are_namesakes(metas: Seq<EntryMeta>, i: int, bases: Seq<usize>) -> bool {
    forall|k: int| 0 <= k < bases.len() ==> is_namesake(metas, i, #[trigger] bases[k] as int)
}

/// Lists the bases that are tried because of their names.
fn list_named_bases(
    entries: &Vec<Entry>,
    metas: &Vec<EntryMeta>,
    i: usize,
    lo: usize,
    name: &Option<String>,
    anchors: &StringHashMap<usize>,
) -> (r: Vec<usize>)
    requires
        lo <= i < entries.len() == metas.len(),
        match name {
            Some(name) => frequent_name(metas@, i as int) == Some(name@),
            None => frequent_name(metas@, i as int) is None,
        },
        records_anchors(anchors@, entries@, metas@, i as int),
    ensures
        places(r@) == named_bases(entries@, metas@, i as int, lo as int),
        are_bases(entries@, i as int, r@),
        are_near(metas@, i as int, lo as int, r@),
        are_namesakes(metas@, i as int, r@),
{
    let mut bases: Vec<usize> = Vec::new();
    let mut hi: usize = i;
    while lo < hi
        invariant
            lo <= hi <= i < entries.len() == metas.len(),
            places(bases@) + versions(entries@, metas@, i as int, lo as int, hi as int)
                =~= versions(entries@, metas@, i as int, lo as int, i as int),
            are_bases(entries@, i as int, bases@),
            are_near(metas@, i as int, lo as int, bases@),
            are_namesakes(metas@, i as int, bases@),
        decreases hi - lo,
    {
        hi -= 1;
        if same_blob_path(&metas[hi], &metas[i]) && entries[hi].chain_len < MAX_CHAIN_LEN
            && entries[hi].hash != entries[i].hash {
            let ghost before = bases@;
            bases.push(hi);
            assert(places(bases@) =~= places(before) + seq![hi as int]);
        }
    }
    let ghost before = bases@;
    if let Some(name) = name {
        proof {
            anchor_is_the_largest(entries@, metas@, name@, i as int, 0);
            assert(name_count(metas@, name@, metas@.len() as int) >= BASENAME_DELTA_MIN_COUNT);
            assert(anchors@.contains_key(name@) <==> anchor(entries@, metas@, name@, i as int)
                is Some);
        }
        if let Some(j) = anchors.get(name.as_str()) {
            if can_try_basename_zstdelta(&entries[*j], &metas[*j], &entries[i], &metas[i]) {
                bases.push(*j);
                assert(places(bases@) =~= places(before) + seq![*j as int]);
            }
        }
    }
    assert(places(bases@) =~= places(before) + anchor_base(entries@, metas@, i as int));
    bases
}

/// Lists the places in the window that have a score.
fn list_scored_bases(scores: &Vec<Option<u64>>, lo: usize) -> (r: Vec<usize>)
    requires
        lo + scores.len() <= usize::MAX,
    ensures
        places(r@) == scored_bases(scores@, lo as int, scores@.len() as int),
        forall|k: int|
            0 <= k < r.len() ==> lo <= #[trigger] r@[k] < lo + scores.len()
                && scores@[r@[k] - lo] is Some,
{
    let mut bases: Vec<usize> = Vec::new();
    let mut k: usize = 0;
    while k < scores.len()
        invariant
            k <= scores.len(),
            lo + scores.len() <= usize::MAX,
            places(bases@) =~= scored_bases(scores@, lo as int, k as int),
            forall|j: int|
                0 <= j < bases.len() ==> lo <= #[trigger] bases@[j] < lo + scores.len()
                    && scores@[bases@[j] - lo] is Some,
        decreases scores.len() - k,
    {
        if scores[k].is_some() {
            bases.push(lo + k);
        }
        k += 1;
    }
    bases
}

/// Finds the base whose zstd delta is the shortest.
fn find_shortest_delta<
    R: Fn(&[u8], &[u8]) -> u64,
    H: Fn(&[u8], &[u8]) -> u64,
    E: Fn(&[u8], &[u8]) -> Vec<u8>,
    D: Fn(&[u8], &[u8]) -> Result<Vec<u8>, String>,
>(entries: &Vec<Entry>, i: usize, bases: &Vec<usize>, codec: &DeltaCodec<R, H, E, D>) -> (r: Result<
    Option<(usize, Vec<u8>)>,
    GitError,
>)
    requires
        codec.total(),
        i < entries.len(),
        forall|k: int| 0 <= k < bases.len() ==> #[trigger] bases@[k] < i,
    ensures
        forall|model: DeltaModel| #[trigger]
            codec.follows(model) ==> chosen_view(r) == shortest_delta(
                entries@,
                i as int,
                places(bases@),
                bases@.len() as int,
                model,
            ),
        r matches Ok(Some((base, delta))) ==> bases@.contains(base) && delta@.len()
            < entries@[i as int].data@.len(),
        r matches Err(e) ==> i > 0 && e@ is Delta,
{
    let mut best: Option<(usize, Vec<u8>)> = None;
    let len: usize = entries[i].data.len();
    let mut k: usize = 0;
    while k < bases.len()
        invariant
            codec.total(),
            i < entries.len(),
            k <= bases.len(),
            len == entries@[i as int].data@.len(),
            forall|k: int| 0 <= k < bases.len() ==> #[trigger] bases@[k] < i,
            forall|model: DeltaModel| #[trigger]
                codec.follows(model) ==> chosen_view(Ok(best)) == shortest_delta(
                    entries@,
                    i as int,
                    places(bases@),
                    k as int,
                    model,
                ),
            best matches Some((base, delta)) ==> bases@.contains(base) && delta@.len() < len,
        decreases bases.len() - k,
    {
        let base: usize = bases[k];
        match zstd_delta_of(&entries[base], &entries[i], codec) {
            Ok(delta) => {
                let is_shorter = delta.len() < len && match &best {
                    Some((_, shortest)) => delta.len() < shortest.len(),
                    None => true,
                };
                if is_shorter {
                    best = Some((base, delta));
                }
            },
            Err(e) => {
                proof {
                    assert forall|model: DeltaModel| #[trigger] codec.follows(
                        model,
                    ) implies Err::<Option<(int, Seq<u8>)>, ErrorView>(e@) == shortest_delta(
                        entries@,
                        i as int,
                        places(bases@),
                        bases@.len() as int,
                        model,
                    ) by {
                        failed_deltas_stay(
                            entries@,
                            i as int,
                            places(bases@),
                            k + 1,
                            bases@.len() as int,
                            model,
                        );
                    }
                }
                return Err(e);
            },
        }
        k += 1;
    }
    Ok(best)
}

/// The first delta that fails ends the search.
proof fn failed_deltas_stay(
    entries: Seq<Entry>,
    i: int,
    bases: Seq<int>,
    n: int,
    m: int,
    model: DeltaModel,
)
    requires
        n <= m,
        shortest_delta(entries, i, bases, n, model) is Err,
    ensures
        shortest_delta(entries, i, bases, m, model) == shortest_delta(
            entries,
            i,
            bases,
            n,
            model,
        ),
    decreases m - n,
{
    if n < m {
        failed_deltas_stay(entries, i, bases, n, m - 1, model);
    }
}

/// Picks the base and the delta that a blob is stored with, if any.
fn choose_blob_delta<
    R: Fn(&[u8], &[u8]) -> u64,
    H: Fn(&[u8], &[u8]) -> u64,
    E: Fn(&[u8], &[u8]) -> Vec<u8>,
    D: Fn(&[u8], &[u8]) -> Result<Vec<u8>, String>,
>(
    entries: &Vec<Entry>,
    metas: &Vec<EntryMeta>,
    i: usize,
    lo: usize,
    zstd: bool,
    name: &Option<String>,
    anchors: &StringHashMap<usize>,
    codec: &DeltaCodec<R, H, E, D>,
) -> (r: Result<Option<(usize, Vec<u8>)>, GitError>)
    requires
        codec.total(),
        lo <= i < entries.len() == metas.len(),
        match name {
            Some(name) => frequent_name(metas@, i as int) == Some(name@),
            None => frequent_name(metas@, i as int) is None,
        },
        records_anchors(anchors@, entries@, metas@, i as int),
    ensures
        exists|row: Seq<bool>| #[trigger]
            plausible_row(entries@, i as int, row) && forall|model: DeltaModel| #[trigger]
                codec.follows(model) ==> chosen_view(r) == blob_choice(
                    entries@,
                    metas@,
                    i as int,
                    lo as int,
                    zstd,
                    row,
                    model,
                ),
        r matches Ok(Some((base, delta))) ==> {
            &&& base < i
            &&& entries@[base as int].chain_len < MAX_CHAIN_LEN
            &&& entries@[base as int].hash != entries@[i as int].hash
            &&& is_near(metas@, i as int, lo as int, base as int)
            &&& entries@[base as int].obj_type == entries@[i as int].obj_type || (zstd
                && is_namesake(metas@, i as int, base as int))
            &&& zstd ==> delta@.len() < entries@[i as int].data@.len()
        },
        r matches Err(e) ==> zstd && i > 0 && e@ is Delta,
{
    if !zstd {
        return choose_best_delta(entries, i, lo, false, codec);
    }
    let named = list_named_bases(entries, metas, i, lo, name, anchors);
    let found = find_shortest_delta(entries, i, &named, codec);
    if !matches!(found, Ok(None)) {
        proof {
            some_row_is_plausible(entries@, i as int);
            assert(plausible_row(entries@, i as int, some_row(entries@, i as int)));
        }
        return found;
    }
    let scores = score_window(entries, i, lo, codec);
    let scored = list_scored_bases(&scores, lo);
    find_shortest_delta(entries, i, &scored, codec)
}

/// All blobs are laid out soundly. Every base is near and alike, all deltas are of
/// one kind, and every zstd delta is shorter than its blob.
pub open spec fn is_blob_layout(
    entries: Seq<Entry>,
    metas: Seq<EntryMeta>,
    placed: Seq<Placed>,
    window_size: usize,
    zstd: bool,
) -> bool {
    &&& placed.len() == entries.len()
    &&& is_sound(entries, placed)
    &&& deltas_are(placed, delta_kind(zstd))
    &&& bases_are_near(metas, placed, window_size)
    &&& bases_are_alike(entries, metas, placed, zstd)
    &&& zstd ==> deltas_are_shorter(entries, placed)
}

/// Every base stands in the window of its blob, or has the same file name.
pub open spec fn bases_are_near(
    metas: Seq<EntryMeta>,
    placed: Seq<Placed>,
    window_size: usize,
) -> bool {
    forall|k: int|
        0 <= k < placed.len() ==> ((#[trigger] placed[k]).base matches Some(j) ==> is_near(
            metas,
            k,
            window_start(k, window_size),
            j,
        ))
}

/// Every base is of the same kind as the entry that is stored against it. Only bases
/// of zstd deltas that are tried because of their names are not asked for their kind.
pub open spec fn bases_are_alike(
    entries: Seq<Entry>,
    metas: Seq<EntryMeta>,
    placed: Seq<Placed>,
    zstd: bool,
) -> bool {
    forall|k: int|
        0 <= k < placed.len() ==> ((#[trigger] placed[k]).base matches Some(j)
            ==> entries[j].obj_type == entries[k].obj_type || (zstd && is_namesake(metas, k, j)))
}

/// Every delta is shorter than its blob.
pub open spec fn deltas_are_shorter(entries: Seq<Entry>, placed: Seq<Placed>) -> bool {
    forall|k: int|
        0 <= k < placed.len() ==> ((#[trigger] placed[k]).base is Some ==> placed[k].data.len()
            < entries[k].data@.len())
}

/// The objects are those of a layout of all blobs.
pub open spec fn has_blob_layout(
    objects: Seq<(Seq<u8>, ObjectHash)>,
    entries: Seq<Entry>,
    metas: Seq<EntryMeta>,
    window_size: usize,
    zstd: bool,
) -> bool {
    exists|placed: Seq<Placed>| #[trigger]
        is_blob_layout(entries, metas, placed, window_size, zstd) && objects == stored(
            entries,
            placed,
        )
}

/// What may come out of encoding blobs. It is the outcome of [`blob_layout`], for
/// some answers that the similarity test may give, if the codec follows a model, and
/// that layout is a sound one; and whatever the codec does, the objects have a sound
/// layout.
pub open spec fn is_blob_outcome<
    R: Fn(&[u8], &[u8]) -> u64,
    H: Fn(&[u8], &[u8]) -> u64,
    E: Fn(&[u8], &[u8]) -> Vec<u8>,
    D: Fn(&[u8], &[u8]) -> Result<Vec<u8>, String>,
>(
    codec: DeltaCodec<R, H, E, D>,
    entries: Seq<Entry>,
    metas: Seq<EntryMeta>,
    window_size: usize,
    zstd: bool,
    out: Result<Seq<(Seq<u8>, ObjectHash)>, ErrorView>,
) -> bool {
    &&& exists|rows: Seq<Seq<bool>>| #[trigger]
        plausible_rows(entries, rows) && forall|model: DeltaModel| #[trigger]
            codec.follows(model) ==> {
                let laid_out = blob_layout(
                    entries,
                    metas,
                    entries.len(),
                    window_size,
                    zstd,
                    rows,
                    model,
                );
                &&& out == outcome(entries, laid_out)
                &&& laid_out matches Ok(placed) ==> is_blob_layout(
                    entries,
                    metas,
                    placed,
                    window_size,
                    zstd,
                )
            }
    &&& match out {
        Ok(objects) => has_blob_layout(objects, entries, metas, window_size, zstd),
        Err(e) => may_fail_with(entries, zstd, e),
    }
}

/// For any algorithms that the codec follows, the first `n` blobs come out as
/// expected.
pub open spec fn blobs_come_to<
    R: Fn(&[u8], &[u8]) -> u64,
    H: Fn(&[u8], &[u8]) -> u64,
    E: Fn(&[u8], &[u8]) -> Vec<u8>,
    D: Fn(&[u8], &[u8]) -> Result<Vec<u8>, String>,
>(
    codec: DeltaCodec<R, H, E, D>,
    entries: Seq<Entry>,
    metas: Seq<EntryMeta>,
    n: nat,
    window_size: usize,
    zstd: bool,
    rows: Seq<Seq<bool>>,
    expected: Result<Seq<Placed>, ErrorView>,
) -> bool {
    forall|model: DeltaModel| #[trigger]
        codec.follows(model) ==> blob_layout(entries, metas, n, window_size, zstd, rows, model)
            == expected
}

/// The first blobs do not depend on the answers for later ones.
proof fn later_blobs_do_not_matter(
    entries: Seq<Entry>,
    metas: Seq<EntryMeta>,
    n: nat,
    window_size: usize,
    zstd: bool,
    rows: Seq<Seq<bool>>,
    others: Seq<Seq<bool>>,
    model: DeltaModel,
)
    requires
        forall|k: int| 0 <= k < n ==> #[trigger] rows[k] == others[k],
    ensures
        blob_layout(entries, metas, n, window_size, zstd, rows, model) == blob_layout(
            entries,
            metas,
            n,
            window_size,
            zstd,
            others,
            model,
        ),
    decreases n,
{
    if n > 0 {
        later_blobs_do_not_matter(
            entries,
            metas,
            (n - 1) as nat,
            window_size,
            zstd,
            rows,
            others,
            model,
        );
        assert(rows[n - 1] == others[n - 1]);
    }
}

/// The first error ends the work.
proof fn blob_errors_stay(
    entries: Seq<Entry>,
    metas: Seq<EntryMeta>,
    n: nat,
    m: nat,
    window_size: usize,
    zstd: bool,
    rows: Seq<Seq<bool>>,
    model: DeltaModel,
)
    requires
        n <= m,
        blob_layout(entries, metas, n, window_size, zstd, rows, model) is Err,
    ensures
        blob_layout(entries, metas, m, window_size, zstd, rows, model) == blob_layout(
            entries,
            metas,
            n,
            window_size,
            zstd,
            rows,
            model,
        ),
    decreases m,
{
    if n < m {
        blob_errors_stay(entries, metas, n, (m - 1) as nat, window_size, zstd, rows, model);
    }
}

/// The first error is what comes out of all blobs.
proof fn blob_error_ends_it<
    R: Fn(&[u8], &[u8]) -> u64,
    H: Fn(&[u8], &[u8]) -> u64,
    E: Fn(&[u8], &[u8]) -> Vec<u8>,
    D: Fn(&[u8], &[u8]) -> Result<Vec<u8>, String>,
>(
    codec: DeltaCodec<R, H, E, D>,
    entries: Seq<Entry>,
    metas: Seq<EntryMeta>,
    n: nat,
    window_size: usize,
    zstd: bool,
    rows: Seq<Seq<bool>>,
    error: ErrorView,
)
    requires
        n <= entries.len(),
        blobs_come_to(codec, entries, metas, n, window_size, zstd, rows, Err(error)),
    ensures
        blobs_come_to(codec, entries, metas, entries.len(), window_size, zstd, rows, Err(error)),
{
    assert forall|model: DeltaModel| #[trigger] codec.follows(model) implies blob_layout(
        entries,
        metas,
        entries.len(),
        window_size,
        zstd,
        rows,
        model,
    ) == Err::<Seq<Placed>, ErrorView>(error) by {
        blob_errors_stay(entries, metas, n, entries.len(), window_size, zstd, rows, model);
    }
}

/// The answers for one more blob are filled in.
proof fn one_more_blob<
    R: Fn(&[u8], &[u8]) -> u64,
    H: Fn(&[u8], &[u8]) -> u64,
    E: Fn(&[u8], &[u8]) -> Vec<u8>,
    D: Fn(&[u8], &[u8]) -> Result<Vec<u8>, String>,
>(
    codec: DeltaCodec<R, H, E, D>,
    entries: Seq<Entry>,
    metas: Seq<EntryMeta>,
    placed: Seq<Placed>,
    window_size: usize,
    zstd: bool,
    rows: Seq<Seq<bool>>,
    row: Seq<bool>,
    chosen: Result<Option<(int, Seq<u8>)>, ErrorView>,
)
    requires
        placed.len() < entries.len(),
        plausible_rows(entries, rows),
        blobs_come_to(
            codec,
            entries,
            metas,
            placed.len(),
            window_size,
            zstd,
            rows,
            Ok(placed),
        ),
        plausible_row(settled(entries, placed), placed.len() as int, row),
        forall|model: DeltaModel| #[trigger]
            codec.follows(model) ==> chosen == blob_choice(
                settled(entries, placed),
                metas,
                placed.len() as int,
                window_start(placed.len() as int, window_size),
                zstd,
                row,
                model,
            ),
    ensures
        plausible_rows(entries, rows.update(placed.len() as int, row)),
        blobs_come_to(
            codec,
            entries,
            metas,
            placed.len() + 1,
            window_size,
            zstd,
            rows.update(placed.len() as int, row),
            match chosen {
                Err(e) => Err(e),
                Ok(choice) => step(entries, placed, choice, delta_kind(zstd)),
            },
        ),
{
    let i = placed.len() as int;
    let now = settled(entries, placed);
    let filled = rows.update(i, row);
    assert forall|k: int| 0 <= k < filled.len() implies #[trigger] plausible_row(
        entries,
        k,
        filled[k],
    ) by {
        assert(plausible_row(entries, k, rows[k]));
        if k == i {
            assert forall|j: int| 0 <= j < i implies #[trigger] plausible(
                entries[j].data@,
                entries[i].data@,
                row[j],
            ) by {
                assert(plausible(now[j].data@, now[i].data@, row[j]));
            }
        }
    }
    assert forall|model: DeltaModel| #[trigger] codec.follows(model) implies blob_layout(
        entries,
        metas,
        (i + 1) as nat,
        window_size,
        zstd,
        filled,
        model,
    ) == (match chosen {
        Err(e) => Err(e),
        Ok(choice) => step(entries, placed, choice, delta_kind(zstd)),
    }) by {
        later_blobs_do_not_matter(
            entries,
            metas,
            i as nat,
            window_size,
            zstd,
            rows,
            filled,
            model,
        );
    }
}

/// Anchors depend on data and names alone.
proof fn anchors_ignore_chains(
    entries: Seq<Entry>,
    others: Seq<Entry>,
    metas: Seq<EntryMeta>,
    name: Seq<char>,
    n: int,
)
    requires
        n <= entries.len() == others.len(),
        forall|k: int| 0 <= k < entries.len() ==> (#[trigger] entries[k]).data == others[k].data,
    ensures
        anchor(entries, metas, name, n) == anchor(others, metas, name, n),
    decreases n,
{
    if n > 0 {
        anchors_ignore_chains(entries, others, metas, name, n - 1);
        anchor_is_the_largest(entries, metas, name, n - 1, 0);
        assert(entries[n - 1].data == others[n - 1].data);
        if let Some(j) = anchor(entries, metas, name, n - 1) {
            assert(entries[j].data == others[j].data);
        }
    }
}

/// Encodes blobs, each as a delta against another version of its file, a blob of
/// the same name or a similar blob where that is worth it.
///
/// See [`is_blob_outcome`] for what comes out: blobs that stand one behind the
/// other, each whole or as a delta against one of the blobs before it.
pub fn try_blobs_as_offset_delta<
    R: Fn(&[u8], &[u8]) -> u64,
    H: Fn(&[u8], &[u8]) -> u64,
    E: Fn(&[u8], &[u8]) -> Vec<u8>,
    D: Fn(&[u8], &[u8]) -> Result<Vec<u8>, String>,
>(
    bucket: Vec<PackEntry>,
    window_size: usize,
    enable_zstdelta: bool,
    codec: &DeltaCodec<R, H, E, D>,
) -> (r: Result<Vec<(Vec<u8>, IndexEntry)>, GitError>)
    requires
        codec.total(),
        forall|k: int|
            0 <= k < bucket.len() ==> !(#[trigger] bucket@[k]).inner.obj_type.is_delta(),
    ensures
        is_blob_outcome(
            *codec,
            inners(bucket@),
            metas_of(bucket@),
            window_size,
            enable_zstdelta,
            outcome_of(r),
        ),
        r matches Ok(out) ==> forall|k: int|
            0 <= k < out@.len() ==> (#[trigger] out@[k]).1.offset == 0,
{
    let ghost given = inners(bucket@);
    let (mut entries, metas) = split_meta(bucket);
    let counts = count_names(&metas);
    let mut anchors: StringHashMap<usize> = StringHashMap::new();
    let mut placing = Layout::new(Ghost(given));
    let ghost mut rows = some_rows(given);
    proof {
        some_rows_are_plausible(given);
        assert(entries@ =~= settled(given, placing.placed@));
    }
    let delta_type = if enable_zstdelta {
        ObjectType::OffsetZstdelta
    } else {
        ObjectType::OffsetDelta
    };
    let mut i: usize = 0;
    while i < entries.len()
        invariant
            codec.total(),
            given == inners(bucket@),
            metas@ == metas_of(bucket@),
            entries.len() == metas.len() == given.len() == bucket@.len(),
            i <= given.len(),
            placing.holds(given),
            placing.placed@.len() == i,
            bases_are_near(metas@, placing.placed@, window_size),
            bases_are_alike(given, metas@, placing.placed@, enable_zstdelta),
            enable_zstdelta ==> deltas_are_shorter(given, placing.placed@),
            deltas_are(placing.placed@, delta_type),
            entries@ == settled(given, placing.placed@),
            forall|k: int| 0 <= k < given.len() ==> !(#[trigger] given[k]).obj_type.is_delta(),
            delta_type == delta_kind(enable_zstdelta),
            forall|name: Seq<char>| #[trigger]
                counts@.contains_key(name) <==> name_count(metas@, name, metas@.len() as int)
                    > 0,
            forall|name: Seq<char>| #[trigger]
                counts@.contains_key(name) ==> counts@[name] == name_count(
                    metas@,
                    name,
                    metas@.len() as int,
                ),
            records_anchors(anchors@, entries@, metas@, i as int),
            plausible_rows(given, rows),
            blobs_come_to(
                *codec,
                given,
                metas@,
                i as nat,
                window_size,
                enable_zstdelta,
                rows,
                Ok(placing.placed@),
            ),
        decreases given.len() - i,
    {
        let lo: usize = start_of_window(i, window_size);
        let name = frequent_basename(&metas, i, &counts);
        let ghost placed = placing.placed@;
        let choice = choose_blob_delta(
            &entries,
            &metas,
            i,
            lo,
            enable_zstdelta,
            &name,
            &anchors,
            codec,
        );
        proof {
            let row = choose|row: Seq<bool>| #[trigger]
                plausible_row(entries@, i as int, row) && forall|model: DeltaModel| #[trigger]
                    codec.follows(model) ==> chosen_view(choice) == blob_choice(
                        entries@,
                        metas@,
                        i as int,
                        lo as int,
                        enable_zstdelta,
                        row,
                        model,
                    );
            one_more_blob(
                *codec,
                given,
                metas@,
                placed,
                window_size,
                enable_zstdelta,
                rows,
                row,
                chosen_view(choice),
            );
            rows = rows.update(i as int, row);
        }
        let choice = match choice {
            Ok(choice) => choice,
            Err(e) => {
                proof {
                    blob_error_ends_it(
                        *codec,
                        given,
                        metas@,
                        (i + 1) as nat,
                        window_size,
                        enable_zstdelta,
                        rows,
                        e@,
                    );
                }
                return Err(e);
            },
        };
        match placing.place(&entries, Ghost(given), choice, delta_type) {
            Ok(chain_len) => {
                update_anchors(&mut anchors, &entries, &metas, i, name);
                let ghost before = entries@;
                entries[i].chain_len = chain_len;
                proof {
                    assert(entries@ =~= settled(given, placing.placed@));
                    assert forall|name: Seq<char>| anchor(before, metas@, name, i + 1)
                        == #[trigger] anchor(entries@, metas@, name, i + 1) by {
                        anchors_ignore_chains(before, entries@, metas@, name, i + 1);
                    }
                }
            },
            Err(e) => {
                proof {
                    blob_error_ends_it(
                        *codec,
                        given,
                        metas@,
                        (i + 1) as nat,
                        window_size,
                        enable_zstdelta,
                        rows,
                        e@,
                    );
                }
                return Err(e);
            },
        }
        i += 1;
    }
    let out = placing.out;
    proof {
        encoded_is_stored(out@, given, placing.placed@);
        assert(is_blob_layout(given, metas@, placing.placed@, window_size, enable_zstdelta));
    }
    Ok(out)
}

} // verus!
