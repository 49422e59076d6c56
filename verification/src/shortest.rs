//! Which base a blob is stored against: the one that gives the shortest delta.

use crate::blobs::{
    anchor_base, blob_choice, blob_layout, is_version, named_bases, scored_bases, shortest_delta,
    versions,
};
use crate::choices::{
    best_score_makes_the_best_base, candidates_have_scores, chains_are_numbers, has_best_base,
    is_candidate, later_objects_do_not_matter, stores_the_delta, window_holds_the_last_objects,
};
use crate::codec::DeltaModel;
use crate::delta::delta_kind;
use crate::errors::ErrorView;
use crate::names::{
    anchor, anchor_is_the_first_of_the_largest, anchor_is_the_largest, basename,
    frequent_names_are_had_by_three, path_of, three_have, BASENAME_DELTA_MAX_ANCHOR_SIZE,
    BASENAME_DELTA_MIN_SIZE,
};
use crate::object::{Entry, EntryMeta};
use crate::path::spec_file_name;
use crate::placement::{settled, Placed};
use crate::similarity::MAX_CHAIN_LEN;
use crate::window::{diff_failed, window_scores, window_start};
use vstd::prelude::*;

verus! {

/// Where a base is chosen, all deltas could be computed, and its own is shorter than the
/// entry. None is shorter, and those of the bases before it are longer.
pub proof fn chosen_delta_is_the_shortest(
    entries: Seq<Entry>,
    i: int,
    bases: Seq<int>,
    n: int,
    model: DeltaModel,
    base: int,
    delta: Seq<u8>,
)
    requires
        0 <= n <= bases.len(),
        shortest_delta(entries, i, bases, n, model) == Ok::<Option<(int, Seq<u8>)>, ErrorView>(
            Some((base, delta)),
        ),
    ensures
        delta.len() < entries[i].data@.len(),
        exists|p: int|
            0 <= p < n && (#[trigger] bases[p]) == base && (model.zstd_diff)(
                entries[base].data@,
                entries[i].data@,
            ) == Ok::<Seq<u8>, Seq<char>>(delta) && forall|q: int|
                0 <= q < p ==> (model.zstd_diff)(
                    entries[#[trigger] bases[q]].data@,
                    entries[i].data@,
                )->Ok_0.len() > delta.len(),
        forall|q: int|
            0 <= q < n ==> {
                let other = (model.zstd_diff)(
                    entries[#[trigger] bases[q]].data@,
                    entries[i].data@,
                );
                other is Ok && other->Ok_0.len() >= delta.len()
            },
    decreases n,
{
    if n > 0 {
        let last = (model.zstd_diff)(entries[bases[n - 1]].data@, entries[i].data@);
        match shortest_delta(entries, i, bases, n - 1, model) {
            Ok(Some((b, d))) => {
                chosen_delta_is_the_shortest(entries, i, bases, n - 1, model, b, d);
                if (base, delta) != (b, d) {
                    assert(bases[n - 1] == base);
                } else if last->Ok_0.len() < d.len() {
                    assert(bases[n - 1] == base);
                }
            },
            Ok(None) => {
                without_a_choice_no_delta_is_shorter(entries, i, bases, n - 1, model);
                assert(bases[n - 1] == base);
            },
            Err(_) => {},
        }
    }
}

/// Where no base is chosen, all deltas could be computed, and none of them is shorter
/// than the entry.
pub proof fn without_a_choice_no_delta_is_shorter(
    entries: Seq<Entry>,
    i: int,
    bases: Seq<int>,
    n: int,
    model: DeltaModel,
)
    requires
        0 <= n <= bases.len(),
        shortest_delta(entries, i, bases, n, model) == Ok::<Option<(int, Seq<u8>)>, ErrorView>(
            None,
        ),
    ensures
        forall|q: int|
            0 <= q < n ==> {
                let other = (model.zstd_diff)(
                    entries[#[trigger] bases[q]].data@,
                    entries[i].data@,
                );
                other is Ok && other->Ok_0.len() >= entries[i].data@.len()
            },
    decreases n,
{
    if n > 0 {
        without_a_choice_no_delta_is_shorter(entries, i, bases, n - 1, model);
    }
}

/// Where the search fails, it is because of the first delta that could not be computed.
pub proof fn first_failure_is_reported(
    entries: Seq<Entry>,
    i: int,
    bases: Seq<int>,
    n: int,
    model: DeltaModel,
    error: ErrorView,
)
    requires
        0 <= n <= bases.len(),
        shortest_delta(entries, i, bases, n, model) == Err::<Option<(int, Seq<u8>)>, ErrorView>(
            error,
        ),
    ensures
        exists|p: int|
            0 <= p < n && (model.zstd_diff)(entries[#[trigger] bases[p]].data@, entries[i].data@)
                is Err && error == diff_failed(
                (model.zstd_diff)(entries[bases[p]].data@, entries[i].data@)->Err_0,
            ) && forall|q: int|
                0 <= q < p ==> (model.zstd_diff)(
                    entries[#[trigger] bases[q]].data@,
                    entries[i].data@,
                ) is Ok,
    decreases n,
{
    if n > 0 {
        match shortest_delta(entries, i, bases, n - 1, model) {
            Err(e) => {
                first_failure_is_reported(entries, i, bases, n - 1, model, e);
                let p = choose|p: int|
                    0 <= p < n - 1 && (model.zstd_diff)(
                        entries[#[trigger] bases[p]].data@,
                        entries[i].data@,
                    ) is Err && error == diff_failed(
                        (model.zstd_diff)(entries[bases[p]].data@, entries[i].data@)->Err_0,
                    ) && forall|q: int|
                        0 <= q < p ==> (model.zstd_diff)(
                            entries[#[trigger] bases[q]].data@,
                            entries[i].data@,
                        ) is Ok;
                assert(0 <= p < n);
            },
            Ok(Some((b, d))) => {
                chosen_delta_is_the_shortest(entries, i, bases, n - 1, model, b, d);
                assert((model.zstd_diff)(entries[bases[n - 1]].data@, entries[i].data@) is Err);
            },
            Ok(None) => {
                without_a_choice_no_delta_is_shorter(entries, i, bases, n - 1, model);
                assert((model.zstd_diff)(entries[bases[n - 1]].data@, entries[i].data@) is Err);
            },
        }
    }
}

/// The versions are exactly those between the bounds, and the later ones come first.
proof fn versions_come_last_first(
    entries: Seq<Entry>,
    metas: Seq<EntryMeta>,
    i: int,
    lo: int,
    hi: int,
)
    requires
        lo <= hi,
    ensures
        forall|p: int|
            0 <= p < versions(entries, metas, i, lo, hi).len() ==> lo <= #[trigger] versions(
                entries,
                metas,
                i,
                lo,
                hi,
            )[p] < hi && is_version(entries, metas, i, versions(entries, metas, i, lo, hi)[p]),
        forall|p: int, q: int|
            0 <= p < q < versions(entries, metas, i, lo, hi).len() ==> #[trigger] versions(
                entries,
                metas,
                i,
                lo,
                hi,
            )[p] > #[trigger] versions(entries, metas, i, lo, hi)[q],
        forall|j: int|
            lo <= j < hi && #[trigger] is_version(entries, metas, i, j) ==> versions(
                entries,
                metas,
                i,
                lo,
                hi,
            ).contains(j),
    decreases hi - lo,
{
    if lo < hi {
        versions_come_last_first(entries, metas, i, lo, hi - 1);
        let rest = versions(entries, metas, i, lo, hi - 1);
        let all = versions(entries, metas, i, lo, hi);
        if is_version(entries, metas, i, hi - 1) {
            assert forall|p: int| 0 < p < all.len() implies #[trigger] all[p] == rest[p - 1] by {}
            assert forall|p: int| 0 <= p < all.len() implies lo <= #[trigger] all[p] < hi
                && is_version(entries, metas, i, all[p]) by {
                if p > 0 {
                    assert(all[p] == rest[p - 1]);
                }
            }
            assert forall|p: int, q: int|
                0 <= p < q < all.len() implies #[trigger] all[p] > #[trigger] all[q] by {
                assert(all[q] == rest[q - 1]);
                if p > 0 {
                    assert(all[p] == rest[p - 1]);
                }
            }
            assert forall|j: int|
                lo <= j < hi && #[trigger] is_version(
                    entries,
                    metas,
                    i,
                    j,
                ) implies all.contains(j) by {
                if j == hi - 1 {
                    assert(all[0] == j);
                } else {
                    let p = choose|p: int| 0 <= p < rest.len() && rest[p] == j;
                    assert(all[p + 1] == j);
                }
            }
        }
    }
}

/// The bases with a score are exactly those, and the earlier ones come first.
proof fn scored_bases_come_first_first(scores: Seq<Option<u64>>, lo: int, n: int)
    requires
        0 <= n <= scores.len(),
    ensures
        forall|p: int|
            0 <= p < scored_bases(scores, lo, n).len() ==> lo <= #[trigger] scored_bases(
                scores,
                lo,
                n,
            )[p] < lo + n && scores[scored_bases(scores, lo, n)[p] - lo] is Some,
        forall|p: int, q: int|
            0 <= p < q < scored_bases(scores, lo, n).len() ==> #[trigger] scored_bases(
                scores,
                lo,
                n,
            )[p] < #[trigger] scored_bases(scores, lo, n)[q],
        forall|q: int|
            0 <= q < n && (#[trigger] scores[q]) is Some ==> scored_bases(scores, lo, n).contains(
                lo + q,
            ),
    decreases n,
{
    if n > 0 {
        scored_bases_come_first_first(scores, lo, n - 1);
        let before = scored_bases(scores, lo, n - 1);
        let all = scored_bases(scores, lo, n);
        if scores[n - 1] is Some {
            assert forall|p: int| 0 <= p < before.len() implies #[trigger] all[p] == before[p] by {}
            assert forall|q: int| 0 <= q < n && (#[trigger] scores[q]) is Some implies all.contains(
                lo + q,
            ) by {
                if q == n - 1 {
                    assert(all[all.len() - 1] == lo + q);
                } else {
                    let p = choose|p: int| 0 <= p < before.len() && before[p] == lo + q;
                    assert(all[p] == lo + q);
                }
            }
        }
    }
}

/// The blob at place `j` is another version of the file that the blob at place `k`
/// belongs to, and can be its base: it is one of the `window_size` blobs before it,
/// stands at the same path, has another name, and fewer than the most deltas rebuild it.
pub open spec fn is_earlier_version(
    entries: Seq<Entry>,
    metas: Seq<EntryMeta>,
    placed: Seq<Placed>,
    window_size: usize,
    j: int,
    k: int,
) -> bool {
    &&& 0 <= j < k
    &&& k - j <= window_size
    &&& path_of(metas[j]) is Some
    &&& path_of(metas[j]) == path_of(metas[k])
    &&& entries[j].hash != entries[k].hash
    &&& placed[j].chain_len < MAX_CHAIN_LEN
}

/// The file name of a blob that has a path: the last part of the path, if it is a name.
pub open spec fn file_name_of(meta: EntryMeta) -> Option<Seq<char>> {
    match path_of(meta) {
        Some(path) => spec_file_name(path),
        None => None,
    }
}

/// The blob at place `j` stands for its file name among the first `k` blobs: it is not
/// too large, and the first of the largest with the name that are not too large.
pub open spec fn stands_for_its_name(
    entries: Seq<Entry>,
    metas: Seq<EntryMeta>,
    j: int,
    k: int,
) -> bool {
    &&& 0 <= j < k
    &&& file_name_of(metas[j]) is Some
    &&& entries[j].data@.len() <= BASENAME_DELTA_MAX_ANCHOR_SIZE
    &&& forall|q: int|
        0 <= q < k && file_name_of(#[trigger] metas[q]) == file_name_of(metas[j])
            && entries[q].data@.len() <= BASENAME_DELTA_MAX_ANCHOR_SIZE ==> entries[q].data@.len()
            <= entries[j].data@.len() && (q < j ==> entries[q].data@.len()
            < entries[j].data@.len())
}

/// The blob at place `j` is tried as a base for the blob at place `k` because both have
/// one file name. At least three blobs have it, the one at place `j` stands for it, the
/// two stand at different paths and have different names, and they are alike in size.
#[verifier::opaque]
pub open spec fn is_tried_for_its_name(
    entries: Seq<Entry>,
    metas: Seq<EntryMeta>,
    placed: Seq<Placed>,
    j: int,
    k: int,
) -> bool {
    &&& stands_for_its_name(entries, metas, j, k)
    &&& file_name_of(metas[j]) == file_name_of(metas[k])
    &&& three_have(metas, file_name_of(metas[k])->0)
    &&& path_of(metas[j]) != path_of(metas[k])
    &&& entries[j].hash != entries[k].hash
    &&& placed[j].chain_len < MAX_CHAIN_LEN
    &&& entries[j].data@.len() >= BASENAME_DELTA_MIN_SIZE
    &&& entries[k].data@.len() >= BASENAME_DELTA_MIN_SIZE
    &&& 20 * entries[j].data@.len() >= 7 * entries[k].data@.len()
    &&& 20 * entries[k].data@.len() >= 7 * entries[j].data@.len()
}

/// The blob at place `j` is tried first as a base for the blob at place `k`.
pub open spec fn is_tried_first(
    entries: Seq<Entry>,
    metas: Seq<EntryMeta>,
    placed: Seq<Placed>,
    window_size: usize,
    j: int,
    k: int,
) -> bool {
    is_earlier_version(entries, metas, placed, window_size, j, k) || is_tried_for_its_name(
        entries,
        metas,
        placed,
        j,
        k,
    )
}

/// The anchor that is tried is exactly the blob that is tried for its name.
proof fn anchor_is_tried_for_its_name(
    entries: Seq<Entry>,
    metas: Seq<EntryMeta>,
    placed: Seq<Placed>,
    j: int,
)
    requires
        placed.len() < entries.len() == metas.len(),
        chains_are_numbers(placed),
    ensures
        anchor_base(settled(entries, placed), metas, placed.len() as int).len() <= 1,
        anchor_base(settled(entries, placed), metas, placed.len() as int).contains(j)
            <==> is_tried_for_its_name(entries, metas, placed, j, placed.len() as int),
{
    let k = placed.len() as int;
    let now = settled(entries, placed);
    let found = anchor_base(now, metas, k);
    reveal(is_tried_for_its_name);
    frequent_names_are_had_by_three(metas, k);
    assert(basename(metas[k]) == file_name_of(metas[k]));
    if let Some(name) = file_name_of(metas[k]) {
        anchor_is_the_largest(now, metas, name, k, 0);
        assert forall|q: int| 0 <= q < k && file_name_of(#[trigger] metas[q]) == Some(name)
            && entries[q].data@.len() <= BASENAME_DELTA_MAX_ANCHOR_SIZE implies anchor(
            now,
            metas,
            name,
            k,
        ) matches Some(a) && entries[q].data@.len() <= entries[a].data@.len() && (q < a
            ==> entries[q].data@.len() < entries[a].data@.len()) by {
            anchor_is_the_largest(now, metas, name, k, q);
            let a = anchor(now, metas, name, k)->0;
            assert(now[q].data == entries[q].data && now[a].data == entries[a].data);
            if q < a {
                anchor_is_the_first_of_the_largest(now, metas, name, k, q);
            }
        }
        if let Some(a) = anchor(now, metas, name, k) {
            assert(now[a].data == entries[a].data && now[k].data == entries[k].data);
            assert(now[a].chain_len == placed[a].chain_len) by {
                assert(placed[a].chain_len <= usize::MAX);
            }
            assert(stands_for_its_name(entries, metas, a, k));
            if is_tried_for_its_name(entries, metas, placed, j, k) {
                assert(file_name_of(metas[j]) == Some(name));
                assert(file_name_of(metas[a]) == Some(name));
                assert(j == a);
            }
            if found.len() == 1 {
                assert(found[0] == a);
            }
        } else if is_tried_for_its_name(entries, metas, placed, j, k) {
            assert(file_name_of(metas[j]) == Some(name));
        }
    }
}

/// The bases that are tried because of their names are exactly the earlier versions of
/// the file in the window and the blob that stands for the file name. Later versions go
/// before earlier ones, and all of them before that blob.
pub proof fn named_bases_are_versions_and_namesakes(
    entries: Seq<Entry>,
    metas: Seq<EntryMeta>,
    placed: Seq<Placed>,
    window_size: usize,
)
    requires
        placed.len() < entries.len() == metas.len(),
        chains_are_numbers(placed),
    ensures
        ({
            let k = placed.len() as int;
            let named = named_bases(
                settled(entries, placed),
                metas,
                k,
                window_start(k, window_size),
            );
            &&& forall|j: int|
                #![trigger named.contains(j)]
                named.contains(j) <==> is_tried_first(entries, metas, placed, window_size, j, k)
            &&& forall|p: int, q: int|
                0 <= p < q < named.len() && is_earlier_version(
                    entries,
                    metas,
                    placed,
                    window_size,
                    #[trigger] named[q],
                    k,
                ) ==> #[trigger] named[p] > named[q] && is_earlier_version(
                    entries,
                    metas,
                    placed,
                    window_size,
                    named[p],
                    k,
                )
        }),
{
    let k = placed.len() as int;
    let lo = window_start(k, window_size);
    let now = settled(entries, placed);
    let found = versions(now, metas, k, lo, k);
    let at_name = anchor_base(now, metas, k);
    let named = named_bases(now, metas, k, lo);
    reveal(is_tried_for_its_name);
    versions_come_last_first(now, metas, k, lo, k);
    assert forall|j: int| #[trigger]
        is_earlier_version(entries, metas, placed, window_size, j, k) <==> lo <= j < k
            && is_version(now, metas, k, j) by {
        if 0 <= j < k {
            window_holds_the_last_objects(k, window_size, j);
            assert(placed[j].chain_len <= usize::MAX);
            assert(now[j].hash == entries[j].hash && now[k].hash == entries[k].hash);
        }
    }
    assert forall|j: int| #[trigger] named.contains(j) <==> is_tried_first(
        entries,
        metas,
        placed,
        window_size,
        j,
        k,
    ) by {
        anchor_is_tried_for_its_name(entries, metas, placed, j);
        if named.contains(j) {
            let p = choose|p: int| 0 <= p < named.len() && named[p] == j;
            if p < found.len() {
                assert(found[p] == j);
                assert(is_earlier_version(entries, metas, placed, window_size, j, k));
            } else {
                assert(at_name[p - found.len()] == j);
                assert(at_name.contains(j));
            }
        }
        if is_earlier_version(entries, metas, placed, window_size, j, k) {
            assert(found.contains(j));
            let p = choose|p: int| 0 <= p < found.len() && found[p] == j;
            assert(named[p] == j);
        }
        if at_name.contains(j) {
            let p = choose|p: int| 0 <= p < at_name.len() && at_name[p] == j;
            assert(named[found.len() + p] == j);
        }
    }
    assert forall|p: int, q: int|
        0 <= p < q < named.len() && is_earlier_version(
            entries,
            metas,
            placed,
            window_size,
            #[trigger] named[q],
            k,
        ) implies #[trigger] named[p] > named[q] && is_earlier_version(
        entries,
        metas,
        placed,
        window_size,
        named[p],
        k,
    ) by {
        anchor_is_tried_for_its_name(entries, metas, placed, named[q]);
        if q >= found.len() {
            assert(at_name[q - found.len()] == named[q]);
            assert(at_name.contains(named[q]));
        }
        assert(found[q] == named[q] && found[p] == named[p]);
    }
}

/// The zstd delta against the blob at place `j` is shorter than the blob at place `k`.
pub open spec fn helps(entries: Seq<Entry>, model: DeltaModel, j: int, k: int) -> bool {
    (model.zstd_diff)(entries[j].data@, entries[k].data@) matches Ok(delta) && delta.len()
        < entries[k].data@.len()
}

/// The zstd delta against the blob at place `j` can be computed and has at least that
/// many bytes.
pub open spec fn takes_at_least(
    entries: Seq<Entry>,
    model: DeltaModel,
    j: int,
    k: int,
    len: nat,
) -> bool {
    (model.zstd_diff)(entries[j].data@, entries[k].data@) matches Ok(delta) && delta.len() >= len
}

/// One of the bases that are tried first helps.
pub open spec fn one_tried_first_helps(
    entries: Seq<Entry>,
    metas: Seq<EntryMeta>,
    placed: Seq<Placed>,
    window_size: usize,
    model: DeltaModel,
    k: int,
) -> bool {
    exists|j: int| #[trigger]
        is_tried_first(entries, metas, placed, window_size, j, k) && helps(entries, model, j, k)
}

/// The blob at place `k` is stored with the shortest zstd delta, or whole only if no
/// delta is shorter. The bases that are tried first come before all candidates: if one
/// of them helps, the base is one of them, and none of them gives a shorter delta; of
/// versions that give equally short deltas it is the last. Otherwise the base is a
/// candidate, and no candidate gives a shorter delta; of several it is the first.
pub open spec fn has_shortest_delta(
    entries: Seq<Entry>,
    metas: Seq<EntryMeta>,
    placed: Seq<Placed>,
    window_size: usize,
    rows: Seq<Seq<bool>>,
    model: DeltaModel,
    k: int,
) -> bool {
    match placed[k].base {
        None => {
            &&& forall|j: int| #[trigger]
                is_tried_first(entries, metas, placed, window_size, j, k) ==> takes_at_least(
                    entries,
                    model,
                    j,
                    k,
                    entries[k].data@.len(),
                )
            &&& forall|j: int| #[trigger]
                is_candidate(entries, placed, window_size, rows, model, j, k) ==> takes_at_least(
                    entries,
                    model,
                    j,
                    k,
                    entries[k].data@.len(),
                )
        },
        Some(b) => {
            &&& placed[k].data.len() < entries[k].data@.len()
            &&& if one_tried_first_helps(entries, metas, placed, window_size, model, k) {
                &&& is_tried_first(entries, metas, placed, window_size, b, k)
                &&& forall|j: int| #[trigger]
                    is_tried_first(entries, metas, placed, window_size, j, k) ==> takes_at_least(
                        entries,
                        model,
                        j,
                        k,
                        placed[k].data.len(),
                    )
                &&& forall|j: int| #[trigger]
                    is_earlier_version(entries, metas, placed, window_size, j, k) && j != b ==> (
                    is_earlier_version(entries, metas, placed, window_size, b, k) && j < b)
                        || takes_at_least(entries, model, j, k, placed[k].data.len() + 1)
            } else {
                &&& is_candidate(entries, placed, window_size, rows, model, b, k)
                &&& forall|j: int| #[trigger]
                    is_tried_first(entries, metas, placed, window_size, j, k) ==> takes_at_least(
                        entries,
                        model,
                        j,
                        k,
                        entries[k].data@.len(),
                    )
                &&& forall|j: int| #[trigger]
                    is_candidate(entries, placed, window_size, rows, model, j, k)
                        ==> takes_at_least(entries, model, j, k, placed[k].data.len()) && (j < b
                        ==> takes_at_least(entries, model, j, k, placed[k].data.len() + 1))
            }
        },
    }
}

/// The choice is the base of the list with the shortest delta, or none where no delta
/// helps.
spec fn is_shortest_of(
    entries: Seq<Entry>,
    model: DeltaModel,
    k: int,
    bases: Seq<int>,
    choice: Option<(int, Seq<u8>)>,
) -> bool {
    match choice {
        None => forall|q: int|
            0 <= q < bases.len() ==> takes_at_least(
                entries,
                model,
                #[trigger] bases[q],
                k,
                entries[k].data@.len(),
            ),
        Some((b, delta)) => {
            &&& delta.len() < entries[k].data@.len()
            &&& (model.zstd_diff)(entries[b].data@, entries[k].data@) == Ok::<
                Seq<u8>,
                Seq<char>,
            >(delta)
            &&& forall|q: int|
                0 <= q < bases.len() ==> takes_at_least(
                    entries,
                    model,
                    #[trigger] bases[q],
                    k,
                    delta.len(),
                )
            &&& exists|p: int|
                0 <= p < bases.len() && (#[trigger] bases[p]) == b && all_take_more(
                    entries,
                    model,
                    k,
                    bases,
                    p,
                    delta.len(),
                )
        },
    }
}

/// The deltas against the first `n` bases have more bytes than that.
spec fn all_take_more(
    entries: Seq<Entry>,
    model: DeltaModel,
    k: int,
    bases: Seq<int>,
    n: int,
    len: nat,
) -> bool {
    forall|q: int|
        0 <= q < n ==> takes_at_least(entries, model, #[trigger] bases[q], k, len + 1)
}

/// The numbers of deltas do not matter for the shortest delta.
proof fn search_finds_the_shortest(
    entries: Seq<Entry>,
    placed: Seq<Placed>,
    k: int,
    bases: Seq<int>,
    model: DeltaModel,
    choice: Option<(int, Seq<u8>)>,
)
    requires
        0 <= k < entries.len(),
        forall|q: int| 0 <= q < bases.len() ==> 0 <= #[trigger] bases[q] < entries.len(),
        shortest_delta(settled(entries, placed), k, bases, bases.len() as int, model) == Ok::<
            Option<(int, Seq<u8>)>,
            ErrorView,
        >(choice),
    ensures
        is_shortest_of(entries, model, k, bases, choice),
{
    let now = settled(entries, placed);
    let n = bases.len() as int;
    assert(now[k].data == entries[k].data);
    assert forall|q: int| 0 <= q < n implies now[#[trigger] bases[q]].data
        == entries[bases[q]].data by {}
    match choice {
        None => {
            without_a_choice_no_delta_is_shorter(now, k, bases, n, model);
        },
        Some((b, delta)) => {
            chosen_delta_is_the_shortest(now, k, bases, n, model, b, delta);
            let p = choose|p: int|
                0 <= p < n && (#[trigger] bases[p]) == b && (model.zstd_diff)(
                    now[b].data@,
                    now[k].data@,
                ) == Ok::<Seq<u8>, Seq<char>>(delta) && forall|q: int|
                    0 <= q < p ==> (model.zstd_diff)(
                        now[#[trigger] bases[q]].data@,
                        now[k].data@,
                    )->Ok_0.len() > delta.len();
            assert(all_take_more(entries, model, k, bases, p, delta.len()));
        },
    }
}

/// The choice among the bases that are tried first.
proof fn choice_among_the_first(
    entries: Seq<Entry>,
    metas: Seq<EntryMeta>,
    placed: Seq<Placed>,
    window_size: usize,
    model: DeltaModel,
    choice: Option<(int, Seq<u8>)>,
)
    requires
        placed.len() < entries.len() == metas.len(),
        chains_are_numbers(placed),
        ({
            let k = placed.len() as int;
            let now = settled(entries, placed);
            let named = named_bases(now, metas, k, window_start(k, window_size));
            shortest_delta(now, k, named, named.len() as int, model) == Ok::<
                Option<(int, Seq<u8>)>,
                ErrorView,
            >(choice)
        }),
    ensures
        ({
            let k = placed.len() as int;
            match choice {
                None => {
                    &&& !one_tried_first_helps(entries, metas, placed, window_size, model, k)
                    &&& forall|j: int| #[trigger]
                        is_tried_first(entries, metas, placed, window_size, j, k)
                            ==> takes_at_least(entries, model, j, k, entries[k].data@.len())
                },
                Some((b, delta)) => {
                    &&& one_tried_first_helps(entries, metas, placed, window_size, model, k)
                    &&& is_tried_first(entries, metas, placed, window_size, b, k)
                    &&& delta.len() < entries[k].data@.len()
                    &&& (model.zstd_diff)(entries[b].data@, entries[k].data@) == Ok::<
                        Seq<u8>,
                        Seq<char>,
                    >(delta)
                    &&& forall|j: int| #[trigger]
                        is_tried_first(entries, metas, placed, window_size, j, k)
                            ==> takes_at_least(entries, model, j, k, delta.len())
                    &&& forall|j: int| #[trigger]
                        is_earlier_version(entries, metas, placed, window_size, j, k) && j != b
                            ==> (is_earlier_version(entries, metas, placed, window_size, b, k) && j
                            < b) || takes_at_least(entries, model, j, k, delta.len() + 1)
                },
            }
        }),
{
    let k = placed.len() as int;
    let lo = window_start(k, window_size);
    let named = named_bases(settled(entries, placed), metas, k, lo);
    named_bases_are_versions_and_namesakes(entries, metas, placed, window_size);
    assert forall|q: int| 0 <= q < named.len() implies 0 <= #[trigger] named[q] < entries.len()
        && is_tried_first(entries, metas, placed, window_size, named[q], k) by {
        assert(named.contains(named[q]));
        tried_bases_stand_before(entries, metas, placed, window_size, named[q], k);
    }
    search_finds_the_shortest(entries, placed, k, named, model, choice);
    match choice {
        None => {
            assert forall|j: int| #[trigger]
                is_tried_first(entries, metas, placed, window_size, j, k) implies takes_at_least(
                entries,
                model,
                j,
                k,
                entries[k].data@.len(),
            ) by {
                assert(named.contains(j));
                let q = choose|q: int| 0 <= q < named.len() && named[q] == j;
            }
        },
        Some((b, delta)) => {
            let p = choose|p: int|
                0 <= p < named.len() && (#[trigger] named[p]) == b && all_take_more(
                    entries,
                    model,
                    k,
                    named,
                    p,
                    delta.len(),
                );
            assert(is_tried_first(entries, metas, placed, window_size, b, k));
            assert(helps(entries, model, b, k));
            assert forall|j: int| #[trigger]
                is_tried_first(entries, metas, placed, window_size, j, k) implies takes_at_least(
                entries,
                model,
                j,
                k,
                delta.len(),
            ) by {
                assert(named.contains(j));
                let q = choose|q: int| 0 <= q < named.len() && named[q] == j;
            }
            assert forall|j: int| #[trigger]
                is_earlier_version(entries, metas, placed, window_size, j, k) && j != b implies (
            is_earlier_version(entries, metas, placed, window_size, b, k) && j < b)
                || takes_at_least(entries, model, j, k, delta.len() + 1) by {
                assert(is_tried_first(entries, metas, placed, window_size, j, k));
                assert(named.contains(j));
                let q = choose|q: int| 0 <= q < named.len() && named[q] == j;
                if q > p {
                    assert(is_earlier_version(entries, metas, placed, window_size, named[q], k));
                    assert(named[p] > named[q]);
                }
            }
        },
    }
}

/// What is tried first stands before.
proof fn tried_bases_stand_before(
    entries: Seq<Entry>,
    metas: Seq<EntryMeta>,
    placed: Seq<Placed>,
    window_size: usize,
    j: int,
    k: int,
)
    requires
        is_tried_first(entries, metas, placed, window_size, j, k),
    ensures
        0 <= j < k,
{
    reveal(is_tried_for_its_name);
}

/// The choice among the candidates.
proof fn choice_among_the_candidates(
    entries: Seq<Entry>,
    placed: Seq<Placed>,
    window_size: usize,
    rows: Seq<Seq<bool>>,
    model: DeltaModel,
    choice: Option<(int, Seq<u8>)>,
)
    requires
        placed.len() < entries.len(),
        chains_are_numbers(placed),
        ({
            let k = placed.len() as int;
            let lo = window_start(k, window_size);
            let now = settled(entries, placed);
            let scored = scored_bases(
                window_scores(now, k, lo, rows[k], model),
                lo,
                k - lo,
            );
            shortest_delta(now, k, scored, scored.len() as int, model) == Ok::<
                Option<(int, Seq<u8>)>,
                ErrorView,
            >(choice)
        }),
    ensures
        ({
            let k = placed.len() as int;
            match choice {
                None => forall|j: int| #[trigger]
                    is_candidate(entries, placed, window_size, rows, model, j, k)
                        ==> takes_at_least(entries, model, j, k, entries[k].data@.len()),
                Some((b, delta)) => {
                    &&& is_candidate(entries, placed, window_size, rows, model, b, k)
                    &&& delta.len() < entries[k].data@.len()
                    &&& (model.zstd_diff)(entries[b].data@, entries[k].data@) == Ok::<
                        Seq<u8>,
                        Seq<char>,
                    >(delta)
                    &&& forall|j: int| #[trigger]
                        is_candidate(entries, placed, window_size, rows, model, j, k)
                            ==> takes_at_least(entries, model, j, k, delta.len()) && (j < b
                            ==> takes_at_least(entries, model, j, k, delta.len() + 1))
                },
            }
        }),
{
    let k = placed.len() as int;
    let now = settled(entries, placed);
    let lo = window_start(k, window_size);
    let scores = window_scores(now, k, lo, rows[k], model);
    let scored = scored_bases(scores, lo, k - lo);
    scored_bases_come_first_first(scores, lo, k - lo);
    assert forall|j: int| #[trigger]
        is_candidate(entries, placed, window_size, rows, model, j, k) implies scored.contains(
        j,
    ) by {
        window_holds_the_last_objects(k, window_size, j);
        candidates_have_scores(entries, placed, window_size, rows, model, j);
        assert(scores[j - lo] is Some);
        assert(scored.contains(lo + (j - lo)));
    }
    assert forall|q: int| 0 <= q < scored.len() implies 0 <= #[trigger] scored[q] < entries.len()
        && is_candidate(entries, placed, window_size, rows, model, scored[q], k) by {
        candidates_have_scores(entries, placed, window_size, rows, model, scored[q]);
    }
    search_finds_the_shortest(entries, placed, k, scored, model, choice);
    match choice {
        None => {
            assert forall|j: int| #[trigger]
                is_candidate(
                    entries,
                    placed,
                    window_size,
                    rows,
                    model,
                    j,
                    k,
                ) implies takes_at_least(entries, model, j, k, entries[k].data@.len()) by {
                let q = choose|q: int| 0 <= q < scored.len() && scored[q] == j;
            }
        },
        Some((b, delta)) => {
            let p = choose|p: int|
                0 <= p < scored.len() && (#[trigger] scored[p]) == b && all_take_more(
                    entries,
                    model,
                    k,
                    scored,
                    p,
                    delta.len(),
                );
            assert forall|j: int| #[trigger]
                is_candidate(
                    entries,
                    placed,
                    window_size,
                    rows,
                    model,
                    j,
                    k,
                ) implies takes_at_least(entries, model, j, k, delta.len()) && (j < b
                ==> takes_at_least(entries, model, j, k, delta.len() + 1)) by {
                let q = choose|q: int| 0 <= q < scored.len() && scored[q] == j;
                if j < b && q > p {
                    assert(scored[p] < scored[q]);
                }
            }
        },
    }
}

/// What is tried for an object depends on the objects before it alone.
proof fn tries_ignore_later_objects(
    entries: Seq<Entry>,
    metas: Seq<EntryMeta>,
    placed: Seq<Placed>,
    longer: Seq<Placed>,
    window_size: usize,
    rows: Seq<Seq<bool>>,
    model: DeltaModel,
    k: int,
)
    requires
        0 <= k <= placed.len() <= longer.len(),
        forall|j: int| 0 <= j < k ==> #[trigger] longer[j] == placed[j],
    ensures
        forall|j: int| #[trigger]
            is_earlier_version(entries, metas, longer, window_size, j, k) == is_earlier_version(
                entries,
                metas,
                placed,
                window_size,
                j,
                k,
            ),
        forall|j: int| #[trigger]
            is_tried_first(entries, metas, longer, window_size, j, k) == is_tried_first(
                entries,
                metas,
                placed,
                window_size,
                j,
                k,
            ),
        forall|j: int| #[trigger]
            is_candidate(entries, longer, window_size, rows, model, j, k) == is_candidate(
                entries,
                placed,
                window_size,
                rows,
                model,
                j,
                k,
            ),
        one_tried_first_helps(entries, metas, longer, window_size, model, k)
            == one_tried_first_helps(entries, metas, placed, window_size, model, k),
{
    reveal(is_tried_for_its_name);
    assert forall|j: int| #[trigger]
        is_tried_first(entries, metas, longer, window_size, j, k) == is_tried_first(
            entries,
            metas,
            placed,
            window_size,
            j,
            k,
        ) by {
        if 0 <= j < k {
            assert(longer[j] == placed[j]);
        }
    }
    assert forall|j: int| #[trigger]
        is_candidate(entries, longer, window_size, rows, model, j, k) == is_candidate(
            entries,
            placed,
            window_size,
            rows,
            model,
            j,
            k,
        ) by {
        if 0 <= j < k {
            assert(longer[j] == placed[j]);
        }
    }
    assert forall|j: int| #[trigger]
        is_earlier_version(entries, metas, longer, window_size, j, k) == is_earlier_version(
            entries,
            metas,
            placed,
            window_size,
            j,
            k,
        ) by {
        if 0 <= j < k {
            assert(longer[j] == placed[j]);
        }
    }
    if one_tried_first_helps(entries, metas, longer, window_size, model, k) {
        let j = choose|j: int| #[trigger]
            is_tried_first(entries, metas, longer, window_size, j, k) && helps(
                entries,
                model,
                j,
                k,
            );
        assert(is_tried_first(entries, metas, placed, window_size, j, k));
    }
    if one_tried_first_helps(entries, metas, placed, window_size, model, k) {
        let j = choose|j: int| #[trigger]
            is_tried_first(entries, metas, placed, window_size, j, k) && helps(
                entries,
                model,
                j,
                k,
            );
        assert(is_tried_first(entries, metas, longer, window_size, j, k));
    }
}

/// The delta of a blob depends on the blobs before it alone.
proof fn later_blobs_change_nothing(
    entries: Seq<Entry>,
    metas: Seq<EntryMeta>,
    placed: Seq<Placed>,
    longer: Seq<Placed>,
    window_size: usize,
    rows: Seq<Seq<bool>>,
    model: DeltaModel,
    k: int,
)
    requires
        0 <= k < placed.len() <= longer.len(),
        longer.take(placed.len() as int) == placed,
        has_shortest_delta(entries, metas, placed, window_size, rows, model, k),
    ensures
        has_shortest_delta(entries, metas, longer, window_size, rows, model, k),
{
    assert forall|j: int| 0 <= j <= k implies #[trigger] longer[j] == placed[j] by {
        assert(longer.take(placed.len() as int)[j] == longer[j]);
    }
    tries_ignore_later_objects(
        entries,
        metas,
        placed,
        longer,
        window_size,
        rows,
        model,
        k,
    );
    assert(longer[k] == placed[k]);
}

/// The choice for the next blob stores it with the shortest delta.
proof fn choice_is_the_shortest(
    entries: Seq<Entry>,
    metas: Seq<EntryMeta>,
    placed: Seq<Placed>,
    window_size: usize,
    rows: Seq<Seq<bool>>,
    model: DeltaModel,
    choice: Option<(int, Seq<u8>)>,
    next: Placed,
)
    requires
        placed.len() < entries.len() == metas.len(),
        chains_are_numbers(placed),
        ({
            let k = placed.len() as int;
            blob_choice(
                settled(entries, placed),
                metas,
                k,
                window_start(k, window_size),
                true,
                rows[k],
                model,
            ) == Ok::<Option<(int, Seq<u8>)>, ErrorView>(choice)
        }),
        match choice {
            None => next.base is None && next.data == entries[placed.len() as int].data@,
            Some((b, delta)) => next.base == Some(b) && next.data == delta,
        },
    ensures
        has_shortest_delta(
            entries,
            metas,
            placed.push(next),
            window_size,
            rows,
            model,
            placed.len() as int,
        ),
        stores_the_delta(entries, placed.push(next), true, model, placed.len() as int),
        choice matches Some((b, _)) ==> 0 <= b < placed.len() && placed[b].chain_len
            < MAX_CHAIN_LEN,
{
    let k = placed.len() as int;
    let lo = window_start(k, window_size);
    let now = settled(entries, placed);
    let named = named_bases(now, metas, k, lo);
    let after = placed.push(next);
    tries_ignore_later_objects(entries, metas, placed, after, window_size, rows, model, k);
    reveal(is_tried_for_its_name);
    match shortest_delta(now, k, named, named.len() as int, model) {
        Ok(None) => {
            choice_among_the_first(entries, metas, placed, window_size, model, None);
            choice_among_the_candidates(entries, placed, window_size, rows, model, choice);
        },
        Ok(found) => {
            choice_among_the_first(entries, metas, placed, window_size, model, found);
        },
        Err(_) => {},
    }
}

/// A layout of blobs holds as many as were laid out, and counts their deltas.
proof fn blob_layout_counts_deltas(
    entries: Seq<Entry>,
    metas: Seq<EntryMeta>,
    n: nat,
    window_size: usize,
    zstd: bool,
    rows: Seq<Seq<bool>>,
    model: DeltaModel,
    placed: Seq<Placed>,
)
    requires
        n <= entries.len() == metas.len(),
        blob_layout(entries, metas, n, window_size, zstd, rows, model) == Ok::<
            Seq<Placed>,
            ErrorView,
        >(placed),
    ensures
        placed.len() == n,
        chains_are_numbers(placed),
    decreases n,
{
    if n > 0 {
        let i = n - 1;
        let before = blob_layout(entries, metas, i as nat, window_size, zstd, rows, model)->Ok_0;
        blob_layout_counts_deltas(
            entries,
            metas,
            i as nat,
            window_size,
            zstd,
            rows,
            model,
            before,
        );
        let choice = blob_choice(
            settled(entries, before),
            metas,
            i,
            window_start(i, window_size),
            zstd,
            rows[i],
            model,
        )->Ok_0;
        if zstd {
            choice_is_the_shortest(
                entries,
                metas,
                before,
                window_size,
                rows,
                model,
                choice,
                placed[i],
            );
        } else {
            best_score_makes_the_best_base(
                entries,
                before,
                window_size,
                rows,
                model,
                placed[i],
            );
        }
        assert forall|j: int| 0 <= j < placed.len() implies (#[trigger] placed[j]).chain_len
            <= usize::MAX by {
            if j < i {
                assert(placed[j] == before[j]);
            }
        }
    }
}

/// With zstd deltas every blob is stored with the shortest delta that is tried, and whole
/// only if none is shorter. With other deltas every blob is stored against the best
/// candidate in its window, and whole only if there is none.
pub proof fn blob_deltas_are_the_shortest(
    entries: Seq<Entry>,
    metas: Seq<EntryMeta>,
    n: nat,
    window_size: usize,
    zstd: bool,
    rows: Seq<Seq<bool>>,
    model: DeltaModel,
    placed: Seq<Placed>,
    k: int,
)
    requires
        n <= entries.len() == metas.len(),
        blob_layout(entries, metas, n, window_size, zstd, rows, model) == Ok::<
            Seq<Placed>,
            ErrorView,
        >(placed),
        0 <= k < n,
    ensures
        placed.len() == n,
        zstd ==> has_shortest_delta(entries, metas, placed, window_size, rows, model, k),
        !zstd ==> has_best_base(entries, placed, window_size, rows, model, k),
        stores_the_delta(entries, placed, zstd, model, k),
        placed[k].base is Some ==> placed[k].obj_type == delta_kind(zstd),
    decreases n,
{
    let i = n - 1;
    let before = blob_layout(entries, metas, i as nat, window_size, zstd, rows, model)->Ok_0;
    blob_layout_counts_deltas(
        entries,
        metas,
        i as nat,
        window_size,
        zstd,
        rows,
        model,
        before,
    );
    assert(placed.take(before.len() as int) =~= before);
    if k < i {
        blob_deltas_are_the_shortest(
            entries,
            metas,
            i as nat,
            window_size,
            zstd,
            rows,
            model,
            before,
            k,
        );
        if zstd {
            later_blobs_change_nothing(
                entries,
                metas,
                before,
                placed,
                window_size,
                rows,
                model,
                k,
            );
        } else {
            later_objects_do_not_matter(entries, before, placed, window_size, rows, model, k);
        }
        assert(placed[k] == before[k]);
    } else {
        assert(placed =~= before.push(placed[i]));
        if zstd {
            let choice = blob_choice(
                settled(entries, before),
                metas,
                i,
                window_start(i, window_size),
                zstd,
                rows[i],
                model,
            )->Ok_0;
            choice_is_the_shortest(
                entries,
                metas,
                before,
                window_size,
                rows,
                model,
                choice,
                placed[i],
            );
        } else {
            best_score_makes_the_best_base(
                entries,
                before,
                window_size,
                rows,
                model,
                placed[i],
            );
            let now = settled(entries, before);
            if let Some(b) = placed[i].base {
                assert(now[b].data == entries[b].data && now[i].data == entries[i].data);
            }
        }
    }
}

} // verus!
