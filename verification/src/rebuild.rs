//! Objects that are stored as deltas can be rebuilt.

use crate::blobs::{
    anchor_base, blob_choice, blob_layout, named_bases, scored_bases, shortest_delta, versions,
};
use crate::codec::DeltaModel;
use crate::delta::layout;
use crate::errors::ErrorView;
use crate::names::{anchor_is_the_largest, frequent_name};
use crate::object::{Entry, EntryMeta};
use crate::placement::{settled, Placed};
use crate::window::{best_delta, best_of, delta_of, window_scores, window_start, zstd_delta};
use vstd::prelude::*;

verus! {

/// The data of the object at place `k`: what is stored, or what applying the stored
/// delta to the data of the base makes of it.
pub open spec fn rebuilt(
    placed: Seq<Placed>,
    apply: spec_fn(Seq<u8>, Seq<u8>) -> Seq<u8>,
    k: int,
) -> Seq<u8>
    decreases k,
{
    match placed[k].base {
        None => placed[k].data,
        Some(j) => if 0 <= j < k {
            apply(rebuilt(placed, apply, j), placed[k].data)
        } else {
            placed[k].data
        },
    }
}

/// Applying a delta to its base gives the target back.
pub open spec fn undoes(
    model: DeltaModel,
    zstd: bool,
    apply: spec_fn(Seq<u8>, Seq<u8>) -> Seq<u8>,
) -> bool {
    if zstd {
        forall|base: Seq<u8>, target: Seq<u8>|
            #![trigger (model.zstd_diff)(base, target)]
            (model.zstd_diff)(base, target) matches Ok(delta) ==> apply(base, delta) == target
    } else {
        forall|base: Seq<u8>, target: Seq<u8>|
            apply(base, #[trigger] (model.encode)(base, target)) == target
    }
}

/// What is stored of the object at place `k` is its data, or a delta against an
/// object before it.
pub open spec fn is_stored_right(
    entries: Seq<Entry>,
    placed: Seq<Placed>,
    zstd: bool,
    model: DeltaModel,
    k: int,
) -> bool {
    match placed[k].base {
        None => placed[k].data == entries[k].data@,
        Some(j) => {
            &&& 0 <= j < k
            &&& delta_of(entries[j], entries[k], zstd, model) == Ok::<Seq<u8>, ErrorView>(
                placed[k].data,
            )
        },
    }
}

/// What is stored of all objects is right.
pub open spec fn all_stored_right(
    entries: Seq<Entry>,
    placed: Seq<Placed>,
    zstd: bool,
    model: DeltaModel,
) -> bool {
    forall|k: int|
        0 <= k < placed.len() ==> #[trigger] is_stored_right(entries, placed, zstd, model, k)
}

/// Objects that are stored right can be rebuilt.
proof fn right_objects_are_rebuilt(
    entries: Seq<Entry>,
    placed: Seq<Placed>,
    zstd: bool,
    model: DeltaModel,
    apply: spec_fn(Seq<u8>, Seq<u8>) -> Seq<u8>,
    k: int,
)
    requires
        undoes(model, zstd, apply),
        all_stored_right(entries, placed, zstd, model),
        0 <= k < placed.len(),
    ensures
        rebuilt(placed, apply, k) == entries[k].data@,
    decreases k,
{
    assert(is_stored_right(entries, placed, zstd, model, k));
    if let Some(j) = placed[k].base {
        right_objects_are_rebuilt(entries, placed, zstd, model, apply, j);
    }
}

/// The best candidate stands in the window.
proof fn best_stands_in_the_window(
    scores: Seq<Option<u64>>,
    entries: Seq<Entry>,
    lo: int,
    n: int,
)
    ensures
        best_of(scores, entries, lo, n) matches Some(k) ==> 0 <= k < n,
    decreases n,
{
    if n > 0 {
        best_stands_in_the_window(scores, entries, lo, n - 1);
    }
}

/// What is stored stays right when one more object is stored right.
proof fn one_more_is_right(
    entries: Seq<Entry>,
    placed: Seq<Placed>,
    next: Placed,
    zstd: bool,
    model: DeltaModel,
)
    requires
        all_stored_right(entries, placed, zstd, model),
        is_stored_right(entries, placed.push(next), zstd, model, placed.len() as int),
    ensures
        all_stored_right(entries, placed.push(next), zstd, model),
{
    let after = placed.push(next);
    assert forall|k: int| 0 <= k < after.len() implies #[trigger] is_stored_right(
        entries,
        after,
        zstd,
        model,
        k,
    ) by {
        if k < placed.len() {
            assert(is_stored_right(entries, placed, zstd, model, k));
            assert(after[k] == placed[k]);
        }
    }
}

/// In a layout all objects are stored right.
pub proof fn layout_is_right(
    entries: Seq<Entry>,
    n: nat,
    window_size: usize,
    zstd: bool,
    rows: Seq<Seq<bool>>,
    model: DeltaModel,
)
    requires
        n <= entries.len(),
    ensures
        layout(entries, n, window_size, zstd, rows, model) matches Ok(placed) ==> placed.len()
            == n && all_stored_right(entries, placed, zstd, model),
    decreases n,
{
    if n > 0 {
        let i = n - 1;
        layout_is_right(entries, i as nat, window_size, zstd, rows, model);
        if let Ok(after) = layout(entries, n, window_size, zstd, rows, model) {
            let placed = layout(entries, i as nat, window_size, zstd, rows, model)->Ok_0;
            let now = settled(entries, placed);
            let lo = window_start(i, window_size);
            let scores = window_scores(now, i, lo, rows[i], model);
            best_stands_in_the_window(scores, now, lo, i - lo);
            let choice = best_delta(now, i, lo, zstd, rows[i], model)->Ok_0;
            let next = after.last();
            assert(after =~= placed.push(next));
            if let Some((j, delta)) = choice {
                assert(now[j].data == entries[j].data && now[i].data == entries[i].data);
            }
            assert(is_stored_right(entries, after, zstd, model, i));
            one_more_is_right(entries, placed, next, zstd, model);
        }
    }
}

/// The versions of a file stand before the blob.
proof fn versions_stand_before(
    entries: Seq<Entry>,
    metas: Seq<EntryMeta>,
    i: int,
    lo: int,
    hi: int,
)
    requires
        0 <= lo,
        hi <= i,
    ensures
        forall|q: int|
            0 <= q < versions(entries, metas, i, lo, hi).len() ==> 0 <= #[trigger] versions(
                entries,
                metas,
                i,
                lo,
                hi,
            )[q] < i,
    decreases hi - lo,
{
    if hi > lo {
        versions_stand_before(entries, metas, i, lo, hi - 1);
        let rest = versions(entries, metas, i, lo, hi - 1);
        let all = versions(entries, metas, i, lo, hi);
        assert forall|q: int| 0 <= q < all.len() implies 0 <= #[trigger] all[q] < i by {
            if all.len() == rest.len() {
                assert(all[q] == rest[q]);
            } else if q > 0 {
                assert(all[q] == rest[q - 1]);
            }
        }
    }
}

/// The bases that are tried because of their names stand before the blob.
proof fn named_bases_stand_before(
    entries: Seq<Entry>,
    metas: Seq<EntryMeta>,
    i: int,
    lo: int,
)
    requires
        0 <= lo <= i,
    ensures
        forall|q: int|
            0 <= q < named_bases(entries, metas, i, lo).len() ==> 0 <= #[trigger] named_bases(
                entries,
                metas,
                i,
                lo,
            )[q] < i,
{
    versions_stand_before(entries, metas, i, lo, i);
    let front = versions(entries, metas, i, lo, i);
    let back = anchor_base(entries, metas, i);
    if let Some(name) = frequent_name(metas, i) {
        anchor_is_the_largest(entries, metas, name, i, 0);
    }
    let all = named_bases(entries, metas, i, lo);
    assert forall|q: int| 0 <= q < all.len() implies 0 <= #[trigger] all[q] < i by {
        if q < front.len() {
            assert(all[q] == front[q]);
        } else {
            assert(all[q] == back[q - front.len()]);
        }
    }
}

/// The bases that have a score stand before the blob.
proof fn scored_bases_stand_before(scores: Seq<Option<u64>>, lo: int, n: int)
    requires
        0 <= lo,
    ensures
        forall|q: int|
            0 <= q < scored_bases(scores, lo, n).len() ==> 0 <= #[trigger] scored_bases(
                scores,
                lo,
                n,
            )[q] < lo + n,
    decreases n,
{
    if n > 0 {
        scored_bases_stand_before(scores, lo, n - 1);
        let before = scored_bases(scores, lo, n - 1);
        let all = scored_bases(scores, lo, n);
        assert forall|q: int| 0 <= q < all.len() implies 0 <= #[trigger] all[q] < lo + n by {
            if q < before.len() {
                assert(all[q] == before[q]);
            }
        }
    }
}

/// The shortest delta is a delta against one of the bases.
proof fn shortest_is_a_delta(
    entries: Seq<Entry>,
    i: int,
    bases: Seq<int>,
    n: int,
    model: DeltaModel,
)
    requires
        n <= bases.len(),
        forall|q: int| 0 <= q < bases.len() ==> 0 <= #[trigger] bases[q] < i,
    ensures
        shortest_delta(entries, i, bases, n, model) matches Ok(Some((j, delta))) ==> 0 <= j < i
            && zstd_delta(entries[j], entries[i], model) == Ok::<Seq<u8>, ErrorView>(delta),
    decreases n,
{
    if n > 0 {
        shortest_is_a_delta(entries, i, bases, n - 1, model);
        assert(0 <= bases[n - 1] < i);
    }
}

/// What a blob is stored with is a delta against a blob before it.
proof fn blob_choice_is_a_delta(
    entries: Seq<Entry>,
    metas: Seq<EntryMeta>,
    i: int,
    lo: int,
    zstd: bool,
    row: Seq<bool>,
    model: DeltaModel,
)
    requires
        0 <= lo <= i,
    ensures
        blob_choice(entries, metas, i, lo, zstd, row, model) matches Ok(Some((j, delta)))
            ==> 0 <= j < i && delta_of(entries[j], entries[i], zstd, model) == Ok::<
            Seq<u8>,
            ErrorView,
        >(delta),
{
    let scores = window_scores(entries, i, lo, row, model);
    if zstd {
        let named = named_bases(entries, metas, i, lo);
        let scored = scored_bases(scores, lo, i - lo);
        named_bases_stand_before(entries, metas, i, lo);
        scored_bases_stand_before(scores, lo, i - lo);
        shortest_is_a_delta(entries, i, named, named.len() as int, model);
        shortest_is_a_delta(entries, i, scored, scored.len() as int, model);
    } else {
        best_stands_in_the_window(scores, entries, lo, i - lo);
    }
}

/// In a layout of blobs all of them are stored right.
pub proof fn blob_layout_is_right(
    entries: Seq<Entry>,
    metas: Seq<EntryMeta>,
    n: nat,
    window_size: usize,
    zstd: bool,
    rows: Seq<Seq<bool>>,
    model: DeltaModel,
)
    requires
        n <= entries.len(),
    ensures
        blob_layout(entries, metas, n, window_size, zstd, rows, model) matches Ok(placed)
            ==> placed.len() == n && all_stored_right(entries, placed, zstd, model),
    decreases n,
{
    if n > 0 {
        let i = n - 1;
        blob_layout_is_right(entries, metas, i as nat, window_size, zstd, rows, model);
        if let Ok(after) = blob_layout(entries, metas, n, window_size, zstd, rows, model) {
            let placed = blob_layout(
                entries,
                metas,
                i as nat,
                window_size,
                zstd,
                rows,
                model,
            )->Ok_0;
            let now = settled(entries, placed);
            let lo = window_start(i, window_size);
            blob_choice_is_a_delta(now, metas, i, lo, zstd, rows[i], model);
            let choice = blob_choice(now, metas, i, lo, zstd, rows[i], model)->Ok_0;
            let next = after.last();
            assert(after =~= placed.push(next));
            if let Some((j, delta)) = choice {
                assert(now[j].data == entries[j].data && now[i].data == entries[i].data);
            }
            assert(is_stored_right(entries, after, zstd, model, i));
            one_more_is_right(entries, placed, next, zstd, model);
        }
    }
}

/// Every object of a group can be rebuilt from what is stored, if deltas can be
/// undone.
pub proof fn objects_are_rebuilt(
    entries: Seq<Entry>,
    window_size: usize,
    zstd: bool,
    rows: Seq<Seq<bool>>,
    model: DeltaModel,
    apply: spec_fn(Seq<u8>, Seq<u8>) -> Seq<u8>,
    k: int,
)
    requires
        undoes(model, zstd, apply),
        layout(entries, entries.len(), window_size, zstd, rows, model) is Ok,
        0 <= k < entries.len(),
    ensures
        rebuilt(
            layout(entries, entries.len(), window_size, zstd, rows, model)->Ok_0,
            apply,
            k,
        ) == entries[k].data@,
{
    layout_is_right(entries, entries.len(), window_size, zstd, rows, model);
    let placed = layout(entries, entries.len(), window_size, zstd, rows, model)->Ok_0;
    right_objects_are_rebuilt(entries, placed, zstd, model, apply, k);
}

/// Every blob can be rebuilt from what is stored, if deltas can be undone.
pub proof fn blobs_are_rebuilt(
    entries: Seq<Entry>,
    metas: Seq<EntryMeta>,
    window_size: usize,
    zstd: bool,
    rows: Seq<Seq<bool>>,
    model: DeltaModel,
    apply: spec_fn(Seq<u8>, Seq<u8>) -> Seq<u8>,
    k: int,
)
    requires
        undoes(model, zstd, apply),
        blob_layout(entries, metas, entries.len(), window_size, zstd, rows, model) is Ok,
        0 <= k < entries.len(),
    ensures
        rebuilt(
            blob_layout(entries, metas, entries.len(), window_size, zstd, rows, model)->Ok_0,
            apply,
            k,
        ) == entries[k].data@,
{
    blob_layout_is_right(entries, metas, entries.len(), window_size, zstd, rows, model);
    let placed = blob_layout(
        entries,
        metas,
        entries.len(),
        window_size,
        zstd,
        rows,
        model,
    )->Ok_0;
    right_objects_are_rebuilt(entries, placed, zstd, model, apply, k);
}

} // verus!
