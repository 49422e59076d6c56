//! What becomes of the groups of a pack: the order that they stand in, and the bases that
//! their objects are stored against.

use crate::blobs::{blob_layout, inners, is_blob_layout, is_blob_outcome};
use crate::choices::{group_bases_are_the_best, has_best_base, stores_the_delta};
use crate::codec::{DeltaCodec, DeltaModel};
use crate::decode::{packed_order, run_keeps_the_kinds};
use crate::delta::{is_group_outcome, is_window_layout, layout};
use crate::errors::{ErrorView, PackEncodeReason};
use crate::hash::ObjectHash;
use crate::infer::{inferred_paths, is_attached, readable_trees};
use crate::object::{Entry, EntryMeta, ObjectType, PackEntry};
use crate::order::is_sorted;
use crate::placement::{is_sound, outcome, stored, Placed};
use crate::shortest::{blob_deltas_are_the_shortest, has_shortest_delta};
use crate::window::plausible_rows;
use crate::windowed::{
    first_unsupported, grouped, is_prepared, is_run, is_windowed, joined_outcome, of_kind,
    GroupOutcome, Groups, WindowRun,
};
use vstd::prelude::*;

verus! {

/// Encoding with deltas takes all kinds but deltas and AI objects.
pub proof fn all_but_deltas_and_tasks_are_taken(kind: ObjectType)
    ensures
        is_windowed(kind) <==> !kind.is_delta() && kind != ObjectType::Task,
{
}

/// The first entry that is not taken is none that is taken, and all before it are.
pub proof fn first_unsupported_is_first(entries: Seq<PackEntry>, from: int)
    requires
        0 <= from <= entries.len(),
    ensures
        from <= first_unsupported(entries, from) <= entries.len(),
        first_unsupported(entries, from) < entries.len() ==> !is_windowed(
            entries[first_unsupported(entries, from)].inner.obj_type,
        ),
        forall|k: int|
            from <= k < first_unsupported(entries, from) ==> is_windowed(
                (#[trigger] entries[k]).inner.obj_type,
            ),
    decreases entries.len() - from,
{
    if from < entries.len() && is_windowed(entries[from].inner.obj_type) {
        first_unsupported_is_first(entries, from + 1);
    }
}

/// A group holds the entries of its kind, in the order in which they came.
pub proof fn groups_keep_the_order_of_arrival(entries: Seq<PackEntry>, kind: ObjectType)
    ensures
        of_kind(entries, kind) == entries.filter(|e: PackEntry| e.inner.obj_type == kind),
    decreases entries.len(),
{
    reveal(Seq::filter);
    if entries.len() > 0 {
        groups_keep_the_order_of_arrival(entries.drop_last(), kind);
    }
}

/// In a pack with deltas commits come first, then trees, then blobs, then tags.
pub proof fn kinds_stand_in_order<
    R: Fn(&[u8], &[u8]) -> u64,
    H: Fn(&[u8], &[u8]) -> u64,
    E: Fn(&[u8], &[u8]) -> Vec<u8>,
    D: Fn(&[u8], &[u8]) -> Result<Vec<u8>, String>,
>(
    codec: DeltaCodec<R, H, E, D>,
    entries: Seq<PackEntry>,
    window_size: usize,
    zstd: bool,
    run: WindowRun,
    i: int,
    j: int,
)
    requires
        is_run(codec, grouped(entries), window_size, zstd, run),
        0 <= i < j < packed_order(run).len(),
    ensures
        ({
            let (a, b) = (
                packed_order(run)[i].inner.obj_type,
                packed_order(run)[j].inner.obj_type,
            );
            &&& is_windowed(a)
            &&& b == ObjectType::Commit ==> a == ObjectType::Commit
            &&& b == ObjectType::Tree ==> a == ObjectType::Commit || a == ObjectType::Tree
            &&& b == ObjectType::Blob ==> a != ObjectType::Tag
        }),
{
    run_keeps_the_kinds(codec, entries, window_size, zstd, run);
    let groups = run.arranged;
    let (c, t) = (groups.commits.len(), groups.commits.len() + groups.trees.len());
    let b = t + groups.blobs.len();
    let order = packed_order(run);
    assert forall|k: int| 0 <= k < order.len() implies #[trigger] order[k].inner.obj_type == (if k
        < c {
        ObjectType::Commit
    } else if k < t {
        ObjectType::Tree
    } else if k < b {
        ObjectType::Blob
    } else {
        ObjectType::Tag
    }) by {
        if k < c {
            assert(order[k] == groups.commits[k]);
        } else if k < t {
            assert(order[k] == groups.trees[k - c]);
        } else if k < b {
            assert(order[k] == groups.blobs[k - t]);
        } else {
            assert(order[k] == groups.tags[k - b]);
        }
    }
    assert(order[i].inner.obj_type == order[i].inner.obj_type);
    assert(order[j].inner.obj_type == order[j].inner.obj_type);
}

/// The objects of a group are laid out one behind the other, each against the best base
/// in its window, for answers that the similarity test may give.
pub open spec fn are_stored_best(
    entries: Seq<Entry>,
    window_size: usize,
    zstd: bool,
    model: DeltaModel,
    objects: Seq<(Seq<u8>, ObjectHash)>,
    placed: Seq<Placed>,
    rows: Seq<Seq<bool>>,
) -> bool {
    &&& plausible_rows(entries, rows)
    &&& placed.len() == entries.len()
    &&& is_sound(entries, placed)
    &&& objects == stored(entries, placed)
    &&& forall|k: int|
        0 <= k < entries.len() ==> #[trigger] has_best_base(
            entries,
            placed,
            window_size,
            rows,
            model,
            k,
        ) && stores_the_delta(entries, placed, zstd, model, k)
}

/// The objects of a group are stored against the best bases, whatever the delta
/// algorithms are.
pub proof fn group_is_stored_best<
    R: Fn(&[u8], &[u8]) -> u64,
    H: Fn(&[u8], &[u8]) -> u64,
    E: Fn(&[u8], &[u8]) -> Vec<u8>,
    D: Fn(&[u8], &[u8]) -> Result<Vec<u8>, String>,
>(
    codec: DeltaCodec<R, H, E, D>,
    entries: Seq<Entry>,
    window_size: usize,
    zstd: bool,
    model: DeltaModel,
    objects: Seq<(Seq<u8>, ObjectHash)>,
)
    requires
        codec.follows(model),
        is_group_outcome(codec, entries, window_size, zstd, Ok(objects)),
    ensures
        exists|placed: Seq<Placed>, rows: Seq<Seq<bool>>| #[trigger]
            are_stored_best(entries, window_size, zstd, model, objects, placed, rows),
{
    let rows = choose|rows: Seq<Seq<bool>>| #[trigger]
        plausible_rows(entries, rows) && forall|model: DeltaModel| #[trigger]
            codec.follows(model) ==> {
                let laid_out = layout(entries, entries.len(), window_size, zstd, rows, model);
                &&& Ok::<Seq<(Seq<u8>, ObjectHash)>, ErrorView>(objects)
                    == outcome(entries, laid_out)
                &&& laid_out matches Ok(placed) ==> is_window_layout(
                    entries,
                    placed,
                    window_size,
                    zstd,
                )
            };
    assert(codec.follows(model));
    let placed = layout(entries, entries.len(), window_size, zstd, rows, model)->Ok_0;
    assert forall|k: int| 0 <= k < entries.len() implies #[trigger] has_best_base(
        entries,
        placed,
        window_size,
        rows,
        model,
        k,
    ) && stores_the_delta(entries, placed, zstd, model, k) by {
        group_bases_are_the_best(
            entries,
            entries.len(),
            window_size,
            zstd,
            rows,
            model,
            placed,
            k,
        );
    }
    assert(are_stored_best(entries, window_size, zstd, model, objects, placed, rows));
}

/// The blobs are laid out one behind the other, each with the shortest zstd delta, for
/// answers that the similarity test may give.
pub open spec fn are_stored_shortest(
    entries: Seq<Entry>,
    metas: Seq<EntryMeta>,
    window_size: usize,
    model: DeltaModel,
    objects: Seq<(Seq<u8>, ObjectHash)>,
    placed: Seq<Placed>,
    rows: Seq<Seq<bool>>,
) -> bool {
    &&& plausible_rows(entries, rows)
    &&& placed.len() == entries.len()
    &&& is_sound(entries, placed)
    &&& objects == stored(entries, placed)
    &&& forall|k: int|
        0 <= k < entries.len() ==> #[trigger] has_shortest_delta(
            entries,
            metas,
            placed,
            window_size,
            rows,
            model,
            k,
        ) && stores_the_delta(entries, placed, true, model, k)
}

/// Blobs are stored with the shortest zstd deltas; with other deltas they are stored
/// against the best bases, as other objects are.
pub proof fn blobs_are_stored_shortest<
    R: Fn(&[u8], &[u8]) -> u64,
    H: Fn(&[u8], &[u8]) -> u64,
    E: Fn(&[u8], &[u8]) -> Vec<u8>,
    D: Fn(&[u8], &[u8]) -> Result<Vec<u8>, String>,
>(
    codec: DeltaCodec<R, H, E, D>,
    entries: Seq<Entry>,
    metas: Seq<EntryMeta>,
    window_size: usize,
    zstd: bool,
    model: DeltaModel,
    objects: Seq<(Seq<u8>, ObjectHash)>,
)
    requires
        metas.len() == entries.len(),
        codec.follows(model),
        is_blob_outcome(codec, entries, metas, window_size, zstd, Ok(objects)),
    ensures
        zstd ==> exists|placed: Seq<Placed>, rows: Seq<Seq<bool>>| #[trigger]
            are_stored_shortest(entries, metas, window_size, model, objects, placed, rows),
        !zstd ==> exists|placed: Seq<Placed>, rows: Seq<Seq<bool>>| #[trigger]
            are_stored_best(entries, window_size, zstd, model, objects, placed, rows),
{
    let rows = choose|rows: Seq<Seq<bool>>| #[trigger]
        plausible_rows(entries, rows) && forall|model: DeltaModel| #[trigger]
            codec.follows(model) ==> {
                let laid_out = blob_layout(
                    entries,
                    metas,
                    entries.len(),
                    window_size,
                    zstd,
                    rows,
                    model,
                );
                &&& Ok::<Seq<(Seq<u8>, ObjectHash)>, ErrorView>(objects)
                    == outcome(entries, laid_out)
                &&& laid_out matches Ok(placed) ==> is_blob_layout(
                    entries,
                    metas,
                    placed,
                    window_size,
                    zstd,
                )
            };
    assert(codec.follows(model));
    let placed = blob_layout(
        entries,
        metas,
        entries.len(),
        window_size,
        zstd,
        rows,
        model,
    )->Ok_0;
    assert forall|k: int| 0 <= k < entries.len() implies (zstd ==> #[trigger] has_shortest_delta(
        entries,
        metas,
        placed,
        window_size,
        rows,
        model,
        k,
    )) && (!zstd ==> has_best_base(entries, placed, window_size, rows, model, k))
        && stores_the_delta(entries, placed, zstd, model, k) by {
        blob_deltas_are_the_shortest(
            entries,
            metas,
            entries.len(),
            window_size,
            zstd,
            rows,
            model,
            placed,
            k,
        );
    }
    if zstd {
        assert(are_stored_shortest(entries, metas, window_size, model, objects, placed, rows));
    } else {
        assert forall|k: int| 0 <= k < entries.len() implies #[trigger] has_best_base(
            entries,
            placed,
            window_size,
            rows,
            model,
            k,
        ) && stores_the_delta(entries, placed, zstd, model, k) by {
            blob_deltas_are_the_shortest(
                entries,
                metas,
                entries.len(),
                window_size,
                zstd,
                rows,
                model,
                placed,
                k,
            );
        }
        assert(are_stored_best(entries, window_size, zstd, model, objects, placed, rows));
    }
}

/// All groups are written only if none failed.
pub proof fn groups_are_written_together(
    commits: GroupOutcome,
    trees: GroupOutcome,
    blobs: GroupOutcome,
    tags: GroupOutcome,
)
    ensures
        joined_outcome(commits, trees, blobs, tags) is Ok <==> commits is Ok && trees is Ok
            && blobs is Ok && tags is Ok,
        joined_outcome(commits, trees, blobs, tags) matches Ok(objects) ==> {
            let c = commits->Ok_0.len() as int;
            let t = c + trees->Ok_0.len();
            let b = t + blobs->Ok_0.len();
            &&& objects.len() == b + tags->Ok_0.len()
            &&& objects.take(c) == commits->Ok_0
            &&& objects.subrange(c, t) == trees->Ok_0
            &&& objects.subrange(t, b) == blobs->Ok_0
            &&& objects.skip(b) == tags->Ok_0
        },
{
    if let Ok(objects) = joined_outcome(commits, trees, blobs, tags) {
        let c = commits->Ok_0.len() as int;
        let t = c + trees->Ok_0.len();
        let b = t + blobs->Ok_0.len();
        assert(objects.take(c) =~= commits->Ok_0);
        assert(objects.subrange(c, t) =~= trees->Ok_0);
        assert(objects.subrange(t, b) =~= blobs->Ok_0);
        assert(objects.skip(b) =~= tags->Ok_0);
    }
}

/// Where no delta of commits, trees or tags failed, the error of the first group that
/// failed is reported; otherwise that a task failed.
pub proof fn first_group_that_failed_is_reported(outs: Seq<GroupOutcome>, k: int)
    requires
        outs.len() == 4,
        0 <= k < 4,
        outs[k] is Err,
        forall|j: int| 0 <= j < k ==> (#[trigger] outs[j]) is Ok,
    ensures
        ({
            let reported = joined_outcome(outs[0], outs[1], outs[2], outs[3]);
            let by_task = exists|j: int|
                0 <= j < 4 && j != 2 && #[trigger] outs[j] is Err && outs[j]->Err_0 is Delta;
            &&& by_task ==> reported == Err::<Seq<(Seq<u8>, ObjectHash)>, ErrorView>(
                ErrorView::Pack(PackEncodeReason::TaskFailed),
            )
            &&& !by_task ==> reported == outs[k]
        }),
{
    let by_task = exists|j: int|
        0 <= j < 4 && j != 2 && #[trigger] outs[j] is Err && outs[j]->Err_0 is Delta;
    if by_task {
        let j = choose|j: int|
            0 <= j < 4 && j != 2 && #[trigger] outs[j] is Err && outs[j]->Err_0 is Delta;
        assert(j == 0 || j == 1 || j == 3);
    } else {
        assert(!(outs[0] is Err && outs[0]->Err_0 is Delta));
        assert(!(outs[1] is Err && outs[1]->Err_0 is Delta));
        assert(!(outs[3] is Err && outs[3]->Err_0 is Delta));
    }
}

/// The blob was one of the given ones, and has its path if one was found for it.
pub open spec fn is_one_with_its_path(
    blobs: Seq<PackEntry>,
    paths: Map<Seq<u8>, Seq<char>>,
    blob: PackEntry,
) -> bool {
    exists|j: int| 0 <= j < blobs.len() && #[trigger] is_attached(blobs[j], blob, paths)
}

/// Before they are encoded, blobs have the paths that commits and trees give to them, and
/// all groups are sorted, the blobs by these paths.
pub proof fn groups_are_sorted_with_their_paths(
    groups: Groups,
    attached: Seq<PackEntry>,
    arranged: Groups,
)
    requires
        is_prepared(groups, attached, arranged),
    ensures
        is_sorted(arranged.commits),
        is_sorted(arranged.trees),
        is_sorted(arranged.blobs),
        is_sorted(arranged.tags),
        arranged.commits.to_multiset() == groups.commits.to_multiset(),
        arranged.trees.to_multiset() == groups.trees.to_multiset(),
        arranged.tags.to_multiset() == groups.tags.to_multiset(),
        arranged.blobs.len() == groups.blobs.len(),
        forall|k: int|
            0 <= k < arranged.blobs.len() ==> is_one_with_its_path(
                groups.blobs,
                inferred_paths(
                    inners(groups.commits),
                    readable_trees(inners(groups.trees), groups.trees.len() as int),
                ),
                #[trigger] arranged.blobs[k],
            ),
{
    let paths = inferred_paths(
        inners(groups.commits),
        readable_trees(inners(groups.trees), groups.trees.len() as int),
    );
    assert forall|k: int| 0 <= k < arranged.blobs.len() implies is_one_with_its_path(
        groups.blobs,
        paths,
        #[trigger] arranged.blobs[k],
    ) by {
        vstd::seq_lib::to_multiset_contains(arranged.blobs, arranged.blobs[k]);
        assert(arranged.blobs.contains(arranged.blobs[k]));
        vstd::seq_lib::to_multiset_contains(attached, arranged.blobs[k]);
        let j = choose|j: int| 0 <= j < attached.len() && attached[j] == arranged.blobs[k];
        assert(is_attached(groups.blobs[j], attached[j], paths));
    }
}

} // verus!
