//! Reading packs: what was packed comes back.

use crate::blobs::{
    blob_layout, inners, is_blob_layout, is_blob_outcome, metas_of, named_bases, scored_bases,
    shortest_delta,
};
use crate::codec::{DeltaCodec, DeltaModel};
use crate::delta::{
    delta_kind, deltas_are, is_group_outcome, is_window_layout, kinds_agree, layout,
};
use crate::encoder::EncoderState;
use crate::errors::{ErrorView, PackEncodeReason};
use crate::hash::ObjectHash;
use crate::infer::{inferred_paths, is_attached, readable_trees};
use crate::laws::{
    chains_are_short, deltas_below, has_packed, packed_object_reads_back,
    parallel_encoding_packs_all, read_object, run_that_was_packed,
};
use crate::object::{Entry, EntryMeta, ObjectType, PackEntry};
use crate::parallel::{
    after_parallel, all_inflate, batches_take_no_ai_object, first_ai_is_first, whole,
};
use crate::placement::{
    is_sound, is_sound_at, objects_have_bytes, outcome, settled, stored, Placed,
};
use crate::rebuild::{
    all_stored_right, blob_layout_is_right, is_stored_right, layout_is_right, undoes,
};
use crate::similarity::MAX_CHAIN_LEN;
use crate::stream::{bytes_of, flat_of_both, places_are_starts, start_of};
use crate::window::{plausible_rows, window_scores, window_start};
use crate::windowed::{
    after_run, all_objects, all_of_kind, arranging_keeps_kinds, attached_blobs_are_blobs,
    first_unsupported, grouped,
    is_after_window, is_run, is_windowed, of_kind, GroupOutcome, Groups, WindowRun,
};
use vstd::prelude::*;

verus! {

/// The place among the first `n` objects of the one that starts where told.
pub open spec fn object_at(objects: Seq<(Seq<u8>, ObjectHash)>, start: int, n: int) -> Option<int>
    decreases n,
{
    if n <= 0 {
        None
    } else if start_of(bytes_of(objects), n - 1) == start {
        Some(n - 1)
    } else {
        object_at(objects, start, n - 1)
    }
}

/// What the object at place `k` is: the number of its kind and its data. An object
/// that is stored whole is read from its bytes. For a delta the distance is followed
/// back to the object that starts there, and the delta is applied to what that one is.
pub open spec fn resolved(
    objects: Seq<(Seq<u8>, ObjectHash)>,
    apply: spec_fn(Seq<u8>, Seq<u8>) -> Seq<u8>,
    k: int,
) -> Option<(u8, Seq<u8>)>
    decreases k,
{
    match read_object(objects[k].0) {
        None => None,
        Some((number, None, data)) => Some((number, data)),
        Some((_, Some(distance), delta)) => match object_at(
            objects,
            start_of(bytes_of(objects), k) - distance,
            k,
        ) {
            None => None,
            Some(j) => if 0 <= j < k {
                match resolved(objects, apply, j) {
                    None => None,
                    Some((number, base)) => Some((number, apply(base, delta))),
                }
            } else {
                None
            },
        },
    }
}

/// The object at place `k` comes back as the entry at that place: its kind, its data
/// and its name.
pub open spec fn comes_back(
    objects: Seq<(Seq<u8>, ObjectHash)>,
    entries: Seq<Entry>,
    apply: spec_fn(Seq<u8>, Seq<u8>) -> Seq<u8>,
    k: int,
) -> bool {
    &&& entries[k].obj_type.pack_number() is Some
    &&& resolved(objects, apply, k) == Some(
        (entries[k].obj_type.pack_number()->0, entries[k].data@),
    )
    &&& objects[k].1 == entries[k].hash
}

/// All objects come back as the entries.
pub open spec fn all_come_back(
    objects: Seq<(Seq<u8>, ObjectHash)>,
    entries: Seq<Entry>,
    apply: spec_fn(Seq<u8>, Seq<u8>) -> Seq<u8>,
) -> bool {
    &&& objects.len() == entries.len()
    &&& forall|k: int|
        0 <= k < objects.len() ==> #[trigger] comes_back(objects, entries, apply, k)
}

/// No object is without bytes.
pub open spec fn all_have_bytes(objects: Seq<(Seq<u8>, ObjectHash)>) -> bool {
    forall|k: int| 0 <= k < objects.len() ==> (#[trigger] objects[k]).0.len() >= 1
}

/// All entries are ones that can be stored whole.
pub open spec fn none_is_delta(entries: Seq<Entry>) -> bool {
    forall|k: int| 0 <= k < entries.len() ==> !(#[trigger] entries[k]).obj_type.is_delta()
}

/// Objects that have bytes start one behind the other.
proof fn starts_differ(objects: Seq<(Seq<u8>, ObjectHash)>, j: int, k: int)
    requires
        all_have_bytes(objects),
        0 <= j < k <= objects.len(),
    ensures
        start_of(bytes_of(objects), j) < start_of(bytes_of(objects), k),
    decreases k - j,
{
    let chunks = bytes_of(objects);
    assert(chunks.take(k).drop_last() =~= chunks.take(k - 1));
    assert(objects[k - 1].0.len() >= 1);
    if j < k - 1 {
        starts_differ(objects, j, k - 1);
    }
}

/// An object is found where it starts.
proof fn object_is_found(objects: Seq<(Seq<u8>, ObjectHash)>, j: int, n: int)
    requires
        all_have_bytes(objects),
        0 <= j < n <= objects.len(),
    ensures
        object_at(objects, start_of(bytes_of(objects), j) as int, n) == Some(j),
    decreases n,
{
    if j < n - 1 {
        starts_differ(objects, j, n - 1);
        object_is_found(objects, j, n - 1);
    }
}

/// Where the objects of a layout start that are a part of all objects.
proof fn part_starts(
    before: Seq<(Seq<u8>, ObjectHash)>,
    entries: Seq<Entry>,
    placed: Seq<Placed>,
    after: Seq<(Seq<u8>, ObjectHash)>,
    k: int,
)
    requires
        is_sound(entries, placed),
        0 <= k < placed.len(),
    ensures
        start_of(bytes_of(before + stored(entries, placed) + after), before.len() + k)
            == start_of(bytes_of(before), before.len() as int) + placed[k].start,
{
    let part = stored(entries, placed);
    let all = before + part + after;
    let head = bytes_of(before);
    assert(bytes_of(all).take(before.len() + k) =~= head + bytes_of(part).take(k));
    assert(head.take(before.len() as int) =~= head);
    flat_of_both(head, bytes_of(part).take(k));
    places_are_starts(entries, placed, k);
}

/// The objects of a sound layout come back, wherever they stand among other objects,
/// if deltas can be undone.
pub proof fn laid_out_objects_come_back(
    before: Seq<(Seq<u8>, ObjectHash)>,
    entries: Seq<Entry>,
    placed: Seq<Placed>,
    after: Seq<(Seq<u8>, ObjectHash)>,
    zstd: bool,
    model: DeltaModel,
    apply: spec_fn(Seq<u8>, Seq<u8>) -> Seq<u8>,
    k: int,
)
    requires
        is_sound(entries, placed),
        placed.len() == entries.len(),
        all_stored_right(entries, placed, zstd, model),
        kinds_agree(entries, placed),
        none_is_delta(entries),
        undoes(model, zstd, apply),
        all_have_bytes(before + stored(entries, placed) + after),
        0 <= k < entries.len(),
    ensures
        entries[k].obj_type.pack_number() is Some,
        resolved(before + stored(entries, placed) + after, apply, before.len() + k) == Some(
            (entries[k].obj_type.pack_number()->0, entries[k].data@),
        ),
    decreases k,
{
    let part = stored(entries, placed);
    let all = before + part + after;
    let it = placed[k];
    let at = before.len() + k;
    assert(is_sound_at(entries, placed, k));
    assert(is_stored_right(entries, placed, zstd, model, k));
    assert(all[at] == part[k]);
    assert(!entries[k].obj_type.is_delta());
    packed_object_reads_back(it.obj_type, it.data, it.offset);
    if let Some(j) = it.base {
        laid_out_objects_come_back(before, entries, placed, after, zstd, model, apply, j);
        part_starts(before, entries, placed, after, k);
        part_starts(before, entries, placed, after, j);
        object_is_found(all, before.len() + j, at);
        assert(entries[j].obj_type == entries[k].obj_type);
    }
}

/// Objects that are laid out have bytes.
proof fn stored_objects_have_bytes(entries: Seq<Entry>, placed: Seq<Placed>)
    ensures
        all_have_bytes(stored(entries, placed)),
{
    let objects = stored(entries, placed);
    assert forall|k: int| 0 <= k < objects.len() implies (#[trigger] objects[k]).0.len() >= 1 by {
        objects_have_bytes(placed[k]);
    }
}

/// A sound layout of all entries that is stored as the objects, and in which every
/// delta is one between its base and its entry, which are of one kind.
pub open spec fn is_faithful(
    objects: Seq<(Seq<u8>, ObjectHash)>,
    entries: Seq<Entry>,
    placed: Seq<Placed>,
    zstd: bool,
    model: DeltaModel,
) -> bool {
    &&& objects == stored(entries, placed)
    &&& placed.len() == entries.len()
    &&& is_sound(entries, placed)
    &&& all_stored_right(entries, placed, zstd, model)
    &&& kinds_agree(entries, placed)
}

/// The objects of a faithful layout come back.
proof fn faithful_objects_come_back(
    objects: Seq<(Seq<u8>, ObjectHash)>,
    entries: Seq<Entry>,
    placed: Seq<Placed>,
    zstd: bool,
    model: DeltaModel,
    apply: spec_fn(Seq<u8>, Seq<u8>) -> Seq<u8>,
)
    requires
        is_faithful(objects, entries, placed, zstd, model),
        none_is_delta(entries),
        undoes(model, zstd, apply),
    ensures
        all_come_back(objects, entries, apply),
        forall|k: int|
            0 <= k < placed.len() ==> #[trigger] deltas_below(placed, k) <= MAX_CHAIN_LEN,
{
    let none = Seq::<(Seq<u8>, ObjectHash)>::empty();
    stored_objects_have_bytes(entries, placed);
    assert(none + objects + none =~= objects);
    assert forall|k: int| 0 <= k < objects.len() implies #[trigger] comes_back(
        objects,
        entries,
        apply,
        k,
    ) by {
        laid_out_objects_come_back(none, entries, placed, none, zstd, model, apply, k);
    }
    assert forall|k: int| 0 <= k < placed.len() implies #[trigger] deltas_below(placed, k)
        <= MAX_CHAIN_LEN by {
        chains_are_short(entries, placed, k);
    }
}

/// What comes out of encoding a group has a faithful layout.
pub proof fn group_layout_is_faithful<
    R: Fn(&[u8], &[u8]) -> u64,
    H: Fn(&[u8], &[u8]) -> u64,
    E: Fn(&[u8], &[u8]) -> Vec<u8>,
    D: Fn(&[u8], &[u8]) -> Result<Vec<u8>, String>,
>(
    codec: DeltaCodec<R, H, E, D>,
    entries: Seq<Entry>,
    window_size: usize,
    zstd: bool,
    objects: Seq<(Seq<u8>, ObjectHash)>,
    model: DeltaModel,
) -> (placed: Seq<Placed>)
    requires
        is_group_outcome(codec, entries, window_size, zstd, Ok(objects)),
        codec.follows(model),
    ensures
        is_faithful(objects, entries, placed, zstd, model),
        is_window_layout(entries, placed, window_size, zstd),
{
    let out = Ok::<Seq<(Seq<u8>, ObjectHash)>, ErrorView>(objects);
    let rows = choose|rows: Seq<Seq<bool>>| #[trigger]
        plausible_rows(entries, rows) && forall|model: DeltaModel| #[trigger]
            codec.follows(model) ==> {
                let laid_out = layout(entries, entries.len(), window_size, zstd, rows, model);
                &&& out == outcome(entries, laid_out)
                &&& laid_out matches Ok(placed) ==> is_window_layout(
                    entries,
                    placed,
                    window_size,
                    zstd,
                )
            };
    layout_is_right(entries, entries.len(), window_size, zstd, rows, model);
    layout(entries, entries.len(), window_size, zstd, rows, model)->Ok_0
}

/// What comes out of encoding blobs has a faithful layout.
pub proof fn blob_layout_is_faithful<
    R: Fn(&[u8], &[u8]) -> u64,
    H: Fn(&[u8], &[u8]) -> u64,
    E: Fn(&[u8], &[u8]) -> Vec<u8>,
    D: Fn(&[u8], &[u8]) -> Result<Vec<u8>, String>,
>(
    codec: DeltaCodec<R, H, E, D>,
    entries: Seq<Entry>,
    metas: Seq<EntryMeta>,
    window_size: usize,
    zstd: bool,
    objects: Seq<(Seq<u8>, ObjectHash)>,
    model: DeltaModel,
) -> (placed: Seq<Placed>)
    requires
        is_blob_outcome(codec, entries, metas, window_size, zstd, Ok(objects)),
        codec.follows(model),
        forall|k: int|
            0 <= k < entries.len() ==> (#[trigger] entries[k]).obj_type == ObjectType::Blob,
    ensures
        is_faithful(objects, entries, placed, zstd, model),
        is_blob_layout(entries, metas, placed, window_size, zstd),
{
    let out = Ok::<Seq<(Seq<u8>, ObjectHash)>, ErrorView>(objects);
    let rows = choose|rows: Seq<Seq<bool>>| #[trigger]
        plausible_rows(entries, rows) && forall|model: DeltaModel| #[trigger]
            codec.follows(model) ==> {
                let laid_out = blob_layout(
                    entries,
                    metas,
                    entries.len(),
                    window_size,
                    zstd,
                    rows,
                    model,
                );
                &&& out == outcome(entries, laid_out)
                &&& laid_out matches Ok(placed) ==> is_blob_layout(
                    entries,
                    metas,
                    placed,
                    window_size,
                    zstd,
                )
            };
    blob_layout_is_right(entries, metas, entries.len(), window_size, zstd, rows, model);
    let placed = blob_layout(
        entries,
        metas,
        entries.len(),
        window_size,
        zstd,
        rows,
        model,
    )->Ok_0;
    assert forall|k: int| 0 <= k < placed.len() implies ((#[trigger] placed[k]).base matches Some(
        j,
    ) ==> entries[j].obj_type == entries[k].obj_type) by {
        assert(is_sound_at(entries, placed, k));
        if let Some(j) = placed[k].base {
            assert(entries[j].obj_type == ObjectType::Blob);
            assert(entries[k].obj_type == ObjectType::Blob);
        }
    }
    placed
}

/// A group that was encoded gives its entries back, if deltas can be undone: there is
/// one sound layout that is stored as the objects, each object comes back as its entry,
/// and none lies above more deltas than allowed.
pub proof fn group_gives_its_entries_back<
    R: Fn(&[u8], &[u8]) -> u64,
    H: Fn(&[u8], &[u8]) -> u64,
    E: Fn(&[u8], &[u8]) -> Vec<u8>,
    D: Fn(&[u8], &[u8]) -> Result<Vec<u8>, String>,
>(
    codec: DeltaCodec<R, H, E, D>,
    entries: Seq<Entry>,
    window_size: usize,
    zstd: bool,
    objects: Seq<(Seq<u8>, ObjectHash)>,
    model: DeltaModel,
    apply: spec_fn(Seq<u8>, Seq<u8>) -> Seq<u8>,
)
    requires
        is_group_outcome(codec, entries, window_size, zstd, Ok(objects)),
        codec.follows(model),
        undoes(model, zstd, apply),
        none_is_delta(entries),
    ensures
        all_come_back(objects, entries, apply),
        exists|placed: Seq<Placed>| #[trigger]
            is_window_layout(entries, placed, window_size, zstd) && objects == stored(
                entries,
                placed,
            ) && forall|k: int|
                0 <= k < placed.len() ==> #[trigger] deltas_below(placed, k) <= MAX_CHAIN_LEN,
{
    let placed = group_layout_is_faithful(codec, entries, window_size, zstd, objects, model);
    faithful_objects_come_back(objects, entries, placed, zstd, model, apply);
    assert(is_window_layout(entries, placed, window_size, zstd));
}

/// Blobs that were encoded are given back, if deltas can be undone: there is one sound
/// layout that is stored as the objects, each object comes back as its blob, and none
/// lies above more deltas than allowed.
pub proof fn blobs_are_given_back<
    R: Fn(&[u8], &[u8]) -> u64,
    H: Fn(&[u8], &[u8]) -> u64,
    E: Fn(&[u8], &[u8]) -> Vec<u8>,
    D: Fn(&[u8], &[u8]) -> Result<Vec<u8>, String>,
>(
    codec: DeltaCodec<R, H, E, D>,
    entries: Seq<Entry>,
    metas: Seq<EntryMeta>,
    window_size: usize,
    zstd: bool,
    objects: Seq<(Seq<u8>, ObjectHash)>,
    model: DeltaModel,
    apply: spec_fn(Seq<u8>, Seq<u8>) -> Seq<u8>,
)
    requires
        is_blob_outcome(codec, entries, metas, window_size, zstd, Ok(objects)),
        codec.follows(model),
        undoes(model, zstd, apply),
        forall|k: int|
            0 <= k < entries.len() ==> (#[trigger] entries[k]).obj_type == ObjectType::Blob,
    ensures
        all_come_back(objects, entries, apply),
        exists|placed: Seq<Placed>| #[trigger]
            is_blob_layout(entries, metas, placed, window_size, zstd) && objects == stored(
                entries,
                placed,
            ) && forall|k: int|
                0 <= k < placed.len() ==> #[trigger] deltas_below(placed, k) <= MAX_CHAIN_LEN,
{
    let placed = blob_layout_is_faithful(
        codec,
        entries,
        metas,
        window_size,
        zstd,
        objects,
        model,
    );
    faithful_objects_come_back(objects, entries, placed, zstd, model, apply);
    assert(is_blob_layout(entries, metas, placed, window_size, zstd));
}

/// Objects that were stored whole come back as their entries.
pub proof fn whole_objects_come_back(
    entries: Seq<Entry>,
    apply: spec_fn(Seq<u8>, Seq<u8>) -> Seq<u8>,
)
    requires
        all_inflate(entries),
        none_is_delta(entries),
        forall|k: int|
            0 <= k < entries.len() ==> (#[trigger] entries[k]).obj_type.pack_number() is Some,
    ensures
        all_come_back(whole(entries), entries, apply),
{
    let objects = whole(entries);
    assert forall|k: int| 0 <= k < objects.len() implies #[trigger] comes_back(
        objects,
        entries,
        apply,
        k,
    ) by {
        assert(!entries[k].obj_type.is_delta());
        packed_object_reads_back(entries[k].obj_type, entries[k].data@, None);
    }
}

/// How the object at place `k` is stored: whole, with the kind and the data of its
/// entry, or as a delta of the given kind.
pub open spec fn is_stored_as(
    objects: Seq<(Seq<u8>, ObjectHash)>,
    entries: Seq<Entry>,
    delta_type: ObjectType,
    k: int,
) -> bool {
    match read_object(objects[k].0) {
        None => false,
        Some((number, None, data)) => {
            &&& entries[k].obj_type.pack_number() == Some(number)
            &&& data == entries[k].data@
        },
        Some((number, Some(_), _)) => delta_type.pack_number() == Some(number),
    }
}

/// All objects are stored whole, or as deltas of the given kind.
pub open spec fn all_stored_as(
    objects: Seq<(Seq<u8>, ObjectHash)>,
    entries: Seq<Entry>,
    delta_type: ObjectType,
) -> bool {
    forall|k: int|
        0 <= k < objects.len() ==> #[trigger] is_stored_as(objects, entries, delta_type, k)
}

/// The objects of a sound layout are stored whole or as deltas of the one kind.
proof fn laid_out_objects_are_stored_as(
    objects: Seq<(Seq<u8>, ObjectHash)>,
    entries: Seq<Entry>,
    placed: Seq<Placed>,
    delta_type: ObjectType,
    k: int,
)
    requires
        is_sound(entries, placed),
        placed.len() == entries.len(),
        objects == stored(entries, placed),
        deltas_are(placed, delta_type),
        none_is_delta(entries),
        0 <= k < entries.len(),
    ensures
        is_stored_as(objects, entries, delta_type, k),
{
    assert(is_sound_at(entries, placed, k));
    assert(!entries[k].obj_type.is_delta());
    packed_object_reads_back(placed[k].obj_type, placed[k].data, placed[k].offset);
}

/// All entries in the order in which a run writes them.
pub open spec fn packed_order(run: WindowRun) -> Seq<PackEntry> {
    run.arranged.commits + run.arranged.trees + run.arranged.blobs + run.arranged.tags
}

/// Encoding with deltas that was begun on `s` came to its end as `t`, and what it
/// packed comes back: the objects are a complete pack with its index, every object
/// comes back as its entry and is indexed under the name of its entry, every object is
/// stored whole or as a delta of the one kind, and the entries are exactly the ones
/// that came in.
pub open spec fn packed_faithfully(
    s: EncoderState,
    t: EncoderState,
    entries: Seq<PackEntry>,
    zstd: bool,
    run: WindowRun,
    apply: spec_fn(Seq<u8>, Seq<u8>) -> Seq<u8>,
) -> bool {
    let order = inners(packed_order(run));
    &&& all_objects(run) matches Ok(objects)
    &&& has_packed(s, t, objects)
    &&& all_come_back(objects, order, apply)
    &&& all_stored_as(objects, order, delta_kind(zstd))
    &&& forall|k: int|
        0 <= k < objects.len() ==> (#[trigger] t.idx_entries->0[k]).hash == order[k].hash
    &&& order.to_multiset() == inners(entries).to_multiset()
}

/// Grouping puts every entry into the group of its kind.
proof fn groups_are_by_kind(entries: Seq<PackEntry>, kind: ObjectType)
    ensures
        all_of_kind(of_kind(entries, kind), kind),
    decreases entries.len(),
{
    if entries.len() > 0 {
        groups_are_by_kind(entries.drop_last(), kind);
    }
}

/// Entries of one kind that is no delta kind can be stored whole.
proof fn entries_of_kind(entries: Seq<PackEntry>, kind: ObjectType)
    requires
        all_of_kind(entries, kind),
        is_windowed(kind),
    ensures
        none_is_delta(inners(entries)),
        forall|k: int|
            0 <= k < entries.len() ==> (#[trigger] inners(entries)[k]).obj_type == kind,
{
    assert forall|k: int| 0 <= k < entries.len() implies (#[trigger] inners(entries)[k]).obj_type
        == kind by {
        assert(entries[k].inner.obj_type == kind);
    }
}

/// The same entries in another order have the same contents.
proof fn contents_ignore_order(a: Seq<PackEntry>, b: Seq<PackEntry>)
    requires
        a.to_multiset() == b.to_multiset(),
    ensures
        inners(a).to_multiset() == inners(b).to_multiset(),
    decreases a.len(),
{
    vstd::seq_lib::to_multiset_len(a);
    vstd::seq_lib::to_multiset_len(b);
    if a.len() == 0 {
        assert(inners(a) =~= inners(b));
    } else {
        let last = a.last();
        vstd::seq_lib::to_multiset_contains(a, last);
        vstd::seq_lib::to_multiset_contains(b, last);
        assert(a.contains(last)) by {
            assert(a[a.len() - 1] == last);
        }
        let j = choose|j: int| 0 <= j < b.len() && b[j] == last;
        let shorter = b.remove(j);
        vstd::seq_lib::to_multiset_remove(b, j);
        vstd::seq_lib::to_multiset_remove(a, a.len() - 1);
        assert(a.drop_last() =~= a.remove(a.len() - 1));
        contents_ignore_order(a.drop_last(), shorter);
        assert(inners(a) =~= inners(a.drop_last()).push(last.inner));
        vstd::seq_lib::to_multiset_build(inners(a.drop_last()), last.inner);
        assert(inners(b)[j] == last.inner);
        assert(inners(shorter) =~= inners(b).remove(j));
        vstd::seq_lib::to_multiset_remove(inners(b), j);
        vstd::seq_lib::to_multiset_contains(inners(b), last.inner);
        assert(inners(b).contains(last.inner));
        assert(inners(b).to_multiset() =~= inners(shorter).to_multiset().insert(last.inner));
    }
}

/// The contents of the groups are those of the entries.
proof fn groups_hold_the_contents(entries: Seq<PackEntry>)
    requires
        forall|k: int|
            0 <= k < entries.len() ==> is_windowed((#[trigger] entries[k]).inner.obj_type),
    ensures
        inners(grouped(entries).commits).to_multiset().add(
            inners(grouped(entries).trees).to_multiset(),
        ).add(inners(grouped(entries).blobs).to_multiset()).add(
            inners(grouped(entries).tags).to_multiset(),
        ) == inners(entries).to_multiset(),
    decreases entries.len(),
{
    let groups = grouped(entries);
    let all = inners(groups.commits).to_multiset().add(inners(groups.trees).to_multiset()).add(
        inners(groups.blobs).to_multiset(),
    ).add(inners(groups.tags).to_multiset());
    if entries.len() == 0 {
        assert(inners(entries) =~= Seq::empty());
        assert(inners(groups.commits) =~= Seq::empty());
        assert(inners(groups.trees) =~= Seq::empty());
        assert(inners(groups.blobs) =~= Seq::empty());
        assert(inners(groups.tags) =~= Seq::empty());
        vstd::seq_lib::to_multiset_len(Seq::<Entry>::empty());
        assert(all =~= inners(entries).to_multiset());
    } else {
        let shorter = entries.drop_last();
        let last = entries.last();
        let before = grouped(shorter);
        assert forall|k: int| 0 <= k < shorter.len() implies is_windowed((#[trigger]
        shorter[k]).inner.obj_type) by {
            assert(shorter[k] == entries[k]);
        }
        groups_hold_the_contents(shorter);
        assert(is_windowed(entries[entries.len() - 1].inner.obj_type));
        one_more_content(before.commits, last);
        one_more_content(before.trees, last);
        one_more_content(before.blobs, last);
        one_more_content(before.tags, last);
        one_more_content(shorter, last);
        assert(shorter.push(last) =~= entries);
        assert(all =~= inners(entries).to_multiset());
    }
}

/// One more entry is one more content.
proof fn one_more_content(entries: Seq<PackEntry>, entry: PackEntry)
    ensures
        inners(entries.push(entry)).to_multiset() == inners(entries).to_multiset().insert(
            entry.inner,
        ),
{
    assert(inners(entries.push(entry)) =~= inners(entries).push(entry.inner));
    vstd::seq_lib::to_multiset_build(inners(entries), entry.inner);
}

/// What a run writes are the contents of the entries that came in.
proof fn run_keeps_the_contents<
    R: Fn(&[u8], &[u8]) -> u64,
    H: Fn(&[u8], &[u8]) -> u64,
    E: Fn(&[u8], &[u8]) -> Vec<u8>,
    D: Fn(&[u8], &[u8]) -> Result<Vec<u8>, String>,
>(
    codec: DeltaCodec<R, H, E, D>,
    entries: Seq<PackEntry>,
    window_size: usize,
    zstd: bool,
    run: WindowRun,
)
    requires
        is_run(codec, grouped(entries), window_size, zstd, run),
        forall|k: int|
            0 <= k < entries.len() ==> is_windowed((#[trigger] entries[k]).inner.obj_type),
    ensures
        inners(packed_order(run)).to_multiset() == inners(entries).to_multiset(),
{
    let groups = grouped(entries);
    let (c, t, b, g) = (
        run.arranged.commits,
        run.arranged.trees,
        run.arranged.blobs,
        run.arranged.tags,
    );
    groups_hold_the_contents(entries);
    contents_ignore_order(groups.commits, c);
    contents_ignore_order(groups.trees, t);
    contents_ignore_order(run.attached, b);
    contents_ignore_order(groups.tags, g);
    let paths = inferred_paths(
        inners(groups.commits),
        readable_trees(inners(groups.trees), groups.trees.len() as int),
    );
    assert forall|k: int| 0 <= k < groups.blobs.len() implies run.attached[k].inner
        == groups.blobs[k].inner by {
        assert(is_attached(groups.blobs[k], run.attached[k], paths));
    }
    assert(inners(run.attached) =~= inners(groups.blobs));
    assert(inners(packed_order(run)) =~= inners(c) + inners(t) + inners(b) + inners(g));
    vstd::seq_lib::lemma_multiset_commutative(inners(c), inners(t));
    vstd::seq_lib::lemma_multiset_commutative(inners(c) + inners(t), inners(b));
    vstd::seq_lib::lemma_multiset_commutative(inners(c) + inners(t) + inners(b), inners(g));
}

/// The part of the objects that a group makes up comes back as that part of the
/// entries.
proof fn part_comes_back(
    before: Seq<(Seq<u8>, ObjectHash)>,
    part: Seq<(Seq<u8>, ObjectHash)>,
    after: Seq<(Seq<u8>, ObjectHash)>,
    group: Seq<Entry>,
    placed: Seq<Placed>,
    order: Seq<Entry>,
    zstd: bool,
    model: DeltaModel,
    apply: spec_fn(Seq<u8>, Seq<u8>) -> Seq<u8>,
)
    requires
        is_faithful(part, group, placed, zstd, model),
        deltas_are(placed, delta_kind(zstd)),
        none_is_delta(group),
        undoes(model, zstd, apply),
        all_have_bytes(before + part + after),
        order.len() == before.len() + part.len() + after.len(),
        forall|k: int| 0 <= k < group.len() ==> order[before.len() + k] == #[trigger] group[k],
    ensures
        forall|k: int|
            before.len() <= k < before.len() + part.len() ==> #[trigger] comes_back(
                before + part + after,
                order,
                apply,
                k,
            ),
        forall|k: int|
            before.len() <= k < before.len() + part.len() ==> #[trigger] is_stored_as(
                before + part + after,
                order,
                delta_kind(zstd),
                k,
            ),
{
    let all = before + part + after;
    assert forall|k: int| before.len() <= k < before.len() + part.len() implies (#[trigger]
    comes_back(all, order, apply, k)) by {
        let q = k - before.len();
        laid_out_objects_come_back(before, group, placed, after, zstd, model, apply, q);
        assert(order[before.len() + q] == group[q]);
        assert(all[k] == part[q]);
    }
    assert forall|k: int| before.len() <= k < before.len() + part.len() implies (#[trigger]
    is_stored_as(all, order, delta_kind(zstd), k)) by {
        let q = k - before.len();
        laid_out_objects_are_stored_as(part, group, placed, delta_kind(zstd), q);
        assert(order[before.len() + q] == group[q]);
        assert(all[k] == part[q]);
    }
}

/// In a run every group holds entries of its own kind.
pub proof fn run_keeps_the_kinds<
    R: Fn(&[u8], &[u8]) -> u64,
    H: Fn(&[u8], &[u8]) -> u64,
    E: Fn(&[u8], &[u8]) -> Vec<u8>,
    D: Fn(&[u8], &[u8]) -> Result<Vec<u8>, String>,
>(
    codec: DeltaCodec<R, H, E, D>,
    entries: Seq<PackEntry>,
    window_size: usize,
    zstd: bool,
    run: WindowRun,
)
    requires
        is_run(codec, grouped(entries), window_size, zstd, run),
    ensures
        run.arranged.by_kind(),
{
    let groups = grouped(entries);
    let paths = inferred_paths(
        inners(groups.commits),
        readable_trees(inners(groups.trees), groups.trees.len() as int),
    );
    groups_are_by_kind(entries, ObjectType::Commit);
    groups_are_by_kind(entries, ObjectType::Tree);
    groups_are_by_kind(entries, ObjectType::Blob);
    groups_are_by_kind(entries, ObjectType::Tag);
    attached_blobs_are_blobs(groups.blobs, run.attached, paths);
    arranging_keeps_kinds(groups.commits, run.arranged.commits, ObjectType::Commit);
    arranging_keeps_kinds(groups.trees, run.arranged.trees, ObjectType::Tree);
    arranging_keeps_kinds(run.attached, run.arranged.blobs, ObjectType::Blob);
    arranging_keeps_kinds(groups.tags, run.arranged.tags, ObjectType::Tag);
}

/// The parts that the groups make up come back one behind the other.
proof fn parts_come_back(
    parts: (
        Seq<(Seq<u8>, ObjectHash)>,
        Seq<(Seq<u8>, ObjectHash)>,
        Seq<(Seq<u8>, ObjectHash)>,
        Seq<(Seq<u8>, ObjectHash)>,
    ),
    groups: (Seq<Entry>, Seq<Entry>, Seq<Entry>, Seq<Entry>),
    places: (Seq<Placed>, Seq<Placed>, Seq<Placed>, Seq<Placed>),
    zstd: bool,
    model: DeltaModel,
    apply: spec_fn(Seq<u8>, Seq<u8>) -> Seq<u8>,
)
    requires
        is_faithful(parts.0, groups.0, places.0, zstd, model),
        is_faithful(parts.1, groups.1, places.1, zstd, model),
        is_faithful(parts.2, groups.2, places.2, zstd, model),
        is_faithful(parts.3, groups.3, places.3, zstd, model),
        deltas_are(places.0, delta_kind(zstd)),
        deltas_are(places.1, delta_kind(zstd)),
        deltas_are(places.2, delta_kind(zstd)),
        deltas_are(places.3, delta_kind(zstd)),
        none_is_delta(groups.0),
        none_is_delta(groups.1),
        none_is_delta(groups.2),
        none_is_delta(groups.3),
        undoes(model, zstd, apply),
    ensures
        all_come_back(
            parts.0 + parts.1 + parts.2 + parts.3,
            groups.0 + groups.1 + groups.2 + groups.3,
            apply,
        ),
        all_stored_as(
            parts.0 + parts.1 + parts.2 + parts.3,
            groups.0 + groups.1 + groups.2 + groups.3,
            delta_kind(zstd),
        ),
{
    let (c, r, b, g) = parts;
    let objects = c + r + b + g;
    let order = groups.0 + groups.1 + groups.2 + groups.3;
    let none = Seq::<(Seq<u8>, ObjectHash)>::empty();
    stored_objects_have_bytes(groups.0, places.0);
    stored_objects_have_bytes(groups.1, places.1);
    stored_objects_have_bytes(groups.2, places.2);
    stored_objects_have_bytes(groups.3, places.3);
    assert(all_have_bytes(objects)) by {
        assert forall|k: int| 0 <= k < objects.len() implies (#[trigger] objects[k]).0.len()
            >= 1 by {
            if k < c.len() {
                assert(objects[k] == c[k]);
            } else if k < c.len() + r.len() {
                assert(objects[k] == r[k - c.len()]);
            } else if k < c.len() + r.len() + b.len() {
                assert(objects[k] == b[k - c.len() - r.len()]);
            } else {
                assert(objects[k] == g[k - c.len() - r.len() - b.len()]);
            }
        }
    }
    assert(none + c + (r + b + g) =~= objects);
    assert(c + r + (b + g) =~= objects);
    assert((c + r + b) + g + none =~= objects);
    part_comes_back(none, c, r + b + g, groups.0, places.0, order, zstd, model, apply);
    part_comes_back(c, r, b + g, groups.1, places.1, order, zstd, model, apply);
    part_comes_back(c + r, b, g, groups.2, places.2, order, zstd, model, apply);
    part_comes_back(c + r + b, g, none, groups.3, places.3, order, zstd, model, apply);
    assert forall|k: int| 0 <= k < objects.len() implies #[trigger] comes_back(
        objects,
        order,
        apply,
        k,
    ) by {}
    assert forall|k: int| 0 <= k < objects.len() implies #[trigger] is_stored_as(
        objects,
        order,
        delta_kind(zstd),
        k,
    ) by {}
}

/// What a run writes comes back.
proof fn run_comes_back<
    R: Fn(&[u8], &[u8]) -> u64,
    H: Fn(&[u8], &[u8]) -> u64,
    E: Fn(&[u8], &[u8]) -> Vec<u8>,
    D: Fn(&[u8], &[u8]) -> Result<Vec<u8>, String>,
>(
    codec: DeltaCodec<R, H, E, D>,
    given: Groups,
    w: usize,
    zstd: bool,
    run: WindowRun,
    model: DeltaModel,
    apply: spec_fn(Seq<u8>, Seq<u8>) -> Seq<u8>,
)
    requires
        is_run(codec, given, w, zstd, run),
        run.arranged.by_kind(),
        all_objects(run) is Ok,
        codec.follows(model),
        undoes(model, zstd, apply),
    ensures
        all_come_back(all_objects(run)->Ok_0, inners(packed_order(run)), apply),
        all_stored_as(all_objects(run)->Ok_0, inners(packed_order(run)), delta_kind(zstd)),
{
    entries_of_kind(run.arranged.commits, ObjectType::Commit);
    entries_of_kind(run.arranged.trees, ObjectType::Tree);
    entries_of_kind(run.arranged.blobs, ObjectType::Blob);
    entries_of_kind(run.arranged.tags, ObjectType::Tag);
    let groups = (
        inners(run.arranged.commits),
        inners(run.arranged.trees),
        inners(run.arranged.blobs),
        inners(run.arranged.tags),
    );
    let parts = (
        run.commit_out->Ok_0,
        run.tree_out->Ok_0,
        run.blob_out->Ok_0,
        run.tag_out->Ok_0,
    );
    let metas = metas_of(run.arranged.blobs);
    let places = (
        group_layout_is_faithful(codec, groups.0, w, zstd, parts.0, model),
        group_layout_is_faithful(codec, groups.1, w, zstd, parts.1, model),
        blob_layout_is_faithful(codec, groups.2, metas, w, zstd, parts.2, model),
        group_layout_is_faithful(codec, groups.3, w, zstd, parts.3, model),
    );
    parts_come_back(parts, groups, places, zstd, model, apply);
    assert(inners(packed_order(run)) =~= groups.0 + groups.1 + groups.2 + groups.3);
}

/// A pack with deltas gives back the entries that went into it, if deltas can be
/// undone: every object is read from its bytes, its distances are followed and its
/// deltas applied, and it comes back with the kind, the data and the name of its entry;
/// and the entries are exactly the ones that came in.
pub proof fn windowed_pack_gives_its_entries_back<
    R: Fn(&[u8], &[u8]) -> u64,
    H: Fn(&[u8], &[u8]) -> u64,
    E: Fn(&[u8], &[u8]) -> Vec<u8>,
    D: Fn(&[u8], &[u8]) -> Result<Vec<u8>, String>,
>(
    codec: DeltaCodec<R, H, E, D>,
    s: EncoderState,
    entries: Seq<PackEntry>,
    zstd: bool,
    t: EncoderState,
    model: DeltaModel,
    apply: spec_fn(Seq<u8>, Seq<u8>) -> Seq<u8>,
)
    requires
        s.valid(),
        is_after_window(codec, s, entries, zstd, (t, Ok(()))),
        codec.follows(model),
        undoes(model, zstd, apply),
    ensures
        exists|run: WindowRun| #[trigger]
            is_run(codec, grouped(entries), s.window_size, zstd, run) && packed_faithfully(
                s,
                t,
                entries,
                zstd,
                run,
                apply,
            ),
{
    let run = run_that_was_packed(codec, s, entries, zstd, t);
    run_keeps_the_kinds(codec, entries, s.window_size, zstd, run);
    run_keeps_the_contents(codec, entries, s.window_size, zstd, run);
    run_comes_back(codec, grouped(entries), s.window_size, zstd, run, model, apply);
    let objects = all_objects(run)->Ok_0;
    let order = inners(packed_order(run));
    assert forall|k: int| 0 <= k < objects.len() implies (#[trigger]
    t.idx_entries->0[k]).hash == order[k].hash by {
        assert(comes_back(objects, order, apply, k));
    }
    assert(packed_faithfully(s, t, entries, zstd, run, apply));
}

/// A pack without deltas gives back the entries that went into it, in their order, and
/// the index has their names.
pub proof fn parallel_pack_gives_its_entries_back(
    s: EncoderState,
    entries: Seq<Entry>,
    size: nat,
    apply: spec_fn(Seq<u8>, Seq<u8>) -> Seq<u8>,
)
    requires
        s.valid(),
        size > 0,
        after_parallel(s, entries, size).1 is Ok,
        all_inflate(entries),
        none_is_delta(entries),
    ensures
        has_packed(s, after_parallel(s, entries, size).0, whole(entries)),
        all_come_back(whole(entries), entries, apply),
        forall|k: int|
            0 <= k < entries.len() ==> (#[trigger] after_parallel(
                s,
                entries,
                size,
            ).0.idx_entries->0[k]).hash == entries[k].hash,
{
    parallel_encoding_packs_all(s, entries, size);
    batches_take_no_ai_object(s.begun(), entries, size);
    first_ai_is_first(entries, 0);
    assert forall|k: int| 0 <= k < entries.len() implies (#[trigger]
    entries[k]).obj_type.pack_number() is Some by {
        assert(entries[k].obj_type != ObjectType::Task);
    }
    whole_objects_come_back(entries, apply);
}

/// No zstd delta fails.
pub open spec fn never_fails(model: DeltaModel) -> bool {
    forall|base: Seq<u8>, target: Seq<u8>| (#[trigger] (model.zstd_diff)(base, target)) is Ok
}

/// All entries are of kinds that packs hold.
pub open spec fn all_have_numbers(entries: Seq<Entry>) -> bool {
    forall|k: int|
        0 <= k < entries.len() ==> (#[trigger] entries[k]).obj_type.pack_number() is Some
}

/// The error of a pack that is too large.
pub open spec fn too_large() -> ErrorView {
    ErrorView::Pack(PackEncodeReason::PackTooLarge)
}

/// Where no delta fails and packs hold all kinds, only the size can be in the way.
proof fn layout_fails_only_for_size(
    entries: Seq<Entry>,
    n: nat,
    window_size: usize,
    zstd: bool,
    rows: Seq<Seq<bool>>,
    model: DeltaModel,
)
    requires
        n <= entries.len(),
        never_fails(model),
        all_have_numbers(entries),
    ensures
        layout(entries, n, window_size, zstd, rows, model) matches Err(e) ==> e == too_large(),
        layout(entries, n, window_size, zstd, rows, model) matches Ok(placed) ==> placed.len()
            == n,
    decreases n,
{
    if n > 0 {
        let i = n - 1;
        layout_fails_only_for_size(entries, i as nat, window_size, zstd, rows, model);
        assert(entries[i].obj_type.pack_number() is Some);
    }
}

/// Where no delta fails, the search for the shortest one does not.
proof fn search_does_not_fail(
    entries: Seq<Entry>,
    i: int,
    bases: Seq<int>,
    n: int,
    model: DeltaModel,
)
    requires
        never_fails(model),
    ensures
        shortest_delta(entries, i, bases, n, model) is Ok,
    decreases n,
{
    if n > 0 {
        search_does_not_fail(entries, i, bases, n - 1, model);
    }
}

/// Where no delta fails and packs hold all kinds, only the size can be in the way.
proof fn blob_layout_fails_only_for_size(
    entries: Seq<Entry>,
    metas: Seq<EntryMeta>,
    n: nat,
    window_size: usize,
    zstd: bool,
    rows: Seq<Seq<bool>>,
    model: DeltaModel,
)
    requires
        n <= entries.len(),
        never_fails(model),
        all_have_numbers(entries),
    ensures
        blob_layout(entries, metas, n, window_size, zstd, rows, model) matches Err(e) ==> e
            == too_large(),
        blob_layout(entries, metas, n, window_size, zstd, rows, model) matches Ok(placed)
            ==> placed.len() == n,
    decreases n,
{
    if n > 0 {
        let i = n - 1;
        blob_layout_fails_only_for_size(
            entries,
            metas,
            i as nat,
            window_size,
            zstd,
            rows,
            model,
        );
        assert(entries[i].obj_type.pack_number() is Some);
        if let Ok(placed) = blob_layout(
            entries,
            metas,
            i as nat,
            window_size,
            zstd,
            rows,
            model,
        ) {
            let now = settled(entries, placed);
            let lo = window_start(i, window_size);
            let named = named_bases(now, metas, i, lo);
            let scored = scored_bases(window_scores(now, i, lo, rows[i], model), lo, i - lo);
            search_does_not_fail(now, i, named, named.len() as int, model);
            search_does_not_fail(now, i, scored, scored.len() as int, model);
        }
    }
}

/// Encoding a group succeeds where no delta fails and packs hold all kinds, unless the
/// objects take more bytes than a pack can have.
pub proof fn group_encoding_succeeds<
    R: Fn(&[u8], &[u8]) -> u64,
    H: Fn(&[u8], &[u8]) -> u64,
    E: Fn(&[u8], &[u8]) -> Vec<u8>,
    D: Fn(&[u8], &[u8]) -> Result<Vec<u8>, String>,
>(
    codec: DeltaCodec<R, H, E, D>,
    entries: Seq<Entry>,
    window_size: usize,
    zstd: bool,
    out: GroupOutcome,
    model: DeltaModel,
)
    requires
        is_group_outcome(codec, entries, window_size, zstd, out),
        codec.follows(model),
        never_fails(model),
        all_have_numbers(entries),
    ensures
        out matches Err(e) ==> e == too_large(),
{
    let rows = choose|rows: Seq<Seq<bool>>| #[trigger]
        plausible_rows(entries, rows) && forall|model: DeltaModel| #[trigger]
            codec.follows(model) ==> {
                let laid_out = layout(entries, entries.len(), window_size, zstd, rows, model);
                &&& out == outcome(entries, laid_out)
                &&& laid_out matches Ok(placed) ==> is_window_layout(
                    entries,
                    placed,
                    window_size,
                    zstd,
                )
            };
    layout_fails_only_for_size(entries, entries.len(), window_size, zstd, rows, model);
}

/// Encoding blobs succeeds where no delta fails and packs hold all kinds, unless the
/// objects take more bytes than a pack can have.
pub proof fn blob_encoding_succeeds<
    R: Fn(&[u8], &[u8]) -> u64,
    H: Fn(&[u8], &[u8]) -> u64,
    E: Fn(&[u8], &[u8]) -> Vec<u8>,
    D: Fn(&[u8], &[u8]) -> Result<Vec<u8>, String>,
>(
    codec: DeltaCodec<R, H, E, D>,
    entries: Seq<Entry>,
    metas: Seq<EntryMeta>,
    window_size: usize,
    zstd: bool,
    out: GroupOutcome,
    model: DeltaModel,
)
    requires
        is_blob_outcome(codec, entries, metas, window_size, zstd, out),
        codec.follows(model),
        never_fails(model),
        all_have_numbers(entries),
    ensures
        out matches Err(e) ==> e == too_large(),
{
    let rows = choose|rows: Seq<Seq<bool>>| #[trigger]
        plausible_rows(entries, rows) && forall|model: DeltaModel| #[trigger]
            codec.follows(model) ==> {
                let laid_out = blob_layout(
                    entries,
                    metas,
                    entries.len(),
                    window_size,
                    zstd,
                    rows,
                    model,
                );
                &&& out == outcome(entries, laid_out)
                &&& laid_out matches Ok(placed) ==> is_blob_layout(
                    entries,
                    metas,
                    placed,
                    window_size,
                    zstd,
                )
            };
    blob_layout_fails_only_for_size(
        entries,
        metas,
        entries.len(),
        window_size,
        zstd,
        rows,
        model,
    );
}

/// Where all entries are taken, none is refused.
proof fn none_is_refused(entries: Seq<PackEntry>, from: int)
    requires
        0 <= from <= entries.len(),
        forall|k: int|
            0 <= k < entries.len() ==> is_windowed((#[trigger] entries[k]).inner.obj_type),
    ensures
        first_unsupported(entries, from) == entries.len(),
    decreases entries.len() - from,
{
    if from < entries.len() {
        assert(is_windowed(entries[from].inner.obj_type));
        none_is_refused(entries, from + 1);
    }
}

/// Encoding with deltas succeeds on an encoder that was not used, for as many commits,
/// trees, blobs and tags as the header announces, whatever the window, where no delta
/// fails; unless the pack would be longer than a pack can be.
pub proof fn windowed_encoding_succeeds<
    R: Fn(&[u8], &[u8]) -> u64,
    H: Fn(&[u8], &[u8]) -> u64,
    E: Fn(&[u8], &[u8]) -> Vec<u8>,
    D: Fn(&[u8], &[u8]) -> Result<Vec<u8>, String>,
>(
    codec: DeltaCodec<R, H, E, D>,
    s: EncoderState,
    entries: Seq<PackEntry>,
    zstd: bool,
    after: (EncoderState, Result<(), ErrorView>),
    model: DeltaModel,
)
    requires
        s.valid(),
        !s.started,
        entries.len() == s.object_number,
        forall|k: int|
            0 <= k < entries.len() ==> is_windowed((#[trigger] entries[k]).inner.obj_type),
        is_after_window(codec, s, entries, zstd, after),
        codec.follows(model),
        never_fails(model),
    ensures
        after.1 matches Err(e) ==> e == too_large(),
{
    let begun = s.begun().counted(entries.len());
    none_is_refused(entries, 0);
    let groups = grouped(entries);
    let w = s.window_size;
    let run = choose|run: WindowRun| #[trigger]
        is_run(codec, groups, begun.window_size, zstd, run) && after == after_run(begun, run);
    run_keeps_the_kinds(codec, entries, w, zstd, run);
    entries_of_kind(run.arranged.commits, ObjectType::Commit);
    entries_of_kind(run.arranged.trees, ObjectType::Tree);
    entries_of_kind(run.arranged.blobs, ObjectType::Blob);
    entries_of_kind(run.arranged.tags, ObjectType::Tag);
    let ec = inners(run.arranged.commits);
    let et = inners(run.arranged.trees);
    let eb = inners(run.arranged.blobs);
    let eg = inners(run.arranged.tags);
    group_encoding_succeeds(codec, ec, w, zstd, run.commit_out, model);
    group_encoding_succeeds(codec, et, w, zstd, run.tree_out, model);
    blob_encoding_succeeds(
        codec,
        eb,
        metas_of(run.arranged.blobs),
        w,
        zstd,
        run.blob_out,
        model,
    );
    group_encoding_succeeds(codec, eg, w, zstd, run.tag_out, model);
}

} // verus!
