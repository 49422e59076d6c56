//! What holds of packs as a whole.

use crate::codec::DeltaCodec;
use crate::digest::digest;
use crate::encoder::EncoderState;
use crate::errors::{ErrorView, PackEncodeReason};
use crate::format::{
    announced_objects, header_round_trip, object_header, object_header_round_trip, offset_bytes,
    offset_round_trip, pack_header, read_object_header, read_offset,
};
use crate::hash::{HashKind, ObjectHash};
use crate::object::{Entry, ObjectType, PackEntry};
use crate::packed::{inflates, packed_object, zlib_best, zlib_data};
use crate::parallel::{
    after_batch, after_batches, after_parallel, all_inflate, batches_do_not_matter, whole,
};
use crate::placement::{is_sound, is_sound_at, pack_limit, stored, Placed};
use crate::similarity::MAX_CHAIN_LEN;
use crate::stream::{
    all_fit, bytes_of, distance_leads_to_base, fitting_is_bounded, flat, flat_of_both,
    flat_of_one, index_leads_to_objects, index_of_part, indexed,
};
use crate::windowed::{
    after_run, all_objects, first_unsupported, grouped, is_after_window, is_run, is_windowed,
    WindowRun,
};
use vstd::prelude::*;

verus! {

/// A complete pack: the header, the objects one behind the other, and the hash of all
/// that.
pub open spec fn complete_pack(
    kind: HashKind,
    object_number: nat,
    objects: Seq<(Seq<u8>, ObjectHash)>,
) -> Seq<u8> {
    let body = pack_header(object_number) + flat(bytes_of(objects));
    body + digest(kind, body)
}

/// Encoding that was begun on `s` came to its end as `t`: what was sent in between is
/// a complete pack of the objects, its hash is known, and the index says where the
/// objects stand.
pub open spec fn has_packed(
    s: EncoderState,
    t: EncoderState,
    objects: Seq<(Seq<u8>, ObjectHash)>,
) -> bool {
    &&& s.pack_open ==> flat(t.outbox) == flat(s.outbox) + complete_pack(
        s.kind,
        s.object_number,
        objects,
    )
    &&& !t.pack_open
    &&& t.final_hash == Some(
        digest(s.kind, pack_header(s.object_number) + flat(bytes_of(objects))),
    )
    &&& t.idx_entries == Some(indexed(objects, 12))
    &&& 12 + flat(bytes_of(objects)).len() <= pack_limit()
}

/// Header, objects and hash, sent one after the other, make up a complete pack.
proof fn sending_makes_a_pack(
    s: EncoderState,
    count: nat,
    objects: Seq<(Seq<u8>, ObjectHash)>,
)
    requires
        s.valid(),
        !s.started,
    ensures
        s.pack_open ==> flat(
            s.begun().counted(count).written(bytes_of(objects)).finished().outbox,
        ) == flat(s.outbox) + complete_pack(s.kind, s.object_number, objects),
        s.begun().counted(count).written(bytes_of(objects)).hashed == pack_header(
            s.object_number,
        ) + flat(bytes_of(objects)),
{
    let chunks = bytes_of(objects);
    let head = pack_header(s.object_number);
    let body = head + flat(chunks);
    let hash = digest(s.kind, body);
    assert(s.hashed + head =~= head);
    if s.pack_open {
        flat_of_both(s.outbox, seq![head]);
        flat_of_both(s.outbox + seq![head], chunks);
        flat_of_both(s.outbox + seq![head] + chunks, seq![hash]);
        flat_of_one(head);
        flat_of_one(hash);
        assert(flat(s.outbox) + head + flat(chunks) + hash =~= flat(s.outbox) + (body + hash));
    }
}

/// Where encoding without deltas succeeds, it has packed all objects whole, and as
/// many as the header announces.
pub proof fn parallel_encoding_packs_all(s: EncoderState, entries: Seq<Entry>, size: nat)
    requires
        s.valid(),
        size > 0,
        after_parallel(s, entries, size).1 is Ok,
    ensures
        has_packed(s, after_parallel(s, entries, size).0, whole(entries)),
        whole(entries).len() == entries.len() == s.object_number,
        after_parallel(s, entries, size).0.process_index == entries.len(),
{
    let begun = s.begun();
    assert(begun.hashed.len() == 12);
    batches_do_not_matter(begun, entries, size);
    sending_makes_a_pack(s, entries.len(), whole(entries));
}

/// The groups together hold all entries.
proof fn groups_hold_all(entries: Seq<PackEntry>)
    requires
        forall|k: int|
            0 <= k < entries.len() ==> is_windowed((#[trigger] entries[k]).inner.obj_type),
    ensures
        grouped(entries).commits.len() + grouped(entries).trees.len() + grouped(
            entries,
        ).blobs.len() + grouped(entries).tags.len() == entries.len(),
    decreases entries.len(),
{
    if entries.len() > 0 {
        let shorter = entries.drop_last();
        assert forall|k: int| 0 <= k < shorter.len() implies is_windowed((#[trigger]
        shorter[k]).inner.obj_type) by {
            assert(shorter[k] == entries[k]);
        }
        groups_hold_all(shorter);
        assert(is_windowed(entries[entries.len() - 1].inner.obj_type));
    }
}

/// Where nothing is found that is not taken, all entries are taken.
proof fn all_are_taken(entries: Seq<PackEntry>, from: int)
    requires
        0 <= from <= entries.len(),
        first_unsupported(entries, from) == entries.len(),
    ensures
        forall|k: int|
            from <= k < entries.len() ==> is_windowed((#[trigger] entries[k]).inner.obj_type),
    decreases entries.len() - from,
{
    if from < entries.len() {
        all_are_taken(entries, from + 1);
    }
}

/// The run whose objects were packed where encoding with deltas succeeds.
pub proof fn run_that_was_packed<
    R: Fn(&[u8], &[u8]) -> u64,
    H: Fn(&[u8], &[u8]) -> u64,
    E: Fn(&[u8], &[u8]) -> Vec<u8>,
    D: Fn(&[u8], &[u8]) -> Result<Vec<u8>, String>,
>(
    codec: DeltaCodec<R, H, E, D>,
    s: EncoderState,
    entries: Seq<PackEntry>,
    zstd: bool,
    t: EncoderState,
) -> (run: WindowRun)
    requires
        s.valid(),
        is_after_window(codec, s, entries, zstd, (t, Ok(()))),
    ensures
        entries.len() == s.object_number,
        forall|k: int|
            0 <= k < entries.len() ==> is_windowed((#[trigger] entries[k]).inner.obj_type),
        is_run(codec, grouped(entries), s.window_size, zstd, run),
        all_objects(run) is Ok,
        all_objects(run)->Ok_0.len() == entries.len(),
        has_packed(s, t, all_objects(run)->Ok_0),
{
    let begun = s.begun().counted(entries.len());
    let after = (t, Ok::<(), ErrorView>(()));
    first_unsupported_is_bounded(entries, 0);
    let run = choose|run: WindowRun| #[trigger]
        is_run(codec, grouped(entries), begun.window_size, zstd, run) && after == after_run(
            begun,
            run,
        );
    let objects = all_objects(run)->Ok_0;
    let chunks = bytes_of(objects);
    assert(begun.hashed.len() == 12);
    all_fit(begun.offset, chunks);
    fitting_is_bounded(begun.offset, chunks);
    sending_makes_a_pack(s, entries.len(), objects);
    let with_index = begun.written(chunks).with_index(indexed(objects, 12));
    assert(with_index.hashed == begun.written(chunks).hashed);
    assert(t == with_index.finished());
    assert(t.outbox == begun.written(chunks).finished().outbox);
    all_are_taken(entries, 0);
    groups_hold_all(entries);
    run
}

/// Where encoding with deltas succeeds, it has packed the objects of a run, and as
/// many as came in, which are as many as the header announces.
pub proof fn windowed_encoding_packs_all<
    R: Fn(&[u8], &[u8]) -> u64,
    H: Fn(&[u8], &[u8]) -> u64,
    E: Fn(&[u8], &[u8]) -> Vec<u8>,
    D: Fn(&[u8], &[u8]) -> Result<Vec<u8>, String>,
>(
    codec: DeltaCodec<R, H, E, D>,
    s: EncoderState,
    entries: Seq<PackEntry>,
    zstd: bool,
    t: EncoderState,
)
    requires
        s.valid(),
        is_after_window(codec, s, entries, zstd, (t, Ok(()))),
    ensures
        entries.len() == s.object_number,
        exists|run: WindowRun| #[trigger]
            is_run(codec, grouped(entries), s.window_size, zstd, run) && all_objects(run) is Ok
                && all_objects(run)->Ok_0.len() == entries.len() && has_packed(
                s,
                t,
                all_objects(run)->Ok_0,
            ),
{
    let run = run_that_was_packed(codec, s, entries, zstd, t);
    assert(is_run(codec, grouped(entries), s.window_size, zstd, run));
}

/// The place of the first entry that is not taken is no farther than the end.
proof fn first_unsupported_is_bounded(entries: Seq<PackEntry>, from: int)
    requires
        0 <= from <= entries.len(),
    ensures
        first_unsupported(entries, from) <= entries.len(),
    decreases entries.len() - from,
{
    if from < entries.len() {
        first_unsupported_is_bounded(entries, from + 1);
    }
}

/// The number of objects can be read from the beginning of a complete pack.
pub proof fn pack_announces_its_objects(
    kind: HashKind,
    object_number: nat,
    objects: Seq<(Seq<u8>, ObjectHash)>,
)
    requires
        object_number <= u32::MAX,
    ensures
        announced_objects(complete_pack(kind, object_number, objects)) == Some(object_number),
{
    let head = pack_header(object_number);
    let body = head + flat(bytes_of(objects));
    let rest = flat(bytes_of(objects)) + digest(kind, body);
    header_round_trip(object_number, rest);
    assert(complete_pack(kind, object_number, objects) =~= head + rest);
}

/// In a complete pack the bytes of an object stand where the index says.
pub proof fn index_leads_into_the_pack(
    kind: HashKind,
    object_number: nat,
    objects: Seq<(Seq<u8>, ObjectHash)>,
    k: int,
)
    requires
        0 <= k < objects.len(),
        12 + flat(bytes_of(objects)).len() <= pack_limit(),
    ensures
        ({
            let pack = complete_pack(kind, object_number, objects);
            let at = indexed(objects, 12)[k].offset as int;
            &&& indexed(objects, 12)[k].hash == objects[k].1
            &&& at + objects[k].0.len() <= pack.len()
            &&& pack.subrange(at, at + objects[k].0.len()) == objects[k].0
        }),
{
    let head = pack_header(object_number);
    index_leads_to_objects(
        head,
        objects,
        digest(kind, head + flat(bytes_of(objects))),
        k,
    );
}

/// Reads a packed object: the number of its kind, for a delta the distance to its
/// base, and its data.
pub open spec fn read_object(bytes: Seq<u8>) -> Option<(u8, Option<nat>, Seq<u8>)> {
    match read_object_header(bytes) {
        None => None,
        Some((number, size, used)) => {
            let rest = bytes.skip(used as int);
            if number == 5 || number == 6 {
                match read_offset(rest) {
                    None => None,
                    Some((distance, taken)) => with_data(
                        number,
                        Some(distance),
                        size,
                        zlib_data(rest.skip(taken as int)),
                    ),
                }
            } else {
                with_data(number, None, size, zlib_data(rest))
            }
        },
    }
}

/// What was read of an object, if its data has the size that its header tells.
pub open spec fn with_data(
    number: u8,
    distance: Option<nat>,
    size: nat,
    data: Option<Seq<u8>>,
) -> Option<(u8, Option<nat>, Seq<u8>)> {
    match data {
        Some(data) => if data.len() == size {
            Some((number, distance, data))
        } else {
            None
        },
        None => None,
    }
}

/// Whatever object was packed is read back from its bytes: its kind, its data, and
/// for a delta the distance to its base.
pub proof fn packed_object_reads_back(
    obj_type: ObjectType,
    data: Seq<u8>,
    offset: Option<usize>,
)
    requires
        obj_type.pack_number() is Some,
        inflates(data),
    ensures
        read_object(packed_object(obj_type, data, offset)) == Some(
            (
                obj_type.pack_number()->0,
                if obj_type == ObjectType::OffsetDelta || obj_type
                    == ObjectType::OffsetZstdelta {
                    Some(offset->0 as nat)
                } else {
                    None
                },
                data,
            ),
        ),
{
    let bytes = packed_object(obj_type, data, offset);
    let number = obj_type.pack_number()->0;
    let head = object_header(number, data.len());
    let distance = offset->0 as nat;
    let middle = if obj_type == ObjectType::OffsetDelta || obj_type
        == ObjectType::OffsetZstdelta {
        offset_bytes(distance)
    } else {
        seq![]
    };
    let rest = bytes.skip(head.len() as int);
    assert(bytes =~= head + (middle + zlib_best(data)));
    object_header_round_trip(number, data.len(), middle + zlib_best(data));
    assert(rest =~= middle + zlib_best(data));
    if obj_type == ObjectType::OffsetDelta || obj_type == ObjectType::OffsetZstdelta {
        offset_round_trip(distance, zlib_best(data));
        assert(rest.skip(middle.len() as int) =~= zlib_best(data));
    } else {
        assert(rest =~= zlib_best(data));
    }
}

/// An object that stands in a complete pack in a sound layout is read back from the
/// place that the index names: an object that was stored whole with its own kind and
/// data, a delta with its distance.
pub proof fn objects_are_read_back_from_the_pack(
    kind: HashKind,
    object_number: nat,
    before: Seq<(Seq<u8>, ObjectHash)>,
    entries: Seq<Entry>,
    placed: Seq<Placed>,
    after: Seq<(Seq<u8>, ObjectHash)>,
    k: int,
)
    requires
        is_sound(entries, placed),
        placed.len() == entries.len(),
        0 <= k < placed.len(),
        !entries[k].obj_type.is_delta(),
        12 + flat(bytes_of(before + stored(entries, placed) + after)).len() <= pack_limit(),
    ensures
        ({
            let objects = before + stored(entries, placed) + after;
            let pack = complete_pack(kind, object_number, objects);
            let entry = indexed(objects, 12)[before.len() + k];
            let at = entry.offset as int;
            let end = at + placed[k].bytes().len();
            &&& entry.hash == entries[k].hash
            &&& end <= pack.len()
            &&& read_object(pack.subrange(at, end)) == match placed[k].base {
                None => Some(
                    (entries[k].obj_type.pack_number()->0, None::<nat>, entries[k].data@),
                ),
                Some(_) => Some(
                    (
                        placed[k].obj_type.pack_number()->0,
                        Some(placed[k].offset->0 as nat),
                        placed[k].data,
                    ),
                ),
            }
        }),
{
    let objects = before + stored(entries, placed) + after;
    assert(is_sound_at(entries, placed, k));
    index_leads_into_the_pack(kind, object_number, objects, before.len() + k);
    packed_object_reads_back(placed[k].obj_type, placed[k].data, placed[k].offset);
}

/// An object that was packed without deltas is read back, with its kind and its data,
/// from the place that the index names.
pub proof fn whole_objects_are_read_back_from_the_pack(
    kind: HashKind,
    object_number: nat,
    entries: Seq<Entry>,
    k: int,
)
    requires
        0 <= k < entries.len(),
        all_inflate(entries),
        entries[k].obj_type.pack_number() is Some,
        !entries[k].obj_type.is_delta(),
        12 + flat(bytes_of(whole(entries))).len() <= pack_limit(),
    ensures
        ({
            let objects = whole(entries);
            let pack = complete_pack(kind, object_number, objects);
            let entry = indexed(objects, 12)[k];
            let at = entry.offset as int;
            let end = at + objects[k].0.len();
            &&& entry.hash == entries[k].hash
            &&& end <= pack.len()
            &&& read_object(pack.subrange(at, end)) == Some(
                (entries[k].obj_type.pack_number()->0, None::<nat>, entries[k].data@),
            )
        }),
{
    index_leads_into_the_pack(kind, object_number, whole(entries), k);
    packed_object_reads_back(entries[k].obj_type, entries[k].data@, None);
}

/// How many deltas lie between an object and the whole object that it is rebuilt from.
pub open spec fn deltas_below(placed: Seq<Placed>, k: int) -> nat
    decreases k,
{
    match placed[k].base {
        None => 0,
        Some(j) => if 0 <= j < k {
            deltas_below(placed, j) + 1
        } else {
            0
        },
    }
}

/// The place that is reached from an object by going to the base `n` times.
pub open spec fn base_after(placed: Seq<Placed>, k: int, n: nat) -> int
    decreases n,
{
    if n == 0 {
        k
    } else {
        match placed[k].base {
            None => k,
            Some(j) => base_after(placed, j, (n - 1) as nat),
        }
    }
}

/// In a sound layout, going from base to base leads from any object to a whole one,
/// over no more deltas than allowed. Where no entry had deltas below it to begin with,
/// their number is the one that is counted.
pub proof fn chains_are_short(entries: Seq<Entry>, placed: Seq<Placed>, k: int)
    requires
        is_sound(entries, placed),
        0 <= k < placed.len(),
    ensures
        deltas_below(placed, k) <= MAX_CHAIN_LEN,
        0 <= base_after(placed, k, deltas_below(placed, k)) <= k,
        placed[base_after(placed, k, deltas_below(placed, k))].base is None,
        entries[k].chain_len <= MAX_CHAIN_LEN ==> placed[k].chain_len <= MAX_CHAIN_LEN,
        (forall|q: int| 0 <= q <= k ==> (#[trigger] entries[q]).chain_len == 0) ==> deltas_below(
            placed,
            k,
        ) == placed[k].chain_len,
{
    chains_end(entries, placed, k);
    assert(is_sound_at(entries, placed, k));
}

/// Going from base to base comes to an end.
proof fn chains_end(entries: Seq<Entry>, placed: Seq<Placed>, k: int)
    requires
        is_sound(entries, placed),
        0 <= k < placed.len(),
    ensures
        deltas_below(placed, k) <= placed[k].chain_len,
        0 <= base_after(placed, k, deltas_below(placed, k)) <= k,
        placed[base_after(placed, k, deltas_below(placed, k))].base is None,
        (forall|q: int| 0 <= q <= k ==> (#[trigger] entries[q]).chain_len == 0) ==> deltas_below(
            placed,
            k,
        ) == placed[k].chain_len,
    decreases k,
{
    assert(is_sound_at(entries, placed, k));
    if let Some(j) = placed[k].base {
        chains_end(entries, placed, j);
    } else {
        assert(entries[k].chain_len == placed[k].chain_len);
    }
}

/// An encoder can be used only once: after encoding was started on it, another
/// attempt is refused and changes nothing.
pub proof fn encoding_happens_once<
    R: Fn(&[u8], &[u8]) -> u64,
    H: Fn(&[u8], &[u8]) -> u64,
    E: Fn(&[u8], &[u8]) -> Vec<u8>,
    D: Fn(&[u8], &[u8]) -> Result<Vec<u8>, String>,
>(
    codec: DeltaCodec<R, H, E, D>,
    s: EncoderState,
    entries: Seq<PackEntry>,
    zstd: bool,
    after: (EncoderState, Result<(), ErrorView>),
    again: Seq<PackEntry>,
    other: (EncoderState, Result<(), ErrorView>),
)
    requires
        is_after_window(codec, s, entries, zstd, after),
        is_after_window(codec, after.0, again, zstd, other),
    ensures
        other.0 == after.0,
        other.1 == Err::<(), ErrorView>(ErrorView::Pack(PackEncodeReason::AlreadyInProgress)),
{
}

/// What batches leave as it was.
proof fn batches_keep_the_start(s: EncoderState, entries: Seq<Entry>, size: nat)
    ensures
        after_batches(s, entries, size).0.started == s.started,
        after_batches(s, entries, size).0.window_size == s.window_size,
    decreases entries.len(),
{
    if entries.len() > size && size > 0 {
        let t = after_batch(s, entries.take(size as int)).0;
        batches_keep_the_start(t, entries.skip(size as int), size);
    }
}

/// An encoder can be used only once, also without deltas.
pub proof fn parallel_encoding_happens_once(
    s: EncoderState,
    entries: Seq<Entry>,
    size: nat,
    again: Seq<Entry>,
)
    requires
        s.window_size == 0,
    ensures
        after_parallel(after_parallel(s, entries, size).0, again, size) == (
            after_parallel(s, entries, size).0,
            Err::<(), ErrorView>(ErrorView::Pack(PackEncodeReason::AlreadyInProgress)),
        ),
{
    batches_keep_the_start(s.begun(), entries, size);
}

/// In a complete pack, the distance that a delta names leads from where the delta
/// stands back to where its base stands. The objects of a sound layout are `part` of
/// the objects of the pack.
pub proof fn deltas_lead_to_their_bases(
    kind: HashKind,
    object_number: nat,
    before: Seq<(Seq<u8>, ObjectHash)>,
    entries: Seq<Entry>,
    placed: Seq<Placed>,
    after: Seq<(Seq<u8>, ObjectHash)>,
    k: int,
)
    requires
        is_sound(entries, placed),
        placed.len() == entries.len(),
        0 <= k < placed.len(),
        placed[k].base is Some,
        12 + flat(bytes_of(before + stored(entries, placed) + after)).len() <= pack_limit(),
    ensures
        ({
            let objects = before + stored(entries, placed) + after;
            let pack = complete_pack(kind, object_number, objects);
            let j = placed[k].base->0;
            let at = indexed(objects, 12)[before.len() + k].offset - placed[k].offset->0;
            &&& placed[k].offset is Some
            &&& at == indexed(objects, 12)[before.len() + j].offset
            &&& pack.subrange(at, at + placed[j].bytes().len()) == placed[j].bytes()
        }),
{
    let part = stored(entries, placed);
    let objects = before + part + after;
    let j = placed[k].base->0;
    let offset = 12 + flat(bytes_of(before)).len();
    assert(is_sound_at(entries, placed, k));
    assert(bytes_of(objects) =~= bytes_of(before) + bytes_of(part) + bytes_of(after));
    flat_of_both(bytes_of(before) + bytes_of(part), bytes_of(after));
    flat_of_both(bytes_of(before), bytes_of(part));
    index_of_part(before, part, after, 12, k);
    index_of_part(before, part, after, 12, j);
    distance_leads_to_base(entries, placed, offset, k);
    index_leads_into_the_pack(kind, object_number, objects, before.len() + j);
}

} // verus!
