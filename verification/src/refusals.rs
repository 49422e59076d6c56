//! What is left of an encoding that is refused or comes to no end.

use crate::codec::DeltaCodec;
use crate::encoder::EncoderState;
use crate::errors::{ErrorView, PackEncodeReason};
use crate::groups::first_unsupported_is_first;
use crate::object::{Entry, ObjectType, PackEntry};
use crate::parallel::{
    after_batch, after_batches, after_parallel, batches_do_not_matter, batches_succeed, first_ai,
    first_ai_is_first, whole,
};
use crate::placement::pack_limit;
use crate::stream::{bytes_of, flat};
use crate::windowed::{
    after_run, first_unsupported, grouped, is_after_window, is_run, is_windowed, WindowRun,
};
use vstd::prelude::*;

verus! {

/// Batches do not end the pack.
proof fn batches_leave_the_pack_open(s: EncoderState, entries: Seq<Entry>, size: nat)
    ensures
        after_batches(s, entries, size).0.final_hash == s.final_hash,
        after_batches(s, entries, size).0.pack_open == s.pack_open,
        after_batches(s, entries, size).0.idx_entries == s.idx_entries,
    decreases entries.len(),
{
    if entries.len() > size && size > 0 {
        let t = after_batch(s, entries.take(size as int)).0;
        batches_leave_the_pack_open(t, entries.skip(size as int), size);
    }
}

/// A pack without deltas that was refused has no hash and no index, and its receiver still
/// waits for the rest.
pub proof fn refused_parallel_pack_has_no_hash(s: EncoderState, entries: Seq<Entry>, size: nat)
    requires
        s.valid(),
        !s.started,
        after_parallel(s, entries, size).1 is Err,
    ensures
        after_parallel(s, entries, size).0.final_hash is None,
        after_parallel(s, entries, size).0.idx_entries is None,
        after_parallel(s, entries, size).0.pack_open == s.pack_open,
{
    batches_leave_the_pack_open(s.begun(), entries, size);
}

/// A pack with deltas that was refused has no hash, and its receiver still waits for the
/// rest.
pub proof fn refused_windowed_pack_has_no_hash<
    R: Fn(&[u8], &[u8]) -> u64,
    H: Fn(&[u8], &[u8]) -> u64,
    E: Fn(&[u8], &[u8]) -> Vec<u8>,
    D: Fn(&[u8], &[u8]) -> Result<Vec<u8>, String>,
>(
    codec: DeltaCodec<R, H, E, D>,
    s: EncoderState,
    entries: Seq<PackEntry>,
    zstd: bool,
    t: EncoderState,
    error: ErrorView,
)
    requires
        s.valid(),
        !s.started,
        is_after_window(codec, s, entries, zstd, (t, Err(error))),
    ensures
        t.final_hash is None,
        t.pack_open == s.pack_open,
{
    first_unsupported_is_first(entries, 0);
    if first_unsupported(entries, 0) == entries.len() {
        let begun = s.begun().counted(entries.len());
        let run = choose|run: WindowRun| #[trigger]
            is_run(codec, grouped(entries), begun.window_size, zstd, run) && (
                t,
                Err::<(), ErrorView>(error),
            ) == after_run(begun, run);
        assert((t, Err::<(), ErrorView>(error)) == after_run(begun, run));
    }
}

/// Encoding without deltas succeeds exactly if as many objects come in as the header
/// announces; otherwise both numbers are reported. AI objects and packs that are too large
/// are refused before.
pub proof fn numbers_of_objects_have_to_agree(s: EncoderState, entries: Seq<Entry>, size: nat)
    requires
        s.valid(),
        !s.started,
        s.window_size == 0,
        size > 0,
        forall|k: int|
            0 <= k < entries.len() ==> (#[trigger] entries[k]).obj_type != ObjectType::Task,
        12 + flat(bytes_of(whole(entries))).len() <= pack_limit(),
    ensures
        after_parallel(s, entries, size).1 == if entries.len() == s.object_number {
            Ok::<(), ErrorView>(())
        } else {
            Err(
                ErrorView::Pack(
                    PackEncodeReason::NotAllEncoded {
                        process: entries.len() as usize,
                        total: s.object_number as usize,
                    },
                ),
            )
        },
{
    let begun = s.begun();
    assert(begun.hashed.len() == 12);
    first_ai_is_first(entries, 0);
    if first_ai(entries, 0) < entries.len() {
        assert(entries[first_ai(entries, 0)].obj_type == ObjectType::Task);
    }
    batches_succeed(begun, entries, size);
    batches_do_not_matter(begun, entries, size);
}

/// Encoding with deltas stops at the first object of a kind that it does not take, and
/// reports that kind. Nothing but the header is sent by then.
pub proof fn first_unsupported_object_is_refused<
    R: Fn(&[u8], &[u8]) -> u64,
    H: Fn(&[u8], &[u8]) -> u64,
    E: Fn(&[u8], &[u8]) -> Vec<u8>,
    D: Fn(&[u8], &[u8]) -> Result<Vec<u8>, String>,
>(
    codec: DeltaCodec<R, H, E, D>,
    s: EncoderState,
    entries: Seq<PackEntry>,
    zstd: bool,
    t: EncoderState,
    r: Result<(), ErrorView>,
    k: int,
)
    requires
        s.valid(),
        !s.started,
        is_after_window(codec, s, entries, zstd, (t, r)),
        0 <= k < entries.len(),
        entries[k].inner.obj_type.is_delta() || entries[k].inner.obj_type == ObjectType::Task,
        forall|j: int|
            0 <= j < k ==> !(#[trigger] entries[j]).inner.obj_type.is_delta()
                && entries[j].inner.obj_type != ObjectType::Task,
    ensures
        r == Err::<(), ErrorView>(
            ErrorView::Pack(PackEncodeReason::UnsupportedInWindow(entries[k].inner.obj_type)),
        ),
        t.process_index == k,
        t.outbox == s.begun().outbox,
        t.hashed == s.begun().hashed,
        t.started,
{
    first_unsupported_is_first(entries, 0);
    let stop = first_unsupported(entries, 0);
    if stop > k {
        assert(is_windowed(entries[k].inner.obj_type));
    }
    if stop < k {
        assert(!entries[stop].inner.obj_type.is_delta());
    }
}

} // verus!
