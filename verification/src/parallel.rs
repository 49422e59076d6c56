//! Encoding without deltas: objects come in batches and are stored whole.

use crate::blobs::inners;
use crate::encoder::{EncoderState, PackEncoder};
use crate::errors::{ErrorView, GitError, PackEncodeReason};
use crate::hash::ObjectHash;
use crate::object::{Entry, IndexEntry, ObjectType, PackEntry};
use crate::packed::{encode_one_object, inflates, packed_object};
use crate::placement::{objects_of, pack_limit};
use crate::stream::{all_fit, bytes_of, fitting, flat, flat_of_both, indexed};
use std::collections::VecDeque;
use vstd::prelude::*;

verus! {

/// A batch is never smaller than this.
pub const MIN_BATCH_SIZE: usize = 1000;

/// How many objects make a batch, where objects wait in a channel of the given
/// capacity.
pub fn batch_size(capacity: usize) -> (r: usize)
    ensures
        r == if capacity / 10 > MIN_BATCH_SIZE {
            capacity / 10
        } else {
            MIN_BATCH_SIZE
        },
        r > 0,
{
    if capacity / 10 > MIN_BATCH_SIZE {
        capacity / 10
    } else {
        MIN_BATCH_SIZE
    }
}

/// The place of the first AI object from `from` on, or the number of entries.
pub open spec fn first_ai(entries: Seq<Entry>, from: int) -> int
    decreases entries.len() - from,
{
    if from >= entries.len() {
        entries.len() as int
    } else if entries[from].obj_type == ObjectType::Task {
        from
    } else {
        first_ai(entries, from + 1)
    }
}

/// Objects that are stored whole.
pub open spec fn whole(entries: Seq<Entry>) -> Seq<(Seq<u8>, ObjectHash)> {
    Seq::new(
        entries.len(),
        |k: int|
            (packed_object(entries[k].obj_type, entries[k].data@, None), entries[k].hash),
    )
}

/// What is stored of the entries can be decompressed again.
pub open spec fn all_inflate(entries: Seq<Entry>) -> bool {
    forall|k: int| 0 <= k < entries.len() ==> inflates((#[trigger] entries[k]).data@)
}

/// What encoding a batch does: the encoder after it, and the index entries or the
/// error. An AI object is refused before anything of its batch is written.
pub open spec fn after_batch(s: EncoderState, entries: Seq<Entry>) -> (
    EncoderState,
    Result<Seq<IndexEntry>, ErrorView>,
) {
    let ai = first_ai(entries, 0);
    if ai < entries.len() {
        (
            s.counted(ai as nat),
            Err(ErrorView::Pack(PackEncodeReason::AiObject(entries[ai].obj_type))),
        )
    } else {
        let counted = s.counted(entries.len());
        let chunks = bytes_of(whole(entries));
        let n = fitting(s.offset, chunks);
        if n == entries.len() {
            (counted.written(chunks), Ok(indexed(whole(entries), s.offset)))
        } else {
            (
                counted.written(chunks.take(n as int)),
                Err(ErrorView::Pack(PackEncodeReason::PackTooLarge)),
            )
        }
    }
}

/// What encoding all entries in batches of `size` does: the encoder after it, and
/// the index entries or the first error.
pub open spec fn after_batches(s: EncoderState, entries: Seq<Entry>, size: nat) -> (
    EncoderState,
    Result<Seq<IndexEntry>, ErrorView>,
)
    decreases entries.len(),
{
    if entries.len() == 0 || size == 0 {
        (s, Ok(Seq::empty()))
    } else if entries.len() <= size {
        after_batch(s, entries)
    } else {
        match after_batch(s, entries.take(size as int)) {
            (t, Err(e)) => (t, Err(e)),
            (t, Ok(index)) => match after_batches(t, entries.skip(size as int), size) {
                (u, Err(e)) => (u, Err(e)),
                (u, Ok(rest)) => (u, Ok(index + rest)),
            },
        }
    }
}

/// The error where another number of objects came in than the header announces.
pub open spec fn not_all_encoded(s: EncoderState) -> ErrorView {
    ErrorView::Pack(
        PackEncodeReason::NotAllEncoded {
            process: s.process_index as usize,
            total: s.object_number as usize,
        },
    )
}

/// What encoding without deltas does: the encoder after it, and success or the
/// error.
pub open spec fn after_parallel(s: EncoderState, entries: Seq<Entry>, size: nat) -> (
    EncoderState,
    Result<(), ErrorView>,
) {
    if s.window_size != 0 {
        (s, Err(ErrorView::Pack(PackEncodeReason::WindowNotZero)))
    } else if s.started {
        (s, Err(ErrorView::Pack(PackEncodeReason::AlreadyInProgress)))
    } else {
        match after_batches(s.begun(), entries, size) {
            (t, Err(e)) => (t, Err(e)),
            (t, Ok(index)) => if t.process_index != t.object_number {
                (t, Err(not_all_encoded(t)))
            } else {
                (t.finished().with_index(index), Ok(()))
            },
        }
    }
}

/// The value of success or an error.
pub open spec fn result_view(r: Result<(), GitError>) -> Result<(), ErrorView> {
    match r {
        Ok(_) => Ok(()),
        Err(e) => Err(e@),
    }
}

/// The value of index entries or an error.
pub open spec fn index_view(r: Result<Vec<IndexEntry>, GitError>) -> Result<
    Seq<IndexEntry>,
    ErrorView,
> {
    match r {
        Ok(index) => Ok(index@),
        Err(e) => Err(e@),
    }
}

/// What comes out in the end, where `done` are the index entries so far.
spec fn continued(
    done: Seq<IndexEntry>,
    rest: (EncoderState, Result<Seq<IndexEntry>, ErrorView>),
) -> (EncoderState, Result<Seq<IndexEntry>, ErrorView>) {
    match rest {
        (s, Err(e)) => (s, Err(e)),
        (s, Ok(index)) => (s, Ok(done + index)),
    }
}

/// Encoding goes on behind the next batch.
proof fn next_batch(done: Seq<IndexEntry>, s: EncoderState, entries: Seq<Entry>, size: nat, n: int)
    requires
        size > 0,
        entries.len() > 0,
        n == if entries.len() <= size {
            entries.len() as int
        } else {
            size as int
        },
    ensures
        match after_batch(s, entries.take(n)) {
            (t, Err(e)) => {
                continued(done, after_batches(s, entries, size)) == (
                    t,
                    Err::<Seq<IndexEntry>, ErrorView>(e),
                )
            },
            (t, Ok(more)) => {
                &&& continued(done, after_batches(s, entries, size)) == continued(
                    done + more,
                    after_batches(t, entries.skip(n), size),
                )
                &&& t.process_index == s.process_index + n
                &&& t.object_number == s.object_number
            },
        },
{
    if entries.len() <= size {
        assert(entries.take(n) =~= entries);
        if let (t, Ok(more)) = after_batch(s, entries) {
            assert(entries.skip(n) =~= Seq::empty());
            assert((done + more) + Seq::<IndexEntry>::empty() =~= done + more);
        }
    } else {
        if let (t, Ok(more)) = after_batch(s, entries.take(n)) {
            if let (u, Ok(tail)) = after_batches(t, entries.skip(n), size) {
                assert(done + (more + tail) =~= (done + more) + tail);
            }
        }
    }
}

/// Where there is no AI object up to a place, the search can go on from there.
proof fn first_ai_passes(entries: Seq<Entry>, from: int, to: int)
    requires
        0 <= from <= to <= entries.len(),
        forall|k: int| from <= k < to ==> (#[trigger] entries[k]).obj_type != ObjectType::Task,
    ensures
        first_ai(entries, from) == first_ai(entries, to),
    decreases to - from,
{
    if from < to {
        first_ai_passes(entries, from + 1, to);
        assert(entries[from].obj_type != ObjectType::Task);
    }
}

/// The first AI object that is found is one, and there is none before it.
pub proof fn first_ai_is_first(entries: Seq<Entry>, from: int)
    requires
        0 <= from <= entries.len(),
    ensures
        from <= first_ai(entries, from) <= entries.len(),
        first_ai(entries, from) < entries.len() ==> entries[first_ai(entries, from)].obj_type
            == ObjectType::Task,
        forall|k: int|
            from <= k < first_ai(entries, from) ==> (#[trigger] entries[k]).obj_type
                != ObjectType::Task,
    decreases entries.len() - from,
{
    if from < entries.len() && entries[from].obj_type != ObjectType::Task {
        first_ai_is_first(entries, from + 1);
    }
}

/// Encodes objects whole.
fn encode_whole(batch: &Vec<PackEntry>) -> (r: Result<Vec<(Vec<u8>, IndexEntry)>, GitError>)
    requires
        forall|k: int|
            0 <= k < batch.len() ==> !(#[trigger] batch@[k]).inner.obj_type.is_delta()
                && batch@[k].inner.obj_type.pack_number() is Some,
    ensures
        r matches Ok(out) && objects_of(out@) == whole(inners(batch@)),
        all_inflate(inners(batch@)),
{
    let ghost entries = inners(batch@);
    let mut out: Vec<(Vec<u8>, IndexEntry)> = Vec::with_capacity(batch.len());
    let mut i: usize = 0;
    while i < batch.len()
        invariant
            i <= batch.len(),
            entries == inners(batch@),
            objects_of(out@) =~= whole(entries.take(i as int)),
            forall|k: int| 0 <= k < i ==> inflates((#[trigger] entries[k]).data@),
            forall|k: int|
                0 <= k < batch.len() ==> !(#[trigger] batch@[k]).inner.obj_type.is_delta()
                    && batch@[k].inner.obj_type.pack_number() is Some,
        decreases batch.len() - i,
    {
        let entry = &batch[i].inner;
        match encode_one_object(entry, None) {
            Ok(encoded) => {
                let ghost before = out@;
                out.push((encoded, IndexEntry::new(entry, 0)));
                proof {
                    assert(objects_of(out@) =~= objects_of(before).push(
                        (encoded@, entry.hash),
                    ));
                    assert(whole(entries.take(i + 1)) =~= whole(entries.take(i as int)).push(
                        (encoded@, entry.hash),
                    ));
                }
            },
            Err(e) => {
                return Err(e);
            },
        }
        i += 1;
    }
    assert(entries.take(i as int) =~= entries);
    Ok(out)
}

/// Takes the next batch from the front.
fn take_batch(waiting: &mut VecDeque<PackEntry>, size: usize) -> (r: Vec<PackEntry>)
    ensures
        r@ == old(waiting)@.take(
            if old(waiting)@.len() <= size {
                old(waiting)@.len() as int
            } else {
                size as int
            },
        ),
        r@ + final(waiting)@ == old(waiting)@,
{
    let mut batch: Vec<PackEntry> = Vec::new();
    while batch.len() < size && waiting.len() > 0
        invariant
            batch.len() <= size,
            batch@ + waiting@ =~= old(waiting)@,
        decreases waiting@.len(),
    {
        if let Some(entry) = waiting.pop_front() {
            batch.push(entry);
        }
    }
    batch
}

impl PackEncoder {
    /// Starts encoding without deltas, which an encoder with a window refuses.
    pub fn begin_parallel(&mut self) -> (r: Result<(), GitError>)
        requires
            old(self)@.valid(),
            old(self)@.window_size == 0 && !old(self)@.started ==> 0 < old(self)@.object_number
                <= u32::MAX,
        ensures
            final(self)@.valid(),
            match r {
                Ok(_) => {
                    &&& old(self)@.window_size == 0
                    &&& !old(self)@.started
                    &&& final(self)@ == old(self)@.begun()
                },
                Err(e) => {
                    &&& final(self)@ == old(self)@
                    &&& if old(self)@.window_size != 0 {
                        e@ == ErrorView::Pack(PackEncodeReason::WindowNotZero)
                    } else {
                        &&& old(self)@.started
                        &&& e@ == ErrorView::Pack(PackEncodeReason::AlreadyInProgress)
                    }
                },
            },
    {
        if self.window() != 0 {
            return Err(GitError::PackEncodeError(PackEncodeReason::WindowNotZero));
        }
        self.begin()
    }

    /// Takes in a batch of objects, up to the first AI object, which is refused.
    pub fn accept_batch(&mut self, batch: &Vec<PackEntry>) -> (r: Result<(), GitError>)
        requires
            old(self)@.valid(),
            old(self)@.writing(),
            old(self)@.process_index + batch.len() <= usize::MAX,
        ensures
            final(self)@.valid(),
            final(self)@ == old(self)@.counted(first_ai(inners(batch@), 0) as nat),
            match r {
                Ok(_) => first_ai(inners(batch@), 0) == batch.len(),
                Err(e) => {
                    let ai = first_ai(inners(batch@), 0);
                    &&& 0 <= ai < batch.len()
                    &&& e@ == ErrorView::Pack(
                        PackEncodeReason::AiObject(batch@[ai].inner.obj_type),
                    )
                },
            },
    {
        let ghost s = self@;
        let ghost entries = inners(batch@);
        let mut i: usize = 0;
        assert(s.counted(0) =~= s);
        while i < batch.len()
            invariant
                i <= batch.len(),
                s == old(self)@,
                s.writing(),
                s.process_index + batch.len() <= usize::MAX,
                entries == inners(batch@),
                self@.valid(),
                self@ == s.counted(i as nat),
                forall|k: int|
                    0 <= k < i ==> (#[trigger] entries[k]).obj_type != ObjectType::Task,
            decreases batch.len() - i,
        {
            let obj_type = batch[i].inner.obj_type;
            if obj_type.is_ai_object() {
                proof {
                    first_ai_passes(entries, 0, i as int);
                }
                return Err(GitError::PackEncodeError(PackEncodeReason::AiObject(obj_type)));
            }
            self.count_one();
            i += 1;
        }
        proof {
            first_ai_passes(entries, 0, i as int);
        }
        Ok(())
    }

    /// Encodes and writes a batch of objects.
    pub fn encode_batch(&mut self, batch: Vec<PackEntry>) -> (r: Result<
        Vec<IndexEntry>,
        GitError,
    >)
        requires
            old(self)@.valid(),
            old(self)@.writing(),
            old(self)@.process_index + batch.len() <= usize::MAX,
            forall|k: int|
                0 <= k < batch.len() ==> !(#[trigger] batch@[k]).inner.obj_type.is_delta(),
        ensures
            final(self)@.valid(),
            final(self)@.writing(),
            (final(self)@, index_view(r)) == after_batch(old(self)@, inners(batch@)),
            r is Ok ==> all_inflate(inners(batch@)),
    {
        let ghost s = self@;
        let ghost entries = inners(batch@);
        if let Err(e) = self.accept_batch(&batch) {
            return Err(e);
        }
        proof {
            first_ai_is_first(entries, 0);
            assert forall|k: int| 0 <= k < batch.len() implies (#[trigger]
            batch@[k]).inner.obj_type.pack_number() is Some by {
                assert(entries[k].obj_type != ObjectType::Task);
            }
        }
        let encoded = match encode_whole(&batch) {
            Ok(encoded) => encoded,
            Err(e) => {
                return Err(e);
            },
        };
        let mut index: Vec<IndexEntry> = Vec::new();
        let written = self.write_objects(encoded, &mut index);
        proof {
            let all = whole(entries);
            let chunks = bytes_of(all);
            assert(chunks.take(chunks.len() as int) =~= chunks);
            assert(indexed(all, s.offset).take(all.len() as int) =~= indexed(all, s.offset));
            assert(Seq::<IndexEntry>::empty() + indexed(all, s.offset) =~= indexed(
                all,
                s.offset,
            ));
        }
        match written {
            Ok(_) => Ok(index),
            Err(e) => Err(e),
        }
    }

    /// Ends a pack without deltas, unless another number of objects came in than the
    /// header announces.
    pub fn finish_parallel(&mut self, index: Vec<IndexEntry>) -> (r: Result<(), GitError>)
        requires
            old(self)@.valid(),
            old(self)@.writing(),
        ensures
            final(self)@.valid(),
            match r {
                Ok(_) => {
                    &&& old(self)@.process_index == old(self)@.object_number
                    &&& final(self)@ == old(self)@.finished().with_index(index@)
                },
                Err(e) => {
                    &&& old(self)@.process_index != old(self)@.object_number
                    &&& e@ == not_all_encoded(old(self)@)
                    &&& final(self)@ == old(self)@
                },
            },
    {
        if self.received() != self.announced() {
            return Err(
                GitError::PackEncodeError(
                    PackEncodeReason::NotAllEncoded {
                        process: self.received(),
                        total: self.announced(),
                    },
                ),
            );
        }
        self.finish();
        self.set_index(index);
        Ok(())
    }

    /// Encodes objects without deltas, in batches. Only an encoder without a window
    /// does that.
    pub fn parallel_encode(&mut self, entries: Vec<PackEntry>, capacity: usize) -> (r: Result<
        (),
        GitError,
    >)
        requires
            old(self)@.valid(),
            old(self)@.window_size == 0 && !old(self)@.started ==> {
                &&& 0 < old(self)@.object_number <= u32::MAX
                &&& forall|k: int|
                    0 <= k < entries.len() ==> !(#[trigger] entries@[k]).inner.obj_type.is_delta()
            },
        ensures
            final(self)@.valid(),
            (final(self)@, result_view(r)) == after_parallel(
                old(self)@,
                inners(entries@),
                if capacity / 10 > MIN_BATCH_SIZE {
                    (capacity / 10) as nat
                } else {
                    MIN_BATCH_SIZE as nat
                },
            ),
            r is Ok ==> all_inflate(inners(entries@)),
    {
        if let Err(e) = self.begin_parallel() {
            return Err(e);
        }
        let size: usize = batch_size(capacity);
        let ghost given = entries@;
        let ghost s = self@;
        let ghost expected = after_batches(s, inners(given), size as nat);
        let mut waiting: VecDeque<PackEntry> = VecDeque::with_capacity(entries.len());
        for entry in it: entries
            invariant
                waiting@ == it.seq().take(it.index()),
                it.seq() == entries@,
        {
            waiting.push_back(entry);
        }
        assert(waiting@ =~= given);
        let mut index: Vec<IndexEntry> = Vec::new();
        proof {
            if let (u, Ok(all)) = expected {
                assert(index@ + all =~= all);
            }
        }
        while waiting.len() > 0
            invariant
                size > 0,
                self@.valid(),
                self@.writing(),
                self@.object_number == s.object_number,
                s == old(self)@.begun(),
                old(self)@.window_size == 0,
                !old(self)@.started,
                expected == after_batches(s, inners(entries@), size as nat),
                size == if capacity / 10 > MIN_BATCH_SIZE {
                    (capacity / 10) as nat
                } else {
                    MIN_BATCH_SIZE as nat
                },
                self@.process_index + waiting@.len() == entries@.len(),
                forall|k: int|
                    0 <= k < entries@.len() - waiting@.len() ==> inflates(
                        (#[trigger] inners(entries@)[k]).data@,
                    ),
                waiting@ == entries@.skip(entries@.len() - waiting@.len()),
                entries@.len() <= usize::MAX,
                expected == continued(
                    index@,
                    after_batches(self@, inners(waiting@), size as nat),
                ),
                forall|k: int|
                    0 <= k < waiting@.len() ==> !(#[trigger] waiting@[k]).inner.obj_type.is_delta(),
            decreases waiting@.len(),
        {
            let ghost before = waiting@;
            let ghost done = entries@.len() - waiting@.len();
            let batch = take_batch(&mut waiting, size);
            let ghost taken = inners(batch@);
            proof {
                let n = batch@.len() as int;
                assert(inners(batch@) =~= inners(before).take(n));
                assert(inners(waiting@) =~= inners(before).skip(n));
                assert(waiting@ =~= before.skip(n));
                assert(waiting@ =~= entries@.skip(done + n));
                assert forall|k: int| 0 <= k < batch@.len() implies !(#[trigger]
                batch@[k]).inner.obj_type.is_delta() by {
                    assert(batch@[k] == before[k]);
                }
                assert forall|k: int| 0 <= k < waiting@.len() implies !(#[trigger]
                waiting@[k]).inner.obj_type.is_delta() by {
                    assert(waiting@[k] == before[n + k]);
                }
                next_batch(index@, self@, inners(before), size as nat, n);
            }
            match self.encode_batch(batch) {
                Ok(mut more) => {
                    index.append(&mut more);
                    proof {
                        assert forall|k: int|
                            0 <= k < entries@.len() - waiting@.len() implies inflates(
                            (#[trigger] inners(entries@)[k]).data@,
                        ) by {
                            if k >= done {
                                assert(taken[k - done] == inners(entries@)[k]);
                            }
                        }
                    }
                },
                Err(e) => {
                    return Err(e);
                },
            }
        }
        proof {
            assert(inners(waiting@) =~= Seq::empty());
            assert(index@ + Seq::<IndexEntry>::empty() =~= index@);
        }
        self.finish_parallel(index)
    }
}

/// No pack without deltas holds an AI object: batches succeed only if there is none.
pub proof fn batches_take_no_ai_object(s: EncoderState, entries: Seq<Entry>, size: nat)
    requires
        size > 0,
        after_batches(s, entries, size).1 is Ok,
    ensures
        first_ai(entries, 0) == entries.len(),
    decreases entries.len(),
{
    if entries.len() == 0 {
    } else if entries.len() <= size {
        first_ai_is_first(entries, 0);
    } else {
        let first = entries.take(size as int);
        let (t, index) = after_batch(s, first);
        batches_take_no_ai_object(t, entries.skip(size as int), size);
        first_ai_is_first(first, 0);
        first_ai_is_first(entries, 0);
        first_ai_is_first(entries.skip(size as int), 0);
        let ai = first_ai(entries, 0);
        if ai < entries.len() {
            if ai < size {
                assert(first[ai].obj_type == ObjectType::Task);
            } else {
                assert(entries.skip(size as int)[ai - size].obj_type == ObjectType::Task);
            }
        }
    }
}

/// The size of the batches does not matter: where encoding in batches succeeds, it
/// writes all objects one behind the other, and the index says where each of them
/// starts.
pub proof fn batches_do_not_matter(s: EncoderState, entries: Seq<Entry>, size: nat)
    requires
        size > 0,
        s.valid(),
        s.writing(),
        after_batches(s, entries, size).1 is Ok,
    ensures
        after_batches(s, entries, size).0 == s.counted(entries.len()).written(
            bytes_of(whole(entries)),
        ),
        after_batches(s, entries, size).1 == Ok::<Seq<IndexEntry>, ErrorView>(
            indexed(whole(entries), s.offset),
        ),
        s.offset + flat(bytes_of(whole(entries))).len() <= pack_limit(),
    decreases entries.len(),
{
    let all = whole(entries);
    all_fit(s.offset, bytes_of(all));
    if entries.len() == 0 {
        assert(bytes_of(all) =~= Seq::empty());
        assert(flat(bytes_of(all)) =~= Seq::empty());
        assert(s.counted(0).written(bytes_of(all)) =~= s);
        assert(indexed(all, s.offset) =~= Seq::empty());
    } else if entries.len() <= size {
    } else {
        let n = size as int;
        let (first, rest) = (entries.take(n), entries.skip(n));
        let (t, index) = after_batch(s, first);
        let (head, tail) = (bytes_of(whole(first)), bytes_of(whole(rest)));
        all_fit(s.offset, head);
        assert(t.offset == s.offset + flat(head).len());
        assert(t.hashed.len() == t.offset);
        batches_do_not_matter(t, rest, size);
        flat_of_both(head, tail);
        assert(head + tail =~= bytes_of(all));
        assert(after_batches(s, entries, size).0 =~= s.counted(entries.len()).written(
            bytes_of(all),
        ));
        let expected = indexed(all, s.offset);
        let found = indexed(whole(first), s.offset) + indexed(whole(rest), t.offset);
        assert forall|k: int| 0 <= k < entries.len() implies found[k] == expected[k] by {
            if k < n {
                assert(bytes_of(all).take(k) =~= head.take(k));
            } else {
                assert(bytes_of(all).take(k) =~= head + tail.take(k - n));
                flat_of_both(head, tail.take(k - n));
            }
        }
        assert(found =~= expected);
    }
}

/// Batches succeed where there is no AI object and the pack is not too large.
pub proof fn batches_succeed(s: EncoderState, entries: Seq<Entry>, size: nat)
    requires
        size > 0,
        first_ai(entries, 0) == entries.len(),
        s.offset + flat(bytes_of(whole(entries))).len() <= pack_limit(),
    ensures
        after_batches(s, entries, size).1 is Ok,
    decreases entries.len(),
{
    all_fit(s.offset, bytes_of(whole(entries)));
    if entries.len() > size {
        let n = size as int;
        let (first, rest) = (entries.take(n), entries.skip(n));
        let (head, tail) = (bytes_of(whole(first)), bytes_of(whole(rest)));
        assert(head + tail =~= bytes_of(whole(entries)));
        flat_of_both(head, tail);
        all_fit(s.offset, head);
        first_ai_is_first(entries, 0);
        first_ai_is_first(first, 0);
        first_ai_is_first(rest, 0);
        if first_ai(first, 0) < first.len() {
            assert(entries[first_ai(first, 0)].obj_type == ObjectType::Task);
        }
        if first_ai(rest, 0) < rest.len() {
            assert(entries[n + first_ai(rest, 0)].obj_type == ObjectType::Task);
        }
        batches_succeed(after_batch(s, first).0, rest, size);
    }
}

/// The size of the batches, and with it the capacity of the channel that the objects
/// wait in, does not matter: what is sent, the index and the result are the same,
/// where there is no AI object and the pack is not too large.
pub proof fn batch_size_does_not_matter(
    s: EncoderState,
    entries: Seq<Entry>,
    size: nat,
    other: nat,
)
    requires
        s.valid(),
        size > 0,
        other > 0,
        first_ai(entries, 0) == entries.len(),
        12 + flat(bytes_of(whole(entries))).len() <= pack_limit(),
    ensures
        after_parallel(s, entries, size) == after_parallel(s, entries, other),
{
    if s.window_size == 0 && !s.started {
        let begun = s.begun();
        assert(begun.hashed.len() == 12);
        batches_succeed(begun, entries, size);
        batches_succeed(begun, entries, other);
        batches_do_not_matter(begun, entries, size);
        batches_do_not_matter(begun, entries, other);
    }
}

/// How many of the entries stand in the full batches before the first AI object.
pub open spec fn in_full_batches(entries: Seq<Entry>, size: nat) -> int {
    first_ai(entries, 0) / (size as int) * size
}

/// An AI object is refused, however large the batches are. All objects before it have
/// come in by then, and those in the full batches before it are written.
pub proof fn refusal_comes_behind_full_batches(s: EncoderState, entries: Seq<Entry>, size: nat)
    requires
        size > 0,
        first_ai(entries, 0) < entries.len(),
        s.offset + flat(
            bytes_of(whole(entries.take(in_full_batches(entries, size)))),
        ).len() <= pack_limit(),
    ensures
        after_batches(s, entries, size) == (
            s.counted(first_ai(entries, 0) as nat).written(
                bytes_of(whole(entries.take(in_full_batches(entries, size)))),
            ),
            Err::<Seq<IndexEntry>, ErrorView>(
                ErrorView::Pack(
                    PackEncodeReason::AiObject(entries[first_ai(entries, 0)].obj_type),
                ),
            ),
        ),
    decreases entries.len(),
{
    let n = size as int;
    let ai = first_ai(entries, 0);
    let full = in_full_batches(entries, size);
    first_ai_is_first(entries, 0);
    if ai < n {
        vstd::arithmetic::div_mod::lemma_basic_div(ai, n);
        assert(full == 0) by (nonlinear_arith)
            requires
                full == ai / n * n,
                ai / n == 0,
        ;
        let none = bytes_of(whole(entries.take(full)));
        assert(none =~= Seq::empty());
        assert(flat(none) =~= Seq::empty());
        assert(s.counted(ai as nat).written(none) =~= s.counted(ai as nat));
        if entries.len() > size {
            let first = entries.take(n);
            first_ai_passes(first, 0, ai);
            assert(first[ai] == entries[ai]);
        }
    } else {
        let (first, rest) = (entries.take(n), entries.skip(n));
        first_ai_passes(first, 0, n);
        first_ai_passes(rest, 0, ai - n);
        assert(rest[ai - n] == entries[ai]);
        vstd::arithmetic::div_mod::lemma_div_minus_one(ai, n);
        assert((ai / n - 1) * n == ai / n * n - n) by (nonlinear_arith);
        vstd::arithmetic::div_mod::lemma_fundamental_div_mod(ai, n);
        assert(ai / n * n == n * (ai / n)) by (nonlinear_arith);
        assert(ai / n >= 1) by (nonlinear_arith)
            requires
                ai >= n,
                n > 0,
        ;
        assert(ai / n * n >= n) by (nonlinear_arith)
            requires
                ai / n >= 1,
                n > 0,
        ;
        let (head, tail) = (
            bytes_of(whole(first)),
            bytes_of(whole(rest.take(full - n))),
        );
        assert(head + tail =~= bytes_of(whole(entries.take(full))));
        flat_of_both(head, tail);
        all_fit(s.offset, head);
        let t = after_batch(s, first).0;
        refusal_comes_behind_full_batches(t, rest, size);
        assert(after_batches(s, entries, size).0 =~= s.counted(ai as nat).written(head + tail));
    }
}

} // verus!
