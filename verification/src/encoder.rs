//! The encoder: takes in objects and puts out the chunks of a pack.

use crate::digest::{digest, HashAlgorithm};
use crate::errors::{ErrorView, GitError, PackEncodeReason};
use crate::format::{encode_header, pack_header};
use crate::hash::{HashKind, ObjectHash};
use crate::object::IndexEntry;
use crate::placement::{advance, objects_of, pack_limit};
use crate::stream::{
    bytes_of, fitting, fitting_is_bounded, fitting_one_more, flat, flat_of_one, indexed,
};
use vstd::prelude::*;

verus! {

/// The mathematical value of a [`PackEncoder`].
#[verifier::ext_equal]
pub struct EncoderState {
    /// The number of objects that the header announces.
    pub object_number: nat,
    /// The number of objects that came in.
    pub process_index: nat,
    /// How many objects a delta can choose its base from.
    pub window_size: usize,
    /// The hash function of the repository.
    pub kind: HashKind,
    /// Whether there is still a receiver for the chunks of the pack.
    pub pack_open: bool,
    /// The chunks that wait for the receiver.
    pub outbox: Seq<Seq<u8>>,
    /// Whether there is a receiver for the index.
    pub idx_open: bool,
    /// The entries of the index.
    pub idx_entries: Option<Seq<IndexEntry>>,
    /// Where the next object starts.
    pub offset: nat,
    /// The bytes of the pack so far, without the trailing hash.
    pub hashed: Seq<u8>,
    /// The hash at the end of the pack.
    pub final_hash: Option<Seq<u8>>,
    /// Whether encoding was started.
    pub started: bool,
}

impl EncoderState {
    /// An encoder that nothing has happened to.
    pub open spec fn fresh(
        object_number: nat,
        window_size: usize,
        kind: HashKind,
        idx_open: bool,
    ) -> Self {
        EncoderState {
            object_number,
            process_index: 0,
            window_size,
            kind,
            pack_open: true,
            outbox: Seq::empty(),
            idx_open,
            idx_entries: None,
            offset: 12,
            hashed: Seq::empty(),
            final_hash: None,
            started: false,
        }
    }

    /// What holds of every encoder.
    pub open spec fn valid(self) -> bool {
        &&& self.offset <= pack_limit()
        &&& !self.started ==> {
            &&& self.offset == 12
            &&& self.hashed.len() == 0
            &&& self.process_index == 0
            &&& self.idx_entries is None
            &&& self.final_hash is None
        }
        &&& self.started ==> self.hashed.len() == self.offset
        &&& self.final_hash matches Some(hash) ==> {
            &&& hash == digest(self.kind, self.hashed)
            &&& hash.len() == self.kind.spec_size()
            &&& !self.pack_open
        }
    }

    /// Objects are being written: encoding was started, and has not come to its end.
    pub open spec fn writing(self) -> bool {
        self.started && self.final_hash is None
    }

    /// Chunks go to the receiver, if there is one.
    pub open spec fn sent(self, chunks: Seq<Seq<u8>>) -> Self {
        if self.pack_open {
            EncoderState { outbox: self.outbox + chunks, ..self }
        } else {
            self
        }
    }

    /// Chunks are sent and become part of the pack.
    pub open spec fn written(self, chunks: Seq<Seq<u8>>) -> Self {
        EncoderState {
            hashed: self.hashed + flat(chunks),
            offset: self.offset + flat(chunks).len(),
            ..self.sent(chunks)
        }
    }

    /// Encoding is started: the header is sent.
    pub open spec fn begun(self) -> Self {
        EncoderState {
            started: true,
            hashed: self.hashed + pack_header(self.object_number),
            ..self.sent(seq![pack_header(self.object_number)])
        }
    }

    /// More objects came in.
    pub open spec fn counted(self, n: nat) -> Self {
        EncoderState { process_index: self.process_index + n, ..self }
    }

    /// The index is known.
    pub open spec fn with_index(self, index: Seq<IndexEntry>) -> Self {
        EncoderState { idx_entries: Some(index), ..self }
    }

    /// The pack is complete: its hash is sent behind the objects, and the receiver
    /// is let go.
    pub open spec fn finished(self) -> Self {
        let hash = digest(self.kind, self.hashed);
        EncoderState { final_hash: Some(hash), pack_open: false, ..self.sent(seq![hash]) }
    }
}

/// An encoder for packs.
pub struct PackEncoder {
    object_number: usize,
    process_index: usize,
    window_size: usize,
    pack_open: bool,
    outbox: Vec<Vec<u8>>,
    idx_open: bool,
    idx_entries: Option<Vec<IndexEntry>>,
    inner_offset: usize,
    inner_hash: HashAlgorithm,
    final_hash: Option<ObjectHash>,
    start_encoding: bool,
}

/// What an index file is made from.
pub struct IndexJob {
    /// The number of objects in the pack.
    pub object_number: usize,
    /// The entries of the index, in the order of the pack.
    pub entries: Vec<IndexEntry>,
    /// The hash at the end of the pack.
    pub pack_hash: ObjectHash,
}

/// The values of chunks.
pub open spec fn chunks_of(chunks: Seq<Vec<u8>>) -> Seq<Seq<u8>> {
    Seq::new(chunks.len(), |k: int| chunks[k]@)
}

impl View for PackEncoder {
    type V = EncoderState;

    closed spec fn view(&self) -> EncoderState {
        EncoderState {
            object_number: self.object_number as nat,
            process_index: self.process_index as nat,
            window_size: self.window_size,
            kind: self.inner_hash.kind(),
            pack_open: self.pack_open,
            outbox: chunks_of(self.outbox@),
            idx_open: self.idx_open,
            idx_entries: match self.idx_entries {
                Some(entries) => Some(entries@),
                None => None,
            },
            offset: self.inner_offset as nat,
            hashed: self.inner_hash@,
            final_hash: match self.final_hash {
                Some(hash) => Some(hash@),
                None => None,
            },
            started: self.start_encoding,
        }
    }
}

impl PackEncoder {
    /// An encoder for a pack of `object_number` objects, without an index.
    pub fn new(object_number: usize, window_size: usize, kind: HashKind) -> (r: Self)
        ensures
            r@ == EncoderState::fresh(object_number as nat, window_size, kind, false),
            r@.valid(),
    {
        let r = PackEncoder {
            object_number,
            process_index: 0,
            window_size,
            pack_open: true,
            outbox: Vec::new(),
            idx_open: false,
            idx_entries: None,
            inner_offset: 12,
            inner_hash: HashAlgorithm::new(kind),
            final_hash: None,
            start_encoding: false,
        };
        assert(r@.outbox =~= Seq::empty());
        r
    }

    /// An encoder for a pack of `object_number` objects, with an index.
    pub fn new_with_idx(object_number: usize, window_size: usize, kind: HashKind) -> (r: Self)
        ensures
            r@ == EncoderState::fresh(object_number as nat, window_size, kind, true),
            r@.valid(),
    {
        let mut r = PackEncoder::new(object_number, window_size, kind);
        r.idx_open = true;
        r
    }

    /// Lets the receiver of the pack go. What is sent from then on is lost.
    pub fn drop_sender(&mut self)
        ensures
            final(self)@ == (EncoderState { pack_open: false, ..old(self)@ }),
            old(self)@.valid() ==> final(self)@.valid(),
    {
        self.pack_open = false;
    }

    /// Sends a chunk to the receiver of the pack, if there is one.
    pub fn send_data(&mut self, data: Vec<u8>)
        ensures
            final(self)@ == old(self)@.sent(seq![data@]),
            old(self)@.valid() ==> final(self)@.valid(),
    {
        if self.pack_open {
            let ghost before = self.outbox@;
            self.outbox.push(data);
            assert(chunks_of(self.outbox@) =~= chunks_of(before) + seq![data@]);
        }
    }

    /// Hands over the chunks that wait for the receiver of the pack.
    pub fn take_chunks(&mut self) -> (r: Vec<Vec<u8>>)
        ensures
            chunks_of(r@) == old(self)@.outbox,
            final(self)@ == (EncoderState { outbox: Seq::empty(), ..old(self)@ }),
            old(self)@.valid() ==> final(self)@.valid(),
    {
        let mut chunks: Vec<Vec<u8>> = Vec::new();
        chunks.append(&mut self.outbox);
        assert(chunks@ =~= old(self).outbox@);
        assert(chunks_of(self.outbox@) =~= Seq::empty());
        chunks
    }

    /// The hash of the pack. There is none before the pack is finished.
    pub fn get_hash(&self) -> (r: Option<ObjectHash>)
        ensures
            match r {
                Some(hash) => self@.final_hash == Some(hash@),
                None => self@.final_hash is None,
            },
    {
        self.final_hash
    }

    /// The number of objects that the header announces.
    pub fn announced(&self) -> (r: usize)
        ensures
            r == self@.object_number,
    {
        self.object_number
    }

    /// The number of objects that came in.
    pub fn received(&self) -> (r: usize)
        ensures
            r == self@.process_index,
    {
        self.process_index
    }

    /// How many objects a delta can choose its base from.
    pub fn window(&self) -> (r: usize)
        ensures
            r == self@.window_size,
    {
        self.window_size
    }

    /// Whether encoding was started.
    pub fn is_started(&self) -> (r: bool)
        ensures
            r == self@.started,
    {
        self.start_encoding
    }

    /// Starts encoding, which can be done only once: sends the header.
    pub fn begin(&mut self) -> (r: Result<(), GitError>)
        requires
            old(self)@.valid(),
            !old(self)@.started ==> 0 < old(self)@.object_number <= u32::MAX,
        ensures
            final(self)@.valid(),
            match r {
                Ok(_) => !old(self)@.started && final(self)@ == old(self)@.begun(),
                Err(e) => {
                    &&& old(self)@.started
                    &&& e@ == ErrorView::Pack(PackEncodeReason::AlreadyInProgress)
                    &&& final(self)@ == old(self)@
                },
            },
    {
        if self.start_encoding {
            return Err(GitError::PackEncodeError(PackEncodeReason::AlreadyInProgress));
        }
        self.start_encoding = true;
        let head = encode_header(self.object_number);
        self.inner_hash.update(head.as_slice());
        self.send_data(head);
        Ok(())
    }

    /// Counts one more object that came in.
    pub(crate) fn count_one(&mut self)
        requires
            old(self)@.valid(),
            old(self)@.started,
            old(self)@.process_index < usize::MAX,
        ensures
            final(self)@.valid(),
            final(self)@ == old(self)@.counted(1),
    {
        self.process_index += 1;
    }

    /// Sends a chunk and makes it part of the pack, unless the pack would be longer
    /// than a pack can be.
    pub(crate) fn write_vec_and_update(&mut self, data: Vec<u8>) -> (r: Result<(), GitError>)
        requires
            old(self)@.valid(),
            old(self)@.writing(),
        ensures
            final(self)@.valid(),
            match r {
                Ok(_) => {
                    &&& old(self)@.offset + data@.len() <= pack_limit()
                    &&& final(self)@ == old(self)@.written(seq![data@])
                },
                Err(e) => {
                    &&& old(self)@.offset + data@.len() > pack_limit()
                    &&& e@ == ErrorView::Pack(PackEncodeReason::PackTooLarge)
                    &&& final(self)@ == old(self)@
                },
            },
    {
        proof {
            flat_of_one(data@);
        }
        match advance(self.inner_offset, data.len()) {
            Some(end) => {
                self.inner_hash.update(data.as_slice());
                self.inner_offset = end;
                self.send_data(data);
                Ok(())
            },
            None => Err(GitError::PackEncodeError(PackEncodeReason::PackTooLarge)),
        }
    }

    /// Writes objects one behind the other, as long as they fit, and adds what the
    /// index says of them.
    pub fn write_objects(
        &mut self,
        objects: Vec<(Vec<u8>, IndexEntry)>,
        index: &mut Vec<IndexEntry>,
    ) -> (r: Result<(), GitError>)
        requires
            old(self)@.valid(),
            old(self)@.writing(),
        ensures
            final(self)@.valid(),
            ({
                let chunks = bytes_of(objects_of(objects@));
                let n = fitting(old(self)@.offset, chunks) as int;
                &&& 0 <= n <= objects@.len()
                &&& final(self)@ == old(self)@.written(chunks.take(n))
                &&& final(index)@ == old(index)@ + indexed(
                    objects_of(objects@),
                    old(self)@.offset,
                ).take(n)
                &&& match r {
                    Ok(_) => n == objects@.len(),
                    Err(e) => n < objects@.len() && e@ == ErrorView::Pack(
                        PackEncodeReason::PackTooLarge,
                    ),
                }
            }),
    {
        let ghost all = objects_of(objects@);
        let ghost chunks = bytes_of(all);
        let ghost s = self@;
        let ghost entries = index@;
        let ghost expected = indexed(all, s.offset);
        proof {
            fitting_is_bounded(s.offset, chunks);
            assert(chunks.take(0) =~= Seq::empty());
            assert(s.written(Seq::empty()) =~= s);
        }
        for object in it: objects
            invariant
                it.seq() == objects@,
                s == old(self)@,
                entries == old(index)@,
                all == objects_of(objects@),
                chunks == bytes_of(all),
                expected == indexed(all, s.offset),
                s.writing(),
                fitting(s.offset, chunks) <= chunks.len(),
                fitting(s.offset, chunks.take(it.index())) == it.index(),
                self@.valid(),
                self@ == s.written(chunks.take(it.index())),
                index@ =~= entries + expected.take(it.index()),
        {
            let ghost n = it.index();
            proof {
                fitting_one_more(s.offset, chunks, n);
                assert(object == objects@[n]);
                assert(chunks[n] == object.0@);
                flat_of_one(object.0@);
            }
            let start: usize = self.inner_offset;
            let (data, entry) = object;
            match self.write_vec_and_update(data) {
                Ok(_) => {
                    index.push(IndexEntry { hash: entry.hash, offset: start as u64 });
                    proof {
                        assert(chunks.take(n + 1) =~= chunks.take(n) + seq![chunks[n]]);
                        assert(self@ =~= s.written(chunks.take(n + 1)));
                        assert(expected.take(n + 1) =~= expected.take(n).push(expected[n]));
                    }
                },
                Err(e) => {
                    return Err(e);
                },
            }
        }
        proof {
            assert(chunks.take(objects@.len() as int) =~= chunks);
        }
        Ok(())
    }

    /// Ends the pack: sends its hash and lets the receiver go.
    pub(crate) fn finish(&mut self)
        requires
            old(self)@.valid(),
            old(self)@.writing(),
        ensures
            final(self)@.valid(),
            final(self)@ == old(self)@.finished(),
    {
        let hash = self.inner_hash.finalize();
        self.final_hash = ObjectHash::from_bytes(hash.as_slice());
        self.send_data(hash);
        self.pack_open = false;
    }

    /// Records the entries of the index.
    pub(crate) fn set_index(&mut self, index: Vec<IndexEntry>)
        requires
            old(self)@.valid(),
            old(self)@.started,
        ensures
            final(self)@.valid(),
            final(self)@ == old(self)@.with_index(index@),
    {
        self.idx_entries = Some(index);
    }

    /// Gathers what the index file is made from. The pack has to be finished.
    pub fn generate_idx_file(&self) -> (r: Result<IndexJob, GitError>)
        ensures
            is_index_job(self@, r),
    {
        match (self.final_hash, &self.idx_entries) {
            (None, _) => Err(GitError::PackEncodeError(PackEncodeReason::FinalHashMissing)),
            (Some(_), None) => Err(
                GitError::PackEncodeError(PackEncodeReason::IdxEntriesMissing),
            ),
            (Some(pack_hash), Some(index)) => Ok(
                IndexJob {
                    object_number: self.object_number,
                    entries: copy_index(index),
                    pack_hash,
                },
            ),
        }
    }

    /// Lets the receiver of the index go.
    pub fn drop_idx_sender(&mut self)
        ensures
            final(self)@ == (EncoderState { idx_open: false, ..old(self)@ }),
            old(self)@.valid() ==> final(self)@.valid(),
    {
        self.idx_open = false;
    }

    /// Gathers what the index file is made from, for the receiver of the index, and
    /// lets the receiver go once that is done.
    pub fn encode_idx_file(&mut self) -> (r: Result<IndexJob, GitError>)
        ensures
            if old(self)@.idx_open {
                is_index_job(old(self)@, r)
            } else {
                r matches Err(e) && e@ == ErrorView::Pack(PackEncodeReason::IdxSenderMissing)
            },
            final(self)@ == if r is Ok {
                EncoderState { idx_open: false, ..old(self)@ }
            } else {
                old(self)@
            },
            old(self)@.valid() ==> final(self)@.valid(),
    {
        if !self.idx_open {
            return Err(GitError::PackEncodeError(PackEncodeReason::IdxSenderMissing));
        }
        let r = self.generate_idx_file();
        if r.is_ok() {
            self.drop_idx_sender();
        }
        r
    }
}

/// What the index file is made from, or why there cannot be one.
pub open spec fn is_index_job(s: EncoderState, r: Result<IndexJob, GitError>) -> bool {
    if s.final_hash is None {
        r matches Err(e) && e@ == ErrorView::Pack(PackEncodeReason::FinalHashMissing)
    } else if s.idx_entries is None {
        r matches Err(e) && e@ == ErrorView::Pack(PackEncodeReason::IdxEntriesMissing)
    } else {
        &&& r matches Ok(job)
        &&& job.object_number == s.object_number
        &&& job.entries@ == s.idx_entries->0
        &&& job.pack_hash@ == s.final_hash->0
    }
}

/// Copies index entries.
fn copy_index(index: &Vec<IndexEntry>) -> (r: Vec<IndexEntry>)
    ensures
        r@ == index@,
{
    let mut copy: Vec<IndexEntry> = Vec::with_capacity(index.len());
    let mut i: usize = 0;
    while i < index.len()
        invariant
            i <= index.len(),
            copy@ =~= index@.take(i as int),
        decreases index.len() - i,
    {
        copy.push(index[i]);
        i += 1;
    }
    assert(index@.take(i as int) =~= index@);
    copy
}

} // verus!
