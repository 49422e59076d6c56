//! Encoding with deltas: objects are grouped by kind, brought into the order of
//! packing, and stored as deltas against objects in a window.

use crate::blobs::{inners, is_blob_outcome, metas_of, split_meta, try_blobs_as_offset_delta};
use crate::codec::DeltaCodec;
use crate::delta::{is_group_outcome, try_as_offset_delta};
use crate::encoder::{EncoderState, PackEncoder};
use crate::errors::{ErrorView, GitError, PackEncodeReason};
use crate::hash::ObjectHash;
use crate::infer::{
    are_attached, attach_inferred_blob_paths, inferred_paths, is_attached, readable_trees,
};
use crate::object::{IndexEntry, ObjectType, PackEntry};
use crate::order::{is_arrangement, magic_sorted};
use crate::parallel::{
    after_parallel, all_inflate, not_all_encoded, result_view, MIN_BATCH_SIZE,
};
use crate::placement::{objects_of, outcome_of};
use crate::stream::{bytes_of, fitting, indexed};
use vstd::prelude::*;

verus! {

/// Whether delta-window encoding takes objects of the kind.
pub open spec fn is_windowed(kind: ObjectType) -> bool {
    kind == ObjectType::Commit || kind == ObjectType::Tree || kind == ObjectType::Blob || kind
        == ObjectType::Tag
}

/// The entries of one kind.
pub open spec fn of_kind(entries: Seq<PackEntry>, kind: ObjectType) -> Seq<PackEntry>
    decreases entries.len(),
{
    if entries.len() == 0 {
        Seq::empty()
    } else {
        let before = of_kind(entries.drop_last(), kind);
        if entries.last().inner.obj_type == kind {
            before.push(entries.last())
        } else {
            before
        }
    }
}

/// The place of the first entry from `from` on that delta-window encoding does not
/// take, or the number of entries.
pub open spec fn first_unsupported(entries: Seq<PackEntry>, from: int) -> int
    decreases entries.len() - from,
{
    if from >= entries.len() {
        entries.len() as int
    } else if !is_windowed(entries[from].inner.obj_type) {
        from
    } else {
        first_unsupported(entries, from + 1)
    }
}

/// Entries by kind.
pub struct Buckets {
    pub commits: Vec<PackEntry>,
    pub trees: Vec<PackEntry>,
    pub blobs: Vec<PackEntry>,
    pub tags: Vec<PackEntry>,
}

/// The mathematical value of [`Buckets`].
#[verifier::ext_equal]
pub struct Groups {
    pub commits: Seq<PackEntry>,
    pub trees: Seq<PackEntry>,
    pub blobs: Seq<PackEntry>,
    pub tags: Seq<PackEntry>,
}

impl View for Buckets {
    type V = Groups;

    open spec fn view(&self) -> Groups {
        Groups {
            commits: self.commits@,
            trees: self.trees@,
            blobs: self.blobs@,
            tags: self.tags@,
        }
    }
}

/// Entries grouped by kind, in the order in which they came.
pub open spec fn grouped(entries: Seq<PackEntry>) -> Groups {
    Groups {
        commits: of_kind(entries, ObjectType::Commit),
        trees: of_kind(entries, ObjectType::Tree),
        blobs: of_kind(entries, ObjectType::Blob),
        tags: of_kind(entries, ObjectType::Tag),
    }
}

/// All entries are of the kind.
pub open spec fn all_of_kind(entries: Seq<PackEntry>, kind: ObjectType) -> bool {
    forall|k: int| 0 <= k < entries.len() ==> (#[trigger] entries[k]).inner.obj_type == kind
}

impl Groups {
    /// Every entry is in the group of its kind.
    pub open spec fn by_kind(self) -> bool {
        &&& all_of_kind(self.commits, ObjectType::Commit)
        &&& all_of_kind(self.trees, ObjectType::Tree)
        &&& all_of_kind(self.blobs, ObjectType::Blob)
        &&& all_of_kind(self.tags, ObjectType::Tag)
    }

    /// One more entry in the group of its kind.
    pub open spec fn with(self, entry: PackEntry) -> Self {
        match entry.inner.obj_type {
            ObjectType::Commit => Groups { commits: self.commits.push(entry), ..self },
            ObjectType::Tree => Groups { trees: self.trees.push(entry), ..self },
            ObjectType::Blob => Groups { blobs: self.blobs.push(entry), ..self },
            ObjectType::Tag => Groups { tags: self.tags.push(entry), ..self },
            _ => self,
        }
    }
}

impl Buckets {
    /// No entries.
    pub fn new() -> (r: Self)
        ensures
            r@ == grouped(Seq::empty()),
            r@.by_kind(),
    {
        let r = Buckets {
            commits: Vec::new(),
            trees: Vec::new(),
            blobs: Vec::new(),
            tags: Vec::new(),
        };
        assert(r@ =~= grouped(Seq::empty()));
        r
    }
}

/// What the encoding of one group comes to: its objects, or an error.
pub type GroupOutcome = Result<Seq<(Seq<u8>, ObjectHash)>, ErrorView>;

/// What happens to the groups on the way into the pack.
pub struct WindowRun {
    /// The blobs with the paths that were found for them.
    pub attached: Seq<PackEntry>,
    /// The groups in the order of packing.
    pub arranged: Groups,
    pub commit_out: GroupOutcome,
    pub tree_out: GroupOutcome,
    pub blob_out: GroupOutcome,
    pub tag_out: GroupOutcome,
}

/// How the groups may be prepared. Blobs get the paths that the commits and trees
/// give to them, and each group is brought into the order of packing.
pub open spec fn is_prepared(
    groups: Groups,
    attached: Seq<PackEntry>,
    arranged: Groups,
) -> bool {
    let trees = readable_trees(inners(groups.trees), groups.trees.len() as int);
    &&& are_attached(groups.blobs, attached, inferred_paths(inners(groups.commits), trees))
    &&& is_arrangement(groups.commits, arranged.commits)
    &&& is_arrangement(groups.trees, arranged.trees)
    &&& is_arrangement(attached, arranged.blobs)
    &&& is_arrangement(groups.tags, arranged.tags)
}

/// What may happen to the groups: they are prepared, and each is encoded.
pub open spec fn is_run<
    R: Fn(&[u8], &[u8]) -> u64,
    H: Fn(&[u8], &[u8]) -> u64,
    E: Fn(&[u8], &[u8]) -> Vec<u8>,
    D: Fn(&[u8], &[u8]) -> Result<Vec<u8>, String>,
>(
    codec: DeltaCodec<R, H, E, D>,
    groups: Groups,
    window_size: usize,
    zstd: bool,
    run: WindowRun,
) -> bool {
    &&& is_prepared(groups, run.attached, run.arranged)
    &&& is_group_outcome(
        codec,
        inners(run.arranged.commits),
        window_size,
        zstd,
        run.commit_out,
    )
    &&& is_group_outcome(codec, inners(run.arranged.trees), window_size, zstd, run.tree_out)
    &&& is_blob_outcome(
        codec,
        inners(run.arranged.blobs),
        metas_of(run.arranged.blobs),
        window_size,
        zstd,
        run.blob_out,
    )
    &&& is_group_outcome(codec, inners(run.arranged.tags), window_size, zstd, run.tag_out)
}

/// A delta that fails brings down the task that encodes commits, trees or tags.
pub open spec fn task_failed(out: GroupOutcome) -> bool {
    out matches Err(e) && e is Delta
}

/// The objects of all groups, in the order in which they are written, or the error
/// that is reported: a task that failed, or else the first error.
pub open spec fn joined_outcome(
    commits: GroupOutcome,
    trees: GroupOutcome,
    blobs: GroupOutcome,
    tags: GroupOutcome,
) -> GroupOutcome {
    if task_failed(commits) || task_failed(trees) || task_failed(tags) {
        Err(ErrorView::Pack(PackEncodeReason::TaskFailed))
    } else {
        match (commits, trees, blobs, tags) {
            (Err(e), _, _, _) => Err(e),
            (_, Err(e), _, _) => Err(e),
            (_, _, Err(e), _) => Err(e),
            (_, _, _, Err(e)) => Err(e),
            (Ok(c), Ok(t), Ok(b), Ok(g)) => Ok(c + t + b + g),
        }
    }
}

/// The objects of a run, in the order in which they are written, or the error that
/// is reported.
pub open spec fn all_objects(run: WindowRun) -> GroupOutcome {
    joined_outcome(run.commit_out, run.tree_out, run.blob_out, run.tag_out)
}

/// What writing the objects of all groups does to the encoder, and success or the
/// error.
pub open spec fn after_outcome(s: EncoderState, out: GroupOutcome) -> (
    EncoderState,
    Result<(), ErrorView>,
) {
    match out {
        Err(e) => (s, Err(e)),
        Ok(objects) => {
            let chunks = bytes_of(objects);
            let n = fitting(s.offset, chunks);
            if n < objects.len() {
                (
                    s.written(chunks.take(n as int)),
                    Err(ErrorView::Pack(PackEncodeReason::PackTooLarge)),
                )
            } else {
                let written = s.written(chunks).with_index(indexed(objects, s.offset));
                if s.process_index != s.object_number {
                    (written, Err(not_all_encoded(s)))
                } else {
                    (written.finished(), Ok(()))
                }
            }
        },
    }
}

/// What a run does to the encoder, and success or the error.
pub open spec fn after_run(s: EncoderState, run: WindowRun) -> (
    EncoderState,
    Result<(), ErrorView>,
) {
    after_outcome(s, all_objects(run))
}

/// What encoding with deltas may do: the encoder after it, and success or the
/// error.
pub open spec fn is_after_window<
    R: Fn(&[u8], &[u8]) -> u64,
    H: Fn(&[u8], &[u8]) -> u64,
    E: Fn(&[u8], &[u8]) -> Vec<u8>,
    D: Fn(&[u8], &[u8]) -> Result<Vec<u8>, String>,
>(
    codec: DeltaCodec<R, H, E, D>,
    s: EncoderState,
    entries: Seq<PackEntry>,
    zstd: bool,
    after: (EncoderState, Result<(), ErrorView>),
) -> bool {
    let stop = first_unsupported(entries, 0);
    if s.started {
        after == (s, Err::<(), ErrorView>(ErrorView::Pack(PackEncodeReason::AlreadyInProgress)))
    } else if stop < entries.len() {
        after == (
            s.begun().counted(stop as nat),
            Err::<(), ErrorView>(
                ErrorView::Pack(
                    PackEncodeReason::UnsupportedInWindow(entries[stop].inner.obj_type),
                ),
            ),
        )
    } else {
        is_after_groups(
            codec,
            s.begun().counted(entries.len()),
            grouped(entries),
            zstd,
            after,
        )
    }
}

/// What encoding groups with deltas may do.
pub open spec fn is_after_groups<
    R: Fn(&[u8], &[u8]) -> u64,
    H: Fn(&[u8], &[u8]) -> u64,
    E: Fn(&[u8], &[u8]) -> Vec<u8>,
    D: Fn(&[u8], &[u8]) -> Result<Vec<u8>, String>,
>(
    codec: DeltaCodec<R, H, E, D>,
    s: EncoderState,
    groups: Groups,
    zstd: bool,
    after: (EncoderState, Result<(), ErrorView>),
) -> bool {
    exists|run: WindowRun| #[trigger]
        is_run(codec, groups, s.window_size, zstd, run) && after == after_run(s, run)
}

/// Entries that are only arranged keep their kinds.
pub proof fn arranging_keeps_kinds(
    entries: Seq<PackEntry>,
    arranged: Seq<PackEntry>,
    kind: ObjectType,
)
    requires
        is_arrangement(entries, arranged),
        all_of_kind(entries, kind),
    ensures
        all_of_kind(arranged, kind),
{
    assert forall|k: int| 0 <= k < arranged.len() implies (#[trigger]
    arranged[k]).inner.obj_type == kind by {
        vstd::seq_lib::to_multiset_contains(arranged, arranged[k]);
        assert(arranged.contains(arranged[k]));
        vstd::seq_lib::to_multiset_contains(entries, arranged[k]);
        let j = choose|j: int| 0 <= j < entries.len() && entries[j] == arranged[k];
        assert(entries[j].inner.obj_type == kind);
    }
}

/// The groups of one more entry.
proof fn grouping_one_more(entries: Seq<PackEntry>, entry: PackEntry)
    ensures
        grouped(entries.push(entry)) == grouped(entries).with(entry),
{
    assert(entries.push(entry).drop_last() =~= entries);
}

/// Where all entries up to a place are taken, the search can go on from there.
proof fn first_unsupported_passes(entries: Seq<PackEntry>, from: int, to: int)
    requires
        0 <= from <= to <= entries.len(),
        forall|k: int| from <= k < to ==> is_windowed((#[trigger] entries[k]).inner.obj_type),
    ensures
        first_unsupported(entries, from) == first_unsupported(entries, to),
    decreases to - from,
{
    if from < to {
        first_unsupported_passes(entries, from + 1, to);
        assert(is_windowed(entries[from].inner.obj_type));
    }
}

/// Blobs with paths are blobs.
pub proof fn attached_blobs_are_blobs(
    blobs: Seq<PackEntry>,
    attached: Seq<PackEntry>,
    paths: Map<Seq<u8>, Seq<char>>,
)
    requires
        are_attached(blobs, attached, paths),
        all_of_kind(blobs, ObjectType::Blob),
    ensures
        all_of_kind(attached, ObjectType::Blob),
{
    assert forall|k: int| 0 <= k < attached.len() implies (#[trigger]
    attached[k]).inner.obj_type == ObjectType::Blob by {
        assert(is_attached(blobs[k], attached[k], paths));
        assert(blobs[k].inner.obj_type == ObjectType::Blob);
    }
}

impl Buckets {
    /// Gives the blobs the paths that the commits and trees give to them, and brings
    /// each group into the order of packing.
    pub fn prepare(self) -> (r: Buckets)
        ensures
            exists|attached: Seq<PackEntry>| is_prepared(self@, attached, r@),
            self@.by_kind() ==> r@.by_kind(),
    {
        let ghost groups = self@;
        let Buckets { commits, trees, mut blobs, tags } = self;
        attach_inferred_blob_paths(&commits, &trees, &mut blobs);
        let ghost attached = blobs@;
        let r = Buckets {
            commits: magic_sorted(commits),
            trees: magic_sorted(trees),
            blobs: magic_sorted(blobs),
            tags: magic_sorted(tags),
        };
        assert(is_prepared(groups, attached, r@));
        proof {
            if groups.by_kind() {
                let read = readable_trees(inners(groups.trees), groups.trees.len() as int);
                attached_blobs_are_blobs(
                    groups.blobs,
                    attached,
                    inferred_paths(inners(groups.commits), read),
                );
                arranging_keeps_kinds(groups.commits, r@.commits, ObjectType::Commit);
                arranging_keeps_kinds(groups.trees, r@.trees, ObjectType::Tree);
                arranging_keeps_kinds(attached, r@.blobs, ObjectType::Blob);
                arranging_keeps_kinds(groups.tags, r@.tags, ObjectType::Tag);
            }
        }
        r
    }
}

/// Encodes a group of commits, trees or tags, without regard to where they stand.
pub fn encode_group<
    R: Fn(&[u8], &[u8]) -> u64,
    H: Fn(&[u8], &[u8]) -> u64,
    E: Fn(&[u8], &[u8]) -> Vec<u8>,
    D: Fn(&[u8], &[u8]) -> Result<Vec<u8>, String>,
>(
    group: Vec<PackEntry>,
    window_size: usize,
    enable_zstdelta: bool,
    codec: &DeltaCodec<R, H, E, D>,
) -> (r: Result<Vec<(Vec<u8>, IndexEntry)>, GitError>)
    requires
        codec.total(),
        forall|k: int|
            0 <= k < group.len() ==> !(#[trigger] group@[k]).inner.obj_type.is_delta(),
    ensures
        is_group_outcome(
            *codec,
            inners(group@),
            window_size,
            enable_zstdelta,
            outcome_of(r),
        ),
        r matches Ok(out) ==> forall|k: int|
            0 <= k < out@.len() ==> (#[trigger] out@[k]).1.offset == 0,
{
    let (entries, _) = split_meta(group);
    assert forall|k: int| 0 <= k < entries.len() implies !(#[trigger]
    entries@[k]).obj_type.is_delta() by {
        assert(!group@[k].inner.obj_type.is_delta());
    }
    try_as_offset_delta(entries, window_size, enable_zstdelta, codec)
}

/// Whether a task was brought down by a delta that failed.
fn is_task_failure(r: &Result<Vec<(Vec<u8>, IndexEntry)>, GitError>) -> (failed: bool)
    ensures
        failed == task_failed(outcome_of(*r)),
{
    match r {
        Err(GitError::DeltaObjectError(_)) => true,
        _ => false,
    }
}

/// Puts the objects of the groups one behind the other, or picks the error to report.
fn join_groups(
    commits: Result<Vec<(Vec<u8>, IndexEntry)>, GitError>,
    trees: Result<Vec<(Vec<u8>, IndexEntry)>, GitError>,
    blobs: Result<Vec<(Vec<u8>, IndexEntry)>, GitError>,
    tags: Result<Vec<(Vec<u8>, IndexEntry)>, GitError>,
) -> (r: Result<Vec<(Vec<u8>, IndexEntry)>, GitError>)
    ensures
        outcome_of(r) == joined_outcome(
            outcome_of(commits),
            outcome_of(trees),
            outcome_of(blobs),
            outcome_of(tags),
        ),
{
    if is_task_failure(&commits) || is_task_failure(&trees) || is_task_failure(&tags) {
        return Err(GitError::PackEncodeError(PackEncodeReason::TaskFailed));
    }
    let mut all = match commits {
        Ok(objects) => objects,
        Err(e) => {
            return Err(e);
        },
    };
    let mut trees = match trees {
        Ok(objects) => objects,
        Err(e) => {
            return Err(e);
        },
    };
    let mut blobs = match blobs {
        Ok(objects) => objects,
        Err(e) => {
            return Err(e);
        },
    };
    let mut tags = match tags {
        Ok(objects) => objects,
        Err(e) => {
            return Err(e);
        },
    };
    let ghost (c, t, b, g) = (all@, trees@, blobs@, tags@);
    all.append(&mut trees);
    all.append(&mut blobs);
    all.append(&mut tags);
    assert(objects_of(all@) =~= objects_of(c) + objects_of(t) + objects_of(b) + objects_of(g));
    Ok(all)
}

impl PackEncoder {
    /// Takes in one object for encoding with deltas. Commits, trees, blobs and tags
    /// are taken.
    pub fn collect(&mut self, buckets: &mut Buckets, entry: PackEntry) -> (r: Result<(), GitError>)
        requires
            old(self)@.valid(),
            old(self)@.writing(),
            old(self)@.process_index < usize::MAX,
        ensures
            final(self)@.valid(),
            final(self)@.writing(),
            match r {
                Ok(_) => {
                    &&& is_windowed(entry.inner.obj_type)
                    &&& final(self)@ == old(self)@.counted(1)
                    &&& final(buckets)@ == old(buckets)@.with(entry)
                    &&& old(buckets)@.by_kind() ==> final(buckets)@.by_kind()
                },
                Err(e) => {
                    &&& !is_windowed(entry.inner.obj_type)
                    &&& e@ == ErrorView::Pack(
                        PackEncodeReason::UnsupportedInWindow(entry.inner.obj_type),
                    )
                    &&& final(self)@ == old(self)@
                    &&& final(buckets)@ == old(buckets)@
                },
            },
    {
        let obj_type = entry.inner.obj_type;
        match obj_type {
            ObjectType::Commit => {
                buckets.commits.push(entry);
            },
            ObjectType::Tree => {
                buckets.trees.push(entry);
            },
            ObjectType::Blob => {
                buckets.blobs.push(entry);
            },
            ObjectType::Tag => {
                buckets.tags.push(entry);
            },
            _ => {
                return Err(
                    GitError::PackEncodeError(PackEncodeReason::UnsupportedInWindow(obj_type)),
                );
            },
        }
        self.count_one();
        Ok(())
    }

    /// Writes the encoded groups, and ends the pack.
    pub fn write_groups(
        &mut self,
        commits: Result<Vec<(Vec<u8>, IndexEntry)>, GitError>,
        trees: Result<Vec<(Vec<u8>, IndexEntry)>, GitError>,
        blobs: Result<Vec<(Vec<u8>, IndexEntry)>, GitError>,
        tags: Result<Vec<(Vec<u8>, IndexEntry)>, GitError>,
    ) -> (r: Result<(), GitError>)
        requires
            old(self)@.valid(),
            old(self)@.writing(),
        ensures
            final(self)@.valid(),
            (final(self)@, result_view(r)) == after_outcome(
                old(self)@,
                joined_outcome(
                    outcome_of(commits),
                    outcome_of(trees),
                    outcome_of(blobs),
                    outcome_of(tags),
                ),
            ),
    {
        let ghost s = self@;
        let objects = match join_groups(commits, trees, blobs, tags) {
            Ok(objects) => objects,
            Err(e) => {
                return Err(e);
            },
        };
        let mut index: Vec<IndexEntry> = Vec::new();
        let ghost all = objects_of(objects@);
        proof {
            let chunks = bytes_of(all);
            assert(chunks.take(chunks.len() as int) =~= chunks);
            assert(Seq::<IndexEntry>::empty() + indexed(all, s.offset).take(all.len() as int)
                =~= indexed(all, s.offset));
        }
        if let Err(e) = self.write_objects(objects, &mut index) {
            return Err(e);
        }
        self.set_index(index);
        if self.received() != self.announced() {
            return Err(
                GitError::PackEncodeError(
                    PackEncodeReason::NotAllEncoded {
                        process: self.received(),
                        total: self.announced(),
                    },
                ),
            );
        }
        self.finish();
        Ok(())
    }

    /// Encodes and writes the objects that were taken in, and ends the pack.
    pub fn encode_groups<
        R: Fn(&[u8], &[u8]) -> u64,
        H: Fn(&[u8], &[u8]) -> u64,
        E: Fn(&[u8], &[u8]) -> Vec<u8>,
        D: Fn(&[u8], &[u8]) -> Result<Vec<u8>, String>,
    >(&mut self, buckets: Buckets, enable_zstdelta: bool, codec: &DeltaCodec<R, H, E, D>) -> (r:
        Result<(), GitError>)
        requires
            old(self)@.valid(),
            old(self)@.writing(),
            codec.total(),
            buckets@.by_kind(),
        ensures
            final(self)@.valid(),
            is_after_groups(
                *codec,
                old(self)@,
                buckets@,
                enable_zstdelta,
                (final(self)@, result_view(r)),
            ),
    {
        let window_size: usize = self.window();
        let prepared = buckets.prepare();
        let ghost arranged = prepared@;
        let ghost attached = choose|attached: Seq<PackEntry>|
            is_prepared(buckets@, attached, arranged);
        let Buckets { commits, trees, blobs, tags } = prepared;
        proof {
            assert forall|k: int| 0 <= k < arranged.commits.len() implies !(#[trigger]
            arranged.commits[k]).inner.obj_type.is_delta() by {
                assert(arranged.commits[k].inner.obj_type == ObjectType::Commit);
            }
            assert forall|k: int| 0 <= k < arranged.trees.len() implies !(#[trigger]
            arranged.trees[k]).inner.obj_type.is_delta() by {
                assert(arranged.trees[k].inner.obj_type == ObjectType::Tree);
            }
            assert forall|k: int| 0 <= k < arranged.blobs.len() implies !(#[trigger]
            arranged.blobs[k]).inner.obj_type.is_delta() by {
                assert(arranged.blobs[k].inner.obj_type == ObjectType::Blob);
            }
            assert forall|k: int| 0 <= k < arranged.tags.len() implies !(#[trigger]
            arranged.tags[k]).inner.obj_type.is_delta() by {
                assert(arranged.tags[k].inner.obj_type == ObjectType::Tag);
            }
        }
        let commit_results = encode_group(commits, window_size, enable_zstdelta, codec);
        let tree_results = encode_group(trees, window_size, enable_zstdelta, codec);
        let blob_results = try_blobs_as_offset_delta(blobs, window_size, enable_zstdelta, codec);
        let tag_results = encode_group(tags, window_size, enable_zstdelta, codec);
        let ghost run = WindowRun {
            attached,
            arranged,
            commit_out: outcome_of(commit_results),
            tree_out: outcome_of(tree_results),
            blob_out: outcome_of(blob_results),
            tag_out: outcome_of(tag_results),
        };
        assert(is_run(*codec, buckets@, window_size, enable_zstdelta, run));
        self.write_groups(commit_results, tree_results, blob_results, tag_results)
    }

    /// Encodes objects with deltas. This can be done only once.
    pub fn inner_encode<
        R: Fn(&[u8], &[u8]) -> u64,
        H: Fn(&[u8], &[u8]) -> u64,
        E: Fn(&[u8], &[u8]) -> Vec<u8>,
        D: Fn(&[u8], &[u8]) -> Result<Vec<u8>, String>,
    >(
        &mut self,
        entries: Vec<PackEntry>,
        enable_zstdelta: bool,
        codec: &DeltaCodec<R, H, E, D>,
    ) -> (r: Result<(), GitError>)
        requires
            old(self)@.valid(),
            codec.total(),
            !old(self)@.started ==> 0 < old(self)@.object_number <= u32::MAX,
        ensures
            final(self)@.valid(),
            is_after_window(
                *codec,
                old(self)@,
                entries@,
                enable_zstdelta,
                (final(self)@, result_view(r)),
            ),
    {
        if let Err(e) = self.begin() {
            return Err(e);
        }
        let ghost s = self@;
        let mut buckets = Buckets::new();
        proof {
            assert(s.counted(0) =~= s);
            assert(entries@.take(0) =~= Seq::empty());
        }
        let total: usize = entries.len();
        for entry in it: entries
            invariant
                it.seq() == entries@,
                total == entries@.len(),
                s == old(self)@.begun(),
                !old(self)@.started,
                s.process_index == 0,
                self@.valid(),
                self@.writing(),
                self@ == s.counted(it.index() as nat),
                buckets@ == grouped(entries@.take(it.index())),
                buckets@.by_kind(),
                forall|k: int|
                    0 <= k < it.index() ==> is_windowed((#[trigger] entries@[k]).inner.obj_type),
        {
            let ghost i = it.index();
            proof {
                assert(entry == entries@[i]);
                grouping_one_more(entries@.take(i), entry);
                assert(entries@.take(i + 1) =~= entries@.take(i).push(entry));
                first_unsupported_passes(entries@, 0, i);
            }
            if let Err(e) = self.collect(&mut buckets, entry) {
                return Err(e);
            }
            assert(self@ =~= s.counted((i + 1) as nat));
        }
        proof {
            first_unsupported_passes(entries@, 0, entries@.len() as int);
            assert(entries@.take(entries@.len() as int) =~= entries@);
        }
        self.encode_groups(buckets, enable_zstdelta, codec)
    }

    /// Encodes objects: without deltas if there is no window, with zstd deltas
    /// otherwise. `capacity` is that of the channel in which objects wait, which
    /// only the size of batches depends on. This can be done only once.
    pub fn encode<
        R: Fn(&[u8], &[u8]) -> u64,
        H: Fn(&[u8], &[u8]) -> u64,
        E: Fn(&[u8], &[u8]) -> Vec<u8>,
        D: Fn(&[u8], &[u8]) -> Result<Vec<u8>, String>,
    >(&mut self, entries: Vec<PackEntry>, capacity: usize, codec: &DeltaCodec<R, H, E, D>) -> (r:
        Result<(), GitError>)
        requires
            old(self)@.valid(),
            codec.total(),
            !old(self)@.started ==> 0 < old(self)@.object_number <= u32::MAX,
            !old(self)@.started && old(self)@.window_size == 0 ==> forall|k: int|
                0 <= k < entries.len() ==> !(#[trigger] entries@[k]).inner.obj_type.is_delta(),
        ensures
            final(self)@.valid(),
            if old(self)@.window_size == 0 {
                (final(self)@, result_view(r)) == after_parallel(
                    old(self)@,
                    inners(entries@),
                    if capacity / 10 > MIN_BATCH_SIZE {
                        (capacity / 10) as nat
                    } else {
                        MIN_BATCH_SIZE as nat
                    },
                ) && (r is Ok ==> all_inflate(inners(entries@)))
            } else {
                is_after_window(
                    *codec,
                    old(self)@,
                    entries@,
                    true,
                    (final(self)@, result_view(r)),
                )
            },
    {
        if self.window() == 0 {
            self.parallel_encode(entries, capacity)
        } else {
            self.inner_encode(entries, true, codec)
        }
    }

    /// Encodes objects with zstd deltas, whatever the window. This can be done only
    /// once.
    pub fn encode_with_zstdelta<
        R: Fn(&[u8], &[u8]) -> u64,
        H: Fn(&[u8], &[u8]) -> u64,
        E: Fn(&[u8], &[u8]) -> Vec<u8>,
        D: Fn(&[u8], &[u8]) -> Result<Vec<u8>, String>,
    >(&mut self, entries: Vec<PackEntry>, codec: &DeltaCodec<R, H, E, D>) -> (r: Result<
        (),
        GitError,
    >)
        requires
            old(self)@.valid(),
            codec.total(),
            !old(self)@.started ==> 0 < old(self)@.object_number <= u32::MAX,
        ensures
            final(self)@.valid(),
            is_after_window(
                *codec,
                old(self)@,
                entries@,
                true,
                (final(self)@, result_view(r)),
            ),
    {
        self.inner_encode(entries, true, codec)
    }
}

} // verus!
