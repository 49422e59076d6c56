use pack_encode::blobs::try_blobs_as_offset_delta;
use pack_encode::codec::DeltaCodec;
use pack_encode::encoder::PackEncoder;
use pack_encode::errors::{GitError, PackEncodeReason};
use pack_encode::hash::{HashKind, ObjectHash};
use pack_encode::object::{Entry, EntryMeta, IndexEntry, MetaAttached, ObjectType, PackEntry};
use pack_encode::parallel::batch_size;
use pack_encode::windowed::{encode_group, Buckets};
use sha1::Digest;
use std::io::Read;

const WHOLE: u64 = 1 << 53;

fn shared_start(base: &[u8], target: &[u8]) -> usize {
    base.iter().zip(target).take_while(|(a, b)| a == b).count()
}

fn rate(base: &[u8], target: &[u8]) -> u64 {
    (shared_start(base, target) as u128 * WHOLE as u128 / target.len().max(1) as u128) as u64
}

fn diff(base: &[u8], target: &[u8]) -> Vec<u8> {
    let shared = shared_start(base, target);
    let mut delta = (shared as u32).to_be_bytes().to_vec();
    delta.extend_from_slice(&target[shared..]);
    delta
}

fn patch(base: &[u8], delta: &[u8]) -> Vec<u8> {
    let shared = u32::from_be_bytes([delta[0], delta[1], delta[2], delta[3]]) as usize;
    let mut target = base[..shared].to_vec();
    target.extend_from_slice(&delta[4..]);
    target
}

fn zstd(base: &[u8], target: &[u8]) -> Result<Vec<u8>, String> {
    Ok(diff(base, target))
}

fn broken(_: &[u8], _: &[u8]) -> Result<Vec<u8>, String> {
    Err("broken".to_owned())
}

fn encode(
    encoder: &mut PackEncoder,
    entries: Vec<PackEntry>,
) -> Result<(), GitError> {
    let codec = DeltaCodec {
        encode_rate: rate,
        heuristic_encode_rate: rate,
        encode: diff,
        zstd_diff: zstd,
    };
    encoder.encode(entries, 1, &codec)
}

fn hash_of(kind: HashKind, data: &[u8]) -> Vec<u8> {
    match kind {
        HashKind::Sha1 => sha1::Sha1::digest(data).to_vec(),
        HashKind::Sha256 => sha2::Sha256::digest(data).to_vec(),
    }
}

fn entry(kind: HashKind, obj_type: ObjectType, name: &str, content: &str) -> PackEntry {
    let mut all = format!("{name} {}\0", content.len()).into_bytes();
    all.extend_from_slice(content.as_bytes());
    MetaAttached {
        inner: Entry {
            obj_type,
            data: content.as_bytes().to_vec(),
            hash: ObjectHash::from_bytes(&hash_of(kind, &all)).unwrap(),
            chain_len: 0,
        },
        meta: EntryMeta::new(),
    }
}

fn blob(content: &str) -> PackEntry {
    entry(HashKind::Sha1, ObjectType::Blob, "blob", content)
}

fn reason(r: Result<(), GitError>) -> PackEncodeReason {
    match r {
        Err(GitError::PackEncodeError(reason)) => reason,
        _ => panic!("encoding has to be refused"),
    }
}

fn bytes_of(encoder: &mut PackEncoder) -> Vec<u8> {
    encoder.take_chunks().concat()
}

/// Reads a pack, and returns each object with its place.
fn read_pack(pack: &[u8], kind: HashKind) -> Vec<(u64, ObjectType, Vec<u8>)> {
    assert_eq!(&pack[..8], b"PACK\0\0\0\x02");
    let count = u32::from_be_bytes([pack[8], pack[9], pack[10], pack[11]]);
    let end = pack.len() - kind.size();
    assert_eq!(pack[end..], hash_of(kind, &pack[..end])[..]);
    let mut objects: Vec<(u64, ObjectType, Vec<u8>)> = Vec::new();
    let mut at = 12;
    while at < end {
        let start = at;
        let number = (pack[at] >> 4) & 0x07;
        let mut size = (pack[at] & 0x0f) as usize;
        let mut shift = 4;
        while pack[at] & 0x80 != 0 {
            at += 1;
            size |= ((pack[at] & 0x7f) as usize) << shift;
            shift += 7;
        }
        at += 1;
        let obj_type = ObjectType::from_pack_type_u8(number).unwrap();
        let mut base = None;
        if obj_type == ObjectType::OffsetZstdelta {
            let mut distance = (pack[at] & 0x7f) as u64;
            while pack[at] & 0x80 != 0 {
                at += 1;
                distance = ((distance + 1) << 7) | (pack[at] & 0x7f) as u64;
            }
            at += 1;
            let place = start as u64 - distance;
            base = Some(objects.iter().find(|o| o.0 == place).unwrap().clone());
        }
        let mut decoder = flate2::bufread::ZlibDecoder::new(&pack[at..end]);
        let mut data = Vec::new();
        decoder.read_to_end(&mut data).unwrap();
        at += decoder.total_in() as usize;
        assert_eq!(data.len(), size);
        match base {
            Some((_, base_type, base_data)) => {
                objects.push((start as u64, base_type, patch(&base_data, &data)));
            }
            None => objects.push((start as u64, obj_type, data)),
        }
    }
    assert_eq!(objects.len(), count as usize);
    objects
}

/// Encodes, and reads the pack again: it holds the objects that went in.
fn encode_once(kind: HashKind, window_size: usize, entries: Vec<PackEntry>) -> Vec<u8> {
    let mut expected: Vec<Vec<u8>> = entries.iter().map(|e| e.inner.data.clone()).collect();
    let mut encoder = PackEncoder::new(entries.len(), window_size, kind);
    encode(&mut encoder, entries).unwrap();
    let pack = bytes_of(&mut encoder);
    let hash = encoder.get_hash().unwrap();
    assert_eq!(hash.as_bytes(), &pack[pack.len() - kind.size()..]);
    let mut found: Vec<Vec<u8>> = read_pack(&pack, kind).into_iter().map(|o| o.2).collect();
    expected.sort();
    found.sort();
    assert_eq!(found, expected);
    pack
}

fn some_blobs(kind: HashKind) -> Vec<PackEntry> {
    ["hello, word", "hello, world.", "!", "123141251251"]
        .iter()
        .map(|s| entry(kind, ObjectType::Blob, "blob", s))
        .collect()
}

#[test]
fn test_pack_encoder() {
    // without delta
    let pack_without_delta = encode_once(HashKind::Sha1, 0, some_blobs(HashKind::Sha1));
    let pack_without_delta_size = pack_without_delta.len();

    // with delta
    let pack_with_delta = encode_once(HashKind::Sha1, 4, some_blobs(HashKind::Sha1));
    assert!(pack_with_delta.len() <= pack_without_delta_size);
}

#[test]
fn test_pack_encoder_sha256() {
    // without delta
    let pack_without_delta = encode_once(HashKind::Sha256, 0, some_blobs(HashKind::Sha256));
    let pack_without_delta_size = pack_without_delta.len();

    // with delta
    let pack_with_delta = encode_once(HashKind::Sha256, 4, some_blobs(HashKind::Sha256));
    assert!(pack_with_delta.len() <= pack_without_delta_size);
}

#[test]
fn test_pack_encoder_rejects_unencodable_ai_type_parallel() {
    let mut encoder = PackEncoder::new(1, 0, HashKind::Sha1);
    let mut entry = blob("ai");
    entry.inner.obj_type = ObjectType::Task;

    let r = encode(&mut encoder, vec![entry]);
    assert_eq!(reason(r), PackEncodeReason::AiObject(ObjectType::Task));
    assert!(encoder.get_hash().is_none());
}

#[test]
fn test_pack_encoder_rejects_unencodable_ai_type_delta_window() {
    let mut encoder = PackEncoder::new(1, 10, HashKind::Sha1);
    let mut entry = blob("ai");
    entry.inner.obj_type = ObjectType::Task;

    let r = encode(&mut encoder, vec![entry]);
    assert_eq!(reason(r), PackEncodeReason::UnsupportedInWindow(ObjectType::Task));
    assert!(encoder.get_hash().is_none());
}

#[test]
fn deltas_are_written_and_read_back() {
    let text = "a line of a file that changes little\n".repeat(60);
    let entries: Vec<PackEntry> = (0..20).map(|i| blob(&format!("{text}{i}"))).collect();
    let with = encode_once(HashKind::Sha1, 10, entries.clone());
    let without = encode_once(HashKind::Sha1, 0, entries);
    assert!(with.len() < without.len());
}

#[test]
fn kinds_are_written_in_order() {
    let entries = vec![
        entry(HashKind::Sha1, ObjectType::Tag, "tag", "a tag"),
        blob("a blob"),
        entry(HashKind::Sha1, ObjectType::Tree, "tree", ""),
        entry(HashKind::Sha1, ObjectType::Commit, "commit", "tree 00\n"),
        blob("a longer blob"),
    ];
    let pack = encode_once(HashKind::Sha1, 3, entries);
    let kinds: Vec<ObjectType> =
        read_pack(&pack, HashKind::Sha1).into_iter().map(|o| o.1).collect();
    assert_eq!(
        kinds,
        vec![
            ObjectType::Commit,
            ObjectType::Tree,
            ObjectType::Blob,
            ObjectType::Blob,
            ObjectType::Tag,
        ]
    );
}

#[test]
fn index_leads_to_the_objects() {
    for window_size in [0, 5] {
        let mut encoder = PackEncoder::new_with_idx(4, window_size, HashKind::Sha1);
        encode(&mut encoder, some_blobs(HashKind::Sha1)).unwrap();
        let pack = bytes_of(&mut encoder);
        let objects = read_pack(&pack, HashKind::Sha1);
        let job = encoder.encode_idx_file().unwrap();
        assert_eq!(job.object_number, 4);
        assert_eq!(Some(job.pack_hash), encoder.get_hash());
        assert_eq!(job.entries.len(), 4);
        for (index_entry, object) in job.entries.iter().zip(&objects) {
            assert_eq!(index_entry.offset, object.0);
            let content = String::from_utf8(object.2.clone()).unwrap();
            assert_eq!(index_entry.hash, blob(&content).inner.hash);
        }
    }
}

#[test]
fn index_needs_a_receiver_and_a_pack() {
    let missing = |r: Result<pack_encode::encoder::IndexJob, GitError>| match r {
        Err(GitError::PackEncodeError(reason)) => reason,
        _ => panic!("there is no index"),
    };
    let mut without = PackEncoder::new(4, 0, HashKind::Sha1);
    encode(&mut without, some_blobs(HashKind::Sha1)).unwrap();
    assert_eq!(missing(without.encode_idx_file()), PackEncodeReason::IdxSenderMissing);
    assert!(without.generate_idx_file().is_ok());
    let mut fresh = PackEncoder::new(4, 0, HashKind::Sha1);
    assert_eq!(missing(fresh.generate_idx_file()), PackEncodeReason::FinalHashMissing);
    assert_eq!(missing(fresh.encode_idx_file()), PackEncodeReason::IdxSenderMissing);
    let mut early = PackEncoder::new_with_idx(4, 0, HashKind::Sha1);
    assert_eq!(missing(early.encode_idx_file()), PackEncodeReason::FinalHashMissing);
    encode(&mut early, some_blobs(HashKind::Sha1)).unwrap();
    assert!(early.generate_idx_file().is_ok());
    assert!(early.encode_idx_file().is_ok());
    assert_eq!(missing(early.encode_idx_file()), PackEncodeReason::IdxSenderMissing);
}

#[test]
fn encoding_happens_once() {
    for window_size in [0, 5] {
        let mut encoder = PackEncoder::new(4, window_size, HashKind::Sha1);
        encode(&mut encoder, some_blobs(HashKind::Sha1)).unwrap();
        let hash = encoder.get_hash();
        let r = encode(&mut encoder, some_blobs(HashKind::Sha1));
        assert_eq!(reason(r), PackEncodeReason::AlreadyInProgress);
        assert_eq!(encoder.get_hash(), hash);
        read_pack(&bytes_of(&mut encoder), HashKind::Sha1);
    }
}

#[test]
fn window_is_refused_without_deltas() {
    let mut encoder = PackEncoder::new(4, 5, HashKind::Sha1);
    let r = encoder.parallel_encode(some_blobs(HashKind::Sha1), 1);
    assert_eq!(reason(r), PackEncodeReason::WindowNotZero);
    assert!(encoder.take_chunks().is_empty());
    assert!(!encoder.is_started());
}

#[test]
fn missing_objects_are_noticed() {
    let mut encoder = PackEncoder::new(5, 5, HashKind::Sha1);
    let r = encode(&mut encoder, some_blobs(HashKind::Sha1));
    assert_eq!(reason(r), PackEncodeReason::NotAllEncoded { process: 4, total: 5 });
    assert!(encoder.get_hash().is_none());
    assert_eq!(encoder.received(), 4);
    assert_eq!(encoder.announced(), 5);
}

#[test]
fn missing_objects_are_noticed_without_a_window() {
    let mut encoder = PackEncoder::new_with_idx(2, 0, HashKind::Sha1);
    let r = encode(&mut encoder, vec![blob("hello")]);
    assert_eq!(reason(r), PackEncodeReason::NotAllEncoded { process: 1, total: 2 });
    assert!(encoder.get_hash().is_none());
    assert!(encoder.generate_idx_file().is_err());
    // The header and the object, and no hash behind them.
    let chunks = encoder.take_chunks();
    assert_eq!(chunks.len(), 2);
    assert_eq!(chunks[0].len(), 12);
    let mut none = PackEncoder::new(1, 0, HashKind::Sha1);
    let r = encode(&mut none, Vec::new());
    assert_eq!(reason(r), PackEncodeReason::NotAllEncoded { process: 0, total: 1 });
}

#[test]
fn surplus_objects_are_noticed() {
    for window_size in [0, 5] {
        let mut encoder = PackEncoder::new(3, window_size, HashKind::Sha1);
        let r = encode(&mut encoder, some_blobs(HashKind::Sha1));
        assert_eq!(reason(r), PackEncodeReason::NotAllEncoded { process: 4, total: 3 });
        assert!(encoder.get_hash().is_none());
        assert_eq!(encoder.take_chunks().len(), 5);
    }
}

#[test]
fn finishing_early_is_refused() {
    let mut encoder = PackEncoder::new(2, 0, HashKind::Sha1);
    encoder.begin_parallel().unwrap();
    let index = encoder.encode_batch(vec![blob("one")]).unwrap();
    let r = encoder.finish_parallel(index);
    assert_eq!(reason(r), PackEncodeReason::NotAllEncoded { process: 1, total: 2 });
    let index = encoder.encode_batch(vec![blob("two")]).unwrap();
    assert!(encoder.finish_parallel(index).is_ok());
}

#[test]
fn a_window_of_zero_takes_zstd_encoding_too() {
    let codec = DeltaCodec {
        encode_rate: rate,
        heuristic_encode_rate: rate,
        encode: diff,
        zstd_diff: zstd,
    };
    let mut encoder = PackEncoder::new(3, 0, HashKind::Sha1);
    let entries = vec![
        entry(HashKind::Sha1, ObjectType::Tag, "tag", "v1"),
        blob("content"),
        entry(HashKind::Sha1, ObjectType::Commit, "commit", "tree 00\n"),
    ];
    encoder.encode_with_zstdelta(entries, &codec).unwrap();
    let pack = bytes_of(&mut encoder);
    let kinds: Vec<ObjectType> =
        read_pack(&pack, HashKind::Sha1).into_iter().map(|o| o.1).collect();
    assert_eq!(kinds, vec![ObjectType::Commit, ObjectType::Blob, ObjectType::Tag]);
}

#[test]
fn failed_task_is_reported() {
    let codec = DeltaCodec {
        encode_rate: rate,
        heuristic_encode_rate: rate,
        encode: diff,
        zstd_diff: broken,
    };
    let text = "tree 0123\nmessage\n".repeat(30);
    let commits = vec![
        entry(HashKind::Sha1, ObjectType::Commit, "commit", &text),
        entry(HashKind::Sha1, ObjectType::Commit, "commit", &format!("{text}!")),
    ];
    let mut encoder = PackEncoder::new(2, 5, HashKind::Sha1);
    let r = encoder.encode_with_zstdelta(commits, &codec);
    assert_eq!(reason(r), PackEncodeReason::TaskFailed);
    let mut encoder = PackEncoder::new(2, 5, HashKind::Sha1);
    let r = encoder.encode_with_zstdelta(vec![blob(&text), blob(&format!("{text}!"))], &codec);
    assert!(matches!(r, Err(GitError::DeltaObjectError(_))));
}

#[test]
fn objects_can_be_handed_in_one_by_one() {
    let codec = DeltaCodec {
        encode_rate: rate,
        heuristic_encode_rate: rate,
        encode: diff,
        zstd_diff: zstd,
    };
    let mut whole = PackEncoder::new(4, 5, HashKind::Sha1);
    encode(&mut whole, some_blobs(HashKind::Sha1)).unwrap();
    let mut steps = PackEncoder::new(4, 5, HashKind::Sha1);
    steps.begin().unwrap();
    let mut pack = bytes_of(&mut steps);
    assert_eq!(pack.len(), 12);
    let mut buckets = Buckets::new();
    for entry in some_blobs(HashKind::Sha1) {
        steps.collect(&mut buckets, entry).unwrap();
    }
    steps.encode_groups(buckets, true, &codec).unwrap();
    pack.extend(bytes_of(&mut steps));
    assert_eq!(pack, bytes_of(&mut whole));
}

#[test]
fn groups_can_be_encoded_apart() {
    let codec = DeltaCodec {
        encode_rate: rate,
        heuristic_encode_rate: rate,
        encode: diff,
        zstd_diff: zstd,
    };
    let mut entries = some_blobs(HashKind::Sha1);
    for n in 0..3 {
        let text = format!("{}{n}", "a line of a message\n".repeat(20));
        entries.push(entry(HashKind::Sha1, ObjectType::Commit, "commit", &text));
        entries.push(entry(HashKind::Sha1, ObjectType::Tag, "tag", &text));
    }
    let mut whole = PackEncoder::new(10, 5, HashKind::Sha1);
    encode(&mut whole, entries.clone()).unwrap();
    let mut parts = PackEncoder::new(10, 5, HashKind::Sha1);
    parts.begin().unwrap();
    let mut buckets = Buckets::new();
    for entry in entries {
        parts.collect(&mut buckets, entry).unwrap();
    }
    let Buckets { commits, trees, blobs, tags } = buckets.prepare();
    assert_eq!((commits.len(), trees.len(), blobs.len(), tags.len()), (3, 0, 4, 3));
    let tags = encode_group(tags, 5, true, &codec);
    let blobs = try_blobs_as_offset_delta(blobs, 5, true, &codec);
    let trees = encode_group(trees, 5, true, &codec);
    let commits = encode_group(commits, 5, true, &codec);
    parts.write_groups(commits, trees, blobs, tags).unwrap();
    assert_eq!(bytes_of(&mut parts), bytes_of(&mut whole));
    assert_eq!(parts.get_hash(), whole.get_hash());
}

#[test]
fn error_of_the_first_group_is_reported() {
    let refused = |kind| Err(GitError::PackEncodeError(PackEncodeReason::NoPackType(kind)));
    let failed = || Err(GitError::DeltaObjectError("broken".to_owned()));
    let mut encoder = PackEncoder::new(1, 5, HashKind::Sha1);
    encoder.begin().unwrap();
    let r = encoder.write_groups(
        Ok(Vec::new()),
        refused(ObjectType::Tree),
        failed(),
        refused(ObjectType::Tag),
    );
    assert_eq!(reason(r), PackEncodeReason::NoPackType(ObjectType::Tree));
    let r = encoder.write_groups(refused(ObjectType::Commit), Ok(Vec::new()), failed(), failed());
    assert_eq!(reason(r), PackEncodeReason::TaskFailed);
    let r = encoder.write_groups(Ok(Vec::new()), Ok(Vec::new()), failed(), Ok(Vec::new()));
    assert!(matches!(r, Err(GitError::DeltaObjectError(_))));
    assert_eq!(encoder.take_chunks().len(), 1);
}

#[test]
fn batches_do_not_matter() {
    assert_eq!(batch_size(1), 1000);
    assert_eq!(batch_size(10_009), 1000);
    assert_eq!(batch_size(20_000), 2000);
    let entries: Vec<PackEntry> = (0..2500).map(|i| blob(&format!("object {i}"))).collect();
    let mut whole = PackEncoder::new(2500, 0, HashKind::Sha1);
    whole.parallel_encode(entries.clone(), 1).unwrap();
    let mut steps = PackEncoder::new(2500, 0, HashKind::Sha1);
    steps.begin_parallel().unwrap();
    let mut index: Vec<IndexEntry> = Vec::new();
    for batch in entries.chunks(7) {
        index.extend(steps.encode_batch(batch.to_vec()).unwrap());
    }
    steps.finish_parallel(index).unwrap();
    assert_eq!(bytes_of(&mut steps), bytes_of(&mut whole));
    assert_eq!(steps.get_hash(), whole.get_hash());
}

#[test]
fn capacity_does_not_matter() {
    let entries: Vec<PackEntry> = (0..2500).map(|i| blob(&format!("object {i}"))).collect();
    let mut packs = Vec::new();
    for capacity in [1, 12_000, 100_000] {
        let mut encoder = PackEncoder::new_with_idx(2500, 0, HashKind::Sha1);
        encoder.parallel_encode(entries.clone(), capacity).unwrap();
        let index: Vec<(ObjectHash, u64)> = encoder
            .encode_idx_file()
            .unwrap()
            .entries
            .iter()
            .map(|e| (e.hash, e.offset))
            .collect();
        packs.push((bytes_of(&mut encoder), index, encoder.get_hash()));
    }
    assert!(packs[0] == packs[1]);
    assert!(packs[1] == packs[2]);
}

#[test]
fn complete_batches_are_written_before_an_ai_object() {
    let mut entries: Vec<PackEntry> = (0..1500).map(|i| blob(&format!("object {i}"))).collect();
    entries[1200].inner.obj_type = ObjectType::Task;
    let mut encoder = PackEncoder::new(1500, 0, HashKind::Sha1);
    let r = encoder.parallel_encode(entries, 1);
    assert_eq!(reason(r), PackEncodeReason::AiObject(ObjectType::Task));
    assert_eq!(encoder.received(), 1200);
    // The header and the objects of the first batch.
    assert_eq!(encoder.take_chunks().len(), 1001);
}

#[test]
fn nothing_is_sent_without_a_receiver() {
    let mut encoder = PackEncoder::new(4, 0, HashKind::Sha1);
    encoder.send_data(vec![1, 2, 3]);
    encoder.drop_sender();
    encoder.send_data(vec![4]);
    encode(&mut encoder, some_blobs(HashKind::Sha1)).unwrap();
    assert_eq!(encoder.take_chunks(), vec![vec![1, 2, 3]]);
    assert!(encoder.get_hash().is_some());
}

#[test]
fn inferred_paths_bring_versions_together() {
    // Blobs that are named in trees are stored next to their namesakes.
    let one = blob(&"first version of a file\n".repeat(40));
    let two = blob(&format!("{}more\n", "first version of a file\n".repeat(40)));
    let mut trees = Vec::new();
    for it in [&one, &two] {
        let mut data = b"100644 file.txt\0".to_vec();
        data.extend_from_slice(it.inner.hash.as_bytes());
        let mut all = format!("tree {}\0", data.len()).into_bytes();
        all.extend_from_slice(&data);
        trees.push(MetaAttached {
            inner: Entry {
                obj_type: ObjectType::Tree,
                hash: ObjectHash::from_bytes(&hash_of(HashKind::Sha1, &all)).unwrap(),
                data,
                chain_len: 0,
            },
            meta: EntryMeta::new(),
        });
    }
    let mut entries = vec![one, two];
    entries.extend(trees);
    let pack = encode_once(HashKind::Sha1, 10, entries);
    let mut kinds = Vec::new();
    for (place, _, _) in read_pack(&pack, HashKind::Sha1) {
        kinds.push((pack[place as usize] >> 4) & 0x07);
    }
    assert_eq!(kinds, vec![2, 2, 3, 5]);
}
