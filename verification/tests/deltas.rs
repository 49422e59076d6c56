use pack_encode::blobs::try_blobs_as_offset_delta;
use pack_encode::codec::DeltaCodec;
use pack_encode::delta::try_as_offset_delta;
use pack_encode::errors::GitError;
use pack_encode::hash::ObjectHash;
use pack_encode::object::{Entry, EntryMeta, IndexEntry, MetaAttached, ObjectType, PackEntry};
use pack_encode::similarity::{
    candidate_is_better, cheap_similar, cut_samples, score_delta_candidate, similar_verdict,
    CLEARLY_BETTER, MAX_CHAIN_LEN, MIN_DELTA_RATE, TIE_EPSILON,
};
use sha1::Digest;
use std::io::Read;

const WHOLE: u64 = 1 << 53;

fn shared_ends(base: &[u8], target: &[u8]) -> (usize, usize) {
    let prefix = base.iter().zip(target).take_while(|(a, b)| a == b).count();
    let (base, target) = (&base[prefix..], &target[prefix..]);
    let suffix = base.iter().rev().zip(target.iter().rev()).take_while(|(a, b)| a == b).count();
    (prefix, suffix)
}

fn rate(base: &[u8], target: &[u8]) -> u64 {
    let (prefix, suffix) = shared_ends(base, target);
    ((prefix + suffix) as u128 * WHOLE as u128 / target.len().max(1) as u128) as u64
}

fn diff(base: &[u8], target: &[u8]) -> Vec<u8> {
    let (prefix, suffix) = shared_ends(base, target);
    let mut delta = (prefix as u32).to_be_bytes().to_vec();
    delta.extend_from_slice(&(suffix as u32).to_be_bytes());
    delta.extend_from_slice(&target[prefix..target.len() - suffix]);
    delta
}

fn zstd(base: &[u8], target: &[u8]) -> Result<Vec<u8>, String> {
    Ok(diff(base, target))
}

fn broken(_: &[u8], _: &[u8]) -> Result<Vec<u8>, String> {
    Err("no space".to_owned())
}

fn blob(content: &str) -> Entry {
    let mut all = format!("blob {}\0", content.len()).into_bytes();
    all.extend_from_slice(content.as_bytes());
    Entry {
        obj_type: ObjectType::Blob,
        data: content.as_bytes().to_vec(),
        hash: ObjectHash::from_bytes(&sha1::Sha1::digest(&all)).unwrap(),
        chain_len: 0,
    }
}

fn meta_entry(entry: Entry, file_path: Option<&str>) -> PackEntry {
    MetaAttached {
        inner: entry,
        meta: EntryMeta { file_path: file_path.map(str::to_owned) },
    }
}

fn encode_blobs(blobs: Vec<PackEntry>, window: usize) -> Vec<(Vec<u8>, IndexEntry)> {
    let codec = DeltaCodec {
        encode_rate: rate,
        heuristic_encode_rate: rate,
        encode: diff,
        zstd_diff: zstd,
    };
    try_blobs_as_offset_delta(blobs, window, true, &codec).unwrap()
}

fn pack_type(encoded: &[u8]) -> ObjectType {
    ObjectType::from_pack_type_u8((encoded[0] >> 4) & 0x07).unwrap()
}

/// The kind, the distance and the data of an encoded object.
fn parse(encoded: &[u8]) -> (ObjectType, u64, Vec<u8>) {
    let kind = pack_type(encoded);
    let mut at = 0;
    while encoded[at] & 0x80 != 0 {
        at += 1;
    }
    at += 1;
    let mut distance = 0u64;
    if kind == ObjectType::OffsetDelta || kind == ObjectType::OffsetZstdelta {
        distance = (encoded[at] & 0x7f) as u64;
        while encoded[at] & 0x80 != 0 {
            at += 1;
            distance = ((distance + 1) << 7) | (encoded[at] & 0x7f) as u64;
        }
        at += 1;
    }
    let mut data = Vec::new();
    flate2::read::ZlibDecoder::new(&encoded[at..]).read_to_end(&mut data).unwrap();
    (kind, distance, data)
}

#[test]
fn test_blob_delta_uses_same_path_zstdelta_when_smaller() {
    let base = blob(&"abc123\n".repeat(512));
    let changed = blob(&format!("{}tail\n", "abc123\n".repeat(512)));
    let blobs = vec![
        meta_entry(base, Some("src/lib.rs")),
        meta_entry(changed, Some("src/lib.rs")),
    ];

    let encoded = encode_blobs(blobs, 10);

    assert_eq!(encoded.len(), 2);
    let encoded_delta = &encoded[1].0;
    let pack_type = (encoded_delta[0] >> 4) & 0x07;
    assert_eq!(
        ObjectType::from_pack_type_u8(pack_type).unwrap(),
        ObjectType::OffsetZstdelta
    );
}

#[test]
fn test_blob_delta_uses_basename_anchor_outside_window() {
    let base = blob(&"shared-setting=true\n".repeat(512));
    let filler = blob(&"different filler\n".repeat(512));
    let changed =
        blob(&format!("{}changed-setting=false\n", "shared-setting=true\n".repeat(512)));
    let extra_same_name = blob(&"third settings file\n".repeat(64));
    let blobs = vec![
        meta_entry(base, Some("crate-a/settings.toml")),
        meta_entry(filler, Some("crate-a/filler.txt")),
        meta_entry(changed, Some("crate-b/settings.toml")),
        meta_entry(extra_same_name, Some("crate-c/settings.toml")),
    ];

    let encoded = encode_blobs(blobs, 1);

    assert_eq!(encoded.len(), 4);
    let encoded_delta = &encoded[2].0;
    let pack_type = (encoded_delta[0] >> 4) & 0x07;
    assert_eq!(
        ObjectType::from_pack_type_u8(pack_type).unwrap(),
        ObjectType::OffsetZstdelta
    );
}

#[test]
fn anchors_need_a_frequent_name() {
    let shared = "shared-setting=true\n".repeat(512);
    let blobs = vec![
        meta_entry(blob(&shared), Some("crate-a/settings.toml")),
        meta_entry(blob(&"different filler\n".repeat(512)), Some("crate-a/filler.txt")),
        meta_entry(blob(&format!("{shared}x")), Some("crate-b/settings.toml")),
    ];
    let encoded = encode_blobs(blobs, 1);
    assert_eq!(pack_type(&encoded[2].0), ObjectType::Blob);
}

#[test]
fn shortest_delta_among_the_versions_is_taken() {
    let text = "line of text\n".repeat(100);
    let near = format!("{text}tail");
    let far = format!("other{text}");
    let blobs = vec![
        meta_entry(blob(&near), Some("a")),
        meta_entry(blob(&far), Some("a")),
        meta_entry(blob(&format!("{text}tails")), Some("a")),
    ];
    let encoded = encode_blobs(blobs, 10);
    let (kind, distance, data) = parse(&encoded[2].0);
    assert_eq!(kind, ObjectType::OffsetZstdelta);
    assert_eq!(distance as usize, encoded[0].0.len() + encoded[1].0.len());
    assert_eq!(data, diff(near.as_bytes(), format!("{text}tails").as_bytes()));
}

#[test]
fn versions_that_do_not_help_give_way_to_similar_blobs() {
    let text = "some text that repeats\n".repeat(40);
    let unlike: String = (0..1000).map(|i| ((b'a' + (i * i % 26) as u8) as char)).collect();
    let blobs = vec![
        meta_entry(blob(&text), Some("z")),
        meta_entry(blob(&unlike), Some("a")),
        meta_entry(blob(&format!("{text}!")), Some("a")),
    ];
    let encoded = encode_blobs(blobs, 10);
    let (kind, distance, _) = parse(&encoded[2].0);
    assert_eq!(kind, ObjectType::OffsetZstdelta);
    assert_eq!(distance as usize, encoded[0].0.len() + encoded[1].0.len());
}

#[test]
fn zstd_delta_that_is_no_shorter_is_not_used() {
    // The delta takes eight bytes more than what differs.
    let blobs = vec![
        meta_entry(blob("12345678"), Some("a")),
        meta_entry(blob("12345679"), Some("a")),
    ];
    let encoded = encode_blobs(blobs, 10);
    assert_eq!(pack_type(&encoded[1].0), ObjectType::Blob);
}

#[test]
fn failed_blob_delta_is_reported() {
    let codec = DeltaCodec {
        encode_rate: rate,
        heuristic_encode_rate: rate,
        encode: diff,
        zstd_diff: broken,
    };
    let blobs = || {
        vec![
            meta_entry(blob(&"a".repeat(300)), Some("p")),
            meta_entry(blob(&"a".repeat(301)), Some("p")),
        ]
    };
    match try_blobs_as_offset_delta(blobs(), 10, true, &codec) {
        Err(GitError::DeltaObjectError(message)) => {
            assert_eq!(message, "zstdelta diff failed: no space");
        }
        _ => panic!("the delta has to fail"),
    }
    // Without zstd deltas nothing can fail.
    let encoded = try_blobs_as_offset_delta(blobs(), 10, false, &codec).unwrap();
    assert_eq!(pack_type(&encoded[1].0), ObjectType::OffsetDelta);
    // Without a base nothing is tried.
    assert!(try_blobs_as_offset_delta(blobs(), 0, true, &codec).is_ok());
}

#[test]
fn failed_group_delta_is_reported() {
    let codec = DeltaCodec {
        encode_rate: rate,
        heuristic_encode_rate: rate,
        encode: diff,
        zstd_diff: broken,
    };
    let group = vec![blob(&"a".repeat(300)), blob(&"a".repeat(301))];
    assert!(matches!(
        try_as_offset_delta(group, 10, true, &codec),
        Err(GitError::DeltaObjectError(_))
    ));
}

#[test]
fn distances_lead_to_the_bases_and_chains_stay_short() {
    let codec = DeltaCodec {
        encode_rate: rate,
        heuristic_encode_rate: rate,
        encode: diff,
        zstd_diff: zstd,
    };
    let contents: Vec<String> =
        (0..120).map(|i| format!("{}{}", "tree data ".repeat(30), "x".repeat(i))).collect();
    for enable_zstdelta in [false, true] {
        let group: Vec<Entry> = contents.iter().map(|c| blob(c)).collect();
        let encoded = try_as_offset_delta(group, 1, enable_zstdelta, &codec).unwrap();
        assert_eq!(encoded.len(), 120);
        let mut starts = vec![0u64];
        for (bytes, index_entry) in &encoded {
            assert_eq!(index_entry.offset, 0);
            starts.push(starts[starts.len() - 1] + bytes.len() as u64);
        }
        let mut chain = vec![0usize; 120];
        let mut deltas = 0;
        for (i, (bytes, index_entry)) in encoded.iter().enumerate() {
            let (kind, distance, data) = parse(bytes);
            assert_eq!(index_entry.hash, blob(&contents[i]).hash);
            if kind == ObjectType::Blob {
                assert_eq!(data, contents[i].as_bytes());
            } else {
                let base = starts.iter().position(|s| *s == starts[i] - distance).unwrap();
                assert_eq!(base, i - 1);
                assert_eq!(data, diff(contents[base].as_bytes(), contents[i].as_bytes()));
                chain[i] = chain[base] + 1;
                deltas += 1;
            }
        }
        assert_eq!(deltas, 117);
        assert_eq!(chain.iter().max(), Some(&MAX_CHAIN_LEN));
    }
}

#[test]
fn nothing_is_similar_to_no_bytes() {
    assert!(!cheap_similar(b"", b""));
    assert!(!cheap_similar(b"", b"abc"));
}

#[test]
fn short_data_is_similar_only_to_itself() {
    assert!(cheap_similar(b"abc", b"abc"));
    assert!(!cheap_similar(b"abc", b"abcd"));
    assert!(!cheap_similar(&[1; 32], &[1; 33]));
}

#[test]
fn data_is_similar_to_itself() {
    for len in [1usize, 32, 33, 64, 65, 100, 511, 512, 5000] {
        let data: Vec<u8> = (0..len).map(|i| (i * 7 % 251) as u8).collect();
        assert!(cheap_similar(&data, &data), "{len}");
    }
}

#[test]
fn data_is_similar_to_what_continues_it() {
    for len in [33usize, 64, 100, 511, 512, 2000] {
        let data: Vec<u8> = (0..len).map(|i| (i * 7 % 251) as u8).collect();
        let mut longer = data.clone();
        longer.extend_from_slice(&[9; 300]);
        assert!(cheap_similar(&data, &longer), "{len}");
        assert!(cheap_similar(&longer, &data), "{len}");
    }
}

#[test]
fn samples_are_cut_from_both_sides() {
    let a: Vec<u8> = (0..1024).map(|i| (i % 251) as u8).collect();
    let b: Vec<u8> = a.iter().map(|x| x ^ 0xff).collect();
    let starts = |a: &[u8], b: &[u8]| -> Vec<usize> {
        let min_len = a.len().min(b.len());
        let len = min_len.min(64);
        let samples = cut_samples(a, b);
        samples
            .iter()
            .map(|(from_a, from_b)| {
                let at = (0..=min_len - len).find(|at| a[*at..*at + len] == **from_a).unwrap();
                assert_eq!(b[at..at + len], **from_b);
                at
            })
            .collect()
    };
    assert_eq!(starts(&a[..40], &b), vec![0]);
    assert_eq!(starts(&a[..250], &b[..240]), vec![0, 44, 88, 132, 176]);
    assert_eq!(cut_samples(&a, &b).len(), 5);
    assert_eq!(cut_samples(&a, &b)[4], (&a[960..], &b[960..]));
}

#[test]
fn one_sample_is_enough_in_short_data_only() {
    let mut a: Vec<u8> = (0..400).map(|i| (i % 251) as u8).collect();
    let mut b: Vec<u8> = a.iter().map(|x| x ^ 0xff).collect();
    b[..64].copy_from_slice(&a[..64]);
    assert!(cheap_similar(&a, &b));
    a.resize(600, 1);
    b.resize(600, 2);
    assert!(!cheap_similar(&a, &b));
    let pairs = |equal: usize, total: usize| -> Vec<(u64, u64)> {
        (0..total as u64).map(|k| (k, if k < equal as u64 { k } else { k + 9 })).collect()
    };
    assert!(similar_verdict(511, &pairs(1, 5)));
    assert!(!similar_verdict(512, &pairs(2, 5)));
    assert!(similar_verdict(512, &pairs(2, 4)));
    assert!(similar_verdict(512, &pairs(3, 5)));
    assert!(!similar_verdict(100, &pairs(0, 5)));
    assert!(!similar_verdict(100, &pairs(0, 0)));
}

#[test]
fn scores_ask_for_alike_objects() {
    let codec = DeltaCodec {
        encode_rate: |_: &[u8], _: &[u8]| MIN_DELTA_RATE + 1,
        heuristic_encode_rate: |_: &[u8], _: &[u8]| MIN_DELTA_RATE + 2,
        encode: diff,
        zstd_diff: zstd,
    };
    let base = blob(&"a".repeat(200));
    let score = |other: &Entry| score_delta_candidate(&base, other, &codec);
    assert_eq!(score(&blob(&"a".repeat(201))), Some(MIN_DELTA_RATE + 2));
    assert_eq!(score(&blob(&"a".repeat(400))), Some(MIN_DELTA_RATE + 2));
    assert_eq!(score(&blob(&"a".repeat(401))), None);
    assert_eq!(score(&blob(&"a".repeat(100))), Some(MIN_DELTA_RATE + 2));
    assert_eq!(score(&blob(&"a".repeat(99))), None);
    assert_eq!(score(&base), None);
    let mut other = blob(&"a".repeat(201));
    other.obj_type = ObjectType::Tree;
    assert_eq!(score(&other), None);
    let mut deep = blob(&"a".repeat(200));
    deep.chain_len = MAX_CHAIN_LEN;
    assert_eq!(score_delta_candidate(&deep, &blob(&"a".repeat(201)), &codec), None);
    deep.chain_len = MAX_CHAIN_LEN - 1;
    assert!(score_delta_candidate(&deep, &blob(&"a".repeat(201)), &codec).is_some());
    let short = score_delta_candidate(&blob(&"a".repeat(64)), &blob(&"a".repeat(65)), &codec);
    assert_eq!(short, Some(MIN_DELTA_RATE + 1));
    let long = score_delta_candidate(&blob(&"a".repeat(65)), &blob(&"a".repeat(66)), &codec);
    assert_eq!(long, Some(MIN_DELTA_RATE + 2));
}

#[test]
fn half_is_not_enough() {
    let codec = DeltaCodec {
        encode_rate: |_: &[u8], _: &[u8]| MIN_DELTA_RATE,
        heuristic_encode_rate: |_: &[u8], _: &[u8]| MIN_DELTA_RATE,
        encode: diff,
        zstd_diff: zstd,
    };
    let (a, b) = (blob(&"a".repeat(200)), blob(&"a".repeat(201)));
    assert_eq!(score_delta_candidate(&a, &b, &codec), None);
}

#[test]
fn shorter_chains_win_ties() {
    let mut low = blob("low");
    let mut high = blob("high");
    low.chain_len = 1;
    high.chain_len = 2;
    let best = WHOLE * 6 / 10;
    assert!(candidate_is_better(best + CLEARLY_BETTER + 1, &high, best, &low));
    assert!(!candidate_is_better(best + CLEARLY_BETTER, &high, best, &low));
    assert!(candidate_is_better(best + TIE_EPSILON, &low, best, &high));
    assert!(!candidate_is_better(best + TIE_EPSILON, &high, best, &low));
    assert!(candidate_is_better(best - TIE_EPSILON, &low, best, &high));
    assert!(!candidate_is_better(best - CLEARLY_BETTER, &low, best, &high));
    assert!(!candidate_is_better(best, &low, best, &low));
}

#[test]
fn units_agree_with_fractions() {
    let unit = 1.0 / WHOLE as f64;
    assert_eq!(MIN_DELTA_RATE as f64 * unit, 0.5);
    for i in 0..2000u64 {
        let best = WHOLE / 2 + i * 1_234_567_891_011 + 1;
        for step in [TIE_EPSILON - 1, TIE_EPSILON, CLEARLY_BETTER, CLEARLY_BETTER + 1] {
            let rate = best + step;
            if rate > WHOLE {
                continue;
            }
            let (r, b) = (rate as f64 * unit, best as f64 * unit);
            let (mut low, mut high) = (blob("low"), blob("high"));
            low.chain_len = 1;
            high.chain_len = 2;
            let expected = |shorter: bool| {
                r > b + 0.15 || ((r - b).abs() <= 0.15 && shorter)
            };
            assert_eq!(candidate_is_better(rate, &low, best, &high), expected(true));
            assert_eq!(candidate_is_better(rate, &high, best, &low), expected(false));
        }
    }
}
