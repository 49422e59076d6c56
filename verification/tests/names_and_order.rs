use pack_encode::digest::HashAlgorithm;
use pack_encode::files::{idx_file_name, pack_file_name, temporary_file_name};
use pack_encode::hash::{from_hex, same_bytes, to_hex, HashKind, ObjectHash};
use pack_encode::names::{
    blob_basename, can_try_basename_zstdelta, count_names, frequent_basename, same_blob_path,
};
use pack_encode::object::{Entry, EntryMeta, MetaAttached, ObjectType, PackEntry};
use pack_encode::order::{magic_sort, magic_sorted, sort_with_names};
use pack_encode::path::{file_name, join_git_path, parent, Component, Order};

fn meta(path: Option<&str>) -> EntryMeta {
    EntryMeta { file_path: path.map(str::to_owned) }
}

fn entry(id: u8, len: usize, chain_len: usize) -> Entry {
    Entry {
        obj_type: ObjectType::Blob,
        data: vec![id; len],
        hash: ObjectHash::Sha1([id; 20]),
        chain_len,
    }
}

fn item(id: u8, len: usize, path: Option<&str>) -> PackEntry {
    MetaAttached { inner: entry(id, len, 0), meta: meta(path) }
}

fn order_of(entries: Vec<PackEntry>) -> Vec<u8> {
    magic_sorted(entries).iter().map(|e| e.inner.hash.as_bytes()[0]).collect()
}

#[test]
fn hex_is_read_back() {
    let bytes: Vec<u8> = (0..=255).collect();
    assert_eq!(from_hex(to_hex(&bytes).as_bytes()).unwrap(), bytes);
    assert_eq!(to_hex(&[0x0a, 0xf0]), "0af0");
    assert_eq!(from_hex(b"0AF0").unwrap(), vec![0x0a, 0xf0]);
    assert_eq!(from_hex(b"0af"), None);
    assert_eq!(from_hex(b"0g"), None);
}

#[test]
fn digests_have_the_length_of_their_kind() {
    let sha1 = ObjectHash::from_bytes(&[1; 20]).unwrap();
    let sha256 = ObjectHash::from_bytes(&[1; 32]).unwrap();
    assert_eq!(sha1.kind(), HashKind::Sha1);
    assert_eq!(sha256.kind(), HashKind::Sha256);
    assert_eq!(ObjectHash::from_bytes(&[1; 21]), None);
    assert!(sha1 != sha256);
    assert_eq!(ObjectHash::from_hex(sha256.to_hex().as_bytes()), Some(sha256));
    assert!(ObjectHash::from_hex(b"0101").is_none());
    assert!(same_bytes(b"ab", b"ab"));
    assert!(!same_bytes(b"ab", b"ac"));
}

#[test]
fn hash_functions_are_the_real_ones() {
    let mut sha1 = HashAlgorithm::new(HashKind::Sha1);
    sha1.update(b"a");
    sha1.update(b"bc");
    assert_eq!(to_hex(&sha1.finalize()), "a9993e364706816aba3e25717850c26c9cd0d89d");
    let mut sha256 = HashAlgorithm::new(HashKind::Sha256);
    sha256.update(b"abc");
    assert_eq!(
        to_hex(&sha256.finalize()),
        "ba7816bf8f01cfea414140de5dae2223b00361a396177a9cb410ff61f20015ad"
    );
    let nothing = HashAlgorithm::new(HashKind::Sha1);
    assert_eq!(to_hex(&nothing.finalize()), "da39a3ee5e6b4b0d3255bfef95601890afd80709");
}

#[test]
fn file_names_hold_the_hash() {
    let hash = ObjectHash::Sha1([0xab; 20]);
    let hex = "ab".repeat(20);
    assert_eq!(pack_file_name(&hash), format!("pack-{hex}.pack"));
    assert_eq!(idx_file_name(&hash), format!("pack-{hex}.idx"));
    assert_eq!(temporary_file_name("20251209235959.123"), "20251209235959.123objects.pack.tmp");
}

#[test]
fn paths_are_joined_and_taken_apart() {
    assert_eq!(join_git_path("", "a"), "a");
    assert_eq!(join_git_path("a/b", "c"), "a/b/c");
    for path in ["a/b.rs", "a//b.rs/", "./b.rs", "b.rs", "/", "..", "a/..", "a/.", "", "/x", "ä/ö"] {
        let std_path = std::path::Path::new(path);
        assert_eq!(
            file_name(path),
            std_path.file_name().map(|n| n.to_string_lossy().into_owned()),
            "{path}"
        );
        assert_eq!(parent(path).is_some(), std_path.parent().is_some(), "{path}");
        if let (Some(ours), Some(theirs)) = (parent(path), std_path.parent()) {
            assert_eq!(ours.len(), theirs.components().count(), "{path}");
        }
    }
    assert!(matches!(parent("/x").unwrap()[0], Component::RootDir));
}

#[test]
fn natural_order_decides_within_a_directory() {
    let two = item(1, 10, Some("src/file2.rs"));
    let ten = item(2, 99, Some("src/file10.rs"));
    assert_eq!(magic_sort(&two, &ten, Order::Equal), Order::Less);
    assert_eq!(magic_sort(&ten, &two, Order::Equal), Order::Greater);
}

#[test]
fn order_of_names_is_taken_as_told() {
    let (a, b) = (item(1, 10, Some("d/x")), item(2, 99, Some("d/y")));
    for by_name in [Order::Less, Order::Greater] {
        assert_eq!(sort_with_names(&a, &b, by_name, Order::Equal), by_name);
    }
    assert_eq!(sort_with_names(&a, &b, Order::Equal, Order::Equal), Order::Greater);
    let other = item(3, 1, Some("c/x"));
    assert_eq!(sort_with_names(&a, &other, Order::Less, Order::Equal), Order::Greater);
    let bare = item(4, 1, None);
    assert_eq!(sort_with_names(&a, &bare, Order::Greater, Order::Equal), Order::Less);
    assert_eq!(sort_with_names(&bare, &a, Order::Less, Order::Equal), Order::Greater);
    assert_eq!(sort_with_names(&bare, &bare, Order::Less, Order::Greater), Order::Greater);
}

#[test]
fn natural_order_goes_on_from_name_to_name() {
    let names = [
        "0", "00", "01", "010", "1", "1 2", "12", "1a", "1.", "2", "10", "02", "a", "a0", "a 0",
        "a00", "a1", "a01", "a10", "a1b", "a 1b", " a", "a ", "B", "-1", "/", ":", "\u{661}",
        "a\u{661}", "0a", "0 1", "1 0", "", " ",
    ];
    let items: Vec<PackEntry> = names.iter().map(|n| item(0, 1, Some(n))).collect();
    let order = |i: usize, j: usize| magic_sort(&items[i], &items[j], Order::Equal);
    for a in 0..items.len() {
        for b in 0..items.len() {
            for c in 0..items.len() {
                let (ab, bc, ac) = (order(a, b), order(b, c), order(a, c));
                let fits = match ab {
                    Order::Less => bc == Order::Greater || ac == Order::Less,
                    Order::Equal => ac == bc,
                    Order::Greater => bc == Order::Less || ac == Order::Greater,
                };
                assert!(fits, "{:?} {:?} {:?}", names[a], names[b], names[c]);
            }
        }
    }
}

#[test]
fn directories_decide_before_names() {
    let a = item(1, 1, Some("a/z.rs"));
    let b = item(2, 1, Some("b/a.rs"));
    let below = item(3, 1, Some("a/b/a.rs"));
    assert_eq!(magic_sort(&a, &b, Order::Equal), Order::Less);
    assert_eq!(magic_sort(&a, &below, Order::Equal), Order::Less);
    assert_eq!(magic_sort(&below, &b, Order::Equal), Order::Less);
}

#[test]
fn size_then_place_decide_in_the_end() {
    let small = item(1, 1, Some("a/x"));
    let large = item(2, 2, Some("a/x"));
    assert_eq!(magic_sort(&large, &small, Order::Equal), Order::Less);
    let twin = item(3, 1, Some("a/x"));
    assert_eq!(magic_sort(&small, &twin, Order::Less), Order::Less);
    assert_eq!(magic_sort(&small, &twin, Order::Greater), Order::Greater);
}

#[test]
fn entries_with_a_path_come_first_then_larger_ones() {
    let entries = vec![
        item(1, 5, None),
        item(2, 50, None),
        item(3, 1, Some("b/2")),
        item(4, 1, Some("b/10")),
        item(5, 500, Some("a/x")),
        item(6, 7, None),
    ];
    assert_eq!(order_of(entries), vec![5, 3, 4, 2, 6, 1]);
    assert_eq!(order_of(Vec::new()), Vec::<u8>::new());
}

#[test]
fn sorting_keeps_the_order_of_equal_entries() {
    let entries = (0..9).map(|id| item(id, 3, Some("same"))).collect();
    assert_eq!(order_of(entries), (0..9).collect::<Vec<u8>>());
    let entries = vec![item(1, 2, None), item(2, 7, None), item(3, 2, None), item(4, 7, None)];
    assert_eq!(order_of(entries), vec![2, 4, 1, 3]);
}

#[test]
fn directories_rise() {
    let paths = ["b/1", "a/c/1", "a/1", "top", "b/a/1", "a/2", "b/0"];
    let entries: Vec<PackEntry> =
        paths.iter().enumerate().map(|(k, p)| item(k as u8, 1, Some(p))).collect();
    let sorted: Vec<String> =
        magic_sorted(entries).into_iter().map(|e| e.meta.file_path.unwrap()).collect();
    assert_eq!(sorted, vec!["top", "a/1", "a/2", "a/c/1", "b/0", "b/1", "b/a/1"]);
}

#[test]
fn same_path_needs_a_path() {
    assert!(same_blob_path(&meta(Some("a/b")), &meta(Some("a/b"))));
    assert!(!same_blob_path(&meta(Some("a/b")), &meta(Some("a/c"))));
    assert!(!same_blob_path(&meta(None), &meta(None)));
    assert!(!same_blob_path(&meta(None), &meta(Some("a"))));
}

#[test]
fn basename_is_the_last_part() {
    assert_eq!(blob_basename(&meta(Some("a/b.rs"))), Some("b.rs".to_owned()));
    assert_eq!(blob_basename(&meta(Some("a/.."))), None);
    assert_eq!(blob_basename(&meta(None)), None);
}

#[test]
fn name_bases_have_to_be_alike_in_size() {
    let (a, b) = (meta(Some("a/x")), meta(Some("b/x")));
    let try_it = |base: Entry, other: Entry| can_try_basename_zstdelta(&base, &a, &other, &b);
    assert!(try_it(entry(1, 256, 0), entry(2, 256, 0)));
    assert!(!try_it(entry(1, 255, 0), entry(2, 256, 0)));
    assert!(try_it(entry(1, 350, 0), entry(2, 1000, 0)));
    assert!(!try_it(entry(1, 349, 0), entry(2, 1000, 0)));
    assert!(try_it(entry(1, 1000, 49), entry(2, 350, 50)));
    assert!(!try_it(entry(1, 1000, 50), entry(2, 1000, 0)));
    assert!(!try_it(entry(1, 1000, 0), entry(1, 1000, 0)));
    let (base, other) = (entry(1, 1000, 0), entry(2, 1000, 0));
    assert!(!can_try_basename_zstdelta(&base, &a, &other, &a));
}

#[test]
fn names_count_from_three_on() {
    let metas = vec![
        meta(Some("a/x")),
        meta(Some("b/x")),
        meta(Some("c/y")),
        meta(None),
        meta(Some("d/x")),
        meta(Some("e/y")),
    ];
    let counts = count_names(&metas);
    assert_eq!(counts.get("x"), Some(&3));
    assert_eq!(counts.get("y"), Some(&2));
    assert_eq!(counts.get("z"), None);
    assert_eq!(frequent_basename(&metas, 0, &counts), Some("x".to_owned()));
    assert_eq!(frequent_basename(&metas, 2, &counts), None);
    assert_eq!(frequent_basename(&metas, 3, &counts), None);
}
