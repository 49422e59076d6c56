use pack_encode::hash::{HashKind, ObjectHash};
use pack_encode::infer::{attach_inferred_blob_paths, commit_root_tree, infer_blob_paths};
use pack_encode::object::{Entry, EntryMeta, MetaAttached, ObjectType, PackEntry};
use pack_encode::tree::{read_tree, TreeItemMode};
use sha1::Digest;

fn object_hash(kind: &str, data: &[u8]) -> ObjectHash {
    let mut all = format!("{kind} {}\0", data.len()).into_bytes();
    all.extend_from_slice(data);
    ObjectHash::from_bytes(&sha1::Sha1::digest(&all)).unwrap()
}

fn entry(obj_type: ObjectType, kind: &str, data: Vec<u8>) -> PackEntry {
    let hash = object_hash(kind, &data);
    MetaAttached { inner: Entry { obj_type, data, hash, chain_len: 0 }, meta: EntryMeta::new() }
}

fn blob(content: &str) -> PackEntry {
    entry(ObjectType::Blob, "blob", content.as_bytes().to_vec())
}

fn tree(items: &[(&str, ObjectHash, &str)]) -> PackEntry {
    let mut data = Vec::new();
    for (mode, id, name) in items {
        data.extend_from_slice(format!("{mode} {name}\0").as_bytes());
        data.extend_from_slice(id.as_bytes());
    }
    entry(ObjectType::Tree, "tree", data)
}

fn commit_for(tree_id: ObjectHash) -> PackEntry {
    let data = format!("tree {}\n\nmessage\n", tree_id.to_hex()).into_bytes();
    entry(ObjectType::Commit, "commit", data)
}

fn path(
    commits: &Vec<PackEntry>,
    trees: &Vec<PackEntry>,
    id: &ObjectHash,
) -> Option<String> {
    infer_blob_paths(commits, trees).get(id).cloned()
}

#[test]
fn test_commit_root_tree_parses_first_line() {
    let tree_id = ObjectHash::from_hex(b"0123456789abcdef0123456789abcdef01234567").unwrap();
    let commit = format!("tree {}\nparent deadbeef\n\nmessage\n", tree_id.to_hex());

    assert_eq!(commit_root_tree(commit.as_bytes()), Some(tree_id));
    assert_eq!(commit_root_tree(b"parent abc\n\nmessage\n"), None);
}

#[test]
fn test_infer_blob_paths_recovers_nested_tree_paths() {
    let blob = blob("hello");
    let nested_tree = tree(&[("100644", blob.inner.hash, "file.rs")]);
    let root_tree = tree(&[("40000", nested_tree.inner.hash, "src")]);
    let commit = commit_for(root_tree.inner.hash);
    let trees = vec![root_tree, nested_tree];

    let paths = infer_blob_paths(&vec![commit], &trees);

    assert_eq!(paths.get(&blob.inner.hash).map(String::as_str), Some("src/file.rs"));
}

#[test]
fn test_attach_inferred_blob_paths_preserves_existing_metadata() {
    let blob_entry = blob("hello");
    let tree = tree(&[("100755", blob_entry.inner.hash, "script.sh")]);
    let commit = commit_for(tree.inner.hash);
    let trees = vec![tree];
    let mut inferred_blobs = vec![blob("hello")];
    let mut existing_blobs = vec![blob("hello")];
    existing_blobs[0].meta.file_path = Some("keep/me".to_owned());
    let commits = vec![commit];

    attach_inferred_blob_paths(&commits, &trees, &mut inferred_blobs);
    attach_inferred_blob_paths(&commits, &trees, &mut existing_blobs);

    assert_eq!(inferred_blobs[0].meta.file_path.as_deref(), Some("script.sh"));
    assert_eq!(existing_blobs[0].meta.file_path.as_deref(), Some("keep/me"));
}

#[test]
fn root_tree_line_has_to_be_as_expected() {
    let hex = "0123456789abcdef0123456789abcdef01234567";
    assert!(commit_root_tree(format!("tree {hex}").as_bytes()).is_some());
    assert!(commit_root_tree(format!("tree {hex} \n").as_bytes()).is_none());
    assert!(commit_root_tree(format!("tree{hex}\n").as_bytes()).is_none());
    assert!(commit_root_tree(format!("\ntree {hex}\n").as_bytes()).is_none());
    assert!(commit_root_tree(b"tree 0123\n").is_none());
    assert!(commit_root_tree(b"tree").is_none());
    assert!(commit_root_tree(b"").is_none());
    let long = "ab".repeat(32);
    assert_eq!(
        commit_root_tree(format!("tree {long}\n").as_bytes()),
        Some(ObjectHash::Sha256([0xab; 32]))
    );
}

#[test]
fn tree_items_are_read() {
    let id = [9u8; 20];
    let mut data = Vec::new();
    for (mode, name) in [
        ("40000", "dir"),
        ("100644", "file"),
        ("100664", "shared"),
        ("100640", "private"),
        ("100755", "run"),
        ("120000", "link"),
        ("160000", "module"),
        ("100644", "grün ü"),
    ] {
        data.extend_from_slice(format!("{mode} {name}\0").as_bytes());
        data.extend_from_slice(&id);
    }
    let items = read_tree(&data, HashKind::Sha1).unwrap();
    let modes: Vec<TreeItemMode> = items.iter().map(|i| i.mode).collect();
    assert_eq!(
        modes,
        vec![
            TreeItemMode::Tree,
            TreeItemMode::Blob,
            TreeItemMode::Blob,
            TreeItemMode::Blob,
            TreeItemMode::BlobExecutable,
            TreeItemMode::Link,
            TreeItemMode::Commit,
            TreeItemMode::Blob,
        ]
    );
    assert_eq!(items[7].name, "grün ü");
    assert_eq!(items[0].id, ObjectHash::Sha1(id));
    assert_eq!(read_tree(b"", HashKind::Sha1).unwrap().len(), 0);
}

#[test]
fn broken_trees_are_not_read() {
    let id = [9u8; 20];
    let build = |head: &[u8], id: &[u8]| {
        let mut data = head.to_vec();
        data.extend_from_slice(id);
        data
    };
    assert!(read_tree(&build(b"100644 a\0", &id), HashKind::Sha1).is_some());
    assert!(read_tree(&build(b"100644 a\0", &id[..19]), HashKind::Sha1).is_none());
    assert!(read_tree(&build(b"100644 a\0", &id), HashKind::Sha256).is_none());
    assert!(read_tree(&build(b"100600 a\0", &id), HashKind::Sha1).is_none());
    assert!(read_tree(&build(b"100644\0", &id), HashKind::Sha1).is_none());
    assert!(read_tree(&build(b"100644 \xff\0", &id), HashKind::Sha1).is_none());
    assert!(read_tree(b"100644 a", HashKind::Sha1).is_none());
    assert!(read_tree(&build(b"100644 a\0", &[1; 21]), HashKind::Sha1).is_none());
}

#[test]
fn links_have_paths_and_modules_do_not() {
    let (a, b) = (blob("a").inner.hash, blob("b").inner.hash);
    let root = tree(&[("120000", a, "link"), ("160000", b, "module")]);
    let commits = vec![commit_for(root.inner.hash)];
    let trees = vec![root];
    assert_eq!(path(&commits, &trees, &a), Some("link".to_owned()));
    assert_eq!(path(&commits, &trees, &b), None);
}

#[test]
fn nearest_path_wins() {
    let a = blob("a").inner.hash;
    let deep = tree(&[("100644", a, "deep.txt")]);
    let root = tree(&[("40000", deep.inner.hash, "dir"), ("100644", a, "top.txt")]);
    let commits = vec![commit_for(root.inner.hash)];
    assert_eq!(path(&commits, &vec![deep, root], &a), Some("top.txt".to_owned()));
}

#[test]
fn blobs_outside_the_roots_get_bare_names() {
    let (a, b) = (blob("a").inner.hash, blob("b").inner.hash);
    let root = tree(&[("100644", a, "a.txt")]);
    let stray = tree(&[("100644", b, "b.txt")]);
    let commits = vec![commit_for(root.inner.hash)];
    assert_eq!(path(&commits, &vec![stray, root], &b), Some("b.txt".to_owned()));
}

#[test]
fn without_commits_all_trees_are_roots() {
    let a = blob("a").inner.hash;
    let deep = tree(&[("100644", a, "a.txt")]);
    let root = tree(&[("40000", deep.inner.hash, "dir")]);
    // The tree that comes first is visited first.
    assert_eq!(
        path(&Vec::new(), &vec![root, deep], &a),
        Some("a.txt".to_owned())
    );
    assert_eq!(path(&Vec::new(), &Vec::new(), &a), None);
}

#[test]
fn unreadable_and_missing_trees_are_passed_over() {
    let a = blob("a").inner.hash;
    let missing = blob("no tree").inner.hash;
    let root = tree(&[("40000", missing, "gone"), ("100644", a, "a.txt")]);
    let broken = entry(ObjectType::Tree, "tree", b"broken".to_vec());
    let commits = vec![commit_for(missing), commit_for(root.inner.hash)];
    assert_eq!(path(&commits, &vec![broken, root], &a), Some("a.txt".to_owned()));
}

#[test]
fn trees_that_stand_in_two_places_are_visited_once() {
    let a = blob("a").inner.hash;
    let shared = tree(&[("100644", a, "x")]);
    let id = shared.inner.hash;
    let root = tree(&[("40000", id, "first"), ("40000", id, "second")]);
    let commits = vec![commit_for(root.inner.hash)];
    assert_eq!(path(&commits, &vec![shared, root], &a), Some("first/x".to_owned()));
}
