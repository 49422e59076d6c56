//! Tree objects: the directories of a commit.

use crate::hash::{same_bytes, HashKind, ObjectHash};
use vstd::prelude::*;
use vstd::slice::slice_subrange;
use vstd::utf8::{decode_utf8, valid_utf8};

verus! {

/// What an item of a tree stands for.
#[derive(Clone, Copy, Debug, PartialEq, Eq, Structural)]
pub enum TreeItemMode {
    /// A file.
    Blob,
    /// A file that can be executed.
    BlobExecutable,
    /// A directory.
    Tree,
    /// A commit of another repository.
    Commit,
    /// A symbolic link.
    Link,
}

impl TreeItemMode {
    /// Whether the content of the item is a blob.
    pub open spec fn is_blob(self) -> bool {
        self == TreeItemMode::Blob || self == TreeItemMode::BlobExecutable || self
            == TreeItemMode::Link
    }
}

/// An item of a tree.
#[derive(Debug)]
pub struct TreeItem {
    pub mode: TreeItemMode,
    pub id: ObjectHash,
    pub name: String,
}

/// The mathematical value of a [`TreeItem`].
#[verifier::ext_equal]
pub struct Item {
    pub mode: TreeItemMode,
    pub id: Seq<u8>,
    pub name: Seq<char>,
}

impl View for TreeItem {
    type V = Item;

    open spec fn view(&self) -> Item {
        Item { mode: self.mode, id: self.id@, name: self.name@ }
    }
}

/// The values of items.
pub open spec fn items_of(items: Seq<TreeItem>) -> Seq<Item> {
    Seq::new(items.len(), |k: int| items[k]@)
}

/// The first place from `from` on that holds the byte, or the end of the data.
pub open spec fn next_byte(data: Seq<u8>, from: int, byte: u8) -> int
    decreases data.len() - from,
{
    if from >= data.len() {
        data.len() as int
    } else if data[from] == byte {
        from
    } else {
        next_byte(data, from + 1, byte)
    }
}

/// The search goes forward.
pub proof fn next_byte_is_ahead(data: Seq<u8>, from: int, byte: u8)
    requires
        from <= data.len(),
    ensures
        from <= next_byte(data, from, byte) <= data.len(),
    decreases data.len() - from,
{
    if from < data.len() && data[from] != byte {
        next_byte_is_ahead(data, from + 1, byte);
    }
}

/// What the digits of a mode stand for: `40000` for a tree, `100644`, `100664` and
/// `100640` for a file, `100755` for one that can be executed, `120000` for a link
/// and `160000` for a commit.
pub open spec fn mode_of(digits: Seq<u8>) -> Option<TreeItemMode> {
    if digits == seq![0x34u8, 0x30, 0x30, 0x30, 0x30] {
        Some(TreeItemMode::Tree)
    } else if digits == seq![0x31u8, 0x30, 0x30, 0x36, 0x34, 0x34] || digits == seq![
        0x31u8,
        0x30,
        0x30,
        0x36,
        0x36,
        0x34,
    ] || digits == seq![0x31u8, 0x30, 0x30, 0x36, 0x34, 0x30] {
        Some(TreeItemMode::Blob)
    } else if digits == seq![0x31u8, 0x30, 0x30, 0x37, 0x35, 0x35] {
        Some(TreeItemMode::BlobExecutable)
    } else if digits == seq![0x31u8, 0x32, 0x30, 0x30, 0x30, 0x30] {
        Some(TreeItemMode::Link)
    } else if digits == seq![0x31u8, 0x36, 0x30, 0x30, 0x30, 0x30] {
        Some(TreeItemMode::Commit)
    } else {
        None
    }
}

/// The item at a place of tree data, and where it ends: the digits of the mode, a
/// space, the name, a zero byte and the bytes of the object name.
pub open spec fn item_at(data: Seq<u8>, from: int, id_len: nat) -> Option<(Item, int)> {
    let space = next_byte(data, from, 0x20);
    let nul = next_byte(data, from, 0);
    let end = nul + 1 + id_len;
    if space < nul && end <= data.len() && valid_utf8(data.subrange(space + 1, nul)) {
        match mode_of(data.subrange(from, space)) {
            Some(mode) => Some(
                (
                    Item {
                        mode,
                        id: data.subrange(nul + 1, end),
                        name: decode_utf8(data.subrange(space + 1, nul)),
                    },
                    end,
                ),
            ),
            None => None,
        }
    } else {
        None
    }
}

/// The items of tree data from a place on, if all of it can be read.
pub open spec fn items_from(data: Seq<u8>, from: int, id_len: nat) -> Option<Seq<Item>>
    decreases data.len() - from,
{
    if from >= data.len() {
        Some(Seq::empty())
    } else {
        match item_at(data, from, id_len) {
            None => None,
            Some((item, end)) => {
                proof {
                    next_byte_is_ahead(data, from, 0);
                }
                match items_from(data, end, id_len) {
                    None => None,
                    Some(rest) => Some(seq![item] + rest),
                }
            },
        }
    }
}

/// The items of a tree, if its data can be read.
pub open spec fn tree_items(data: Seq<u8>, kind: HashKind) -> Option<Seq<Item>> {
    items_from(data, 0, kind.spec_size())
}

/// Reads text with `std::str::from_utf8`, which takes exactly the bytes that are
/// valid UTF-8, and returns the text that they encode.
#[verifier::external_body]
fn read_text(bytes: &[u8]) -> (r: Option<String>)
    ensures
        match r {
            Some(text) => valid_utf8(bytes@) && text@ == decode_utf8(bytes@),
            None => !valid_utf8(bytes@),
        },
{
    match std::str::from_utf8(bytes) {
        Ok(text) => Some(text.to_owned()),
        Err(_) => None,
    }
}

/// The first place from `from` on that holds the byte, or the end of the data.
pub fn find_byte(data: &[u8], from: usize, byte: u8) -> (r: usize)
    requires
        from <= data.len(),
    ensures
        r == next_byte(data@, from as int, byte),
        from <= r <= data.len(),
{
    let mut i: usize = from;
    while i < data.len() && data[i] != byte
        invariant
            from <= i <= data.len(),
            next_byte(data@, from as int, byte) == next_byte(data@, i as int, byte),
        decreases data.len() - i,
    {
        i += 1;
    }
    i
}

/// What the digits of a mode stand for.
fn read_mode(digits: &[u8]) -> (r: Option<TreeItemMode>)
    ensures
        r == mode_of(digits@),
{
    let tree: [u8; 5] = [0x34, 0x30, 0x30, 0x30, 0x30];
    let file: [u8; 6] = [0x31, 0x30, 0x30, 0x36, 0x34, 0x34];
    let shared: [u8; 6] = [0x31, 0x30, 0x30, 0x36, 0x36, 0x34];
    let private: [u8; 6] = [0x31, 0x30, 0x30, 0x36, 0x34, 0x30];
    let executable: [u8; 6] = [0x31, 0x30, 0x30, 0x37, 0x35, 0x35];
    let link: [u8; 6] = [0x31, 0x32, 0x30, 0x30, 0x30, 0x30];
    let commit: [u8; 6] = [0x31, 0x36, 0x30, 0x30, 0x30, 0x30];
    proof {
        assert(tree@ =~= seq![0x34u8, 0x30, 0x30, 0x30, 0x30]);
        assert(file@ =~= seq![0x31u8, 0x30, 0x30, 0x36, 0x34, 0x34]);
        assert(shared@ =~= seq![0x31u8, 0x30, 0x30, 0x36, 0x36, 0x34]);
        assert(private@ =~= seq![0x31u8, 0x30, 0x30, 0x36, 0x34, 0x30]);
        assert(executable@ =~= seq![0x31u8, 0x30, 0x30, 0x37, 0x35, 0x35]);
        assert(link@ =~= seq![0x31u8, 0x32, 0x30, 0x30, 0x30, 0x30]);
        assert(commit@ =~= seq![0x31u8, 0x36, 0x30, 0x30, 0x30, 0x30]);
    }
    if same_bytes(digits, tree.as_slice()) {
        Some(TreeItemMode::Tree)
    } else if same_bytes(digits, file.as_slice()) || same_bytes(digits, shared.as_slice())
        || same_bytes(digits, private.as_slice()) {
        Some(TreeItemMode::Blob)
    } else if same_bytes(digits, executable.as_slice()) {
        Some(TreeItemMode::BlobExecutable)
    } else if same_bytes(digits, link.as_slice()) {
        Some(TreeItemMode::Link)
    } else if same_bytes(digits, commit.as_slice()) {
        Some(TreeItemMode::Commit)
    } else {
        None
    }
}

/// Reads the item at a place of tree data.
fn read_item(data: &[u8], from: usize, kind: HashKind) -> (r: Option<(TreeItem, usize)>)
    requires
        from < data.len(),
    ensures
        match r {
            Some((item, end)) => {
                &&& item_at(data@, from as int, kind.spec_size()) == Some((item@, end as int))
                &&& from < end <= data.len()
            },
            None => item_at(data@, from as int, kind.spec_size()) is None,
        },
{
    let space: usize = find_byte(data, from, 0x20);
    let nul: usize = find_byte(data, from, 0);
    let id_len: usize = kind.size();
    if space >= nul || nul == data.len() || data.len() - nul - 1 < id_len {
        return None;
    }
    let end: usize = nul + 1 + id_len;
    let mode = match read_mode(slice_subrange(data, from, space)) {
        Some(mode) => mode,
        None => {
            return None;
        },
    };
    let name = match read_text(slice_subrange(data, space + 1, nul)) {
        Some(name) => name,
        None => {
            return None;
        },
    };
    match ObjectHash::from_bytes(slice_subrange(data, nul + 1, end)) {
        Some(id) => Some((TreeItem { mode, id, name }, end)),
        None => None,
    }
}

/// Reads the items of a tree whose objects are named by the given hash function.
/// Nothing comes back if any of the data is not as it should be.
pub fn read_tree(data: &[u8], kind: HashKind) -> (r: Option<Vec<TreeItem>>)
    ensures
        match r {
            Some(items) => tree_items(data@, kind) == Some(items_of(items@)),
            None => tree_items(data@, kind) is None,
        },
{
    let mut items: Vec<TreeItem> = Vec::new();
    let mut at: usize = 0;
    let ghost id_len = kind.spec_size();
    while at < data.len()
        invariant
            at <= data.len(),
            id_len == kind.spec_size(),
            tree_items(data@, kind) == (match items_from(data@, at as int, id_len) {
                Some(rest) => Some(items_of(items@) + rest),
                None => None,
            }),
        decreases data.len() - at,
    {
        match read_item(data, at, kind) {
            None => {
                return None;
            },
            Some((item, end)) => {
                let ghost before = items@;
                items.push(item);
                proof {
                    assert(items_of(items@) =~= items_of(before) + seq![item@]);
                    if let Some(rest) = items_from(data@, end as int, id_len) {
                        assert(items_of(items@) + rest =~= items_of(before) + (seq![item@]
                            + rest));
                    }
                }
                at = end;
            },
        }
    }
    assert(items_of(items@) + Seq::<Item>::empty() =~= items_of(items@));
    Some(items)
}

/// The content of an item is a blob exactly if it is neither a tree nor a commit.
pub proof fn blobs_are_all_but_trees_and_commits(mode: TreeItemMode)
    ensures
        mode.is_blob() <==> mode != TreeItemMode::Tree && mode != TreeItemMode::Commit,
{
}

/// The digits of each mode.
pub proof fn modes_have_their_digits()
    ensures
        mode_of(seq![0x34u8, 0x30, 0x30, 0x30, 0x30]) == Some(TreeItemMode::Tree),
        mode_of(seq![0x31u8, 0x30, 0x30, 0x36, 0x34, 0x34]) == Some(TreeItemMode::Blob),
        mode_of(seq![0x31u8, 0x30, 0x30, 0x36, 0x36, 0x34]) == Some(TreeItemMode::Blob),
        mode_of(seq![0x31u8, 0x30, 0x30, 0x36, 0x34, 0x30]) == Some(TreeItemMode::Blob),
        mode_of(seq![0x31u8, 0x30, 0x30, 0x37, 0x35, 0x35]) == Some(TreeItemMode::BlobExecutable),
        mode_of(seq![0x31u8, 0x32, 0x30, 0x30, 0x30, 0x30]) == Some(TreeItemMode::Link),
        mode_of(seq![0x31u8, 0x36, 0x30, 0x30, 0x30, 0x30]) == Some(TreeItemMode::Commit),
{
    let tree = seq![0x34u8, 0x30, 0x30, 0x30, 0x30];
    let file = seq![0x31u8, 0x30, 0x30, 0x36, 0x34, 0x34];
    let shared = seq![0x31u8, 0x30, 0x30, 0x36, 0x36, 0x34];
    let private = seq![0x31u8, 0x30, 0x30, 0x36, 0x34, 0x30];
    let executable = seq![0x31u8, 0x30, 0x30, 0x37, 0x35, 0x35];
    let link = seq![0x31u8, 0x32, 0x30, 0x30, 0x30, 0x30];
    let commit = seq![0x31u8, 0x36, 0x30, 0x30, 0x30, 0x30];
    assert(tree.len() == 5 && file.len() == 6 && shared.len() == 6 && private.len() == 6);
    assert(executable[3] == 0x37 && file[3] == 0x36 && shared[3] == 0x36 && private[3] == 0x36);
    assert(link[1] == 0x32 && commit[1] == 0x36);
    assert(file[1] == 0x30 && shared[1] == 0x30 && private[1] == 0x30 && executable[1] == 0x30);
}

/// The digits of a mode are no other bytes than digits.
pub proof fn modes_are_digits(digits: Seq<u8>, i: int)
    requires
        mode_of(digits) is Some,
        0 <= i < digits.len(),
    ensures
        0x30 <= digits[i] <= 0x39,
{
}

/// An item as it is written in a tree: the digits of the mode, a space, the bytes of the
/// name, a zero byte and the name of the object.
pub open spec fn item_bytes(digits: Seq<u8>, name: Seq<u8>, id: Seq<u8>) -> Seq<u8> {
    digits + seq![0x20u8] + name + seq![0u8] + id
}

/// The search stops at the byte that is sought.
proof fn next_byte_passes(data: Seq<u8>, from: int, to: int, byte: u8)
    requires
        0 <= from <= to <= data.len(),
        forall|i: int| from <= i < to ==> data[i] != byte,
        to < data.len() ==> data[to] == byte,
    ensures
        next_byte(data, from, byte) == to,
    decreases to - from,
{
    if from < to {
        next_byte_passes(data, from + 1, to, byte);
    }
}

/// The search does not look at what is before.
proof fn next_byte_ignores_the_start(start: Seq<u8>, data: Seq<u8>, from: int, byte: u8)
    requires
        0 <= from <= data.len(),
    ensures
        next_byte(start + data, start.len() + from, byte) == start.len() + next_byte(
            data,
            from,
            byte,
        ),
    decreases data.len() - from,
{
    if from < data.len() && data[from] != byte {
        next_byte_ignores_the_start(start, data, from + 1, byte);
    }
}

/// The items behind a place do not depend on what is before it.
proof fn items_ignore_the_start(start: Seq<u8>, data: Seq<u8>, from: int, id_len: nat)
    requires
        0 <= from <= data.len(),
    ensures
        items_from(start + data, start.len() + from, id_len) == items_from(data, from, id_len),
    decreases data.len() - from,
{
    let all = start + data;
    let n = start.len() as int;
    if from < data.len() {
        next_byte_ignores_the_start(start, data, from, 0x20);
        next_byte_ignores_the_start(start, data, from, 0);
        next_byte_is_ahead(data, from, 0x20);
        next_byte_is_ahead(data, from, 0);
        let space = next_byte(data, from, 0x20);
        let nul = next_byte(data, from, 0);
        let end = nul + 1 + id_len;
        assert(all.subrange(n + from, n + space) =~= data.subrange(from, space));
        if space < nul {
            assert(all.subrange(n + space + 1, n + nul) =~= data.subrange(space + 1, nul));
        }
        if end <= data.len() {
            assert(all.subrange(n + nul + 1, n + end) =~= data.subrange(nul + 1, end));
            items_ignore_the_start(start, data, end, id_len);
            assert(n + end == (n + nul) + 1 + id_len);
        }
    }
}

/// An item that is written at the start of a tree is its first item, and the others are
/// those of the rest.
pub proof fn written_items_are_read(
    digits: Seq<u8>,
    name: Seq<u8>,
    id: Seq<u8>,
    rest: Seq<u8>,
    kind: HashKind,
)
    requires
        mode_of(digits) is Some,
        valid_utf8(name),
        forall|i: int| 0 <= i < name.len() ==> name[i] != 0,
        id.len() == kind.spec_size(),
    ensures
        tree_items(item_bytes(digits, name, id) + rest, kind) == match tree_items(rest, kind) {
            Some(items) => Some(
                seq![Item { mode: mode_of(digits)->0, id, name: decode_utf8(name) }] + items,
            ),
            None => None,
        },
{
    let it = item_bytes(digits, name, id);
    let data = it + rest;
    let id_len = kind.spec_size();
    let space = digits.len() as int;
    let nul = space + 1 + name.len();
    assert forall|i: int| 0 <= i < space implies data[i] == digits[i] by {}
    assert forall|i: int| 0 <= i < name.len() implies data[space + 1 + i] == name[i] by {}
    assert(data[space] == 0x20 && data[nul] == 0);
    assert forall|i: int| 0 <= i < space implies data[i] != 0x20 && data[i] != 0 by {
        modes_are_digits(digits, i);
    }
    next_byte_passes(data, 0, space, 0x20);
    assert forall|i: int| 0 <= i < nul implies data[i] != 0 by {
        if i > space {
            assert(data[space + 1 + (i - space - 1)] == name[i - space - 1]);
        }
    }
    next_byte_passes(data, 0, nul, 0);
    assert(data.subrange(0, space) =~= digits);
    assert(data.subrange(space + 1, nul) =~= name);
    assert(data.subrange(nul + 1, nul + 1 + id_len) =~= id);
    assert(it.len() == nul + 1 + id_len);
    items_ignore_the_start(it, rest, 0, id_len);
}

/// A tree without bytes has no items.
pub proof fn empty_tree_has_no_items(kind: HashKind)
    ensures
        tree_items(Seq::empty(), kind) == Some(Seq::<Item>::empty()),
{
}

/// No other digits stand for a mode.
pub proof fn no_other_digits_are_modes(digits: Seq<u8>)
    requires
        digits != seq![0x34u8, 0x30, 0x30, 0x30, 0x30],
        digits != seq![0x31u8, 0x30, 0x30, 0x36, 0x34, 0x34],
        digits != seq![0x31u8, 0x30, 0x30, 0x36, 0x36, 0x34],
        digits != seq![0x31u8, 0x30, 0x30, 0x36, 0x34, 0x30],
        digits != seq![0x31u8, 0x30, 0x30, 0x37, 0x35, 0x35],
        digits != seq![0x31u8, 0x32, 0x30, 0x30, 0x30, 0x30],
        digits != seq![0x31u8, 0x36, 0x30, 0x30, 0x30, 0x30],
    ensures
        mode_of(digits) is None,
{
}

/// The search finds the first such byte.
proof fn next_byte_is_found(data: Seq<u8>, from: int, byte: u8)
    requires
        0 <= from <= data.len(),
    ensures
        from <= next_byte(data, from, byte) <= data.len(),
        next_byte(data, from, byte) < data.len() ==> data[next_byte(data, from, byte)] == byte,
        forall|i: int| from <= i < next_byte(data, from, byte) ==> data[i] != byte,
    decreases data.len() - from,
{
    if from < data.len() && data[from] != byte {
        next_byte_is_found(data, from + 1, byte);
    }
}

/// The item is written at the start of the data, and the rest follows.
pub open spec fn is_written(
    data: Seq<u8>,
    item: Item,
    digits: Seq<u8>,
    name: Seq<u8>,
    rest: Seq<u8>,
) -> bool {
    &&& data == item_bytes(digits, name, item.id) + rest
    &&& mode_of(digits) == Some(item.mode)
    &&& valid_utf8(name)
    &&& decode_utf8(name) == item.name
}

/// Data is read as a tree only if it is written as one: where items come out, the first of
/// them is written at the start, and the others are those of the rest.
pub proof fn read_items_are_written(data: Seq<u8>, kind: HashKind, items: Seq<Item>)
    requires
        tree_items(data, kind) == Some(items),
        data.len() > 0,
    ensures
        items.len() > 0,
        items[0].id.len() == kind.spec_size(),
        exists|digits: Seq<u8>, name: Seq<u8>, rest: Seq<u8>| #[trigger]
            is_written(data, items[0], digits, name, rest) && tree_items(rest, kind) == Some(
                items.skip(1),
            ),
{
    let id_len = kind.spec_size();
    let space = next_byte(data, 0, 0x20);
    let nul = next_byte(data, 0, 0);
    let end = nul + 1 + id_len;
    next_byte_is_found(data, 0, 0x20);
    next_byte_is_found(data, 0, 0);
    let digits = data.subrange(0, space);
    let name = data.subrange(space + 1, nul);
    let rest = data.skip(end);
    let it = data.take(end);
    assert(it + rest =~= data);
    assert(it =~= item_bytes(digits, name, items[0].id));
    items_ignore_the_start(it, rest, 0, id_len);
    let others = items_from(data, end, id_len)->0;
    assert(items.skip(1) =~= others);
    assert(is_written(data, items[0], digits, name, rest));
}

} // verus!
