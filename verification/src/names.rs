//! Blobs that are versions of one file, or that at least share a file name.

use crate::object::{Entry, EntryMeta};
use crate::path::{file_name, spec_file_name};
use crate::similarity::{longer, shorter, MAX_CHAIN_LEN};
use vstd::hash_map::StringHashMap;
use vstd::prelude::*;

verus! {

/// A file name counts only if at least this many blobs have it.
pub const BASENAME_DELTA_MIN_COUNT: usize = 3;

/// A delta between blobs that only share a name is tried from this size on.
pub const BASENAME_DELTA_MIN_SIZE: usize = 256;

/// Larger blobs do not stand for their file name.
pub const BASENAME_DELTA_MAX_ANCHOR_SIZE: usize = 2097152;

/// The path of an object, if it is known.
pub open spec fn path_of(meta: EntryMeta) -> Option<Seq<char>> {
    match meta.file_path {
        Some(path) => Some(path@),
        None => None,
    }
}

/// Whether both objects are known to stand at one path.
pub open spec fn is_same_path(base: EntryMeta, entry: EntryMeta) -> bool {
    path_of(base) is Some && path_of(base) == path_of(entry)
}

/// The file name of an object, if it is known.
pub open spec fn basename(meta: EntryMeta) -> Option<Seq<char>> {
    match meta.file_path {
        Some(path) => spec_file_name(path@),
        None => None,
    }
}

/// Whether both objects are known to stand at one path.
pub fn same_blob_path(base: &EntryMeta, entry: &EntryMeta) -> (r: bool)
    ensures
        r == is_same_path(*base, *entry),
{
    match (&base.file_path, &entry.file_path) {
        (Some(a), Some(b)) => *a == *b,
        _ => false,
    }
}

/// The file name of an object, if it is known.
pub fn blob_basename(entry: &EntryMeta) -> (r: Option<String>)
    ensures
        match r {
            Some(name) => basename(*entry) == Some(name@),
            None => basename(*entry) is None,
        },
{
    match &entry.file_path {
        Some(path) => file_name(path.as_str()),
        None => None,
    }
}

/// Whether a delta is tried between two blobs that share a file name but not a
/// path: the base can have one more delta above it, both have enough bytes, and the
/// shorter one has at least 0.35 times the bytes of the longer one.
pub open spec fn is_name_base(
    base: Entry,
    base_meta: EntryMeta,
    entry: Entry,
    entry_meta: EntryMeta,
) -> bool {
    let min_len = shorter(base.data@.len(), entry.data@.len());
    let max_len = longer(base.data@.len(), entry.data@.len());
    &&& !is_same_path(base_meta, entry_meta)
    &&& base.chain_len < MAX_CHAIN_LEN
    &&& base.hash != entry.hash
    &&& min_len >= BASENAME_DELTA_MIN_SIZE
    &&& 20 * min_len >= 7 * max_len
}

/// Whether a delta is tried between two blobs that share a file name.
pub fn can_try_basename_zstdelta(
    base: &Entry,
    base_meta: &EntryMeta,
    entry: &Entry,
    entry_meta: &EntryMeta,
) -> (r: bool)
    ensures
        r == is_name_base(*base, *base_meta, *entry, *entry_meta),
{
    if same_blob_path(base_meta, entry_meta) || base.chain_len >= MAX_CHAIN_LEN || base.hash
        == entry.hash {
        return false;
    }
    let base_len: usize = base.data.len();
    let entry_len: usize = entry.data.len();
    let (min_len, max_len): (usize, usize) = if base_len <= entry_len {
        (base_len, entry_len)
    } else {
        (entry_len, base_len)
    };
    if min_len < BASENAME_DELTA_MIN_SIZE {
        return false;
    }
    20 * (min_len as u128) >= 7 * (max_len as u128)
}

/// How many of the first `n` objects have the file name.
pub open spec fn name_count(metas: Seq<EntryMeta>, name: Seq<char>, n: int) -> nat
    decreases n,
{
    if n <= 0 {
        0
    } else {
        name_count(metas, name, n - 1) + if basename(metas[n - 1]) == Some(name) {
            1nat
        } else {
            0nat
        }
    }
}

/// There are no more objects with the name than objects.
proof fn name_count_is_bounded(metas: Seq<EntryMeta>, name: Seq<char>, n: int)
    requires
        n >= 0,
    ensures
        name_count(metas, name, n) <= n,
    decreases n,
{
    if n > 0 {
        name_count_is_bounded(metas, name, n - 1);
    }
}

/// Counts the objects by file name. Names that no object has are left out.
pub fn count_names(metas: &Vec<EntryMeta>) -> (r: StringHashMap<usize>)
    ensures
        forall|name: Seq<char>| #[trigger]
            r@.contains_key(name) <==> name_count(metas@, name, metas@.len() as int) > 0,
        forall|name: Seq<char>| #[trigger]
            r@.contains_key(name) ==> r@[name] == name_count(metas@, name, metas@.len() as int),
{
    let mut counts: StringHashMap<usize> = StringHashMap::new();
    let mut i: usize = 0;
    while i < metas.len()
        invariant
            i <= metas.len(),
            forall|name: Seq<char>| #[trigger]
                counts@.contains_key(name) <==> name_count(metas@, name, i as int) > 0,
            forall|name: Seq<char>| #[trigger]
                counts@.contains_key(name) ==> counts@[name] == name_count(
                    metas@,
                    name,
                    i as int,
                ),
        decreases metas.len() - i,
    {
        if let Some(name) = blob_basename(&metas[i]) {
            proof {
                name_count_is_bounded(metas@, name@, i as int);
            }
            let count: usize = match counts.get(name.as_str()) {
                Some(count) => *count,
                None => 0,
            };
            counts.insert(name, count + 1);
        }
        i += 1;
    }
    counts
}

/// The file name of the object at place `i`, if enough objects have it.
pub open spec fn frequent_name(metas: Seq<EntryMeta>, i: int) -> Option<Seq<char>> {
    match basename(metas[i]) {
        Some(name) => if name_count(metas, name, metas.len() as int)
            >= BASENAME_DELTA_MIN_COUNT {
            Some(name)
        } else {
            None
        },
        None => None,
    }
}

/// The file name of the object at place `i`, if the counts show that enough objects
/// have it.
pub fn frequent_basename(metas: &Vec<EntryMeta>, i: usize, counts: &StringHashMap<usize>) -> (r:
    Option<String>)
    requires
        i < metas.len(),
        forall|name: Seq<char>| #[trigger]
            counts@.contains_key(name) <==> name_count(metas@, name, metas@.len() as int) > 0,
        forall|name: Seq<char>| #[trigger]
            counts@.contains_key(name) ==> counts@[name] == name_count(
                metas@,
                name,
                metas@.len() as int,
            ),
    ensures
        match r {
            Some(name) => frequent_name(metas@, i as int) == Some(name@),
            None => frequent_name(metas@, i as int) is None,
        },
{
    match blob_basename(&metas[i]) {
        Some(name) => match counts.get(name.as_str()) {
            Some(count) => if *count >= BASENAME_DELTA_MIN_COUNT {
                Some(name)
            } else {
                None
            },
            None => None,
        },
        None => None,
    }
}

/// The anchor of a file name among the first `n` objects: the first of the largest
/// that have the name and are not too large.
pub open spec fn anchor(
    entries: Seq<Entry>,
    metas: Seq<EntryMeta>,
    name: Seq<char>,
    n: int,
) -> Option<int>
    decreases n,
{
    if n <= 0 {
        None
    } else {
        let before = anchor(entries, metas, name, n - 1);
        if basename(metas[n - 1]) == Some(name) && entries[n - 1].data@.len()
            <= BASENAME_DELTA_MAX_ANCHOR_SIZE && (before matches Some(j) ==> entries[n
            - 1].data@.len() > entries[j].data@.len()) {
            Some(n - 1)
        } else {
            before
        }
    }
}

/// The anchor of a file name is an earlier object with that name, not too large, and
/// no earlier object with the name that is not too large is larger.
pub proof fn anchor_is_the_largest(
    entries: Seq<Entry>,
    metas: Seq<EntryMeta>,
    name: Seq<char>,
    n: int,
    k: int,
)
    requires
        n >= 0,
    ensures
        anchor(entries, metas, name, n) matches Some(j) ==> 0 <= j < n && basename(metas[j])
            == Some(name) && entries[j].data@.len() <= BASENAME_DELTA_MAX_ANCHOR_SIZE,
        0 <= k < n && basename(metas[k]) == Some(name) && entries[k].data@.len()
            <= BASENAME_DELTA_MAX_ANCHOR_SIZE ==> anchor(entries, metas, name, n) is Some
            && entries[k].data@.len() <= entries[anchor(entries, metas, name, n)->0].data@.len(),
    decreases n,
{
    if n > 0 {
        anchor_is_the_largest(entries, metas, name, n - 1, k);
    }
}

/// The anchors of the file names among the first `n` objects are recorded, for the
/// names that enough objects have.
pub open spec fn records_anchors(
    anchors: Map<Seq<char>, usize>,
    entries: Seq<Entry>,
    metas: Seq<EntryMeta>,
    n: int,
) -> bool {
    forall|name: Seq<char>|
        name_count(metas, name, metas.len() as int) >= BASENAME_DELTA_MIN_COUNT ==> {
            &&& #[trigger] anchors.contains_key(name) <==> anchor(entries, metas, name, n) is Some
            &&& anchors.contains_key(name) ==> Some(anchors[name] as int) == anchor(
                entries,
                metas,
                name,
                n,
            )
        }
}

/// Records one more object as the anchor of its file name, if it is the new one.
/// `name` is its file name, if enough objects have it.
pub fn update_anchors(
    anchors: &mut StringHashMap<usize>,
    entries: &Vec<Entry>,
    metas: &Vec<EntryMeta>,
    i: usize,
    name: Option<String>,
)
    requires
        i < entries.len() == metas.len(),
        records_anchors(old(anchors)@, entries@, metas@, i as int),
        match name {
            Some(name) => frequent_name(metas@, i as int) == Some(name@),
            None => frequent_name(metas@, i as int) is None,
        },
    ensures
        records_anchors(final(anchors)@, entries@, metas@, i + 1),
{
    if let Some(name) = name {
        let len: usize = entries[i].data.len();
        if len <= BASENAME_DELTA_MAX_ANCHOR_SIZE {
            proof {
                anchor_is_the_largest(entries@, metas@, name@, i as int, 0);
                assert(anchors@.contains_key(name@) <==> anchor(entries@, metas@, name@, i as int)
                    is Some);
            }
            let is_larger = match anchors.get(name.as_str()) {
                Some(j) => len > entries[*j].data.len(),
                None => true,
            };
            if is_larger {
                anchors.insert(name, i);
            }
        }
    }
}

/// Three different objects have the file name.
pub open spec fn three_have(metas: Seq<EntryMeta>, name: Seq<char>) -> bool {
    exists|a: int, b: int, c: int|
        #![trigger metas[a], metas[b], metas[c]]
        0 <= a < b < c < metas.len() && basename(metas[a]) == Some(name) && basename(metas[b])
            == Some(name) && basename(metas[c]) == Some(name)
}

/// The first `n` objects have the name at least once, or twice.
proof fn counted_names_are_there(metas: Seq<EntryMeta>, name: Seq<char>, n: int)
    requires
        0 <= n <= metas.len(),
    ensures
        name_count(metas, name, n) >= 1 ==> exists|a: int|
            0 <= a < n && basename(#[trigger] metas[a]) == Some(name),
        name_count(metas, name, n) >= 2 ==> exists|a: int, b: int|
            #![trigger metas[a], metas[b]]
            0 <= a < b < n && basename(metas[a]) == Some(name) && basename(metas[b]) == Some(name),
        name_count(metas, name, n) >= 3 ==> three_have(metas, name),
    decreases n,
{
    if n > 0 {
        counted_names_are_there(metas, name, n - 1);
        if basename(metas[n - 1]) == Some(name) {
            if name_count(metas, name, n - 1) >= 1 {
                let a = choose|a: int|
                    0 <= a < n - 1 && basename(#[trigger] metas[a]) == Some(name);
                assert(0 <= a < n - 1 && basename(metas[a]) == Some(name));
                assert(basename(metas[n - 1]) == Some(name));
            }
            if name_count(metas, name, n - 1) == 2 {
                let (a, b) = choose|a: int, b: int|
                    #![trigger metas[a], metas[b]]
                    0 <= a < b < n - 1 && basename(metas[a]) == Some(name) && basename(metas[b])
                        == Some(name);
                assert(0 <= a < b < n - 1 < metas.len() && basename(metas[a]) == Some(name)
                    && basename(metas[b]) == Some(name) && basename(metas[n - 1]) == Some(name));
            }
        }
    }
}

/// More objects do not have a name less often.
proof fn name_count_rises(metas: Seq<EntryMeta>, name: Seq<char>, n: int, m: int)
    requires
        0 <= n <= m <= metas.len(),
    ensures
        name_count(metas, name, n) <= name_count(metas, name, m),
    decreases m,
{
    if n < m {
        name_count_rises(metas, name, n, m - 1);
    }
}

/// The file name of an object counts exactly if three different objects have it.
pub proof fn frequent_names_are_had_by_three(metas: Seq<EntryMeta>, i: int)
    requires
        0 <= i < metas.len(),
    ensures
        frequent_name(metas, i) matches Some(name) ==> basename(metas[i]) == Some(name)
            && three_have(metas, name),
        basename(metas[i]) matches Some(name) ==> (three_have(metas, name) ==> frequent_name(
            metas,
            i,
        ) == Some(name)),
        basename(metas[i]) is None ==> frequent_name(metas, i) is None,
{
    if let Some(name) = basename(metas[i]) {
        counted_names_are_there(metas, name, metas.len() as int);
        if three_have(metas, name) {
            let (a, b, c) = choose|a: int, b: int, c: int|
                #![trigger metas[a], metas[b], metas[c]]
                0 <= a < b < c < metas.len() && basename(metas[a]) == Some(name)
                    && basename(metas[b]) == Some(name) && basename(metas[c]) == Some(name);
            name_count_rises(metas, name, 0, a);
            name_count_rises(metas, name, a + 1, b);
            name_count_rises(metas, name, b + 1, c);
            name_count_rises(metas, name, c + 1, metas.len() as int);
        }
    }
}

/// Of several largest objects the first is the anchor.
pub proof fn anchor_is_the_first_of_the_largest(
    entries: Seq<Entry>,
    metas: Seq<EntryMeta>,
    name: Seq<char>,
    n: int,
    k: int,
)
    requires
        n >= 0,
        anchor(entries, metas, name, n) matches Some(j) && 0 <= k < j,
        basename(metas[k]) == Some(name),
        entries[k].data@.len() <= BASENAME_DELTA_MAX_ANCHOR_SIZE,
    ensures
        entries[k].data@.len() < entries[anchor(entries, metas, name, n)->0].data@.len(),
    decreases n,
{
    anchor_is_the_largest(entries, metas, name, n, k);
    if n > 0 {
        if anchor(entries, metas, name, n) == Some(n - 1) {
            anchor_is_the_largest(entries, metas, name, n - 1, k);
        } else {
            anchor_is_the_first_of_the_largest(entries, metas, name, n - 1, k);
        }
    }
}

/// The path of an object is the file path that is known of it.
pub proof fn paths_are_file_paths(meta: EntryMeta)
    ensures
        path_of(meta) is Some <==> meta.file_path is Some,
        meta.file_path matches Some(path) ==> path_of(meta) == Some(path@),
{
}

/// A name is counted once for every object that has it.
pub proof fn names_are_counted_once(metas: Seq<EntryMeta>, name: Seq<char>, n: int)
    requires
        0 <= n <= metas.len(),
    ensures
        name_count(metas, name, n) == metas.take(n).filter(
            |meta: EntryMeta| basename(meta) == Some(name),
        ).len(),
    decreases n,
{
    reveal(Seq::filter);
    if n > 0 {
        names_are_counted_once(metas, name, n - 1);
        assert(metas.take(n).drop_last() =~= metas.take(n - 1));
    }
}

} // verus!
