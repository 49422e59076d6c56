//! Where paths start: the trees that commits record, among those that are packed.

use crate::hash::{hex_of, hex_round_trip, hex_value};
use crate::infer::{
    are_attached, is_attached, place, place_is_right, readable_trees, recorded_roots, root_of,
    roots, Directory,
};
use crate::names::path_of;
use crate::object::{Entry, PackEntry};
use crate::tree::{next_byte, next_byte_is_ahead, tree_items};
use vstd::prelude::*;

verus! {

/// The commit at place `c` records the tree at place `j`.
pub open spec fn records(commits: Seq<Entry>, trees: Seq<Directory>, c: int, j: int) -> bool {
    &&& 0 <= c < commits.len()
    &&& 0 <= j < trees.len()
    &&& root_of(commits[c].data@) == Some(trees[j].id)
}

/// Some commit records the tree at place `j`.
pub open spec fn is_recorded(commits: Seq<Entry>, trees: Seq<Directory>, j: int) -> bool {
    exists|c: int| #[trigger] records(commits, trees, c, j)
}

/// No two trees have one name.
pub open spec fn names_are_unique(trees: Seq<Directory>) -> bool {
    forall|i: int, j: int|
        0 <= i < j < trees.len() ==> (#[trigger] trees[i]).id != (#[trigger] trees[j]).id
}

/// The trees are the ones that the commits at the given places record, in the order of
/// the commits, and no commit that records a tree is left out.
pub open spec fn come_from(
    commits: Seq<Entry>,
    trees: Seq<Directory>,
    found: Seq<int>,
    from: Seq<int>,
) -> bool {
    &&& from.len() == found.len()
    &&& forall|k: int|
        0 <= k < found.len() ==> records(commits, trees, #[trigger] from[k], found[k])
    &&& forall|k: int, m: int|
        0 <= k < m < from.len() ==> (#[trigger] from[k]) < (#[trigger] from[m])
    &&& forall|c: int, j: int| #[trigger] records(commits, trees, c, j) ==> from.contains(c)
}

/// The trees that the first commits record come from these.
proof fn recorded_roots_come_from_commits(
    commits: Seq<Entry>,
    trees: Seq<Directory>,
    n: int,
) -> (from: Seq<int>)
    requires
        0 <= n <= commits.len(),
    ensures
        from.len() == recorded_roots(commits, trees, n).len(),
        forall|k: int|
            0 <= k < from.len() ==> (#[trigger] from[k]) < n && records(
                commits,
                trees,
                from[k],
                recorded_roots(commits, trees, n)[k],
            ),
        forall|k: int, m: int|
            0 <= k < m < from.len() ==> (#[trigger] from[k]) < (#[trigger] from[m]),
        forall|c: int, j: int|
            c < n && #[trigger] records(commits, trees, c, j) ==> from.contains(c),
    decreases n,
{
    if n == 0 {
        Seq::empty()
    } else {
        let before = recorded_roots_come_from_commits(commits, trees, n - 1);
        let found = recorded_roots(commits, trees, n);
        let fewer = recorded_roots(commits, trees, n - 1);
        if let Some(id) = root_of(commits[n - 1].data@) {
            place_is_right(trees, id, trees.len() as int);
        }
        let from = if found.len() > fewer.len() {
            before.push(n - 1)
        } else {
            before
        };
        assert forall|k: int| 0 <= k < before.len() implies #[trigger] from[k] == before[k]
            && found[k] == fewer[k] by {}
        assert forall|k: int| 0 <= k < from.len() implies (#[trigger] from[k]) < n && records(
            commits,
            trees,
            from[k],
            found[k],
        ) by {
            if k < before.len() {
                assert(from[k] == before[k]);
            }
        }
        assert forall|c: int, j: int|
            c < n && #[trigger] records(commits, trees, c, j) implies from.contains(c) by {
            if c == n - 1 {
                assert(from[from.len() - 1] == c);
            } else {
                let k = choose|k: int| 0 <= k < before.len() && before[k] == c;
                assert(from[k] == c);
            }
        }
        from
    }
}

/// Where commits record packed trees, the roots are exactly those, one for every such
/// commit, in the order of the commits. Otherwise all trees are roots.
pub proof fn roots_are_what_commits_record(commits: Seq<Entry>, trees: Seq<Directory>)
    ensures
        (exists|c: int, j: int| #[trigger] records(commits, trees, c, j)) ==> exists|
            from: Seq<int>,
        | #[trigger] come_from(commits, trees, roots(commits, trees), from),
        !(exists|c: int, j: int| #[trigger] records(commits, trees, c, j)) ==> roots(
            commits,
            trees,
        ) == Seq::new(trees.len(), |j: int| j),
{
    let from = recorded_roots_come_from_commits(commits, trees, commits.len() as int);
    let found = recorded_roots(commits, trees, commits.len() as int);
    if exists|c: int, j: int| #[trigger] records(commits, trees, c, j) {
        let (c, j) = choose|c: int, j: int| #[trigger] records(commits, trees, c, j);
        assert(from.contains(c));
        assert(found.len() > 0);
        assert(come_from(commits, trees, roots(commits, trees), from));
    } else if found.len() > 0 {
        assert(records(commits, trees, from[0], found[0]));
    }
}

/// Every tree that a commit records is a root, and where there is such a tree, every root
/// is one that a commit records.
pub proof fn every_recorded_tree_is_a_root(
    commits: Seq<Entry>,
    trees: Seq<Directory>,
    c: int,
    j: int,
)
    requires
        names_are_unique(trees),
        records(commits, trees, c, j),
    ensures
        roots(commits, trees).contains(j),
        forall|k: int|
            0 <= k < roots(commits, trees).len() ==> is_recorded(
                commits,
                trees,
                #[trigger] roots(commits, trees)[k],
            ),
{
    let found = roots(commits, trees);
    roots_are_what_commits_record(commits, trees);
    let from = choose|from: Seq<int>| #[trigger] come_from(commits, trees, found, from);
    let k = choose|k: int| 0 <= k < from.len() && from[k] == c;
    assert(records(commits, trees, from[k], found[k]));
    assert(found[k] == j);
    assert forall|m: int| 0 <= m < found.len() implies is_recorded(
        commits,
        trees,
        #[trigger] found[m],
    ) by {
        assert(records(commits, trees, from[m], found[m]));
    }
}

/// The entry at place `c` holds a tree that can be read, with these items.
pub open spec fn is_readable(entries: Seq<Entry>, c: int, tree: Directory) -> bool {
    &&& 0 <= c < entries.len()
    &&& entries[c].hash@ == tree.id
    &&& tree_items(entries[c].data@, entries[c].hash.spec_kind()) == Some(tree.items)
}

/// The entry at place `c` holds the tree, and of the first `n` entries no later one with
/// that name can be read.
pub open spec fn is_last_readable(entries: Seq<Entry>, n: int, c: int, tree: Directory) -> bool {
    &&& is_readable(entries, c, tree)
    &&& forall|d: int, other: Directory|
        c < d < n && #[trigger] is_readable(entries, d, other) ==> other.id != tree.id
}

/// Of the first `n` entries, the last one with the name that can be read holds the tree.
pub open spec fn is_held_last(entries: Seq<Entry>, n: int, tree: Directory) -> bool {
    exists|c: int| c < n && #[trigger] is_last_readable(entries, n, c, tree)
}

/// A tree with the name is among them.
pub open spec fn has_name(trees: Seq<Directory>, id: Seq<u8>) -> bool {
    exists|j: int| 0 <= j < trees.len() && (#[trigger] trees[j]).id == id
}

/// Every tree has a name of its own.
pub proof fn trees_have_their_own_names(entries: Seq<Entry>, n: int)
    requires
        0 <= n <= entries.len(),
    ensures
        names_are_unique(readable_trees(entries, n)),
    decreases n,
{
    if n > 0 {
        trees_have_their_own_names(entries, n - 1);
        let before = readable_trees(entries, n - 1);
        place_is_right(before, entries[n - 1].hash@, before.len() as int);
    }
}

/// Of entries with one name the last that can be read counts.
pub proof fn last_readable_entry_counts(entries: Seq<Entry>, n: int, j: int)
    requires
        0 <= n <= entries.len(),
        0 <= j < readable_trees(entries, n).len(),
    ensures
        is_held_last(entries, n, readable_trees(entries, n)[j]),
    decreases n,
{
    if n > 0 {
        let before = readable_trees(entries, n - 1);
        let after = readable_trees(entries, n);
        let entry = entries[n - 1];
        let read = tree_items(entry.data@, entry.hash.spec_kind());
        place_is_right(before, entry.hash@, before.len() as int);
        if read is Some && after[j].id == entry.hash@ {
            trees_have_their_own_names(entries, n);
            let it = match place(before, entry.hash@) {
                Some(k) => k,
                None => before.len() as int,
            };
            assert(after[it].id == entry.hash@);
            assert(j == it);
            assert(after[j] == (Directory { id: entry.hash@, items: read->0 }));
            assert(is_last_readable(entries, n, n - 1, after[j]));
        } else {
            assert(after[j] == before[j]);
            last_readable_entry_counts(entries, n - 1, j);
            let c = choose|c: int|
                c < n - 1 && #[trigger] is_last_readable(entries, n - 1, c, before[j]);
            assert forall|d: int, other: Directory|
                c < d < n && #[trigger] is_readable(entries, d, other) implies other.id
                != after[j].id by {}
            assert(is_last_readable(entries, n, c, after[j]));
        }
    }
}

/// Every tree that can be read is among the trees, by its name.
pub proof fn readable_trees_are_all_there(
    entries: Seq<Entry>,
    n: int,
    c: int,
    tree: Directory,
)
    requires
        0 <= n <= entries.len(),
        c < n,
        is_readable(entries, c, tree),
    ensures
        has_name(readable_trees(entries, n), tree.id),
    decreases n,
{
    let before = readable_trees(entries, n - 1);
    let after = readable_trees(entries, n);
    let entry = entries[n - 1];
    place_is_right(before, entry.hash@, before.len() as int);
    if c < n - 1 {
        readable_trees_are_all_there(entries, n - 1, c, tree);
        let j = choose|j: int| 0 <= j < before.len() && (#[trigger] before[j]).id == tree.id;
        assert(after[j].id == tree.id);
    } else {
        match place(before, entry.hash@) {
            Some(j) => {
                assert(after[j].id == tree.id);
            },
            None => {
                assert(after[before.len() as int].id == tree.id);
            },
        }
    }
}

/// What is attached changes no entry but by the path that it gains: an entry whose path is
/// known stays as it is, and so does one that no path is found for.
pub proof fn attaching_only_adds_paths(
    before: Seq<PackEntry>,
    after: Seq<PackEntry>,
    paths: Map<Seq<u8>, Seq<char>>,
    k: int,
)
    requires
        are_attached(before, after, paths),
        0 <= k < before.len(),
    ensures
        after.len() == before.len(),
        after[k].inner == before[k].inner,
        path_of(before[k].meta) is Some ==> after[k] == before[k],
        path_of(before[k].meta) is None && paths.contains_key(before[k].inner.hash@) ==> path_of(
            after[k].meta,
        ) == Some(paths[before[k].inner.hash@]),
        path_of(before[k].meta) is None && !paths.contains_key(before[k].inner.hash@) ==> after[k]
            == before[k],
{
    assert(is_attached(before[k], after[k], paths));
}

/// The line that names the root tree of a commit.
pub open spec fn tree_line(id: Seq<u8>) -> Seq<u8> {
    seq![0x74u8, 0x72, 0x65, 0x65, 0x20] + hex_of(id).map_values(|c: char| c as u8)
}

/// The end of the first line is found.
proof fn line_ends(line: Seq<u8>, rest: Seq<u8>, from: int)
    requires
        0 <= from <= line.len(),
        forall|i: int| 0 <= i < line.len() ==> line[i] != 0x0a,
    ensures
        next_byte(line, from, 0x0a) == line.len(),
        next_byte(line.push(0x0a) + rest, from, 0x0a) == line.len(),
    decreases line.len() - from,
{
    if from < line.len() {
        line_ends(line, rest, from + 1);
    }
}

/// Only the first line of a commit says which tree it records.
pub proof fn later_lines_do_not_matter(line: Seq<u8>, rest: Seq<u8>)
    requires
        forall|i: int| 0 <= i < line.len() ==> line[i] != 0x0a,
    ensures
        root_of(line.push(0x0a) + rest) == root_of(line),
{
    let data = line.push(0x0a) + rest;
    line_ends(line, rest, 0);
    if line.len() >= 5 {
        assert(data.take(5) =~= line.take(5));
        assert(data.subrange(5, line.len() as int) =~= line.subrange(5, line.len() as int));
    }
}

/// A commit whose first line is that of a tree records that tree.
pub proof fn commit_records_the_tree_that_it_names(id: Seq<u8>, rest: Seq<u8>)
    requires
        id.len() == 20 || id.len() == 32,
    ensures
        root_of(tree_line(id)) == Some(id),
        root_of(tree_line(id).push(0x0a) + rest) == Some(id),
{
    let start = seq![0x74u8, 0x72, 0x65, 0x65, 0x20];
    let hex = hex_of(id).map_values(|c: char| c as u8);
    let line = tree_line(id);
    hex_round_trip(id);
    assert forall|i: int| 0 <= i < line.len() implies line[i] != 0x0a by {
        if i >= 5 {
            assert(line[i] == hex[i - 5]);
            assert(hex_value(hex[i - 5]) is Some);
        } else {
            assert(line[i] == start[i]);
        }
    }
    line_ends(line, rest, 0);
    assert(line.take(5) =~= start);
    assert(line.subrange(5, line.len() as int) =~= hex);
    later_lines_do_not_matter(line, rest);
}

/// A commit that does not start with the word for a tree records none.
pub proof fn other_lines_name_no_tree(data: Seq<u8>)
    requires
        data.len() < 5 || data.take(5) != seq![0x74u8, 0x72, 0x65, 0x65, 0x20],
    ensures
        root_of(data) is None,
{
    next_byte_is_ahead(data, 0, 0x0a);
}

/// What a commit records is the name of an object.
pub proof fn roots_have_names_of_objects(data: Seq<u8>)
    ensures
        root_of(data) matches Some(id) ==> id.len() == 20 || id.len() == 32,
{
}

} // verus!
