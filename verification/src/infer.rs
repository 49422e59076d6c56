//! Where blobs stand in the trees that are packed with them.

use crate::blobs::inners;
use crate::hash::{hex_is_injective, hex_of, ObjectHash};
use crate::names::path_of;
use crate::object::{Entry, PackEntry};
use crate::path::{join_git_path, joined};
use crate::tree::{
    find_byte, items_of, next_byte, read_tree, tree_items, Item, TreeItem, TreeItemMode,
};
use std::collections::VecDeque;
use vstd::hash_map::StringHashMap;
use vstd::prelude::*;
use vstd::slice::slice_subrange;

verus! {

/// The line that a commit starts with, without the `tree ` in front, if it has that.
pub open spec fn root_line(data: Seq<u8>) -> Option<Seq<u8>> {
    let end = next_byte(data, 0, 0x0a);
    if end >= 5 && data.take(5) == seq![0x74u8, 0x72, 0x65, 0x65, 0x20] {
        Some(data.subrange(5, end))
    } else {
        None
    }
}

/// The name of the tree that a commit records.
pub open spec fn root_of(data: Seq<u8>) -> Option<Seq<u8>> {
    match root_line(data) {
        Some(text) => ObjectHash::spec_from_hex(text),
        None => None,
    }
}

/// Reads the name of the tree that a commit records, which its first line gives.
pub fn commit_root_tree(data: &[u8]) -> (r: Option<ObjectHash>)
    ensures
        match r {
            Some(hash) => root_of(data@) == Some(hash@),
            None => root_of(data@) is None,
        },
{
    let end: usize = find_byte(data, 0, 0x0a);
    if end < 5 {
        return None;
    }
    if data[0] != 0x74 || data[1] != 0x72 || data[2] != 0x65 || data[3] != 0x65 || data[4]
        != 0x20 {
        proof {
            let prefix = seq![0x74u8, 0x72, 0x65, 0x65, 0x20];
            assert(data@.take(5) != prefix) by {
                assert(data@.take(5)[0] == data@[0] && data@.take(5)[1] == data@[1]);
                assert(data@.take(5)[2] == data@[2] && data@.take(5)[3] == data@[3]);
                assert(data@.take(5)[4] == data@[4]);
                assert(prefix[0] == 0x74 && prefix[1] == 0x72 && prefix[2] == 0x65);
                assert(prefix[3] == 0x65 && prefix[4] == 0x20);
            }
        }
        return None;
    }
    assert(data@.take(5) =~= seq![0x74u8, 0x72, 0x65, 0x65, 0x20]);
    ObjectHash::from_hex(slice_subrange(data, 5, end))
}

/// Paths of blobs, by the names of the blobs.
pub struct BlobPaths {
    map: StringHashMap<String>,
}

impl View for BlobPaths {
    type V = Map<Seq<u8>, Seq<char>>;

    closed spec fn view(&self) -> Map<Seq<u8>, Seq<char>> {
        Map::new(
            |id: Seq<u8>| self.map@.contains_key(hex_of(id)),
            |id: Seq<u8>| self.map@[hex_of(id)]@,
        )
    }
}

/// The path is noted for the blob, unless one is noted already.
pub open spec fn noted(
    paths: Map<Seq<u8>, Seq<char>>,
    id: Seq<u8>,
    path: Seq<char>,
) -> Map<Seq<u8>, Seq<char>> {
    if paths.contains_key(id) {
        paths
    } else {
        paths.insert(id, path)
    }
}

impl BlobPaths {
    /// No paths.
    pub fn new() -> (r: Self)
        ensures
            r@ == Map::<Seq<u8>, Seq<char>>::empty(),
    {
        let r = BlobPaths { map: StringHashMap::new() };
        assert(r@ =~= Map::empty());
        r
    }

    /// The path of a blob.
    pub fn get(&self, id: &ObjectHash) -> (r: Option<&String>)
        ensures
            match r {
                Some(path) => self@.contains_key(id@) && self@[id@] == path@,
                None => !self@.contains_key(id@),
            },
    {
        self.map.get(id.to_hex().as_str())
    }

    /// Notes the path of a blob, unless one is noted already.
    pub fn note(&mut self, id: &ObjectHash, path: String)
        ensures
            final(self)@ == noted(old(self)@, id@, path@),
    {
        let key = id.to_hex();
        if !self.map.contains_key(key.as_str()) {
            let ghost before = self.map@;
            self.map.insert(key, path);
            proof {
                assert forall|other: Seq<u8>| #[trigger] hex_of(other) == hex_of(id@) implies other
                    == id@ by {
                    hex_is_injective(other, id@);
                }
                assert(self@ =~= old(self)@.insert(id@, path@));
            }
        }
    }
}

/// A tree by its name.
pub struct Directory {
    pub id: Seq<u8>,
    pub items: Seq<Item>,
}

/// A tree that was read.
pub struct ParsedTree {
    pub id: ObjectHash,
    pub items: Vec<TreeItem>,
}

impl View for ParsedTree {
    type V = Directory;

    open spec fn view(&self) -> Directory {
        Directory { id: self.id@, items: items_of(self.items@) }
    }
}

/// The values of trees.
pub open spec fn directories(trees: Seq<ParsedTree>) -> Seq<Directory> {
    Seq::new(trees.len(), |k: int| trees[k]@)
}

/// The place of a tree among the first `n`.
pub open spec fn place_among(trees: Seq<Directory>, id: Seq<u8>, n: int) -> Option<int>
    decreases n,
{
    if n <= 0 {
        None
    } else if trees[n - 1].id == id {
        Some(n - 1)
    } else {
        place_among(trees, id, n - 1)
    }
}

/// The place of a tree.
pub open spec fn place(trees: Seq<Directory>, id: Seq<u8>) -> Option<int> {
    place_among(trees, id, trees.len() as int)
}

/// The place of a tree that is found is the place of a tree with that name.
pub proof fn place_is_right(trees: Seq<Directory>, id: Seq<u8>, n: int)
    requires
        n <= trees.len(),
    ensures
        place_among(trees, id, n) matches Some(j) ==> 0 <= j < n && trees[j].id == id,
        place_among(trees, id, n) is None ==> forall|j: int|
            0 <= j < n ==> (#[trigger] trees[j]).id != id,
    decreases n,
{
    if n > 0 {
        place_is_right(trees, id, n - 1);
    }
}

/// Places depend on the names of the trees alone.
proof fn places_follow_names(
    trees: Seq<Directory>,
    others: Seq<Directory>,
    id: Seq<u8>,
    n: int,
)
    requires
        n <= trees.len(),
        n <= others.len(),
        forall|j: int| 0 <= j < n ==> (#[trigger] trees[j]).id == others[j].id,
    ensures
        place_among(trees, id, n) == place_among(others, id, n),
    decreases n,
{
    if n > 0 {
        places_follow_names(trees, others, id, n - 1);
        assert(trees[n - 1].id == others[n - 1].id);
    }
}

/// The trees that the first `n` entries hold, each name once, in the order in which
/// the names appear. Of two entries with one name the later one counts. Entries that
/// cannot be read are left out.
pub open spec fn readable_trees(entries: Seq<Entry>, n: int) -> Seq<Directory>
    decreases n,
{
    if n <= 0 {
        Seq::empty()
    } else {
        let before = readable_trees(entries, n - 1);
        let entry = entries[n - 1];
        match tree_items(entry.data@, entry.hash.spec_kind()) {
            None => before,
            Some(items) => {
                let tree = Directory { id: entry.hash@, items };
                match place(before, entry.hash@) {
                    Some(j) => before.update(j, tree),
                    None => before.push(tree),
                }
            },
        }
    }
}

/// The trees that were read, with an index of their names.
struct Forest {
    trees: Vec<ParsedTree>,
    index: StringHashMap<usize>,
}

impl Forest {
    /// The index agrees with the trees.
    spec fn is_indexed(&self) -> bool {
        forall|id: Seq<u8>|
            match #[trigger] place(directories(self.trees@), id) {
                Some(j) => self.index@.contains_key(hex_of(id)) && self.index@[hex_of(id)] == j,
                None => !self.index@.contains_key(hex_of(id)),
            }
    }

    /// Finds the place of a tree.
    fn find(&self, id: &ObjectHash) -> (r: Option<usize>)
        requires
            self.is_indexed(),
        ensures
            match r {
                Some(j) => place(directories(self.trees@), id@) == Some(j as int) && j
                    < self.trees.len(),
                None => place(directories(self.trees@), id@) is None,
            },
    {
        proof {
            place_is_right(directories(self.trees@), id@, self.trees@.len() as int);
        }
        match self.index.get(id.to_hex().as_str()) {
            Some(j) => Some(*j),
            None => None,
        }
    }

    /// Reads the trees that the entries hold.
    fn read(entries: &Vec<PackEntry>) -> (r: Forest)
        ensures
            r.is_indexed(),
            directories(r.trees@) == readable_trees(inners(entries@), entries@.len() as int),
    {
        let mut forest = Forest { trees: Vec::new(), index: StringHashMap::new() };
        let mut i: usize = 0;
        assert(directories(forest.trees@) =~= Seq::empty());
        while i < entries.len()
            invariant
                i <= entries.len(),
                forest.is_indexed(),
                directories(forest.trees@) == readable_trees(inners(entries@), i as int),
            decreases entries.len() - i,
        {
            let entry = &entries[i].inner;
            assert(inners(entries@)[i as int] == *entry);
            let ghost before = directories(forest.trees@);
            if let Some(items) = read_tree(entry.data.as_slice(), entry.hash.kind()) {
                let tree = ParsedTree { id: entry.hash, items };
                let ghost value = tree@;
                match forest.find(&entry.hash) {
                    Some(j) => {
                        forest.trees.set(j, tree);
                        proof {
                            place_is_right(before, entry.hash@, before.len() as int);
                            assert(directories(forest.trees@) =~= before.update(j as int, value));
                            assert forall|id: Seq<u8>| #[trigger]
                                place(directories(forest.trees@), id) == place(before, id) by {
                                places_follow_names(
                                    directories(forest.trees@),
                                    before,
                                    id,
                                    before.len() as int,
                                );
                            }
                        }
                    },
                    None => {
                        let count: usize = forest.trees.len();
                        forest.trees.push(tree);
                        forest.index.insert(entry.hash.to_hex(), count);
                        proof {
                            assert(directories(forest.trees@) =~= before.push(value));
                            assert forall|id: Seq<u8>|
                                match #[trigger] place(directories(forest.trees@), id) {
                                    Some(j) => forest.index@.contains_key(hex_of(id))
                                        && forest.index@[hex_of(id)] == j,
                                    None => !forest.index@.contains_key(hex_of(id)),
                                } by {
                                places_follow_names(
                                    directories(forest.trees@),
                                    before,
                                    id,
                                    before.len() as int,
                                );
                                assert(place(before, id) is Some || place(before, id) is None);
                                if hex_of(id) == hex_of(entry.hash@) {
                                    hex_is_injective(id, entry.hash@);
                                }
                            }
                        }
                    },
                }
            }
            i += 1;
        }
        forest
    }
}

/// The places of the trees that the first `n` commits record, as far as they are
/// among the trees.
pub open spec fn recorded_roots(commits: Seq<Entry>, trees: Seq<Directory>, n: int) -> Seq<int>
    decreases n,
{
    if n <= 0 {
        Seq::empty()
    } else {
        let before = recorded_roots(commits, trees, n - 1);
        match root_of(commits[n - 1].data@) {
            Some(id) => match place(trees, id) {
                Some(j) => before.push(j),
                None => before,
            },
            None => before,
        }
    }
}

/// The places of the trees from which paths start: the ones that commits record, or
/// all where there is no such tree.
pub open spec fn roots(commits: Seq<Entry>, trees: Seq<Directory>) -> Seq<int> {
    let recorded = recorded_roots(commits, trees, commits.len() as int);
    if recorded.len() > 0 {
        recorded
    } else {
        Seq::new(trees.len(), |j: int| j)
    }
}

/// Trees to visit next, each with its path.
pub open spec fn to_visit(places: Seq<int>) -> Seq<(int, Seq<char>)> {
    Seq::new(places.len(), |k: int| (places[k], Seq::<char>::empty()))
}

/// The trees among the first `n` items of a tree, each with its path, as far as they
/// are among the trees.
pub open spec fn subtrees(
    trees: Seq<Directory>,
    items: Seq<Item>,
    prefix: Seq<char>,
    n: int,
) -> Seq<(int, Seq<char>)>
    decreases n,
{
    if n <= 0 {
        Seq::empty()
    } else {
        let before = subtrees(trees, items, prefix, n - 1);
        let item = items[n - 1];
        match place(trees, item.id) {
            Some(j) => if item.mode == TreeItemMode::Tree {
                before.push((j, joined(prefix, item.name)))
            } else {
                before
            },
            None => before,
        }
    }
}

/// The paths of the blobs among the first `n` items of a tree are noted.
pub open spec fn with_blobs(
    paths: Map<Seq<u8>, Seq<char>>,
    items: Seq<Item>,
    prefix: Seq<char>,
    n: int,
) -> Map<Seq<u8>, Seq<char>>
    decreases n,
{
    if n <= 0 {
        paths
    } else {
        let before = with_blobs(paths, items, prefix, n - 1);
        let item = items[n - 1];
        if item.mode.is_blob() {
            noted(before, item.id, joined(prefix, item.name))
        } else {
            before
        }
    }
}

/// How many of the first `n` trees are not visited yet.
pub open spec fn unvisited(visited: Seq<bool>, n: int) -> nat
    decreases n,
{
    if n <= 0 {
        0
    } else {
        unvisited(visited, n - 1) + if visited[n - 1] {
            0nat
        } else {
            1nat
        }
    }
}

/// Visiting a tree leaves one tree less to visit.
pub proof fn visiting_counts(visited: Seq<bool>, t: int, n: int)
    requires
        0 <= t < visited.len(),
        n <= visited.len(),
        !visited[t],
    ensures
        t < n ==> unvisited(visited.update(t, true), n) + 1 == unvisited(visited, n),
        t >= n ==> unvisited(visited.update(t, true), n) == unvisited(visited, n),
    decreases n,
{
    if n > 0 {
        visiting_counts(visited, t, n - 1);
    }
}

/// The paths that are noted when the queued trees are visited in turn, each tree
/// once, and the trees below them queued behind the others.
pub open spec fn after_visits(
    trees: Seq<Directory>,
    queue: Seq<(int, Seq<char>)>,
    visited: Seq<bool>,
    paths: Map<Seq<u8>, Seq<char>>,
) -> Map<Seq<u8>, Seq<char>>
    decreases unvisited(visited, visited.len() as int), queue.len(),
{
    if queue.len() == 0 {
        paths
    } else {
        let (t, prefix) = queue[0];
        if !(0 <= t < visited.len()) || visited[t] {
            after_visits(trees, queue.drop_first(), visited, paths)
        } else {
            let items = trees[t].items;
            proof {
                visiting_counts(visited, t, visited.len() as int);
            }
            after_visits(
                trees,
                queue.drop_first() + subtrees(trees, items, prefix, items.len() as int),
                visited.update(t, true),
                with_blobs(paths, items, prefix, items.len() as int),
            )
        }
    }
}

/// The names of blobs in the first `n` trees are noted as paths, for blobs that have
/// none.
pub open spec fn with_bare_names(
    paths: Map<Seq<u8>, Seq<char>>,
    trees: Seq<Directory>,
    n: int,
) -> Map<Seq<u8>, Seq<char>>
    decreases n,
{
    if n <= 0 {
        paths
    } else {
        let items = trees[n - 1].items;
        with_blobs(
            with_bare_names(paths, trees, n - 1),
            items,
            Seq::empty(),
            items.len() as int,
        )
    }
}

/// The paths of the blobs that can be reached from the roots.
pub open spec fn paths_below_roots(commits: Seq<Entry>, trees: Seq<Directory>) -> Map<
    Seq<u8>,
    Seq<char>,
> {
    after_visits(
        trees,
        to_visit(roots(commits, trees)),
        Seq::new(trees.len(), |j: int| false),
        Map::empty(),
    )
}

/// The paths that commits and trees give to blobs.
pub open spec fn inferred_paths(commits: Seq<Entry>, trees: Seq<Directory>) -> Map<
    Seq<u8>,
    Seq<char>,
> {
    with_bare_names(paths_below_roots(commits, trees), trees, trees.len() as int)
}

/// The queue as a mathematical value.
spec fn queue_view(queue: Seq<(usize, String)>) -> Seq<(int, Seq<char>)> {
    Seq::new(queue.len(), |k: int| (queue[k].0 as int, queue[k].1@))
}

/// The value of a queue that is one longer.
proof fn queueing(queue: Seq<(usize, String)>, t: usize, path: String)
    ensures
        queue_view(queue.push((t, path))) == queue_view(queue).push((t as int, path@)),
{
    assert(queue_view(queue.push((t, path))) =~= queue_view(queue).push((t as int, path@)));
}

/// Lists the trees from which paths start.
fn list_roots(commits: &Vec<PackEntry>, forest: &Forest) -> (r: VecDeque<(usize, String)>)
    requires
        forest.is_indexed(),
    ensures
        queue_view(r@) == to_visit(roots(inners(commits@), directories(forest.trees@))),
        forall|k: int| 0 <= k < r@.len() ==> (#[trigger] r@[k]).0 < forest.trees.len(),
{
    let ghost trees = directories(forest.trees@);
    let mut queue: VecDeque<(usize, String)> = VecDeque::new();
    let mut i: usize = 0;
    while i < commits.len()
        invariant
            i <= commits.len(),
            forest.is_indexed(),
            trees == directories(forest.trees@),
            queue_view(queue@) =~= to_visit(
                recorded_roots(inners(commits@), trees, i as int),
            ),
            forall|k: int| 0 <= k < queue@.len() ==> (#[trigger] queue@[k]).0 < forest.trees.len(),
        decreases commits.len() - i,
    {
        assert(inners(commits@)[i as int] == commits@[i as int].inner);
        if let Some(id) = commit_root_tree(commits[i].inner.data.as_slice()) {
            if let Some(j) = forest.find(&id) {
                let path = String::new();
                proof {
                    queueing(queue@, j, path);
                }
                queue.push_back((j, path));
            }
        }
        i += 1;
    }
    if queue.len() == 0 {
        let mut j: usize = 0;
        while j < forest.trees.len()
            invariant
                j <= forest.trees.len(),
                queue_view(queue@) =~= to_visit(Seq::new(j as nat, |k: int| k)),
                forall|k: int|
                    0 <= k < queue@.len() ==> (#[trigger] queue@[k]).0 < forest.trees.len(),
            decreases forest.trees.len() - j,
        {
            let path = String::new();
            proof {
                queueing(queue@, j, path);
            }
            queue.push_back((j, path));
            j += 1;
        }
    }
    queue
}

/// Notes the paths of the blobs of a tree.
fn note_blobs(paths: &mut BlobPaths, items: &Vec<TreeItem>, prefix: &str)
    ensures
        final(paths)@ == with_blobs(
            old(paths)@,
            items_of(items@),
            prefix@,
            items@.len() as int,
        ),
{
    let mut k: usize = 0;
    while k < items.len()
        invariant
            k <= items.len(),
            paths@ == with_blobs(old(paths)@, items_of(items@), prefix@, k as int),
        decreases items.len() - k,
    {
        let item = &items[k];
        assert(items_of(items@)[k as int] == item@);
        match item.mode {
            TreeItemMode::Blob | TreeItemMode::BlobExecutable | TreeItemMode::Link => {
                paths.note(&item.id, join_git_path(prefix, item.name.as_str()));
            },
            TreeItemMode::Tree | TreeItemMode::Commit => {},
        }
        k += 1;
    }
}

/// Queues the trees below a tree.
fn queue_subtrees(
    queue: &mut VecDeque<(usize, String)>,
    forest: &Forest,
    items: &Vec<TreeItem>,
    prefix: &str,
)
    requires
        forest.is_indexed(),
        forall|k: int|
            0 <= k < old(queue)@.len() ==> (#[trigger] old(queue)@[k]).0 < forest.trees.len(),
    ensures
        queue_view(final(queue)@) == queue_view(old(queue)@) + subtrees(
            directories(forest.trees@),
            items_of(items@),
            prefix@,
            items@.len() as int,
        ),
        forall|k: int|
            0 <= k < final(queue)@.len() ==> (#[trigger] final(queue)@[k]).0
                < forest.trees.len(),
{
    let ghost trees = directories(forest.trees@);
    let mut k: usize = 0;
    while k < items.len()
        invariant
            k <= items.len(),
            forest.is_indexed(),
            trees == directories(forest.trees@),
            queue_view(queue@) =~= queue_view(old(queue)@) + subtrees(
                trees,
                items_of(items@),
                prefix@,
                k as int,
            ),
            forall|j: int| 0 <= j < queue@.len() ==> (#[trigger] queue@[j]).0 < forest.trees.len(),
        decreases items.len() - k,
    {
        let item = &items[k];
        assert(items_of(items@)[k as int] == item@);
        if let TreeItemMode::Tree = item.mode {
            if let Some(j) = forest.find(&item.id) {
                let path = join_git_path(prefix, item.name.as_str());
                proof {
                    queueing(queue@, j, path);
                }
                queue.push_back((j, path));
            }
        }
        k += 1;
    }
}

/// Finds paths for blobs in the trees that are packed with them: first below the
/// trees that the commits record, or below all trees if there is none; blobs that no
/// such path leads to get their bare names.
pub fn infer_blob_paths(commits: &Vec<PackEntry>, trees: &Vec<PackEntry>) -> (r: BlobPaths)
    ensures
        r@ == inferred_paths(
            inners(commits@),
            readable_trees(inners(trees@), trees@.len() as int),
        ),
{
    let forest = Forest::read(trees);
    let ghost known = directories(forest.trees@);
    let mut paths = BlobPaths::new();
    let mut queue = list_roots(commits, &forest);
    let mut visited: Vec<bool> = Vec::new();
    while visited.len() < forest.trees.len()
        invariant
            visited.len() <= forest.trees.len(),
            forall|j: int| 0 <= j < visited.len() ==> !(#[trigger] visited@[j]),
        decreases forest.trees.len() - visited.len(),
    {
        visited.push(false);
    }
    let ghost expected = paths_below_roots(inners(commits@), known);
    assert(visited@ =~= Seq::new(known.len(), |j: int| false));
    loop
        invariant
            forest.is_indexed(),
            known == directories(forest.trees@),
            visited.len() == forest.trees.len(),
            forall|k: int| 0 <= k < queue@.len() ==> (#[trigger] queue@[k]).0 < forest.trees.len(),
            after_visits(known, queue_view(queue@), visited@, paths@) == expected,
        ensures
            paths@ == expected,
        decreases unvisited(visited@, visited@.len() as int), queue@.len(),
    {
        let ghost before = queue_view(queue@);
        match queue.pop_front() {
            None => {
                break;
            },
            Some((t, prefix)) => {
                assert(queue_view(queue@) =~= before.drop_first());
                if visited[t] {
                    continue;
                }
                proof {
                    visiting_counts(visited@, t as int, visited@.len() as int);
                    assert(known[t as int] == forest.trees@[t as int]@);
                }
                visited.set(t, true);
                note_blobs(&mut paths, &forest.trees[t].items, prefix.as_str());
                queue_subtrees(&mut queue, &forest, &forest.trees[t].items, prefix.as_str());
            },
        }
    }
    let mut j: usize = 0;
    while j < forest.trees.len()
        invariant
            j <= forest.trees.len(),
            known == directories(forest.trees@),
            paths@ == with_bare_names(expected, known, j as int),
        decreases forest.trees.len() - j,
    {
        assert(known[j as int] == forest.trees@[j as int]@);
        note_blobs(&mut paths, &forest.trees[j].items, "");
        proof {
            reveal_strlit("");
            assert(""@ =~= Seq::empty());
        }
        j += 1;
    }
    paths
}

/// A blob that has no path yet and whose name is among the paths gets its path; all
/// else stays.
pub open spec fn is_attached(
    before: PackEntry,
    after: PackEntry,
    paths: Map<Seq<u8>, Seq<char>>,
) -> bool {
    &&& after.inner == before.inner
    &&& if before.meta.file_path is None && paths.contains_key(before.inner.hash@) {
        path_of(after.meta) == Some(paths[before.inner.hash@])
    } else {
        after.meta == before.meta
    }
}

/// Every blob gets its path, as far as it has none.
pub open spec fn are_attached(
    before: Seq<PackEntry>,
    after: Seq<PackEntry>,
    paths: Map<Seq<u8>, Seq<char>>,
) -> bool {
    &&& after.len() == before.len()
    &&& forall|k: int|
        0 <= k < before.len() ==> #[trigger] is_attached(before[k], after[k], paths)
}

/// Attaches to blobs the paths that commits and trees give to them. Paths that are
/// known already are kept.
pub fn attach_inferred_blob_paths(
    commits: &Vec<PackEntry>,
    trees: &Vec<PackEntry>,
    blobs: &mut Vec<PackEntry>,
)
    ensures
        are_attached(
            old(blobs)@,
            final(blobs)@,
            inferred_paths(
                inners(commits@),
                readable_trees(inners(trees@), trees@.len() as int),
            ),
        ),
{
    let paths = infer_blob_paths(commits, trees);
    let ghost before = blobs@;
    let mut i: usize = 0;
    while i < blobs.len()
        invariant
            i <= blobs.len() == before.len(),
            forall|k: int|
                0 <= k < i ==> #[trigger] is_attached(before[k], blobs@[k], paths@),
            forall|k: int| i <= k < blobs.len() ==> #[trigger] blobs@[k] == before[k],
        decreases blobs.len() - i,
    {
        assert(blobs@[i as int] == before[i as int]);
        if blobs[i].meta.file_path.is_none() {
            if let Some(path) = paths.get(&blobs[i].inner.hash) {
                blobs[i].meta.file_path = Some(path.clone());
            }
        }
        assert(is_attached(before[i as int], blobs@[i as int], paths@));
        i += 1;
    }
}

} // verus!
