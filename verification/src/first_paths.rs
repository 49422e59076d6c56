//! Which of several paths a blob gets: the first of the shortest ones.

use crate::infer::{
    after_visits, inferred_paths, paths_below_roots, place, place_is_right, roots, subtrees,
    to_visit, unvisited, visiting_counts, with_bare_names, with_blobs, Directory,
};
use crate::object::Entry;
use crate::path::joined;
use crate::routes::{
    bare_names_fill_up, blobs_are_noted, is_below, is_blob_item, leads_to_blob,
    paths_below_roots_are_nearest, reachable_blobs_are_found, roots_are_trees, walk, walks_agree,
};
use crate::tree::{Item, TreeItemMode};
use vstd::prelude::*;

verus! {

/// The numbers are the same up to a place, and lower there.
pub open spec fn is_lower_at(a: Seq<int>, b: Seq<int>, i: int) -> bool {
    &&& 0 <= i < a.len()
    &&& i < b.len()
    &&& a[i] < b[i]
    &&& forall|j: int| 0 <= j < i ==> #[trigger] a[j] == b[j]
}

/// A way comes before a longer one, and before one of the same length that turns off
/// later.
pub open spec fn comes_before(a: Seq<int>, b: Seq<int>) -> bool {
    a.len() < b.len() || (a.len() == b.len() && exists|i: int| #[trigger] is_lower_at(a, b, i))
}

/// A way is another one, or comes before it.
pub open spec fn is_no_later(a: Seq<int>, b: Seq<int>) -> bool {
    a == b || comes_before(a, b)
}

/// A way leads to the tree at place `t`: the place of the start among the starts, then
/// the items to follow.
pub open spec fn way_leads(
    trees: Seq<Directory>,
    starts: Seq<int>,
    way: Seq<int>,
    t: int,
    path: Seq<char>,
) -> bool {
    &&& way.len() > 0
    &&& 0 <= way[0] < starts.len()
    &&& walk(trees, starts[way[0]], way.skip(1), way.len() - 1) == Some((t, path))
}

/// A way leads to the blob, along the path. Its last item is the blob.
pub open spec fn way_leads_to_blob(
    trees: Seq<Directory>,
    starts: Seq<int>,
    id: Seq<u8>,
    way: Seq<int>,
    path: Seq<char>,
) -> bool {
    way.len() > 1 && exists|t: int, above: Seq<char>|
        #![trigger way_leads(trees, starts, way.drop_last(), t, above)]
        way_leads(trees, starts, way.drop_last(), t, above) && is_blob_item(
            trees,
            t,
            way.last(),
            id,
        ) && path == joined(above, trees[t].items[way.last()].name)
}

/// The path is that of the first way to the blob: no way leads there through fewer trees,
/// and of those that lead through as many, it is the one from the first start, by the
/// first items.
pub open spec fn is_first_path(
    trees: Seq<Directory>,
    starts: Seq<int>,
    id: Seq<u8>,
    path: Seq<char>,
) -> bool {
    exists|way: Seq<int>| #[trigger]
        way_leads_to_blob(trees, starts, id, way, path) && no_way_comes_before(
            trees,
            starts,
            id,
            way,
        )
}

/// No way to the blob comes before this one.
pub open spec fn no_way_comes_before(
    trees: Seq<Directory>,
    starts: Seq<int>,
    id: Seq<u8>,
    way: Seq<int>,
) -> bool {
    forall|other: Seq<int>, path: Seq<char>| #[trigger]
        way_leads_to_blob(trees, starts, id, other, path) ==> is_no_later(way, other)
}

/// What comes before comes before all that comes behind.
proof fn before_goes_on(a: Seq<int>, b: Seq<int>, c: Seq<int>)
    requires
        is_no_later(a, b),
        is_no_later(b, c),
    ensures
        is_no_later(a, c),
        comes_before(a, b) || comes_before(b, c) ==> comes_before(a, c),
{
    if a != b && b != c && a.len() == b.len() == c.len() {
        let i = choose|i: int| #[trigger] is_lower_at(a, b, i);
        let j = choose|j: int| #[trigger] is_lower_at(b, c, j);
        let k = if i <= j {
            i
        } else {
            j
        };
        assert forall|m: int| 0 <= m < k implies #[trigger] a[m] == c[m] by {
            assert(a[m] == b[m] && b[m] == c[m]);
        }
        if i < j {
            assert(b[i] == c[i]);
        } else if j < i {
            assert(a[j] == b[j]);
        }
        assert(is_lower_at(a, c, k));
    }
}

/// What comes before still does when both go on.
proof fn before_stays(a: Seq<int>, b: Seq<int>, x: int, y: int)
    requires
        is_no_later(a, b),
        a == b ==> x <= y,
    ensures
        is_no_later(a.push(x), b.push(y)),
        comes_before(a, b) ==> comes_before(a.push(x), b.push(y)),
        a == b && x < y ==> comes_before(a.push(x), b.push(y)),
{
    let (c, d) = (a.push(x), b.push(y));
    if comes_before(a, b) {
        if a.len() == b.len() {
            let i = choose|i: int| #[trigger] is_lower_at(a, b, i);
            assert forall|m: int| 0 <= m < i implies #[trigger] c[m] == d[m] by {
                assert(a[m] == b[m]);
            }
            assert(is_lower_at(c, d, i));
        }
    }
    if a == b && x < y {
        assert(is_lower_at(c, d, a.len() as int));
    }
}

/// A way goes on through an item that is a tree.
proof fn ways_go_on(
    trees: Seq<Directory>,
    starts: Seq<int>,
    way: Seq<int>,
    t: int,
    path: Seq<char>,
    k: int,
    j: int,
)
    requires
        way_leads(trees, starts, way, t, path),
        is_below(trees, t, k, j),
    ensures
        way_leads(trees, starts, way.push(k), j, joined(path, trees[t].items[k].name)),
{
    let longer = way.push(k);
    assert(longer.skip(1) =~= way.skip(1).push(k));
    walks_agree(trees, starts[way[0]], way.skip(1), longer.skip(1), way.len() - 1);
    assert(longer.skip(1)[way.len() - 1] == k);
}

/// A way that follows items comes through a tree above.
proof fn ways_come_through(
    trees: Seq<Directory>,
    starts: Seq<int>,
    way: Seq<int>,
    j: int,
    path: Seq<char>,
)
    requires
        way_leads(trees, starts, way, j, path),
        way.len() > 1,
    ensures
        exists|t: int, above: Seq<char>|
            #![trigger way_leads(trees, starts, way.drop_last(), t, above)]
            way_leads(trees, starts, way.drop_last(), t, above) && is_below(
                trees,
                t,
                way.last(),
                j,
            ),
{
    let shorter = way.drop_last();
    let n = way.len() - 1;
    assert(shorter.skip(1) =~= way.skip(1).drop_last());
    walks_agree(trees, starts[way[0]], shorter.skip(1), way.skip(1), n - 1);
    let (t, above) = walk(trees, starts[way[0]], way.skip(1), n - 1)->0;
    assert(way.skip(1)[n - 1] == way.last());
    assert(way_leads(trees, starts, shorter, t, above));
}

/// A way leads to a tree, if the starts are trees.
proof fn ways_lead_to_trees(
    trees: Seq<Directory>,
    starts: Seq<int>,
    way: Seq<int>,
    t: int,
    path: Seq<char>,
)
    requires
        forall|k: int| 0 <= k < starts.len() ==> 0 <= #[trigger] starts[k] < trees.len(),
        way_leads(trees, starts, way, t, path),
    ensures
        0 <= t < trees.len(),
{
    if way.len() > 1 {
        ways_come_through(trees, starts, way, t, path);
        let (u, above) = choose|u: int, above: Seq<char>|
            #![trigger way_leads(trees, starts, way.drop_last(), u, above)]
            way_leads(trees, starts, way.drop_last(), u, above) && is_below(
                trees,
                u,
                way.last(),
                t,
            );
        place_is_right(trees, trees[u].items[way.last()].id, trees.len() as int);
    }
}

/// The ways to the trees among the first `n` items of a tree.
spec fn ways_below(trees: Seq<Directory>, items: Seq<Item>, way: Seq<int>, n: int) -> Seq<Seq<int>>
    decreases n,
{
    if n <= 0 {
        Seq::empty()
    } else {
        let before = ways_below(trees, items, way, n - 1);
        match place(trees, items[n - 1].id) {
            Some(_) => if items[n - 1].mode == TreeItemMode::Tree {
                before.push(way.push(n - 1))
            } else {
                before
            },
            None => before,
        }
    }
}

/// The ways to the trees below a tree go on from the way to it, in the order of the
/// items, and there is one to each tree below.
proof fn ways_below_go_on(
    trees: Seq<Directory>,
    starts: Seq<int>,
    t: int,
    prefix: Seq<char>,
    way: Seq<int>,
    n: int,
)
    requires
        0 <= t < trees.len(),
        0 <= n <= trees[t].items.len(),
        way_leads(trees, starts, way, t, prefix),
    ensures
        ({
            let below = subtrees(trees, trees[t].items, prefix, n);
            let ways = ways_below(trees, trees[t].items, way, n);
            &&& ways.len() == below.len()
            &&& forall|q: int|
                0 <= q < ways.len() ==> {
                    &&& way_leads(trees, starts, #[trigger] ways[q], below[q].0, below[q].1)
                    &&& ways[q].len() == way.len() + 1
                    &&& ways[q].drop_last() == way
                    &&& 0 <= ways[q].last() < n
                }
            &&& forall|p: int, q: int|
                0 <= p < q < ways.len() ==> (#[trigger] ways[p]).last() < (#[trigger]
                ways[q]).last()
            &&& forall|k: int, j: int|
                k < n && #[trigger] is_below(trees, t, k, j) ==> exists|q: int|
                    0 <= q < ways.len() && #[trigger] ways[q] == way.push(k) && below[q].0 == j
        }),
    decreases n,
{
    if n > 0 {
        ways_below_go_on(trees, starts, t, prefix, way, n - 1);
        let items = trees[t].items;
        let below = subtrees(trees, items, prefix, n);
        let ways = ways_below(trees, items, way, n);
        let fewer = subtrees(trees, items, prefix, n - 1);
        let before = ways_below(trees, items, way, n - 1);
        assert forall|q: int| 0 <= q < before.len() implies #[trigger] ways[q] == before[q]
            && below[q] == fewer[q] by {}
        if ways.len() > before.len() {
            ways_go_on(trees, starts, way, t, prefix, n - 1, below[before.len() as int].0);
            assert(way.push(n - 1).drop_last() =~= way);
        }
        assert forall|k: int, j: int|
            k < n && #[trigger] is_below(trees, t, k, j) implies exists|q: int|
            0 <= q < ways.len() && #[trigger] ways[q] == way.push(k) && below[q].0 == j by {
            if k < n - 1 {
                let q = choose|q: int|
                    0 <= q < before.len() && #[trigger] before[q] == way.push(k) && fewer[q].0
                        == j;
                assert(ways[q] == way.push(k));
            } else {
                assert(ways[before.len() as int] == way.push(k));
            }
        }
    }
}

/// The queued trees with the ways that lead to them, the first ones first. Each goes on
/// from a way that comes before all of them.
spec fn ways_are_queued(
    trees: Seq<Directory>,
    starts: Seq<int>,
    queue: Seq<(int, Seq<char>)>,
    ways: Seq<Seq<int>>,
) -> bool {
    &&& ways.len() == queue.len()
    &&& forall|q: int|
        0 <= q < ways.len() ==> way_leads(
            trees,
            starts,
            #[trigger] ways[q],
            queue[q].0,
            queue[q].1,
        )
    &&& forall|p: int, q: int|
        0 <= p < q < ways.len() ==> comes_before(#[trigger] ways[p], #[trigger] ways[q])
    &&& forall|q: int|
        0 <= q < ways.len() ==> comes_before((#[trigger] ways[q]).drop_last(), ways[0])
}

/// The tree at place `j` was visited by a way that comes no later than this one.
spec fn was_visited_by(visited: Seq<bool>, first: Seq<Seq<int>>, j: int, way: Seq<int>) -> bool {
    0 <= j < visited.len() && visited[j] && is_no_later(first[j], way)
}

/// The tree at place `j` is queued with a way that comes no later than this one.
spec fn is_queued_by(
    queue: Seq<(int, Seq<char>)>,
    ways: Seq<Seq<int>>,
    j: int,
    way: Seq<int>,
) -> bool {
    exists|q: int|
        0 <= q < queue.len() && queue[q].0 == j && is_no_later(#[trigger] ways[q], way)
}

/// Everything that the starts and the visited trees lead to is visited or queued, no
/// later than by the way through them, and nothing was visited later than what is queued.
spec fn is_complete(
    trees: Seq<Directory>,
    starts: Seq<int>,
    queue: Seq<(int, Seq<char>)>,
    ways: Seq<Seq<int>>,
    visited: Seq<bool>,
    first: Seq<Seq<int>>,
) -> bool {
    &&& forall|s: int|
        0 <= s < starts.len() ==> was_visited_by(visited, first, #[trigger] starts[s], seq![s])
            || is_queued_by(queue, ways, starts[s], seq![s])
    &&& forall|t: int, k: int, j: int|
        0 <= t < visited.len() && visited[t] && #[trigger] is_below(trees, t, k, j)
            ==> was_visited_by(visited, first, j, first[t].push(k)) || is_queued_by(
            queue,
            ways,
            j,
            first[t].push(k),
        )
    &&& forall|t: int, q: int|
        0 <= t < visited.len() && visited[t] && 0 <= q < ways.len() ==> is_no_later(
            #[trigger] first[t],
            #[trigger] ways[q],
        )
}

/// The blobs of visited trees have paths, and all paths are the first ones.
spec fn paths_are_first(
    trees: Seq<Directory>,
    starts: Seq<int>,
    visited: Seq<bool>,
    paths: Map<Seq<u8>, Seq<char>>,
) -> bool {
    &&& forall|t: int, k: int, id: Seq<u8>|
        0 <= t < visited.len() && visited[t] && #[trigger] is_blob_item(trees, t, k, id)
            ==> paths.contains_key(id)
    &&& all_first(trees, starts, paths)
}

/// All paths are the first ones.
spec fn all_first(
    trees: Seq<Directory>,
    starts: Seq<int>,
    paths: Map<Seq<u8>, Seq<char>>,
) -> bool {
    forall|id: Seq<u8>| #[trigger]
        paths.contains_key(id) ==> is_first_path(trees, starts, id, paths[id])
}

/// A way leads to a tree that was visited no later, or something is queued that is no
/// later.
proof fn ways_are_met(
    trees: Seq<Directory>,
    starts: Seq<int>,
    queue: Seq<(int, Seq<char>)>,
    ways: Seq<Seq<int>>,
    visited: Seq<bool>,
    first: Seq<Seq<int>>,
    way: Seq<int>,
    t: int,
    path: Seq<char>,
)
    requires
        ways.len() == queue.len(),
        is_complete(trees, starts, queue, ways, visited, first),
        way_leads(trees, starts, way, t, path),
    ensures
        was_visited_by(visited, first, t, way) || exists|q: int|
            0 <= q < ways.len() && is_no_later(#[trigger] ways[q], way),
    decreases way.len(),
{
    if way.len() == 1 {
        assert(way =~= seq![way[0]]);
        assert(starts[way[0]] == t);
    } else {
        ways_come_through(trees, starts, way, t, path);
        let shorter = way.drop_last();
        let (u, above) = choose|u: int, above: Seq<char>|
            #![trigger way_leads(trees, starts, way.drop_last(), u, above)]
            way_leads(trees, starts, way.drop_last(), u, above) && is_below(
                trees,
                u,
                way.last(),
                t,
            );
        ways_are_met(trees, starts, queue, ways, visited, first, shorter, u, above);
        assert(way =~= shorter.push(way.last()));
        if was_visited_by(visited, first, u, shorter) {
            before_stays(first[u], shorter, way.last(), way.last());
            let through = first[u].push(way.last());
            if was_visited_by(visited, first, t, through) {
                before_goes_on(first[t], through, way);
            } else {
                let q = choose|q: int|
                    0 <= q < queue.len() && queue[q].0 == t && is_no_later(
                        #[trigger] ways[q],
                        through,
                    );
                before_goes_on(ways[q], through, way);
                assert(is_no_later(ways[q], way));
            }
        } else {
            let q = choose|q: int| 0 <= q < ways.len() && is_no_later(#[trigger] ways[q], shorter);
            assert(comes_before(shorter, way));
            before_goes_on(ways[q], shorter, way);
            assert(is_no_later(ways[q], way));
        }
    }
}

/// A walk has one end.
proof fn ways_have_one_end(
    trees: Seq<Directory>,
    starts: Seq<int>,
    way: Seq<int>,
    t: int,
    path: Seq<char>,
    u: int,
    other: Seq<char>,
)
    requires
        way_leads(trees, starts, way, t, path),
        way_leads(trees, starts, way, u, other),
    ensures
        t == u,
        path == other,
{
}

/// The paths that the first queued tree adds are the first ones.
proof fn blobs_get_their_first_paths(
    trees: Seq<Directory>,
    starts: Seq<int>,
    queue: Seq<(int, Seq<char>)>,
    ways: Seq<Seq<int>>,
    visited: Seq<bool>,
    first: Seq<Seq<int>>,
    paths: Map<Seq<u8>, Seq<char>>,
    n: int,
)
    requires
        queue.len() > 0,
        visited.len() == trees.len(),
        0 <= queue[0].0 < trees.len(),
        0 <= n <= trees[queue[0].0].items.len(),
        ways_are_queued(trees, starts, queue, ways),
        is_complete(trees, starts, queue, ways, visited, first),
        paths_are_first(trees, starts, visited, paths),
    ensures
        all_first(
            trees,
            starts,
            with_blobs(paths, trees[queue[0].0].items, queue[0].1, n),
        ),
    decreases n,
{
    if n > 0 {
        blobs_get_their_first_paths(
            trees,
            starts,
            queue,
            ways,
            visited,
            first,
            paths,
            n - 1,
        );
        let (t, prefix) = queue[0];
        let items = trees[t].items;
        let before = with_blobs(paths, items, prefix, n - 1);
        let after = with_blobs(paths, items, prefix, n);
        blobs_are_noted(paths, items, prefix, n - 1);
        assert forall|id: Seq<u8>| #[trigger] after.contains_key(id) implies is_first_path(
            trees,
            starts,
            id,
            after[id],
        ) by {
            if !before.contains_key(id) {
                let way = ways[0].push(n - 1);
                assert(way.drop_last() =~= ways[0]);
                assert(way_leads(trees, starts, way.drop_last(), t, prefix));
                assert(is_blob_item(trees, t, n - 1, id));
                assert(way_leads_to_blob(trees, starts, id, way, after[id]));
                assert forall|other: Seq<int>, path: Seq<char>| #[trigger]
                    way_leads_to_blob(trees, starts, id, other, path) implies is_no_later(
                    way,
                    other,
                ) by {
                    let shorter = other.drop_last();
                    let k = other.last();
                    let (u, above) = choose|u: int, above: Seq<char>|
                        #![trigger way_leads(trees, starts, other.drop_last(), u, above)]
                        way_leads(trees, starts, other.drop_last(), u, above) && is_blob_item(
                            trees,
                            u,
                            other.last(),
                            id,
                        ) && path == joined(above, trees[u].items[other.last()].name);
                    ways_are_met(
                        trees,
                        starts,
                        queue,
                        ways,
                        visited,
                        first,
                        shorter,
                        u,
                        above,
                    );
                    assert(!paths.contains_key(id));
                    let q = choose|q: int|
                        0 <= q < ways.len() && is_no_later(#[trigger] ways[q], shorter);
                    if q > 0 {
                        assert(comes_before(ways[0], ways[q]));
                    }
                    before_goes_on(ways[0], ways[q], shorter);
                    if ways[0] == shorter {
                        ways_have_one_end(trees, starts, shorter, t, prefix, u, above);
                        assert(items[k].mode.is_blob() && items[k].id == id);
                        assert(k >= n - 1);
                    }
                    before_stays(ways[0], shorter, n - 1, k);
                    assert(other =~= shorter.push(k));
                }
                assert(no_way_comes_before(trees, starts, id, way));
            }
        }
    }
}

/// Leaving out the first queued tree keeps the others in order.
proof fn rest_stays_queued(
    trees: Seq<Directory>,
    starts: Seq<int>,
    queue: Seq<(int, Seq<char>)>,
    ways: Seq<Seq<int>>,
)
    requires
        queue.len() > 0,
        ways_are_queued(trees, starts, queue, ways),
    ensures
        ways_are_queued(trees, starts, queue.drop_first(), ways.drop_first()),
{
    let (rest, later) = (queue.drop_first(), ways.drop_first());
    assert forall|q: int| 0 <= q < later.len() implies #[trigger] later[q] == ways[q + 1]
        && rest[q] == queue[q + 1] by {}
    assert forall|q: int| 0 <= q < later.len() implies comes_before(
        (#[trigger] later[q]).drop_last(),
        later[0],
    ) by {
        assert(later[q] == ways[q + 1] && later[0] == ways[1]);
        assert(comes_before(ways[0], ways[1]));
        before_goes_on(ways[q + 1].drop_last(), ways[0], ways[1]);
    }
    assert forall|p: int, q: int| 0 <= p < q < later.len() implies comes_before(
        #[trigger] later[p],
        #[trigger] later[q],
    ) by {
        assert(later[p] == ways[p + 1] && later[q] == ways[q + 1]);
    }
}

/// Leaving out a queued tree that is visited loses nothing.
proof fn visited_trees_can_be_left_out(
    trees: Seq<Directory>,
    starts: Seq<int>,
    queue: Seq<(int, Seq<char>)>,
    ways: Seq<Seq<int>>,
    visited: Seq<bool>,
    first: Seq<Seq<int>>,
)
    requires
        queue.len() > 0,
        ways.len() == queue.len(),
        0 <= queue[0].0 < visited.len(),
        visited[queue[0].0],
        is_complete(trees, starts, queue, ways, visited, first),
    ensures
        is_complete(trees, starts, queue.drop_first(), ways.drop_first(), visited, first),
{
    let (rest, later) = (queue.drop_first(), ways.drop_first());
    assert forall|q: int| 0 <= q < later.len() implies #[trigger] later[q] == ways[q + 1]
        && rest[q] == queue[q + 1] by {}
    assert forall|j: int, way: Seq<int>|
        is_queued_by(queue, ways, j, way) implies #[trigger] was_visited_by(
        visited,
        first,
        j,
        way,
    ) || #[trigger] is_queued_by(rest, later, j, way) by {
        let q = choose|q: int|
            0 <= q < queue.len() && queue[q].0 == j && is_no_later(#[trigger] ways[q], way);
        if q == 0 {
            assert(is_no_later(first[j], ways[0]));
            before_goes_on(first[j], ways[0], way);
        } else {
            assert(later[q - 1] == ways[q]);
            assert(is_no_later(later[q - 1], way));
        }
    }
    assert forall|s: int| 0 <= s < starts.len() implies was_visited_by(
        visited,
        first,
        #[trigger] starts[s],
        seq![s],
    ) || is_queued_by(rest, later, starts[s], seq![s]) by {
        if is_queued_by(queue, ways, starts[s], seq![s]) {
            assert(was_visited_by(visited, first, starts[s], seq![s]) || is_queued_by(
                rest,
                later,
                starts[s],
                seq![s],
            ));
        }
    }
    assert forall|t: int, k: int, j: int|
        0 <= t < visited.len() && visited[t] && #[trigger] is_below(
            trees,
            t,
            k,
            j,
        ) implies was_visited_by(visited, first, j, first[t].push(k)) || is_queued_by(
        rest,
        later,
        j,
        first[t].push(k),
    ) by {
        if is_queued_by(queue, ways, j, first[t].push(k)) {
            assert(was_visited_by(visited, first, j, first[t].push(k)) || is_queued_by(
                rest,
                later,
                j,
                first[t].push(k),
            ));
        }
    }
    assert forall|t: int, q: int|
        0 <= t < visited.len() && visited[t] && 0 <= q < later.len() implies is_no_later(
        #[trigger] first[t],
        #[trigger] later[q],
    ) by {
        assert(later[q] == ways[q + 1]);
        assert(is_no_later(first[t], ways[q + 1]));
    }
}

/// The trees below the first queued one go behind the others.
proof fn trees_below_are_queued_last(
    trees: Seq<Directory>,
    starts: Seq<int>,
    queue: Seq<(int, Seq<char>)>,
    ways: Seq<Seq<int>>,
)
    requires
        queue.len() > 0,
        0 <= queue[0].0 < trees.len(),
        ways_are_queued(trees, starts, queue, ways),
    ensures
        ({
            let items = trees[queue[0].0].items;
            let n = items.len() as int;
            ways_are_queued(
                trees,
                starts,
                queue.drop_first() + subtrees(trees, items, queue[0].1, n),
                ways.drop_first() + ways_below(trees, items, ways[0], n),
            )
        }),
{
    let (t, prefix) = queue[0];
    let items = trees[t].items;
    let n = items.len() as int;
    let below = subtrees(trees, items, prefix, n);
    let lower = ways_below(trees, items, ways[0], n);
    let (rest, later) = (queue.drop_first(), ways.drop_first());
    let (next, all) = (rest + below, later + lower);
    assert(way_leads(trees, starts, ways[0], t, prefix));
    ways_below_go_on(trees, starts, t, prefix, ways[0], n);
    rest_stays_queued(trees, starts, queue, ways);
    assert forall|q: int| 0 <= q < later.len() implies #[trigger] all[q] == later[q] && all[q]
        == ways[q + 1] && next[q] == rest[q] by {}
    assert forall|q: int| later.len() <= q < all.len() implies #[trigger] all[q] == lower[q
        - later.len()] && next[q] == below[q - later.len()] && all[q] == ways[0].push(
        all[q].last(),
    ) by {
        let it = lower[q - later.len()];
        assert(all[q] == it);
        assert(it =~= it.drop_last().push(it.last()));
    }
    assert forall|q: int| 0 <= q < all.len() implies comes_before(
        (#[trigger] all[q]).drop_last(),
        ways[0],
    ) || all[q].drop_last() == ways[0] by {
        if q < later.len() {
            assert(all[q] == ways[q + 1]);
        }
    }
    assert forall|q: int| 0 <= q < all.len() implies comes_before(ways[0], #[trigger] all[q]) by {
        if q < later.len() {
            assert(all[q] == ways[q + 1]);
        }
    }
    assert forall|q: int| 0 <= q < all.len() implies comes_before(
        (#[trigger] all[q]).drop_last(),
        all[0],
    ) by {
        assert(comes_before(ways[0], all[0]));
        before_goes_on(all[q].drop_last(), ways[0], all[0]);
    }
    assert forall|p: int, q: int| 0 <= p < q < all.len() implies comes_before(
        #[trigger] all[p],
        #[trigger] all[q],
    ) by {
        if q < later.len() {
            assert(all[p] == later[p] && all[q] == later[q]);
        } else if p < later.len() {
            assert(all[p] == ways[p + 1]);
            let above = ways[p + 1].drop_last();
            assert(comes_before(above, ways[0]));
            assert(ways[p + 1] =~= above.push(ways[p + 1].last()));
            before_stays(above, ways[0], ways[p + 1].last(), all[q].last());
        } else {
            let (x, y) = (lower[p - later.len()], lower[q - later.len()]);
            assert(x.last() < y.last());
            assert(all[p] == ways[0].push(x.last()) && all[q] == ways[0].push(y.last()));
            before_stays(ways[0], ways[0], x.last(), y.last());
        }
    }
    assert forall|q: int| 0 <= q < all.len() implies way_leads(
        trees,
        starts,
        #[trigger] all[q],
        next[q].0,
        next[q].1,
    ) by {
        if q < later.len() {
            assert(all[q] == later[q]);
        } else {
            assert(all[q] == lower[q - later.len()]);
        }
    }
}

/// Visiting the first queued tree, and queueing what is below it, loses nothing.
proof fn visits_lose_nothing(
    trees: Seq<Directory>,
    starts: Seq<int>,
    queue: Seq<(int, Seq<char>)>,
    ways: Seq<Seq<int>>,
    visited: Seq<bool>,
    first: Seq<Seq<int>>,
)
    requires
        queue.len() > 0,
        visited.len() == trees.len() == first.len(),
        0 <= queue[0].0 < trees.len(),
        !visited[queue[0].0],
        ways_are_queued(trees, starts, queue, ways),
        is_complete(trees, starts, queue, ways, visited, first),
    ensures
        ({
            let t = queue[0].0;
            let items = trees[t].items;
            let n = items.len() as int;
            is_complete(
                trees,
                starts,
                queue.drop_first() + subtrees(trees, items, queue[0].1, n),
                ways.drop_first() + ways_below(trees, items, ways[0], n),
                visited.update(t, true),
                first.update(t, ways[0]),
            )
        }),
{
    let (t, prefix) = queue[0];
    let items = trees[t].items;
    let n = items.len() as int;
    let below = subtrees(trees, items, prefix, n);
    let lower = ways_below(trees, items, ways[0], n);
    let (rest, later) = (queue.drop_first(), ways.drop_first());
    let (next, all) = (rest + below, later + lower);
    let (now, by) = (visited.update(t, true), first.update(t, ways[0]));
    assert(way_leads(trees, starts, ways[0], t, prefix));
    ways_below_go_on(trees, starts, t, prefix, ways[0], n);
    assert forall|q: int| 0 <= q < later.len() implies #[trigger] all[q] == ways[q + 1] && next[q]
        == queue[q + 1] by {}
    assert forall|q: int| later.len() <= q < all.len() implies #[trigger] all[q] == lower[q
        - later.len()] && next[q] == below[q - later.len()] by {}
    assert forall|j: int, way: Seq<int>|
        was_visited_by(visited, first, j, way) || is_queued_by(
            queue,
            ways,
            j,
            way,
        ) implies #[trigger] was_visited_by(now, by, j, way) || #[trigger] is_queued_by(
        next,
        all,
        j,
        way,
    ) by {
        if is_queued_by(queue, ways, j, way) {
            let q = choose|q: int|
                0 <= q < queue.len() && queue[q].0 == j && is_no_later(#[trigger] ways[q], way);
            if q > 0 {
                assert(all[q - 1] == ways[q]);
                assert(is_no_later(all[q - 1], way));
            }
        }
    }
    assert forall|s: int| 0 <= s < starts.len() implies was_visited_by(
        now,
        by,
        #[trigger] starts[s],
        seq![s],
    ) || is_queued_by(next, all, starts[s], seq![s]) by {}
    assert forall|u: int, k: int, j: int|
        0 <= u < now.len() && now[u] && #[trigger] is_below(trees, u, k, j) implies was_visited_by(
        now,
        by,
        j,
        by[u].push(k),
    ) || is_queued_by(next, all, j, by[u].push(k)) by {
        if u == t {
            let q = choose|q: int|
                0 <= q < lower.len() && #[trigger] lower[q] == ways[0].push(k) && below[q].0 == j;
            assert(all[later.len() + q] == lower[q]);
            assert(is_no_later(all[later.len() + q], by[u].push(k)));
        } else {
            assert(by[u] == first[u]);
            assert(was_visited_by(visited, first, j, first[u].push(k)) || is_queued_by(
                queue,
                ways,
                j,
                first[u].push(k),
            ));
        }
    }
    assert forall|q: int| 0 <= q < all.len() implies comes_before(ways[0], #[trigger] all[q]) by {
        if q < later.len() {
            assert(all[q] == ways[q + 1]);
        } else {
            assert(all[q] == lower[q - later.len()]);
        }
    }
    assert forall|u: int, q: int|
        0 <= u < now.len() && now[u] && 0 <= q < all.len() implies is_no_later(
        #[trigger] by[u],
        #[trigger] all[q],
    ) by {
        assert(comes_before(ways[0], all[q]));
        if u != t {
            assert(by[u] == first[u]);
            assert(is_no_later(first[u], ways[0]));
            before_goes_on(first[u], ways[0], all[q]);
        }
    }
}

/// Visits in the order of the ways note the first path of every blob.
proof fn visits_find_the_first_paths(
    trees: Seq<Directory>,
    starts: Seq<int>,
    queue: Seq<(int, Seq<char>)>,
    ways: Seq<Seq<int>>,
    visited: Seq<bool>,
    first: Seq<Seq<int>>,
    paths: Map<Seq<u8>, Seq<char>>,
)
    requires
        forall|k: int| 0 <= k < starts.len() ==> 0 <= #[trigger] starts[k] < trees.len(),
        visited.len() == trees.len() == first.len(),
        ways_are_queued(trees, starts, queue, ways),
        is_complete(trees, starts, queue, ways, visited, first),
        paths_are_first(trees, starts, visited, paths),
    ensures
        all_first(trees, starts, after_visits(trees, queue, visited, paths)),
    decreases unvisited(visited, visited.len() as int), queue.len(),
{
    if queue.len() > 0 {
        let (t, prefix) = queue[0];
        let rest = queue.drop_first();
        assert(way_leads(trees, starts, ways[0], t, prefix));
        ways_lead_to_trees(trees, starts, ways[0], t, prefix);
        if visited[t] {
            rest_stays_queued(trees, starts, queue, ways);
            visited_trees_can_be_left_out(trees, starts, queue, ways, visited, first);
            visits_find_the_first_paths(
                trees,
                starts,
                rest,
                ways.drop_first(),
                visited,
                first,
                paths,
            );
        } else {
            let items = trees[t].items;
            let n = items.len() as int;
            let now = visited.update(t, true);
            let more = with_blobs(paths, items, prefix, n);
            visiting_counts(visited, t, visited.len() as int);
            blobs_get_their_first_paths(
                trees,
                starts,
                queue,
                ways,
                visited,
                first,
                paths,
                n,
            );
            blobs_are_noted(paths, items, prefix, n);
            assert forall|u: int, k: int, id: Seq<u8>|
                0 <= u < now.len() && now[u] && #[trigger] is_blob_item(
                    trees,
                    u,
                    k,
                    id,
                ) implies more.contains_key(id) by {
                if u == t {
                    assert(items[k].mode.is_blob());
                } else {
                    assert(visited[u]);
                    assert(paths.contains_key(id));
                }
            }
            trees_below_are_queued_last(trees, starts, queue, ways);
            visits_lose_nothing(trees, starts, queue, ways, visited, first);
            visits_find_the_first_paths(
                trees,
                starts,
                rest + subtrees(trees, items, prefix, n),
                ways.drop_first() + ways_below(trees, items, ways[0], n),
                now,
                first.update(t, ways[0]),
                more,
            );
        }
    }
}

/// Every path that is found below the roots is the first one: no way from a root leads
/// to the blob through fewer trees, and of those that lead through as many, it is the one
/// from the first root, by the first items.
pub proof fn paths_below_roots_are_first(
    commits: Seq<Entry>,
    trees: Seq<Directory>,
    id: Seq<u8>,
)
    requires
        paths_below_roots(commits, trees).contains_key(id),
    ensures
        is_first_path(
            trees,
            roots(commits, trees),
            id,
            paths_below_roots(commits, trees)[id],
        ),
{
    let starts = roots(commits, trees);
    let queue = to_visit(starts);
    let ways = Seq::new(starts.len(), |s: int| seq![s]);
    let visited = Seq::new(trees.len(), |j: int| false);
    let first = Seq::new(trees.len(), |j: int| Seq::<int>::empty());
    roots_are_trees(commits, trees, commits.len() as int);
    assert forall|q: int| 0 <= q < ways.len() implies way_leads(
        trees,
        starts,
        #[trigger] ways[q],
        queue[q].0,
        queue[q].1,
    ) by {
        assert(ways[q].len() == 1 && ways[q][0] == q);
    }
    assert forall|p: int, q: int| 0 <= p < q < ways.len() implies comes_before(
        #[trigger] ways[p],
        #[trigger] ways[q],
    ) by {
        assert(is_lower_at(ways[p], ways[q], 0));
    }
    assert forall|s: int| 0 <= s < starts.len() implies is_queued_by(
        queue,
        ways,
        #[trigger] starts[s],
        seq![s],
    ) by {
        assert(is_no_later(ways[s], seq![s]));
        assert(queue[s].0 == starts[s]);
    }
    visits_find_the_first_paths(
        trees,
        starts,
        queue,
        ways,
        visited,
        first,
        Map::empty(),
    );
}

/// The path is the name of the blob in the first tree that holds it, under the first of
/// its items there.
pub open spec fn is_first_name(trees: Seq<Directory>, id: Seq<u8>, path: Seq<char>) -> bool {
    exists|t: int, k: int| #[trigger]
        is_blob_item(trees, t, k, id) && trees[t].items[k].name == path && no_item_comes_before(
            trees,
            id,
            t,
            k,
        )
}

/// The blob is no item of an earlier tree, nor an earlier item of the tree.
pub open spec fn no_item_comes_before(trees: Seq<Directory>, id: Seq<u8>, t: int, k: int) -> bool {
    forall|u: int, m: int| #[trigger] is_blob_item(trees, u, m, id) ==> t < u || (t == u && k <= m)
}

/// Among the first items of a tree the first one with the blob gives the name.
proof fn first_item_gives_the_name(
    paths: Map<Seq<u8>, Seq<char>>,
    items: Seq<Item>,
    n: int,
    id: Seq<u8>,
) -> (k: int)
    requires
        0 <= n <= items.len(),
        !paths.contains_key(id),
        with_blobs(paths, items, Seq::empty(), n).contains_key(id),
    ensures
        0 <= k < n,
        items[k].mode.is_blob(),
        items[k].id == id,
        items[k].name == with_blobs(paths, items, Seq::empty(), n)[id],
        forall|m: int| 0 <= m < k ==> !((#[trigger] items[m]).mode.is_blob() && items[m].id == id),
    decreases n,
{
    let before = with_blobs(paths, items, Seq::empty(), n - 1);
    if before.contains_key(id) {
        first_item_gives_the_name(paths, items, n - 1, id)
    } else {
        blobs_are_noted(paths, items, Seq::empty(), n - 1);
        n - 1
    }
}

/// Among the first trees the first one with the blob gives the name.
proof fn first_tree_gives_the_name(
    paths: Map<Seq<u8>, Seq<char>>,
    trees: Seq<Directory>,
    n: int,
    id: Seq<u8>,
) -> (at: (int, int))
    requires
        0 <= n <= trees.len(),
        !paths.contains_key(id),
        with_bare_names(paths, trees, n).contains_key(id),
    ensures
        0 <= at.0 < n,
        is_blob_item(trees, at.0, at.1, id),
        trees[at.0].items[at.1].name == with_bare_names(paths, trees, n)[id],
        forall|u: int, m: int| #[trigger]
            is_blob_item(trees, u, m, id) ==> at.0 < u || (at.0 == u && at.1 <= m),
    decreases n,
{
    let before = with_bare_names(paths, trees, n - 1);
    let items = trees[n - 1].items;
    blobs_are_noted(before, items, Seq::empty(), items.len() as int);
    if before.contains_key(id) {
        first_tree_gives_the_name(paths, trees, n - 1, id)
    } else {
        let k = first_item_gives_the_name(before, items, items.len() as int, id);
        bare_names_fill_up(paths, trees, n - 1);
        assert forall|u: int, m: int| #[trigger] is_blob_item(trees, u, m, id) implies n - 1 < u
            || (n - 1 == u && k <= m) by {
            if u == n - 1 {
                assert(items[m].mode.is_blob() && items[m].id == id);
            }
        }
        (n - 1, k)
    }
}

/// A blob gets the first path that leads to it from a root. Where none does, it gets its
/// name in the first tree that holds it.
pub proof fn blobs_get_the_first_path_or_name(
    commits: Seq<Entry>,
    trees: Seq<Directory>,
    id: Seq<u8>,
)
    requires
        inferred_paths(commits, trees).contains_key(id),
    ensures
        (exists|path: Seq<char>| #[trigger]
            leads_to_blob(trees, roots(commits, trees), id, path)) ==> is_first_path(
            trees,
            roots(commits, trees),
            id,
            inferred_paths(commits, trees)[id],
        ),
        !(exists|path: Seq<char>| #[trigger]
            leads_to_blob(trees, roots(commits, trees), id, path)) ==> is_first_name(
            trees,
            id,
            inferred_paths(commits, trees)[id],
        ),
{
    let below = paths_below_roots(commits, trees);
    let starts = roots(commits, trees);
    bare_names_fill_up(below, trees, trees.len() as int);
    if exists|path: Seq<char>| #[trigger] leads_to_blob(trees, starts, id, path) {
        let path = choose|path: Seq<char>| #[trigger] leads_to_blob(trees, starts, id, path);
        reachable_blobs_are_found(commits, trees, id, path);
        paths_below_roots_are_first(commits, trees, id);
    } else {
        if below.contains_key(id) {
            paths_below_roots_are_nearest(commits, trees, id);
        }
        let (t, k) = first_tree_gives_the_name(below, trees, trees.len() as int, id);
        assert(is_blob_item(trees, t, k, id));
        assert(no_item_comes_before(trees, id, t, k));
    }
}

} // verus!
