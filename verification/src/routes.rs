//! What the paths of blobs are worth: they lead from a root to the blob.

use crate::infer::{
    after_visits, inferred_paths, paths_below_roots, place, place_is_right,
    recorded_roots, root_of, roots, subtrees, to_visit, unvisited, visiting_counts, with_bare_names,
    with_blobs, Directory,
};
use crate::object::Entry;
use crate::path::joined;
use crate::tree::{Item, TreeItemMode};
use vstd::prelude::*;

verus! {

/// Follows the first `n` items of a route from a tree down: where the route comes
/// out, and the path to there. A route can go on only through an item that is a
/// tree, and that is among the trees.
pub open spec fn walk(
    trees: Seq<Directory>,
    start: int,
    route: Seq<int>,
    n: int,
) -> Option<(int, Seq<char>)>
    decreases n,
{
    if n <= 0 {
        Some((start, Seq::empty()))
    } else {
        match walk(trees, start, route, n - 1) {
            None => None,
            Some((t, path)) => {
                let k = route[n - 1];
                let item = trees[t].items[k];
                if 0 <= t < trees.len() && 0 <= k < trees[t].items.len() && item.mode
                    == TreeItemMode::Tree {
                    match place(trees, item.id) {
                        Some(j) => Some((j, joined(path, item.name))),
                        None => None,
                    }
                } else {
                    None
                }
            },
        }
    }
}

/// A route of `n` items leads from one of the starts to the tree at place `t`, along
/// the path.
pub open spec fn leads_in(
    trees: Seq<Directory>,
    starts: Seq<int>,
    t: int,
    path: Seq<char>,
    n: nat,
) -> bool {
    exists|start: int, route: Seq<int>|
        starts.contains(start) && route.len() == n && #[trigger] walk(
            trees,
            start,
            route,
            route.len() as int,
        ) == Some((t, path))
}

/// The item is a blob of the tree at place `t`.
pub open spec fn is_blob_item(trees: Seq<Directory>, t: int, k: int, id: Seq<u8>) -> bool {
    &&& 0 <= t < trees.len()
    &&& 0 <= k < trees[t].items.len()
    &&& trees[t].items[k].mode.is_blob()
    &&& trees[t].items[k].id == id
}

/// The path leads from one of the starts to the blob, through `n` trees below the
/// start.
pub open spec fn leads_to_blob_in(
    trees: Seq<Directory>,
    starts: Seq<int>,
    id: Seq<u8>,
    path: Seq<char>,
    n: nat,
) -> bool {
    exists|t: int, k: int, above: Seq<char>|
        #![trigger leads_in(trees, starts, t, above, n), is_blob_item(trees, t, k, id)]
        leads_in(trees, starts, t, above, n) && is_blob_item(trees, t, k, id) && path == joined(
            above,
            trees[t].items[k].name,
        )
}

/// The path leads from one of the starts to the blob.
pub open spec fn leads_to_blob(
    trees: Seq<Directory>,
    starts: Seq<int>,
    id: Seq<u8>,
    path: Seq<char>,
) -> bool {
    exists|n: nat| leads_to_blob_in(trees, starts, id, path, n)
}

/// The path leads from one of the starts to the blob, and no other leads there
/// through fewer trees.
pub open spec fn is_nearest(
    trees: Seq<Directory>,
    starts: Seq<int>,
    id: Seq<u8>,
    path: Seq<char>,
) -> bool {
    exists|n: nat| #[trigger]
        leads_to_blob_in(trees, starts, id, path, n) && forall|other: Seq<char>, m: nat|
            leads_to_blob_in(trees, starts, id, other, m) ==> n <= m
}

/// A route of `n` items leads from one of the starts to the tree at place `t`.
spec fn reaches(trees: Seq<Directory>, starts: Seq<int>, t: int, n: nat) -> bool {
    exists|path: Seq<char>| leads_in(trees, starts, t, path, n)
}

/// The tree at place `j` is an item of the tree at place `t`.
pub open spec fn is_below(trees: Seq<Directory>, t: int, k: int, j: int) -> bool {
    &&& 0 <= t < trees.len()
    &&& 0 <= k < trees[t].items.len()
    &&& trees[t].items[k].mode == TreeItemMode::Tree
    &&& place(trees, trees[t].items[k].id) == Some(j)
}

/// A walk depends on the items that it follows alone.
pub proof fn walks_agree(
    trees: Seq<Directory>,
    start: int,
    route: Seq<int>,
    other: Seq<int>,
    n: int,
)
    requires
        n <= route.len(),
        n <= other.len(),
        forall|k: int| 0 <= k < n ==> #[trigger] route[k] == other[k],
    ensures
        walk(trees, start, route, n) == walk(trees, start, other, n),
    decreases n,
{
    if n > 0 {
        walks_agree(trees, start, route, other, n - 1);
        assert(route[n - 1] == other[n - 1]);
    }
}

/// A route goes on through an item that is a tree.
proof fn routes_go_on(
    trees: Seq<Directory>,
    starts: Seq<int>,
    t: int,
    path: Seq<char>,
    n: nat,
    k: int,
    j: int,
)
    requires
        leads_in(trees, starts, t, path, n),
        is_below(trees, t, k, j),
    ensures
        leads_in(trees, starts, j, joined(path, trees[t].items[k].name), n + 1),
{
    let (start, route) = choose|start: int, route: Seq<int>|
        starts.contains(start) && route.len() == n && #[trigger] walk(
            trees,
            start,
            route,
            route.len() as int,
        ) == Some((t, path));
    let longer = route.push(k);
    walks_agree(trees, start, route, longer, n as int);
    assert(walk(trees, start, longer, longer.len() as int) == Some(
        (j, joined(path, trees[t].items[k].name)),
    ));
}

/// A route that has items comes through a tree above.
proof fn routes_come_through(trees: Seq<Directory>, starts: Seq<int>, j: int, n: nat)
    requires
        reaches(trees, starts, j, n + 1),
    ensures
        exists|t: int, k: int|
            #![trigger is_below(trees, t, k, j)]
            reaches(trees, starts, t, n) && is_below(trees, t, k, j),
{
    let m = n + 1;
    let path = choose|path: Seq<char>| leads_in(trees, starts, j, path, m);
    let (start, route) = choose|start: int, route: Seq<int>|
        starts.contains(start) && route.len() == m && #[trigger] walk(
            trees,
            start,
            route,
            route.len() as int,
        ) == Some((j, path));
    let shorter = route.drop_last();
    walks_agree(trees, start, shorter, route, n as int);
    let (t, above) = walk(trees, start, route, n as int)->0;
    assert(walk(trees, start, shorter, shorter.len() as int) == Some((t, above)));
    assert(leads_in(trees, starts, t, above, n));
    assert(is_below(trees, t, route[n as int], j));
}

/// What a route leads to is a tree, if the starts are trees.
proof fn routes_lead_to_trees(trees: Seq<Directory>, starts: Seq<int>, t: int, n: nat)
    requires
        forall|k: int| 0 <= k < starts.len() ==> 0 <= #[trigger] starts[k] < trees.len(),
        reaches(trees, starts, t, n),
    ensures
        0 <= t < trees.len(),
{
    if n == 0 {
        let path = choose|path: Seq<char>| leads_in(trees, starts, t, path, n);
        let (start, route) = choose|start: int, route: Seq<int>|
            starts.contains(start) && route.len() == n && #[trigger] walk(
                trees,
                start,
                route,
                route.len() as int,
            ) == Some((t, path));
        assert(start == t);
    } else {
        routes_come_through(trees, starts, t, (n - 1) as nat);
        let (u, k) = choose|u: int, k: int|
            #![trigger is_below(trees, u, k, t)]
            reaches(trees, starts, u, (n - 1) as nat) && is_below(trees, u, k, t);
        place_is_right(trees, trees[u].items[k].id, trees.len() as int);
    }
}

/// The blobs among the first items have their paths, and none is lost.
pub proof fn blobs_are_noted(
    paths: Map<Seq<u8>, Seq<char>>,
    items: Seq<Item>,
    prefix: Seq<char>,
    n: int,
)
    requires
        n <= items.len(),
    ensures
        forall|k: int|
            0 <= k < n && (#[trigger] items[k]).mode.is_blob() ==> with_blobs(
                paths,
                items,
                prefix,
                n,
            ).contains_key(items[k].id),
        forall|id: Seq<u8>| #[trigger]
            paths.contains_key(id) ==> with_blobs(paths, items, prefix, n).contains_key(id)
                && with_blobs(paths, items, prefix, n)[id] == paths[id],
    decreases n,
{
    if n > 0 {
        blobs_are_noted(paths, items, prefix, n - 1);
    }
}

/// The trees among the first items are queued.
proof fn subtrees_are_queued(
    trees: Seq<Directory>,
    items: Seq<Item>,
    prefix: Seq<char>,
    n: int,
    k: int,
)
    requires
        0 <= k < n <= items.len(),
        items[k].mode == TreeItemMode::Tree,
        place(trees, items[k].id) is Some,
    ensures
        exists|q: int|
            0 <= q < subtrees(trees, items, prefix, n).len() && (#[trigger] subtrees(
                trees,
                items,
                prefix,
                n,
            )[q]).0 == place(trees, items[k].id)->0,
    decreases n,
{
    let all = subtrees(trees, items, prefix, n);
    let before = subtrees(trees, items, prefix, n - 1);
    if k < n - 1 {
        subtrees_are_queued(trees, items, prefix, n - 1, k);
        let q = choose|q: int|
            0 <= q < before.len() && (#[trigger] before[q]).0 == place(trees, items[k].id)->0;
        assert(all[q] == before[q]);
    } else {
        assert(all[all.len() - 1].0 == place(trees, items[k].id)->0);
    }
}

/// Routes of `n` items lead to the queued trees.
spec fn queue_leads(
    trees: Seq<Directory>,
    starts: Seq<int>,
    queue: Seq<(int, Seq<char>)>,
    n: nat,
) -> bool {
    forall|k: int| 0 <= k < queue.len() ==> leads_in(
        trees,
        starts,
        (#[trigger] queue[k]).0,
        queue[k].1,
        n,
    )
}

/// The trees below a tree that is reached are reached by one item more.
proof fn subtrees_lead(
    trees: Seq<Directory>,
    starts: Seq<int>,
    t: int,
    prefix: Seq<char>,
    d: nat,
    n: int,
)
    requires
        0 <= t < trees.len(),
        n <= trees[t].items.len(),
        leads_in(trees, starts, t, prefix, d),
    ensures
        queue_leads(trees, starts, subtrees(trees, trees[t].items, prefix, n), d + 1),
    decreases n,
{
    if n > 0 {
        subtrees_lead(trees, starts, t, prefix, d, n - 1);
        let before = subtrees(trees, trees[t].items, prefix, n - 1);
        let after = subtrees(trees, trees[t].items, prefix, n);
        assert forall|k: int| 0 <= k < after.len() implies leads_in(
            trees,
            starts,
            (#[trigger] after[k]).0,
            after[k].1,
            d + 1,
        ) by {
            if k < before.len() {
                assert(after[k] == before[k]);
            } else {
                routes_go_on(trees, starts, t, prefix, d, n - 1, after[k].0);
            }
        }
    }
}

/// All paths are nearest.
spec fn all_nearest(
    trees: Seq<Directory>,
    starts: Seq<int>,
    paths: Map<Seq<u8>, Seq<char>>,
) -> bool {
    forall|id: Seq<u8>| #[trigger]
        paths.contains_key(id) ==> is_nearest(trees, starts, id, paths[id])
}

/// No route of fewer than `d` items leads to the tree of a blob without a path.
spec fn none_is_missed(
    trees: Seq<Directory>,
    starts: Seq<int>,
    paths: Map<Seq<u8>, Seq<char>>,
    d: nat,
) -> bool {
    forall|id: Seq<u8>, other: Seq<char>, m: nat| #[trigger]
        leads_to_blob_in(trees, starts, id, other, m) && m < d ==> paths.contains_key(id)
}

/// The paths that a tree adds are nearest, if no nearer blob was missed.
proof fn blobs_are_nearest(
    trees: Seq<Directory>,
    starts: Seq<int>,
    paths: Map<Seq<u8>, Seq<char>>,
    t: int,
    prefix: Seq<char>,
    d: nat,
    n: int,
)
    requires
        0 <= t < trees.len(),
        n <= trees[t].items.len(),
        leads_in(trees, starts, t, prefix, d),
        all_nearest(trees, starts, paths),
        none_is_missed(trees, starts, paths, d),
    ensures
        all_nearest(trees, starts, with_blobs(paths, trees[t].items, prefix, n)),
    decreases n,
{
    if n > 0 {
        blobs_are_nearest(trees, starts, paths, t, prefix, d, n - 1);
        blobs_are_noted(paths, trees[t].items, prefix, n - 1);
        let before = with_blobs(paths, trees[t].items, prefix, n - 1);
        let after = with_blobs(paths, trees[t].items, prefix, n);
        assert forall|id: Seq<u8>| #[trigger] after.contains_key(id) implies is_nearest(
            trees,
            starts,
            id,
            after[id],
        ) by {
            if !before.contains_key(id) {
                assert(is_blob_item(trees, t, n - 1, id));
                assert(leads_to_blob_in(trees, starts, id, after[id], d));
                assert(!paths.contains_key(id));
            }
        }
    }
}

/// The tree at place `t` is visited.
spec fn is_visited(visited: Seq<bool>, t: int) -> bool {
    0 <= t < visited.len() && visited[t]
}

/// The tree at place `t` is among the first `n` that are queued.
spec fn is_queued(queue: Seq<(int, Seq<char>)>, n: int, t: int) -> bool {
    exists|k: int| 0 <= k < n && (#[trigger] queue[k]).0 == t
}

/// The visits go by distance: the first `cut` queued trees are `d` items away from a
/// start and the others one more, and all nearer ones are visited.
spec fn goes_by_distance(
    trees: Seq<Directory>,
    starts: Seq<int>,
    queue: Seq<(int, Seq<char>)>,
    cut: int,
    d: nat,
    visited: Seq<bool>,
) -> bool {
    &&& 0 <= cut <= queue.len()
    &&& queue_leads(trees, starts, queue.take(cut), d)
    &&& queue_leads(trees, starts, queue.skip(cut), d + 1)
    &&& forall|t: int, n: nat|
        n < d && #[trigger] reaches(trees, starts, t, n) ==> is_visited(visited, t)
    &&& forall|t: int| #[trigger]
        reaches(trees, starts, t, d) ==> is_visited(visited, t) || is_queued(queue, cut, t)
}

/// The blobs of visited trees have their paths, and the trees below them are visited
/// or queued.
spec fn is_closed(
    trees: Seq<Directory>,
    queue: Seq<(int, Seq<char>)>,
    visited: Seq<bool>,
    paths: Map<Seq<u8>, Seq<char>>,
) -> bool {
    &&& forall|t: int, k: int, id: Seq<u8>|
        is_visited(visited, t) && #[trigger] is_blob_item(trees, t, k, id)
            ==> paths.contains_key(id)
    &&& forall|t: int, k: int, j: int|
        is_visited(visited, t) && #[trigger] is_below(trees, t, k, j) ==> is_visited(visited, j)
            || is_queued(queue, queue.len() as int, j)
}

/// All blobs that can be reached have their paths.
spec fn all_found(
    trees: Seq<Directory>,
    starts: Seq<int>,
    paths: Map<Seq<u8>, Seq<char>>,
) -> bool {
    forall|id: Seq<u8>, path: Seq<char>, n: nat| #[trigger]
        leads_to_blob_in(trees, starts, id, path, n) ==> paths.contains_key(id)
}

/// Where nothing is queued, every tree that can be reached is visited.
proof fn reached_trees_are_visited(
    trees: Seq<Directory>,
    starts: Seq<int>,
    d: nat,
    visited: Seq<bool>,
    paths: Map<Seq<u8>, Seq<char>>,
    t: int,
    n: nat,
)
    requires
        goes_by_distance(trees, starts, Seq::empty(), 0, d, visited),
        is_closed(trees, Seq::empty(), visited, paths),
        reaches(trees, starts, t, n),
    ensures
        is_visited(visited, t),
    decreases n,
{
    if n > d {
        let m = (n - 1) as nat;
        routes_come_through(trees, starts, t, m);
        let (u, k) = choose|u: int, k: int|
            #![trigger is_below(trees, u, k, t)]
            reaches(trees, starts, u, m) && is_below(trees, u, k, t);
        reached_trees_are_visited(trees, starts, d, visited, paths, u, m);
    }
}

/// Once the trees at one distance are done, the queue holds those one item further.
proof fn next_distance(
    trees: Seq<Directory>,
    starts: Seq<int>,
    queue: Seq<(int, Seq<char>)>,
    d: nat,
    visited: Seq<bool>,
    paths: Map<Seq<u8>, Seq<char>>,
)
    requires
        goes_by_distance(trees, starts, queue, 0, d, visited),
        is_closed(trees, queue, visited, paths),
    ensures
        goes_by_distance(trees, starts, queue, queue.len() as int, d + 1, visited),
{
    let all = queue.len() as int;
    assert(queue.take(all) =~= queue.skip(0));
    assert forall|t: int| #[trigger] reaches(trees, starts, t, d + 1) implies is_visited(
        visited,
        t,
    ) || is_queued(queue, all, t) by {
        routes_come_through(trees, starts, t, d);
        let (u, k) = choose|u: int, k: int|
            #![trigger is_below(trees, u, k, t)]
            reaches(trees, starts, u, d) && is_below(trees, u, k, t);
        assert(is_visited(visited, u));
    }
}

/// Leaving out a queued tree that is visited changes nothing.
proof fn visited_trees_are_passed(
    trees: Seq<Directory>,
    starts: Seq<int>,
    queue: Seq<(int, Seq<char>)>,
    cut: int,
    d: nat,
    visited: Seq<bool>,
    paths: Map<Seq<u8>, Seq<char>>,
)
    requires
        0 < cut,
        goes_by_distance(trees, starts, queue, cut, d, visited),
        is_closed(trees, queue, visited, paths),
        is_visited(visited, queue[0].0),
    ensures
        goes_by_distance(trees, starts, queue.drop_first(), cut - 1, d, visited),
        is_closed(trees, queue.drop_first(), visited, paths),
{
    let rest = queue.drop_first();
    assert forall|k: int| 0 <= k < rest.take(cut - 1).len() implies leads_in(
        trees,
        starts,
        (#[trigger] rest.take(cut - 1)[k]).0,
        rest.take(cut - 1)[k].1,
        d,
    ) by {
        assert(rest.take(cut - 1)[k] == queue.take(cut)[k + 1]);
    }
    assert(rest.skip(cut - 1) =~= queue.skip(cut));
    assert forall|t: int, n: int|
        n <= queue.len() && #[trigger] is_queued(queue, n, t) && t != queue[0].0 implies is_queued(
        rest,
        n - 1,
        t,
    ) by {
        let k = choose|k: int| 0 <= k < n && (#[trigger] queue[k]).0 == t;
        assert(rest[k - 1] == queue[k]);
    }
    assert forall|t: int| #[trigger] reaches(trees, starts, t, d) implies is_visited(
        visited,
        t,
    ) || is_queued(rest, cut - 1, t) by {
        if !is_visited(visited, t) {
            assert(is_queued(queue, cut, t));
        }
    }
    assert forall|t: int, k: int, j: int|
        is_visited(visited, t) && #[trigger] is_below(trees, t, k, j) implies is_visited(
        visited,
        j,
    ) || is_queued(rest, rest.len() as int, j) by {
        if !is_visited(visited, j) {
            assert(is_queued(queue, queue.len() as int, j));
        }
    }
}

/// Visiting the first queued tree keeps the order of the visits.
proof fn visits_keep_the_order(
    trees: Seq<Directory>,
    starts: Seq<int>,
    queue: Seq<(int, Seq<char>)>,
    cut: int,
    d: nat,
    visited: Seq<bool>,
    paths: Map<Seq<u8>, Seq<char>>,
)
    requires
        visited.len() == trees.len(),
        0 < cut,
        goes_by_distance(trees, starts, queue, cut, d, visited),
        is_closed(trees, queue, visited, paths),
        0 <= queue[0].0 < trees.len(),
        !visited[queue[0].0],
    ensures
        ({
            let (t, prefix) = queue[0];
            let items = trees[t].items;
            let below = subtrees(trees, items, prefix, items.len() as int);
            let after = visited.update(t, true);
            let more = with_blobs(paths, items, prefix, items.len() as int);
            &&& goes_by_distance(
                trees,
                starts,
                queue.drop_first() + below,
                cut - 1,
                d,
                after,
            )
            &&& is_closed(trees, queue.drop_first() + below, after, more)
        }),
{
    let (t, prefix) = queue[0];
    let items = trees[t].items;
    let below = subtrees(trees, items, prefix, items.len() as int);
    let after = visited.update(t, true);
    let more = with_blobs(paths, items, prefix, items.len() as int);
    let rest = queue.drop_first();
    let next = rest + below;
    assert(queue.take(cut)[0] == queue[0]);
    subtrees_lead(trees, starts, t, prefix, d, items.len() as int);
    blobs_are_noted(paths, items, prefix, items.len() as int);
    assert(after[t]);
    assert forall|u: int| #[trigger] is_visited(visited, u) implies is_visited(after, u) by {}
    assert forall|k: int| 0 <= k < next.take(cut - 1).len() implies leads_in(
        trees,
        starts,
        (#[trigger] next.take(cut - 1)[k]).0,
        next.take(cut - 1)[k].1,
        d,
    ) by {
        assert(next.take(cut - 1)[k] == queue.take(cut)[k + 1]);
    }
    let far = next.skip(cut - 1);
    let further = queue.skip(cut);
    assert(far =~= further + below);
    assert forall|k: int| 0 <= k < far.len() implies leads_in(
        trees,
        starts,
        (#[trigger] far[k]).0,
        far[k].1,
        d + 1,
    ) by {
        if k < further.len() {
            assert(far[k] == further[k]);
        } else {
            assert(far[k] == below[k - further.len()]);
        }
    }
    assert forall|u: int, n: int|
        n <= queue.len() && #[trigger] is_queued(queue, n, u) && u != t implies is_queued(
        next,
        n - 1,
        u,
    ) by {
        let k = choose|k: int| 0 <= k < n && (#[trigger] queue[k]).0 == u;
        assert(next[k - 1] == queue[k]);
    }
    assert forall|u: int| #[trigger] reaches(trees, starts, u, d) implies is_visited(
        after,
        u,
    ) || is_queued(next, cut - 1, u) by {
        if !is_visited(after, u) {
            assert(is_queued(queue, cut, u));
        }
    }
    assert forall|u: int, k: int, id: Seq<u8>|
        is_visited(after, u) && #[trigger] is_blob_item(
            trees,
            u,
            k,
            id,
        ) implies more.contains_key(id) by {
        if u == t {
            assert(items[k].mode.is_blob());
        } else {
            assert(is_visited(visited, u));
        }
    }
    assert forall|u: int, k: int, j: int|
        is_visited(after, u) && #[trigger] is_below(trees, u, k, j) implies is_visited(
        after,
        j,
    ) || is_queued(next, next.len() as int, j) by {
        if u == t {
            subtrees_are_queued(trees, items, prefix, items.len() as int, k);
            let q = choose|q: int| 0 <= q < below.len() && (#[trigger] below[q]).0 == j;
            assert(next[rest.len() + q] == below[q]);
        } else if !is_visited(after, j) {
            assert(is_visited(visited, u));
            assert(is_queued(queue, queue.len() as int, j));
            let q = choose|q: int| 0 <= q < queue.len() && (#[trigger] queue[q]).0 == j;
            assert(next[q - 1] == queue[q]);
        }
    }
}

/// Visits that go by distance note the nearest path of every blob that can be
/// reached.
proof fn visits_find_the_nearest(
    trees: Seq<Directory>,
    starts: Seq<int>,
    queue: Seq<(int, Seq<char>)>,
    cut: int,
    d: nat,
    visited: Seq<bool>,
    paths: Map<Seq<u8>, Seq<char>>,
)
    requires
        forall|k: int| 0 <= k < starts.len() ==> 0 <= #[trigger] starts[k] < trees.len(),
        visited.len() == trees.len(),
        goes_by_distance(trees, starts, queue, cut, d, visited),
        is_closed(trees, queue, visited, paths),
        all_nearest(trees, starts, paths),
    ensures
        all_nearest(trees, starts, after_visits(trees, queue, visited, paths)),
        all_found(trees, starts, after_visits(trees, queue, visited, paths)),
    decreases
            unvisited(visited, visited.len() as int),
            queue.len(),
            if cut == 0 {
                1int
            } else {
                0int
            },
{
    if queue.len() == 0 {
        assert(queue =~= Seq::empty());
        assert forall|id: Seq<u8>, path: Seq<char>, n: nat| #[trigger]
            leads_to_blob_in(trees, starts, id, path, n) implies paths.contains_key(id) by {
            let (t, k, above) = choose|t: int, k: int, above: Seq<char>|
                #![trigger leads_in(trees, starts, t, above, n), is_blob_item(trees, t, k, id)]
                leads_in(trees, starts, t, above, n) && is_blob_item(trees, t, k, id) && path
                    == joined(above, trees[t].items[k].name);
            assert(reaches(trees, starts, t, n));
            reached_trees_are_visited(trees, starts, d, visited, paths, t, n);
        }
    } else if cut == 0 {
        next_distance(trees, starts, queue, d, visited, paths);
        visits_find_the_nearest(
            trees,
            starts,
            queue,
            queue.len() as int,
            d + 1,
            visited,
            paths,
        );
    } else {
        let (t, prefix) = queue[0];
        let rest = queue.drop_first();
        assert(queue.take(cut)[0] == queue[0]);
        assert(leads_in(trees, starts, t, prefix, d));
        assert(reaches(trees, starts, t, d));
        routes_lead_to_trees(trees, starts, t, d);
        if visited[t] {
            visited_trees_are_passed(trees, starts, queue, cut, d, visited, paths);
            visits_find_the_nearest(trees, starts, rest, cut - 1, d, visited, paths);
        } else {
            let items = trees[t].items;
            let below = subtrees(trees, items, prefix, items.len() as int);
            visiting_counts(visited, t, visited.len() as int);
            assert(none_is_missed(trees, starts, paths, d)) by {
                assert forall|id: Seq<u8>, other: Seq<char>, m: nat| #[trigger]
                    leads_to_blob_in(trees, starts, id, other, m) && m
                        < d implies paths.contains_key(id) by {
                    let (u, k, above) = choose|u: int, k: int, above: Seq<char>|
                        #![trigger leads_in(trees, starts, u, above, m),
                            is_blob_item(trees, u, k, id)]
                        leads_in(trees, starts, u, above, m) && is_blob_item(trees, u, k, id)
                            && other == joined(above, trees[u].items[k].name);
                    assert(reaches(trees, starts, u, m));
                }
            }
            blobs_are_nearest(trees, starts, paths, t, prefix, d, items.len() as int);
            visits_keep_the_order(trees, starts, queue, cut, d, visited, paths);
            visits_find_the_nearest(
                trees,
                starts,
                rest + below,
                cut - 1,
                d,
                visited.update(t, true),
                with_blobs(paths, items, prefix, items.len() as int),
            );
        }
    }
}

/// The places of the roots are places of trees.
pub proof fn roots_are_trees(commits: Seq<Entry>, trees: Seq<Directory>, n: int)
    requires
        n <= commits.len(),
    ensures
        forall|k: int|
            0 <= k < recorded_roots(commits, trees, n).len() ==> 0 <= #[trigger] recorded_roots(
                commits,
                trees,
                n,
            )[k] < trees.len(),
    decreases n,
{
    if n > 0 {
        roots_are_trees(commits, trees, n - 1);
        if let Some(id) = root_of(commits[n - 1].data@) {
            place_is_right(trees, id, trees.len() as int);
        }
        let before = recorded_roots(commits, trees, n - 1);
        let all = recorded_roots(commits, trees, n);
        assert forall|k: int| 0 <= k < all.len() implies 0 <= #[trigger] all[k] < trees.len() by {
            if k < before.len() {
                assert(all[k] == before[k]);
            }
        }
    }
}

/// The visits below the roots find the nearest path of every blob that can be reached.
proof fn roots_are_visited_first(commits: Seq<Entry>, trees: Seq<Directory>)
    ensures
        all_nearest(trees, roots(commits, trees), paths_below_roots(commits, trees)),
        all_found(trees, roots(commits, trees), paths_below_roots(commits, trees)),
{
    let starts = roots(commits, trees);
    let queue = to_visit(starts);
    let cut = queue.len() as int;
    let visited = Seq::new(trees.len(), |j: int| false);
    roots_are_trees(commits, trees, commits.len() as int);
    assert forall|k: int| 0 <= k < queue.take(cut).len() implies leads_in(
        trees,
        starts,
        (#[trigger] queue.take(cut)[k]).0,
        queue.take(cut)[k].1,
        0,
    ) by {
        let route = Seq::<int>::empty();
        assert(starts.contains(starts[k]));
        assert(walk(trees, starts[k], route, route.len() as int) == Some(
            (queue[k].0, queue[k].1),
        ));
    }
    assert forall|t: int| #[trigger] reaches(trees, starts, t, 0) implies is_queued(
        queue,
        cut,
        t,
    ) by {
        let path = choose|path: Seq<char>| leads_in(trees, starts, t, path, 0);
        let (start, route) = choose|start: int, route: Seq<int>|
            starts.contains(start) && route.len() == 0 && #[trigger] walk(
                trees,
                start,
                route,
                route.len() as int,
            ) == Some((t, path));
        let q = choose|q: int| 0 <= q < starts.len() && starts[q] == start;
        assert(queue[q].0 == t);
    }
    visits_find_the_nearest(trees, starts, queue, cut, 0, visited, Map::empty());
}

/// Every path that is found below the roots leads from a root to its blob, and no
/// route leads there through fewer trees.
pub proof fn paths_below_roots_are_nearest(
    commits: Seq<Entry>,
    trees: Seq<Directory>,
    id: Seq<u8>,
)
    requires
        paths_below_roots(commits, trees).contains_key(id),
    ensures
        leads_to_blob(
            trees,
            roots(commits, trees),
            id,
            paths_below_roots(commits, trees)[id],
        ),
        is_nearest(
            trees,
            roots(commits, trees),
            id,
            paths_below_roots(commits, trees)[id],
        ),
{
    roots_are_visited_first(commits, trees);
}

/// Every blob to which a route leads from a root is found below the roots.
pub proof fn reachable_blobs_are_found(
    commits: Seq<Entry>,
    trees: Seq<Directory>,
    id: Seq<u8>,
    path: Seq<char>,
)
    requires
        leads_to_blob(trees, roots(commits, trees), id, path),
    ensures
        paths_below_roots(commits, trees).contains_key(id),
{
    roots_are_visited_first(commits, trees);
}

/// Bare names are added for all blobs of the first trees that have no path, and no
/// path is lost.
pub proof fn bare_names_fill_up(
    paths: Map<Seq<u8>, Seq<char>>,
    trees: Seq<Directory>,
    n: int,
)
    requires
        n <= trees.len(),
    ensures
        forall|t: int, k: int, id: Seq<u8>|
            0 <= t < n && #[trigger] is_blob_item(trees, t, k, id) ==> with_bare_names(
                paths,
                trees,
                n,
            ).contains_key(id),
        forall|id: Seq<u8>| #[trigger]
            paths.contains_key(id) ==> with_bare_names(paths, trees, n).contains_key(id)
                && with_bare_names(paths, trees, n)[id] == paths[id],
    decreases n,
{
    if n > 0 {
        bare_names_fill_up(paths, trees, n - 1);
        let items = trees[n - 1].items;
        let before = with_bare_names(paths, trees, n - 1);
        let after = with_bare_names(paths, trees, n);
        blobs_are_noted(before, items, Seq::empty(), items.len() as int);
        assert forall|t: int, k: int, id: Seq<u8>|
            0 <= t < n && #[trigger] is_blob_item(trees, t, k, id) implies after.contains_key(
            id,
        ) by {
            if t == n - 1 {
                assert(items[k].mode.is_blob());
            } else {
                assert(before.contains_key(id));
            }
        }
    }
}

/// The path is the bare name of the blob in some tree.
pub open spec fn is_bare_name(trees: Seq<Directory>, id: Seq<u8>, path: Seq<char>) -> bool {
    exists|t: int, k: int| #[trigger]
        is_blob_item(trees, t, k, id) && trees[t].items[k].name == path
}

/// Paths that noting the items of a tree adds are bare names.
proof fn noted_names_are_bare(
    paths: Map<Seq<u8>, Seq<char>>,
    trees: Seq<Directory>,
    t: int,
    n: int,
    id: Seq<u8>,
)
    requires
        0 <= t < trees.len(),
        n <= trees[t].items.len(),
        with_blobs(paths, trees[t].items, Seq::empty(), n).contains_key(id),
        !paths.contains_key(id),
    ensures
        is_bare_name(
            trees,
            id,
            with_blobs(paths, trees[t].items, Seq::empty(), n)[id],
        ),
    decreases n,
{
    if n > 0 {
        if with_blobs(paths, trees[t].items, Seq::empty(), n - 1).contains_key(id) {
            noted_names_are_bare(paths, trees, t, n - 1, id);
        } else {
            assert(is_blob_item(trees, t, n - 1, id));
        }
    }
}

/// Paths that are added in the end are bare names.
proof fn added_names_are_bare(
    paths: Map<Seq<u8>, Seq<char>>,
    trees: Seq<Directory>,
    n: int,
    id: Seq<u8>,
)
    requires
        n <= trees.len(),
        with_bare_names(paths, trees, n).contains_key(id),
        !paths.contains_key(id),
    ensures
        is_bare_name(trees, id, with_bare_names(paths, trees, n)[id]),
    decreases n,
{
    if n > 0 {
        let before = with_bare_names(paths, trees, n - 1);
        let items = trees[n - 1].items;
        blobs_are_noted(before, items, Seq::empty(), items.len() as int);
        if before.contains_key(id) {
            added_names_are_bare(paths, trees, n - 1, id);
        } else {
            noted_names_are_bare(before, trees, n - 1, items.len() as int, id);
        }
    }
}

/// A blob gets a path exactly if it is an item of one of the trees.
pub proof fn every_blob_gets_a_path(
    commits: Seq<Entry>,
    trees: Seq<Directory>,
    id: Seq<u8>,
)
    ensures
        inferred_paths(commits, trees).contains_key(id) <==> exists|t: int, k: int| #[trigger]
            is_blob_item(trees, t, k, id),
{
    let below = paths_below_roots(commits, trees);
    bare_names_fill_up(below, trees, trees.len() as int);
    if inferred_paths(commits, trees).contains_key(id) {
        if below.contains_key(id) {
            paths_below_roots_are_nearest(commits, trees, id);
        } else {
            added_names_are_bare(below, trees, trees.len() as int, id);
        }
    }
}

/// The path of a blob leads from a root to the blob if any route does, and then none
/// leads there through fewer trees; otherwise it is the bare name of the blob in some
/// tree.
pub proof fn paths_lead_from_roots(
    commits: Seq<Entry>,
    trees: Seq<Directory>,
    id: Seq<u8>,
)
    requires
        inferred_paths(commits, trees).contains_key(id),
    ensures
        (exists|path: Seq<char>| #[trigger]
            leads_to_blob(trees, roots(commits, trees), id, path)) ==> is_nearest(
            trees,
            roots(commits, trees),
            id,
            inferred_paths(commits, trees)[id],
        ),
        !(exists|path: Seq<char>| #[trigger]
            leads_to_blob(trees, roots(commits, trees), id, path)) ==> is_bare_name(
            trees,
            id,
            inferred_paths(commits, trees)[id],
        ),
{
    let below = paths_below_roots(commits, trees);
    let starts = roots(commits, trees);
    bare_names_fill_up(below, trees, trees.len() as int);
    if exists|path: Seq<char>| #[trigger] leads_to_blob(trees, starts, id, path) {
        let path = choose|path: Seq<char>| #[trigger] leads_to_blob(trees, starts, id, path);
        reachable_blobs_are_found(commits, trees, id, path);
        paths_below_roots_are_nearest(commits, trees, id);
    } else {
        if below.contains_key(id) {
            paths_below_roots_are_nearest(commits, trees, id);
        }
        added_names_are_bare(below, trees, trees.len() as int, id);
    }
}

} // verus!
