//! The order in which objects are packed, which puts similar ones side by side.

use crate::object::PackEntry;
use crate::path::{
    compare_parents, compare_sizes, equal_directories_are_the_same, equal_parents_are_the_same,
    file_name, goes_on, is_name, joined, joined_paths_come_apart, number_order, parent,
    parents_order, parents_order_goes_on, parents_order_reverses, parts, parts_order, reversed,
    spec_file_name, spec_parent, Order,
};
use std::collections::VecDeque;
use vstd::multiset::Multiset;
use vstd::prelude::*;

verus! {

/// The natural order of two texts, in which a run of digits counts as a number, as
/// `natord` has it.
pub uninterp spec fn natural_order(a: Seq<char>, b: Seq<char>) -> Order;

/// Compares two texts with `natord::compare`. The result is taken to be a function
/// of the texts alone. The comparison treats both sides alike, so that the texts
/// compared the other way round have the other order. It is one that texts can be
/// sorted by, so that it goes on to any third text: apart from whitespace, which only
/// ends a run of digits, it holds the characters and the runs of digits against each
/// other one by one, and the first that differ decide. Characters go by their code,
/// and so does a run against a character, by its first digit. Of two runs one that
/// starts with a zero comes first; two that do go digit by digit, and two that do not
/// go by their length first.
#[verifier::external_body]
fn natural_compare(a: &str, b: &str) -> (r: Order)
    ensures
        r == natural_order(a@, b@),
        natural_order(b@, a@) == reversed(r),
        forall|c: Seq<char>| goes_on(r, natural_order(b@, c), #[trigger] natural_order(a@, c)),
{
    match natord::compare(a, b) {
        std::cmp::Ordering::Less => Order::Less,
        std::cmp::Ordering::Equal => Order::Equal,
        std::cmp::Ordering::Greater => Order::Greater,
    }
}

/// The name of the file at a path, or nothing if the path ends in no name.
pub open spec fn name_or_empty(path: Seq<char>) -> Seq<char> {
    match spec_file_name(path) {
        Some(name) => name,
        None => Seq::empty(),
    }
}

/// The order by size: larger data comes first.
pub open spec fn size_order(a: PackEntry, b: PackEntry) -> Order {
    number_order(b.inner.data@.len() as int, a.inner.data@.len() as int)
}

/// The order of packing, where `by_name` is the order of the file names. Entries with
/// a path come first, by directory, in it by name; then larger data comes before
/// smaller.
pub open spec fn order_with_names(a: PackEntry, b: PackEntry, by_name: Order) -> Order {
    match (a.meta.file_path, b.meta.file_path) {
        (Some(p), Some(q)) => {
            let by_directory = parents_order(spec_parent(p@), spec_parent(q@));
            if by_directory != Order::Equal {
                by_directory
            } else if by_name != Order::Equal {
                by_name
            } else {
                size_order(a, b)
            }
        },
        (Some(_), None) => Order::Less,
        (None, Some(_)) => Order::Greater,
        (None, None) => size_order(a, b),
    }
}

/// The natural order of the file names of two entries. Entries without a path have
/// none.
pub open spec fn name_order(a: PackEntry, b: PackEntry) -> Order {
    match (a.meta.file_path, b.meta.file_path) {
        (Some(p), Some(q)) => natural_order(name_or_empty(p@), name_or_empty(q@)),
        _ => Order::Equal,
    }
}

/// The order of packing, in which file names have their natural order.
pub open spec fn magic_order(a: PackEntry, b: PackEntry) -> Order {
    order_with_names(a, b, name_order(a, b))
}

/// The name of the file at a path, or nothing if the path ends in no name.
fn file_name_or_empty(path: &str) -> (r: String)
    ensures
        r@ == name_or_empty(path@),
{
    match file_name(path) {
        Some(name) => name,
        None => String::new(),
    }
}

/// Compares two entries for packing, where `by_name` is the order of their file names.
/// Where path and size leave the order open, it is that of the places in memory, which
/// the caller tells.
pub fn sort_with_names(a: &PackEntry, b: &PackEntry, by_name: Order, place_order: Order) -> (r:
    Order)
    ensures
        r == if order_with_names(*a, *b, by_name) != Order::Equal {
            order_with_names(*a, *b, by_name)
        } else {
            place_order
        },
        order_with_names(*b, *a, reversed(by_name)) == reversed(
            order_with_names(*a, *b, by_name),
        ),
{
    match (&a.meta.file_path, &b.meta.file_path) {
        (Some(p), Some(q)) => {
            proof {
                parents_order_reverses(spec_parent(p@), spec_parent(q@));
            }
            let by_directory = compare_parents(&parent(p.as_str()), &parent(q.as_str()));
            if by_directory != Order::Equal {
                return by_directory;
            }
            if by_name != Order::Equal {
                return by_name;
            }
        },
        (Some(_), None) => {
            return Order::Less;
        },
        (None, Some(_)) => {
            return Order::Greater;
        },
        (None, None) => {},
    }
    let by_size = compare_sizes(b.inner.data.len(), a.inner.data.len());
    if by_size != Order::Equal {
        return by_size;
    }
    place_order
}

/// The order of packing goes on to a third entry if that of the file names does.
proof fn order_goes_on(a: PackEntry, b: PackEntry, c: PackEntry)
    requires
        a.meta.file_path is Some && b.meta.file_path is Some && c.meta.file_path is Some
            ==> goes_on(name_order(a, b), name_order(b, c), name_order(a, c)),
    ensures
        goes_on(magic_order(a, b), magic_order(b, c), magic_order(a, c)),
{
    match (a.meta.file_path, b.meta.file_path, c.meta.file_path) {
        (Some(p), Some(q), Some(r)) => {
            parents_order_goes_on(spec_parent(p@), spec_parent(q@), spec_parent(r@));
        },
        _ => {},
    }
}

/// Compares two entries for packing. Where path and size leave the order open, it
/// is that of the places in memory, which the caller tells.
pub fn magic_sort(a: &PackEntry, b: &PackEntry, place_order: Order) -> (r: Order)
    ensures
        r == if magic_order(*a, *b) != Order::Equal {
            magic_order(*a, *b)
        } else {
            place_order
        },
        magic_order(*b, *a) == reversed(magic_order(*a, *b)),
        forall|c: PackEntry|
            goes_on(magic_order(*a, *b), magic_order(*b, c), #[trigger] magic_order(*a, c)),
{
    let by_name = match (&a.meta.file_path, &b.meta.file_path) {
        (Some(p), Some(q)) => natural_compare(
            file_name_or_empty(p.as_str()).as_str(),
            file_name_or_empty(q.as_str()).as_str(),
        ),
        _ => Order::Equal,
    };
    proof {
        assert forall|c: PackEntry|
            goes_on(magic_order(*a, *b), magic_order(*b, c), #[trigger] magic_order(*a, c)) by {
            order_goes_on(*a, *b, c);
        }
    }
    sort_with_names(a, b, by_name, place_order)
}

/// The entry does not belong behind the other one.
pub open spec fn in_order(a: PackEntry, b: PackEntry) -> bool {
    magic_order(a, b) != Order::Greater
}

/// No entry belongs behind a later one.
pub open spec fn is_sorted(entries: Seq<PackEntry>) -> bool {
    forall|i: int, j: int|
        0 <= i < j < entries.len() ==> #[trigger] in_order(entries[i], entries[j])
}

/// Entries with their places.
pub open spec fn numbered(entries: Seq<PackEntry>) -> Seq<(PackEntry, int)> {
    Seq::new(entries.len(), |k: int| (entries[k], k))
}

/// The entries without their places.
pub open spec fn unnumbered(items: Seq<(PackEntry, int)>) -> Seq<PackEntry> {
    Seq::new(items.len(), |k: int| items[k].0)
}

/// The item comes before the other one: it does not belong behind it, and where their
/// order is open, it was before the other one already.
pub open spec fn precedes(a: (PackEntry, int), b: (PackEntry, int)) -> bool {
    match magic_order(a.0, b.0) {
        Order::Less => true,
        Order::Equal => a.1 < b.1,
        Order::Greater => false,
    }
}

/// Every item comes before the later ones.
pub open spec fn stand_well(items: Seq<(PackEntry, int)>) -> bool {
    forall|i: int, j: int| 0 <= i < j < items.len() ==> #[trigger] precedes(items[i], items[j])
}

/// The items are the entries with their places, in the order of packing.
pub open spec fn are_arranged(entries: Seq<PackEntry>, items: Seq<(PackEntry, int)>) -> bool {
    &&& items.len() == entries.len()
    &&& items.to_multiset() == numbered(entries).to_multiset()
    &&& stand_well(items)
}

/// An arrangement of `entries` in the order of packing. Entries whose order is open
/// keep the order that they had.
pub open spec fn is_arrangement(entries: Seq<PackEntry>, arranged: Seq<PackEntry>) -> bool {
    &&& arranged.to_multiset() == entries.to_multiset()
    &&& arranged.len() == entries.len()
    &&& is_sorted(arranged)
    &&& exists|items: Seq<(PackEntry, int)>| #[trigger]
        are_arranged(entries, items) && arranged == unnumbered(items)
}

/// All of the one come before all of the other.
spec fn all_precede(left: Seq<(PackEntry, int)>, right: Seq<(PackEntry, int)>) -> bool {
    forall|i: int, j: int|
        0 <= i < left.len() && 0 <= j < right.len() ==> #[trigger] precedes(left[i], right[j])
}

/// All of the one were before all of the other.
spec fn were_before(left: Seq<(PackEntry, int)>, right: Seq<(PackEntry, int)>) -> bool {
    forall|i: int, j: int|
        0 <= i < left.len() && 0 <= j < right.len() ==> (#[trigger] left[i]).1 < (#[trigger]
        right[j]).1
}

/// Moving the first of the rest behind what is merged keeps all in order, if it comes
/// before the other rest, and keeps all items.
proof fn moving_the_first(
    merged: Seq<(PackEntry, int)>,
    rest: Seq<(PackEntry, int)>,
    other: Seq<(PackEntry, int)>,
)
    requires
        stand_well(merged),
        stand_well(rest),
        rest.len() > 0,
        all_precede(merged, rest),
        all_precede(merged, other),
        forall|j: int| 0 <= j < other.len() ==> #[trigger] precedes(rest[0], other[j]),
    ensures
        stand_well(merged.push(rest[0])),
        stand_well(rest.drop_first()),
        all_precede(merged.push(rest[0]), rest.drop_first()),
        all_precede(merged.push(rest[0]), other),
        merged.push(rest[0]).to_multiset().add(rest.drop_first().to_multiset())
            == merged.to_multiset().add(rest.to_multiset()),
{
    let longer = merged.push(rest[0]);
    let shorter = rest.drop_first();
    assert forall|i: int, j: int| 0 <= i < j < longer.len() implies #[trigger] precedes(
        longer[i],
        longer[j],
    ) by {
        if j < merged.len() {
            assert(precedes(merged[i], merged[j]));
        } else {
            assert(precedes(merged[i], rest[0]));
        }
    }
    assert forall|i: int, j: int| 0 <= i < j < shorter.len() implies #[trigger] precedes(
        shorter[i],
        shorter[j],
    ) by {
        assert(precedes(rest[i + 1], rest[j + 1]));
    }
    assert forall|i: int, j: int|
        0 <= i < longer.len() && 0 <= j < shorter.len() implies #[trigger] precedes(
        longer[i],
        shorter[j],
    ) by {
        if i < merged.len() {
            assert(precedes(merged[i], rest[j + 1]));
        } else {
            assert(precedes(rest[0], rest[j + 1]));
        }
    }
    assert forall|i: int, j: int|
        0 <= i < longer.len() && 0 <= j < other.len() implies #[trigger] precedes(
        longer[i],
        other[j],
    ) by {
        if i < merged.len() {
            assert(precedes(merged[i], other[j]));
        }
    }
    vstd::seq_lib::to_multiset_build(merged, rest[0]);
    vstd::seq_lib::to_multiset_remove(rest, 0);
    vstd::seq_lib::to_multiset_contains(rest, rest[0]);
    assert(rest.contains(rest[0]));
    assert(shorter =~= rest.remove(0));
    assert(longer.to_multiset().add(shorter.to_multiset()) =~= merged.to_multiset().add(
        rest.to_multiset(),
    ));
}

/// Items that are none make up the empty multiset.
proof fn no_items(items: Seq<(PackEntry, int)>)
    requires
        items.len() == 0,
    ensures
        items.to_multiset() == Multiset::<(PackEntry, int)>::empty(),
{
    vstd::seq_lib::to_multiset_len(items);
    assert(items.to_multiset() =~= Multiset::empty());
}

/// The same items in another order hold the same entries.
proof fn entries_ignore_order(a: Seq<(PackEntry, int)>, b: Seq<(PackEntry, int)>)
    requires
        a.to_multiset() == b.to_multiset(),
    ensures
        unnumbered(a).to_multiset() == unnumbered(b).to_multiset(),
    decreases a.len(),
{
    vstd::seq_lib::to_multiset_len(a);
    vstd::seq_lib::to_multiset_len(b);
    if a.len() == 0 {
        assert(unnumbered(a) =~= unnumbered(b));
    } else {
        let last = a.last();
        vstd::seq_lib::to_multiset_contains(a, last);
        vstd::seq_lib::to_multiset_contains(b, last);
        assert(a.contains(last)) by {
            assert(a[a.len() - 1] == last);
        }
        let j = choose|j: int| 0 <= j < b.len() && b[j] == last;
        let shorter = b.remove(j);
        vstd::seq_lib::to_multiset_remove(b, j);
        vstd::seq_lib::to_multiset_remove(a, a.len() - 1);
        assert(a.drop_last() =~= a.remove(a.len() - 1));
        entries_ignore_order(a.drop_last(), shorter);
        assert(unnumbered(a) =~= unnumbered(a.drop_last()).push(last.0));
        vstd::seq_lib::to_multiset_build(unnumbered(a.drop_last()), last.0);
        assert(unnumbered(b)[j] == last.0);
        assert(unnumbered(shorter) =~= unnumbered(b).remove(j));
        vstd::seq_lib::to_multiset_remove(unnumbered(b), j);
        vstd::seq_lib::to_multiset_contains(unnumbered(b), last.0);
        assert(unnumbered(b).contains(last.0));
        assert(unnumbered(b).to_multiset() =~= unnumbered(shorter).to_multiset().insert(last.0));
    }
}

/// Items of the same multiset come from the same range of places.
proof fn places_stay_in_range(
    items: Seq<(PackEntry, int)>,
    given: Seq<(PackEntry, int)>,
    lo: int,
    hi: int,
)
    requires
        items.to_multiset() == given.to_multiset(),
        forall|k: int| 0 <= k < given.len() ==> lo <= (#[trigger] given[k]).1 < hi,
    ensures
        forall|k: int| 0 <= k < items.len() ==> lo <= (#[trigger] items[k]).1 < hi,
{
    assert forall|k: int| 0 <= k < items.len() implies lo <= (#[trigger] items[k]).1 < hi by {
        vstd::seq_lib::to_multiset_contains(items, items[k]);
        vstd::seq_lib::to_multiset_contains(given, items[k]);
        assert(items.contains(items[k]));
        let j = choose|j: int| 0 <= j < given.len() && given[j] == items[k];
        assert(lo <= given[j].1 < hi);
    }
}

/// The first of two sequences that comes before the first of the other one comes
/// before all of them.
proof fn first_comes_before_the_others(
    left: Seq<(PackEntry, int)>,
    right: Seq<(PackEntry, int)>,
    take_right: bool,
)
    requires
        left.len() > 0,
        right.len() > 0,
        stand_well(left),
        stand_well(right),
        were_before(left, right),
        take_right == (magic_order(right[0].0, left[0].0) == Order::Less),
        magic_order(left[0].0, right[0].0) == reversed(magic_order(right[0].0, left[0].0)),
        forall|c: PackEntry|
            goes_on(
                magic_order(right[0].0, left[0].0),
                magic_order(left[0].0, c),
                #[trigger] magic_order(right[0].0, c),
            ),
    ensures
        take_right ==> forall|j: int|
            0 <= j < left.len() ==> #[trigger] precedes(right[0], left[j]),
        !take_right ==> forall|j: int|
            0 <= j < right.len() ==> #[trigger] precedes(left[0], right[j]),
{
    if take_right {
        assert forall|j: int| 0 <= j < left.len() implies #[trigger] precedes(
            right[0],
            left[j],
        ) by {
            if j > 0 {
                assert(precedes(left[0], left[j]));
            }
            assert(magic_order(right[0].0, left[j].0) == Order::Less);
        }
    } else {
        assert forall|j: int| 0 <= j < right.len() implies #[trigger] precedes(
            left[0],
            right[j],
        ) by {
            assert(left[0].1 < right[j].1);
            if j > 0 {
                assert(precedes(right[0], right[j]));
                assert(magic_order(right[0].0, right[j].0) != Order::Greater);
            }
        }
    }
}

/// Merges two sorted sequences into one, of which the first holds what was before.
fn merge(
    left: VecDeque<PackEntry>,
    right: VecDeque<PackEntry>,
    Ghost(left_items): Ghost<Seq<(PackEntry, int)>>,
    Ghost(right_items): Ghost<Seq<(PackEntry, int)>>,
) -> (r: (VecDeque<PackEntry>, Ghost<Seq<(PackEntry, int)>>))
    requires
        left@ == unnumbered(left_items),
        right@ == unnumbered(right_items),
        stand_well(left_items),
        stand_well(right_items),
        were_before(left_items, right_items),
    ensures
        r.0@ == unnumbered(r.1@),
        stand_well(r.1@),
        r.1@.to_multiset() == left_items.to_multiset().add(right_items.to_multiset()),
{
    let mut left = left;
    let mut right = right;
    let mut merged: VecDeque<PackEntry> = VecDeque::new();
    let ghost mut ls = left_items;
    let ghost mut rs = right_items;
    let ghost mut ms = Seq::<(PackEntry, int)>::empty();
    let ghost all = ls.to_multiset().add(rs.to_multiset());
    proof {
        no_items(ms);
        assert(ms.to_multiset().add(ls.to_multiset()).add(rs.to_multiset()) =~= all);
        assert(merged@ =~= unnumbered(ms));
    }
    loop
        invariant
            left@ == unnumbered(ls),
            right@ == unnumbered(rs),
            merged@ == unnumbered(ms),
            stand_well(ls),
            stand_well(rs),
            stand_well(ms),
            were_before(ls, rs),
            all_precede(ms, ls),
            all_precede(ms, rs),
            ms.to_multiset().add(ls.to_multiset()).add(rs.to_multiset()) == all,
        ensures
            left@.len() == 0,
            right@.len() == 0,
        decreases left@.len() + right@.len(),
    {
        let ghost (m, l, r) = (ms, ls, rs);
        let take_right = if left.len() == 0 {
            if right.len() == 0 {
                break;
            }
            true
        } else if right.len() == 0 {
            false
        } else {
            assert(left@[0] == ls[0].0 && right@[0] == rs[0].0);
            let first = magic_sort(&right[0], &left[0], Order::Greater) == Order::Less;
            proof {
                first_comes_before_the_others(l, r, first);
            }
            first
        };
        if take_right {
            if let Some(entry) = right.pop_front() {
                merged.push_back(entry);
                proof {
                    moving_the_first(m, r, l);
                    ms = m.push(r[0]);
                    rs = r.drop_first();
                    assert(merged@ =~= unnumbered(ms));
                    assert(right@ =~= unnumbered(rs));
                    assert(ms.to_multiset().add(l.to_multiset()).add(rs.to_multiset())
                        =~= m.to_multiset().add(l.to_multiset()).add(r.to_multiset())) by {
                        assert(ms.to_multiset().add(l.to_multiset()).add(rs.to_multiset())
                            =~= ms.to_multiset().add(rs.to_multiset()).add(l.to_multiset()));
                        assert(m.to_multiset().add(l.to_multiset()).add(r.to_multiset())
                            =~= m.to_multiset().add(r.to_multiset()).add(l.to_multiset()));
                    }
                }
            }
        } else {
            if let Some(entry) = left.pop_front() {
                merged.push_back(entry);
                proof {
                    moving_the_first(m, l, r);
                    ms = m.push(l[0]);
                    ls = l.drop_first();
                    assert(merged@ =~= unnumbered(ms));
                    assert(left@ =~= unnumbered(ls));
                }
            }
        }
    }
    proof {
        no_items(ls);
        no_items(rs);
        assert(ms.to_multiset() =~= all);
    }
    (merged, Ghost(ms))
}

/// Sorts entries by halves, which come with their places in rising order.
fn sort_deque(entries: VecDeque<PackEntry>, Ghost(items): Ghost<Seq<(PackEntry, int)>>) -> (r: (
    VecDeque<PackEntry>,
    Ghost<Seq<(PackEntry, int)>>,
))
    requires
        entries@ == unnumbered(items),
        forall|i: int, j: int|
            0 <= i < j < items.len() ==> (#[trigger] items[i]).1 < (#[trigger] items[j]).1,
    ensures
        r.0@ == unnumbered(r.1@),
        stand_well(r.1@),
        r.1@.to_multiset() == items.to_multiset(),
    decreases entries@.len(),
{
    let mut left = entries;
    let len: usize = left.len();
    if len < 2 {
        return (left, Ghost(items));
    }
    let half: usize = len / 2;
    let right = left.split_off(half);
    let ghost ls = items.take(half as int);
    let ghost rs = items.skip(half as int);
    proof {
        vstd::seq_lib::lemma_multiset_commutative(ls, rs);
        assert(ls + rs =~= items);
        assert(left@ =~= unnumbered(ls));
        assert(right@ =~= unnumbered(rs));
    }
    let (left, Ghost(sorted_left)) = sort_deque(left, Ghost(ls));
    let (right, Ghost(sorted_right)) = sort_deque(right, Ghost(rs));
    proof {
        let (lo, mid, hi) = (ls[0].1, rs[0].1, rs.last().1 + 1);
        assert forall|k: int| 0 <= k < ls.len() implies lo <= (#[trigger] ls[k]).1 < mid by {
            assert(items[k] == ls[k] && items[0] == ls[0] && items[half as int] == rs[0]);
        }
        assert forall|k: int| 0 <= k < rs.len() implies mid <= (#[trigger] rs[k]).1 < hi by {
            assert(items[half + k] == rs[k] && items[half as int] == rs[0]);
            assert(items[items.len() - 1] == rs.last());
        }
        places_stay_in_range(sorted_left, ls, lo, mid);
        places_stay_in_range(sorted_right, rs, mid, hi);
    }
    merge(left, right, Ghost(sorted_left), Ghost(sorted_right))
}

/// Items that come before the later ones are sorted.
proof fn items_are_sorted(items: Seq<(PackEntry, int)>)
    requires
        stand_well(items),
    ensures
        is_sorted(unnumbered(items)),
{
    let entries = unnumbered(items);
    assert forall|i: int, j: int| 0 <= i < j < entries.len() implies #[trigger] in_order(
        entries[i],
        entries[j],
    ) by {
        assert(precedes(items[i], items[j]));
    }
}

/// Arranges entries in the order of packing.
pub fn magic_sorted(entries: Vec<PackEntry>) -> (r: Vec<PackEntry>)
    ensures
        is_arrangement(entries@, r@),
{
    let mut deque: VecDeque<PackEntry> = VecDeque::with_capacity(entries.len());
    for entry in it: entries
        invariant
            deque@ == it.seq().take(it.index()),
            it.seq() == entries@,
    {
        deque.push_back(entry);
    }
    assert(deque@ =~= unnumbered(numbered(entries@)));
    let (mut sorted, Ghost(items)) = sort_deque(deque, Ghost(numbered(entries@)));
    let ghost all = sorted@;
    let mut result: Vec<PackEntry> = Vec::with_capacity(sorted.len());
    loop
        invariant
            result@ + sorted@ =~= all,
        ensures
            sorted@.len() == 0,
        decreases sorted@.len(),
    {
        match sorted.pop_front() {
            Some(entry) => {
                result.push(entry);
            },
            None => {
                break;
            },
        }
    }
    proof {
        assert(result@ =~= all);
        assert(unnumbered(numbered(entries@)) =~= entries@);
        entries_ignore_order(items, numbered(entries@));
        vstd::seq_lib::to_multiset_len(items);
        vstd::seq_lib::to_multiset_len(numbered(entries@));
        items_are_sorted(items);
        assert(are_arranged(entries@, items));
    }
    result
}

/// In the order of packing, directories rise: no entry stands before one of a lower
/// directory.
pub proof fn directories_rise(arranged: Seq<PackEntry>, i: int, j: int)
    requires
        is_sorted(arranged),
        0 <= i < j < arranged.len(),
        arranged[j].meta.file_path is Some,
    ensures
        arranged[i].meta.file_path is Some,
        parents_order(
            spec_parent(arranged[i].meta.file_path->0@),
            spec_parent(arranged[j].meta.file_path->0@),
        ) != Order::Greater,
{
    assert(in_order(arranged[i], arranged[j]));
}

/// In the order of packing, the names in a directory rise, in their natural order.
pub proof fn names_rise_in_a_directory(arranged: Seq<PackEntry>, i: int, j: int)
    requires
        is_sorted(arranged),
        0 <= i < j < arranged.len(),
        arranged[i].meta.file_path is Some,
        arranged[j].meta.file_path is Some,
        parents_order(
            spec_parent(arranged[i].meta.file_path->0@),
            spec_parent(arranged[j].meta.file_path->0@),
        ) == Order::Equal,
    ensures
        name_order(arranged[i], arranged[j]) != Order::Greater,
{
    assert(in_order(arranged[i], arranged[j]));
}

/// In the order of packing, entries with a path come before entries without one.
pub proof fn paths_come_first(arranged: Seq<PackEntry>, i: int, j: int)
    requires
        is_sorted(arranged),
        0 <= i < j < arranged.len(),
        arranged[j].meta.file_path is Some,
    ensures
        arranged[i].meta.file_path is Some,
{
    assert(in_order(arranged[i], arranged[j]));
}

/// In the order of packing, of entries without a path larger ones come before smaller
/// ones.
pub proof fn larger_data_comes_first(arranged: Seq<PackEntry>, i: int, j: int)
    requires
        is_sorted(arranged),
        0 <= i < j < arranged.len(),
        arranged[i].meta.file_path is None,
    ensures
        arranged[j].meta.file_path is None,
        arranged[i].inner.data@.len() >= arranged[j].inner.data@.len(),
{
    assert(in_order(arranged[i], arranged[j]));
}

/// In the order of packing, entries whose order is open keep the order that they had.
pub proof fn open_order_is_kept(
    entries: Seq<PackEntry>,
    items: Seq<(PackEntry, int)>,
    i: int,
    j: int,
)
    requires
        are_arranged(entries, items),
        0 <= i < j < items.len(),
        magic_order(items[i].0, items[j].0) == Order::Equal,
    ensures
        items[i].1 < items[j].1,
{
    assert(precedes(items[i], items[j]));
}

/// In the order of packing, the entries of one directory stand side by side.
pub proof fn directories_stand_together(arranged: Seq<PackEntry>, i: int, j: int, k: int)
    requires
        is_sorted(arranged),
        0 <= i < j < k < arranged.len(),
        arranged[i].meta.file_path is Some,
        arranged[k].meta.file_path is Some,
        spec_parent(arranged[i].meta.file_path->0@) == spec_parent(
            arranged[k].meta.file_path->0@,
        ),
    ensures
        arranged[j].meta.file_path is Some,
        spec_parent(arranged[j].meta.file_path->0@) == spec_parent(
            arranged[i].meta.file_path->0@,
        ),
{
    directories_rise(arranged, j, k);
    directories_rise(arranged, i, j);
    let (a, b) = (
        spec_parent(arranged[i].meta.file_path->0@),
        spec_parent(arranged[j].meta.file_path->0@),
    );
    parents_order_reverses(a, b);
    equal_parents_are_the_same(a, b);
}

/// Files of different directories have the order of the directories, whatever their
/// names and sizes are.
pub proof fn directories_decide_first(
    a: PackEntry,
    b: PackEntry,
    above_a: Seq<char>,
    above_b: Seq<char>,
    name_a: Seq<char>,
    name_b: Seq<char>,
)
    requires
        is_name(name_a),
        is_name(name_b),
        a.meta.file_path matches Some(path) && path@ == joined(above_a, name_a),
        b.meta.file_path matches Some(path) && path@ == joined(above_b, name_b),
        parts(above_a) != parts(above_b),
    ensures
        magic_order(a, b) == parts_order(parts(above_a), parts(above_b)),
        magic_order(a, b) != Order::Equal,
{
    joined_paths_come_apart(above_a, name_a);
    joined_paths_come_apart(above_b, name_b);
    equal_directories_are_the_same(parts(above_a), parts(above_b));
}

/// Files of one directory have the natural order of their names; where that leaves the
/// order open, larger files come first.
pub proof fn names_decide_in_a_directory(
    a: PackEntry,
    b: PackEntry,
    above_a: Seq<char>,
    above_b: Seq<char>,
    name_a: Seq<char>,
    name_b: Seq<char>,
)
    requires
        is_name(name_a),
        is_name(name_b),
        a.meta.file_path matches Some(path) && path@ == joined(above_a, name_a),
        b.meta.file_path matches Some(path) && path@ == joined(above_b, name_b),
        parts(above_a) == parts(above_b),
    ensures
        natural_order(name_a, name_b) != Order::Equal ==> magic_order(a, b) == natural_order(
            name_a,
            name_b,
        ),
        natural_order(name_a, name_b) == Order::Equal ==> {
            &&& magic_order(a, b) == Order::Less <==> a.inner.data@.len() > b.inner.data@.len()
            &&& magic_order(a, b) == Order::Greater <==> a.inner.data@.len()
                < b.inner.data@.len()
        },
{
    joined_paths_come_apart(above_a, name_a);
    joined_paths_come_apart(above_b, name_b);
    equal_directories_are_the_same(parts(above_a), parts(above_b));
}

/// Entries without a path come behind all entries with one, and among each other
/// larger ones come first.
pub proof fn sizes_decide_without_a_path(a: PackEntry, b: PackEntry)
    requires
        a.meta.file_path is None,
    ensures
        b.meta.file_path is Some ==> magic_order(a, b) == Order::Greater && magic_order(b, a)
            == Order::Less,
        b.meta.file_path is None ==> {
            &&& magic_order(a, b) == Order::Less <==> a.inner.data@.len() > b.inner.data@.len()
            &&& magic_order(a, b) == Order::Greater <==> a.inner.data@.len()
                < b.inner.data@.len()
        },
{
}

/// Files of one directory have the natural order of their names, where a path without a
/// file name counts as one with an empty name.
pub proof fn missing_names_are_empty(a: PackEntry, b: PackEntry, p: Seq<char>, q: Seq<char>)
    requires
        a.meta.file_path matches Some(path) && path@ == p,
        b.meta.file_path matches Some(path) && path@ == q,
        spec_parent(p) == spec_parent(q),
    ensures
        ({
            let names = natural_order(
                match spec_file_name(p) {
                    Some(name) => name,
                    None => Seq::empty(),
                },
                match spec_file_name(q) {
                    Some(name) => name,
                    None => Seq::empty(),
                },
            );
            &&& names != Order::Equal ==> magic_order(a, b) == names
            &&& names == Order::Equal ==> {
                &&& magic_order(a, b) == Order::Less <==> a.inner.data@.len()
                    > b.inner.data@.len()
                &&& magic_order(a, b) == Order::Greater <==> a.inner.data@.len()
                    < b.inner.data@.len()
            }
        }),
{
    equal_parents_are_the_same(spec_parent(p), spec_parent(q));
}

} // verus!
