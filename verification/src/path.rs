//! Paths in a repository: names separated by slashes.
//!
//! These are the paths that trees give to blobs. They are read alike on every
//! machine, whatever the machine separates the names of its own files with: a
//! backslash or a colon is a character like any other.

use vstd::prelude::*;

verus! {

/// A part of a path.
#[derive(Debug)]
pub enum Component {
    /// The slash that an absolute path starts with.
    RootDir,
    /// A single dot at the start of a path.
    CurDir,
    /// Two dots.
    ParentDir,
    /// A name.
    Normal(Vec<char>),
}

/// The mathematical value of a [`Component`].
pub enum Part {
    RootDir,
    CurDir,
    ParentDir,
    Normal(Seq<char>),
}

impl View for Component {
    type V = Part;

    open spec fn view(&self) -> Part {
        match *self {
            Component::RootDir => Part::RootDir,
            Component::CurDir => Part::CurDir,
            Component::ParentDir => Part::ParentDir,
            Component::Normal(name) => Part::Normal(name@),
        }
    }
}

/// The values of components.
pub open spec fn parts_of(components: Seq<Component>) -> Seq<Part> {
    components.map_values(|c: Component| c@)
}

/// The place of the first slash at or behind `from`, or the length of the path.
pub open spec fn next_slash(path: Seq<char>, from: int) -> int
    decreases path.len() - from,
{
    if from >= path.len() {
        path.len() as int
    } else if path[from] == '/' {
        from
    } else {
        next_slash(path, from + 1)
    }
}

/// What a piece between slashes contributes: nothing if it is empty, and nothing
/// if it is a single dot that does not stand at the start of the path.
pub open spec fn piece_parts(piece: Seq<char>, at_start: bool) -> Seq<Part> {
    if piece.len() == 0 {
        seq![]
    } else if piece == seq!['.'] {
        if at_start {
            seq![Part::CurDir]
        } else {
            seq![]
        }
    } else if piece == seq!['.', '.'] {
        seq![Part::ParentDir]
    } else {
        seq![Part::Normal(piece)]
    }
}

/// The parts of what stands at and behind `from`, the start of a piece.
pub open spec fn parts_from(path: Seq<char>, from: int) -> Seq<Part>
    decreases path.len() - from,
{
    let to = next_slash(path, from);
    let here = piece_parts(path.subrange(from, to), from == 0);
    if from < 0 || to < from || to >= path.len() {
        here
    } else {
        here + parts_from(path, to + 1)
    }
}

/// The parts of a path.
pub open spec fn parts(path: Seq<char>) -> Seq<Part> {
    (if path.len() > 0 && path[0] == '/' {
        seq![Part::RootDir]
    } else {
        seq![]
    }) + parts_from(path, 0)
}

/// The last part of a path, if it is a name.
pub open spec fn spec_file_name(path: Seq<char>) -> Option<Seq<char>> {
    if parts(path).len() > 0 {
        match parts(path).last() {
            Part::Normal(name) => Some(name),
            _ => None,
        }
    } else {
        None
    }
}

/// The parts of the directory that a path stands in, if it stands in one.
pub open spec fn spec_parent(path: Seq<char>) -> Option<Seq<Part>> {
    if parts(path).len() > 0 && parts(path).last() != Part::RootDir {
        Some(parts(path).drop_last())
    } else {
        None
    }
}

/// How two values stand to each other.
#[derive(Clone, Copy, Debug, PartialEq, Eq, Structural)]
pub enum Order {
    Less,
    Equal,
    Greater,
}

/// The other way round.
pub open spec fn reversed(order: Order) -> Order {
    match order {
        Order::Less => Order::Greater,
        Order::Equal => Order::Equal,
        Order::Greater => Order::Less,
    }
}

/// How `a` stands to `c` follows from how `a` stands to `b` and `b` to `c`, as far as it
/// can: what stands equal stands alike to everything else, and what stands before stands
/// before all that comes behind.
pub open spec fn goes_on(ab: Order, bc: Order, ac: Order) -> bool {
    match ab {
        Order::Less => bc != Order::Greater ==> ac == Order::Less,
        Order::Equal => ac == bc,
        Order::Greater => bc != Order::Less ==> ac == Order::Greater,
    }
}

/// The order of two numbers.
pub open spec fn number_order(a: int, b: int) -> Order {
    if a < b {
        Order::Less
    } else if a == b {
        Order::Equal
    } else {
        Order::Greater
    }
}

/// The order of two texts: that of the first characters that differ; a text stands
/// before a longer one that it starts.
pub open spec fn text_order(a: Seq<char>, b: Seq<char>) -> Order
    decreases a.len(),
{
    if a.len() == 0 || b.len() == 0 {
        number_order(a.len() as int, b.len() as int)
    } else if a[0] != b[0] {
        number_order(a[0] as int, b[0] as int)
    } else {
        text_order(a.skip(1), b.skip(1))
    }
}

/// The kinds of parts in their order.
pub open spec fn part_rank(part: Part) -> int {
    match part {
        Part::RootDir => 0,
        Part::CurDir => 1,
        Part::ParentDir => 2,
        Part::Normal(_) => 3,
    }
}

/// The order of two parts: by kind, names as texts.
pub open spec fn part_order(a: Part, b: Part) -> Order {
    match (a, b) {
        (Part::Normal(x), Part::Normal(y)) => text_order(x, y),
        _ => number_order(part_rank(a), part_rank(b)),
    }
}

/// The order of two directories: that of the first parts that differ; a directory
/// stands before what it contains.
pub open spec fn parts_order(a: Seq<Part>, b: Seq<Part>) -> Order
    decreases a.len(),
{
    if a.len() == 0 || b.len() == 0 {
        number_order(a.len() as int, b.len() as int)
    } else if part_order(a[0], b[0]) != Order::Equal {
        part_order(a[0], b[0])
    } else {
        parts_order(a.skip(1), b.skip(1))
    }
}

/// The order of what may be a directory: none stands before any.
pub open spec fn parents_order(a: Option<Seq<Part>>, b: Option<Seq<Part>>) -> Order {
    match (a, b) {
        (None, None) => Order::Equal,
        (None, Some(_)) => Order::Less,
        (Some(_), None) => Order::Greater,
        (Some(x), Some(y)) => parts_order(x, y),
    }
}

/// Texts compared the other way round have the other order.
pub proof fn text_order_reverses(a: Seq<char>, b: Seq<char>)
    ensures
        text_order(b, a) == reversed(text_order(a, b)),
    decreases a.len(),
{
    if a.len() > 0 && b.len() > 0 && a[0] == b[0] {
        text_order_reverses(a.skip(1), b.skip(1));
    }
}

/// Directories compared the other way round have the other order.
pub proof fn parts_order_reverses(a: Seq<Part>, b: Seq<Part>)
    ensures
        parts_order(b, a) == reversed(parts_order(a, b)),
    decreases a.len(),
{
    if a.len() > 0 && b.len() > 0 {
        match (a[0], b[0]) {
            (Part::Normal(x), Part::Normal(y)) => {
                text_order_reverses(x, y);
            },
            _ => {},
        }
        parts_order_reverses(a.skip(1), b.skip(1));
    }
}

/// What may be directories, compared the other way round, has the other order.
pub proof fn parents_order_reverses(a: Option<Seq<Part>>, b: Option<Seq<Part>>)
    ensures
        parents_order(b, a) == reversed(parents_order(a, b)),
{
    match (a, b) {
        (Some(x), Some(y)) => {
            parts_order_reverses(x, y);
        },
        _ => {},
    }
}

/// The order of texts goes on from text to text.
pub proof fn text_order_goes_on(a: Seq<char>, b: Seq<char>, c: Seq<char>)
    ensures
        goes_on(text_order(a, b), text_order(b, c), text_order(a, c)),
    decreases a.len(),
{
    if a.len() > 0 && b.len() > 0 && c.len() > 0 {
        text_order_goes_on(a.skip(1), b.skip(1), c.skip(1));
    }
}

/// The order of directories goes on from directory to directory.
pub proof fn parts_order_goes_on(a: Seq<Part>, b: Seq<Part>, c: Seq<Part>)
    ensures
        goes_on(parts_order(a, b), parts_order(b, c), parts_order(a, c)),
    decreases a.len(),
{
    if a.len() > 0 && b.len() > 0 && c.len() > 0 {
        match (a[0], b[0], c[0]) {
            (Part::Normal(x), Part::Normal(y), Part::Normal(z)) => {
                text_order_goes_on(x, y, z);
            },
            _ => {},
        }
        parts_order_goes_on(a.skip(1), b.skip(1), c.skip(1));
    }
}

/// The order of what may be directories goes on from one to the next.
pub proof fn parents_order_goes_on(
    a: Option<Seq<Part>>,
    b: Option<Seq<Part>>,
    c: Option<Seq<Part>>,
)
    ensures
        goes_on(parents_order(a, b), parents_order(b, c), parents_order(a, c)),
{
    match (a, b, c) {
        (Some(x), Some(y), Some(z)) => {
            parts_order_goes_on(x, y, z);
        },
        _ => {},
    }
}

/// The characters of a text.
pub fn chars_of(text: &str) -> (r: Vec<char>)
    ensures
        r@ == text@,
{
    let mut chars: Vec<char> = Vec::new();
    for c in it: text.chars()
        invariant
            chars@ == it.seq().take(it.index()),
            it.seq() == text@,
    {
        chars.push(c);
    }
    chars
}

/// The text that characters make up.
pub fn text_of(chars: &Vec<char>) -> (r: String)
    ensures
        r@ == chars@,
{
    let mut text = String::new();
    let mut i: usize = 0;
    while i < chars.len()
        invariant
            i <= chars.len(),
            text@ =~= chars@.take(i as int),
        decreases chars.len() - i,
    {
        text.push(chars[i]);
        i += 1;
    }
    assert(chars@.take(i as int) =~= chars@);
    text
}

/// The component that a piece between slashes stands for, if any.
fn piece_component(chars: &Vec<char>, from: usize, to: usize) -> (r: Option<Component>)
    requires
        from <= to <= chars.len(),
    ensures
        match r {
            Some(component) => piece_parts(chars@.subrange(from as int, to as int), from == 0)
                == seq![component@],
            None => piece_parts(chars@.subrange(from as int, to as int), from == 0) == Seq::<
                Part,
            >::empty(),
        },
{
    let ghost piece = chars@.subrange(from as int, to as int);
    if from == to {
        return None;
    }
    if to - from == 1 && chars[from] == '.' {
        assert(piece =~= seq!['.']);
        return if from == 0 {
            Some(Component::CurDir)
        } else {
            None
        };
    }
    assert(piece[0] == chars@[from as int]);
    if to - from == 2 && chars[from] == '.' && chars[from + 1] == '.' {
        assert(piece =~= seq!['.', '.']);
        return Some(Component::ParentDir);
    }
    assert(piece.len() == 2 ==> piece[1] == chars@[from + 1]);
    proof {
        let one = seq!['.'];
        let two = seq!['.', '.'];
        assert(one.len() == 1 && one[0] == '.');
        assert(two.len() == 2 && two[0] == '.' && two[1] == '.');
    }
    let mut name: Vec<char> = Vec::with_capacity(to - from);
    let mut i: usize = from;
    while i < to
        invariant
            from <= i <= to <= chars.len(),
            name@ =~= chars@.subrange(from as int, i as int),
        decreases to - i,
    {
        name.push(chars[i]);
        i += 1;
    }
    Some(Component::Normal(name))
}

/// The first slash lies behind characters that are none.
proof fn next_slash_passes(path: Seq<char>, from: int, to: int)
    requires
        0 <= from <= to <= path.len(),
        forall|i: int| from <= i < to ==> path[i] != '/',
        to < path.len() ==> path[to] == '/',
    ensures
        next_slash(path, from) == to,
    decreases to - from,
{
    if from < to {
        next_slash_passes(path, from + 1, to);
    }
}

/// Splits a path into its components. Repeated slashes and a slash at the end do
/// not count, nor do single dots behind the start.
pub fn components(path: &str) -> (r: Vec<Component>)
    ensures
        parts_of(r@) == parts(path@),
{
    let chars = chars_of(path);
    let mut result: Vec<Component> = Vec::new();
    if chars.len() > 0 && chars[0] == '/' {
        result.push(Component::RootDir);
    }
    let ghost head = parts_of(result@);
    let mut from: usize = 0;
    let mut to: usize = 0;
    assert(head + parts_from(chars@, 0) =~= parts(path@));
    while to < chars.len()
        invariant
            from <= to <= chars.len(),
            forall|i: int| from <= i < to ==> chars@[i] != '/',
            parts_of(result@) + parts_from(chars@, from as int) == parts(chars@),
        decreases chars.len() - to,
    {
        if chars[to] == '/' {
            proof {
                next_slash_passes(chars@, from as int, to as int);
            }
            let ghost before = result@;
            match piece_component(&chars, from, to) {
                Some(component) => {
                    let ghost part = component@;
                    result.push(component);
                    assert(parts_of(result@) =~= parts_of(before) + seq![part]);
                },
                None => {},
            }
            assert(parts_of(result@) + parts_from(chars@, to + 1) =~= parts_of(before)
                + parts_from(chars@, from as int));
            from = to + 1;
        }
        to += 1;
    }
    proof {
        next_slash_passes(chars@, from as int, to as int);
    }
    let ghost before = result@;
    match piece_component(&chars, from, to) {
        Some(component) => {
            let ghost part = component@;
            result.push(component);
            assert(parts_of(result@) =~= parts_of(before) + seq![part]);
        },
        None => {},
    }
    assert(parts_of(result@) =~= parts_of(before) + parts_from(chars@, from as int));
    result
}

/// The last part of a path, if it is a name.
pub fn file_name(path: &str) -> (r: Option<String>)
    ensures
        match r {
            Some(name) => spec_file_name(path@) == Some(name@),
            None => spec_file_name(path@) is None,
        },
{
    let found = components(path);
    if found.len() == 0 {
        return None;
    }
    let last = &found[found.len() - 1];
    assert(parts(path@).last() == last@);
    match last {
        Component::Normal(name) => Some(text_of(name)),
        _ => None,
    }
}

/// The components of the directory that a path stands in, if it stands in one.
pub fn parent(path: &str) -> (r: Option<Vec<Component>>)
    ensures
        match r {
            Some(directory) => spec_parent(path@) == Some(parts_of(directory@)),
            None => spec_parent(path@) is None,
        },
{
    let mut found = components(path);
    let ghost all = found@;
    assert(parts(path@).len() == all.len());
    match found.pop() {
        Some(last) => {
            assert(parts(path@).last() == last@);
            match last {
                Component::RootDir => None,
                _ => {
                    assert(parts_of(found@) =~= parts(path@).drop_last());
                    Some(found)
                },
            }
        },
        None => None,
    }
}

/// Compares two texts.
fn compare_text(a: &Vec<char>, b: &Vec<char>) -> (r: Order)
    ensures
        r == text_order(a@, b@),
{
    let mut i: usize = 0;
    assert(a@.skip(0) =~= a@ && b@.skip(0) =~= b@);
    while i < a.len() && i < b.len()
        invariant
            i <= a.len(),
            i <= b.len(),
            text_order(a@, b@) == text_order(a@.skip(i as int), b@.skip(i as int)),
        decreases a.len() - i,
    {
        if a[i] != b[i] {
            return if a[i] < b[i] {
                Order::Less
            } else {
                Order::Greater
            };
        }
        assert(a@.skip(i as int).skip(1) =~= a@.skip(i + 1));
        assert(b@.skip(i as int).skip(1) =~= b@.skip(i + 1));
        i += 1;
    }
    compare_sizes(a.len() - i, b.len() - i)
}

/// Compares two numbers.
pub fn compare_sizes(a: usize, b: usize) -> (r: Order)
    ensures
        r == number_order(a as int, b as int),
{
    if a < b {
        Order::Less
    } else if a == b {
        Order::Equal
    } else {
        Order::Greater
    }
}

/// The kinds of components in their order.
fn component_rank(component: &Component) -> (r: usize)
    ensures
        r == part_rank(component@),
{
    match component {
        Component::RootDir => 0,
        Component::CurDir => 1,
        Component::ParentDir => 2,
        Component::Normal(_) => 3,
    }
}

/// Compares two components.
fn compare_components(a: &Component, b: &Component) -> (r: Order)
    ensures
        r == part_order(a@, b@),
{
    match (a, b) {
        (Component::Normal(x), Component::Normal(y)) => compare_text(x, y),
        _ => compare_sizes(component_rank(a), component_rank(b)),
    }
}

/// Compares two directories.
fn compare_parts(x: &Vec<Component>, y: &Vec<Component>) -> (r: Order)
    ensures
        r == parts_order(parts_of(x@), parts_of(y@)),
{
    let ghost p = parts_of(x@);
    let ghost q = parts_of(y@);
    let mut i: usize = 0;
    assert(p.skip(0) =~= p && q.skip(0) =~= q);
    while i < x.len() && i < y.len()
        invariant
            i <= x.len(),
            i <= y.len(),
            p == parts_of(x@),
            q == parts_of(y@),
            parts_order(p, q) == parts_order(p.skip(i as int), q.skip(i as int)),
        decreases x.len() - i,
    {
        let order = compare_components(&x[i], &y[i]);
        assert(p.skip(i as int)[0] == x@[i as int]@);
        assert(q.skip(i as int)[0] == y@[i as int]@);
        match order {
            Order::Equal => {},
            _ => {
                return order;
            },
        }
        assert(p.skip(i as int).skip(1) =~= p.skip(i + 1));
        assert(q.skip(i as int).skip(1) =~= q.skip(i + 1));
        i += 1;
    }
    compare_sizes(x.len() - i, y.len() - i)
}

/// Compares what may be two directories.
pub fn compare_parents(a: &Option<Vec<Component>>, b: &Option<Vec<Component>>) -> (r: Order)
    ensures
        r == parents_order(
            match a {
                Some(x) => Some(parts_of(x@)),
                None => None,
            },
            match b {
                Some(y) => Some(parts_of(y@)),
                None => None,
            },
        ),
{
    match (a, b) {
        (None, None) => Order::Equal,
        (None, Some(_)) => Order::Less,
        (Some(_), None) => Order::Greater,
        (Some(x), Some(y)) => compare_parts(x, y),
    }
}

/// A name in a directory, as a path.
pub open spec fn joined(parent: Seq<char>, name: Seq<char>) -> Seq<char> {
    if parent.len() == 0 {
        name
    } else {
        parent.push('/') + name
    }
}

/// Joins the path of a directory and a name in it.
pub fn join_git_path(parent: &str, name: &str) -> (r: String)
    ensures
        r@ == joined(parent@, name@),
{
    if parent.is_empty() {
        name.to_owned()
    } else {
        let mut path = parent.to_owned();
        path.push('/');
        path.append(name);
        path
    }
}

/// Texts stand equal only if they are the same.
pub proof fn equal_texts_are_the_same(a: Seq<char>, b: Seq<char>)
    ensures
        text_order(a, b) == Order::Equal <==> a == b,
    decreases a.len(),
{
    if a.len() > 0 && b.len() > 0 {
        equal_texts_are_the_same(a.skip(1), b.skip(1));
        if a[0] == b[0] && a.skip(1) == b.skip(1) {
            assert(a =~= seq![a[0]] + a.skip(1));
            assert(b =~= seq![b[0]] + b.skip(1));
        }
    } else if a.len() == b.len() {
        assert(a =~= b);
    }
}

/// Of two texts that are the same up to place `k`, the one with the lower character
/// there comes first, and so does one that ends there.
pub proof fn first_difference_orders_texts(a: Seq<char>, b: Seq<char>, k: int)
    requires
        0 <= k <= a.len(),
        k < b.len(),
        a.take(k) == b.take(k),
        k < a.len() ==> a[k] != b[k],
    ensures
        text_order(a, b) == Order::Less <==> k == a.len() || a[k] < b[k],
        text_order(a, b) == Order::Greater <==> k < a.len() && b[k] < a[k],
    decreases k,
{
    if k > 0 {
        assert(a.take(k)[0] == a[0] && b.take(k)[0] == b[0]);
        assert(a.skip(1).take(k - 1) =~= a.take(k).skip(1));
        assert(b.skip(1).take(k - 1) =~= b.take(k).skip(1));
        first_difference_orders_texts(a.skip(1), b.skip(1), k - 1);
    }
}

/// Parts stand equal only if they are the same.
pub proof fn equal_parts_are_the_same(a: Part, b: Part)
    ensures
        part_order(a, b) == Order::Equal <==> a == b,
{
    match (a, b) {
        (Part::Normal(x), Part::Normal(y)) => {
            equal_texts_are_the_same(x, y);
        },
        _ => {},
    }
}

/// The root comes before a dot, that before two dots, and those before any name.
pub proof fn kinds_order_parts(name: Seq<char>)
    ensures
        part_order(Part::RootDir, Part::CurDir) == Order::Less,
        part_order(Part::RootDir, Part::ParentDir) == Order::Less,
        part_order(Part::RootDir, Part::Normal(name)) == Order::Less,
        part_order(Part::CurDir, Part::ParentDir) == Order::Less,
        part_order(Part::CurDir, Part::Normal(name)) == Order::Less,
        part_order(Part::ParentDir, Part::Normal(name)) == Order::Less,
{
}

/// Names are ordered as texts are.
pub proof fn texts_order_names(a: Seq<char>, b: Seq<char>)
    ensures
        part_order(Part::Normal(a), Part::Normal(b)) == text_order(a, b),
{
}

/// Directories stand equal only if all of their parts are the same.
pub proof fn equal_directories_are_the_same(a: Seq<Part>, b: Seq<Part>)
    ensures
        parts_order(a, b) == Order::Equal <==> a == b,
    decreases a.len(),
{
    if a.len() > 0 && b.len() > 0 {
        equal_parts_are_the_same(a[0], b[0]);
        equal_directories_are_the_same(a.skip(1), b.skip(1));
        if a[0] == b[0] && a.skip(1) == b.skip(1) {
            assert(a =~= seq![a[0]] + a.skip(1));
            assert(b =~= seq![b[0]] + b.skip(1));
        }
    } else if a.len() == b.len() {
        assert(a =~= b);
    }
}

/// Two directories that are the same up to place `k` have the order of their parts
/// there, however they go on.
pub proof fn first_difference_orders_directories(a: Seq<Part>, b: Seq<Part>, k: int)
    requires
        0 <= k < a.len(),
        k < b.len(),
        a.take(k) == b.take(k),
        a[k] != b[k],
    ensures
        parts_order(a, b) == part_order(a[k], b[k]),
        parts_order(a, b) != Order::Equal,
    decreases k,
{
    equal_parts_are_the_same(a[0], b[0]);
    if k > 0 {
        assert(a.take(k)[0] == a[0] && b.take(k)[0] == b[0]);
        assert(a.skip(1).take(k - 1) =~= a.take(k).skip(1));
        assert(b.skip(1).take(k - 1) =~= b.take(k).skip(1));
        first_difference_orders_directories(a.skip(1), b.skip(1), k - 1);
    }
}

/// A directory comes before all that it contains.
pub proof fn directories_come_before_their_contents(a: Seq<Part>, below: Seq<Part>)
    requires
        below.len() > 0,
    ensures
        parts_order(a, a + below) == Order::Less,
    decreases a.len(),
{
    if a.len() > 0 {
        equal_parts_are_the_same(a[0], a[0]);
        assert((a + below).skip(1) =~= a.skip(1) + below);
        directories_come_before_their_contents(a.skip(1), below);
    }
}

/// What stands in no directory comes before what stands in one, and what may be
/// directories stands equal only if it is the same.
pub proof fn equal_parents_are_the_same(a: Option<Seq<Part>>, b: Option<Seq<Part>>)
    ensures
        parents_order(a, b) == Order::Equal <==> a == b,
        a is None && b is Some ==> parents_order(a, b) == Order::Less,
        a is Some && b is Some ==> parents_order(a, b) == parts_order(a->0, b->0),
{
    match (a, b) {
        (Some(x), Some(y)) => {
            equal_directories_are_the_same(x, y);
        },
        _ => {},
    }
}

/// Text without a slash.
pub open spec fn is_piece(text: Seq<char>) -> bool {
    forall|i: int| 0 <= i < text.len() ==> text[i] != '/'
}

/// The name of a file or a directory: text without a slash that is neither empty nor
/// one or two dots.
pub open spec fn is_name(text: Seq<char>) -> bool {
    &&& is_piece(text)
    &&& text.len() > 0
    &&& text != seq!['.']
    &&& text != seq!['.', '.']
}

/// What a piece behind the start of a path adds to its parts.
pub open spec fn added_parts(piece: Seq<char>) -> Seq<Part> {
    if piece.len() == 0 || piece == seq!['.'] {
        Seq::empty()
    } else if piece == seq!['.', '.'] {
        seq![Part::ParentDir]
    } else {
        seq![Part::Normal(piece)]
    }
}

/// A path without a slash has no part if it is empty, and else the one that it stands
/// for.
pub proof fn single_piece_is_a_part(piece: Seq<char>)
    requires
        is_piece(piece),
    ensures
        parts(piece) == if piece == seq!['.'] {
            seq![Part::CurDir]
        } else {
            added_parts(piece)
        },
{
    next_slash_passes(piece, 0, piece.len() as int);
    assert(piece.subrange(0, piece.len() as int) =~= piece);
    assert(parts(piece) =~= parts_from(piece, 0));
    if piece.len() == 0 {
        assert(piece != seq!['.']) by {
            assert(seq!['.'].len() == 1);
        }
    }
    assert(seq!['.'].len() == 1 && seq!['.', '.'].len() == 2);
}

/// The parts from a place on, where a slash and a piece follow the path.
proof fn one_more_piece_from(path: Seq<char>, piece: Seq<char>, from: int)
    requires
        is_piece(piece),
        0 <= from <= path.len(),
    ensures
        parts_from(path.push('/') + piece, from) == parts_from(path, from) + piece_parts(
            piece,
            false,
        ),
    decreases path.len() - from,
{
    let longer = path.push('/') + piece;
    slash_is_found(path, from);
    let to = next_slash(path, from);
    next_slash_passes(longer, from, to);
    assert(longer.subrange(from, to) =~= path.subrange(from, to));
    if to < path.len() {
        one_more_piece_from(path, piece, to + 1);
        let here = piece_parts(path.subrange(from, to), from == 0);
        assert(here + (parts_from(path, to + 1) + piece_parts(piece, false)) =~= (here
            + parts_from(path, to + 1)) + piece_parts(piece, false));
    } else {
        next_slash_passes(longer, to + 1, longer.len() as int);
        assert(longer.subrange(to + 1, longer.len() as int) =~= piece);
        assert(parts_from(longer, to + 1) == piece_parts(piece, false));
    }
}

/// There is no slash before the first one.
proof fn slash_is_found(path: Seq<char>, from: int)
    requires
        0 <= from <= path.len(),
    ensures
        from <= next_slash(path, from) <= path.len(),
        forall|i: int| from <= i < next_slash(path, from) ==> path[i] != '/',
        next_slash(path, from) < path.len() ==> path[next_slash(path, from)] == '/',
    decreases path.len() - from,
{
    if from < path.len() && path[from] != '/' {
        slash_is_found(path, from + 1);
    }
}

/// A slash and a piece behind a path leave its parts as they are and add the part that
/// the piece stands for. Behind nothing the slash is the root.
pub proof fn one_more_piece(path: Seq<char>, piece: Seq<char>)
    requires
        is_piece(piece),
    ensures
        parts(path.push('/') + piece) == (if path.len() == 0 {
            seq![Part::RootDir]
        } else {
            parts(path)
        }) + added_parts(piece),
{
    let longer = path.push('/') + piece;
    one_more_piece_from(path, piece, 0);
    assert(piece_parts(piece, false) =~= added_parts(piece)) by {
        assert(seq!['.'].len() == 1 && seq!['.', '.'].len() == 2);
    }
    if path.len() == 0 {
        next_slash_passes(path, 0, 0);
        assert(path.subrange(0, 0).len() == 0);
        assert(parts_from(path, 0) =~= Seq::<Part>::empty());
        assert(longer[0] == '/');
        assert(parts(longer) =~= seq![Part::RootDir] + added_parts(piece));
    } else {
        assert(longer[0] == path[0]);
        assert(parts(longer) =~= parts(path) + added_parts(piece));
    }
}

/// A name in a directory is the last part of the path that joins them, and the
/// directory is the parent.
pub proof fn joined_paths_come_apart(directory: Seq<char>, name: Seq<char>)
    requires
        is_name(name),
    ensures
        parts(joined(directory, name)) == parts(directory).push(Part::Normal(name)),
        spec_file_name(joined(directory, name)) == Some(name),
        spec_parent(joined(directory, name)) == Some(parts(directory)),
{
    let path = joined(directory, name);
    if directory.len() == 0 {
        single_piece_is_a_part(directory);
        single_piece_is_a_part(name);
    } else {
        one_more_piece(directory, name);
    }
    assert(parts(path) =~= parts(directory).push(Part::Normal(name)));
    assert(parts(path).drop_last() =~= parts(directory));
}

/// The parent of a path together with its last part is the path; only the root and a
/// path without parts have no parent.
pub proof fn parent_and_last_part_make_the_path(path: Seq<char>)
    ensures
        spec_parent(path) is None <==> parts(path).len() == 0 || parts(path).last()
            == Part::RootDir,
        spec_parent(path) matches Some(directory) ==> parts(path) == directory.push(
            parts(path).last(),
        ),
        spec_file_name(path) matches Some(name) ==> parts(path).len() > 0 && parts(path).last()
            == Part::Normal(name),
        parts(path).len() > 0 && parts(path).last() is Normal ==> spec_file_name(path) == Some(
            parts(path).last()->Normal_0,
        ),
{
    if parts(path).len() > 0 {
        assert(parts(path) =~= parts(path).drop_last().push(parts(path).last()));
    }
}

} // verus!
