//! The order of paths.

use vstd::prelude::*;

verus! {

/// One part of a path.
#[derive(Debug, PartialEq, Eq)]
pub enum PathPart {
    /// The root directory.
    Root,
    /// The current directory.
    Current,
    /// The parent directory.
    Parent,
    /// A name, in bytes.
    Name(Vec<u8>),
}

impl PathPart {
    /// The place of the part among the kinds of parts.
    pub open spec fn rank(self) -> int {
        match self {
            PathPart::Root => 0,
            PathPart::Current => 1,
            PathPart::Parent => 2,
            PathPart::Name(_) => 3,
        }
    }

    /// The bytes of a name.
    pub open spec fn name(self) -> Seq<u8> {
        match self {
            PathPart::Name(name) => name@,
            _ => Seq::empty(),
        }
    }

    /// Whether two parts are the same.
    pub open spec fn same(self, other: PathPart) -> bool {
        self.rank() == other.rank() && self.name() == other.name()
    }

    /// Whether a part comes before another: by its kind, names by their bytes.
    pub open spec fn before(self, other: PathPart) -> bool {
        self.rank() < other.rank() || (self.rank() == other.rank() && bytes_before(
            self.name(),
            other.name(),
        ))
    }
}

/// Whether some bytes come before others: by the first byte that differs, else the shorter first.
pub open spec fn bytes_before(left: Seq<u8>, right: Seq<u8>) -> bool
    decreases left.len(),
{
    if right.len() == 0 {
        false
    } else if left.len() == 0 {
        true
    } else if left[0] != right[0] {
        left[0] < right[0]
    } else {
        bytes_before(left.skip(1), right.skip(1))
    }
}

/// Whether two paths are the same, part by part.
pub open spec fn path_same(left: Seq<PathPart>, right: Seq<PathPart>) -> bool
    decreases left.len(),
{
    if left.len() == 0 || right.len() == 0 {
        left.len() == right.len()
    } else {
        left[0].same(right[0]) && path_same(left.skip(1), right.skip(1))
    }
}

/// Whether a path comes before another: by the first part that differs, else the shorter first.
pub open spec fn path_before(left: Seq<PathPart>, right: Seq<PathPart>) -> bool
    decreases left.len(),
{
    if right.len() == 0 {
        false
    } else if left.len() == 0 {
        true
    } else if !left[0].same(right[0]) {
        left[0].before(right[0])
    } else {
        path_before(left.skip(1), right.skip(1))
    }
}

proof fn lemma_bytes_order(a: Seq<u8>, b: Seq<u8>, c: Seq<u8>)
    ensures
        !bytes_before(a, a),
        bytes_before(a, b) && bytes_before(b, c) ==> bytes_before(a, c),
        bytes_before(a, b) || bytes_before(b, a) || a == b,
        !(bytes_before(a, b) && bytes_before(b, a)),
    decreases a.len() + b.len() + c.len(),
{
    if a.len() > 0 {
        lemma_bytes_order(a.skip(1), if b.len() > 0 {
            b.skip(1)
        } else {
            b
        }, if c.len() > 0 {
            c.skip(1)
        } else {
            c
        });
        if b.len() > 0 && a[0] == b[0] && a.skip(1) == b.skip(1) {
            assert(a =~= seq![a[0]] + a.skip(1));
            assert(b =~= seq![b[0]] + b.skip(1));
        }
    } else if b.len() == 0 {
        assert(a =~= b);
    }
}

proof fn lemma_part_order(a: PathPart, b: PathPart, c: PathPart)
    ensures
        !a.before(a),
        a.before(b) && b.before(c) ==> a.before(c),
        a.before(b) || b.before(a) || a.same(b),
        !(a.before(b) && b.before(a)),
        !(a.before(b) && a.same(b)),
{
    lemma_bytes_order(a.name(), b.name(), c.name());
}

/// The order of paths is total: of two paths that are not the same exactly one comes before the
/// other, and what comes before an earlier path comes before a later one.
pub proof fn law_path_order(a: Seq<PathPart>, b: Seq<PathPart>, c: Seq<PathPart>)
    ensures
        !path_before(a, a),
        path_before(a, b) && path_before(b, c) ==> path_before(a, c),
        path_before(a, b) || path_before(b, a) || path_same(a, b),
        !(path_before(a, b) && path_before(b, a)),
        path_same(a, b) ==> !path_before(a, b) && path_same(b, a),
        path_same(a, b) && path_before(b, c) ==> path_before(a, c),
        path_before(a, b) && path_same(b, c) ==> path_before(a, c),
        path_same(a, b) && path_same(b, c) ==> path_same(a, c),
        path_same(a, a),
    decreases a.len() + b.len() + c.len(),
{
    if a.len() > 0 {
        law_path_order(a.skip(1), if b.len() > 0 {
            b.skip(1)
        } else {
            b
        }, if c.len() > 0 {
            c.skip(1)
        } else {
            c
        });
        if b.len() > 0 && c.len() > 0 {
            lemma_part_order(a[0], b[0], c[0]);
            lemma_part_order(b[0], c[0], a[0]);
            lemma_part_order(a[0], c[0], b[0]);
        } else if b.len() > 0 {
            lemma_part_order(a[0], b[0], b[0]);
        }
    }
}

/// Bytes come before others exactly if the first byte that differs is smaller, or if all are the same
/// as far as the first reach and the others are longer.
pub proof fn law_bytes_order(left: Seq<u8>, right: Seq<u8>)
    ensures
        bytes_before(left, right) == exists|k: int| #[trigger] bytes_differ_at(left, right, k),
    decreases left.len(),
{
    if left.len() > 0 && right.len() > 0 && left[0] == right[0] {
        let rest = left.skip(1);
        let other = right.skip(1);
        law_bytes_order(rest, other);
        if bytes_before(rest, other) {
            let k = choose|k: int| #[trigger] bytes_differ_at(rest, other, k);
            assert forall|i: int| 0 <= i < k + 1 implies #[trigger] left[i] == right[i] by {
                if i > 0 {
                    assert(rest[i - 1] == other[i - 1]);
                }
            }
            assert(bytes_differ_at(left, right, k + 1));
        }
        if exists|k: int| #[trigger] bytes_differ_at(left, right, k) {
            let k = choose|k: int| #[trigger] bytes_differ_at(left, right, k);
            assert(k > 0);
            assert forall|i: int| 0 <= i < k - 1 implies #[trigger] rest[i] == other[i] by {
                assert(left[i + 1] == right[i + 1]);
            }
            assert(bytes_differ_at(rest, other, k - 1));
        }
    } else {
        if bytes_before(left, right) {
            assert(bytes_differ_at(left, right, 0));
        }
        if exists|k: int| #[trigger] bytes_differ_at(left, right, k) {
            let k = choose|k: int| #[trigger] bytes_differ_at(left, right, k);
            if k > 0 {
                assert(left[0] == right[0]);
            }
        }
    }
}

/// Whether bytes are the same up to place `k`, where the left ones end or have the smaller byte.
pub open spec fn bytes_differ_at(left: Seq<u8>, right: Seq<u8>, k: int) -> bool {
    &&& 0 <= k <= left.len()
    &&& k < right.len()
    &&& forall|i: int| 0 <= i < k ==> #[trigger] left[i] == right[i]
    &&& k == left.len() || left[k] < right[k]
}

/// Parts of paths are the same if they are of one kind and have the same name; the root comes before
/// the current directory, that before the parent directory, that before every name, and of two names
/// the one whose bytes do.
pub proof fn law_parts_order(left: Vec<u8>, right: Vec<u8>)
    ensures
        PathPart::Root.before(PathPart::Current),
        PathPart::Current.before(PathPart::Parent),
        PathPart::Parent.before(PathPart::Name(left)),
        PathPart::Name(left).before(PathPart::Name(right)) == bytes_before(left@, right@),
        PathPart::Name(left).same(PathPart::Name(right)) == (left@ == right@),
        PathPart::Root.same(PathPart::Root),
        PathPart::Current.same(PathPart::Current),
        PathPart::Parent.same(PathPart::Parent),
{
}

/// The order of parts is total: of two parts that are not the same exactly one comes before the
/// other.
pub proof fn law_parts_total(a: PathPart, b: PathPart, c: PathPart)
    ensures
        !a.before(a),
        a.before(b) && b.before(c) ==> a.before(c),
        a.before(b) || b.before(a) || a.same(b),
        !(a.before(b) && b.before(a)),
        !(a.before(b) && a.same(b)),
{
    lemma_part_order(a, b, c);
}

/// Whether paths are the same up to part `k`, where the left one ends or has the earlier part.
pub open spec fn paths_differ_at(left: Seq<PathPart>, right: Seq<PathPart>, k: int) -> bool {
    &&& 0 <= k <= left.len()
    &&& k < right.len()
    &&& forall|i: int| 0 <= i < k ==> (#[trigger] left[i]).same(right[i])
    &&& k == left.len() || left[k].before(right[k])
}

/// A path comes before another exactly if the first part that differs does, or if all are the same as
/// far as the first path reaches and the other is longer; paths are the same if they are part by part.
pub proof fn law_paths_order(left: Seq<PathPart>, right: Seq<PathPart>)
    ensures
        path_before(left, right) == exists|k: int| #[trigger] paths_differ_at(left, right, k),
        path_same(left, right) == (left.len() == right.len() && forall|i: int|
            0 <= i < left.len() ==> (#[trigger] left[i]).same(right[i])),
    decreases left.len(),
{
    if left.len() > 0 && right.len() > 0 && left[0].same(right[0]) {
        let rest = left.skip(1);
        let other = right.skip(1);
        lemma_part_order(left[0], right[0], right[0]);
        law_paths_order(rest, other);
        if path_before(rest, other) {
            let k = choose|k: int| #[trigger] paths_differ_at(rest, other, k);
            assert forall|i: int| 0 <= i < k + 1 implies (#[trigger] left[i]).same(right[i]) by {
                if i > 0 {
                    assert(rest[i - 1].same(other[i - 1]));
                }
            }
            assert(paths_differ_at(left, right, k + 1));
        }
        if exists|k: int| #[trigger] paths_differ_at(left, right, k) {
            let k = choose|k: int| #[trigger] paths_differ_at(left, right, k);
            assert(k > 0);
            assert forall|i: int| 0 <= i < k - 1 implies (#[trigger] rest[i]).same(other[i]) by {
                assert(left[i + 1].same(right[i + 1]));
            }
            assert(paths_differ_at(rest, other, k - 1));
        }
        if path_same(rest, other) {
            assert forall|i: int| 0 <= i < left.len() implies (#[trigger] left[i]).same(
                right[i],
            ) by {
                if i > 0 {
                    assert(rest[i - 1].same(other[i - 1]));
                }
            }
        } else if left.len() == right.len() {
            let i = choose|i: int| 0 <= i < rest.len() && !(#[trigger] rest[i]).same(other[i]);
            assert(!left[i + 1].same(right[i + 1]));
        }
    } else {
        if path_before(left, right) {
            assert(paths_differ_at(left, right, 0));
        }
        if exists|k: int| #[trigger] paths_differ_at(left, right, k) {
            let k = choose|k: int| #[trigger] paths_differ_at(left, right, k);
            if k > 0 {
                assert(left[0].same(right[0]));
            }
        }
    }
}

/// How one value stands to another.
#[derive(Debug, Clone, Copy, PartialEq, Eq, Structural)]
pub enum Relation {
    Before,
    Same,
    After,
}

/// How some bytes stand to others.
fn relate_bytes(left: &Vec<u8>, right: &Vec<u8>) -> (relation: Relation)
    ensures
        relation is Before == bytes_before(left@, right@),
        relation is Same == (left@ == right@),
{
    let mut at: usize = 0;
    proof {
        assert(left@.skip(0) =~= left@);
        assert(right@.skip(0) =~= right@);
    }
    while at < left.len() && at < right.len()
        invariant
            at <= left@.len(),
            at <= right@.len(),
            bytes_before(left@, right@) == bytes_before(
                left@.skip(at as int),
                right@.skip(at as int),
            ),
            forall|i: int| 0 <= i < at ==> left@[i] == right@[i],
        decreases left@.len() - at,
    {
        if left[at] < right[at] {
            return Relation::Before;
        }
        if left[at] > right[at] {
            return Relation::After;
        }
        proof {
            assert(left@.skip(at as int).skip(1) =~= left@.skip(at + 1));
            assert(right@.skip(at as int).skip(1) =~= right@.skip(at + 1));
        }
        at += 1;
    }
    if at < right.len() {
        Relation::Before
    } else if at < left.len() {
        Relation::After
    } else {
        proof {
            assert(left@ =~= right@);
        }
        Relation::Same
    }
}

/// The place of a part among the kinds of parts.
fn part_rank(part: &PathPart) -> (rank: u8)
    ensures
        rank == part.rank(),
{
    match part {
        PathPart::Root => 0,
        PathPart::Current => 1,
        PathPart::Parent => 2,
        PathPart::Name(_) => 3,
    }
}

/// How a part of a path stands to another.
fn relate_parts(left: &PathPart, right: &PathPart) -> (relation: Relation)
    ensures
        relation is Before == left.before(*right),
        relation is Same == left.same(*right),
{
    let a: u8 = part_rank(left);
    let b: u8 = part_rank(right);
    if a < b {
        return Relation::Before;
    }
    if a > b {
        return Relation::After;
    }
    match (left, right) {
        (PathPart::Name(left), PathPart::Name(right)) => relate_bytes(left, right),
        _ => {
            proof {
                assert(left.name() =~= Seq::<u8>::empty());
                assert(right.name() =~= Seq::<u8>::empty());
            }
            Relation::Same
        },
    }
}

/// How a path stands to another.
pub fn relate_paths(left: &Vec<PathPart>, right: &Vec<PathPart>) -> (relation: Relation)
    ensures
        relation is Before == path_before(left@, right@),
        relation is Same == path_same(left@, right@),
{
    let mut at: usize = 0;
    proof {
        assert(left@.skip(0) =~= left@);
        assert(right@.skip(0) =~= right@);
    }
    while at < left.len() && at < right.len()
        invariant
            at <= left@.len(),
            at <= right@.len(),
            path_before(left@, right@) == path_before(left@.skip(at as int), right@.skip(at as int)),
            path_same(left@, right@) == path_same(left@.skip(at as int), right@.skip(at as int)),
        decreases left@.len() - at,
    {
        proof {
            assert(left@.skip(at as int).skip(1) =~= left@.skip(at + 1));
            assert(right@.skip(at as int).skip(1) =~= right@.skip(at + 1));
        }
        match relate_parts(&left[at], &right[at]) {
            Relation::Before => {
                proof {
                    lemma_part_order(left@[at as int], right@[at as int], right@[at as int]);
                }
                return Relation::Before;
            },
            Relation::After => {
                return Relation::After;
            },
            Relation::Same => {},
        }
        at += 1;
    }
    if at < right.len() {
        Relation::Before
    } else if at < left.len() {
        Relation::After
    } else {
        Relation::Same
    }
}

/// Whether a list of numbers puts some paths in order: each path of the list comes before the next,
/// and of every path there is one in the list that is the same, the first of those.
pub open spec fn in_order(paths: Seq<Vec<PathPart>>, list: Seq<usize>) -> bool {
    &&& forall|i: int| 0 <= i < list.len() ==> (#[trigger] list[i]) < paths.len()
    &&& forall|i: int, k: int|
        0 <= i < k < list.len() ==> path_before(
            paths[(#[trigger] list[i]) as int]@,
            paths[(#[trigger] list[k]) as int]@,
        )
    &&& forall|n: int| 0 <= n < paths.len() ==> #[trigger] stands_for(paths, list, n)
}

/// Whether a list holds the number of the first path that is the same as path `n`.
pub open spec fn stands_for(paths: Seq<Vec<PathPart>>, list: Seq<usize>, n: int) -> bool {
    exists|i: int|
        0 <= i < list.len() && (#[trigger] list[i]) <= n && path_same(
            paths[list[i] as int]@,
            paths[n]@,
        )
}

/// The place of a path in an ordered list: the number of paths in the list that come before it.
fn find_place(paths: &Vec<Vec<PathPart>>, list: &Vec<usize>, path: usize) -> (place: usize)
    requires
        path < paths@.len(),
        in_order(paths@.take(path as int), list@),
    ensures
        place <= list@.len(),
        forall|i: int|
            0 <= i < place ==> path_before(paths@[(#[trigger] list@[i]) as int]@, paths@[path as int]@),
        place < list@.len() ==> !path_before(
            paths@[list@[place as int] as int]@,
            paths@[path as int]@,
        ),
{
    let mut place: usize = 0;
    while place < list.len()
        invariant
            place <= list@.len(),
            path < paths@.len(),
            in_order(paths@.take(path as int), list@),
            forall|i: int|
                0 <= i < place ==> path_before(
                    paths@[(#[trigger] list@[i]) as int]@,
                    paths@[path as int]@,
                ),
        decreases list@.len() - place,
    {
        let other: usize = list[place];
        match relate_paths(&paths[other], &paths[path]) {
            Relation::Before => {},
            _ => {
                return place;
            },
        }
        place += 1;
    }
    place
}

/// A path that is the same as one in the list adds nothing.
proof fn lemma_repeated(paths: Seq<Vec<PathPart>>, list: Seq<usize>, path: int, place: int)
    requires
        0 <= path < paths.len(),
        in_order(paths.take(path), list),
        0 <= place < list.len(),
        path_same(paths[list[place] as int]@, paths[path]@),
    ensures
        in_order(paths.take(path + 1), list),
{
    let old = paths.take(path);
    let new = paths.take(path + 1);
    assert forall|i: int, k: int| 0 <= i < k < list.len() implies path_before(
        new[(#[trigger] list[i]) as int]@,
        new[(#[trigger] list[k]) as int]@,
    ) by {
        assert(path_before(old[list[i] as int]@, old[list[k] as int]@));
    }
    assert forall|n: int| 0 <= n < new.len() implies #[trigger] stands_for(new, list, n) by {
        if n < path {
            assert(stands_for(old, list, n));
            let i = choose|i: int|
                0 <= i < list.len() && (#[trigger] list[i]) <= n && path_same(
                    old[list[i] as int]@,
                    old[n]@,
                );
            assert(list[i] <= n && path_same(new[list[i] as int]@, new[n]@));
        } else {
            assert(list[place] <= n && path_same(new[list[place] as int]@, new[n]@));
        }
    }
}

/// A new path goes behind the paths that come before it.
proof fn lemma_inserted(paths: Seq<Vec<PathPart>>, list: Seq<usize>, path: int, place: int)
    requires
        0 <= path < paths.len() <= usize::MAX,
        in_order(paths.take(path), list),
        0 <= place <= list.len(),
        forall|i: int|
            0 <= i < place ==> path_before(paths[(#[trigger] list[i]) as int]@, paths[path]@),
        place < list.len() ==> path_before(paths[path]@, paths[list[place] as int]@),
    ensures
        in_order(paths.take(path + 1), list.insert(place, path as usize)),
{
    let old = paths.take(path);
    let new = paths.take(path + 1);
    let longer = list.insert(place, path as usize);
    assert forall|i: int| 0 <= i < longer.len() implies (#[trigger] longer[i]) < new.len() by {
        if i < place {
            assert(longer[i] == list[i]);
        } else if i > place {
            assert(longer[i] == list[i - 1]);
        }
    }
    assert forall|i: int, k: int| 0 <= i < k < longer.len() implies path_before(
        new[(#[trigger] longer[i]) as int]@,
        new[(#[trigger] longer[k]) as int]@,
    ) by {
        let a = if i < place {
            i
        } else {
            i - 1
        };
        let b = if k < place {
            k
        } else {
            k - 1
        };
        if i != place && k != place {
            assert(longer[i] == list[a]);
            assert(longer[k] == list[b]);
            assert(path_before(old[list[a] as int]@, old[list[b] as int]@));
        } else if k == place {
            assert(longer[i] == list[i]);
        } else {
            assert(longer[k] == list[b]);
            if b > place {
                assert(path_before(old[list[place] as int]@, old[list[b] as int]@));
                law_path_order(
                    paths[path]@,
                    paths[list[place] as int]@,
                    paths[list[b] as int]@,
                );
            }
        }
    }
    assert forall|n: int| 0 <= n < new.len() implies #[trigger] stands_for(new, longer, n) by {
        if n < path {
            assert(stands_for(old, list, n));
            let i = choose|i: int|
                0 <= i < list.len() && (#[trigger] list[i]) <= n && path_same(
                    old[list[i] as int]@,
                    old[n]@,
                );
            let at = if i < place {
                i
            } else {
                i + 1
            };
            assert(longer[at] == list[i]);
            assert(longer[at] <= n && path_same(new[longer[at] as int]@, new[n]@));
        } else {
            law_path_order(paths[path]@, paths[path]@, paths[path]@);
            assert(longer[place] <= n && path_same(new[longer[place] as int]@, new[n]@));
        }
    }
}

/// Puts paths in order and drops those that are the same as an earlier one.
pub fn order_paths(paths: &Vec<Vec<PathPart>>) -> (list: Vec<usize>)
    ensures
        in_order(paths@, list@),
{
    let mut list: Vec<usize> = Vec::new();
    let mut path: usize = 0;
    while path < paths.len()
        invariant
            path <= paths@.len(),
            in_order(paths@.take(path as int), list@),
        decreases paths@.len() - path,
    {
        let place: usize = find_place(paths, &list, path);
        let mut repeated: bool = false;
        if place < list.len() {
            let other: usize = list[place];
            proof {
                law_path_order(paths@[other as int]@, paths@[path as int]@, paths@[path as int]@);
            }
            match relate_paths(&paths[other], &paths[path]) {
                Relation::Same => {
                    repeated = true;
                },
                _ => {},
            }
        }
        if repeated {
            proof {
                lemma_repeated(paths@, list@, path as int, place as int);
            }
        } else {
            proof {
                assert(paths@.len() == paths.len());
                lemma_inserted(paths@, list@, path as int, place as int);
            }
            list.insert(place, path);
        }
        path += 1;
    }
    proof {
        assert(paths@.take(path as int) =~= paths@);
    }
    list
}

/// Paths have only one order: two lists that put them in order are the same.
pub proof fn law_order_unique(paths: Seq<Vec<PathPart>>, left: Seq<usize>, right: Seq<usize>)
    requires
        in_order(paths, left),
        in_order(paths, right),
    ensures
        left == right,
{
    lemma_order_agrees(paths, left, right, left.len() as int);
    lemma_order_agrees(paths, right, left, right.len() as int);
    assert(left =~= right);
}

proof fn lemma_order_agrees(
    paths: Seq<Vec<PathPart>>,
    left: Seq<usize>,
    right: Seq<usize>,
    count: int,
)
    requires
        in_order(paths, left),
        in_order(paths, right),
        0 <= count <= left.len(),
    ensures
        count <= right.len(),
        forall|i: int| 0 <= i < count ==> #[trigger] left[i] == right[i],
    decreases count,
{
    if count > 0 {
        let k = count - 1;
        lemma_order_agrees(paths, left, right, k);
        let n = left[k] as int;
        assert(stands_for(paths, right, n));
        let j = choose|j: int|
            0 <= j < right.len() && (#[trigger] right[j]) <= n && path_same(
                paths[right[j] as int]@,
                paths[n]@,
            );
        if j < k {
            assert(left[j] == right[j]);
            law_path_order(paths[right[j] as int]@, paths[n]@, paths[n]@);
        }
        let m = right[k] as int;
        assert(stands_for(paths, left, m));
        let i = choose|i: int|
            0 <= i < left.len() && (#[trigger] left[i]) <= m && path_same(
                paths[left[i] as int]@,
                paths[m]@,
            );
        law_path_order(paths[left[i] as int]@, paths[m]@, paths[n]@);
        law_path_order(paths[m]@, paths[right[j] as int]@, paths[n]@);
        law_path_order(paths[n]@, paths[left[i] as int]@, paths[n]@);
        if i < k {
            assert(left[i] == right[i]);
        }
        assert(i == k);
        assert(j == k);
    }
}

} // verus!
