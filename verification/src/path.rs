//! Paths of files, as text whose names `/` separates: how a relative path is
//! read in a directory, and the order of paths, which goes by components.

use vstd::prelude::*;
use vstd::string::*;
use vstd::utf8::*;

use crate::bytes;
use crate::bytes::{comes_before, same_bytes};
use crate::pieces;
use crate::text;

verus! {

/// A component of a path.
#[derive(Debug)]
pub enum PathPart {
    /// The root, in front of an absolute path.
    Root,
    /// `.`, in front of a relative path.
    Current,
    /// `..`.
    Parent,
    /// A name.
    Normal(Vec<u8>),
}

/// View of `PathPart`.
pub enum PartView {
    Root,
    Current,
    Parent,
    Normal(Seq<u8>),
}

impl View for PathPart {
    type V = PartView;

    open spec fn view(&self) -> PartView {
        match *self {
            PathPart::Root => PartView::Root,
            PathPart::Current => PartView::Current,
            PathPart::Parent => PartView::Parent,
            PathPart::Normal(name) => PartView::Normal(name@),
        }
    }
}

/// Where the name that starts at `i` ends.
pub open spec fn name_end(b: Seq<u8>, i: int) -> int
    decreases b.len() - i,
{
    if i >= b.len() || b[i] == 0x2f {
        i
    } else {
        name_end(b, i + 1)
    }
}

/// The component that `name` is, in front of a path or behind a separator.
/// Repeated separators and a `.` behind a separator are no component.
pub open spec fn part_of(name: Seq<u8>, in_front: bool) -> Option<PartView> {
    if name.len() == 0 {
        if in_front {
            Some(PartView::Root)
        } else {
            None
        }
    } else if name == seq![0x2eu8] {
        if in_front {
            Some(PartView::Current)
        } else {
            None
        }
    } else if name == seq![0x2eu8, 0x2eu8] {
        Some(PartView::Parent)
    } else {
        Some(PartView::Normal(name))
    }
}

/// Components of the path `b` from the name that starts at `i`.
pub open spec fn parts_from(b: Seq<u8>, i: int) -> Seq<PartView>
    decreases b.len() + 1 - i,
{
    if i >= b.len() {
        Seq::empty()
    } else {
        proof {
            lemma_name_end(b, i);
        }
        let end = name_end(b, i);
        let rest = parts_from(b, end + 1);
        match part_of(b.subrange(i, end), i == 0) {
            Some(part) => seq![part] + rest,
            None => rest,
        }
    }
}

/// A name ends within the path.
pub proof fn lemma_name_end(b: Seq<u8>, i: int)
    requires
        i <= b.len(),
    ensures
        i <= name_end(b, i) <= b.len(),
    decreases b.len() - i,
{
    if i < b.len() && b[i] != 0x2f {
        lemma_name_end(b, i + 1);
    }
}

/// Components of a path.
pub open spec fn components(path: Seq<char>) -> Seq<PartView> {
    parts_from(encode_utf8(path), 0)
}

/// Views of components.
pub open spec fn part_views(parts: Seq<PathPart>) -> Seq<PartView> {
    parts.map_values(|part: PathPart| part@)
}

impl PartView {
    /// Place of the kind of component in the order.
    pub open spec fn rank(self) -> int {
        match self {
            PartView::Root => 0,
            PartView::Current => 1,
            PartView::Parent => 2,
            PartView::Normal(_) => 3,
        }
    }

    /// The component comes before `other`: by kind, and names by their bytes.
    pub open spec fn precedes(self, other: PartView) -> bool {
        ||| self.rank() < other.rank()
        ||| self is Normal && other is Normal && bytes::precedes(self->Normal_0, other->Normal_0)
    }
}

/// The path with components `a` comes before that with components `b`.
pub open spec fn ahead(a: Seq<PartView>, b: Seq<PartView>) -> bool
    decreases a.len(),
{
    if b.len() == 0 {
        false
    } else if a.len() == 0 {
        true
    } else if a[0] != b[0] {
        a[0].precedes(b[0])
    } else {
        ahead(a.drop_first(), b.drop_first())
    }
}

/// `path` starts at the root.
pub open spec fn rooted(path: Seq<char>) -> bool {
    path.len() > 0 && path[0] == '/'
}

/// `path` behind the directory `dir`.
pub open spec fn joined(dir: Seq<char>, path: Seq<char>) -> Seq<char> {
    if dir.len() == 0 || dir.last() == '/' {
        dir + path
    } else {
        dir + "/"@ + path
    }
}

/// The file that `path` names in a document of the directory `base`. An
/// absolute path is left alone.
pub open spec fn located(base: Option<Seq<char>>, path: Seq<char>, absolute: bool) -> Seq<char> {
    match base {
        Some(dir) => if absolute {
            path
        } else {
            joined(dir, path)
        },
        None => path,
    }
}

/// The text of an optional directory.
pub open spec fn dir_text(base: Option<&str>) -> Option<Seq<char>> {
    match base {
        Some(dir) => Some(dir@),
        None => None,
    }
}

proof fn lemma_slash(c: char)
    ensures
        encode_utf8(seq![c]).len() > 0,
        encode_utf8(seq![c])[0] == 0x2f <==> c == '/',
        encode_utf8(seq![c]).last() == 0x2f <==> c == '/',
{
    encode_utf8_first_scalar(seq![c]);
    assert(seq![c].drop_first() =~= Seq::<char>::empty());
    text::lemma_encode_empty(seq![c].drop_first());
    let b = encode_utf8(seq![c]);
    assert(b =~= encode_scalar(c as u32));
    if b.len() == 1 {
        pieces::lemma_one_ascii(c);
    } else {
        assert(is_continuation_byte(b.last()));
        assert(b[0] != 0x2f);
    }
}

/// Whether `path` starts at the root.
pub fn is_absolute(path: &str) -> (yes: bool)
    ensures
        yes == rooted(path@),
{
    let b = path.as_bytes();
    proof {
        text::lemma_encode_empty(path@);
        if path@.len() > 0 {
            lemma_slash(path@[0]);
            text::lemma_encode_concat(seq![path@[0]], path@.drop_first());
            assert(seq![path@[0]] + path@.drop_first() =~= path@);
        }
    }
    b.len() > 0 && b[0] == 0x2f
}

/// `path` behind the directory `dir`.
pub fn join(dir: &str, path: &str) -> (whole: String)
    ensures
        whole@ == joined(dir@, path@),
{
    let b = dir.as_bytes();
    proof {
        text::lemma_encode_empty(dir@);
        if dir@.len() > 0 {
            lemma_slash(dir@.last());
            text::lemma_encode_concat(dir@.drop_last(), seq![dir@.last()]);
            assert(dir@.drop_last() + seq![dir@.last()] =~= dir@);
        }
    }
    let mut whole = text::own(dir);
    if b.len() > 0 && b[b.len() - 1] != 0x2f {
        whole.append("/");
    }
    whole.append(path);
    whole
}

/// The file that `path` names in a document of the directory `base`. An
/// absolute path is left alone.
pub fn local_path(base: Option<&str>, path: &str, absolute: bool) -> (file: String)
    ensures
        file@ == located(dir_text(base), path@, absolute),
{
    match base {
        Some(dir) => if absolute {
            text::own(path)
        } else {
            join(dir, path)
        },
        None => text::own(path),
    }
}

/// Components of a path.
pub fn path_components(path: &str) -> (parts: Vec<PathPart>)
    ensures
        part_views(parts@) == components(path@),
{
    let b = path.as_bytes();
    let mut parts: Vec<PathPart> = Vec::new();
    let mut i: usize = 0;
    assert(part_views(parts@) =~= Seq::<PartView>::empty());
    assert(part_views(parts@) + parts_from(b@, 0) =~= parts_from(b@, 0));
    while i < b.len()
        invariant
            b@ == encode_utf8(path@),
            part_views(parts@) + parts_from(b@, i as int) == components(path@),
        decreases b@.len() - i,
    {
        let ghost done = part_views(parts@);
        let mut name: Vec<u8> = Vec::new();
        let mut end: usize = i;
        while end < b.len() && b[end] != 0x2f
            invariant
                i <= end <= b@.len(),
                name_end(b@, end as int) == name_end(b@, i as int),
                name@ == b@.subrange(i as int, end as int),
            decreases b@.len() - end,
        {
            name.push(b[end]);
            end = end + 1;
            assert(name@ =~= b@.subrange(i as int, end as int));
        }
        let ghost here = part_of(name@, i == 0);
        let ghost rest = parts_from(b@, end + 1);
        assert(parts_from(b@, i as int) == match here {
            Some(part) => seq![part] + rest,
            None => rest,
        });
        if name.len() == 0 {
            if i == 0 {
                parts.push(PathPart::Root);
            }
        } else if name.len() == 1 && name[0] == 0x2e {
            assert(name@ =~= seq![0x2eu8]);
            if i == 0 {
                parts.push(PathPart::Current);
            }
        } else if name.len() == 2 && name[0] == 0x2e && name[1] == 0x2e {
            assert(name@ =~= seq![0x2eu8, 0x2eu8]);
            parts.push(PathPart::Parent);
        } else {
            parts.push(PathPart::Normal(name));
        }
        assert(part_views(parts@) + rest =~= done + parts_from(b@, i as int));
        if end >= b.len() {
            assert(rest =~= Seq::<PartView>::empty());
            assert(part_views(parts@) + rest =~= part_views(parts@));
            return parts;
        }
        i = end + 1;
    }
    assert(part_views(parts@) + parts_from(b@, i as int) =~= part_views(parts@));
    parts
}

/// Place of one path in respect of another.
#[derive(Debug, Clone, Copy, PartialEq, Eq, Structural)]
pub enum Place {
    Before,
    Same,
    Behind,
}

/// Place of the path with components `a` in respect of that with components
/// `b`.
pub open spec fn place_of(a: Seq<PartView>, b: Seq<PartView>) -> Place {
    if a == b {
        Place::Same
    } else if ahead(a, b) {
        Place::Before
    } else {
        Place::Behind
    }
}

fn rank_of(part: &PathPart) -> (rank: u8)
    ensures
        rank == part@.rank(),
{
    match part {
        PathPart::Root => 0,
        PathPart::Current => 1,
        PathPart::Parent => 2,
        PathPart::Normal(_) => 3,
    }
}

fn same_part(a: &PathPart, b: &PathPart) -> (yes: bool)
    ensures
        yes == (a@ == b@),
{
    match (a, b) {
        (PathPart::Normal(x), PathPart::Normal(y)) => same_bytes(x.as_slice(), y.as_slice()),
        _ => rank_of(a) == rank_of(b),
    }
}

fn part_precedes(a: &PathPart, b: &PathPart) -> (yes: bool)
    ensures
        yes == a@.precedes(b@),
{
    match (a, b) {
        (PathPart::Normal(x), PathPart::Normal(y)) => comes_before(x.as_slice(), y.as_slice()),
        _ => rank_of(a) < rank_of(b),
    }
}

/// Place of the path `a` in respect of the path `b`.
pub fn place_paths(a: &str, b: &str) -> (place: Place)
    ensures
        place == place_of(components(a@), components(b@)),
{
    let xs = path_components(a);
    let ys = path_components(b);
    let ghost x = components(a@);
    let ghost y = components(b@);
    let mut i: usize = 0;
    assert(x.skip(0) =~= x);
    assert(y.skip(0) =~= y);
    while i < xs.len() && i < ys.len()
        invariant
            i <= xs@.len(),
            i <= ys@.len(),
            x == part_views(xs@),
            y == part_views(ys@),
            x == components(a@),
            y == components(b@),
            x.take(i as int) == y.take(i as int),
            ahead(x.skip(i as int), y.skip(i as int)) == ahead(x, y),
        decreases xs@.len() - i,
    {
        assert(x.skip(i as int)[0] == xs@[i as int]@);
        assert(y.skip(i as int)[0] == ys@[i as int]@);
        if !same_part(&xs[i], &ys[i]) {
            assert(x[i as int] != y[i as int]);
            return if part_precedes(&xs[i], &ys[i]) {
                Place::Before
            } else {
                Place::Behind
            };
        }
        assert(x.skip(i as int).drop_first() =~= x.skip(i + 1));
        assert(y.skip(i as int).drop_first() =~= y.skip(i + 1));
        assert(x.take(i + 1) =~= x.take(i as int).push(x[i as int]));
        assert(y.take(i + 1) =~= y.take(i as int).push(y[i as int]));
        i = i + 1;
    }
    if i < xs.len() {
        Place::Behind
    } else if i < ys.len() {
        Place::Before
    } else {
        assert(x =~= x.take(i as int));
        assert(y =~= y.take(i as int));
        Place::Same
    }
}

/// Of two paths with different components one comes before the other, and only
/// one.
pub proof fn path_order_is_total(a: Seq<PartView>, b: Seq<PartView>)
    ensures
        a == b || ahead(a, b) || ahead(b, a),
        !(ahead(a, b) && ahead(b, a)),
        !ahead(a, a),
    decreases a.len(),
{
    if a.len() == 0 {
        if b.len() == 0 {
            assert(a =~= b);
        }
    } else {
        path_order_is_total(a.drop_first(), a.drop_first());
        if b.len() > 0 {
            path_order_is_total(a.drop_first(), b.drop_first());
            if a[0] is Normal && b[0] is Normal {
                bytes::lemma_order_total(a[0]->Normal_0, b[0]->Normal_0);
            }
            if a[0] == b[0] && a.drop_first() == b.drop_first() {
                assert(a =~= seq![a[0]] + a.drop_first());
                assert(b =~= seq![b[0]] + b.drop_first());
            }
        }
    }
}

/// The order of paths is transitive.
pub proof fn path_order_is_transitive(a: Seq<PartView>, b: Seq<PartView>, c: Seq<PartView>)
    requires
        ahead(a, b),
        ahead(b, c),
    ensures
        ahead(a, c),
    decreases a.len(),
{
    if a.len() > 0 {
        if a[0] == b[0] && b[0] == c[0] {
            path_order_is_transitive(a.drop_first(), b.drop_first(), c.drop_first());
        } else if a[0] is Normal && b[0] is Normal && c[0] is Normal {
            let x = a[0]->Normal_0;
            let y = b[0]->Normal_0;
            let z = c[0]->Normal_0;
            if x != y && y != z {
                bytes::lemma_order_transitive(x, y, z);
                bytes::lemma_order_total(x, z);
            }
        }
    }
}

/// What a name in front of a path stands for.
pub open spec fn front_part(name: Seq<u8>) -> Seq<PartView> {
    if name.len() == 0 {
        seq![PartView::Root]
    } else if name.len() == 1 && name[0] == 46 {
        seq![PartView::Current]
    } else if name.len() == 2 && name[0] == 46 && name[1] == 46 {
        seq![PartView::Parent]
    } else {
        seq![PartView::Normal(name)]
    }
}

/// What a name further on in a path stands for: nothing, if it is empty or a
/// dot.
pub open spec fn inner_part(name: Seq<u8>) -> Seq<PartView> {
    if name.len() == 0 || (name.len() == 1 && name[0] == 46) {
        Seq::empty()
    } else {
        front_part(name)
    }
}

proof fn lemma_name_ends_at(b: Seq<u8>, i: int, end: int)
    requires
        0 <= i <= end <= b.len(),
        forall|k: int| i <= k < end ==> #[trigger] b[k] != 47,
        end == b.len() || b[end] == 47,
    ensures
        name_end(b, i) == end,
    decreases end - i,
{
    if i < end {
        assert(b[i] != 47);
        lemma_name_ends_at(b, i + 1, end);
    }
}

proof fn lemma_name_end_shift(a: Seq<u8>, b: Seq<u8>, i: int)
    requires
        0 <= i,
    ensures
        name_end(a + b, a.len() + i) == a.len() + name_end(b, i),
    decreases b.len() - i,
{
    if i < b.len() {
        assert((a + b)[a.len() + i] == b[i]);
        lemma_name_end_shift(a, b, i + 1);
    }
}

proof fn lemma_parts_shift(a: Seq<u8>, b: Seq<u8>, i: int)
    requires
        1 <= i,
    ensures
        parts_from(a + b, a.len() + i) == parts_from(b, i),
    decreases b.len() + 1 - i,
{
    if i < b.len() {
        let end = name_end(b, i);
        lemma_name_end(b, i);
        lemma_name_end_shift(a, b, i);
        lemma_name_end(a + b, a.len() + i);
        lemma_parts_shift(a, b, end + 1);
        assert((a + b).subrange(a.len() + i, a.len() + end) =~= b.subrange(i, end));
    }
}

/// A path is taken apart name by name at its slashes; the first name alone may
/// stand for the root or for the current directory.
pub proof fn paths_are_cut_at_slashes(name: Seq<u8>, rest: Seq<u8>)
    requires
        forall|k: int| 0 <= k < name.len() ==> #[trigger] name[k] != 47,
    ensures
        parts_from(name + seq![47u8] + rest, 0) == front_part(name) + parts_from(
            seq![47u8] + rest,
            1,
        ),
        parts_from(seq![47u8] + name + seq![47u8] + rest, 1) == inner_part(name) + parts_from(
            seq![47u8] + rest,
            1,
        ),
        name.len() > 0 ==> parts_from(name, 0) == front_part(name),
        parts_from(seq![47u8] + name, 1) == inner_part(name),
        parts_from(Seq::<u8>::empty(), 0).len() == 0,
{
    let n = name.len() as int;
    let tail = seq![47u8] + rest;
    let a = name + seq![47u8] + rest;
    assert(a =~= name + tail);
    assert(a[n] == 47);
    lemma_name_ends_at(a, 0, n);
    lemma_parts_shift(name, tail, 1);
    assert(a.subrange(0, n) =~= name);
    assert(seq![0x2eu8] =~= seq![46u8]);
    if n == 1 && name[0] == 46 {
        assert(name =~= seq![0x2eu8]);
    }
    if n == 2 && name[0] == 46 && name[1] == 46 {
        assert(name =~= seq![0x2eu8, 0x2eu8]);
    }
    let b = seq![47u8] + name + seq![47u8] + rest;
    let head = seq![47u8] + name;
    assert(b =~= head + tail);
    assert(b[n + 1] == 47);
    assert forall|k: int| 1 <= k < n + 1 implies #[trigger] b[k] != 47 by {
        assert(b[k] == name[k - 1]);
    }
    lemma_name_ends_at(b, 1, n + 1);
    lemma_parts_shift(head, tail, 1);
    assert(b.subrange(1, n + 1) =~= name);
    assert(Seq::<PartView>::empty() + parts_from(tail, 1) =~= parts_from(tail, 1));
    assert(inner_part(name) + parts_from(tail, 1) =~= parts_from(b, 1));
    assert(front_part(name) + parts_from(tail, 1) =~= parts_from(a, 0));
    if n > 0 {
        lemma_name_ends_at(name, 0, n);
        assert(name.subrange(0, n) =~= name);
        reveal_with_fuel(parts_from, 2);
        assert(parts_from(name, 0) =~= front_part(name));
        assert forall|k: int| 1 <= k < n + 1 implies #[trigger] head[k] != 47 by {
            assert(head[k] == name[k - 1]);
        }
        lemma_name_ends_at(head, 1, n + 1);
        assert(head.subrange(1, n + 1) =~= name);
        assert(parts_from(head, 1) =~= inner_part(name));
    }
}

/// A path joined to a directory starts with the directory and ends with the
/// path, with one slash between them.
pub proof fn joining_puts_one_slash_between(dir: Seq<char>, path: Seq<char>)
    requires
        dir.len() > 0,
    ensures
        ({
            let all = joined(dir, path);
            let n = dir.len() as int;
            &&& dir.last() == '/' ==> all == dir + path
            &&& dir.last() != '/' ==> all.len() == n + 1 + path.len() && all.take(n) == dir && all[n]
                == '/' && all.skip(n + 1) == path
        }),
{
    reveal_strlit("/");
    let all = joined(dir, path);
    let n = dir.len() as int;
    if dir.last() != '/' {
        assert(all.take(n) =~= dir);
        assert(all.skip(n + 1) =~= path);
    }
}

/// A path is absolute where it starts with a slash, and then stands for itself;
/// any other is looked up below the base, if there is one.
pub proof fn only_relative_paths_are_moved(dir: Seq<char>, path: Seq<char>)
    ensures
        rooted(seq!['/'] + path),
        path.len() > 0 && path[0] != '/' ==> !rooted(path),
        !rooted(Seq::empty()),
        located(Some(dir), path, true) == path,
        located(None, path, true) == path,
        located(None, path, false) == path,
        located(Some(dir), path, false) == joined(dir, path),
{
}

/// Paths are ordered by their first part that differs: the root before the
/// current directory, that before the parent, that before names, and names by
/// their bytes. A path comes before what lies below it.
pub proof fn first_different_part_decides(
    same: Seq<PartView>,
    x: PartView,
    y: PartView,
    a: Seq<PartView>,
    b: Seq<PartView>,
)
    requires
        x != y,
    ensures
        ahead(same + seq![x] + a, same + seq![y] + b) == x.precedes(y),
        ahead(same, same + seq![x] + a),
        !ahead(same + seq![x] + a, same),
        x is Root ==> x.precedes(y),
        x is Current && (y is Parent || y is Normal) ==> x.precedes(y),
        x is Parent && y is Normal ==> x.precedes(y),
        x is Normal && !(y is Normal) ==> !x.precedes(y),
        x is Normal && y is Normal ==> x.precedes(y) == bytes::precedes(x->Normal_0, y->Normal_0),
    decreases same.len(),
{
    let l = same + seq![x] + a;
    let r = same + seq![y] + b;
    if same.len() > 0 {
        assert(l[0] == same[0] && r[0] == same[0]);
        assert(l.drop_first() =~= same.drop_first() + seq![x] + a);
        assert(r.drop_first() =~= same.drop_first() + seq![y] + b);
        first_different_part_decides(same.drop_first(), x, y, a, b);
    } else {
        assert(l[0] == x && r[0] == y);
    }
}

/// Two paths are in the same place exactly when their parts are the same, and
/// otherwise one lies before and the other behind.
pub proof fn places_are_opposite(a: Seq<PartView>, b: Seq<PartView>)
    ensures
        place_of(a, b) == Place::Same <==> a == b,
        place_of(a, b) == Place::Before <==> ahead(a, b),
        place_of(a, b) == Place::Behind <==> ahead(b, a),
        place_of(a, b) == Place::Before <==> place_of(b, a) == Place::Behind,
{
    path_order_is_total(a, b);
}

} // verus!
