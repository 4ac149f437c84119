//! Slash-separated paths.
//!
//! A path is a text. It is absolute when it begins with `/`; its names are
//! the pieces between slashes, without the empty ones and without `.`. A path
//! whose first piece is `.` keeps that fact, as `./a` and `a` differ in how
//! they begin. Two paths are the same path when all three agree.

use vstd::prelude::*;
use vstd::string::StringExecFns;

use crate::text;
use crate::text::texts;

verus! {

/// The longest chain of directories that a path may go through.
pub const MAX_DEPTH: usize = 128;

/// The name of the directory that holds recovery state next to user data.
pub const PRIVATE_STATE_DIRECTORY: &'static str = ".komodo-file-manager";

// ---------------------------------------------------------------------------
// The model
// ---------------------------------------------------------------------------

/// The path begins with `/`.
pub open spec fn is_absolute_path(path: Seq<char>) -> bool {
    path.len() > 0 && path[0] == '/'
}

/// The first piece of the path is `.`.
pub open spec fn begins_with_dot(path: Seq<char>) -> bool {
    path.len() > 0 && path[0] == '.' && (path.len() == 1 || path[1] == '/')
}

/// What is left of a path behind its leading slashes and `.` pieces.
pub open spec fn trim_front(path: Seq<char>) -> Seq<char>
    decreases path.len(),
{
    if path.len() > 0 && (path[0] == '/' || begins_with_dot(path)) {
        trim_front(path.drop_first())
    } else {
        path
    }
}

/// How many characters stand in front of the first slash.
pub open spec fn piece_len(path: Seq<char>) -> nat
    decreases path.len(),
{
    if path.len() == 0 || path[0] == '/' {
        0
    } else {
        1 + piece_len(path.drop_first())
    }
}

pub proof fn lemma_trim_front(path: Seq<char>)
    ensures
        trim_front(path).len() <= path.len(),
        trim_front(path).len() > 0 ==> trim_front(path)[0] != '/',
        !begins_with_dot(trim_front(path)),
    decreases path.len(),
{
    if path.len() > 0 && (path[0] == '/' || begins_with_dot(path)) {
        lemma_trim_front(path.drop_first());
    }
}

pub proof fn lemma_piece_len(path: Seq<char>)
    ensures
        piece_len(path) <= path.len(),
        path.len() > 0 && path[0] != '/' ==> piece_len(path) > 0,
        forall|i: int| 0 <= i < piece_len(path) ==> path[i] != '/',
        piece_len(path) < path.len() ==> path[piece_len(path) as int] == '/',
    decreases path.len(),
{
    if path.len() > 0 && path[0] != '/' {
        lemma_piece_len(path.drop_first());
        assert forall|i: int| 0 <= i < piece_len(path) implies path[i] != '/' by {
            if i > 0 {
                assert(path[i] == path.drop_first()[i - 1]);
            }
        }
    }
}

/// The names along the path, without `.` and without empty pieces.
pub open spec fn path_names(path: Seq<char>) -> Seq<Seq<char>>
    decreases path.len(),
{
    let rest = trim_front(path);
    if rest.len() == 0 {
        Seq::empty()
    } else {
        proof {
            lemma_trim_front(path);
            lemma_piece_len(rest);
        }
        seq![rest.take(piece_len(rest) as int)] + path_names(rest.skip(piece_len(rest) as int))
    }
}

/// A path as a value: two texts that give the same value are the same path.
pub struct PathModel {
    pub absolute: bool,
    pub dotted: bool,
    pub names: Seq<Seq<char>>,
}

/// The path that a text denotes.
pub open spec fn path_of(path: Seq<char>) -> PathModel {
    PathModel {
        absolute: is_absolute_path(path),
        dotted: begins_with_dot(path),
        names: path_names(path),
    }
}

/// `base` is `path` or one of the directories above it.
pub open spec fn is_below(path: Seq<char>, base: Seq<char>) -> bool {
    let p = path_of(path);
    let b = path_of(base);
    &&& b.names.is_prefix_of(p.names)
    &&& b.absolute == p.absolute || (!b.absolute && !b.dotted && b.names.len() == 0)
    &&& b.dotted == p.dotted || (!b.absolute && !b.dotted && b.names.len() == 0)
}

/// What lies below a directory lies below the directories above that.
pub proof fn lemma_below_transitive(a: Seq<char>, b: Seq<char>, c: Seq<char>)
    requires
        is_below(a, b),
        is_below(b, c),
    ensures
        is_below(a, c),
{
    let x = path_of(a).names;
    let y = path_of(b).names;
    let z = path_of(c).names;
    assert(z =~= x.subrange(0, z.len() as int)) by {
        assert forall|i: int| 0 <= i < z.len() implies z[i] == x[i] by {
            assert(z[i] == y.subrange(0, z.len() as int)[i]);
            assert(y[i] == x.subrange(0, y.len() as int)[i]);
        }
    }
}

/// Every path lies below itself.
pub proof fn lemma_below_itself(a: Seq<char>)
    ensures
        is_below(a, a),
{
    let x = path_of(a).names;
    assert(x =~= x.subrange(0, x.len() as int));
}

/// The name of the parent directory.
pub open spec fn dot_dot() -> Seq<char> {
    seq!['.', '.']
}

/// Whether the path goes up to a parent directory somewhere.
pub open spec fn goes_up(path: Seq<char>) -> bool {
    path_names(path).contains(dot_dot())
}

/// The path without the slashes and `.` pieces at its end.
pub open spec fn trim_back(path: Seq<char>) -> Seq<char>
    decreases path.len(),
{
    if path.len() > 1 && (path.last() == '/' || (path.last() == '.' && path[path.len() - 2] == '/')) {
        trim_back(path.drop_last())
    } else {
        path
    }
}

/// The text behind the first `count` names.
pub open spec fn behind_names(path: Seq<char>, count: nat) -> Seq<char>
    decreases count,
{
    let rest = trim_front(path);
    if count == 0 {
        rest
    } else {
        behind_names(rest.skip(piece_len(rest) as int), (count - 1) as nat)
    }
}

/// `relative` seen from inside the directory `base`.
pub open spec fn joined(base: Seq<char>, relative: Seq<char>) -> Seq<char> {
    if is_absolute_path(relative) {
        relative
    } else if base.len() == 0 || base.last() == '/' {
        base + relative
    } else {
        base.push('/') + relative
    }
}

/// The names with a slash between each two.
pub open spec fn slashed(names: Seq<Seq<char>>) -> Seq<char>
    decreases names.len(),
{
    if names.len() == 0 {
        Seq::empty()
    } else if names.len() == 1 {
        names[0]
    } else {
        slashed(names.drop_last()).push('/') + names.last()
    }
}

/// The text of an absolute or relative path with the given names.
pub open spec fn rendered(absolute: bool, names: Seq<Seq<char>>) -> Seq<char> {
    if absolute {
        seq!['/'] + slashed(names)
    } else {
        slashed(names)
    }
}

// ---------------------------------------------------------------------------
// Reading a path
// ---------------------------------------------------------------------------

/// A path taken apart.
#[derive(Clone, Debug, PartialEq, Eq)]
pub struct PathParts {
    pub absolute: bool,
    pub dotted: bool,
    pub names: Vec<String>,
}

impl View for PathParts {
    type V = PathModel;

    open spec fn view(&self) -> PathModel {
        PathModel { absolute: self.absolute, dotted: self.dotted, names: texts(self.names@) }
    }
}

fn front(chars: &Vec<char>, from: usize) -> (start: usize)
    requires
        from <= chars@.len(),
    ensures
        from <= start <= chars@.len(),
        trim_front(chars@.skip(from as int)) == chars@.skip(start as int),
        start < chars@.len() ==> chars@[start as int] != '/',
{
    let mut i: usize = from;
    while i < chars.len() && (chars[i] == '/' || (chars[i] == '.' && (i + 1 == chars.len()
        || chars[i + 1] == '/')))
        invariant
            from <= i <= chars@.len(),
            trim_front(chars@.skip(from as int)) == trim_front(chars@.skip(i as int)),
        decreases chars.len() - i,
    {
        assert(chars@.skip(i as int).drop_first() =~= chars@.skip(i + 1));
        i = i + 1;
    }
    i
}

fn piece_end(chars: &Vec<char>, from: usize) -> (end: usize)
    requires
        from <= chars@.len(),
    ensures
        from <= end <= chars@.len(),
        end == from + piece_len(chars@.skip(from as int)),
{
    let mut i: usize = from;
    while i < chars.len() && chars[i] != '/'
        invariant
            from <= i <= chars@.len(),
            i + piece_len(chars@.skip(i as int)) == from + piece_len(chars@.skip(from as int)),
        decreases chars.len() - i,
    {
        assert(chars@.skip(i as int).drop_first() =~= chars@.skip(i + 1));
        i = i + 1;
    }
    i
}

/// Takes a path apart.
pub fn parse_path(path: &str) -> (parts: PathParts)
    ensures
        parts@ == path_of(path@),
{
    let chars = text::chars_of(path);
    let absolute = chars.len() > 0 && chars[0] == '/';
    let dotted = chars.len() > 0 && chars[0] == '.' && (chars.len() == 1 || chars[1] == '/');
    let mut names: Vec<String> = Vec::new();
    let mut i: usize = front(&chars, 0);
    assert(chars@.skip(0) =~= chars@);
    proof {
        lemma_trim_front(chars@);
        assert(path_names(chars@) == path_names(chars@.skip(i as int))) by {
            assert(trim_front(chars@.skip(i as int)) == chars@.skip(i as int));
        }
        assert(texts(names@) =~= Seq::<Seq<char>>::empty());
        assert(texts(names@) + path_names(chars@.skip(i as int)) =~= path_names(chars@));
    }
    while i < chars.len()
        invariant
            i <= chars@.len(),
            chars@ == path@,
            trim_front(chars@.skip(i as int)) == chars@.skip(i as int),
            texts(names@) + path_names(chars@.skip(i as int)) == path_names(path@),
        decreases chars.len() - i,
    {
        let ghost rest = chars@.skip(i as int);
        let end = piece_end(&chars, i);
        let name = text::text_between(&chars, i, end);
        proof {
            lemma_trim_front(rest);
            lemma_piece_len(rest);
            assert(name@ =~= rest.take(piece_len(rest) as int));
            assert(rest.skip(piece_len(rest) as int) =~= chars@.skip(end as int));
        }
        let ghost before = texts(names@);
        names.push(name);
        let next = front(&chars, end);
        proof {
            assert(texts(names@) =~= before.push(name@));
            let tail = chars@.skip(next as int);
            lemma_trim_front(chars@.skip(end as int));
            assert(path_names(tail) == path_names(chars@.skip(end as int)));
            assert(path_names(rest) =~= seq![name@] + path_names(tail));
            assert(before + path_names(rest) =~= texts(names@) + path_names(tail));
        }
        i = next;
    }
    assert(chars@.skip(i as int) =~= Seq::<char>::empty());
    assert(texts(names@) + Seq::<Seq<char>>::empty() =~= texts(names@));
    PathParts { absolute, dotted, names }
}

/// Whether one list of names begins with another.
pub fn names_begin_with(names: &Vec<String>, base: &Vec<String>) -> (begins: bool)
    ensures
        begins == texts(base@).is_prefix_of(texts(names@)),
{
    if base.len() > names.len() {
        return false;
    }
    for i in 0..base.len()
        invariant
            base@.len() <= names@.len(),
            forall|j: int| 0 <= j < i ==> (#[trigger] base@[j])@ == names@[j]@,
    {
        if !text::same(base[i].as_str(), names[i].as_str()) {
            proof {
                if texts(base@).is_prefix_of(texts(names@)) {
                    assert(texts(base@)[i as int] == texts(names@).subrange(
                        0,
                        base@.len() as int,
                    )[i as int]);
                }
            }
            return false;
        }
    }
    assert(texts(base@) =~= texts(names@).subrange(0, base@.len() as int));
    true
}

/// Whether `path` is `base` or lies below it.
pub fn path_is_below(path: &str, base: &str) -> (below: bool)
    ensures
        below == is_below(path@, base@),
{
    let p = parse_path(path);
    let b = parse_path(base);
    let empty = !b.absolute && !b.dotted && b.names.len() == 0;
    names_begin_with(&p.names, &b.names) && (empty || (b.absolute == p.absolute && b.dotted
        == p.dotted))
}

/// Whether two texts denote the same path.
pub fn same_path(a: &str, b: &str) -> (equal: bool)
    ensures
        equal == (path_of(a@) == path_of(b@)),
{
    let p = parse_path(a);
    let q = parse_path(b);
    let equal = p.absolute == q.absolute && p.dotted == q.dotted && p.names.len() == q.names.len()
        && names_begin_with(&p.names, &q.names);
    proof {
        if equal {
            assert(texts(p.names@) =~= texts(q.names@).subrange(0, q.names@.len() as int));
            assert(texts(p.names@) =~= texts(q.names@));
        } else if path_of(a@) == path_of(b@) {
            assert(texts(q.names@).subrange(0, q.names@.len() as int) =~= texts(q.names@));
        }
    }
    equal
}

/// Whether the path begins with `/`.
pub fn path_is_absolute(path: &str) -> (absolute: bool)
    ensures
        absolute == is_absolute_path(path@),
{
    let chars = text::chars_of(path);
    chars.len() > 0 && chars[0] == '/'
}

/// Whether the path goes up to a parent directory somewhere.
pub fn path_goes_up(path: &str) -> (up: bool)
    ensures
        up == goes_up(path@),
{
    let parts = parse_path(path);
    proof {
        reveal_strlit("..");
        assert(".."@ =~= dot_dot());
    }
    text::contains_text(&parts.names, "..")
}

/// `relative` seen from inside `base`.
pub fn join(base: &str, relative: &str) -> (path: String)
    ensures
        path@ == joined(base@, relative@),
{
    if path_is_absolute(relative) {
        return relative.to_owned();
    }
    let chars = text::chars_of(base);
    let mut path = base.to_owned();
    if chars.len() > 0 && chars[chars.len() - 1] != '/' {
        path.push('/');
    }
    path.append(relative);
    path
}

fn back(chars: &Vec<char>, from: usize) -> (end: usize)
    requires
        from <= chars@.len(),
    ensures
        from <= end <= chars@.len(),
        trim_back(chars@.skip(from as int)) == chars@.subrange(from as int, end as int),
{
    let mut end: usize = chars.len();
    assert(chars@.skip(from as int) =~= chars@.subrange(from as int, end as int));
    while end - from > 1 && (chars[end - 1] == '/' || (chars[end - 1] == '.' && chars[end - 2] == '/'))
        invariant
            from <= end <= chars@.len(),
            trim_back(chars@.skip(from as int)) == trim_back(
                chars@.subrange(from as int, end as int),
            ),
        decreases end,
    {
        assert(chars@.subrange(from as int, end as int).drop_last() =~= chars@.subrange(
            from as int,
            end - 1,
        ));
        end = end - 1;
    }
    end
}

/// What is left of `path` below `base`, or nothing when it does not lie there.
pub open spec fn stripped(path: Seq<char>, base: Seq<char>) -> Option<Seq<char>> {
    let b = path_of(base);
    if !is_below(path, base) {
        None
    } else if !b.absolute && !b.dotted && b.names.len() == 0 {
        Some(trim_back(path))
    } else {
        Some(trim_back(behind_names(path, b.names.len())))
    }
}

/// The part of `path` below `base`.
pub fn strip_prefix(path: &str, base: &str) -> (rest: Option<String>)
    ensures
        match rest {
            Some(text) => stripped(path@, base@) == Some(text@),
            None => stripped(path@, base@) is None,
        },
{
    if !path_is_below(path, base) {
        return None;
    }
    let b = parse_path(base);
    let chars = text::chars_of(path);
    assert(chars@.skip(0) =~= chars@);
    if !b.absolute && !b.dotted && b.names.len() == 0 {
        let end = back(&chars, 0);
        return Some(text::text_between(&chars, 0, end));
    }
    let mut i: usize = front(&chars, 0);
    let mut left: usize = b.names.len();
    proof {
        lemma_trim_front(chars@);
        assert(behind_names(chars@, left as nat) == behind_names(chars@.skip(i as int), left as nat))
            by {
            assert(trim_front(chars@.skip(i as int)) == chars@.skip(i as int));
        }
    }
    while left > 0
        invariant
            i <= chars@.len(),
            chars@ == path@,
            trim_front(chars@.skip(i as int)) == chars@.skip(i as int),
            behind_names(chars@, b.names@.len()) == behind_names(chars@.skip(i as int), left as nat),
        decreases left,
    {
        let ghost rest = chars@.skip(i as int);
        let end = piece_end(&chars, i);
        let next = front(&chars, end);
        proof {
            assert(rest.skip(piece_len(rest) as int) =~= chars@.skip(end as int));
            lemma_trim_front(chars@.skip(end as int));
            assert(behind_names(rest, left as nat) == behind_names(
                chars@.skip(end as int),
                (left - 1) as nat,
            ));
            assert(behind_names(chars@.skip(end as int), (left - 1) as nat) == behind_names(
                chars@.skip(next as int),
                (left - 1) as nat,
            ));
        }
        i = next;
        left = left - 1;
    }
    let end = back(&chars, i);
    Some(text::text_between(&chars, i, end))
}

/// The names with a slash between each two.
pub fn slash_join(names: &Vec<String>) -> (path: String)
    ensures
        path@ == slashed(texts(names@)),
{
    let mut path = String::new();
    for i in 0..names.len()
        invariant
            path@ == slashed(texts(names@.take(i as int))),
    {
        proof {
            let all = texts(names@.take(i + 1));
            assert(all.drop_last() =~= texts(names@.take(i as int)));
            assert(all.last() == names@[i as int]@);
            if i == 0 {
                assert(path@ =~= Seq::<char>::empty());
                assert(path@ + names@[0]@ =~= names@[0]@);
            }
        }
        if i > 0 {
            path.push('/');
        }
        path.append(names[i].as_str());
    }
    assert(names@.take(names@.len() as int) =~= names@);
    path
}

/// The text of a path with the given names.
pub fn render(absolute: bool, names: &Vec<String>) -> (path: String)
    ensures
        path@ == rendered(absolute, texts(names@)),
{
    if absolute {
        let mut path = String::new();
        path.push('/');
        assert(path@ =~= seq!['/']);
        path.append(slash_join(names).as_str());
        path
    } else {
        slash_join(names)
    }
}

/// The last name of the path, unless that is `..` or there is none.
pub open spec fn last_name(path: Seq<char>) -> Option<Seq<char>> {
    let names = path_names(path);
    if names.len() == 0 || names.last() == dot_dot() {
        None
    } else {
        Some(names.last())
    }
}

/// The last name of the path.
pub fn file_name(path: &str) -> (name: Option<String>)
    ensures
        match name {
            Some(text) => last_name(path@) == Some(text@),
            None => last_name(path@) is None,
        },
{
    let mut parts = parse_path(path);
    proof {
        reveal_strlit("..");
        assert(".."@ =~= dot_dot());
    }
    if parts.names.len() == 0 {
        return None;
    }
    let last: usize = parts.names.len() - 1;
    assert(texts(parts.names@).last() == parts.names@[last as int]@);
    if text::same(parts.names[last].as_str(), "..") {
        None
    } else {
        Some(parts.names[last].clone())
    }
}

// ---------------------------------------------------------------------------
// Configured paths
// ---------------------------------------------------------------------------

/// The names with each `..` taking back the name in front of it.
pub open spec fn collapsed(names: Seq<Seq<char>>) -> Seq<Seq<char>>
    decreases names.len(),
{
    if names.len() == 0 {
        Seq::empty()
    } else {
        let before = collapsed(names.drop_last());
        if names.last() == dot_dot() {
            if before.len() > 0 {
                before.drop_last()
            } else {
                before
            }
        } else {
            before.push(names.last())
        }
    }
}

/// The path `value` inside `base`, with `.` and `..` worked out lexically.
pub fn configured_path(base: &str, value: &str) -> (path: String)
    ensures
        path@ == rendered(
            is_absolute_path(joined(base@, value@)),
            collapsed(path_names(joined(base@, value@))),
        ),
{
    let parts = parse_path(join(base, value).as_str());
    proof {
        reveal_strlit("..");
        assert(".."@ =~= dot_dot());
    }
    let mut kept: Vec<String> = Vec::new();
    assert(texts(kept@) =~= Seq::<Seq<char>>::empty());
    for i in 0..parts.names.len()
        invariant
            ".."@ == dot_dot(),
            texts(kept@) == collapsed(texts(parts.names@.take(i as int))),
    {
        proof {
            let all = texts(parts.names@.take(i + 1));
            assert(all.drop_last() =~= texts(parts.names@.take(i as int)));
            assert(all.last() == parts.names@[i as int]@);
        }
        let ghost before = kept@;
        if text::same(parts.names[i].as_str(), "..") {
            if kept.len() > 0 {
                let _ = kept.pop();
                assert(texts(kept@) =~= texts(before).drop_last());
            }
        } else {
            kept.push(parts.names[i].clone());
            assert(texts(kept@) =~= texts(before).push(parts.names@[i as int]@));
        }
    }
    assert(parts.names@.take(parts.names@.len() as int) =~= parts.names@);
    render(parts.absolute, &kept)
}

/// Working out a path leaves no `..` in it.
pub proof fn configured_paths_do_not_go_up(names: Seq<Seq<char>>)
    ensures
        !collapsed(names).contains(dot_dot()),
    decreases names.len(),
{
    if names.len() > 0 {
        configured_paths_do_not_go_up(names.drop_last());
        let before = collapsed(names.drop_last());
        let after = collapsed(names);
        if after.contains(dot_dot()) {
            let i = choose|i: int| 0 <= i < after.len() && after[i] == dot_dot();
            assert(i < before.len());
            assert(before[i] == dot_dot());
        }
    }
}

/// A path with forward slashes only.
pub open spec fn forward_slashed(path: Seq<char>) -> Seq<char> {
    path.map_values(|c: char| if c == '\\' { '/' } else { c })
}

/// The path with every backslash turned into a slash.
pub fn path_string(path: &str) -> (slashed: String)
    ensures
        slashed@ == forward_slashed(path@),
{
    let chars = text::chars_of(path);
    let mut slashed = String::new();
    for i in 0..chars.len()
        invariant
            chars@ == path@,
            slashed@ == forward_slashed(chars@.take(i as int)),
    {
        let c = if chars[i] == '\\' {
            '/'
        } else {
            chars[i]
        };
        slashed.push(c);
        assert(forward_slashed(chars@.take(i + 1)) =~= forward_slashed(
            chars@.take(i as int),
        ).push(c));
    }
    assert(chars@.take(chars@.len() as int) =~= chars@);
    slashed
}

// ---------------------------------------------------------------------------
// Parents
// ---------------------------------------------------------------------------

/// The text up to and with its last slash.
pub open spec fn through_last_slash(path: Seq<char>) -> Seq<char>
    decreases path.len(),
{
    if path.len() > 0 && path.last() != '/' {
        through_last_slash(path.drop_last())
    } else {
        path
    }
}

/// The directory that holds the last name of the path.
pub open spec fn parent_of(path: Seq<char>) -> Option<Seq<char>> {
    if path_names(path).len() == 0 && !begins_with_dot(path) {
        None
    } else {
        Some(trim_back(through_last_slash(trim_back(path))))
    }
}

/// The directory that holds the last name of the path.
pub fn parent(path: &str) -> (directory: Option<String>)
    ensures
        match directory {
            Some(text) => parent_of(path@) == Some(text@),
            None => parent_of(path@) is None,
        },
{
    let parts = parse_path(path);
    if parts.names.len() == 0 && !parts.dotted {
        return None;
    }
    let chars = text::chars_of(path);
    let mut end: usize = back(&chars, 0);
    assert(chars@.skip(0) =~= chars@);
    while end > 0 && chars[end - 1] != '/'
        invariant
            end <= chars@.len(),
            chars@ == path@,
            through_last_slash(trim_back(path@)) == through_last_slash(
                chars@.subrange(0, end as int),
            ),
        decreases end,
    {
        assert(chars@.subrange(0, end as int).drop_last() =~= chars@.subrange(0, end - 1));
        end = end - 1;
    }
    let head = text::chars_of(text::text_between(&chars, 0, end).as_str());
    assert(head@.skip(0) =~= head@);
    let stop = back(&head, 0);
    Some(text::text_between(&head, 0, stop))
}

// ---------------------------------------------------------------------------
// Paths that callers may name
// ---------------------------------------------------------------------------

/// Why a path is refused.
#[derive(Clone, Copy, Debug, PartialEq, Eq, Structural)]
pub enum PathError {
    /// The path is empty where the root is not allowed.
    Empty,
    /// The path holds a NUL character.
    Nul,
    /// The path holds a backslash.
    Separator,
    /// The path begins with a slash or a drive letter.
    Absolute,
    /// The path ends with a slash or holds two in a row.
    EmptyComponent,
    /// A name is the one of the recovery directory.
    Reserved,
    /// A piece is `..` or `.`.
    NotNormal,
    /// The path has too many names.
    Depth,
    /// A name was wanted and the path has more than one.
    NotSingle,
}

/// The name is the one of the recovery directory, in any case of letters.
pub open spec fn is_reserved(name: Seq<char>) -> bool {
    text::same_ignoring_ascii_case(name, PRIVATE_STATE_DIRECTORY@)
}

/// Why the first unacceptable name of a path is refused.
pub open spec fn first_refused(names: Seq<Seq<char>>) -> Option<PathError>
    decreases names.len(),
{
    if names.len() == 0 {
        None
    } else if names[0] == dot_dot() {
        Some(PathError::NotNormal)
    } else if is_reserved(names[0]) {
        Some(PathError::Reserved)
    } else {
        first_refused(names.drop_first())
    }
}

/// Two slashes stand next to each other.
pub open spec fn has_double_slash(path: Seq<char>) -> bool {
    exists|i: int| 0 <= i && i + 1 < path.len() && #[trigger] path[i] == '/' && path[i + 1] == '/'
}

/// A piece between slashes is `.`.
pub open spec fn has_dot_piece(path: Seq<char>) -> bool {
    exists|i: int|
        0 <= i < path.len() && #[trigger] path[i] == '.' && (i == 0 || path[i - 1] == '/') && (i + 1
            == path.len() || path[i + 1] == '/')
}

/// Why a non-empty path is refused, or nothing when it is accepted.
pub open spec fn refusal(path: Seq<char>) -> Option<PathError> {
    if path.contains('\0') {
        Some(PathError::Nul)
    } else if path.contains('\\') {
        Some(PathError::Separator)
    } else if path[0] == '/' || (path.len() > 1 && path[0] < '\u{80}' && path[1] == ':') {
        Some(PathError::Absolute)
    } else if path.last() == '/' || has_double_slash(path) {
        Some(PathError::EmptyComponent)
    } else if has_dot_piece(path) {
        Some(PathError::NotNormal)
    } else if first_refused(path_names(path)) is Some {
        first_refused(path_names(path))
    } else if path_names(path).len() == 0 || path_names(path).len() > MAX_DEPTH {
        Some(PathError::Depth)
    } else {
        None
    }
}

/// What becomes of a path that a caller names.
pub open spec fn relative_path_outcome(path: Seq<char>, allow_root: bool) -> Option<PathError> {
    if path.len() == 0 {
        if allow_root {
            None
        } else {
            Some(PathError::Empty)
        }
    } else {
        refusal(path)
    }
}

fn double_slash(chars: &Vec<char>) -> (found: bool)
    ensures
        found == has_double_slash(chars@),
{
    let mut i: usize = 0;
    while i < chars.len()
        invariant
            i <= chars@.len(),
            forall|j: int| 0 <= j < i && j + 1 < chars@.len() ==> !(#[trigger] chars@[j] == '/'
                && chars@[j + 1] == '/'),
        decreases chars.len() - i,
    {
        if chars[i] == '/' && i + 1 < chars.len() && chars[i + 1] == '/' {
            assert(chars@[i as int] == '/' && chars@[i + 1] == '/');
            return true;
        }
        i = i + 1;
    }
    false
}

fn dot_piece(chars: &Vec<char>) -> (found: bool)
    ensures
        found == has_dot_piece(chars@),
{
    let mut i: usize = 0;
    while i < chars.len()
        invariant
            i <= chars@.len(),
            forall|j: int|
                0 <= j < i ==> !(#[trigger] chars@[j] == '.' && (j == 0 || chars@[j - 1] == '/') && (
                j + 1 == chars@.len() || chars@[j + 1] == '/')),
        decreases chars.len() - i,
    {
        if chars[i] == '.' && (i == 0 || chars[i - 1] == '/') && (i + 1 == chars.len() || chars[i
            + 1] == '/') {
            assert(chars@[i as int] == '.');
            return true;
        }
        i = i + 1;
    }
    false
}

/// The only form of path that callers may name: normalized, relative to the root,
/// with forward slashes, of at most `MAX_DEPTH` names, none of them the one of
/// the recovery directory. No piece of it is empty, `.` or `..`. The empty path is
/// the root.
pub fn relative_path(value: &str, allow_root: bool) -> (path: Result<String, PathError>)
    ensures
        match path {
            Ok(text) => text@ == value@ && relative_path_outcome(value@, allow_root) is None,
            Err(error) => relative_path_outcome(value@, allow_root) == Some(error),
        },
{
    let chars = text::chars_of(value);
    if chars.len() == 0 {
        return if allow_root {
            assert(value@ =~= Seq::<char>::empty());
            Ok(String::new())
        } else {
            Err(PathError::Empty)
        };
    }
    if text::contains_char(value, '\0') {
        return Err(PathError::Nul);
    }
    if text::contains_char(value, '\\') {
        return Err(PathError::Separator);
    }
    if chars[0] == '/' || (chars.len() > 1 && chars[0] < '\u{80}' && chars[1] == ':') {
        return Err(PathError::Absolute);
    }
    if chars[chars.len() - 1] == '/' || double_slash(&chars) {
        return Err(PathError::EmptyComponent);
    }
    if dot_piece(&chars) {
        return Err(PathError::NotNormal);
    }
    let parts = parse_path(value);
    proof {
        reveal_strlit("..");
        assert(".."@ =~= dot_dot());
        assert(texts(parts.names@).skip(0) =~= texts(parts.names@));
    }
    let mut i: usize = 0;
    while i < parts.names.len()
        invariant
            i <= parts.names@.len(),
            ".."@ == dot_dot(),
            chars@ == value@,
            value@.len() > 0,
            texts(parts.names@) == path_names(value@),
            relative_path_outcome(value@, allow_root) == refusal(value@),
            first_refused(path_names(value@)) is Some ==> refusal(value@) == first_refused(
                path_names(value@),
            ),
            first_refused(path_names(value@)) == first_refused(
                texts(parts.names@).skip(i as int),
            ),
        decreases parts.names.len() - i,
    {
        let ghost rest = texts(parts.names@).skip(i as int);
        assert(rest[0] == parts.names@[i as int]@);
        assert(rest.drop_first() =~= texts(parts.names@).skip(i + 1));
        if text::same(parts.names[i].as_str(), "..") {
            return Err(PathError::NotNormal);
        }
        if text::equal_ignoring_ascii_case(parts.names[i].as_str(), PRIVATE_STATE_DIRECTORY) {
            return Err(PathError::Reserved);
        }
        i = i + 1;
    }
    assert(texts(parts.names@).skip(i as int) =~= Seq::<Seq<char>>::empty());
    if parts.names.len() == 0 || parts.names.len() > MAX_DEPTH {
        return Err(PathError::Depth);
    }
    Ok(value.to_owned())
}

/// What becomes of a text that has to be one name.
pub open spec fn single_name_outcome(value: Seq<char>) -> Result<Seq<char>, PathError> {
    match relative_path_outcome(value, false) {
        Some(error) => Err(error),
        None => if path_names(value).len() == 1 {
            Ok(path_names(value)[0])
        } else {
            Err(PathError::NotSingle)
        },
    }
}

/// A single name that a caller may give to an entry.
pub fn single_name(value: &str) -> (name: Result<String, PathError>)
    ensures
        match name {
            Ok(text) => single_name_outcome(value@) == Ok::<Seq<char>, PathError>(text@),
            Err(error) => single_name_outcome(value@) == Err::<Seq<char>, PathError>(error),
        },
{
    match relative_path(value, false) {
        Err(error) => Err(error),
        Ok(_) => {
            let parts = parse_path(value);
            if parts.names.len() != 1 {
                Err(PathError::NotSingle)
            } else {
                assert(texts(parts.names@)[0] == parts.names@[0]@);
                Ok(parts.names[0].clone())
            }
        },
    }
}

proof fn lemma_first_refused(names: Seq<Seq<char>>, i: int)
    requires
        first_refused(names) is None,
        0 <= i < names.len(),
    ensures
        names[i] != dot_dot(),
        !is_reserved(names[i]),
    decreases names.len(),
{
    if i > 0 {
        lemma_first_refused(names.drop_first(), i - 1);
    }
}

/// An accepted path stays below the root it is opened in: it is relative, it
/// never goes up, it never enters the recovery directory, and it is not longer
/// than `MAX_DEPTH` names.
pub proof fn accepted_paths_stay_below_the_root(path: Seq<char>, allow_root: bool)
    requires
        relative_path_outcome(path, allow_root) is None,
    ensures
        !is_absolute_path(path),
        !begins_with_dot(path),
        !goes_up(path),
        forall|i: int| 0 <= i < path_names(path).len() ==> !is_reserved(#[trigger] path_names(path)[i]),
        path_names(path).len() <= MAX_DEPTH,
        !allow_root ==> path_names(path).len() > 0,
{
    let names = path_names(path);
    if begins_with_dot(path) {
        assert(path[0] == '.');
    }
    if path.len() > 0 {
        assert forall|i: int| 0 <= i < names.len() implies names[i] != dot_dot() && !is_reserved(
            #[trigger] names[i],
        ) by {
            lemma_first_refused(names, i);
        }
    }
}

proof fn lemma_slashed_first(first: Seq<char>, names: Seq<Seq<char>>)
    requires
        names.len() > 0,
    ensures
        slashed(seq![first] + names) == first.push('/') + slashed(names),
    decreases names.len(),
{
    let all = seq![first] + names;
    assert(all.last() == names.last());
    if names.len() == 1 {
        assert(all.drop_last() =~= seq![first]);
        reveal_with_fuel(slashed, 2);
    } else {
        assert(all.drop_last() =~= seq![first] + names.drop_last());
        lemma_slashed_first(first, names.drop_last());
        assert((first.push('/') + slashed(names.drop_last())).push('/') + names.last() =~= first.push(
            '/',
        ) + (slashed(names.drop_last()).push('/') + names.last()));
    }
}

proof fn lemma_normalized(path: Seq<char>)
    requires
        path.len() > 0,
        path[0] != '/',
        path.last() != '/',
        !has_double_slash(path),
        !has_dot_piece(path),
    ensures
        path_names(path).len() > 0,
        slashed(path_names(path)) == path,
    decreases path.len(),
{
    if begins_with_dot(path) {
        assert(path[0] == '.');
    }
    assert(trim_front(path) == path);
    lemma_piece_len(path);
    let end = piece_len(path) as int;
    let first = path.take(end);
    let rest = path.skip(end);
    if end == path.len() {
        assert(first =~= path);
        assert(path_names(rest) =~= Seq::<Seq<char>>::empty());
        assert(path_names(path) =~= seq![path]);
    } else {
        let tail = path.skip(end + 1);
        assert(rest[0] == '/');
        assert(rest.drop_first() =~= tail);
        assert(path[end] == '/');
        assert(tail.len() > 0 && tail[0] == path[end + 1]);
        assert(!has_double_slash(tail)) by {
            assert forall|i: int| 0 <= i && i + 1 < tail.len() implies !(#[trigger] tail[i] == '/'
                && tail[i + 1] == '/') by {
                assert(tail[i] == path[end + 1 + i]);
                assert(tail[i + 1] == path[end + 1 + i + 1]);
            }
        }
        assert(!has_dot_piece(tail)) by {
            assert forall|i: int| 0 <= i < tail.len() implies !(#[trigger] tail[i] == '.' && (i == 0
                || tail[i - 1] == '/') && (i + 1 == tail.len() || tail[i + 1] == '/')) by {
                assert(tail[i] == path[end + 1 + i]);
                if i > 0 {
                    assert(tail[i - 1] == path[end + i]);
                }
                if i + 1 < tail.len() {
                    assert(tail[i + 1] == path[end + 1 + i + 1]);
                }
            }
        }
        lemma_normalized(tail);
        if begins_with_dot(tail) {
            assert(tail[0] == '.');
        }
        assert(trim_front(tail) == tail);
        assert(trim_front(rest) == tail);
        assert(path_names(rest) == path_names(tail));
        assert(path_names(path) =~= seq![first] + path_names(tail));
        lemma_slashed_first(first, path_names(tail));
        assert(first.push('/') + tail =~= path);
    }
}

/// An accepted path is normalized: it is its own names with one slash between
/// each two, so that no two accepted texts name the same place.
pub proof fn accepted_paths_are_normalized(path: Seq<char>, allow_root: bool)
    requires
        relative_path_outcome(path, allow_root) is None,
    ensures
        slashed(path_names(path)) == path,
{
    if path.len() > 0 {
        lemma_normalized(path);
    } else {
        assert(path_names(path) =~= Seq::<Seq<char>>::empty());
        assert(path =~= Seq::<char>::empty());
    }
}

/// Every accepted name is an accepted path of one name.
pub proof fn accepted_names_are_accepted_paths(value: Seq<char>)
    requires
        single_name_outcome(value) is Ok,
    ensures
        relative_path_outcome(value, false) is None,
        path_names(value) == seq![single_name_outcome(value)->Ok_0],
{
    assert(path_names(value) =~= seq![path_names(value)[0]]);
}

proof fn lemma_trimmed_names(path: Seq<char>)
    ensures
        path_names(trim_front(path)) == path_names(path),
        trim_front(trim_front(path)) == trim_front(path),
    decreases path.len(),
{
    if path.len() > 0 && (path[0] == '/' || begins_with_dot(path)) {
        lemma_trimmed_names(path.drop_first());
    }
}

proof fn lemma_piece_before_slash(path: Seq<char>, rest: Seq<char>)
    ensures
        piece_len(path + seq!['/'] + rest) == piece_len(path),
    decreases path.len(),
{
    let all = path + seq!['/'] + rest;
    if path.len() > 0 && path[0] != '/' {
        lemma_piece_before_slash(path.drop_first(), rest);
        assert(all.drop_first() =~= path.drop_first() + seq!['/'] + rest);
    } else {
        assert(all[0] == '/');
    }
}

proof fn lemma_names_around_slash(path: Seq<char>, rest: Seq<char>)
    ensures
        path_names(path + seq!['/'] + rest) == path_names(path) + path_names(rest),
    decreases path.len(),
{
    let all = path + seq!['/'] + rest;
    if path.len() == 0 {
        assert(all[0] == '/');
        assert(all.drop_first() =~= rest);
        assert(trim_front(all) == trim_front(rest));
        lemma_trimmed_names(all);
        lemma_trimmed_names(rest);
        assert(path_names(path) =~= Seq::<Seq<char>>::empty());
        assert(path_names(all) =~= path_names(path) + path_names(rest));
    } else if path[0] == '/' || begins_with_dot(path) {
        let shorter = path.drop_first();
        assert(all[0] == path[0]);
        assert(path.len() > 1 ==> all[1] == path[1]);
        assert(path.len() == 1 ==> all[1] == '/');
        assert(all.drop_first() =~= shorter + seq!['/'] + rest);
        lemma_names_around_slash(shorter, rest);
        lemma_trimmed_names(all);
        lemma_trimmed_names(all.drop_first());
        lemma_trimmed_names(path);
        lemma_trimmed_names(shorter);
    } else {
        assert(all[0] == path[0]);
        assert(path.len() > 1 ==> all[1] == path[1]);
        lemma_piece_len(path);
        lemma_piece_before_slash(path, rest);
        let n = piece_len(path) as int;
        assert(trim_front(path) == path);
        assert(trim_front(all) == all);
        assert(all.take(n) =~= path.take(n));
        assert(all.skip(n) =~= path.skip(n) + seq!['/'] + rest);
        lemma_names_around_slash(path.skip(n), rest);
        assert(path_names(all) =~= path_names(path) + path_names(rest));
    }
}

/// Joining a path to a base puts its names behind those of the base.
pub proof fn joined_paths_have_the_names_of_both(base: Seq<char>, relative: Seq<char>)
    ensures
        !is_absolute_path(relative) ==> path_names(joined(base, relative)) == path_names(base)
            + path_names(relative),
        is_absolute_path(relative) ==> joined(base, relative) == relative,
        base.len() > 0 && !is_absolute_path(relative) ==> is_absolute_path(joined(base, relative))
            == is_absolute_path(base),
        base.len() == 0 ==> joined(base, relative) == relative,
{
    if !is_absolute_path(relative) {
        if base.len() == 0 {
            assert(base + relative =~= relative);
            assert(path_names(base) =~= Seq::<Seq<char>>::empty());
            assert(path_names(base) + path_names(relative) =~= path_names(relative));
        } else if base.last() == '/' {
            let shorter = base.drop_last();
            let nothing: Seq<char> = Seq::empty();
            assert(base =~= shorter + seq!['/'] + nothing);
            assert(base + relative =~= shorter + seq!['/'] + relative);
            lemma_names_around_slash(shorter, nothing);
            lemma_names_around_slash(shorter, relative);
            assert(path_names(nothing) =~= Seq::<Seq<char>>::empty());
            assert(path_names(base) =~= path_names(shorter));
        } else {
            assert(base.push('/') + relative =~= base + seq!['/'] + relative);
            lemma_names_around_slash(base, relative);
        }
    }
}

proof fn lemma_trim_back_names(path: Seq<char>)
    ensures
        path_names(trim_back(path)) == path_names(path),
        trim_back(path).len() > 1 ==> trim_back(path).last() != '/' && !(trim_back(path).last()
            == '.' && trim_back(path)[trim_back(path).len() - 2] == '/'),
        path.len() > 0 ==> trim_back(path).len() > 0,
    decreases path.len(),
{
    if path.len() > 1 && (path.last() == '/' || (path.last() == '.' && path[path.len() - 2]
        == '/')) {
        let shorter = path.drop_last();
        lemma_trim_back_names(shorter);
        let nothing: Seq<char> = Seq::empty();
        assert(path_names(nothing) =~= Seq::<Seq<char>>::empty());
        if path.last() == '/' {
            assert(path =~= shorter + seq!['/'] + nothing);
            lemma_names_around_slash(shorter, nothing);
            assert(path_names(path) =~= path_names(shorter));
        } else {
            let start = shorter.drop_last();
            let dot = seq!['.'];
            assert(path =~= start + seq!['/'] + dot);
            assert(shorter =~= start + seq!['/'] + nothing);
            lemma_names_around_slash(start, dot);
            lemma_names_around_slash(start, nothing);
            assert(dot.drop_first() =~= nothing);
            lemma_trimmed_names(dot);
            lemma_trimmed_names(nothing);
            assert(trim_front(dot) == trim_front(nothing));
            assert(path_names(path) =~= path_names(shorter));
        }
    }
}

proof fn lemma_through_last_slash(path: Seq<char>)
    ensures
        through_last_slash(path).len() <= path.len(),
        path.take(through_last_slash(path).len() as int) == through_last_slash(path),
        through_last_slash(path).len() > 0 ==> through_last_slash(path).last() == '/',
        forall|i: int|
            through_last_slash(path).len() <= i < path.len() ==> #[trigger] path[i] != '/',
    decreases path.len(),
{
    if path.len() > 0 && path.last() != '/' {
        let shorter = path.drop_last();
        lemma_through_last_slash(shorter);
        let n = through_last_slash(path).len() as int;
        assert(path.take(n) =~= shorter.take(n));
        assert forall|i: int| n <= i < path.len() implies #[trigger] path[i] != '/' by {
            if i < shorter.len() {
                assert(shorter[i] == path[i]);
            }
        }
    } else {
        assert(path.take(path.len() as int) =~= path);
    }
}

proof fn lemma_whole_piece(piece: Seq<char>)
    requires
        forall|i: int| 0 <= i < piece.len() ==> #[trigger] piece[i] != '/',
    ensures
        piece_len(piece) == piece.len(),
    decreases piece.len(),
{
    if piece.len() > 0 {
        let rest = piece.drop_first();
        assert(piece[0] != '/');
        assert forall|i: int| 0 <= i < rest.len() implies #[trigger] rest[i] != '/' by {
            assert(rest[i] == piece[i + 1]);
        }
        lemma_whole_piece(rest);
    }
}

proof fn lemma_single_name(piece: Seq<char>)
    requires
        piece.len() > 0,
        piece != seq!['.'],
        forall|i: int| 0 <= i < piece.len() ==> #[trigger] piece[i] != '/',
    ensures
        path_names(piece) == seq![piece],
{
    lemma_whole_piece(piece);
    assert(piece[0] != '/');
    if piece.len() == 1 && piece[0] == '.' {
        assert(piece =~= seq!['.']);
    }
    if piece.len() > 1 {
        assert(piece[1] != '/');
    }
    assert(trim_front(piece) == piece);
    let n = piece.len() as int;
    assert(piece.take(n) =~= piece);
    assert(piece.skip(n) =~= Seq::<char>::empty());
    assert(path_names(piece.skip(n)) =~= Seq::<Seq<char>>::empty());
    assert(path_names(piece) =~= seq![piece]);
}

/// The directory of a path has all of its names but the last.
pub proof fn parents_lack_the_last_name(path: Seq<char>)
    requires
        path_names(path).len() > 0,
    ensures
        parent_of(path) is Some,
        path_names(parent_of(path)->Some_0) == path_names(path).drop_last(),
{
    let trimmed = trim_back(path);
    lemma_trim_back_names(path);
    lemma_through_last_slash(trimmed);
    let start = through_last_slash(trimmed);
    let n = start.len() as int;
    let piece = trimmed.skip(n);
    lemma_trim_back_names(start);
    let nothing: Seq<char> = Seq::empty();
    assert(path_names(nothing) =~= Seq::<Seq<char>>::empty());
    assert forall|i: int| 0 <= i < piece.len() implies #[trigger] piece[i] != '/' by {
        assert(piece[i] == trimmed[n + i]);
    }
    if n > 0 {
        let shorter = start.drop_last();
        assert(start =~= shorter + seq!['/'] + nothing);
        assert(trimmed =~= shorter + seq!['/'] + piece) by {
            assert(trimmed =~= trimmed.take(n) + piece);
        }
        lemma_names_around_slash(shorter, nothing);
        lemma_names_around_slash(shorter, piece);
        assert(path_names(start) =~= path_names(shorter));
        if piece.len() == 0 {
            assert(trimmed =~= start);
            assert(trimmed.len() == 1);
            assert(shorter =~= nothing);
            assert(false);
        }
        if piece == seq!['.'] {
            assert(trimmed.last() == '.');
            assert(trimmed[trimmed.len() - 2] == start.last());
            assert(false);
        }
        lemma_single_name(piece);
        assert(path_names(path).drop_last() =~= path_names(shorter));
    } else {
        assert(piece =~= trimmed);
        assert(start =~= nothing);
        if piece.len() == 0 {
            assert(trimmed =~= nothing);
        }
        if piece == seq!['.'] {
            lemma_trimmed_names(piece);
            assert(piece.drop_first() =~= nothing);
            lemma_trimmed_names(nothing);
            assert(trim_front(piece) == trim_front(nothing));
            assert(false);
        }
        lemma_single_name(piece);
        assert(path_names(path).drop_last() =~= Seq::<Seq<char>>::empty());
    }
}

proof fn lemma_behind_names(path: Seq<char>, count: nat)
    requires
        count <= path_names(path).len(),
    ensures
        path_names(behind_names(path, count)) == path_names(path).skip(count as int),
    decreases count,
{
    lemma_trimmed_names(path);
    if count == 0 {
        assert(path_names(path).skip(0) =~= path_names(path));
    } else {
        let rest = trim_front(path);
        let behind = rest.skip(piece_len(rest) as int);
        lemma_behind_names(behind, (count - 1) as nat);
        assert(path_names(path).skip(count as int) =~= path_names(behind).skip(count - 1));
    }
}

/// What is left of a path behind a base has the names behind those of the base.
pub proof fn stripped_paths_have_the_other_names(path: Seq<char>, base: Seq<char>)
    ensures
        stripped(path, base) is Some <==> is_below(path, base),
        stripped(path, base) matches Some(rest) ==> path_names(path) == path_names(base)
            + path_names(rest),
{
    if is_below(path, base) {
        let n = path_names(base).len();
        assert(path_names(base) == path_names(path).take(n as int));
        lemma_behind_names(path, n);
        lemma_trim_back_names(path);
        lemma_trim_back_names(behind_names(path, n));
        assert(path_names(path) =~= path_names(path).take(n as int) + path_names(path).skip(
            n as int,
        ));
        if n == 0 {
            assert(path_names(path).skip(0) =~= path_names(path));
        }
    }
}

/// A step up takes back the name before it, and one at the top goes nowhere.
pub proof fn steps_up_take_names_back(
    before: Seq<Seq<char>>,
    name: Seq<char>,
    behind: Seq<Seq<char>>,
)
    requires
        name != dot_dot(),
    ensures
        collapsed(before + seq![name, dot_dot()] + behind) == collapsed(before + behind),
        collapsed(seq![dot_dot()] + behind) == collapsed(behind),
    decreases behind.len(),
{
    let there = seq![name, dot_dot()];
    if behind.len() == 0 {
        let all = before + there + behind;
        assert(all.last() == dot_dot());
        let named = all.drop_last();
        assert(named =~= before + seq![name]);
        assert(named.last() == name);
        assert(named.drop_last() =~= before);
        assert(collapsed(named) == collapsed(before).push(name));
        assert(collapsed(before).push(name).drop_last() =~= collapsed(before));
        assert(before + behind =~= before);
        let up = seq![dot_dot()] + behind;
        assert(up.drop_last() =~= Seq::<Seq<char>>::empty());
        assert(up.last() == dot_dot());
        assert(behind =~= Seq::<Seq<char>>::empty());
    } else {
        let shorter = behind.drop_last();
        steps_up_take_names_back(before, name, shorter);
        let all = before + there + behind;
        assert(all.drop_last() =~= before + there + shorter);
        assert(all.last() == behind.last());
        assert((before + behind).drop_last() =~= before + shorter);
        assert((before + behind).last() == behind.last());
        let up = seq![dot_dot()] + behind;
        assert(up.drop_last() =~= seq![dot_dot()] + shorter);
        assert(up.last() == behind.last());
    }
}

/// Names without a step up stay as they are.
pub proof fn names_without_steps_up_stay(names: Seq<Seq<char>>)
    requires
        forall|i: int| 0 <= i < names.len() ==> #[trigger] names[i] != dot_dot(),
    ensures
        collapsed(names) == names,
    decreases names.len(),
{
    if names.len() > 0 {
        let rest = names.drop_last();
        assert forall|i: int| 0 <= i < rest.len() implies #[trigger] rest[i] != dot_dot() by {
            assert(rest[i] == names[i]);
        }
        names_without_steps_up_stay(rest);
        assert(names[names.len() - 1] != dot_dot());
        assert(rest.push(names.last()) =~= names);
    }
}

/// The name can stand in a path by itself.
pub open spec fn is_name(name: Seq<char>) -> bool {
    &&& name.len() > 0
    &&& name != seq!['.']
    &&& forall|i: int| 0 <= i < name.len() ==> #[trigger] name[i] != '/'
}

/// What a path is made of are names.
pub proof fn paths_are_made_of_names(path: Seq<char>, i: int)
    requires
        0 <= i < path_names(path).len(),
    ensures
        is_name(path_names(path)[i]),
    decreases path.len(),
{
    let rest = trim_front(path);
    lemma_trim_front(path);
    lemma_piece_len(rest);
    let n = piece_len(rest) as int;
    if i == 0 {
        let name = rest.take(n);
        assert(path_names(path)[0] == name);
        assert forall|j: int| 0 <= j < name.len() implies #[trigger] name[j] != '/' by {
            assert(name[j] == rest[j]);
        }
        if name == seq!['.'] {
            assert(rest[0] == name[0]);
            assert(n == 1);
            assert(begins_with_dot(rest));
        }
    } else {
        assert(path_names(path)[i] == path_names(rest.skip(n))[i - 1]);
        paths_are_made_of_names(rest.skip(n), i - 1);
    }
}

/// Names that are written into a path are read back from it.
pub proof fn written_names_are_read_back(absolute: bool, names: Seq<Seq<char>>)
    requires
        forall|i: int| 0 <= i < names.len() ==> is_name(#[trigger] names[i]),
    ensures
        path_names(slashed(names)) == names,
        path_names(rendered(absolute, names)) == names,
        is_absolute_path(rendered(absolute, names)) == absolute,
    decreases names.len(),
{
    let nothing: Seq<char> = Seq::empty();
    assert(path_names(nothing) =~= Seq::<Seq<char>>::empty());
    if names.len() == 0 {
        assert(path_names(slashed(names)) =~= names);
    } else {
        let rest = names.drop_last();
        let last = names[names.len() - 1];
        assert(is_name(last));
        lemma_single_name(last);
        if names.len() == 1 {
            assert(names =~= seq![last]);
        } else {
            assert forall|i: int| 0 <= i < rest.len() implies is_name(#[trigger] rest[i]) by {
                assert(is_name(names[i]));
            }
            written_names_are_read_back(absolute, rest);
            assert(slashed(names) =~= slashed(rest) + seq!['/'] + last);
            lemma_names_around_slash(slashed(rest), last);
            assert(path_names(slashed(names)) =~= names);
        }
    }
    lemma_names_around_slash(nothing, slashed(names));
    assert(nothing + seq!['/'] + slashed(names) =~= seq!['/'] + slashed(names));
    assert(path_names(seq!['/'] + slashed(names)) =~= names);
    if !absolute {
        lemma_slashed_begins_with_a_name(names);
    }
}

proof fn lemma_slashed_begins_with_a_name(names: Seq<Seq<char>>)
    requires
        forall|i: int| 0 <= i < names.len() ==> is_name(#[trigger] names[i]),
    ensures
        names.len() == 0 ==> slashed(names).len() == 0,
        names.len() > 0 ==> slashed(names).len() > 0 && slashed(names)[0] == names[0][0],
        !is_absolute_path(slashed(names)),
    decreases names.len(),
{
    if names.len() == 1 {
        assert(is_name(names[0]));
        assert(names[0][0] != '/');
    } else if names.len() > 1 {
        let rest = names.drop_last();
        assert forall|i: int| 0 <= i < rest.len() implies is_name(#[trigger] rest[i]) by {
            assert(is_name(names[i]));
        }
        lemma_slashed_begins_with_a_name(rest);
        assert(is_name(names[0]));
        assert(rest[0] == names[0]);
        assert(slashed(names)[0] == slashed(rest)[0]);
        assert(names[0][0] != '/');
    }
}

/// Collapsing makes no names up.
pub proof fn collapsed_names_were_there(names: Seq<Seq<char>>, i: int)
    requires
        0 <= i < collapsed(names).len(),
    ensures
        names.contains(collapsed(names)[i]),
        collapsed(names)[i] != dot_dot(),
    decreases names.len(),
{
    let rest = names.drop_last();
    if names.last() != dot_dot() && i == collapsed(names).len() - 1 {
        assert(names[names.len() - 1] == collapsed(names)[i]);
    } else {
        assert(collapsed(names)[i] == collapsed(rest)[i]);
        collapsed_names_were_there(rest, i);
        let k = rest.index_of(collapsed(rest)[i]);
        assert(names[k] == collapsed(names)[i]);
    }
}

/// A configured path leads where the base and the value lead together, with every
/// step up taken; it is absolute if they are.
pub proof fn configured_paths_lead_where_they_say(base: Seq<char>, value: Seq<char>)
    ensures
        ({
            let both = joined(base, value);
            let path = rendered(is_absolute_path(both), collapsed(path_names(both)));
            &&& path_names(path) == collapsed(path_names(both))
            &&& is_absolute_path(path) == is_absolute_path(both)
        }),
{
    let both = joined(base, value);
    let names = collapsed(path_names(both));
    assert forall|i: int| 0 <= i < names.len() implies is_name(#[trigger] names[i]) by {
        collapsed_names_were_there(path_names(both), i);
        let k = path_names(both).index_of(names[i]);
        assert(path_names(both)[k] == names[i]);
        paths_are_made_of_names(both, k);
    }
    written_names_are_read_back(is_absolute_path(both), names);
}

/// Only the two slashes are exchanged in a path for the outside.
pub proof fn told_paths_have_forward_slashes(path: Seq<char>, i: int)
    requires
        0 <= i < path.len(),
    ensures
        forward_slashed(path).len() == path.len(),
        path[i] == '\\' ==> forward_slashed(path)[i] == '/',
        path[i] != '\\' ==> forward_slashed(path)[i] == path[i],
{
}

/// The names can lead to an entry below a root.
pub open spec fn are_good_names(names: Seq<Seq<char>>) -> bool {
    &&& 0 < names.len() <= MAX_DEPTH
    &&& forall|i: int|
        0 <= i < names.len() ==> {
            &&& is_name(#[trigger] names[i])
            &&& names[i] != dot_dot()
            &&& !is_reserved(names[i])
            &&& !names[i].contains('\0')
            &&& !names[i].contains('\\')
        }
}

proof fn lemma_slashed_is_clean(names: Seq<Seq<char>>)
    requires
        names.len() > 0,
        forall|i: int|
            0 <= i < names.len() ==> is_name(#[trigger] names[i]) && !names[i].contains('\0')
                && !names[i].contains('\\'),
    ensures
        slashed(names).len() > 0,
        slashed(names)[0] != '/',
        slashed(names).last() != '/',
        !has_double_slash(slashed(names)),
        !has_dot_piece(slashed(names)),
        !slashed(names).contains('\0'),
        !slashed(names).contains('\\'),
    decreases names.len(),
{
    let all = slashed(names);
    let last = names[names.len() - 1];
    assert(is_name(last));
    assert(last[0] != '/');
    assert(last[last.len() - 1] != '/');
    if names.len() == 1 {
        if has_dot_piece(all) {
            let i = choose|i: int|
                0 <= i < all.len() && #[trigger] all[i] == '.' && (i == 0 || all[i - 1] == '/') && (
                i + 1 == all.len() || all[i + 1] == '/');
            assert(i == 0);
            assert(all.len() == 1);
            assert(all =~= seq!['.']);
        }
    } else {
        let rest = names.drop_last();
        assert forall|i: int| 0 <= i < rest.len() implies is_name(#[trigger] rest[i])
            && !rest[i].contains('\0') && !rest[i].contains('\\') by {
            assert(rest[i] == names[i]);
        }
        lemma_slashed_is_clean(rest);
        let front = slashed(rest);
        let n = front.len() as int;
        assert(all =~= front + seq!['/'] + last);
        assert forall|i: int| 0 <= i < n implies all[i] == #[trigger] front[i] by {}
        assert forall|k: int| 0 <= k < last.len() implies all[n + 1 + k] == #[trigger] last[k] by {}
        if has_double_slash(all) {
            let i = choose|i: int|
                0 <= i && i + 1 < all.len() && #[trigger] all[i] == '/' && all[i + 1] == '/';
            if i + 1 < n {
                assert(front[i] == '/' && front[i + 1] == '/');
            } else if i < n {
                assert(front[i] == '/');
            } else {
                assert(last[i - n] == '/');
            }
        }
        if has_dot_piece(all) {
            let i = choose|i: int|
                0 <= i < all.len() && #[trigger] all[i] == '.' && (i == 0 || all[i - 1] == '/') && (
                i + 1 == all.len() || all[i + 1] == '/');
            if i < n {
                assert(front[i] == '.');
                assert(i == 0 || front[i - 1] == '/');
                assert(i + 1 == n || front[i + 1] == '/');
            } else {
                assert(i > n);
                let k = i - n - 1;
                assert(last[k] == '.');
                if k > 0 {
                    assert(last[k - 1] == '/');
                }
                if k + 1 < last.len() {
                    assert(last[k + 1] == '/');
                }
                assert(last =~= seq!['.']);
            }
        }
        if all.contains('\0') {
            let i = all.index_of('\0');
            if i < n {
                assert(front[i] == '\0');
            } else {
                assert(last[i - n - 1] == '\0');
            }
        }
        if all.contains('\\') {
            let i = all.index_of('\\');
            if i < n {
                assert(front[i] == '\\');
            } else {
                assert(last[i - n - 1] == '\\');
            }
        }
    }
}

proof fn lemma_none_refused(names: Seq<Seq<char>>)
    requires
        forall|i: int|
            0 <= i < names.len() ==> #[trigger] names[i] != dot_dot() && !is_reserved(names[i]),
    ensures
        first_refused(names) is None,
    decreases names.len(),
{
    if names.len() > 0 {
        let rest = names.drop_first();
        assert(names[0] != dot_dot());
        assert forall|i: int| 0 <= i < rest.len() implies #[trigger] rest[i] != dot_dot()
            && !is_reserved(rest[i]) by {
            assert(rest[i] == names[i + 1]);
        }
        lemma_none_refused(rest);
    }
}

/// Good names with single slashes between them are an accepted path, unless it looks
/// like one that begins with a drive letter.
pub proof fn good_paths_are_accepted(names: Seq<Seq<char>>, allow_root: bool)
    requires
        are_good_names(names),
        slashed(names).len() > 1 ==> slashed(names)[1] != ':' || slashed(names)[0] >= '\u{80}',
    ensures
        relative_path_outcome(slashed(names), allow_root) is None,
{
    lemma_slashed_is_clean(names);
    written_names_are_read_back(false, names);
    lemma_none_refused(names);
}

} // verus!
