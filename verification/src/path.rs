//! Paths as byte strings with `/` between their segments.
//!
//! These are the paths of Unix, for which the crate is written.
//!
//! A path is read as its components: segments that are empty or `.` carry none,
//! except a `.` that opens the path.
use crate::text::from_utf8_lossy;
use vstd::prelude::*;

verus! {

/// The byte that separates the segments of a path (`/`).
pub const SEPARATOR: u8 = 0x2f;

/// The byte that a `.` or `..` segment is made of, and that opens an extension.
pub const DOT: u8 = 0x2e;

/// An owned path.
#[derive(Debug, Clone, PartialEq, Eq)]
pub struct UnixPath {
    pub bytes: Vec<u8>,
}

impl View for UnixPath {
    type V = Seq<u8>;

    open spec fn view(&self) -> Seq<u8> {
        self.bytes@
    }
}

/// One component of a path; `N` holds the name of an ordinary file or directory.
#[derive(Debug, Clone, PartialEq, Eq)]
pub enum Component<N> {
    /// The root directory, in front of an absolute path.
    RootDir,
    /// A `.` that opens a relative path.
    CurDir,
    /// A `..` segment.
    ParentDir,
    /// Any other segment.
    Normal(N),
}

impl View for Component<Vec<u8>> {
    type V = Component<Seq<u8>>;

    open spec fn view(&self) -> Component<Seq<u8>> {
        match self {
            Component::RootDir => Component::RootDir,
            Component::CurDir => Component::CurDir,
            Component::ParentDir => Component::ParentDir,
            Component::Normal(name) => Component::Normal(name@),
        }
    }
}

/// The components that a vector of them stands for.
pub open spec fn component_views(parts: Seq<Component<Vec<u8>>>) -> Seq<Component<Seq<u8>>> {
    parts.map_values(|part: Component<Vec<u8>>| part@)
}

/// The segment `.`.
pub open spec fn dot() -> Seq<u8> {
    seq![DOT]
}

/// The segment `..`.
pub open spec fn dot_dot() -> Seq<u8> {
    seq![DOT, DOT]
}

/// What stands between the separators of a path, in order, empty segments too.
pub open spec fn segments(path: Seq<u8>) -> Seq<Seq<u8>>
    decreases path.len(),
{
    if path.len() == 0 {
        seq![Seq::<u8>::empty()]
    } else {
        let before = segments(path.drop_last());
        if path.last() == SEPARATOR {
            before.push(Seq::<u8>::empty())
        } else {
            before.drop_last().push(before.last().push(path.last()))
        }
    }
}

/// The component that one segment stands for, if any.
pub open spec fn segment_part(segment: Seq<u8>) -> Seq<Component<Seq<u8>>> {
    if segment.len() == 0 || segment == dot() {
        Seq::empty()
    } else if segment == dot_dot() {
        seq![Component::ParentDir]
    } else {
        seq![Component::Normal(segment)]
    }
}

/// The components that a run of segments stands for.
pub open spec fn segment_parts(run: Seq<Seq<u8>>) -> Seq<Component<Seq<u8>>>
    decreases run.len(),
{
    if run.len() == 0 {
        Seq::empty()
    } else {
        segment_parts(run.drop_last()) + segment_part(run.last())
    }
}

/// Whether a path starts at the root directory.
pub open spec fn is_absolute(path: Seq<u8>) -> bool {
    path.len() > 0 && path[0] == SEPARATOR
}

/// What opens a path: the root of an absolute one, or a leading `.`.
pub open spec fn lead(path: Seq<u8>) -> Seq<Component<Seq<u8>>> {
    if is_absolute(path) {
        seq![Component::RootDir]
    } else if segments(path)[0] == dot() {
        seq![Component::CurDir]
    } else {
        Seq::empty()
    }
}

/// The components of a path.
pub open spec fn components(path: Seq<u8>) -> Seq<Component<Seq<u8>>> {
    lead(path) + segment_parts(segments(path))
}

/// A path has at least one segment, none of which holds a separator.
pub proof fn lemma_segments(path: Seq<u8>)
    ensures
        segments(path).len() >= 1,
        forall|i: int, j: int|
            0 <= i < segments(path).len() && 0 <= j < segments(path)[i].len()
                ==> #[trigger] segments(path)[i][j] != SEPARATOR,
    decreases path.len(),
{
    if path.len() > 0 {
        lemma_segments(path.drop_last());
        let before = segments(path.drop_last());
        assert forall|i: int, j: int|
            0 <= i < segments(path).len() && 0 <= j < segments(path)[i].len()
            implies #[trigger] segments(path)[i][j] != SEPARATOR by {
            if i < before.len() - 1 {
                assert(segments(path)[i] == before[i]);
                assert(before[i][j] != SEPARATOR);
            } else if path.last() != SEPARATOR && j < before.last().len() {
                assert(before[before.len() - 1][j] != SEPARATOR);
            } else if path.last() == SEPARATOR && i == before.len() - 1 {
                assert(before[i][j] != SEPARATOR);
            }
        }
    }
}

/// Whether two byte strings are equal.
pub fn same_bytes(a: &[u8], b: &[u8]) -> (res: bool)
    ensures
        res == (a@ == b@),
{
    if a.len() != b.len() {
        return false;
    }
    for i in 0..a.len()
        invariant
            a@.len() == b@.len(),
            forall|j: int| 0 <= j < i ==> a@[j] == b@[j],
    {
        if a[i] != b[i] {
            return false;
        }
    }
    assert(a@ =~= b@);
    true
}

/// A copy of a byte string.
pub fn copy_bytes(bytes: &[u8]) -> (res: Vec<u8>)
    ensures
        res@ == bytes@,
{
    let mut res: Vec<u8> = Vec::new();
    for i in 0..bytes.len()
        invariant
            res@ == bytes@.take(i as int),
    {
        res.push(bytes[i]);
        assert(bytes@.take(i + 1) =~= bytes@.take(i as int).push(bytes@[i as int]));
    }
    assert(bytes@.take(bytes@.len() as int) =~= bytes@);
    res
}

/// Adds the component that the segment from `start` to `end` stands for, if any.
fn push_segment(parts: &mut Vec<Component<Vec<u8>>>, path: &[u8], start: usize, end: usize)
    requires
        start <= end <= path@.len(),
    ensures
        component_views(final(parts)@) == component_views(old(parts)@) + segment_part(
            path@.subrange(start as int, end as int),
        ),
{
    let segment = vstd::slice::slice_subrange(path, start, end);
    let ghost before = component_views(parts@);
    if segment.len() == 0 || (segment.len() == 1 && segment[0] == DOT) {
        proof {
            if segment@.len() == 1 {
                assert(segment@ =~= dot());
            }
            assert(before =~= before + segment_part(segment@));
        }
        return ;
    }
    assert(segment@ != dot());
    if segment.len() == 2 && segment[0] == DOT && segment[1] == DOT {
        assert(segment@ =~= dot_dot());
        parts.push(Component::ParentDir);
    } else {
        assert(segment@ != dot_dot());
        parts.push(Component::Normal(copy_bytes(segment)));
    }
    assert(component_views(parts@) =~= before + segment_part(segment@));
}

/// The components of a path.
pub fn path_components(path: &[u8]) -> (parts: Vec<Component<Vec<u8>>>)
    ensures
        component_views(parts@) == components(path@),
{
    let mut parts: Vec<Component<Vec<u8>>> = Vec::new();
    let mut start: usize = 0;
    let ghost mut closed: Seq<Seq<u8>> = Seq::empty();
    proof {
        lemma_segments(path@);
    }
    if path.len() > 0 && path[0] == SEPARATOR {
        parts.push(Component::RootDir);
    } else if path.len() > 0 && path[0] == DOT && (path.len() == 1 || path[1] == SEPARATOR) {
        parts.push(Component::CurDir);
    }
    proof {
        lemma_leading_dot(path@);
        assert(component_views(parts@) =~= lead(path@));
        assert(path@.take(0) =~= Seq::<u8>::empty());
        assert(path@.subrange(0, 0) =~= Seq::<u8>::empty());
        assert(segments(path@.take(0)) =~= closed.push(path@.subrange(0, 0)));
        assert(component_views(parts@) =~= lead(path@) + segment_parts(closed));
    }
    for i in 0..path.len()
        invariant
            start <= i <= path@.len(),
            segments(path@.take(i as int)) == closed.push(path@.subrange(start as int, i as int)),
            component_views(parts@) == lead(path@) + segment_parts(closed),
    {
        proof {
            assert(path@.take(i + 1).drop_last() =~= path@.take(i as int));
        }
        if path[i] == SEPARATOR {
            push_segment(&mut parts, path, start, i);
            proof {
                let segment = path@.subrange(start as int, i as int);
                assert(closed.push(segment).drop_last() =~= closed);
                closed = closed.push(segment);
                assert(path@.subrange(i + 1, i + 1) =~= Seq::<u8>::empty());
            }
            start = i + 1;
            assert(component_views(parts@) =~= lead(path@) + segment_parts(closed));
        } else {
            proof {
                let segment = path@.subrange(start as int, i as int);
                assert(closed.push(segment).drop_last() =~= closed);
                assert(segment.push(path@[i as int]) =~= path@.subrange(start as int, i + 1));
            }
        }
    }
    push_segment(&mut parts, path, start, path.len());
    proof {
        let segment = path@.subrange(start as int, path@.len() as int);
        assert(path@.take(path@.len() as int) =~= path@);
        assert(closed.push(segment).drop_last() =~= closed);
        assert(component_views(parts@) =~= components(path@));
    }
    parts
}

/// The first segment of a path reaches to its first separator, at the returned place.
proof fn lemma_first_segment(path: Seq<u8>) -> (end: int)
    ensures
        0 <= end <= path.len(),
        segments(path)[0] == path.take(end),
        end < path.len() ==> path[end] == SEPARATOR && segments(path).len() >= 2,
        end == path.len() ==> segments(path).len() == 1,
        forall|i: int| 0 <= i < end ==> path[i] != SEPARATOR,
    decreases path.len(),
{
    if path.len() == 0 {
        assert(path.take(0) =~= Seq::<u8>::empty());
        0
    } else {
        let shorter = path.drop_last();
        let before = segments(shorter);
        let end = lemma_first_segment(shorter);
        if end < shorter.len() || path.last() == SEPARATOR {
            assert(path.take(end) =~= shorter.take(end));
            assert forall|i: int| 0 <= i < end implies path[i] != SEPARATOR by {
                assert(shorter[i] != SEPARATOR);
            }
            end
        } else {
            assert(shorter.take(end) =~= shorter);
            assert(path.take(end + 1) =~= shorter.push(path.last()));
            assert forall|i: int| 0 <= i < end + 1 implies path[i] != SEPARATOR by {
                if i < end {
                    assert(shorter[i] != SEPARATOR);
                }
            }
            end + 1
        }
    }
}

/// The first segment of a path is `.` only where the path is `.` or opens with `./`.
proof fn lemma_leading_dot(path: Seq<u8>)
    ensures
        segments(path)[0] == dot() <==> path.len() > 0 && path[0] == DOT && (path.len() == 1
            || path[1] == SEPARATOR),
{
    let end = lemma_first_segment(path);
    if end == 1 && path[0] == DOT {
        assert(path.take(1) =~= dot());
    }
    if segments(path)[0] == dot() {
        assert(path.take(end).len() == 1);
        assert(path.take(end)[0] == DOT);
    }
}

/// What `base` leads to when `rest` is followed from there.
pub open spec fn join(base: Seq<u8>, rest: Seq<u8>) -> Seq<u8> {
    if is_absolute(rest) {
        rest
    } else if base.len() == 0 || base.last() == SEPARATOR {
        base + rest
    } else {
        base.push(SEPARATOR) + rest
    }
}

/// Whether `path` lies at or below `root`, component by component.
pub open spec fn lies_within(path: Seq<u8>, root: Seq<u8>) -> bool {
    components(root).is_prefix_of(components(path))
}

/// The name that a path ends with, where its last component is an ordinary name.
pub open spec fn file_name(path: Seq<u8>) -> Option<Seq<u8>> {
    let parts = components(path);
    if parts.len() == 0 {
        None
    } else {
        match parts.last() {
            Component::Normal(name) => Some(name),
            _ => None,
        }
    }
}

/// The place of the last `.` in a name, or -1.
pub open spec fn last_dot(name: Seq<u8>) -> int
    decreases name.len(),
{
    if name.len() == 0 {
        -1
    } else if name.last() == DOT {
        name.len() - 1
    } else {
        last_dot(name.drop_last())
    }
}

/// What stands in front of the extension of a name.
pub open spec fn stem(name: Seq<u8>) -> Seq<u8> {
    if last_dot(name) > 0 {
        name.take(last_dot(name))
    } else {
        name
    }
}

/// What follows the last `.` of the name that a path ends with; a `.` that opens
/// the name does not count.
pub open spec fn extension(path: Seq<u8>) -> Option<Seq<u8>> {
    match file_name(path) {
        Some(name) if last_dot(name) > 0 => Some(name.skip(last_dot(name) + 1)),
        _ => None,
    }
}

/// The path without the bytes at its end that add nothing to its components.
pub open spec fn trimmed(path: Seq<u8>) -> Seq<u8>
    decreases path.len(),
{
    if path.len() > 0 && components(path.drop_last()) == components(path) {
        trimmed(path.drop_last())
    } else {
        path
    }
}

/// The directory that holds what a path names; none for the root and the empty path.
pub open spec fn parent(path: Seq<u8>) -> Option<Seq<u8>> {
    let parts = components(path);
    if parts.len() == 0 || parts.last() is RootDir {
        None
    } else {
        let text = trimmed(path);
        Some(trimmed(text.take(text.len() - segments(text).last().len())))
    }
}

/// The path with the extension of its file name replaced by, or made, `extension`; an
/// empty one leaves it without.
pub open spec fn with_extension(path: Seq<u8>, extension: Seq<u8>) -> Seq<u8> {
    match file_name(path) {
        None => path,
        Some(name) => {
            let text = trimmed(path);
            let kept = text.take(text.len() - name.len() + stem(name).len());
            if extension.len() == 0 {
                kept
            } else {
                kept.push(DOT) + extension
            }
        },
    }
}

/// Two stretches of segments read one after the other.
proof fn lemma_parts_concat(first: Seq<Seq<u8>>, second: Seq<Seq<u8>>)
    ensures
        segment_parts(first + second) == segment_parts(first) + segment_parts(second),
    decreases second.len(),
{
    if second.len() == 0 {
        assert(first + second =~= first);
        assert(segment_parts(first) + segment_parts(second) =~= segment_parts(first));
    } else {
        lemma_parts_concat(first, second.drop_last());
        assert((first + second).drop_last() =~= first + second.drop_last());
        assert(segment_parts(first + second) =~= segment_parts(first) + segment_parts(second));
    }
}

/// A separator parts the segments in front of it from those behind it.
proof fn lemma_segments_concat(first: Seq<u8>, second: Seq<u8>)
    ensures
        segments(first.push(SEPARATOR) + second) == segments(first) + segments(second),
    decreases second.len(),
{
    let whole = first.push(SEPARATOR) + second;
    lemma_segments(first);
    lemma_segments(second);
    if second.len() == 0 {
        assert(whole.drop_last() =~= first);
        assert(segments(whole) =~= segments(first) + segments(second));
    } else {
        lemma_segments_concat(first, second.drop_last());
        lemma_segments(second.drop_last());
        assert(whole.drop_last() =~= first.push(SEPARATOR) + second.drop_last());
        assert(segments(whole) =~= segments(first) + segments(second));
    }
}

/// A byte string without a separator is its only segment.
pub proof fn lemma_single_segment(name: Seq<u8>)
    requires
        !name.contains(SEPARATOR),
    ensures
        segments(name) == seq![name],
{
    let end = lemma_first_segment(name);
    if end < name.len() {
        assert(name.contains(name[end]));
    }
    assert(name.take(end) =~= name);
    assert(segments(name) =~= seq![name]);
}

/// Following a relative path keeps the components of where it starts, and adds those
/// of its own segments.
pub proof fn lemma_join_components(base: Seq<u8>, rest: Seq<u8>)
    requires
        base.len() > 0,
        !is_absolute(rest),
    ensures
        components(join(base, rest)) == components(base) + segment_parts(segments(rest)),
{
    let whole = join(base, rest);
    if base.last() == SEPARATOR {
        let before = base.drop_last();
        assert(before.push(SEPARATOR) =~= base);
        lemma_segments_concat(before, rest);
        lemma_segments(before);
        assert(segments(base).drop_last() =~= segments(before));
        assert(segment_parts(segments(base)) =~= segment_parts(segments(before)));
        lemma_parts_concat(segments(before), segments(rest));
        assert(segments(whole)[0] == segments(before)[0]);
        assert(segments(base)[0] == segments(before)[0]);
    } else {
        lemma_segments_concat(base, rest);
        lemma_segments(base);
        lemma_parts_concat(segments(base), segments(rest));
        assert(segments(whole)[0] == segments(base)[0]);
    }
    assert(whole[0] == base[0]);
    assert(components(whole) =~= components(base) + segment_parts(segments(rest)));
}

/// The last segment of a path is what it ends with.
proof fn lemma_last_segment(path: Seq<u8>)
    ensures
        segments(path).last().len() <= path.len(),
        path.skip(path.len() - segments(path).last().len()) == segments(path).last(),
        segments(path).last().len() < path.len() ==> path[path.len() - segments(path).last().len()
            - 1] == SEPARATOR,
    decreases path.len(),
{
    lemma_segments(path);
    if path.len() == 0 {
        assert(path.skip(0) =~= segments(path).last());
    } else {
        let shorter = path.drop_last();
        lemma_last_segment(shorter);
        lemma_segments(shorter);
        let k = path.len() - segments(path).last().len();
        assert(path.skip(k) =~= segments(path).last());
    }
}

/// When the last byte of a path adds nothing to its components.
proof fn lemma_redundant_end(path: Seq<u8>)
    requires
        path.len() > 0,
    ensures
        components(path.drop_last()) == components(path) <==> path.len() >= 2 && (path.last()
            == SEPARATOR || (path.last() == DOT && path[path.len() - 2] == SEPARATOR)),
{
    let shorter = path.drop_last();
    let before = segments(shorter);
    lemma_segments(shorter);
    lemma_segments(path);
    lemma_last_segment(shorter);
    lemma_leading_dot(path);
    lemma_leading_dot(shorter);
    let end = lemma_first_segment(shorter);
    let old_last = before.last();
    let done = segment_parts(before.drop_last());
    assert(components(shorter) == lead(shorter) + (done + segment_part(old_last)));
    if path.last() == SEPARATOR {
        assert(segments(path).drop_last() =~= before);
        assert(segment_parts(segments(path)) =~= segment_parts(before));
        if path.len() == 1 {
            assert(components(path).len() == 1 + segment_parts(before).len());
            assert(before =~= seq![Seq::<u8>::empty()]);
            assert(done =~= Seq::empty());
            assert(components(shorter).len() == 0);
        } else {
            assert(segments(path)[0] == before[0]);
            assert(lead(path) =~= lead(shorter));
        }
    } else {
        let new_last = old_last.push(path.last());
        assert(segments(path).drop_last() =~= before.drop_last());
        assert(segments(path).last() == new_last);
        assert(components(path) == lead(path) + (done + segment_part(new_last)));
        if path.last() == DOT && path.len() >= 2 && path[path.len() - 2] == SEPARATOR {
            assert(shorter.last() == SEPARATOR);
            if old_last.len() > 0 {
                assert(old_last.last() == shorter.last());
                assert(before[before.len() - 1][old_last.len() - 1] != SEPARATOR);
            }
            assert(new_last =~= dot());
            assert(before.len() >= 2);
            assert(segments(path)[0] == before[0]);
            assert(lead(path) =~= lead(shorter));
            assert(components(path) =~= components(shorter));
        } else if new_last == dot() {
            assert(new_last.drop_last() =~= old_last);
            assert(old_last.len() == 0);
            assert(path.last() == new_last[0]);
            if shorter.len() > 0 {
                assert(shorter[shorter.len() - 1] == SEPARATOR);
            }
            assert(path.len() == 1);
            assert(done =~= Seq::empty());
            assert(components(shorter).len() == 0);
            assert(components(path).len() == 1);
        } else {
            let added = segment_part(new_last);
            assert(added.len() == 1);
            assert(components(path).last() == added[0]);
            if components(shorter) == components(path) {
                if segment_part(old_last).len() == 1 {
                    assert(components(shorter).last() == segment_part(old_last)[0]);
                    assert(old_last.len() + 1 == new_last.len());
                } else if before.len() >= 2 {
                    assert(lead(path) =~= lead(shorter));
                } else {
                    assert(done =~= Seq::empty());
                    assert(lead(path).len() == 0);
                    assert(components(shorter) =~= lead(shorter));
                }
            }
        }
    }
}

/// How much of a path is left when it is trimmed.
fn trimmed_len(path: &[u8]) -> (len: usize)
    ensures
        len <= path@.len(),
        trimmed(path@) == path@.take(len as int),
{
    let mut len: usize = path.len();
    assert(path@.take(len as int) =~= path@);
    while len >= 2 && (path[len - 1] == SEPARATOR || (path[len - 1] == DOT && path[len - 2]
        == SEPARATOR))
        invariant
            len <= path@.len(),
            trimmed(path@) == trimmed(path@.take(len as int)),
        decreases len,
    {
        proof {
            lemma_redundant_end(path@.take(len as int));
            assert(path@.take(len as int).drop_last() =~= path@.take(len - 1));
        }
        len = len - 1;
    }
    proof {
        if len > 0 {
            lemma_redundant_end(path@.take(len as int));
        }
    }
    len
}

/// Where the last segment of the first `len` bytes of a path starts.
fn last_segment_start(path: &[u8], len: usize) -> (start: usize)
    requires
        len <= path@.len(),
    ensures
        start <= len,
        start == len - segments(path@.take(len as int)).last().len(),
{
    let ghost text = path@.take(len as int);
    let ghost first = len - segments(text).last().len();
    proof {
        lemma_last_segment(text);
        lemma_segments(text);
    }
    let mut start: usize = len;
    while start > 0 && path[start - 1] != SEPARATOR
        invariant
            first <= start <= len <= path@.len(),
            text == path@.take(len as int),
            first > 0 ==> text[first - 1] == SEPARATOR,
            first >= 0,
        decreases start,
    {
        assert(text[start - 1] == path@[start - 1]);
        start = start - 1;
    }
    proof {
        if start > first {
            let last = segments(text).last();
            let at = start - 1 - first;
            assert(text.skip(first)[at] == text[start - 1]);
            assert(segments(text)[segments(text).len() - 1][at] != SEPARATOR);
        }
    }
    start
}

/// The place of the last `.` in a name.
fn find_last_dot(name: &[u8]) -> (place: Option<usize>)
    ensures
        match place {
            Some(at) => at == last_dot(name@) && at < name@.len(),
            None => last_dot(name@) == -1,
        },
{
    let mut len: usize = name.len();
    assert(name@.take(len as int) =~= name@);
    while len > 0
        invariant
            len <= name@.len(),
            last_dot(name@) == last_dot(name@.take(len as int)),
        decreases len,
    {
        if name[len - 1] == DOT {
            return Some(len - 1);
        }
        assert(name@.take(len as int).drop_last() =~= name@.take(len - 1));
        len = len - 1;
    }
    None
}

/// Whether two components are equal.
fn same_component(a: &Component<Vec<u8>>, b: &Component<Vec<u8>>) -> (res: bool)
    ensures
        res == (a@ == b@),
{
    match (a, b) {
        (Component::RootDir, Component::RootDir) => true,
        (Component::CurDir, Component::CurDir) => true,
        (Component::ParentDir, Component::ParentDir) => true,
        (Component::Normal(x), Component::Normal(y)) => same_bytes(x.as_slice(), y.as_slice()),
        _ => false,
    }
}

impl UnixPath {
    /// The path that a text spells.
    pub fn from_text(text: &str) -> (path: UnixPath)
        ensures
            path@ == vstd::utf8::encode_utf8(text@),
    {
        UnixPath { bytes: copy_bytes(text.as_bytes()) }
    }

    /// The path as text, to be shown; what is not UTF-8 in it is replaced.
    pub fn to_text(&self) -> (text: String)
        ensures
            text@ == crate::text::lossy_text(self@),
            vstd::utf8::valid_utf8(self@) ==> vstd::utf8::encode_utf8(text@) == self@,
    {
        from_utf8_lossy(self.bytes.as_slice())
    }

    /// A copy of the path.
    pub fn copied(&self) -> (path: UnixPath)
        ensures
            path@ == self@,
    {
        UnixPath { bytes: copy_bytes(self.bytes.as_slice()) }
    }

    /// Whether the path is empty.
    pub fn is_empty(&self) -> (res: bool)
        ensures
            res == (self@.len() == 0),
    {
        self.bytes.len() == 0
    }

    /// The components of the path.
    pub fn components(&self) -> (parts: Vec<Component<Vec<u8>>>)
        ensures
            component_views(parts@) == components(self@),
    {
        path_components(self.bytes.as_slice())
    }

    /// What the path leads to when `rest` is followed from there.
    pub fn join(&self, rest: &[u8]) -> (path: UnixPath)
        ensures
            path@ == join(self@, rest@),
    {
        if rest.len() > 0 && rest[0] == SEPARATOR {
            return UnixPath { bytes: copy_bytes(rest) };
        }
        let mut bytes = copy_bytes(self.bytes.as_slice());
        if bytes.len() > 0 && bytes[bytes.len() - 1] != SEPARATOR {
            bytes.push(SEPARATOR);
        }
        let mut tail = copy_bytes(rest);
        bytes.append(&mut tail);
        UnixPath { bytes }
    }

    /// Whether the path lies at or below `root`, component by component.
    pub fn lies_within(&self, root: &UnixPath) -> (res: bool)
        ensures
            res == lies_within(self@, root@),
    {
        let parts = self.components();
        let base = root.components();
        let ghost all = components(self@);
        let ghost first = components(root@);
        if base.len() > parts.len() {
            return false;
        }
        for i in 0..base.len()
            invariant
                base@.len() <= parts@.len(),
                all == components(self@),
                first == components(root@),
                component_views(parts@) == all,
                component_views(base@) == first,
                forall|j: int| 0 <= j < i ==> all[j] == first[j],
        {
            assert(parts@[i as int]@ == all[i as int]);
            assert(base@[i as int]@ == first[i as int]);
            if !same_component(&parts[i], &base[i]) {
                assert(all.subrange(0, first.len() as int)[i as int] == all[i as int]);
                return false;
            }
        }
        assert(first =~= all.subrange(0, first.len() as int));
        true
    }

    /// The name that the path ends with, where its last component is an ordinary name.
    pub fn file_name(&self) -> (name: Option<Vec<u8>>)
        ensures
            match name {
                Some(bytes) => file_name(self@) == Some(bytes@),
                None => file_name(self@) is None,
            },
    {
        let mut parts = self.components();
        let ghost all = parts@;
        assert(all.len() == components(self@).len());
        match parts.pop() {
            Some(last) => {
                assert(last@ == components(self@).last());
                match last {
                    Component::Normal(name) => Some(name),
                    _ => None,
                }
            },
            None => None,
        }
    }

    /// What follows the last `.` of the name that the path ends with; a `.` that opens
    /// the name does not count.
    pub fn extension(&self) -> (res: Option<Vec<u8>>)
        ensures
            match res {
                Some(bytes) => extension(self@) == Some(bytes@),
                None => extension(self@) is None,
            },
    {
        let name = match self.file_name() {
            Some(name) => name,
            None => return None,
        };
        match find_last_dot(name.as_slice()) {
            Some(at) if at > 0 => {
                let len = name.len();
                let rest = vstd::slice::slice_subrange(name.as_slice(), at + 1, len);
                assert(rest@ =~= name@.skip(at + 1));
                Some(copy_bytes(rest))
            },
            _ => None,
        }
    }

    /// The directory that holds what the path names; none for the root and the empty path.
    pub fn parent(&self) -> (res: Option<UnixPath>)
        ensures
            match res {
                Some(path) => parent(self@) == Some(path@),
                None => parent(self@) is None,
            },
    {
        let parts = self.components();
        assert(parts@.len() == components(self@).len());
        if parts.len() == 0 {
            return None;
        }
        assert(parts@.last()@ == components(self@).last());
        if let Component::RootDir = parts[parts.len() - 1] {
            return None;
        }
        let path = self.bytes.as_slice();
        let len = trimmed_len(path);
        let start = last_segment_start(path, len);
        let above = vstd::slice::slice_subrange(path, 0, start);
        let kept = trimmed_len(above);
        proof {
            assert(path@.take(len as int).take(start as int) =~= above@);
        }
        let res = UnixPath { bytes: copy_bytes(vstd::slice::slice_subrange(above, 0, kept)) };
        assert(above@.subrange(0, kept as int) =~= above@.take(kept as int));
        Some(res)
    }

    /// The path with the extension of its file name replaced by, or made, `extension`; an
    /// empty one leaves it without.
    pub fn with_extension(&self, extension: &[u8]) -> (res: UnixPath)
        ensures
            res@ == with_extension(self@, extension@),
    {
        let name = match self.file_name() {
            Some(name) => name,
            None => return self.copied(),
        };
        let path = self.bytes.as_slice();
        let len = trimmed_len(path);
        proof {
            lemma_trimmed_name(self@);
        }
        let kept = match find_last_dot(name.as_slice()) {
            Some(at) if at > 0 => len - name.len() + at,
            _ => len,
        };
        let mut bytes = copy_bytes(vstd::slice::slice_subrange(path, 0, kept));
        if extension.len() > 0 {
            bytes.push(DOT);
            let mut tail = copy_bytes(extension);
            bytes.append(&mut tail);
        }
        proof {
            let text = trimmed(self@);
            assert(text.take(text.len() - name@.len() + stem(name@).len()) =~= path@.subrange(
                0,
                kept as int,
            ));
        }
        UnixPath { bytes }
    }
}

/// Trimming keeps the components.
pub proof fn lemma_trimmed_components(path: Seq<u8>)
    ensures
        components(trimmed(path)) == components(path),
        trimmed(path).len() <= path.len(),
    decreases path.len(),
{
    if path.len() > 0 && components(path.drop_last()) == components(path) {
        lemma_trimmed_components(path.drop_last());
    }
}

/// A trimmed path has no byte at its end that adds nothing.
proof fn lemma_trimmed_end(path: Seq<u8>)
    ensures
        trimmed(path).len() > 0 ==> components(trimmed(path).drop_last()) != components(
            trimmed(path),
        ),
    decreases path.len(),
{
    if path.len() > 0 && components(path.drop_last()) == components(path) {
        lemma_trimmed_end(path.drop_last());
    }
}

/// A path that ends with a file name ends with that name once it is trimmed.
proof fn lemma_trimmed_name(path: Seq<u8>)
    ensures
        match file_name(path) {
            Some(name) => {
                &&& segments(trimmed(path)).last() == name
                &&& name.len() <= trimmed(path).len()
            },
            None => true,
        },
{
    let text = trimmed(path);
    lemma_trimmed_components(path);
    lemma_trimmed_end(path);
    lemma_segments(text);
    lemma_last_segment(text);
    let last = segments(text).last();
    let done = segment_parts(segments(text).drop_last());
    if let Some(name) = file_name(path) {
        assert(components(text) == lead(text) + (done + segment_part(last)));
        assert(text.len() > 0);
        lemma_redundant_end(text);
        if segment_part(last).len() == 0 {
            if last.len() == 0 {
                assert(text.last() == SEPARATOR);
                assert(text.len() == 1);
                assert(text.drop_last() =~= Seq::<u8>::empty());
                assert(segments(text).drop_last() =~= seq![Seq::<u8>::empty()]);
                reveal_with_fuel(segment_parts, 2);
                assert(done.len() == 0);
            } else {
                assert(text.last() == last[0]);
                if text.len() >= 2 {
                    assert(text[text.len() - 2] == SEPARATOR);
                }
                assert(text.len() == 1);
                let end = lemma_first_segment(text);
                assert(segments(text).drop_last() =~= Seq::empty());
                assert(done.len() == 0);
            }
            assert(components(text) =~= lead(text));
        } else {
            assert(components(text).last() == segment_part(last)[0]);
        }
    }
}

/// The empty path has no components.
pub proof fn lemma_empty_path(path: Seq<u8>)
    requires
        path.len() == 0,
    ensures
        components(path) == Seq::<Component<Seq<u8>>>::empty(),
        segment_parts(segments(path)) == Seq::<Component<Seq<u8>>>::empty(),
{
    reveal_with_fuel(segment_parts, 2);
    assert(segments(path)[0].len() == 0);
    assert(segment_parts(segments(path)) =~= Seq::empty());
    assert(components(path) =~= Seq::empty());
}

/// The components of the directory above are those of the path but for the last.
pub proof fn law_parent_drops_last_component(path: Seq<u8>)
    ensures
        match parent(path) {
            Some(above) => components(path).len() > 0 && components(above) == components(
                path,
            ).drop_last(),
            None => components(path).len() == 0 || components(path).last() is RootDir,
        },
{
    let text = trimmed(path);
    lemma_trimmed_components(path);
    lemma_trimmed_end(path);
    lemma_segments(text);
    lemma_last_segment(text);
    let last = segments(text).last();
    let above = text.take(text.len() - last.len());
    if parent(path) is Some {
        lemma_trimmed_components(above);
        if text.len() == 0 {
            lemma_empty_path(text);
        } else {
            lemma_redundant_end(text);
            if last.len() == 0 {
                assert(text.last() == SEPARATOR);
                assert(text.drop_last() =~= Seq::<u8>::empty());
                reveal_with_fuel(segment_parts, 3);
                assert(segments(text) =~= seq![Seq::<u8>::empty(), Seq::<u8>::empty()]);
                assert(segments(text).drop_last() =~= seq![Seq::<u8>::empty()]);
                assert(components(text) =~= seq![Component::RootDir]);
            }
            assert(text.last() == last.last());
            assert(!last.contains(SEPARATOR)) by {
                assert forall|i: int| 0 <= i < last.len() implies last[i] != SEPARATOR by {
                    assert(segments(text)[segments(text).len() - 1][i] != SEPARATOR);
                }
            }
            lemma_single_segment(last);
            if above.len() == 0 {
                assert(last =~= text);
                assert(segments(text).drop_last() =~= Seq::empty());
                assert(segment_parts(segments(text).drop_last()) =~= Seq::empty());
                lemma_empty_path(above);
                if last == dot() {
                    assert(components(text) =~= seq![Component::CurDir]);
                } else {
                    assert(lead(text) =~= Seq::empty()) by {
                        assert(last.contains(text[0]));
                    }
                    assert(components(text).len() == 1);
                }
                assert(components(text).drop_last() =~= components(above));
            } else {
                let before = above.drop_last();
                assert(before.push(SEPARATOR) =~= above);
                assert(text =~= above + last);
                lemma_segments_concat(before, last);
                lemma_segments(before);
                assert(segments(above).drop_last() =~= segments(before));
                assert(segments(text).drop_last() =~= segments(before));
                if last == dot() {
                    assert(text[text.len() - 2] == SEPARATOR);
                }
                assert(segment_part(last).len() == 1);
                assert(segments(text)[0] == segments(above)[0]);
                assert(lead(text) =~= lead(above));
                assert(components(text).drop_last() =~= components(above));
            }
        }
    }
}

/// Whether a byte string is an ordinary name: a single segment that carries a name.
pub open spec fn is_plain_name(name: Seq<u8>) -> bool {
    name.len() > 0 && !name.contains(SEPARATOR) && name != dot() && name != dot_dot()
}

/// Whether a path leads downwards from `root`, through ordinary names only.
pub open spec fn is_below(root: Seq<u8>, path: Seq<u8>) -> bool {
    &&& lies_within(path, root)
    &&& components(path).len() > components(root).len()
    &&& forall|i: int|
        components(root).len() <= i < components(path).len()
            ==> #[trigger] components(path)[i] is Normal
}

/// The names among the components of a path are ordinary names.
pub proof fn law_component_names_are_plain(path: Seq<u8>)
    ensures
        forall|i: int|
            0 <= i < components(path).len() && (#[trigger] components(path)[i]) is Normal
                ==> is_plain_name(components(path)[i]->Normal_0),
{
    lemma_segments(path);
    let all = segments(path);
    assert forall|i: int| 0 <= i < all.len() implies !(#[trigger] all[i]).contains(
        SEPARATOR,
    ) by {
        assert forall|j: int| 0 <= j < all[i].len() implies all[i][j] != SEPARATOR by {
            assert(segments(path)[i][j] != SEPARATOR);
        }
    }
    lemma_part_names_are_plain(all);
    assert forall|i: int|
        0 <= i < components(path).len() && (#[trigger] components(path)[i]) is Normal
        implies is_plain_name(components(path)[i]->Normal_0) by {
        let k = lead(path).len();
        assert(i >= k);
        assert(components(path)[i] == segment_parts(all)[i - k]);
    }
}

/// Segments without separators carry ordinary names.
proof fn lemma_part_names_are_plain(run: Seq<Seq<u8>>)
    requires
        forall|i: int| 0 <= i < run.len() ==> !(#[trigger] run[i]).contains(SEPARATOR),
    ensures
        forall|i: int|
            0 <= i < segment_parts(run).len() ==> match #[trigger] segment_parts(run)[i] {
                Component::Normal(name) => is_plain_name(name),
                Component::ParentDir => true,
                _ => false,
            },
    decreases run.len(),
{
    if run.len() > 0 {
        let before = run.drop_last();
        assert forall|i: int| 0 <= i < before.len() implies !(#[trigger] before[i]).contains(
            SEPARATOR,
        ) by {
            assert(before[i] == run[i]);
        }
        lemma_part_names_are_plain(before);
        assert(!run[run.len() - 1].contains(SEPARATOR));
        assert forall|i: int|
            0 <= i < segment_parts(run).len() implies match #[trigger] segment_parts(run)[i] {
            Component::Normal(name) => is_plain_name(name),
            Component::ParentDir => true,
            _ => false,
        } by {
            if i < segment_parts(before).len() {
                assert(segment_parts(run)[i] == segment_parts(before)[i]);
            } else {
                assert(segment_parts(run)[i] == segment_part(run.last())[i - segment_parts(
                    before,
                ).len()]);
            }
        }
    }
}

/// Following an ordinary name adds it to the components.
pub proof fn law_join_plain_name(base: Seq<u8>, name: Seq<u8>)
    requires
        is_plain_name(name),
    ensures
        components(join(base, name)) == components(base).push(Component::Normal(name)),
{
    lemma_single_segment(name);
    assert(!is_absolute(name)) by {
        assert(name.contains(name[0]));
    }
    assert(segments(name).drop_last() =~= Seq::empty());
    assert(segment_parts(segments(name).drop_last()) =~= Seq::empty());
    assert(segment_parts(segments(name)) =~= seq![Component::Normal(name)]);
    if base.len() > 0 {
        lemma_join_components(base, name);
        assert(components(join(base, name)) =~= components(base).push(Component::Normal(name)));
    } else {
        lemma_empty_path(base);
        assert(join(base, name) =~= name);
        assert(lead(name) =~= Seq::empty());
        assert(components(name) =~= components(base).push(Component::Normal(name)));
    }
}

/// Giving a file another extension gives its name another one, in the same directory.
pub proof fn law_with_extension_is_a_sibling(path: Seq<u8>, extension: Seq<u8>)
    requires
        extension.len() > 0,
        !extension.contains(SEPARATOR),
    ensures
        match file_name(path) {
            Some(name) => components(with_extension(path, extension)) == components(
                path,
            ).drop_last().push(Component::Normal(stem(name).push(DOT) + extension)),
            None => with_extension(path, extension) == path,
        },
{
    if let Some(name) = file_name(path) {
        let text = trimmed(path);
        let dir = text.take(text.len() - name.len());
        let renamed = stem(name).push(DOT) + extension;
        lemma_trimmed_name(path);
        lemma_last_segment(text);
        law_parent_drops_last_component(path);
        lemma_trimmed_components(dir);
        law_component_names_are_plain(path);
        assert(components(path)[components(path).len() - 1] is Normal);
        lemma_last_dot(name);
        assert forall|i: int| 0 <= i < renamed.len() implies renamed[i] != SEPARATOR by {
            if i < stem(name).len() {
                assert(name.contains(name[i]));
                assert(renamed[i] == name[i]);
            } else if i > stem(name).len() {
                assert(extension.contains(extension[i - stem(name).len() - 1]));
            }
        }
        law_join_plain_name(dir, renamed);
        assert(text =~= dir + name);
        assert(text.take(text.len() - name.len() + stem(name).len()) =~= dir + stem(name));
        assert(with_extension(path, extension) =~= join(dir, renamed));
    }
}

/// The last `.` of a name is within it.
pub proof fn lemma_last_dot(name: Seq<u8>)
    ensures
        -1 <= last_dot(name) < name.len(),
    decreases name.len(),
{
    if name.len() > 0 {
        lemma_last_dot(name.drop_last());
    }
}

/// Following a relative path ends at or below where it starts.
pub proof fn law_join_lies_within(base: Seq<u8>, rest: Seq<u8>)
    requires
        !is_absolute(rest),
    ensures
        lies_within(join(base, rest), base),
{
    if base.len() > 0 {
        lemma_join_components(base, rest);
        assert(components(base) =~= components(join(base, rest)).subrange(
            0,
            components(base).len() as int,
        ));
    } else {
        lemma_empty_path(base);
        assert(components(base) =~= components(join(base, rest)).subrange(0, 0));
    }
}

/// A path without a separator is a single component: none where it is empty, else the `.`,
/// the `..` or the name, whole, that it spells.
pub proof fn law_single_segment_is_one_component(segment: Seq<u8>)
    requires
        !segment.contains(0x2fu8),
    ensures
        segment.len() == 0 ==> components(segment) == Seq::<Component<Seq<u8>>>::empty(),
        segment == seq![0x2eu8] ==> components(segment) == seq![Component::<Seq<u8>>::CurDir],
        segment == seq![0x2eu8, 0x2eu8] ==> components(segment) == seq![
            Component::<Seq<u8>>::ParentDir,
        ],
        segment.len() > 0 && segment != seq![0x2eu8] && segment != seq![0x2eu8, 0x2eu8]
            ==> components(segment) == seq![Component::Normal(segment)],
{
    lemma_single_segment(segment);
    if segment.len() > 0 {
        assert(segment.contains(segment[0]));
    }
    assert(segments(segment).drop_last() =~= Seq::empty());
    assert(segment_parts(segments(segment).drop_last()) =~= Seq::empty());
    assert(segment_parts(segments(segment)) =~= segment_part(segment));
    assert(dot() =~= seq![0x2eu8]);
    assert(dot_dot() =~= seq![0x2eu8, 0x2eu8]);
    assert(dot().len() == 1 && dot_dot().len() == 2);
    assert(components(segment) =~= lead(segment) + segment_part(segment));
}

/// Each further segment of a path adds one component: nothing where it is empty or `.`, else
/// the `..` or the name, whole, that it spells. What stands in front of a leading separator is
/// the root.
pub proof fn law_each_segment_adds_its_component(base: Seq<u8>, segment: Seq<u8>)
    requires
        !segment.contains(0x2fu8),
    ensures
        ({
            let before = if base.len() == 0 {
                seq![Component::RootDir]
            } else {
                components(base)
            };
            let after = components(base.push(0x2fu8) + segment);
            if segment.len() == 0 || segment == seq![0x2eu8] {
                after == before
            } else if segment == seq![0x2eu8, 0x2eu8] {
                after == before.push(Component::ParentDir)
            } else {
                after == before.push(Component::Normal(segment))
            }
        }),
{
    let whole = base.push(SEPARATOR) + segment;
    lemma_segments(base);
    lemma_segments_concat(base, segment);
    lemma_single_segment(segment);
    lemma_parts_concat(segments(base), seq![segment]);
    assert(seq![segment].drop_last() =~= Seq::empty());
    assert(segment_parts(seq![segment].drop_last()) =~= Seq::empty());
    assert(segment_parts(seq![segment]) =~= segment_part(segment));
    assert(dot() =~= seq![0x2eu8]);
    assert(dot_dot() =~= seq![0x2eu8, 0x2eu8]);
    assert(segments(whole)[0] == segments(base)[0]);
    if base.len() == 0 {
        lemma_empty_path(base);
        assert(whole[0] == SEPARATOR);
        assert(components(whole) =~= seq![Component::RootDir] + segment_part(segment));
    } else {
        assert(whole[0] == base[0]);
        assert(components(whole) =~= components(base) + segment_part(segment));
    }
    let before = if base.len() == 0 {
        seq![Component::RootDir]
    } else {
        components(base)
    };
    assert(components(whole) == before + segment_part(segment));
    assert(before + segment_part(segment) =~= if segment.len() == 0 || segment == seq![0x2eu8] {
        before
    } else if segment == seq![0x2eu8, 0x2eu8] {
        before.push(Component::ParentDir)
    } else {
        before.push(Component::Normal(segment))
    });
}

/// An absolute path leads where it says, from anywhere. A relative one is added to the end of
/// where it is followed from, byte for byte, with one separator between the two, unless there
/// is nothing, or a separator already, in front of it.
pub proof fn law_following_a_path_adds_it_at_the_end(base: Seq<u8>, rest: Seq<u8>)
    ensures
        rest.len() > 0 && rest[0] == 0x2f ==> join(base, rest) == rest,
        rest.len() == 0 || rest[0] != 0x2f ==> {
            let whole = join(base, rest);
            let between: int = if base.len() == 0 || base.last() == 0x2f {
                0
            } else {
                1
            };
            &&& whole.len() == base.len() + between + rest.len()
            &&& whole.take(base.len() as int) == base
            &&& between == 1 ==> whole[base.len() as int] == 0x2f
            &&& whole.skip(base.len() + between) == rest
        },
{
    if rest.len() == 0 || rest[0] != 0x2f {
        let whole = join(base, rest);
        assert(whole.take(base.len() as int) =~= base);
        if base.len() == 0 || base.last() == SEPARATOR {
            assert(whole.skip(base.len() as int) =~= rest);
        } else {
            assert(whole.skip(base.len() as int + 1) =~= rest);
        }
    }
}

/// A path lies at or below another exactly where it starts with all of its components.
pub proof fn law_lying_within_is_starting_with_the_components(path: Seq<u8>, root: Seq<u8>)
    ensures
        lies_within(path, root) <==> components(root).len() <= components(path).len() && (forall|
            i: int,
        |
            0 <= i < components(root).len() ==> #[trigger] components(path)[i] == components(
                root,
            )[i]),
{
    let first = components(root);
    let all = components(path);
    if lies_within(path, root) {
        assert forall|i: int| 0 <= i < first.len() implies #[trigger] all[i] == first[i] by {
            assert(all.subrange(0, first.len() as int)[i] == first[i]);
        }
    } else if first.len() <= all.len() && (forall|i: int|
        0 <= i < first.len() ==> #[trigger] all[i] == first[i]) {
        assert(first =~= all.subrange(0, first.len() as int));
    }
}

/// A path ends with a file name exactly where its last component is a name, and that is it.
pub proof fn law_file_name_is_the_last_component(path: Seq<u8>)
    ensures
        file_name(path) is Some <==> components(path).len() > 0 && components(path).last()
            is Normal,
        file_name(path) is Some ==> components(path).last() == Component::Normal(
            file_name(path)->0,
        ),
{
}

/// Where the last `.` of a name is.
pub proof fn lemma_last_dot_at(front: Seq<u8>, end: Seq<u8>)
    requires
        !end.contains(DOT),
    ensures
        last_dot(front.push(DOT) + end) == front.len(),
    decreases end.len(),
{
    let name = front.push(DOT) + end;
    if end.len() == 0 {
        assert(name =~= front.push(DOT));
    } else {
        assert(end.contains(end[end.len() - 1]));
        assert(name.drop_last() =~= front.push(DOT) + end.drop_last());
        assert forall|i: int| 0 <= i < end.drop_last().len() implies end.drop_last()[i] != DOT by {
            assert(end.contains(end[i]));
        }
        lemma_last_dot_at(front, end.drop_last());
    }
}

/// A name without a `.` but, perhaps, in front has none further on.
pub proof fn lemma_no_dot(name: Seq<u8>)
    requires
        forall|i: int| 0 < i < name.len() ==> name[i] != DOT,
    ensures
        last_dot(name) <= 0,
    decreases name.len(),
{
    lemma_last_dot(name);
    if name.len() > 1 {
        assert(name[name.len() - 1] != DOT);
        lemma_no_dot(name.drop_last());
    }
}

/// The extension of a path is all that follows the last `.` of the name that it ends with,
/// where something stands in front of that `.`.
pub proof fn law_extension_follows_the_last_dot(path: Seq<u8>, front: Seq<u8>, end: Seq<u8>)
    requires
        components(path).len() > 0,
        components(path).last() == Component::Normal(front.push(0x2eu8) + end),
        front.len() > 0,
        !end.contains(0x2eu8),
    ensures
        extension(path) == Some(end),
{
    let name = front.push(DOT) + end;
    lemma_last_dot_at(front, end);
    assert(name.skip(front.len() as int + 1) =~= end);
}

/// A path that ends with no name, or with one that holds no `.` but, perhaps, in front, has no
/// extension.
pub proof fn law_no_extension_without_a_dot(path: Seq<u8>)
    requires
        components(path).len() == 0 || !(components(path).last() is Normal) || (forall|i: int|
            0 < i < components(path).last()->Normal_0.len()
                ==> components(path).last()->Normal_0[i] != 0x2e),
    ensures
        extension(path) is None,
{
    if let Some(name) = file_name(path) {
        lemma_no_dot(name);
    }
}

/// A path that ends with a plain name is trimmed already.
proof fn lemma_named_path(dir: Seq<u8>, name: Seq<u8>)
    requires
        is_plain_name(name),
        dir.len() == 0 || dir.last() == SEPARATOR,
    ensures
        trimmed(dir + name) == dir + name,
        file_name(dir + name) == Some(name),
{
    let path = dir + name;
    law_join_plain_name(dir, name);
    assert(!is_absolute(name)) by {
        assert(name.contains(name[0]));
    }
    assert(join(dir, name) =~= path);
    assert(components(path).last() == Component::Normal(name));
    assert(name.contains(name[name.len() - 1]));
    assert(path.last() == name.last());
    lemma_redundant_end(path);
    if path.len() >= 2 && path.last() == DOT && path[path.len() - 2] == SEPARATOR {
        if name.len() >= 2 {
            assert(path[path.len() - 2] == name[name.len() - 2]);
            assert(name.contains(name[name.len() - 2]));
        } else {
            assert(name =~= dot());
        }
    }
}

/// Giving a file another extension changes what follows the last `.` of its name, or adds to
/// the name where it has no extension, and an empty one takes the extension away; all that
/// stands in front stays, byte for byte.
pub proof fn law_with_extension_keeps_what_is_in_front(
    dir: Seq<u8>,
    front: Seq<u8>,
    end: Option<Seq<u8>>,
    extension: Seq<u8>,
)
    requires
        dir.len() == 0 || dir.last() == 0x2f,
        front.len() > 0,
        !front.contains(0x2fu8),
        match end {
            Some(own) => !own.contains(0x2eu8) && !own.contains(0x2fu8) && front.push(0x2eu8) + own
                != seq![0x2eu8, 0x2eu8],
            None => (forall|i: int| 0 < i < front.len() ==> front[i] != 0x2e) && front
                != seq![0x2eu8],
        },
    ensures
        ({
            let name = match end {
                Some(own) => front.push(0x2eu8) + own,
                None => front,
            };
            with_extension(dir + name, extension) == if extension.len() > 0 {
                dir + front.push(0x2eu8) + extension
            } else {
                dir + front
            }
        }),
{
    let name = match end {
        Some(own) => front.push(DOT) + own,
        None => front,
    };
    assert(dot() =~= seq![0x2eu8]);
    assert(dot_dot() =~= seq![0x2eu8, 0x2eu8]);
    assert(!name.contains(SEPARATOR)) by {
        assert forall|i: int| 0 <= i < name.len() implies name[i] != SEPARATOR by {
            if i < front.len() {
                assert(front.contains(front[i]));
            } else if i > front.len() {
                assert(end->0.contains(end->0[i - front.len() - 1]));
            }
        }
    }
    match end {
        Some(own) => {
            lemma_last_dot_at(front, own);
            assert(name.take(front.len() as int) =~= front);
        },
        None => {
            lemma_no_dot(front);
            if front == dot_dot() {
                assert(front[1] == DOT);
            }
        },
    }
    lemma_named_path(dir, name);
    let path = dir + name;
    assert(stem(name) == front);
    assert(path.take(path.len() - name.len() + front.len()) =~= dir + front);
    if extension.len() > 0 {
        assert(with_extension(path, extension) =~= dir + front.push(0x2eu8) + extension);
    }
}

/// What holds something is the path in front of its name, byte for byte, where that path ends
/// with no separator or `.` of its own.
pub proof fn law_parent_is_what_is_in_front(base: Seq<u8>, name: Seq<u8>)
    requires
        is_plain_name(name),
        base.len() > 0,
        base.last() != 0x2f,
        base.len() >= 2 && base.last() == 0x2e ==> base[base.len() - 2] != 0x2f,
    ensures
        parent(base.push(0x2fu8) + name) == Some(base),
{
    let dir = base.push(SEPARATOR);
    let path = dir + name;
    lemma_named_path(dir, name);
    lemma_trimmed_name(path);
    assert(components(path).last() == Component::Normal(name));
    assert(path.take(path.len() - name.len()) =~= dir);
    assert(dir.drop_last() =~= base);
    lemma_redundant_end(dir);
    lemma_redundant_end(base);
    assert(trimmed(dir) == trimmed(base));
    assert(trimmed(base) == base);
}

/// Behind the first component of a path there is neither a `.` nor the root.
pub proof fn lemma_later_components(path: Seq<u8>)
    ensures
        forall|i: int|
            0 < i < components(path).len() ==> !((#[trigger] components(path)[i]) is CurDir)
                && !(components(path)[i] is RootDir),
{
    lemma_segments(path);
    let all = segments(path);
    assert forall|i: int| 0 <= i < all.len() implies !(#[trigger] all[i]).contains(
        SEPARATOR,
    ) by {
        assert forall|j: int| 0 <= j < all[i].len() implies all[i][j] != SEPARATOR by {
            assert(segments(path)[i][j] != SEPARATOR);
        }
    }
    lemma_part_names_are_plain(all);
    assert forall|i: int| 0 < i < components(path).len() implies !((#[trigger] components(path)[i])
        is CurDir) && !(components(path)[i] is RootDir) by {
        let k = lead(path).len();
        assert(components(path)[i] == segment_parts(all)[i - k]);
    }
}

/// A path whose first component is a name is relative, and its components are those of its
/// segments.
pub proof fn lemma_relative_components(path: Seq<u8>)
    requires
        components(path).len() > 0,
        components(path)[0] is Normal,
    ensures
        !is_absolute(path),
        components(path) == segment_parts(segments(path)),
{
    if lead(path).len() > 0 {
        assert(components(path)[0] == lead(path)[0]);
    }
    assert(components(path) =~= segment_parts(segments(path)));
}

/// Whether a name holds a `.` further on than in front.
pub open spec fn has_inner_dot(name: Seq<u8>) -> bool {
    exists|i: int| 0 < i < name.len() && name[i] == 0x2e
}

/// A name has an extension exactly where it holds a `.` further on than in front.
pub proof fn lemma_extension_is_there(path: Seq<u8>)
    requires
        components(path).len() > 0,
        components(path).last() is Normal,
    ensures
        extension(path) is Some <==> has_inner_dot(components(path).last()->Normal_0),
{
    let name = components(path).last()->Normal_0;
    if has_inner_dot(name) {
        let i = choose|i: int| 0 < i < name.len() && name[i] == 0x2e;
        lemma_last_dot_is_last(name, i);
    } else {
        lemma_no_dot(name);
    }
}

/// No `.` is behind the last one.
proof fn lemma_last_dot_is_last(name: Seq<u8>, i: int)
    requires
        0 <= i < name.len(),
        name[i] == DOT,
    ensures
        last_dot(name) >= i,
    decreases name.len(),
{
    if i < name.len() - 1 {
        lemma_last_dot_is_last(name.drop_last(), i);
    }
}

/// Components stand for the same ones, each of them, in their order, with their names whole.
pub proof fn law_every_component_is_there(parts: Seq<Component<Vec<u8>>>, i: int)
    requires
        0 <= i < parts.len(),
    ensures
        component_views(parts).len() == parts.len(),
        match (parts[i], component_views(parts)[i]) {
            (Component::RootDir, Component::RootDir) => true,
            (Component::CurDir, Component::CurDir) => true,
            (Component::ParentDir, Component::ParentDir) => true,
            (Component::Normal(own), Component::Normal(name)) => own@ == name,
            _ => false,
        },
{
}

} // verus!
