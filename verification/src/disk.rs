//! A model of the file system, for the laws about what a run of requests leaves behind.
//!
//! Something is found by the components of its path, as that is written; what a link leads
//! to is not part of the model.
use crate::effect::{Reply, Request};
use crate::path::Component;
use vstd::prelude::*;

verus! {

/// What is found in a file system.
pub enum Node {
    Dir,
    File(Seq<u8>),
    Link,
}

/// Where it is found.
pub type Key = Seq<Component<Seq<u8>>>;

/// A file system.
pub type Disk = spec_fn(Key) -> Option<Node>;

/// What is found at a place, if anything.
pub open spec fn at(disk: Disk, key: Key) -> Option<Node> {
    disk(key)
}

/// A file system in which nothing is found.
pub open spec fn nothing() -> Disk {
    |key: Key| None
}

/// The place of an entry of a directory.
pub open spec fn child(dir: Key, name: Seq<u8>) -> Key {
    dir.push(Component::Normal(name))
}

/// Whether the path of a place ends with a name.
pub open spec fn is_named(key: Key) -> bool {
    key.len() > 0 && key.last() is Normal
}

/// Whether a path consists of ordinary names.
pub open spec fn names_only(key: Key) -> bool {
    forall|i: int| 0 <= i < key.len() ==> #[trigger] key[i] is Normal
}

/// Whether what is found at a place is found below a directory, under an ordinary name, or
/// is, where the path ends with dots or is the root, a directory itself.
pub open spec fn is_rooted(disk: Disk, key: Key) -> bool {
    at(disk, key) is Some && key.len() > 0 ==> {
        &&& key.len() > 1 ==> at(disk, key.drop_last()) == Some(Node::Dir)
        &&& is_named(key) ==> crate::path::is_plain_name(key.last()->Normal_0)
        &&& !is_named(key) ==> at(disk, key) == Some(Node::Dir)
    }
}

/// Whether all that is found is rooted.
pub open spec fn is_tree(disk: Disk) -> bool {
    forall|key: Key| #[trigger] is_rooted(disk, key)
}

/// Whether the same is found everywhere.
pub open spec fn same(one: Disk, other: Disk) -> bool {
    forall|key: Key| #[trigger] at(one, key) == at(other, key)
}

/// Whether the same is found everywhere but at `except`.
pub open spec fn same_but(one: Disk, other: Disk, except: Key) -> bool {
    forall|key: Key| key != except ==> #[trigger] at(one, key) == at(other, key)
}

/// A file system with a directory, and those above it.
pub open spec fn with_dirs(disk: Disk, dir: Key) -> Disk {
    |key: Key|
        if key.len() > 0 && key.is_prefix_of(dir) {
            Some(Node::Dir)
        } else {
            at(disk, key)
        }
}

/// A file system with something at a place.
pub open spec fn with_node(disk: Disk, place: Key, node: Node) -> Disk {
    |key: Key|
        if key == place {
            Some(node)
        } else {
            at(disk, key)
        }
}

/// A file system without what is at a place.
pub open spec fn without_node(disk: Disk, place: Key) -> Disk {
    |key: Key|
        if key == place {
            None
        } else {
            at(disk, key)
        }
}

/// A file system without what is at a place and below it.
pub open spec fn without_tree(disk: Disk, place: Key) -> Disk {
    |key: Key|
        if place.is_prefix_of(key) {
            None
        } else {
            at(disk, key)
        }
}

/// A file system with what was at `from`, and below it, at `to` in the place of what was
/// there.
pub open spec fn with_moved(disk: Disk, from: Key, to: Key) -> Disk {
    |key: Key|
        if to.is_prefix_of(key) {
            at(disk, from + key.skip(to.len() as int))
        } else if from.is_prefix_of(key) {
            None
        } else {
            at(disk, key)
        }
}

/// Whether what is found at a place is unchanged, or a file that was filled in part.
pub open spec fn file_may_differ(before: Disk, after: Disk, place: Key) -> bool {
    at(after, place) == at(before, place) || {
        &&& is_named(place)
        &&& at(before, place) != Some(Node::Dir)
        &&& at(after, place) is Some
        &&& at(after, place)->0 is File
    }
}

/// Whether a listing holds names of entries of a directory, each once.
pub open spec fn lists_some(disk: Disk, dir: Key, names: Seq<Seq<u8>>) -> bool {
    &&& names.no_duplicates()
    &&& crate::ui::replace::all_plain(names)
    &&& forall|name: Seq<u8>| #[trigger]
        names.contains(name) ==> at(disk, child(dir, name)) is Some
}

/// Whether a listing holds the names of all entries of a directory, each once.
pub open spec fn lists(disk: Disk, dir: Key, names: Seq<Seq<u8>>) -> bool {
    &&& lists_some(disk, dir, names)
    &&& forall|name: Seq<u8>|
        (#[trigger] at(disk, child(dir, name))) is Some ==> names.contains(name)
}

/// Whether, on a file system, a request can be answered so, with `after` as the outcome.
///
/// What fails may have been done in part, where it consists of several steps. A file is
/// written, and removed, under a name. Where a test follows links, either answer is possible
/// for one. Requests that the downloads do not make are left out.
pub open spec fn happens(
    before: Disk,
    request: crate::effect::Asked,
    reply: Reply,
    after: Disk,
) -> bool {
    match (request, reply) {
        (Request::Get { .. }, Reply::Status { .. }) => same(after, before),
        (Request::ReadBody, Reply::Bytes(_)) => same(after, before),
        (Request::GetViaProxy { .. }, Reply::Bytes(_)) => same(after, before),
        (Request::MakeTempDir, Reply::Path(path)) => {
            &&& at(before, crate::path::components(path@)) is None
            &&& same(after, with_node(before, crate::path::components(path@), Node::Dir))
        },
        (Request::CreateDirAll(path), Reply::Done) => same(
            after,
            with_dirs(before, crate::path::components(path)),
        ),
        (Request::CreateDirAll(path), Reply::Failed(_)) => forall|key: Key|
            (#[trigger] at(after, key)) == at(before, key) || (key.is_prefix_of(
                crate::path::components(path),
            ) && at(after, key) == Some(Node::Dir)),
        (Request::Write { path, data }, Reply::Done) => {
            &&& is_named(crate::path::components(path))
            &&& same(after, with_node(before, crate::path::components(path), Node::File(data)))
        },
        (Request::Write { path, .. }, Reply::Failed(_)) => {
            &&& same_but(after, before, crate::path::components(path))
            &&& file_may_differ(before, after, crate::path::components(path))
        },
        (Request::Rename { from, to }, Reply::Done) => {
            &&& at(before, crate::path::components(from)) is Some
            &&& same(
                after,
                with_moved(before, crate::path::components(from), crate::path::components(to)),
            )
        },
        (Request::Copy { from, to }, Reply::Done) => {
            &&& at(before, crate::path::components(from)) is Some
            &&& at(before, crate::path::components(from))->0 is File
            &&& same(
                after,
                with_node(
                    before,
                    crate::path::components(to),
                    at(before, crate::path::components(from))->0,
                ),
            )
        },
        (Request::Copy { to, .. }, Reply::Failed(_)) => {
            &&& same_but(after, before, crate::path::components(to))
            &&& file_may_differ(before, after, crate::path::components(to))
        },
        (Request::RemoveFile(path), Reply::Done) => {
            &&& is_named(crate::path::components(path))
            &&& at(before, crate::path::components(path)) is Some
            &&& !(at(before, crate::path::components(path))->0 is Dir)
            &&& same(after, without_node(before, crate::path::components(path)))
        },
        (Request::RemoveDirAll(path), Reply::Done) => same(
            after,
            without_tree(before, crate::path::components(path)),
        ),
        (Request::RemoveDirAll(path), Reply::Failed(_)) => forall|key: Key|
            (#[trigger] at(after, key)) == at(before, key) || (crate::path::components(
                path,
            ).is_prefix_of(key) && at(after, key) is None),
        (Request::ListDir(path), Reply::Names(names)) => {
            &&& at(before, crate::path::components(path)) == Some(Node::Dir)
            &&& lists(before, crate::path::components(path), crate::effect::name_views(names@))
            &&& same(after, before)
        },
        (Request::ListDir(path), Reply::NamesUntil { names, .. }) => {
            &&& at(before, crate::path::components(path)) == Some(Node::Dir)
            &&& lists_some(
                before,
                crate::path::components(path),
                crate::effect::name_views(names@),
            )
            &&& same(after, before)
        },
        (Request::IsDir(path), Reply::Flag(flag)) => {
            &&& at(before, crate::path::components(path)) == Some(Node::Link) || flag == (at(
                before,
                crate::path::components(path),
            ) == Some(Node::Dir))
            &&& same(after, before)
        },
        (Request::EntryIsDir(path), Reply::Flag(flag)) => {
            &&& flag == (at(before, crate::path::components(path)) == Some(Node::Dir))
            &&& same(after, before)
        },
        (Request::Inspect(path), Reply::Kind(kind)) => {
            &&& match at(before, crate::path::components(path)) {
                Some(Node::Dir) => kind is Directory,
                Some(Node::File(_)) => kind is Other,
                Some(Node::Link) => kind is Symlink,
                None => false,
            }
            &&& same(after, before)
        },
        (_, Reply::Failed(_)) => same(after, before),
        _ => false,
    }
}

/// An answer, and the file system that it leaves.
pub struct Event {
    pub reply: Reply,
    pub disk: Disk,
}

/// The file system after a run of events.
pub open spec fn disk_after(first: Disk, events: Seq<Event>) -> Disk {
    if events.len() == 0 {
        first
    } else {
        events.last().disk
    }
}

/// The answers in a run of events.
pub open spec fn replies(events: Seq<Event>) -> Seq<Reply> {
    events.map_values(|event: Event| event.reply)
}

/// Whether neither of two places is at or below the other.
pub open spec fn apart(one: Key, other: Key) -> bool {
    !one.is_prefix_of(other) && !other.is_prefix_of(one)
}

/// Two places that are apart stay so, whatever is followed from there.
pub proof fn lemma_apart(one: Key, other: Key, rest: Key)
    requires
        apart(one, other),
    ensures
        !one.is_prefix_of(other + rest),
        !other.is_prefix_of(one + rest),
{
    if one.is_prefix_of(other + rest) {
        if one.len() <= other.len() {
            assert((other + rest).subrange(0, one.len() as int) =~= other.subrange(
                0,
                one.len() as int,
            ));
        } else {
            assert(other =~= one.subrange(0, other.len() as int));
        }
    }
    if other.is_prefix_of(one + rest) {
        if other.len() <= one.len() {
            assert((one + rest).subrange(0, other.len() as int) =~= one.subrange(
                0,
                other.len() as int,
            ));
        } else {
            assert(one =~= other.subrange(0, one.len() as int));
        }
    }
}

/// What is above something is a directory.
pub proof fn lemma_above_is_dir(disk: Disk, above: Key, key: Key)
    requires
        is_tree(disk),
        at(disk, key) is Some,
        above.is_prefix_of(key),
        0 < above.len() < key.len(),
    ensures
        at(disk, above) == Some(Node::Dir),
    decreases key.len(),
{
    assert(is_rooted(disk, key));
    if above.len() + 1 == key.len() {
        assert(above =~= key.drop_last());
    } else {
        assert(above =~= key.drop_last().subrange(0, above.len() as int));
        lemma_above_is_dir(disk, above, key.drop_last());
    }
}

/// What is at or below a place is at or below what that is at or below.
pub proof fn lemma_prefix_chain(one: Key, two: Key, three: Key)
    requires
        one.is_prefix_of(two),
        two.is_prefix_of(three),
    ensures
        one.is_prefix_of(three),
{
    assert(one =~= three.subrange(0, one.len() as int));
}

/// Two places above a third one are one above the other.
pub proof fn lemma_prefixes_meet(one: Key, two: Key, three: Key)
    requires
        one.is_prefix_of(three),
        two.is_prefix_of(three),
    ensures
        one.is_prefix_of(two) || two.is_prefix_of(one),
{
    if one.len() <= two.len() {
        assert(one =~= two.subrange(0, one.len() as int));
    } else {
        assert(two =~= one.subrange(0, two.len() as int));
    }
}

/// Below what is not there nothing is found.
pub proof fn lemma_nothing_below(disk: Disk, dir: Key, name: Seq<u8>, rest: Key)
    requires
        is_tree(disk),
        at(disk, child(dir, name)) is None,
    ensures
        at(disk, child(dir, name) + rest) is None,
{
    let place = child(dir, name);
    if at(disk, place + rest) is Some {
        if rest.len() == 0 {
            assert(place + rest =~= place);
        } else {
            assert(place =~= (place + rest).subrange(0, place.len() as int));
            lemma_above_is_dir(disk, place, place + rest);
        }
    }
}

/// File systems in which the same is found everywhere are one.
pub proof fn lemma_same(one: Disk, other: Disk)
    requires
        same(one, other),
    ensures
        one == other,
{
    assert forall|key: Key| #[trigger] one(key) == other(key) by {
        assert(at(one, key) == at(other, key));
    }
    assert(one =~= other);
}

/// Entries of places that are apart are apart, and so are two entries of one place.
pub proof fn lemma_entries_apart(one: Key, other: Key, a: Seq<u8>, b: Seq<u8>)
    requires
        apart(one, other) || (one == other && a != b),
    ensures
        apart(child(one, a), child(other, b)),
{
    let first = child(one, a);
    let second = child(other, b);
    if apart(one, other) {
        lemma_apart(one, other, seq![Component::Normal(b)]);
        lemma_apart(other, one, seq![Component::Normal(a)]);
        assert(second =~= other + seq![Component::Normal(b)]);
        assert(first =~= one + seq![Component::Normal(a)]);
        if first.is_prefix_of(second) {
            assert(one =~= second.subrange(0, one.len() as int));
        }
        if second.is_prefix_of(first) {
            assert(other =~= first.subrange(0, other.len() as int));
        }
    } else {
        if first.is_prefix_of(second) || second.is_prefix_of(first) {
            assert(first =~= second);
            assert(first.last() == second.last());
        }
    }
}

/// What is below an entry is not below another entry, nor below one of a place apart.
pub proof fn lemma_not_below(one: Key, other: Key, a: Seq<u8>, b: Seq<u8>, rest: Key)
    requires
        apart(one, other) || (one == other && a != b),
    ensures
        !child(one, a).is_prefix_of(child(other, b) + rest),
{
    lemma_entries_apart(one, other, a, b);
    lemma_apart(child(one, a), child(other, b), rest);
}

/// An entry is not at or above the directory that holds it, nor one apart.
pub proof fn lemma_not_above(dir: Key, other: Key, name: Seq<u8>)
    requires
        dir == other || apart(dir, other),
    ensures
        !child(dir, name).is_prefix_of(other),
{
    let place = child(dir, name);
    if place.is_prefix_of(other) {
        assert(dir =~= other.subrange(0, dir.len() as int));
    }
}

} // verus!
