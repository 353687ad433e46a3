//! What the replacement of a directory's contents leaves in the file system.
use crate::disk::{Disk, Event, Key, Node};
use crate::effect::Reply;
use crate::path::Component;
use crate::ui::replace::{ReplacePhase, ReplaceView};
use vstd::prelude::*;

verus! {

/// Whether a directory, and nothing beside it, is what another directory holds.
pub open spec fn holds_only(disk: Disk, dir: Key, name: Seq<u8>) -> bool {
    &&& crate::disk::at(disk, crate::disk::child(dir, name)) == Some(Node::Dir)
    &&& forall|other: Seq<u8>|
        (#[trigger] crate::disk::at(disk, crate::disk::child(dir, other))) is Some ==> other
            == name
}

/// Where the contents of a directory are: in the directory that is all it holds, if there
/// is one.
pub open spec fn contents_root(disk: Disk, dir: Key) -> Key {
    if exists|name: Seq<u8>| holds_only(disk, dir, name) {
        crate::disk::child(dir, choose|name: Seq<u8>| holds_only(disk, dir, name))
    } else {
        dir
    }
}

/// Whether an entry is still where it was, and nothing is where it is to go.
pub open spec fn entry_waits(
    first: Disk,
    disk: Disk,
    source: Key,
    target: Key,
    name: Seq<u8>,
) -> bool {
    forall|rest: Key|
        {
            &&& crate::disk::at(disk, #[trigger] (crate::disk::child(source, name) + rest))
                == crate::disk::at(first, crate::disk::child(source, name) + rest)
            &&& crate::disk::at(disk, crate::disk::child(target, name) + rest) is None
        }
}

/// Whether an entry, with all below it, is where it is to go.
pub open spec fn entry_arrived(
    first: Disk,
    disk: Disk,
    source: Key,
    target: Key,
    name: Seq<u8>,
) -> bool {
    forall|rest: Key|
        crate::disk::names_only(rest) ==> crate::disk::at(
            disk,
            #[trigger] (crate::disk::child(target, name) + rest),
        ) == crate::disk::at(first, crate::disk::child(source, name) + rest)
}

/// Whether the entries named in `left` wait, and, where the listing is whole, all others, but
/// `hand`, have arrived.
pub open spec fn entries_move(
    first: Disk,
    disk: Disk,
    source: Key,
    target: Key,
    left: Seq<Seq<u8>>,
    hand: Option<Seq<u8>>,
    whole: bool,
) -> bool {
    &&& left.no_duplicates()
    &&& hand is Some ==> !left.contains(hand->0)
    &&& forall|i: int| 0 <= i < left.len() ==> crate::path::is_plain_name(#[trigger] left[i])
    &&& forall|name: Seq<u8>|
        Some(name) != hand ==> if #[trigger] left.contains(name) {
            entry_waits(first, disk, source, target, name)
        } else {
            whole ==> entry_arrived(first, disk, source, target, name)
        }
}

/// Whether all below a directory is as it was.
pub open spec fn tree_is_kept(first: Disk, disk: Disk, source: Key) -> bool {
    forall|rest: Key|
        crate::disk::at(disk, #[trigger] (source + rest)) == crate::disk::at(first, source + rest)
}

/// Whether, where the listing is whole, the entries of a directory are named in `left`, or
/// are `hand`.
pub open spec fn entries_are(
    disk: Disk,
    dir: Key,
    left: Seq<Seq<u8>>,
    hand: Seq<u8>,
    whole: bool,
) -> bool {
    whole ==> forall|name: Seq<u8>|
        (#[trigger] crate::disk::at(disk, crate::disk::child(dir, name))) is Some ==> name == hand
            || left.contains(name)
}

/// Whether a directory is empty.
pub open spec fn is_empty(disk: Disk, dir: Key) -> bool {
    forall|name: Seq<u8>|
        (#[trigger] crate::disk::at(disk, crate::disk::child(dir, name))) is None
}

/// What is at hand and where: an entry of `dir`.
pub open spec fn is_entry(path: Seq<u8>, dir: Key, name: Seq<u8>) -> bool {
    crate::path::components(path) == crate::disk::child(dir, name)
}

/// What a replacement has done, on a file system that is `first` before it.
pub open spec fn replaced_so_far(
    state: ReplaceView,
    first: Disk,
    disk: Disk,
    source: Key,
    target: Key,
) -> bool {
    let own = crate::path::components(state.source);
    let root = contents_root(first, source);
    &&& crate::disk::is_tree(disk)
    &&& crate::path::components(state.target) == target
    &&& match state.phase {
        ReplacePhase::ListSource => crate::disk::same(disk, first) && own == source,
        ReplacePhase::CheckSole(path) => {
            &&& crate::disk::same(disk, first)
            &&& own == source
            &&& exists|name: Seq<u8>|
                {
                    &&& #[trigger] is_entry(path, source, name)
                    &&& forall|other: Seq<u8>|
                        (#[trigger] crate::disk::at(first, crate::disk::child(source, other)))
                            is Some ==> other == name
                }
        },
        ReplacePhase::CreateTarget => crate::disk::same(disk, first) && own == root,
        ReplacePhase::Replaced => {
            &&& crate::disk::at(disk, target) == Some(Node::Dir)
            &&& forall|name: Seq<u8>| #[trigger] entry_arrived(first, disk, root, target, name)
        },
        ReplacePhase::Refused(_) => true,
        ReplacePhase::Failed(_) => true,
        _ => {
            &&& own == root
            &&& crate::disk::at(disk, target) == Some(Node::Dir)
            &&& match state.phase {
                ReplacePhase::ListTarget => tree_is_kept(first, disk, root),
                ReplacePhase::Probe(path) => {
                    &&& tree_is_kept(first, disk, root)
                    &&& exists|name: Seq<u8>|
                        {
                            &&& #[trigger] is_entry(path, target, name)
                            &&& entries_are(disk, target, state.left, name, state.fault is None)
                        }
                    &&& crate::ui::replace::all_plain(state.left)
                },
                ReplacePhase::Remove { path, .. } => {
                    &&& tree_is_kept(first, disk, root)
                    &&& exists|name: Seq<u8>|
                        {
                            &&& #[trigger] is_entry(path, target, name)
                            &&& entries_are(disk, target, state.left, name, state.fault is None)
                        }
                    &&& crate::ui::replace::all_plain(state.left)
                },
                ReplacePhase::ListMoves => {
                    &&& tree_is_kept(first, disk, root)
                    &&& is_empty(disk, target)
                },
                ReplacePhase::Move { from, to } => exists|name: Seq<u8>|
                    {
                        &&& #[trigger] is_entry(from, root, name)
                        &&& is_entry(to, target, name)
                        &&& entry_waits(first, disk, root, target, name)
                        &&& entries_move(
                            first,
                            disk,
                            root,
                            target,
                            state.left,
                            Some(name),
                            state.fault is None,
                        )
                    },
                ReplacePhase::Copy(copy) => exists|name: Seq<u8>|
                    {
                        &&& #[trigger] crate::ui::copied::copy_goes_on(
                            copy,
                            first,
                            crate::disk::nothing(),
                            disk,
                            crate::disk::child(root, name),
                            crate::disk::child(target, name),
                        )
                        &&& entries_move(
                            first,
                            disk,
                            root,
                            target,
                            state.left,
                            Some(name),
                            state.fault is None,
                        )
                    },
                _ => true,
            }
        },
    }
}

/// Whether nothing differs but what is at or below the source or the target, or above the
/// target.
pub open spec fn changes_are_confined(first: Disk, disk: Disk, source: Key, target: Key) -> bool {
    forall|key: Key|
        !source.is_prefix_of(key) && !target.is_prefix_of(key) && !key.is_prefix_of(target) ==> (
        #[trigger] crate::disk::at(disk, key)) == crate::disk::at(first, key)
}

/// The contents of a directory are at it or below it, and apart from what it is apart from.
proof fn lemma_contents_root(disk: Disk, source: Key, target: Key)
    requires
        crate::disk::apart(source, target),
    ensures
        source.is_prefix_of(contents_root(disk, source)),
        crate::disk::apart(contents_root(disk, source), target),
{
    let root = contents_root(disk, source);
    assert(source =~= root.subrange(0, source.len() as int));
    if root.is_prefix_of(target) {
        assert(source =~= target.subrange(0, source.len() as int));
    }
    if target.is_prefix_of(root) {
        if target.len() <= source.len() {
            assert(target =~= source.subrange(0, target.len() as int));
        } else {
            assert(source =~= target.subrange(0, source.len() as int));
        }
    }
}

/// Going on with what is left to be moved.
proof fn lemma_move_on(
    state: ReplaceView,
    first: Disk,
    disk: Disk,
    source: Key,
    target: Key,
    left: Seq<Seq<u8>>,
)
    requires
        crate::disk::is_tree(disk),
        crate::path::components(state.target) == target,
        crate::path::components(state.source) == contents_root(first, source),
        crate::disk::at(disk, target) == Some(Node::Dir),
        entries_move(
            first,
            disk,
            contents_root(first, source),
            target,
            left,
            None,
            state.fault is None,
        ),
    ensures
        replaced_so_far(
            crate::ui::replace::move_on(state, left),
            first,
            disk,
            source,
            target,
        ),
{
    let root = contents_root(first, source);
    let next = crate::ui::replace::move_on(state, left);
    if left.len() == 0 {
        assert forall|name: Seq<u8>|
            state.fault is None implies #[trigger] entry_arrived(
            first,
            disk,
            root,
            target,
            name,
        ) by {
            assert(!left.contains(name));
        }
    } else {
        let name = left.last();
        let rest = left.drop_last();
        assert(crate::path::is_plain_name(left[left.len() - 1]));
        crate::path::law_join_plain_name(state.source, name);
        crate::path::law_join_plain_name(state.target, name);
        assert(left.contains(name));
        if rest.contains(name) {
            let i = choose|i: int| 0 <= i < rest.len() && rest[i] == name;
            assert(left[i] == left[left.len() - 1]);
        }
        assert forall|other: Seq<u8>| Some(other) != Some(name) implies if #[trigger] rest.contains(
            other,
        ) {
            entry_waits(first, disk, root, target, other)
        } else {
            state.fault is None ==> entry_arrived(first, disk, root, target, other)
        } by {
            if left.contains(other) {
                let i = choose|i: int| 0 <= i < left.len() && left[i] == other;
                assert(rest[i] == other);
            } else if rest.contains(other) {
                let i = choose|i: int| 0 <= i < rest.len() && rest[i] == other;
                assert(left[i] == other);
            }
        }
        assert forall|i: int| 0 <= i < rest.len() implies crate::path::is_plain_name(
            #[trigger] rest[i],
        ) by {
            assert(rest[i] == left[i]);
        }
        assert forall|i: int, j: int|
            0 <= i < rest.len() && 0 <= j < rest.len() && i != j implies rest[i] != rest[j] by {
            assert(rest[i] == left[i] && rest[j] == left[j]);
        }
        assert(entries_move(first, disk, root, target, rest, Some(name), state.fault is None));
        assert(entry_waits(first, disk, root, target, name));
        assert(is_entry(next.phase->Move_from, root, name));
    }
}

/// Going on with what is left to be removed.
proof fn lemma_remove_on(
    state: ReplaceView,
    first: Disk,
    disk: Disk,
    source: Key,
    target: Key,
    left: Seq<Seq<u8>>,
)
    requires
        crate::disk::is_tree(disk),
        crate::path::components(state.target) == target,
        crate::path::components(state.source) == contents_root(first, source),
        crate::disk::at(disk, target) == Some(Node::Dir),
        tree_is_kept(first, disk, contents_root(first, source)),
        crate::ui::replace::all_plain(left),
        forall|name: Seq<u8>|
            state.fault is None && (#[trigger] crate::disk::at(
                disk,
                crate::disk::child(target, name),
            )) is Some ==> left.contains(name),
    ensures
        replaced_so_far(
            crate::ui::replace::remove_on(state, left),
            first,
            disk,
            source,
            target,
        ),
{
    if left.len() > 0 {
        let name = left.last();
        let rest = left.drop_last();
        assert(crate::path::is_plain_name(left[left.len() - 1]));
        crate::path::law_join_plain_name(state.target, name);
        assert forall|other: Seq<u8>|
            state.fault is None && (#[trigger] crate::disk::at(
                disk,
                crate::disk::child(target, other),
            )) is Some implies other == name || rest.contains(other) by {
            let i = choose|i: int| 0 <= i < left.len() && left[i] == other;
            if i < rest.len() {
                assert(rest[i] == other);
            }
        }
        assert forall|i: int| 0 <= i < rest.len() implies crate::path::is_plain_name(
            #[trigger] rest[i],
        ) by {
            assert(rest[i] == left[i]);
        }
        assert(entries_are(disk, target, rest, name, state.fault is None));
        let next = crate::ui::replace::remove_on(state, left);
        assert(is_entry(next.phase->Probe_0, target, name));
    } else if state.fault is None {
        assert forall|name: Seq<u8>|
            (#[trigger] crate::disk::at(disk, crate::disk::child(target, name))) is None by {
            assert(!left.contains(name));
        }
    }
}

/// A replacement that is under way, and what it has done so far.
pub open spec fn replace_goes_on(
    state: ReplaceView,
    first: Disk,
    disk: Disk,
    source: Key,
    target: Key,
) -> bool {
    &&& crate::disk::is_tree(first)
    &&& crate::disk::apart(source, target)
    &&& crate::ui::replace::replace_wf(state)
    &&& replaced_so_far(state, first, disk, source, target)
}

/// Where the source, or the one thing in it, has been looked at.
proof fn lemma_source_is_settled(
    state: ReplaceView,
    first: Disk,
    before: Disk,
    after: Disk,
    source: Key,
    target: Key,
    reply: Reply,
)
    requires
        replace_goes_on(state, first, before, source, target),
        crate::disk::is_tree(after),
        state.phase is ListSource || state.phase is CheckSole,
        crate::disk::happens(
            before,
            crate::ui::replace::replace_request(state)->0,
            reply,
            after,
        ),
    ensures
        replaced_so_far(
            crate::ui::replace::replace_step(state, reply),
            first,
            after,
            source,
            target,
        ),
{
    let next = crate::ui::replace::replace_step(state, reply);
    match (state.phase, reply) {
        (ReplacePhase::ListSource, Reply::Names(list)) => {
            let names = crate::effect::name_views(list@);
            assert(crate::disk::lists(before, source, names));
            if names.len() == 1 {
                assert(crate::path::is_plain_name(names[0]));
                crate::path::law_join_plain_name(state.source, names[0]);
                assert(is_entry(next.phase->CheckSole_0, source, names[0]));
                assert forall|other: Seq<u8>|
                    (#[trigger] crate::disk::at(first, crate::disk::child(source, other)))
                        is Some implies other == names[0] by {
                    assert(crate::disk::at(before, crate::disk::child(source, other)) is Some);
                    assert(names.contains(other));
                }
            } else {
                if exists|name: Seq<u8>| holds_only(first, source, name) {
                    let name = choose|name: Seq<u8>| holds_only(first, source, name);
                    assert(crate::disk::at(before, crate::disk::child(source, name)) is Some);
                    assert(names.contains(name));
                    assert(names.contains(names[0]));
                    assert(names.contains(names[1]));
                    assert(crate::disk::at(before, crate::disk::child(source, names[0])) is Some);
                    assert(crate::disk::at(before, crate::disk::child(source, names[1])) is Some);
                    assert(names[0] == name && names[1] == name);
                }
            }
        },
        (ReplacePhase::CheckSole(path), Reply::Flag(is_dir)) => {
            let name = choose|name: Seq<u8>|
                {
                    &&& #[trigger] is_entry(path, source, name)
                    &&& forall|other: Seq<u8>|
                        (#[trigger] crate::disk::at(first, crate::disk::child(source, other)))
                            is Some ==> other == name
                };
            assert(crate::disk::at(before, crate::path::components(path)) == crate::disk::at(
                first,
                crate::disk::child(source, name),
            ));
            if is_dir {
                assert(holds_only(first, source, name));
                let chosen = choose|name: Seq<u8>| holds_only(first, source, name);
                assert(holds_only(first, source, chosen));
                assert(chosen == name);
            } else if exists|name: Seq<u8>| holds_only(first, source, name) {
                let chosen = choose|name: Seq<u8>| holds_only(first, source, name);
                assert(chosen == name);
            }
        },
        _ => {},
    }
}

/// Where the old contents are being removed.
proof fn lemma_target_is_emptied(
    state: ReplaceView,
    first: Disk,
    before: Disk,
    after: Disk,
    source: Key,
    target: Key,
    reply: Reply,
)
    requires
        replace_goes_on(state, first, before, source, target),
        crate::disk::is_tree(after),
        state.phase is CreateTarget || state.phase is ListTarget || state.phase is Probe
            || state.phase is Remove,
        crate::disk::happens(
            before,
            crate::ui::replace::replace_request(state)->0,
            reply,
            after,
        ),
    ensures
        replaced_so_far(
            crate::ui::replace::replace_step(state, reply),
            first,
            after,
            source,
            target,
        ),
{
    let next = crate::ui::replace::replace_step(state, reply);
    let root = contents_root(first, source);
    lemma_contents_root(first, source, target);
    match (state.phase, reply) {
        (_, Reply::Failed(_)) => {},
        (ReplacePhase::CreateTarget, Reply::Done) => {
            assert(target.is_prefix_of(target));
            assert forall|rest: Key|
                crate::disk::at(after, #[trigger] (root + rest)) == crate::disk::at(
                    first,
                    root + rest,
                ) by {
                crate::disk::lemma_apart(root, target, rest);
                if (root + rest).is_prefix_of(target) {
                    assert(root =~= target.subrange(0, root.len() as int));
                }
            }
        },
        (ReplacePhase::ListTarget, _) => {
            let names = crate::effect::listed(reply);
            let back = names.reverse();
            let fault = crate::effect::listing_fault(reply);
            lemma_reversed(names);
            assert(crate::disk::lists_some(before, target, names));
            assert forall|name: Seq<u8>|
                fault is None && (#[trigger] crate::disk::at(
                    after,
                    crate::disk::child(target, name),
                )) is Some implies back.contains(name) by {
                assert(crate::disk::at(before, crate::disk::child(target, name)) is Some);
                assert(names.contains(name));
            }
            lemma_remove_on(
                ReplaceView { fault, ..state },
                first,
                after,
                source,
                target,
                back,
            );
        },
        (ReplacePhase::Probe(path), Reply::Flag(is_dir)) => {
            let name = choose|name: Seq<u8>|
                {
                    &&& #[trigger] is_entry(path, target, name)
                    &&& entries_are(before, target, state.left, name, state.fault is None)
                };
            assert(entries_are(after, target, state.left, name, state.fault is None)) by {
                assert forall|other: Seq<u8>|
                    state.fault is None && (#[trigger] crate::disk::at(
                        after,
                        crate::disk::child(target, other),
                    )) is Some implies other == name || state.left.contains(other) by {
                    assert(crate::disk::at(before, crate::disk::child(target, other)) is Some);
                }
            }
            assert(is_entry(next.phase->Remove_path, target, name));
        },
        (ReplacePhase::Remove { path, is_dir }, Reply::Done) => {
            let name = choose|name: Seq<u8>|
                {
                    &&& #[trigger] is_entry(path, target, name)
                    &&& entries_are(before, target, state.left, name, state.fault is None)
                };
            let place = crate::disk::child(target, name);
            assert forall|rest: Key|
                crate::disk::at(after, #[trigger] (root + rest)) == crate::disk::at(
                    first,
                    root + rest,
                ) by {
                crate::disk::lemma_apart(target, root, rest);
                if place.is_prefix_of(root + rest) {
                    assert(target =~= (root + rest).subrange(0, target.len() as int)) by {
                        assert(target =~= place.subrange(0, target.len() as int));
                    }
                }
                if place == root + rest {
                    assert(place.is_prefix_of(root + rest));
                }
            }
            assert forall|other: Seq<u8>|
                state.fault is None && (#[trigger] crate::disk::at(
                    after,
                    crate::disk::child(target, other),
                )) is Some implies state.left.contains(other) by {
                let own = crate::disk::child(target, other);
                assert(crate::disk::at(before, own) is Some);
                if other == name {
                    assert(place.is_prefix_of(own));
                }
            }
            assert(!place.is_prefix_of(target));
            lemma_remove_on(state, first, after, source, target, state.left);
        },
        _ => {},
    }
}

/// A listing read from its end.
proof fn lemma_reversed(names: Seq<Seq<u8>>)
    ensures
        forall|name: Seq<u8>| #[trigger] names.reverse().contains(name) <==> names.contains(name),
        names.no_duplicates() ==> names.reverse().no_duplicates(),
        crate::ui::replace::all_plain(names) ==> crate::ui::replace::all_plain(names.reverse()),
{
    let back = names.reverse();
    assert forall|name: Seq<u8>| #[trigger] back.contains(name) <==> names.contains(name) by {
        if back.contains(name) {
            let i = choose|i: int| 0 <= i < back.len() && back[i] == name;
            assert(names[names.len() - 1 - i] == name);
        }
        if names.contains(name) {
            let i = choose|i: int| 0 <= i < names.len() && names[i] == name;
            assert(back[names.len() - 1 - i] == name);
        }
    }
    if crate::ui::replace::all_plain(names) {
        assert forall|i: int| 0 <= i < back.len() implies crate::path::is_plain_name(
            #[trigger] back[i],
        ) by {
            assert(back[i] == names[names.len() - 1 - i]);
        }
    }
}

/// Entries other than `hand` stay as they are when only what is below `hand`, in the
/// source or the target, changes.
proof fn lemma_others_stay(
    first: Disk,
    before: Disk,
    after: Disk,
    source: Key,
    target: Key,
    left: Seq<Seq<u8>>,
    hand: Seq<u8>,
    whole: bool,
)
    requires
        crate::disk::apart(source, target),
        entries_move(first, before, source, target, left, Some(hand), whole),
        forall|key: Key|
            !crate::disk::child(source, hand).is_prefix_of(key) && !crate::disk::child(
                target,
                hand,
            ).is_prefix_of(key) ==> (#[trigger] crate::disk::at(after, key)) == crate::disk::at(
                before,
                key,
            ),
    ensures
        entries_move(first, after, source, target, left, Some(hand), whole),
{
    assert forall|name: Seq<u8>| Some(name) != Some(hand) implies if #[trigger] left.contains(
        name,
    ) {
        entry_waits(first, after, source, target, name)
    } else {
        whole ==> entry_arrived(first, after, source, target, name)
    } by {
        assert forall|rest: Key|
            crate::disk::at(after, #[trigger] (crate::disk::child(source, name) + rest))
                == crate::disk::at(before, crate::disk::child(source, name) + rest)
                && crate::disk::at(after, crate::disk::child(target, name) + rest)
                == crate::disk::at(before, crate::disk::child(target, name) + rest) by {
            crate::disk::lemma_not_below(source, source, hand, name, rest);
            crate::disk::lemma_not_below(source, target, hand, name, rest);
            crate::disk::lemma_not_below(target, target, hand, name, rest);
            crate::disk::lemma_not_below(target, source, hand, name, rest);
        }
        if left.contains(name) {
            assert(entry_waits(first, before, source, target, name));
        } else if whole {
            assert(entry_arrived(first, before, source, target, name));
            assert forall|rest: Key|
                crate::disk::names_only(rest) implies crate::disk::at(
                after,
                #[trigger] (crate::disk::child(target, name) + rest),
            ) == crate::disk::at(first, crate::disk::child(source, name) + rest) by {
                assert(crate::disk::at(after, crate::disk::child(source, name) + rest)
                    == crate::disk::at(before, crate::disk::child(source, name) + rest));
            }
        }
    }
}

/// Where an entry that was at hand has arrived.
proof fn lemma_hand_arrived(
    first: Disk,
    disk: Disk,
    source: Key,
    target: Key,
    left: Seq<Seq<u8>>,
    hand: Seq<u8>,
    whole: bool,
)
    requires
        entries_move(first, disk, source, target, left, Some(hand), whole),
        entry_arrived(first, disk, source, target, hand),
    ensures
        entries_move(first, disk, source, target, left, None, whole),
{
    assert forall|name: Seq<u8>| Some(name) != None::<Seq<u8>> implies if #[trigger] left.contains(
        name,
    ) {
        entry_waits(first, disk, source, target, name)
    } else {
        whole ==> entry_arrived(first, disk, source, target, name)
    } by {
        if name != hand {
            assert(Some(name) != Some(hand));
        }
    }
}

/// Where the new contents are being moved.
proof fn lemma_contents_are_moved(
    state: ReplaceView,
    first: Disk,
    before: Disk,
    after: Disk,
    source: Key,
    target: Key,
    reply: Reply,
)
    requires
        replace_goes_on(state, first, before, source, target),
        crate::disk::is_tree(after),
        state.phase is ListMoves || state.phase is Move,
        crate::disk::happens(
            before,
            crate::ui::replace::replace_request(state)->0,
            reply,
            after,
        ),
    ensures
        replaced_so_far(
            crate::ui::replace::replace_step(state, reply),
            first,
            after,
            source,
            target,
        ),
{
    let next = crate::ui::replace::replace_step(state, reply);
    let root = contents_root(first, source);
    lemma_contents_root(first, source, target);
    match (state.phase, reply) {
        (_, Reply::Failed(_)) if state.phase is ListMoves => {},
        (ReplacePhase::ListMoves, _) => {
            let names = crate::effect::listed(reply);
            let back = names.reverse();
            let fault = crate::effect::listing_fault(reply);
            lemma_reversed(names);
            assert(crate::disk::lists_some(before, root, names));
            assert forall|name: Seq<u8>| Some(name) != None::<
                Seq<u8>,
            > implies if #[trigger] back.contains(name) {
                entry_waits(first, after, root, target, name)
            } else {
                fault is None ==> entry_arrived(first, after, root, target, name)
            } by {
                let from = crate::disk::child(root, name);
                let to = crate::disk::child(target, name);
                assert(crate::disk::at(before, to) is None);
                assert forall|rest: Key|
                    crate::disk::at(after, #[trigger] (from + rest)) == crate::disk::at(
                        first,
                        from + rest,
                    ) && crate::disk::at(after, to + rest) is None by {
                    assert(from + rest =~= root + (seq![Component::Normal(name)] + rest));
                    crate::disk::lemma_nothing_below(after, target, name, rest);
                }
                assert(from =~= root + seq![Component::Normal(name)]);
                assert(crate::disk::at(before, from) == crate::disk::at(first, from));
                if !names.contains(name) && fault is None {
                    assert forall|rest: Key|
                        crate::disk::at(after, #[trigger] (to + rest)) == crate::disk::at(
                            first,
                            from + rest,
                        ) by {
                        assert(crate::disk::at(after, from + rest) == crate::disk::at(
                            first,
                            from + rest,
                        ));
                        crate::disk::lemma_nothing_below(first, root, name, rest);
                    }
                }
            }
            lemma_move_on(
                ReplaceView { fault, ..state },
                first,
                after,
                source,
                target,
                back,
            );
        },
        (ReplacePhase::Move { from, to }, _) => {
            let name = choose|name: Seq<u8>|
                {
                    &&& #[trigger] is_entry(from, root, name)
                    &&& is_entry(to, target, name)
                    &&& entry_waits(first, before, root, target, name)
                    &&& entries_move(
                        first,
                        before,
                        root,
                        target,
                        state.left,
                        Some(name),
                        state.fault is None,
                    )
                };
            let here = crate::disk::child(root, name);
            let there = crate::disk::child(target, name);
            crate::disk::lemma_entries_apart(root, target, name, name);
            lemma_others_stay(
                first,
                before,
                after,
                root,
                target,
                state.left,
                name,
                state.fault is None,
            );
            crate::disk::lemma_not_above(target, target, name);
            crate::disk::lemma_not_above(root, target, name);
            if reply is Done {
                assert forall|rest: Key|
                    crate::disk::names_only(rest) implies crate::disk::at(
                    after,
                    #[trigger] (there + rest),
                ) == crate::disk::at(first, here + rest) by {
                    assert((there + rest).skip(there.len() as int) =~= rest);
                    assert(there =~= (there + rest).subrange(0, there.len() as int));
                    assert(crate::disk::at(before, here + rest) == crate::disk::at(
                        first,
                        here + rest,
                    ));
                }
                lemma_hand_arrived(
                    first,
                    after,
                    root,
                    target,
                    state.left,
                    name,
                    state.fault is None,
                );
                lemma_move_on(state, first, after, source, target, state.left);
            } else if reply is Failed {
                assert forall|rest: Key|
                    crate::disk::at(after, #[trigger] (there + rest)) is None by {
                    assert(crate::disk::at(before, here + rest) == crate::disk::at(
                        first,
                        here + rest,
                    ));
                }
                crate::ui::copied::lemma_copy_start(
                    first,
                    crate::disk::nothing(),
                    after,
                    from,
                    to,
                );
                assert(crate::ui::copied::copy_goes_on(
                    next.phase->Copy_0,
                    first,
                    crate::disk::nothing(),
                    after,
                    here,
                    there,
                ));
            }
        },
        _ => {},
    }
}

/// Where an entry is being copied.
proof fn lemma_entry_is_copied(
    state: ReplaceView,
    first: Disk,
    before: Disk,
    after: Disk,
    source: Key,
    target: Key,
    reply: Reply,
)
    requires
        replace_goes_on(state, first, before, source, target),
        crate::disk::is_tree(after),
        state.phase is Copy,
        crate::disk::happens(
            before,
            crate::ui::replace::replace_request(state)->0,
            reply,
            after,
        ),
    ensures
        replaced_so_far(
            crate::ui::replace::replace_step(state, reply),
            first,
            after,
            source,
            target,
        ),
{
    let next = crate::ui::replace::replace_step(state, reply);
    let root = contents_root(first, source);
    let copy = state.phase->Copy_0;
    lemma_contents_root(first, source, target);
    let name = choose|name: Seq<u8>|
        {
            &&& #[trigger] crate::ui::copied::copy_goes_on(
                copy,
                first,
                crate::disk::nothing(),
                before,
                crate::disk::child(root, name),
                crate::disk::child(target, name),
            )
            &&& entries_move(
                first,
                before,
                root,
                target,
                state.left,
                Some(name),
                state.fault is None,
            )
        };
    let from = crate::disk::child(root, name);
    let to = crate::disk::child(target, name);
    let copied = crate::ui::replace::copy_step(copy, reply);
    let base = crate::disk::nothing();
    crate::ui::copied::lemma_copy_step(copy, first, base, before, after, from, to, reply);
    if !(copied.phase is Failed || copied.phase is Refused) {
        assert forall|key: Key| !to.is_prefix_of(key) implies (#[trigger] crate::disk::at(
            after,
            key,
        )) == crate::disk::at(before, key) by {
            if key.len() > 0 && key.is_prefix_of(to) {
                assert(target =~= to.subrange(0, target.len() as int));
                crate::disk::lemma_prefixes_meet(key, target, to);
                if key.len() > target.len() {
                    assert(key =~= to);
                } else if key.len() == target.len() {
                    assert(key =~= target);
                } else {
                    crate::disk::lemma_above_is_dir(before, key, target);
                }
            }
        }
        lemma_others_stay(
            first,
            before,
            after,
            root,
            target,
            state.left,
            name,
            state.fault is None,
        );
        crate::disk::lemma_not_above(target, target, name);
        if copied.phase is Copied {
            assert forall|rest: Key|
                crate::disk::names_only(rest) implies crate::disk::at(
                after,
                #[trigger] (to + rest),
            ) == crate::disk::at(first, from + rest) by {
                assert(!crate::ui::copied::waits(copied.tasks, from, rest));
            }
            lemma_hand_arrived(first, after, root, target, state.left, name, state.fault is None);
            lemma_move_on(state, first, after, source, target, state.left);
        } else {
            assert(crate::ui::copied::copy_goes_on(
                next.phase->Copy_0,
                first,
                base,
                after,
                from,
                to,
            ));
        }
    }
}

/// What removing an entry of the target changes is confined.
proof fn lemma_removal_is_confined(
    state: ReplaceView,
    first: Disk,
    before: Disk,
    after: Disk,
    source: Key,
    target: Key,
    reply: Reply,
)
    requires
        replace_goes_on(state, first, before, source, target),
        state.phase is Remove,
        crate::disk::happens(
            before,
            crate::ui::replace::replace_request(state)->0,
            reply,
            after,
        ),
    ensures
        changes_are_confined(before, after, source, target),
{
    let path = state.phase->Remove_path;
    let name = choose|name: Seq<u8>|
        {
            &&& #[trigger] is_entry(path, target, name)
            &&& entries_are(before, target, state.left, name, state.fault is None)
        };
    let place = crate::disk::child(target, name);
    assert(target =~= place.subrange(0, target.len() as int));
    assert(place.is_prefix_of(place));
    assert forall|key: Key| place.is_prefix_of(key) implies target.is_prefix_of(key) by {
        crate::disk::lemma_prefix_chain(target, place, key);
    }
}

/// What moving an entry changes is confined.
proof fn lemma_move_is_confined(
    state: ReplaceView,
    first: Disk,
    before: Disk,
    after: Disk,
    source: Key,
    target: Key,
    reply: Reply,
)
    requires
        replace_goes_on(state, first, before, source, target),
        state.phase is Move,
        crate::disk::happens(
            before,
            crate::ui::replace::replace_request(state)->0,
            reply,
            after,
        ),
    ensures
        changes_are_confined(before, after, source, target),
{
    let root = contents_root(first, source);
    let from = state.phase->Move_from;
    let to = state.phase->Move_to;
    lemma_contents_root(first, source, target);
    let name = choose|name: Seq<u8>|
        {
            &&& #[trigger] is_entry(from, root, name)
            &&& is_entry(to, target, name)
            &&& entry_waits(first, before, root, target, name)
            &&& entries_move(
                first,
                before,
                root,
                target,
                state.left,
                Some(name),
                state.fault is None,
            )
        };
    let here = crate::disk::child(root, name);
    let there = crate::disk::child(target, name);
    assert(root =~= here.subrange(0, root.len() as int));
    assert(target =~= there.subrange(0, target.len() as int));
    crate::disk::lemma_prefix_chain(source, root, here);
    assert forall|key: Key| here.is_prefix_of(key) implies source.is_prefix_of(key) by {
        crate::disk::lemma_prefix_chain(source, here, key);
    }
    assert forall|key: Key| there.is_prefix_of(key) implies target.is_prefix_of(key) by {
        crate::disk::lemma_prefix_chain(target, there, key);
    }
}

/// What a step of copying an entry changes is confined.
proof fn lemma_copy_is_confined(
    state: ReplaceView,
    first: Disk,
    before: Disk,
    after: Disk,
    source: Key,
    target: Key,
    reply: Reply,
)
    requires
        replace_goes_on(state, first, before, source, target),
        state.phase is Copy,
        crate::disk::happens(
            before,
            crate::ui::replace::replace_request(state)->0,
            reply,
            after,
        ),
    ensures
        changes_are_confined(before, after, source, target),
{
    let root = contents_root(first, source);
    let copy = state.phase->Copy_0;
    let name = choose|name: Seq<u8>|
        {
            &&& #[trigger] crate::ui::copied::copy_goes_on(
                copy,
                first,
                crate::disk::nothing(),
                before,
                crate::disk::child(root, name),
                crate::disk::child(target, name),
            )
            &&& entries_move(
                first,
                before,
                root,
                target,
                state.left,
                Some(name),
                state.fault is None,
            )
        };
    let from = crate::disk::child(root, name);
    let to = crate::disk::child(target, name);
    let base = crate::disk::nothing();
    crate::ui::copied::lemma_copy_step_is_confined(
        copy,
        first,
        base,
        before,
        after,
        from,
        to,
        reply,
    );
    assert(target =~= to.subrange(0, target.len() as int));
    assert forall|key: Key| key.is_prefix_of(to) || to.is_prefix_of(key) implies key.is_prefix_of(
        target,
    ) || target.is_prefix_of(key) by {
        if key.is_prefix_of(to) {
            crate::disk::lemma_prefixes_meet(key, target, to);
        } else {
            crate::disk::lemma_prefix_chain(target, to, key);
        }
    }
}

/// What a replacement does in one step is confined, whether it succeeds or not.
proof fn lemma_step_is_confined(
    state: ReplaceView,
    first: Disk,
    before: Disk,
    after: Disk,
    source: Key,
    target: Key,
    reply: Reply,
)
    requires
        replace_goes_on(state, first, before, source, target),
        crate::ui::replace::replace_request(state) is Some,
        crate::disk::happens(
            before,
            crate::ui::replace::replace_request(state)->0,
            reply,
            after,
        ),
    ensures
        changes_are_confined(before, after, source, target),
{
    match state.phase {
        ReplacePhase::Remove { .. } => {
            lemma_removal_is_confined(state, first, before, after, source, target, reply);
        },
        ReplacePhase::Move { .. } => {
            lemma_move_is_confined(state, first, before, after, source, target, reply);
        },
        ReplacePhase::Copy(_) => {
            lemma_copy_is_confined(state, first, before, after, source, target, reply);
        },
        _ => {},
    }
}

/// A replacement after a run of answers.
pub open spec fn replace_run(start: ReplaceView, replies: Seq<Reply>) -> ReplaceView
    decreases replies.len(),
{
    if replies.len() == 0 {
        start
    } else {
        crate::ui::replace::replace_step(replace_run(start, replies.drop_last()), replies.last())
    }
}

/// Whether a run of a replacement can happen on a file system that is `first` before it.
pub open spec fn replace_happens(start: ReplaceView, first: Disk, events: Seq<Event>) -> bool
    decreases events.len(),
{
    if events.len() == 0 {
        true
    } else {
        let before = events.drop_last();
        &&& replace_happens(start, first, before)
        &&& crate::disk::is_tree(events.last().disk)
        &&& match crate::ui::replace::replace_request(
            replace_run(start, crate::disk::replies(before)),
        ) {
            Some(request) => crate::disk::happens(
                crate::disk::disk_after(first, before),
                request,
                events.last().reply,
                events.last().disk,
            ),
            None => false,
        }
    }
}

/// Whether a directory holds, in `disk`, what `root` holds in `first`, with all that is
/// found below through ordinary names.
pub open spec fn is_installed(first: Disk, disk: Disk, root: Key, target: Key) -> bool {
    &&& crate::disk::at(disk, target) == Some(Node::Dir)
    &&& forall|rest: Key|
        rest.len() > 0 && crate::disk::names_only(rest) ==> crate::disk::at(
            disk,
            #[trigger] (target + rest),
        ) == crate::disk::at(first, root + rest)
}

/// One step of a replacement.
pub proof fn lemma_replace_step(
    state: ReplaceView,
    first: Disk,
    before: Disk,
    after: Disk,
    source: Key,
    target: Key,
    reply: Reply,
)
    requires
        replace_goes_on(state, first, before, source, target),
        crate::disk::is_tree(after),
        crate::ui::replace::replace_request(state) is Some,
        crate::disk::happens(
            before,
            crate::ui::replace::replace_request(state)->0,
            reply,
            after,
        ),
    ensures
        replace_goes_on(
            crate::ui::replace::replace_step(state, reply),
            first,
            after,
            source,
            target,
        ),
{
    match state.phase {
        ReplacePhase::ListSource => lemma_source_is_settled(
            state,
            first,
            before,
            after,
            source,
            target,
            reply,
        ),
        ReplacePhase::CheckSole(_) => lemma_source_is_settled(
            state,
            first,
            before,
            after,
            source,
            target,
            reply,
        ),
        ReplacePhase::ListMoves => lemma_contents_are_moved(
            state,
            first,
            before,
            after,
            source,
            target,
            reply,
        ),
        ReplacePhase::Move { .. } => lemma_contents_are_moved(
            state,
            first,
            before,
            after,
            source,
            target,
            reply,
        ),
        ReplacePhase::Copy(_) => lemma_entry_is_copied(
            state,
            first,
            before,
            after,
            source,
            target,
            reply,
        ),
        _ => lemma_target_is_emptied(state, first, before, after, source, target, reply),
    }
}

/// A run of a replacement.
proof fn lemma_replace_run(source: Seq<u8>, target: Seq<u8>, first: Disk, events: Seq<Event>)
    requires
        crate::disk::is_tree(first),
        crate::disk::apart(crate::path::components(source), crate::path::components(target)),
        replace_happens(crate::ui::replace::replace_start(source, target), first, events),
    ensures
        replace_goes_on(
            replace_run(
                crate::ui::replace::replace_start(source, target),
                crate::disk::replies(events),
            ),
            first,
            crate::disk::disk_after(first, events),
            crate::path::components(source),
            crate::path::components(target),
        ),
        changes_are_confined(
            first,
            crate::disk::disk_after(first, events),
            crate::path::components(source),
            crate::path::components(target),
        ),
    decreases events.len(),
{
    if events.len() > 0 {
        let before = events.drop_last();
        lemma_replace_run(source, target, first, before);
        assert(crate::disk::replies(events).drop_last() =~= crate::disk::replies(before));
        let state = replace_run(
            crate::ui::replace::replace_start(source, target),
            crate::disk::replies(before),
        );
        let from = crate::path::components(source);
        let to = crate::path::components(target);
        let disk = crate::disk::disk_after(first, before);
        lemma_replace_step(
            state,
            first,
            disk,
            events.last().disk,
            from,
            to,
            events.last().reply,
        );
        lemma_step_is_confined(
            state,
            first,
            disk,
            events.last().disk,
            from,
            to,
            events.last().reply,
        );
        assert forall|key: Key|
            !from.is_prefix_of(key) && !to.is_prefix_of(key) && !key.is_prefix_of(to) implies (
        #[trigger] crate::disk::at(events.last().disk, key)) == crate::disk::at(first, key) by {
            assert(crate::disk::at(disk, key) == crate::disk::at(first, key));
        }
    }
}

/// Once a replacement is done, the target holds what the source held, or, where that was a
/// single directory, what that one held, and nothing else; however the entries came there,
/// by a move or by a copy. Whatever becomes of a replacement, nothing changes but what is
/// at or below the source and the target, and the directories above the target.
///
/// The source and the target are places of which neither is at or below the other.
pub proof fn law_replacement_installs_the_contents(
    source: Seq<u8>,
    target: Seq<u8>,
    first: Disk,
    events: Seq<Event>,
)
    requires
        crate::disk::is_tree(first),
        crate::disk::apart(crate::path::components(source), crate::path::components(target)),
        replace_happens(crate::ui::replace::replace_start(source, target), first, events),
    ensures
        replace_run(
            crate::ui::replace::replace_start(source, target),
            crate::disk::replies(events),
        ).phase is Replaced ==> is_installed(
            first,
            crate::disk::disk_after(first, events),
            contents_root(first, crate::path::components(source)),
            crate::path::components(target),
        ),
        changes_are_confined(
            first,
            crate::disk::disk_after(first, events),
            crate::path::components(source),
            crate::path::components(target),
        ),
{
    lemma_replace_run(source, target, first, events);
    let state = replace_run(
        crate::ui::replace::replace_start(source, target),
        crate::disk::replies(events),
    );
    if state.phase is Replaced {
        lemma_arrived_is_installed(
            first,
            crate::disk::disk_after(first, events),
            crate::path::components(source),
            crate::path::components(target),
        );
    }
}

/// Where every entry has arrived.
pub proof fn lemma_arrived_is_installed(first: Disk, disk: Disk, source: Key, target: Key)
    requires
        crate::disk::at(disk, target) == Some(Node::Dir),
        forall|name: Seq<u8>| #[trigger]
            entry_arrived(first, disk, contents_root(first, source), target, name),
    ensures
        is_installed(first, disk, contents_root(first, source), target),
{
    let root = contents_root(first, source);
    assert forall|rest: Key|
        rest.len() > 0 && crate::disk::names_only(rest) implies crate::disk::at(
        disk,
        #[trigger] (target + rest),
    ) == crate::disk::at(first, root + rest) by {
        let below = rest.skip(1);
        assert(rest[0] is Normal);
        let name = rest[0]->Normal_0;
        assert forall|i: int| 0 <= i < below.len() implies #[trigger] below[i] is Normal by {
            assert(below[i] == rest[i + 1]);
        }
        assert(target + rest =~= crate::disk::child(target, name) + below);
        assert(root + rest =~= crate::disk::child(root, name) + below);
        assert(entry_arrived(first, disk, root, target, name));
    }
}

} // verus!
