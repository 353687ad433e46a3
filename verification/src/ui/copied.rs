//! What a copy of a directory leaves in the file system.
use crate::disk::{Disk, Event, Key, Node};
use crate::effect::Reply;
use crate::path::Component;
use crate::ui::replace::{CopyPhase, CopyView, TaskView};
use vstd::prelude::*;

verus! {

/// The part of a task's place below `from`.
pub open spec fn rel(task: TaskView, from: Key) -> Key {
    crate::path::components(task.from).skip(from.len() as int)
}

/// Whether something below `from` is still to be copied by a task.
pub open spec fn waits(tasks: Seq<TaskView>, from: Key, rest: Key) -> bool {
    exists|i: int| 0 <= i < tasks.len() && rel(#[trigger] tasks[i], from).is_prefix_of(rest)
}

/// What is at a place below `to` once what `first` has at `from` is laid over what `base` has
/// at `to`.
pub open spec fn laid_over(first: Disk, base: Disk, from: Key, to: Key, rest: Key) -> Option<Node> {
    if crate::disk::at(first, from + rest) is Some {
        crate::disk::at(first, from + rest)
    } else {
        crate::disk::at(base, to + rest)
    }
}

/// Whether tasks copy from below `from` to the same places below `to`, none of them what
/// another one copies.
pub open spec fn tasks_are_placed(tasks: Seq<TaskView>, from: Key, to: Key) -> bool {
    &&& forall|i: int|
        0 <= i < tasks.len() ==> from.is_prefix_of(
            crate::path::components((#[trigger] tasks[i]).from),
        ) && crate::path::components(tasks[i].to) == to + rel(tasks[i], from)
    &&& forall|i: int, j: int|
        0 <= i < tasks.len() && 0 <= j < tasks.len() && i != j ==> !rel(
            #[trigger] tasks[i],
            from,
        ).is_prefix_of(rel(#[trigger] tasks[j], from))
}

/// What is found, through ordinary names, below `to`, where `first` has what is to be
/// copied, and `base` what was at `to` before: what waits for no task is copied, and no link.
pub open spec fn contents_so_far(
    copy: CopyView,
    first: Disk,
    base: Disk,
    disk: Disk,
    from: Key,
    to: Key,
) -> bool {
    &&& forall|rest: Key|
        crate::disk::names_only(rest) ==> crate::disk::at(disk, #[trigger] (to + rest))
            == if !waits(copy.tasks, from, rest) {
            laid_over(first, base, from, to, rest)
        } else if copy.phase is List && rest == rel(copy.tasks.last(), from) {
            Some(Node::Dir)
        } else {
            crate::disk::at(base, to + rest)
        }
    &&& forall|rest: Key|
        crate::disk::names_only(rest) && !waits(copy.tasks, from, rest) ==> crate::disk::at(
            first,
            #[trigger] (from + rest),
        ) != Some(Node::Link)
}

/// What a copy from `from` to `to` has done, where `first` has what is to be copied, and
/// `base` what was at `to` before. Where a listing broke off no more is said of what is at
/// `to`: the copy can only fail.
pub open spec fn copy_so_far(
    copy: CopyView,
    first: Disk,
    base: Disk,
    disk: Disk,
    from: Key,
    to: Key,
) -> bool {
    let tasks = copy.tasks;
    let hand = rel(tasks.last(), from);
    &&& forall|rest: Key|
        crate::disk::at(disk, #[trigger] (from + rest)) == crate::disk::at(first, from + rest)
    &&& tasks_are_placed(tasks, from, to)
    &&& copy.fault is None ==> contents_so_far(copy, first, base, disk, from, to)
    &&& match copy.phase {
        CopyPhase::MakeDir => crate::disk::at(first, from + hand) == Some(Node::Dir),
        CopyPhase::List => crate::disk::at(first, from + hand) == Some(Node::Dir),
        CopyPhase::MakeParent(above) => {
            &&& crate::disk::at(first, from + hand) is Some
            &&& crate::disk::at(first, from + hand)->0 is File
            &&& crate::path::components(above).is_prefix_of(to + hand)
            &&& crate::path::components(above).len() < (to + hand).len()
        },
        CopyPhase::CopyFile => {
            &&& crate::disk::at(first, from + hand) is Some
            &&& crate::disk::at(first, from + hand)->0 is File
        },
        CopyPhase::Copied => tasks.len() == 0 && copy.fault is None,
        _ => true,
    }
}

/// Whether nothing differs but what is at or below `to`, and directories above it that were
/// created.
pub open spec fn same_outside(before: Disk, after: Disk, to: Key) -> bool {
    forall|key: Key|
        !to.is_prefix_of(key) ==> (#[trigger] crate::disk::at(after, key)) == crate::disk::at(
            before,
            key,
        ) || (key.len() > 0 && key.is_prefix_of(to) && crate::disk::at(after, key) == Some(
            Node::Dir,
        ))
}

/// A copy that is under way, and what it has done so far.
pub open spec fn copy_goes_on(
    copy: CopyView,
    first: Disk,
    base: Disk,
    disk: Disk,
    from: Key,
    to: Key,
) -> bool {
    &&& crate::disk::is_tree(first)
    &&& crate::disk::is_tree(disk)
    &&& crate::disk::apart(from, to)
    &&& copy.tasks.len() > 0
    &&& !crate::ui::replace::copy_ended(copy)
    &&& copy_so_far(copy, first, base, disk, from, to)
}

/// The task at hand is at `hand`, and waits; nothing else does that is not below it.
pub proof fn lemma_hand(
    copy: CopyView,
    first: Disk,
    base: Disk,
    disk: Disk,
    from: Key,
    to: Key,
)
    requires
        copy_goes_on(copy, first, base, disk, from, to),
    ensures
        crate::path::components(copy.tasks.last().from) == from + rel(copy.tasks.last(), from),
        crate::path::components(copy.tasks.last().to) == to + rel(copy.tasks.last(), from),
        forall|rest: Key|
            rel(copy.tasks.last(), from).is_prefix_of(rest) ==> #[trigger] waits(
                copy.tasks,
                from,
                rest,
            ),
        forall|rest: Key|
            rest.is_prefix_of(rel(copy.tasks.last(), from)) && rest != rel(copy.tasks.last(), from)
                ==> !#[trigger] waits(copy.tasks, from, rest),
{
    let tasks = copy.tasks;
    let last = tasks.len() - 1;
    let hand = rel(tasks.last(), from);
    let place = crate::path::components(tasks.last().from);
    assert(tasks[last] == tasks.last());
    assert(place =~= from + place.skip(from.len() as int));
    assert forall|rest: Key| rest.is_prefix_of(hand) && rest != hand implies !#[trigger] waits(
        tasks,
        from,
        rest,
    ) by {
        if waits(tasks, from, rest) {
            let i = choose|i: int|
                0 <= i < tasks.len() && rel(#[trigger] tasks[i], from).is_prefix_of(rest);
            let own = rel(tasks[i], from);
            assert(own =~= hand.subrange(0, own.len() as int));
            if i == last {
                assert(rest =~= hand);
            }
        }
    }
}

/// Creating the directories above `to + end` changes nothing outside `to` but directories
/// above it, and below it only what is above `end`.
proof fn lemma_dirs(before: Disk, after: Disk, from: Key, to: Key, end: Key, made: Key)
    requires
        crate::disk::apart(from, to),
        made.is_prefix_of(to + end),
        crate::disk::same(after, crate::disk::with_dirs(before, made)),
    ensures
        same_outside(before, after, to),
        forall|rest: Key|
            crate::disk::at(after, #[trigger] (from + rest)) == crate::disk::at(
                before,
                from + rest,
            ),
        forall|rest: Key|
            crate::disk::at(after, #[trigger] (to + rest)) == crate::disk::at(before, to + rest)
                || (rest.is_prefix_of(end) && (to + rest).is_prefix_of(made) && crate::disk::at(
                after,
                to + rest,
            ) == Some(Node::Dir)),
{
    assert forall|key: Key| !to.is_prefix_of(key) implies (#[trigger] crate::disk::at(after, key))
        == crate::disk::at(before, key) || (key.len() > 0 && key.is_prefix_of(to)
        && crate::disk::at(after, key) == Some(Node::Dir)) by {
        if key.len() > 0 && key.is_prefix_of(made) {
            crate::disk::lemma_prefix_chain(key, made, to + end);
            assert(to =~= (to + end).subrange(0, to.len() as int));
            crate::disk::lemma_prefixes_meet(key, to, to + end);
        }
    }
    assert forall|rest: Key|
        crate::disk::at(after, #[trigger] (from + rest)) == crate::disk::at(
            before,
            from + rest,
        ) by {
        crate::disk::lemma_apart(from, to, rest);
        if (from + rest).is_prefix_of(made) {
            crate::disk::lemma_prefix_chain(from + rest, made, to + end);
            assert(from =~= (from + rest).subrange(0, from.len() as int));
            crate::disk::lemma_prefix_chain(from, from + rest, to + end);
            crate::disk::lemma_apart(from, to, end);
        }
    }
    assert forall|rest: Key|
        crate::disk::at(after, #[trigger] (to + rest)) == crate::disk::at(before, to + rest) || (
        rest.is_prefix_of(end) && (to + rest).is_prefix_of(made) && crate::disk::at(
            after,
            to + rest,
        ) == Some(Node::Dir)) by {
        if (to + rest).is_prefix_of(made) {
            assert(rest =~= end.subrange(0, rest.len() as int)) by {
                assert((to + rest) =~= (to + end).subrange(0, (to + rest).len() as int));
                assert forall|i: int| 0 <= i < rest.len() implies rest[i] == end[i] by {
                    assert((to + rest)[to.len() + i] == (to + end)[to.len() + i]);
                }
            }
        }
    }
}

/// Once the directory for the task at hand is created.
proof fn lemma_dir_is_made(
    copy: CopyView,
    first: Disk,
    base: Disk,
    before: Disk,
    after: Disk,
    from: Key,
    to: Key,
    reply: Reply,
)
    requires
        copy_goes_on(copy, first, base, before, from, to),
        copy.phase is MakeDir || copy.phase is MakeParent,
        reply is Done,
        crate::disk::happens(
            before,
            crate::ui::replace::copy_request(copy)->0,
            reply,
            after,
        ),
    ensures
        copy_so_far(crate::ui::replace::copy_step(copy, reply), first, base, after, from, to),
        same_outside(before, after, to),
{
    let tasks = copy.tasks;
    let hand = rel(tasks.last(), from);
    let next = crate::ui::replace::copy_step(copy, reply);
    let made = match copy.phase {
        CopyPhase::MakeParent(above) => crate::path::components(above),
        _ => crate::path::components(tasks.last().to),
    };
    lemma_hand(copy, first, base, before, from, to);
    lemma_dirs(before, after, from, to, hand, made);
    if copy.fault is None {
        assert forall|rest: Key|
            crate::disk::names_only(rest) implies crate::disk::at(after, #[trigger] (to + rest))
            == if !waits(tasks, from, rest) {
            laid_over(first, base, from, to, rest)
        } else if next.phase is List && rest == hand {
            Some(Node::Dir)
        } else {
            crate::disk::at(base, to + rest)
        } by {
            if (to + rest).is_prefix_of(made) && rest.is_prefix_of(hand) && rest != hand {
                assert(rest.len() < hand.len()) by {
                    if rest.len() == hand.len() {
                        assert(rest =~= hand);
                    }
                }
                assert((from + rest) =~= (from + hand).subrange(0, (from + rest).len() as int));
                crate::disk::lemma_above_is_dir(first, from + rest, from + hand);
            }
            if rest == hand {
                assert((to + rest).is_prefix_of(made) <==> made == to + hand);
            }
        }
    }
}

/// Once the file at hand is copied.
proof fn lemma_file_is_copied(
    copy: CopyView,
    first: Disk,
    base: Disk,
    before: Disk,
    after: Disk,
    from: Key,
    to: Key,
    reply: Reply,
)
    requires
        copy_goes_on(copy, first, base, before, from, to),
        copy.phase is CopyFile,
        reply is Done,
        crate::disk::happens(
            before,
            crate::ui::replace::copy_request(copy)->0,
            reply,
            after,
        ),
    ensures
        copy_so_far(crate::ui::replace::copy_step(copy, reply), first, base, after, from, to),
        same_outside(before, after, to),
{
    let tasks = copy.tasks;
    let kept = tasks.drop_last();
    let last = tasks.len() - 1;
    let hand = rel(tasks.last(), from);
    let next = crate::ui::replace::copy_step(copy, reply);
    lemma_hand(copy, first, base, before, from, to);
    assert(to =~= (to + hand).subrange(0, to.len() as int));
    assert forall|rest: Key|
        crate::disk::at(after, #[trigger] (from + rest)) == crate::disk::at(
            first,
            from + rest,
        ) by {
        crate::disk::lemma_apart(from, to, rest);
        assert(to =~= (to + hand).subrange(0, to.len() as int));
    }
    lemma_fewer_tasks(tasks, from, to);
    if copy.fault is None {
        assert forall|rest: Key|
            crate::disk::names_only(rest) implies crate::disk::at(after, #[trigger] (to + rest))
            == if !waits(kept, from, rest) {
            laid_over(first, base, from, to, rest)
        } else {
            crate::disk::at(base, to + rest)
        } by {
            assert((to + rest).skip(to.len() as int) =~= rest);
            assert((to + hand).skip(to.len() as int) =~= hand);
            lemma_file_waits(copy, first, base, before, from, to, rest);
        }
        assert forall|rest: Key|
            crate::disk::names_only(rest) && !waits(kept, from, rest) implies crate::disk::at(
            first,
            #[trigger] (from + rest),
        ) != Some(Node::Link) by {
            lemma_file_waits(copy, first, base, before, from, to, rest);
        }
    }
}

/// What waits for the file at hand alone is the file, and what is below it, where nothing
/// is.
proof fn lemma_file_waits(
    copy: CopyView,
    first: Disk,
    base: Disk,
    before: Disk,
    from: Key,
    to: Key,
    rest: Key,
)
    requires
        copy_goes_on(copy, first, base, before, from, to),
        copy.phase is CopyFile,
    ensures
        waits(copy.tasks.drop_last(), from, rest) ==> waits(copy.tasks, from, rest) && rest != rel(
            copy.tasks.last(),
            from,
        ),
        waits(copy.tasks, from, rest) && !waits(copy.tasks.drop_last(), from, rest) ==> rest == rel(
            copy.tasks.last(),
            from,
        ) || crate::disk::at(first, from + rest) is None,
{
    let tasks = copy.tasks;
    let kept = tasks.drop_last();
    let last = tasks.len() - 1;
    let hand = rel(tasks.last(), from);
    lemma_hand(copy, first, base, before, from, to);
    assert(tasks[last] == tasks.last());
    if waits(kept, from, rest) {
        let i = choose|i: int|
            0 <= i < kept.len() && rel(#[trigger] kept[i], from).is_prefix_of(rest);
        assert(kept[i] == tasks[i]);
        assert(rel(tasks[i], from).is_prefix_of(rest));
    } else if waits(tasks, from, rest) {
        let i = choose|i: int|
            0 <= i < tasks.len() && rel(#[trigger] tasks[i], from).is_prefix_of(rest);
        if i < last {
            assert(kept[i] == tasks[i]);
        }
        if rest != hand && crate::disk::at(first, from + rest) is Some {
            assert(hand.len() < rest.len()) by {
                if hand.len() == rest.len() {
                    assert(hand =~= rest);
                }
            }
            assert((from + hand) =~= (from + rest).subrange(0, (from + hand).len() as int));
            crate::disk::lemma_above_is_dir(first, from + hand, from + rest);
        }
    }
}

/// Tasks stay placed when the last one is done.
proof fn lemma_fewer_tasks(tasks: Seq<TaskView>, from: Key, to: Key)
    requires
        tasks.len() > 0,
        tasks_are_placed(tasks, from, to),
    ensures
        tasks_are_placed(tasks.drop_last(), from, to),
{
    let kept = tasks.drop_last();
    assert forall|i: int| 0 <= i < kept.len() implies from.is_prefix_of(
        crate::path::components((#[trigger] kept[i]).from),
    ) && crate::path::components(kept[i].to) == to + rel(kept[i], from) by {
        assert(kept[i] == tasks[i]);
    }
    assert forall|i: int, j: int|
        0 <= i < kept.len() && 0 <= j < kept.len() && i != j implies !rel(
        #[trigger] kept[i],
        from,
    ).is_prefix_of(rel(#[trigger] kept[j], from)) by {
        assert(kept[i] == tasks[i] && kept[j] == tasks[j]);
    }
}

/// The tasks for the entries of a directory.
proof fn lemma_child_tasks(task: TaskView, names: Seq<Seq<u8>>, from: Key, to: Key)
    requires
        from.is_prefix_of(crate::path::components(task.from)),
        crate::path::components(task.to) == to + rel(task, from),
        forall|i: int| 0 <= i < names.len() ==> crate::path::is_plain_name(#[trigger] names[i]),
    ensures
        ({
            let children = crate::ui::replace::child_tasks(task, names);
            &&& children.len() == names.len()
            &&& forall|i: int|
                0 <= i < children.len() ==> {
                    &&& from.is_prefix_of(
                        crate::path::components((#[trigger] children[i]).from),
                    )
                    &&& rel(children[i], from) == rel(task, from).push(
                        Component::Normal(names[names.len() - 1 - i]),
                    )
                    &&& crate::path::components(children[i].to) == to + rel(children[i], from)
                }
        }),
{
    let children = crate::ui::replace::child_tasks(task, names);
    let place = crate::path::components(task.from);
    let hand = rel(task, from);
    assert forall|i: int| 0 <= i < children.len() implies {
        &&& from.is_prefix_of(crate::path::components((#[trigger] children[i]).from))
        &&& rel(children[i], from) == hand.push(Component::Normal(names[names.len() - 1 - i]))
        &&& crate::path::components(children[i].to) == to + rel(children[i], from)
    } by {
        let name = names[names.len() - 1 - i];
        assert(names.reverse()[i] == name);
        crate::path::law_join_plain_name(task.from, name);
        crate::path::law_join_plain_name(task.to, name);
        let own = crate::path::components(children[i].from);
        assert(own == place.push(Component::Normal(name)));
        assert(from =~= own.subrange(0, from.len() as int));
        assert(own.skip(from.len() as int) =~= hand.push(Component::Normal(name)));
        assert(crate::path::components(children[i].to) =~= to + rel(children[i], from));
    }
}

/// Where a task of a directory waits, the directory did, and not for itself.
proof fn lemma_child_waits(
    kept: Seq<TaskView>,
    children: Seq<TaskView>,
    from: Key,
    rest: Key,
)
    ensures
        waits(kept + children, from, rest) <==> waits(kept, from, rest) || waits(
            children,
            from,
            rest,
        ),
{
    let all = kept + children;
    if waits(all, from, rest) {
        let i = choose|i: int|
            0 <= i < all.len() && rel(#[trigger] all[i], from).is_prefix_of(rest);
        if i < kept.len() {
            assert(kept[i] == all[i]);
        } else {
            assert(children[i - kept.len()] == all[i]);
        }
    }
    if waits(kept, from, rest) {
        let i = choose|i: int|
            0 <= i < kept.len() && rel(#[trigger] kept[i], from).is_prefix_of(rest);
        assert(kept[i] == all[i]);
    }
    if waits(children, from, rest) {
        let i = choose|i: int|
            0 <= i < children.len() && rel(#[trigger] children[i], from).is_prefix_of(rest);
        assert(children[i] == all[kept.len() + i]);
    }
}

/// The tasks for the entries of a directory are placed, in its place, where it was.
proof fn lemma_children_are_placed(
    kept: Seq<TaskView>,
    task: TaskView,
    names: Seq<Seq<u8>>,
    from: Key,
    to: Key,
)
    requires
        tasks_are_placed(kept.push(task), from, to),
        crate::ui::replace::all_plain(names),
        names.no_duplicates(),
    ensures
        tasks_are_placed(kept + crate::ui::replace::child_tasks(task, names), from, to),
{
    let tasks = kept.push(task);
    let last = kept.len() as int;
    let hand = rel(task, from);
    let children = crate::ui::replace::child_tasks(task, names);
    let next = kept + children;
    assert(tasks[last] == task);
    lemma_child_tasks(task, names, from, to);
    assert forall|i: int| 0 <= i < next.len() implies from.is_prefix_of(
        crate::path::components((#[trigger] next[i]).from),
    ) && crate::path::components(next[i].to) == to + rel(next[i], from) by {
        if i < kept.len() {
            assert(next[i] == tasks[i]);
        } else {
            assert(next[i] == children[i - kept.len()]);
        }
    }
    assert forall|i: int, j: int|
        0 <= i < next.len() && 0 <= j < next.len() && i != j implies !rel(
        #[trigger] next[i],
        from,
    ).is_prefix_of(rel(#[trigger] next[j], from)) by {
        let one = rel(next[i], from);
        let other = rel(next[j], from);
        if one.is_prefix_of(other) {
            if i < kept.len() {
                assert(next[i] == tasks[i]);
                if j < kept.len() {
                    assert(next[j] == tasks[j]);
                } else {
                    assert(next[j] == children[j - kept.len()]);
                    if one.len() <= hand.len() {
                        assert(one =~= hand.subrange(0, one.len() as int));
                    } else {
                        assert(hand =~= one.subrange(0, hand.len() as int));
                    }
                }
            } else {
                assert(next[i] == children[i - kept.len()]);
                if j < kept.len() {
                    assert(next[j] == tasks[j]);
                    assert(hand =~= other.subrange(0, hand.len() as int));
                } else {
                    assert(next[j] == children[j - kept.len()]);
                    assert(one =~= other);
                    assert(one.last() == other.last());
                    let a = names.len() - 1 - (i - kept.len());
                    let b = names.len() - 1 - (j - kept.len());
                    assert(names[a] == names[b]);
                }
            }
        }
    }
}

/// What waits for the entries of the directory at hand, once that is listed: all that
/// waited for it, but itself and what is not there.
proof fn lemma_dir_waits(
    copy: CopyView,
    first: Disk,
    base: Disk,
    before: Disk,
    from: Key,
    to: Key,
    names: Seq<Seq<u8>>,
    rest: Key,
)
    requires
        copy_goes_on(copy, first, base, before, from, to),
        copy.phase is List,
        crate::disk::lists(before, from + rel(copy.tasks.last(), from), names),
        crate::disk::names_only(rest),
    ensures
        ({
            let hand = rel(copy.tasks.last(), from);
            let next = copy.tasks.drop_last() + crate::ui::replace::child_tasks(
                copy.tasks.last(),
                names,
            );
            &&& waits(next, from, rest) ==> waits(copy.tasks, from, rest) && rest != hand
            &&& waits(copy.tasks, from, rest) && !waits(next, from, rest) ==> rest == hand
                || crate::disk::at(first, from + rest) is None
        }),
{
    let tasks = copy.tasks;
    let kept = tasks.drop_last();
    let last = tasks.len() - 1;
    let task = tasks.last();
    let hand = rel(task, from);
    let children = crate::ui::replace::child_tasks(task, names);
    lemma_hand(copy, first, base, before, from, to);
    assert(tasks[last] == task);
    lemma_child_tasks(task, names, from, to);
    lemma_child_waits(kept, children, from, rest);
    if waits(kept, from, rest) {
        let i = choose|i: int|
            0 <= i < kept.len() && rel(#[trigger] kept[i], from).is_prefix_of(rest);
        assert(kept[i] == tasks[i]);
        assert(rel(tasks[i], from).is_prefix_of(rest));
    } else if waits(children, from, rest) {
        let i = choose|i: int|
            0 <= i < children.len() && rel(#[trigger] children[i], from).is_prefix_of(rest);
        let own = rel(children[i], from);
        assert(hand =~= rest.subrange(0, hand.len() as int)) by {
            assert(hand =~= own.subrange(0, hand.len() as int));
        }
        assert(rest.len() > hand.len());
    } else if waits(tasks, from, rest) {
        let i = choose|i: int|
            0 <= i < tasks.len() && rel(#[trigger] tasks[i], from).is_prefix_of(rest);
        if i < last {
            assert(kept[i] == tasks[i]);
        }
        if rest != hand && crate::disk::at(first, from + rest) is Some {
            assert(hand.len() < rest.len()) by {
                if hand.len() == rest.len() {
                    assert(hand =~= rest);
                }
            }
            let next_part = rest[hand.len() as int];
            let own = hand.push(next_part);
            assert(own =~= rest.subrange(0, own.len() as int));
            assert((from + own) =~= (from + rest).subrange(0, (from + own).len() as int));
            if own.len() < rest.len() {
                crate::disk::lemma_above_is_dir(first, from + own, from + rest);
            } else {
                assert(own =~= rest);
            }
            let name = next_part->Normal_0;
            assert(from + own =~= crate::disk::child(from + hand, name));
            assert(crate::disk::at(before, from + own) is Some);
            assert(names.contains(name));
            let place = choose|place: int| 0 <= place < names.len() && names[place] == name;
            assert(rel(children[names.len() - 1 - place], from) == own);
            assert(waits(children, from, rest));
        }
    }
}

/// Once the directory at hand is listed, whole or not.
proof fn lemma_dir_is_listed(
    copy: CopyView,
    first: Disk,
    base: Disk,
    before: Disk,
    after: Disk,
    from: Key,
    to: Key,
    reply: Reply,
)
    requires
        copy_goes_on(copy, first, base, before, from, to),
        copy.phase is List,
        crate::effect::is_listing(reply),
        crate::disk::happens(
            before,
            crate::ui::replace::copy_request(copy)->0,
            reply,
            after,
        ),
    ensures
        ({
            let next = crate::ui::replace::copy_step(copy, reply);
            next.phase is Failed || copy_so_far(next, first, base, after, from, to)
        }),
{
    let tasks = copy.tasks;
    let kept = tasks.drop_last();
    let task = tasks.last();
    let hand = rel(task, from);
    let names = crate::effect::listed(reply);
    let next = crate::ui::replace::copy_step(copy, reply);
    lemma_hand(copy, first, base, before, from, to);
    assert(tasks[tasks.len() - 1] == task);
    if reply is Names {
        assert(kept.push(task) =~= tasks);
        lemma_children_are_placed(kept, task, names, from, to);
        if copy.fault is None {
            assert forall|rest: Key|
                crate::disk::names_only(rest) implies crate::disk::at(
                after,
                #[trigger] (to + rest),
            ) == if !waits(next.tasks, from, rest) {
                laid_over(first, base, from, to, rest)
            } else {
                crate::disk::at(base, to + rest)
            } by {
                lemma_dir_waits(copy, first, base, before, from, to, names, rest);
            }
            assert forall|rest: Key|
                crate::disk::names_only(rest) && !waits(
                    next.tasks,
                    from,
                    rest,
                ) implies crate::disk::at(first, #[trigger] (from + rest)) != Some(Node::Link) by {
                lemma_dir_waits(copy, first, base, before, from, to, names, rest);
            }
        }
    } else {
        let sole = Seq::<TaskView>::empty().push(task);
        assert(tasks_are_placed(sole, from, to)) by {
            assert(sole[0] == task);
        }
        lemma_children_are_placed(Seq::empty(), task, names, from, to);
        assert(Seq::<TaskView>::empty() + crate::ui::replace::child_tasks(task, names)
            =~= crate::ui::replace::child_tasks(task, names));
    }
}

/// A copy that is not refused and does not fail has, after each step, done what it is to
/// do so far, and changed nothing outside `to`.
pub proof fn lemma_copy_step(
    copy: CopyView,
    first: Disk,
    base: Disk,
    before: Disk,
    after: Disk,
    from: Key,
    to: Key,
    reply: Reply,
)
    requires
        copy_goes_on(copy, first, base, before, from, to),
        crate::disk::is_tree(after),
        crate::disk::happens(
            before,
            crate::ui::replace::copy_request(copy)->0,
            reply,
            after,
        ),
    ensures
        ({
            let next = crate::ui::replace::copy_step(copy, reply);
            next.phase is Failed || next.phase is Refused || {
                &&& copy_so_far(next, first, base, after, from, to)
                &&& same_outside(before, after, to)
                &&& next.phase is Copied || copy_goes_on(next, first, base, after, from, to)
            }
        }),
{
    let next = crate::ui::replace::copy_step(copy, reply);
    lemma_hand(copy, first, base, before, from, to);
    crate::path::law_parent_drops_last_component(copy.tasks.last().to);
    match (copy.phase, reply) {
        (_, Reply::Failed(_)) => {},
        (CopyPhase::Inspect, _) => {
            let hand = rel(copy.tasks.last(), from);
            if let CopyPhase::MakeParent(above) = next.phase {
                assert(crate::path::components(above) =~= (to + hand).subrange(
                    0,
                    (to + hand).len() - 1,
                ));
            }
        },
        (CopyPhase::MakeDir, _) => {
            lemma_dir_is_made(copy, first, base, before, after, from, to, reply);
        },
        (CopyPhase::MakeParent(_), _) => {
            lemma_dir_is_made(copy, first, base, before, after, from, to, reply);
        },
        (CopyPhase::List, _) => {
            lemma_dir_is_listed(copy, first, base, before, after, from, to, reply);
        },
        (CopyPhase::CopyFile, _) => {
            lemma_file_is_copied(copy, first, base, before, after, from, to, reply);
        },
        _ => {},
    }
}

/// What a step of a copy changes, whether it succeeds or not, is at or below `to`, or above
/// it.
pub proof fn lemma_copy_step_is_confined(
    copy: CopyView,
    first: Disk,
    base: Disk,
    before: Disk,
    after: Disk,
    from: Key,
    to: Key,
    reply: Reply,
)
    requires
        copy_goes_on(copy, first, base, before, from, to),
        crate::disk::happens(
            before,
            crate::ui::replace::copy_request(copy)->0,
            reply,
            after,
        ),
    ensures
        changes_only(before, after, to),
{
    lemma_hand(copy, first, base, before, from, to);
    let place = to + rel(copy.tasks.last(), from);
    assert(to =~= place.subrange(0, to.len() as int));
    assert(place.is_prefix_of(place));
    assert forall|key: Key| key.is_prefix_of(place) implies key.is_prefix_of(to)
        || to.is_prefix_of(key) by {
        crate::disk::lemma_prefixes_meet(key, to, place);
    }
    if let CopyPhase::MakeParent(above) = copy.phase {
        let made = crate::path::components(above);
        assert forall|key: Key| key.is_prefix_of(made) implies key.is_prefix_of(place) by {
            crate::disk::lemma_prefix_chain(key, made, place);
        }
    }
}

/// Whether nothing differs but what is at, below or above `to`.
pub open spec fn changes_only(before: Disk, after: Disk, to: Key) -> bool {
    forall|key: Key|
        !to.is_prefix_of(key) && !key.is_prefix_of(to) ==> (#[trigger] crate::disk::at(after, key))
            == crate::disk::at(before, key)
}

/// A copy at its start.
pub proof fn lemma_copy_start(first: Disk, base: Disk, disk: Disk, from: Seq<u8>, to: Seq<u8>)
    requires
        crate::disk::is_tree(first),
        crate::disk::is_tree(disk),
        crate::disk::apart(crate::path::components(from), crate::path::components(to)),
        forall|rest: Key|
            crate::disk::at(disk, #[trigger] (crate::path::components(from) + rest))
                == crate::disk::at(first, crate::path::components(from) + rest),
        forall|rest: Key|
            crate::disk::at(disk, #[trigger] (crate::path::components(to) + rest))
                == crate::disk::at(base, crate::path::components(to) + rest),
    ensures
        copy_goes_on(
            crate::ui::replace::copy_start(from, to),
            first,
            base,
            disk,
            crate::path::components(from),
            crate::path::components(to),
        ),
{
    let copy = crate::ui::replace::copy_start(from, to);
    let own = crate::path::components(from);
    assert(own.skip(own.len() as int) =~= Seq::empty());
    assert(crate::path::components(to) + rel(copy.tasks[0], own) =~= crate::path::components(to));
    assert forall|rest: Key| #[trigger] waits(copy.tasks, own, rest) by {
        assert(rel(copy.tasks[0], own) =~= rest.subrange(0, 0));
    }
}

/// A copy after a run of answers.
pub open spec fn copy_run(start: CopyView, replies: Seq<Reply>) -> CopyView
    decreases replies.len(),
{
    if replies.len() == 0 {
        start
    } else {
        crate::ui::replace::copy_step(copy_run(start, replies.drop_last()), replies.last())
    }
}

/// Whether a run of a copy can happen on a file system that is `first` before it.
pub open spec fn copy_happens(start: CopyView, first: Disk, events: Seq<Event>) -> bool
    decreases events.len(),
{
    if events.len() == 0 {
        true
    } else {
        let before = events.drop_last();
        &&& copy_happens(start, first, before)
        &&& crate::disk::is_tree(events.last().disk)
        &&& match crate::ui::replace::copy_request(
            copy_run(start, crate::disk::replies(before)),
        ) {
            Some(request) => crate::disk::happens(
                crate::disk::disk_after(first, before),
                request,
                events.last().reply,
                events.last().disk,
            ),
            None => false,
        }
    }
}

/// Whether what `first` has at `from` is, with all below it, at `to` in `disk` as well, and
/// the rest of what `first` has at or below `to` is there still; and there is no link at or
/// below `from`. (Below a place is what is found from there through ordinary names.)
pub open spec fn is_copied(first: Disk, disk: Disk, from: Key, to: Key) -> bool {
    &&& forall|rest: Key|
        crate::disk::names_only(rest) ==> crate::disk::at(disk, #[trigger] (to + rest))
            == laid_over(first, first, from, to, rest)
    &&& forall|rest: Key|
        crate::disk::names_only(rest) ==> crate::disk::at(first, #[trigger] (from + rest)) != Some(
            Node::Link,
        )
}

/// Once a copy is done, every file and directory at or below its source is at the same
/// place at or below its target, with the same bytes, and what the target held elsewhere
/// is there still; and there was no symbolic link at or below its source. Whatever becomes
/// of a copy, its source, and all that is not at, below or above the target, is as it was.
///
/// Neither of the two places is at or below the other.
pub proof fn law_copy_copies_the_tree(
    from: Seq<u8>,
    to: Seq<u8>,
    first: Disk,
    events: Seq<Event>,
)
    requires
        crate::disk::is_tree(first),
        crate::disk::apart(crate::path::components(from), crate::path::components(to)),
        copy_happens(crate::ui::replace::copy_start(from, to), first, events),
    ensures
        copy_run(
            crate::ui::replace::copy_start(from, to),
            crate::disk::replies(events),
        ).phase is Copied ==> is_copied(
            first,
            crate::disk::disk_after(first, events),
            crate::path::components(from),
            crate::path::components(to),
        ),
        forall|rest: Key|
            crate::disk::at(
                crate::disk::disk_after(first, events),
                #[trigger] (crate::path::components(from) + rest),
            ) == crate::disk::at(first, crate::path::components(from) + rest),
        changes_only(
            first,
            crate::disk::disk_after(first, events),
            crate::path::components(to),
        ),
{
    lemma_copy_run(from, to, first, events);
    let source = crate::path::components(from);
    let target = crate::path::components(to);
    let disk = crate::disk::disk_after(first, events);
    let copy = copy_run(
        crate::ui::replace::copy_start(from, to),
        crate::disk::replies(events),
    );
    assert forall|rest: Key|
        crate::disk::at(disk, #[trigger] (source + rest)) == crate::disk::at(
            first,
            source + rest,
        ) by {
        crate::disk::lemma_apart(source, target, rest);
        if (source + rest).is_prefix_of(target) {
            assert(source =~= (source + rest).subrange(0, source.len() as int));
            crate::disk::lemma_prefix_chain(source, source + rest, target);
        }
    }
    if copy.phase is Copied {
        assert forall|rest: Key| #[trigger] waits(copy.tasks, source, rest) == false by {}
        assert(is_copied(first, disk, source, target));
    }
}

/// A run of a copy.
proof fn lemma_copy_run(from: Seq<u8>, to: Seq<u8>, first: Disk, events: Seq<Event>)
    requires
        crate::disk::is_tree(first),
        crate::disk::apart(crate::path::components(from), crate::path::components(to)),
        copy_happens(crate::ui::replace::copy_start(from, to), first, events),
    ensures
        ({
            let copy = copy_run(
                crate::ui::replace::copy_start(from, to),
                crate::disk::replies(events),
            );
            let disk = crate::disk::disk_after(first, events);
            let source = crate::path::components(from);
            let target = crate::path::components(to);
            &&& changes_only(first, disk, target)
            &&& copy.phase is Copied ==> copy_so_far(copy, first, first, disk, source, target)
            &&& !crate::ui::replace::copy_ended(copy) ==> copy_goes_on(
                copy,
                first,
                first,
                disk,
                source,
                target,
            )
        }),
    decreases events.len(),
{
    let source = crate::path::components(from);
    let target = crate::path::components(to);
    if events.len() == 0 {
        lemma_copy_start(first, first, first, from, to);
    } else {
        let before = events.drop_last();
        lemma_copy_run(from, to, first, before);
        assert(crate::disk::replies(events).drop_last() =~= crate::disk::replies(before));
        let copy = copy_run(
            crate::ui::replace::copy_start(from, to),
            crate::disk::replies(before),
        );
        let old = crate::disk::disk_after(first, before);
        let disk = events.last().disk;
        let reply = events.last().reply;
        lemma_copy_step(copy, first, first, old, disk, source, target, reply);
        lemma_copy_step_is_confined(copy, first, first, old, disk, source, target, reply);
        assert forall|key: Key|
            !target.is_prefix_of(key) && !key.is_prefix_of(target) implies (
        #[trigger] crate::disk::at(disk, key)) == crate::disk::at(first, key) by {
            assert(crate::disk::at(old, key) == crate::disk::at(first, key));
        }
    }
}

} // verus!
