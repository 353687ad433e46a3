//! What a download of the web interface leaves in the file system.
use crate::disk::{Disk, Event, Key, Node};
use crate::effect::Reply;
use crate::ui::archive::{ExtractStep, Outcome};
use crate::ui::update::{UpdatePhase, UpdateView};
use vstd::prelude::*;

verus! {

/// A file system once a step of unpacking is done.
pub open spec fn with_step(disk: Disk, step: ExtractStep<Seq<u8>, Seq<u8>>) -> Disk {
    match step {
        ExtractStep::CreateDir(path) => crate::disk::with_dirs(disk, crate::path::components(path)),
        ExtractStep::WriteFile { path, data } => crate::disk::with_node(
            disk,
            crate::path::components(path),
            Node::File(data),
        ),
    }
}

/// A file system once the steps of unpacking are done.
pub open spec fn unpacked(disk: Disk, steps: Seq<ExtractStep<Seq<u8>, Seq<u8>>>) -> Disk
    decreases steps.len(),
{
    if steps.len() == 0 {
        disk
    } else {
        with_step(unpacked(disk, steps.drop_last()), steps.last())
    }
}

/// A download after a run of answers.
pub open spec fn update_run(part: Seq<u8>, start: UpdateView, replies: Seq<Reply>) -> UpdateView
    decreases replies.len(),
{
    if replies.len() == 0 {
        start
    } else {
        crate::ui::update::update_step(
            update_run(part, start, replies.drop_last()),
            replies.last(),
            part,
        )
    }
}

/// Whether a run of a download can happen on a file system that is `first` before it.
pub open spec fn update_happens(
    part: Seq<u8>,
    start: UpdateView,
    first: Disk,
    events: Seq<Event>,
) -> bool
    decreases events.len(),
{
    if events.len() == 0 {
        true
    } else {
        let before = events.drop_last();
        &&& update_happens(part, start, first, before)
        &&& crate::disk::is_tree(events.last().disk)
        &&& match crate::ui::update::update_request(
            update_run(part, start, crate::disk::replies(before)),
        ) {
            Some(request) => crate::disk::happens(
                crate::disk::disk_after(first, before),
                request,
                events.last().reply,
                events.last().disk,
            ),
            None => false,
        }
    }
}

/// Whether the archive starts to be unpacked at a place of a run: the directory that it is
/// unpacked to is created there.
pub open spec fn unpacks_at(part: Seq<u8>, start: UpdateView, events: Seq<Event>, m: int) -> bool {
    &&& 0 <= m < events.len()
    &&& update_run(part, start, crate::disk::replies(events).take(m)).phase is MakeTempDir
    &&& events[m].reply is Path
}

/// The archive that starts to be unpacked at a place of a run.
pub open spec fn archive_at(
    part: Seq<u8>,
    start: UpdateView,
    events: Seq<Event>,
    m: int,
) -> Seq<u8> {
    update_run(part, start, crate::disk::replies(events).take(m)).phase->body
}

/// The directory that it is unpacked to.
pub open spec fn temp_at(events: Seq<Event>, m: int) -> Seq<u8> {
    events[m].reply->Path_0@
}

/// What it unpacks to.
pub open spec fn outcome_at(
    part: Seq<u8>,
    start: UpdateView,
    events: Seq<Event>,
    m: int,
) -> Outcome {
    crate::ui::archive::archive_outcome(
        archive_at(part, start, events, m),
        temp_at(events, m),
        part,
    )
}

/// The file system once it is unpacked.
pub open spec fn unpacked_at(part: Seq<u8>, start: UpdateView, events: Seq<Event>, m: int) -> Disk {
    unpacked(events[m].disk, outcome_at(part, start, events, m).steps)
}

/// Whether the archive is being unpacked to `temp`, and its first `j` steps are done.
pub open spec fn unpacks_so_far(
    part: Seq<u8>,
    start: UpdateView,
    events: Seq<Event>,
    disk: Disk,
    phase: crate::ui::update::UpdateState,
    m: int,
    j: int,
) -> bool {
    let outcome = outcome_at(part, start, events, m);
    &&& unpacks_at(part, start, events, m)
    &&& crate::ui::replaced::is_empty(events[m].disk, crate::path::components(temp_at(events, m)))
    &&& 0 <= j < outcome.steps.len()
    &&& phase matches UpdatePhase::Unpack { temp, step, left, fault }
    &&& temp == temp_at(events, m)
    &&& step == outcome.steps[j]
    &&& left == outcome.steps.skip(j + 1).reverse()
    &&& fault == outcome.fault
    &&& disk == unpacked(events[m].disk, outcome.steps.take(j))
}

/// Whether the archive is unpacked, without a fault.
pub open spec fn is_unpacked(part: Seq<u8>, start: UpdateView, events: Seq<Event>, m: int) -> bool {
    &&& unpacks_at(part, start, events, m)
    &&& crate::ui::replaced::is_empty(events[m].disk, crate::path::components(temp_at(events, m)))
    &&& outcome_at(part, start, events, m).fault is None
}

/// What a download has done, on a file system that is `first` before it.
pub open spec fn updated_so_far(
    part: Seq<u8>,
    start: UpdateView,
    first: Disk,
    events: Seq<Event>,
) -> bool {
    let state = update_run(part, start, crate::disk::replies(events));
    let disk = crate::disk::disk_after(first, events);
    let target = crate::path::components(start.target);
    &&& crate::disk::is_tree(disk)
    &&& state.target == start.target
    &&& crate::ui::update::update_wf(state)
    &&& match state.phase {
        UpdatePhase::Unpack { .. } => exists|m: int, j: int| #[trigger]
            unpacks_so_far(part, start, events, disk, state.phase, m, j),
        UpdatePhase::Replace(replace) => exists|m: int|
            {
                &&& #[trigger] is_unpacked(part, start, events, m)
                &&& crate::ui::replaced::replace_goes_on(
                    replace,
                    unpacked_at(part, start, events, m),
                    disk,
                    crate::path::components(temp_at(events, m)),
                    target,
                )
            },
        UpdatePhase::Updated => exists|m: int|
            {
                &&& #[trigger] is_unpacked(part, start, events, m)
                &&& crate::ui::replaced::is_installed(
                    unpacked_at(part, start, events, m),
                    disk,
                    crate::ui::replaced::contents_root(
                        unpacked_at(part, start, events, m),
                        crate::path::components(temp_at(events, m)),
                    ),
                    target,
                )
            },
        _ => true,
    }
}

/// What happened in a run stays so when the run goes on.
proof fn lemma_longer_run(part: Seq<u8>, start: UpdateView, events: Seq<Event>, m: int)
    requires
        events.len() > 0,
        unpacks_at(part, start, events.drop_last(), m),
    ensures
        unpacks_at(part, start, events, m),
        archive_at(part, start, events, m) == archive_at(part, start, events.drop_last(), m),
        temp_at(events, m) == temp_at(events.drop_last(), m),
        events[m] == events.drop_last()[m],
{
    assert(crate::disk::replies(events).take(m) =~= crate::disk::replies(events.drop_last()).take(
        m,
    ));
}

/// Going on with what is left to be unpacked.
proof fn lemma_unpack_on(
    part: Seq<u8>,
    start: UpdateView,
    first: Disk,
    events: Seq<Event>,
    m: int,
    j: int,
)
    requires
        crate::ui::replaced::is_empty(events[m].disk, crate::path::components(temp_at(events, m))),
        unpacks_at(part, start, events, m),
        crate::disk::apart(
            crate::path::components(temp_at(events, m)),
            crate::path::components(start.target),
        ),
        0 <= j <= outcome_at(part, start, events, m).steps.len(),
        crate::disk::is_tree(crate::disk::disk_after(first, events)),
        crate::disk::disk_after(first, events) == unpacked(
            events[m].disk,
            outcome_at(part, start, events, m).steps.take(j),
        ),
        update_run(part, start, crate::disk::replies(events)).target == start.target,
        exists|state: UpdateView|
            state.target == start.target && update_run(part, start, crate::disk::replies(events))
                == #[trigger] crate::ui::update::unpack_on(
                state,
                temp_at(events, m),
                outcome_at(part, start, events, m).steps.skip(j).reverse(),
                outcome_at(part, start, events, m).fault,
            ),
    ensures
        updated_so_far(part, start, first, events),
{
    let outcome = outcome_at(part, start, events, m);
    let steps = outcome.steps;
    let left = steps.skip(j).reverse();
    let disk = crate::disk::disk_after(first, events);
    let state = update_run(part, start, crate::disk::replies(events));
    if j < steps.len() {
        assert(left.last() == steps[j]);
        assert(left.drop_last() =~= steps.skip(j + 1).reverse());
        assert(unpacks_so_far(part, start, events, disk, state.phase, m, j));
    } else {
        assert(steps.take(j) =~= steps);
        if outcome.fault is None {
            assert(is_unpacked(part, start, events, m));
            assert(disk == unpacked_at(part, start, events, m));
        }
    }
}

/// A run of a download.
proof fn lemma_update_run(
    part: Seq<u8>,
    url: Seq<char>,
    target: Seq<u8>,
    first: Disk,
    events: Seq<Event>,
)
    requires
        crate::disk::is_tree(first),
        update_happens(part, crate::ui::update::update_start(url, target), first, events),
        forall|m: int|
            unpacks_at(part, crate::ui::update::update_start(url, target), events, m)
                ==> crate::disk::apart(
                crate::path::components(#[trigger] temp_at(events, m)),
                crate::path::components(target),
            ),
    ensures
        updated_so_far(part, crate::ui::update::update_start(url, target), first, events),
    decreases events.len(),
{
    let start = crate::ui::update::update_start(url, target);
    if events.len() > 0 {
        let before = events.drop_last();
        let last = events.len() - 1;
        assert forall|m: int| unpacks_at(part, start, before, m) implies crate::disk::apart(
            crate::path::components(#[trigger] temp_at(before, m)),
            crate::path::components(target),
        ) by {
            lemma_longer_run(part, start, events, m);
            assert(temp_at(events, m) == temp_at(before, m));
        }
        lemma_update_run(part, url, target, first, before);
        assert(crate::disk::replies(events).drop_last() =~= crate::disk::replies(before));
        assert(crate::disk::replies(events).take(last) =~= crate::disk::replies(before));
        let state = update_run(part, start, crate::disk::replies(before));
        let next = update_run(part, start, crate::disk::replies(events));
        let old = crate::disk::disk_after(first, before);
        let disk = events.last().disk;
        let reply = events.last().reply;
        match state.phase {
            UpdatePhase::MakeTempDir { body } => {
                if let Reply::Path(path) = reply {
                    let temp = crate::path::components(path@);
                    assert(unpacks_at(part, start, events, last));
                    assert(temp_at(events, last) == path@);
                    assert forall|name: Seq<u8>|
                        (#[trigger] crate::disk::at(disk, crate::disk::child(temp, name)))
                            is None by {
                        let place = crate::disk::child(temp, name);
                        assert(place != temp);
                        assert(crate::disk::is_rooted(old, place));
                        assert(place.drop_last() =~= temp);
                        assert(temp.len() > 0);
                    }
                    let steps = outcome_at(part, start, events, last).steps;
                    assert(steps.take(0) =~= Seq::empty());
                    assert(steps.skip(0) =~= steps);
                    lemma_unpack_on(part, start, first, events, last, 0);
                }
            },
            UpdatePhase::Unpack { temp, step, left, fault } => {
                let (m, j) = choose|m: int, j: int| #[trigger]
                    unpacks_so_far(part, start, before, old, state.phase, m, j);
                lemma_longer_run(part, start, events, m);
                assert(temp_at(events, m) == temp);
                let steps = outcome_at(part, start, events, m).steps;
                if reply is Done {
                    assert(steps.take(j + 1).drop_last() =~= steps.take(j));
                    assert(steps.take(j + 1).last() == steps[j]);
                    crate::disk::lemma_same(disk, unpacked(events[m].disk, steps.take(j + 1)));
                    lemma_unpack_on(part, start, first, events, m, j + 1);
                }
            },
            UpdatePhase::Replace(replace) => {
                let m = choose|m: int|
                    {
                        &&& #[trigger] is_unpacked(part, start, before, m)
                        &&& crate::ui::replaced::replace_goes_on(
                            replace,
                            unpacked_at(part, start, before, m),
                            old,
                            crate::path::components(temp_at(before, m)),
                            crate::path::components(target),
                        )
                    };
                lemma_longer_run(part, start, events, m);
                let base = unpacked_at(part, start, events, m);
                let source = crate::path::components(temp_at(events, m));
                assert(is_unpacked(part, start, events, m));
                crate::ui::replaced::lemma_replace_step(
                    replace,
                    base,
                    old,
                    disk,
                    source,
                    crate::path::components(target),
                    reply,
                );
                if next.phase is Updated {
                    crate::ui::replaced::lemma_arrived_is_installed(
                        base,
                        disk,
                        source,
                        crate::path::components(target),
                    );
                }
            },
            _ => {},
        }
    }
}

/// Once a download is done, the directory of the web interface holds what the archive
/// unpacks to in an empty directory, or, where that is a single directory, what that one
/// holds; and the archive is one without a fault.
///
/// The temporary directory is one that is neither at or below that directory, nor above it.
pub proof fn law_update_installs_the_archive(
    part: Seq<u8>,
    url: Seq<char>,
    target: Seq<u8>,
    first: Disk,
    events: Seq<Event>,
)
    requires
        crate::disk::is_tree(first),
        update_happens(part, crate::ui::update::update_start(url, target), first, events),
        forall|m: int|
            unpacks_at(part, crate::ui::update::update_start(url, target), events, m)
                ==> crate::disk::apart(
                crate::path::components(#[trigger] temp_at(events, m)),
                crate::path::components(target),
            ),
        update_run(
            part,
            crate::ui::update::update_start(url, target),
            crate::disk::replies(events),
        ).phase is Updated,
    ensures
        ({
            let start = crate::ui::update::update_start(url, target);
            exists|m: int|
                #![trigger is_unpacked(part, start, events, m)]
                is_unpacked(part, start, events, m) && crate::ui::replaced::is_installed(
                    unpacked_at(part, start, events, m),
                    crate::disk::disk_after(first, events),
                    crate::ui::replaced::contents_root(
                        unpacked_at(part, start, events, m),
                        crate::path::components(temp_at(events, m)),
                    ),
                    crate::path::components(target),
                )
        }),
{
    lemma_update_run(part, url, target, first, events);
}

/// Until the archive starts to be unpacked nothing changes.
proof fn lemma_nothing_changes_yet(
    part: Seq<u8>,
    url: Seq<char>,
    target: Seq<u8>,
    first: Disk,
    events: Seq<Event>,
)
    requires
        update_happens(part, crate::ui::update::update_start(url, target), first, events),
    ensures
        ({
            let state = update_run(
                part,
                crate::ui::update::update_start(url, target),
                crate::disk::replies(events),
            );
            &&& state.target == target
            &&& state.phase is Get || state.phase is ReadBody || state.phase is MakeTempDir
                ==> crate::disk::same(crate::disk::disk_after(first, events), first)
        }),
    decreases events.len(),
{
    if events.len() > 0 {
        let before = events.drop_last();
        lemma_nothing_changes_yet(part, url, target, first, before);
        assert(crate::disk::replies(events).drop_last() =~= crate::disk::replies(before));
        let state = update_run(
            part,
            crate::ui::update::update_start(url, target),
            crate::disk::replies(before),
        );
        let next = update_run(
            part,
            crate::ui::update::update_start(url, target),
            crate::disk::replies(events),
        );
        if next.phase is Get || next.phase is ReadBody || next.phase is MakeTempDir {
            assert(state.phase is Get || state.phase is ReadBody || state.phase is MakeTempDir);
            assert forall|key: Key|
                (#[trigger] crate::disk::at(events.last().disk, key)) == crate::disk::at(
                    first,
                    key,
                ) by {
                assert(crate::disk::at(crate::disk::disk_after(first, before), key)
                    == crate::disk::at(first, key));
            }
        }
    }
}

/// What a step of unpacking changes, whether it succeeds or not, is not at or below a
/// place that is apart from where it is unpacked to.
proof fn lemma_step_stays_apart(
    before: Disk,
    after: Disk,
    step: ExtractStep<Seq<u8>, Seq<u8>>,
    reply: Reply,
    temp: Seq<u8>,
    target: Key,
    rest: Key,
)
    requires
        crate::disk::apart(crate::path::components(temp), target),
        crate::ui::archive::step_is_local(temp, step),
        crate::disk::happens(before, crate::ui::update::step_request(step), reply, after),
    ensures
        crate::disk::at(after, target + rest) == crate::disk::at(before, target + rest),
{
    let base = crate::path::components(temp);
    let place = match step {
        ExtractStep::CreateDir(path) => crate::path::components(path),
        ExtractStep::WriteFile { path, .. } => crate::path::components(path),
    };
    if (target + rest).is_prefix_of(place) {
        assert(target =~= (target + rest).subrange(0, target.len() as int));
        crate::disk::lemma_prefix_chain(target, target + rest, place);
        if base.is_prefix_of(place) {
            crate::disk::lemma_prefixes_meet(target, base, place);
        } else {
            assert(place =~= base.subrange(0, place.len() as int));
            crate::disk::lemma_prefix_chain(target, place, base);
        }
    }
    if target + rest == place {
        assert((target + rest).is_prefix_of(place));
    }
}

/// Whether a faulty archive is being unpacked to `temp`, or has failed to be.
pub open spec fn unpacks_in_vain(state: UpdateView, temp: Seq<u8>) -> bool {
    &&& crate::ui::update::update_is_confined(state)
    &&& match state.phase {
        UpdatePhase::Unpack { temp: own, fault, .. } => own == temp && fault is Some,
        UpdatePhase::Failed(_) => true,
        _ => false,
    }
}

/// Once an archive that is at fault starts to be unpacked, the download can only fail, and
/// the directory of the web interface stays, with all that is below it, as it was.
///
/// The temporary directory is one that is neither at or below that directory, nor above it.
pub proof fn law_faulty_archive_leaves_the_old_web_interface(
    part: Seq<u8>,
    url: Seq<char>,
    target: Seq<u8>,
    first: Disk,
    events: Seq<Event>,
    m: int,
)
    requires
        update_happens(part, crate::ui::update::update_start(url, target), first, events),
        unpacks_at(part, crate::ui::update::update_start(url, target), events, m),
        outcome_at(part, crate::ui::update::update_start(url, target), events, m).fault is Some,
        crate::disk::apart(
            crate::path::components(temp_at(events, m)),
            crate::path::components(target),
        ),
    ensures
        unpacks_in_vain(
            update_run(
                part,
                crate::ui::update::update_start(url, target),
                crate::disk::replies(events),
            ),
            temp_at(events, m),
        ),
        forall|rest: Key|
            crate::disk::at(
                crate::disk::disk_after(first, events),
                #[trigger] (crate::path::components(target) + rest),
            ) == crate::disk::at(first, crate::path::components(target) + rest),
    decreases events.len(),
{
    let start = crate::ui::update::update_start(url, target);
    let before = events.drop_last();
    let last = events.len() - 1;
    let place = crate::path::components(target);
    let temp = temp_at(events, m);
    let old = crate::disk::disk_after(first, before);
    let disk = events.last().disk;
    let state = update_run(part, start, crate::disk::replies(before));
    assert(crate::disk::replies(events).drop_last() =~= crate::disk::replies(before));
    if m == last {
        assert(crate::disk::replies(events).take(m) =~= crate::disk::replies(before));
        lemma_nothing_changes_yet(part, url, target, first, before);
        crate::ui::update::law_update_stays_confined(state, events.last().reply, part);
        assert forall|rest: Key|
            crate::disk::at(disk, #[trigger] (place + rest)) == crate::disk::at(
                first,
                place + rest,
            ) by {
            crate::disk::lemma_apart(crate::path::components(temp), place, rest);
            assert(crate::disk::at(old, place + rest) == crate::disk::at(first, place + rest));
            assert(crate::path::components(temp).is_prefix_of(crate::path::components(temp)));
        }
    } else {
        assert(crate::disk::replies(events).take(m) =~= crate::disk::replies(before).take(m));
        law_faulty_archive_leaves_the_old_web_interface(part, url, target, first, before, m);
        if let UpdatePhase::Unpack { step, .. } = state.phase {
            crate::ui::update::law_update_stays_confined(state, events.last().reply, part);
            assert forall|rest: Key|
                crate::disk::at(disk, #[trigger] (place + rest)) == crate::disk::at(
                    first,
                    place + rest,
                ) by {
                lemma_step_stays_apart(
                    old,
                    disk,
                    step,
                    events.last().reply,
                    temp,
                    place,
                    rest,
                );
            }
        }
    }
}

/// How a download comes to its archive.
proof fn lemma_archive_comes_second(
    part: Seq<u8>,
    url: Seq<char>,
    target: Seq<u8>,
    first: Disk,
    events: Seq<Event>,
)
    requires
        update_happens(part, crate::ui::update::update_start(url, target), first, events),
    ensures
        ({
            let state = update_run(
                part,
                crate::ui::update::update_start(url, target),
                crate::disk::replies(events),
            );
            &&& state.phase is Get ==> events.len() == 0
            &&& state.phase is ReadBody ==> events.len() == 1 && events[0].reply is Status && !(400
                <= events[0].reply->code <= 599)
            &&& state.phase is MakeTempDir ==> {
                &&& events.len() == 2
                &&& events[0].reply is Status
                &&& !(400 <= events[0].reply->code <= 599)
                &&& events[1].reply is Bytes
                &&& state.phase->body == events[1].reply->Bytes_0@
            }
        }),
    decreases events.len(),
{
    if events.len() > 0 {
        let before = events.drop_last();
        lemma_archive_comes_second(part, url, target, first, before);
        assert(crate::disk::replies(events).drop_last() =~= crate::disk::replies(before));
        if before.len() > 0 {
            assert(before[0] == events[0]);
        }
    }
}

/// What happened up to a place of a run is a run that can happen.
proof fn lemma_shorter_run(
    part: Seq<u8>,
    start: UpdateView,
    first: Disk,
    events: Seq<Event>,
    len: int,
)
    requires
        update_happens(part, start, first, events),
        0 <= len <= events.len(),
    ensures
        update_happens(part, start, first, events.take(len)),
    decreases events.len(),
{
    if len == events.len() {
        assert(events.take(len) =~= events);
    } else {
        assert(events.drop_last().take(len) =~= events.take(len));
        lemma_shorter_run(part, start, first, events.drop_last(), len);
    }
}

/// The archive that is unpacked is, byte for byte, the body that the server sent, after a
/// status that is none from 400 to 599: the second answer of the run, which the third, the
/// place that it is unpacked to, follows.
pub proof fn law_unpacked_archive_is_the_one_received(
    part: Seq<u8>,
    url: Seq<char>,
    target: Seq<u8>,
    first: Disk,
    events: Seq<Event>,
    m: int,
)
    requires
        update_happens(part, crate::ui::update::update_start(url, target), first, events),
        unpacks_at(part, crate::ui::update::update_start(url, target), events, m),
    ensures
        m == 2,
        events[0].reply is Status,
        !(400 <= events[0].reply->code <= 599),
        events[1].reply is Bytes,
        archive_at(part, crate::ui::update::update_start(url, target), events, m)
            == events[1].reply->Bytes_0@,
{
    let start = crate::ui::update::update_start(url, target);
    lemma_shorter_run(part, start, first, events, m);
    lemma_archive_comes_second(part, url, target, first, events.take(m));
    assert(crate::disk::replies(events.take(m)) =~= crate::disk::replies(events).take(m));
}

/// Once a download is done, the directory of the web interface holds what the body that the
/// server sent unpacks to, without a fault, in the directory that was created for it, or,
/// where that is a single directory, what that one holds.
///
/// The temporary directory is one that is neither at or below that directory, nor above it.
pub proof fn law_update_installs_what_the_server_sent(
    part: Seq<u8>,
    url: Seq<char>,
    target: Seq<u8>,
    first: Disk,
    events: Seq<Event>,
)
    requires
        crate::disk::is_tree(first),
        update_happens(part, crate::ui::update::update_start(url, target), first, events),
        forall|m: int|
            unpacks_at(part, crate::ui::update::update_start(url, target), events, m)
                ==> crate::disk::apart(
                crate::path::components(#[trigger] temp_at(events, m)),
                crate::path::components(target),
            ),
        update_run(
            part,
            crate::ui::update::update_start(url, target),
            crate::disk::replies(events),
        ).phase is Updated,
    ensures
        events.len() > 3,
        events[1].reply is Bytes,
        events[2].reply is Path,
        ({
            let temp = events[2].reply->Path_0@;
            let outcome = crate::ui::archive::archive_outcome(
                events[1].reply->Bytes_0@,
                temp,
                part,
            );
            let disk = unpacked(events[2].disk, outcome.steps);
            &&& outcome.fault is None
            &&& crate::ui::replaced::is_installed(
                disk,
                crate::disk::disk_after(first, events),
                crate::ui::replaced::contents_root(disk, crate::path::components(temp)),
                crate::path::components(target),
            )
        }),
{
    let start = crate::ui::update::update_start(url, target);
    law_update_installs_the_archive(part, url, target, first, events);
    let m = choose|m: int|
        #![trigger is_unpacked(part, start, events, m)]
        is_unpacked(part, start, events, m) && crate::ui::replaced::is_installed(
            unpacked_at(part, start, events, m),
            crate::disk::disk_after(first, events),
            crate::ui::replaced::contents_root(
                unpacked_at(part, start, events, m),
                crate::path::components(temp_at(events, m)),
            ),
            crate::path::components(target),
        );
    law_unpacked_archive_is_the_one_received(part, url, target, first, events, m);
    if events.len() == 3 {
        let before = events.drop_last();
        assert(crate::disk::replies(events).drop_last() =~= crate::disk::replies(events).take(2));
    }
}

/// A file that is written in the course of unpacking is there in the end, with all of its data,
/// unless a later step writes to its place or needs a directory there.
pub proof fn law_unpacked_file_is_there(
    disk: Disk,
    steps: Seq<ExtractStep<Seq<u8>, Seq<u8>>>,
    path: Seq<u8>,
    data: Seq<u8>,
    i: int,
)
    requires
        0 <= i < steps.len(),
        steps[i] == (ExtractStep::<Seq<u8>, Seq<u8>>::WriteFile { path, data }),
        forall|j: int|
            i < j < steps.len() ==> match #[trigger] steps[j] {
                ExtractStep::CreateDir(later) => !crate::path::components(path).is_prefix_of(
                    crate::path::components(later),
                ),
                ExtractStep::WriteFile { path: later, .. } => crate::path::components(later)
                    != crate::path::components(path),
            },
    ensures
        crate::disk::at(unpacked(disk, steps), crate::path::components(path)) == Some(
            Node::File(data),
        ),
    decreases steps.len(),
{
    let last = steps.len() - 1;
    assert(steps.last() == steps[last]);
    if i < last {
        let before = steps.drop_last();
        assert forall|j: int| i < j < before.len() implies match #[trigger] before[j] {
            ExtractStep::CreateDir(later) => !crate::path::components(path).is_prefix_of(
                crate::path::components(later),
            ),
            ExtractStep::WriteFile { path: later, .. } => crate::path::components(later)
                != crate::path::components(path),
        } by {
            assert(before[j] == steps[j]);
        }
        law_unpacked_file_is_there(disk, before, path, data, i);
    }
}

} // verus!
