//! Putting a new web interface in the place of an old one.
use crate::effect::{reversed_names, FileKind, Reply, Request};
use crate::path::UnixPath;
use vstd::prelude::*;

verus! {

/// Something to be copied.
#[derive(Debug)]
pub struct CopyTask {
    pub from: UnixPath,
    pub to: UnixPath,
}

/// What is copied from where to where.
pub struct TaskView {
    pub from: Seq<u8>,
    pub to: Seq<u8>,
}

impl View for CopyTask {
    type V = TaskView;

    open spec fn view(&self) -> TaskView {
        TaskView { from: self.from@, to: self.to@ }
    }
}

/// The tasks that a vector of them stands for.
pub open spec fn task_views(tasks: Seq<CopyTask>) -> Seq<TaskView> {
    tasks.map_values(|task: CopyTask| task@)
}

/// How far a copy has come with the task at hand, or how it ended.
#[derive(Debug)]
pub enum CopyPhase<P, T> {
    /// Find out what is to be copied.
    Inspect,
    /// It is a directory: create the new one.
    MakeDir,
    /// Find out what the directory holds.
    List,
    /// It is a file: create the directory that is to hold the new one.
    MakeParent(P),
    /// Copy the file.
    CopyFile,
    /// All is copied.
    Copied,
    /// There is a symbolic link among what is to be copied.
    Refused(P),
    /// Something could not be done.
    Failed(T),
}

impl View for CopyPhase<UnixPath, String> {
    type V = CopyPhase<Seq<u8>, Seq<char>>;

    open spec fn view(&self) -> CopyPhase<Seq<u8>, Seq<char>> {
        match self {
            CopyPhase::Inspect => CopyPhase::Inspect,
            CopyPhase::MakeDir => CopyPhase::MakeDir,
            CopyPhase::List => CopyPhase::List,
            CopyPhase::MakeParent(path) => CopyPhase::MakeParent(path@),
            CopyPhase::CopyFile => CopyPhase::CopyFile,
            CopyPhase::Copied => CopyPhase::Copied,
            CopyPhase::Refused(path) => CopyPhase::Refused(path@),
            CopyPhase::Failed(text) => CopyPhase::Failed(text@),
        }
    }
}

/// Copies a file, or a directory and all it holds, but no symbolic link.
///
/// Directories are walked depth first, in the order of their listings.
#[derive(Debug)]
pub struct CopyTree {
    /// What is still to be copied; the last is the one at hand.
    pub tasks: Vec<CopyTask>,
    /// Why the copy is to fail when that is done: a listing broke off.
    pub fault: Option<String>,
    pub phase: CopyPhase<UnixPath, String>,
}

/// The state of a copy.
pub struct CopyView {
    pub tasks: Seq<TaskView>,
    pub fault: Option<Seq<char>>,
    pub phase: CopyPhase<Seq<u8>, Seq<char>>,
}

impl View for CopyTree {
    type V = CopyView;

    open spec fn view(&self) -> CopyView {
        CopyView {
            tasks: task_views(self.tasks@),
            fault: crate::text::text_view(self.fault),
            phase: self.phase@,
        }
    }
}

/// Whether a copy has come to an end.
pub open spec fn copy_ended(copy: CopyView) -> bool {
    copy.phase is Copied || copy.phase is Refused || copy.phase is Failed
}

/// A copy that has not ended has a task at hand.
pub open spec fn copy_wf(copy: CopyView) -> bool {
    copy_ended(copy) || copy.tasks.len() > 0
}

/// A copy at its start.
pub open spec fn copy_start(from: Seq<u8>, to: Seq<u8>) -> CopyView {
    CopyView { tasks: seq![TaskView { from, to }], fault: None, phase: CopyPhase::Inspect }
}

/// What a copy asks for.
pub open spec fn copy_request(copy: CopyView) -> Option<crate::effect::Asked> {
    let task = copy.tasks.last();
    match copy.phase {
        _ if copy.tasks.len() == 0 => None,
        CopyPhase::Inspect => Some(Request::Inspect(task.from)),
        CopyPhase::MakeDir => Some(Request::CreateDirAll(task.to)),
        CopyPhase::List => Some(Request::ListDir(task.from)),
        CopyPhase::MakeParent(above) => Some(Request::CreateDirAll(above)),
        CopyPhase::CopyFile => Some(Request::Copy { from: task.from, to: task.to }),
        _ => None,
    }
}

/// A copy that goes on with what is left of its tasks.
pub open spec fn copy_on(tasks: Seq<TaskView>, fault: Option<Seq<char>>) -> CopyView {
    CopyView {
        tasks,
        fault,
        phase: if tasks.len() > 0 {
            CopyPhase::Inspect
        } else {
            match fault {
                Some(text) => CopyPhase::Failed(text),
                None => CopyPhase::Copied,
            }
        },
    }
}

/// The tasks that the entries of a directory make, the first entry last.
pub open spec fn child_tasks(task: TaskView, names: Seq<Seq<u8>>) -> Seq<TaskView> {
    names.reverse().map_values(
        |name: Seq<u8>|
            TaskView {
                from: crate::path::join(task.from, name),
                to: crate::path::join(task.to, name),
            },
    )
}

/// What a copy does with the answer to what it asked for. Any other answer leaves it as
/// it is.
///
/// Where a listing breaks off, what it named is copied; then the copy fails.
pub open spec fn copy_step(copy: CopyView, reply: Reply) -> CopyView {
    let task = copy.tasks.last();
    match (copy.phase, reply) {
        (CopyPhase::Copied, _) => copy,
        (CopyPhase::Refused(_), _) => copy,
        (CopyPhase::Failed(_), _) => copy,
        _ if copy.tasks.len() == 0 => copy,
        (_, Reply::Failed(text)) => CopyView { phase: CopyPhase::Failed(text@), ..copy },
        (CopyPhase::Inspect, Reply::Kind(FileKind::Symlink)) => CopyView {
            phase: CopyPhase::Refused(task.from),
            ..copy
        },
        (CopyPhase::Inspect, Reply::Kind(FileKind::Directory)) => CopyView {
            phase: CopyPhase::MakeDir,
            ..copy
        },
        (CopyPhase::Inspect, Reply::Kind(FileKind::Other)) => CopyView {
            phase: match crate::path::parent(task.to) {
                Some(above) => CopyPhase::MakeParent(above),
                None => CopyPhase::CopyFile,
            },
            ..copy
        },
        (CopyPhase::MakeDir, Reply::Done) => CopyView { phase: CopyPhase::List, ..copy },
        (CopyPhase::List, Reply::Names(names)) => copy_on(
            copy.tasks.drop_last() + child_tasks(task, crate::effect::name_views(names@)),
            copy.fault,
        ),
        (CopyPhase::List, Reply::NamesUntil { names, text }) => copy_on(
            child_tasks(task, crate::effect::name_views(names@)),
            Some(text@),
        ),
        (CopyPhase::MakeParent(_), Reply::Done) => CopyView {
            phase: CopyPhase::CopyFile,
            ..copy
        },
        (CopyPhase::CopyFile, Reply::Done) => copy_on(copy.tasks.drop_last(), copy.fault),
        _ => copy,
    }
}

impl CopyTree {
    /// A copy of `from` to `to`.
    pub fn new(from: UnixPath, to: UnixPath) -> (copy: CopyTree)
        ensures
            copy@ == copy_start(from@, to@),
            copy_wf(copy@),
    {
        let mut tasks: Vec<CopyTask> = Vec::new();
        tasks.push(CopyTask { from, to });
        let copy = CopyTree { tasks, fault: None, phase: CopyPhase::Inspect };
        assert(copy@.tasks =~= copy_start(from@, to@).tasks);
        copy
    }

    /// What is to be done next; nothing where the copy has ended.
    pub fn request(&self) -> (request: Option<Request<&UnixPath, &Vec<u8>, &String>>)
        ensures
            crate::effect::asks(request, copy_request(self@)),
    {
        if self.tasks.len() == 0 {
            return None;
        }
        assert(self.tasks@.last()@ == self@.tasks.last());
        let task = &self.tasks[self.tasks.len() - 1];
        match &self.phase {
            CopyPhase::Inspect => Some(Request::Inspect(&task.from)),
            CopyPhase::MakeDir => Some(Request::CreateDirAll(&task.to)),
            CopyPhase::List => Some(Request::ListDir(&task.from)),
            CopyPhase::MakeParent(above) => Some(Request::CreateDirAll(above)),
            CopyPhase::CopyFile => Some(Request::Copy { from: &task.from, to: &task.to }),
            CopyPhase::Copied | CopyPhase::Refused(_) | CopyPhase::Failed(_) => None,
        }
    }

    /// Takes the answer to what was asked for.
    pub fn step(&mut self, reply: Reply)
        ensures
            final(self)@ == copy_step(old(self)@, reply),
            copy_wf(old(self)@) ==> copy_wf(final(self)@),
    {
        match &self.phase {
            CopyPhase::Copied | CopyPhase::Refused(_) | CopyPhase::Failed(_) => return ,
            _ => {},
        }
        if self.tasks.len() == 0 {
            return ;
        }
        let ghost tasks = self.tasks@;
        assert(tasks.last()@ == self@.tasks.last());
        assert(task_views(tasks.drop_last()) =~= self@.tasks.drop_last());
        if let Reply::Failed(text) = reply {
            self.phase = CopyPhase::Failed(text);
            return ;
        }
        let last: usize = self.tasks.len() - 1;
        match (&self.phase, reply) {
            (CopyPhase::Inspect, Reply::Kind(FileKind::Symlink)) => {
                self.phase = CopyPhase::Refused(self.tasks[last].from.copied());
            },
            (CopyPhase::Inspect, Reply::Kind(FileKind::Directory)) => {
                self.phase = CopyPhase::MakeDir;
            },
            (CopyPhase::Inspect, Reply::Kind(FileKind::Other)) => {
                self.phase = match self.tasks[last].to.parent() {
                    Some(above) => CopyPhase::MakeParent(above),
                    None => CopyPhase::CopyFile,
                };
            },
            (CopyPhase::MakeDir, Reply::Done) => {
                self.phase = CopyPhase::List;
            },
            (CopyPhase::List, Reply::Names(names)) => {
                if let Some(task) = self.tasks.pop() {
                    Self::push_children(&mut self.tasks, &task, &names);
                }
                self.go_on();
            },
            (CopyPhase::List, Reply::NamesUntil { names, text }) => {
                if let Some(task) = self.tasks.pop() {
                    let mut tasks: Vec<CopyTask> = Vec::new();
                    assert(task_views(tasks@) =~= Seq::empty());
                    Self::push_children(&mut tasks, &task, &names);
                    assert(Seq::empty() + child_tasks(
                        task@,
                        crate::effect::name_views(names@),
                    ) =~= child_tasks(task@, crate::effect::name_views(names@)));
                    self.tasks = tasks;
                }
                self.fault = Some(text);
                self.go_on();
            },
            (CopyPhase::MakeParent(_), Reply::Done) => {
                self.phase = CopyPhase::CopyFile;
            },
            (CopyPhase::CopyFile, Reply::Done) => {
                let _ = self.tasks.pop();
                self.go_on();
            },
            _ => {},
        }
    }

    /// Goes on with the task that is last now.
    fn go_on(&mut self)
        ensures
            final(self)@ == copy_on(old(self)@.tasks, old(self)@.fault),
            copy_wf(final(self)@),
    {
        if self.tasks.len() > 0 {
            self.phase = CopyPhase::Inspect;
        } else {
            self.phase = match &self.fault {
                Some(text) => CopyPhase::Failed(text.clone()),
                None => CopyPhase::Copied,
            };
        }
    }

    /// Adds a task for each entry of a directory, the first entry last.
    fn push_children(tasks: &mut Vec<CopyTask>, task: &CopyTask, names: &Vec<Vec<u8>>)
        ensures
            task_views(final(tasks)@) == task_views(old(tasks)@) + child_tasks(
                task@,
                crate::effect::name_views(names@),
            ),
    {
        let ghost kept = task_views(tasks@);
        let ghost views = crate::effect::name_views(names@);
        let ghost children = child_tasks(task@, views);
        let mut left: usize = names.len();
        assert(kept + children.take(0) =~= kept);
        while left > 0
            invariant
                left <= names@.len(),
                views == crate::effect::name_views(names@),
                children == child_tasks(task@, views),
                task_views(tasks@) == kept + children.take(names@.len() - left),
            decreases left,
        {
            left = left - 1;
            let ghost done = names@.len() - left - 1;
            let from = task.from.join(names[left].as_slice());
            let to = task.to.join(names[left].as_slice());
            let ghost so_far = task_views(tasks@);
            tasks.push(CopyTask { from, to });
            proof {
                assert(views.reverse()[done] == views[left as int]);
                assert(children[done] == TaskView { from: from@, to: to@ });
                assert(task_views(tasks@) =~= so_far.push(children[done]));
                assert(children.take(done + 1) =~= children.take(done).push(children[done]));
                assert(task_views(tasks@) =~= kept + children.take(done + 1));
            }
        }
        assert(children.take(names@.len() as int) =~= children);
    }
}

/// How far the replacement of a directory's contents has come, or how it ended.
#[derive(Debug)]
pub enum ReplacePhase<P, T, C> {
    /// Find out what the new contents are.
    ListSource,
    /// The new contents are one thing: find out whether it is a directory.
    CheckSole(P),
    /// Create the directory.
    CreateTarget,
    /// Find out what is to be removed from it.
    ListTarget,
    /// Find out how something is to be removed.
    Probe(P),
    /// Remove it.
    Remove { path: P, is_dir: bool },
    /// Find out what is to be moved there.
    ListMoves,
    /// Move something.
    Move { from: P, to: P },
    /// It could not be moved: copy it.
    Copy(C),
    /// All is done.
    Replaced,
    /// There is a symbolic link among what is to be copied.
    Refused(P),
    /// Something could not be done.
    Failed(T),
}

impl View for ReplacePhase<UnixPath, String, CopyTree> {
    type V = ReplacePhase<Seq<u8>, Seq<char>, CopyView>;

    open spec fn view(&self) -> ReplacePhase<Seq<u8>, Seq<char>, CopyView> {
        match self {
            ReplacePhase::ListSource => ReplacePhase::ListSource,
            ReplacePhase::CheckSole(path) => ReplacePhase::CheckSole(path@),
            ReplacePhase::CreateTarget => ReplacePhase::CreateTarget,
            ReplacePhase::ListTarget => ReplacePhase::ListTarget,
            ReplacePhase::Probe(path) => ReplacePhase::Probe(path@),
            ReplacePhase::Remove { path, is_dir } => ReplacePhase::Remove {
                path: path@,
                is_dir: *is_dir,
            },
            ReplacePhase::ListMoves => ReplacePhase::ListMoves,
            ReplacePhase::Move { from, to } => ReplacePhase::Move { from: from@, to: to@ },
            ReplacePhase::Copy(copy) => ReplacePhase::Copy(copy@),
            ReplacePhase::Replaced => ReplacePhase::Replaced,
            ReplacePhase::Refused(path) => ReplacePhase::Refused(path@),
            ReplacePhase::Failed(text) => ReplacePhase::Failed(text@),
        }
    }
}

/// Replaces what the directory `target` holds by what `source` holds, or, where that is
/// a single directory, by what that one holds.
#[derive(Debug)]
pub struct ReplaceDir {
    pub source: UnixPath,
    pub target: UnixPath,
    /// The names still to be removed or moved after the one at hand, the next one last.
    pub left: Vec<Vec<u8>>,
    /// Why the replacement is to fail when that is done: the listing broke off.
    pub fault: Option<String>,
    pub phase: ReplacePhase<UnixPath, String, CopyTree>,
}

/// The state of a replacement.
pub struct ReplaceView {
    pub source: Seq<u8>,
    pub target: Seq<u8>,
    pub left: Seq<Seq<u8>>,
    pub fault: Option<Seq<char>>,
    pub phase: ReplacePhase<Seq<u8>, Seq<char>, CopyView>,
}

impl View for ReplaceDir {
    type V = ReplaceView;

    open spec fn view(&self) -> ReplaceView {
        ReplaceView {
            source: self.source@,
            target: self.target@,
            left: crate::effect::name_views(self.left@),
            fault: crate::text::text_view(self.fault),
            phase: self.phase@,
        }
    }
}

/// A copy that is under way has a task at hand.
pub open spec fn replace_wf(state: ReplaceView) -> bool {
    match state.phase {
        ReplacePhase::Copy(copy) => !copy_ended(copy) && copy_wf(copy),
        _ => true,
    }
}

/// A replacement at its start.
pub open spec fn replace_start(source: Seq<u8>, target: Seq<u8>) -> ReplaceView {
    ReplaceView {
        source,
        target,
        left: Seq::empty(),
        fault: None,
        phase: ReplacePhase::ListSource,
    }
}

/// What a replacement asks for.
pub open spec fn replace_request(state: ReplaceView) -> Option<crate::effect::Asked> {
    match state.phase {
        ReplacePhase::ListSource => Some(Request::ListDir(state.source)),
        ReplacePhase::CheckSole(path) => Some(Request::EntryIsDir(path)),
        ReplacePhase::CreateTarget => Some(Request::CreateDirAll(state.target)),
        ReplacePhase::ListTarget => Some(Request::ListDir(state.target)),
        ReplacePhase::Probe(path) => Some(Request::IsDir(path)),
        ReplacePhase::Remove { path, is_dir } => if is_dir {
            Some(Request::RemoveDirAll(path))
        } else {
            Some(Request::RemoveFile(path))
        },
        ReplacePhase::ListMoves => Some(Request::ListDir(state.source)),
        ReplacePhase::Move { from, to } => Some(Request::Rename { from, to }),
        ReplacePhase::Copy(copy) => copy_request(copy),
        _ => None,
    }
}

/// Where the new contents are, when `names` is what `source` holds: in the single thing
/// there, if that turns out to be a directory.
pub open spec fn collapsed(source: Seq<u8>, names: Seq<Seq<u8>>, sole_is_dir: bool) -> Seq<u8> {
    if names.len() == 1 && sole_is_dir {
        crate::path::join(source, names[0])
    } else {
        source
    }
}

/// A replacement that goes on removing, with `left` still to be removed.
pub open spec fn remove_on(state: ReplaceView, left: Seq<Seq<u8>>) -> ReplaceView {
    if left.len() == 0 {
        ReplaceView {
            left,
            phase: match state.fault {
                Some(text) => ReplacePhase::Failed(text),
                None => ReplacePhase::ListMoves,
            },
            ..state
        }
    } else {
        ReplaceView {
            left: left.drop_last(),
            phase: ReplacePhase::Probe(crate::path::join(state.target, left.last())),
            ..state
        }
    }
}

/// A replacement that goes on moving, with `left` still to be moved.
pub open spec fn move_on(state: ReplaceView, left: Seq<Seq<u8>>) -> ReplaceView {
    if left.len() == 0 {
        ReplaceView {
            left,
            phase: match state.fault {
                Some(text) => ReplacePhase::Failed(text),
                None => ReplacePhase::Replaced,
            },
            ..state
        }
    } else {
        ReplaceView {
            left: left.drop_last(),
            phase: ReplacePhase::Move {
                from: crate::path::join(state.source, left.last()),
                to: crate::path::join(state.target, left.last()),
            },
            ..state
        }
    }
}

/// What a replacement does with the answer to what it asked for. Any other answer leaves
/// it as it is.
///
/// Where a listing of the target, or of what is to be moved there, breaks off, what it named
/// is removed or moved; then the replacement fails.
pub open spec fn replace_step(state: ReplaceView, reply: Reply) -> ReplaceView {
    match (state.phase, reply) {
        (ReplacePhase::Replaced, _) => state,
        (ReplacePhase::Refused(_), _) => state,
        (ReplacePhase::Failed(_), _) => state,
        (ReplacePhase::Copy(copy), _) => {
            let next = copy_step(copy, reply);
            match next.phase {
                CopyPhase::Copied => move_on(state, state.left),
                CopyPhase::Refused(path) => ReplaceView {
                    phase: ReplacePhase::Refused(path),
                    ..state
                },
                CopyPhase::Failed(text) => ReplaceView {
                    phase: ReplacePhase::Failed(text),
                    ..state
                },
                _ => ReplaceView { phase: ReplacePhase::Copy(next), ..state },
            }
        },
        (ReplacePhase::Move { from, to }, Reply::Failed(_)) => ReplaceView {
            phase: ReplacePhase::Copy(copy_start(from, to)),
            ..state
        },
        (_, Reply::Failed(text)) => ReplaceView { phase: ReplacePhase::Failed(text@), ..state },
        (ReplacePhase::ListSource, Reply::Names(names)) => ReplaceView {
            phase: if names@.len() == 1 {
                ReplacePhase::CheckSole(crate::path::join(state.source, names@[0]@))
            } else {
                ReplacePhase::CreateTarget
            },
            ..state
        },
        (ReplacePhase::ListSource, Reply::NamesUntil { text, .. }) => ReplaceView {
            phase: ReplacePhase::Failed(text@),
            ..state
        },
        (ReplacePhase::CheckSole(path), Reply::Flag(is_dir)) => ReplaceView {
            source: if is_dir {
                path
            } else {
                state.source
            },
            phase: ReplacePhase::CreateTarget,
            ..state
        },
        (ReplacePhase::CreateTarget, Reply::Done) => ReplaceView {
            phase: ReplacePhase::ListTarget,
            ..state
        },
        (ReplacePhase::ListTarget, Reply::Names(names)) => remove_on(
            ReplaceView { fault: None, ..state },
            crate::effect::name_views(names@).reverse(),
        ),
        (ReplacePhase::ListTarget, Reply::NamesUntil { names, text }) => remove_on(
            ReplaceView { fault: Some(text@), ..state },
            crate::effect::name_views(names@).reverse(),
        ),
        (ReplacePhase::Probe(path), Reply::Flag(is_dir)) => ReplaceView {
            phase: ReplacePhase::Remove { path, is_dir },
            ..state
        },
        (ReplacePhase::Remove { .. }, Reply::Done) => remove_on(state, state.left),
        (ReplacePhase::ListMoves, Reply::Names(names)) => move_on(
            ReplaceView { fault: None, ..state },
            crate::effect::name_views(names@).reverse(),
        ),
        (ReplacePhase::ListMoves, Reply::NamesUntil { names, text }) => move_on(
            ReplaceView { fault: Some(text@), ..state },
            crate::effect::name_views(names@).reverse(),
        ),
        (ReplacePhase::Move { .. }, Reply::Done) => move_on(state, state.left),
        _ => state,
    }
}

impl ReplaceDir {
    /// The replacement of what `target` holds by what `source` holds.
    pub fn new(source: UnixPath, target: UnixPath) -> (state: ReplaceDir)
        ensures
            state@ == replace_start(source@, target@),
            replace_wf(state@),
    {
        let left: Vec<Vec<u8>> = Vec::new();
        let state = ReplaceDir {
            source,
            target,
            left,
            fault: None,
            phase: ReplacePhase::ListSource,
        };
        assert(state@.left =~= Seq::empty());
        state
    }

    /// What is to be done next; nothing where the replacement has ended.
    pub fn request(&self) -> (request: Option<Request<&UnixPath, &Vec<u8>, &String>>)
        ensures
            crate::effect::asks(request, replace_request(self@)),
    {
        match &self.phase {
            ReplacePhase::ListSource => Some(Request::ListDir(&self.source)),
            ReplacePhase::CheckSole(path) => Some(Request::EntryIsDir(path)),
            ReplacePhase::CreateTarget => Some(Request::CreateDirAll(&self.target)),
            ReplacePhase::ListTarget => Some(Request::ListDir(&self.target)),
            ReplacePhase::Probe(path) => Some(Request::IsDir(path)),
            ReplacePhase::Remove { path, is_dir } => if *is_dir {
                Some(Request::RemoveDirAll(path))
            } else {
                Some(Request::RemoveFile(path))
            },
            ReplacePhase::ListMoves => Some(Request::ListDir(&self.source)),
            ReplacePhase::Move { from, to } => Some(Request::Rename { from, to }),
            ReplacePhase::Copy(copy) => copy.request(),
            ReplacePhase::Replaced | ReplacePhase::Refused(_) | ReplacePhase::Failed(_) => None,
        }
    }

    /// Takes the answer to what was asked for.
    pub fn step(self, reply: Reply) -> (next: ReplaceDir)
        ensures
            next@ == replace_step(self@, reply),
            replace_wf(self@) ==> replace_wf(next@),
    {
        let ReplaceDir { source, target, left, fault, phase } = self;
        match phase {
            ReplacePhase::Replaced | ReplacePhase::Refused(_) | ReplacePhase::Failed(_) => {
                ReplaceDir { source, target, left, fault, phase }
            },
            ReplacePhase::Copy(copy) => {
                let mut copy = copy;
                copy.step(reply);
                let CopyTree { tasks, fault: copy_fault, phase } = copy;
                match phase {
                    CopyPhase::Copied => Self::move_next(source, target, left, fault),
                    CopyPhase::Refused(path) => ReplaceDir {
                        source,
                        target,
                        left,
                        fault,
                        phase: ReplacePhase::Refused(path),
                    },
                    CopyPhase::Failed(text) => ReplaceDir {
                        source,
                        target,
                        left,
                        fault,
                        phase: ReplacePhase::Failed(text),
                    },
                    _ => ReplaceDir {
                        source,
                        target,
                        left,
                        fault,
                        phase: ReplacePhase::Copy(CopyTree { tasks, fault: copy_fault, phase }),
                    },
                }
            },
            _ => Self::plain_step(source, target, left, fault, phase, reply),
        }
    }

    /// [`ReplaceDir::step`] where no copy is under way.
    fn plain_step(
        source: UnixPath,
        target: UnixPath,
        left: Vec<Vec<u8>>,
        fault: Option<String>,
        phase: ReplacePhase<UnixPath, String, CopyTree>,
        reply: Reply,
    ) -> (next: ReplaceDir)
        requires
            !(phase is Copy || phase is Replaced || phase is Refused || phase is Failed),
        ensures
            next@ == replace_step((ReplaceDir { source, target, left, fault, phase })@, reply),
            replace_wf(next@),
    {
        match (phase, reply) {
            (ReplacePhase::Move { from, to }, Reply::Failed(_)) => ReplaceDir {
                source,
                target,
                left,
                fault,
                phase: ReplacePhase::Copy(CopyTree::new(from, to)),
            },
            (_, Reply::Failed(text)) => ReplaceDir {
                source,
                target,
                left,
                fault,
                phase: ReplacePhase::Failed(text),
            },
            (ReplacePhase::ListSource, Reply::Names(names)) => {
                let phase = if names.len() == 1 {
                    ReplacePhase::CheckSole(source.join(names[0].as_slice()))
                } else {
                    ReplacePhase::CreateTarget
                };
                ReplaceDir { source, target, left, fault, phase }
            },
            (ReplacePhase::ListSource, Reply::NamesUntil { text, .. }) => ReplaceDir {
                source,
                target,
                left,
                fault,
                phase: ReplacePhase::Failed(text),
            },
            (ReplacePhase::CheckSole(path), Reply::Flag(is_dir)) => ReplaceDir {
                source: if is_dir {
                    path
                } else {
                    source
                },
                target,
                left,
                fault,
                phase: ReplacePhase::CreateTarget,
            },
            (ReplacePhase::CreateTarget, Reply::Done) => ReplaceDir {
                source,
                target,
                left,
                fault,
                phase: ReplacePhase::ListTarget,
            },
            (ReplacePhase::ListTarget, Reply::Names(names)) => Self::remove_next(
                source,
                target,
                reversed_names(names),
                None,
            ),
            (ReplacePhase::ListTarget, Reply::NamesUntil { names, text }) => Self::remove_next(
                source,
                target,
                reversed_names(names),
                Some(text),
            ),
            (ReplacePhase::Probe(path), Reply::Flag(is_dir)) => ReplaceDir {
                source,
                target,
                left,
                fault,
                phase: ReplacePhase::Remove { path, is_dir },
            },
            (ReplacePhase::Remove { .. }, Reply::Done) => Self::remove_next(
                source,
                target,
                left,
                fault,
            ),
            (ReplacePhase::ListMoves, Reply::Names(names)) => Self::move_next(
                source,
                target,
                reversed_names(names),
                None,
            ),
            (ReplacePhase::ListMoves, Reply::NamesUntil { names, text }) => Self::move_next(
                source,
                target,
                reversed_names(names),
                Some(text),
            ),
            (ReplacePhase::Move { .. }, Reply::Done) => Self::move_next(
                source,
                target,
                left,
                fault,
            ),
            (phase, _) => ReplaceDir { source, target, left, fault, phase },
        }
    }

    /// Goes on to remove the last of `left`.
    fn remove_next(
        source: UnixPath,
        target: UnixPath,
        left: Vec<Vec<u8>>,
        fault: Option<String>,
    ) -> (next: ReplaceDir)
        ensures
            forall|state: ReplaceView|
                state.source == source@ && state.target == target@ && state.fault
                    == crate::text::text_view(fault) ==> next@ == #[trigger] remove_on(
                    state,
                    crate::effect::name_views(left@),
                ),
            replace_wf(next@),
    {
        let ghost all = left@;
        let mut left = left;
        match left.pop() {
            None => {
                let phase = match &fault {
                    Some(text) => ReplacePhase::Failed(text.clone()),
                    None => ReplacePhase::ListMoves,
                };
                ReplaceDir { source, target, left, fault, phase }
            },
            Some(name) => {
                proof {
                    assert(name@ == crate::effect::name_views(all).last());
                    assert(crate::effect::name_views(all.drop_last())
                        =~= crate::effect::name_views(all).drop_last());
                }
                let path = target.join(name.as_slice());
                ReplaceDir { source, target, left, fault, phase: ReplacePhase::Probe(path) }
            },
        }
    }

    /// Goes on to move the last of `left`.
    fn move_next(
        source: UnixPath,
        target: UnixPath,
        left: Vec<Vec<u8>>,
        fault: Option<String>,
    ) -> (next: ReplaceDir)
        ensures
            forall|state: ReplaceView|
                state.source == source@ && state.target == target@ && state.fault
                    == crate::text::text_view(fault) ==> next@ == #[trigger] move_on(
                    state,
                    crate::effect::name_views(left@),
                ),
            replace_wf(next@),
    {
        let ghost all = left@;
        let mut left = left;
        match left.pop() {
            None => {
                let phase = match &fault {
                    Some(text) => ReplacePhase::Failed(text.clone()),
                    None => ReplacePhase::Replaced,
                };
                ReplaceDir { source, target, left, fault, phase }
            },
            Some(name) => {
                proof {
                    assert(name@ == crate::effect::name_views(all).last());
                    assert(crate::effect::name_views(all.drop_last())
                        =~= crate::effect::name_views(all).drop_last());
                }
                let from = source.join(name.as_slice());
                let to = target.join(name.as_slice());
                ReplaceDir { source, target, left, fault, phase: ReplacePhase::Move { from, to } }
            },
        }
    }
}

/// Whether a listing holds ordinary names only, as one of a directory does.
pub open spec fn all_plain(names: Seq<Seq<u8>>) -> bool {
    forall|i: int| 0 <= i < names.len() ==> crate::path::is_plain_name(#[trigger] names[i])
}

/// Whether an answer is no listing, or one of ordinary names.
pub open spec fn reply_is_plain(reply: Reply) -> bool {
    all_plain(crate::effect::listed(reply))
}

/// Whether a copy reads below `source` and writes below `target` only.
pub open spec fn copy_is_confined(copy: CopyView, source: Seq<u8>, target: Seq<u8>) -> bool {
    &&& forall|i: int|
        0 <= i < copy.tasks.len() ==> crate::path::is_below(
            source,
            (#[trigger] copy.tasks[i]).from,
        ) && crate::path::is_below(target, copy.tasks[i].to)
    &&& match copy.phase {
        CopyPhase::MakeParent(above) => crate::path::components(above)
            == crate::path::components(target) || crate::path::is_below(target, above),
        _ => true,
    }
}

/// Whether a replacement reads in `source` and changes things in `target` only.
pub open spec fn replace_is_confined(state: ReplaceView) -> bool {
    &&& all_plain(state.left)
    &&& match state.phase {
        ReplacePhase::Probe(path) => crate::path::is_below(state.target, path),
        ReplacePhase::Remove { path, .. } => crate::path::is_below(state.target, path),
        ReplacePhase::Move { from, to } => {
            &&& crate::path::is_below(state.source, from)
            &&& crate::path::is_below(state.target, to)
        },
        ReplacePhase::Copy(copy) => copy_is_confined(copy, state.source, state.target),
        _ => true,
    }
}

/// A path that is below stays so when an ordinary name is followed.
proof fn lemma_below_join(root: Seq<u8>, base: Seq<u8>, name: Seq<u8>)
    requires
        base == root || crate::path::is_below(root, base),
        crate::path::is_plain_name(name),
    ensures
        crate::path::is_below(root, crate::path::join(base, name)),
{
    crate::path::law_join_plain_name(base, name);
    let all = crate::path::components(crate::path::join(base, name));
    let first = crate::path::components(root);
    let own = crate::path::components(base);
    if base == root {
        assert(first =~= all.subrange(0, first.len() as int));
    } else {
        assert(own.subrange(0, first.len() as int) =~= all.subrange(0, first.len() as int));
    }
    assert forall|i: int| first.len() <= i < all.len() implies #[trigger] all[i] is Normal by {
        if i < own.len() {
            assert(all[i] == own[i]);
        }
    }
}

/// What holds a path that is below is the root, or below too.
proof fn lemma_below_parent(root: Seq<u8>, path: Seq<u8>)
    requires
        crate::path::is_below(root, path),
    ensures
        match crate::path::parent(path) {
            Some(above) => crate::path::components(above) == crate::path::components(root)
                || crate::path::is_below(root, above),
            None => true,
        },
{
    crate::path::law_parent_drops_last_component(path);
    if let Some(above) = crate::path::parent(path) {
        let all = crate::path::components(path);
        let first = crate::path::components(root);
        assert(all.subrange(0, first.len() as int) =~= all.drop_last().subrange(
            0,
            first.len() as int,
        ));
        if all.len() == first.len() + 1 {
            assert(all.drop_last() =~= first);
        } else {
            assert forall|i: int|
                first.len() <= i
                    < all.drop_last().len() implies #[trigger] crate::path::components(
                above,
            )[i] is Normal by {
                assert(crate::path::components(above)[i] == all[i]);
            }
        }
    }
}

/// A copy that is confined stays so.
pub proof fn law_copy_stays_confined(
    copy: CopyView,
    source: Seq<u8>,
    target: Seq<u8>,
    reply: Reply,
)
    requires
        copy_wf(copy),
        copy_is_confined(copy, source, target),
        reply_is_plain(reply),
    ensures
        copy_is_confined(copy_step(copy, reply), source, target),
{
    let next = copy_step(copy, reply);
    let task = copy.tasks.last();
    if !copy_ended(copy) {
        assert(copy.tasks[copy.tasks.len() - 1] == task);
        lemma_below_parent(target, task.to);
        if copy.phase is List && crate::effect::is_listing(reply) {
            let views = crate::effect::listed(reply);
            let kept = if reply is Names {
                copy.tasks.drop_last()
            } else {
                Seq::empty()
            };
            assert forall|i: int| 0 <= i < next.tasks.len() implies crate::path::is_below(
                source,
                (#[trigger] next.tasks[i]).from,
            ) && crate::path::is_below(target, next.tasks[i].to) by {
                if i < kept.len() {
                    assert(next.tasks[i] == copy.tasks[i]);
                } else {
                    let name = views[views.len() - 1 - (i - kept.len())];
                    assert(views.reverse()[i - kept.len()] == name);
                    lemma_below_join(source, task.from, name);
                    lemma_below_join(target, task.to, name);
                }
            }
        } else {
            assert forall|i: int| 0 <= i < next.tasks.len() implies crate::path::is_below(
                source,
                (#[trigger] next.tasks[i]).from,
            ) && crate::path::is_below(target, next.tasks[i].to) by {
                assert(next.tasks[i] == copy.tasks[i]);
            }
        }
    }
}

/// A replacement keeps its target, and stays confined: whatever the outside answers, as
/// long as listings hold ordinary names.
pub proof fn law_replace_stays_confined(state: ReplaceView, reply: Reply)
    requires
        replace_wf(state),
        replace_is_confined(state),
        reply_is_plain(reply),
    ensures
        replace_step(state, reply).target == state.target,
        replace_is_confined(replace_step(state, reply)),
        replace_is_confined(replace_start(state.source, state.target)),
{
    if state.left.len() > 0 {
        assert(crate::path::is_plain_name(state.left[state.left.len() - 1]));
        lemma_below_join(state.target, state.target, state.left.last());
        lemma_below_join(state.source, state.source, state.left.last());
    }
    if crate::effect::is_listing(reply) {
        let views = crate::effect::listed(reply);
        let back = views.reverse();
        assert forall|i: int| 0 <= i < back.len() implies crate::path::is_plain_name(
            #[trigger] back[i],
        ) by {
            assert(back[i] == views[views.len() - 1 - i]);
        }
        if back.len() > 0 {
            assert(crate::path::is_plain_name(back[back.len() - 1]));
            lemma_below_join(state.target, state.target, back.last());
            lemma_below_join(state.source, state.source, back.last());
        }
    }
    match state.phase {
        ReplacePhase::Copy(copy) => {
            law_copy_stays_confined(copy, state.source, state.target, reply);
        },
        ReplacePhase::Move { from, to } => {
            let copy = copy_start(from, to);
            assert(copy.tasks[0] == TaskView { from, to });
        },
        _ => {},
    }
}

/// What a confined replacement asks for changes nothing outside `target`, but that it
/// moves things out of `source`: it removes what is below `target`, moves and copies to
/// there, and creates `target` or directories below it.
pub proof fn law_replace_changes_only_target(state: ReplaceView)
    requires
        replace_wf(state),
        replace_is_confined(state),
    ensures
        match replace_request(state) {
            Some(Request::RemoveFile(path)) => crate::path::is_below(state.target, path),
            Some(Request::RemoveDirAll(path)) => crate::path::is_below(state.target, path),
            Some(Request::Rename { from, to }) => {
                &&& crate::path::is_below(state.source, from)
                &&& crate::path::is_below(state.target, to)
            },
            Some(Request::Copy { from, to }) => {
                &&& crate::path::is_below(state.source, from)
                &&& crate::path::is_below(state.target, to)
            },
            Some(Request::CreateDirAll(path)) => {
                ||| crate::path::components(path) == crate::path::components(state.target)
                ||| crate::path::is_below(state.target, path)
            },
            Some(Request::Write { .. }) => false,
            _ => true,
        },
{
    if let ReplacePhase::Copy(copy) = state.phase {
        assert(copy.tasks[copy.tasks.len() - 1] == copy.tasks.last());
    }
}

/// A source that holds a single directory is replaced by what that directory holds; any
/// other source stays.
pub proof fn law_single_root_is_collapsed(
    source: Seq<u8>,
    target: Seq<u8>,
    listing: Reply,
    sole: Reply,
)
    requires
        listing is Names,
        sole is Flag,
    ensures
        ({
            let names = crate::effect::name_views(listing->Names_0@);
            let listed = replace_step(replace_start(source, target), listing);
            let settled = if names.len() == 1 {
                replace_step(listed, sole)
            } else {
                listed
            };
            &&& settled.phase is CreateTarget
            &&& settled.source == collapsed(source, names, sole->Flag_0)
        }),
{
}

/// A replacement after the first `n` moves have succeeded.
pub open spec fn after_moves(state: ReplaceView, n: nat) -> ReplaceView
    decreases n,
{
    if n == 0 {
        state
    } else {
        replace_step(after_moves(state, (n - 1) as nat), Reply::Done)
    }
}

/// Once the new contents are listed, each entry is moved to the target under its name,
/// in the order of the listing; when all are moved the replacement is done, or fails, where
/// the listing broke off.
pub proof fn law_every_entry_is_moved(state: ReplaceView, listing: Reply, n: nat)
    requires
        state.phase is ListMoves,
        crate::effect::is_listing(listing),
        n <= crate::effect::listed(listing).len(),
    ensures
        ({
            let names = crate::effect::listed(listing);
            let reached = after_moves(replace_step(state, listing), n);
            if n < names.len() {
                replace_request(reached) == Some(
                    Request::<Seq<u8>, Seq<u8>, Seq<char>>::Rename {
                        from: crate::path::join(state.source, names[n as int]),
                        to: crate::path::join(state.target, names[n as int]),
                    },
                )
            } else {
                match crate::effect::listing_fault(listing) {
                    Some(text) => reached.phase matches ReplacePhase::Failed(shown) && shown
                        == text,
                    None => reached.phase is Replaced,
                }
            }
        }),
{
    lemma_moves_left(state, listing, n);
}

/// What is left to be moved after the first `n` moves.
proof fn lemma_moves_left(state: ReplaceView, listing: Reply, n: nat)
    requires
        state.phase is ListMoves,
        crate::effect::is_listing(listing),
        n <= crate::effect::listed(listing).len(),
    ensures
        ({
            let back = crate::effect::listed(listing).reverse();
            after_moves(replace_step(state, listing), n) == move_on(
                ReplaceView { fault: crate::effect::listing_fault(listing), ..state },
                back.take(back.len() - n),
            )
        }),
    decreases n,
{
    let back = crate::effect::listed(listing).reverse();
    if n == 0 {
        assert(back.take(back.len() as int) =~= back);
    } else {
        lemma_moves_left(state, listing, (n - 1) as nat);
        assert(back.take(back.len() - n + 1).drop_last() =~= back.take(back.len() - n));
    }
}

/// A replacement after the removal of as many entries as `kinds` tells the kinds of.
pub open spec fn after_removals(state: ReplaceView, kinds: Seq<bool>) -> ReplaceView
    decreases kinds.len(),
{
    if kinds.len() == 0 {
        state
    } else {
        replace_step(
            replace_step(after_removals(state, kinds.drop_last()), Reply::Flag(kinds.last())),
            Reply::Done,
        )
    }
}

/// Once the old contents are listed, each entry is removed, as the directory or the file
/// that it is found to be, in the order of the listing; when all are removed the new
/// contents are turned to, or the replacement fails, where the listing broke off.
pub proof fn law_every_old_entry_is_removed(
    state: ReplaceView,
    listing: Reply,
    kinds: Seq<bool>,
    is_dir: bool,
)
    requires
        state.phase is ListTarget,
        crate::effect::is_listing(listing),
        kinds.len() <= crate::effect::listed(listing).len(),
    ensures
        ({
            let names = crate::effect::listed(listing);
            let reached = after_removals(replace_step(state, listing), kinds);
            let path = crate::path::join(state.target, names[kinds.len() as int]);
            if kinds.len() < names.len() {
                &&& replace_request(reached) == Some(
                    Request::<Seq<u8>, Seq<u8>, Seq<char>>::IsDir(path),
                )
                &&& replace_request(replace_step(reached, Reply::Flag(is_dir))) == Some(
                    if is_dir {
                        Request::<Seq<u8>, Seq<u8>, Seq<char>>::RemoveDirAll(path)
                    } else {
                        Request::<Seq<u8>, Seq<u8>, Seq<char>>::RemoveFile(path)
                    },
                )
            } else {
                match crate::effect::listing_fault(listing) {
                    Some(text) => reached.phase matches ReplacePhase::Failed(shown) && shown
                        == text,
                    None => reached.phase is ListMoves,
                }
            }
        }),
{
    lemma_removals_left(state, listing, kinds);
}

/// What is left to be removed after some removals.
proof fn lemma_removals_left(state: ReplaceView, listing: Reply, kinds: Seq<bool>)
    requires
        state.phase is ListTarget,
        crate::effect::is_listing(listing),
        kinds.len() <= crate::effect::listed(listing).len(),
    ensures
        ({
            let back = crate::effect::listed(listing).reverse();
            after_removals(replace_step(state, listing), kinds) == remove_on(
                ReplaceView { fault: crate::effect::listing_fault(listing), ..state },
                back.take(back.len() - kinds.len()),
            )
        }),
    decreases kinds.len(),
{
    let back = crate::effect::listed(listing).reverse();
    if kinds.len() == 0 {
        assert(back.take(back.len() as int) =~= back);
    } else {
        lemma_removals_left(state, listing, kinds.drop_last());
        assert(back.take(back.len() - kinds.len() + 1).drop_last() =~= back.take(
            back.len() - kinds.len(),
        ));
    }
}

/// A symbolic link is not copied: once one is found the copy, and with it the replacement,
/// ends, and says where the link is.
pub proof fn law_links_are_not_copied(state: ReplaceView)
    requires
        state.phase is Copy,
        state.phase->Copy_0.phase is Inspect,
        state.phase->Copy_0.tasks.len() > 0,
    ensures
        ({
            let link = state.phase->Copy_0.tasks.last().from;
            let next = replace_step(state, Reply::Kind(FileKind::Symlink));
            &&& replace_request(state) == Some(
                Request::<Seq<u8>, Seq<u8>, Seq<char>>::Inspect(link),
            )
            &&& next.phase is Refused
            &&& next.phase->Refused_0 == link
            &&& replace_request(next) is None
        }),
{
}

/// A replacement looks at what its source holds first. A single thing there is looked at, and,
/// where it is a directory, becomes the source; then the target is created and looked at, and,
/// when that is emptied, what is to be moved.
pub proof fn law_replacement_goes_in_order(
    source: Seq<u8>,
    target: Seq<u8>,
    state: ReplaceView,
    names: Vec<Vec<u8>>,
    is_dir: bool,
)
    ensures
        replace_request(replace_start(source, target)) == Some(
            crate::effect::Asked::ListDir(source),
        ),
        replace_start(source, target).phase is ListSource,
        replace_start(source, target).source == source,
        replace_start(source, target).target == target,
        state.phase is ListSource && names@.len() != 1 ==> {
            let next = replace_step(state, Reply::Names(names));
            &&& next.source == state.source
            &&& next.phase is CreateTarget
        },
        state.phase is ListSource && names@.len() == 1 ==> {
            let sole = crate::path::join(state.source, names@[0]@);
            let listed = replace_step(state, Reply::Names(names));
            let next = replace_step(listed, Reply::Flag(is_dir));
            &&& replace_request(listed) == Some(crate::effect::Asked::EntryIsDir(sole))
            &&& is_dir ==> next.source == sole
            &&& !is_dir ==> next.source == state.source
            &&& next.phase is CreateTarget
        },
        state.phase is CreateTarget ==> {
            let next = replace_step(state, Reply::Done);
            &&& replace_request(state) == Some(crate::effect::Asked::CreateDirAll(state.target))
            &&& replace_request(next) == Some(crate::effect::Asked::ListDir(state.target))
            &&& next.phase is ListTarget
            &&& next.source == state.source
            &&& next.target == state.target
        },
        state.phase is ListMoves ==> replace_request(state) == Some(
            crate::effect::Asked::ListDir(state.source),
        ),
{
}

/// What a replacement is told that cannot be done ends it, in the same words, but for a move,
/// which is made up for by a copy. A source that cannot be listed to its end ends it too.
pub proof fn law_failed_replacement_says_why(
    state: ReplaceView,
    names: Vec<Vec<u8>>,
    text: String,
)
    requires
        replace_request(state) is Some,
        !(state.phase is Copy),
    ensures
        match state.phase {
            ReplacePhase::Move { from, to } => {
                let next = replace_step(state, Reply::Failed(text));
                &&& replace_request(next) == Some(crate::effect::Asked::Inspect(from))
                &&& next.phase matches ReplacePhase::Copy(copy) && copy.tasks.len() == 1
                    && copy.tasks[0].from == from && copy.tasks[0].to == to && copy.fault is None
                &&& next.left == state.left
                &&& next.fault == state.fault
                &&& next.source == state.source
                &&& next.target == state.target
            },
            _ => {
                &&& replace_step(state, Reply::Failed(text)).phase matches ReplacePhase::Failed(
                    told,
                ) && told == text@
                &&& replace_request(replace_step(state, Reply::Failed(text))) is None
            },
        },
        state.phase is ListSource ==> (replace_step(
            state,
            Reply::NamesUntil { names, text },
        ).phase matches ReplacePhase::Failed(told) && told == text@),
{
}

/// A copy that is done counts as the move that it makes up for. One that has failed, or come
/// upon a link, ends the replacement, with the same words, or the same link.
pub proof fn law_copy_makes_up_for_the_move(
    state: ReplaceView,
    copy: CopyView,
    reply: Reply,
    from: Seq<u8>,
    to: Seq<u8>,
)
    requires
        state.phase == ReplacePhase::<Seq<u8>, Seq<char>, CopyView>::Copy(copy),
    ensures
        replace_request(state) == copy_request(copy),
        ({
            let done = copy_step(copy, reply);
            let next = replace_step(state, reply);
            match done.phase {
                CopyPhase::Copied => next == replace_step(
                    ReplaceView { phase: ReplacePhase::Move { from, to }, ..state },
                    Reply::Done,
                ),
                CopyPhase::Refused(link) => next.phase matches ReplacePhase::Refused(told) && told
                    == link,
                CopyPhase::Failed(text) => next.phase matches ReplacePhase::Failed(told) && told
                    == text,
                _ => next == (ReplaceView { phase: ReplacePhase::Copy(done), ..state }),
            }
        }),
{
}

/// A directory is created at its new place and then listed; a file is copied to its new place,
/// once the directory that is to hold it is created, where the path tells one. When a file is
/// copied the task is done, and the one before it is at hand.
pub proof fn law_copy_deals_with_what_is_there(copy: CopyView)
    requires
        copy.tasks.len() > 0,
        copy.phase is Inspect,
    ensures
        ({
            let task = copy.tasks.last();
            let parts = crate::path::components(task.to);
            let dir = copy_step(copy, Reply::Kind(FileKind::Directory));
            let made = copy_step(dir, Reply::Done);
            let file = copy_step(copy, Reply::Kind(FileKind::Other));
            let has_parent = parts.len() > 0 && !(parts.last() is RootDir);
            let ready = if has_parent {
                copy_step(file, Reply::Done)
            } else {
                file
            };
            let done = copy_step(ready, Reply::Done);
            &&& copy_request(copy) == Some(crate::effect::Asked::Inspect(task.from))
            &&& copy_request(dir) == Some(crate::effect::Asked::CreateDirAll(task.to))
            &&& copy_request(made) == Some(crate::effect::Asked::ListDir(task.from))
            &&& made == (CopyView { phase: CopyPhase::List, ..copy })
            &&& has_parent ==> match copy_request(file) {
                Some(Request::CreateDirAll(above)) => crate::path::components(above)
                    == parts.drop_last(),
                _ => false,
            }
            &&& copy_request(ready) == Some(
                crate::effect::Asked::Copy { from: task.from, to: task.to },
            )
            &&& done.tasks == copy.tasks.drop_last()
            &&& done.fault == copy.fault
            &&& copy.tasks.len() > 1 ==> done.phase is Inspect
            &&& copy.tasks.len() == 1 && copy.fault is None ==> done.phase is Copied
            &&& copy.tasks.len() == 1 && copy.fault is Some ==> done.phase
                == CopyPhase::<Seq<u8>, Seq<char>>::Failed(copy.fault->0)
        }),
{
    crate::path::law_parent_drops_last_component(copy.tasks.last().to);
}

/// Each entry of a directory is to be copied from there to the same name at the new place, the
/// first one next, and after the last one what was to be copied already. Where the listing
/// breaks off the entries that it named are all that is still copied, and then the copy fails
/// with the words that it was told.
pub proof fn law_every_entry_of_a_directory_is_copied(
    copy: CopyView,
    listing: Reply,
    n: int,
)
    requires
        copy.tasks.len() > 0,
        copy.phase is List,
        crate::effect::is_listing(listing),
        0 <= n < crate::effect::listed(listing).len(),
    ensures
        ({
            let task = copy.tasks.last();
            let names = crate::effect::listed(listing);
            let next = copy_step(copy, listing);
            let kept = if listing is Names {
                copy.tasks.drop_last()
            } else {
                Seq::empty()
            };
            let own = next.tasks[next.tasks.len() - 1 - n];
            &&& next.phase is Inspect
            &&& next.tasks.len() == kept.len() + names.len()
            &&& next.tasks.take(kept.len() as int) == kept
            &&& own.from == crate::path::join(task.from, names[n])
            &&& own.to == crate::path::join(task.to, names[n])
            &&& listing is Names ==> next.fault == copy.fault
            &&& listing is NamesUntil ==> next.fault == crate::effect::listing_fault(listing)
        }),
{
    let task = copy.tasks.last();
    let names = crate::effect::listed(listing);
    let next = copy_step(copy, listing);
    let kept = if listing is Names {
        copy.tasks.drop_last()
    } else {
        Seq::empty()
    };
    let children = child_tasks(task, names);
    assert(next.tasks =~= kept + children);
    assert(next.tasks.take(kept.len() as int) =~= kept);
    assert(names.reverse()[names.len() - 1 - n] == names[n]);
    assert(next.tasks[next.tasks.len() - 1 - n] == children[names.len() - 1 - n]);
}

/// An empty directory leaves nothing more to be copied than there was.
pub proof fn law_empty_directory_is_done_with(copy: CopyView, names: Vec<Vec<u8>>)
    requires
        copy.tasks.len() > 0,
        copy.phase is List,
        names@.len() == 0,
    ensures
        ({
            let next = copy_step(copy, Reply::Names(names));
            &&& next.tasks == copy.tasks.drop_last()
            &&& next.fault == copy.fault
            &&& copy.tasks.len() > 1 ==> next.phase is Inspect
            &&& copy.tasks.len() == 1 && copy.fault is None ==> next.phase is Copied
            &&& copy.tasks.len() == 1 && copy.fault is Some ==> next.phase
                == CopyPhase::<Seq<u8>, Seq<char>>::Failed(copy.fault->0)
        }),
{
    let next = copy_step(copy, Reply::Names(names));
    assert(next.tasks =~= copy.tasks.drop_last());
}

/// A copy that is told that something could not be done has failed, with the same words, and one
/// that comes upon a link is refused for that link.
pub proof fn law_failed_copy_says_why(copy: CopyView, text: String)
    requires
        copy_request(copy) is Some,
    ensures
        copy_step(copy, Reply::Failed(text)).phase == CopyPhase::<Seq<u8>, Seq<char>>::Failed(
            text@,
        ),
        copy_request(copy_step(copy, Reply::Failed(text))) is None,
        copy.phase is Inspect ==> copy_step(copy, Reply::Kind(FileKind::Symlink)).phase
            == CopyPhase::<Seq<u8>, Seq<char>>::Refused(copy.tasks.last().from),
{
}

/// Whether an answer fits what a copy asks for.
pub open spec fn copy_fits(copy: CopyView, reply: Reply) -> bool {
    match copy_request(copy) {
        Some(Request::Inspect(_)) => reply is Kind || reply is Failed,
        Some(Request::ListDir(_)) => crate::effect::is_listing(reply) || reply is Failed,
        Some(_) => reply is Done || reply is Failed,
        None => false,
    }
}

/// Whether an answer fits what a replacement asks for.
pub open spec fn replace_fits(state: ReplaceView, reply: Reply) -> bool {
    match (state.phase, replace_request(state)) {
        (ReplacePhase::Copy(copy), _) => copy_fits(copy, reply),
        (_, Some(Request::ListDir(_))) => crate::effect::is_listing(reply) || reply is Failed,
        (_, Some(Request::EntryIsDir(_))) => reply is Flag || reply is Failed,
        (_, Some(Request::IsDir(_))) => reply is Flag || reply is Failed,
        (_, Some(_)) => reply is Done || reply is Failed,
        (_, None) => false,
    }
}

/// An answer to something else than what was asked for changes nothing.
pub proof fn law_other_answers_change_nothing(
    copy: CopyView,
    state: ReplaceView,
    reply: Reply,
)
    ensures
        !copy_fits(copy, reply) ==> copy_step(copy, reply) == copy,
        replace_wf(state) && !replace_fits(state, reply) ==> replace_step(state, reply) == state,
{
}

/// A copy starts with what it is to copy, and nothing else.
pub proof fn law_copy_starts_with_its_source(from: Seq<u8>, to: Seq<u8>)
    ensures
        copy_start(from, to).tasks == seq![TaskView { from, to }],
        copy_start(from, to).fault is None,
        copy_request(copy_start(from, to)) == Some(crate::effect::Asked::Inspect(from)),
{
}

/// Tasks stand for what is copied from where to where, each of them, in their order.
pub proof fn law_every_task_is_there(tasks: Seq<CopyTask>, i: int)
    requires
        0 <= i < tasks.len(),
    ensures
        task_views(tasks).len() == tasks.len(),
        task_views(tasks)[i].from == tasks[i].from.bytes@,
        task_views(tasks)[i].to == tasks[i].to.bytes@,
{
}

} // verus!
