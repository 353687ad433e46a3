//! Downloading the web interface.
use crate::effect::{reversed, Reply, Request};
use crate::path::UnixPath;
use crate::ui::archive::{
    extract_archive, ExtractError, ExtractFailure, ExtractFault, ExtractStep, Outcome,
};
use crate::ui::assets::{ExternalUiAssets, UiAssets};
use crate::ui::replace::{ReplaceDir, ReplacePhase, ReplaceView};
use vstd::prelude::*;

verus! {

/// Why a web interface is not downloaded. `T` is a text, `P` is a path, `X` says what is
/// wrong with an archive.
#[derive(Debug)]
pub enum UpdateError<T, P, X> {
    /// There is none to be downloaded.
    NotConfigured,
    /// The server did not answer with a web interface.
    Status { code: u16, text: T },
    /// The archive is at fault.
    Archive(X),
    /// There is a symbolic link in the new web interface.
    Symlink(P),
    /// Something could not be done.
    Failed(T),
}

impl View for UpdateError<String, UnixPath, ExtractError> {
    type V = UpdateError<Seq<char>, Seq<u8>, ExtractFault>;

    open spec fn view(&self) -> UpdateError<Seq<char>, Seq<u8>, ExtractFault> {
        match self {
            UpdateError::NotConfigured => UpdateError::NotConfigured,
            UpdateError::Status { code, text } => UpdateError::Status { code: *code, text: text@ },
            UpdateError::Archive(error) => UpdateError::Archive(error@),
            UpdateError::Symlink(path) => UpdateError::Symlink(path@),
            UpdateError::Failed(text) => UpdateError::Failed(text@),
        }
    }
}

/// What an error stands for.
pub type UpdateFault = UpdateError<Seq<char>, Seq<u8>, ExtractFault>;

/// What is said of a symbolic link in the new web interface.
pub open spec fn symlink_text(path: Seq<char>) -> Seq<char> {
    "refusing to copy symlink from UI archive: "@ + path
}

/// What an error says. Where the server's status, or the reader of the archive, is at fault
/// that is what these say, which is `cause`.
pub open spec fn update_fault_text(fault: UpdateFault, cause: Seq<char>) -> Seq<char> {
    match fault {
        UpdateError::NotConfigured => "external UI is not configured"@,
        UpdateError::Status { .. } => cause,
        UpdateError::Archive(fault) => crate::ui::archive::extract_fault_text(fault, cause),
        UpdateError::Symlink(path) => symlink_text(crate::text::lossy_text(path)),
        UpdateError::Failed(text) => text,
    }
}

/// Says that there is a symbolic link in the new web interface.
pub fn describe_symlink(path: &str) -> (text: String)
    ensures
        text@ == symlink_text(path@),
{
    "refusing to copy symlink from UI archive: ".to_owned().concat(path)
}

impl UpdateError<String, UnixPath, ExtractError> {
    /// What is wrong, in words; `cause` is what the HTTP client says of the status, or the
    /// reader of the archive of that, where one of these is what failed.
    pub fn to_string(&self, cause: &str) -> (text: String)
        ensures
            text@ == update_fault_text(self@, cause@),
    {
        match self {
            UpdateError::NotConfigured => "external UI is not configured".to_owned(),
            UpdateError::Status { .. } => cause.to_owned(),
            UpdateError::Archive(error) => error.to_string(cause),
            UpdateError::Symlink(path) => describe_symlink(path.to_text().as_str()),
            UpdateError::Failed(text) => text.clone(),
        }
    }
}

/// How far a download has come, or how it ended.
#[derive(Debug)]
pub enum UpdatePhase<D, P, S, L, X, R, E> {
    /// Ask for the archive.
    Get,
    /// Receive it.
    ReadBody,
    /// Create the directory that it is unpacked to.
    MakeTempDir { body: D },
    /// Do `step`, then what is in `left`, the next one last, then report `fault`, if any.
    Unpack { temp: P, step: S, left: L, fault: Option<X> },
    /// Replace the old web interface.
    Replace(R),
    /// All is done.
    Updated,
    /// It failed.
    Failed(E),
}

/// The fault that an error stands for, if there is one.
pub open spec fn fault_view(error: Option<ExtractError>) -> Option<ExtractFault> {
    match error {
        Some(some) => Some(some@),
        None => None,
    }
}

/// The state of a download.
pub type UpdateState = UpdatePhase<
    Seq<u8>,
    Seq<u8>,
    ExtractStep<Seq<u8>, Seq<u8>>,
    Seq<ExtractStep<Seq<u8>, Seq<u8>>>,
    ExtractFault,
    ReplaceView,
    UpdateFault,
>;

impl View for UpdatePhase<
    Vec<u8>,
    UnixPath,
    ExtractStep<UnixPath, Vec<u8>>,
    Vec<ExtractStep<UnixPath, Vec<u8>>>,
    ExtractError,
    ReplaceDir,
    UpdateError<String, UnixPath, ExtractError>,
> {
    type V = UpdateState;

    open spec fn view(&self) -> UpdateState {
        match self {
            UpdatePhase::Get => UpdatePhase::Get,
            UpdatePhase::ReadBody => UpdatePhase::ReadBody,
            UpdatePhase::MakeTempDir { body } => UpdatePhase::MakeTempDir { body: body@ },
            UpdatePhase::Unpack { temp, step, left, fault } => UpdatePhase::Unpack {
                temp: temp@,
                step: step@,
                left: crate::ui::archive::step_views(left@),
                fault: fault_view(*fault),
            },
            UpdatePhase::Replace(replace) => UpdatePhase::Replace(replace@),
            UpdatePhase::Updated => UpdatePhase::Updated,
            UpdatePhase::Failed(error) => UpdatePhase::Failed(error@),
        }
    }
}

/// The download of a web interface.
///
/// The archive is unpacked to a directory of its own; only when that has succeeded is the
/// old web interface replaced.
#[derive(Debug)]
pub struct Update {
    pub url: String,
    pub target: UnixPath,
    pub phase: UpdatePhase<
        Vec<u8>,
        UnixPath,
        ExtractStep<UnixPath, Vec<u8>>,
        Vec<ExtractStep<UnixPath, Vec<u8>>>,
        ExtractError,
        ReplaceDir,
        UpdateError<String, UnixPath, ExtractError>,
    >,
}

/// What is downloaded to where, and the state of it.
pub struct UpdateView {
    pub url: Seq<char>,
    pub target: Seq<u8>,
    pub phase: UpdateState,
}

impl View for Update {
    type V = UpdateView;

    open spec fn view(&self) -> UpdateView {
        UpdateView { url: self.url@, target: self.target@, phase: self.phase@ }
    }
}

/// A replacement that is part of a download is well-formed and has not ended.
pub open spec fn update_wf(state: UpdateView) -> bool {
    match state.phase {
        UpdatePhase::Replace(replace) => {
            &&& crate::ui::replace::replace_wf(replace)
            &&& crate::ui::replace::replace_request(replace) is Some
        },
        _ => true,
    }
}

/// A download at its start.
pub open spec fn update_start(url: Seq<char>, target: Seq<u8>) -> UpdateView {
    UpdateView { url, target, phase: UpdatePhase::Get }
}

/// What a step of unpacking asks for.
pub open spec fn step_request(step: ExtractStep<Seq<u8>, Seq<u8>>) -> crate::effect::Asked {
    match step {
        ExtractStep::CreateDir(path) => Request::CreateDirAll(path),
        ExtractStep::WriteFile { path, data } => Request::Write { path, data },
    }
}

/// What a download asks for.
pub open spec fn update_request(state: UpdateView) -> Option<crate::effect::Asked> {
    match state.phase {
        UpdatePhase::Get => Some(Request::Get { url: state.url, timeout_secs: None }),
        UpdatePhase::ReadBody => Some(Request::ReadBody),
        UpdatePhase::MakeTempDir { .. } => Some(Request::MakeTempDir),
        UpdatePhase::Unpack { step, .. } => Some(step_request(step)),
        UpdatePhase::Replace(replace) => crate::ui::replace::replace_request(replace),
        UpdatePhase::Updated => None,
        UpdatePhase::Failed(_) => None,
    }
}

/// Whether a status says that a request failed, through the client or the server.
pub open spec fn is_error_status(code: u16) -> bool {
    400 <= code < 600
}

/// A download that goes on unpacking to `temp`, with `left` still to be done.
pub open spec fn unpack_on(
    state: UpdateView,
    temp: Seq<u8>,
    left: Seq<ExtractStep<Seq<u8>, Seq<u8>>>,
    fault: Option<ExtractFault>,
) -> UpdateView {
    UpdateView {
        phase: if left.len() > 0 {
            UpdatePhase::Unpack { temp, step: left.last(), left: left.drop_last(), fault }
        } else {
            match fault {
                Some(fault) => UpdatePhase::Failed(UpdateError::Archive(fault)),
                None => UpdatePhase::Replace(
                    crate::ui::replace::replace_start(temp, state.target),
                ),
            }
        },
        ..state
    }
}

/// What a download does with the answer to what it asked for, if `part` is what is read of a
/// member of the archive that cannot be read to its end. Any other answer leaves it as it is.
pub open spec fn update_step(state: UpdateView, reply: Reply, part: Seq<u8>) -> UpdateView {
    match (state.phase, reply) {
        (UpdatePhase::Updated, _) => state,
        (UpdatePhase::Failed(_), _) => state,
        (UpdatePhase::Replace(replace), _) => {
            let next = crate::ui::replace::replace_step(replace, reply);
            UpdateView {
                phase: match next.phase {
                    ReplacePhase::Replaced => UpdatePhase::Updated,
                    ReplacePhase::Refused(path) => UpdatePhase::Failed(UpdateError::Symlink(path)),
                    ReplacePhase::Failed(text) => UpdatePhase::Failed(UpdateError::Failed(text)),
                    _ => UpdatePhase::Replace(next),
                },
                ..state
            }
        },
        (_, Reply::Failed(text)) => UpdateView {
            phase: UpdatePhase::Failed(UpdateError::Failed(text@)),
            ..state
        },
        (UpdatePhase::Get, Reply::Status { code, text }) => UpdateView {
            phase: if is_error_status(code) {
                UpdatePhase::Failed(UpdateError::Status { code, text: text@ })
            } else {
                UpdatePhase::ReadBody
            },
            ..state
        },
        (UpdatePhase::ReadBody, Reply::Bytes(body)) => UpdateView {
            phase: UpdatePhase::MakeTempDir { body: body@ },
            ..state
        },
        (UpdatePhase::MakeTempDir { body }, Reply::Path(temp)) => {
            let outcome = crate::ui::archive::archive_outcome(body, temp@, part);
            unpack_on(state, temp@, outcome.steps.reverse(), outcome.fault)
        },
        (UpdatePhase::Unpack { temp, left, fault, .. }, Reply::Done) => unpack_on(
            state,
            temp,
            left,
            fault,
        ),
        _ => state,
    }
}

/// A list of steps, the first one last.
fn reversed_steps(steps: Vec<ExtractStep<UnixPath, Vec<u8>>>) -> (res: Vec<
    ExtractStep<UnixPath, Vec<u8>>,
>)
    ensures
        crate::ui::archive::step_views(res@) == crate::ui::archive::step_views(steps@).reverse(),
{
    let res = reversed(steps);
    assert(crate::ui::archive::step_views(res@) =~= crate::ui::archive::step_views(
        steps@,
    ).reverse());
    res
}

impl Update {
    /// What is to be done next; nothing where the download has ended.
    pub fn request(&self) -> (request: Option<Request<&UnixPath, &Vec<u8>, &String>>)
        ensures
            crate::effect::asks(request, update_request(self@)),
    {
        match &self.phase {
            UpdatePhase::Get => Some(Request::Get { url: &self.url, timeout_secs: None }),
            UpdatePhase::ReadBody => Some(Request::ReadBody),
            UpdatePhase::MakeTempDir { .. } => Some(Request::MakeTempDir),
            UpdatePhase::Unpack { step, .. } => match step {
                ExtractStep::CreateDir(path) => Some(Request::CreateDirAll(path)),
                ExtractStep::WriteFile { path, data } => Some(Request::Write { path, data }),
            },
            UpdatePhase::Replace(replace) => replace.request(),
            UpdatePhase::Updated | UpdatePhase::Failed(_) => None,
        }
    }

    /// The download of `url` to `target` once it is known what the archive unpacks to, below
    /// `temp`.
    pub fn unpack(
        url: String,
        target: UnixPath,
        temp: UnixPath,
        extracted: Result<Vec<ExtractStep<UnixPath, Vec<u8>>>, ExtractFailure>,
    ) -> (next: Update)
        ensures
            forall|state: UpdateView, outcome: Outcome|
                state.url == url@ && state.target == target@ && crate::ui::archive::reports(
                    extracted,
                    outcome,
                ) ==> next@ == #[trigger] unpack_on(
                    state,
                    temp@,
                    outcome.steps.reverse(),
                    outcome.fault,
                ),
            update_wf(next@),
    {
        match extracted {
            Ok(steps) => Self::unpack_next(url, target, temp, reversed_steps(steps), None),
            Err(ExtractFailure { done, error }) => Self::unpack_next(
                url,
                target,
                temp,
                reversed_steps(done),
                Some(error),
            ),
        }
    }

    /// Goes on unpacking to `temp`, with the last of `left`.
    fn unpack_next(
        url: String,
        target: UnixPath,
        temp: UnixPath,
        left: Vec<ExtractStep<UnixPath, Vec<u8>>>,
        fault: Option<ExtractError>,
    ) -> (next: Update)
        ensures
            forall|state: UpdateView|
                state.url == url@ && state.target == target@ ==> next@ == #[trigger] unpack_on(
                    state,
                    temp@,
                    crate::ui::archive::step_views(left@),
                    fault_view(fault),
                ),
            update_wf(next@),
    {
        let ghost all = left@;
        let mut left = left;
        match left.pop() {
            Some(step) => {
                proof {
                    assert(step@ == crate::ui::archive::step_views(all).last());
                    assert(crate::ui::archive::step_views(all.drop_last())
                        =~= crate::ui::archive::step_views(all).drop_last());
                }
                Update { url, target, phase: UpdatePhase::Unpack { temp, step, left, fault } }
            },
            None => match fault {
                Some(error) => Update {
                    url,
                    target,
                    phase: UpdatePhase::Failed(UpdateError::Archive(error)),
                },
                None => {
                    let replace = ReplaceDir::new(temp, target.copied());
                    Update { url, target, phase: UpdatePhase::Replace(replace) }
                },
            },
        }
    }

    /// Takes the answer to what was asked for.
    pub fn step(self, reply: Reply) -> (next: Update)
        ensures
            exists|part: Seq<u8>| next@ == #[trigger] update_step(self@, reply, part),
            update_wf(self@) ==> update_wf(next@),
    {
        let ghost plain = update_step(self@, reply, Seq::empty());
        let Update { url, target, phase } = self;
        match (phase, reply) {
            (UpdatePhase::Updated, _) => Update { url, target, phase: UpdatePhase::Updated },
            (UpdatePhase::Failed(error), _) => Update {
                url,
                target,
                phase: UpdatePhase::Failed(error),
            },
            (UpdatePhase::Replace(replace), reply) => {
                let ReplaceDir { source, target: into, left, fault, phase } = replace.step(reply);
                let phase = match phase {
                    ReplacePhase::Replaced => UpdatePhase::Updated,
                    ReplacePhase::Refused(path) => UpdatePhase::Failed(UpdateError::Symlink(path)),
                    ReplacePhase::Failed(text) => UpdatePhase::Failed(UpdateError::Failed(text)),
                    phase => UpdatePhase::Replace(
                        ReplaceDir { source, target: into, left, fault, phase },
                    ),
                };
                Update { url, target, phase }
            },
            (_, Reply::Failed(text)) => Update {
                url,
                target,
                phase: UpdatePhase::Failed(UpdateError::Failed(text)),
            },
            (UpdatePhase::Get, Reply::Status { code, text }) => {
                let phase = if code >= 400 && code < 600 {
                    UpdatePhase::Failed(UpdateError::Status { code, text })
                } else {
                    UpdatePhase::ReadBody
                };
                Update { url, target, phase }
            },
            (UpdatePhase::ReadBody, Reply::Bytes(body)) => Update {
                url,
                target,
                phase: UpdatePhase::MakeTempDir { body },
            },
            (UpdatePhase::MakeTempDir { body }, Reply::Path(temp)) => {
                let extracted = extract_archive(body.as_slice(), &temp);
                let ghost part = choose|part: Seq<u8>|
                    crate::ui::archive::reports(
                        extracted,
                        #[trigger] crate::ui::archive::archive_outcome(body@, temp@, part),
                    );
                let next = Self::unpack(url, target, temp, extracted);
                assert(next@ == update_step(self@, reply, part));
                next
            },
            (UpdatePhase::Unpack { temp, left, fault, .. }, Reply::Done) => Self::unpack_next(
                url,
                target,
                temp,
                left,
                fault,
            ),
            (phase, _) => Update { url, target, phase },
        }
    }
}

impl ExternalUiAssets {
    /// The download of the web interface, to where it is kept.
    pub fn download_and_replace(&self) -> (update: Update)
        ensures
            update@ == update_start(self.url@, self.path@),
            update_wf(update@),
    {
        Update { url: self.url.clone(), target: self.path.copied(), phase: UpdatePhase::Get }
    }
}

/// Whether an answer to [`Request::HasEntry`] says that there is no web interface yet.
pub open spec fn says_missing(reply: Reply) -> bool {
    reply is Failed || reply == Reply::Flag(false)
}

/// Whether a directory is empty or missing, by the answer to [`Request::HasEntry`].
pub fn dir_is_empty_or_missing(reply: &Reply) -> (res: bool)
    ensures
        res == says_missing(*reply),
{
    match reply {
        Reply::Failed(_) => true,
        Reply::Flag(has_entry) => !*has_entry,
        _ => false,
    }
}

/// The download of a web interface that is not there yet.
#[derive(Debug)]
pub enum AutoDownload<P, U> {
    /// Nothing is to be downloaded.
    NotConfigured,
    /// Find out whether there is a web interface already.
    Check { path: P, update: U },
    /// There is one.
    AlreadyThere,
    /// There is none: download it. It ends as the download ends.
    Download(U),
}

impl View for AutoDownload<UnixPath, Update> {
    type V = AutoDownload<Seq<u8>, UpdateView>;

    open spec fn view(&self) -> AutoDownload<Seq<u8>, UpdateView> {
        match self {
            AutoDownload::NotConfigured => AutoDownload::NotConfigured,
            AutoDownload::Check { path, update } => AutoDownload::Check {
                path: path@,
                update: update@,
            },
            AutoDownload::AlreadyThere => AutoDownload::AlreadyThere,
            AutoDownload::Download(update) => AutoDownload::Download(update@),
        }
    }
}

/// The state of an automatic download.
pub type AutoState = AutoDownload<Seq<u8>, UpdateView>;

/// A download that is under way is well-formed.
pub open spec fn auto_wf(state: AutoState) -> bool {
    match state {
        AutoDownload::Check { update, .. } => update_wf(update),
        AutoDownload::Download(update) => update_wf(update),
        _ => true,
    }
}

/// An automatic download at its start.
pub open spec fn auto_start(assets: UiAssets) -> AutoState {
    match assets {
        UiAssets::BuiltIn => AutoDownload::NotConfigured,
        UiAssets::External(external) => AutoDownload::Check {
            path: external.path@,
            update: update_start(external.url@, external.path@),
        },
    }
}

/// What an automatic download asks for.
pub open spec fn auto_request(state: AutoState) -> Option<crate::effect::Asked> {
    match state {
        AutoDownload::Check { path, .. } => Some(Request::HasEntry(path)),
        AutoDownload::Download(update) => update_request(update),
        _ => None,
    }
}

/// What an automatic download does with the answer to what it asked for, if `part` is what
/// is read of a member of the archive that cannot be read to its end. Any other answer
/// leaves it as it is.
pub open spec fn auto_step(state: AutoState, reply: Reply, part: Seq<u8>) -> AutoState {
    match state {
        AutoDownload::Check { update, .. } => if says_missing(reply) {
            AutoDownload::Download(update)
        } else if reply == Reply::Flag(true) {
            AutoDownload::AlreadyThere
        } else {
            state
        },
        AutoDownload::Download(update) => AutoDownload::Download(
            update_step(update, reply, part),
        ),
        _ => state,
    }
}

impl AutoDownload<UnixPath, Update> {
    /// What is to be done next; nothing where the download has ended.
    pub fn request(&self) -> (request: Option<Request<&UnixPath, &Vec<u8>, &String>>)
        ensures
            crate::effect::asks(request, auto_request(self@)),
    {
        match self {
            AutoDownload::Check { path, .. } => Some(Request::HasEntry(path)),
            AutoDownload::Download(update) => update.request(),
            AutoDownload::NotConfigured | AutoDownload::AlreadyThere => None,
        }
    }

    /// Takes the answer to what was asked for.
    pub fn step(self, reply: Reply) -> (next: Self)
        ensures
            exists|part: Seq<u8>| next@ == #[trigger] auto_step(self@, reply, part),
            auto_wf(self@) ==> auto_wf(next@),
    {
        let ghost plain = auto_step(self@, reply, Seq::empty());
        match self {
            AutoDownload::Check { path, update } => if dir_is_empty_or_missing(&reply) {
                AutoDownload::Download(update)
            } else if let Reply::Flag(true) = reply {
                AutoDownload::AlreadyThere
            } else {
                AutoDownload::Check { path, update }
            },
            AutoDownload::Download(update) => {
                let ghost before = update@;
                let next = update.step(reply);
                proof {
                    let part = choose|part: Seq<u8>|
                        next@ == #[trigger] update_step(before, reply, part);
                    assert(AutoDownload::<Seq<u8>, UpdateView>::Download(next@) == auto_step(
                        self@,
                        reply,
                        part,
                    ));
                }
                AutoDownload::Download(next)
            },
            state => state,
        }
    }
}

impl UiAssets {
    /// The download of a web interface that is kept in a directory, if that is empty or
    /// missing.
    pub fn auto_download_if_empty(&self) -> (state: AutoDownload<UnixPath, Update>)
        ensures
            state@ == auto_start(*self),
            auto_wf(state@),
    {
        match self {
            UiAssets::BuiltIn => AutoDownload::NotConfigured,
            UiAssets::External(external) => AutoDownload::Check {
                path: external.path.copied(),
                update: external.download_and_replace(),
            },
        }
    }

    /// The download of a web interface that is kept in a directory.
    pub fn upgrade(&self) -> (res: Result<Update, UpdateError<String, UnixPath, ExtractError>>)
        ensures
            match (*self, res) {
                (UiAssets::External(external), Ok(update)) => update@ == update_start(
                    external.url@,
                    external.path@,
                ) && update_wf(update@),
                (UiAssets::BuiltIn, Err(error)) => error is NotConfigured,
                _ => false,
            },
    {
        match self {
            UiAssets::BuiltIn => Err(UpdateError::NotConfigured),
            UiAssets::External(external) => Ok(external.download_and_replace()),
        }
    }
}

/// Whether a download writes below its temporary directory only, until it replaces the
/// old web interface.
pub open spec fn update_is_confined(state: UpdateView) -> bool {
    match state.phase {
        UpdatePhase::Unpack { temp, step, left, .. } => {
            &&& crate::ui::archive::step_is_local(temp, step)
            &&& forall|i: int|
                0 <= i < left.len() ==> crate::ui::archive::step_is_local(
                    temp,
                    #[trigger] left[i],
                )
        },
        UpdatePhase::Replace(replace) => {
            &&& replace.target == state.target
            &&& crate::ui::replace::replace_is_confined(replace)
        },
        _ => true,
    }
}

/// A download keeps its target, and stays confined: whatever the outside answers, as long
/// as listings hold ordinary names.
pub proof fn law_update_stays_confined(state: UpdateView, reply: Reply, part: Seq<u8>)
    requires
        update_wf(state),
        update_is_confined(state),
        crate::ui::replace::reply_is_plain(reply),
    ensures
        update_step(state, reply, part).target == state.target,
        update_is_confined(update_step(state, reply, part)),
        update_is_confined(update_start(state.url, state.target)),
{
    match (state.phase, reply) {
        (UpdatePhase::MakeTempDir { body }, Reply::Path(temp)) => {
            crate::ui::archive::law_unpacking_stays_below(body, temp@, part);
            let steps = crate::ui::archive::archive_outcome(body, temp@, part).steps;
            let back = steps.reverse();
            assert forall|i: int|
                0 <= i < back.len() implies crate::ui::archive::step_is_local(
                temp@,
                #[trigger] back[i],
            ) by {
                assert(back[i] == steps[steps.len() - 1 - i]);
            }
        },
        (UpdatePhase::Replace(replace), _) => {
            crate::ui::replace::law_replace_stays_confined(replace, reply);
        },
        _ => {},
    }
}

/// Until the archive is unpacked to its end without a fault, nothing is asked for that
/// changes the old web interface: what is created or written lies below the temporary
/// directory (or is the directory that holds that one).
pub proof fn law_old_interface_stays_until_unpacked(state: UpdateView)
    requires
        update_is_confined(state),
        !(state.phase is Replace),
    ensures
        match update_request(state) {
            Some(Request::CreateDirAll(path)) => state.phase is Unpack
                && crate::ui::archive::step_is_local(
                state.phase->temp,
                ExtractStep::CreateDir(path),
            ),
            Some(Request::Write { path, .. }) => state.phase is Unpack
                && crate::ui::archive::is_local(state.phase->temp, path),
            Some(Request::Rename { .. }) => false,
            Some(Request::Copy { .. }) => false,
            Some(Request::RemoveFile(_)) => false,
            Some(Request::RemoveDirAll(_)) => false,
            _ => true,
        },
{
}

/// An archive that is at fault never replaces the old web interface: the download fails
/// with that fault once what precedes it is unpacked.
pub proof fn law_faulty_archive_is_not_installed(
    state: UpdateView,
    reply: Reply,
    part: Seq<u8>,
)
    requires
        match (state.phase, reply) {
            (UpdatePhase::MakeTempDir { body }, Reply::Path(temp)) =>
                crate::ui::archive::archive_outcome(body, temp@, part).fault is Some,
            (UpdatePhase::Unpack { fault, .. }, _) => fault is Some,
            _ => false,
        },
    ensures
        match update_step(state, reply, part).phase {
            UpdatePhase::Unpack { fault, .. } => fault is Some,
            UpdatePhase::Failed(_) => true,
            _ => false,
        },
{
}

/// Where there is a web interface already, or none is configured, nothing is downloaded.
pub proof fn law_nothing_is_downloaded_over_a_web_interface(assets: UiAssets, part: Seq<u8>)
    ensures
        assets is BuiltIn ==> auto_request(auto_start(assets)) is None,
        auto_request(auto_step(auto_start(assets), Reply::Flag(true), part)) is None,
{
}

/// A download after the first `n` steps of unpacking have succeeded.
pub open spec fn after_steps(state: UpdateView, n: nat) -> UpdateView
    decreases n,
{
    if n == 0 {
        state
    } else {
        update_step(after_steps(state, (n - 1) as nat), Reply::Done, Seq::empty())
    }
}

/// Once the temporary directory is there, what the archive unpacks to is asked for step by
/// step, in order; then the old web interface is replaced, unless the archive is at fault.
pub proof fn law_every_step_is_asked_for(
    state: UpdateView,
    place: Reply,
    part: Seq<u8>,
    n: nat,
)
    requires
        state.phase is MakeTempDir,
        place is Path,
        n <= crate::ui::archive::archive_outcome(
            state.phase->body,
            place->Path_0@,
            part,
        ).steps.len(),
    ensures
        ({
            let temp = place->Path_0@;
            let outcome = crate::ui::archive::archive_outcome(state.phase->body, temp, part);
            let reached = after_steps(update_step(state, place, part), n);
            if n < outcome.steps.len() {
                update_request(reached) == Some(step_request(outcome.steps[n as int]))
            } else {
                match outcome.fault {
                    Some(fault) => reached.phase matches UpdatePhase::Failed(
                        UpdateError::Archive(shown),
                    ) && shown == fault,
                    None => reached.phase matches UpdatePhase::Replace(replace) && replace
                        == crate::ui::replace::replace_start(temp, state.target),
                }
            }
        }),
{
    lemma_steps_left(state, place, part, n);
}

/// What is left to be unpacked after the first `n` steps.
proof fn lemma_steps_left(state: UpdateView, place: Reply, part: Seq<u8>, n: nat)
    requires
        state.phase is MakeTempDir,
        place is Path,
        n <= crate::ui::archive::archive_outcome(
            state.phase->body,
            place->Path_0@,
            part,
        ).steps.len(),
    ensures
        ({
            let temp = place->Path_0@;
            let outcome = crate::ui::archive::archive_outcome(state.phase->body, temp, part);
            let back = outcome.steps.reverse();
            after_steps(update_step(state, place, part), n) == unpack_on(
                state,
                temp,
                back.take(back.len() - n),
                outcome.fault,
            )
        }),
    decreases n,
{
    let temp = place->Path_0@;
    let outcome = crate::ui::archive::archive_outcome(state.phase->body, temp, part);
    let back = outcome.steps.reverse();
    if n == 0 {
        assert(back.take(back.len() as int) =~= back);
    } else {
        lemma_steps_left(state, place, part, (n - 1) as nat);
        assert(back.take(back.len() - n + 1).drop_last() =~= back.take(back.len() - n));
    }
}

/// Whether a listing broke off in a replacement.
pub open spec fn replace_is_faulty(replace: ReplaceView) -> bool {
    replace.fault is Some || match replace.phase {
        ReplacePhase::Copy(copy) => copy.fault is Some,
        _ => false,
    }
}

/// A download asks for something until it is done or has failed. It fails only where
/// something could not be done, the server did not answer with a web interface, the archive
/// is at fault, there is a symbolic link in it, or a listing broke off.
pub proof fn law_update_succeeds_unless_something_fails(
    state: UpdateView,
    reply: Reply,
    part: Seq<u8>,
)
    requires
        update_wf(state),
    ensures
        update_request(state) is None <==> state.phase is Updated || state.phase is Failed,
        update_step(state, reply, part).phase is Failed ==> {
            ||| state.phase is Failed
            ||| reply is Failed
            ||| state.phase is Get && reply is Status && is_error_status(reply->code)
            ||| state.phase is MakeTempDir && reply is Path
                && crate::ui::archive::archive_outcome(
                state.phase->body,
                reply->Path_0@,
                part,
            ).fault is Some
            ||| state.phase is Unpack && state.phase->fault is Some
            ||| state.phase is Replace && reply == Reply::Kind(crate::effect::FileKind::Symlink)
            ||| state.phase is Replace && reply is NamesUntil
            ||| state.phase is Replace && replace_is_faulty(state.phase->Replace_0)
        },
{
}

/// The archive that a download unpacks is, byte for byte, the body that it was answered with;
/// a place to unpack it to is asked for next.
pub proof fn law_received_archive_is_kept_whole(
    state: UpdateView,
    body: Vec<u8>,
    part: Seq<u8>,
)
    requires
        state.phase is ReadBody,
    ensures
        ({
            let next = update_step(state, Reply::Bytes(body), part);
            &&& next.phase matches UpdatePhase::MakeTempDir { body: kept } && kept == body@
            &&& next.url == state.url
            &&& next.target == state.target
            &&& update_request(next) == Some(crate::effect::Asked::MakeTempDir)
        }),
{
}

/// A body is received unless the status is one from 400 to 599; with such a one the download
/// has failed, and says which it was.
pub proof fn law_only_an_error_status_is_refused(state: UpdateView, reply: Reply, part: Seq<u8>)
    requires
        state.phase is Get,
        reply is Status,
    ensures
        ({
            let next = update_step(state, reply, part);
            let is_error = 400 <= reply->code <= 599;
            &&& is_error ==> (next.phase matches UpdatePhase::Failed(
                UpdateError::Status { code, text },
            ) && code == reply->code && text == reply->Status_text@)
            &&& !is_error ==> next.phase is ReadBody && update_request(next) == Some(
                crate::effect::Asked::ReadBody,
            )
        }),
{
}

/// A download asks for its URL, without a limit of time, and keeps what is downloaded to where.
pub proof fn law_update_asks_for_its_url(
    url: Seq<char>,
    target: Seq<u8>,
    state: UpdateView,
    reply: Reply,
    part: Seq<u8>,
)
    ensures
        update_request(update_start(url, target)) == Some(
            crate::effect::Asked::Get { url, timeout_secs: None },
        ),
        update_start(url, target).url == url,
        update_start(url, target).target == target,
        update_step(state, reply, part).url == state.url,
        update_step(state, reply, part).target == state.target,
{
}

/// What is to be unpacked is asked for as it is: a directory to be created, or a file to be
/// filled with all of its data.
pub proof fn law_unpacked_data_is_written_whole(state: UpdateView)
    requires
        state.phase is Unpack,
    ensures
        match state.phase->step {
            ExtractStep::CreateDir(path) => update_request(state) == Some(
                crate::effect::Asked::CreateDirAll(path),
            ),
            ExtractStep::WriteFile { path, data } => update_request(state) == Some(
                crate::effect::Asked::Write { path, data },
            ),
        },
{
}

/// Until the old web interface is turned to, a download that is told that something could not
/// be done has failed, and says so in the same words.
pub proof fn law_failed_update_says_why(state: UpdateView, text: String, part: Seq<u8>)
    requires
        update_request(state) is Some,
        !(state.phase is Replace),
    ensures
        update_step(state, Reply::Failed(text), part).phase matches UpdatePhase::Failed(
            UpdateError::Failed(told),
        ) && told == text@,
        update_request(update_step(state, Reply::Failed(text), part)) is None,
{
}

/// Once the old web interface is turned to, a download goes on, and ends, as its replacement
/// does: with the same link, or the same words, where that fails.
pub proof fn law_update_ends_as_its_replacement_ends(
    state: UpdateView,
    replace: ReplaceView,
    reply: Reply,
    part: Seq<u8>,
)
    requires
        state.phase == UpdateState::Replace(replace),
    ensures
        ({
            let next = crate::ui::replace::replace_step(replace, reply);
            let phase = update_step(state, reply, part).phase;
            match next.phase {
                ReplacePhase::Replaced => phase is Updated,
                ReplacePhase::Refused(path) => phase matches UpdatePhase::Failed(
                    UpdateError::Symlink(told),
                ) && told == path,
                ReplacePhase::Failed(text) => phase matches UpdatePhase::Failed(
                    UpdateError::Failed(told),
                ) && told == text,
                _ => phase == UpdateState::Replace(next),
            }
        }),
        update_request(state) == crate::ui::replace::replace_request(replace),
{
}

/// Whether an answer fits what was asked for, until the old web interface is turned to.
pub open spec fn update_fits(state: UpdateView, reply: Reply) -> bool {
    match state.phase {
        UpdatePhase::Get => reply is Status || reply is Failed,
        UpdatePhase::ReadBody => reply is Bytes || reply is Failed,
        UpdatePhase::MakeTempDir { .. } => reply is Path || reply is Failed,
        UpdatePhase::Unpack { .. } => reply is Done || reply is Failed,
        UpdatePhase::Replace(_) => true,
        UpdatePhase::Updated => false,
        UpdatePhase::Failed(_) => false,
    }
}

/// An answer to something else than what was asked for changes nothing.
pub proof fn law_other_answers_change_nothing(state: UpdateView, reply: Reply, part: Seq<u8>)
    ensures
        !update_fits(state, reply) ==> update_step(state, reply, part) == state,
{
}

/// An automatic download asks whether there is something in the directory of the web interface.
/// Where there is nothing, or that cannot be told, the web interface is downloaded there, as by
/// an upgrade; where there is something, or none is configured, nothing more is asked for.
pub proof fn law_missing_web_interface_is_downloaded(
    assets: UiAssets,
    text: String,
    part: Seq<u8>,
)
    ensures
        match assets {
            UiAssets::BuiltIn => auto_request(auto_start(assets)) is None,
            UiAssets::External(external) => {
                let start = auto_start(assets);
                let empty = auto_step(start, Reply::Flag(false), part);
                let missing = auto_step(start, Reply::Failed(text), part);
                &&& auto_request(start) == Some(crate::effect::Asked::HasEntry(external.path@))
                &&& empty matches AutoDownload::Download(update) && update.url == external.url@
                    && update.target == external.path@ && update.phase is Get
                &&& missing == empty
                &&& auto_request(empty) == Some(
                    crate::effect::Asked::Get { url: external.url@, timeout_secs: None },
                )
                &&& auto_step(start, Reply::Flag(true), part) is AlreadyThere
                &&& auto_request(auto_step(start, Reply::Flag(true), part)) is None
            },
        },
{
}

/// An automatic download, once under way, is a download like any other; one that has ended
/// stays so, and other answers than those to what was asked for change nothing.
pub proof fn law_automatic_download_goes_on_as_a_download(
    state: AutoState,
    reply: Reply,
    part: Seq<u8>,
)
    ensures
        match state {
            AutoDownload::Download(update) => {
                &&& auto_step(state, reply, part) == AutoState::Download(
                    update_step(update, reply, part),
                )
                &&& auto_request(state) == update_request(update)
            },
            AutoDownload::Check { .. } => !(reply is Flag || reply is Failed) ==> auto_step(
                state,
                reply,
                part,
            ) == state,
            _ => auto_step(state, reply, part) == state,
        },
{
}

/// Only a failure, or the answer that there is nothing, says that a web interface is missing.
pub proof fn law_only_an_empty_directory_is_missing(reply: Reply)
    ensures
        says_missing(reply) <==> match reply {
            Reply::Failed(_) => true,
            Reply::Flag(has_entry) => !has_entry,
            _ => false,
        },
{
}

/// What is said of a failed download names, whole, the link that is refused, says what is wrong
/// with the archive, or is what was told.
pub proof fn law_update_text_tells_what_is_wrong(
    path: Seq<u8>,
    fault: ExtractFault,
    code: u16,
    text: Seq<char>,
    cause: Seq<char>,
)
    ensures
        ({
            let told = update_fault_text(UpdateError::Symlink(path), cause);
            &&& told.len() == 42 + crate::text::lossy_text(path).len()
            &&& told.take(42) == "refusing to copy symlink from UI archive: "@
            &&& told.skip(42) == crate::text::lossy_text(path)
        }),
        update_fault_text(UpdateError::NotConfigured, cause) == "external UI is not configured"@,
        update_fault_text(UpdateError::Status { code, text }, cause) == cause,
        update_fault_text(UpdateError::Archive(fault), cause)
            == crate::ui::archive::extract_fault_text(fault, cause),
        update_fault_text(UpdateError::Failed(text), cause) == text,
{
    reveal_strlit("refusing to copy symlink from UI archive: ");
    let told = update_fault_text(UpdateError::Symlink(path), cause);
    assert(told.take(42) =~= "refusing to copy symlink from UI archive: "@);
    assert(told.skip(42) =~= crate::text::lossy_text(path));
}

} // verus!
