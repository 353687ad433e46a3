//! Downloading a file and putting it, whole, in the place of an old one.
use crate::effect::{Reply, Request};
use crate::path::{same_bytes, UnixPath};
use vstd::prelude::*;

verus! {

/// Seconds after which a download is given up.
pub const TIMEOUT_SECS: u64 = 60;

/// Why a file is not replaced. `T` is a text, `P` is a path.
#[derive(Debug, PartialEq, Eq)]
pub enum DownloadError<T, P> {
    /// The server did not answer with the file.
    Status { status: T, url: T },
    /// The new file could not be put in the place of the old one.
    Rename { from: P, to: P, text: T },
    /// Something else could not be done.
    Failed(T),
}

impl View for DownloadError<String, UnixPath> {
    type V = DownloadError<Seq<char>, Seq<u8>>;

    open spec fn view(&self) -> DownloadError<Seq<char>, Seq<u8>> {
        match self {
            DownloadError::Status { status, url } => DownloadError::Status {
                status: status@,
                url: url@,
            },
            DownloadError::Rename { from, to, text } => DownloadError::Rename {
                from: from@,
                to: to@,
                text: text@,
            },
            DownloadError::Failed(text) => DownloadError::Failed(text@),
        }
    }
}

/// What an error stands for.
pub type DownloadFault = DownloadError<Seq<char>, Seq<u8>>;

/// What is said where the server did not answer with the file.
pub open spec fn status_text(status: Seq<char>, url: Seq<char>) -> Seq<char> {
    "HTTP "@ + status + " fetching "@ + url
}

/// What is said where the new file could not be put in the place of the old one.
pub open spec fn rename_text(from: Seq<char>, to: Seq<char>, cause: Seq<char>) -> Seq<char> {
    "atomic rename "@ + from + " → "@ + to + ": "@ + cause
}

/// What an error says.
pub open spec fn download_fault_text(fault: DownloadFault) -> Seq<char> {
    match fault {
        DownloadError::Status { status, url } => status_text(status, url),
        DownloadError::Rename { from, to, text } => rename_text(
            crate::text::lossy_text(from),
            crate::text::lossy_text(to),
            text,
        ),
        DownloadError::Failed(text) => text,
    }
}

/// Says that the server did not answer with the file.
pub fn describe_status(status: &str, url: &str) -> (text: String)
    ensures
        text@ == status_text(status@, url@),
{
    "HTTP ".to_owned().concat(status).concat(" fetching ").concat(url)
}

/// Says that the new file could not be put in the place of the old one.
pub fn describe_rename(from: &str, to: &str, cause: &str) -> (text: String)
    ensures
        text@ == rename_text(from@, to@, cause@),
{
    let head = "atomic rename ".to_owned().concat(from).concat(" → ").concat(to);
    head.concat(": ").concat(cause)
}

impl DownloadError<String, UnixPath> {
    /// What is wrong, in words.
    pub fn to_string(&self) -> (text: String)
        ensures
            text@ == download_fault_text(self@),
    {
        match self {
            DownloadError::Status { status, url } => describe_status(
                status.as_str(),
                url.as_str(),
            ),
            DownloadError::Rename { from, to, text } => describe_rename(
                from.to_text().as_str(),
                to.to_text().as_str(),
                text.as_str(),
            ),
            DownloadError::Failed(text) => text.clone(),
        }
    }
}

/// How far a download has come, or how it ended. `D` is data, `E` is an error.
#[derive(Debug, PartialEq, Eq)]
pub enum DownloadPhase<P, D, E> {
    /// Ask for the file.
    Get,
    /// Receive it.
    ReadBody,
    /// Fetch it through a proxy.
    GetViaProxy,
    /// Create the directory that is to hold it.
    CreateParent { parent: P, body: D },
    /// Write it to the temporary file.
    Write { body: D },
    /// Put the temporary file in the place of the old one.
    Rename { len: usize },
    /// Remove the temporary file, as far as that can be done.
    Remove { error: E },
    /// The file is replaced, by one of `len` bytes.
    Replaced { len: usize },
    /// It is not.
    Failed(E),
}

impl View for DownloadPhase<UnixPath, Vec<u8>, DownloadError<String, UnixPath>> {
    type V = DownloadPhase<Seq<u8>, Seq<u8>, DownloadFault>;

    open spec fn view(&self) -> DownloadPhase<Seq<u8>, Seq<u8>, DownloadFault> {
        match self {
            DownloadPhase::Get => DownloadPhase::Get,
            DownloadPhase::ReadBody => DownloadPhase::ReadBody,
            DownloadPhase::GetViaProxy => DownloadPhase::GetViaProxy,
            DownloadPhase::CreateParent { parent, body } => DownloadPhase::CreateParent {
                parent: parent@,
                body: body@,
            },
            DownloadPhase::Write { body } => DownloadPhase::Write { body: body@ },
            DownloadPhase::Rename { len } => DownloadPhase::Rename { len: *len },
            DownloadPhase::Remove { error } => DownloadPhase::Remove { error: error@ },
            DownloadPhase::Replaced { len } => DownloadPhase::Replaced { len: *len },
            DownloadPhase::Failed(error) => DownloadPhase::Failed(error@),
        }
    }
}

/// The download of `url` to `dest`, by way of the temporary file `temp`.
#[derive(Debug, PartialEq, Eq)]
pub struct Download {
    pub url: String,
    pub dest: UnixPath,
    pub temp: UnixPath,
    pub phase: DownloadPhase<UnixPath, Vec<u8>, DownloadError<String, UnixPath>>,
}

/// What is downloaded to where, and the state of it.
pub struct DownloadView {
    pub url: Seq<char>,
    pub dest: Seq<u8>,
    pub temp: Seq<u8>,
    pub phase: DownloadPhase<Seq<u8>, Seq<u8>, DownloadFault>,
}

impl View for Download {
    type V = DownloadView;

    open spec fn view(&self) -> DownloadView {
        DownloadView {
            url: self.url@,
            dest: self.dest@,
            temp: self.temp@,
            phase: self.phase@,
        }
    }
}

/// The extension of the temporary file: `tmp`, or, where that is the one of `dest`, `tmp.tmp`.
pub open spec fn temp_extension(dest: Seq<u8>) -> Seq<u8> {
    if crate::path::extension(dest) == Some(vstd::utf8::encode_utf8("tmp"@)) {
        vstd::utf8::encode_utf8("tmp.tmp"@)
    } else {
        vstd::utf8::encode_utf8("tmp"@)
    }
}

/// The path of the temporary file: `dest`, with an extension that it does not have.
pub open spec fn temp_path(dest: Seq<u8>) -> Seq<u8> {
    crate::path::with_extension(dest, temp_extension(dest))
}

/// A download at its start.
pub open spec fn download_start(url: Seq<char>, dest: Seq<u8>, via_proxy: bool) -> DownloadView {
    DownloadView {
        url,
        dest,
        temp: temp_path(dest),
        phase: if via_proxy {
            DownloadPhase::GetViaProxy
        } else {
            DownloadPhase::Get
        },
    }
}

/// What a download asks for.
pub open spec fn download_request(state: DownloadView) -> Option<crate::effect::Asked> {
    match state.phase {
        DownloadPhase::Get => Some(
            Request::Get { url: state.url, timeout_secs: Some(TIMEOUT_SECS) },
        ),
        DownloadPhase::ReadBody => Some(Request::ReadBody),
        DownloadPhase::GetViaProxy => Some(Request::GetViaProxy { url: state.url }),
        DownloadPhase::CreateParent { parent, .. } => Some(Request::CreateDirAll(parent)),
        DownloadPhase::Write { body } => Some(Request::Write { path: state.temp, data: body }),
        DownloadPhase::Rename { .. } => Some(
            Request::Rename { from: state.temp, to: state.dest },
        ),
        DownloadPhase::Remove { .. } => Some(Request::RemoveFile(state.temp)),
        DownloadPhase::Replaced { .. } => None,
        DownloadPhase::Failed(_) => None,
    }
}

/// Whether a status says that a request succeeded.
pub open spec fn is_success(code: u16) -> bool {
    200 <= code < 300
}

/// What a download does with the file once it is received.
pub open spec fn received(state: DownloadView, body: Seq<u8>) -> DownloadView {
    DownloadView {
        phase: match crate::path::parent(state.dest) {
            Some(parent) => DownloadPhase::CreateParent { parent, body },
            None => DownloadPhase::Write { body },
        },
        ..state
    }
}

/// What a download does with the answer to what it asked for. Any other answer leaves it
/// as it is.
pub open spec fn download_step(state: DownloadView, reply: Reply) -> DownloadView {
    match (state.phase, reply) {
        (DownloadPhase::Get, Reply::Status { code, text }) => DownloadView {
            phase: if is_success(code) {
                DownloadPhase::ReadBody
            } else {
                DownloadPhase::Failed(DownloadError::Status { status: text@, url: state.url })
            },
            ..state
        },
        (DownloadPhase::ReadBody, Reply::Bytes(body)) => received(state, body@),
        (DownloadPhase::GetViaProxy, Reply::Bytes(body)) => received(state, body@),
        (DownloadPhase::CreateParent { body, .. }, Reply::Done) => DownloadView {
            phase: DownloadPhase::Write { body },
            ..state
        },
        (DownloadPhase::Write { body }, Reply::Done) => DownloadView {
            phase: DownloadPhase::Rename { len: body.len() as usize },
            ..state
        },
        (DownloadPhase::Rename { len }, Reply::Done) => DownloadView {
            phase: DownloadPhase::Replaced { len },
            ..state
        },
        (DownloadPhase::Write { .. }, Reply::Failed(text)) => DownloadView {
            phase: DownloadPhase::Remove { error: DownloadError::Failed(text@) },
            ..state
        },
        (DownloadPhase::Rename { .. }, Reply::Failed(text)) => DownloadView {
            phase: DownloadPhase::Remove {
                error: DownloadError::Rename { from: state.temp, to: state.dest, text: text@ },
            },
            ..state
        },
        (DownloadPhase::Remove { error }, Reply::Done) => DownloadView {
            phase: DownloadPhase::Failed(error),
            ..state
        },
        (DownloadPhase::Remove { error }, Reply::Failed(_)) => DownloadView {
            phase: DownloadPhase::Failed(error),
            ..state
        },
        (DownloadPhase::Replaced { .. }, _) => state,
        (DownloadPhase::Failed(_), _) => state,
        (_, Reply::Failed(text)) => DownloadView {
            phase: DownloadPhase::Failed(DownloadError::Failed(text@)),
            ..state
        },
        _ => state,
    }
}

/// The download of `url` to `dest`, through the proxy that was chosen, if any.
///
/// The file is written beside `dest`, under another name that ends with `.tmp`, and then
/// moved there. When that fails the temporary file is removed, as far as possible, and `dest`
/// is untouched.
pub fn download_and_replace(url: &str, dest: &UnixPath, via_proxy: bool) -> (state: Download)
    ensures
        state@ == download_start(url@, dest@, via_proxy),
{
    let extension = match dest.extension() {
        Some(own) if same_bytes(own.as_slice(), "tmp".as_bytes()) => "tmp.tmp",
        _ => "tmp",
    };
    Download {
        url: url.to_owned(),
        dest: dest.copied(),
        temp: dest.with_extension(extension.as_bytes()),
        phase: if via_proxy {
            DownloadPhase::GetViaProxy
        } else {
            DownloadPhase::Get
        },
    }
}

impl Download {
    /// What is to be done next; nothing where the download has ended.
    pub fn request(&self) -> (request: Option<Request<&UnixPath, &Vec<u8>, &String>>)
        ensures
            crate::effect::asks(request, download_request(self@)),
    {
        match &self.phase {
            DownloadPhase::Get => Some(
                Request::Get { url: &self.url, timeout_secs: Some(TIMEOUT_SECS) },
            ),
            DownloadPhase::ReadBody => Some(Request::ReadBody),
            DownloadPhase::GetViaProxy => Some(Request::GetViaProxy { url: &self.url }),
            DownloadPhase::CreateParent { parent, .. } => Some(Request::CreateDirAll(parent)),
            DownloadPhase::Write { body } => Some(Request::Write { path: &self.temp, data: body }),
            DownloadPhase::Rename { .. } => Some(
                Request::Rename { from: &self.temp, to: &self.dest },
            ),
            DownloadPhase::Remove { .. } => Some(Request::RemoveFile(&self.temp)),
            DownloadPhase::Replaced { .. } | DownloadPhase::Failed(_) => None,
        }
    }

    /// Takes the answer to what was asked for.
    pub fn step(self, reply: Reply) -> (next: Download)
        ensures
            next@ == download_step(self@, reply),
    {
        let Download { url, dest, temp, phase } = self;
        let next = match (phase, reply) {
            (DownloadPhase::Get, Reply::Status { code, text }) => {
                if code >= 200 && code < 300 {
                    DownloadPhase::ReadBody
                } else {
                    DownloadPhase::Failed(DownloadError::Status { status: text, url: url.clone() })
                }
            },
            (DownloadPhase::ReadBody, Reply::Bytes(body)) => Self::received_phase(&dest, body),
            (DownloadPhase::GetViaProxy, Reply::Bytes(body)) => Self::received_phase(&dest, body),
            (DownloadPhase::CreateParent { body, .. }, Reply::Done) => DownloadPhase::Write {
                body,
            },
            (DownloadPhase::Write { body }, Reply::Done) => DownloadPhase::Rename {
                len: body.len(),
            },
            (DownloadPhase::Rename { len }, Reply::Done) => DownloadPhase::Replaced { len },
            (DownloadPhase::Write { .. }, Reply::Failed(text)) => DownloadPhase::Remove {
                error: DownloadError::Failed(text),
            },
            (DownloadPhase::Rename { .. }, Reply::Failed(text)) => DownloadPhase::Remove {
                error: DownloadError::Rename { from: temp.copied(), to: dest.copied(), text },
            },
            (DownloadPhase::Remove { error }, Reply::Done) => DownloadPhase::Failed(error),
            (DownloadPhase::Remove { error }, Reply::Failed(_)) => DownloadPhase::Failed(error),
            (DownloadPhase::Replaced { len }, _) => DownloadPhase::Replaced { len },
            (DownloadPhase::Failed(error), _) => DownloadPhase::Failed(error),
            (_, Reply::Failed(text)) => DownloadPhase::Failed(DownloadError::Failed(text)),
            (phase, _) => phase,
        };
        Download { url, dest, temp, phase: next }
    }

    /// What comes after the file is received.
    fn received_phase(dest: &UnixPath, body: Vec<u8>) -> (phase: DownloadPhase<
        UnixPath,
        Vec<u8>,
        DownloadError<String, UnixPath>,
    >)
        ensures
            forall|state: DownloadView|
                state.dest == dest@ ==> (#[trigger] received(state, body@)).phase == phase@,
    {
        match dest.parent() {
            Some(parent) => DownloadPhase::CreateParent { parent, body },
            None => DownloadPhase::Write { body },
        }
    }
}

/// A download after a run of answers.
pub open spec fn download_run(start: DownloadView, replies: Seq<Reply>) -> DownloadView
    decreases replies.len(),
{
    if replies.len() == 0 {
        start
    } else {
        download_step(download_run(start, replies.drop_last()), replies.last())
    }
}

/// Whether the answer at a place of a run is the one that puts the new file in the place
/// of the old one.
pub open spec fn replaces_at(start: DownloadView, replies: Seq<Reply>, at: int) -> bool {
    &&& 0 <= at < replies.len()
    &&& download_run(start, replies.take(at)).phase is Rename
    &&& replies[at] is Done
}

/// Whether a run has come to where the temporary file is to be written.
pub open spec fn writes_at(start: DownloadView, replies: Seq<Reply>, at: int) -> bool {
    0 <= at < replies.len() && download_run(start, replies.take(at)).phase is Write
}

/// Whether a run has come to where the temporary file is to be removed.
pub open spec fn removes_at(start: DownloadView, replies: Seq<Reply>, at: int) -> bool {
    0 <= at < replies.len() && download_run(start, replies.take(at)).phase is Remove
}

/// Only the file itself and its temporary file, which is another one, are changed, the file
/// itself by the final move alone; beside that the directory that holds it is created. (A
/// path that ends without a name is that of a directory, and no file is written there.)
pub proof fn law_only_the_move_changes_the_file(
    url: Seq<char>,
    dest: Seq<u8>,
    via_proxy: bool,
    replies: Seq<Reply>,
)
    ensures
        ({
            let state = download_run(download_start(url, dest, via_proxy), replies);
            &&& state.dest == dest
            &&& state.temp == temp_path(dest)
            &&& state.url == url
            &&& crate::path::file_name(dest) is Some ==> crate::path::components(temp_path(dest))
                != crate::path::components(dest)
            &&& match download_request(state) {
                Some(Request::Write { path, .. }) => path == temp_path(dest),
                Some(Request::RemoveFile(path)) => path == temp_path(dest),
                Some(Request::CreateDirAll(path)) => crate::path::parent(dest) == Some(path),
                Some(Request::Rename { from, to }) => from == temp_path(dest) && to == dest,
                Some(Request::Copy { .. }) => false,
                Some(Request::RemoveDirAll(_)) => false,
                _ => true,
            }
        }),
    decreases replies.len(),
{
    if crate::path::file_name(dest) is Some {
        law_temporary_file_is_beside_the_file(dest);
    }
    if replies.len() > 0 {
        law_only_the_move_changes_the_file(url, dest, via_proxy, replies.drop_last());
    }
}

/// The temporary file lies in the directory of the file itself, and is another one.
pub proof fn law_temporary_file_is_beside_the_file(dest: Seq<u8>)
    requires
        crate::path::file_name(dest) is Some,
    ensures
        crate::path::file_name(temp_path(dest)) is Some,
        crate::path::components(temp_path(dest)).drop_last() == crate::path::components(
            dest,
        ).drop_last(),
        crate::path::components(temp_path(dest)) != crate::path::components(dest),
        temp_path(dest) != dest,
{
    reveal_strlit("tmp");
    reveal_strlit("tmp.tmp");
    vstd::utf8::is_ascii_chars_encode_utf8("tmp"@);
    vstd::utf8::is_ascii_chars_encode_utf8("tmp.tmp"@);
    let extension = temp_extension(dest);
    let name = crate::path::file_name(dest)->0;
    let stem = crate::path::stem(name);
    assert forall|i: int| 0 <= i < extension.len() implies extension[i]
        != crate::path::SEPARATOR by {
        assert(extension[i] == "tmp.tmp"@[i] as u8);
    }
    crate::path::law_with_extension_is_a_sibling(dest, extension);
    let renamed = stem.push(crate::path::DOT) + extension;
    assert(crate::path::components(temp_path(dest)).drop_last() =~= crate::path::components(
        dest,
    ).drop_last());
    assert(crate::path::components(temp_path(dest)).last() == crate::path::Component::Normal(
        renamed,
    ));
    if renamed == name {
        crate::path::lemma_last_dot(name);
        if crate::path::last_dot(name) > 0 {
            let own = name.skip(crate::path::last_dot(name) + 1);
            assert(own =~= extension);
            assert(own.len() == extension.len());
        } else {
            assert(renamed.len() > name.len());
        }
    }
}

/// A download that failed never put a new file in the place of the old one, and one that
/// did never fails.
pub proof fn law_failure_leaves_the_file_untouched(
    url: Seq<char>,
    dest: Seq<u8>,
    via_proxy: bool,
    replies: Seq<Reply>,
)
    ensures
        ({
            let start = download_start(url, dest, via_proxy);
            download_run(start, replies).phase is Replaced <==> exists|at: int|
                replaces_at(start, replies, at)
        }),
    decreases replies.len(),
{
    let start = download_start(url, dest, via_proxy);
    if replies.len() > 0 {
        let before = replies.drop_last();
        let last = replies.len() - 1;
        law_failure_leaves_the_file_untouched(url, dest, via_proxy, before);
        assert(replies.take(last) =~= before);
        if download_run(start, replies).phase is Replaced {
            if download_run(start, before).phase is Replaced {
                let at = choose|at: int| replaces_at(start, before, at);
                assert(before.take(at) =~= replies.take(at));
                assert(replaces_at(start, replies, at));
            } else {
                assert(replaces_at(start, replies, last));
            }
        }
        if exists|at: int| replaces_at(start, replies, at) {
            let at = choose|at: int| replaces_at(start, replies, at);
            if at < last {
                assert(before.take(at) =~= replies.take(at));
                assert(replaces_at(start, before, at));
            }
        }
    }
}

/// A download that failed after it came to write the temporary file came to remove it.
pub proof fn law_failure_removes_the_temporary_file(
    url: Seq<char>,
    dest: Seq<u8>,
    via_proxy: bool,
    replies: Seq<Reply>,
    at: int,
)
    requires
        download_run(download_start(url, dest, via_proxy), replies).phase is Failed,
        writes_at(download_start(url, dest, via_proxy), replies, at),
    ensures
        exists|later: int|
            at < later && removes_at(download_start(url, dest, via_proxy), replies, later),
{
    lemma_after_the_write(url, dest, via_proxy, replies, at);
}

/// What a download can have come to after it came to write the temporary file.
proof fn lemma_after_the_write(
    url: Seq<char>,
    dest: Seq<u8>,
    via_proxy: bool,
    replies: Seq<Reply>,
    at: int,
)
    requires
        writes_at(download_start(url, dest, via_proxy), replies, at),
    ensures
        ({
            let start = download_start(url, dest, via_proxy);
            match download_run(start, replies).phase {
                DownloadPhase::Write { .. } => true,
                DownloadPhase::Rename { .. } => true,
                DownloadPhase::Replaced { .. } => true,
                DownloadPhase::Remove { .. } => true,
                DownloadPhase::Failed(_) => exists|later: int|
                    at < later && removes_at(start, replies, later),
                _ => false,
            }
        }),
    decreases replies.len(),
{
    let start = download_start(url, dest, via_proxy);
    let before = replies.drop_last();
    let last = replies.len() - 1;
    assert(replies.take(last) =~= before);
    if at < last {
        assert(before.take(at) =~= replies.take(at));
        lemma_after_the_write(url, dest, via_proxy, before, at);
        if download_run(start, replies).phase is Failed {
            if download_run(start, before).phase is Failed {
                let later = choose|later: int| at < later && removes_at(start, before, later);
                assert(before.take(later) =~= replies.take(later));
                assert(removes_at(start, replies, later));
            } else {
                assert(removes_at(start, replies, last));
            }
        }
    }
}

/// How many answers a download can still take.
pub open spec fn download_left(state: DownloadView) -> nat {
    match state.phase {
        DownloadPhase::Get => 6,
        DownloadPhase::ReadBody => 5,
        DownloadPhase::GetViaProxy => 5,
        DownloadPhase::CreateParent { .. } => 4,
        DownloadPhase::Write { .. } => 3,
        DownloadPhase::Rename { .. } => 2,
        DownloadPhase::Remove { .. } => 1,
        DownloadPhase::Replaced { .. } => 0,
        DownloadPhase::Failed(_) => 0,
    }
}

/// Whether an answer fits what was asked for.
pub open spec fn download_fits(state: DownloadView, reply: Reply) -> bool {
    match download_request(state) {
        Some(Request::Get { .. }) => reply is Status || reply is Failed,
        Some(Request::ReadBody) => reply is Bytes || reply is Failed,
        Some(Request::GetViaProxy { .. }) => reply is Bytes || reply is Failed,
        Some(_) => reply is Done || reply is Failed,
        None => false,
    }
}

/// A download comes to an end: each answer that fits leaves fewer to come. It fails only
/// where something could not be done, or the server did not answer with the file; where all
/// is done as asked the file is replaced.
pub proof fn law_download_succeeds_unless_something_fails(state: DownloadView, reply: Reply)
    ensures
        download_fits(state, reply) ==> download_left(download_step(state, reply))
            < download_left(state),
        download_left(state) == 0 <==> download_request(state) is None,
        ({
            let next = download_step(state, reply);
            next.phase is Remove || next.phase is Failed ==> {
                ||| state.phase is Remove || state.phase is Failed
                ||| reply is Failed
                ||| reply is Status && !is_success(reply->code)
            }
        }),
{
}

/// Whether a run of a download can happen on a file system that is `first` before it.
pub open spec fn download_happens(
    start: DownloadView,
    first: crate::disk::Disk,
    events: Seq<crate::disk::Event>,
) -> bool
    decreases events.len(),
{
    if events.len() == 0 {
        true
    } else {
        let before = events.drop_last();
        &&& download_happens(start, first, before)
        &&& match download_request(download_run(start, crate::disk::replies(before))) {
            Some(request) => crate::disk::happens(
                crate::disk::disk_after(first, before),
                request,
                events.last().reply,
                events.last().disk,
            ),
            None => false,
        }
    }
}

/// Whether something was received in a run.
pub open spec fn was_received(events: Seq<crate::disk::Event>, body: Seq<u8>) -> bool {
    exists|i: int| received_at(events, i, body)
}

/// Whether something was received at a place of a run.
pub open spec fn received_at(events: Seq<crate::disk::Event>, i: int, body: Seq<u8>) -> bool {
    &&& 0 <= i < events.len()
    &&& events[i].reply is Bytes
    &&& events[i].reply->Bytes_0@ == body
}

/// Whether a download has changed nothing but the file, its temporary file and the
/// directories that hold them.
pub open spec fn changes_little(
    dest: Seq<u8>,
    first: crate::disk::Disk,
    disk: crate::disk::Disk,
) -> bool {
    let place = crate::path::components(dest);
    let temp = crate::path::components(temp_path(dest));
    forall|key: crate::disk::Key|
        !place.is_prefix_of(key) && !temp.is_prefix_of(key) && !key.is_prefix_of(place) ==> (
        #[trigger] crate::disk::at(disk, key)) == crate::disk::at(first, key)
}

/// Whether a run came to write the temporary file.
pub open spec fn came_to_write(start: DownloadView, events: Seq<crate::disk::Event>) -> bool {
    exists|i: int| writes_at(start, crate::disk::replies(events), i)
}

/// Whether the temporary file could not be removed at a place of a run.
pub open spec fn removal_fails_at(
    start: DownloadView,
    events: Seq<crate::disk::Event>,
    i: int,
) -> bool {
    removes_at(start, crate::disk::replies(events), i) && events[i].reply is Failed
}

/// Whether the temporary file could not be removed in a run.
pub open spec fn removal_failed(start: DownloadView, events: Seq<crate::disk::Event>) -> bool {
    exists|i: int| removal_fails_at(start, events, i)
}

/// What is found at the place of the file, and of its temporary file, while a download is
/// under way, and after it.
pub open spec fn download_so_far(
    start: DownloadView,
    first: crate::disk::Disk,
    events: Seq<crate::disk::Event>,
) -> bool {
    let dest = start.dest;
    let disk = crate::disk::disk_after(first, events);
    let place = crate::path::components(dest);
    let temp = crate::path::components(temp_path(dest));
    let kept = crate::disk::at(disk, place) == crate::disk::at(first, place);
    let unwritten = !came_to_write(start, events) && crate::disk::at(disk, temp)
        == crate::disk::at(first, temp);
    match download_run(start, crate::disk::replies(events)).phase {
        DownloadPhase::CreateParent { parent, body } => {
            &&& crate::path::parent(dest) == Some(parent)
            &&& was_received(events, body)
            &&& kept
            &&& unwritten
        },
        DownloadPhase::Write { body } => {
            &&& was_received(events, body)
            &&& kept
            &&& unwritten
        },
        DownloadPhase::Rename { len } => exists|body: Seq<u8>|
            {
                &&& was_received(events, body)
                &&& body.len() as usize == len
                &&& crate::disk::at(disk, temp) == Some(crate::disk::Node::File(body))
                &&& kept
                &&& came_to_write(start, events)
                &&& crate::path::file_name(dest) is Some
            },
        DownloadPhase::Remove { .. } => kept && came_to_write(start, events),
        DownloadPhase::Replaced { len } => exists|body: Seq<u8>|
            {
                &&& was_received(events, body)
                &&& body.len() as usize == len
                &&& crate::disk::at(disk, place) == Some(crate::disk::Node::File(body))
                &&& crate::disk::at(disk, temp) is None
            },
        DownloadPhase::Failed(_) => {
            &&& kept
            &&& unwritten || crate::disk::at(disk, temp) is None || removal_failed(start, events)
        },
        _ => kept && unwritten,
    }
}

/// Creating the directory that holds the file changes little, and neither the file nor its
/// temporary file.
proof fn lemma_parent_changes_little(
    dest: Seq<u8>,
    parent: Seq<u8>,
    before: crate::disk::Disk,
    reply: Reply,
    after: crate::disk::Disk,
)
    requires
        crate::path::parent(dest) == Some(parent),
        crate::disk::happens(before, Request::CreateDirAll(parent), reply, after),
    ensures
        changes_little(dest, before, after),
        crate::disk::at(after, crate::path::components(dest)) == crate::disk::at(
            before,
            crate::path::components(dest),
        ),
        crate::disk::at(after, crate::path::components(temp_path(dest))) == crate::disk::at(
            before,
            crate::path::components(temp_path(dest)),
        ),
{
    let place = crate::path::components(dest);
    let temp = crate::path::components(temp_path(dest));
    let above = crate::path::components(parent);
    crate::path::law_parent_drops_last_component(dest);
    assert(above =~= place.subrange(0, above.len() as int));
    if crate::path::file_name(dest) is Some {
        law_temporary_file_is_beside_the_file(dest);
        assert(temp.drop_last().len() == place.drop_last().len());
    }
    assert forall|key: crate::disk::Key| key.is_prefix_of(above) implies key.is_prefix_of(
        place,
    ) by {
        crate::disk::lemma_prefix_chain(key, above, place);
    }
}

/// Writing the temporary file changes it alone.
proof fn lemma_write_changes_little(
    dest: Seq<u8>,
    data: Seq<u8>,
    before: crate::disk::Disk,
    reply: Reply,
    after: crate::disk::Disk,
)
    requires
        crate::disk::happens(
            before,
            Request::Write { path: temp_path(dest), data },
            reply,
            after,
        ),
    ensures
        changes_little(dest, before, after),
        crate::disk::at(after, crate::path::components(dest)) == crate::disk::at(
            before,
            crate::path::components(dest),
        ),
        reply is Done ==> crate::path::file_name(dest) is Some && crate::disk::at(
            after,
            crate::path::components(temp_path(dest)),
        ) == Some(crate::disk::Node::File(data)),
{
    let temp = crate::path::components(temp_path(dest));
    assert(temp.is_prefix_of(temp));
    if crate::path::file_name(dest) is Some {
        law_temporary_file_is_beside_the_file(dest);
    } else {
        assert(!crate::disk::is_named(temp));
    }
}

/// Moving the temporary file puts it in the place of the file.
proof fn lemma_move_changes_little(
    dest: Seq<u8>,
    before: crate::disk::Disk,
    reply: Reply,
    after: crate::disk::Disk,
)
    requires
        crate::path::file_name(dest) is Some,
        crate::disk::happens(
            before,
            Request::Rename { from: temp_path(dest), to: dest },
            reply,
            after,
        ),
    ensures
        changes_little(dest, before, after),
        reply is Done ==> {
            &&& crate::disk::at(after, crate::path::components(dest)) == crate::disk::at(
                before,
                crate::path::components(temp_path(dest)),
            )
            &&& crate::disk::at(after, crate::path::components(temp_path(dest))) is None
        },
        reply is Failed ==> crate::disk::at(after, crate::path::components(dest))
            == crate::disk::at(before, crate::path::components(dest)),
{
    let place = crate::path::components(dest);
    let temp = crate::path::components(temp_path(dest));
    law_temporary_file_is_beside_the_file(dest);
    assert(temp.drop_last().len() == place.drop_last().len());
    assert(temp.is_prefix_of(temp));
    assert(place.is_prefix_of(place));
    assert(temp + place.skip(place.len() as int) =~= temp);
    if place.is_prefix_of(temp) {
        assert(place =~= temp);
    }
}

/// Removing the temporary file changes it alone.
proof fn lemma_removal_changes_little(
    dest: Seq<u8>,
    before: crate::disk::Disk,
    reply: Reply,
    after: crate::disk::Disk,
)
    requires
        crate::disk::happens(before, Request::RemoveFile(temp_path(dest)), reply, after),
    ensures
        changes_little(dest, before, after),
        crate::disk::at(after, crate::path::components(dest)) == crate::disk::at(
            before,
            crate::path::components(dest),
        ),
        reply is Done ==> crate::disk::at(
            after,
            crate::path::components(temp_path(dest)),
        ) is None,
{
    let temp = crate::path::components(temp_path(dest));
    assert(temp.is_prefix_of(temp));
    if crate::path::file_name(dest) is Some {
        law_temporary_file_is_beside_the_file(dest);
    } else {
        assert(!crate::disk::is_named(temp));
    }
}

/// What happened in a run stays so when the run goes on.
proof fn lemma_longer_run(start: DownloadView, events: Seq<crate::disk::Event>)
    requires
        events.len() > 0,
    ensures
        forall|body: Seq<u8>|
            was_received(events.drop_last(), body) ==> #[trigger] was_received(events, body),
        events.last().reply is Bytes ==> was_received(events, events.last().reply->Bytes_0@),
        came_to_write(start, events) <==> came_to_write(start, events.drop_last())
            || download_run(start, crate::disk::replies(events.drop_last())).phase is Write,
        removal_failed(start, events.drop_last()) ==> removal_failed(start, events),
        download_run(start, crate::disk::replies(events.drop_last())).phase is Remove
            && events.last().reply is Failed ==> removal_failed(start, events),
{
    let before = events.drop_last();
    let last = events.len() - 1;
    let answers = crate::disk::replies(events);
    assert forall|body: Seq<u8>| was_received(before, body) implies #[trigger] was_received(
        events,
        body,
    ) by {
        let i = choose|i: int| received_at(before, i, body);
        assert(received_at(events, i, body));
    }
    if let Reply::Bytes(body) = events.last().reply {
        assert(received_at(events, last, body@));
    }
    assert(answers.take(last) =~= crate::disk::replies(before));
    assert forall|i: int| 0 <= i < last implies #[trigger] answers.take(i)
        == crate::disk::replies(before).take(i) by {
        assert(answers.take(i) =~= crate::disk::replies(before).take(i));
    }
    if came_to_write(start, before) {
        let i = choose|i: int| writes_at(start, crate::disk::replies(before), i);
        assert(answers.take(i) == crate::disk::replies(before).take(i));
        assert(writes_at(start, answers, i));
    }
    if download_run(start, crate::disk::replies(before)).phase is Write {
        assert(writes_at(start, answers, last));
    }
    if came_to_write(start, events) {
        let i = choose|i: int| writes_at(start, answers, i);
        if i < last {
            assert(writes_at(start, crate::disk::replies(before), i));
        }
    }
    if removal_failed(start, before) {
        let i = choose|i: int| removal_fails_at(start, before, i);
        assert(answers.take(i) == crate::disk::replies(before).take(i));
        assert(removal_fails_at(start, events, i));
    }
    if download_run(start, crate::disk::replies(before)).phase is Remove && events.last().reply
        is Failed {
        assert(removal_fails_at(start, events, last));
    }
}

/// One event of a download.
proof fn lemma_download_event(
    url: Seq<char>,
    dest: Seq<u8>,
    via_proxy: bool,
    first: crate::disk::Disk,
    events: Seq<crate::disk::Event>,
)
    requires
        events.len() > 0,
        download_happens(download_start(url, dest, via_proxy), first, events),
        download_so_far(download_start(url, dest, via_proxy), first, events.drop_last()),
    ensures
        download_so_far(download_start(url, dest, via_proxy), first, events),
        changes_little(
            dest,
            crate::disk::disk_after(first, events.drop_last()),
            events.last().disk,
        ),
{
    let start = download_start(url, dest, via_proxy);
    let before = events.drop_last();
    let state = download_run(start, crate::disk::replies(before));
    let old = crate::disk::disk_after(first, before);
    let disk = events.last().disk;
    let reply = events.last().reply;
    assert(crate::disk::replies(events).drop_last() =~= crate::disk::replies(before));
    law_only_the_move_changes_the_file(url, dest, via_proxy, crate::disk::replies(before));
    lemma_longer_run(start, events);
    match state.phase {
        DownloadPhase::CreateParent { parent, body } => {
            lemma_parent_changes_little(dest, parent, old, reply, disk);
            assert(was_received(events, body));
        },
        DownloadPhase::Write { body } => {
            lemma_write_changes_little(dest, body, old, reply, disk);
            assert(was_received(events, body));
        },
        DownloadPhase::Rename { len } => {
            let body = choose|body: Seq<u8>|
                {
                    &&& was_received(before, body)
                    &&& body.len() as usize == len
                    &&& crate::disk::at(old, crate::path::components(temp_path(dest))) == Some(
                        crate::disk::Node::File(body),
                    )
                };
            assert(was_received(events, body));
            lemma_move_changes_little(dest, old, reply, disk);
        },
        DownloadPhase::Remove { .. } => {
            lemma_removal_changes_little(dest, old, reply, disk);
        },
        _ => {},
    }
}

/// Once a download is done the file is, whole, what was received, and there is no temporary
/// file; until then, and where the download fails, the file is what it was before. After a
/// failure the temporary file is as it was, if it was not come to, or not there, unless it
/// could not be removed. Beside the file, its temporary file and the directories that hold
/// them nothing changes.
pub proof fn law_file_is_replaced_whole_or_not_at_all(
    url: Seq<char>,
    dest: Seq<u8>,
    via_proxy: bool,
    first: crate::disk::Disk,
    events: Seq<crate::disk::Event>,
)
    requires
        download_happens(download_start(url, dest, via_proxy), first, events),
    ensures
        download_so_far(download_start(url, dest, via_proxy), first, events),
        changes_little(dest, first, crate::disk::disk_after(first, events)),
    decreases events.len(),
{
    let start = download_start(url, dest, via_proxy);
    if events.len() > 0 {
        let before = events.drop_last();
        law_file_is_replaced_whole_or_not_at_all(url, dest, via_proxy, first, before);
        lemma_download_event(url, dest, via_proxy, first, events);
        let place = crate::path::components(dest);
        let temp = crate::path::components(temp_path(dest));
        let old = crate::disk::disk_after(first, before);
        assert forall|key: crate::disk::Key|
            !place.is_prefix_of(key) && !temp.is_prefix_of(key) && !key.is_prefix_of(
                place,
            ) implies (#[trigger] crate::disk::at(events.last().disk, key)) == crate::disk::at(
            first,
            key,
        ) by {
            assert(crate::disk::at(old, key) == crate::disk::at(first, key));
        }
    }
}

/// A body is received only after a status from 200 to 299; with any other the download has
/// failed, and says which status it was and for which URL.
pub proof fn law_only_a_success_is_received(state: DownloadView, reply: Reply)
    requires
        state.phase is Get,
    ensures
        download_step(state, reply).phase is ReadBody <==> reply is Status && 200 <= reply->code
            <= 299,
        match reply {
            Reply::Status { code, text } => code < 200 || code > 299 ==> download_step(
                state,
                reply,
            ).phase == DownloadPhase::<Seq<u8>, Seq<u8>, DownloadFault>::Failed(
                DownloadError::Status { status: text@, url: state.url },
            ),
            _ => true,
        },
{
}

/// Without a status from 200 to 299 a download comes to nothing but a failure.
proof fn lemma_no_success(url: Seq<char>, dest: Seq<u8>, replies: Seq<Reply>)
    requires
        forall|i: int|
            0 <= i < replies.len() && (#[trigger] replies[i]) is Status ==> replies[i]->code < 200
                || replies[i]->code > 299,
    ensures
        ({
            let state = download_run(download_start(url, dest, false), replies);
            state.phase is Get || state.phase is Failed
        }),
    decreases replies.len(),
{
    if replies.len() > 0 {
        let before = replies.drop_last();
        assert forall|i: int|
            0 <= i < before.len() && (#[trigger] before[i]) is Status implies before[i]->code < 200
            || before[i]->code > 299 by {
            assert(before[i] == replies[i]);
        }
        lemma_no_success(url, dest, before);
        assert(replies[replies.len() - 1] == replies.last());
    }
}

/// Unless the server answers with a status from 200 to 299, the file stays as it was, and so
/// does its temporary file, whatever else is answered.
pub proof fn law_file_stays_without_a_success(
    url: Seq<char>,
    dest: Seq<u8>,
    first: crate::disk::Disk,
    events: Seq<crate::disk::Event>,
)
    requires
        download_happens(download_start(url, dest, false), first, events),
        forall|i: int|
            0 <= i < events.len() && (#[trigger] events[i]).reply is Status
                ==> events[i].reply->code < 200 || events[i].reply->code > 299,
    ensures
        crate::disk::at(crate::disk::disk_after(first, events), crate::path::components(dest))
            == crate::disk::at(first, crate::path::components(dest)),
        crate::disk::same(crate::disk::disk_after(first, events), first),
    decreases events.len(),
{
    let start = download_start(url, dest, false);
    if events.len() > 0 {
        let before = events.drop_last();
        assert forall|i: int|
            0 <= i < before.len() && (#[trigger] before[i]).reply is Status implies
            before[i].reply->code < 200 || before[i].reply->code > 299 by {
            assert(before[i] == events[i]);
        }
        law_file_stays_without_a_success(url, dest, first, before);
        let answers = crate::disk::replies(before);
        assert forall|i: int|
            0 <= i < answers.len() && (#[trigger] answers[i]) is Status implies answers[i]->code
            < 200 || answers[i]->code > 299 by {
            assert(answers[i] == before[i].reply);
        }
        lemma_no_success(url, dest, answers);
        assert(download_run(start, answers).phase is Get);
        let old = crate::disk::disk_after(first, before);
        assert forall|key: crate::disk::Key|
            (#[trigger] crate::disk::at(events.last().disk, key)) == crate::disk::at(
                first,
                key,
            ) by {
            assert(crate::disk::at(old, key) == crate::disk::at(first, key));
        }
    }
}

/// A download from the server asks for the URL, giving up after 60 seconds, and, where it is
/// answered with a status from 200 to 299, for the body; one through a proxy asks that for the
/// URL.
pub proof fn law_download_asks_for_its_url(
    url: Seq<char>,
    dest: Seq<u8>,
    code: u16,
    text: String,
)
    requires
        200 <= code <= 299,
    ensures
        download_request(download_start(url, dest, false)) == Some(
            crate::effect::Asked::Get { url, timeout_secs: Some(60) },
        ),
        download_request(
            download_step(download_start(url, dest, false), Reply::Status { code, text }),
        ) == Some(crate::effect::Asked::ReadBody),
        download_request(download_start(url, dest, true)) == Some(
            crate::effect::Asked::GetViaProxy { url },
        ),
{
}

/// Once a body is received, the directory that is to hold the file is created, where the path
/// tells one, the whole body is written to the temporary file, and that is moved over the file.
/// When all this is done the download is done, and says how many bytes were received.
pub proof fn law_received_body_is_put_in_place_whole(state: DownloadView, body: Vec<u8>)
    requires
        state.phase is ReadBody || state.phase is GetViaProxy,
    ensures
        ({
            let parts = crate::path::components(state.dest);
            let received = download_step(state, Reply::Bytes(body));
            let has_parent = parts.len() > 0 && !(parts.last() is RootDir);
            let ready = if has_parent {
                download_step(received, Reply::Done)
            } else {
                received
            };
            let written = download_step(ready, Reply::Done);
            let moved = download_step(written, Reply::Done);
            &&& has_parent ==> match download_request(received) {
                Some(Request::CreateDirAll(above)) => crate::path::components(above)
                    == parts.drop_last(),
                _ => false,
            }
            &&& download_request(ready) == Some(
                crate::effect::Asked::Write { path: state.temp, data: body@ },
            )
            &&& download_request(written) == Some(
                crate::effect::Asked::Rename {
                    from: state.temp,
                    to: state.dest,
                },
            )
            &&& download_request(moved) is None
            &&& moved.phase matches DownloadPhase::Replaced { len } && len == body@.len()
        }),
{
    crate::path::law_parent_drops_last_component(state.dest);
    assert(body@.len() == body.len());
}

/// A download that fails says why, in the words that it was told. Where it had come to write
/// the temporary file it asks for its removal first, and fails alike whether that succeeds or
/// not.
pub proof fn law_failure_says_why(
    state: DownloadView,
    text: String,
    later: Reply,
)
    requires
        later is Done || later is Failed,
        download_request(state) is Some,
        !(state.phase is Remove),
    ensures
        ({
            let next = download_step(state, Reply::Failed(text));
            let told = DownloadPhase::<Seq<u8>, Seq<u8>, DownloadFault>::Failed(
                if state.phase is Rename {
                    DownloadError::Rename { from: state.temp, to: state.dest, text: text@ }
                } else {
                    DownloadError::Failed(text@)
                },
            );
            if state.phase is Write || state.phase is Rename {
                &&& download_request(next) == Some(
                    crate::effect::Asked::RemoveFile(state.temp),
                )
                &&& download_step(next, later).phase == told
            } else {
                next.phase == told
            }
        }),
{
}

/// What stays of a name in that of the temporary file.
proof fn lemma_temp_name(dest: Seq<u8>)
    requires
        crate::path::file_name(dest) is Some,
    ensures
        ({
            let name = crate::path::file_name(dest)->0;
            let dots = crate::path::stem(name).push(0x2eu8);
            crate::path::components(temp_path(dest)) == crate::path::components(
                dest,
            ).drop_last().push(
                crate::path::Component::Normal(
                    if crate::path::extension(dest) == Some(seq![0x74u8, 0x6du8, 0x70u8]) {
                        dots + seq![0x74u8, 0x6du8, 0x70u8, 0x2eu8, 0x74u8, 0x6du8, 0x70u8]
                    } else {
                        dots + seq![0x74u8, 0x6du8, 0x70u8]
                    },
                ),
            )
        }),
{
    reveal_strlit("tmp");
    reveal_strlit("tmp.tmp");
    vstd::utf8::is_ascii_chars_encode_utf8("tmp"@);
    vstd::utf8::is_ascii_chars_encode_utf8("tmp.tmp"@);
    assert(vstd::utf8::encode_utf8("tmp"@) =~= seq![0x74u8, 0x6du8, 0x70u8]);
    assert(vstd::utf8::encode_utf8("tmp.tmp"@) =~= seq![
        0x74u8,
        0x6du8,
        0x70u8,
        0x2eu8,
        0x74u8,
        0x6du8,
        0x70u8,
    ]);
    let extension = temp_extension(dest);
    assert forall|i: int| 0 <= i < extension.len() implies extension[i]
        != crate::path::SEPARATOR by {}
    crate::path::law_with_extension_is_a_sibling(dest, extension);
}

/// The temporary file of one whose name is `front`, a `.` and `end` is `front.tmp`, in the
/// same directory; where `end` is `tmp` itself it is `front.tmp.tmp`.
pub proof fn law_extension_gives_way_to_tmp(dest: Seq<u8>, front: Seq<u8>, end: Seq<u8>)
    requires
        crate::path::components(dest).len() > 0,
        crate::path::components(dest).last() == crate::path::Component::Normal(
            front.push(0x2eu8) + end,
        ),
        front.len() > 0,
        !end.contains(0x2eu8),
    ensures
        crate::path::components(temp_path(dest)) == crate::path::components(
            dest,
        ).drop_last().push(
            crate::path::Component::Normal(
                if end == seq![0x74u8, 0x6du8, 0x70u8] {
                    front + seq![0x2eu8, 0x74u8, 0x6du8, 0x70u8, 0x2eu8, 0x74u8, 0x6du8, 0x70u8]
                } else {
                    front + seq![0x2eu8, 0x74u8, 0x6du8, 0x70u8]
                },
            ),
        ),
{
    lemma_temp_name(dest);
    crate::path::law_extension_follows_the_last_dot(dest, front, end);
    let name = front.push(0x2eu8) + end;
    let dots = crate::path::stem(name).push(0x2eu8);
    crate::path::lemma_last_dot_at(front, end);
    assert(crate::path::stem(name) =~= front);
    assert(dots + seq![0x74u8, 0x6du8, 0x70u8] =~= front + seq![0x2eu8, 0x74u8, 0x6du8, 0x70u8]);
    assert(dots + seq![0x74u8, 0x6du8, 0x70u8, 0x2eu8, 0x74u8, 0x6du8, 0x70u8] =~= front + seq![
        0x2eu8,
        0x74u8,
        0x6du8,
        0x70u8,
        0x2eu8,
        0x74u8,
        0x6du8,
        0x70u8,
    ]);
}

/// The temporary file of one whose name has no extension is that name and `.tmp`, in the same
/// directory.
pub proof fn law_tmp_is_added_where_there_is_no_extension(dest: Seq<u8>, name: Seq<u8>)
    requires
        crate::path::components(dest).len() > 0,
        crate::path::components(dest).last() == crate::path::Component::Normal(name),
        forall|i: int| 0 < i < name.len() ==> name[i] != 0x2e,
    ensures
        crate::path::components(temp_path(dest)) == crate::path::components(
            dest,
        ).drop_last().push(
            crate::path::Component::Normal(name + seq![0x2eu8, 0x74u8, 0x6du8, 0x70u8]),
        ),
{
    lemma_temp_name(dest);
    crate::path::law_no_extension_without_a_dot(dest);
    crate::path::lemma_no_dot(name);
    assert(name.push(0x2eu8) + seq![0x74u8, 0x6du8, 0x70u8] =~= name + seq![
        0x2eu8,
        0x74u8,
        0x6du8,
        0x70u8,
    ]);
}

/// What is said where the server did not answer with the file holds, whole and in this order,
/// the status and the URL.
pub proof fn law_status_text_holds_the_status_and_the_url(status: Seq<char>, url: Seq<char>)
    ensures
        ({
            let text = download_fault_text(DownloadError::Status { status, url });
            let end = 5 + status.len() as int;
            &&& text.len() == end + 10 + url.len()
            &&& text.take(5) == "HTTP "@
            &&& text.subrange(5, end) == status
            &&& text.subrange(end, end + 10) == " fetching "@
            &&& text.skip(end + 10) == url
        }),
{
    reveal_strlit("HTTP ");
    reveal_strlit(" fetching ");
    let text = download_fault_text(DownloadError::Status { status, url });
    let end = 5 + status.len() as int;
    assert(text.take(5) =~= "HTTP "@);
    assert(text.subrange(5, end) =~= status);
    assert(text.subrange(end, end + 10) =~= " fetching "@);
    assert(text.skip(end + 10) =~= url);
}

/// What is said where the new file could not be put in the place of the old one holds, whole
/// and in this order, the two paths, as they are shown, and the cause. Of any other failure
/// the cause alone is told.
pub proof fn law_rename_text_holds_the_paths_and_the_cause(
    from: Seq<u8>,
    to: Seq<u8>,
    cause: Seq<char>,
)
    ensures
        ({
            let text = download_fault_text(DownloadError::Rename { from, to, text: cause });
            let first = crate::text::lossy_text(from);
            let second = crate::text::lossy_text(to);
            let end = 14 + first.len() as int;
            let last = end + 3 + second.len() as int;
            &&& text.len() == last + 2 + cause.len()
            &&& text.take(14) == "atomic rename "@
            &&& text.subrange(14, end) == first
            &&& text.subrange(end, end + 3) == " → "@
            &&& text.subrange(end + 3, last) == second
            &&& text.subrange(last, last + 2) == ": "@
            &&& text.skip(last + 2) == cause
        }),
        download_fault_text(DownloadError::Failed(cause)) == cause,
{
    reveal_strlit("atomic rename ");
    reveal_strlit(" → ");
    reveal_strlit(": ");
    let text = download_fault_text(DownloadError::Rename { from, to, text: cause });
    let first = crate::text::lossy_text(from);
    let second = crate::text::lossy_text(to);
    let end = 14 + first.len() as int;
    let last = end + 3 + second.len() as int;
    assert(text.take(14) =~= "atomic rename "@);
    assert(text.subrange(14, end) =~= first);
    assert(text.subrange(end, end + 3) =~= " → "@);
    assert(text.subrange(end + 3, last) =~= second);
    assert(text.subrange(last, last + 2) =~= ": "@);
    assert(text.skip(last + 2) =~= cause);
}

/// An answer to something else than what was asked for changes nothing, and no answer changes
/// what is downloaded to where.
pub proof fn law_other_answers_change_nothing(state: DownloadView, reply: Reply)
    ensures
        !download_fits(state, reply) ==> download_step(state, reply) == state,
        download_step(state, reply).url == state.url,
        download_step(state, reply).dest == state.dest,
        download_step(state, reply).temp == state.temp,
{
}

} // verus!
