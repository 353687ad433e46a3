//! Answering requests for the files of the web interface.
use crate::effect::{Reply, Request};
use crate::path::{same_bytes, Component, UnixPath};
use crate::ui::assets::{ExternalUiAssets, UiAssets};
use crate::ui::percent::percent_decode_utf8;
use vstd::prelude::*;

verus! {

/// What is answered to a request.
#[derive(Debug, PartialEq, Eq)]
pub enum UiReply<T, D> {
    /// The built-in page.
    BuiltInPage,
    /// A temporary redirect.
    Redirect(T),
    /// A file.
    File { content_type: T, body: D },
    /// A status without a body.
    Status(u16),
    /// A status and a text.
    Error { code: u16, text: T },
}

impl View for UiReply<String, Vec<u8>> {
    type V = Answer;

    open spec fn view(&self) -> Answer {
        match self {
            UiReply::BuiltInPage => UiReply::BuiltInPage,
            UiReply::Redirect(to) => UiReply::Redirect(to@),
            UiReply::File { content_type, body } => UiReply::File {
                content_type: content_type@,
                body: body@,
            },
            UiReply::Status(code) => UiReply::Status(*code),
            UiReply::Error { code, text } => UiReply::Error { code: *code, text: text@ },
        }
    }
}

/// What an answer stands for.
pub type Answer = UiReply<Seq<char>, Seq<u8>>;

/// Status code of a request that is malformed.
pub const BAD_REQUEST: u16 = 400;

/// Status code of a request that is refused.
pub const FORBIDDEN: u16 = 403;

/// Status code of a request for something that is not there.
pub const NOT_FOUND: u16 = 404;

/// Status code of a request that could not be answered.
pub const INTERNAL_SERVER_ERROR: u16 = 500;

/// Whether an extension is the one that a text spells.
pub open spec fn spells(extension: Option<Seq<u8>>, text: Seq<char>) -> bool {
    extension == Some(vstd::utf8::encode_utf8(text))
}

/// The content type of a file with an extension.
pub open spec fn content_type(extension: Option<Seq<u8>>) -> Seq<char> {
    if spells(extension, "html"@) {
        "text/html; charset=utf-8"@
    } else if spells(extension, "js"@) || spells(extension, "mjs"@) {
        "text/javascript; charset=utf-8"@
    } else if spells(extension, "css"@) {
        "text/css; charset=utf-8"@
    } else if spells(extension, "json"@) {
        "application/json"@
    } else if spells(extension, "svg"@) {
        "image/svg+xml"@
    } else if spells(extension, "png"@) {
        "image/png"@
    } else if spells(extension, "jpg"@) || spells(extension, "jpeg"@) {
        "image/jpeg"@
    } else if spells(extension, "webp"@) {
        "image/webp"@
    } else if spells(extension, "ico"@) {
        "image/x-icon"@
    } else if spells(extension, "wasm"@) {
        "application/wasm"@
    } else {
        "application/octet-stream"@
    }
}

/// The content type of a file, which the extension of its name tells.
pub fn content_type_for(path: &UnixPath) -> (res: &'static str)
    ensures
        res@ == content_type(crate::path::extension(path@)),
{
    let extension = match path.extension() {
        Some(extension) => extension,
        None => return "application/octet-stream",
    };
    let bytes = extension.as_slice();
    if same_bytes(bytes, "html".as_bytes()) {
        "text/html; charset=utf-8"
    } else if same_bytes(bytes, "js".as_bytes()) || same_bytes(bytes, "mjs".as_bytes()) {
        "text/javascript; charset=utf-8"
    } else if same_bytes(bytes, "css".as_bytes()) {
        "text/css; charset=utf-8"
    } else if same_bytes(bytes, "json".as_bytes()) {
        "application/json"
    } else if same_bytes(bytes, "svg".as_bytes()) {
        "image/svg+xml"
    } else if same_bytes(bytes, "png".as_bytes()) {
        "image/png"
    } else if same_bytes(bytes, "jpg".as_bytes()) || same_bytes(bytes, "jpeg".as_bytes()) {
        "image/jpeg"
    } else if same_bytes(bytes, "webp".as_bytes()) {
        "image/webp"
    } else if same_bytes(bytes, "ico".as_bytes()) {
        "image/x-icon"
    } else if same_bytes(bytes, "wasm".as_bytes()) {
        "application/wasm"
    } else {
        "application/octet-stream"
    }
}

/// The names among the components of a path, in order.
pub open spec fn names_of(parts: Seq<Component<Seq<u8>>>) -> Seq<Seq<u8>>
    decreases parts.len(),
{
    if parts.len() == 0 {
        Seq::empty()
    } else {
        match parts.last() {
            Component::Normal(name) => names_of(parts.drop_last()).push(name),
            _ => names_of(parts.drop_last()),
        }
    }
}

/// Names followed one after the other from the empty path.
pub open spec fn joined(names: Seq<Seq<u8>>) -> Seq<u8>
    decreases names.len(),
{
    if names.len() == 0 {
        Seq::empty()
    } else {
        crate::path::join(joined(names.drop_last()), names.last())
    }
}

/// Whether a component leads anywhere but downwards.
pub open spec fn leads_away(part: Component<Seq<u8>>) -> bool {
    part is ParentDir || part is RootDir
}

/// The path that a request for `path` is for: its names; none where it starts at the root
/// or holds a `..`.
pub open spec fn clean(path: Seq<u8>) -> Option<Seq<u8>> {
    let parts = crate::path::components(path);
    if exists|i: int| 0 <= i < parts.len() && leads_away(#[trigger] parts[i]) {
        None
    } else {
        Some(joined(names_of(parts)))
    }
}

/// The path that a request for `rest` is for, if it leads nowhere but downwards.
pub fn clean_request_path(rest: &str) -> (res: Result<UnixPath, ()>)
    ensures
        match res {
            Ok(path) => clean(vstd::utf8::encode_utf8(rest@)) == Some(path@),
            Err(()) => clean(vstd::utf8::encode_utf8(rest@)) is None,
        },
{
    let path = UnixPath::from_text(rest);
    let parts = path.components();
    let ghost all = crate::path::components(path@);
    let mut out = UnixPath { bytes: Vec::new() };
    assert(all.take(0) =~= Seq::empty());
    assert(out@ =~= joined(names_of(all.take(0))));
    for i in 0..parts.len()
        invariant
            all == crate::path::components(path@),
            path@ == vstd::utf8::encode_utf8(rest@),
            crate::path::component_views(parts@) == all,
            out@ == joined(names_of(all.take(i as int))),
            forall|j: int| 0 <= j < i ==> !leads_away(#[trigger] all[j]),
    {
        assert(parts@[i as int]@ == all[i as int]);
        assert(all.take(i + 1).drop_last() =~= all.take(i as int));
        match &parts[i] {
            Component::Normal(name) => {
                out = out.join(name.as_slice());
                proof {
                    let before = names_of(all.take(i as int));
                    assert(names_of(all.take(i + 1)).drop_last() =~= before);
                }
            },
            Component::CurDir => {},
            Component::ParentDir | Component::RootDir => {
                assert(leads_away(all[i as int]));
                return Err(());
            },
        }
    }
    assert(all.take(all.len() as int) =~= all);
    Ok(out)
}

/// Why a file is not served.
#[derive(Debug, PartialEq, Eq)]
pub enum FileServeError {
    NotFound,
    Forbidden,
    Io(String),
}

/// The answer that says why a file is not served.
pub open spec fn error_answer(error: FileServeError) -> Answer {
    match error {
        FileServeError::NotFound => UiReply::Status(NOT_FOUND),
        FileServeError::Forbidden => UiReply::Status(FORBIDDEN),
        FileServeError::Io(text) => UiReply::Error { code: INTERNAL_SERVER_ERROR, text: text@ },
    }
}

impl FileServeError {
    /// The answer that says so.
    pub fn into_response(self) -> (reply: UiReply<String, Vec<u8>>)
        ensures
            reply@ == error_answer(self),
    {
        match self {
            FileServeError::NotFound => UiReply::Status(NOT_FOUND),
            FileServeError::Forbidden => UiReply::Status(FORBIDDEN),
            FileServeError::Io(text) => UiReply::Error { code: INTERNAL_SERVER_ERROR, text },
        }
    }
}

/// How far the serving of a file has come, or how it ended.
///
/// A file is served only where it is found to lie in `root` once both are resolved.
#[derive(Debug, PartialEq, Eq)]
pub enum FileServe<P, T, D> {
    /// Resolve the directory.
    ResolveRoot { root: P, file: P },
    /// Find out whether the file is there; `root` is resolved from here on.
    Stat { root: P, file: P },
    /// Resolve the file.
    ResolveFile { root: P, file: P },
    /// Read the file, which is resolved now.
    Read { root: P, file: P },
    /// The file is served.
    Served { content_type: T, body: D },
    /// It is not there.
    NotFound,
    /// It lies outside of the directory.
    Forbidden,
    /// It could not be read.
    Unreadable(T),
}

impl View for FileServe<UnixPath, String, Vec<u8>> {
    type V = FileServe<Seq<u8>, Seq<char>, Seq<u8>>;

    open spec fn view(&self) -> FileServe<Seq<u8>, Seq<char>, Seq<u8>> {
        match self {
            FileServe::ResolveRoot { root, file } => FileServe::ResolveRoot {
                root: root@,
                file: file@,
            },
            FileServe::Stat { root, file } => FileServe::Stat { root: root@, file: file@ },
            FileServe::ResolveFile { root, file } => FileServe::ResolveFile {
                root: root@,
                file: file@,
            },
            FileServe::Read { root, file } => FileServe::Read { root: root@, file: file@ },
            FileServe::Served { content_type, body } => FileServe::Served {
                content_type: content_type@,
                body: body@,
            },
            FileServe::NotFound => FileServe::NotFound,
            FileServe::Forbidden => FileServe::Forbidden,
            FileServe::Unreadable(text) => FileServe::Unreadable(text@),
        }
    }
}

/// The state of the serving of a file.
pub type FileState = FileServe<Seq<u8>, Seq<char>, Seq<u8>>;

/// The serving of a file at its start.
pub open spec fn file_start(root: Seq<u8>, file: Seq<u8>) -> FileState {
    FileServe::ResolveRoot { root, file }
}

/// What the serving of a file asks for.
pub open spec fn file_request(state: FileState) -> Option<crate::effect::Asked> {
    match state {
        FileServe::ResolveRoot { root, .. } => Some(Request::Canonicalize(root)),
        FileServe::Stat { file, .. } => Some(Request::Metadata(file)),
        FileServe::ResolveFile { file, .. } => Some(Request::Canonicalize(file)),
        FileServe::Read { file, .. } => Some(Request::Read(file)),
        _ => None,
    }
}

/// What the serving of a file does with the answer to what it asked for. Any other answer
/// leaves it as it is.
pub open spec fn file_step(state: FileState, reply: Reply) -> FileState {
    match (state, reply) {
        (FileServe::ResolveRoot { file, .. }, Reply::Path(root)) => FileServe::Stat {
            root: root@,
            file,
        },
        (FileServe::ResolveRoot { .. }, Reply::Failed(_)) => FileServe::NotFound,
        (FileServe::Stat { root, file }, Reply::Flag(is_dir)) => if is_dir {
            FileServe::NotFound
        } else {
            FileServe::ResolveFile { root, file }
        },
        (FileServe::Stat { .. }, Reply::Failed(_)) => FileServe::NotFound,
        (FileServe::ResolveFile { root, .. }, Reply::Path(file)) => if crate::path::lies_within(
            file@,
            root,
        ) {
            FileServe::Read { root, file: file@ }
        } else {
            FileServe::Forbidden
        },
        (FileServe::ResolveFile { .. }, Reply::Failed(_)) => FileServe::NotFound,
        (FileServe::Read { file, .. }, Reply::Bytes(body)) => FileServe::Served {
            content_type: content_type(crate::path::extension(file)),
            body: body@,
        },
        (FileServe::Read { .. }, Reply::Failed(text)) => FileServe::Unreadable(text@),
        _ => state,
    }
}

impl FileServe<UnixPath, String, Vec<u8>> {
    /// The serving of `file`, if it lies in `root`.
    pub fn new(root: UnixPath, file: UnixPath) -> (state: Self)
        ensures
            state@ == file_start(root@, file@),
    {
        FileServe::ResolveRoot { root, file }
    }

    /// What is to be done next; nothing where the serving has ended.
    pub fn request(&self) -> (request: Option<Request<&UnixPath, &Vec<u8>, &String>>)
        ensures
            crate::effect::asks(request, file_request(self@)),
    {
        match self {
            FileServe::ResolveRoot { root, .. } => Some(Request::Canonicalize(root)),
            FileServe::Stat { file, .. } => Some(Request::Metadata(file)),
            FileServe::ResolveFile { file, .. } => Some(Request::Canonicalize(file)),
            FileServe::Read { file, .. } => Some(Request::Read(file)),
            _ => None,
        }
    }

    /// Takes the answer to what was asked for.
    pub fn step(self, reply: Reply) -> (next: Self)
        ensures
            next@ == file_step(self@, reply),
    {
        match (self, reply) {
            (FileServe::ResolveRoot { file, .. }, Reply::Path(root)) => FileServe::Stat {
                root,
                file,
            },
            (FileServe::ResolveRoot { .. }, Reply::Failed(_)) => FileServe::NotFound,
            (FileServe::Stat { root, file }, Reply::Flag(is_dir)) => if is_dir {
                FileServe::NotFound
            } else {
                FileServe::ResolveFile { root, file }
            },
            (FileServe::Stat { .. }, Reply::Failed(_)) => FileServe::NotFound,
            (FileServe::ResolveFile { root, .. }, Reply::Path(file)) => if file.lies_within(
                &root,
            ) {
                FileServe::Read { root, file }
            } else {
                FileServe::Forbidden
            },
            (FileServe::ResolveFile { .. }, Reply::Failed(_)) => FileServe::NotFound,
            (FileServe::Read { file, .. }, Reply::Bytes(body)) => FileServe::Served {
                content_type: content_type_for(&file).to_owned(),
                body,
            },
            (FileServe::Read { .. }, Reply::Failed(text)) => FileServe::Unreadable(text),
            (state, _) => state,
        }
    }
}

/// The name of the page that is served for a directory.
pub open spec fn index_page() -> Seq<u8> {
    vstd::utf8::encode_utf8("index.html"@)
}

/// The serving of a request, with the page `index.html` of `base` in the place of a file
/// that is not there, where the request may be for a view of the page.
#[derive(Debug, PartialEq, Eq)]
pub struct Serve {
    pub base: UnixPath,
    pub may_fall_back: bool,
    pub attempt: FileServe<UnixPath, String, Vec<u8>>,
}

/// The state of the serving of a request.
pub struct ServeView {
    pub base: Seq<u8>,
    pub may_fall_back: bool,
    pub attempt: FileState,
}

impl View for Serve {
    type V = ServeView;

    open spec fn view(&self) -> ServeView {
        ServeView {
            base: self.base@,
            may_fall_back: self.may_fall_back,
            attempt: self.attempt@,
        }
    }
}

/// What the serving of a request does with the answer to what it asked for.
pub open spec fn serve_step(state: ServeView, reply: Reply) -> ServeView {
    let attempt = file_step(state.attempt, reply);
    if attempt is NotFound && state.may_fall_back {
        ServeView {
            may_fall_back: false,
            attempt: file_start(state.base, crate::path::join(state.base, index_page())),
            ..state
        }
    } else {
        ServeView { attempt, ..state }
    }
}

/// The answer to a request, once its serving has ended.
pub open spec fn serve_reply(state: ServeView) -> Option<Answer> {
    match state.attempt {
        FileServe::Served { content_type, body } => Some(UiReply::File { content_type, body }),
        FileServe::NotFound => Some(UiReply::Status(NOT_FOUND)),
        FileServe::Forbidden => Some(UiReply::Status(FORBIDDEN)),
        FileServe::Unreadable(text) => Some(
            UiReply::Error { code: INTERNAL_SERVER_ERROR, text },
        ),
        _ => None,
    }
}

/// The file of `base` that a request for the clean path `rel` is for.
pub open spec fn requested(base: Seq<u8>, rel: Seq<u8>) -> Seq<u8> {
    if rel.len() == 0 {
        crate::path::join(base, index_page())
    } else {
        crate::path::join(base, rel)
    }
}

/// What is done about a request.
#[derive(Debug, PartialEq, Eq)]
pub enum Serving<R, S> {
    /// It is answered at once.
    Reply(R),
    /// It takes some work.
    Work(S),
}

impl View for Serving<UiReply<String, Vec<u8>>, Serve> {
    type V = Serving<Answer, ServeView>;

    open spec fn view(&self) -> Serving<Answer, ServeView> {
        match self {
            Serving::Reply(reply) => Serving::Reply(reply@),
            Serving::Work(serve) => Serving::Work(serve@),
        }
    }
}

/// What is done about a request for `decoded` below `base`.
pub open spec fn serving_decoded(base: Seq<u8>, decoded: Seq<u8>) -> Serving<Answer, ServeView> {
    match clean(decoded) {
        None => Serving::Reply(UiReply::Status(FORBIDDEN)),
        Some(rel) => Serving::Work(
            ServeView {
                base,
                may_fall_back: crate::path::extension(rel) is None,
                attempt: file_start(base, requested(base, rel)),
            },
        ),
    }
}

/// What is done about a request for `rest`, percent-encoded, below `base`.
pub open spec fn serving(base: Seq<u8>, rest: Seq<char>) -> Serving<Answer, ServeView> {
    let decoded = crate::ui::percent::percent_decoded(vstd::utf8::encode_utf8(rest));
    if vstd::utf8::valid_utf8(decoded) {
        serving_decoded(base, decoded)
    } else {
        Serving::Reply(UiReply::Status(BAD_REQUEST))
    }
}

/// What is done about a request for `decoded` below `base`.
pub fn serve_decoded(base: &UnixPath, decoded: &str) -> (res: Serving<
    UiReply<String, Vec<u8>>,
    Serve,
>)
    ensures
        res@ == serving_decoded(base@, vstd::utf8::encode_utf8(decoded@)),
{
    let rel = match clean_request_path(decoded) {
        Ok(rel) => rel,
        Err(()) => return Serving::Reply(UiReply::Status(FORBIDDEN)),
    };
    let file = if rel.is_empty() {
        base.join("index.html".as_bytes())
    } else {
        base.join(rel.bytes.as_slice())
    };
    Serving::Work(
        Serve {
            base: base.copied(),
            may_fall_back: rel.extension().is_none(),
            attempt: FileServe::new(base.copied(), file),
        },
    )
}

/// What is done about a request for `rest`, percent-encoded, where the web interface is
/// kept in a directory.
pub fn serve_external(external: &ExternalUiAssets, rest: &str) -> (res: Serving<
    UiReply<String, Vec<u8>>,
    Serve,
>)
    ensures
        res@ == serving(external.path@, rest@),
{
    match percent_decode_utf8(rest) {
        Some(decoded) => {
            proof {
                vstd::utf8::encode_utf8_valid_utf8(decoded@);
            }
            serve_decoded(&external.path, decoded.as_str())
        },
        None => Serving::Reply(UiReply::Status(BAD_REQUEST)),
    }
}

impl Serve {
    /// What is to be done next; nothing where the serving has ended.
    pub fn request(&self) -> (request: Option<Request<&UnixPath, &Vec<u8>, &String>>)
        ensures
            crate::effect::asks(request, file_request(self@.attempt)),
    {
        self.attempt.request()
    }

    /// Takes the answer to what was asked for.
    pub fn step(self, reply: Reply) -> (next: Serve)
        ensures
            next@ == serve_step(self@, reply),
    {
        let Serve { base, may_fall_back, attempt } = self;
        let attempt = attempt.step(reply);
        match (attempt, may_fall_back) {
            (FileServe::NotFound, true) => {
                let file = base.join("index.html".as_bytes());
                let attempt = FileServe::new(base.copied(), file);
                Serve { base, may_fall_back: false, attempt }
            },
            (attempt, _) => Serve { base, may_fall_back, attempt },
        }
    }

    /// The answer to the request; none while there is something to be done.
    pub fn reply(self) -> (reply: Option<UiReply<String, Vec<u8>>>)
        ensures
            match reply {
                Some(answer) => serve_reply(self@) == Some(answer@),
                None => serve_reply(self@) is None,
            },
    {
        match self.attempt {
            FileServe::Served { content_type, body } => Some(UiReply::File { content_type, body }),
            FileServe::NotFound => Some(FileServeError::NotFound.into_response()),
            FileServe::Forbidden => Some(FileServeError::Forbidden.into_response()),
            FileServe::Unreadable(text) => Some(FileServeError::Io(text).into_response()),
            _ => None,
        }
    }
}

/// What is answered at the root.
pub open spec fn root_answer(assets: UiAssets) -> Answer {
    match assets {
        UiAssets::BuiltIn => UiReply::BuiltInPage,
        UiAssets::External(_) => UiReply::Redirect("/ui/"@),
    }
}

/// What is done about a request below the root.
pub open spec fn path_serving(assets: UiAssets, rest: Seq<char>) -> Serving<Answer, ServeView> {
    match assets {
        UiAssets::BuiltIn => Serving::Reply(UiReply::BuiltInPage),
        UiAssets::External(external) => serving(external.path@, rest),
    }
}

/// What is answered at the root: the built-in page, or the way to the one that is kept in
/// a directory.
pub fn serve_ui_root(assets: &UiAssets) -> (reply: UiReply<String, Vec<u8>>)
    ensures
        reply@ == root_answer(*assets),
{
    match assets {
        UiAssets::BuiltIn => UiReply::BuiltInPage,
        UiAssets::External(_) => UiReply::Redirect("/ui/".to_owned()),
    }
}

/// What is done about a request for the page.
pub fn serve_ui_index(assets: &UiAssets) -> (res: Serving<UiReply<String, Vec<u8>>, Serve>)
    ensures
        res@ == path_serving(*assets, ""@),
{
    match assets {
        UiAssets::BuiltIn => Serving::Reply(UiReply::BuiltInPage),
        UiAssets::External(external) => serve_external(external, ""),
    }
}

/// What is done about a request for something below the page.
pub fn serve_ui_path(assets: &UiAssets, rest: &str) -> (res: Serving<
    UiReply<String, Vec<u8>>,
    Serve,
>)
    ensures
        res@ == path_serving(*assets, rest@),
{
    match assets {
        UiAssets::BuiltIn => Serving::Reply(UiReply::BuiltInPage),
        UiAssets::External(external) => serve_external(external, rest),
    }
}

/// The components that names stand for.
pub open spec fn as_components(names: Seq<Seq<u8>>) -> Seq<Component<Seq<u8>>> {
    names.map_values(|name: Seq<u8>| Component::Normal(name))
}

/// Ordinary names, followed one after the other, are the components of where they lead.
proof fn lemma_joined_components(names: Seq<Seq<u8>>)
    requires
        forall|i: int| 0 <= i < names.len() ==> crate::path::is_plain_name(#[trigger] names[i]),
    ensures
        crate::path::components(joined(names)) == as_components(names),
    decreases names.len(),
{
    if names.len() == 0 {
        crate::path::lemma_empty_path(joined(names));
        assert(as_components(names) =~= Seq::empty());
    } else {
        let before = names.drop_last();
        assert forall|i: int| 0 <= i < before.len() implies crate::path::is_plain_name(
            #[trigger] before[i],
        ) by {
            assert(before[i] == names[i]);
        }
        lemma_joined_components(before);
        assert(crate::path::is_plain_name(names[names.len() - 1]));
        crate::path::law_join_plain_name(joined(before), names.last());
        assert(as_components(names) =~= as_components(before).push(
            Component::Normal(names.last()),
        ));
    }
}

/// The names among components that carry ordinary names are ordinary names.
proof fn lemma_names_are_plain(parts: Seq<Component<Seq<u8>>>)
    requires
        forall|i: int|
            0 <= i < parts.len() && (#[trigger] parts[i]) is Normal ==> crate::path::is_plain_name(
                parts[i]->Normal_0,
            ),
    ensures
        forall|i: int|
            0 <= i < names_of(parts).len() ==> crate::path::is_plain_name(
                #[trigger] names_of(parts)[i],
            ),
    decreases parts.len(),
{
    if parts.len() > 0 {
        let before = parts.drop_last();
        assert forall|i: int|
            0 <= i < before.len() && (#[trigger] before[i]) is Normal
            implies crate::path::is_plain_name(before[i]->Normal_0) by {
            assert(before[i] == parts[i]);
        }
        lemma_names_are_plain(before);
        assert(parts[parts.len() - 1] == parts.last());
        assert forall|i: int| 0 <= i < names_of(parts).len() implies crate::path::is_plain_name(
            #[trigger] names_of(parts)[i],
        ) by {
            if i < names_of(before).len() {
                assert(names_of(parts)[i] == names_of(before)[i]);
            }
        }
    }
}

/// Names are what is left of the components that they stand for.
proof fn lemma_names_of_names(names: Seq<Seq<u8>>)
    ensures
        names_of(as_components(names)) == names,
    decreases names.len(),
{
    if names.len() > 0 {
        lemma_names_of_names(names.drop_last());
        assert(as_components(names).drop_last() =~= as_components(names.drop_last()));
        assert(names_of(as_components(names)) =~= names);
    } else {
        assert(names_of(as_components(names)) =~= names);
    }
}

/// The clean path of a request consists of the names in it and nothing else: no `..`, no
/// root, no `.`.
pub proof fn law_clean_path_holds_names_only(path: Seq<u8>)
    ensures
        match clean(path) {
            Some(rel) => crate::path::components(rel) == as_components(
                names_of(crate::path::components(path)),
            ),
            None => true,
        },
{
    crate::path::law_component_names_are_plain(path);
    lemma_names_are_plain(crate::path::components(path));
    lemma_joined_components(names_of(crate::path::components(path)));
}

/// A clean path is its own clean path.
pub proof fn law_clean_is_idempotent(path: Seq<u8>)
    ensures
        match clean(path) {
            Some(rel) => clean(rel) == Some(rel),
            None => true,
        },
{
    law_clean_path_holds_names_only(path);
    if let Some(rel) = clean(path) {
        let names = names_of(crate::path::components(path));
        lemma_names_of_names(names);
        let parts = crate::path::components(rel);
        assert forall|i: int| 0 <= i < parts.len() implies !leads_away(#[trigger] parts[i]) by {
            assert(parts[i] == Component::Normal(names[i]));
        }
    }
}

/// The page's name is an ordinary name.
proof fn lemma_index_page_is_plain()
    ensures
        crate::path::is_plain_name(index_page()),
{
    reveal_strlit("index.html");
    vstd::utf8::is_ascii_chars_encode_utf8("index.html"@);
    let name = index_page();
    assert(name.len() == 10);
    assert forall|i: int| 0 <= i < name.len() implies name[i] != crate::path::SEPARATOR by {
        assert(name[i] == "index.html"@[i] as u8);
    }
}

/// The file that a request is for lies below `base`, through ordinary names only,
/// whatever the request holds.
pub proof fn law_requested_file_lies_below_base(base: Seq<u8>, path: Seq<u8>)
    ensures
        match clean(path) {
            Some(rel) => crate::path::is_below(base, requested(base, rel)),
            None => true,
        },
{
    law_clean_path_holds_names_only(path);
    if let Some(rel) = clean(path) {
        let first = crate::path::components(base);
        let all = crate::path::components(requested(base, rel));
        if rel.len() == 0 {
            lemma_index_page_is_plain();
            crate::path::law_join_plain_name(base, index_page());
        } else {
            let own = crate::path::components(rel);
            let names = names_of(crate::path::components(path));
            assert forall|i: int| 0 <= i < own.len() implies #[trigger] own[i] is Normal by {
                assert(own[i] == Component::Normal(names[i]));
            }
            if names.len() == 0 {
                assert(rel.len() == 0);
            }
            assert(own.len() > 0);
            if crate::path::lead(rel).len() > 0 {
                assert(own[0] == crate::path::lead(rel)[0]);
            }
            assert(own =~= crate::path::segment_parts(crate::path::segments(rel)));
            assert(!crate::path::is_absolute(rel));
            if base.len() > 0 {
                crate::path::lemma_join_components(base, rel);
                assert(all =~= first + own);
            } else {
                crate::path::lemma_empty_path(base);
                assert(crate::path::join(base, rel) =~= rel);
                assert(all =~= first + own);
            }
        }
        assert(first =~= all.subrange(0, first.len() as int));
    }
}

/// A request whose path, once decoded, starts at the root or holds a `..` is refused, and
/// nothing is asked for.
pub proof fn law_traversal_is_forbidden(base: Seq<u8>, rest: Seq<char>, at: int)
    requires
        ({
            let decoded = crate::ui::percent::percent_decoded(vstd::utf8::encode_utf8(rest));
            &&& vstd::utf8::valid_utf8(decoded)
            &&& 0 <= at < crate::path::components(decoded).len()
            &&& leads_away(crate::path::components(decoded)[at])
        }),
    ensures
        serving(base, rest) == Serving::<Answer, ServeView>::Reply(UiReply::Status(FORBIDDEN)),
{
}

/// Whether a file that is read lies in the directory.
pub open spec fn file_is_confined(state: FileState) -> bool {
    match state {
        FileServe::Read { root, file } => crate::path::lies_within(file, root),
        _ => true,
    }
}

/// Whatever the outside answers, a file is read only where its resolved path lies in the
/// resolved directory.
pub proof fn law_only_files_in_the_directory_are_read(state: ServeView, reply: Reply)
    requires
        file_is_confined(state.attempt),
    ensures
        file_is_confined(serve_step(state, reply).attempt),
        forall|root: Seq<u8>, file: Seq<u8>| file_is_confined(#[trigger] file_start(root, file)),
        match file_request(state.attempt) {
            Some(Request::Read(path)) => state.attempt is Read && crate::path::lies_within(
                path,
                state.attempt->Read_root,
            ),
            _ => true,
        },
{
}

/// How many answers the serving of a request can still take.
pub open spec fn answers_left(state: ServeView) -> nat {
    let attempt: nat = match state.attempt {
        FileServe::ResolveRoot { .. } => 4,
        FileServe::Stat { .. } => 3,
        FileServe::ResolveFile { .. } => 2,
        FileServe::Read { .. } => 1,
        _ => 0,
    };
    if state.may_fall_back && attempt > 0 {
        attempt + 4
    } else {
        attempt
    }
}

/// Whether an answer fits what was asked for.
pub open spec fn fits(state: FileState, reply: Reply) -> bool {
    match file_request(state) {
        Some(Request::Canonicalize(_)) => reply is Path || reply is Failed,
        Some(Request::Metadata(_)) => reply is Flag || reply is Failed,
        Some(Request::Read(_)) => reply is Bytes || reply is Failed,
        _ => false,
    }
}

/// The serving of a request comes to an end: each answer that fits leaves fewer to come,
/// and when none is left there is an answer to the request.
pub proof fn law_serving_comes_to_an_end(state: ServeView, reply: Reply)
    ensures
        fits(state.attempt, reply) ==> answers_left(serve_step(state, reply)) < answers_left(
            state,
        ),
        answers_left(state) == 0 <==> serve_reply(state) is Some,
        answers_left(state) == 0 <==> file_request(state.attempt) is None,
{
}

/// Where the file of a request for a view of the page is not there, the page is served in
/// its place.
pub proof fn law_missing_view_falls_back_to_the_page(state: ServeView, reply: Reply)
    requires
        state.may_fall_back,
        file_step(state.attempt, reply) is NotFound,
    ensures
        serve_step(state, reply).attempt == file_start(
            state.base,
            crate::path::join(state.base, index_page()),
        ),
        !serve_step(state, reply).may_fall_back,
{
}

/// The body of an answer that serves a file is exactly what was read, and that answer ends the
/// serving.
pub proof fn law_served_body_is_what_was_read(state: ServeView, body: Vec<u8>)
    requires
        state.attempt is Read,
    ensures
        file_request(serve_step(state, Reply::Bytes(body)).attempt) is None,
        serve_reply(serve_step(state, Reply::Bytes(body))) matches Some(
            UiReply::File { body: served, .. },
        ) && served == body@,
{
}

/// The extensions that tell a content type are different ones.
proof fn lemma_extensions_differ()
    ensures
        content_type(Some(vstd::utf8::encode_utf8("html"@))) == "text/html; charset=utf-8"@,
        content_type(Some(vstd::utf8::encode_utf8("js"@))) == "text/javascript; charset=utf-8"@,
        content_type(Some(vstd::utf8::encode_utf8("mjs"@))) == "text/javascript; charset=utf-8"@,
        content_type(Some(vstd::utf8::encode_utf8("css"@))) == "text/css; charset=utf-8"@,
        content_type(Some(vstd::utf8::encode_utf8("json"@))) == "application/json"@,
        content_type(Some(vstd::utf8::encode_utf8("svg"@))) == "image/svg+xml"@,
        content_type(Some(vstd::utf8::encode_utf8("png"@))) == "image/png"@,
        content_type(Some(vstd::utf8::encode_utf8("jpg"@))) == "image/jpeg"@,
        content_type(Some(vstd::utf8::encode_utf8("jpeg"@))) == "image/jpeg"@,
        content_type(Some(vstd::utf8::encode_utf8("webp"@))) == "image/webp"@,
        content_type(Some(vstd::utf8::encode_utf8("ico"@))) == "image/x-icon"@,
        content_type(Some(vstd::utf8::encode_utf8("wasm"@))) == "application/wasm"@,
{
    reveal_strlit("html");
    reveal_strlit("js");
    reveal_strlit("mjs");
    reveal_strlit("css");
    reveal_strlit("json");
    reveal_strlit("svg");
    reveal_strlit("png");
    reveal_strlit("jpg");
    reveal_strlit("jpeg");
    reveal_strlit("webp");
    reveal_strlit("ico");
    reveal_strlit("wasm");
    vstd::utf8::is_ascii_chars_encode_utf8("html"@);
    vstd::utf8::is_ascii_chars_encode_utf8("js"@);
    vstd::utf8::is_ascii_chars_encode_utf8("mjs"@);
    vstd::utf8::is_ascii_chars_encode_utf8("css"@);
    vstd::utf8::is_ascii_chars_encode_utf8("json"@);
    vstd::utf8::is_ascii_chars_encode_utf8("svg"@);
    vstd::utf8::is_ascii_chars_encode_utf8("png"@);
    vstd::utf8::is_ascii_chars_encode_utf8("jpg"@);
    vstd::utf8::is_ascii_chars_encode_utf8("jpeg"@);
    vstd::utf8::is_ascii_chars_encode_utf8("webp"@);
    vstd::utf8::is_ascii_chars_encode_utf8("ico"@);
    vstd::utf8::is_ascii_chars_encode_utf8("wasm"@);
    assert(vstd::utf8::encode_utf8("html"@)[0] == 0x68);
    assert(vstd::utf8::encode_utf8("js"@).len() == 2);
    assert(vstd::utf8::encode_utf8("mjs"@)[0] == 0x6d);
    assert(vstd::utf8::encode_utf8("css"@)[0] == 0x63);
    assert(vstd::utf8::encode_utf8("json"@)[1] == 0x73);
    assert(vstd::utf8::encode_utf8("svg"@)[0] == 0x73);
    assert(vstd::utf8::encode_utf8("png"@)[0] == 0x70);
    assert(vstd::utf8::encode_utf8("jpg"@).len() == 3);
    assert(vstd::utf8::encode_utf8("jpg"@)[0] == 0x6a);
    assert(vstd::utf8::encode_utf8("jpeg"@)[1] == 0x70);
    assert(vstd::utf8::encode_utf8("webp"@)[1] == 0x65);
    assert(vstd::utf8::encode_utf8("ico"@)[0] == 0x69);
    assert(vstd::utf8::encode_utf8("wasm"@)[1] == 0x61);
}

/// A file is served under the content type that the extension of its name tells: one of the
/// known types, or, with any other extension or none, that of bytes of no known kind.
pub proof fn law_content_type_is_told_by_the_extension(state: ServeView, body: Vec<u8>)
    requires
        state.attempt is Read,
    ensures
        match serve_reply(serve_step(state, Reply::Bytes(body))) {
            Some(UiReply::File { content_type: told, .. }) => {
                let extension = crate::path::extension(state.attempt->Read_file);
                let ends = |text: Seq<char>| extension == Some(vstd::utf8::encode_utf8(text));
                &&& ends("html"@) ==> told == "text/html; charset=utf-8"@
                &&& ends("js"@) || ends("mjs"@) ==> told == "text/javascript; charset=utf-8"@
                &&& ends("css"@) ==> told == "text/css; charset=utf-8"@
                &&& ends("json"@) ==> told == "application/json"@
                &&& ends("svg"@) ==> told == "image/svg+xml"@
                &&& ends("png"@) ==> told == "image/png"@
                &&& ends("jpg"@) || ends("jpeg"@) ==> told == "image/jpeg"@
                &&& ends("webp"@) ==> told == "image/webp"@
                &&& ends("ico"@) ==> told == "image/x-icon"@
                &&& ends("wasm"@) ==> told == "application/wasm"@
                &&& !ends("html"@) && !ends("js"@) && !ends("mjs"@) && !ends("css"@)
                    && !ends("json"@) && !ends("svg"@) && !ends("png"@) && !ends("jpg"@)
                    && !ends("jpeg"@) && !ends("webp"@) && !ends("ico"@) && !ends("wasm"@)
                    ==> told == "application/octet-stream"@
            },
            _ => false,
        },
{
    lemma_extensions_differ();
}

/// Whether an answer says that the file is not there, or is a directory.
pub open spec fn says_not_there(state: FileState, reply: Reply) -> bool {
    match state {
        FileServe::ResolveRoot { .. } => reply is Failed,
        FileServe::Stat { .. } => reply is Failed || reply == Reply::Flag(true),
        FileServe::ResolveFile { .. } => reply is Failed,
        _ => false,
    }
}

/// A file that is not there, or is a directory, is answered with 404, or, where the request may
/// be for a view of the page, looked for once more, as `index.html` of the directory.
pub proof fn law_missing_file_is_not_found(state: ServeView, reply: Reply)
    requires
        says_not_there(state.attempt, reply),
    ensures
        ({
            let next = serve_step(state, reply);
            if state.may_fall_back {
                &&& !next.may_fall_back
                &&& next.base == state.base
                &&& next.attempt matches FileServe::ResolveRoot { root, file } && root
                    == state.base && file == crate::path::join(
                    state.base,
                    vstd::utf8::encode_utf8("index.html"@),
                )
            } else {
                serve_reply(next) == Some(Answer::Status(404))
            }
        }),
{
}

/// The directory is resolved first, then the file is looked at and resolved as it was asked
/// for; it is read, as resolved, where its components start with those of the resolved
/// directory, and else refused with 403.
pub proof fn law_file_is_read_where_it_is_found(state: ServeView, found: UnixPath)
    ensures
        match state.attempt {
            FileServe::ResolveRoot { root, file } => {
                &&& file_request(state.attempt) == Some(
                    crate::effect::Asked::Canonicalize(root),
                )
                &&& file_request(serve_step(state, Reply::Path(found)).attempt) == Some(
                    crate::effect::Asked::Metadata(file),
                )
                &&& serve_step(state, Reply::Path(found)).attempt == (FileState::Stat {
                    root: found@,
                    file,
                })
            },
            FileServe::Stat { root, file } => {
                &&& file_request(serve_step(state, Reply::Flag(false)).attempt) == Some(
                    crate::effect::Asked::Canonicalize(file),
                )
                &&& serve_step(state, Reply::Flag(false)).attempt == (FileState::ResolveFile {
                    root,
                    file,
                })
            },
            FileServe::ResolveFile { root, .. } => {
                let next = serve_step(state, Reply::Path(found));
                if crate::path::components(root).is_prefix_of(crate::path::components(found@)) {
                    file_request(next.attempt) == Some(
                        crate::effect::Asked::Read(found@),
                    )
                } else {
                    serve_reply(next) == Some(Answer::Status(403))
                }
            },
            _ => true,
        },
{
}

/// A file that is there but cannot be read is answered with 500 and what was told.
pub proof fn law_unreadable_file_is_an_error(state: ServeView, text: String)
    requires
        state.attempt is Read,
    ensures
        serve_reply(serve_step(state, Reply::Failed(text))) == Some(
            Answer::Error { code: 500, text: text@ },
        ),
{
}

/// An error is answered with its own status.
pub proof fn law_errors_have_their_status(error: FileServeError)
    ensures
        match error {
            FileServeError::NotFound => error_answer(error) == Answer::Status(404),
            FileServeError::Forbidden => error_answer(error) == Answer::Status(403),
            FileServeError::Io(text) => error_answer(error) == (Answer::Error {
                code: 500,
                text: text@,
            }),
        },
{
}

/// An answer to something else than what was asked for changes nothing.
pub proof fn law_other_answers_change_nothing(state: ServeView, reply: Reply)
    ensures
        !fits(state.attempt, reply) && !(state.attempt is NotFound) ==> serve_step(state, reply)
            == state,
{
}

/// Following a name from a clean path leads to a clean path; the empty one is clean.
pub proof fn law_clean_path_grows_by_names(rel: Seq<u8>, name: Seq<u8>)
    requires
        rel.len() == 0 || clean(rel) == Some(rel),
        crate::path::is_plain_name(name),
    ensures
        rel.len() == 0 ==> clean(rel) == Some(rel),
        clean(crate::path::join(rel, name)) == Some(crate::path::join(rel, name)),
{
    let parts = crate::path::components(rel);
    let whole = crate::path::join(rel, name);
    crate::path::law_join_plain_name(rel, name);
    if rel.len() == 0 {
        crate::path::lemma_empty_path(rel);
        assert(joined(names_of(parts)) =~= rel);
    }
    let all = crate::path::components(whole);
    assert(all.drop_last() =~= parts);
    assert(names_of(all) == names_of(parts).push(name));
    assert(names_of(all).drop_last() =~= names_of(parts));
    assert forall|i: int| 0 <= i < all.len() implies !leads_away(#[trigger] all[i]) by {
        if i < parts.len() {
            assert(all[i] == parts[i]);
        }
    }
}

/// Only what opens a path is a `.`.
proof fn lemma_dot_comes_first(path: Seq<u8>, i: int)
    requires
        0 < i < crate::path::components(path).len(),
    ensures
        !(crate::path::components(path)[i] is CurDir),
        !(crate::path::components(path)[i] is RootDir),
{
    crate::path::lemma_later_components(path);
}

/// Components without the `.` that may open them.
pub open spec fn without_leading_dot(parts: Seq<Component<Seq<u8>>>) -> Seq<
    Component<Seq<u8>>,
> {
    if parts.len() > 0 && parts[0] is CurDir {
        parts.skip(1)
    } else {
        parts
    }
}

/// The names of components without dots, or with one in front.
proof fn lemma_names_left(parts: Seq<Component<Seq<u8>>>)
    requires
        forall|i: int|
            0 <= i < parts.len() ==> #[trigger] parts[i] is Normal || (i == 0 && parts[i]
                is CurDir),
    ensures
        as_components(names_of(parts)) == without_leading_dot(parts),
    decreases parts.len(),
{
    if parts.len() == 0 {
        assert(as_components(names_of(parts)) =~= parts);
    } else {
        let before = parts.drop_last();
        assert forall|i: int| 0 <= i < before.len() implies #[trigger] before[i] is Normal || (i
            == 0 && before[i] is CurDir) by {
            assert(before[i] == parts[i]);
        }
        lemma_names_left(before);
        let last = parts.len() - 1;
        assert(parts[last] == parts.last());
        let expected = if parts[0] is CurDir {
            parts.skip(1)
        } else {
            parts
        };
        if parts.last() is Normal {
            assert(as_components(names_of(parts)) =~= as_components(names_of(before)).push(
                parts.last(),
            ));
            if last == 0 {
                assert(before =~= Seq::empty());
            }
            assert(as_components(names_of(parts)) =~= expected);
        } else {
            assert(before =~= Seq::empty());
            assert(as_components(names_of(parts)) =~= expected);
        }
    }
}

/// A request that is not percent-encoded UTF-8 is answered with 400, one whose path starts at
/// the root or holds a `..` with 403. Any other is for the file that its names lead to from
/// the directory, or, where it has none, for `index.html` there; it may be for a view of the
/// page where its last name holds no `.` but, perhaps, in front.
pub proof fn law_request_is_for_the_file_that_it_names(base: Seq<u8>, rest: Seq<char>)
    ensures
        ({
            let decoded = crate::ui::percent::percent_decoded(vstd::utf8::encode_utf8(rest));
            let parts = crate::path::components(decoded);
            let names = without_leading_dot(parts);
            if !vstd::utf8::valid_utf8(decoded) {
                serving(base, rest) == Serving::<Answer, ServeView>::Reply(UiReply::Status(400))
            } else if exists|i: int|
                0 <= i < parts.len() && ((#[trigger] parts[i]) is ParentDir || parts[i]
                    is RootDir) {
                serving(base, rest) == Serving::<Answer, ServeView>::Reply(UiReply::Status(403))
            } else {
                match serving(base, rest) {
                    Serving::Work(state) => {
                        &&& state.base == base
                        &&& state.attempt matches FileServe::ResolveRoot { root, file } && root
                            == base && crate::path::components(file) == crate::path::components(
                            base,
                        ) + if names.len() > 0 {
                            names
                        } else {
                            seq![Component::Normal(vstd::utf8::encode_utf8("index.html"@))]
                        }
                        &&& state.attempt->ResolveRoot_file == crate::path::join(
                            base,
                            if names.len() > 0 {
                                clean(decoded)->0
                            } else {
                                vstd::utf8::encode_utf8("index.html"@)
                            },
                        )
                        &&& state.may_fall_back <==> names.len() == 0
                            || !crate::path::has_inner_dot(names.last()->Normal_0)
                    },
                    _ => false,
                }
            }
        }),
{
    let decoded = crate::ui::percent::percent_decoded(vstd::utf8::encode_utf8(rest));
    let parts = crate::path::components(decoded);
    if vstd::utf8::valid_utf8(decoded) {
        if exists|i: int|
            0 <= i < parts.len() && ((#[trigger] parts[i]) is ParentDir || parts[i] is RootDir) {
            let i = choose|i: int|
                0 <= i < parts.len() && ((#[trigger] parts[i]) is ParentDir || parts[i]
                    is RootDir);
            assert(leads_away(parts[i]));
        } else {
            assert forall|i: int| 0 <= i < parts.len() implies !leads_away(
                #[trigger] parts[i],
            ) by {}
            lemma_served_path(base, decoded);
        }
    }
}

/// What a clean request is for.
proof fn lemma_served_path(base: Seq<u8>, decoded: Seq<u8>)
    requires
        clean(decoded) is Some,
    ensures
        ({
            let parts = crate::path::components(decoded);
            let rel = clean(decoded)->0;
            let names = without_leading_dot(parts);
            &&& crate::path::components(requested(base, rel)) == crate::path::components(base)
                + if names.len() > 0 {
                names
            } else {
                seq![Component::Normal(vstd::utf8::encode_utf8("index.html"@))]
            }
            &&& rel.len() == 0 <==> names.len() == 0
            &&& crate::path::extension(rel) is None <==> names.len() == 0
                || !crate::path::has_inner_dot(names.last()->Normal_0)
        }),
{
    let parts = crate::path::components(decoded);
    let rel = clean(decoded)->0;
    let names = without_leading_dot(parts);
    assert forall|i: int| 0 <= i < parts.len() implies #[trigger] parts[i] is Normal || (i == 0
        && parts[i] is CurDir) by {
        assert(!leads_away(parts[i]));
        if i > 0 {
            lemma_dot_comes_first(decoded, i);
        }
    }
    lemma_names_left(parts);
    law_clean_path_holds_names_only(decoded);
    assert(crate::path::components(rel) == names);
    if names.len() == 0 {
        assert(names_of(parts).len() == 0);
        assert(rel.len() == 0);
        lemma_index_page_is_plain();
        crate::path::law_join_plain_name(base, index_page());
        crate::path::lemma_empty_path(rel);
        crate::path::law_no_extension_without_a_dot(rel);
        assert(crate::path::components(base).push(Component::Normal(index_page()))
            =~= crate::path::components(base) + seq![Component::Normal(index_page())]);
    } else {
        if rel.len() == 0 {
            crate::path::lemma_empty_path(rel);
        }
        assert(names[0] is Normal);
        crate::path::lemma_relative_components(rel);
        if base.len() > 0 {
            crate::path::lemma_join_components(base, rel);
        } else {
            crate::path::lemma_empty_path(base);
            assert(crate::path::join(base, rel) =~= rel);
            assert(crate::path::components(base) + names =~= names);
        }
        assert(names.last() is Normal) by {
            assert(names[names.len() - 1] is Normal);
        }
        crate::path::lemma_extension_is_there(rel);
    }
}

/// With the built-in web interface every request is answered with the built-in page; with one
/// that is kept in a directory the root leads to `/ui/`, and the page itself is asked for as
/// anything below it is, by an empty path.
pub proof fn law_built_in_page_is_served_everywhere(assets: UiAssets, rest: Seq<char>)
    ensures
        match assets {
            UiAssets::BuiltIn => {
                &&& root_answer(assets) is BuiltInPage
                &&& path_serving(assets, rest) == Serving::<Answer, ServeView>::Reply(
                    UiReply::BuiltInPage,
                )
            },
            UiAssets::External(external) => {
                &&& root_answer(assets) == Answer::Redirect("/ui/"@)
                &&& path_serving(assets, rest) == serving(external.path@, rest)
            },
        },
{
}

/// An answer stands for what it holds: the same status, text, content type and body, whole.
pub proof fn law_answer_stands_for_what_it_holds(reply: UiReply<String, Vec<u8>>)
    ensures
        match (reply, reply@) {
            (UiReply::BuiltInPage, UiReply::BuiltInPage) => true,
            (UiReply::Redirect(own), UiReply::Redirect(to)) => own@ == to,
            (
                UiReply::File { content_type: own, body: held },
                UiReply::File { content_type: told, body },
            ) => own@ == told && held@ == body,
            (UiReply::Status(own), UiReply::Status(code)) => own == code,
            (
                UiReply::Error { code: own, text: words },
                UiReply::Error { code, text },
            ) => own == code && words@ == text,
            _ => false,
        },
{
}

} // verus!
