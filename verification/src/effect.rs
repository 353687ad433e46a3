//! What the state machines of this library ask of the outside, and what they are told.
use crate::path::UnixPath;
use vstd::prelude::*;

verus! {

/// Something to be done outside. `P` is a path, `D` is data, `T` is text.
///
/// Whatever cannot be done is answered by [`Reply::Failed`].
#[derive(Debug, Clone, Copy, PartialEq, Eq)]
pub enum Request<P, D, T> {
    /// Request `url` and await the head of the response; answered by [`Reply::Status`].
    Get { url: T, timeout_secs: Option<u64> },
    /// Await the body of the last response; answered by [`Reply::Bytes`].
    ReadBody,
    /// Fetch `url` through the proxy that was chosen; answered by [`Reply::Bytes`].
    GetViaProxy { url: T },
    /// Create an empty temporary directory; answered by [`Reply::Path`].
    MakeTempDir,
    /// Create a directory and those above it; answered by [`Reply::Done`].
    CreateDirAll(P),
    /// Create a file, or empty it, and fill it; answered by [`Reply::Done`].
    Write { path: P, data: D },
    /// Move a file or directory, over what is there; answered by [`Reply::Done`].
    Rename { from: P, to: P },
    /// Copy a file, over what is there; answered by [`Reply::Done`].
    Copy { from: P, to: P },
    /// Remove a file; answered by [`Reply::Done`].
    RemoveFile(P),
    /// Remove a directory and all it holds; answered by [`Reply::Done`].
    RemoveDirAll(P),
    /// The names of what a directory holds; answered by [`Reply::Names`], or by
    /// [`Reply::NamesUntil`] where the listing breaks off.
    ListDir(P),
    /// Whether a directory holds anything; answered by [`Reply::Flag`].
    HasEntry(P),
    /// Whether something, links followed, is a directory; answered by [`Reply::Flag`],
    /// `false` where it cannot be told.
    IsDir(P),
    /// Whether something, links not followed, is a directory; answered by [`Reply::Flag`].
    EntryIsDir(P),
    /// What something is, links not followed; answered by [`Reply::Kind`].
    Inspect(P),
    /// Whether something that exists, links followed, is a directory; answered by
    /// [`Reply::Flag`].
    Metadata(P),
    /// The absolute path without links or dots of something; answered by [`Reply::Path`].
    Canonicalize(P),
    /// What a file holds; answered by [`Reply::Bytes`].
    Read(P),
}

impl<'a> View for Request<&'a UnixPath, &'a Vec<u8>, &'a String> {
    type V = Request<Seq<u8>, Seq<u8>, Seq<char>>;

    open spec fn view(&self) -> Request<Seq<u8>, Seq<u8>, Seq<char>> {
        match self {
            Request::Get { url, timeout_secs } => Request::Get {
                url: url@,
                timeout_secs: *timeout_secs,
            },
            Request::ReadBody => Request::ReadBody,
            Request::GetViaProxy { url } => Request::GetViaProxy { url: url@ },
            Request::MakeTempDir => Request::MakeTempDir,
            Request::CreateDirAll(path) => Request::CreateDirAll(path@),
            Request::Write { path, data } => Request::Write { path: path@, data: data@ },
            Request::Rename { from, to } => Request::Rename { from: from@, to: to@ },
            Request::Copy { from, to } => Request::Copy { from: from@, to: to@ },
            Request::RemoveFile(path) => Request::RemoveFile(path@),
            Request::RemoveDirAll(path) => Request::RemoveDirAll(path@),
            Request::ListDir(path) => Request::ListDir(path@),
            Request::HasEntry(path) => Request::HasEntry(path@),
            Request::IsDir(path) => Request::IsDir(path@),
            Request::EntryIsDir(path) => Request::EntryIsDir(path@),
            Request::Inspect(path) => Request::Inspect(path@),
            Request::Metadata(path) => Request::Metadata(path@),
            Request::Canonicalize(path) => Request::Canonicalize(path@),
            Request::Read(path) => Request::Read(path@),
        }
    }
}

/// What a request stands for.
pub type Asked = Request<Seq<u8>, Seq<u8>, Seq<char>>;

/// Whether `request` is what a contract says is asked.
pub open spec fn asks(
    request: Option<Request<&UnixPath, &Vec<u8>, &String>>,
    asked: Option<Asked>,
) -> bool {
    match request {
        Some(some) => asked == Some(some@),
        None => asked is None,
    }
}

/// What something in the file system is.
#[derive(Debug, Clone, Copy, PartialEq, Eq, Structural)]
pub enum FileKind {
    Symlink,
    Directory,
    Other,
}

/// The answer to a [`Request`].
#[derive(Debug, PartialEq, Eq)]
pub enum Reply {
    Done,
    Failed(String),
    Flag(bool),
    Kind(FileKind),
    Path(UnixPath),
    Names(Vec<Vec<u8>>),
    /// The names up to where a listing broke off, and why it did.
    NamesUntil { names: Vec<Vec<u8>>, text: String },
    Bytes(Vec<u8>),
    Status { code: u16, text: String },
}

/// The names that a listing stands for.
pub open spec fn name_views(names: Seq<Vec<u8>>) -> Seq<Seq<u8>> {
    names.map_values(|name: Vec<u8>| name@)
}

/// Whether an answer is a listing, whole or not.
pub open spec fn is_listing(reply: Reply) -> bool {
    reply is Names || reply is NamesUntil
}

/// The names in a listing.
pub open spec fn listed(reply: Reply) -> Seq<Seq<u8>> {
    match reply {
        Reply::Names(names) => name_views(names@),
        Reply::NamesUntil { names, .. } => name_views(names@),
        _ => Seq::empty(),
    }
}

/// Why a listing broke off, if it did.
pub open spec fn listing_fault(reply: Reply) -> Option<Seq<char>> {
    match reply {
        Reply::NamesUntil { text, .. } => Some(text@),
        _ => None,
    }
}

/// A list, the first element last.
pub fn reversed<A>(list: Vec<A>) -> (res: Vec<A>)
    ensures
        res@ == list@.reverse(),
{
    let ghost all = list@;
    let mut list = list;
    let mut res: Vec<A> = Vec::new();
    assert(all.take(all.len() as int) =~= all);
    assert(res@ =~= all.skip(all.len() as int).reverse());
    while list.len() > 0
        invariant
            list@ == all.take(list@.len() as int),
            list@.len() <= all.len(),
            res@ == all.skip(list@.len() as int).reverse(),
        decreases list@.len(),
    {
        let ghost len = list@.len();
        if let Some(last) = list.pop() {
            res.push(last);
            proof {
                assert(all.take(len as int).drop_last() =~= all.take(len - 1));
                assert(all.skip(len as int).reverse().push(last) =~= all.skip(len - 1).reverse());
            }
        }
    }
    assert(all.skip(0) =~= all);
    res
}

/// A listing, the first name last.
pub fn reversed_names(names: Vec<Vec<u8>>) -> (res: Vec<Vec<u8>>)
    ensures
        name_views(res@) == name_views(names@).reverse(),
{
    let res = reversed(names);
    assert(name_views(res@) =~= name_views(names@).reverse());
    res
}

/// A listing stands for all of its names, each byte for byte, in their order.
pub proof fn law_listing_holds_every_name(names: Vec<Vec<u8>>, text: String, i: int)
    requires
        0 <= i < names@.len(),
    ensures
        listed(Reply::Names(names)).len() == names@.len(),
        listed(Reply::Names(names))[i] == names@[i]@,
        listed(Reply::NamesUntil { names, text }) == listed(Reply::Names(names)),
        name_views(names@) == listed(Reply::Names(names)),
        listing_fault(Reply::NamesUntil { names, text }) == Some(text@),
        listing_fault(Reply::Names(names)) is None,
{
}

/// A request stands for what it asks for: the same paths, data and URL, whole.
pub proof fn law_request_stands_for_what_it_asks_for(
    request: Request<&UnixPath, &Vec<u8>, &String>,
    asked: Asked,
)
    ensures
        asks(Some(request), Some(asked)) ==> match (request, asked) {
            (Request::Get { url, timeout_secs }, Request::Get { url: to, timeout_secs: limit }) => {
                url@ == to && timeout_secs == limit
            },
            (Request::ReadBody, Request::ReadBody) => true,
            (Request::GetViaProxy { url }, Request::GetViaProxy { url: to }) => url@ == to,
            (Request::MakeTempDir, Request::MakeTempDir) => true,
            (Request::CreateDirAll(own), Request::CreateDirAll(path)) => own.bytes@ == path,
            (Request::Write { path: own, data: held }, Request::Write { path, data }) => {
                own.bytes@ == path && held@ == data
            },
            (Request::Rename { from: old, to: new }, Request::Rename { from, to }) => {
                old.bytes@ == from && new.bytes@ == to
            },
            (Request::Copy { from: old, to: new }, Request::Copy { from, to }) => {
                old.bytes@ == from && new.bytes@ == to
            },
            (Request::RemoveFile(own), Request::RemoveFile(path)) => own.bytes@ == path,
            (Request::RemoveDirAll(own), Request::RemoveDirAll(path)) => own.bytes@ == path,
            (Request::ListDir(own), Request::ListDir(path)) => own.bytes@ == path,
            (Request::HasEntry(own), Request::HasEntry(path)) => own.bytes@ == path,
            (Request::IsDir(own), Request::IsDir(path)) => own.bytes@ == path,
            (Request::EntryIsDir(own), Request::EntryIsDir(path)) => own.bytes@ == path,
            (Request::Inspect(own), Request::Inspect(path)) => own.bytes@ == path,
            (Request::Metadata(own), Request::Metadata(path)) => own.bytes@ == path,
            (Request::Canonicalize(own), Request::Canonicalize(path)) => own.bytes@ == path,
            (Request::Read(own), Request::Read(path)) => own.bytes@ == path,
            _ => false,
        },
        !asks(Some(request), None),
        !asks(None, Some(asked)),
        asks(None, None),
{
}

} // verus!
