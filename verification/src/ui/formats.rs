//! The archive formats, as the crates `zip`, `tar` and `flate2` read them.
//!
//! Nothing in this file is proved: it states what is relied on.
use crate::path::{Component, UnixPath};
use flate2::read::GzDecoder;
use std::io::{Cursor, Read};
use vstd::prelude::*;

verus! {

/// `std::io::Cursor`: a reader of bytes in memory.
#[verifier::external_type_specification]
#[verifier::external_body]
#[verifier::reject_recursive_types(T)]
pub struct ExCursor<T>(std::io::Cursor<T>);

/// `std::io::Error`: why a read failed.
#[verifier::external_type_specification]
#[verifier::external_body]
pub struct ExIoError(std::io::Error);

/// `zip::ZipArchive`: an opened zip file.
#[verifier::external_type_specification]
#[verifier::external_body]
#[verifier::reject_recursive_types(R)]
pub struct ExZipArchive<R>(zip::ZipArchive<R>);

/// `zip::result::ZipError`: why a zip file, or a member of it, cannot be read.
#[verifier::external_type_specification]
#[verifier::external_body]
pub struct ExZipError(zip::result::ZipError);

/// What a zip file says of one of its members.
#[derive(Debug, Clone, PartialEq, Eq)]
pub struct ZipEntry {
    pub name: String,
    pub is_symlink: bool,
    /// Whether the name ends as that of a directory does.
    pub is_dir: bool,
    /// The name as a path, where that cannot lead upwards.
    pub enclosed: Option<UnixPath>,
}

/// What cannot be told from a member's name.
pub struct ZipItem {
    pub name: Seq<char>,
    pub is_symlink: bool,
}

/// How far below its start a run of components ends; none where it leaves the start
/// on its way, or starts at the root.
pub open spec fn depth(parts: Seq<Component<Seq<u8>>>) -> Option<nat>
    decreases parts.len(),
{
    if parts.len() == 0 {
        Some(0nat)
    } else {
        match (depth(parts.drop_last()), parts.last()) {
            (None, _) => None,
            (Some(_), Component::RootDir) => None,
            (Some(above), Component::ParentDir) => if above == 0 {
                None
            } else {
                Some((above - 1) as nat)
            },
            (Some(above), Component::CurDir) => Some(above),
            (Some(above), Component::Normal(_)) => Some(above + 1),
        }
    }
}

/// The path that a member's name spells, where it holds no NUL and cannot lead upwards.
pub open spec fn enclosed_path(name: Seq<char>) -> Option<Seq<u8>> {
    let path = vstd::utf8::encode_utf8(name);
    if name.contains('\0') || depth(crate::path::components(path)) is None {
        None
    } else {
        Some(path)
    }
}

/// Whether a member's name is that of a directory.
pub open spec fn names_directory(name: Seq<char>) -> bool {
    name.len() > 0 && (name.last() == '/' || name.last() == '\\')
}

/// Whether `zip::ZipArchive::new` accepts a file.
pub uninterp spec fn zip_opens(bytes: Seq<u8>) -> bool;

/// The file that an archive was opened on.
pub uninterp spec fn zip_source(archive: zip::ZipArchive<Cursor<&[u8]>>) -> Seq<u8>;

/// How many members `zip::ZipArchive::len` counts in a file.
pub uninterp spec fn zip_len(bytes: Seq<u8>) -> nat;

/// What `zip::ZipArchive::by_index` says of a member; none where it fails.
pub uninterp spec fn zip_item(bytes: Seq<u8>, index: nat) -> Option<ZipItem>;

/// What reading a member to its end yields; none where that fails.
pub uninterp spec fn zip_data(bytes: Seq<u8>, index: nat) -> Option<Seq<u8>>;

/// Calls `zip::ZipArchive::new`. The archive it gives is one on the same bytes; whether
/// it gives one depends on them alone.
#[verifier::external_body]
pub(crate) fn open_zip<'a>(bytes: &'a [u8]) -> (res: Result<
    zip::ZipArchive<Cursor<&'a [u8]>>,
    zip::result::ZipError,
>)
    ensures
        match res {
            Ok(archive) => zip_opens(bytes@) && zip_source(archive) == bytes@,
            Err(_) => !zip_opens(bytes@),
        },
{
    zip::ZipArchive::new(Cursor::new(bytes))
}

/// Calls `zip::ZipArchive::len`. The number of members depends on the file alone.
#[verifier::external_body]
pub(crate) fn count_zip(archive: &zip::ZipArchive<Cursor<&[u8]>>) -> (len: usize)
    ensures
        len == zip_len(zip_source(*archive)),
{
    archive.len()
}

/// Calls `zip::ZipArchive::by_index`, and `name`, `is_symlink`, `is_dir` and
/// `enclosed_name` on the member. The name and whether it is a link depend on the file
/// and the index alone; a directory is told by the last character of the name, and the
/// enclosed name is the name itself, unless it holds a NUL, is absolute or rises above
/// where it starts at some component (as paths with `/` between segments are read).
#[verifier::external_body]
pub(crate) fn zip_entry(archive: &mut zip::ZipArchive<Cursor<&[u8]>>, index: usize) -> (res: Result<
    ZipEntry,
    zip::result::ZipError,
>)
    ensures
        zip_source(*final(archive)) == zip_source(*old(archive)),
        match res {
            Ok(entry) => {
                &&& zip_item(zip_source(*old(archive)), index as nat) == Some(
                    (ZipItem { name: entry.name@, is_symlink: entry.is_symlink }),
                )
                &&& entry.is_dir == names_directory(entry.name@)
                &&& match entry.enclosed {
                    Some(path) => enclosed_path(entry.name@) == Some(path@),
                    None => enclosed_path(entry.name@) is None,
                }
            },
            Err(_) => zip_item(zip_source(*old(archive)), index as nat) is None,
        },
{
    let file = archive.by_index(index)?;
    Ok(ZipEntry {
        name: file.name().to_string(),
        is_symlink: file.is_symlink(),
        is_dir: file.is_dir(),
        enclosed: file.enclosed_name().map(
            |path| UnixPath { bytes: path.as_os_str().as_encoded_bytes().to_vec() },
        ),
    })
}

/// Data that could not be read to its end.
#[derive(Debug)]
pub struct Unread {
    /// What was read before that showed.
    pub data: Vec<u8>,
    pub error: std::io::Error,
}

/// Calls `zip::ZipArchive::by_index`, and `std::io::copy` to read the member to its end.
/// Whether that succeeds, and what then comes out, depends on the file and the index alone.
/// How much is read before it fails is left open.
#[verifier::external_body]
pub(crate) fn read_zip(archive: &mut zip::ZipArchive<Cursor<&[u8]>>, index: usize) -> (res: Result<
    Vec<u8>,
    Unread,
>)
    ensures
        zip_source(*final(archive)) == zip_source(*old(archive)),
        match res {
            Ok(data) => zip_data(zip_source(*old(archive)), index as nat) == Some(data@),
            Err(_) => zip_data(zip_source(*old(archive)), index as nat) is None,
        },
{
    let mut data = Cursor::new(Vec::new());
    let copied = match archive.by_index(index) {
        Ok(mut file) => std::io::copy(&mut file, &mut data),
        Err(error) => Err(error.into()),
    };
    match copied {
        Ok(_) => Ok(data.into_inner()),
        Err(error) => Err(Unread { data: data.into_inner(), error }),
    }
}

/// What a tar file says of one of its members.
#[derive(Debug, Clone, PartialEq, Eq)]
pub struct TarMember {
    pub is_symlink: bool,
    pub is_hard_link: bool,
    pub is_dir: bool,
    pub is_file: bool,
    pub path: Vec<u8>,
}

/// What comes next in a tar file.
pub enum TarItem {
    /// A member; `data` is what reading it to its end yields, or none where that fails.
    Member {
        is_symlink: bool,
        is_hard_link: bool,
        is_dir: bool,
        is_file: bool,
        path: Seq<u8>,
        data: Option<Seq<u8>>,
    },
    /// Something that cannot be read.
    Broken,
}

/// A gzipped tar file.
#[verifier::external_body]
pub struct TarGz<'a> {
    archive: tar::Archive<GzDecoder<Cursor<&'a [u8]>>>,
}

/// The members of a gzipped tar file that are still to come, and the one just reached.
#[verifier::external_body]
pub struct TarEntries<'a, 'b> {
    entries: tar::Entries<'a, GzDecoder<Cursor<&'b [u8]>>>,
    reached: Box<dyn Read + 'a>,
}

/// The file that an archive, not read from since, was made on.
pub uninterp spec fn tar_source(archive: TarGz<'_>) -> Seq<u8>;

/// Whether nothing was read through an archive.
pub uninterp spec fn tar_untouched(archive: TarGz<'_>) -> bool;

/// What `tar::Entries` yields on an unpacked gzip file, one after the other.
pub uninterp spec fn tar_items(bytes: Seq<u8>) -> Seq<TarItem>;

/// What is still to come.
pub uninterp spec fn tar_left(entries: TarEntries<'_, '_>) -> Seq<TarItem>;

/// What reading the member just reached to its end yields; none where that fails.
pub uninterp spec fn tar_reached(entries: TarEntries<'_, '_>) -> Option<Seq<u8>>;

/// Calls `flate2::read::GzDecoder::new`, which reads the head of the gzip file, and
/// `tar::Archive::new`, which reads nothing yet: an archive on these bytes, whose members are
/// all still to come.
#[verifier::external_body]
pub(crate) fn open_tar_gz<'b>(bytes: &'b [u8]) -> (archive: TarGz<'b>)
    ensures
        tar_source(archive) == bytes@,
        tar_untouched(archive),
{
    TarGz { archive: tar::Archive::new(GzDecoder::new(Cursor::new(bytes))) }
}

/// Calls `tar::Archive::entries`, which fails only on an archive that was read from. What
/// is to come depends on the bytes of the file alone.
#[verifier::external_body]
pub(crate) fn tar_entries<'a, 'b>(archive: &'a mut TarGz<'b>) -> (res: Result<
    TarEntries<'a, 'b>,
    std::io::Error,
>)
    ensures
        match res {
            Ok(entries) => tar_untouched(*old(archive)) && tar_left(entries) == tar_items(
                tar_source(*old(archive)),
            ),
            Err(_) => !tar_untouched(*old(archive)),
        },
{
    Ok(TarEntries { entries: archive.archive.entries()?, reached: Box::new(std::io::empty()) })
}

/// Calls `next` on `tar::Entries`, and on the member, which is then the one reached,
/// `path_bytes`, and `is_symlink`, `is_hard_link`, `is_dir` and `is_file` on the
/// `entry_type` of its `header`.
#[verifier::external_body]
pub(crate) fn next_member(entries: &mut TarEntries<'_, '_>) -> (res: Option<
    Result<TarMember, std::io::Error>,
>)
    ensures
        match res {
            None => tar_left(*old(entries)).len() == 0,
            Some(Err(_)) => {
                &&& tar_left(*old(entries)).len() > 0
                &&& tar_left(*old(entries)).first() is Broken
                &&& tar_left(*final(entries)) == tar_left(*old(entries)).drop_first()
            },
            Some(Ok(member)) => {
                &&& tar_left(*old(entries)).len() > 0
                &&& tar_left(*old(entries)).first() == (TarItem::Member {
                    is_symlink: member.is_symlink,
                    is_hard_link: member.is_hard_link,
                    is_dir: member.is_dir,
                    is_file: member.is_file,
                    path: member.path@,
                    data: tar_reached(*final(entries)),
                })
                &&& tar_left(*final(entries)) == tar_left(*old(entries)).drop_first()
            },
        },
{
    let entry = match entries.entries.next()? {
        Ok(entry) => entry,
        Err(error) => return Some(Err(error)),
    };
    let kind = entry.header().entry_type();
    let path = entry.path_bytes().into_owned();
    entries.reached = Box::new(entry);
    let (is_symlink, is_hard_link) = (kind.is_symlink(), kind.is_hard_link());
    let (is_dir, is_file) = (kind.is_dir(), kind.is_file());
    Some(Ok(TarMember { is_symlink, is_hard_link, is_dir, is_file, path }))
}

/// Calls `std::io::copy` to read the member just reached, a `tar::Entry`, to its end. What is
/// still to come stays, unless the read fails. How much is read before it fails is left open.
#[verifier::external_body]
pub(crate) fn read_member(entries: &mut TarEntries<'_, '_>) -> (res: Result<Vec<u8>, Unread>)
    ensures
        match res {
            Ok(data) => {
                &&& tar_reached(*old(entries)) == Some(data@)
                &&& tar_left(*final(entries)) == tar_left(*old(entries))
            },
            Err(_) => tar_reached(*old(entries)) is None,
        },
{
    let mut data = Cursor::new(Vec::new());
    match std::io::copy(&mut entries.reached, &mut data) {
        Ok(_) => Ok(data.into_inner()),
        Err(error) => Err(Unread { data: data.into_inner(), error }),
    }
}

} // verus!
