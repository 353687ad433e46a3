//! Archives of the web interface: what is written where when one is unpacked.
//!
//! Reading an archive is left to the crates `zip`, `tar` and `flate2`; where its
//! members go, which are passed over and which are refused is decided here.
use crate::path::{Component, UnixPath};
use crate::ui::formats::{
    count_zip, next_member, open_tar_gz, open_zip, read_member, read_zip, tar_entries, zip_entry,
    TarMember, Unread, ZipEntry,
};
use vstd::prelude::*;

verus! {

/// Something to do below the directory that an archive is unpacked to.
#[derive(Debug, Clone, PartialEq, Eq)]
pub enum ExtractStep<P, D> {
    /// Create a directory and those above it.
    CreateDir(P),
    /// Create a file, or empty it, and fill it.
    WriteFile { path: P, data: D },
}

impl View for ExtractStep<UnixPath, Vec<u8>> {
    type V = ExtractStep<Seq<u8>, Seq<u8>>;

    open spec fn view(&self) -> ExtractStep<Seq<u8>, Seq<u8>> {
        match self {
            ExtractStep::CreateDir(path) => ExtractStep::CreateDir(path@),
            ExtractStep::WriteFile { path, data } => ExtractStep::WriteFile {
                path: path@,
                data: data@,
            },
        }
    }
}

/// The steps that a vector of them stands for.
pub open spec fn step_views(steps: Seq<ExtractStep<UnixPath, Vec<u8>>>) -> Seq<
    ExtractStep<Seq<u8>, Seq<u8>>,
> {
    steps.map_values(|step: ExtractStep<UnixPath, Vec<u8>>| step@)
}

/// Why an archive is not unpacked, or not to its end.
#[derive(Debug)]
pub enum ExtractError {
    /// Neither a zip nor a gzip file.
    UnknownType,
    /// The zip file, or one of its members, cannot be read.
    Zip(zip::result::ZipError),
    /// The data of a member, or the tar file, cannot be read.
    Io(std::io::Error),
    /// The name of a zip member may lead out of the directory.
    UnsafePath(String),
    /// A member would not be placed below the directory.
    Outside(UnixPath),
    /// A member would be placed through a `..`.
    Traversal(UnixPath),
}

/// What a reader of contracts sees of an [`ExtractError`].
pub enum ExtractFault {
    UnknownType,
    Zip,
    Io,
    UnsafePath(Seq<char>),
    Outside(Seq<u8>),
    Traversal(Seq<u8>),
}

impl View for ExtractError {
    type V = ExtractFault;

    open spec fn view(&self) -> ExtractFault {
        match self {
            ExtractError::UnknownType => ExtractFault::UnknownType,
            ExtractError::Zip(_) => ExtractFault::Zip,
            ExtractError::Io(_) => ExtractFault::Io,
            ExtractError::UnsafePath(name) => ExtractFault::UnsafePath(name@),
            ExtractError::Outside(path) => ExtractFault::Outside(path@),
            ExtractError::Traversal(path) => ExtractFault::Traversal(path@),
        }
    }
}

/// What is said of a zip member whose name may lead out of the directory.
pub open spec fn unsafe_path_text(name: Seq<char>) -> Seq<char> {
    "UI archive contains unsafe path: "@ + name
}

/// What is said of a member that would be placed through a `..`.
pub open spec fn traversal_text(path: Seq<char>) -> Seq<char> {
    "UI archive contains path traversal: "@ + path
}

/// What an error says. Where the archive cannot be read that is what the reader says, which
/// is `cause`.
pub open spec fn extract_fault_text(fault: ExtractFault, cause: Seq<char>) -> Seq<char> {
    match fault {
        ExtractFault::UnknownType => "unknown or unsupported UI archive type"@,
        ExtractFault::Zip => cause,
        ExtractFault::Io => cause,
        ExtractFault::UnsafePath(name) => unsafe_path_text(name),
        ExtractFault::Outside(_) => "prefix not found"@,
        ExtractFault::Traversal(path) => traversal_text(crate::text::lossy_text(path)),
    }
}

/// Says that the name of a zip member may lead out of the directory.
pub fn describe_unsafe_path(name: &str) -> (text: String)
    ensures
        text@ == unsafe_path_text(name@),
{
    "UI archive contains unsafe path: ".to_owned().concat(name)
}

/// Says that a member would be placed through a `..`.
pub fn describe_traversal(path: &str) -> (text: String)
    ensures
        text@ == traversal_text(path@),
{
    "UI archive contains path traversal: ".to_owned().concat(path)
}

impl ExtractError {
    /// What is wrong, in words; `cause` is what the reader of the archive says, where that
    /// is what failed.
    pub fn to_string(&self, cause: &str) -> (text: String)
        ensures
            text@ == extract_fault_text(self@, cause@),
    {
        match self {
            ExtractError::UnknownType => "unknown or unsupported UI archive type".to_owned(),
            ExtractError::Zip(_) | ExtractError::Io(_) => cause.to_owned(),
            ExtractError::UnsafePath(name) => describe_unsafe_path(name.as_str()),
            ExtractError::Outside(_) => "prefix not found".to_owned(),
            ExtractError::Traversal(path) => describe_traversal(path.to_text().as_str()),
        }
    }
}

/// An archive that is at fault, and what is unpacked of it before the fault shows.
#[derive(Debug)]
pub struct ExtractFailure {
    pub done: Vec<ExtractStep<UnixPath, Vec<u8>>>,
    pub error: ExtractError,
}

/// Where a member of an archive goes.
#[derive(Debug, Clone, PartialEq, Eq)]
pub enum Place<P> {
    /// Nowhere.
    Skip,
    /// It is the directory `path`.
    Directory(P),
    /// It is the file `path`, in the directory `parent`, if there is one.
    File { parent: Option<P>, path: P },
}

impl View for Place<UnixPath> {
    type V = Place<Seq<u8>>;

    open spec fn view(&self) -> Place<Seq<u8>> {
        match self {
            Place::Skip => Place::Skip,
            Place::Directory(path) => Place::Directory(path@),
            Place::File { parent, path } => Place::File {
                parent: match parent {
                    Some(above) => Some(above@),
                    None => None,
                },
                path: path@,
            },
        }
    }
}

/// Whether a path leads from `root` to itself or downwards, through no `..`.
pub open spec fn is_local(root: Seq<u8>, child: Seq<u8>) -> bool {
    &&& crate::path::lies_within(child, root)
    &&& forall|i: int|
        crate::path::components(root).len() <= i < crate::path::components(child).len() ==> {
            let part = #[trigger] crate::path::components(child)[i];
            part is Normal || part is CurDir
        }
}

/// What is wrong with placing a member at `child`, below `root`.
pub open spec fn local_fault(root: Seq<u8>, child: Seq<u8>) -> Option<ExtractFault> {
    if !crate::path::lies_within(child, root) {
        Some(ExtractFault::Outside(child))
    } else if !is_local(root, child) {
        Some(ExtractFault::Traversal(child))
    } else {
        None
    }
}

/// Where a member named `name` goes, below `dest`.
pub open spec fn place_of(dest: Seq<u8>, name: Seq<u8>, directory: bool) -> Result<
    Place<Seq<u8>>,
    ExtractFault,
> {
    let path = crate::path::join(dest, name);
    match local_fault(dest, path) {
        Some(fault) => Err(fault),
        None => if directory {
            Ok(Place::Directory(path))
        } else {
            Ok(Place::File { parent: crate::path::parent(path), path })
        },
    }
}

/// What is unpacked, in order, and the fault that ends it, if any.
pub struct Outcome {
    pub steps: Seq<ExtractStep<Seq<u8>, Seq<u8>>>,
    pub fault: Option<ExtractFault>,
}

/// What is unpacked of a member that goes to `place` and holds `data`, or whose data cannot
/// be read to its end, but up to where `part` ends.
pub open spec fn member_outcome(
    place: Result<Place<Seq<u8>>, ExtractFault>,
    data: Option<Seq<u8>>,
    part: Seq<u8>,
) -> Outcome {
    match place {
        Err(fault) => Outcome { steps: Seq::empty(), fault: Some(fault) },
        Ok(Place::Skip) => Outcome { steps: Seq::empty(), fault: None },
        Ok(Place::Directory(path)) => Outcome {
            steps: seq![ExtractStep::CreateDir(path)],
            fault: None,
        },
        Ok(Place::File { parent, path }) => {
            let first = match parent {
                Some(above) => seq![ExtractStep::CreateDir(above)],
                None => Seq::empty(),
            };
            match data {
                Some(bytes) => Outcome {
                    steps: first.push(ExtractStep::WriteFile { path, data: bytes }),
                    fault: None,
                },
                None => Outcome {
                    steps: first.push(ExtractStep::WriteFile { path, data: part }),
                    fault: Some(ExtractFault::Io),
                },
            }
        },
    }
}

/// Members taken one after the other, up to the first fault.
pub open spec fn until_fault(members: Seq<Outcome>) -> Outcome
    decreases members.len(),
{
    if members.len() == 0 {
        Outcome { steps: Seq::empty(), fault: None }
    } else {
        let before = until_fault(members.drop_last());
        if before.fault is Some {
            before
        } else {
            Outcome {
                steps: before.steps + members.last().steps,
                fault: members.last().fault,
            }
        }
    }
}

/// After a fault nothing counts.
proof fn lemma_fault_ends(members: Seq<Outcome>, len: int)
    requires
        0 <= len <= members.len(),
        until_fault(members.take(len)).fault is Some,
    ensures
        until_fault(members) == until_fault(members.take(len)),
    decreases members.len(),
{
    if len == members.len() {
        assert(members.take(len) =~= members);
    } else {
        assert(members.drop_last().take(len) =~= members.take(len));
        lemma_fault_ends(members.drop_last(), len);
    }
}

/// What there is of members without a fault does not depend on how others fail.
proof fn lemma_same_until_fault(one: Seq<Outcome>, other: Seq<Outcome>)
    requires
        one.len() == other.len(),
        forall|m: int| 0 <= m < one.len() && one[m].fault is None ==> #[trigger] one[m] == other[m],
        until_fault(one).fault is None,
    ensures
        until_fault(other) == until_fault(one),
    decreases one.len(),
{
    if one.len() > 0 {
        assert forall|m: int|
            0 <= m < one.drop_last().len()
                && one.drop_last()[m].fault is None implies #[trigger] one.drop_last()[m]
            == other.drop_last()[m] by {
            assert(one[m] == other[m]);
        }
        lemma_same_until_fault(one.drop_last(), other.drop_last());
        assert(one[one.len() - 1] == other[one.len() - 1]);
    }
}

/// Taking one more member.
proof fn lemma_next_member(members: Seq<Outcome>, len: int)
    requires
        0 <= len < members.len(),
        until_fault(members.take(len)).fault is None,
    ensures
        until_fault(members.take(len + 1)).steps == until_fault(members.take(len)).steps
            + members[len].steps,
        until_fault(members.take(len + 1)).fault == members[len].fault,
{
    assert(members.take(len + 1).drop_last() =~= members.take(len));
}

/// Refuses a place that is not at or below `root`, or is reached through a `..`.
pub fn ensure_local_child(root: &UnixPath, child: &UnixPath) -> (res: Result<(), ExtractError>)
    ensures
        match res {
            Ok(()) => local_fault(root@, child@) is None,
            Err(error) => local_fault(root@, child@) == Some(error@),
        },
{
    if !child.lies_within(root) {
        return Err(ExtractError::Outside(child.copied()));
    }
    let parts = child.components();
    let ghost all = crate::path::components(child@);
    let first: usize = root.components().len();
    for i in first..parts.len()
        invariant
            crate::path::lies_within(child@, root@),
            all == crate::path::components(child@),
            crate::path::component_views(parts@) == all,
            first == crate::path::components(root@).len(),
            forall|j: int| first <= j < i ==> #[trigger] all[j] is Normal || all[j] is CurDir,
    {
        assert(parts@[i as int]@ == all[i as int]);
        match &parts[i] {
            Component::Normal(_) | Component::CurDir => {},
            Component::ParentDir | Component::RootDir => {
                return Err(ExtractError::Traversal(child.copied()));
            },
        }
    }
    Ok(())
}

/// Where a member named `name` goes, below `dest`.
pub fn place_member(dest: &UnixPath, name: &[u8], directory: bool) -> (res: Result<
    Place<UnixPath>,
    ExtractError,
>)
    ensures
        match res {
            Ok(place) => place_of(dest@, name@, directory) == Ok::<_, ExtractFault>(place@),
            Err(error) => place_of(dest@, name@, directory) == Err::<Place<Seq<u8>>, _>(error@),
        },
{
    let path = dest.join(name);
    if let Err(error) = ensure_local_child(dest, &path) {
        return Err(error);
    }
    if directory {
        Ok(Place::Directory(path))
    } else {
        Ok(Place::File { parent: path.parent(), path })
    }
}

/// Where a member of a zip file goes: links are passed over, and a name that may lead
/// upwards is refused.
pub open spec fn zip_place(
    dest: Seq<u8>,
    name: Seq<char>,
    is_symlink: bool,
    is_dir: bool,
    enclosed: Option<Seq<u8>>,
) -> Result<Place<Seq<u8>>, ExtractFault> {
    if is_symlink {
        Ok(Place::Skip)
    } else {
        match enclosed {
            None => Err(ExtractFault::UnsafePath(name)),
            Some(path) => place_of(dest, path, is_dir),
        }
    }
}

/// Where a member of a zip file goes, below `dest`.
pub fn place_zip_entry(dest: &UnixPath, entry: &ZipEntry) -> (res: Result<
    Place<UnixPath>,
    ExtractError,
>)
    ensures
        ({
            let enclosed = match entry.enclosed {
                Some(path) => Some(path@),
                None => None,
            };
            let place = zip_place(
                dest@,
                entry.name@,
                entry.is_symlink,
                entry.is_dir,
                enclosed,
            );
            match res {
                Ok(found) => place == Ok::<_, ExtractFault>(found@),
                Err(error) => place == Err::<Place<Seq<u8>>, _>(error@),
            }
        }),
{
    if entry.is_symlink {
        return Ok(Place::Skip);
    }
    match &entry.enclosed {
        None => Err(ExtractError::UnsafePath(entry.name.clone())),
        Some(path) => place_member(dest, path.bytes.as_slice(), entry.is_dir),
    }
}

/// Where a member of a tar file goes: links and special files are passed over.
pub open spec fn tar_place(
    dest: Seq<u8>,
    is_symlink: bool,
    is_hard_link: bool,
    is_dir: bool,
    is_file: bool,
    path: Seq<u8>,
) -> Result<Place<Seq<u8>>, ExtractFault> {
    if is_symlink || is_hard_link || !(is_dir || is_file) {
        Ok(Place::Skip)
    } else {
        place_of(dest, path, is_dir)
    }
}

/// Where a member of a tar file goes, below `dest`.
pub fn place_tar_member(dest: &UnixPath, member: &TarMember) -> (res: Result<
    Place<UnixPath>,
    ExtractError,
>)
    ensures
        ({
            let place = tar_place(
                dest@,
                member.is_symlink,
                member.is_hard_link,
                member.is_dir,
                member.is_file,
                member.path@,
            );
            match res {
                Ok(found) => place == Ok::<_, ExtractFault>(found@),
                Err(error) => place == Err::<Place<Seq<u8>>, _>(error@),
            }
        }),
{
    if member.is_symlink || member.is_hard_link {
        return Ok(Place::Skip);
    }
    if !member.is_dir && !member.is_file {
        return Ok(Place::Skip);
    }
    place_member(dest, member.path.as_slice(), member.is_dir)
}

/// What is unpacked of the member of a zip file at `index`, if `part` is what is read of it
/// where it cannot be read to its end.
pub open spec fn zip_member(
    bytes: Seq<u8>,
    dest: Seq<u8>,
    index: nat,
    part: Seq<u8>,
) -> Outcome {
    match crate::ui::formats::zip_item(bytes, index) {
        None => Outcome { steps: Seq::empty(), fault: Some(ExtractFault::Zip) },
        Some(item) => member_outcome(
            zip_place(
                dest,
                item.name,
                item.is_symlink,
                crate::ui::formats::names_directory(item.name),
                crate::ui::formats::enclosed_path(item.name),
            ),
            crate::ui::formats::zip_data(bytes, index),
            part,
        ),
    }
}

/// What is unpacked of the members of a zip file.
pub open spec fn zip_members(bytes: Seq<u8>, dest: Seq<u8>, part: Seq<u8>) -> Seq<Outcome> {
    Seq::new(
        crate::ui::formats::zip_len(bytes),
        |i: int| zip_member(bytes, dest, i as nat, part),
    )
}

/// What is unpacked of a zip file, if `part` is what is read of a member that cannot be read
/// to its end.
pub open spec fn zip_outcome(bytes: Seq<u8>, dest: Seq<u8>, part: Seq<u8>) -> Outcome {
    if crate::ui::formats::zip_opens(bytes) {
        until_fault(zip_members(bytes, dest, part))
    } else {
        Outcome { steps: Seq::empty(), fault: Some(ExtractFault::Zip) }
    }
}

/// What is unpacked of one item of a tar file, if `part` is what is read of it where it
/// cannot be read to its end.
pub open spec fn tar_member(
    dest: Seq<u8>,
    item: crate::ui::formats::TarItem,
    part: Seq<u8>,
) -> Outcome {
    match item {
        crate::ui::formats::TarItem::Broken => Outcome {
            steps: Seq::empty(),
            fault: Some(ExtractFault::Io),
        },
        crate::ui::formats::TarItem::Member {
            is_symlink,
            is_hard_link,
            is_dir,
            is_file,
            path,
            data,
        } => member_outcome(
            tar_place(dest, is_symlink, is_hard_link, is_dir, is_file, path),
            data,
            part,
        ),
    }
}

/// What is unpacked of the members of a gzipped tar file.
pub open spec fn tar_members(bytes: Seq<u8>, dest: Seq<u8>, part: Seq<u8>) -> Seq<Outcome> {
    crate::ui::formats::tar_items(bytes).map_values(
        |item: crate::ui::formats::TarItem| tar_member(dest, item, part),
    )
}

/// What is unpacked of a gzipped tar file, if `part` is what is read of a member that cannot
/// be read to its end.
pub open spec fn tar_outcome(bytes: Seq<u8>, dest: Seq<u8>, part: Seq<u8>) -> Outcome {
    until_fault(tar_members(bytes, dest, part))
}

/// Whether a file opens as a zip file does.
pub open spec fn is_zip(bytes: Seq<u8>) -> bool {
    bytes.len() >= 4 && bytes.take(4) == seq![0x50u8, 0x4b, 0x03, 0x04]
}

/// Whether a file opens as a gzip file does.
pub open spec fn is_gzip(bytes: Seq<u8>) -> bool {
    bytes.len() >= 2 && bytes.take(2) == seq![0x1fu8, 0x8b]
}

/// What is unpacked of an archive, whose kind its first bytes tell, if `part` is what is
/// read of a member that cannot be read to its end.
pub open spec fn archive_outcome(bytes: Seq<u8>, dest: Seq<u8>, part: Seq<u8>) -> Outcome {
    if is_zip(bytes) {
        zip_outcome(bytes, dest, part)
    } else if is_gzip(bytes) {
        tar_outcome(bytes, dest, part)
    } else {
        Outcome { steps: Seq::empty(), fault: Some(ExtractFault::UnknownType) }
    }
}

/// Whether a result is what an outcome says.
pub open spec fn reports(
    res: Result<Vec<ExtractStep<UnixPath, Vec<u8>>>, ExtractFailure>,
    outcome: Outcome,
) -> bool {
    match res {
        Ok(steps) => outcome.fault is None && step_views(steps@) == outcome.steps,
        Err(failure) => outcome.fault == Some(failure.error@) && step_views(failure.done@)
            == outcome.steps,
    }
}

/// Adds the steps for the directory of a file, or for a directory.
fn push_dir(steps: &mut Vec<ExtractStep<UnixPath, Vec<u8>>>, path: UnixPath)
    ensures
        step_views(final(steps)@) == step_views(old(steps)@).push(ExtractStep::CreateDir(path@)),
{
    steps.push(ExtractStep::CreateDir(path));
    assert(step_views(steps@) =~= step_views(old(steps)@).push(ExtractStep::CreateDir(path@)));
}

/// Adds the step for a file.
fn push_file(steps: &mut Vec<ExtractStep<UnixPath, Vec<u8>>>, path: UnixPath, data: Vec<u8>)
    ensures
        step_views(final(steps)@) == step_views(old(steps)@).push(
            ExtractStep::WriteFile { path: path@, data: data@ },
        ),
{
    steps.push(ExtractStep::WriteFile { path, data });
    assert(step_views(steps@) =~= step_views(old(steps)@).push(
        ExtractStep::WriteFile { path: path@, data: data@ },
    ));
}

/// What a zip file unpacks to, below `dest`. How much there is of a member that cannot be
/// read to its end is left open.
pub fn extract_zip(bytes: &[u8], dest: &UnixPath) -> (res: Result<
    Vec<ExtractStep<UnixPath, Vec<u8>>>,
    ExtractFailure,
>)
    ensures
        exists|part: Seq<u8>| reports(res, #[trigger] zip_outcome(bytes@, dest@, part)),
{
    let mut steps: Vec<ExtractStep<UnixPath, Vec<u8>>> = Vec::new();
    let ghost none = Seq::<u8>::empty();
    let ghost outcome = zip_outcome(bytes@, dest@, none);
    assert(step_views(steps@) =~= Seq::empty());
    let mut archive = match open_zip(bytes) {
        Ok(archive) => archive,
        Err(error) => {
            return Err(ExtractFailure { done: steps, error: ExtractError::Zip(error) });
        },
    };
    let len = count_zip(&archive);
    let ghost members = zip_members(bytes@, dest@, none);
    assert(members.take(0) =~= Seq::empty());
    for i in 0..len
        invariant
            crate::ui::formats::zip_opens(bytes@),
            crate::ui::formats::zip_source(archive) == bytes@,
            none == Seq::<u8>::empty(),
            outcome == zip_outcome(bytes@, dest@, none),
            members == zip_members(bytes@, dest@, none),
            len == members.len(),
            until_fault(members.take(i as int)).fault is None,
            step_views(steps@) == until_fault(members.take(i as int)).steps,
    {
        let ghost before = step_views(steps@);
        proof {
            lemma_next_member(members, i as int);
            if until_fault(members.take(i + 1)).fault is Some {
                lemma_fault_ends(members, i + 1);
            }
        }
        let entry = match zip_entry(&mut archive, i) {
            Ok(entry) => entry,
            Err(error) => {
                assert(step_views(steps@) =~= before + members[i as int].steps);
                return Err(ExtractFailure { done: steps, error: ExtractError::Zip(error) });
            },
        };
        let place = match place_zip_entry(dest, &entry) {
            Ok(place) => place,
            Err(error) => {
                assert(step_views(steps@) =~= before + members[i as int].steps);
                return Err(ExtractFailure { done: steps, error });
            },
        };
        match place {
            Place::Skip => {},
            Place::Directory(path) => push_dir(&mut steps, path),
            Place::File { parent, path } => {
                if let Some(above) = parent {
                    push_dir(&mut steps, above);
                }
                match read_zip(&mut archive, i) {
                    Ok(data) => push_file(&mut steps, path, data),
                    Err(Unread { data, error }) => {
                        let ghost part = data@;
                        push_file(&mut steps, path, data);
                        proof {
                            let others = zip_members(bytes@, dest@, part);
                            assert(step_views(steps@) =~= before + others[i as int].steps);
                            lemma_part_shows(members, others, i as int);
                            assert(zip_outcome(bytes@, dest@, part) == until_fault(others));
                        }
                        return Err(ExtractFailure { done: steps, error: ExtractError::Io(error) });
                    },
                }
            },
        }
        assert(step_views(steps@) =~= before + members[i as int].steps);
    }
    assert(members.take(len as int) =~= members);
    Ok(steps)
}

/// Where the first member at fault is one that cannot be read to its end.
proof fn lemma_part_shows(members: Seq<Outcome>, others: Seq<Outcome>, len: int)
    requires
        0 <= len < members.len(),
        members.len() == others.len(),
        forall|m: int|
            0 <= m < members.len() && members[m].fault is None ==> #[trigger] members[m]
                == others[m],
        until_fault(members.take(len)).fault is None,
        others[len].fault is Some,
    ensures
        until_fault(others).steps == until_fault(members.take(len)).steps + others[len].steps,
        until_fault(others).fault == others[len].fault,
{
    assert forall|m: int|
        0 <= m < members.take(len).len()
            && members.take(len)[m].fault is None implies #[trigger] members.take(len)[m]
        == others.take(len)[m] by {
        assert(members[m] == others[m]);
    }
    lemma_same_until_fault(members.take(len), others.take(len));
    lemma_next_member(others, len);
    lemma_fault_ends(others, len + 1);
}

/// What a gzipped tar file unpacks to, below `dest`. How much there is of a member that
/// cannot be read to its end is left open.
pub fn extract_tar_gz(bytes: &[u8], dest: &UnixPath) -> (res: Result<
    Vec<ExtractStep<UnixPath, Vec<u8>>>,
    ExtractFailure,
>)
    ensures
        exists|part: Seq<u8>| reports(res, #[trigger] tar_outcome(bytes@, dest@, part)),
{
    let mut steps: Vec<ExtractStep<UnixPath, Vec<u8>>> = Vec::new();
    let ghost none = Seq::<u8>::empty();
    let ghost outcome = tar_outcome(bytes@, dest@, none);
    assert(step_views(steps@) =~= Seq::empty());
    let mut archive = open_tar_gz(bytes);
    let mut entries = match tar_entries(&mut archive) {
        Ok(entries) => entries,
        Err(error) => {
            return Err(ExtractFailure { done: steps, error: ExtractError::Io(error) });
        },
    };
    let ghost items = crate::ui::formats::tar_items(bytes@);
    let ghost members = tar_members(bytes@, dest@, none);
    let ghost mut at: int = 0;
    assert(members.take(0) =~= Seq::empty());
    assert(items.skip(0) =~= items);
    loop
        invariant
            none == Seq::<u8>::empty(),
            outcome == tar_outcome(bytes@, dest@, none),
            items == crate::ui::formats::tar_items(bytes@),
            members == tar_members(bytes@, dest@, none),
            0 <= at <= members.len(),
            crate::ui::formats::tar_left(entries) == items.skip(at),
            until_fault(members.take(at)).fault is None,
            step_views(steps@) == until_fault(members.take(at)).steps,
        decreases members.len() - at,
    {
        let ghost before = step_views(steps@);
        proof {
            if at < members.len() {
                lemma_next_member(members, at);
                if until_fault(members.take(at + 1)).fault is Some {
                    lemma_fault_ends(members, at + 1);
                }
                assert(items.skip(at).drop_first() =~= items.skip(at + 1));
                assert(items.skip(at).first() == items[at]);
            }
        }
        let member = match next_member(&mut entries) {
            None => {
                assert(members.take(at) =~= members);
                return Ok(steps);
            },
            Some(Err(error)) => {
                assert(step_views(steps@) =~= before + members[at].steps);
                return Err(ExtractFailure { done: steps, error: ExtractError::Io(error) });
            },
            Some(Ok(member)) => member,
        };
        let place = match place_tar_member(dest, &member) {
            Ok(place) => place,
            Err(error) => {
                assert(step_views(steps@) =~= before + members[at].steps);
                return Err(ExtractFailure { done: steps, error });
            },
        };
        match place {
            Place::Skip => {},
            Place::Directory(path) => push_dir(&mut steps, path),
            Place::File { parent, path } => {
                if let Some(above) = parent {
                    push_dir(&mut steps, above);
                }
                match read_member(&mut entries) {
                    Ok(data) => push_file(&mut steps, path, data),
                    Err(Unread { data, error }) => {
                        let ghost part = data@;
                        push_file(&mut steps, path, data);
                        proof {
                            let others = tar_members(bytes@, dest@, part);
                            assert(step_views(steps@) =~= before + others[at].steps);
                            lemma_part_shows(members, others, at);
                            assert(tar_outcome(bytes@, dest@, part) == until_fault(others));
                        }
                        return Err(ExtractFailure { done: steps, error: ExtractError::Io(error) });
                    },
                }
            },
        }
        assert(step_views(steps@) =~= before + members[at].steps);
        proof {
            at = at + 1;
        }
    }
}

/// What an archive unpacks to, below `dest`; its first bytes tell its kind. How much there is
/// of a member that cannot be read to its end is left open.
pub fn extract_archive(bytes: &[u8], dest: &UnixPath) -> (res: Result<
    Vec<ExtractStep<UnixPath, Vec<u8>>>,
    ExtractFailure,
>)
    ensures
        exists|part: Seq<u8>| reports(res, #[trigger] archive_outcome(bytes@, dest@, part)),
{
    if bytes.len() >= 4 && bytes[0] == 0x50 && bytes[1] == 0x4b && bytes[2] == 0x03 && bytes[3]
        == 0x04 {
        assert(bytes@.take(4) =~= seq![0x50u8, 0x4b, 0x03, 0x04]);
        let res = extract_zip(bytes, dest);
        proof {
            let part = choose|part: Seq<u8>|
                reports(res, #[trigger] zip_outcome(bytes@, dest@, part));
            assert(reports(res, archive_outcome(bytes@, dest@, part)));
        }
        return res;
    }
    proof {
        if is_zip(bytes@) {
            assert(bytes@.take(4)[0] == 0x50 && bytes@.take(4)[1] == 0x4b && bytes@.take(4)[2]
                == 0x03 && bytes@.take(4)[3] == 0x04);
        }
    }
    if bytes.len() >= 2 && bytes[0] == 0x1f && bytes[1] == 0x8b {
        assert(bytes@.take(2) =~= seq![0x1fu8, 0x8b]);
        let res = extract_tar_gz(bytes, dest);
        proof {
            let part = choose|part: Seq<u8>|
                reports(res, #[trigger] tar_outcome(bytes@, dest@, part));
            assert(reports(res, archive_outcome(bytes@, dest@, part)));
        }
        return res;
    }
    proof {
        if is_gzip(bytes@) {
            assert(bytes@.take(2)[0] == 0x1f && bytes@.take(2)[1] == 0x8b);
        }
    }
    let done: Vec<ExtractStep<UnixPath, Vec<u8>>> = Vec::new();
    assert(step_views(done@) =~= Seq::empty());
    let ghost outcome = archive_outcome(bytes@, dest@, Seq::empty());
    Err(ExtractFailure { done, error: ExtractError::UnknownType })
}

/// Whether a step stays below `dest`. A directory may also be the one that holds `dest`.
pub open spec fn step_is_local(dest: Seq<u8>, step: ExtractStep<Seq<u8>, Seq<u8>>) -> bool {
    match step {
        ExtractStep::WriteFile { path, .. } => is_local(dest, path),
        ExtractStep::CreateDir(path) => is_local(dest, path) || (crate::path::components(
            dest,
        ).len() > 0 && crate::path::components(path) == crate::path::components(
            dest,
        ).drop_last()),
    }
}

/// The directory of a local path is local too, or the one that holds `dest`.
proof fn lemma_parent_is_local(dest: Seq<u8>, path: Seq<u8>)
    requires
        is_local(dest, path),
    ensures
        match crate::path::parent(path) {
            Some(above) => step_is_local(dest, ExtractStep::CreateDir(above)),
            None => true,
        },
{
    crate::path::law_parent_drops_last_component(path);
    if let Some(above) = crate::path::parent(path) {
        let all = crate::path::components(path);
        let first = crate::path::components(dest);
        if all.len() == first.len() {
            assert(all =~= first);
        } else {
            assert(first =~= all.drop_last().subrange(0, first.len() as int));
            assert forall|i: int| first.len() <= i < all.drop_last().len() implies ({
                let part = #[trigger] crate::path::components(above)[i];
                part is Normal || part is CurDir
            }) by {
                assert(crate::path::components(above)[i] == all[i]);
            }
        }
    }
}

/// The steps of one member stay below `dest`.
proof fn lemma_member_is_local(
    dest: Seq<u8>,
    name: Seq<u8>,
    directory: bool,
    data: Option<Seq<u8>>,
    part: Seq<u8>,
)
    ensures
        stays_below(member_outcome(place_of(dest, name, directory), data, part), dest),
{
    let path = crate::path::join(dest, name);
    if is_local(dest, path) {
        lemma_parent_is_local(dest, path);
    }
}

/// Members that stay below `dest` do so together.
proof fn lemma_all_local(dest: Seq<u8>, members: Seq<Outcome>)
    requires
        forall|m: int, i: int|
            0 <= m < members.len() && 0 <= i < members[m].steps.len() ==> step_is_local(
                dest,
                #[trigger] members[m].steps[i],
            ),
    ensures
        forall|i: int|
            0 <= i < until_fault(members).steps.len() ==> step_is_local(
                dest,
                #[trigger] until_fault(members).steps[i],
            ),
    decreases members.len(),
{
    if members.len() > 0 {
        let before = members.drop_last();
        assert forall|m: int, i: int|
            0 <= m < before.len() && 0 <= i < before[m].steps.len() implies step_is_local(
            dest,
            #[trigger] before[m].steps[i],
        ) by {
            assert(before[m] == members[m]);
            assert(step_is_local(dest, members[m].steps[i]));
        }
        lemma_all_local(dest, before);
        let last = members.len() - 1;
        assert forall|i: int| 0 <= i < until_fault(members).steps.len() implies step_is_local(
            dest,
            #[trigger] until_fault(members).steps[i],
        ) by {
            let kept = until_fault(before).steps.len();
            if until_fault(before).fault is None && i >= kept {
                assert(step_is_local(dest, members[last].steps[i - kept]));
            } else {
                assert(step_is_local(dest, until_fault(before).steps[i]));
            }
        }
    }
}

/// Whether unpacking writes no file outside `dest` or through a `..`, and creates no
/// directory there but the one that holds `dest`.
pub open spec fn stays_below(outcome: Outcome, dest: Seq<u8>) -> bool {
    forall|i: int|
        0 <= i < outcome.steps.len() ==> step_is_local(dest, #[trigger] outcome.steps[i])
}

/// Whatever a zip file holds, unpacking it stays below `dest`.
pub proof fn law_zip_unpacking_stays_below(bytes: Seq<u8>, dest: Seq<u8>, part: Seq<u8>)
    ensures
        stays_below(zip_outcome(bytes, dest, part), dest),
{
    let members = zip_members(bytes, dest, part);
    assert forall|m: int, i: int|
        0 <= m < members.len() && 0 <= i < members[m].steps.len() implies step_is_local(
        dest,
        #[trigger] members[m].steps[i],
    ) by {
        if let Some(item) = crate::ui::formats::zip_item(bytes, m as nat) {
            if let Some(path) = crate::ui::formats::enclosed_path(item.name) {
                lemma_member_is_local(
                    dest,
                    path,
                    crate::ui::formats::names_directory(item.name),
                    crate::ui::formats::zip_data(bytes, m as nat),
                    part,
                );
            }
        }
    }
    lemma_all_local(dest, members);
}

/// Whatever a gzipped tar file holds, unpacking it stays below `dest`.
pub proof fn law_tar_unpacking_stays_below(bytes: Seq<u8>, dest: Seq<u8>, part: Seq<u8>)
    ensures
        stays_below(tar_outcome(bytes, dest, part), dest),
{
    let items = crate::ui::formats::tar_items(bytes);
    let members = tar_members(bytes, dest, part);
    assert forall|m: int, i: int|
        0 <= m < members.len() && 0 <= i < members[m].steps.len() implies step_is_local(
        dest,
        #[trigger] members[m].steps[i],
    ) by {
        if let crate::ui::formats::TarItem::Member { is_dir, path, data, .. } = items[m] {
            lemma_member_is_local(dest, path, is_dir, data, part);
        }
    }
    lemma_all_local(dest, members);
}

/// Whatever an archive holds, unpacking it stays below `dest`.
pub proof fn law_unpacking_stays_below(bytes: Seq<u8>, dest: Seq<u8>, part: Seq<u8>)
    ensures
        stays_below(archive_outcome(bytes, dest, part), dest),
{
    if is_zip(bytes) {
        law_zip_unpacking_stays_below(bytes, dest, part);
    } else if is_gzip(bytes) {
        law_tar_unpacking_stays_below(bytes, dest, part);
    }
}

/// Whether two outcomes have the same fault, and are the same unless data could not be read.
pub open spec fn is_alike(one: Outcome, other: Outcome) -> bool {
    one.fault == other.fault && (one.fault == Some(ExtractFault::Io) || one == other)
}

/// Members that are alike one by one are so together.
proof fn lemma_all_alike(one: Seq<Outcome>, other: Seq<Outcome>)
    requires
        one.len() == other.len(),
        forall|m: int| 0 <= m < one.len() ==> is_alike(#[trigger] one[m], other[m]),
    ensures
        is_alike(until_fault(one), until_fault(other)),
    decreases one.len(),
{
    if one.len() > 0 {
        assert forall|m: int| 0 <= m < one.drop_last().len() implies is_alike(
            #[trigger] one.drop_last()[m],
            other.drop_last()[m],
        ) by {
            assert(is_alike(one[m], other[m]));
        }
        lemma_all_alike(one.drop_last(), other.drop_last());
        assert(is_alike(one[one.len() - 1], other[one.len() - 1]));
    }
}

/// How much is read of a member that cannot be read to its end matters to nothing else: the
/// fault is the same, and where the fault is another one, or there is none, so is all that
/// is unpacked.
pub proof fn law_only_unreadable_data_is_left_open(
    bytes: Seq<u8>,
    dest: Seq<u8>,
    part: Seq<u8>,
    other: Seq<u8>,
)
    ensures
        is_alike(zip_outcome(bytes, dest, part), zip_outcome(bytes, dest, other)),
        is_alike(tar_outcome(bytes, dest, part), tar_outcome(bytes, dest, other)),
        is_alike(archive_outcome(bytes, dest, part), archive_outcome(bytes, dest, other)),
{
    lemma_all_alike(zip_members(bytes, dest, part), zip_members(bytes, dest, other));
    lemma_all_alike(tar_members(bytes, dest, part), tar_members(bytes, dest, other));
}

/// A member that is refused makes the whole archive fail.
proof fn lemma_member_fault_shows(members: Seq<Outcome>, index: int)
    requires
        0 <= index < members.len(),
        members[index].fault is Some,
    ensures
        until_fault(members).fault is Some,
{
    if until_fault(members.take(index)).fault is Some {
        lemma_fault_ends(members, index);
    } else {
        lemma_next_member(members, index);
        lemma_fault_ends(members, index + 1);
    }
}

/// A name with a `..` segment is refused, wherever it would lead.
proof fn lemma_parent_segment_is_refused(dest: Seq<u8>, name: Seq<u8>, directory: bool)
    requires
        crate::path::components(name).contains(Component::ParentDir),
        !crate::path::is_absolute(name) || !crate::path::components(dest).contains(
            Component::ParentDir,
        ),
    ensures
        place_of(dest, name, directory) is Err,
{
    let path = crate::path::join(dest, name);
    let own = crate::path::components(name);
    let at = choose|i: int| 0 <= i < own.len() && own[i] == Component::<Seq<u8>>::ParentDir;
    let skipped = crate::path::lead(name).len();
    let tail = crate::path::segment_parts(crate::path::segments(name));
    assert(own == crate::path::lead(name) + tail);
    assert(at >= skipped);
    assert(tail[at - skipped] is ParentDir);
    if crate::path::is_absolute(name) {
        let first = crate::path::components(dest);
        assert(own[at] is ParentDir);
        if crate::path::lies_within(path, dest) && at < first.len() {
            assert(own.subrange(0, first.len() as int)[at] == own[at]);
            assert(first.contains(first[at]));
        }
    } else if dest.len() > 0 {
        crate::path::lemma_join_components(dest, name);
        let place = crate::path::components(dest).len() + at - skipped;
        assert(crate::path::components(path)[place] is ParentDir);
    } else {
        crate::path::lemma_empty_path(dest);
        assert(path =~= name);
        assert(crate::path::components(path)[at] is ParentDir);
    }
}

/// A run of components that starts at the root has no depth.
proof fn lemma_rooted_has_no_depth(parts: Seq<Component<Seq<u8>>>)
    requires
        parts.len() > 0,
        parts[0] is RootDir,
    ensures
        crate::ui::formats::depth(parts) is None,
    decreases parts.len(),
{
    if parts.len() > 1 {
        assert(parts.drop_last()[0] is RootDir);
        lemma_rooted_has_no_depth(parts.drop_last());
    } else {
        assert(parts.last() is RootDir);
    }
}

/// A zip file with a member, not a link, whose name has a `..` segment is refused.
pub proof fn law_zip_traversal_is_refused(
    bytes: Seq<u8>,
    dest: Seq<u8>,
    part: Seq<u8>,
    index: nat,
    item: crate::ui::formats::ZipItem,
)
    requires
        index < crate::ui::formats::zip_len(bytes),
        crate::ui::formats::zip_item(bytes, index) == Some(item),
        !item.is_symlink,
        crate::path::components(vstd::utf8::encode_utf8(item.name)).contains(Component::ParentDir),
    ensures
        zip_outcome(bytes, dest, part).fault is Some,
{
    let members = zip_members(bytes, dest, part);
    let path = vstd::utf8::encode_utf8(item.name);
    if crate::ui::formats::enclosed_path(item.name) is Some {
        if crate::path::is_absolute(path) {
            assert(crate::path::components(path)[0] is RootDir);
            lemma_rooted_has_no_depth(crate::path::components(path));
        }
        lemma_parent_segment_is_refused(
            dest,
            path,
            crate::ui::formats::names_directory(item.name),
        );
    }
    assert(members[index as int].fault is Some);
    lemma_member_fault_shows(members, index as int);
}

/// A tar file with a file or directory whose name has a `..` segment is refused (where the
/// name is absolute, that takes a `dest` that has none itself).
pub proof fn law_tar_traversal_is_refused(
    bytes: Seq<u8>,
    dest: Seq<u8>,
    part: Seq<u8>,
    index: int,
)
    requires
        0 <= index < crate::ui::formats::tar_items(bytes).len(),
        match crate::ui::formats::tar_items(bytes)[index] {
            crate::ui::formats::TarItem::Member {
                is_symlink,
                is_hard_link,
                is_dir,
                is_file,
                path,
                ..
            } => {
                &&& !is_symlink && !is_hard_link
                &&& is_dir || is_file
                &&& crate::path::components(path).contains(Component::ParentDir)
                &&& !crate::path::is_absolute(path) || !crate::path::components(dest).contains(
                    Component::ParentDir,
                )
            },
            crate::ui::formats::TarItem::Broken => false,
        },
    ensures
        tar_outcome(bytes, dest, part).fault is Some,
{
    let items = crate::ui::formats::tar_items(bytes);
    let members = tar_members(bytes, dest, part);
    if let crate::ui::formats::TarItem::Member { is_dir, path, .. } = items[index] {
        lemma_parent_segment_is_refused(dest, path, is_dir);
    }
    assert(members[index].fault is Some);
    lemma_member_fault_shows(members, index);
}

/// What is unpacked of the first members stays so, and comes first, whatever follows.
proof fn lemma_first_members_stay(members: Seq<Outcome>, len: int)
    requires
        0 <= len <= members.len(),
        until_fault(members.take(len)).fault is None,
    ensures
        until_fault(members.take(len)).steps.is_prefix_of(until_fault(members).steps),
    decreases members.len(),
{
    let first = until_fault(members.take(len)).steps;
    if len == members.len() {
        assert(members.take(len) =~= members);
        assert(first =~= first.subrange(0, first.len() as int));
    } else {
        assert(members.drop_last().take(len) =~= members.take(len));
        lemma_first_members_stay(members.drop_last(), len);
        let before = until_fault(members.drop_last()).steps;
        assert(first =~= until_fault(members).steps.subrange(0, first.len() as int));
    }
}

/// Where the members up to one have no fault, what is unpacked of that one is among all that
/// is unpacked, in one stretch.
proof fn lemma_member_is_unpacked(members: Seq<Outcome>, index: int) -> (start: int)
    requires
        0 <= index < members.len(),
        forall|m: int| 0 <= m <= index ==> (#[trigger] members[m]).fault is None,
    ensures
        start == until_fault(members.take(index)).steps.len(),
        0 <= start,
        start + members[index].steps.len() <= until_fault(members).steps.len(),
        until_fault(members).steps.subrange(start, start + members[index].steps.len())
            == members[index].steps,
{
    lemma_no_fault_so_far(members, index);
    lemma_next_member(members, index);
    lemma_first_members_stay(members, index + 1);
    let start = until_fault(members.take(index)).steps.len() as int;
    let some = until_fault(members.take(index + 1)).steps;
    let all = until_fault(members).steps;
    let own = members[index].steps;
    assert(all.subrange(start, start + own.len()) =~= own) by {
        assert forall|k: int| 0 <= k < own.len() implies all[start + k] == own[k] by {
            assert(some[start + k] == own[k]);
            assert(all.subrange(0, some.len() as int)[start + k] == some[start + k]);
        }
    }
    start
}

/// Members without a fault have none together.
proof fn lemma_no_fault_so_far(members: Seq<Outcome>, len: int)
    requires
        0 <= len <= members.len(),
        forall|m: int| 0 <= m < len ==> (#[trigger] members[m]).fault is None,
    ensures
        until_fault(members.take(len)).fault is None,
    decreases len,
{
    if len > 0 {
        lemma_no_fault_so_far(members, len - 1);
        lemma_next_member(members, len - 1);
    } else {
        assert(members.take(0) =~= Seq::empty());
    }
}

/// Where there is no fault, no member has one.
proof fn lemma_no_member_is_at_fault(members: Seq<Outcome>)
    requires
        until_fault(members).fault is None,
    ensures
        forall|m: int| 0 <= m < members.len() ==> (#[trigger] members[m]).fault is None,
{
    assert forall|m: int| 0 <= m < members.len() implies (#[trigger] members[m]).fault
        is None by {
        if members[m].fault is Some {
            lemma_member_fault_shows(members, m);
        }
    }
}

/// Whatever is unpacked is unpacked of a member, and the fault is that of one.
proof fn lemma_steps_come_from_members(members: Seq<Outcome>)
    ensures
        forall|i: int|
            0 <= i < until_fault(members).steps.len() ==> comes_from(
                members,
                #[trigger] until_fault(members).steps[i],
            ),
        until_fault(members).fault is Some ==> exists|m: int|
            0 <= m < members.len() && (#[trigger] members[m]).fault == until_fault(members).fault,
    decreases members.len(),
{
    if members.len() > 0 {
        let before = members.drop_last();
        let last = members.len() - 1;
        lemma_steps_come_from_members(before);
        assert forall|i: int| 0 <= i < until_fault(members).steps.len() implies comes_from(
            members,
            #[trigger] until_fault(members).steps[i],
        ) by {
            let step = until_fault(members).steps[i];
            let kept = until_fault(before).steps.len();
            if until_fault(before).fault is None && i >= kept {
                assert(members[last].steps[i - kept] == step);
                assert(members[last].steps.contains(step));
            } else {
                assert(until_fault(before).steps[i] == step);
                let m = choose|m: int|
                    0 <= m < before.len() && (#[trigger] before[m]).steps.contains(step);
                assert(members[m].steps.contains(step));
            }
        }
        if until_fault(members).fault is Some {
            if until_fault(before).fault is Some {
                let m = choose|m: int|
                    0 <= m < before.len() && (#[trigger] before[m]).fault == until_fault(
                        before,
                    ).fault;
                assert(members[m].fault == until_fault(members).fault);
            } else {
                assert(members[last].fault == until_fault(members).fault);
            }
        }
    }
}

/// Whether a step is one of those of a member.
pub open spec fn comes_from(
    members: Seq<Outcome>,
    step: ExtractStep<Seq<u8>, Seq<u8>>,
) -> bool {
    exists|m: int| 0 <= m < members.len() && (#[trigger] members[m]).steps.contains(step)
}

/// Whether a directory is created somewhere in what is unpacked.
pub open spec fn creates(outcome: Outcome, path: Seq<u8>) -> bool {
    exists|i: int|
        0 <= i < outcome.steps.len() && #[trigger] outcome.steps[i] == (ExtractStep::<
            Seq<u8>,
            Seq<u8>,
        >::CreateDir(path))
}

/// Whether a file is written somewhere in what is unpacked, right after the directory that
/// holds it, if the path tells one, is created.
pub open spec fn writes(outcome: Outcome, path: Seq<u8>, data: Seq<u8>) -> bool {
    exists|i: int|
        {
            &&& 0 <= i < outcome.steps.len()
            &&& #[trigger] outcome.steps[i] == (ExtractStep::<Seq<u8>, Seq<u8>>::WriteFile {
                path,
                data,
            })
            &&& match crate::path::parent(path) {
                Some(above) => 0 < i && outcome.steps[i - 1] == (ExtractStep::<
                    Seq<u8>,
                    Seq<u8>,
                >::CreateDir(above)),
                None => true,
            }
        }
}

/// Whether a path, followed from elsewhere, leads downwards only: it is relative, and holds no
/// `..`.
pub open spec fn leads_down(path: Seq<u8>) -> bool {
    forall|i: int|
        0 <= i < crate::path::components(path).len() ==> {
            let part = #[trigger] crate::path::components(path)[i];
            !(part is RootDir) && !(part is ParentDir)
        }
}

/// What leads downwards is placed at or below where it is followed from.
proof fn lemma_leading_down_is_local(dest: Seq<u8>, name: Seq<u8>)
    requires
        leads_down(name),
    ensures
        local_fault(dest, crate::path::join(dest, name)) is None,
{
    let own = crate::path::components(name);
    let tail = crate::path::segment_parts(crate::path::segments(name));
    let skipped = crate::path::lead(name).len();
    let path = crate::path::join(dest, name);
    if crate::path::is_absolute(name) {
        assert(own[0] is RootDir);
    }
    crate::path::law_join_lies_within(dest, name);
    let first = crate::path::components(dest);
    assert forall|i: int| first.len() <= i < crate::path::components(path).len() implies ({
        let part = #[trigger] crate::path::components(path)[i];
        part is Normal || part is CurDir
    }) by {
        if dest.len() > 0 {
            crate::path::lemma_join_components(dest, name);
            assert(crate::path::components(path)[i] == tail[i - first.len()]);
            assert(own[i - first.len() + skipped] == tail[i - first.len()]);
        } else {
            crate::path::lemma_empty_path(dest);
            assert(path =~= name);
            assert(own[i] == crate::path::components(path)[i]);
        }
    }
}

/// What leads downwards has a depth.
proof fn lemma_leading_down_has_a_depth(parts: Seq<Component<Seq<u8>>>)
    requires
        forall|i: int|
            0 <= i < parts.len() ==> !((#[trigger] parts[i]) is RootDir) && !(parts[i]
                is ParentDir),
    ensures
        crate::ui::formats::depth(parts) is Some,
    decreases parts.len(),
{
    if parts.len() > 0 {
        let before = parts.drop_last();
        assert forall|i: int| 0 <= i < before.len() implies !((#[trigger] before[i]) is RootDir)
            && !(before[i] is ParentDir) by {
            assert(before[i] == parts[i]);
        }
        lemma_leading_down_has_a_depth(before);
        assert(parts[parts.len() - 1] == parts.last());
    }
}

/// What comes of a member that is placed.
proof fn lemma_placed_member(
    outcome: Outcome,
    start: int,
    dest: Seq<u8>,
    name: Seq<u8>,
    directory: bool,
    data: Option<Seq<u8>>,
    part: Seq<u8>,
)
    requires
        member_outcome(place_of(dest, name, directory), data, part).fault is None,
        0 <= start,
        start + member_outcome(place_of(dest, name, directory), data, part).steps.len()
            <= outcome.steps.len(),
        outcome.steps.subrange(
            start,
            start + member_outcome(place_of(dest, name, directory), data, part).steps.len(),
        ) == member_outcome(place_of(dest, name, directory), data, part).steps,
    ensures
        directory ==> creates(outcome, crate::path::join(dest, name)),
        !directory ==> data is Some && writes(outcome, crate::path::join(dest, name), data->0),
{
    let own = member_outcome(place_of(dest, name, directory), data, part).steps;
    let all = outcome.steps;
    assert forall|k: int| 0 <= k < own.len() implies all[start + k] == own[k] by {
        assert(all.subrange(start, start + own.len())[k] == all[start + k]);
    }
    if directory {
        assert(all[start] == own[0]);
    } else {
        let last = own.len() - 1;
        assert(all[start + last] == own[last]);
        if last > 0 {
            assert(all[start] == own[0]);
        }
    }
}

/// Whether the name of a zip member is that of a directory.
pub open spec fn ends_as_directory(name: Seq<char>) -> bool {
    name.len() > 0 && (name[name.len() - 1] == '/' || name[name.len() - 1] == '\\')
}

/// Whether there is nothing wrong with a member of a zip file: it is a link, or a directory or
/// readable file with a name that leads downwards only.
pub open spec fn zip_member_is_sound(bytes: Seq<u8>, index: nat) -> bool {
    match crate::ui::formats::zip_item(bytes, index) {
        Some(item) => item.is_symlink || {
            &&& !item.name.contains('\0')
            &&& leads_down(vstd::utf8::encode_utf8(item.name))
            &&& ends_as_directory(item.name) || crate::ui::formats::zip_data(bytes, index) is Some
        },
        None => false,
    }
}

/// The sound members of a zip file are those without a fault.
proof fn lemma_sound_zip_member(bytes: Seq<u8>, dest: Seq<u8>, part: Seq<u8>, index: nat)
    ensures
        zip_member_is_sound(bytes, index) <==> zip_member(bytes, dest, index, part).fault is None,
{
    if let Some(item) = crate::ui::formats::zip_item(bytes, index) {
        let path = vstd::utf8::encode_utf8(item.name);
        let parts = crate::path::components(path);
        if leads_down(path) {
            lemma_leading_down_has_a_depth(parts);
            lemma_leading_down_is_local(dest, path);
        } else {
            let i = choose|i: int|
                0 <= i < parts.len() && ((#[trigger] parts[i]) is RootDir || parts[i]
                    is ParentDir);
            if parts[i] is RootDir {
                if i > 0 {
                    crate::path::lemma_later_components(path);
                }
                lemma_rooted_has_no_depth(parts);
            } else {
                assert(parts[i] == Component::<Seq<u8>>::ParentDir);
                assert(parts.contains(Component::ParentDir));
                if crate::path::is_absolute(path) {
                    assert(parts[0] is RootDir);
                    lemma_rooted_has_no_depth(parts);
                } else {
                    lemma_parent_segment_is_refused(
                        dest,
                        path,
                        crate::ui::formats::names_directory(item.name),
                    );
                }
            }
        }
    }
}

/// A zip file unpacks without a fault exactly where it can be opened and there is nothing wrong
/// with its members, however many there are and whatever their names.
pub proof fn law_zip_unpacks_exactly_where_it_is_sound(
    bytes: Seq<u8>,
    dest: Seq<u8>,
    part: Seq<u8>,
)
    ensures
        zip_outcome(bytes, dest, part).fault is None <==> crate::ui::formats::zip_opens(bytes) && (
        forall|m: int|
            0 <= m < crate::ui::formats::zip_len(bytes) ==> #[trigger] zip_member_is_sound(
                bytes,
                m as nat,
            )),
{
    let members = zip_members(bytes, dest, part);
    assert forall|m: int| 0 <= m < members.len() implies ((#[trigger] members[m]).fault is None
        <==> zip_member_is_sound(bytes, m as nat)) by {
        lemma_sound_zip_member(bytes, dest, part, m as nat);
    }
    if zip_outcome(bytes, dest, part).fault is None {
        lemma_no_member_is_at_fault(members);
        assert forall|m: int|
            0 <= m < crate::ui::formats::zip_len(bytes) implies #[trigger] zip_member_is_sound(
            bytes,
            m as nat,
        ) by {
            assert(members[m].fault is None);
        }
    } else if crate::ui::formats::zip_opens(bytes) && (forall|m: int|
        0 <= m < crate::ui::formats::zip_len(bytes) ==> #[trigger] zip_member_is_sound(
            bytes,
            m as nat,
        )) {
        assert forall|m: int| 0 <= m < members.len() implies (#[trigger] members[m]).fault
            is None by {
            assert(zip_member_is_sound(bytes, m as nat));
        }
        lemma_no_fault_so_far(members, members.len() as int);
        assert(members.take(members.len() as int) =~= members);
    }
}

/// Where the members in front of one have no fault, but that one does, its fault is the one
/// that shows, and nothing behind it counts.
proof fn lemma_fault_is_the_first(members: Seq<Outcome>, index: int)
    requires
        0 <= index < members.len(),
        forall|m: int| 0 <= m < index ==> (#[trigger] members[m]).fault is None,
        members[index].fault is Some,
    ensures
        until_fault(members).fault == members[index].fault,
        until_fault(members) == until_fault(members.take(index + 1)),
{
    lemma_no_fault_so_far(members, index);
    lemma_next_member(members, index);
    lemma_fault_ends(members, index + 1);
}

/// Every member of a zip file that is no link, and that comes before any fault, is unpacked at
/// the place that its name leads to: as a directory where the name ends as that of one, and
/// else as a file with all of its data. None is passed over, however long or deep its name.
pub proof fn law_every_zip_member_is_unpacked(
    bytes: Seq<u8>,
    dest: Seq<u8>,
    part: Seq<u8>,
    index: nat,
    item: crate::ui::formats::ZipItem,
)
    requires
        index < crate::ui::formats::zip_len(bytes),
        crate::ui::formats::zip_item(bytes, index) == Some(item),
        !item.is_symlink,
        zip_outcome(bytes, dest, part).fault is None || (crate::ui::formats::zip_opens(bytes) && (
        forall|m: int| 0 <= m <= index ==> #[trigger] zip_member_is_sound(bytes, m as nat))),
    ensures
        ({
            let path = crate::path::join(dest, vstd::utf8::encode_utf8(item.name));
            let outcome = zip_outcome(bytes, dest, part);
            if ends_as_directory(item.name) {
                creates(outcome, path)
            } else {
                match crate::ui::formats::zip_data(bytes, index) {
                    Some(data) => writes(outcome, path, data),
                    None => false,
                }
            }
        }),
{
    let members = zip_members(bytes, dest, part);
    if zip_outcome(bytes, dest, part).fault is None {
        lemma_no_member_is_at_fault(members);
    }
    assert forall|m: int| 0 <= m <= index implies (#[trigger] members[m]).fault is None by {
        if zip_outcome(bytes, dest, part).fault is Some {
            assert(zip_member_is_sound(bytes, m as nat));
            lemma_sound_zip_member(bytes, dest, part, m as nat);
        }
    }
    let start = lemma_member_is_unpacked(members, index as int);
    assert(members[index as int] == zip_member(bytes, dest, index, part));
    lemma_placed_member(
        until_fault(members),
        start,
        dest,
        vstd::utf8::encode_utf8(item.name),
        ends_as_directory(item.name),
        crate::ui::formats::zip_data(bytes, index),
        part,
    );
}

/// The members of a zip file are unpacked in their order: the file of an earlier one is written
/// before that of a later one.
pub proof fn law_zip_members_are_unpacked_in_order(
    bytes: Seq<u8>,
    dest: Seq<u8>,
    part: Seq<u8>,
    one: nat,
    other: nat,
) -> (places: (int, int))
    requires
        one < other < crate::ui::formats::zip_len(bytes),
        zip_outcome(bytes, dest, part).fault is None,
        zip_is_file(bytes, one),
        zip_is_file(bytes, other),
    ensures
        0 <= places.0 < places.1 < zip_outcome(bytes, dest, part).steps.len(),
        zip_outcome(bytes, dest, part).steps[places.0] == zip_file_step(bytes, dest, one),
        zip_outcome(bytes, dest, part).steps[places.1] == zip_file_step(bytes, dest, other),
{
    let members = zip_members(bytes, dest, part);
    lemma_no_member_is_at_fault(members);
    let a = lemma_member_is_unpacked(members, one as int);
    let b = lemma_member_is_unpacked(members, other as int);
    let all = until_fault(members).steps;
    let first = members[one as int].steps;
    let second = members[other as int].steps;
    assert(first == zip_member(bytes, dest, one, part).steps);
    assert(second == zip_member(bytes, dest, other, part).steps);
    assert(members.take(other as int).take(one as int + 1) =~= members.take(one as int + 1));
    lemma_no_fault_so_far(members, one as int + 1);
    lemma_no_fault_so_far(members, one as int);
    lemma_next_member(members, one as int);
    lemma_first_members_stay(members.take(other as int), one as int + 1);
    assert(all.subrange(a, a + first.len())[first.len() - 1] == first[first.len() - 1]);
    assert(all.subrange(b, b + second.len())[second.len() - 1] == second[second.len() - 1]);
    (a + first.len() - 1, b + second.len() - 1)
}

/// Whether a member of a zip file is a file.
pub open spec fn zip_is_file(bytes: Seq<u8>, index: nat) -> bool {
    match crate::ui::formats::zip_item(bytes, index) {
        Some(item) => !item.is_symlink && !ends_as_directory(item.name),
        None => false,
    }
}

/// The step that writes a file of a zip file.
pub open spec fn zip_file_step(bytes: Seq<u8>, dest: Seq<u8>, index: nat) -> ExtractStep<
    Seq<u8>,
    Seq<u8>,
> {
    ExtractStep::WriteFile {
        path: crate::path::join(
            dest,
            vstd::utf8::encode_utf8(crate::ui::formats::zip_item(bytes, index)->0.name),
        ),
        data: crate::ui::formats::zip_data(bytes, index)->0,
    }
}

/// Whether a step is due to a member that is placed at `path`: a file with this data, of which,
/// where it cannot be read to its end, there is `part`, or a directory.
pub open spec fn is_due_to(
    step: ExtractStep<Seq<u8>, Seq<u8>>,
    path: Seq<u8>,
    directory: bool,
    data: Option<Seq<u8>>,
    part: Seq<u8>,
) -> bool {
    match step {
        ExtractStep::CreateDir(created) => if directory {
            created == path
        } else {
            crate::path::parent(path) == Some(created)
        },
        ExtractStep::WriteFile { path: written, data: held } => {
            &&& !directory
            &&& written == path
            &&& data is Some ==> held == data->0
            &&& data is None ==> held == part
        },
    }
}

/// The steps of a member that is placed are due to it.
proof fn lemma_steps_are_due(
    dest: Seq<u8>,
    name: Seq<u8>,
    directory: bool,
    data: Option<Seq<u8>>,
    part: Seq<u8>,
    step: ExtractStep<Seq<u8>, Seq<u8>>,
)
    requires
        member_outcome(place_of(dest, name, directory), data, part).steps.contains(step),
    ensures
        is_due_to(step, crate::path::join(dest, name), directory, data, part),
{
}

/// Whether a step is due to a member of a zip file that is no link, up to the one at `last`.
pub open spec fn is_due_to_zip(
    bytes: Seq<u8>,
    dest: Seq<u8>,
    part: Seq<u8>,
    last: int,
    step: ExtractStep<Seq<u8>, Seq<u8>>,
) -> bool {
    exists|index: nat|
        {
            let item = crate::ui::formats::zip_item(bytes, index);
            &&& index <= last
            &&& item is Some
            &&& !item->0.is_symlink
            &&& is_due_to(
                step,
                crate::path::join(dest, vstd::utf8::encode_utf8(item->0.name)),
                ends_as_directory(item->0.name),
                #[trigger] crate::ui::formats::zip_data(bytes, index),
                part,
            )
        }
}

/// A step of a member of a zip file is due to it.
proof fn lemma_zip_step_is_due(
    bytes: Seq<u8>,
    dest: Seq<u8>,
    part: Seq<u8>,
    m: nat,
    last: int,
    step: ExtractStep<Seq<u8>, Seq<u8>>,
)
    requires
        m <= last,
        zip_member(bytes, dest, m, part).steps.contains(step),
    ensures
        is_due_to_zip(bytes, dest, part, last, step),
{
    let item = crate::ui::formats::zip_item(bytes, m);
    assert(item is Some);
    assert(!item->0.is_symlink);
    let data = crate::ui::formats::zip_data(bytes, m);
    lemma_steps_are_due(
        dest,
        vstd::utf8::encode_utf8(item->0.name),
        ends_as_directory(item->0.name),
        data,
        part,
        step,
    );
}

/// All that is unpacked of a zip file is due to one of its members, which is no link: nothing
/// else is created or written.
pub proof fn law_zip_steps_are_due_to_members(
    bytes: Seq<u8>,
    dest: Seq<u8>,
    part: Seq<u8>,
    i: int,
)
    requires
        0 <= i < zip_outcome(bytes, dest, part).steps.len(),
    ensures
        is_due_to_zip(
            bytes,
            dest,
            part,
            crate::ui::formats::zip_len(bytes) - 1,
            zip_outcome(bytes, dest, part).steps[i],
        ),
{
    let members = zip_members(bytes, dest, part);
    lemma_steps_come_from_members(members);
    let step = until_fault(members).steps[i];
    assert(comes_from(members, step));
    let m = choose|m: int| 0 <= m < members.len() && (#[trigger] members[m]).steps.contains(step);
    assert(members[m] == zip_member(bytes, dest, m as nat, part));
    lemma_zip_step_is_due(bytes, dest, part, m as nat, members.len() - 1, step);
}

/// The fault of a zip file that can be opened is that of its first member with which something
/// is wrong: that it cannot be opened or read, or which name, or place, is refused. Nothing
/// behind it is unpacked.
pub proof fn law_zip_fault_is_that_of_the_first_bad_member(
    bytes: Seq<u8>,
    dest: Seq<u8>,
    part: Seq<u8>,
    index: nat,
)
    requires
        crate::ui::formats::zip_opens(bytes),
        index < crate::ui::formats::zip_len(bytes),
        !zip_member_is_sound(bytes, index),
        forall|m: int| 0 <= m < index ==> #[trigger] zip_member_is_sound(bytes, m as nat),
    ensures
        ({
            let outcome = zip_outcome(bytes, dest, part);
            &&& match crate::ui::formats::zip_item(bytes, index) {
                None => outcome.fault == Some(ExtractFault::Zip),
                Some(item) => {
                    let name = vstd::utf8::encode_utf8(item.name);
                    let place = crate::path::join(dest, name);
                    let is_plain = !item.name.contains('\0') && leads_down(name);
                    &&& is_plain ==> outcome.fault == Some(ExtractFault::Io)
                    &&& !is_plain ==> outcome.fault == Some(ExtractFault::UnsafePath(item.name))
                        || outcome.fault == Some(ExtractFault::Traversal(place))
                    &&& item.name.contains('\0') || (crate::path::components(name).len() > 0
                        && !(crate::path::components(name)[0] is Normal)
                        && !(crate::path::components(name)[0] is CurDir)) ==> outcome.fault == Some(
                        ExtractFault::UnsafePath(item.name),
                    )
                },
            }
            &&& forall|i: int|
                0 <= i < outcome.steps.len() ==> is_due_to_zip(
                    bytes,
                    dest,
                    part,
                    index as int,
                    #[trigger] outcome.steps[i],
                )
        }),
{
    let members = zip_members(bytes, dest, part);
    assert forall|m: int| 0 <= m < index implies (#[trigger] members[m]).fault is None by {
        assert(zip_member_is_sound(bytes, m as nat));
        lemma_sound_zip_member(bytes, dest, part, m as nat);
    }
    assert(members[index as int] == zip_member(bytes, dest, index, part));
    lemma_sound_zip_member(bytes, dest, part, index);
    lemma_fault_is_the_first(members, index as int);
    if let Some(item) = crate::ui::formats::zip_item(bytes, index) {
        let name = vstd::utf8::encode_utf8(item.name);
        let parts = crate::path::components(name);
        if leads_down(name) {
            lemma_leading_down_has_a_depth(parts);
            lemma_leading_down_is_local(dest, name);
        } else {
            if parts.len() > 0 && parts[0] is RootDir {
                lemma_rooted_has_no_depth(parts);
            } else {
                let i = choose|i: int|
                    0 <= i < parts.len() && ((#[trigger] parts[i]) is RootDir || parts[i]
                        is ParentDir);
                if parts[i] is RootDir {
                    crate::path::lemma_later_components(name);
                }
                assert(parts[i] == Component::<Seq<u8>>::ParentDir);
                assert(parts.contains(Component::ParentDir));
                crate::path::law_join_lies_within(dest, name);
                lemma_parent_segment_is_refused(
                    dest,
                    name,
                    crate::ui::formats::names_directory(item.name),
                );
            }
            if parts.len() > 0 && parts[0] is ParentDir {
                lemma_rising_has_no_depth(parts);
            }
        }
    }
    let some = members.take(index as int + 1);
    let outcome = zip_outcome(bytes, dest, part);
    lemma_steps_come_from_members(some);
    assert forall|i: int| 0 <= i < outcome.steps.len() implies is_due_to_zip(
        bytes,
        dest,
        part,
        index as int,
        #[trigger] outcome.steps[i],
    ) by {
        let step = until_fault(some).steps[i];
        assert(comes_from(some, step));
        let m = choose|m: int| 0 <= m < some.len() && (#[trigger] some[m]).steps.contains(step);
        assert(some[m] == zip_member(bytes, dest, m as nat, part));
        lemma_zip_step_is_due(bytes, dest, part, m as nat, index as int, step);
    }
}

/// A run of components that rises at once has no depth.
proof fn lemma_rising_has_no_depth(parts: Seq<Component<Seq<u8>>>)
    requires
        parts.len() > 0,
        parts[0] is ParentDir,
    ensures
        crate::ui::formats::depth(parts) is None,
    decreases parts.len(),
{
    let before = parts.drop_last();
    if parts.len() > 1 {
        assert(before[0] is ParentDir);
        lemma_rising_has_no_depth(before);
    } else {
        assert(parts.last() is ParentDir);
        assert(crate::ui::formats::depth(before) == Some(0nat));
    }
}

/// A zip file that cannot be opened unpacks to nothing, and that is what is wrong with it.
pub proof fn law_closed_zip_unpacks_to_nothing(bytes: Seq<u8>, dest: Seq<u8>, part: Seq<u8>)
    requires
        !crate::ui::formats::zip_opens(bytes),
    ensures
        zip_outcome(bytes, dest, part).steps.len() == 0,
        zip_outcome(bytes, dest, part).fault == Some(ExtractFault::Zip),
{
}

/// Whether a member of a tar file is one that is unpacked: a directory or file, no link.
pub open spec fn tar_is_unpacked(item: crate::ui::formats::TarItem) -> bool {
    match item {
        crate::ui::formats::TarItem::Member {
            is_symlink,
            is_hard_link,
            is_dir,
            is_file,
            ..
        } => !is_symlink && !is_hard_link && (is_dir || is_file),
        crate::ui::formats::TarItem::Broken => false,
    }
}

/// Whether there is nothing wrong with a member of a tar file that is unpacked to `dest`: it is
/// one that is not unpacked, or a directory or readable file that is placed at or below there.
pub open spec fn tar_item_is_sound(dest: Seq<u8>, item: crate::ui::formats::TarItem) -> bool {
    match item {
        crate::ui::formats::TarItem::Member { is_dir, path, data, .. } => tar_is_unpacked(item)
            ==> local_fault(dest, crate::path::join(dest, path)) is None && (is_dir || data
            is Some),
        crate::ui::formats::TarItem::Broken => false,
    }
}

/// The sound members of a tar file are those without a fault.
proof fn lemma_sound_tar_item(
    dest: Seq<u8>,
    item: crate::ui::formats::TarItem,
    part: Seq<u8>,
)
    ensures
        tar_item_is_sound(dest, item) <==> tar_member(dest, item, part).fault is None,
{
}

/// What is relative and holds no `..` is placed at or below where it is followed from.
pub proof fn law_leading_down_is_accepted(dest: Seq<u8>, name: Seq<u8>)
    requires
        leads_down(name),
    ensures
        local_fault(dest, crate::path::join(dest, name)) is None,
{
    lemma_leading_down_is_local(dest, name);
}

/// A gzipped tar file unpacks without a fault exactly where there is nothing wrong with its
/// members, however many there are and whatever their names.
pub proof fn law_tar_unpacks_exactly_where_it_is_sound(
    bytes: Seq<u8>,
    dest: Seq<u8>,
    part: Seq<u8>,
)
    ensures
        tar_outcome(bytes, dest, part).fault is None <==> forall|m: int|
            0 <= m < crate::ui::formats::tar_items(bytes).len() ==> tar_item_is_sound(
                dest,
                #[trigger] crate::ui::formats::tar_items(bytes)[m],
            ),
{
    let items = crate::ui::formats::tar_items(bytes);
    let members = tar_members(bytes, dest, part);
    assert forall|m: int| 0 <= m < members.len() implies ((#[trigger] members[m]).fault is None
        <==> tar_item_is_sound(dest, items[m])) by {
        lemma_sound_tar_item(dest, items[m], part);
    }
    if tar_outcome(bytes, dest, part).fault is None {
        lemma_no_member_is_at_fault(members);
        assert forall|m: int| 0 <= m < items.len() implies tar_item_is_sound(
            dest,
            #[trigger] items[m],
        ) by {
            assert(members[m].fault is None);
        }
    } else if forall|m: int|
        0 <= m < items.len() ==> tar_item_is_sound(dest, #[trigger] items[m]) {
        assert forall|m: int| 0 <= m < members.len() implies (#[trigger] members[m]).fault
            is None by {
            assert(tar_item_is_sound(dest, items[m]));
        }
        lemma_no_fault_so_far(members, members.len() as int);
        assert(members.take(members.len() as int) =~= members);
    }
}

/// Every directory and file of a gzipped tar file that is no link, and that comes before any
/// fault, is unpacked at the place that its name leads to, a file with all of its data. None is
/// passed over, however long or deep its name.
pub proof fn law_every_tar_member_is_unpacked(
    bytes: Seq<u8>,
    dest: Seq<u8>,
    part: Seq<u8>,
    index: int,
)
    requires
        0 <= index < crate::ui::formats::tar_items(bytes).len(),
        tar_is_unpacked(crate::ui::formats::tar_items(bytes)[index]),
        tar_outcome(bytes, dest, part).fault is None || (forall|m: int|
            0 <= m <= index ==> tar_item_is_sound(
                dest,
                #[trigger] crate::ui::formats::tar_items(bytes)[m],
            )),
    ensures
        match crate::ui::formats::tar_items(bytes)[index] {
            crate::ui::formats::TarItem::Member { is_dir, path, data, .. } => {
                let outcome = tar_outcome(bytes, dest, part);
                if is_dir {
                    creates(outcome, crate::path::join(dest, path))
                } else {
                    data is Some && writes(outcome, crate::path::join(dest, path), data->0)
                }
            },
            crate::ui::formats::TarItem::Broken => false,
        },
{
    let items = crate::ui::formats::tar_items(bytes);
    let members = tar_members(bytes, dest, part);
    if tar_outcome(bytes, dest, part).fault is None {
        lemma_no_member_is_at_fault(members);
    }
    assert forall|m: int| 0 <= m <= index implies (#[trigger] members[m]).fault is None by {
        if tar_outcome(bytes, dest, part).fault is Some {
            assert(tar_item_is_sound(dest, items[m]));
            lemma_sound_tar_item(dest, items[m], part);
        }
    }
    let start = lemma_member_is_unpacked(members, index);
    assert(members[index] == tar_member(dest, items[index], part));
    if let crate::ui::formats::TarItem::Member { is_dir, path, data, .. } = items[index] {
        lemma_placed_member(until_fault(members), start, dest, path, is_dir, data, part);
    }
}

/// The step that writes a file of a tar file.
pub open spec fn tar_file_step(dest: Seq<u8>, item: crate::ui::formats::TarItem) -> ExtractStep<
    Seq<u8>,
    Seq<u8>,
> {
    ExtractStep::WriteFile {
        path: crate::path::join(dest, item->path),
        data: item->data->0,
    }
}

/// The members of a gzipped tar file are unpacked in their order: the file of an earlier one is
/// written before that of a later one.
pub proof fn law_tar_members_are_unpacked_in_order(
    bytes: Seq<u8>,
    dest: Seq<u8>,
    part: Seq<u8>,
    one: int,
    other: int,
) -> (places: (int, int))
    requires
        0 <= one < other < crate::ui::formats::tar_items(bytes).len(),
        tar_outcome(bytes, dest, part).fault is None,
        tar_is_unpacked(crate::ui::formats::tar_items(bytes)[one]),
        !crate::ui::formats::tar_items(bytes)[one]->is_dir,
        tar_is_unpacked(crate::ui::formats::tar_items(bytes)[other]),
        !crate::ui::formats::tar_items(bytes)[other]->is_dir,
    ensures
        0 <= places.0 < places.1 < tar_outcome(bytes, dest, part).steps.len(),
        tar_outcome(bytes, dest, part).steps[places.0] == tar_file_step(
            dest,
            crate::ui::formats::tar_items(bytes)[one],
        ),
        tar_outcome(bytes, dest, part).steps[places.1] == tar_file_step(
            dest,
            crate::ui::formats::tar_items(bytes)[other],
        ),
{
    let items = crate::ui::formats::tar_items(bytes);
    let members = tar_members(bytes, dest, part);
    lemma_no_member_is_at_fault(members);
    let a = lemma_member_is_unpacked(members, one);
    let b = lemma_member_is_unpacked(members, other);
    let all = until_fault(members).steps;
    let first = members[one].steps;
    let second = members[other].steps;
    assert(members[one] == tar_member(dest, items[one], part));
    assert(members[other] == tar_member(dest, items[other], part));
    assert(members.take(other).take(one + 1) =~= members.take(one + 1));
    lemma_no_fault_so_far(members, one + 1);
    lemma_no_fault_so_far(members, one);
    lemma_next_member(members, one);
    lemma_first_members_stay(members.take(other), one + 1);
    assert(all.subrange(a, a + first.len())[first.len() - 1] == first[first.len() - 1]);
    assert(all.subrange(b, b + second.len())[second.len() - 1] == second[second.len() - 1]);
    (a + first.len() - 1, b + second.len() - 1)
}

/// All that is unpacked of a gzipped tar file is due to one of its directories and files, which
/// is no link: nothing else is created or written.
pub proof fn law_tar_steps_are_due_to_members(
    bytes: Seq<u8>,
    dest: Seq<u8>,
    part: Seq<u8>,
    i: int,
)
    requires
        0 <= i < tar_outcome(bytes, dest, part).steps.len(),
    ensures
        is_due_to_tar(
            bytes,
            dest,
            part,
            crate::ui::formats::tar_items(bytes).len() - 1,
            tar_outcome(bytes, dest, part).steps[i],
        ),
{
    let items = crate::ui::formats::tar_items(bytes);
    let members = tar_members(bytes, dest, part);
    lemma_steps_come_from_members(members);
    let step = until_fault(members).steps[i];
    assert(comes_from(members, step));
    let m = choose|m: int| 0 <= m < members.len() && (#[trigger] members[m]).steps.contains(step);
    assert(members[m] == tar_member(dest, items[m], part));
    let item = items[m];
    assert(tar_is_unpacked(item));
    lemma_steps_are_due(dest, item->path, item->is_dir, item->data, part, step);
}

/// The fault of a gzipped tar file is that of its first member with which something is wrong:
/// that it cannot be read, or that its place is refused. Nothing behind it is unpacked.
pub proof fn law_tar_fault_is_that_of_the_first_bad_member(
    bytes: Seq<u8>,
    dest: Seq<u8>,
    part: Seq<u8>,
    index: int,
)
    requires
        0 <= index < crate::ui::formats::tar_items(bytes).len(),
        !tar_item_is_sound(dest, crate::ui::formats::tar_items(bytes)[index]),
        forall|m: int|
            0 <= m < index ==> tar_item_is_sound(
                dest,
                #[trigger] crate::ui::formats::tar_items(bytes)[m],
            ),
    ensures
        ({
            let items = crate::ui::formats::tar_items(bytes);
            let outcome = tar_outcome(bytes, dest, part);
            let place = crate::path::join(dest, items[index]->path);
            &&& match items[index] {
                crate::ui::formats::TarItem::Broken => outcome.fault == Some(ExtractFault::Io),
                crate::ui::formats::TarItem::Member { .. } => outcome.fault == match local_fault(
                    dest,
                    place,
                ) {
                    Some(fault) => Some(fault),
                    None => Some(ExtractFault::Io),
                },
            }
            &&& forall|i: int|
                0 <= i < outcome.steps.len() ==> is_due_to_tar(
                    bytes,
                    dest,
                    part,
                    index,
                    #[trigger] outcome.steps[i],
                )
        }),
{
    let items = crate::ui::formats::tar_items(bytes);
    let members = tar_members(bytes, dest, part);
    assert forall|m: int| 0 <= m < index implies (#[trigger] members[m]).fault is None by {
        assert(tar_item_is_sound(dest, items[m]));
        lemma_sound_tar_item(dest, items[m], part);
    }
    assert(members[index] == tar_member(dest, items[index], part));
    lemma_sound_tar_item(dest, items[index], part);
    lemma_fault_is_the_first(members, index);
    let some = members.take(index + 1);
    let outcome = tar_outcome(bytes, dest, part);
    lemma_steps_come_from_members(some);
    assert forall|i: int| 0 <= i < outcome.steps.len() implies is_due_to_tar(
        bytes,
        dest,
        part,
        index,
        #[trigger] outcome.steps[i],
    ) by {
        let step = until_fault(some).steps[i];
        assert(comes_from(some, step));
        let m = choose|m: int| 0 <= m < some.len() && (#[trigger] some[m]).steps.contains(step);
        assert(some[m] == tar_member(dest, items[m], part));
        let item = items[m];
        assert(tar_is_unpacked(item));
        lemma_steps_are_due(dest, item->path, item->is_dir, item->data, part, step);
    }
}

/// Whether a step is due to a member of a tar file that is unpacked, up to the one at `last`.
pub open spec fn is_due_to_tar(
    bytes: Seq<u8>,
    dest: Seq<u8>,
    part: Seq<u8>,
    last: int,
    step: ExtractStep<Seq<u8>, Seq<u8>>,
) -> bool {
    exists|m: int|
        {
            let item = #[trigger] crate::ui::formats::tar_items(bytes)[m];
            &&& 0 <= m <= last
            &&& tar_is_unpacked(item)
            &&& is_due_to(
                step,
                crate::path::join(dest, item->path),
                item->is_dir,
                item->data,
                part,
            )
        }
}

/// A file that cannot be read to its end is written up to there, and that is the fault.
pub proof fn law_unreadable_file_is_written_in_part(
    dest: Seq<u8>,
    name: Seq<u8>,
    part: Seq<u8>,
)
    requires
        leads_down(name),
    ensures
        ({
            let outcome = member_outcome(place_of(dest, name, false), None, part);
            &&& outcome.fault == Some(ExtractFault::Io)
            &&& writes(outcome, crate::path::join(dest, name), part)
        }),
{
    lemma_leading_down_is_local(dest, name);
    let outcome = member_outcome(place_of(dest, name, false), None, part);
    let last = outcome.steps.len() - 1;
    assert(outcome.steps[last] is WriteFile);
}

/// The first bytes of an archive tell its kind: `P`, `K`, 3 and 4 a zip file, 0x1f and 0x8b a
/// gzipped tar file. Anything else is no archive, and unpacks to nothing.
pub proof fn law_first_bytes_tell_the_kind(bytes: Seq<u8>, dest: Seq<u8>, part: Seq<u8>)
    ensures
        ({
            let zip = bytes.len() >= 4 && bytes[0] == 0x50 && bytes[1] == 0x4b && bytes[2] == 3
                && bytes[3] == 4;
            let gzip = bytes.len() >= 2 && bytes[0] == 0x1f && bytes[1] == 0x8b;
            let outcome = archive_outcome(bytes, dest, part);
            &&& zip ==> outcome == zip_outcome(bytes, dest, part)
            &&& gzip ==> outcome == tar_outcome(bytes, dest, part)
            &&& !zip && !gzip ==> outcome.steps.len() == 0 && outcome.fault == Some(
                ExtractFault::UnknownType,
            )
        }),
{
    if bytes.len() >= 4 {
        let first = bytes.take(4);
        assert(first[0] == bytes[0] && first[1] == bytes[1] && first[2] == bytes[2] && first[3]
            == bytes[3]);
        if bytes[0] == 0x50 && bytes[1] == 0x4b && bytes[2] == 3 && bytes[3] == 4 {
            assert(first =~= seq![0x50u8, 0x4b, 0x03, 0x04]);
        }
    }
    if bytes.len() >= 2 {
        let first = bytes.take(2);
        assert(first[0] == bytes[0] && first[1] == bytes[1]);
        if bytes[0] == 0x1f && bytes[1] == 0x8b {
            assert(first =~= seq![0x1fu8, 0x8b]);
        }
    }
}

/// A place is refused as one outside where it does not start with the components of `root`, as
/// reached through a `..` where one of the further ones is no name or `.`, and else accepted.
pub proof fn law_only_places_below_are_accepted(root: Seq<u8>, child: Seq<u8>)
    ensures
        ({
            let first = crate::path::components(root);
            let all = crate::path::components(child);
            let below = first.is_prefix_of(all);
            let away = exists|i: int|
                first.len() <= i < all.len() && ((#[trigger] all[i]) is ParentDir || all[i]
                    is RootDir);
            &&& !below ==> local_fault(root, child) == Some(ExtractFault::Outside(child))
            &&& below && away ==> local_fault(root, child) == Some(ExtractFault::Traversal(child))
            &&& below && !away ==> local_fault(root, child) is None
        }),
{
    let first = crate::path::components(root);
    let all = crate::path::components(child);
    if first.is_prefix_of(all) {
        if exists|i: int|
            first.len() <= i < all.len() && ((#[trigger] all[i]) is ParentDir || all[i]
                is RootDir) {
            let i = choose|i: int|
                first.len() <= i < all.len() && ((#[trigger] all[i]) is ParentDir || all[i]
                    is RootDir);
            assert(!(crate::path::components(child)[i] is Normal));
        } else {
            assert forall|i: int| first.len() <= i < all.len() implies ({
                let part = #[trigger] crate::path::components(child)[i];
                part is Normal || part is CurDir
            }) by {
                assert(!(all[i] is ParentDir) && !(all[i] is RootDir));
            }
        }
    }
}

/// A member goes where its name leads to, as the directory or file that it is, or is refused
/// for that place; a file goes to the directory that holds that place.
pub proof fn law_member_goes_where_its_name_leads(
    dest: Seq<u8>,
    name: Seq<u8>,
    directory: bool,
)
    ensures
        ({
            let path = crate::path::join(dest, name);
            match place_of(dest, name, directory) {
                Ok(Place::Skip) => false,
                Ok(Place::Directory(place)) => directory && place == path && local_fault(
                    dest,
                    path,
                ) is None,
                Ok(Place::File { parent, path: place }) => !directory && place == path && parent
                    == crate::path::parent(path) && local_fault(dest, path) is None,
                Err(fault) => local_fault(dest, path) == Some(fault),
            }
        }),
{
}

/// Of a zip file links, and nothing else, are passed over; any other member goes where its name
/// leads to, and one without a safe name is refused by that name.
pub proof fn law_only_links_of_a_zip_file_are_passed_over(
    dest: Seq<u8>,
    name: Seq<char>,
    is_symlink: bool,
    is_dir: bool,
    enclosed: Option<Seq<u8>>,
)
    ensures
        ({
            let place = zip_place(dest, name, is_symlink, is_dir, enclosed);
            &&& place == Ok::<Place<Seq<u8>>, ExtractFault>(Place::Skip) <==> is_symlink
            &&& !is_symlink && enclosed is None ==> place == Err::<
                Place<Seq<u8>>,
                ExtractFault,
            >(ExtractFault::UnsafePath(name))
            &&& !is_symlink && enclosed is Some ==> place == place_of(dest, enclosed->0, is_dir)
        }),
{
}

/// Of a tar file links and special files, and nothing else, are passed over; any other member
/// goes where its name leads to.
pub proof fn law_only_links_of_a_tar_file_are_passed_over(
    dest: Seq<u8>,
    is_symlink: bool,
    is_hard_link: bool,
    is_dir: bool,
    is_file: bool,
    path: Seq<u8>,
)
    ensures
        ({
            let place = tar_place(dest, is_symlink, is_hard_link, is_dir, is_file, path);
            let is_passed_over = is_symlink || is_hard_link || (!is_dir && !is_file);
            &&& place == Ok::<Place<Seq<u8>>, ExtractFault>(Place::Skip) <==> is_passed_over
            &&& !is_passed_over ==> place == place_of(dest, path, is_dir)
        }),
{
}

/// What is said of an archive at fault names, whole, the name or the place that is refused, or
/// is what the reader says.
pub proof fn law_fault_text_names_what_is_refused(
    name: Seq<char>,
    path: Seq<u8>,
    cause: Seq<char>,
)
    ensures
        ({
            let text = extract_fault_text(ExtractFault::UnsafePath(name), cause);
            &&& text.len() == 33 + name.len()
            &&& text.take(33) == "UI archive contains unsafe path: "@
            &&& text.skip(33) == name
        }),
        ({
            let text = extract_fault_text(ExtractFault::Traversal(path), cause);
            &&& text.len() == 36 + crate::text::lossy_text(path).len()
            &&& text.take(36) == "UI archive contains path traversal: "@
            &&& text.skip(36) == crate::text::lossy_text(path)
        }),
        extract_fault_text(ExtractFault::UnknownType, cause)
            == "unknown or unsupported UI archive type"@,
        extract_fault_text(ExtractFault::Outside(path), cause) == "prefix not found"@,
        extract_fault_text(ExtractFault::Zip, cause) == cause,
        extract_fault_text(ExtractFault::Io, cause) == cause,
{
    reveal_strlit("UI archive contains unsafe path: ");
    reveal_strlit("UI archive contains path traversal: ");
    let text = extract_fault_text(ExtractFault::UnsafePath(name), cause);
    assert(text.take(33) =~= "UI archive contains unsafe path: "@);
    assert(text.skip(33) =~= name);
    let text = extract_fault_text(ExtractFault::Traversal(path), cause);
    assert(text.take(36) =~= "UI archive contains path traversal: "@);
    assert(text.skip(36) =~= crate::text::lossy_text(path));
}

/// Steps stand for what is done where, each of them, in their order, with their data whole.
pub proof fn law_every_step_is_there(steps: Seq<ExtractStep<UnixPath, Vec<u8>>>, i: int)
    requires
        0 <= i < steps.len(),
    ensures
        step_views(steps).len() == steps.len(),
        match (steps[i], step_views(steps)[i]) {
            (ExtractStep::CreateDir(own), ExtractStep::CreateDir(path)) => own.bytes@ == path,
            (
                ExtractStep::WriteFile { path: own, data: held },
                ExtractStep::WriteFile { path, data },
            ) => own.bytes@ == path && held@ == data,
            _ => false,
        },
{
}

/// A result reports all the steps of an outcome, and succeeds exactly where that has no fault;
/// where it has one it is the one that the error stands for.
pub proof fn law_result_reports_the_whole_outcome(
    res: Result<Vec<ExtractStep<UnixPath, Vec<u8>>>, ExtractFailure>,
    outcome: Outcome,
)
    requires
        reports(res, outcome),
    ensures
        match res {
            Ok(steps) => outcome.fault is None && steps@.len() == outcome.steps.len() && (forall|
                i: int,
            |
                0 <= i < steps@.len() ==> (#[trigger] steps@[i])@ == outcome.steps[i]),
            Err(failure) => outcome.fault is Some && failure.error@ == outcome.fault->0
                && failure.done@.len() == outcome.steps.len() && (forall|i: int|
                0 <= i < failure.done@.len() ==> (#[trigger] failure.done@[i])@
                    == outcome.steps[i]),
        },
{
    match res {
        Ok(steps) => {
            assert forall|i: int| 0 <= i < steps@.len() implies (#[trigger] steps@[i])@
                == outcome.steps[i] by {
                assert(step_views(steps@)[i] == outcome.steps[i]);
            }
        },
        Err(failure) => {
            assert forall|i: int| 0 <= i < failure.done@.len() implies (#[trigger] failure.done@[
                i
            ])@ == outcome.steps[i] by {
                assert(step_views(failure.done@)[i] == outcome.steps[i]);
            }
        },
    }
}

/// A place stands for the same one, with its paths whole, and an error for the fault that it
/// tells, with the name or place that is refused.
pub proof fn law_places_and_errors_stand_for_what_they_hold(
    place: Place<UnixPath>,
    error: ExtractError,
)
    ensures
        match (place, place@) {
            (Place::Skip, Place::Skip) => true,
            (Place::Directory(own), Place::Directory(path)) => own.bytes@ == path,
            (Place::File { parent: above, path: own }, Place::File { parent, path }) => {
                &&& own.bytes@ == path
                &&& above is Some <==> parent is Some
                &&& above is Some ==> above->0.bytes@ == parent->0
            },
            _ => false,
        },
        match (error, error@) {
            (ExtractError::UnknownType, ExtractFault::UnknownType) => true,
            (ExtractError::Zip(_), ExtractFault::Zip) => true,
            (ExtractError::Io(_), ExtractFault::Io) => true,
            (ExtractError::UnsafePath(own), ExtractFault::UnsafePath(name)) => own@ == name,
            (ExtractError::Outside(own), ExtractFault::Outside(path)) => own.bytes@ == path,
            (ExtractError::Traversal(own), ExtractFault::Traversal(path)) => own.bytes@ == path,
            _ => false,
        },
{
}

} // verus!
