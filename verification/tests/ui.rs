use meow::effect::{FileKind, Reply, Request};
use meow::path::UnixPath;
use meow::ui::archive::{
    describe_traversal, describe_unsafe_path, ensure_local_child, extract_archive,
    place_tar_member, place_zip_entry, ExtractError, ExtractFailure, ExtractStep, Place,
};
use meow::ui::assets::{ExternalUiConfig, UiAssets, UiConfig};
use meow::ui::formats::{TarMember, ZipEntry};
use meow::ui::replace::{CopyPhase, CopyTree, ReplaceDir, ReplacePhase};
use meow::ui::update::{
    describe_symlink, dir_is_empty_or_missing, AutoDownload, Update, UpdateError, UpdatePhase,
};
use std::collections::BTreeMap;
use std::io::{Cursor, Write};

type Asked<'a> = Request<&'a UnixPath, &'a Vec<u8>, &'a String>;

#[derive(Debug, Clone, PartialEq)]
enum Node {
    Dir,
    File(Vec<u8>),
    Link,
}

/// A file system and a web server, in memory.
struct World {
    nodes: BTreeMap<String, Node>,
    status: u16,
    body: Vec<u8>,
    can_rename: bool,
    /// A directory whose listing breaks off after so many names.
    broken: Option<(&'static str, usize)>,
    log: Vec<String>,
}

const TEMP: &str = "/tmp/meow-ui-1";

fn world() -> World {
    let mut nodes = BTreeMap::new();
    for dir in ["/", "/tmp", "/srv"] {
        nodes.insert(dir.to_string(), Node::Dir);
    }
    World {
        nodes,
        status: 200,
        body: Vec::new(),
        can_rename: true,
        broken: None,
        log: Vec::new(),
    }
}

fn text(path: &UnixPath) -> String {
    let mut text = String::from_utf8(path.bytes.clone()).unwrap();
    while text.len() > 1 && text.ends_with('/') {
        text.pop();
    }
    text
}

fn missing() -> Reply {
    Reply::Failed("missing".to_string())
}

impl World {
    fn put(&mut self, path: &str, node: Node) {
        let mut at = 0;
        while let Some(next) = path[at + 1..].find('/') {
            at = at + 1 + next;
            self.nodes.insert(path[..at].to_string(), Node::Dir);
        }
        self.nodes.insert(path.to_string(), node);
    }

    fn file(&self, path: &str) -> Option<&str> {
        match self.nodes.get(path) {
            Some(Node::File(data)) => Some(std::str::from_utf8(data).unwrap()),
            _ => None,
        }
    }

    fn below(&self, path: &str) -> Vec<String> {
        let start = format!("{path}/");
        let paths = self.nodes.keys().filter(|it| it.starts_with(&start));
        paths.map(|it| it[start.len()..].to_string()).collect()
    }

    fn names(&self, path: &str) -> Option<Vec<Vec<u8>>> {
        if self.nodes.get(path) != Some(&Node::Dir) {
            return None;
        }
        let below = self.below(path);
        let names = below.into_iter().filter(|it| !it.contains('/'));
        Some(names.map(|it| it.into_bytes()).collect())
    }

    fn perform(&mut self, request: Asked) -> Reply {
        match request {
            Request::Get { url, timeout_secs } => {
                self.log.push(format!("get {url} {timeout_secs:?}"));
                Reply::Status {
                    code: self.status,
                    text: format!("status {}", self.status),
                }
            }
            Request::ReadBody => Reply::Bytes(self.body.clone()),
            Request::MakeTempDir => {
                self.put(TEMP, Node::Dir);
                Reply::Path(UnixPath::from_text(TEMP))
            }
            Request::CreateDirAll(path) => {
                let path = text(path);
                if !matches!(self.nodes.get(&path), None | Some(Node::Dir)) {
                    return Reply::Failed("not a directory".to_string());
                }
                self.put(&path, Node::Dir);
                Reply::Done
            }
            Request::Write { path, data } => {
                self.nodes.insert(text(path), Node::File(data.clone()));
                Reply::Done
            }
            Request::Rename { from, to } => {
                if !self.can_rename {
                    return Reply::Failed("other device".to_string());
                }
                let (from, to) = (text(from), text(to));
                let node = match self.nodes.remove(&from) {
                    Some(node) => node,
                    None => return missing(),
                };
                self.nodes.insert(to.clone(), node);
                for name in self.below(&from) {
                    let node = self.nodes.remove(&format!("{from}/{name}")).unwrap();
                    self.nodes.insert(format!("{to}/{name}"), node);
                }
                Reply::Done
            }
            Request::Copy { from, to } => match self.nodes.get(&text(from)).cloned() {
                Some(node) => {
                    self.nodes.insert(text(to), node);
                    Reply::Done
                }
                None => missing(),
            },
            Request::RemoveFile(path) => {
                self.log.push(format!("rm {}", text(path)));
                match self.nodes.remove(&text(path)) {
                    Some(_) => Reply::Done,
                    None => missing(),
                }
            }
            Request::RemoveDirAll(path) => {
                let path = text(path);
                self.log.push(format!("rm -r {path}"));
                for name in self.below(&path) {
                    self.nodes.remove(&format!("{path}/{name}"));
                }
                self.nodes.remove(&path);
                Reply::Done
            }
            Request::ListDir(path) => match (self.names(&text(path)), self.broken) {
                (Some(names), Some((dir, len))) if dir == text(path) => Reply::NamesUntil {
                    names: names[..len].to_vec(),
                    text: "bad block".to_string(),
                },
                (Some(names), _) => Reply::Names(names),
                (None, _) => missing(),
            },
            Request::HasEntry(path) => match self.names(&text(path)) {
                Some(names) => Reply::Flag(!names.is_empty()),
                None => missing(),
            },
            Request::IsDir(path) => {
                Reply::Flag(self.nodes.get(&text(path)) == Some(&Node::Dir))
            }
            Request::EntryIsDir(path) => match self.nodes.get(&text(path)) {
                Some(node) => Reply::Flag(*node == Node::Dir),
                None => missing(),
            },
            Request::Inspect(path) => match self.nodes.get(&text(path)) {
                Some(Node::Dir) => Reply::Kind(FileKind::Directory),
                Some(Node::File(_)) => Reply::Kind(FileKind::Other),
                Some(Node::Link) => Reply::Kind(FileKind::Symlink),
                None => missing(),
            },
            other => panic!("unexpected {other:?}"),
        }
    }

    fn extract(&mut self, steps: Vec<ExtractStep<UnixPath, Vec<u8>>>) {
        for step in &steps {
            let reply = match step {
                ExtractStep::CreateDir(path) => self.perform(Request::CreateDirAll(path)),
                ExtractStep::WriteFile { path, data } => {
                    self.perform(Request::Write { path, data })
                }
            };
            assert_eq!(reply, Reply::Done);
        }
    }

    fn replace(&mut self, source: &str, target: &str) -> ReplaceDir {
        let mut state = ReplaceDir::new(UnixPath::from_text(source), UnixPath::from_text(target));
        while let Some(request) = state.request() {
            let reply = self.perform(request);
            state = state.step(reply);
        }
        state
    }

    fn update(&mut self, mut state: Update) -> Update {
        while let Some(request) = state.request() {
            let reply = self.perform(request);
            state = state.step(reply);
        }
        state
    }
}

fn zip_with(members: &[(&str, &[u8])]) -> Vec<u8> {
    let mut zip_data = Cursor::new(Vec::new());
    let mut zip = zip::ZipWriter::new(&mut zip_data);
    let opts = zip::write::SimpleFileOptions::default()
        .compression_method(zip::CompressionMethod::Stored);
    for (name, data) in members {
        if name.ends_with('/') {
            zip.add_directory(*name, opts).unwrap();
        } else {
            zip.start_file(*name, opts).unwrap();
            zip.write_all(data).unwrap();
        }
    }
    zip.finish().unwrap();
    zip_data.into_inner()
}

/// A gzipped tar file; the names are written as they are.
fn tar_gz_with(members: &[(&str, tar::EntryType, &[u8])]) -> Vec<u8> {
    let mut bytes = Vec::new();
    {
        let gz = flate2::write::GzEncoder::new(&mut bytes, flate2::Compression::default());
        let mut tar = tar::Builder::new(gz);
        for (name, kind, data) in members {
            let mut header = tar::Header::new_gnu();
            header.as_gnu_mut().unwrap().name[..name.len()].copy_from_slice(name.as_bytes());
            header.set_entry_type(*kind);
            if kind.is_symlink() || kind.is_hard_link() {
                header.set_link_name("index.html").unwrap();
            }
            header.set_size(data.len() as u64);
            header.set_mode(0o644);
            header.set_cksum();
            tar.append(&header, Cursor::new(*data)).unwrap();
        }
        tar.finish().unwrap();
    }
    bytes
}

fn create_dir(path: &str) -> ExtractStep<UnixPath, Vec<u8>> {
    ExtractStep::CreateDir(UnixPath::from_text(path))
}

fn write_file(path: &str, data: &[u8]) -> ExtractStep<UnixPath, Vec<u8>> {
    ExtractStep::WriteFile {
        path: UnixPath::from_text(path),
        data: data.to_vec(),
    }
}

fn assets() -> UiAssets {
    UiAssets::from_config(&UiConfig {
        external: Some(ExternalUiConfig {
            path: UnixPath::from_text("/srv/ui"),
            url: "http://u".to_string(),
        }),
    })
}

#[test]
fn zip_single_root_extracts_to_target_root() {
    let mut zip_data = Cursor::new(Vec::new());
    {
        let mut zip = zip::ZipWriter::new(&mut zip_data);
        let opts = zip::write::SimpleFileOptions::default();
        zip.add_directory("root/", opts).unwrap();
        zip.start_file("root/index.html", opts).unwrap();
        zip.write_all(b"ok").unwrap();
        zip.finish().unwrap();
    }

    let mut world = world();
    let extracted = UnixPath::from_text("/tmp/extracted");
    world.put("/tmp/extracted", Node::Dir);
    world.put("/tmp/target", Node::Dir);
    let steps = extract_archive(zip_data.get_ref(), &extracted).unwrap();
    world.extract(steps);
    let state = world.replace("/tmp/extracted", "/tmp/target");
    assert!(matches!(state.phase, ReplacePhase::Replaced));
    assert_eq!(world.file("/tmp/target/index.html").unwrap(), "ok");
}

#[test]
fn zip_traversal_is_rejected() {
    let mut zip_data = Cursor::new(Vec::new());
    {
        let mut zip = zip::ZipWriter::new(&mut zip_data);
        let opts = zip::write::SimpleFileOptions::default();
        zip.start_file("../evil.txt", opts).unwrap();
        zip.write_all(b"bad").unwrap();
        zip.finish().unwrap();
    }

    let extracted = UnixPath::from_text("/tmp/extracted");
    assert!(extract_archive(zip_data.get_ref(), &extracted).is_err());
}

#[test]
fn tar_gz_extracts_to_target_root() {
    let mut tar_bytes = Vec::new();
    {
        let gz = flate2::write::GzEncoder::new(&mut tar_bytes, flate2::Compression::default());
        let mut tar = tar::Builder::new(gz);
        let mut header = tar::Header::new_gnu();
        header.set_path("root/index.html").unwrap();
        header.set_size(2);
        header.set_mode(0o644);
        header.set_cksum();
        tar.append(&header, Cursor::new(b"ok")).unwrap();
        tar.finish().unwrap();
    }

    let mut world = world();
    let extracted = UnixPath::from_text("/tmp/extracted");
    world.put("/tmp/extracted", Node::Dir);
    world.put("/tmp/target", Node::Dir);
    let steps = extract_archive(&tar_bytes, &extracted).unwrap();
    world.extract(steps);
    let state = world.replace("/tmp/extracted", "/tmp/target");
    assert!(matches!(state.phase, ReplacePhase::Replaced));
    assert_eq!(world.file("/tmp/target/index.html").unwrap(), "ok");
}

#[test]
fn zip_members_are_placed_in_order() {
    let zip = zip_with(&[("a/", b""), ("a/b/c.js", b"data"), ("d", b"")]);
    let steps = extract_archive(&zip, &UnixPath::from_text("/t")).unwrap();
    assert_eq!(
        steps,
        vec![
            create_dir("/t/a/"),
            create_dir("/t/a/b"),
            write_file("/t/a/b/c.js", b"data"),
            create_dir("/t"),
            write_file("/t/d", b""),
        ]
    );
}

#[test]
fn compressed_members_are_unpacked() {
    let mut zip_data = Cursor::new(Vec::new());
    let mut zip = zip::ZipWriter::new(&mut zip_data);
    let opts = zip::write::SimpleFileOptions::default()
        .compression_method(zip::CompressionMethod::Deflated);
    zip.start_file("long", opts).unwrap();
    zip.write_all(&[b'x'; 1000]).unwrap();
    zip.finish().unwrap();
    assert!(zip_data.get_ref().len() < 500);
    let steps = extract_archive(zip_data.get_ref(), &UnixPath::from_text("/t")).unwrap();
    assert_eq!(steps, vec![create_dir("/t"), write_file("/t/long", &[b'x'; 1000])]);
}

#[test]
fn zip_links_are_passed_over() {
    let mut zip_data = Cursor::new(Vec::new());
    let mut zip = zip::ZipWriter::new(&mut zip_data);
    let opts = zip::write::SimpleFileOptions::default();
    zip.add_symlink("../link", "/etc/passwd", opts).unwrap();
    zip.start_file("a", opts).unwrap();
    zip.finish().unwrap();
    let steps = extract_archive(zip_data.get_ref(), &UnixPath::from_text("/t")).unwrap();
    assert_eq!(steps, vec![create_dir("/t"), write_file("/t/a", b"")]);
}

#[test]
fn unpacking_stops_at_the_first_unsafe_member() {
    let zip = zip_with(&[("a", b"1"), ("../b", b"2"), ("c", b"3")]);
    let failure = extract_archive(&zip, &UnixPath::from_text("/t")).unwrap_err();
    assert_eq!(failure.done, vec![create_dir("/t"), write_file("/t/a", b"1")]);
    assert!(matches!(failure.error, ExtractError::UnsafePath(name) if name == "../b"));

    // A name that goes up, but not out, is refused further on.
    let zip = zip_with(&[("x/../b", b"2")]);
    let failure = extract_archive(&zip, &UnixPath::from_text("/t")).unwrap_err();
    assert!(failure.done.is_empty());
    assert!(
        matches!(failure.error, ExtractError::Traversal(path) if text(&path) == "/t/x/../b")
    );

    let zip = zip_with(&[("/etc/x", b"2")]);
    let failure = extract_archive(&zip, &UnixPath::from_text("/t")).unwrap_err();
    assert!(matches!(failure.error, ExtractError::UnsafePath(_)));
}

#[test]
fn broken_zip_is_refused() {
    let mut zip = zip_with(&[("a", b"data")]);
    let failure = extract_archive(&zip[..20], &UnixPath::from_text("/t")).unwrap_err();
    assert!(matches!(failure.error, ExtractError::Zip(_)));
    assert!(failure.done.is_empty());
    // The data of the member does not match its checksum.
    let at = zip.windows(4).position(|it| it == b"data").unwrap();
    zip[at] = b'D';
    let failure = extract_archive(&zip, &UnixPath::from_text("/t")).unwrap_err();
    assert!(matches!(failure.error, ExtractError::Io(_)));
    // What was read before that showed is written.
    assert_eq!(failure.done, vec![create_dir("/t"), write_file("/t/a", b"Data")]);
}

#[test]
fn tar_members_are_placed_in_order() {
    let tar = tar_gz_with(&[
        ("a/", tar::EntryType::Directory, b""),
        ("a/link", tar::EntryType::Symlink, b""),
        ("a/hard", tar::EntryType::Link, b""),
        ("a/pipe", tar::EntryType::Fifo, b""),
        ("./a/b.css", tar::EntryType::Regular, b"style"),
        ("c", tar::EntryType::Regular, b""),
    ]);
    let steps = extract_archive(&tar, &UnixPath::from_text("/t")).unwrap();
    assert_eq!(
        steps,
        vec![
            create_dir("/t/a/"),
            create_dir("/t/./a"),
            write_file("/t/./a/b.css", b"style"),
            create_dir("/t"),
            write_file("/t/c", b""),
        ]
    );
}

#[test]
fn tar_traversal_is_refused() {
    for name in ["../x", "a/../../x", "a/../x"] {
        let tar = tar_gz_with(&[
            ("a", tar::EntryType::Regular, b"1"),
            (name, tar::EntryType::Regular, b"2"),
        ]);
        let failure = extract_archive(&tar, &UnixPath::from_text("/t")).unwrap_err();
        assert_eq!(failure.done, vec![create_dir("/t"), write_file("/t/a", b"1")]);
        let refused = format!("/t/{name}");
        assert!(matches!(failure.error, ExtractError::Traversal(path) if text(&path) == refused));
    }
    let tar = tar_gz_with(&[("/etc/x", tar::EntryType::Regular, b"2")]);
    let failure = extract_archive(&tar, &UnixPath::from_text("/t")).unwrap_err();
    assert!(matches!(failure.error, ExtractError::Outside(path) if text(&path) == "/etc/x"));
}

#[test]
fn broken_tar_is_refused() {
    // Not gzip beyond its first bytes.
    let failure = extract_archive(b"\x1f\x8b\x00", &UnixPath::from_text("/t")).unwrap_err();
    assert!(matches!(failure.error, ExtractError::Io(_)));
    // Cut off within the data of a member.
    let data: Vec<u8> = (0..40_000u32).map(|i| (i * i % 251) as u8).collect();
    let tar = tar_gz_with(&[("a", tar::EntryType::Regular, &data)]);
    let failure = extract_archive(&tar[..tar.len() / 2], &UnixPath::from_text("/t")).unwrap_err();
    assert!(matches!(failure.error, ExtractError::Io(_)));
    // What was read before that showed is written.
    assert_eq!(failure.done.len(), 2);
    assert_eq!(failure.done[0], create_dir("/t"));
    match &failure.done[1] {
        ExtractStep::WriteFile { path, data: part } => {
            assert_eq!(text(path), "/t/a");
            assert!(part.len() < data.len() && data.starts_with(part));
        }
        ExtractStep::CreateDir(_) => unreachable!(),
    }
}

#[test]
fn other_files_are_no_archives() {
    for bytes in [&b""[..], b"PK", b"PK\x03", b"PK\x05\x06", b"\x1f", b"<html>"] {
        let failure = extract_archive(bytes, &UnixPath::from_text("/t")).unwrap_err();
        assert!(matches!(failure.error, ExtractError::UnknownType));
        assert!(failure.done.is_empty());
    }
}

#[test]
fn places_are_checked_one_by_one() {
    let path = UnixPath::from_text;
    assert!(ensure_local_child(&path("/t"), &path("/t/./a/b")).is_ok());
    assert!(ensure_local_child(&path("/t"), &path("/t")).is_ok());
    assert!(matches!(
        ensure_local_child(&path("/t"), &path("/t/a/..")),
        Err(ExtractError::Traversal(_))
    ));
    assert!(matches!(
        ensure_local_child(&path("/t"), &path("/tt/a")),
        Err(ExtractError::Outside(_))
    ));
    let entry = ZipEntry {
        name: "a".to_string(),
        is_symlink: false,
        is_dir: false,
        enclosed: Some(path("a")),
    };
    assert_eq!(
        place_zip_entry(&path("/t"), &entry).unwrap(),
        Place::File {
            parent: Some(path("/t")),
            path: path("/t/a")
        }
    );
    let member = TarMember {
        is_symlink: false,
        is_hard_link: false,
        is_dir: true,
        is_file: false,
        path: b"a".to_vec(),
    };
    assert_eq!(
        place_tar_member(&path("/t"), &member).unwrap(),
        Place::Directory(path("/t/a"))
    );
    let special = TarMember {
        is_dir: false,
        ..member
    };
    assert_eq!(place_tar_member(&path("/t"), &special).unwrap(), Place::Skip);
}

#[test]
fn old_contents_are_removed() {
    let mut world = world();
    world.put("/new/index.html", Node::File(b"new".to_vec()));
    world.put("/new/img/a.png", Node::File(b"png".to_vec()));
    world.put("/srv/ui/old.js", Node::File(b"old".to_vec()));
    world.put("/srv/ui/old/b.js", Node::File(b"old".to_vec()));
    world.put("/srv/ui/link", Node::Link);
    let state = world.replace("/new", "/srv/ui");
    assert!(matches!(state.phase, ReplacePhase::Replaced));
    assert_eq!(
        world.log,
        vec!["rm /srv/ui/link", "rm -r /srv/ui/old", "rm /srv/ui/old.js"]
    );
    assert_eq!(world.below("/srv/ui"), vec!["img", "img/a.png", "index.html"]);
    assert_eq!(world.file("/srv/ui/index.html"), Some("new"));
    assert!(world.below("/new").is_empty());
}

#[test]
fn only_a_sole_directory_is_collapsed() {
    let mut one_dir = world();
    one_dir.put("/new/dist/x", Node::File(b"1".to_vec()));
    one_dir.replace("/new", "/srv/ui");
    assert_eq!(one_dir.below("/srv/ui"), vec!["x"]);

    let mut one_file = world();
    one_file.put("/new/x", Node::File(b"1".to_vec()));
    one_file.replace("/new", "/srv/ui");
    assert_eq!(one_file.below("/srv/ui"), vec!["x"]);

    let mut two = world();
    two.put("/new/dist/x", Node::File(b"1".to_vec()));
    two.put("/new/readme", Node::File(b"2".to_vec()));
    two.replace("/new", "/srv/ui");
    assert_eq!(two.below("/srv/ui"), vec!["dist", "dist/x", "readme"]);

    let mut nothing = world();
    nothing.put("/new", Node::Dir);
    nothing.replace("/new", "/srv/ui");
    assert!(nothing.below("/srv/ui").is_empty());
    assert_eq!(nothing.nodes.get("/srv/ui"), Some(&Node::Dir));
}

#[test]
fn what_cannot_be_moved_is_copied() {
    let mut world = world();
    world.can_rename = false;
    world.put("/new/index.html", Node::File(b"new".to_vec()));
    world.put("/new/a/b/c.js", Node::File(b"c".to_vec()));
    world.put("/new/a/d.js", Node::File(b"d".to_vec()));
    world.put("/new/empty", Node::Dir);
    let state = world.replace("/new", "/srv/ui");
    assert!(matches!(state.phase, ReplacePhase::Replaced));
    assert_eq!(world.below("/srv/ui"), world.below("/new"));
    assert_eq!(world.file("/srv/ui/a/b/c.js"), Some("c"));
    assert_eq!(world.file("/srv/ui/a/d.js"), Some("d"));
}

#[test]
fn links_are_not_copied() {
    let mut world = world();
    world.can_rename = false;
    world.put("/new/a/link", Node::Link);
    world.put("/new/b", Node::Dir);
    let state = world.replace("/new", "/srv/ui");
    assert!(matches!(state.phase, ReplacePhase::Refused(path) if text(&path) == "/new/a/link"));
    assert_eq!(world.below("/srv/ui"), vec!["a"]);
}

#[test]
fn copy_goes_depth_first() {
    let path = UnixPath::from_text;
    let mut copy = CopyTree::new(path("s"), path("t"));
    copy.step(Reply::Kind(FileKind::Directory));
    assert!(matches!(copy.request(), Some(Request::CreateDirAll(it)) if *it == path("t")));
    copy.step(Reply::Done);
    copy.step(Reply::Names(vec![b"x".to_vec(), b"y".to_vec()]));
    assert!(matches!(copy.request(), Some(Request::Inspect(it)) if *it == path("s/x")));
    copy.step(Reply::Kind(FileKind::Other));
    assert!(matches!(copy.request(), Some(Request::CreateDirAll(it)) if *it == path("t")));
    copy.step(Reply::Done);
    assert!(matches!(
        copy.request(),
        Some(Request::Copy { from, to }) if *from == path("s/x") && *to == path("t/x")
    ));
    copy.step(Reply::Done);
    assert!(matches!(copy.request(), Some(Request::Inspect(it)) if *it == path("s/y")));
    copy.step(Reply::Failed("gone".to_string()));
    assert!(matches!(copy.phase, CopyPhase::Failed(text) if text == "gone"));
}

#[test]
fn replacement_that_fails_says_why() {
    let mut world = world();
    let state = world.replace("/none", "/srv/ui");
    assert!(matches!(state.phase, ReplacePhase::Failed(text) if text == "missing"));
    assert!(world.nodes.get("/srv/ui").is_none());
}

#[test]
fn web_interface_is_downloaded_and_replaced() {
    let mut world = world();
    world.body = zip_with(&[("dist/", b""), ("dist/index.html", b"new")]);
    world.put("/srv/ui/old", Node::File(b"old".to_vec()));
    let update = assets().upgrade().unwrap();
    let state = world.update(update);
    assert!(matches!(state.phase, UpdatePhase::Updated));
    assert_eq!(world.below("/srv/ui"), vec!["index.html"]);
    assert_eq!(world.file("/srv/ui/index.html"), Some("new"));
    assert_eq!(world.log, vec!["get http://u None", "rm /srv/ui/old"]);
}

#[test]
fn error_status_is_no_web_interface() {
    for (code, is_error) in [(200, false), (399, false), (400, true), (599, true), (600, false)] {
        let update = assets().upgrade().unwrap();
        let state = update.step(Reply::Status {
            code,
            text: "what".to_string(),
        });
        if is_error {
            assert!(matches!(
                state.phase,
                UpdatePhase::Failed(UpdateError::Status { code: seen, text })
                    if seen == code && text == "what"
            ));
        } else {
            assert!(matches!(state.phase, UpdatePhase::ReadBody));
        }
    }
}

#[test]
fn faulty_archive_leaves_the_old_web_interface() {
    let mut world = world();
    world.put("/srv/ui/old", Node::File(b"old".to_vec()));
    world.body = zip_with(&[("a", b"1"), ("../../srv/ui/b", b"2")]);
    let update = assets().upgrade().unwrap();
    let state = world.update(update);
    assert!(matches!(
        state.phase,
        UpdatePhase::Failed(UpdateError::Archive(ExtractError::UnsafePath(_)))
    ));
    assert_eq!(world.below("/srv/ui"), vec!["old"]);
    assert_eq!(world.below(TEMP), vec!["a"]);
}

#[test]
fn failed_download_says_why() {
    let update = assets().upgrade().unwrap();
    let state = update.step(Reply::Failed("no route".to_string()));
    assert!(state.request().is_none());
    assert!(
        matches!(state.phase, UpdatePhase::Failed(UpdateError::Failed(text)) if text == "no route")
    );
}

#[test]
fn built_in_page_is_not_upgraded() {
    assert!(matches!(
        UiAssets::built_in().upgrade(),
        Err(UpdateError::NotConfigured)
    ));
    let auto = UiAssets::built_in().auto_download_if_empty();
    assert!(auto.request().is_none());
}

fn auto_download(world: &mut World) -> AutoDownload<UnixPath, Update> {
    let mut auto = assets().auto_download_if_empty();
    while let Some(request) = auto.request() {
        let reply = world.perform(request);
        auto = auto.step(reply);
    }
    auto
}

#[test]
fn missing_web_interface_is_downloaded() {
    let mut world = world();
    world.body = zip_with(&[("index.html", b"new")]);
    let auto = auto_download(&mut world);
    assert!(matches!(auto, AutoDownload::Download(it) if matches!(it.phase, UpdatePhase::Updated)));
    assert_eq!(world.file("/srv/ui/index.html"), Some("new"));
    assert_eq!(world.log, vec!["get http://u None"]);
}

#[test]
fn nothing_is_downloaded_over_a_web_interface() {
    let mut world = world();
    world.put("/srv/ui/old", Node::File(b"old".to_vec()));
    let auto = auto_download(&mut world);
    assert!(matches!(auto, AutoDownload::AlreadyThere));
    assert!(world.log.is_empty());
}

#[test]
fn empty_or_missing_is_told_by_the_answer() {
    assert!(dir_is_empty_or_missing(&Reply::Failed("x".to_string())));
    assert!(dir_is_empty_or_missing(&Reply::Flag(false)));
    assert!(!dir_is_empty_or_missing(&Reply::Flag(true)));
}

#[test]
fn archive_errors_say_what_is_wrong() {
    let dest = UnixPath::from_text("/t");
    let error = |bytes: &[u8]| extract_archive(bytes, &dest).unwrap_err().error;
    assert_eq!(error(b"<html>").to_string(""), "unknown or unsupported UI archive type");
    assert_eq!(
        error(&zip_with(&[("../b", b"2")])).to_string(""),
        "UI archive contains unsafe path: ../b"
    );
    assert_eq!(
        error(&zip_with(&[("x/../b", b"2")])).to_string(""),
        "UI archive contains path traversal: /t/x/../b"
    );
    let outside = tar_gz_with(&[("/etc/x", tar::EntryType::Regular, b"2")]);
    assert_eq!(error(&outside).to_string(""), "prefix not found");
    let broken = zip_with(&[("a", b"data")]);
    assert_eq!(error(&broken[..20]).to_string("not a zip file"), "not a zip file");
    assert_eq!(error(b"\x1f\x8b\x00").to_string("not gzip"), "not gzip");
    assert_eq!(describe_unsafe_path("n"), "UI archive contains unsafe path: n");
    assert_eq!(describe_traversal("p"), "UI archive contains path traversal: p");
}

#[test]
fn update_errors_say_what_is_wrong() {
    let built_in = UiAssets::built_in().upgrade().unwrap_err();
    assert_eq!(built_in.to_string(""), "external UI is not configured");
    let symlink: UpdateError<String, UnixPath, ExtractError> =
        UpdateError::Symlink(UnixPath::from_text("/new/link"));
    assert_eq!(
        symlink.to_string(""),
        "refusing to copy symlink from UI archive: /new/link"
    );
    assert_eq!(describe_symlink("p"), "refusing to copy symlink from UI archive: p");
    let archive: UpdateError<String, UnixPath, ExtractError> =
        UpdateError::Archive(ExtractError::UnknownType);
    assert_eq!(archive.to_string(""), "unknown or unsupported UI archive type");
    let status: UpdateError<String, UnixPath, ExtractError> = UpdateError::Status {
        code: 404,
        text: "404 Not Found".to_string(),
    };
    assert_eq!(status.to_string("client error"), "client error");
    let failed: UpdateError<String, UnixPath, ExtractError> =
        UpdateError::Failed("no route".to_string());
    assert_eq!(failed.to_string(""), "no route");
}

#[test]
fn copy_is_laid_over_what_is_there() {
    let mut world = world();
    world.put("/new/a/b", Node::File(b"new".to_vec()));
    world.put("/new/a/c", Node::Dir);
    world.put("/srv/old/a/b", Node::File(b"old".to_vec()));
    world.put("/srv/old/a/d", Node::File(b"kept".to_vec()));
    let mut copy = CopyTree::new(UnixPath::from_text("/new"), UnixPath::from_text("/srv/old"));
    while let Some(request) = copy.request() {
        let reply = world.perform(request);
        copy.step(reply);
    }
    assert!(matches!(copy.phase, CopyPhase::Copied));
    assert_eq!(world.below("/srv/old"), vec!["a", "a/b", "a/c", "a/d"]);
    assert_eq!(world.file("/srv/old/a/b"), Some("new"));
    assert_eq!(world.file("/srv/old/a/d"), Some("kept"));
    assert_eq!(world.below("/new"), vec!["a", "a/b", "a/c"]);
}

#[test]
fn what_a_broken_listing_named_is_removed() {
    let mut world = world();
    world.put("/new/index.html", Node::File(b"new".to_vec()));
    for name in ["/srv/ui/a", "/srv/ui/b", "/srv/ui/c"] {
        world.put(name, Node::File(b"old".to_vec()));
    }
    world.broken = Some(("/srv/ui", 2));
    let state = world.replace("/new", "/srv/ui");
    assert!(matches!(state.phase, ReplacePhase::Failed(text) if text == "bad block"));
    assert_eq!(world.log, vec!["rm /srv/ui/a", "rm /srv/ui/b"]);
    assert_eq!(world.below("/srv/ui"), vec!["c"]);
    assert_eq!(world.below("/new"), vec!["index.html"]);
}

#[test]
fn broken_listing_of_the_source_changes_nothing() {
    let mut world = world();
    world.put("/new/a", Node::File(b"new".to_vec()));
    world.put("/srv/ui/old", Node::File(b"old".to_vec()));
    world.broken = Some(("/new", 1));
    let state = world.replace("/new", "/srv/ui");
    assert!(matches!(state.phase, ReplacePhase::Failed(text) if text == "bad block"));
    assert_eq!(world.below("/srv/ui"), vec!["old"]);
}

#[test]
fn what_a_broken_listing_named_is_moved() {
    let names = |list: &[&str]| list.iter().map(|it| it.as_bytes().to_vec()).collect();
    let path = UnixPath::from_text;
    let mut state = ReplaceDir::new(path("/new"), path("/srv/ui"));
    state = state.step(Reply::Names(names(&["a", "b", "c"])));
    state = state.step(Reply::Done).step(Reply::Names(Vec::new()));
    state = state.step(Reply::NamesUntil {
        names: names(&["a", "b"]),
        text: "bad block".to_string(),
    });
    for name in ["/srv/ui/a", "/srv/ui/b"] {
        assert!(matches!(state.request(), Some(Request::Rename { to, .. }) if *to == path(name)));
        state = state.step(Reply::Done);
    }
    assert!(state.request().is_none());
    assert!(matches!(state.phase, ReplacePhase::Failed(text) if text == "bad block"));
}

#[test]
fn what_a_broken_listing_named_is_copied() {
    let mut world = world();
    world.put("/new/a/x", Node::File(b"1".to_vec()));
    world.put("/new/a/y", Node::File(b"2".to_vec()));
    world.put("/new/b", Node::File(b"3".to_vec()));
    world.broken = Some(("/new/a", 1));
    let mut copy = CopyTree::new(UnixPath::from_text("/new"), UnixPath::from_text("/srv/t"));
    while let Some(request) = copy.request() {
        let reply = world.perform(request);
        copy.step(reply);
    }
    assert!(matches!(copy.phase, CopyPhase::Failed(text) if text == "bad block"));
    assert_eq!(world.below("/srv/t"), vec!["a", "a/x"]);
}

#[test]
fn part_of_an_unreadable_member_is_unpacked_before_the_failure() {
    let mut world = world();
    world.put("/srv/ui/old", Node::File(b"old".to_vec()));
    let mut zip = zip_with(&[("a", b"data"), ("b", b"more")]);
    let at = zip.windows(4).position(|it| it == b"data").unwrap();
    zip[at] = b'D';
    world.body = zip;
    let update = assets().upgrade().unwrap();
    let state = world.update(update);
    assert!(matches!(
        state.phase,
        UpdatePhase::Failed(UpdateError::Archive(ExtractError::Io(_)))
    ));
    assert_eq!(world.below(TEMP), vec!["a"]);
    assert_eq!(world.below("/srv/ui"), vec!["old"]);
}

#[test]
fn steps_of_a_broken_archive_come_before_its_fault() {
    let path = UnixPath::from_text;
    let unpack = |extracted| {
        Update::unpack("u".to_string(), path("/srv/ui"), path("/t"), extracted)
    };
    let state = unpack(Ok(Vec::new()));
    assert!(matches!(state.phase, UpdatePhase::Replace(_)));
    let state = unpack(Err(ExtractFailure {
        done: Vec::new(),
        error: ExtractError::UnknownType,
    }));
    assert!(matches!(
        state.phase,
        UpdatePhase::Failed(UpdateError::Archive(ExtractError::UnknownType))
    ));
    let mut state = unpack(Err(ExtractFailure {
        done: vec![create_dir("/t/a"), write_file("/t/a/b", b"1")],
        error: ExtractError::UnsafePath("../c".to_string()),
    }));
    assert!(matches!(state.request(), Some(Request::CreateDirAll(it)) if text(it) == "/t/a"));
    state = state.step(Reply::Done);
    assert!(matches!(state.request(), Some(Request::Write { path, .. }) if text(path) == "/t/a/b"));
    state = state.step(Reply::Done);
    assert!(matches!(
        state.phase,
        UpdatePhase::Failed(UpdateError::Archive(ExtractError::UnsafePath(name))) if name == "../c"
    ));
}
