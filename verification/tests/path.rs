use meow::path::{Component, UnixPath};
use std::path::Path;

/// All texts of up to `len` characters out of `/`, `.` and `a`.
fn texts(len: usize) -> Vec<String> {
    let mut all = vec![String::new()];
    let mut last = all.clone();
    for _ in 0..len {
        let mut next = Vec::new();
        for text in &last {
            for letter in ["/", ".", "a"] {
                next.push(format!("{text}{letter}"));
            }
        }
        all.extend(next.iter().cloned());
        last = next;
    }
    all
}

fn std_components(path: &Path) -> Vec<Component<Vec<u8>>> {
    path.components()
        .map(|part| match part {
            std::path::Component::Prefix(_) => unreachable!(),
            std::path::Component::RootDir => Component::RootDir,
            std::path::Component::CurDir => Component::CurDir,
            std::path::Component::ParentDir => Component::ParentDir,
            std::path::Component::Normal(name) => {
                Component::Normal(name.as_encoded_bytes().to_vec())
            }
        })
        .collect()
}

fn std_bytes(path: &Path) -> Vec<u8> {
    path.as_os_str().as_encoded_bytes().to_vec()
}

#[test]
fn components_are_those_of_std() {
    for text in texts(7) {
        let path = UnixPath::from_text(&text);
        assert_eq!(path.bytes, text.as_bytes());
        assert_eq!(path.components(), std_components(Path::new(&text)), "{text}");
        assert_eq!(path.is_empty(), text.is_empty());
    }
}

#[test]
fn names_are_those_of_std() {
    for text in texts(7) {
        let path = UnixPath::from_text(&text);
        let other = Path::new(&text);
        let name = other.file_name().map(|name| name.as_encoded_bytes().to_vec());
        assert_eq!(path.file_name(), name, "{text}");
        let extension = other.extension().map(|it| it.as_encoded_bytes().to_vec());
        assert_eq!(path.extension(), extension, "{text}");
    }
}

#[test]
fn parent_is_that_of_std() {
    for text in texts(7) {
        let path = UnixPath::from_text(&text);
        let parent = Path::new(&text).parent().map(std_bytes);
        assert_eq!(path.parent().map(|it| it.bytes), parent, "{text}");
    }
}

#[test]
fn with_extension_is_that_of_std() {
    for text in texts(7) {
        for extension in ["tmp", "t.p", ""] {
            let path = UnixPath::from_text(&text);
            let mut other = Path::new(&text).to_path_buf();
            other.set_extension(extension);
            if Path::new(&text).file_name().is_none() {
                assert_eq!(path.with_extension(extension.as_bytes()), path);
                continue;
            }
            assert_eq!(
                path.with_extension(extension.as_bytes()).bytes,
                std_bytes(&other),
                "{text}"
            );
        }
    }
}

#[test]
fn join_and_lies_within_are_those_of_std() {
    let all = texts(4);
    for text in &all {
        let path = UnixPath::from_text(text);
        for rest in &all {
            let other = Path::new(text);
            assert_eq!(path.join(rest.as_bytes()).bytes, std_bytes(&other.join(rest)));
            assert_eq!(
                path.lies_within(&UnixPath::from_text(rest)),
                other.starts_with(rest),
                "{text} {rest}"
            );
        }
    }
}

#[test]
fn parent_drops_the_last_component() {
    let path = UnixPath::from_text("/a//b/./c.d/");
    let parent = path.parent().unwrap();
    assert_eq!(parent.bytes, b"/a//b");
    let mut parts = path.components();
    assert_eq!(parts.pop(), Some(Component::Normal(b"c.d".to_vec())));
    assert_eq!(parent.components(), parts);
    assert_eq!(UnixPath::from_text("/").parent(), None);
    assert_eq!(UnixPath::from_text("").parent(), None);
    assert_eq!(UnixPath::from_text("a").parent(), Some(UnixPath::from_text("")));
}

#[test]
fn joined_path_lies_within_its_base() {
    let base = UnixPath::from_text("/srv/ui");
    assert_eq!(base.join(b"index.html").bytes, b"/srv/ui/index.html");
    assert!(base.join(b"index.html").lies_within(&base));
    assert!(base.join(b"../x").lies_within(&base));
    assert!(!base.join(b"/x").lies_within(&base));
    assert!(!UnixPath::from_text("/srv/ui2").lies_within(&base));
}

#[test]
fn other_bytes_are_kept() {
    let path = UnixPath {
        bytes: vec![0xff, b'/', 0x00, b'.', 0xfe],
    };
    assert_eq!(
        path.components(),
        vec![
            Component::Normal(vec![0xff]),
            Component::Normal(vec![0x00, b'.', 0xfe])
        ]
    );
    assert_eq!(path.extension(), Some(vec![0xfe]));
    assert_eq!(path.copied(), path);
}

#[test]
fn paths_are_shown_as_text() {
    assert_eq!(UnixPath::from_text("/a/é.html").to_text(), "/a/é.html");
    let path = UnixPath {
        bytes: vec![b'/', 0xff, b'a'],
    };
    assert_eq!(path.to_text(), Path::new("/\u{fffd}a").to_str().unwrap());
}
