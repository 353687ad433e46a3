use meow::effect::{Reply, Request};
use meow::path::UnixPath;
use meow::ui::assets::{ExternalUiConfig, UiAssets, UiConfig};
use meow::ui::serve::{
    clean_request_path, content_type_for, serve_decoded, serve_ui_index, serve_ui_path,
    serve_ui_root, FileServe, FileServeError, Serving, UiReply,
};
use std::collections::BTreeMap;

/// Files by their resolved paths, and links by theirs. A path that ends with `/` is a
/// directory.
struct Disk {
    files: BTreeMap<String, Vec<u8>>,
    links: BTreeMap<String, String>,
    unreadable: Vec<String>,
}

fn disk() -> Disk {
    let mut files = BTreeMap::new();
    for (path, text) in [
        ("/srv/ui/index.html", "page"),
        ("/srv/ui/app.js", "script"),
        ("/srv/ui/img/logo.svg", "logo"),
        ("/srv/ui/a b.txt", "blank"),
        ("/srv/ui2/secret.txt", "secret"),
        ("/srv/ui/locked.css", "style"),
    ] {
        files.insert(path.to_string(), text.as_bytes().to_vec());
    }
    let mut links = BTreeMap::new();
    links.insert("/ui".to_string(), "/srv/ui".to_string());
    links.insert("/srv/ui/out.txt".to_string(), "/srv/ui2/secret.txt".to_string());
    Disk {
        files,
        links,
        unreadable: vec!["/srv/ui/locked.css".to_string()],
    }
}

fn text(path: &UnixPath) -> String {
    String::from_utf8(path.bytes.clone()).unwrap()
}

impl Disk {
    fn resolve(&self, path: &UnixPath) -> Option<String> {
        let mut path = text(path).trim_end_matches('/').to_string();
        for (link, to) in &self.links {
            if path == *link || path.starts_with(&format!("{link}/")) {
                path = format!("{to}{}", &path[link.len()..]);
            }
        }
        let exists = self.files.contains_key(&path) || self.is_dir(&path);
        exists.then_some(path)
    }

    fn is_dir(&self, path: &str) -> bool {
        self.files.keys().any(|it| it.starts_with(&format!("{path}/")))
    }

    fn perform(&self, request: Request<&UnixPath, &Vec<u8>, &String>) -> Reply {
        let missing = Reply::Failed("missing".to_string());
        match request {
            Request::Canonicalize(path) => match self.resolve(path) {
                Some(found) => Reply::Path(UnixPath::from_text(&found)),
                None => missing,
            },
            Request::Metadata(path) => match self.resolve(path) {
                Some(found) => Reply::Flag(self.is_dir(&found)),
                None => missing,
            },
            Request::Read(path) => {
                if self.unreadable.contains(&text(path)) {
                    return Reply::Failed("denied".to_string());
                }
                Reply::Bytes(self.files[&text(path)].clone())
            }
            other => panic!("unexpected {other:?}"),
        }
    }
}

fn external(path: &str) -> UiAssets {
    UiAssets::from_config(&UiConfig {
        external: Some(ExternalUiConfig {
            path: UnixPath::from_text(path),
            url: "http://u".to_string(),
        }),
    })
}

fn answer(assets: &UiAssets, rest: &str) -> UiReply<String, Vec<u8>> {
    finish(serve_ui_path(assets, rest))
}

fn finish(
    serving: Serving<UiReply<String, Vec<u8>>, meow::ui::serve::Serve>,
) -> UiReply<String, Vec<u8>> {
    let disk = disk();
    let mut state = match serving {
        Serving::Reply(reply) => return reply,
        Serving::Work(state) => state,
    };
    let mut answers = 0;
    while let Some(request) = state.request() {
        let reply = disk.perform(request);
        state = state.step(reply);
        answers += 1;
    }
    assert!(answers <= 8);
    state.reply().unwrap()
}

fn file(content_type: &str, body: &str) -> UiReply<String, Vec<u8>> {
    UiReply::File {
        content_type: content_type.to_string(),
        body: body.as_bytes().to_vec(),
    }
}

const HTML: &str = "text/html; charset=utf-8";

#[test]
fn built_in_page_is_served_everywhere() {
    let assets = UiAssets::built_in();
    assert_eq!(assets, UiAssets::from_config(&UiConfig { external: None }));
    assert_eq!(serve_ui_root(&assets), UiReply::BuiltInPage);
    assert_eq!(serve_ui_index(&assets), Serving::Reply(UiReply::BuiltInPage));
    assert_eq!(answer(&assets, "../x"), UiReply::BuiltInPage);
}

#[test]
fn root_leads_to_the_external_page() {
    assert_eq!(
        serve_ui_root(&external("/srv/ui")),
        UiReply::Redirect("/ui/".to_string())
    );
}

#[test]
fn files_are_served_with_their_types() {
    for base in ["/srv/ui", "/ui", "/srv/ui/"] {
        let assets = external(base);
        assert_eq!(finish(serve_ui_index(&assets)), file(HTML, "page"));
        assert_eq!(answer(&assets, ""), file(HTML, "page"));
        assert_eq!(answer(&assets, "."), file(HTML, "page"));
        assert_eq!(
            answer(&assets, "app.js"),
            file("text/javascript; charset=utf-8", "script")
        );
        assert_eq!(
            answer(&assets, "img//./logo.svg"),
            file("image/svg+xml", "logo")
        );
    }
}

#[test]
fn paths_are_percent_decoded() {
    let assets = external("/srv/ui");
    let blank = file("application/octet-stream", "blank");
    assert_eq!(answer(&assets, "a%20b.txt"), blank);
    assert_eq!(answer(&assets, "a b%2etxt"), blank);
    assert_eq!(answer(&assets, "%61pp%2Ejs"), answer(&assets, "app.js"));
    // A `%` without two digits stands for itself.
    assert_eq!(answer(&assets, "a%2.txt"), UiReply::Status(404));
}

#[test]
fn undecodable_path_is_a_bad_request() {
    let assets = external("/srv/ui");
    assert_eq!(answer(&assets, "%ff"), UiReply::Status(400));
    assert_eq!(answer(&assets, "a/%C3"), UiReply::Status(400));
    assert_eq!(
        answer(&assets, "%C3%A9.txt"),
        UiReply::Status(404)
    );
}

#[test]
fn traversal_is_forbidden() {
    let assets = external("/srv/ui");
    for rest in [
        "..",
        "../ui2/secret.txt",
        "img/../app.js",
        "/app.js",
        "%2e%2e/ui2/secret.txt",
        "..%2fui2/secret.txt",
        "%2Fapp.js",
    ] {
        assert_eq!(
            serve_ui_path(&assets, rest),
            Serving::Reply(UiReply::Status(403)),
            "{rest}"
        );
    }
}

#[test]
fn link_out_of_the_directory_is_forbidden() {
    assert_eq!(answer(&external("/srv/ui"), "out.txt"), UiReply::Status(403));
}

#[test]
fn missing_view_falls_back_to_the_page() {
    let assets = external("/srv/ui");
    assert_eq!(answer(&assets, "proxies/all"), file(HTML, "page"));
    // A directory is not served.
    assert_eq!(answer(&assets, "img"), file(HTML, "page"));
    assert_eq!(answer(&assets, ".hidden"), file(HTML, "page"));
    assert_eq!(answer(&assets, "proxies/all.js"), UiReply::Status(404));
    // There is no page either.
    assert_eq!(answer(&external("/srv/ui2"), "x"), UiReply::Status(404));
    assert_eq!(answer(&external("/none"), "x"), UiReply::Status(404));
}

#[test]
fn unreadable_file_is_an_error() {
    assert_eq!(
        answer(&external("/srv/ui"), "locked.css"),
        UiReply::Error {
            code: 500,
            text: "denied".to_string()
        }
    );
}

#[test]
fn clean_path_holds_names_only() {
    for (rest, clean) in [
        ("", Some("")),
        ("a", Some("a")),
        ("./a//b/./c/", Some("a/b/c")),
        (".", Some("")),
        ("a/..", None),
        ("/a", None),
        ("...", Some("...")),
    ] {
        let path = clean_request_path(rest);
        assert_eq!(
            path.clone(),
            clean.map(UnixPath::from_text).ok_or(()),
            "{rest}"
        );
        if let Ok(path) = path {
            // Cleaning once more changes nothing.
            assert_eq!(clean_request_path(&text(&path)), Ok(path));
        }
    }
}

#[test]
fn requested_file_lies_below_base() {
    let base = UnixPath::from_text("/srv/ui");
    for (decoded, asked) in [("a/b.css", "/srv/ui/a/b.css"), ("", "/srv/ui/index.html")] {
        let state = match serve_decoded(&base, decoded) {
            Serving::Work(state) => state,
            Serving::Reply(_) => unreachable!(),
        };
        assert_eq!(
            state.attempt,
            FileServe::ResolveRoot {
                root: base.clone(),
                file: UnixPath::from_text(asked)
            }
        );
    }
}

#[test]
fn content_type_goes_by_the_extension() {
    for (name, content_type) in [
        ("a.html", "text/html; charset=utf-8"),
        ("a.js", "text/javascript; charset=utf-8"),
        ("a.mjs", "text/javascript; charset=utf-8"),
        ("a.css", "text/css; charset=utf-8"),
        ("a.json", "application/json"),
        ("a.svg", "image/svg+xml"),
        ("a.png", "image/png"),
        ("a.jpg", "image/jpeg"),
        ("a.jpeg", "image/jpeg"),
        ("a.webp", "image/webp"),
        ("a.ico", "image/x-icon"),
        ("a.wasm", "application/wasm"),
        ("a.HTML", "application/octet-stream"),
        ("a.txt", "application/octet-stream"),
        ("html", "application/octet-stream"),
        (".html", "application/octet-stream"),
        ("a.html/", "text/html; charset=utf-8"),
        ("", "application/octet-stream"),
    ] {
        assert_eq!(content_type_for(&UnixPath::from_text(name)), content_type);
    }
}

#[test]
fn serve_errors_become_answers() {
    assert_eq!(FileServeError::NotFound.into_response(), UiReply::Status(404));
    assert_eq!(FileServeError::Forbidden.into_response(), UiReply::Status(403));
    assert_eq!(
        FileServeError::Io("x".to_string()).into_response(),
        UiReply::Error {
            code: 500,
            text: "x".to_string()
        }
    );
}

#[test]
fn only_files_in_the_directory_are_read() {
    let path = UnixPath::from_text;
    let state = FileServe::new(path("/l"), path("/l/f"));
    let state = state.step(Reply::Path(path("/srv/ui")));
    let state = state.step(Reply::Flag(false));
    let inside = FileServe::ResolveFile {
        root: path("/srv/ui"),
        file: path("/l/f"),
    };
    assert_eq!(state, inside);
    let outside = state.step(Reply::Path(path("/srv/ui-old/f")));
    assert_eq!(outside, FileServe::Forbidden);
    let read = inside.step(Reply::Path(path("/srv/ui/f")));
    assert!(matches!(read.request(), Some(Request::Read(file)) if *file == path("/srv/ui/f")));
}
