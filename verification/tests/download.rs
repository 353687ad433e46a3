use meow::download::{
    describe_rename, describe_status, download_and_replace, Download, DownloadError, DownloadPhase,
};
use meow::effect::{Reply, Request};
use meow::path::UnixPath;

fn status(code: u16, text: &str) -> Reply {
    Reply::Status {
        code,
        text: text.to_string(),
    }
}

fn failed(text: &str) -> Reply {
    Reply::Failed(text.to_string())
}

/// What is asked for on the way, when the answers are `replies`.
fn run(mut state: Download, replies: Vec<Reply>) -> (Vec<String>, Download) {
    let mut asked = Vec::new();
    for reply in replies {
        asked.push(describe(&state));
        state = state.step(reply);
    }
    (asked, state)
}

fn text(path: &UnixPath) -> String {
    String::from_utf8(path.bytes.clone()).unwrap()
}

fn describe(state: &Download) -> String {
    match state.request() {
        None => "end".to_string(),
        Some(Request::Get { url, timeout_secs }) => format!("get {url} {timeout_secs:?}"),
        Some(Request::ReadBody) => "body".to_string(),
        Some(Request::GetViaProxy { url }) => format!("proxy {url}"),
        Some(Request::CreateDirAll(path)) => format!("mkdir {}", text(path)),
        Some(Request::Write { path, data }) => format!("write {} {data:?}", text(path)),
        Some(Request::Rename { from, to }) => format!("mv {} {}", text(from), text(to)),
        Some(Request::RemoveFile(path)) => format!("rm {}", text(path)),
        Some(other) => panic!("unexpected {other:?}"),
    }
}

fn start(dest: &str, via_proxy: bool) -> Download {
    download_and_replace("http://u", &UnixPath::from_text(dest), via_proxy)
}

#[test]
fn file_is_downloaded_and_moved_into_place() {
    let (asked, state) = run(
        start("/var/geo/Country.mmdb", false),
        vec![
            status(200, "200 OK"),
            Reply::Bytes(vec![1, 2, 3]),
            Reply::Done,
            Reply::Done,
            Reply::Done,
        ],
    );
    assert_eq!(
        asked,
        vec![
            "get http://u Some(60)",
            "body",
            "mkdir /var/geo",
            "write /var/geo/Country.tmp [1, 2, 3]",
            "mv /var/geo/Country.tmp /var/geo/Country.mmdb",
        ]
    );
    assert_eq!(state.phase, DownloadPhase::Replaced { len: 3 });
    assert!(state.request().is_none());
}

#[test]
fn file_is_fetched_through_a_proxy() {
    let (asked, state) = run(
        start("/geosite.dat", true),
        vec![Reply::Bytes(vec![9]), Reply::Done, Reply::Done, Reply::Done],
    );
    assert_eq!(
        asked,
        vec![
            "proxy http://u",
            "mkdir /",
            "write /geosite.tmp [9]",
            "mv /geosite.tmp /geosite.dat",
        ]
    );
    assert_eq!(state.phase, DownloadPhase::Replaced { len: 1 });
}

#[test]
fn other_status_is_an_error() {
    for (code, is_error) in [(199, true), (200, false), (299, false), (300, true), (404, true)] {
        let state = start("/a/b", false).step(status(code, "what"));
        let error = DownloadPhase::Failed(DownloadError::Status {
            status: "what".to_string(),
            url: "http://u".to_string(),
        });
        if is_error {
            assert_eq!(state.phase, error);
        } else {
            assert_eq!(state.phase, DownloadPhase::ReadBody);
        }
    }
}

#[test]
fn failed_move_removes_the_temporary_file() {
    for last in [Reply::Done, failed("gone")] {
        let (asked, state) = run(
            start("/a/b.dat", true),
            vec![
                Reply::Bytes(vec![]),
                Reply::Done,
                Reply::Done,
                failed("busy"),
                last,
            ],
        );
        assert_eq!(
            asked[2..],
            ["write /a/b.tmp []", "mv /a/b.tmp /a/b.dat", "rm /a/b.tmp"]
        );
        assert_eq!(
            state.phase,
            DownloadPhase::Failed(DownloadError::Rename {
                from: UnixPath::from_text("/a/b.tmp"),
                to: UnixPath::from_text("/a/b.dat"),
                text: "busy".to_string(),
            })
        );
    }
}

#[test]
fn failed_write_removes_the_temporary_file() {
    let (asked, state) = run(
        start("b", true),
        vec![
            Reply::Bytes(vec![1]),
            Reply::Done,
            failed("full"),
            failed("gone"),
        ],
    );
    assert_eq!(
        asked,
        vec!["proxy http://u", "mkdir ", "write b.tmp [1]", "rm b.tmp"]
    );
    assert_eq!(
        state.phase,
        DownloadPhase::Failed(DownloadError::Failed("full".to_string()))
    );
}

#[test]
fn early_failure_touches_nothing() {
    for replies in [
        vec![failed("no")],
        vec![status(200, "200 OK"), failed("no")],
        vec![status(200, "200 OK"), Reply::Bytes(vec![1]), failed("no")],
    ] {
        let (asked, state) = run(start("/a/b", false), replies);
        assert!(asked.iter().all(|it| !it.starts_with("write") && !it.starts_with("mv")));
        assert_eq!(
            state.phase,
            DownloadPhase::Failed(DownloadError::Failed("no".to_string()))
        );
        assert!(state.request().is_none());
    }
}

#[test]
fn temporary_file_is_beside_the_file() {
    for (dest, temp) in [
        ("/a/Country.mmdb", "/a/Country.tmp"),
        ("geosite", "geosite.tmp"),
        ("/a/.hidden", "/a/.hidden.tmp"),
        ("a/b.c.d/", "a/b.c.tmp"),
        ("a/b.tmp", "a/b.tmp.tmp"),
        ("a/b.tmp.tmp", "a/b.tmp.tmp.tmp"),
        (".tmp", ".tmp.tmp"),
    ] {
        assert_eq!(text(&start(dest, false).temp), temp);
        assert_ne!(dest, temp);
    }
}

#[test]
fn other_answers_are_passed_over() {
    let state = start("/a/b", false).step(Reply::Done).step(Reply::Flag(true));
    assert_eq!(state, start("/a/b", false));
    let ended = state.step(failed("no"));
    let still = start("/a/b", false).step(failed("no")).step(Reply::Done);
    assert_eq!(ended, still);
}

#[test]
fn file_with_the_extension_of_a_temporary_file_is_untouched_on_failure() {
    for replies in [
        vec![Reply::Bytes(vec![1]), Reply::Done, failed("full"), Reply::Done],
        vec![Reply::Bytes(vec![1]), Reply::Done, Reply::Done, failed("busy"), Reply::Done],
    ] {
        let (asked, state) = run(start("/a/b.tmp", true), replies);
        assert_eq!(asked[2], "write /a/b.tmp.tmp [1]");
        assert_eq!(asked.last().unwrap(), "rm /a/b.tmp.tmp");
        assert!(!asked.iter().any(|it| it == "rm /a/b.tmp" || it.starts_with("write /a/b.tmp ")));
        assert!(matches!(state.phase, DownloadPhase::Failed(_)));
    }
}

#[test]
fn download_errors_say_what_is_wrong() {
    let state = start("/a/b.dat", false).step(status(404, "404 Not Found"));
    assert!(matches!(
        state.phase,
        DownloadPhase::Failed(error) if error.to_string() == "HTTP 404 Not Found fetching http://u"
    ));
    let rename: DownloadError<String, UnixPath> = DownloadError::Rename {
        from: UnixPath::from_text("/a/b.tmp"),
        to: UnixPath::from_text("/a/b.dat"),
        text: "busy".to_string(),
    };
    assert_eq!(rename.to_string(), "atomic rename /a/b.tmp → /a/b.dat: busy");
    let other: DownloadError<String, UnixPath> = DownloadError::Failed("no route".to_string());
    assert_eq!(other.to_string(), "no route");
    assert_eq!(describe_status("500 Oops", "u"), "HTTP 500 Oops fetching u");
    assert_eq!(describe_rename("a", "b", "c"), "atomic rename a → b: c");
}
