use curlu::browser::{count_files, extract_host, short_dir_label, DirEntry};
use curlu::http::{response_header_text, send_header_pairs};
use curlu::session::{filter_wait, window_title, FILTER_DELAY_MS};

fn file(name: &str) -> DirEntry {
    DirEntry::File { name: name.to_string(), path: format!("/r/{name}") }
}

fn dir(name: &str, children: Vec<DirEntry>) -> DirEntry {
    DirEntry::Dir { name: name.to_string(), path: format!("/r/{name}"), children }
}

fn tree() -> Vec<DirEntry> {
    vec![
        file("Login.curl"),
        dir("users", vec![file("List Users.curl"), dir("empty", vec![]), dir("deep", vec![file("ÉTÉ.curl")])]),
        dir("nothing", vec![]),
    ]
}

#[test]
fn count_files_counts_at_every_depth() {
    assert_eq!(count_files(&tree()), 3);
    assert_eq!(count_files(&[]), 0);
    assert_eq!(count_files(&[dir("a", vec![dir("b", vec![])])]), 0);
}

#[test]
fn has_match_ignores_case_and_looks_deep() {
    let t = tree();
    assert!(DirEntry::has_match(&t, "login"));
    assert!(DirEntry::has_match(&t, "LIST u"));
    assert!(DirEntry::has_match(&t, "été"));
    assert!(DirEntry::has_match(&t, ".curl"));
    assert!(DirEntry::has_match(&t, "users"));
    assert!(!DirEntry::has_match(&t, "deep"));
    assert!(!DirEntry::has_match(&t, "empty"));
    assert!(DirEntry::has_match(&t, ""));
    assert!(!DirEntry::has_match(&[dir("a", vec![])], ""));
    assert!(!DirEntry::has_match(&[], "x"));
}

#[test]
fn extract_host_drops_scheme_and_path() {
    assert_eq!(extract_host("https://api.example.com/v1/users"), "api.example.com");
    assert_eq!(extract_host("  http://localhost:8080  "), "localhost:8080");
    assert_eq!(extract_host("https://https://x/y"), "x");
    assert_eq!(extract_host("http://https://x"), "https:");
    assert_eq!(extract_host("example.org"), "example.org");
    assert_eq!(extract_host(""), "");
    assert_eq!(extract_host("/path"), "");
    assert_eq!(extract_host("ftp://h/x"), "ftp:");
}

#[test]
fn short_dir_label_keeps_the_last_component() {
    assert_eq!(short_dir_label("/home/me/requests"), "~/requests");
    assert_eq!(short_dir_label("/home/me/requests/"), "~/");
    assert_eq!(short_dir_label("plain"), "~/plain");
    assert_eq!(short_dir_label(""), "~/");
}

#[test]
fn window_titles() {
    assert_eq!(window_title(None), "CurlU");
    assert_eq!(window_title(Some("get users.curl")), "CurlU — [get users.curl]");
    assert_eq!(window_title(Some("")), "CurlU — []");
}

#[test]
fn filter_waits_for_the_delay() {
    assert_eq!(FILTER_DELAY_MS, 300);
    assert_eq!(filter_wait(0), Some(300));
    assert_eq!(filter_wait(999_999), Some(300));
    assert_eq!(filter_wait(1_000_000), Some(299));
    assert_eq!(filter_wait(299_999_999), Some(1));
    assert_eq!(filter_wait(300_000_000), None);
    assert_eq!(filter_wait(u128::MAX), None);
}

#[test]
fn send_header_pairs_keeps_valid_headers_in_order() {
    let raw = "  Content-Type :  application/json \n\nno colon here\nBad Name: x\nX-Empty:\n: novalue\nX-Ctl: a\u{1}b\nX-Tab: a\tb\nAccept: */*\nAccept: text/plain\nX-Uni: é";
    let got = send_header_pairs(raw);
    let want: Vec<(String, String)> = vec![
        ("Content-Type", "application/json"),
        ("X-Empty", ""),
        ("X-Tab", "a\tb"),
        ("Accept", "*/*"),
        ("Accept", "text/plain"),
        ("X-Uni", "é"),
    ]
    .into_iter()
    .map(|(a, b)| (a.to_string(), b.to_string()))
    .collect();
    assert_eq!(got, want);
    assert!(send_header_pairs("").is_empty());
}

#[test]
fn response_header_text_lists_status_and_headers() {
    let hs = vec![
        ("content-type".to_string(), "text/html".to_string()),
        ("x-a".to_string(), "1".to_string()),
    ];
    assert_eq!(
        response_header_text("200 OK", &hs),
        "HTTP 200 OK\ncontent-type: text/html\nx-a: 1\n"
    );
    assert_eq!(response_header_text("404 Not Found", &vec![]), "HTTP 404 Not Found\n");
}

#[test]
fn empty_filter_matches_when_a_file_exists() {
    let t = tree();
    assert_eq!(DirEntry::has_match(&t, ""), count_files(&t) > 0);
    let only_dirs = vec![dir("a", vec![dir("b", vec![])])];
    assert_eq!(DirEntry::has_match(&only_dirs, ""), count_files(&only_dirs) > 0);
    assert!(!DirEntry::has_match(&only_dirs, ""));
}

#[test]
fn file_counts_add_up() {
    let mut a = tree();
    let b = vec![file("x.curl"), dir("d", vec![file("y.curl")])];
    let (na, nb) = (count_files(&a), count_files(&b));
    a.extend(b);
    assert_eq!(count_files(&a), na + nb);
    let children = vec![file("1.curl"), file("2.curl")];
    assert_eq!(count_files(&[dir("c", children)]), 2);
}
