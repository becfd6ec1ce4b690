use curlu::http::{shell_tokenize, Method, SavedRequest};

fn request(method: Method, url: &str, headers: &str, body: &str) -> SavedRequest {
    SavedRequest {
        method,
        url: url.to_string(),
        headers: headers.to_string(),
        body: body.to_string(),
    }
}

#[test]
fn method_names_are_upper_case() {
    let names: Vec<&str> = Method::ALL.iter().map(|m| m.as_str()).collect();
    assert_eq!(names, vec!["GET", "POST", "PUT", "PATCH", "DELETE", "HEAD", "OPTIONS"]);
}

#[test]
fn method_parses_its_own_name_only() {
    for m in Method::ALL.iter() {
        assert_eq!(m.as_str().parse::<Method>(), Ok(*m));
        assert_eq!(Method::from_name(m.as_str()), Some(*m));
    }
    assert_eq!("get".parse::<Method>(), Err(()));
    assert_eq!("TRACE".parse::<Method>(), Err(()));
    assert_eq!("".parse::<Method>(), Err(()));
    assert_eq!(Method::from_name("GET "), None);
}

#[test]
fn to_curl_writes_method_headers_body_and_url() {
    let r = request(
        Method::Post,
        "https://api.example.com/users",
        "Content-Type: application/json\n  Accept: */*  \n\n",
        "{\"name\":\"it's\"}",
    );
    assert_eq!(
        r.to_curl(),
        "curl -X POST \\\n  -H 'Content-Type: application/json' \\\n  -H 'Accept: */*' \\\n  -d '{\"name\":\"it'\\''s\"}' \\\n  'https://api.example.com/users'"
    );
}

#[test]
fn to_curl_without_headers_or_body() {
    let r = request(Method::Get, "http://localhost:8080/", "", "");
    assert_eq!(r.to_curl(), "curl -X GET \\\n  'http://localhost:8080/'");
}

#[test]
fn from_curl_reads_back_to_curl() {
    let r = request(
        Method::Patch,
        "https://example.com/a?b=c",
        "Authorization: Bearer x\nX-Quote: it's",
        "line one\nline 'two'",
    );
    let back = SavedRequest::from_curl(&r.to_curl()).unwrap();
    assert_eq!(back.method, Method::Patch);
    assert_eq!(back.url, "https://example.com/a?b=c");
    assert_eq!(back.headers, "Authorization: Bearer x\nX-Quote: it's");
    assert_eq!(back.body, "line one line 'two'");
}

#[test]
fn from_curl_round_trip_is_exact_for_one_line_body() {
    let r = request(Method::Delete, "https://h/x", "A: 1\nB: 2", "{\"k\": \"v\"}");
    let back = SavedRequest::from_curl(&r.to_curl()).unwrap();
    assert_eq!(back.method, r.method);
    assert_eq!(back.url, r.url);
    assert_eq!(back.headers, r.headers);
    assert_eq!(back.body, r.body);
}

#[test]
fn from_curl_refuses_other_commands() {
    assert!(SavedRequest::from_curl("wget https://example.com").is_none());
    assert!(SavedRequest::from_curl("").is_none());
    assert!(SavedRequest::from_curl("  ").is_none());
    assert!(SavedRequest::from_curl("'curl'x").is_none());
}

#[test]
fn from_curl_long_options() {
    let r = SavedRequest::from_curl(
        "curl --request PUT --header 'A: b' --header \"C: d\" --data-raw '{}' https://x.org",
    )
    .unwrap();
    assert_eq!(r.method, Method::Put);
    assert_eq!(r.headers, "A: b\nC: d");
    assert_eq!(r.body, "{}");
    assert_eq!(r.url, "https://x.org");
}

#[test]
fn from_curl_unknown_method_is_get_and_last_url_wins() {
    let r = SavedRequest::from_curl("curl -X FETCH http://a http://b --compressed -d x --data y")
        .unwrap();
    assert_eq!(r.method, Method::Get);
    assert_eq!(r.url, "http://b");
    assert_eq!(r.body, "y");
    assert_eq!(r.headers, "");
}

#[test]
fn from_curl_option_missing_its_value() {
    let r = SavedRequest::from_curl("curl http://a -X").unwrap();
    assert_eq!(r.method, Method::Get);
    assert_eq!(r.url, "http://a");
    let r = SavedRequest::from_curl("curl -H").unwrap();
    assert_eq!(r.headers, "");
    assert_eq!(r.url, "");
}

#[test]
fn from_curl_joins_continued_lines() {
    let r = SavedRequest::from_curl("curl -X HEAD \\\n   -H 'X: 1' \\\n  'http://h'").unwrap();
    assert_eq!(r.method, Method::Head);
    assert_eq!(r.headers, "X: 1");
    assert_eq!(r.url, "http://h");
}

#[test]
fn shell_tokenize_quotes_and_escapes() {
    assert_eq!(shell_tokenize("a  b\tc"), vec!["a", "b", "c"]);
    assert_eq!(shell_tokenize("'a b' \"c d\""), vec!["a b", "c d"]);
    assert_eq!(shell_tokenize("'it'\\''s'"), vec!["it's"]);
    assert_eq!(shell_tokenize("\"a\\\"b\\\\c\""), vec!["a\"b\\c"]);
    assert_eq!(shell_tokenize("a\\ b"), vec!["a b"]);
    assert_eq!(shell_tokenize("''"), Vec::<String>::new());
    assert_eq!(shell_tokenize("'unclosed x"), vec!["unclosed x"]);
    assert_eq!(shell_tokenize("end\\"), vec!["end"]);
    assert_eq!(shell_tokenize("   "), Vec::<String>::new());
}

#[test]
fn read_back_request_is_a_fixed_point() {
    let r = request(Method::Options, "http://h/p", "  A: 1 \n\n B:2\n", "x'y");
    let once = SavedRequest::from_curl(&r.to_curl()).unwrap();
    assert_eq!(once.headers, "A: 1\nB:2");
    let twice = SavedRequest::from_curl(&once.to_curl()).unwrap();
    assert_eq!(twice.method, once.method);
    assert_eq!(twice.url, once.url);
    assert_eq!(twice.headers, once.headers);
    assert_eq!(twice.body, once.body);
    assert_eq!(once.to_curl(), r.to_curl());
}

#[test]
fn url_starting_with_a_dash_is_not_read_back() {
    let r = request(Method::Get, "-x", "", "");
    let back = SavedRequest::from_curl(&r.to_curl()).unwrap();
    assert_eq!(back.url, "");
}

#[test]
fn loaded_request_pretty_prints_a_json_body() {
    let r = request(Method::Post, "http://h", "", "{\"b\":1,\"a\":2}");
    let back = curlu::http::loaded_request(&r.to_curl()).unwrap();
    assert_eq!(back.body, "{\n  \"a\": 2,\n  \"b\": 1\n}");
    let r = request(Method::Post, "http://h", "", "not json");
    assert_eq!(curlu::http::loaded_request(&r.to_curl()).unwrap().body, "not json");
    assert!(curlu::http::loaded_request("nope").is_none());
}

#[test]
fn method_list_names_each_method_once() {
    let names: Vec<&str> = Method::ALL.iter().map(|m| m.as_str()).collect();
    for (i, a) in names.iter().enumerate() {
        for (j, b) in names.iter().enumerate() {
            assert_eq!(i == j, a == b);
        }
    }
    for m in Method::ALL.iter() {
        assert_eq!(m.as_str().parse::<Method>().map(|p| p.as_str()), Ok(m.as_str()));
    }
}
