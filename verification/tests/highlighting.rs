use curlu::highlight::{header_spans, headers_colored, json_colored, json_highlightable, json_spans, SynRole};
use curlu::settings::{Accent, Theme};
use curlu::theme::{palette, rgb};

fn spans(text: &str) -> Option<Vec<(String, SynRole)>> {
    json_spans(text).map(|v| v.into_iter().map(|s| (s.text, s.role)).collect())
}

fn sp(parts: &[(&str, SynRole)]) -> Vec<(String, SynRole)> {
    parts.iter().map(|(t, r)| (t.to_string(), *r)).collect()
}

use SynRole::{Bool, FieldValue, Key, Null, Num, Punct, Str};

#[test]
fn json_spans_of_an_object() {
    assert_eq!(
        spans(r#"{"a": [1, true, null, "s"]}"#),
        Some(sp(&[
            ("{", Punct), ("\"a\"", Key), (":", Punct), (" ", Punct), ("[", Punct),
            ("1", Num), (",", Punct), (" ", Punct), ("true", Bool), (",", Punct), (" ", Punct),
            ("null", Null), (",", Punct), (" ", Punct), ("\"s\"", Str), ("]", Punct), ("}", Punct),
        ]))
    );
}

#[test]
fn json_keys_need_an_object_and_a_colon() {
    assert_eq!(
        spans("{\"a\" \n: false}"),
        Some(sp(&[("{", Punct), ("\"a\"", Key), (" \n", Punct), (":", Punct), (" ", Punct), ("false", Bool), ("}", Punct)]))
    );
    assert_eq!(spans("[\"a\": 1]").unwrap()[1], ("\"a\"".to_string(), Str));
    assert_eq!(spans("{\"a\", \"b\"}").unwrap()[1], ("\"a\"".to_string(), Str));
    assert_eq!(spans("{[\"a\":1]}").unwrap()[2], ("\"a\"".to_string(), Str));
    assert_eq!(spans("[{}\"a\":1]").unwrap()[3], ("\"a\"".to_string(), Str));
    assert_eq!(spans("{[]\"a\":1}").unwrap()[3], ("\"a\"".to_string(), Key));
}

#[test]
fn json_strings_numbers_and_words() {
    assert_eq!(spans(r#""a\"b""#), Some(sp(&[(r#""a\"b""#, Str)])));
    assert_eq!(spans("\"open"), Some(sp(&[("\"open", Str)])));
    assert_eq!(spans("-1.5e+3,2"), Some(sp(&[("-1.5e+3", Num), (",", Punct), ("2", Num)])));
    assert_eq!(spans("tx"), Some(sp(&[("t", Punct), ("x", Punct)])));
    assert_eq!(spans("nul"), Some(sp(&[("n", Punct), ("ul", Punct)])));
    assert_eq!(spans("falsey"), Some(sp(&[("false", Bool), ("y", Punct)])));
    assert_eq!(spans(""), Some(vec![]));
}

#[test]
fn json_words_are_found_at_byte_offsets() {
    assert_eq!(spans("é true"), Some(sp(&[("é ", Punct), ("t", Punct), ("rue", Punct)])));
    assert_eq!(spans("ét"), None);
    assert_eq!(spans("én"), None);
}

#[test]
fn json_string_ending_in_a_backslash_has_no_spans() {
    assert_eq!(spans("\"abc\\"), None);
    assert_eq!(spans("\"abc\\\""), Some(sp(&[("\"abc\\\"", Str)])));
}

#[test]
fn ascii_json_spans_keep_the_text() {
    let text = "{\n  \"k\": [1, -2.5e3, true, false, null, \"x\\\"y\"],\n  \"o\": {}\n} trailing";
    let joined: String = spans(text).unwrap().into_iter().map(|(t, _)| t).collect();
    assert_eq!(joined, text);
}

#[test]
fn header_spans_of_a_response() {
    let v: Vec<(String, SynRole)> = header_spans("HTTP 200 OK\ncontent-type: text/plain\nweird line\n")
        .into_iter()
        .map(|s| (s.text, s.role))
        .collect();
    assert_eq!(
        v,
        sp(&[
            ("HTTP 200 OK", Key), ("\n", Punct), ("content-type", Key), (":", Punct),
            (" text/plain", FieldValue), ("\n", Punct), ("weird line", Punct), ("\n", Punct), ("", Punct),
        ])
    );
}

#[test]
fn header_spans_split_at_the_first_colon() {
    let v: Vec<(String, SynRole)> = header_spans("Host: a:8080").into_iter().map(|s| (s.text, s.role)).collect();
    assert_eq!(v, sp(&[("Host", Key), (":", Punct), (" a:8080", FieldValue)]));
    let v: Vec<(String, SynRole)> = header_spans("").into_iter().map(|s| (s.text, s.role)).collect();
    assert_eq!(v, sp(&[("", Punct)]));
    let v: Vec<(String, SynRole)> = header_spans("HTTP: x").into_iter().map(|s| (s.text, s.role)).collect();
    assert_eq!(v, sp(&[("HTTP: x", Key)]));
}

#[test]
fn json_colored_uses_the_palette() {
    let pal = palette(Theme::Light, Accent::Green);
    let v = json_colored("{\"a\":1}", &pal);
    let got: Vec<(String, _)> = v.into_iter().map(|c| (c.text, c.color)).collect();
    assert_eq!(
        got,
        vec![
            ("{".to_string(), pal.syn_punct),
            ("\"a\"".to_string(), pal.syn_key),
            (":".to_string(), pal.syn_punct),
            ("1".to_string(), pal.syn_num),
            ("}".to_string(), pal.syn_punct),
        ]
    );
    assert!(json_highlightable("{\"a\":1}"));
    assert!(!json_highlightable("ét"));
    assert!(!json_highlightable("\"x\\"));
}

#[test]
fn headers_colored_uses_the_given_colours() {
    let (k, v, p) = (rgb(1, 2, 3), rgb(4, 5, 6), rgb(7, 8, 9));
    let got: Vec<(String, _)> =
        headers_colored("a: b\nHTTP 404", k, v, p).into_iter().map(|c| (c.text, c.color)).collect();
    assert_eq!(
        got,
        vec![
            ("a".to_string(), k),
            (":".to_string(), p),
            (" b".to_string(), v),
            ("\n".to_string(), p),
            ("HTTP 404".to_string(), k),
        ]
    );
}

#[test]
fn header_spans_keep_the_text() {
    for text in ["", "\n", "HTTP/1.1 200\r\nA: b\n\nc:d:e\nno colon", "é: ü\nHTTPS"] {
        let joined: String = header_spans(text).into_iter().map(|s| s.text).collect();
        assert_eq!(joined, text);
    }
}
