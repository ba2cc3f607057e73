//! The server that answers an assistant's questions about the library.

use std::io::{Cursor, Write};

use omalibre::annotation::{Color, Slice};
use omalibre::failure::Failure;
use omalibre::journal::{Event, Journal, Moment, Payload, State};
use omalibre::mcp::json::{read_request, Json};
use omalibre::mcp::reading::context_around;
use omalibre::mcp::{
    accept, file_wanted, handle, needs_journal, parse_error, receive, tool_definitions, Received,
};
use zip::write::SimpleFileOptions;
use zip::ZipWriter;

const PROTOCOL_VERSION: &str = "2024-11-05";

fn object(fields: Vec<(&str, Json)>) -> Json {
    Json::Object(fields.into_iter().map(|(name, value)| (name.to_string(), value)).collect())
}

fn text(value: &str) -> Json {
    Json::Text(value.to_string())
}

fn request(method: &str, params: Json) -> Json {
    object(vec![
        ("jsonrpc", text("2.0")),
        ("id", Json::Number("1".to_string())),
        ("method", text(method)),
        ("params", params),
    ])
}

/// An answer given with an empty journal and no file at hand.
fn answer(request: &Json) -> Option<Json> {
    handle(request, &Ok(State::new()), Err(Failure::new("no file".to_string())))
}

/// The value at a path of field names.
fn at<'a>(value: &'a Json, path: &[&str]) -> &'a Json {
    path.iter().fold(value, |value, name| value.get(name).expect("a field"))
}

fn string<'a>(value: &'a Json) -> &'a str {
    match value {
        Json::Text(text) => text,
        other => panic!("expected a string, got {other:?}"),
    }
}

fn items(value: &Json) -> &Vec<Json> {
    match value {
        Json::List(items) => items,
        other => panic!("expected a list, got {other:?}"),
    }
}

#[test]
fn initialize_reports_the_protocol_and_tools() {
    let response =
        answer(&request("initialize", object(vec![("protocolVersion", text(PROTOCOL_VERSION))])))
            .expect("an answer");
    let result = at(&response, &["result"]);
    assert_eq!(string(at(result, &["protocolVersion"])), PROTOCOL_VERSION);
    assert_eq!(string(at(result, &["serverInfo", "name"])), "omalibre");
    assert!(matches!(at(result, &["capabilities", "tools"]), Json::Object(_)));
}

#[test]
fn a_newer_client_version_is_echoed() {
    let response =
        answer(&request("initialize", object(vec![("protocolVersion", text("2025-06-18"))])))
            .expect("an answer");
    assert_eq!(string(at(&response, &["result", "protocolVersion"])), "2025-06-18");
}

#[test]
fn every_tool_has_a_name_and_a_schema() {
    for tool in tool_definitions() {
        assert!(!string(at(&tool, &["name"])).is_empty());
        assert!(!string(at(&tool, &["description"])).is_empty());
        assert_eq!(string(at(&tool, &["inputSchema", "type"])), "object");
    }
}

#[test]
fn tools_list_answers_with_all_of_them() {
    let response = answer(&request("tools/list", object(vec![]))).expect("an answer");
    let tools = items(at(&response, &["result", "tools"]));
    assert_eq!(tools.len(), 6);
}

#[test]
fn a_notification_gets_no_answer() {
    let notification =
        object(vec![("jsonrpc", text("2.0")), ("method", text("notifications/initialized"))]);
    assert!(answer(&notification).is_none());
}

#[test]
fn an_unknown_method_is_an_error() {
    let response = answer(&request("nonsense", object(vec![]))).expect("an answer");
    assert!(matches!(at(&response, &["error", "code"]), Json::Number(code) if code == "-32601"));
}

#[test]
fn a_failed_call_is_reported_in_the_result() {
    // Nothing is known of any book, so the call cannot succeed.
    let response = answer(&request(
        "tools/call",
        object(vec![
            ("name", text("get_book")),
            ("arguments", object(vec![("book", text("nothing"))])),
        ]),
    ))
    .expect("an answer");
    assert!(matches!(at(&response, &["result", "isError"]), Json::Bool(true)));
    let content = items(at(&response, &["result", "content"]));
    assert!(matches!(at(&content[0], &["text"]), Json::Text(_)));
}

#[test]
fn context_is_cut_around_the_match() {
    let text = "a".repeat(300);
    let window = context_around(&text, 150, 3);
    assert!(window.starts_with('…'));
    assert!(window.ends_with('…'));
    assert!(window.chars().count() < text.chars().count());
}

#[test]
fn context_at_the_start_has_no_leading_ellipsis() {
    let window = context_around("short text here", 0, 5);
    assert!(!window.starts_with('…'));
    assert!(!window.ends_with('…'));
}

fn event(seconds: i64, payload: Payload) -> Event {
    Event {
        at: Moment { seconds, nanos: 0 },
        host: "box".to_string(),
        book: "sha256:a".to_string(),
        payload,
    }
}

/// A journal that knows one book, with one annotation and a position.
fn library() -> State {
    Journal::replay(vec![
        event(
            1,
            Payload::BookSeen {
                title: Some("A Book".to_string()),
                authors: vec!["One".to_string()],
                path: "/b/a.epub".to_string(),
            },
        ),
        event(
            2,
            Payload::HighlightAdded {
                id: "m".to_string(),
                href: "a.xhtml".to_string(),
                slices: vec![Slice { block: 0, start: 2, end: 6 }],
                color: Color::Green,
                quote: "word".to_string(),
            },
        ),
        event(
            1_767_225_600,
            Payload::PositionSet { href: "a.xhtml".to_string(), block: 0, offset: 0 },
        ),
    ])
}

fn archive() -> Vec<u8> {
    let mut writer = ZipWriter::new(Cursor::new(Vec::new()));
    for (name, content) in [
        (
            "META-INF/container.xml",
            r#"<container><rootfiles><rootfile full-path="book.opf"/></rootfiles></container>"#,
        ),
        (
            "book.opf",
            r#"<package><metadata/><manifest><item id="a" href="a.xhtml"/></manifest>
               <spine><itemref idref="a"/></spine></package>"#,
        ),
        ("a.xhtml", "<html><body><p>a word, a word</p></body></html>"),
    ] {
        writer.start_file(name, SimpleFileOptions::default()).unwrap();
        writer.write_all(content.as_bytes()).unwrap();
    }
    writer.finish().unwrap().into_inner()
}

fn call(name: &str, arguments: Vec<(&str, Json)>) -> Json {
    request(
        "tools/call",
        object(vec![("name", text(name)), ("arguments", object(arguments))]),
    )
}

/// The text of an answer, and whether it is an error.
fn told(request: &Json) -> (String, bool) {
    let response = handle(request, &Ok(library()), Ok(archive())).expect("an answer");
    let content = items(at(&response, &["result", "content"]));
    let failed = matches!(response.get("result").and_then(|r| r.get("isError")), Some(Json::Bool(true)));
    (string(at(&content[0], &["text"])).to_string(), failed)
}

#[test]
fn every_tool_answers() {
    for (name, arguments, expected) in [
        ("list_books", vec![], "A Book"),
        ("get_book", vec![("book", text("a book"))], "A Book"),
        ("read_chapter", vec![("book", text("a book")), ("chapter", text("1"))], "a word, a word"),
        ("search_book", vec![("book", text("a book")), ("query", text("word"))], "word"),
        ("annotations", vec![("book", text("a book"))], "word"),
        ("reading_positions", vec![], "2026-01-01"),
    ] {
        let (answer, failed) = told(&call(name, arguments));
        assert!(!failed, "{name}: {answer}");
        assert!(answer.contains(expected), "{name}: {answer}");
    }
}

#[test]
fn each_failure_is_told() {
    for (name, arguments, expected) in [
        ("nonsense", vec![], "unknown tool: nonsense"),
        ("get_book", vec![], ""),
        ("get_book", vec![("book", text("unheard of"))], "unheard of"),
        ("read_chapter", vec![("book", text("a book")), ("chapter", text("9"))], ""),
        ("search_book", vec![("book", text("a book"))], ""),
    ] {
        let (answer, failed) = told(&call(name, arguments));
        assert!(failed, "{name}: {answer}");
        assert!(answer.contains(expected), "{name}: {answer}");
    }
    // A journal that cannot be replayed, and a file that cannot be read.
    let request = call("get_book", vec![("book", text("a book"))]);
    let lost = || Failure::new("disk on fire".to_string());
    for response in [
        handle(&request, &Err(lost()), Ok(archive())),
        handle(&request, &Ok(library()), Err(lost())),
    ] {
        let response = response.expect("an answer");
        let content = items(at(&response, &["result", "content"]));
        assert!(string(at(&content[0], &["text"])).contains("disk on fire"));
    }
}

#[test]
fn only_some_calls_need_the_journal_or_a_file() {
    assert!(!needs_journal(&request("initialize", object(vec![]))));
    assert!(needs_journal(&call("list_books", vec![])));
    assert_eq!(file_wanted(&call("list_books", vec![]), &library()), None);
    assert_eq!(
        file_wanted(&call("get_book", vec![("book", text("a book"))]), &library()).as_deref(),
        Some("/b/a.epub")
    );
}

#[test]
fn every_request_is_answered_under_its_id() {
    for method in ["initialize", "tools/list", "tools/call", "ping", "nonsense"] {
        let response = answer(&request(method, object(vec![]))).expect("an answer");
        assert!(matches!(at(&response, &["id"]), Json::Number(id) if id == "1"), "{method}");
        assert!(response.get("result").is_some() != response.get("error").is_some());
    }
    let broken = parse_error("unexpected end");
    assert!(matches!(at(&broken, &["id"]), Json::Null));
    assert!(matches!(at(&broken, &["error", "code"]), Json::Number(code) if code == "-32700"));
}

#[test]
fn values_are_read_by_name() {
    let value = object(vec![
        ("text", text("x")),
        ("number", Json::Number("12".to_string())),
        ("half", Json::Number("1.5".to_string())),
        ("flag", Json::Bool(true)),
    ]);
    assert_eq!(value.text_in("text"), Some("x"));
    assert_eq!(value.text_in("number"), None);
    assert_eq!(value.natural_in("number"), Some(12));
    assert_eq!(value.natural_in("half"), None);
    assert_eq!(value.bool_in("flag"), Some(true));
    assert_eq!(value.copy().natural_in("number"), Some(12));
    assert!(Json::Null.get("x").is_none());
}

#[test]
fn a_line_is_read_as_json() {
    let request = read_request(r#"{"b":[1,-2.5,true,null],"a":"x\u00e4"}"#).unwrap();
    assert_eq!(string(at(&request, &["a"])), "xä");
    let list = items(at(&request, &["b"]));
    assert!(matches!(&list[0], Json::Number(n) if n == "1"), "{list:?}");
    assert!(matches!(&list[1], Json::Number(n) if n == "-2.5"), "{list:?}");
    assert!(matches!(list[2], Json::Bool(true)), "{list:?}");
    assert!(matches!(list[3], Json::Null), "{list:?}");
    assert!(read_request("{").is_err());
}

#[test]
fn a_received_line_is_sorted_out() {
    assert!(matches!(receive("  "), Received::Nothing));
    match receive(r#"{"jsonrpc":"2.0","id":7,"method":"ping"}"#) {
        Received::Request(request) => {
            let response = answer(&request).unwrap();
            assert!(matches!(at(&response, &["id"]), Json::Number(n) if n == "7"), "{response:?}");
        }
        other => panic!("expected a request, got {other:?}"),
    }
    match receive("not json") {
        Received::Refused(response) => {
            assert!(matches!(at(&response, &["id"]), Json::Null));
            let code = at(&response, &["error", "code"]);
            assert!(matches!(code, Json::Number(n) if n == "-32700"), "{code:?}");
            let message = string(at(&response, &["error", "message"]));
            assert!(message.starts_with("parse error: "), "{message}");
        }
        other => panic!("expected an answer, got {other:?}"),
    }
}

#[test]
fn what_parsing_gave_is_accepted_or_answered() {
    assert!(matches!(accept(Ok(Json::Null)), Received::Request(Json::Null)));
    match accept(Err("why".to_string())) {
        Received::Refused(response) => {
            assert_eq!(string(at(&response, &["error", "message"])), "parse error: why");
        }
        other => panic!("expected an answer, got {other:?}"),
    }
}
