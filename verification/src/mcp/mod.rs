//! An MCP server over stdio, so a model can read the library.
//!
//! What it offers is what a search index does badly: the library with its
//! metadata, a chapter as text, the annotations you wrote, and where you left
//! off. Library-wide search by meaning stays with a tool built for it; see
//! `export`.
//!
//! The protocol is JSON-RPC 2.0 with one message per line. Three methods carry
//! everything: `initialize`, `tools/list` and `tools/call`.
//!
//! Everything is read fresh from the journal on each call, so an annotation made
//! a moment ago in the reader is visible here without a re-export.

pub mod json;
pub mod laws;
pub mod reading;
pub mod tools;

use vstd::prelude::*;
use crate::failure::{joined, Failure};
use crate::journal::State;
use crate::library::rows;
use crate::mcp::json::{
    entry, entry_views, json_result, json_views, object_of, object_of_three, object_of_two,
    parsed_json, read_request, Json, JsonView,
};
use crate::mcp::reading::{
    book_text, chapter_text, get_book, query_of, read_chapter, search_book, search_text,
};
use crate::mcp::tools::{
    annotations, annotations_text, books_text, file_view, list_books, positions_text,
    reading_positions, resolve_book, resolved,
};
use crate::text::{
    blank, chars_of, copy_text, is_blank_text, push_text, same, sorts_before, text_less, text_of,
    text_opt,
};

verus! {

// ----- answers -----
pub open spec fn text_value(s: Seq<char>) -> JsonView {
    JsonView::Text(s)
}

/// The answer to a request that worked.
pub open spec fn result_of(id: JsonView, result: JsonView) -> JsonView {
    JsonView::Object(
        seq![("jsonrpc"@, text_value("2.0"@)), ("id"@, id), ("result"@, result)],
    )
}

/// The answer to a request that is none.
pub open spec fn error_of(id: JsonView, code: Seq<char>, message: Seq<char>) -> JsonView {
    JsonView::Object(
        seq![
            ("jsonrpc"@, text_value("2.0"@)),
            ("id"@, id),
            (
                "error"@,
                JsonView::Object(
                    seq![("code"@, JsonView::Number(code)), ("message"@, text_value(message))],
                ),
            ),
        ],
    )
}

fn result_response(id: Json, result: Json) -> (r: Json)
    ensures
        r.view() == result_of(id.view(), result.view()),
{
    object_of_three("jsonrpc", Json::text("2.0"), "id", id, "result", result)
}

fn error_response(id: Json, code: &str, message: &str) -> (r: Json)
    ensures
        r.view() == error_of(id.view(), code@, message@),
{
    let error = object_of_two(
        "code",
        Json::Number(copy_text(code)),
        "message",
        Json::text(message),
    );
    object_of_three("jsonrpc", Json::text("2.0"), "id", id, "error", error)
}

/// The answer to a line that is no JSON. It is answered rather than ignored, so a
/// client is not left waiting.
pub fn parse_error(reason: &str) -> (r: Json)
    ensures
        r.view() == error_of(JsonView::Null, "-32700"@, "parse error: "@ + reason@),
{
    let mut message = chars_of("parse error: ");
    push_text(&mut message, reason);
    let message = text_of(&message);
    error_response(Json::Null, "-32700", &message)
}

/// What a line from the client asks for.
#[derive(Debug)]
pub enum Received {
    /// An empty line. It is passed over.
    Nothing,
    Request(Json),
    /// The line is no JSON, and this is the answer to it.
    Refused(Json),
}

#[verifier::ext_equal]
pub enum ReceivedView {
    Nothing,
    Request(JsonView),
    Refused(JsonView),
}

impl View for Received {
    type V = ReceivedView;

    open spec fn view(&self) -> ReceivedView {
        match *self {
            Received::Nothing => ReceivedView::Nothing,
            Received::Request(j) => ReceivedView::Request(j.view()),
            Received::Refused(j) => ReceivedView::Refused(j.view()),
        }
    }
}

/// What becomes of a line once it was parsed.
pub open spec fn accepted(parsed: Result<JsonView, Seq<char>>) -> ReceivedView {
    match parsed {
        Ok(request) => ReceivedView::Request(request),
        Err(reason) => ReceivedView::Refused(
            error_of(JsonView::Null, "-32700"@, "parse error: "@ + reason),
        ),
    }
}

/// Takes what parsing a line gave.
pub fn accept(parsed: Result<Json, String>) -> (r: Received)
    ensures
        r@ == accepted(json_result(parsed)),
{
    match parsed {
        Ok(request) => Received::Request(request),
        Err(reason) => Received::Refused(parse_error(&reason)),
    }
}

/// Takes a line from the client.
pub fn receive(line: &str) -> (r: Received)
    ensures
        r@ == (if blank(line@) {
            ReceivedView::Nothing
        } else {
            accepted(parsed_json(line@))
        }),
{
    if is_blank_text(line) {
        Received::Nothing
    } else {
        accept(read_request(line))
    }
}

/// What a tool says.
pub open spec fn content_of(text: Seq<char>) -> JsonView {
    JsonView::List(
        seq![JsonView::Object(seq![("type"@, text_value("text"@)), ("text"@, text_value(text))])],
    )
}

fn content(text: &str) -> (r: Json)
    ensures
        r.view() == content_of(text@),
{
    let item = object_of_two("type", Json::text("text"), "text", Json::text(text));
    let items: Vec<Json> = vec![item];
    assert(json_views(items@) =~= seq![item.view()]);
    Json::list(items)
}

// ----- initialize -----
/// The protocol version that is agreed on: the client's when it is not older, so
/// a newer client is not told to downgrade for no reason.
pub open spec fn agreed_version(request: JsonView) -> Seq<char> {
    let asked = match request.field("params"@) {
        Some(params) => match params.text_in("protocolVersion"@) {
            Some(v) => v,
            None => "2024-11-05"@,
        },
        None => "2024-11-05"@,
    };
    if text_less(asked, "2024-11-05"@) {
        "2024-11-05"@
    } else {
        asked
    }
}

pub open spec fn introduction(request: JsonView) -> JsonView {
    JsonView::Object(
        seq![
            ("protocolVersion"@, text_value(agreed_version(request))),
            (
                "capabilities"@,
                JsonView::Object(seq![("tools"@, JsonView::Object(Seq::empty()))]),
            ),
            (
                "serverInfo"@,
                JsonView::Object(
                    seq![("name"@, text_value("omalibre"@)), ("version"@, text_value("0.1.0"@))],
                ),
            ),
        ],
    )
}

fn empty_object() -> (r: Json)
    ensures
        r.view() == JsonView::Object(Seq::empty()),
{
    let fields: Vec<(String, Json)> = Vec::new();
    assert(entry_views(fields@) =~= Seq::<(Seq<char>, JsonView)>::empty());
    Json::object(fields)
}

fn initialize(request: &Json) -> (r: Json)
    ensures
        r.view() == introduction(request.view()),
{
    let asked = match request.get("params") {
        Some(params) => match params.text_in("protocolVersion") {
            Some(v) => v,
            None => "2024-11-05",
        },
        None => "2024-11-05",
    };
    let version = if sorts_before(asked, "2024-11-05") {
        "2024-11-05"
    } else {
        asked
    };
    object_of_three(
        "protocolVersion",
        Json::text(version),
        "capabilities",
        object_of("tools", empty_object()),
        "serverInfo",
        object_of_two("name", Json::text("omalibre"), "version", Json::text("0.1.0")),
    )
}

// ----- the tools, with their schemas -----
/// The schema of a value.
pub open spec fn schema(kind: Seq<char>, description: Seq<char>) -> JsonView {
    JsonView::Object(
        seq![("type"@, text_value(kind)), ("description"@, text_value(description))],
    )
}

fn make_schema(kind: &str, description: &str) -> (r: Json)
    ensures
        r.view() == schema(kind@, description@),
{
    object_of_two("type", Json::text(kind), "description", Json::text(description))
}

pub open spec fn text_values(s: Seq<Seq<char>>) -> Seq<JsonView> {
    s.map_values(|t: Seq<char>| JsonView::Text(t))
}

/// One tool: its name, what it does, and the arguments it takes.
pub open spec fn tool(
    name: Seq<char>,
    description: Seq<char>,
    properties: Seq<(Seq<char>, JsonView)>,
    required: Seq<Seq<char>>,
) -> JsonView {
    let fields = seq![
        ("type"@, text_value("object"@)),
        ("properties"@, JsonView::Object(properties)),
    ];
    JsonView::Object(
        seq![
            ("name"@, text_value(name)),
            ("description"@, text_value(description)),
            (
                "inputSchema"@,
                JsonView::Object(
                    if required.len() > 0 {
                        fields.push(("required"@, JsonView::List(text_values(required))))
                    } else {
                        fields
                    },
                ),
            ),
        ],
    )
}

fn make_list(items: &Vec<&str>) -> (r: Json)
    ensures
        r.view() == JsonView::List(text_values(items@.map_values(|t: &str| t@))),
{
    let mut out: Vec<Json> = Vec::new();
    let mut i: usize = 0;
    while i < items.len()
        invariant
            i <= items@.len(),
            out@.len() == i,
            forall|k: int| 0 <= k < i ==> (#[trigger] out@[k]).view() == JsonView::Text(items@[k]@),
        decreases items@.len() - i,
    {
        out.push(Json::text(items[i]));
        i += 1;
    }
    assert(json_views(out@) =~= text_values(items@.map_values(|t: &str| t@)));
    Json::list(out)
}

fn make_tool(
    name: &str,
    description: &str,
    properties: Vec<(String, Json)>,
    required: Vec<&str>,
) -> (r: Json)
    ensures
        r.view() == tool(
            name@,
            description@,
            entry_views(properties@),
            required@.map_values(|t: &str| t@),
        ),
{
    let ghost props = entry_views(properties@);
    let kind = Json::text("object");
    let body = Json::object(properties);
    let schema = if required.len() > 0 {
        let list = make_list(&required);
        object_of_three("type", kind, "properties", body, "required", list)
    } else {
        object_of_two("type", kind, "properties", body)
    };
    proof {
        let fields = seq![
            ("type"@, text_value("object"@)),
            ("properties"@, JsonView::Object(props)),
        ];
        let wanted = required@.map_values(|t: &str| t@);
        if wanted.len() > 0 {
            assert(schema.view()->Object_0 =~= fields.push(
                ("required"@, JsonView::List(text_values(wanted))),
            ));
        } else {
            assert(schema.view()->Object_0 =~= fields);
        }
    }
    object_of_three(
        "name",
        Json::text(name),
        "description",
        Json::text(description),
        "inputSchema",
        schema,
    )
}

pub open spec fn book_schema() -> (Seq<char>, JsonView) {
    ("book"@, schema("string"@, "Book id or a title to match"@))
}

/// The tools.
pub open spec fn tools() -> Seq<JsonView> {
    seq![
        tool(
            "list_books"@,
            "List books in the library. Filter matches title, author, series and tags."@,
            seq![
                ("filter"@, schema("string"@, "Substring to match"@)),
                (
                    "order"@,
                    JsonView::Object(
                        seq![
                            ("type"@, text_value("string"@)),
                            (
                                "enum"@,
                                JsonView::List(
                                    text_values(
                                        seq!["title"@, "author"@, "series"@, "recent"@],
                                    ),
                                ),
                            ),
                            ("description"@, text_value("Sort order, default title"@)),
                        ],
                    ),
                ),
                ("limit"@, schema("integer"@, "Maximum rows, default 50"@)),
            ],
            Seq::empty(),
        ),
        tool(
            "get_book"@,
            "Metadata, chapter list and reading position of one book."@,
            seq![book_schema()],
            seq!["book"@],
        ),
        tool(
            "read_chapter"@,
            "The text of one chapter as Markdown."@,
            seq![
                book_schema(),
                (
                    "chapter"@,
                    schema("string"@, "Chapter number in the reading order, or its href"@),
                ),
            ],
            seq!["book"@, "chapter"@],
        ),
        tool(
            "search_book"@,
            "Find a phrase in one book. Returns chapter, position and surrounding text."@,
            seq![
                book_schema(),
                ("query"@, JsonView::Object(seq![("type"@, text_value("string"@))])),
                ("limit"@, schema("integer"@, "Maximum hits, default 20"@)),
            ],
            seq!["book"@, "query"@],
        ),
        tool(
            "annotations"@,
            "Highlights and comments. Without a book, those of the whole library."@,
            seq![
                book_schema(),
                (
                    "with_notes_only"@,
                    schema("boolean"@, "Only annotations that carry a comment"@),
                ),
            ],
            Seq::empty(),
        ),
        tool(
            "reading_positions"@,
            "Where reading left off, most recent first."@,
            seq![("limit"@, schema("integer"@, "Maximum rows, default 20"@))],
            Seq::empty(),
        ),
    ]
}

fn book_property() -> (r: (String, Json))
    ensures
        (r.0@, r.1.view()) == book_schema(),
{
    entry("book", make_schema("string", "Book id or a title to match"))
}

fn list_books_tool() -> (r: Json)
    ensures
        r.view() == tools()[0],
{
    let names: Vec<&str> = vec!["title", "author", "series", "recent"];
    let order = object_of_three(
        "type",
        Json::text("string"),
        "enum",
        make_list(&names),
        "description",
        Json::text("Sort order, default title"),
    );
    let properties: Vec<(String, Json)> = vec![
        entry("filter", make_schema("string", "Substring to match")),
        entry("order", order),
        entry("limit", make_schema("integer", "Maximum rows, default 50")),
    ];
    let required: Vec<&str> = Vec::new();
    proof {
        assert(names@.map_values(|t: &str| t@) =~= seq![
            "title"@,
            "author"@,
            "series"@,
            "recent"@,
        ]);
        assert(required@.map_values(|t: &str| t@) =~= Seq::<Seq<char>>::empty());
        assert(entry_views(properties@) =~= seq![
            ("filter"@, schema("string"@, "Substring to match"@)),
            ("order"@, order.view()),
            ("limit"@, schema("integer"@, "Maximum rows, default 50"@)),
        ]);
    }
    make_tool(
        "list_books",
        "List books in the library. Filter matches title, author, series and tags.",
        properties,
        required,
    )
}

fn get_book_tool() -> (r: Json)
    ensures
        r.view() == tools()[1],
{
    let properties: Vec<(String, Json)> = vec![book_property()];
    let required: Vec<&str> = vec!["book"];
    proof {
        assert(required@.map_values(|t: &str| t@) =~= seq!["book"@]);
        assert(entry_views(properties@) =~= seq![book_schema()]);
    }
    make_tool(
        "get_book",
        "Metadata, chapter list and reading position of one book.",
        properties,
        required,
    )
}

fn read_chapter_tool() -> (r: Json)
    ensures
        r.view() == tools()[2],
{
    let properties: Vec<(String, Json)> = vec![
        book_property(),
        entry(
            "chapter",
            make_schema("string", "Chapter number in the reading order, or its href"),
        ),
    ];
    let required: Vec<&str> = vec!["book", "chapter"];
    proof {
        assert(required@.map_values(|t: &str| t@) =~= seq!["book"@, "chapter"@]);
        assert(entry_views(properties@) =~= seq![
            book_schema(),
            ("chapter"@, schema("string"@, "Chapter number in the reading order, or its href"@)),
        ]);
    }
    make_tool("read_chapter", "The text of one chapter as Markdown.", properties, required)
}

fn search_book_tool() -> (r: Json)
    ensures
        r.view() == tools()[3],
{
    let properties: Vec<(String, Json)> = vec![
        book_property(),
        entry("query", object_of("type", Json::text("string"))),
        entry("limit", make_schema("integer", "Maximum hits, default 20")),
    ];
    let required: Vec<&str> = vec!["book", "query"];
    proof {
        assert(required@.map_values(|t: &str| t@) =~= seq!["book"@, "query"@]);
        assert(entry_views(properties@) =~= seq![
            book_schema(),
            ("query"@, JsonView::Object(seq![("type"@, text_value("string"@))])),
            ("limit"@, schema("integer"@, "Maximum hits, default 20"@)),
        ]);
    }
    make_tool(
        "search_book",
        "Find a phrase in one book. Returns chapter, position and surrounding text.",
        properties,
        required,
    )
}

fn annotations_tool() -> (r: Json)
    ensures
        r.view() == tools()[4],
{
    let properties: Vec<(String, Json)> = vec![
        book_property(),
        entry(
            "with_notes_only",
            make_schema("boolean", "Only annotations that carry a comment"),
        ),
    ];
    let required: Vec<&str> = Vec::new();
    proof {
        assert(required@.map_values(|t: &str| t@) =~= Seq::<Seq<char>>::empty());
        assert(entry_views(properties@) =~= seq![
            book_schema(),
            ("with_notes_only"@, schema("boolean"@, "Only annotations that carry a comment"@)),
        ]);
    }
    make_tool(
        "annotations",
        "Highlights and comments. Without a book, those of the whole library.",
        properties,
        required,
    )
}

fn positions_tool() -> (r: Json)
    ensures
        r.view() == tools()[5],
{
    let properties: Vec<(String, Json)> = vec![
        entry("limit", make_schema("integer", "Maximum rows, default 20")),
    ];
    let required: Vec<&str> = Vec::new();
    proof {
        assert(required@.map_values(|t: &str| t@) =~= Seq::<Seq<char>>::empty());
        assert(entry_views(properties@) =~= seq![
            ("limit"@, schema("integer"@, "Maximum rows, default 20"@)),
        ]);
    }
    make_tool(
        "reading_positions",
        "Where reading left off, most recent first.",
        properties,
        required,
    )
}

/// The tools, with their schemas.
pub fn tool_definitions() -> (r: Vec<Json>)
    ensures
        json_views(r@) == tools(),
{
    let r: Vec<Json> = vec![
        list_books_tool(),
        get_book_tool(),
        read_chapter_tool(),
        search_book_tool(),
        annotations_tool(),
        positions_tool(),
    ];
    assert(json_views(r@) =~= tools());
    r
}

// ----- tools/call -----
/// The replayed journal, or why it could not be read.
pub type Replayed = Result<State, Failure>;

/// The arguments of a call, which may be missing.
pub open spec fn arguments_of(params: JsonView) -> JsonView {
    match params.field("arguments"@) {
        Some(args) => args,
        None => JsonView::Object(Seq::empty()),
    }
}

/// What a tool answers.
pub open spec fn tool_answer(
    name: Seq<char>,
    args: JsonView,
    state: State,
    file: Result<Seq<u8>, Seq<Seq<char>>>,
) -> Result<Seq<char>, Seq<Seq<char>>> {
    if name == "list_books"@ {
        Ok(books_text(rows(state), args))
    } else if name == "get_book"@ {
        book_text(state, args, file)
    } else if name == "read_chapter"@ {
        chapter_text(state, args, file)
    } else if name == "search_book"@ {
        search_text(state, args, file)
    } else if name == "annotations"@ {
        annotations_text(state, args)
    } else if name == "reading_positions"@ {
        Ok(positions_text(state, args))
    } else {
        Err(seq!["unknown tool: "@ + name])
    }
}

/// What a call comes to.
pub open spec fn call_answer(
    request: JsonView,
    state: Replayed,
    file: Result<Seq<u8>, Seq<Seq<char>>>,
) -> Result<Seq<char>, Seq<Seq<char>>> {
    match request.field("params"@) {
        None => Err(seq!["no params"@]),
        Some(params) => match params.text_in("name"@) {
            None => Err(seq!["no tool name"@]),
            Some(name) => match state {
                Err(e) => Err(e@),
                Ok(state) => tool_answer(name, arguments_of(params), state, file),
            },
        },
    }
}

pub open spec fn replayed_wf(state: Replayed) -> bool {
    state matches Ok(s) ==> s.wf()
}

fn run_tool(name: &str, args: &Json, state: &State, file: Result<Vec<u8>, Failure>) -> (r: Result<
    String,
    Failure,
>)
    requires
        state.wf(),
    ensures
        match tool_answer(name@, args.view(), *state, file_view(file)) {
            Ok(t) => r matches Ok(s) && s@ == t,
            Err(report) => r matches Err(e) && e@ == report,
        },
{
    if same(name, "list_books") {
        Ok(list_books(state, args))
    } else if same(name, "get_book") {
        get_book(state, args, file)
    } else if same(name, "read_chapter") {
        read_chapter(state, args, file)
    } else if same(name, "search_book") {
        search_book(state, args, file)
    } else if same(name, "annotations") {
        annotations(state, args)
    } else if same(name, "reading_positions") {
        Ok(reading_positions(state, args))
    } else {
        let mut text = chars_of("unknown tool: ");
        push_text(&mut text, name);
        Err(Failure::new(text_of(&text)))
    }
}

/// The arguments of a call.
fn arguments(params: &Json) -> (r: Json)
    ensures
        r.view() == arguments_of(params.view()),
{
    match params.get("arguments") {
        Some(args) => args.copy(),
        None => empty_object(),
    }
}

/// Performs a call. `file` holds the bytes of the book that `file_wanted` names.
pub fn call_tool(request: &Json, state: &Replayed, file: Result<Vec<u8>, Failure>) -> (r: Result<
    String,
    Failure,
>)
    requires
        replayed_wf(*state),
    ensures
        match call_answer(request.view(), *state, file_view(file)) {
            Ok(t) => r matches Ok(s) && s@ == t,
            Err(report) => r matches Err(e) && e@ == report,
        },
{
    let params = match request.get("params") {
        Some(p) => p,
        None => {
            return Err(Failure::new(copy_text("no params")));
        },
    };
    let name = match params.text_in("name") {
        Some(n) => n,
        None => {
            return Err(Failure::new(copy_text("no tool name")));
        },
    };
    match state {
        Err(e) => {
            let messages = e.messages.clone();
            let copied = Failure { messages };
            assert(copied@ =~= e@);
            Err(copied)
        },
        Ok(state) => {
            let args = arguments(params);
            run_tool(name, &args, state, file)
        },
    }
}

/// The tools that read a book.
pub open spec fn reads_a_book(name: Seq<char>, args: JsonView) -> bool {
    name == "get_book"@ || name == "read_chapter"@ || (name == "search_book"@ && query_of(
        args,
    ) is Some)
}

/// The file that a request needs, if it needs one.
pub open spec fn file_for(request: JsonView, state: State) -> Option<Seq<char>> {
    match request.field("params"@) {
        None => None,
        Some(params) => match params.text_in("name"@) {
            None => None,
            Some(name) => if !reads_a_book(name, arguments_of(params)) {
                None
            } else {
                match resolved(state, arguments_of(params)) {
                    Err(_) => None,
                    Ok((_, record)) => if record.paths.len() > 0 {
                        Some(record.paths[0])
                    } else {
                        None
                    },
                }
            },
        },
    }
}

/// The file that a call needs, if it needs one.
pub fn file_wanted(request: &Json, state: &State) -> (r: Option<String>)
    requires
        state.wf(),
    ensures
        text_opt(r) == file_for(request.view(), *state),
{
    let params = match request.get("params") {
        Some(p) => p,
        None => {
            return None;
        },
    };
    let name = match params.text_in("name") {
        Some(n) => n,
        None => {
            return None;
        },
    };
    let args = arguments(params);
    let asks = match args.text_in("query") {
        Some(q) => !crate::text::is_blank_text(q),
        None => false,
    };
    if !(same(name, "get_book") || same(name, "read_chapter") || (same(name, "search_book")
        && asks)) {
        return None;
    }
    match resolve_book(state, &args) {
        Err(_) => None,
        Ok(found) => match found.record.path() {
            Some(p) => Some(p.clone()),
            None => None,
        },
    }
}

// ----- requests -----
pub open spec fn method_of(request: JsonView) -> Seq<char> {
    match request.text_in("method"@) {
        Some(m) => m,
        None => ""@,
    }
}

/// Whether a request needs the journal: only a call does.
pub fn needs_journal(request: &Json) -> (r: bool)
    ensures
        r == (request.view().field("id"@) is Some && method_of(request.view()) == "tools/call"@),
{
    if request.get("id").is_none() {
        return false;
    }
    match request.text_in("method") {
        Some(m) => same(m, "tools/call"),
        None => same("", "tools/call"),
    }
}

/// The answer to a request. A notification has no id and takes none.
///
/// A failed tool call is reported inside the result, not as a protocol error: the
/// call was well formed, the answer is that it did not work.
pub open spec fn answer(
    request: JsonView,
    state: Replayed,
    file: Result<Seq<u8>, Seq<Seq<char>>>,
) -> Option<JsonView> {
    let method = method_of(request);
    match request.field("id"@) {
        None => None,
        Some(id) => Some(
            if method == "initialize"@ {
                result_of(id, introduction(request))
            } else if method == "tools/list"@ {
                result_of(id, JsonView::Object(seq![("tools"@, JsonView::List(tools()))]))
            } else if method == "tools/call"@ {
                result_of(
                    id,
                    match call_answer(request, state, file) {
                        Ok(text) => JsonView::Object(seq![("content"@, content_of(text))]),
                        Err(report) => JsonView::Object(
                            seq![
                                ("isError"@, JsonView::Bool(true)),
                                ("content"@, content_of(joined(report, ": "@))),
                            ],
                        ),
                    },
                )
            } else if method == "ping"@ {
                result_of(id, JsonView::Object(Seq::empty()))
            } else {
                error_of(id, "-32601"@, "unknown method: "@ + method)
            },
        ),
    }
}

/// Answers one request. `None` for a notification. `state` and `file` matter only
/// to a call; see `needs_journal` and `file_wanted`.
pub fn handle(request: &Json, state: &Replayed, file: Result<Vec<u8>, Failure>) -> (r: Option<Json>)
    requires
        replayed_wf(*state),
    ensures
        match answer(request.view(), *state, file_view(file)) {
            Some(v) => r is Some && r->0.view() == v,
            None => r is None,
        },
{
    let id = match request.get("id") {
        Some(id) => id.copy(),
        None => {
            return None;
        },
    };
    let method = match request.text_in("method") {
        Some(m) => m,
        None => "",
    };
    if same(method, "initialize") {
        return Some(result_response(id, initialize(request)));
    }
    if same(method, "tools/list") {
        let list = Json::list(tool_definitions());
        return Some(result_response(id, object_of("tools", list)));
    }
    if same(method, "tools/call") {
        let result = match call_tool(request, state, file) {
            Ok(text) => object_of("content", content(&text)),
            Err(e) => {
                let text = e.full();
                object_of_two("isError", Json::Bool(true), "content", content(&text))
            },
        };
        return Some(result_response(id, result));
    }
    if same(method, "ping") {
        return Some(result_response(id, empty_object()));
    }
    let mut message = chars_of("unknown method: ");
    push_text(&mut message, method);
    let message = text_of(&message);
    Some(error_response(id, "-32601", &message))
}

// ----- laws -----
/// A request with an id is answered, under that id; one without is not.
pub proof fn every_request_is_answered_under_its_id(
    request: JsonView,
    state: Replayed,
    file: Result<Seq<u8>, Seq<Seq<char>>>,
)
    ensures
        answer(request, state, file) is Some <==> request.field("id"@) is Some,
        answer(request, state, file) matches Some(a) ==> a.field("id"@) == request.field("id"@),
{
    reveal_strlit("jsonrpc");
    reveal_strlit("id");
    assert("jsonrpc"@.len() != "id"@.len());
    reveal_with_fuel(crate::mcp::json::field_from, 3);
}

/// A call that fails is answered with a result that says so, never with a
/// protocol error.
pub proof fn a_failed_call_is_reported_in_the_result(
    request: JsonView,
    state: Replayed,
    file: Result<Seq<u8>, Seq<Seq<char>>>,
)
    requires
        request.field("id"@) is Some,
        method_of(request) == "tools/call"@,
        call_answer(request, state, file) is Err,
    ensures
        ({
            let a = answer(request, state, file)->0;
            &&& a.field("error"@) is None
            &&& a.field("result"@) is Some
            &&& a.field("result"@)->0.bool_in("isError"@) == Some(true)
        }),
{
    reveal_strlit("jsonrpc");
    reveal_strlit("id");
    reveal_strlit("result");
    reveal_strlit("error");
    reveal_strlit("isError");
    reveal_strlit("initialize");
    reveal_strlit("tools/list");
    reveal_strlit("tools/call");
    assert("tools/call"@.len() == 10 && "initialize"@.len() == 10 && "tools/list"@.len() == 10);
    assert("tools/call"@[0] != "initialize"@[0]);
    assert("tools/call"@[6] != "tools/list"@[6]);
    assert("jsonrpc"@.len() == 7 && "id"@.len() == 2 && "result"@.len() == 6 && "error"@.len() == 5);
    reveal_with_fuel(crate::mcp::json::field_from, 4);
}

} // verus!
