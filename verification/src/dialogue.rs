//! The wire of the corpus server: messages read from lines, and answers written as texts.
use crate::corpus;
use crate::corpus::{handle_request, protocol_version, tool_named, tools_list, Answer, CorpusTool};
use crate::json;
use crate::json::{list_text, quote, read_json, truth_text, Json, Members};
use crate::mcp;
use crate::mcp::Args;
use crate::replies;
use crate::replies::{call_reply, error, reply};
use crate::text;
use vstd::prelude::*;

verus! {

/// What the server tells a client about its use.
pub const INSTRUCTIONS: &'static str =
    "OctaCore recall cascade. `remember` adds documents; `recall` returns a token-budgeted, cosine-reranked context window; `stats`/`clear` manage the corpus.";

/// What the server says of itself.
pub open spec fn greeting(protocol: Seq<char>, version: Seq<char>) -> Seq<char> {
    let tools = json::of1(("listChanged"@, json::truth(false)));
    let capabilities = json::of1(("tools"@, json::object_form(tools)));
    let info = json::of2(
        ("name"@, json::quoted("octacore"@)),
        ("version"@, json::quoted(version)),
    );
    json::object_form(
        json::of4(
            ("capabilities"@, json::object_form(capabilities)),
            ("instructions"@, json::quoted(INSTRUCTIONS@)),
            ("protocolVersion"@, json::quoted(protocol)),
            ("serverInfo"@, json::object_form(info)),
        ),
    )
}

/// What the server says of itself: it answers in the protocol version that it is asked for.
pub fn greet(protocol: &str, version: &str) -> (s: String)
    ensures
        s@ == greeting(protocol@, version@),
{
    let tools = Members::new().put("listChanged", truth_text(false)).text();
    let capabilities = Members::new().put("tools", tools).text();
    let info = Members::new().put("name", quote("octacore")).put("version", quote(version)).text();
    Members::new().put("capabilities", capabilities).put("instructions", quote(INSTRUCTIONS)).put(
        "protocolVersion",
        quote(protocol),
    ).put("serverInfo", info).text()
}

/// How a tool is listed.
pub open spec fn tool_form(t: CorpusTool) -> Seq<char> {
    json::object_form(
        json::of3(
            ("description"@, json::quoted(t.about())),
            ("inputSchema"@, t.shape()),
            ("name"@, json::quoted(t.word())),
        ),
    )
}

/// The list of the tools.
pub open spec fn tools_form() -> Seq<char> {
    let tools = corpus::every_tool().map_values(|t: CorpusTool| tool_form(t));
    json::object_form(json::of1(("tools"@, json::list_form(tools))))
}

/// The list of the tools.
pub fn tools_text() -> (s: String)
    ensures
        s@ == tools_form(),
{
    let tools = tools_list();
    let mut parts: Vec<String> = Vec::new();
    let mut i: usize = 0;
    while i < tools.len()
        invariant
            i <= tools@.len(),
            parts@.len() == i,
            forall|j: int| 0 <= j < i ==> (#[trigger] parts@[j])@ == tool_form(tools@[j]),
        decreases tools@.len() - i,
    {
        let t = tools[i];
        parts.push(
            Members::new().put("description", quote(t.description())).put(
                "inputSchema",
                t.schema().to_owned(),
            ).put("name", quote(t.name())).text(),
        );
        i += 1;
    }
    proof {
        assert(text::text_views(parts@) =~= corpus::every_tool().map_values(
            |t: CorpusTool| tool_form(t),
        ));
    }
    Members::new().put("tools", list_text(&parts)).text()
}

/// An object with one member, an empty list.
pub open spec fn none_listed(key: Seq<char>) -> Seq<char> {
    json::object_form(json::of1((key, json::list_form(Seq::empty()))))
}

fn none_text(key: &str) -> (s: String)
    ensures
        s@ == none_listed(key@),
{
    let parts: Vec<String> = Vec::new();
    proof {
        assert(text::text_views(parts@) =~= Seq::<Seq<char>>::empty());
    }
    Members::new().put(key, list_text(&parts)).text()
}

/// What the server does with a line that holds a message.
#[derive(Debug)]
pub enum Turn {
    /// It says nothing.
    Silent,
    /// It answers.
    Answer(String),
    /// It calls a tool.
    Call {
        /// The JSON text of the id.
        id: String,
        /// The tool.
        tool: CorpusTool,
        /// Its arguments.
        args: Args,
        /// The arguments of each document, where `documents` is a list.
        documents: Option<Vec<Args>>,
    },
}

/// What the server does with a line that holds a message, as a value.
pub enum TurnView {
    Silent,
    Answer(Seq<char>),
    Call(Seq<char>, CorpusTool, mcp::ArgsView, Option<Seq<mcp::ArgsView>>),
}

/// The views of the arguments of documents, where there is a list of them.
pub open spec fn documents_view(d: Option<Vec<Args>>) -> Option<Seq<mcp::ArgsView>> {
    match d {
        Some(v) => Some(corpus::all_args(v@)),
        None => None,
    }
}

impl View for Turn {
    type V = TurnView;

    open spec fn view(&self) -> TurnView {
        match self {
            Turn::Silent => TurnView::Silent,
            Turn::Answer(s) => TurnView::Answer(s@),
            Turn::Call { id, tool, args, documents } => TurnView::Call(
                id@,
                *tool,
                args@,
                documents_view(*documents),
            ),
        }
    }
}

/// The arguments of each document of a call, where `documents` is a list.
pub open spec fn documents_of(arguments: json::JsonView) -> Option<Seq<mcp::ArgsView>> {
    match json::read_or_null(json::member(arguments, "documents"@)) {
        json::JsonView::List(v) => Some(
            v.map_values(|s: Seq<char>| json::arguments(json::read_or_null(Some(s)))),
        ),
        _ => None,
    }
}

fn read_documents(arguments: &Json) -> (r: Option<Vec<Args>>)
    ensures
        documents_view(r) == documents_of(arguments@),
{
    let list = match arguments.child("documents") {
        Json::List(v) => v,
        _ => return None,
    };
    let mut out: Vec<Args> = Vec::new();
    let mut i: usize = 0;
    while i < list.len()
        invariant
            i <= list@.len(),
            out@.len() == i,
            forall|j: int|
                0 <= j < i ==> (#[trigger] out@[j])@ == json::arguments(
                    json::read_or_null(Some(list@[j]@)),
                ),
        decreases list@.len() - i,
    {
        let value = match read_json(list[i].as_str()) {
            Ok(j) => j,
            Err(_) => Json::Null,
        };
        out.push(value.arguments());
        i += 1;
    }
    proof {
        assert(corpus::all_args(out@) =~= text::text_views(list@).map_values(
            |s: Seq<char>| json::arguments(json::read_or_null(Some(s))),
        ));
    }
    Some(out)
}

/// What the server does with a call of a tool, whose arguments were read: a call without a
/// name is refused, and one of an unknown tool is answered with what is wrong.
pub open spec fn call_turn(
    id: Seq<char>,
    name: Option<Seq<char>>,
    arguments: json::JsonView,
) -> TurnView {
    match name {
        None => TurnView::Answer(replies::error_form(Some(id), -32602, "missing tool `name`"@)),
        Some(n) => match corpus::tool_of(n) {
            Err(e) => TurnView::Answer(replies::call_form(Some(id), e, true)),
            Ok(tool) => TurnView::Call(
                id,
                tool,
                json::arguments(arguments),
                documents_of(arguments),
            ),
        },
    }
}

/// What the server does with a call of a tool, whose arguments were read.
pub fn call_tool(id: &str, name: Option<&str>, arguments: &Json) -> (t: Turn)
    ensures
        t@ == call_turn(id@, replies::id_view(name), arguments@),
{
    let n = match name {
        Some(n) => n,
        None => {
            return Turn::Answer(error(Some(id), -32602, "missing tool `name`"));
        },
    };
    match tool_named(n) {
        Err(e) => Turn::Answer(call_reply(Some(id), &Err(e))),
        Ok(tool) => Turn::Call {
            id: id.to_owned(),
            tool,
            args: arguments.arguments(),
            documents: read_documents(arguments),
        },
    }
}

/// The protocol version to answer with.
pub open spec fn protocol_of(params: json::JsonView) -> Seq<char> {
    match json::text_member(params, "protocolVersion"@) {
        Some(v) => v,
        None => "2024-11-05"@,
    }
}

/// What the server does with a method and its parameters.
pub open spec fn method_turn(
    id: Seq<char>,
    method: Seq<char>,
    params: json::JsonView,
    version: Seq<char>,
) -> TurnView {
    let at = Some(id);
    match corpus::answer_to(method) {
        corpus::AnswerView::Initialize => TurnView::Answer(
            replies::reply_form(at, greeting(protocol_of(params), version)),
        ),
        corpus::AnswerView::Pong => TurnView::Answer(
            replies::reply_form(at, json::object_form(json::of0())),
        ),
        corpus::AnswerView::ListTools => TurnView::Answer(replies::reply_form(at, tools_form())),
        corpus::AnswerView::CallTool => call_turn(
            id,
            json::text_member(params, "name"@),
            json::read_or_null(json::member(params, "arguments"@)),
        ),
        corpus::AnswerView::NoResources => TurnView::Answer(
            replies::reply_form(at, none_listed("resources"@)),
        ),
        corpus::AnswerView::NoPrompts => TurnView::Answer(
            replies::reply_form(at, none_listed("prompts"@)),
        ),
        corpus::AnswerView::NotFound(m) => TurnView::Answer(replies::error_form(at, -32601, m)),
    }
}

/// What the server does with a method and its parameters.
pub fn handle_method(id: &str, method: &str, params: &Json, version: &str) -> (t: Turn)
    ensures
        t@ == method_turn(id@, method@, params@, version@),
{
    let at = Some(id);
    match handle_request(method) {
        Answer::Initialize => {
            let asked = params.text_member("protocolVersion");
            let protocol = match &asked {
                Some(v) => protocol_version(Some(v.as_str())),
                None => protocol_version(None),
            };
            Turn::Answer(reply(at, greet(protocol.as_str(), version)))
        },
        Answer::Pong => Turn::Answer(reply(at, Members::new().text())),
        Answer::ListTools => Turn::Answer(reply(at, tools_text())),
        Answer::CallTool => {
            let name = params.text_member("name");
            let arguments = params.child("arguments");
            match &name {
                Some(n) => call_tool(id, Some(n.as_str()), &arguments),
                None => call_tool(id, None, &arguments),
            }
        },
        Answer::NoResources => Turn::Answer(reply(at, none_text("resources"))),
        Answer::NoPrompts => Turn::Answer(reply(at, none_text("prompts"))),
        Answer::NotFound(m) => Turn::Answer(error(at, -32601, m.as_str())),
    }
}

/// What the server does with a message that was read: one without an id gets no answer.
pub open spec fn message_turn(message: json::JsonView, version: Seq<char>) -> TurnView {
    match json::member(message, "id"@) {
        None => TurnView::Silent,
        Some(id) => method_turn(
            id,
            replies::method_of(message),
            json::read_or_null(json::member(message, "params"@)),
            version,
        ),
    }
}

/// What the server does with a message that was read.
pub fn handle_message(message: &Json, version: &str) -> (t: Turn)
    ensures
        t@ == message_turn(message@, version@),
{
    match message.member("id") {
        None => Turn::Silent,
        Some(id) => {
            let method = message.text_or_empty("method");
            handle_method(id.as_str(), method.as_str(), &message.child("params"), version)
        },
    }
}

/// What the server does with a line: one that is blank it passes over.
pub open spec fn line_turn(line: Seq<char>, version: Seq<char>) -> TurnView {
    if text::blank(line) {
        TurnView::Silent
    } else {
        match json::json_read(line) {
            Err(e) => TurnView::Answer(
                replies::error_form(None, -32700, "parse error: "@ + e),
            ),
            Ok(message) => message_turn(message, version),
        }
    }
}

/// What the server does with a line: it passes over a blank one, answers what it can answer
/// at once, and tells the call that the corpus must take part in.
pub fn handle(line: &str, version: &str) -> (t: Turn)
    ensures
        t@ == line_turn(line@, version@),
{
    if text::is_blank(line) {
        return Turn::Silent;
    }
    match read_json(line) {
        Ok(message) => handle_message(&message, version),
        Err(e) => {
            let mut m = "parse error: ".to_owned();
            m.append(e.as_str());
            Turn::Answer(error(None, -32700, m.as_str()))
        },
    }
}

/// A message is answered, or calls a tool under its id, just where it has an id.
pub proof fn law_only_requests_are_answered(message: json::JsonView, version: Seq<char>)
    ensures
        message_turn(message, version) is Silent <==> json::member(message, "id"@) is None,
        message_turn(message, version) matches TurnView::Call(id, _, _, _) ==> Some(id)
            == json::member(message, "id"@) && replies::method_of(message) == "tools/call"@,
{
}

/// A call of a known tool reaches that tool with the arguments of the call.
pub proof fn law_calls_reach_their_tool(
    message: json::JsonView,
    version: Seq<char>,
    id: Seq<char>,
    tool: CorpusTool,
)
    requires
        json::member(message, "id"@) == Some(id),
        replies::method_of(message) == "tools/call"@,
        json::text_member(json::read_or_null(json::member(message, "params"@)), "name"@) == Some(
            tool.word(),
        ),
    ensures
        ({
            let params = json::read_or_null(json::member(message, "params"@));
            let arguments = json::read_or_null(json::member(params, "arguments"@));
            &&& message_turn(message, version) is Call
            &&& message_turn(message, version)->Call_0 == id
            &&& message_turn(message, version)->Call_1 == tool
            &&& message_turn(message, version)->Call_2 == json::arguments(arguments)
        }),
{
    corpus::law_tools_are_found_by_name(tool, tool.word());
    reveal_strlit("initialize");
    reveal_strlit("ping");
    reveal_strlit("tools/list");
    reveal_strlit("tools/call");
    assert("initialize"@[0] != "tools/call"@[0]);
    assert("ping"@[0] != "tools/call"@[0]);
    assert("tools/list"@[6] != "tools/call"@[6]);
}

/// A blank line is passed over, and one that cannot be read is refused, under no id.
pub proof fn law_unreadable_lines_are_refused(line: Seq<char>, version: Seq<char>)
    ensures
        text::blank(line) ==> line_turn(line, version) is Silent,
        !text::blank(line) && json::json_parsed(line) is Err ==> line_turn(line, version)
            == TurnView::Answer(
            replies::error_form(None, -32700, "parse error: "@ + json::json_parsed(line)->Err_0),
        ),
{
}

/// Every tool is listed, with its name and what it is for.
pub proof fn law_every_tool_is_listed(t: CorpusTool)
    ensures
        text::occurs(tools_form(), tool_form(t)),
        json::tells(tool_form(t), "name"@, json::quoted(t.word())),
        json::tells(tool_form(t), "description"@, json::quoted(t.about())),
        json::tells(tool_form(t), "inputSchema"@, t.shape()),
{
    let m = json::of3(
        ("description"@, json::quoted(t.about())),
        ("inputSchema"@, t.shape()),
        ("name"@, json::quoted(t.word())),
    );
    json::law_texts_tell_all(m, Seq::empty(), 0);
    json::law_texts_tell_all(m, Seq::empty(), 1);
    json::law_texts_tell_all(m, Seq::empty(), 2);
    assert(m[0] == ("description"@, json::quoted(t.about())));
    assert(m[1] == ("inputSchema"@, t.shape()));
    assert(m[2] == ("name"@, json::quoted(t.word())));
    let all = corpus::every_tool();
    corpus::law_tools_are_found_by_name(t, t.word());
    let at = choose|j: int| 0 <= j < all.len() && all[j] == t;
    let tools = all.map_values(|t: CorpusTool| tool_form(t));
    assert(tools[at] == tool_form(t));
    json::law_texts_tell_all(json::of0(), tools, at);
    let list = json::of1(("tools"@, json::list_form(tools)));
    json::law_texts_tell_all(list, Seq::empty(), 0);
    assert(list[0] == ("tools"@, json::list_form(tools)));
    json::law_texts_hold_what_values_hold(
        tools_form(),
        "tools"@,
        json::list_form(tools),
        tools[at],
    );
}

} // verus!
