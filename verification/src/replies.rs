//! The wire of the memory server: requests read from lines, and answers written as texts.
use crate::explain::Explanation;
use crate::hybrid::ShardedHybrid;
use crate::json;
use crate::json::{
    count_text, integer_text, list_text, number_text, quote, quoted_list_text, read_json,
    truth_text, Json, Members,
};
use crate::lifecycle;
use crate::lifecycle::{lossy_text, PurgeReport, RelateReport};
use crate::mcp;
use crate::mcp::{relation_name, split_payload, Args};
use crate::server;
use crate::server::{route, tool_list, tool_named, Action, Property, Shape, Tool, Vocabulary};
use crate::session::{FeedbackReport, Session};
use crate::text;
use crate::tools;
use crate::tools::{IngestPlan, RecallPlan, WindowItem};
use vstd::prelude::*;

verus! {

/// The JSON text of an id: nothing where there is none.
pub open spec fn id_form(id: Option<Seq<char>>) -> Seq<char> {
    match id {
        Some(s) => s,
        None => "null"@,
    }
}

/// A reply with a result.
pub open spec fn reply_form(id: Option<Seq<char>>, result: Seq<char>) -> Seq<char> {
    json::object_form(
        json::of3(("id"@, id_form(id)), ("jsonrpc"@, json::quoted("2.0"@)), ("result"@, result)),
    )
}

/// A reply with an error.
pub open spec fn error_form(id: Option<Seq<char>>, code: int, message: Seq<char>) -> Seq<char> {
    let error = json::of2(("code"@, json::integer(code)), ("message"@, json::quoted(message)));
    json::object_form(
        json::of3(
            ("error"@, json::object_form(error)),
            ("id"@, id_form(id)),
            ("jsonrpc"@, json::quoted("2.0"@)),
        ),
    )
}

/// A reply to a tool call: a text, and whether it says what went wrong.
pub open spec fn call_form(id: Option<Seq<char>>, words: Seq<char>, is_error: bool) -> Seq<char> {
    let part = json::of2(("text"@, json::quoted(words)), ("type"@, json::quoted("text"@)));
    let content = json::list_form(seq![json::object_form(part)]);
    reply_form(
        id,
        json::object_form(json::of2(("content"@, content), ("isError"@, json::truth(is_error)))),
    )
}

/// An optional text as a value.
pub open spec fn id_view(id: Option<&str>) -> Option<Seq<char>> {
    match id {
        Some(s) => Some(s@),
        None => None,
    }
}

fn id_text(id: Option<&str>) -> (s: String)
    ensures
        s@ == id_form(id_view(id)),
{
    match id {
        Some(s) => s.to_owned(),
        None => "null".to_owned(),
    }
}

/// A reply with a result, which is given as a JSON text.
pub fn reply(id: Option<&str>, result: String) -> (s: String)
    ensures
        s@ == reply_form(id_view(id), result@),
{
    Members::new().put("id", id_text(id)).put("jsonrpc", quote("2.0")).put("result", result).text()
}

/// A reply with an error.
pub fn error(id: Option<&str>, code: i64, message: &str) -> (s: String)
    ensures
        s@ == error_form(id_view(id), code as int, message@),
{
    let inner = Members::new().put("code", integer_text(code)).put("message", quote(message)).text();
    Members::new().put("error", inner).put("id", id_text(id)).put("jsonrpc", quote("2.0")).text()
}

/// A reply to a tool call.
pub fn call_reply(id: Option<&str>, outcome: &Result<String, String>) -> (s: String)
    ensures
        s@ == (match outcome {
            Ok(v) => call_form(id_view(id), v@, false),
            Err(e) => call_form(id_view(id), e@, true),
        }),
{
    let (words, is_error) = match outcome {
        Ok(v) => (v.as_str(), false),
        Err(e) => (e.as_str(), true),
    };
    let part = Members::new().put("text", quote(words)).put("type", quote("text")).text();
    let mut parts: Vec<String> = Vec::new();
    parts.push(part);
    proof {
        assert(text::text_views(parts@) =~= seq![part@]);
    }
    let result = Members::new().put("content", list_text(&parts)).put(
        "isError",
        truth_text(is_error),
    ).text();
    reply(id, result)
}

/// What the server says of itself.
pub open spec fn greeting(version: Seq<char>) -> Seq<char> {
    let capabilities = json::of1(("tools"@, json::object_form(json::of0())));
    let info = json::of2(
        ("name"@, json::quoted("octasoma"@)),
        ("version"@, json::quoted(version)),
    );
    json::object_form(
        json::of3(
            ("capabilities"@, json::object_form(capabilities)),
            ("protocolVersion"@, json::quoted("2024-11-05"@)),
            ("serverInfo"@, json::object_form(info)),
        ),
    )
}

/// What the server says of itself.
pub fn greet(version: &str) -> (s: String)
    ensures
        s@ == greeting(version@),
{
    let none = Members::new().text();
    let capabilities = Members::new().put("tools", none).text();
    let info = Members::new().put("name", quote("octasoma")).put("version", quote(version)).text();
    Members::new().put("capabilities", capabilities).put(
        "protocolVersion",
        quote("2024-11-05"),
    ).put("serverInfo", info).text()
}

/// The schema of an argument; its members stand in the order of their names.
pub open spec fn property_form(p: Property) -> Seq<char> {
    let about = json::quoted(p.description@);
    let told = p.description@.len() > 0;
    json::object_form(
        match p.shape {
            Shape::Text { min, max, words, fallback } => {
                let m = json::with(
                    json::of0(),
                    fallback@.len() > 0,
                    "default"@,
                    json::quoted(fallback@),
                );
                let m = json::with(m, told, "description"@, about);
                let m = json::with(
                    m,
                    words != Vocabulary::Any,
                    "enum"@,
                    json::quoted_list(words.lists().map_values(|w: &'static str| w@)),
                );
                let m = json::with(m, max > 0, "maxLength"@, text::decimal(max as nat));
                let m = json::with(m, min > 0, "minLength"@, text::decimal(min as nat));
                m.push(("type"@, json::quoted("string"@)))
            },
            Shape::Count { min, max, default } => {
                let m = json::of1(("default"@, text::decimal(default as nat)));
                let m = json::with(m, told, "description"@, about);
                m.push(("maximum"@, text::decimal(max as nat))).push(
                    ("minimum"@, text::decimal(min as nat)),
                ).push(("type"@, json::quoted("integer"@)))
            },
            Shape::Number { least } => {
                let m = json::with(json::of0(), told, "description"@, about);
                m.push(("minimum"@, text::decimal(least as nat))).push(
                    ("type"@, json::quoted("integer"@)),
                )
            },
            Shape::Uris { items, max } => {
                let each = json::of2(
                    ("maxLength"@, text::decimal(max as nat)),
                    ("type"@, json::quoted("string"@)),
                );
                let m = json::with(json::of0(), told, "description"@, about);
                m.push(("items"@, json::object_form(each))).push(
                    ("maxItems"@, text::decimal(items as nat)),
                ).push(("type"@, json::quoted("array"@)))
            },
        },
    )
}

fn put_if(m: Members, there: bool, key: &str, value: String) -> (r: Members)
    ensures
        r@ == json::with(m@, there, key@, value@),
{
    if there {
        m.put(key, value)
    } else {
        m
    }
}

fn owned(words: &Vec<&'static str>) -> (r: Vec<String>)
    ensures
        text::text_views(r@) == words@.map_values(|w: &'static str| w@),
{
    let mut out: Vec<String> = Vec::new();
    let mut i: usize = 0;
    while i < words.len()
        invariant
            i <= words@.len(),
            out@.len() == i,
            forall|j: int| 0 <= j < i ==> (#[trigger] out@[j])@ == words@[j]@,
        decreases words@.len() - i,
    {
        out.push(words[i].to_owned());
        i += 1;
    }
    proof {
        assert(text::text_views(out@) =~= words@.map_values(|w: &'static str| w@));
    }
    out
}

fn filled(s: &str) -> (r: bool)
    ensures
        r == (s@.len() > 0),
{
    !mcp::is_empty(s)
}

/// The schema of an argument.
pub fn property_text(p: &Property) -> (s: String)
    ensures
        s@ == property_form(*p),
{
    let about = quote(p.description);
    let told = filled(p.description);
    let m = match p.shape {
        Shape::Text { min, max, words, fallback } => {
            let m = put_if(Members::new(), filled(fallback), "default", quote(fallback));
            let m = put_if(m, told, "description", about);
            let listed = quoted_list_text(&owned(&words.words()));
            let m = put_if(m, words != Vocabulary::Any, "enum", listed);
            let m = put_if(m, max > 0, "maxLength", count_text(max));
            let m = put_if(m, min > 0, "minLength", count_text(min));
            m.put("type", quote("string"))
        },
        Shape::Count { min, max, default } => {
            let m = Members::new().put("default", count_text(default));
            put_if(m, told, "description", about).put("maximum", count_text(max)).put(
                "minimum",
                count_text(min),
            ).put("type", quote("integer"))
        },
        Shape::Number { least } => put_if(Members::new(), told, "description", about).put(
            "minimum",
            number_text(least),
        ).put("type", quote("integer")),
        Shape::Uris { items, max } => {
            let each = Members::new().put("maxLength", count_text(max)).put(
                "type",
                quote("string"),
            ).text();
            put_if(Members::new(), told, "description", about).put("items", each).put(
                "maxItems",
                count_text(items),
            ).put("type", quote("array"))
        },
    };
    m.text()
}

/// The schemas of arguments, by their names.
pub open spec fn properties_form(v: Seq<Property>) -> json::MembersView {
    v.map_values(|p: Property| (p.name@, property_form(p)))
}

/// How a tool is listed.
pub open spec fn tool_form(t: Tool) -> Seq<char> {
    let schema = json::with(
        json::of1(("properties"@, json::object_form(properties_form(t.takes())))),
        t.needs().len() > 0,
        "required"@,
        json::quoted_list(t.needs().map_values(|w: &'static str| w@)),
    ).push(("type"@, json::quoted("object"@)));
    json::object_form(
        json::of3(
            ("description"@, json::quoted(t.about())),
            ("inputSchema"@, json::object_form(schema)),
            ("name"@, json::quoted(t.word())),
        ),
    )
}

/// How a tool is listed.
pub fn tool_text(t: Tool) -> (s: String)
    ensures
        s@ == tool_form(t),
{
    let properties = t.properties();
    let ghost all = properties_form(properties@);
    let mut m = Members::new();
    let mut i: usize = 0;
    proof {
        assert(m@ =~= all.take(0));
    }
    while i < properties.len()
        invariant
            i <= properties@.len(),
            all == properties_form(properties@),
            m@ == all.take(i as int),
        decreases properties@.len() - i,
    {
        m = m.put(properties[i].name, property_text(&properties[i]));
        proof {
            assert(all[i as int] == (
                properties@[i as int].name@,
                property_form(properties@[i as int]),
            ));
            assert(m@ =~= all.take(i + 1));
        }
        i += 1;
    }
    proof {
        assert(all.take(i as int) =~= all);
    }
    let required = t.required();
    let needed = quoted_list_text(&owned(&required));
    let schema = Members::new().put("properties", m.text());
    let schema = put_if(schema, required.len() > 0, "required", needed).put(
        "type",
        quote("object"),
    ).text();
    Members::new().put("description", quote(t.description())).put("inputSchema", schema).put(
        "name",
        quote(t.name()),
    ).text()
}

/// The list of the tools.
pub open spec fn tools_form() -> Seq<char> {
    let tools = server::every_tool().map_values(|t: Tool| tool_form(t));
    json::object_form(json::of1(("tools"@, json::list_form(tools))))
}

/// The list of the tools.
pub fn tools_text() -> (s: String)
    ensures
        s@ == tools_form(),
{
    let tools = tool_list();
    let mut parts: Vec<String> = Vec::new();
    let mut i: usize = 0;
    while i < tools.len()
        invariant
            i <= tools@.len(),
            parts@.len() == i,
            forall|j: int| 0 <= j < i ==> (#[trigger] parts@[j])@ == tool_form(tools@[j]),
        decreases tools@.len() - i,
    {
        parts.push(tool_text(tools[i]));
        i += 1;
    }
    proof {
        assert(text::text_views(parts@) =~= server::every_tool().map_values(
            |t: Tool| tool_form(t),
        ));
    }
    Members::new().put("tools", list_text(&parts)).text()
}

/// What the server does with a line that holds a request.
#[derive(Debug)]
pub enum Step {
    /// It says nothing.
    Silent,
    /// It answers.
    Answer(String),
    /// It calls a tool.
    Call {
        /// The JSON text of the id.
        id: Option<String>,
        /// The tool.
        tool: Tool,
        /// Its arguments.
        args: Args,
    },
}

/// What the server does with a line that holds a request, as a value.
pub enum StepView {
    Silent,
    Answer(Seq<char>),
    Call(Option<Seq<char>>, Tool, mcp::ArgsView),
}

impl View for Step {
    type V = StepView;

    open spec fn view(&self) -> StepView {
        match self {
            Step::Silent => StepView::Silent,
            Step::Answer(s) => StepView::Answer(s@),
            Step::Call { id, tool, args } => StepView::Call(
                crate::record::optional_text(*id),
                *tool,
                args@,
            ),
        }
    }
}

/// The name of the tool that a request calls, empty where it has none.
pub open spec fn called_name(params: json::JsonView) -> Seq<char> {
    match json::text_member(params, "name"@) {
        Some(s) => s,
        None => Seq::empty(),
    }
}

/// What the server does with a call of a tool, whose arguments were read.
pub open spec fn call_step(
    id: Option<Seq<char>>,
    name: Seq<char>,
    arguments: json::JsonView,
) -> StepView {
    match server::tool_of(name) {
        Ok(tool) => StepView::Call(id, tool, json::arguments(arguments)),
        Err(e) => StepView::Answer(call_form(id, e, true)),
    }
}

/// What the server does with a method and its parameters.
pub open spec fn method_step(
    id: Option<Seq<char>>,
    method: Seq<char>,
    params: json::JsonView,
    version: Seq<char>,
) -> StepView {
    match server::action_of(method, id is Some) {
        Action::Initialize => StepView::Answer(reply_form(id, greeting(version))),
        Action::Ignore => StepView::Silent,
        Action::Pong => StepView::Answer(reply_form(id, json::object_form(json::of0()))),
        Action::ListTools => StepView::Answer(reply_form(id, tools_form())),
        Action::CallTool => call_step(
            id,
            called_name(params),
            json::read_or_null(json::member(params, "arguments"@)),
        ),
        Action::NotFound => StepView::Answer(error_form(id, -32601, "method not found"@)),
    }
}

/// The method of a request, empty where it has none.
pub open spec fn method_of(request: json::JsonView) -> Seq<char> {
    match json::text_member(request, "method"@) {
        Some(s) => s,
        None => Seq::empty(),
    }
}

/// What the server does with a request that was read.
pub open spec fn request_step(request: json::JsonView, version: Seq<char>) -> StepView {
    method_step(
        json::member(request, "id"@),
        method_of(request),
        json::read_or_null(json::member(request, "params"@)),
        version,
    )
}

/// What the server does with a line that holds a request.
pub open spec fn line_answer(line: Seq<char>, version: Seq<char>) -> StepView {
    match json::json_read(line) {
        Err(e) => StepView::Answer(error_form(None, -32700, "parse error: "@ + e)),
        Ok(request) => request_step(request, version),
    }
}

/// What the server does with a call of a tool, whose arguments were read.
pub fn call_tool(id: Option<&str>, name: &str, arguments: &Json) -> (s: Step)
    ensures
        s@ == call_step(id_view(id), name@, arguments@),
{
    match tool_named(name) {
        Ok(tool) => {
            let at = match id {
                Some(s) => Some(s.to_owned()),
                None => None,
            };
            Step::Call { id: at, tool, args: arguments.arguments() }
        },
        Err(e) => Step::Answer(call_reply(id, &Err(e))),
    }
}

/// What the server does with a method and its parameters.
pub fn handle_method(id: Option<&str>, method: &str, params: &Json, version: &str) -> (s: Step)
    ensures
        s@ == method_step(id_view(id), method@, params@, version@),
{
    match route(method, id.is_some()) {
        Action::Initialize => Step::Answer(reply(id, greet(version))),
        Action::Ignore => Step::Silent,
        Action::Pong => Step::Answer(reply(id, Members::new().text())),
        Action::ListTools => Step::Answer(reply(id, tools_text())),
        Action::CallTool => {
            let name = params.text_or_empty("name");
            call_tool(id, name.as_str(), &params.child("arguments"))
        },
        Action::NotFound => Step::Answer(error(id, -32601, "method not found")),
    }
}

/// What the server does with a request that was read.
pub fn handle_request(request: &Json, version: &str) -> (s: Step)
    ensures
        s@ == request_step(request@, version@),
{
    let id = request.member("id");
    let at: Option<&str> = match &id {
        Some(s) => Some(s.as_str()),
        None => None,
    };
    let method = request.text_or_empty("method");
    handle_method(at, method.as_str(), &request.child("params"), version)
}

/// What the server does with a line that holds a request: it answers what it can answer at
/// once, and tells the call that the engines must take part in.
pub fn handle(line: &str, version: &str) -> (s: Step)
    ensures
        s@ == line_answer(line@, version@),
{
    match read_json(line) {
        Ok(request) => handle_request(&request, version),
        Err(e) => {
            let mut m = "parse error: ".to_owned();
            m.append(e.as_str());
            Step::Answer(error(None, -32700, m.as_str()))
        },
    }
}

/// The text of what `ingest` stored.
pub open spec fn ingested_form(p: tools::IngestView) -> Seq<char> {
    json::object_form(
        json::of3(
            ("nodes_added"@, text::decimal(1)),
            ("region"@, json::quoted(p.region)),
            ("uri"@, json::quoted(p.uri)),
        ),
    )
}

/// The text of what `ingest` stored.
pub fn ingested(p: &IngestPlan) -> (s: String)
    ensures
        s@ == ingested_form(p@),
{
    Members::new().put("nodes_added", number_text(1)).put("region", quote(p.region.as_str())).put(
        "uri",
        quote(p.uri.as_str()),
    ).text()
}

/// The text of what `remember` stored.
pub open spec fn remembered_form(
    uri: Seq<char>,
    region: Seq<char>,
    generation: u64,
    records: nat,
) -> Seq<char> {
    json::object_form(
        json::of4(
            ("generation"@, text::decimal(generation as nat)),
            ("records"@, text::decimal(records)),
            ("region"@, json::quoted(region)),
            ("uri"@, json::quoted(uri)),
        ),
    )
}

/// The text of what `remember` stored.
pub fn remembered(uri: &str, region: &str, generation: u64, mem: &ShardedHybrid) -> (s: String)
    ensures
        s@ == remembered_form(uri@, region@, generation, mem.layer().len()),
{
    Members::new().put("generation", number_text(generation)).put(
        "records",
        count_text(mem.records_len()),
    ).put("region", quote(region)).put("uri", quote(uri)).text()
}

/// The text of a deletion.
pub open spec fn tombstoned_form(uri: Seq<char>, generation: u64) -> Seq<char> {
    json::object_form(
        json::of2(
            ("generation"@, text::decimal(generation as nat)),
            ("uri"@, json::quoted(uri)),
        ),
    )
}

/// The text of a deletion.
pub fn tombstoned(uri: &str, generation: u64) -> (s: String)
    ensures
        s@ == tombstoned_form(uri@, generation),
{
    Members::new().put("generation", number_text(generation)).put("uri", quote(uri)).text()
}

/// The text of a new relation.
pub open spec fn related_form(r: lifecycle::RelateView) -> Seq<char> {
    json::object_form(
        json::of4(
            ("generation"@, text::decimal(r.generation as nat)),
            ("relation"@, json::quoted(mcp::relation_word(r.kind))),
            ("target"@, json::quoted(r.target)),
            ("uri"@, json::quoted(r.uri)),
        ),
    )
}

/// The text of a new relation.
pub fn related(r: &RelateReport) -> (s: String)
    ensures
        s@ == related_form(r@),
{
    Members::new().put("generation", number_text(r.generation)).put(
        "relation",
        quote(relation_name(r.kind)),
    ).put("target", quote(r.target.as_str())).put("uri", quote(r.uri.as_str())).text()
}

/// The text of a purge.
pub open spec fn purged_form(removed: nat, index_reclaimed: nat, records: nat) -> Seq<char> {
    json::object_form(
        json::of3(
            ("index_reclaimed"@, text::decimal(index_reclaimed)),
            ("records"@, text::decimal(records)),
            ("removed"@, text::decimal(removed)),
        ),
    )
}

/// The text of a purge.
pub fn purged(r: &PurgeReport, mem: &ShardedHybrid) -> (s: String)
    ensures
        s@ == purged_form(r.removed as nat, r.index_reclaimed as nat, mem.layer().len()),
{
    Members::new().put("index_reclaimed", count_text(r.index_reclaimed)).put(
        "records",
        count_text(mem.records_len()),
    ).put("removed", count_text(r.removed)).text()
}

/// The text of a region's compaction.
pub open spec fn region_form(region: Seq<char>, reclaimed: usize) -> Seq<char> {
    json::object_form(
        json::of2(
            ("reclaimed"@, text::decimal(reclaimed as nat)),
            ("region"@, json::quoted(region)),
        ),
    )
}

/// The text of a compaction of regions.
pub open spec fn compacted_form(
    regions: Seq<Seq<char>>,
    reclaimed: Seq<usize>,
    total: nat,
    memories: nat,
) -> Seq<char> {
    let each = Seq::new(regions.len(), |i: int| region_form(regions[i], reclaimed[i]));
    json::object_form(
        json::of3(
            ("memories"@, text::decimal(memories)),
            ("reclaimed_total"@, text::decimal(total)),
            ("regions"@, json::list_form(each)),
        ),
    )
}

/// The text of a compaction of regions, each of which lost so many items.
pub fn compacted(regions: &Vec<String>, reclaimed: &Vec<usize>, total: usize, mem: &ShardedHybrid) -> (s:
    String)
    requires
        regions@.len() == reclaimed@.len(),
        mem.held() <= usize::MAX,
    ensures
        s@ == compacted_form(
            text::text_views(regions@),
            reclaimed@,
            total as nat,
            mem.held(),
        ),
{
    let mut parts: Vec<String> = Vec::new();
    let mut i: usize = 0;
    while i < regions.len()
        invariant
            i <= regions@.len(),
            regions@.len() == reclaimed@.len(),
            parts@.len() == i,
            forall|j: int|
                0 <= j < i ==> (#[trigger] parts@[j])@ == region_form(
                    regions@[j]@,
                    reclaimed@[j],
                ),
        decreases regions@.len() - i,
    {
        parts.push(
            Members::new().put("reclaimed", count_text(reclaimed[i])).put(
                "region",
                quote(regions[i].as_str()),
            ).text(),
        );
        i += 1;
    }
    proof {
        let names = text::text_views(regions@);
        assert(text::text_views(parts@) =~= Seq::new(
            names.len(),
            |i: int| region_form(names[i], reclaimed@[i]),
        ));
    }
    Members::new().put("memories", count_text(mem.len())).put(
        "reclaimed_total",
        count_text(total),
    ).put("regions", list_text(&parts)).text()
}

/// The text of the statistics.
pub open spec fn statistics_form(
    keys: Seq<Seq<char>>,
    memories: nat,
    records: nat,
    recorded: nat,
    relevant: nat,
) -> Seq<char> {
    json::object_form(
        json::of4(
            ("feedback_recorded"@, text::decimal(recorded)),
            ("feedback_relevant"@, text::decimal(relevant)),
            ("memories"@, text::decimal(memories)),
            ("records"@, text::decimal(records)),
        ).push(("region_keys"@, json::quoted_list(keys))).push(
            ("regions"@, text::decimal(keys.len())),
        ),
    )
}

/// The text of the statistics.
pub fn statistics(mem: &ShardedHybrid, session: &Session) -> (s: String)
    requires
        mem.held() <= usize::MAX,
    ensures
        exists|keys: Seq<Seq<char>>| #[trigger]
            lifecycle::lists_regions(mem, keys) && s@ == statistics_form(
                keys,
                mem.held(),
                mem.layer().len(),
                session@.log.len(),
                crate::feedback::relevant_among(session@.log),
            ),
{
    let keys = mem.region_keys();
    proof {
        lifecycle::lemma_lists(mem, keys@);
    }
    let count: usize = keys.len();
    Members::new().put("feedback_recorded", count_text(session.feedback_recorded())).put(
        "feedback_relevant",
        count_text(session.feedback_relevant()),
    ).put("memories", count_text(mem.len())).put("records", count_text(mem.records_len())).put(
        "region_keys",
        quoted_list_text(&keys),
    ).put("regions", count_text(count)).text()
}

/// The text of labels that were added.
pub open spec fn labelled_form(recorded: nat, unknown: Seq<Seq<char>>, total: nat) -> Seq<char> {
    json::object_form(
        json::of3(
            ("recorded"@, text::decimal(recorded)),
            ("total_feedback"@, text::decimal(total)),
            ("unknown_uris"@, json::quoted_list(unknown)),
        ),
    )
}

/// The text of labels that were added.
pub fn labelled(r: &FeedbackReport) -> (s: String)
    ensures
        s@ == labelled_form(r.recorded as nat, text::text_views(r.unknown@), r.total as nat),
{
    Members::new().put("recorded", count_text(r.recorded)).put(
        "total_feedback",
        count_text(r.total),
    ).put("unknown_uris", quoted_list_text(&r.unknown)).text()
}

/// The text of an item of a recall, with the JSON text of its score.
pub open spec fn item_form(i: tools::ItemView, score: Seq<char>) -> Seq<char> {
    let m = json::with(
        json::of1(("content"@, json::quoted(i.content))),
        i.via is Some,
        "inherited_score"@,
        json::truth(true),
    ).push(("kind"@, json::quoted(i.kind))).push(("score"@, score)).push(
        ("uri"@, json::quoted(i.uri)),
    );
    json::object_form(
        match i.via {
            None => m,
            Some(v) => m.push(("via"@, via_form(v))),
        },
    )
}

/// The text of how a relation led to an item.
pub open spec fn via_form(v: (Seq<char>, Seq<char>, nat)) -> Seq<char> {
    json::object_form(
        json::of3(
            ("from"@, json::quoted(v.0)),
            ("hop"@, text::decimal(v.2)),
            ("relation"@, json::quoted(v.1)),
        ),
    )
}

fn item_text(i: &WindowItem, score: &str) -> (s: String)
    ensures
        s@ == item_form(i@, score@),
{
    let m = Members::new().put("content", quote(i.content.as_str()));
    let m = put_if(m, i.via.is_some(), "inherited_score", truth_text(true));
    let m = m.put("kind", quote(i.kind.as_str())).put("score", score.to_owned()).put(
        "uri",
        quote(i.uri.as_str()),
    );
    match &i.via {
        None => m.text(),
        Some((from, relation, hop)) => {
            let via = Members::new().put("from", quote(from.as_str())).put(
                "hop",
                count_text(*hop),
            ).put("relation", quote(relation)).text();
            m.put("via", via).text()
        },
    }
}

/// The text of a recall.
pub open spec fn recalled_form(
    p: tools::RecallView,
    items: Seq<tools::ItemView>,
    scores: Seq<Seq<char>>,
    tokens: nat,
) -> Seq<char> {
    let each = Seq::new(items.len(), |i: int| item_form(items[i], scores[i]));
    json::object_form(
        json::with(
            json::of4(
                ("items"@, json::list_form(each)),
                ("region"@, json::quoted(p.region)),
                ("strategy"@, json::quoted(p.label)),
                ("tokens"@, text::decimal(tokens)),
            ),
            p.visible_as_of is Some,
            "visible_as_of"@,
            text::decimal(p.visible_as_of->0 as nat),
        ),
    )
}

/// The text of a recall, whose scores are given as JSON texts.
pub fn recalled(p: &RecallPlan, items: &Vec<WindowItem>, scores: &Vec<String>, tokens: usize) -> (s:
    String)
    requires
        scores@.len() == items@.len(),
    ensures
        s@ == recalled_form(
            p@,
            tools::item_views(items@),
            text::text_views(scores@),
            tokens as nat,
        ),
{
    let mut parts: Vec<String> = Vec::new();
    let mut i: usize = 0;
    while i < items.len()
        invariant
            i <= items@.len(),
            scores@.len() == items@.len(),
            parts@.len() == i,
            forall|j: int|
                0 <= j < i ==> (#[trigger] parts@[j])@ == item_form(items@[j]@, scores@[j]@),
        decreases items@.len() - i,
    {
        parts.push(item_text(&items[i], scores[i].as_str()));
        i += 1;
    }
    proof {
        let views = tools::item_views(items@);
        let texts = text::text_views(scores@);
        assert(text::text_views(parts@) =~= Seq::new(
            views.len(),
            |i: int| item_form(views[i], texts[i]),
        ));
    }
    let m = Members::new().put("items", list_text(&parts)).put(
        "region",
        quote(p.region.as_str()),
    ).put("strategy", quote(p.label)).put("tokens", count_text(tokens));
    match p.visible_as_of {
        Some(now) => m.put("visible_as_of", number_text(now)).text(),
        None => m.text(),
    }
}

/// The JSON texts of a point's coordinates.
#[derive(Debug)]
pub struct Spot {
    /// The first coordinate.
    pub x: String,
    /// The second coordinate.
    pub y: String,
    /// The third coordinate.
    pub z: String,
}

/// The text of a point.
pub open spec fn spot_form(p: &Spot) -> Seq<char> {
    json::list_form(seq![p.x@, p.y@, p.z@])
}

fn spot_text(p: &Spot) -> (s: String)
    ensures
        s@ == spot_form(p),
{
    let mut parts: Vec<String> = Vec::new();
    parts.push(p.x.as_str().to_owned());
    parts.push(p.y.as_str().to_owned());
    parts.push(p.z.as_str().to_owned());
    proof {
        assert(text::text_views(parts@) =~= seq![p.x@, p.y@, p.z@]);
    }
    list_text(&parts)
}

/// The text of a region that a query falls through, with the JSON text of half its side.
pub open spec fn zoom_form(level: u32, count: usize, half_size: Seq<char>) -> Seq<char> {
    json::object_form(
        json::of3(
            ("count"@, text::decimal(count as nat)),
            ("half_size"@, half_size),
            ("level"@, text::decimal(level as nat)),
        ),
    )
}

/// The text of a memory near a query, with the JSON texts of its distance and its place.
pub open spec fn neighbor_form(payload: Seq<u8>, distance: Seq<char>, spot: &Spot) -> Seq<char> {
    let (uri, content) = mcp::parted(lifecycle::payload_text(payload));
    json::object_form(
        json::of4(
            ("content"@, json::quoted(content)),
            ("distance"@, distance),
            ("point"@, spot_form(spot)),
            ("uri"@, json::quoted(uri)),
        ),
    )
}

/// The text of an explanation.
pub open spec fn explained_form(
    region: Seq<char>,
    query: &Spot,
    e: &Explanation,
    halves: Seq<Seq<char>>,
    distances: Seq<Seq<char>>,
    spots: Seq<Spot>,
) -> Seq<char> {
    let near = Seq::new(
        e.neighbors@.len(),
        |i: int| neighbor_form(e.neighbors@[i].payload@, distances[i], &spots[i]),
    );
    let zoom = Seq::new(
        e.zoom_path@.len(),
        |i: int| zoom_form(e.zoom_path@[i].level, e.zoom_path@[i].count, halves[i]),
    );
    json::object_form(
        json::of4(
            ("neighbors"@, json::list_form(near)),
            ("query_point"@, spot_form(query)),
            ("region"@, json::quoted(region)),
            ("zoom_path"@, json::list_form(zoom)),
        ),
    )
}

/// The text of an explanation, whose measures are given as JSON texts: half the side of each
/// region of the zoom path, and the distance and the place of each memory.
pub fn explained(
    region: &str,
    query: &Spot,
    e: &Explanation,
    halves: &Vec<String>,
    distances: &Vec<String>,
    spots: &Vec<Spot>,
) -> (s: String)
    requires
        halves@.len() == e.zoom_path@.len(),
        distances@.len() == e.neighbors@.len(),
        spots@.len() == e.neighbors@.len(),
    ensures
        s@ == explained_form(
            region@,
            query,
            e,
            text::text_views(halves@),
            text::text_views(distances@),
            spots@,
        ),
{
    let mut near: Vec<String> = Vec::new();
    let mut i: usize = 0;
    while i < e.neighbors.len()
        invariant
            i <= e.neighbors@.len(),
            distances@.len() == e.neighbors@.len(),
            spots@.len() == e.neighbors@.len(),
            near@.len() == i,
            forall|j: int|
                0 <= j < i ==> (#[trigger] near@[j])@ == neighbor_form(
                    e.neighbors@[j].payload@,
                    distances@[j]@,
                    &spots@[j],
                ),
        decreases e.neighbors@.len() - i,
    {
        let raw = lossy_text(e.neighbors[i].payload.as_slice());
        let (uri, content) = split_payload(raw.as_str());
        near.push(
            Members::new().put("content", quote(content.as_str())).put(
                "distance",
                distances[i].as_str().to_owned(),
            ).put("point", spot_text(&spots[i])).put("uri", quote(uri.as_str())).text(),
        );
        i += 1;
    }
    let mut zoom: Vec<String> = Vec::new();
    let mut n: usize = 0;
    while n < e.zoom_path.len()
        invariant
            n <= e.zoom_path@.len(),
            halves@.len() == e.zoom_path@.len(),
            zoom@.len() == n,
            forall|j: int|
                0 <= j < n ==> (#[trigger] zoom@[j])@ == zoom_form(
                    e.zoom_path@[j].level,
                    e.zoom_path@[j].count,
                    halves@[j]@,
                ),
        decreases e.zoom_path@.len() - n,
    {
        zoom.push(
            Members::new().put("count", count_text(e.zoom_path[n].count)).put(
                "half_size",
                halves[n].as_str().to_owned(),
            ).put("level", number_text(e.zoom_path[n].level as u64)).text(),
        );
        n += 1;
    }
    proof {
        assert(text::text_views(near@) =~= Seq::new(
            e.neighbors@.len(),
            |i: int|
                neighbor_form(
                    e.neighbors@[i].payload@,
                    text::text_views(distances@)[i],
                    &spots@[i],
                ),
        ));
        assert(text::text_views(zoom@) =~= Seq::new(
            e.zoom_path@.len(),
            |i: int|
                zoom_form(
                    e.zoom_path@[i].level,
                    e.zoom_path@[i].count,
                    text::text_views(halves@)[i],
                ),
        ));
    }
    Members::new().put("neighbors", list_text(&near)).put("query_point", spot_text(query)).put(
        "region",
        quote(region),
    ).put("zoom_path", list_text(&zoom)).text()
}

proof fn lemma_reply_names()
    ensures
        json::quoted("id"@) == "\"id\""@,
        json::quoted("jsonrpc"@) == "\"jsonrpc\""@,
        json::quoted("result"@) == "\"result\""@,
        json::quoted("error"@) == "\"error\""@,
        json::quoted("code"@) == "\"code\""@,
        json::quoted("message"@) == "\"message\""@,
        json::quoted("2.0"@) == "\"2.0\""@,
{
    reveal_strlit("\"");
    reveal_strlit("id");
    reveal_strlit("\"id\"");
    reveal_strlit("jsonrpc");
    reveal_strlit("\"jsonrpc\"");
    reveal_strlit("result");
    reveal_strlit("\"result\"");
    reveal_strlit("error");
    reveal_strlit("\"error\"");
    reveal_strlit("code");
    reveal_strlit("\"code\"");
    reveal_strlit("message");
    reveal_strlit("\"message\"");
    reveal_strlit("2.0");
    reveal_strlit("\"2.0\"");
    json::law_plain_text_is_kept("id"@);
    json::law_plain_text_is_kept("jsonrpc"@);
    json::law_plain_text_is_kept("result"@);
    json::law_plain_text_is_kept("error"@);
    json::law_plain_text_is_kept("code"@);
    json::law_plain_text_is_kept("message"@);
    json::law_plain_text_is_kept("2.0"@);
    assert("\""@ + "id"@ + "\""@ =~= "\"id\""@);
    assert("\""@ + "jsonrpc"@ + "\""@ =~= "\"jsonrpc\""@);
    assert("\""@ + "result"@ + "\""@ =~= "\"result\""@);
    assert("\""@ + "error"@ + "\""@ =~= "\"error\""@);
    assert("\""@ + "code"@ + "\""@ =~= "\"code\""@);
    assert("\""@ + "message"@ + "\""@ =~= "\"message\""@);
    assert("\""@ + "2.0"@ + "\""@ =~= "\"2.0\""@);
}

/// A reply is one object of the request's id, the protocol and the result; a refusal has the code
/// and the message in place of the result. Where the request has no id it is null.
pub proof fn law_replies_carry_their_id(id: Option<Seq<char>>, result: Seq<char>, code: int)
    ensures
        ({
            let named = match id {
                Some(s) => s,
                None => "null"@,
            };
            let version = "\"jsonrpc\""@ + ":"@ + "\"2.0\""@;
            &&& reply_form(id, result) == "{"@ + ("\"id\""@ + ":"@ + named + ","@ + version + ","@ + (
            "\"result\""@ + ":"@ + result)) + "}"@
            &&& error_form(id, code, result) == "{"@ + ("\"error\""@ + ":"@ + ("{"@ + (
            "\"code\""@ + ":"@ + json::integer(code) + ","@ + ("\"message\""@ + ":"@
                + json::quoted(result))) + "}"@) + ","@ + ("\"id\""@ + ":"@ + named) + ","@
                + version) + "}"@
        }),
{
    lemma_reply_names();
    let named = id_form(id);
    let i = ("id"@, named);
    let v = ("jsonrpc"@, json::quoted("2.0"@));
    json::law_small_objects(i, v, ("result"@, result));
    let e = json::of2(("code"@, json::integer(code)), ("message"@, json::quoted(result)));
    json::law_small_objects(
        ("code"@, json::integer(code)),
        ("message"@, json::quoted(result)),
        i,
    );
    json::law_small_objects(("error"@, json::object_form(e)), i, v);
}

/// Every request with an id is answered or calls a tool under that id, but for those that tell of
/// the end of the greeting.
pub proof fn law_requests_are_answered(request: json::JsonView, version: Seq<char>)
    ensures
        json::member(request, "id"@) is Some && method_of(request) != "notifications/initialized"@
            && method_of(request) != "initialized"@ ==> !(request_step(request, version)
            is Silent),
        request_step(request, version) matches StepView::Call(id, _, _) ==> id == json::member(
            request,
            "id"@,
        ) && method_of(request) == "tools/call"@,
{
    server::law_only_notifications_are_ignored(
        method_of(request),
        json::member(request, "id"@) is Some,
    );
}

/// A call of a known tool reaches that tool with the arguments of the call, and a call of an
/// unknown one is answered.
pub proof fn law_calls_reach_their_tool(
    request: json::JsonView,
    version: Seq<char>,
    tool: Tool,
)
    requires
        method_of(request) == "tools/call"@,
    ensures
        ({
            let params = json::read_or_null(json::member(request, "params"@));
            let name = json::text_member(params, "name"@);
            &&& name == Some(tool.word()) ==> request_step(request, version) == StepView::Call(
                json::member(request, "id"@),
                tool,
                json::arguments(json::read_or_null(json::member(params, "arguments"@))),
            )
            &&& request_step(request, version) matches StepView::Call(_, t, _) ==> name == Some(
                t.word(),
            )
            &&& !(request_step(request, version) is Silent)
        }),
{
    let id = json::member(request, "id"@);
    server::law_only_notifications_are_ignored(method_of(request), id is Some);
    let params = json::read_or_null(json::member(request, "params"@));
    let name = called_name(params);
    server::law_tools_are_found_by_name(tool, name);
    if let Ok(t) = server::tool_of(name) {
        server::law_tools_are_found_by_name(t, name);
        server::law_tool_words_are_filled(t);
    }
}

proof fn lemma_told(m: json::MembersView, key: Seq<char>, value: Seq<char>, i: int)
    requires
        0 <= i < m.len(),
        m[i] == (key, value),
    ensures
        json::tells(json::object_form(m), key, value),
{
    json::law_texts_tell_all(m, Seq::empty(), i);
}

/// The text of a recall tells the region, the strategy, the tokens and, where there is one, the
/// time, and holds every item.
pub proof fn law_recall_text_tells_all(
    p: tools::RecallView,
    items: Seq<tools::ItemView>,
    scores: Seq<Seq<char>>,
    tokens: nat,
)
    ensures
        ({
            let s = recalled_form(p, items, scores, tokens);
            &&& json::tells(s, "region"@, json::quoted(p.region))
            &&& json::tells(s, "strategy"@, json::quoted(p.label))
            &&& json::tells(s, "tokens"@, text::decimal(tokens))
            &&& p.visible_as_of matches Some(t) ==> json::tells(
                s,
                "visible_as_of"@,
                text::decimal(t as nat),
            )
            &&& forall|i: int|
                0 <= i < items.len() ==> text::occurs(s, #[trigger] item_form(items[i], scores[i]))
        }),
{
    let each = Seq::new(items.len(), |i: int| item_form(items[i], scores[i]));
    let list = json::list_form(each);
    let m = json::with(
        json::of4(
            ("items"@, list),
            ("region"@, json::quoted(p.region)),
            ("strategy"@, json::quoted(p.label)),
            ("tokens"@, text::decimal(tokens)),
        ),
        p.visible_as_of is Some,
        "visible_as_of"@,
        text::decimal(p.visible_as_of->0 as nat),
    );
    let s = json::object_form(m);
    lemma_told(m, "items"@, list, 0);
    lemma_told(m, "region"@, json::quoted(p.region), 1);
    lemma_told(m, "strategy"@, json::quoted(p.label), 2);
    lemma_told(m, "tokens"@, text::decimal(tokens), 3);
    if let Some(t) = p.visible_as_of {
        lemma_told(m, "visible_as_of"@, text::decimal(t as nat), 4);
    }
    assert forall|i: int| 0 <= i < items.len() implies text::occurs(
        s,
        #[trigger] item_form(items[i], scores[i]),
    ) by {
        json::law_texts_tell_all(json::of0(), each, i);
        assert(each[i] == item_form(items[i], scores[i]));
        json::law_texts_hold_what_values_hold(s, "items"@, list, each[i]);
    }
}

/// The text of an item tells its content, kind, score and uri and, where a relation led to it,
/// from where, by which relation and how far.
pub proof fn law_item_text_tells_all(i: tools::ItemView, score: Seq<char>)
    ensures
        json::tells(item_form(i, score), "content"@, json::quoted(i.content)),
        json::tells(item_form(i, score), "kind"@, json::quoted(i.kind)),
        json::tells(item_form(i, score), "score"@, score),
        json::tells(item_form(i, score), "uri"@, json::quoted(i.uri)),
        i.via matches Some(v) ==> {
            &&& json::tells(item_form(i, score), "inherited_score"@, json::truth(true))
            &&& json::tells(item_form(i, score), "via"@, via_form(v))
            &&& json::tells(via_form(v), "from"@, json::quoted(v.0))
            &&& json::tells(via_form(v), "relation"@, json::quoted(v.1))
            &&& json::tells(via_form(v), "hop"@, text::decimal(v.2))
        },
{
    let m = json::with(
        json::of1(("content"@, json::quoted(i.content))),
        i.via is Some,
        "inherited_score"@,
        json::truth(true),
    ).push(("kind"@, json::quoted(i.kind))).push(("score"@, score)).push(
        ("uri"@, json::quoted(i.uri)),
    );
    match i.via {
        None => {
            lemma_told(m, "content"@, json::quoted(i.content), 0);
            lemma_told(m, "kind"@, json::quoted(i.kind), 1);
            lemma_told(m, "score"@, score, 2);
            lemma_told(m, "uri"@, json::quoted(i.uri), 3);
        },
        Some(v) => {
            let m = m.push(("via"@, via_form(v)));
            lemma_told(m, "content"@, json::quoted(i.content), 0);
            lemma_told(m, "inherited_score"@, json::truth(true), 1);
            lemma_told(m, "kind"@, json::quoted(i.kind), 2);
            lemma_told(m, "score"@, score, 3);
            lemma_told(m, "uri"@, json::quoted(i.uri), 4);
            lemma_told(m, "via"@, via_form(v), 5);
            let w = json::of3(
                ("from"@, json::quoted(v.0)),
                ("hop"@, text::decimal(v.2)),
                ("relation"@, json::quoted(v.1)),
            );
            lemma_told(w, "from"@, json::quoted(v.0), 0);
            lemma_told(w, "hop"@, text::decimal(v.2), 1);
            lemma_told(w, "relation"@, json::quoted(v.1), 2);
        },
    }
}

/// The text of a compaction tells how many memories are left and how many went, and of every region
/// how many it lost.
pub proof fn law_compaction_text_tells_all(
    regions: Seq<Seq<char>>,
    reclaimed: Seq<usize>,
    total: nat,
    memories: nat,
    i: int,
)
    requires
        0 <= i < regions.len(),
    ensures
        ({
            let s = compacted_form(regions, reclaimed, total, memories);
            let r = region_form(regions[i], reclaimed[i]);
            &&& json::tells(s, "memories"@, text::decimal(memories))
            &&& json::tells(s, "reclaimed_total"@, text::decimal(total))
            &&& text::occurs(s, r)
            &&& json::tells(r, "region"@, json::quoted(regions[i]))
            &&& json::tells(r, "reclaimed"@, text::decimal(reclaimed[i] as nat))
        }),
{
    let each = Seq::new(regions.len(), |i: int| region_form(regions[i], reclaimed[i]));
    let list = json::list_form(each);
    let m = json::of3(
        ("memories"@, text::decimal(memories)),
        ("reclaimed_total"@, text::decimal(total)),
        ("regions"@, list),
    );
    lemma_told(m, "memories"@, text::decimal(memories), 0);
    lemma_told(m, "reclaimed_total"@, text::decimal(total), 1);
    lemma_told(m, "regions"@, list, 2);
    json::law_texts_tell_all(json::of0(), each, i);
    json::law_texts_hold_what_values_hold(json::object_form(m), "regions"@, list, each[i]);
    let r = json::of2(
        ("reclaimed"@, text::decimal(reclaimed[i] as nat)),
        ("region"@, json::quoted(regions[i])),
    );
    lemma_told(r, "reclaimed"@, text::decimal(reclaimed[i] as nat), 0);
    lemma_told(r, "region"@, json::quoted(regions[i]), 1);
}

/// What a write, a deletion, a relation and a purge answer tells what they did.
pub proof fn law_write_texts_tell_all(
    p: tools::IngestView,
    r: lifecycle::RelateView,
    uri: Seq<char>,
    region: Seq<char>,
    generation: u64,
    a: nat,
    b: nat,
    c: nat,
)
    ensures
        json::tells(ingested_form(p), "region"@, json::quoted(p.region)),
        json::tells(ingested_form(p), "uri"@, json::quoted(p.uri)),
        json::tells(ingested_form(p), "nodes_added"@, text::decimal(1)),
        json::tells(remembered_form(uri, region, generation, a), "uri"@, json::quoted(uri)),
        json::tells(remembered_form(uri, region, generation, a), "region"@, json::quoted(region)),
        json::tells(
            remembered_form(uri, region, generation, a),
            "generation"@,
            text::decimal(generation as nat),
        ),
        json::tells(remembered_form(uri, region, generation, a), "records"@, text::decimal(a)),
        json::tells(tombstoned_form(uri, generation), "uri"@, json::quoted(uri)),
        json::tells(
            tombstoned_form(uri, generation),
            "generation"@,
            text::decimal(generation as nat),
        ),
        json::tells(related_form(r), "uri"@, json::quoted(r.uri)),
        json::tells(related_form(r), "target"@, json::quoted(r.target)),
        json::tells(related_form(r), "relation"@, json::quoted(mcp::relation_word(r.kind))),
        json::tells(related_form(r), "generation"@, text::decimal(r.generation as nat)),
        json::tells(purged_form(a, b, c), "removed"@, text::decimal(a)),
        json::tells(purged_form(a, b, c), "index_reclaimed"@, text::decimal(b)),
        json::tells(purged_form(a, b, c), "records"@, text::decimal(c)),
{
    let m = json::of3(
        ("nodes_added"@, text::decimal(1)),
        ("region"@, json::quoted(p.region)),
        ("uri"@, json::quoted(p.uri)),
    );
    lemma_told(m, "nodes_added"@, text::decimal(1), 0);
    lemma_told(m, "region"@, json::quoted(p.region), 1);
    lemma_told(m, "uri"@, json::quoted(p.uri), 2);
    let m = json::of4(
        ("generation"@, text::decimal(generation as nat)),
        ("records"@, text::decimal(a)),
        ("region"@, json::quoted(region)),
        ("uri"@, json::quoted(uri)),
    );
    lemma_told(m, "generation"@, text::decimal(generation as nat), 0);
    lemma_told(m, "records"@, text::decimal(a), 1);
    lemma_told(m, "region"@, json::quoted(region), 2);
    lemma_told(m, "uri"@, json::quoted(uri), 3);
    let m = json::of2(
        ("generation"@, text::decimal(generation as nat)),
        ("uri"@, json::quoted(uri)),
    );
    lemma_told(m, "generation"@, text::decimal(generation as nat), 0);
    lemma_told(m, "uri"@, json::quoted(uri), 1);
    let m = json::of4(
        ("generation"@, text::decimal(r.generation as nat)),
        ("relation"@, json::quoted(mcp::relation_word(r.kind))),
        ("target"@, json::quoted(r.target)),
        ("uri"@, json::quoted(r.uri)),
    );
    lemma_told(m, "generation"@, text::decimal(r.generation as nat), 0);
    lemma_told(m, "relation"@, json::quoted(mcp::relation_word(r.kind)), 1);
    lemma_told(m, "target"@, json::quoted(r.target), 2);
    lemma_told(m, "uri"@, json::quoted(r.uri), 3);
    let m = json::of3(
        ("index_reclaimed"@, text::decimal(b)),
        ("records"@, text::decimal(c)),
        ("removed"@, text::decimal(a)),
    );
    lemma_told(m, "index_reclaimed"@, text::decimal(b), 0);
    lemma_told(m, "records"@, text::decimal(c), 1);
    lemma_told(m, "removed"@, text::decimal(a), 2);
}

/// The statistics tell every number and hold every region, and a feedback tells what it added and
/// holds every unknown uri.
pub proof fn law_count_texts_tell_all(
    names: Seq<Seq<char>>,
    memories: nat,
    records: nat,
    recorded: nat,
    relevant: nat,
    i: int,
)
    ensures
        ({
            let s = statistics_form(names, memories, records, recorded, relevant);
            let f = labelled_form(recorded, names, memories);
            &&& json::tells(s, "memories"@, text::decimal(memories))
            &&& json::tells(s, "records"@, text::decimal(records))
            &&& json::tells(s, "feedback_recorded"@, text::decimal(recorded))
            &&& json::tells(s, "feedback_relevant"@, text::decimal(relevant))
            &&& json::tells(s, "regions"@, text::decimal(names.len()))
            &&& json::tells(f, "recorded"@, text::decimal(recorded))
            &&& json::tells(f, "total_feedback"@, text::decimal(memories))
            &&& 0 <= i < names.len() ==> text::occurs(s, json::quoted(names[i])) && text::occurs(
                f,
                json::quoted(names[i]),
            )
        }),
{
    let parts = names.map_values(|s: Seq<char>| json::quoted(s));
    let list = json::quoted_list(names);
    let m = json::of4(
        ("feedback_recorded"@, text::decimal(recorded)),
        ("feedback_relevant"@, text::decimal(relevant)),
        ("memories"@, text::decimal(memories)),
        ("records"@, text::decimal(records)),
    ).push(("region_keys"@, list)).push(("regions"@, text::decimal(names.len())));
    lemma_told(m, "feedback_recorded"@, text::decimal(recorded), 0);
    lemma_told(m, "feedback_relevant"@, text::decimal(relevant), 1);
    lemma_told(m, "memories"@, text::decimal(memories), 2);
    lemma_told(m, "records"@, text::decimal(records), 3);
    lemma_told(m, "region_keys"@, list, 4);
    lemma_told(m, "regions"@, text::decimal(names.len()), 5);
    let f = json::of3(
        ("recorded"@, text::decimal(recorded)),
        ("total_feedback"@, text::decimal(memories)),
        ("unknown_uris"@, list),
    );
    lemma_told(f, "recorded"@, text::decimal(recorded), 0);
    lemma_told(f, "total_feedback"@, text::decimal(memories), 1);
    lemma_told(f, "unknown_uris"@, list, 2);
    if 0 <= i < names.len() {
        json::law_texts_tell_all(json::of0(), parts, i);
        assert(parts[i] == json::quoted(names[i]));
        json::law_texts_hold_what_values_hold(
            json::object_form(m),
            "region_keys"@,
            list,
            parts[i],
        );
        json::law_texts_hold_what_values_hold(
            json::object_form(f),
            "unknown_uris"@,
            list,
            parts[i],
        );
    }
}

/// Every tool is listed with its name and what it is for, and with every argument that it takes.
pub proof fn law_every_tool_is_listed(t: Tool, i: int)
    ensures
        text::occurs(tools_form(), tool_form(t)),
        json::tells(tool_form(t), "name"@, json::quoted(t.word())),
        json::tells(tool_form(t), "description"@, json::quoted(t.about())),
        0 <= i < t.takes().len() ==> json::tells(
            tool_form(t),
            t.takes()[i].name@,
            property_form(t.takes()[i]),
        ),
{
    let props = properties_form(t.takes());
    let inner = json::object_form(props);
    let schema = json::with(
        json::of1(("properties"@, inner)),
        t.needs().len() > 0,
        "required"@,
        json::quoted_list(t.needs().map_values(|w: &'static str| w@)),
    ).push(("type"@, json::quoted("object"@)));
    let form = json::object_form(schema);
    let m = json::of3(
        ("description"@, json::quoted(t.about())),
        ("inputSchema"@, form),
        ("name"@, json::quoted(t.word())),
    );
    lemma_told(m, "description"@, json::quoted(t.about()), 0);
    lemma_told(m, "inputSchema"@, form, 1);
    lemma_told(m, "name"@, json::quoted(t.word()), 2);
    lemma_told(schema, "properties"@, inner, 0);
    if 0 <= i < t.takes().len() {
        let p = t.takes()[i];
        assert(props[i] == (p.name@, property_form(p)));
        lemma_told(props, p.name@, property_form(p), i);
        let part = json::quoted(p.name@) + ":"@ + property_form(p);
        json::law_texts_hold_what_values_hold(form, "properties"@, inner, part);
        json::law_texts_hold_what_values_hold(tool_form(t), "inputSchema"@, form, part);
    }
    let all = server::every_tool();
    server::law_tools_are_found_by_name(t, t.word());
    let at = choose|j: int| 0 <= j < all.len() && all[j] == t;
    let tools = all.map_values(|t: Tool| tool_form(t));
    assert(tools[at] == tool_form(t));
    json::law_texts_tell_all(json::of0(), tools, at);
    let list = json::of1(("tools"@, json::list_form(tools)));
    lemma_told(list, "tools"@, json::list_form(tools), 0);
    json::law_texts_hold_what_values_hold(
        tools_form(),
        "tools"@,
        json::list_form(tools),
        tools[at],
    );
}

proof fn lemma_with(
    m: json::MembersView,
    there: bool,
    key: Seq<char>,
    value: Seq<char>,
    x: (Seq<char>, Seq<char>),
)
    ensures
        m.contains(x) ==> json::with(m, there, key, value).contains(x) && m.push(
            (key, value),
        ).contains(x),
        there ==> json::with(m, there, key, value).contains((key, value)),
        m.push((key, value)).contains((key, value)),
{
    let p = m.push((key, value));
    assert(p[m.len() as int] == (key, value));
    if m.contains(x) {
        let i = choose|i: int| 0 <= i < m.len() && m[i] == x;
        assert(p[i] == x);
    }
}

proof fn lemma_contained(m: json::MembersView, key: Seq<char>, value: Seq<char>)
    requires
        m.contains((key, value)),
    ensures
        json::tells(json::object_form(m), key, value),
{
    let i = choose|i: int| 0 <= i < m.len() && m[i] == (key, value);
    lemma_told(m, key, value, i);
}

/// The schema of an argument tells its type, its description where there is one, and every limit,
/// default and list of words that it has.
pub proof fn law_schema_tells_the_limits(p: Property)
    ensures
        p.description@.len() > 0 ==> json::tells(
            property_form(p),
            "description"@,
            json::quoted(p.description@),
        ),
        match p.shape {
            Shape::Text { min, max, words, fallback } => {
                &&& json::tells(property_form(p), "type"@, json::quoted("string"@))
                &&& max > 0 ==> json::tells(
                    property_form(p),
                    "maxLength"@,
                    text::decimal(max as nat),
                )
                &&& min > 0 ==> json::tells(
                    property_form(p),
                    "minLength"@,
                    text::decimal(min as nat),
                )
                &&& fallback@.len() > 0 ==> json::tells(
                    property_form(p),
                    "default"@,
                    json::quoted(fallback@),
                )
                &&& words != Vocabulary::Any ==> json::tells(
                    property_form(p),
                    "enum"@,
                    json::quoted_list(words.lists().map_values(|w: &'static str| w@)),
                )
            },
            Shape::Count { min, max, default } => {
                &&& json::tells(property_form(p), "type"@, json::quoted("integer"@))
                &&& json::tells(property_form(p), "minimum"@, text::decimal(min as nat))
                &&& json::tells(property_form(p), "maximum"@, text::decimal(max as nat))
                &&& json::tells(property_form(p), "default"@, text::decimal(default as nat))
            },
            Shape::Number { least } => {
                &&& json::tells(property_form(p), "type"@, json::quoted("integer"@))
                &&& json::tells(property_form(p), "minimum"@, text::decimal(least as nat))
            },
            Shape::Uris { items, max } => {
                &&& json::tells(property_form(p), "type"@, json::quoted("array"@))
                &&& json::tells(property_form(p), "maxItems"@, text::decimal(items as nat))
                &&& text::occurs(
                    property_form(p),
                    json::quoted("maxLength"@) + ":"@ + text::decimal(max as nat),
                )
            },
        },
{
    let about = json::quoted(p.description@);
    let told = p.description@.len() > 0;
    let of_about = ("description"@, about);
    match p.shape {
        Shape::Text { min, max, words, fallback } => {
            let of_default = ("default"@, json::quoted(fallback@));
            let list = json::quoted_list(words.lists().map_values(|w: &'static str| w@));
            let of_words = ("enum"@, list);
            let of_max = ("maxLength"@, text::decimal(max as nat));
            let of_min = ("minLength"@, text::decimal(min as nat));
            let of_type = ("type"@, json::quoted("string"@));
            let some = fallback@.len() > 0;
            let limited = words != Vocabulary::Any;
            let m1 = json::with(json::of0(), some, of_default.0, of_default.1);
            let m2 = json::with(m1, told, of_about.0, about);
            let m3 = json::with(m2, limited, of_words.0, list);
            let m4 = json::with(m3, max > 0, of_max.0, of_max.1);
            let m5 = json::with(m4, min > 0, of_min.0, of_min.1);
            let m6 = m5.push(of_type);
            lemma_with(json::of0(), some, of_default.0, of_default.1, of_default);
            lemma_with(m1, told, of_about.0, about, of_default);
            lemma_with(m2, limited, of_words.0, list, of_default);
            lemma_with(m2, limited, of_words.0, list, of_about);
            lemma_with(m3, max > 0, of_max.0, of_max.1, of_default);
            lemma_with(m3, max > 0, of_max.0, of_max.1, of_about);
            lemma_with(m3, max > 0, of_max.0, of_max.1, of_words);
            lemma_with(m4, min > 0, of_min.0, of_min.1, of_default);
            lemma_with(m4, min > 0, of_min.0, of_min.1, of_about);
            lemma_with(m4, min > 0, of_min.0, of_min.1, of_words);
            lemma_with(m4, min > 0, of_min.0, of_min.1, of_max);
            lemma_with(m5, true, of_type.0, of_type.1, of_default);
            lemma_with(m5, true, of_type.0, of_type.1, of_about);
            lemma_with(m5, true, of_type.0, of_type.1, of_words);
            lemma_with(m5, true, of_type.0, of_type.1, of_max);
            lemma_with(m5, true, of_type.0, of_type.1, of_min);
            assert(property_form(p) == json::object_form(m6));
            lemma_contained(m6, of_type.0, of_type.1);
            if some {
                lemma_contained(m6, of_default.0, of_default.1);
            }
            if told {
                lemma_contained(m6, of_about.0, about);
            }
            if limited {
                lemma_contained(m6, of_words.0, list);
            }
            if max > 0 {
                lemma_contained(m6, of_max.0, of_max.1);
            }
            if min > 0 {
                lemma_contained(m6, of_min.0, of_min.1);
            }
        },
        Shape::Count { min, max, default } => {
            let of_default = ("default"@, text::decimal(default as nat));
            let of_max = ("maximum"@, text::decimal(max as nat));
            let of_min = ("minimum"@, text::decimal(min as nat));
            let of_type = ("type"@, json::quoted("integer"@));
            let m1 = json::of1(of_default);
            let m2 = json::with(m1, told, of_about.0, about);
            let m5 = m2.push(of_max).push(of_min).push(of_type);
            assert(property_form(p) == json::object_form(m5));
            let n = m2.len() as int;
            lemma_told(m5, of_default.0, of_default.1, 0);
            lemma_told(m5, of_max.0, of_max.1, n);
            lemma_told(m5, of_min.0, of_min.1, n + 1);
            lemma_told(m5, of_type.0, of_type.1, n + 2);
            if told {
                lemma_told(m5, of_about.0, about, 1);
            }
        },
        Shape::Number { least } => {
            let of_min = ("minimum"@, text::decimal(least as nat));
            let of_type = ("type"@, json::quoted("integer"@));
            let m1 = json::with(json::of0(), told, of_about.0, about);
            let m3 = m1.push(of_min).push(of_type);
            assert(property_form(p) == json::object_form(m3));
            let n = m1.len() as int;
            lemma_told(m3, of_min.0, of_min.1, n);
            lemma_told(m3, of_type.0, of_type.1, n + 1);
            if told {
                lemma_told(m3, of_about.0, about, 0);
            }
        },
        Shape::Uris { items, max } => {
            let of_len = ("maxLength"@, text::decimal(max as nat));
            let each = json::of2(of_len, ("type"@, json::quoted("string"@)));
            let of_items = ("items"@, json::object_form(each));
            let of_max = ("maxItems"@, text::decimal(items as nat));
            let of_type = ("type"@, json::quoted("array"@));
            let m1 = json::with(json::of0(), told, of_about.0, about);
            let m4 = m1.push(of_items).push(of_max).push(of_type);
            assert(property_form(p) == json::object_form(m4));
            let n = m1.len() as int;
            lemma_told(m4, of_items.0, of_items.1, n);
            lemma_told(m4, of_max.0, of_max.1, n + 1);
            lemma_told(m4, of_type.0, of_type.1, n + 2);
            if told {
                lemma_told(m4, of_about.0, about, 0);
            }
            lemma_told(each, of_len.0, of_len.1, 0);
            json::law_texts_hold_what_values_hold(
                property_form(p),
                of_items.0,
                of_items.1,
                json::quoted(of_len.0) + ":"@ + of_len.1,
            );
        },
    }
}

/// A tool that needs arguments lists each of them.
pub proof fn law_needed_arguments_are_listed(t: Tool, i: int)
    requires
        0 <= i < t.needs().len(),
    ensures
        text::occurs(tool_form(t), json::quoted(t.needs()[i]@)),
{
    let names = t.needs().map_values(|w: &'static str| w@);
    let parts = names.map_values(|s: Seq<char>| json::quoted(s));
    let list = json::quoted_list(names);
    let inner = json::object_form(properties_form(t.takes()));
    let schema = json::with(
        json::of1(("properties"@, inner)),
        t.needs().len() > 0,
        "required"@,
        list,
    ).push(("type"@, json::quoted("object"@)));
    let form = json::object_form(schema);
    let m = json::of3(
        ("description"@, json::quoted(t.about())),
        ("inputSchema"@, form),
        ("name"@, json::quoted(t.word())),
    );
    lemma_told(schema, "required"@, list, 1);
    lemma_told(m, "inputSchema"@, form, 1);
    json::law_texts_tell_all(json::of0(), parts, i);
    assert(parts[i] == json::quoted(t.needs()[i]@));
    json::law_texts_hold_what_values_hold(form, "required"@, list, parts[i]);
    json::law_texts_hold_what_values_hold(tool_form(t), "inputSchema"@, form, parts[i]);
}

/// The answer of a tool holds its text, quoted, and says whether it is of an error; it is a reply
/// under the id of the call.
pub proof fn law_call_answers_hold_their_text(id: Option<Seq<char>>, words: Seq<char>, bad: bool)
    ensures
        text::occurs(call_form(id, words, bad), json::quoted(words)),
        text::occurs(
            call_form(id, words, bad),
            json::quoted("isError"@) + ":"@ + (if bad {
                "true"@
            } else {
                "false"@
            }),
        ),
        json::tells(call_form(id, words, bad), "id"@, id_form(id)),
{
    let part = json::of2(("text"@, json::quoted(words)), ("type"@, json::quoted("text"@)));
    let one = json::object_form(part);
    let content = json::list_form(seq![one]);
    let flag = json::truth(bad);
    let inner = json::of2(("content"@, content), ("isError"@, flag));
    let result = json::object_form(inner);
    let m = json::of3(
        ("id"@, id_form(id)),
        ("jsonrpc"@, json::quoted("2.0"@)),
        ("result"@, result),
    );
    let s = call_form(id, words, bad);
    let none = Seq::<char>::empty();
    lemma_told(part, "text"@, json::quoted(words), 0);
    text::law_parts_occur(none, json::quoted(words), none, json::quoted(words));
    assert(none + json::quoted(words) + none =~= json::quoted(words));
    json::law_texts_hold_what_values_hold(one, "text"@, json::quoted(words), json::quoted(words));
    json::law_texts_tell_all(json::of0(), seq![one], 0);
    text::law_occurring_is_transitive(content, one, json::quoted(words));
    lemma_told(inner, "content"@, content, 0);
    lemma_told(inner, "isError"@, flag, 1);
    json::law_texts_hold_what_values_hold(result, "content"@, content, json::quoted(words));
    lemma_told(m, "id"@, id_form(id), 0);
    lemma_told(m, "result"@, result, 2);
    json::law_texts_hold_what_values_hold(s, "result"@, result, json::quoted(words));
    json::law_texts_hold_what_values_hold(
        s,
        "result"@,
        result,
        json::quoted("isError"@) + ":"@ + flag,
    );
}

/// The text of an explanation tells the region and the point of the query, and holds every memory
/// near it and every region on the way to it.
pub proof fn law_explanation_text_tells_all(
    region: Seq<char>,
    query: &Spot,
    e: &Explanation,
    halves: Seq<Seq<char>>,
    distances: Seq<Seq<char>>,
    spots: Seq<Spot>,
)
    ensures
        ({
            let s = explained_form(region, query, e, halves, distances, spots);
            &&& json::tells(s, "region"@, json::quoted(region))
            &&& json::tells(s, "query_point"@, spot_form(query))
            &&& forall|i: int|
                0 <= i < e.neighbors@.len() ==> text::occurs(
                    s,
                    neighbor_form((#[trigger] e.neighbors@[i]).payload@, distances[i], &spots[i]),
                )
            &&& forall|i: int|
                0 <= i < e.zoom_path@.len() ==> text::occurs(
                    s,
                    zoom_form((#[trigger] e.zoom_path@[i]).level, e.zoom_path@[i].count, halves[i]),
                )
        }),
{
    let near = Seq::new(
        e.neighbors@.len(),
        |i: int| neighbor_form(e.neighbors@[i].payload@, distances[i], &spots[i]),
    );
    let zoom = Seq::new(
        e.zoom_path@.len(),
        |i: int| zoom_form(e.zoom_path@[i].level, e.zoom_path@[i].count, halves[i]),
    );
    let (a, b) = (json::list_form(near), json::list_form(zoom));
    let m = json::of4(
        ("neighbors"@, a),
        ("query_point"@, spot_form(query)),
        ("region"@, json::quoted(region)),
        ("zoom_path"@, b),
    );
    let s = json::object_form(m);
    lemma_told(m, "neighbors"@, a, 0);
    lemma_told(m, "query_point"@, spot_form(query), 1);
    lemma_told(m, "region"@, json::quoted(region), 2);
    lemma_told(m, "zoom_path"@, b, 3);
    assert forall|i: int| 0 <= i < e.neighbors@.len() implies text::occurs(
        s,
        neighbor_form((#[trigger] e.neighbors@[i]).payload@, distances[i], &spots[i]),
    ) by {
        json::law_texts_tell_all(json::of0(), near, i);
        json::law_texts_hold_what_values_hold(s, "neighbors"@, a, near[i]);
    }
    assert forall|i: int| 0 <= i < e.zoom_path@.len() implies text::occurs(
        s,
        zoom_form((#[trigger] e.zoom_path@[i]).level, e.zoom_path@[i].count, halves[i]),
    ) by {
        json::law_texts_tell_all(json::of0(), zoom, i);
        json::law_texts_hold_what_values_hold(s, "zoom_path"@, b, zoom[i]);
    }
}

/// The text of a memory near a query tells its uri and content as they were packed, its distance
/// and its point; that of a region its level, how many memories it holds and half its side.
pub proof fn law_near_texts_tell_all(
    uri: Seq<char>,
    content: Seq<char>,
    distance: Seq<char>,
    spot: &Spot,
    level: u32,
    count: usize,
    half: Seq<char>,
)
    requires
        !uri.contains(mcp::SEP),
    ensures
        ({
            let s = neighbor_form(
                vstd::utf8::encode_utf8(mcp::packed(uri, content)),
                distance,
                spot,
            );
            &&& json::tells(s, "uri"@, json::quoted(uri))
            &&& json::tells(s, "content"@, json::quoted(content))
            &&& json::tells(s, "distance"@, distance)
            &&& json::tells(s, "point"@, spot_form(spot))
        }),
        json::tells(zoom_form(level, count, half), "level"@, text::decimal(level as nat)),
        json::tells(zoom_form(level, count, half), "count"@, text::decimal(count as nat)),
        json::tells(zoom_form(level, count, half), "half_size"@, half),
{
    let p = mcp::packed(uri, content);
    lifecycle::law_payload_text_comes_back(p, uri, content);
    mcp::law_payload_round_trip(uri, content);
    let m = json::of4(
        ("content"@, json::quoted(content)),
        ("distance"@, distance),
        ("point"@, spot_form(spot)),
        ("uri"@, json::quoted(uri)),
    );
    lemma_told(m, "content"@, json::quoted(content), 0);
    lemma_told(m, "distance"@, distance, 1);
    lemma_told(m, "point"@, spot_form(spot), 2);
    lemma_told(m, "uri"@, json::quoted(uri), 3);
    let z = json::of3(
        ("count"@, text::decimal(count as nat)),
        ("half_size"@, half),
        ("level"@, text::decimal(level as nat)),
    );
    lemma_told(z, "count"@, text::decimal(count as nat), 0);
    lemma_told(z, "half_size"@, half, 1);
    lemma_told(z, "level"@, text::decimal(level as nat), 2);
}

} // verus!
