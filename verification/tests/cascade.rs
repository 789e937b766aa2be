//! The cascade over scopes, and the corpus server.
use octasoma::corpus::{
    chosen_dim, parse_doc, plan_recall, Corpus, CorpusServer, CorpusTool, Doc,
};
use octasoma::dialogue::{handle, Turn};
use octasoma::embed::HashEmbedder;
use octasoma::hybrid::Hit;
use octasoma::mcp::{Arg, Args};
use octasoma::replies::call_reply;
use octasoma::rng::DeterministicRng;
use octasoma::scope::{
    count_words, global_shortlist, packed_node, recall, recall_global, Cascade, CausalScope,
    InMemoryScope, RecallWindow, ScopeItem,
};
use octasoma::sharded::merge_hits;
use serde_json::Value;

fn hashed(text: &str, dim: usize) -> Vec<f32> {
    let mut rng = DeterministicRng::new(HashEmbedder::seed_of(text));
    let mut v: Vec<f32> =
        (0..dim).map(|_| (f32::from_bits(rng.next_unit_bits()) - 1.0) * 2.0 - 1.0).collect();
    let norm: f32 = v.iter().map(|x| x * x).sum::<f32>().sqrt();
    for x in &mut v {
        *x /= norm;
    }
    v
}

fn cosine(a: &str, b: &str) -> f32 {
    hashed(a, 128).iter().zip(&hashed(b, 128)).map(|(x, y)| x * y).sum()
}

fn run<C: CausalScope>(causal: C, query: &str, k: usize, budget: usize) -> RecallWindow {
    let core = Cascade::new(causal);
    let region: Vec<ScopeItem> = core.candidates(query, budget);
    let scores: Vec<u32> = region.iter().map(|i| cosine(query, &i.content).to_bits()).collect();
    recall(&region, &scores, k, budget)
}

fn scope() -> InMemoryScope {
    InMemoryScope::new()
        .region(
            &["sql", "database", "connection", "pool", "postgres"],
            &[
                ("sym:src/db.rs:query", "build and run SQL queries against Postgres"),
                ("sym:src/db.rs:pool", "manage a pool of reusable database connections"),
            ],
        )
        .region(
            &["login", "auth", "token", "sign in", "session"],
            &[
                ("sym:src/auth.rs:login", "authenticate a user with username and password"),
                ("sym:src/auth.rs:token", "issue and verify JSON web tokens for sessions"),
            ],
        )
}

#[test]
fn cascade_scopes_to_the_causal_region() {
    let w = run(scope(), "open a pooled connection to the database", 5, 64);
    assert_eq!(w.strategy, "causal+semantic");
    assert!(!w.items.is_empty());
    // Every item stays inside the db region (causal scoping).
    assert!(w.items.iter().all(|it| it.uri.starts_with("sym:src/db.rs:")));
    // No auth node can appear for a db query.
    assert!(!w.items.iter().any(|it| it.uri.contains("auth")));
}

#[test]
fn respects_k_and_token_budget() {
    let w = run(scope(), "verify a session token for login", 1, 1000);
    assert_eq!(w.items.len(), 1); // k = 1
    assert!(w.items[0].uri.starts_with("sym:src/auth.rs:"));

    // A tiny budget still returns at least the top item, and tokens are bounded to that
    // first item's length.
    let w2 = run(scope(), "verify a session token for login", 5, 1);
    assert_eq!(w2.items.len(), 1);
    assert_eq!(w2.tokens, count_words(&w2.items[0].content));
}

#[test]
fn global_sketch_recall_finds_indexed_node() {
    let nodes = [
        ("sym:src/db.rs:pool", "manage a pool of reusable database connections"),
        ("sym:src/auth.rs:login", "authenticate a user with username and password"),
    ];
    let query = "manage a pool of reusable database connections";
    let hits: Vec<Hit> = nodes
        .iter()
        .map(|(uri, content)| Hit {
            payload: packed_node(uri, content),
            key: String::new(),
            score: cosine(query, content).to_bits(),
        })
        .collect();
    assert!(global_shortlist(1) >= 1);
    // Scope-free recall: shortlist, exact rerank.
    let w = recall_global(&merge_hits(&hits, 1, false));
    assert_eq!(w.strategy, "semantic-global");
    assert_eq!(w.items.len(), 1);
    assert_eq!(w.items[0].uri, "sym:src/db.rs:pool");
    assert!(f32::from_bits(w.items[0].score) > 0.99); // exact text, cosine ~1
}

#[test]
fn unknown_region_yields_empty_window() {
    let w = run(scope(), "render a 3-D triangle mesh", 5, 64);
    assert!(w.items.is_empty());
    assert_eq!(w.tokens, 0);
}

#[test]
fn keywords_are_found_whatever_their_case() {
    let w = run(scope(), "WHICH DATABASE IS IT", 5, 64);
    assert!(w.items.iter().all(|it| it.uri.starts_with("sym:src/db.rs:")));
    assert!(!w.items.is_empty());
    assert_eq!(count_words("  two \n words "), 2);
}

fn text(s: &str) -> Arg {
    Arg::Text(s.to_string())
}

fn args(entries: &[(&str, &str)]) -> Args {
    let mut a = Args::new();
    for (k, v) in entries {
        a.push(k.to_string(), text(v));
    }
    a
}

fn uris(key: &str, list: &[&str], a: &mut Args) {
    a.push(
        key.to_string(),
        Arg::List(list.iter().map(|u| Some(u.to_string())).collect()),
    );
}

fn server() -> CorpusServer {
    CorpusServer::new(Corpus::new(Vec::new()), 128, None)
}

fn ask(s: &mut CorpusServer, a: &Args) -> Result<String, String> {
    let plan = plan_recall(a)?;
    let region = s.corpus().scope(&plan.query, plan.budget);
    let scores: Vec<u32> =
        region.iter().map(|i| cosine(&plan.query, &i.content).to_bits()).collect();
    let window = recall(&region, &scores, plan.k, plan.budget);
    let texts: Vec<String> =
        window.items.iter().map(|i| format!("{:.3}", f32::from_bits(i.score))).collect();
    Ok(s.tool_recall(&plan.query, &window, &texts))
}

/// The answer to a request with the id 1, as a value.
fn respond(s: &mut CorpusServer, method: &str, params: &str) -> Value {
    let line = format!(
        r#"{{"jsonrpc": "2.0", "id": 1, "method": "{method}", "params": {params}}}"#
    );
    let reply = match handle(&line, "0.1.0") {
        Turn::Silent => panic!("no answer"),
        Turn::Answer(reply) => reply,
        Turn::Call { id, tool, args, documents } => {
            let outcome = match tool {
                CorpusTool::Recall => ask(s, &args),
                CorpusTool::Remember => s.tool_remember(&args, documents),
                CorpusTool::Feedback => s.tool_feedback(&args),
                CorpusTool::Stats => Ok(s.tool_stats()),
                CorpusTool::Clear => Ok(s.tool_clear()),
            };
            call_reply(Some(&id), &outcome)
        }
    };
    serde_json::from_str(&reply).unwrap()
}

fn answered(resp: &Value) -> &str {
    resp["result"]["content"][0]["text"].as_str().unwrap()
}

#[test]
fn initialize_reports_server_info_and_echoes_protocol() {
    let resp = respond(&mut server(), "initialize", r#"{"protocolVersion": "2025-06-18"}"#);
    assert_eq!(resp["result"]["serverInfo"]["name"], "octacore");
    assert_eq!(resp["result"]["protocolVersion"], "2025-06-18");
    assert!(resp["result"]["capabilities"]["tools"].is_object());
    let resp = respond(&mut server(), "initialize", "{}");
    assert_eq!(resp["result"]["protocolVersion"], "2024-11-05");
    assert_eq!(resp["result"]["serverInfo"]["version"], "0.1.0");
    assert_eq!(resp["result"]["capabilities"]["tools"]["listChanged"], false);
}

#[test]
fn tools_list_exposes_the_five_tools() {
    let resp = respond(&mut server(), "tools/list", "null");
    let listed = resp["result"]["tools"].as_array().unwrap();
    let names: Vec<&str> = listed.iter().map(|t| t["name"].as_str().unwrap()).collect();
    for expected in ["recall", "remember", "feedback", "stats", "clear"] {
        assert!(names.contains(&expected), "missing tool {expected}");
    }
    assert_eq!(names.len(), 5);
    assert_eq!(listed[0]["inputSchema"]["required"][0], "query");
    assert!(listed.iter().all(|t| t["inputSchema"]["type"] == "object"));
    assert!(listed.iter().all(|t| !t["description"].as_str().unwrap().is_empty()));
}

#[test]
fn feedback_labels_the_last_recall_by_uri() {
    let mut s = server();
    // No prior recall: a visible tool-level error.
    let resp = respond(
        &mut s,
        "tools/call",
        r#"{"name": "feedback", "arguments": {"relevant": ["doc:1"]}}"#,
    );
    assert_eq!(resp["result"]["isError"], true);

    // Remember + recall, then label the hit.
    respond(
        &mut s,
        "tools/call",
        r#"{"name": "remember", "arguments": {
            "uri": "doc:pool", "content": "manage a pool of reusable database connections"}}"#,
    );
    respond(
        &mut s,
        "tools/call",
        r#"{"name": "recall", "arguments": {
            "query": "manage a pool of reusable database connections", "k": 1}}"#,
    );
    let resp = respond(
        &mut s,
        "tools/call",
        r#"{"name": "feedback", "arguments": {
            "relevant": ["doc:pool"], "irrelevant": ["doc:ghost"]}}"#,
    );
    assert_eq!(resp["result"]["isError"], false);
    let text = answered(&resp);
    assert!(text.contains("Recorded 1 observation"), "{text}");
    assert!(text.contains("doc:ghost"), "unknown uris are reported: {text}");

    let stats = respond(&mut s, "tools/call", r#"{"name": "stats", "arguments": {}}"#);
    let text = answered(&stats);
    assert!(text.contains("1 observation(s) (1 relevant)"), "{text}");
}

#[test]
fn remember_then_recall_ranks_the_relevant_document() {
    let mut s = server();
    let add = respond(
        &mut s,
        "tools/call",
        r#"{"name": "remember", "arguments": {"documents": [
            {"uri": "db", "content": "manage a pool of reusable database connections"},
            {"uri": "auth", "content": "authenticate a user with username and password"}
        ]}}"#,
    );
    assert_eq!(add["result"]["isError"], false);

    let rec = respond(
        &mut s,
        "tools/call",
        r#"{"name": "recall", "arguments": {
            "query": "open a pooled database connection", "k": 1}}"#,
    );
    let text = answered(&rec);
    assert!(text.contains("db"), "expected the db doc to rank first: {text}");
    assert!(!text.contains("auth"), "k=1 should drop the auth doc: {text}");
}

#[test]
fn recall_without_documents_is_empty_not_an_error() {
    let params = r#"{"name": "recall", "arguments": {"query": "anything"}}"#;
    let rec = respond(&mut server(), "tools/call", params);
    assert_eq!(rec["result"]["isError"], false);
    assert!(answered(&rec).contains("No matches"));
}

#[test]
fn unknown_method_yields_method_not_found() {
    let resp = respond(&mut server(), "does/not/exist", "null");
    assert_eq!(resp["error"]["code"], -32601);
    assert_eq!(resp["error"]["message"], "method not found: does/not/exist");
}

#[test]
fn unknown_tool_is_reported_as_tool_error() {
    let resp = respond(&mut server(), "tools/call", r#"{"name": "nope", "arguments": {}}"#);
    assert_eq!(resp["result"]["isError"], true);
    assert_eq!(answered(&resp), "unknown tool: nope");
}

#[test]
fn a_message_is_answered_where_it_has_an_id() {
    let mut s = server();
    assert_eq!(respond(&mut s, "ping", "null")["result"], serde_json::from_str::<Value>("{}").unwrap());
    let none = respond(&mut s, "resources/list", "null");
    assert_eq!(none["result"]["resources"].as_array().unwrap().len(), 0);
    let none = respond(&mut s, "prompts/list", "null");
    assert_eq!(none["result"]["prompts"].as_array().unwrap().len(), 0);
    let resp = respond(&mut s, "tools/call", "{}");
    assert_eq!(resp["error"]["code"], -32602);
    assert_eq!(resp["error"]["message"], "missing tool `name`");
    assert!(matches!(handle(r#"{"method": "ping"}"#, "1"), Turn::Silent));
    assert!(matches!(handle(" \t ", "1"), Turn::Silent));
    match handle(r#"{"method": "ping", "id": null}"#, "1") {
        Turn::Answer(text) => assert_eq!(text, r#"{"id":null,"jsonrpc":"2.0","result":{}}"#),
        other => panic!("{other:?}"),
    }
    match handle("{", "1") {
        Turn::Answer(text) => {
            let resp: Value = serde_json::from_str(&text).unwrap();
            assert_eq!(resp["error"]["code"], -32700);
            assert!(resp["id"].is_null());
            let why = resp["error"]["message"].as_str().unwrap();
            assert!(why.starts_with("parse error: EOF"), "{why}");
        }
        other => panic!("{other:?}"),
    }
}

#[test]
fn documents_that_are_no_list_are_passed_over() {
    let mut s = server();
    let resp = respond(
        &mut s,
        "tools/call",
        r#"{"name": "remember", "arguments": {"documents": 3, "content": "one"}}"#,
    );
    assert_eq!(resp["result"]["isError"], false);
    assert_eq!(s.corpus().docs()[0].content, "one");
    let resp = respond(
        &mut s,
        "tools/call",
        r#"{"name": "remember", "arguments": {"documents": [{"content": "two"}, 7]}}"#,
    );
    assert_eq!(resp["result"]["isError"], true);
    assert_eq!(s.corpus().docs().len(), 1);
}

#[test]
fn clearing_the_corpus_counts_what_went() {
    let mut s = server();
    s.tool_remember(&args(&[("content", "one")]), None).unwrap();
    s.tool_remember(&args(&[("content", "two")]), None).unwrap();
    assert_eq!(s.corpus().docs().len(), 2);
    assert!(s.tool_clear().contains('2'));
    assert!(s.corpus().docs().is_empty());
}

#[test]
fn a_document_needs_content() {
    assert!(parse_doc(&args(&[("uri", "u")])).is_err());
    let mut a = args(&[("uri", "u"), ("content", "c")]);
    uris("keywords", &["k1", "k2"], &mut a);
    let d: Doc = parse_doc(&a).unwrap();
    assert_eq!((d.uri.as_str(), d.content.as_str()), ("u", "c"));
    assert_eq!(d.keywords, vec!["k1", "k2"]);
    assert!(plan_recall(&Args::new()).is_err());
}

#[test]
fn the_dimension_is_chosen_from_the_environment() {
    assert_eq!(chosen_dim(Some("64")), 64);
    assert_eq!(chosen_dim(Some("none")), chosen_dim(None));
    assert_eq!(chosen_dim(Some("0")), chosen_dim(None));
}
