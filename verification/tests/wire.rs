//! The wire of the memory server: JSON texts, requests and answers.
use octasoma::corpus::tools_list;
use octasoma::dialogue;
use octasoma::explain::{Explanation, Neighbor, RegionView};
use octasoma::hybrid::{RelatedHit, ShardedHybrid};
use octasoma::json::{
    integer_text, list_text, quoted_list_text, read_text, truth_text, Members,
};
use octasoma::lifecycle::{call_relate, call_tombstone, plan_compact, purge, total};
use octasoma::mcp::{bounded_string, bounded_string_list, Arg, Args};
use octasoma::record::RelationKind;
use octasoma::replies::{
    call_reply, compacted, error, explained, handle, ingested, labelled, purged, recalled,
    related, remembered, reply, statistics, tombstoned, tools_text, Spot, Step,
};
use octasoma::server::{tool_list, Tool};
use octasoma::session::Session;
use octasoma::tools::{plan_ingest, plan_recall, plan_remember};
use serde_json::Value;

fn read(text: &str) -> Value {
    serde_json::from_str(text).unwrap()
}

/// The members of every object stand in the order of their names, without spaces.
fn assert_plain(text: &str) {
    assert_eq!(read(text).to_string(), text);
}

fn asked(entries: &[(&str, &str)]) -> Args {
    let mut a = Args::new();
    for (k, v) in entries {
        a.push(k.to_string(), Arg::Text(v.to_string()));
    }
    a
}

fn called(line: &str) -> (Option<String>, Tool, Args) {
    match handle(line, "9.9") {
        Step::Call { id, tool, args } => (id, tool, args),
        other => panic!("{other:?}"),
    }
}

fn answer(line: &str) -> Value {
    match handle(line, "9.9") {
        Step::Answer(text) => read(&text),
        other => panic!("{other:?}"),
    }
}

#[test]
fn objects_and_lists_are_written_as_json() {
    assert_eq!(Members::new().text(), "{}");
    let inner = Members::new().put("a", truth_text(true)).put("b\"", integer_text(-7)).text();
    assert_eq!(inner, r#"{"a":true,"b\"":-7}"#);
    assert_eq!(list_text(&vec!["1".to_string(), inner]), r#"[1,{"a":true,"b\"":-7}]"#);
    assert_eq!(list_text(&Vec::new()), "[]");
    let words = vec!["x".to_string(), "line\nend".to_string()];
    assert_eq!(quoted_list_text(&words), r#"["x","line\nend"]"#);
    assert_eq!(integer_text(i64::MIN), "-9223372036854775808");
    assert_eq!(truth_text(false), "false");
}

#[test]
fn texts_come_back_from_their_json() {
    for s in ["", "plain", "quote \" slash \\", "tab\tnul\0", "\u{e9}\u{1f600}"] {
        let listed = quoted_list_text(&vec![s.to_string()]);
        let json = &listed[1..listed.len() - 1];
        assert_eq!(read_text(json).as_deref(), Some(s));
    }
    assert_eq!(read_text("7"), None);
    assert_eq!(read_text("\"open"), None);
}

#[test]
fn quotes_backslashes_and_control_characters_are_escaped() {
    let all: String = (0..0x20u8).map(char::from).chain("\"\\/\u{7f}\u{e9}".chars()).collect();
    let listed = quoted_list_text(&vec![all]);
    assert_eq!(
        listed,
        concat_all(&[
            r#"["\u0000\u0001\u0002\u0003\u0004\u0005\u0006\u0007\b\t\n\u000b\f\r\u000e\u000f"#,
            r#"\u0010\u0011\u0012\u0013\u0014\u0015\u0016\u0017"#,
            r#"\u0018\u0019\u001a\u001b\u001c\u001d\u001e\u001f\"\\/"#,
            "\u{7f}\u{e9}\"]",
        ])
    );
}

#[test]
fn the_members_of_objects_stand_in_the_order_of_their_names() {
    assert_plain(&tools_text());
    assert_plain(&dialogue::tools_text());
    for t in tools_list() {
        assert_plain(t.schema());
    }
    assert!(tools_text().starts_with(r#"{"tools":[{"description":"Embed `text`"#));
    let ends = r#""required":["text"],"type":"object"},"name":"ingest"},{"description":"Precise"#;
    assert!(tools_text().contains(ends));
    assert!(tools_text().contains(r#""hops":{"default":0,"description":"Follow"#));

    let p = plan_recall(&asked(&[("text", "query"), ("region", "r")])).unwrap();
    let hits = vec![RelatedHit {
        payload: "u:2\u{1f}words".to_string(),
        key: "u:2".to_string(),
        score: 0.5f32.to_bits(),
        hop: 1,
        via_kind: Some(RelationKind::Confirms),
        via_from: Some("u:1".to_string()),
    }];
    let (items, tokens) = Session::new().answer_recall(&p.text, &hits);
    let text = recalled(&p, &items, &vec!["0.5".to_string()], tokens);
    assert_plain(&text);
    assert!(text.contains(r#"{"content":"words","inherited_score":true,"kind":""#), "{text}");
    assert!(text.contains(r#""via":{"from":"u:1","hop":1,"relation":"confirms"}}"#), "{text}");
}

#[test]
fn replies_carry_their_id() {
    assert_eq!(
        reply(Some("7"), "[]".to_string()),
        r#"{"id":7,"jsonrpc":"2.0","result":[]}"#
    );
    assert_eq!(
        error(None, -32700, "a \"b\""),
        r#"{"error":{"code":-32700,"message":"a \"b\""},"id":null,"jsonrpc":"2.0"}"#
    );
    let good = read(&call_reply(Some("\"x\""), &Ok("{}".to_string())));
    assert_eq!(good["id"], "x");
    assert_eq!(good["result"]["content"][0]["type"], "text");
    assert_eq!(good["result"]["content"][0]["text"], "{}");
    assert_eq!(good["result"]["isError"], false);
    let bad = read(&call_reply(None, &Err("why".to_string())));
    assert_eq!(bad["result"]["isError"], true);
    assert_eq!(bad["result"]["content"][0]["text"], "why");
}

#[test]
fn requests_are_answered_or_told_as_calls() {
    let hello = answer(r#"{"id": 1, "method": "initialize"}"#);
    assert_eq!(hello["result"]["serverInfo"]["name"], "octasoma");
    assert_eq!(hello["result"]["serverInfo"]["version"], "9.9");
    assert_eq!(hello["result"]["protocolVersion"], "2024-11-05");
    assert!(hello["result"]["capabilities"]["tools"].is_object());
    assert_eq!(answer(r#"{"id": "p", "method": "ping"}"#)["id"], "p");
    assert!(matches!(handle(r#"{"method": "notifications/initialized"}"#, "1"), Step::Silent));

    let unknown = answer(r#"{"id": 2, "method": "no/such"}"#);
    assert_eq!(unknown["error"]["code"], -32601);
    assert_eq!(unknown["error"]["message"], "method not found");
    let broken = answer("{\"id\": 3");
    assert_eq!(broken["error"]["code"], -32700);
    assert!(broken["error"]["message"].as_str().unwrap().starts_with("parse error: EOF"));
    assert!(broken["id"].is_null());

    let line = r#"{"id": 4, "method": "tools/call", "params": {"name": "nope"}}"#;
    assert_eq!(answer(line)["result"]["isError"], true);
    let line = r#"{"id": 5, "method": "tools/call", "params": {"name": "stats"}}"#;
    let (id, tool, args) = called(line);
    assert_eq!((id.as_deref(), tool), (Some("5"), Tool::Stats));
    assert_eq!(bounded_string(&args, "uri", 9).unwrap(), "");
}

#[test]
fn arguments_are_read_by_their_kinds() {
    let line = r#"{"id": 1, "method": "tools/call", "params": {"name": "feedback", "arguments": {
        "s": "a\u00e9", "n": 18446744073709551615, "neg": -1, "half": 0.5, "yes": true,
        "none": null, "list": ["x", "y"], "mixed": ["x", 2], "deep": {"a": [1]}}}}"#;
    let (_, tool, args) = called(line);
    assert_eq!(tool, Tool::Feedback);
    assert!(matches!(args.get("s"), Some(Arg::Text(t)) if t == "a\u{e9}"));
    assert!(matches!(args.get("n"), Some(Arg::Number(u64::MAX))));
    assert!(matches!(args.get("neg"), Some(Arg::Other)));
    assert!(matches!(args.get("half"), Some(Arg::Other)));
    assert!(matches!(args.get("yes"), Some(Arg::Other)));
    assert!(matches!(args.get("none"), Some(Arg::Null)));
    assert!(matches!(args.get("deep"), Some(Arg::Other)));
    assert!(args.get("absent").is_none());
    assert_eq!(bounded_string_list(&args, "list").unwrap(), vec!["x", "y"]);
    match args.get("mixed") {
        Some(Arg::List(v)) => assert_eq!(v, &vec![Some("x".to_string()), None]),
        other => panic!("{other:?}"),
    }
    let line = r#"{"id": 1, "method": "tools/call", "params": {"name": "stats", "arguments": 3}}"#;
    assert!(called(line).2.get("s").is_none());
}

#[test]
fn tools_are_listed_with_their_schemas() {
    let listed = read(&tools_text());
    let tools = listed["tools"].as_array().unwrap();
    assert_eq!(tools.len(), tool_list().len());
    for (shown, tool) in tools.iter().zip(tool_list()) {
        assert_eq!(shown["name"], tool.name());
        assert_eq!(shown["description"], tool.description());
        let schema = &shown["inputSchema"];
        assert_eq!(schema["type"], "object");
        for p in tool.properties() {
            assert!(schema["properties"][p.name]["type"].is_string(), "{}", p.name);
        }
        match schema.get("required") {
            Some(names) => assert_eq!(names.as_array().unwrap().len(), tool.required().len()),
            None => assert!(tool.required().is_empty()),
        }
    }
    let recall = tools.iter().find(|t| t["name"] == "recall").unwrap();
    let k = &recall["inputSchema"]["properties"]["k"];
    assert_eq!((k["minimum"].as_u64(), k["type"].as_str()), (Some(1), Some("integer")));
}

/// Stores a record; what it is called, where it went, and at which generation.
fn store(mem: &mut ShardedHybrid, uri: &str) -> (String, String, u64) {
    let a = asked(&[
        ("uri", uri),
        ("text", "manage the pool"),
        ("tenant", "acme"),
        ("workspace", "core"),
        ("project", "db"),
        ("source", "repo"),
        ("source_id", "db.rs"),
    ]);
    let p = plan_remember(&a, mem, "hash:16", 16).unwrap();
    let stored = (p.record.id.as_str().to_string(), p.region.clone(), p.record.generation);
    mem.remember_with_payload(&p.region, p.record, p.payload.into_bytes(), true).unwrap();
    stored
}

#[test]
fn what_tools_did_is_worded() {
    let mut mem = ShardedHybrid::new();
    let p = plan_ingest(&asked(&[("uri", "u:1"), ("text", "t"), ("region", "r")]), &mem).unwrap();
    assert_eq!(ingested(&p), r#"{"nodes_added":1,"region":"r","uri":"u:1"}"#);

    let (_, region, _) = store(&mut mem, "sym:src/db.rs:query");
    let (uri, _, generation) = store(&mut mem, "sym:src/db.rs:pool");
    let text = read(&remembered(&uri, &region, generation, &mem));
    assert_eq!(text["uri"], "sym:src/db.rs:pool");
    assert_eq!(text["region"], region.as_str());
    assert_eq!((text["records"].as_u64(), text["generation"].as_u64()), (Some(2), Some(generation)));

    assert_eq!((mem.len(), mem.checked_len(), mem.regions()), (2, Some(2), 1));
    let text = read(&statistics(&mem, &Session::new()));
    assert_eq!(text["memories"], 2);
    assert_eq!(text["records"], 2);
    assert_eq!(text["regions"], 1);
    assert_eq!(text["region_keys"][0], region.as_str());
    assert_eq!(text["feedback_recorded"], 0);
    assert_eq!(text["feedback_relevant"], 0);

    let a = asked(&[
        ("uri", "sym:src/db.rs:pool"),
        ("relation", "confirms"),
        ("target", "sym:src/db.rs:query"),
    ]);
    let report = call_relate(&a, &mut mem).unwrap();
    let text = read(&related(&report));
    assert_eq!(text["relation"], "confirms");
    assert_eq!(text["target"], "sym:src/db.rs:query");
    assert_eq!(text["generation"], generation + 1);

    let (uri, at) = call_tombstone(&asked(&[("uri", "sym:src/db.rs:pool")]), &mut mem).unwrap();
    let text = tombstoned(&uri, at);
    assert_eq!(read(&text)["uri"], "sym:src/db.rs:pool");
    assert_eq!(read(&text)["generation"], generation + 2);

    let regions = mem.region_keys();
    let report = purge(&mut mem, 5, &regions, &vec![true]).unwrap();
    assert_eq!(purged(&report, &mem), r#"{"index_reclaimed":1,"records":1,"removed":1}"#);

    let mut now = Args::new();
    now.push("now_ms".to_string(), Arg::Number(9));
    let (_, regions) = plan_compact(&now, &mem).unwrap();
    let reclaimed = vec![0; regions.len()];
    let text = read(&compacted(&regions, &reclaimed, total(&reclaimed), &mem));
    assert_eq!(text["reclaimed_total"], 0);
    assert_eq!(text["memories"], 1);
    assert_eq!(text["regions"].as_array().unwrap().len(), regions.len());
}

#[test]
fn recalls_and_labels_are_worded() {
    let mut session = Session::new();
    let p = plan_recall(&asked(&[("text", "query"), ("region", "r")])).unwrap();
    let hits = vec![
        RelatedHit {
            payload: "u:1\u{1f}two words".to_string(),
            key: "u:1".to_string(),
            score: 0.5f32.to_bits(),
            hop: 0,
            via_kind: None,
            via_from: None,
        },
    ];
    let (items, tokens) = session.answer_recall(&p.text, &hits);
    let text = read(&recalled(&p, &items, &vec!["0.5".to_string()], tokens));
    assert_eq!(text["region"], "r");
    assert_eq!(text["strategy"], p.label);
    assert_eq!(text["tokens"].as_u64(), Some(tokens as u64));
    assert_eq!(text["items"][0]["uri"], "u:1");
    assert_eq!(text["items"][0]["content"], "two words");
    assert_eq!(text["items"][0]["score"], 0.5);
    assert!(text.get("visible_as_of").is_none());

    let mut a = Args::new();
    let named = vec![Some("u:1".to_string()), Some("u:9".to_string())];
    a.push("relevant".to_string(), Arg::List(named));
    let text = labelled(&session.give_feedback(&a).unwrap());
    assert_eq!(text, r#"{"recorded":1,"total_feedback":1,"unknown_uris":["u:9"]}"#);
}

#[test]
fn explanations_are_worded() {
    let near = Neighbor {
        payload: vec![b'u', 0x1f, 0xff],
        distance: 0,
        point: [0; 3],
    };
    let zoom = RegionView { level: 2, node: 0, count: 3, samples: Vec::new() };
    let e = Explanation { neighbors: vec![near], zoom_path: vec![zoom] };
    let spot = |x: &str| Spot { x: x.to_string(), y: "2".to_string(), z: "3".to_string() };
    let text = explained(
        "r",
        &spot("1"),
        &e,
        &vec!["0.25".to_string()],
        &vec!["0.5".to_string()],
        &vec![spot("-1")],
    );
    assert_eq!(
        text,
        concat_all(&[
            r#"{"neighbors":[{"content":""#,
            "\u{fffd}",
            r#"","distance":0.5,"point":[-1,2,3],"uri":"u"}],"#,
            r#""query_point":[1,2,3],"region":"r","#,
            r#""zoom_path":[{"count":3,"half_size":0.25,"level":2}]}"#,
        ])
    );
}

fn concat_all(parts: &[&str]) -> String {
    parts.iter().map(|p| p.to_string()).collect()
}
