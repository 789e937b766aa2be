//! The server: its limits, tools, session and lifecycle operations.
use octasoma::hybrid::{Hit, RelatedHit, ShardedHybrid};
use octasoma::lifecycle::{
    call_relate, call_tombstone, compact_regions, keys_in, plan_compact, purge, total,
};
use octasoma::mcp::{
    bounded_opt_u64, bounded_req_u64, bounded_string, bounded_string_list, bounded_usize,
    classify_line, ensure_feedback_capacity, ensure_ingest_capacity, kind_of, parse_relation,
    parse_sensitivity, parse_strategy, record_key, region_of, relation_name, resolve_generation,
    split_payload, strategy_name, validate_store_capacity, Arg, Args, InputLine,
    MAX_FEEDBACK_ENTRIES, MAX_FEEDBACK_URIS, MAX_MEMORIES, MAX_REGIONS, MAX_REQUEST_BYTES,
};
use octasoma::record::{RelationKind, Sensitivity};
use octasoma::record_store::RecordFilter;
use octasoma::server::{
    check_options, line_action, parse_options, route, tool_list, tool_named, Action, LineAction,
};
use octasoma::session::{plan_explain, Session};
use octasoma::tools::{plan_ingest, plan_recall, plan_remember, RecallRoute};

fn args(entries: &[(&str, &str)]) -> Args {
    let mut a = Args::new();
    for (k, v) in entries {
        a.push(k.to_string(), Arg::Text(v.to_string()));
    }
    a
}

fn with_number(mut a: Args, key: &str, n: u64) -> Args {
    a.push(key.to_string(), Arg::Number(n));
    a
}

#[test]
fn store_capacity_accepts_boundaries_and_rejects_growth() {
    assert!(validate_store_capacity(MAX_MEMORIES, MAX_REGIONS).is_ok());
    assert!(ensure_ingest_capacity(MAX_MEMORIES - 1, MAX_REGIONS, false).is_ok());
    assert!(ensure_ingest_capacity(MAX_MEMORIES, 1, false).is_err());
    assert!(ensure_ingest_capacity(1, MAX_REGIONS, true).is_err());
    assert!(validate_store_capacity(MAX_MEMORIES + 1, 1).is_err());
    assert!(validate_store_capacity(1, MAX_REGIONS + 1).is_err());
}

#[test]
fn feedback_capacity_is_transactional_at_the_boundary() {
    assert!(ensure_feedback_capacity(
        MAX_FEEDBACK_ENTRIES - MAX_FEEDBACK_URIS,
        MAX_FEEDBACK_URIS
    )
    .is_ok());
    assert!(ensure_feedback_capacity(MAX_FEEDBACK_ENTRIES, 1).is_err());
    assert!(ensure_feedback_capacity(usize::MAX, 1).is_err());
}

#[test]
fn arguments_are_held_to_their_bounds() {
    let a = with_number(args(&[("s", "hello")]), "n", 7);
    assert_eq!(bounded_string(&a, "s", 5).unwrap(), "hello");
    assert!(bounded_string(&a, "s", 4).is_err());
    assert_eq!(bounded_string(&a, "missing", 4).unwrap(), "");
    assert!(bounded_string(&a, "n", 4).is_err());
    assert_eq!(bounded_usize(&a, "n", 3, 1, 7).unwrap(), 7);
    assert!(bounded_usize(&a, "n", 3, 1, 6).is_err());
    assert_eq!(bounded_usize(&a, "missing", 3, 1, 6).unwrap(), 3);
    assert_eq!(bounded_opt_u64(&a, "missing").unwrap(), None);
    assert_eq!(bounded_opt_u64(&a, "n").unwrap(), Some(7));
    assert!(bounded_opt_u64(&a, "s").is_err());
    assert_eq!(bounded_req_u64(&a, "n").unwrap(), 7);
    assert!(bounded_req_u64(&a, "missing").is_err());
    assert!(bounded_string_list(&a, "s").is_err());
    assert!(bounded_string_list(&a, "missing").unwrap().is_empty());
}

#[test]
fn lines_are_told_apart() {
    assert!(matches!(classify_line(Vec::new()), InputLine::Eof));
    assert!(matches!(classify_line(vec![0xff, b'\n']), InputLine::InvalidUtf8));
    assert!(matches!(classify_line(vec![b'a'; MAX_REQUEST_BYTES + 1]), InputLine::TooLong));
    match classify_line(b"ping\n".to_vec()) {
        InputLine::Line(s) => assert_eq!(s.trim(), "ping"),
        other => panic!("read as {other:?}"),
    }
    assert!(matches!(line_action(InputLine::Eof), LineAction::Stop));
    assert!(matches!(line_action(InputLine::Line(" \n".to_string())), LineAction::Skip));
    assert!(matches!(line_action(InputLine::TooLong), LineAction::Refuse(_, _)));
    assert!(matches!(line_action(InputLine::InvalidUtf8), LineAction::Refuse(_, _)));
    assert!(matches!(line_action(InputLine::Line("{}".to_string())), LineAction::Handle(_)));
}

#[test]
fn methods_are_routed() {
    assert!(matches!(route("initialize", true), Action::Initialize));
    assert!(matches!(route("tools/list", true), Action::ListTools));
    assert!(matches!(route("tools/call", true), Action::CallTool));
    assert!(matches!(route("ping", true), Action::Pong));
    assert!(matches!(route("nonsense", true), Action::NotFound));
    assert!(matches!(route("nonsense", false), Action::Ignore));
}

#[test]
fn every_tool_is_listed_and_found_by_its_name() {
    let tools = tool_list();
    assert_eq!(tools.len(), 10);
    for t in tools {
        assert!(tool_named(t.name()).unwrap() == t);
        assert!(!t.description().is_empty());
        let names: Vec<&str> = t.properties().iter().map(|p| p.name).collect();
        assert!(t.required().iter().all(|r| names.contains(r)), "{}", t.name());
    }
    assert!(tool_named("nope").is_err());
}

#[test]
fn options_of_the_server() {
    let words: Vec<String> =
        ["dir", "--hash", "--dim", "64", "--bits", "128"].map(String::from).to_vec();
    let o = parse_options(&words);
    assert_eq!((o.store.as_str(), o.use_hash, o.dim, o.bits), ("dir", true, Some(64), 128));
    assert_eq!(check_options(&o).unwrap(), 64);
    let o = parse_options(&["dir", "--bits", "1"].map(String::from).to_vec());
    assert!(check_options(&o).is_err());
}

#[test]
fn payloads_and_uris_are_taken_apart() {
    assert_eq!(record_key("u\u{1f}content"), "u");
    assert_eq!(record_key("plain"), "plain");
    assert_eq!(split_payload("u\u{1f}a b"), ("u".to_string(), "a b".to_string()));
    assert_eq!(region_of("sym:src/db.rs:pool"), "src/db.rs");
    assert_eq!(kind_of("sym:src/db.rs:pool"), "sym");
    assert_eq!(parse_relation("confirms").unwrap(), RelationKind::Confirms);
    assert_eq!(relation_name(RelationKind::SupersededBy), "superseded_by");
    assert!(parse_relation("likes").is_err());
    assert_eq!(parse_sensitivity("restricted").unwrap(), Sensitivity::Restricted);
    assert!(parse_sensitivity("top").is_err());
    assert_eq!(strategy_name(parse_strategy("fast")), strategy_name(parse_strategy("fast")));
}

#[test]
fn generations_are_resolved() {
    assert_eq!(resolve_generation(None, &Args::new()).unwrap(), 1);
    assert_eq!(resolve_generation(Some(4), &Args::new()).unwrap(), 5);
    assert_eq!(resolve_generation(Some(4), &with_number(Args::new(), "generation", 9)).unwrap(), 9);
    assert!(resolve_generation(Some(4), &with_number(Args::new(), "generation", 4)).is_err());
    assert!(resolve_generation(Some(u64::MAX), &Args::new()).is_err());
}

fn remember(mem: &mut ShardedHybrid, a: &Args) -> Result<(), String> {
    let p = plan_remember(a, mem, "hash:16", 16)?;
    mem.remember_with_payload(&p.region, p.record, p.payload.into_bytes(), true)
        .map_err(|e| e.message())
}

#[test]
fn ingest_plans_where_a_text_goes() {
    let mem = ShardedHybrid::new();
    let p = plan_ingest(&args(&[("uri", "sym:src/db.rs:pool"), ("text", "a pool")]), &mem).unwrap();
    assert_eq!(p.region, "src/db.rs");
    assert_eq!(p.payload, "sym:src/db.rs:pool\u{1f}a pool");
    assert!(plan_ingest(&args(&[("uri", "u")]), &mem).is_err());
    assert!(plan_ingest(&args(&[("uri", "u\u{1f}v"), ("text", "t")]), &mem).is_err());
}

#[test]
fn recall_chooses_its_route() {
    assert!(matches!(
        plan_recall(&args(&[("text", "q")])).unwrap().route,
        RecallRoute::Global
    ));
    assert!(matches!(
        plan_recall(&args(&[("text", "q"), ("region", "r")])).unwrap().route,
        RecallRoute::Scoped(_)
    ));
    let a = with_number(args(&[("text", "q"), ("region", "r")]), "now_ms", 5);
    let p = plan_recall(&a).unwrap();
    assert!(matches!(p.route, RecallRoute::Filtered(_)));
    assert_eq!(p.visible_as_of, Some(5));
    assert!(plan_recall(&Args::new()).is_err());
}

#[test]
fn a_clearance_narrows_a_recall_without_a_time() {
    let mut mem = ShardedHybrid::new();
    let a = args(&[("uri", "u"), ("text", "t"), ("region", "r"), ("sensitivity", "restricted")]);
    remember(&mut mem, &a).unwrap();
    let hit = |key: &str| Hit { payload: format!("{key}\u{1f}t"), key: key.to_string(), score: 9 };
    let hits = vec![hit("u"), hit("unrecorded")];

    let asked = args(&[("text", "q"), ("region", "r"), ("clearance", "public")]);
    let RecallRoute::Filtered(filter) = plan_recall(&asked).unwrap().route else {
        panic!("a clearance was passed over");
    };
    assert!(!filter.lifecycle);
    let keys: Vec<String> =
        mem.recall_filtered("r", 5, &hits, &filter).into_iter().map(|h| h.key).collect();
    assert_eq!(keys, vec!["unrecorded"]);

    let asked = args(&[("text", "q"), ("region", "r"), ("clearance", "restricted")]);
    let RecallRoute::Filtered(filter) = plan_recall(&asked).unwrap().route else {
        panic!("a clearance was passed over");
    };
    assert_eq!(mem.recall_filtered("r", 5, &hits, &filter).len(), 2);
    // Without a time nothing is hidden for its lifecycle; with one a deletion is.
    call_tombstone(&args(&[("uri", "u")]), &mut mem).unwrap();
    assert_eq!(mem.recall_filtered("r", 5, &hits, &filter).len(), 2);
    let timed = with_number(asked, "now_ms", 5);
    let RecallRoute::Filtered(filter) = plan_recall(&timed).unwrap().route else {
        panic!("a time was passed over");
    };
    assert_eq!(mem.recall_filtered("r", 5, &hits, &filter).len(), 1);
}

#[test]
fn a_scope_or_a_hop_asks_for_a_region_and_is_followed() {
    for (name, value) in [("tenant", "t"), ("workspace", "w"), ("agent", "a")] {
        let asked = args(&[("text", "q"), ("region", "r"), (name, value)]);
        assert!(matches!(plan_recall(&asked).unwrap().route, RecallRoute::Filtered(_)));
        assert!(plan_recall(&args(&[("text", "q"), (name, value)])).is_err());
    }
    let asked = with_number(args(&[("text", "q"), ("region", "r")]), "hops", 1);
    let p = plan_recall(&asked).unwrap();
    assert!(matches!(p.route, RecallRoute::Related(_, t) if t.hops == 1));
    assert_eq!(p.label, "precise-related");
    let asked = args(&[("text", "q"), ("region", "r"), ("clearance", "top")]);
    assert!(plan_recall(&asked).is_err());
}

#[test]
fn records_are_remembered_hidden_and_purged() {
    let mut mem = ShardedHybrid::new();
    remember(&mut mem, &args(&[("uri", "a"), ("text", "one"), ("region", "r")])).unwrap();
    remember(&mut mem, &args(&[("uri", "b"), ("text", "two"), ("region", "r")])).unwrap();
    assert_eq!(keys_in(&mem, "r"), vec!["a", "b"]);

    let related =
        call_relate(&args(&[("uri", "a"), ("relation", "confirms"), ("target", "b")]), &mut mem).unwrap();
    assert_eq!((related.kind, related.generation), (RelationKind::Confirms, 2));
    assert!(call_relate(&args(&[("uri", "a"), ("relation", "confirms"), ("target", "z")]), &mut mem)
        .is_err());

    assert_eq!(call_tombstone(&args(&[("uri", "a")]), &mut mem).unwrap(), ("a".to_string(), 3));
    assert!(call_tombstone(&args(&[("uri", "z")]), &mut mem).is_err());

    let report = purge(&mut mem, 10, &vec!["r".to_string()], &vec![true]).unwrap();
    assert_eq!((report.removed, report.index_reclaimed), (1, 1));
    assert!(mem.record("a").is_none());
    assert_eq!(keys_in(&mem, "r"), vec!["b"]);
}

#[test]
fn compaction_goes_region_by_region() {
    let mut mem = ShardedHybrid::new();
    remember(&mut mem, &args(&[("uri", "a"), ("text", "one"), ("region", "r")])).unwrap();
    remember(&mut mem, &args(&[("uri", "b"), ("text", "two"), ("region", "s")])).unwrap();
    call_tombstone(&args(&[("uri", "a")]), &mut mem).unwrap();
    let (_, regions) =
        plan_compact(&with_number(args(&[]), "now_ms", 10), &mem).unwrap();
    let reindexed = vec![true; regions.len()];
    let (gone, complete) = compact_regions(&mut mem, &regions, &RecordFilter::at(10), &reindexed);
    assert!(complete);
    assert_eq!(total(&gone), 1);
    assert_eq!(mem.region_keys(), vec!["s"]);
}

#[test]
fn payloads_that_are_no_text_still_have_keys() {
    let mut mem = ShardedHybrid::new();
    mem.insert("r", vec![0xff, 0x1f, b'x'], true).unwrap();
    assert_eq!(keys_in(&mem, "r"), vec!["\u{fffd}"]);
}

fn row(uri: &str, content: &str, score: f32) -> RelatedHit {
    RelatedHit {
        payload: format!("{uri}\u{1f}{content}"),
        key: uri.to_string(),
        score: score.to_bits(),
        hop: 0,
        via_kind: None,
        via_from: None,
    }
}

#[test]
fn sessions_label_what_they_answered() {
    let mut s = Session::new();
    let mut labels = Args::new();
    labels.push("relevant".to_string(), Arg::List(vec![Some("sym:a:1".to_string())]));
    labels.push("irrelevant".to_string(), Arg::List(vec![Some("ghost".to_string())]));
    assert!(s.give_feedback(&labels).is_err());

    let (items, tokens) = s.answer_recall("q", &vec![row("sym:a:1", "two words", 0.5)]);
    assert_eq!((items.len(), items[0].uri.as_str()), (1, "sym:a:1"));
    assert_eq!((items[0].kind.as_str(), items[0].content.as_str()), ("sym", "two words"));
    assert!(tokens > 0);

    let report = s.give_feedback(&labels).unwrap();
    assert_eq!((report.recorded, report.total), (1, 1));
    assert_eq!(report.unknown, vec!["ghost"]);
    assert_eq!((s.feedback_recorded(), s.feedback_relevant()), (1, 1));
}

#[test]
fn explanations_are_of_one_region() {
    let mut mem = ShardedHybrid::new();
    mem.insert("r", b"u".to_vec(), true).unwrap();
    let p = plan_explain(&args(&[("text", "q"), ("region", "r")]), &mem).unwrap();
    assert_eq!(p.region, "r");
    assert!(plan_explain(&args(&[("region", "r")]), &mem).is_err());
}

#[test]
fn no_item_of_a_purged_record_is_left() {
    let mut mem = ShardedHybrid::new();
    for (uri, region) in [("a", "r"), ("b", "r"), ("c", "s"), ("d", "t")] {
        remember(&mut mem, &args(&[("uri", uri), ("text", "words"), ("region", region)])).unwrap();
    }
    for uri in ["a", "c"] {
        call_tombstone(&args(&[("uri", uri)]), &mut mem).unwrap();
    }
    let regions = mem.region_keys();
    let reindexed = vec![true; regions.len()];
    let report = purge(&mut mem, 10, &regions, &reindexed).unwrap();
    assert_eq!((report.removed, report.index_reclaimed), (2, 2));
    let left: Vec<String> = mem.region_keys().iter().flat_map(|r| keys_in(&mem, r)).collect();
    assert_eq!(left, vec!["b", "d"]);
}
