//! The command line, and the plan of a matrix product.
use octasoma::cli::{
    asks_for_help, cannot_open, embed_err, embedding_length, exported, may_create, no_store,
    parse_cli, plan, print_recall, print_reflection, print_stats, remembered, Command, USAGE,
};
use octasoma::embed::EmbedError;
use octasoma::gemm::plan_gemm;

fn words(s: &str) -> Vec<String> {
    s.split(' ').filter(|w| !w.is_empty()).map(str::to_string).collect()
}

#[test]
fn options_are_read_from_the_words() {
    let o = parse_cli(&words("recall what is new --store s.frac --hash --dim 64 -k 3"), None)
        .unwrap();
    assert_eq!(o.command, "recall");
    assert_eq!(o.positionals, vec!["what", "is", "new"]);
    assert_eq!(o.store, "s.frac");
    assert!(o.use_hash);
    assert_eq!(o.dim, Some(64));
    assert_eq!(o.k, 3);
    assert_eq!(embedding_length(&o), 64);
}

#[test]
fn options_have_defaults() {
    let o = parse_cli(&words("stats"), None).unwrap();
    assert_eq!(o.store, "octasoma.frac");
    assert_eq!(o.url, "http://localhost:11434");
    assert_eq!(o.model, "nomic-embed-text");
    assert_eq!(embedding_length(&o), 768);
    let o = parse_cli(&words("stats --hash"), Some("env.frac".to_string())).unwrap();
    assert_eq!(o.store, "env.frac");
    assert_eq!(embedding_length(&o), 256);
    assert!(parse_cli(&words("stats --store"), None).is_err());
    assert!(parse_cli(&words("stats --dim x"), None).is_err());
    // What is no option is a word like any other.
    assert_eq!(parse_cli(&words("stats --nonsense"), None).unwrap().positionals, vec!["--nonsense"]);
}

#[test]
fn help_is_for_those_who_ask() {
    assert!(asks_for_help(&Vec::new()));
    assert!(asks_for_help(&words("--help")));
    assert!(!asks_for_help(&words("stats")));
    assert!(USAGE.contains("remember <text>"));
}

#[test]
fn commands_are_planned() {
    assert!(matches!(plan("remember", "x"), Ok(Command::Remember)));
    assert!(matches!(plan("stats", ""), Ok(Command::Stats)));
    assert!(plan("remember", "").is_err());
    assert!(plan("dance", "x").is_err());
    assert!(may_create(Command::Remember));
    assert!(!may_create(Command::Recall));
}

#[test]
fn answers_are_worded() {
    assert!(no_store("s.frac").contains("s.frac"));
    assert!(cannot_open("s.frac", "broken").contains("broken"));
    assert!(remembered(3, "s.frac").contains('3'));
    assert!(exported(2, "out.json").contains("out.json"));
    assert!(embed_err(&EmbedError::Protocol("no vector".to_string())).contains("no vector"));
    let hits = vec!["a".to_string(), "b".to_string()];
    assert_eq!(print_recall(&hits).len(), 2);
    assert!(print_reflection(&hits).contains("b"));
    let stats = print_stats("s.frac", 1, 2, 3, 4);
    assert!(stats.contains("s.frac"));
}

#[test]
fn products_are_planned_in_groups() {
    let p = plan_gemm(6, 6, 2, 3, 2, false).unwrap().unwrap();
    assert_eq!((p.groups_x, p.groups_y, p.bytes), (1, 1, 16));
    let p = plan_gemm(17 * 4, 4 * 9, 17, 4, 9, true).unwrap().unwrap();
    assert_eq!((p.groups_x, p.groups_y), (3, 2));
    // Nothing is computed for an empty product, and shapes must fit.
    assert!(plan_gemm(0, 0, 0, 3, 2, false).unwrap().is_none());
    assert!(plan_gemm(5, 6, 2, 3, 2, false).is_err());
    assert!(plan_gemm(6, 5, 2, 3, 2, false).is_err());
}
