//! The memory kernel over a list of texts, which are found by their words.
use octasoma::feedback::FeedbackSource;
use octasoma::kernel::{conformal_set, MemoryKernel, Scored, MEMORY_TOOL_SCHEMA_JSON};

struct Agent {
    kernel: MemoryKernel,
    memories: Vec<String>,
}

impl Agent {
    fn new() -> Agent {
        Agent { kernel: MemoryKernel::with_defaults(), memories: Vec::new() }
    }

    fn observe(&mut self, text: &str) -> bool {
        let o = self.kernel.observe(text);
        if o.stored {
            self.memories.push(text.to_string());
        }
        o.stored
    }

    /// What shares words with a query, the best first.
    fn found(&self, query: &str, k: usize) -> Vec<Scored> {
        let words: Vec<&str> = query.split(' ').collect();
        let mut all: Vec<(f32, &String)> = self
            .memories
            .iter()
            .map(|m| {
                let shared = m.split(' ').filter(|w| words.contains(w)).count();
                let total = m.split(' ').count().max(words.len());
                (shared as f32 / total as f32, m)
            })
            .collect();
        all.sort_by(|a, b| b.0.total_cmp(&a.0));
        all.into_iter()
            .take(k)
            .map(|(s, m)| Scored {
                memory: m.clone(),
                score: s.to_bits(),
                nonconformity: (1.0 - s as f64).to_bits(),
            })
            .collect()
    }

    fn step(&mut self, input: &str, store: bool) -> octasoma::kernel::MemoryStep {
        let found = self.found(input, self.kernel.config().top_k);
        let stored = store && self.observe(input);
        self.kernel.step(input, &found, stored)
    }
}

#[test]
fn observe_respects_min_length() {
    let mut k = Agent::new();
    assert!(!k.observe("short")); // below 8 chars, skipped
    assert!(k.observe("a sufficiently long observation"));
    assert_eq!(k.memories.len(), 1);
}

#[test]
fn step_recalls_and_optionally_stores() {
    let mut k = Agent::new();
    k.observe("the user prefers dark mode interfaces");
    let step = k.step("the user prefers dark mode interfaces", false);
    assert!(step.context.contains("Relevant memories"));
    assert!(step.context.contains("dark mode"));
    assert!(!step.stored_input);
    assert_eq!(k.memories.len(), 1);

    let step2 = k.step("a brand new durable observation here", true);
    assert!(step2.stored_input);
    assert_eq!(k.memories.len(), 2);
}

#[test]
fn empty_recall_yields_empty_context() {
    let mut k = Agent::new();
    assert_eq!(k.kernel.recall_context("anything", &Vec::new()), "");
}

#[test]
fn context_is_truncated() {
    let mut k = Agent::new();
    k.kernel.config_mut().max_context_chars = 40;
    for i in 0..10 {
        k.observe(&format!("memory number {i} with some padding text"));
    }
    let ctx = k.step("memory number 3 with some padding text", false).context;
    assert!(ctx.len() <= 40);
}

#[test]
fn a_context_is_cut_between_characters() {
    let mut k = Agent::new();
    k.kernel.config_mut().max_context_chars = 26;
    k.observe("éééééééééééééééé");
    let ctx = k.step("éééééééééééééééé", false).context;
    assert!(ctx.len() <= 26);
    assert_eq!(ctx, "## Relevant memories\n- é");
}

#[test]
fn contexts_list_the_memories_on_lines_of_their_own() {
    let mut k = Agent::new();
    k.kernel.config_mut().context_header = "H".to_string();
    k.kernel.config_mut().bullet = "* ".to_string();
    let memories = vec!["one\ntwo".to_string(), "three".to_string()];
    assert_eq!(k.kernel.format_context(&memories), "H\n* one two\n* three\n");
}

#[test]
fn tool_schema_is_present() {
    assert!(MEMORY_TOOL_SCHEMA_JSON.contains("memory_feedback"));
    assert!(MEMORY_TOOL_SCHEMA_JSON.contains("memory_store"));
    assert!(MEMORY_TOOL_SCHEMA_JSON.contains("memory_recall"));
}

#[test]
fn system_prompt_mentions_header() {
    let k = Agent::new();
    assert!(k.kernel.system_prompt().contains("Relevant memories"));
}

/// The rank of the quantile of `n` scores at `alpha`.
fn rank(n: usize, alpha: f64) -> usize {
    (((n + 1) as f64) * (1.0 - alpha)).ceil() as usize
}

#[test]
fn labels_of_candidates_never_make_a_guarantee() {
    let mut k = Agent::new();
    for i in 0..30 {
        k.observe(&format!("durable fact number {i} about subsystem {}", i % 5));
    }
    // No feedback yet: no radius, the fixed count, explicitly unguaranteed.
    let pool = k.kernel.pool();
    let query = "durable fact number 3 about subsystem 3";
    let found = k.found(query, pool);
    let cold = k.kernel.recall_set(query, &found, &Vec::new(), rank(0, 0.2));
    assert!(!cold.guaranteed);
    assert!(cold.radius.is_none());
    assert_eq!(cold.memories.len(), k.kernel.config().top_k);

    for i in 0..6 {
        let q = format!("durable fact number {i} about subsystem {}", i % 5);
        k.step(&q, false);
        assert_eq!(k.kernel.feedback(&[0], &[]), 1);
    }
    assert!(k.kernel.calibration_scores().is_empty());
    assert_eq!(k.kernel.feedback_log().len(), 6);
    // Six labels later there is still no evidence, whatever rank is asked for.
    for r in [0, 1, 6, usize::MAX] {
        let still = k.kernel.recall_set(query, &found, &Vec::new(), r);
        assert!(!still.guaranteed);
        assert_eq!((still.radius, still.calibration_n), (None, 0));
        assert_eq!(still.memories.len(), k.kernel.config().top_k);
    }
}

#[test]
fn independent_targets_calibrate_the_set() {
    let mut k = Agent::new();
    for i in 0..30 {
        k.observe(&format!("durable fact number {i} about subsystem {}", i % 5));
    }
    let found = k.found("durable fact number 4 about subsystem 4", k.kernel.pool());
    // Six targets that were found exactly: the radius is tight, and one memory is in it.
    let exact = vec![0f64.to_bits(); 6];
    let warm = conformal_set(&found, &exact, rank(6, 0.2), 5);
    assert!(warm.guaranteed);
    assert_eq!((warm.radius, warm.calibration_n), (Some(0f64.to_bits()), 6));
    assert_eq!(warm.memories.len(), 1);
    assert!(warm.memories[0].0.contains("number 4"));
    // Too few targets for the coverage that is asked for.
    let few = conformal_set(&found, &exact, rank(6, 0.01), 5);
    assert!(!few.guaranteed);
    assert_eq!((few.radius, few.memories.len()), (None, 5));
    // A radius that takes everything found may have been cut by the pool.
    let wide = conformal_set(&found, &vec![2f64.to_bits(); 6], rank(6, 0.2), 5);
    assert!(!wide.guaranteed);
    assert_eq!(wide.memories.len(), found.len());
}

#[test]
fn feedback_is_of_the_last_recall() {
    let mut k = Agent::new();
    // No prior recall: nothing is labelled.
    assert_eq!(k.kernel.feedback(&[0], &[]), 0);

    k.observe("the database timeout is thirty seconds");
    k.observe("the cache eviction policy is LRU");
    let step = k.step("the database timeout is thirty seconds", false);
    assert!(!step.retrieved.is_empty());

    // Index 0 is relevant, the one out of range is ignored.
    let n = k.kernel.feedback(&[0, 99], &[1]);
    assert_eq!(n, 2);
    let log = k.kernel.feedback_log();
    assert_eq!(log.len(), 2);
    let e = &log.entries()[0];
    assert!(e.relevant);
    assert_eq!(e.query, "the database timeout is thirty seconds");
    assert_eq!(e.memory, step.retrieved[0]);
    assert_eq!(e.score, 1f32.to_bits());
    assert_eq!(e.source, FeedbackSource::RetrievedCandidate);
    assert!(!log.entries()[1].relevant);
}

#[test]
fn observations_are_saved_when_enough_are_new() {
    let mut k = MemoryKernel::with_defaults();
    k.config_mut().autosave_path = Some("memory.frac".to_string());
    k.config_mut().autosave_every = 2;
    assert_eq!(k.observe("a first observation").save_to, None);
    assert_eq!(k.observe("short").save_to, None);
    assert_eq!(k.observe("a second observation").save_to, Some("memory.frac".to_string()));
    k.saved();
    assert_eq!(k.observe("a third observation").save_to, None);
}
