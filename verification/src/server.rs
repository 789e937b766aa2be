//! The server: its tools and what each takes, the methods that it answers, what it does with
//! a line of input, and the options it is started with.
use crate::mcp;
use crate::mcp::{
    InputLine, MAX_BITS, MAX_DIM, MAX_EXPANDED, MAX_FEEDBACK_URIS, MAX_HOPS, MAX_K, MAX_QUERY_BYTES,
    MAX_REGION_BYTES, MAX_REQUEST_BYTES, MAX_SCOPE_BYTES, MAX_STRATEGY_BYTES, MAX_TEXT_BYTES,
    MAX_URI_BYTES, MIN_BITS,
};
use crate::text;
use crate::text::push_decimal;
use vstd::prelude::*;

verus! {

/// The words that an argument may be.
#[derive(Clone, Copy, Debug, PartialEq, Eq, Structural)]
pub enum Vocabulary {
    /// Any text.
    Any,
    /// The strategies of a recall.
    Strategies,
    /// The classifications.
    Sensitivities,
    /// The kinds of an evidence edge.
    Relations,
}

impl Vocabulary {
    /// The words; for any text there are none.
    pub open spec fn lists(self) -> Seq<&'static str> {
        match self {
            Vocabulary::Any => Seq::empty(),
            Vocabulary::Strategies => seq!["precise", "fast", "spatial", "cascade", "hybrid"],
            Vocabulary::Sensitivities => seq!["public", "internal", "confidential", "restricted"],
            Vocabulary::Relations => seq!["confirms", "contradicts", "supersedes", "superseded_by"],
        }
    }

    /// The words; for any text there are none.
    pub fn words(self) -> (v: Vec<&'static str>)
        ensures
            v@ == self.lists(),
    {
        let v: Vec<&'static str> = match self {
            Vocabulary::Any => Vec::new(),
            Vocabulary::Strategies => vec!["precise", "fast", "spatial", "cascade", "hybrid"],
            Vocabulary::Sensitivities => vec!["public", "internal", "confidential", "restricted"],
            Vocabulary::Relations => vec!["confirms", "contradicts", "supersedes", "superseded_by"],
        };
        proof {
            assert(v@ =~= self.lists());
        }
        v
    }
}

/// What an argument may be.
#[derive(Clone, Copy, Debug)]
pub enum Shape {
    /// A text of so many bytes.
    Text {
        /// The fewest.
        min: usize,
        /// The most; zero where its words bound it.
        max: usize,
        /// The words that it may be.
        words: Vocabulary,
        /// What stands for a missing one; empty for none.
        fallback: &'static str,
    },
    /// A number from a range.
    Count {
        /// The least.
        min: usize,
        /// The greatest.
        max: usize,
        /// What stands for a missing one.
        default: usize,
    },
    /// A number that is not less than another.
    Number {
        /// The least.
        least: u64,
    },
    /// A list of uris.
    Uris {
        /// The most uris.
        items: usize,
        /// The most bytes of each.
        max: usize,
    },
}

/// An argument of a tool.
#[derive(Clone, Copy, Debug)]
pub struct Property {
    /// Its name.
    pub name: &'static str,
    /// What it may be.
    pub shape: Shape,
    /// What it is for; empty where its name says it.
    pub description: &'static str,
}

/// An argument that is a text.
pub open spec fn spec_text_property(
    name: &'static str,
    min: usize,
    max: usize,
    fallback: &'static str,
    description: &'static str,
) -> Property {
    Property { name, shape: Shape::Text { min, max, words: Vocabulary::Any, fallback }, description }
}

fn text_property(
    name: &'static str,
    min: usize,
    max: usize,
    fallback: &'static str,
    description: &'static str,
) -> (p: Property)
    ensures
        p == spec_text_property(name, min, max, fallback, description),
{
    Property { name, shape: Shape::Text { min, max, words: Vocabulary::Any, fallback }, description }
}

/// An argument that is one of some words.
pub open spec fn spec_word_property(
    name: &'static str,
    words: Vocabulary,
    max: usize,
    fallback: &'static str,
    description: &'static str,
) -> Property {
    Property { name, shape: Shape::Text { min: 0, max, words, fallback }, description }
}

fn word_property(
    name: &'static str,
    words: Vocabulary,
    max: usize,
    fallback: &'static str,
    description: &'static str,
) -> (p: Property)
    ensures
        p == spec_word_property(name, words, max, fallback, description),
{
    Property { name, shape: Shape::Text { min: 0, max, words, fallback }, description }
}

/// An argument that is a number from a range.
pub open spec fn spec_count_property(
    name: &'static str,
    min: usize,
    max: usize,
    default: usize,
    description: &'static str,
) -> Property {
    Property { name, shape: Shape::Count { min, max, default }, description }
}

fn count_property(
    name: &'static str,
    min: usize,
    max: usize,
    default: usize,
    description: &'static str,
) -> (p: Property)
    ensures
        p == spec_count_property(name, min, max, default, description),
{
    Property { name, shape: Shape::Count { min, max, default }, description }
}

/// An argument that is a number.
pub open spec fn spec_number_property(
    name: &'static str,
    least: u64,
    description: &'static str,
) -> Property {
    Property { name, shape: Shape::Number { least }, description }
}

fn number_property(name: &'static str, least: u64, description: &'static str) -> (p: Property)
    ensures
        p == spec_number_property(name, least, description),
{
    Property { name, shape: Shape::Number { least }, description }
}

/// An argument that is a list of uris.
pub open spec fn spec_uri_list(name: &'static str) -> Property {
    Property {
        name,
        shape: Shape::Uris { items: MAX_FEEDBACK_URIS, max: MAX_URI_BYTES },
        description: "",
    }
}

fn uri_list(name: &'static str) -> (p: Property)
    ensures
        p == spec_uri_list(name),
{
    Property {
        name,
        shape: Shape::Uris { items: MAX_FEEDBACK_URIS, max: MAX_URI_BYTES },
        description: "",
    }
}

/// A tool of the server.
#[derive(Clone, Copy, Debug, PartialEq, Eq, Structural)]
pub enum Tool {
    /// Stores a text.
    Ingest,
    /// Finds what is nearest to a text.
    Recall,
    /// Shows why a recall finds what it finds.
    Explain,
    /// Counts what is stored.
    Stats,
    /// Stores a text with a record.
    Remember,
    /// Deletes a record logically.
    Tombstone,
    /// Adds an evidence edge.
    Relate,
    /// Removes what is dead for good.
    Purge,
    /// Drops what no recall can return.
    Compact,
    /// Labels what the last recall returned.
    Feedback,
}

impl Tool {
    /// The name by which it is called.
    pub open spec fn word(self) -> Seq<char> {
        match self {
            Tool::Ingest => "ingest"@,
            Tool::Recall => "recall"@,
            Tool::Explain => "explain"@,
            Tool::Stats => "stats"@,
            Tool::Remember => "remember"@,
            Tool::Tombstone => "tombstone"@,
            Tool::Relate => "relate"@,
            Tool::Purge => "purge"@,
            Tool::Compact => "compact"@,
            Tool::Feedback => "feedback"@,
        }
    }

    /// The name by which it is called.
    pub fn name(self) -> (s: &'static str)
        ensures
            s@ == self.word(),
    {
        match self {
            Tool::Ingest => "ingest",
            Tool::Recall => "recall",
            Tool::Explain => "explain",
            Tool::Stats => "stats",
            Tool::Remember => "remember",
            Tool::Tombstone => "tombstone",
            Tool::Relate => "relate",
            Tool::Purge => "purge",
            Tool::Compact => "compact",
            Tool::Feedback => "feedback",
        }
    }

    /// What it does, for people.
    pub open spec fn about(self) -> Seq<char> {
        match self {
            Tool::Ingest => "Embed `text` and store it as a semantic memory under `uri`, in causal region `region` (optional; derived from a CCOS-style uri when omitted)."@,
            Tool::Recall => "Precise semantic recall nearest `text` (SimHash shortlist → exact cosine rerank). With `region` it is scoped; without, a cosine-merged recall across regions."@,
            Tool::Explain => "Explain a recall within `region`: query position, zoom path, and nearest memories."@,
            Tool::Stats => "Memory statistics: total memories, region count, region keys, record-layer size, and feedback counters."@,
            Tool::Remember => "Embed `text` and store it as a memory with a full logical record: tenant/workspace/agent scope, sensitivity, TTL (`expires_at_ms`) and retention floor (`retain_until_ms`). Lifecycle-aware recall sees it via `now_ms`; `tombstone`/`purge`/`compact` retire it."@,
            Tool::Tombstone => "Logical delete: mark the record for `uri` tombstoned. Subsequent lifecycle-aware recalls stop returning it; physical reclamation is `compact`'s job."@,
            Tool::Relate => "Add an evidence edge between two records: uri --relation--> target (confirms, contradicts, supersedes, superseded_by). Lifecycle-aware recall with `hops` traverses these edges within the caller's filter."@,
            Tool::Purge => "Irreversibly remove records that are inactive and past their retention floor as of `now_ms`. Compacts every region first, so hidden index entries are reclaimed while the record layer can still identify them."@,
            Tool::Compact => "Rebuild region index(es) keeping only what a recall under the same filter could return at `now_ms` (lifecycle + optional tenant/workspace/agent scoping and clearance), reclaiming hidden entries. Empty `region` compacts every region. The filter must mirror your recalls — dropping an entry a legal query could still return is data loss."@,
            Tool::Feedback => "Label memories from the last recall as relevant or irrelevant."@,
        }
    }

    /// What it does, for people.
    pub fn description(self) -> (s: &'static str)
        ensures
            s@ == self.about(),
    {
        match self {
            Tool::Ingest => "Embed `text` and store it as a semantic memory under `uri`, in causal region `region` (optional; derived from a CCOS-style uri when omitted).",
            Tool::Recall => "Precise semantic recall nearest `text` (SimHash shortlist → exact cosine rerank). With `region` it is scoped; without, a cosine-merged recall across regions.",
            Tool::Explain => "Explain a recall within `region`: query position, zoom path, and nearest memories.",
            Tool::Stats => "Memory statistics: total memories, region count, region keys, record-layer size, and feedback counters.",
            Tool::Remember => "Embed `text` and store it as a memory with a full logical record: tenant/workspace/agent scope, sensitivity, TTL (`expires_at_ms`) and retention floor (`retain_until_ms`). Lifecycle-aware recall sees it via `now_ms`; `tombstone`/`purge`/`compact` retire it.",
            Tool::Tombstone => "Logical delete: mark the record for `uri` tombstoned. Subsequent lifecycle-aware recalls stop returning it; physical reclamation is `compact`'s job.",
            Tool::Relate => "Add an evidence edge between two records: uri --relation--> target (confirms, contradicts, supersedes, superseded_by). Lifecycle-aware recall with `hops` traverses these edges within the caller's filter.",
            Tool::Purge => "Irreversibly remove records that are inactive and past their retention floor as of `now_ms`. Compacts every region first, so hidden index entries are reclaimed while the record layer can still identify them.",
            Tool::Compact => "Rebuild region index(es) keeping only what a recall under the same filter could return at `now_ms` (lifecycle + optional tenant/workspace/agent scoping and clearance), reclaiming hidden entries. Empty `region` compacts every region. The filter must mirror your recalls — dropping an entry a legal query could still return is data loss.",
            Tool::Feedback => "Label memories from the last recall as relevant or irrelevant.",
        }
    }

    /// The arguments that it takes, in the order of their names.
    pub open spec fn takes(self) -> Seq<Property> {
        match self {
            Tool::Ingest => seq![
                spec_text_property("region", 0, MAX_REGION_BYTES, "", ""),
                spec_text_property("text", 1, MAX_TEXT_BYTES, "", ""),
                spec_text_property("uri", 0, MAX_URI_BYTES, "", ""),
            ],
            Tool::Recall => seq![
                spec_text_property("agent", 0, MAX_SCOPE_BYTES, "", ""),
                spec_word_property("clearance", Vocabulary::Sensitivities, 0, "", "Hide records classified strictly above this level (default: restricted = see all)."),
                spec_count_property("hops", 0, MAX_HOPS, 0, "Follow relation edges (confirms/contradicts/supersedes) from direct hits this many BFS levels. Requires `region` and respects the same filter; expanded items carry `via` metadata and their parent's score."),
                spec_count_property("k", 1, MAX_K, 5, ""),
                spec_count_property("max_expanded", 1, MAX_EXPANDED, 8, ""),
                spec_number_property("now_ms", 0, "Lifecycle-aware recall: drop tombstoned/superseded/TTL-expired records as of this unix-ms timestamp. Requires `region`."),
                spec_text_property("region", 0, MAX_REGION_BYTES, "", ""),
                spec_word_property("strategy", Vocabulary::Strategies, MAX_STRATEGY_BYTES, "", ""),
                spec_text_property("tenant", 0, MAX_SCOPE_BYTES, "", ""),
                spec_text_property("text", 1, MAX_QUERY_BYTES, "", ""),
                spec_text_property("workspace", 0, MAX_SCOPE_BYTES, "", ""),
            ],
            Tool::Explain => seq![
                spec_count_property("k", 1, MAX_K, 5, ""),
                spec_text_property("region", 0, MAX_REGION_BYTES, "", ""),
                spec_text_property("text", 1, MAX_QUERY_BYTES, "", ""),
            ],
            Tool::Stats => Seq::empty(),
            Tool::Remember => seq![
                spec_text_property("agent", 0, MAX_SCOPE_BYTES, "default", ""),
                spec_number_property("created_at_ms", 0, ""),
                spec_number_property("expires_at_ms", 0, ""),
                spec_number_property("generation", 1, "Must strictly exceed the stored generation for this uri (default: current + 1)."),
                spec_text_property("region", 0, MAX_REGION_BYTES, "", ""),
                spec_number_property("retain_until_ms", 0, ""),
                spec_word_property("sensitivity", Vocabulary::Sensitivities, 0, "internal", ""),
                spec_text_property("source", 0, MAX_SCOPE_BYTES, "octasoma-mcp", ""),
                spec_text_property("source_record", 0, MAX_URI_BYTES, "", ""),
                spec_text_property("tenant", 0, MAX_SCOPE_BYTES, "default", ""),
                spec_text_property("text", 1, MAX_TEXT_BYTES, "", ""),
                spec_text_property("uri", 0, MAX_URI_BYTES, "", ""),
                spec_text_property("workspace", 0, MAX_SCOPE_BYTES, "default", ""),
            ],
            Tool::Tombstone => seq![
                spec_number_property("generation", 1, "Must strictly exceed the stored generation (default: current + 1)."),
                spec_text_property("uri", 0, MAX_URI_BYTES, "", ""),
            ],
            Tool::Relate => seq![
                spec_number_property("generation", 1, "Must strictly exceed the stored generation (default: current + 1)."),
                spec_word_property("relation", Vocabulary::Relations, 0, "", ""),
                spec_text_property("target", 0, MAX_URI_BYTES, "", ""),
                spec_text_property("uri", 0, MAX_URI_BYTES, "", ""),
            ],
            Tool::Purge => seq![
                spec_number_property("now_ms", 0, ""),
            ],
            Tool::Compact => seq![
                spec_text_property("agent", 0, MAX_SCOPE_BYTES, "", ""),
                spec_word_property("clearance", Vocabulary::Sensitivities, 0, "", ""),
                spec_number_property("now_ms", 0, ""),
                spec_text_property("region", 0, MAX_REGION_BYTES, "", ""),
                spec_text_property("tenant", 0, MAX_SCOPE_BYTES, "", ""),
                spec_text_property("workspace", 0, MAX_SCOPE_BYTES, "", ""),
            ],
            Tool::Feedback => seq![
                spec_uri_list("irrelevant"),
                spec_uri_list("relevant"),
            ],
        }
    }

    /// The arguments that it takes, in the order of their names.
    pub fn properties(self) -> (v: Vec<Property>)
        ensures
            v@ == self.takes(),
    {
        let v = match self {
            Tool::Ingest => vec![
                text_property("region", 0, MAX_REGION_BYTES, "", ""),
                text_property("text", 1, MAX_TEXT_BYTES, "", ""),
                text_property("uri", 0, MAX_URI_BYTES, "", ""),
            ],
            Tool::Recall => vec![
                text_property("agent", 0, MAX_SCOPE_BYTES, "", ""),
                word_property("clearance", Vocabulary::Sensitivities, 0, "", "Hide records classified strictly above this level (default: restricted = see all)."),
                count_property("hops", 0, MAX_HOPS, 0, "Follow relation edges (confirms/contradicts/supersedes) from direct hits this many BFS levels. Requires `region` and respects the same filter; expanded items carry `via` metadata and their parent's score."),
                count_property("k", 1, MAX_K, 5, ""),
                count_property("max_expanded", 1, MAX_EXPANDED, 8, ""),
                number_property("now_ms", 0, "Lifecycle-aware recall: drop tombstoned/superseded/TTL-expired records as of this unix-ms timestamp. Requires `region`."),
                text_property("region", 0, MAX_REGION_BYTES, "", ""),
                word_property("strategy", Vocabulary::Strategies, MAX_STRATEGY_BYTES, "", ""),
                text_property("tenant", 0, MAX_SCOPE_BYTES, "", ""),
                text_property("text", 1, MAX_QUERY_BYTES, "", ""),
                text_property("workspace", 0, MAX_SCOPE_BYTES, "", ""),
            ],
            Tool::Explain => vec![
                count_property("k", 1, MAX_K, 5, ""),
                text_property("region", 0, MAX_REGION_BYTES, "", ""),
                text_property("text", 1, MAX_QUERY_BYTES, "", ""),
            ],
            Tool::Stats => Vec::new(),
            Tool::Remember => vec![
                text_property("agent", 0, MAX_SCOPE_BYTES, "default", ""),
                number_property("created_at_ms", 0, ""),
                number_property("expires_at_ms", 0, ""),
                number_property("generation", 1, "Must strictly exceed the stored generation for this uri (default: current + 1)."),
                text_property("region", 0, MAX_REGION_BYTES, "", ""),
                number_property("retain_until_ms", 0, ""),
                word_property("sensitivity", Vocabulary::Sensitivities, 0, "internal", ""),
                text_property("source", 0, MAX_SCOPE_BYTES, "octasoma-mcp", ""),
                text_property("source_record", 0, MAX_URI_BYTES, "", ""),
                text_property("tenant", 0, MAX_SCOPE_BYTES, "default", ""),
                text_property("text", 1, MAX_TEXT_BYTES, "", ""),
                text_property("uri", 0, MAX_URI_BYTES, "", ""),
                text_property("workspace", 0, MAX_SCOPE_BYTES, "default", ""),
            ],
            Tool::Tombstone => vec![
                number_property("generation", 1, "Must strictly exceed the stored generation (default: current + 1)."),
                text_property("uri", 0, MAX_URI_BYTES, "", ""),
            ],
            Tool::Relate => vec![
                number_property("generation", 1, "Must strictly exceed the stored generation (default: current + 1)."),
                word_property("relation", Vocabulary::Relations, 0, "", ""),
                text_property("target", 0, MAX_URI_BYTES, "", ""),
                text_property("uri", 0, MAX_URI_BYTES, "", ""),
            ],
            Tool::Purge => vec![
                number_property("now_ms", 0, ""),
            ],
            Tool::Compact => vec![
                text_property("agent", 0, MAX_SCOPE_BYTES, "", ""),
                word_property("clearance", Vocabulary::Sensitivities, 0, "", ""),
                number_property("now_ms", 0, ""),
                text_property("region", 0, MAX_REGION_BYTES, "", ""),
                text_property("tenant", 0, MAX_SCOPE_BYTES, "", ""),
                text_property("workspace", 0, MAX_SCOPE_BYTES, "", ""),
            ],
            Tool::Feedback => vec![
                uri_list("irrelevant"),
                uri_list("relevant"),
            ],
        };
        proof {
            assert(v@ =~= self.takes());
        }
        v
    }

    /// The arguments without which it does nothing.
    pub open spec fn needs(self) -> Seq<&'static str> {
        match self {
            Tool::Ingest | Tool::Recall | Tool::Explain => seq!["text"],
            Tool::Stats | Tool::Feedback => Seq::empty(),
            Tool::Remember => seq!["uri", "text"],
            Tool::Tombstone => seq!["uri"],
            Tool::Relate => seq!["uri", "target", "relation"],
            Tool::Purge | Tool::Compact => seq!["now_ms"],
        }
    }

    /// The arguments without which it does nothing.
    pub fn required(self) -> (v: Vec<&'static str>)
        ensures
            v@ == self.needs(),
    {
        let v: Vec<&'static str> = match self {
            Tool::Ingest | Tool::Recall | Tool::Explain => vec!["text"],
            Tool::Stats | Tool::Feedback => Vec::new(),
            Tool::Remember => vec!["uri", "text"],
            Tool::Tombstone => vec!["uri"],
            Tool::Relate => vec!["uri", "target", "relation"],
            Tool::Purge | Tool::Compact => vec!["now_ms"],
        };
        proof {
            assert(v@ =~= self.needs());
        }
        v
    }
}

/// Every tool, in the order in which the server lists them.
pub open spec fn every_tool() -> Seq<Tool> {
    seq![
        Tool::Ingest,
        Tool::Recall,
        Tool::Explain,
        Tool::Stats,
        Tool::Remember,
        Tool::Tombstone,
        Tool::Relate,
        Tool::Purge,
        Tool::Compact,
        Tool::Feedback,
    ]
}

/// Every tool, in the order in which the server lists them.
pub fn tool_list() -> (v: Vec<Tool>)
    ensures
        v@ == every_tool(),
{
    let v = vec![
        Tool::Ingest,
        Tool::Recall,
        Tool::Explain,
        Tool::Stats,
        Tool::Remember,
        Tool::Tombstone,
        Tool::Relate,
        Tool::Purge,
        Tool::Compact,
        Tool::Feedback,
    ];
    proof {
        assert(v@ =~= every_tool());
    }
    v
}

/// The tool of a name, or what is said where there is none.
pub open spec fn tool_of(name: Seq<char>) -> Result<Tool, Seq<char>> {
    if name == "ingest"@ {
        Ok(Tool::Ingest)
    } else if name == "recall"@ {
        Ok(Tool::Recall)
    } else if name == "explain"@ {
        Ok(Tool::Explain)
    } else if name == "stats"@ {
        Ok(Tool::Stats)
    } else if name == "remember"@ {
        Ok(Tool::Remember)
    } else if name == "tombstone"@ {
        Ok(Tool::Tombstone)
    } else if name == "relate"@ {
        Ok(Tool::Relate)
    } else if name == "purge"@ {
        Ok(Tool::Purge)
    } else if name == "compact"@ {
        Ok(Tool::Compact)
    } else if name == "feedback"@ {
        Ok(Tool::Feedback)
    } else {
        Err("unknown tool '"@ + name + "'"@)
    }
}

/// The tool of a name.
pub fn tool_named(name: &str) -> (r: Result<Tool, String>)
    ensures
        match r {
            Ok(t) => tool_of(name@) == Ok::<_, Seq<char>>(t) && t.word() == name@,
            Err(m) => {
                &&& forall|t: Tool| #[trigger] t.word() != name@
                &&& tool_of(name@) == Err::<Tool, _>(m@)
            },
        },
{
    if text::text_equal(name, "ingest") {
        return Ok(Tool::Ingest);
    }
    if text::text_equal(name, "recall") {
        return Ok(Tool::Recall);
    }
    if text::text_equal(name, "explain") {
        return Ok(Tool::Explain);
    }
    if text::text_equal(name, "stats") {
        return Ok(Tool::Stats);
    }
    if text::text_equal(name, "remember") {
        return Ok(Tool::Remember);
    }
    if text::text_equal(name, "tombstone") {
        return Ok(Tool::Tombstone);
    }
    if text::text_equal(name, "relate") {
        return Ok(Tool::Relate);
    }
    if text::text_equal(name, "purge") {
        return Ok(Tool::Purge);
    }
    if text::text_equal(name, "compact") {
        return Ok(Tool::Compact);
    }
    if text::text_equal(name, "feedback") {
        return Ok(Tool::Feedback);
    }
    let mut m = "unknown tool '".to_owned();
    m.append(name);
    m.append("'");
    proof {
        assert forall|t: Tool| #[trigger] t.word() != name@ by {
            assert(every_tool().contains(t)) by {
                lemma_every(t);
            }
        }
    }
    Err(m)
}

proof fn lemma_every(t: Tool)
    ensures
        every_tool().contains(t),
{
    let i: int = match t {
        Tool::Ingest => 0,
        Tool::Recall => 1,
        Tool::Explain => 2,
        Tool::Stats => 3,
        Tool::Remember => 4,
        Tool::Tombstone => 5,
        Tool::Relate => 6,
        Tool::Purge => 7,
        Tool::Compact => 8,
        Tool::Feedback => 9,
    };
    assert(every_tool()[i] == t);
}

/// The arguments of a tool have that name.
pub open spec fn has_property(t: Tool, name: &'static str) -> bool {
    exists|i: int| 0 <= i < t.takes().len() && (#[trigger] t.takes()[i]).name == name
}

/// What a tool needs is among what it takes.
pub proof fn law_what_is_needed_is_taken(t: Tool, i: int)
    requires
        0 <= i < t.needs().len(),
    ensures
        has_property(t, t.needs()[i]),
{
    let place: int = match t {
        Tool::Ingest | Tool::Tombstone => 1,
        Tool::Recall => 9,
        Tool::Explain | Tool::Compact => 2,
        Tool::Remember => 11 - i,
        Tool::Relate => 3 - i,
        _ => 0,
    };
    assert(t.takes()[place].name == t.needs()[i]);
}

proof fn lemma_initials(t: Tool)
    ensures
        t.word().len() > 2,
        (t.word()[0], t.word()[2]) == (match t {
            Tool::Ingest => ('i', 'g'),
            Tool::Recall => ('r', 'c'),
            Tool::Explain => ('e', 'p'),
            Tool::Stats => ('s', 'a'),
            Tool::Remember => ('r', 'm'),
            Tool::Tombstone => ('t', 'm'),
            Tool::Relate => ('r', 'l'),
            Tool::Purge => ('p', 'r'),
            Tool::Compact => ('c', 'm'),
            Tool::Feedback => ('f', 'e'),
        }),
{
    reveal_strlit("ingest");
    reveal_strlit("recall");
    reveal_strlit("explain");
    reveal_strlit("stats");
    reveal_strlit("remember");
    reveal_strlit("tombstone");
    reveal_strlit("relate");
    reveal_strlit("purge");
    reveal_strlit("compact");
    reveal_strlit("feedback");
}

/// No two tools have the same name.
pub proof fn law_tool_names_differ(a: Tool, b: Tool)
    requires
        a.word() == b.word(),
    ensures
        a == b,
{
    lemma_initials(a);
    lemma_initials(b);
}

/// The words that the tools list are understood.
pub proof fn law_listed_words_are_understood(v: Vocabulary, i: int)
    requires
        0 <= i < v.lists().len(),
    ensures
        v is Sensitivities ==> mcp::sensitivity_of(v.lists()[i]@) is Ok,
        v is Relations ==> mcp::relation_of(v.lists()[i]@) is Ok,
{
}

/// What the server does with a request.
#[derive(Clone, Copy, Debug, PartialEq, Eq, Structural)]
pub enum Action {
    /// It says what it is.
    Initialize,
    /// It says nothing.
    Ignore,
    /// It answers with an empty result.
    Pong,
    /// It lists its tools.
    ListTools,
    /// It calls a tool.
    CallTool,
    /// It says that there is no such method.
    NotFound,
}

/// What the server does with a request of a method.
pub open spec fn action_of(method: Seq<char>, has_id: bool) -> Action {
    if method == "initialize"@ {
        Action::Initialize
    } else if method == "notifications/initialized"@ || method == "initialized"@ {
        Action::Ignore
    } else if method == "ping"@ {
        Action::Pong
    } else if method == "tools/list"@ {
        Action::ListTools
    } else if method == "tools/call"@ {
        Action::CallTool
    } else if has_id {
        Action::NotFound
    } else {
        Action::Ignore
    }
}

/// What the server does with a request of a method: an unknown one is answered only where
/// the request has an id.
pub fn route(method: &str, has_id: bool) -> (a: Action)
    ensures
        a == action_of(method@, has_id),
{
    if text::text_equal(method, "initialize") {
        Action::Initialize
    } else if text::text_equal(method, "notifications/initialized") || text::text_equal(
        method,
        "initialized",
    ) {
        Action::Ignore
    } else if text::text_equal(method, "ping") {
        Action::Pong
    } else if text::text_equal(method, "tools/list") {
        Action::ListTools
    } else if text::text_equal(method, "tools/call") {
        Action::CallTool
    } else if has_id {
        Action::NotFound
    } else {
        Action::Ignore
    }
}

/// What the server does with a line.
#[derive(Debug)]
pub enum LineAction {
    /// It stops.
    Stop,
    /// It goes on.
    Skip,
    /// It answers with an error.
    Refuse(i64, String),
    /// It handles a request.
    Handle(String),
}

/// What the server does with a line, as a value.
pub enum LineActionView {
    Stop,
    Skip,
    Refuse(int, Seq<char>),
    Handle(Seq<char>),
}

impl View for LineAction {
    type V = LineActionView;

    open spec fn view(&self) -> LineActionView {
        match self {
            LineAction::Stop => LineActionView::Stop,
            LineAction::Skip => LineActionView::Skip,
            LineAction::Refuse(code, m) => LineActionView::Refuse(*code as int, m@),
            LineAction::Handle(s) => LineActionView::Handle(s@),
        }
    }
}

/// What the server does with a line, as a value.
pub open spec fn line_step(line: mcp::LineView) -> LineActionView {
    match line {
        mcp::LineView::Eof => LineActionView::Stop,
        mcp::LineView::TooLong => LineActionView::Refuse(
            -32600,
            "request exceeds the "@ + text::decimal(MAX_REQUEST_BYTES as nat) + "-byte limit"@,
        ),
        mcp::LineView::InvalidUtf8 => LineActionView::Refuse(
            -32700,
            "parse error: invalid UTF-8"@,
        ),
        mcp::LineView::Line(s) => if text::blank(s) {
            LineActionView::Skip
        } else {
            LineActionView::Handle(s)
        },
    }
}

/// What the server does with a line.
pub fn line_action(line: InputLine) -> (a: LineAction)
    ensures
        a@ == line_step(line@),
{
    match line {
        InputLine::Eof => LineAction::Stop,
        InputLine::TooLong => {
            let mut m = "request exceeds the ".to_owned();
            push_decimal(&mut m, MAX_REQUEST_BYTES as u128);
            m.append("-byte limit");
            LineAction::Refuse(-32600, m)
        },
        InputLine::InvalidUtf8 => LineAction::Refuse(
            -32700,
            "parse error: invalid UTF-8".to_owned(),
        ),
        InputLine::Line(s) => if text::is_blank(s.as_str()) {
            LineAction::Skip
        } else {
            LineAction::Handle(s)
        },
    }
}

/// The options of the server.
#[derive(Debug)]
pub struct ServerOptions {
    /// The directory of the store.
    pub store: String,
    /// Whether texts are hashed in place of being embedded.
    pub use_hash: bool,
    /// Where the embedding service is.
    pub url: String,
    /// The model of the embedding service.
    pub model: String,
    /// The length of an embedding.
    pub dim: Option<usize>,
    /// The bits of a sketch.
    pub bits: usize,
}

/// The options as values.
pub struct OptionsView {
    pub store: Seq<char>,
    pub use_hash: bool,
    pub url: Seq<char>,
    pub model: Seq<char>,
    pub dim: Option<nat>,
    pub bits: nat,
}

impl View for ServerOptions {
    type V = OptionsView;

    open spec fn view(&self) -> OptionsView {
        OptionsView {
            store: self.store@,
            use_hash: self.use_hash,
            url: self.url@,
            model: self.model@,
            dim: match self.dim {
                Some(n) => Some(n as nat),
                None => None,
            },
            bits: self.bits as nat,
        }
    }
}

/// The word at a place, empty past the end.
pub open spec fn word_at(words: Seq<Seq<char>>, i: int) -> Seq<char> {
    if 0 <= i < words.len() {
        words[i]
    } else {
        Seq::empty()
    }
}

/// The number at a place, where there is one.
pub open spec fn size_at(words: Seq<Seq<char>>, i: int) -> Option<nat> {
    if 0 <= i < words.len() {
        text::unsigned_value(words[i], usize::MAX as nat)
    } else {
        None
    }
}

/// The options that the words from a place on set.
pub open spec fn options_from(words: Seq<Seq<char>>, i: int, o: OptionsView) -> OptionsView
    decreases words.len() + 2 - i,
{
    if !(0 <= i < words.len()) {
        o
    } else if words[i] == "--hash"@ {
        options_from(words, i + 1, OptionsView { use_hash: true, ..o })
    } else if words[i] == "--url"@ {
        options_from(words, i + 2, OptionsView { url: word_at(words, i + 1), ..o })
    } else if words[i] == "--model"@ {
        options_from(words, i + 2, OptionsView { model: word_at(words, i + 1), ..o })
    } else if words[i] == "--dim"@ {
        options_from(words, i + 2, OptionsView { dim: size_at(words, i + 1), ..o })
    } else if words[i] == "--bits"@ {
        options_from(
            words,
            i + 2,
            OptionsView {
                bits: match size_at(words, i + 1) {
                    Some(n) => n,
                    None => 256,
                },
                ..o
            },
        )
    } else if o.store.len() == 0 {
        options_from(words, i + 1, OptionsView { store: words[i], ..o })
    } else {
        options_from(words, i + 1, o)
    }
}

/// The options without any word.
pub open spec fn default_options() -> OptionsView {
    OptionsView {
        store: Seq::empty(),
        use_hash: false,
        url: "http://localhost:11434"@,
        model: "nomic-embed-text"@,
        dim: None,
        bits: 256,
    }
}

fn take_word(words: &Vec<String>, i: usize) -> (s: String)
    ensures
        s@ == word_at(text::text_views(words@), i as int),
{
    if i < words.len() {
        words[i].as_str().to_owned()
    } else {
        let s = String::new();
        proof {
            assert(s@ =~= Seq::<char>::empty());
        }
        s
    }
}

fn take_size(words: &Vec<String>, i: usize) -> (n: Option<usize>)
    ensures
        match n {
            Some(k) => size_at(text::text_views(words@), i as int) == Some(k as nat),
            None => size_at(text::text_views(words@), i as int) is None,
        },
{
    if i < words.len() {
        match text::parse_unsigned(words[i].as_str(), usize::MAX as u64) {
            Some(n) => Some(n as usize),
            None => None,
        }
    } else {
        None
    }
}

/// Reads the words that the server is started with.
pub fn parse_options(words: &Vec<String>) -> (o: ServerOptions)
    requires
        words@.len() + 1 < usize::MAX,
    ensures
        o@ == options_from(text::text_views(words@), 0, default_options()),
{
    let ghost views = text::text_views(words@);
    let mut o = ServerOptions {
        store: String::new(),
        use_hash: false,
        url: "http://localhost:11434".to_owned(),
        model: "nomic-embed-text".to_owned(),
        dim: None,
        bits: 256,
    };
    let mut i: usize = 0;
    proof {
        assert(o.store@ =~= Seq::<char>::empty());
    }
    while i < words.len()
        invariant
            i <= words@.len() + 1,
            words@.len() + 1 < usize::MAX,
            views == text::text_views(words@),
            options_from(views, i as int, o@) == options_from(views, 0, default_options()),
        decreases words@.len() + 1 - i,
    {
        let w = words[i].as_str();
        proof {
            assert(views[i as int] == w@);
        }
        if text::text_equal(w, "--hash") {
            o.use_hash = true;
            i += 1;
        } else if text::text_equal(w, "--url") {
            o.url = take_word(words, i + 1);
            i += 2;
        } else if text::text_equal(w, "--model") {
            o.model = take_word(words, i + 1);
            i += 2;
        } else if text::text_equal(w, "--dim") {
            o.dim = take_size(words, i + 1);
            i += 2;
        } else if text::text_equal(w, "--bits") {
            o.bits = match take_size(words, i + 1) {
                Some(n) => n,
                None => 256,
            };
            i += 2;
        } else {
            if mcp::is_empty(o.store.as_str()) {
                o.store = w.to_owned();
            }
            i += 1;
        }
    }
    o
}

/// The length of an embedding that the options choose.
pub open spec fn chosen_dim(o: OptionsView) -> nat {
    match o.dim {
        Some(n) => n,
        None => if o.use_hash {
            256
        } else {
            768
        },
    }
}

/// Why the server does not start.
pub open spec fn options_fault(o: OptionsView) -> Option<Seq<char>> {
    if o.store.len() == 0 {
        Some(
            "usage: octasoma-mcp <store_dir> [--hash] [--url U] [--model M] [--dim N] [--bits B]"@,
        )
    } else if chosen_dim(o) == 0 || chosen_dim(o) > MAX_DIM {
        Some("--dim must be between 1 and "@ + text::decimal(MAX_DIM as nat))
    } else if o.bits < MIN_BITS || o.bits > MAX_BITS || o.bits % 64 != 0 {
        Some(
            "--bits must be a multiple of 64 between "@ + text::decimal(MIN_BITS as nat) + " and "@
                + text::decimal(MAX_BITS as nat),
        )
    } else {
        None
    }
}

/// Holds the options to their limits, and gives the length of an embedding.
pub fn check_options(o: &ServerOptions) -> (r: Result<usize, String>)
    ensures
        match (r, options_fault(o@)) {
            (Ok(n), None) => n == chosen_dim(o@),
            (Err(m), Some(e)) => m@ == e,
            _ => false,
        },
{
    if mcp::is_empty(o.store.as_str()) {
        return Err(
            "usage: octasoma-mcp <store_dir> [--hash] [--url U] [--model M] [--dim N] [--bits B]".to_owned(),
        );
    }
    let dim: usize = match o.dim {
        Some(n) => n,
        None => if o.use_hash {
            256
        } else {
            768
        },
    };
    if dim == 0 || dim > MAX_DIM {
        let mut m = "--dim must be between 1 and ".to_owned();
        push_decimal(&mut m, MAX_DIM as u128);
        return Err(m);
    }
    if o.bits < MIN_BITS || o.bits > MAX_BITS || o.bits % 64 != 0 {
        let mut m = "--bits must be a multiple of 64 between ".to_owned();
        push_decimal(&mut m, MIN_BITS as u128);
        m.append(" and ");
        push_decimal(&mut m, MAX_BITS as u128);
        return Err(m);
    }
    Ok(dim)
}

/// Options are read from the front: each word or pair sets its own field and the rest is read
/// from there on.
pub proof fn law_each_option_sets_its_field(rest: Seq<Seq<char>>, v: Seq<char>, o: OptionsView)
    ensures
        options_from(seq!["--hash"@] + rest, 0, o) == options_from(
            rest,
            0,
            OptionsView { use_hash: true, ..o },
        ),
        options_from(seq!["--url"@, v] + rest, 0, o) == options_from(
            rest,
            0,
            OptionsView { url: v, ..o },
        ),
        options_from(seq!["--model"@, v] + rest, 0, o) == options_from(
            rest,
            0,
            OptionsView { model: v, ..o },
        ),
        options_from(seq!["--dim"@, v] + rest, 0, o) == options_from(
            rest,
            0,
            OptionsView { dim: text::unsigned_value(v, usize::MAX as nat), ..o },
        ),
        options_from(seq!["--bits"@, v] + rest, 0, o) == options_from(
            rest,
            0,
            OptionsView {
                bits: match text::unsigned_value(v, usize::MAX as nat) {
                    Some(n) => n,
                    None => 256,
                },
                ..o
            },
        ),
        !is_option(v) ==> options_from(seq![v] + rest, 0, o) == options_from(
            rest,
            0,
            OptionsView {
                store: if o.store.len() == 0 {
                    v
                } else {
                    o.store
                },
                ..o
            },
        ),
        options_from(Seq::empty(), 0, o) == o,
{
    lemma_option_words();
    lemma_options_shift(seq!["--hash"@], rest, 1, OptionsView { use_hash: true, ..o });
    lemma_options_shift(seq!["--url"@, v], rest, 2, OptionsView { url: v, ..o });
    lemma_options_shift(seq!["--model"@, v], rest, 2, OptionsView { model: v, ..o });
    let n = text::unsigned_value(v, usize::MAX as nat);
    lemma_options_shift(seq!["--dim"@, v], rest, 2, OptionsView { dim: n, ..o });
    let bits: nat = match n {
        Some(n) => n,
        None => 256,
    };
    lemma_options_shift(seq!["--bits"@, v], rest, 2, OptionsView { bits, ..o });
    lemma_options_shift(seq![v], rest, 1, OptionsView { store: v, ..o });
    lemma_options_shift(seq![v], rest, 1, o);
}

/// The word is the name of an option.
pub open spec fn is_option(w: Seq<char>) -> bool {
    w == "--hash"@ || w == "--url"@ || w == "--model"@ || w == "--dim"@ || w == "--bits"@
}

proof fn lemma_option_words()
    ensures
        "--hash"@.len() == 6,
        "--url"@.len() == 5,
        "--model"@.len() == 7,
        "--dim"@.len() == 5,
        "--bits"@.len() == 6,
        "--url"@ != "--dim"@,
        "--hash"@ != "--bits"@,
{
    reveal_strlit("--hash");
    reveal_strlit("--url");
    reveal_strlit("--model");
    reveal_strlit("--dim");
    reveal_strlit("--bits");
    assert("--url"@[2] != "--dim"@[2]);
    assert("--hash"@[2] != "--bits"@[2]);
}

proof fn lemma_options_shift(a: Seq<Seq<char>>, rest: Seq<Seq<char>>, i: int, o: OptionsView)
    requires
        i >= a.len(),
    ensures
        options_from(a + rest, i, o) == options_from(rest, i - a.len(), o),
    decreases a.len() + rest.len() + 2 - i,
{
    let s = a + rest;
    let j = i - a.len();
    if i < s.len() {
        assert(s[i] == rest[j]);
        if i + 1 < s.len() {
            assert(s[i + 1] == rest[j + 1]);
        }
        let w = rest[j];
        if w == "--hash"@ {
            lemma_options_shift(a, rest, i + 1, OptionsView { use_hash: true, ..o });
        } else if w == "--url"@ {
            lemma_options_shift(a, rest, i + 2, OptionsView { url: word_at(s, i + 1), ..o });
        } else if w == "--model"@ {
            lemma_options_shift(a, rest, i + 2, OptionsView { model: word_at(s, i + 1), ..o });
        } else if w == "--dim"@ {
            lemma_options_shift(a, rest, i + 2, OptionsView { dim: size_at(s, i + 1), ..o });
        } else if w == "--bits"@ {
            let bits: nat = match size_at(s, i + 1) {
                Some(n) => n,
                None => 256,
            };
            lemma_options_shift(a, rest, i + 2, OptionsView { bits, ..o });
        } else if o.store.len() == 0 {
            lemma_options_shift(a, rest, i + 1, OptionsView { store: w, ..o });
        } else {
            lemma_options_shift(a, rest, i + 1, o);
        }
    }
}

/// The server starts just where a store is named, the length of an embedding is from 1 to the
/// greatest allowed, and the bits of a sketch are whole words within their limits.
pub proof fn law_options_are_sound(o: OptionsView)
    ensures
        options_fault(o) is None <==> {
            &&& o.store.len() > 0
            &&& 1 <= chosen_dim(o) <= 16_384
            &&& 64 <= o.bits <= 8_192
            &&& o.bits % 64 == 0
        },
        o.dim is Some ==> chosen_dim(o) == o.dim->0,
{
}

/// A tool is found by its name and by no other, and every tool is listed.
pub proof fn law_tools_are_found_by_name(t: Tool, name: Seq<char>)
    ensures
        tool_of(name) == Ok::<_, Seq<char>>(t) <==> name == t.word(),
        every_tool().contains(t),
{
    if name == t.word() {
        if let Ok(u) = tool_of(name) {
            assert(u.word() == name);
            law_tool_names_differ(u, t);
        }
    }
    let all = every_tool();
    assert(all[0] == Tool::Ingest && all[1] == Tool::Recall && all[2] == Tool::Explain && all[3]
        == Tool::Stats && all[4] == Tool::Remember && all[5] == Tool::Tombstone && all[6]
        == Tool::Relate && all[7] == Tool::Purge && all[8] == Tool::Compact && all[9]
        == Tool::Feedback);
}

/// A request is passed over just where it tells of the end of the greeting, or has no id and asks
/// for nothing known.
pub proof fn law_only_notifications_are_ignored(method: Seq<char>, has_id: bool)
    ensures
        action_of(method, has_id) is Ignore <==> method == "notifications/initialized"@ || method
            == "initialized"@ || (!has_id && action_of(method, true) is NotFound),
        action_of("initialize"@, has_id) is Initialize,
        action_of("ping"@, has_id) is Pong,
        action_of("tools/list"@, has_id) is ListTools,
        action_of("tools/call"@, has_id) is CallTool,
        action_of(method, has_id) is CallTool ==> method == "tools/call"@,
        action_of(method, has_id) is ListTools ==> method == "tools/list"@,
        action_of(method, has_id) is Initialize ==> method == "initialize"@,
        action_of(method, has_id) is Pong ==> method == "ping"@,
        action_of(method, has_id) is NotFound ==> has_id,
{
    reveal_strlit("initialize");
    reveal_strlit("notifications/initialized");
    reveal_strlit("initialized");
    reveal_strlit("ping");
    reveal_strlit("tools/list");
    reveal_strlit("tools/call");
    assert("initialize"@.len() == 10);
    assert("notifications/initialized"@.len() == 25);
    assert("initialized"@.len() == 11);
    assert("ping"@.len() == 4);
    assert("tools/list"@.len() == 10);
    assert("tools/call"@.len() == 10);
    assert("initialize"@[0] != "tools/list"@[0]);
    assert("initialize"@[0] != "tools/call"@[0]);
    assert("tools/list"@[6] != "tools/call"@[6]);
}

/// Every tool has a name.
pub proof fn law_tool_words_are_filled(t: Tool)
    ensures
        t.word().len() > 0,
{
    reveal_strlit("ingest");
    reveal_strlit("recall");
    reveal_strlit("explain");
    reveal_strlit("stats");
    reveal_strlit("remember");
    reveal_strlit("tombstone");
    reveal_strlit("relate");
    reveal_strlit("purge");
    reveal_strlit("compact");
    reveal_strlit("feedback");
}

/// Every line that has a text is handled, as it is; the end of the input stops the server; and what
/// is no request is refused or passed over.
pub proof fn law_every_text_is_handled(line: mcp::LineView)
    ensures
        line_step(line) is Stop <==> line is Eof,
        line matches mcp::LineView::Line(s) ==> (!text::blank(s) ==> line_step(line)
            == LineActionView::Handle(s)),
        line matches mcp::LineView::Line(s) ==> (text::blank(s) ==> line_step(line) is Skip),
        line_step(line) is Refuse <==> line is TooLong || line is InvalidUtf8,
{
}

} // verus!
