//! The corpus server: documents that are remembered and recalled through the cascade, and
//! the tools by which an agent drives it.
use crate::feedback;
use crate::fileguard::debug_text;
use crate::mcp;
use crate::mcp::{Arg, Args};
use crate::scope;
use crate::scope::{CausalScope, RecallWindow, ScopeItem};
use crate::session;
use crate::session::Session;
use crate::text;
use crate::text::push_decimal;
use vstd::prelude::*;

verus! {

/// The arguments of `recall`, as a JSON schema.
pub const RECALL_SCHEMA: &'static str =
    r#"{"properties":{"budget_tokens":{"description":"Approximate token budget for the window (default 256).","minimum":1,"type":"integer"},"k":{"description":"Max items to return (default 5).","minimum":1,"type":"integer"},"query":{"description":"What to recall.","type":"string"}},"required":["query"],"type":"object"}"#;

/// The arguments of `remember`, as a JSON schema.
pub const REMEMBER_SCHEMA: &'static str =
    r#"{"properties":{"content":{"description":"Convenience: add a single document by content.","type":"string"},"documents":{"description":"Documents to add.","items":{"properties":{"content":{"type":"string"},"keywords":{"items":{"type":"string"},"type":"array"},"uri":{"type":"string"}},"required":["content"],"type":"object"},"type":"array"},"keywords":{"items":{"type":"string"},"type":"array"},"uri":{"type":"string"}},"type":"object"}"#;

/// The arguments of `feedback`, as a JSON schema.
pub const FEEDBACK_SCHEMA: &'static str =
    r#"{"properties":{"irrelevant":{"description":"uris that were not useful","items":{"type":"string"},"type":"array"},"relevant":{"description":"uris of the last recall's items that were useful","items":{"type":"string"},"type":"array"}},"type":"object"}"#;

/// The arguments of a tool that takes none, as a JSON schema.
pub const EMPTY_SCHEMA: &'static str =
    r#"{"properties":{},"type":"object"}"#;

/// A tool of the corpus server.
#[derive(Clone, Copy, Debug, PartialEq, Eq, Structural)]
pub enum CorpusTool {
    /// Recalls a window.
    Recall,
    /// Adds documents.
    Remember,
    /// Labels what the last recall returned.
    Feedback,
    /// Counts what is stored.
    Stats,
    /// Removes all documents.
    Clear,
}

impl CorpusTool {
    /// The name by which it is called.
    pub open spec fn word(self) -> Seq<char> {
        match self {
            CorpusTool::Recall => "recall"@,
            CorpusTool::Remember => "remember"@,
            CorpusTool::Feedback => "feedback"@,
            CorpusTool::Stats => "stats"@,
            CorpusTool::Clear => "clear"@,
        }
    }

    /// The name by which it is called.
    pub fn name(self) -> (s: &'static str)
        ensures
            s@ == self.word(),
    {
        match self {
            CorpusTool::Recall => "recall",
            CorpusTool::Remember => "remember",
            CorpusTool::Feedback => "feedback",
            CorpusTool::Stats => "stats",
            CorpusTool::Clear => "clear",
        }
    }

    /// What it does, for people.
    pub open spec fn about(self) -> Seq<char> {
        match self {
            CorpusTool::Recall => "Recall a token-budgeted, semantically reranked context window for a query, via the OctaCore cascade (causal narrowing + exact-cosine rerank)."@,
            CorpusTool::Remember => "Add documents to the recall corpus. Each has `content`, an optional `uri` (id), and optional `keywords` (causal gating; omit for pure semantic recall)."@,
            CorpusTool::Feedback => "After using a recall, report which returned documents were actually relevant (by uri, referring to the LAST recall of this session). This explicit relevance feedback calibrates the memory's confidence tiers — call it whenever a recalled document clearly helped or clearly did not."@,
            CorpusTool::Stats => "Report corpus size, embedding dimension, and store path."@,
            CorpusTool::Clear => "Remove all documents from the corpus."@,
        }
    }

    /// What it does, for people.
    pub fn description(self) -> (s: &'static str)
        ensures
            s@ == self.about(),
    {
        match self {
            CorpusTool::Recall => "Recall a token-budgeted, semantically reranked context window for a query, via the OctaCore cascade (causal narrowing + exact-cosine rerank).",
            CorpusTool::Remember => "Add documents to the recall corpus. Each has `content`, an optional `uri` (id), and optional `keywords` (causal gating; omit for pure semantic recall).",
            CorpusTool::Feedback => "After using a recall, report which returned documents were actually relevant (by uri, referring to the LAST recall of this session). This explicit relevance feedback calibrates the memory's confidence tiers — call it whenever a recalled document clearly helped or clearly did not.",
            CorpusTool::Stats => "Report corpus size, embedding dimension, and store path.",
            CorpusTool::Clear => "Remove all documents from the corpus.",
        }
    }

    /// Its arguments, as a JSON schema.
    pub open spec fn shape(self) -> Seq<char> {
        match self {
            CorpusTool::Recall => RECALL_SCHEMA@,
            CorpusTool::Remember => REMEMBER_SCHEMA@,
            CorpusTool::Feedback => FEEDBACK_SCHEMA@,
            CorpusTool::Stats => EMPTY_SCHEMA@,
            CorpusTool::Clear => EMPTY_SCHEMA@,
        }
    }

    /// Its arguments, as a JSON schema.
    pub fn schema(self) -> (s: &'static str)
        ensures
            s@ == self.shape(),
    {
        match self {
            CorpusTool::Recall => RECALL_SCHEMA,
            CorpusTool::Remember => REMEMBER_SCHEMA,
            CorpusTool::Feedback => FEEDBACK_SCHEMA,
            CorpusTool::Stats => EMPTY_SCHEMA,
            CorpusTool::Clear => EMPTY_SCHEMA,
        }
    }
}

/// Every tool, in the order in which the server lists them.
pub open spec fn every_tool() -> Seq<CorpusTool> {
    seq![
        CorpusTool::Recall,
        CorpusTool::Remember,
        CorpusTool::Feedback,
        CorpusTool::Stats,
        CorpusTool::Clear,
    ]
}

/// Every tool, in the order in which the server lists them.
pub fn tools_list() -> (v: Vec<CorpusTool>)
    ensures
        v@ == every_tool(),
{
    let v = vec![
        CorpusTool::Recall,
        CorpusTool::Remember,
        CorpusTool::Feedback,
        CorpusTool::Stats,
        CorpusTool::Clear,
    ];
    proof {
        assert(v@ =~= every_tool());
    }
    v
}

/// The tool of a name, or what is said where there is none.
pub open spec fn tool_of(name: Seq<char>) -> Result<CorpusTool, Seq<char>> {
    if name == "recall"@ {
        Ok(CorpusTool::Recall)
    } else if name == "remember"@ {
        Ok(CorpusTool::Remember)
    } else if name == "feedback"@ {
        Ok(CorpusTool::Feedback)
    } else if name == "stats"@ {
        Ok(CorpusTool::Stats)
    } else if name == "clear"@ {
        Ok(CorpusTool::Clear)
    } else {
        Err("unknown tool: "@ + name)
    }
}

/// The tool of a name.
pub fn tool_named(name: &str) -> (r: Result<CorpusTool, String>)
    ensures
        match r {
            Ok(t) => tool_of(name@) == Ok::<_, Seq<char>>(t) && t.word() == name@,
            Err(m) => {
                &&& forall|t: CorpusTool| #[trigger] t.word() != name@
                &&& tool_of(name@) == Err::<CorpusTool, _>(m@)
            },
        },
{
    if text::text_equal(name, "recall") {
        return Ok(CorpusTool::Recall);
    }
    if text::text_equal(name, "remember") {
        return Ok(CorpusTool::Remember);
    }
    if text::text_equal(name, "feedback") {
        return Ok(CorpusTool::Feedback);
    }
    if text::text_equal(name, "stats") {
        return Ok(CorpusTool::Stats);
    }
    if text::text_equal(name, "clear") {
        return Ok(CorpusTool::Clear);
    }
    let mut m = "unknown tool: ".to_owned();
    m.append(name);
    Err(m)
}

/// What the server does with a request.
#[derive(Debug)]
pub enum Answer {
    /// It says what it is.
    Initialize,
    /// It answers with an empty result.
    Pong,
    /// It lists its tools.
    ListTools,
    /// It calls a tool.
    CallTool,
    /// It lists no resources.
    NoResources,
    /// It lists no prompts.
    NoPrompts,
    /// It says that there is no such method.
    NotFound(String),
}

/// What the server does with a request, as a value.
pub enum AnswerView {
    Initialize,
    Pong,
    ListTools,
    CallTool,
    NoResources,
    NoPrompts,
    NotFound(Seq<char>),
}

impl View for Answer {
    type V = AnswerView;

    open spec fn view(&self) -> AnswerView {
        match self {
            Answer::Initialize => AnswerView::Initialize,
            Answer::Pong => AnswerView::Pong,
            Answer::ListTools => AnswerView::ListTools,
            Answer::CallTool => AnswerView::CallTool,
            Answer::NoResources => AnswerView::NoResources,
            Answer::NoPrompts => AnswerView::NoPrompts,
            Answer::NotFound(m) => AnswerView::NotFound(m@),
        }
    }
}

/// What the server does with a request of a method.
pub open spec fn answer_to(method: Seq<char>) -> AnswerView {
    if method == "initialize"@ {
        AnswerView::Initialize
    } else if method == "ping"@ {
        AnswerView::Pong
    } else if method == "tools/list"@ {
        AnswerView::ListTools
    } else if method == "tools/call"@ {
        AnswerView::CallTool
    } else if method == "resources/list"@ {
        AnswerView::NoResources
    } else if method == "prompts/list"@ {
        AnswerView::NoPrompts
    } else {
        AnswerView::NotFound("method not found: "@ + method)
    }
}

/// What the server does with a request of a method.
pub fn handle_request(method: &str) -> (a: Answer)
    ensures
        a@ == answer_to(method@),
{
    if text::text_equal(method, "initialize") {
        Answer::Initialize
    } else if text::text_equal(method, "ping") {
        Answer::Pong
    } else if text::text_equal(method, "tools/list") {
        Answer::ListTools
    } else if text::text_equal(method, "tools/call") {
        Answer::CallTool
    } else if text::text_equal(method, "resources/list") {
        Answer::NoResources
    } else if text::text_equal(method, "prompts/list") {
        Answer::NoPrompts
    } else {
        let mut m = "method not found: ".to_owned();
        m.append(method);
        Answer::NotFound(m)
    }
}

/// The length of an embedding that a setting chooses: a number above zero, or 256.
pub open spec fn dim_of(setting: Option<Seq<char>>) -> nat {
    match setting {
        Some(s) => match text::unsigned_value(s, usize::MAX as nat) {
            Some(n) => if n > 0 {
                n
            } else {
                256
            },
            None => 256,
        },
        None => 256,
    }
}

/// The length of an embedding that a setting chooses.
pub fn chosen_dim(setting: Option<&str>) -> (n: usize)
    ensures
        n == dim_of(
            match setting {
                Some(s) => Some(s@),
                None => None,
            },
        ),
{
    match setting {
        Some(s) => match text::parse_unsigned(s, usize::MAX as u64) {
            Some(n) => if n > 0 {
                n as usize
            } else {
                256
            },
            None => 256,
        },
        None => 256,
    }
}

/// The protocol version to answer with: the client's, or the server's own.
pub fn protocol_version(asked: Option<&str>) -> (s: String)
    ensures
        s@ == (match asked {
            Some(v) => v@,
            None => "2024-11-05"@,
        }),
{
    match asked {
        Some(v) => v.to_owned(),
        None => "2024-11-05".to_owned(),
    }
}

/// A document.
#[derive(Debug)]
pub struct Doc {
    /// Its name.
    pub uri: String,
    /// Its content.
    pub content: String,
    /// The words that bring it into scope; without any it always is.
    pub keywords: Vec<String>,
}

/// A document as a value.
pub struct DocView {
    pub uri: Seq<char>,
    pub content: Seq<char>,
    pub keywords: Seq<Seq<char>>,
}

impl View for Doc {
    type V = DocView;

    open spec fn view(&self) -> DocView {
        DocView {
            uri: self.uri@,
            content: self.content@,
            keywords: text::text_views(self.keywords@),
        }
    }
}

/// The views of documents.
pub open spec fn doc_views(s: Seq<Doc>) -> Seq<DocView> {
    s.map_values(|d: Doc| d@)
}

/// A document is in scope for a text in lower case.
pub open spec fn in_scope(d: DocView, q: Seq<char>) -> bool {
    d.keywords.len() == 0 || exists|i: int|
        0 <= i < d.keywords.len() && #[trigger] text::occurs(
            q,
            scope::lower_form(d.keywords[i]),
        )
}

fn is_in_scope(d: &Doc, q: &str) -> (r: bool)
    ensures
        r == in_scope(d@, q@),
{
    let n: usize = d.keywords.len();
    if n == 0 {
        return true;
    }
    let mut i: usize = 0;
    while i < n
        invariant
            i <= n,
            n == d.keywords@.len(),
            forall|j: int|
                0 <= j < i ==> !#[trigger] text::occurs(q@, scope::lower_form(d@.keywords[j])),
        decreases n - i,
    {
        let k = scope::lower_text(d.keywords[i].as_str());
        proof {
            assert(d@.keywords[i as int] == d.keywords@[i as int]@);
        }
        if text::contains_text(q, k.as_str()) {
            proof {
                assert(text::occurs(q@, scope::lower_form(d@.keywords[i as int])));
            }
            return true;
        }
        i += 1;
    }
    false
}

/// The documents in scope, in their order.
pub open spec fn scoped(docs: Seq<DocView>, q: Seq<char>) -> Seq<scope::ScopeItemView>
    decreases docs.len(),
{
    if docs.len() == 0 {
        Seq::empty()
    } else {
        let before = scoped(docs.drop_last(), q);
        let d = docs.last();
        if in_scope(d, q) {
            before.push(scope::ScopeItemView { uri: d.uri, content: d.content })
        } else {
            before
        }
    }
}

/// The documents of a server.
#[derive(Debug)]
pub struct Corpus {
    docs: Vec<Doc>,
}

impl Corpus {
    /// The documents.
    pub closed spec fn view(&self) -> Seq<DocView> {
        doc_views(self.docs@)
    }

    /// A corpus of documents.
    pub fn new(docs: Vec<Doc>) -> (c: Corpus)
        ensures
            c@ == doc_views(docs@),
    {
        Corpus { docs }
    }

    /// The documents.
    pub fn docs(&self) -> (d: &Vec<Doc>)
        ensures
            doc_views(d@) == self@,
    {
        &self.docs
    }
}

impl CausalScope for Corpus {
    /// The documents that the query brings into scope, whatever its case. The budget plays
    /// no part.
    fn scope(&self, query: &str, budget_tokens: usize) -> (r: Vec<ScopeItem>)
        ensures
            scope::scope_views(r@) == scoped(self@, scope::lower_form(query@)),
    {
        let _ = budget_tokens;
        let q = scope::lower_text(query);
        let ghost views = self@;
        let mut out: Vec<ScopeItem> = Vec::new();
        let mut i: usize = 0;
        proof {
            assert(scope::scope_views(out@) =~= scoped(views.take(0), q@));
        }
        while i < self.docs.len()
            invariant
                i <= self.docs@.len(),
                views == doc_views(self.docs@),
                scope::scope_views(out@) == scoped(views.take(i as int), q@),
            decreases self.docs@.len() - i,
        {
            let ghost before = out@;
            proof {
                assert(views.take(i + 1).drop_last() =~= views.take(i as int));
                assert(views.take(i + 1).last() == self.docs@[i as int]@);
            }
            if is_in_scope(&self.docs[i], q.as_str()) {
                let item = ScopeItem {
                    uri: self.docs[i].uri.as_str().to_owned(),
                    content: self.docs[i].content.as_str().to_owned(),
                };
                out.push(item);
                proof {
                    assert(scope::scope_views(out@) =~= scope::scope_views(before).push(item@));
                }
            }
            i += 1;
        }
        proof {
            assert(views.take(i as int) =~= views);
        }
        out
    }
}

/// The text of an argument, where it is one.
pub open spec fn text_of_arg(args: mcp::ArgsView, key: Seq<char>) -> Option<Seq<char>> {
    match mcp::lookup(args, key) {
        Some(mcp::ArgView::Text(s)) => Some(s),
        _ => None,
    }
}

fn take_text(args: &Args, key: &str) -> (r: Option<String>)
    ensures
        crate::record::optional_text(r) == text_of_arg(args@, key@),
{
    match args.get(key) {
        Some(Arg::Text(s)) => Some(s.as_str().to_owned()),
        _ => None,
    }
}

/// The text of an argument without the space around it, where something is left.
pub open spec fn filled_arg(args: mcp::ArgsView, key: Seq<char>) -> Option<Seq<char>> {
    match text_of_arg(args, key) {
        Some(s) => mcp::filled(text::trim(s)),
        None => None,
    }
}

fn take_filled(args: &Args, key: &str) -> (r: Option<String>)
    ensures
        crate::record::optional_text(r) == filled_arg(args@, key@),
{
    match take_text(args, key) {
        Some(s) => {
            let v = text::trimmed(s.as_str());
            let t = text::text_of(&v, 0, v.len());
            proof {
                assert(t@ =~= text::trim(s@));
            }
            mcp::non_empty(t)
        },
        None => None,
    }
}

/// The texts among elements, in their order.
pub open spec fn texts_among(s: Seq<Option<Seq<char>>>) -> Seq<Seq<char>>
    decreases s.len(),
{
    if s.len() == 0 {
        Seq::empty()
    } else {
        match s.last() {
            Some(t) => texts_among(s.drop_last()).push(t),
            None => texts_among(s.drop_last()),
        }
    }
}

/// The texts of a list argument; what is no list has none.
pub open spec fn texts_arg(args: mcp::ArgsView, key: Seq<char>) -> Seq<Seq<char>> {
    match mcp::lookup(args, key) {
        Some(mcp::ArgView::List(s)) => texts_among(s),
        _ => Seq::empty(),
    }
}

fn take_texts(args: &Args, key: &str) -> (r: Vec<String>)
    ensures
        text::text_views(r@) == texts_arg(args@, key@),
{
    let mut out: Vec<String> = Vec::new();
    proof {
        assert(text::text_views(out@) =~= Seq::<Seq<char>>::empty());
    }
    if let Some(Arg::List(v)) = args.get(key) {
        let ghost s = mcp::element_views(v@);
        let mut i: usize = 0;
        proof {
            assert(s.take(0) =~= Seq::<Option<Seq<char>>>::empty());
        }
        while i < v.len()
            invariant
                i <= v@.len(),
                s == mcp::element_views(v@),
                text::text_views(out@) == texts_among(s.take(i as int)),
            decreases v@.len() - i,
        {
            let ghost before = out@;
            proof {
                assert(s.take(i + 1).drop_last() =~= s.take(i as int));
                assert(s.take(i + 1).last() == crate::record::optional_text(v@[i as int]));
            }
            if let Some(t) = &v[i] {
                out.push(t.as_str().to_owned());
                proof {
                    assert(text::text_views(out@) =~= text::text_views(before).push(t@));
                }
            }
            i += 1;
        }
        proof {
            assert(s.take(i as int) =~= s);
        }
    }
    out
}

/// A number argument, or a default where it is none; at least one.
pub open spec fn count_arg(args: mcp::ArgsView, key: Seq<char>, default: u64) -> nat {
    let n = match mcp::lookup(args, key) {
        Some(mcp::ArgView::Number(n)) => n,
        _ => default,
    };
    let m = if n < 1 {
        1
    } else {
        n as nat
    };
    crate::lifecycle::cut(m)
}

fn take_count(args: &Args, key: &str, default: u64) -> (r: usize)
    ensures
        r == count_arg(args@, key@, default),
{
    let n: u64 = match args.get(key) {
        Some(Arg::Number(n)) => *n,
        _ => default,
    };
    if n < 1 {
        1
    } else if n > usize::MAX as u64 {
        usize::MAX
    } else {
        n as usize
    }
}

/// The document that arguments describe.
pub open spec fn doc_of(args: mcp::ArgsView) -> Result<DocView, Seq<char>> {
    match filled_arg(args, "content"@) {
        None => Err("each document needs a non-empty `content` string"@),
        Some(content) => Ok(
            DocView {
                uri: match text_of_arg(args, "uri"@) {
                    Some(u) => u,
                    None => Seq::empty(),
                },
                content,
                keywords: texts_arg(args, "keywords"@),
            },
        ),
    }
}

/// The document that arguments describe.
pub fn parse_doc(args: &Args) -> (r: Result<Doc, String>)
    ensures
        match (r, doc_of(args@)) {
            (Ok(d), Ok(v)) => d@ == v,
            (Err(a), Err(b)) => a@ == b,
            _ => false,
        },
{
    let content = match take_filled(args, "content") {
        Some(c) => c,
        None => {
            return Err("each document needs a non-empty `content` string".to_owned());
        },
    };
    let uri = match take_text(args, "uri") {
        Some(u) => u,
        None => {
            let none = String::new();
            proof {
                assert(none@ =~= Seq::<char>::empty());
            }
            none
        },
    };
    let keywords = take_texts(args, "keywords");
    Ok(Doc { uri, content, keywords })
}

/// The views of several sets of arguments.
pub open spec fn all_args(s: Seq<Args>) -> Seq<mcp::ArgsView> {
    s.map_values(|a: Args| a@)
}

/// The documents that sets of arguments describe, or the fault of the first that does not.
pub open spec fn docs_of(s: Seq<mcp::ArgsView>) -> Result<Seq<DocView>, Seq<char>>
    decreases s.len(),
{
    if s.len() == 0 {
        Ok(Seq::empty())
    } else {
        match docs_of(s.drop_last()) {
            Err(e) => Err(e),
            Ok(before) => match doc_of(s.last()) {
                Err(e) => Err(e),
                Ok(d) => Ok(before.push(d)),
            },
        }
    }
}

proof fn lemma_first_bad(s: Seq<mcp::ArgsView>, i: int, n: int)
    requires
        0 <= i <= n <= s.len(),
        docs_of(s.take(i)) is Err,
    ensures
        docs_of(s.take(n)) == docs_of(s.take(i)),
    decreases n - i,
{
    if i < n {
        lemma_first_bad(s, i, n - 1);
        assert(s.take(n).drop_last() =~= s.take(n - 1));
    }
}

fn parse_docs(list: &Vec<Args>) -> (r: Result<Vec<Doc>, String>)
    ensures
        match (r, docs_of(all_args(list@))) {
            (Ok(d), Ok(v)) => doc_views(d@) == v,
            (Err(a), Err(b)) => a@ == b,
            _ => false,
        },
{
    let ghost s = all_args(list@);
    let mut out: Vec<Doc> = Vec::new();
    let mut i: usize = 0;
    proof {
        assert(doc_views(out@) =~= Seq::<DocView>::empty());
        assert(docs_of(s.take(0)) is Ok);
    }
    while i < list.len()
        invariant
            i <= list@.len(),
            s == all_args(list@),
            docs_of(s.take(i as int)) == Ok::<Seq<DocView>, Seq<char>>(doc_views(out@)),
        decreases list@.len() - i,
    {
        let ghost before = out@;
        proof {
            assert(s.take(i + 1).drop_last() =~= s.take(i as int));
            assert(s.take(i + 1).last() == list@[i as int]@);
            assert(s.take(s.len() as int) =~= s);
        }
        match parse_doc(&list[i]) {
            Ok(d) => {
                out.push(d);
                proof {
                    assert(doc_views(out@) =~= doc_views(before).push(d@));
                }
            },
            Err(e) => {
                proof {
                    lemma_first_bad(s, i + 1, s.len() as int);
                }
                return Err(e);
            },
        }
        i += 1;
    }
    proof {
        assert(s.take(i as int) =~= s);
    }
    Ok(out)
}

/// What `remember` asks for: the documents of a list, or the one that the arguments
/// describe.
pub open spec fn remember_request(args: mcp::ArgsView, documents: Option<Seq<mcp::ArgsView>>)
    -> Result<Seq<DocView>, Seq<char>> {
    let docs = match documents {
        Some(list) => docs_of(list),
        None => if mcp::lookup(args, "content"@) is Some {
            match doc_of(args) {
                Ok(d) => Ok(seq![d]),
                Err(e) => Err(e),
            }
        } else {
            Err("provide `documents` (array) or a single `content` string"@)
        },
    };
    match docs {
        Err(e) => Err(e),
        Ok(d) => if d.len() == 0 {
            Err("no documents to remember"@)
        } else {
            Ok(d)
        },
    }
}

/// A document as it is added after `held` others: one without a name is named by its place.
pub open spec fn named(d: DocView, held: nat) -> DocView {
    if text::blank(d.uri) {
        DocView { uri: "doc:"@ + text::decimal(held + 1), ..d }
    } else {
        d
    }
}

/// Documents as they are added after `held` others.
pub open spec fn all_named(docs: Seq<DocView>, held: nat) -> Seq<DocView> {
    Seq::new(docs.len(), |i: int| named(docs[i], held + i as nat))
}

/// A recall that is asked for.
#[derive(Debug)]
pub struct CorpusRecall {
    /// The query.
    pub query: String,
    /// The items wanted.
    pub k: usize,
    /// The tokens wanted.
    pub budget: usize,
}

/// The corpus server: its documents, the length of its embeddings, where it stores, and its
/// session.
pub struct CorpusServer {
    mem: Corpus,
    dim: usize,
    store: Option<String>,
    session: Session,
}

/// The fault of a feedback, or the labels and the unknown uris.
pub open spec fn corpus_feedback(args: mcp::ArgsView, s: session::SessionView) -> Result<
    (Seq<feedback::EntryView>, Seq<Seq<char>>),
    Seq<char>,
> {
    if s.items.len() == 0 {
        Err("feedback needs a prior recall in this session"@)
    } else {
        let yes = texts_arg(args, "relevant"@);
        let no = texts_arg(args, "irrelevant"@);
        Ok(
            (
                session::labels_of(s, yes, true) + session::labels_of(s, no, false),
                session::strangers(s, yes) + session::strangers(s, no),
            ),
        )
    }
}

/// Texts in their debug form, parted by commas, between brackets.
pub open spec fn debug_list(names: Seq<Seq<char>>) -> Seq<char> {
    "["@ + text::joined(
        names.map_values(|s: Seq<char>| crate::fileguard::debug_form(s)),
        ", "@,
    ) + "]"@
}

fn list_debug(names: &Vec<String>) -> (s: String)
    ensures
        s@ == debug_list(text::text_views(names@)),
{
    let ghost views = text::text_views(names@);
    let mut forms: Vec<String> = Vec::new();
    let mut i: usize = 0;
    while i < names.len()
        invariant
            i <= names@.len(),
            forms@.len() == i,
            forall|j: int|
                0 <= j < i ==> (#[trigger] forms@[j])@ == crate::fileguard::debug_form(
                    names@[j]@,
                ),
        decreases names@.len() - i,
    {
        forms.push(debug_text(names[i].as_str()));
        i += 1;
    }
    proof {
        assert(text::text_views(forms@) =~= views.map_values(
            |s: Seq<char>| crate::fileguard::debug_form(s),
        ));
    }
    let mut s = "[".to_owned();
    s.append(text::join(&forms, ", ").as_str());
    s.append("]");
    s
}

/// What `recall` asks for: a query, so many items and so many tokens.
pub open spec fn recall_request(args: mcp::ArgsView) -> Result<(Seq<char>, nat, nat), Seq<char>> {
    match filled_arg(args, "query"@) {
        None => Err("`query` (non-empty string) is required"@),
        Some(q) => Ok((q, count_arg(args, "k"@, 5), count_arg(args, "budget_tokens"@, 256))),
    }
}

/// What `recall` asks for.
pub fn plan_recall(args: &Args) -> (r: Result<CorpusRecall, String>)
    ensures
        match (r, recall_request(args@)) {
            (Ok(p), Ok((q, k, budget))) => p.query@ == q && p.k == k && p.budget == budget,
            (Err(a), Err(b)) => a@ == b,
            _ => false,
        },
{
    match take_filled(args, "query") {
        None => Err("`query` (non-empty string) is required".to_owned()),
        Some(query) => {
            let k: usize = take_count(args, "k", 5);
            let budget: usize = take_count(args, "budget_tokens", 256);
            Ok(CorpusRecall { query, k, budget })
        },
    }
}

/// The line of an item: its place, the text of its score, its uri and its content.
pub open spec fn item_line(place: nat, score: Seq<char>, item: scope::RecallItemView) -> Seq<char> {
    text::decimal(place) + ". ["@ + score + "] "@ + item.uri + " — "@ + item.content + "\n"@
}

/// The lines of the first `n` items.
pub open spec fn item_lines(
    items: Seq<scope::RecallItemView>,
    scores: Seq<Seq<char>>,
    n: int,
) -> Seq<char>
    decreases n,
{
    if n <= 0 {
        Seq::empty()
    } else {
        item_lines(items, scores, n - 1) + item_line(n as nat, scores[n - 1], items[n - 1])
    }
}

/// The answer to a recall.
pub open spec fn recall_answer(
    query: Seq<char>,
    strategy: Seq<char>,
    items: Seq<scope::RecallItemView>,
    tokens: nat,
    scores: Seq<Seq<char>>,
    held: nat,
) -> Seq<char> {
    if items.len() == 0 {
        "No matches for "@ + crate::fileguard::debug_form(query) + " (corpus holds "@
            + text::decimal(held) + " document(s))."@
    } else {
        "recall("@ + crate::fileguard::debug_form(query) + ") — strategy="@ + strategy + ", "@
            + text::decimal(items.len()) + " item(s), ~"@ + text::decimal(tokens)
            + " token(s):\n"@ + item_lines(items, scores, items.len() as int)
    }
}

fn add_item_line(out: &mut String, place: usize, score: &str, uri: &str, content: &str)
    ensures
        final(out)@ == old(out)@ + item_line(
            place as nat,
            score@,
            (scope::RecallItemView { uri: uri@, content: content@, score: 0 }),
        ),
{
    let ghost before = out@;
    push_decimal(out, place as u128);
    out.append(". [");
    out.append(score);
    out.append("] ");
    out.append(uri);
    out.append(" — ");
    out.append(content);
    out.append("\n");
    proof {
        let item = scope::RecallItemView { uri: uri@, content: content@, score: 0 };
        assert(out@ =~= before + item_line(place as nat, score@, item));
    }
}

fn write_answer(query: &str, window: &RecallWindow, scores: &Vec<String>, held: usize) -> (s: String)
    requires
        scores@.len() == window.items@.len(),
    ensures
        s@ == recall_answer(
            query@,
            window.strategy@,
            scope::recall_views(window.items@),
            window.tokens as nat,
            text::text_views(scores@),
            held as nat,
        ),
{
    if window.items.len() == 0 {
        let mut s = "No matches for ".to_owned();
        s.append(debug_text(query).as_str());
        s.append(" (corpus holds ");
        push_decimal(&mut s, held as u128);
        s.append(" document(s)).");
        return s;
    }
    let mut s = "recall(".to_owned();
    s.append(debug_text(query).as_str());
    s.append(") — strategy=");
    s.append(window.strategy);
    s.append(", ");
    push_decimal(&mut s, window.items.len() as u128);
    s.append(" item(s), ~");
    push_decimal(&mut s, window.tokens as u128);
    s.append(" token(s):\n");
    let ghost head = s@;
    let ghost items = scope::recall_views(window.items@);
    let ghost texts = text::text_views(scores@);
    let mut i: usize = 0;
    proof {
        assert(head + item_lines(items, texts, 0) =~= head);
    }
    while i < window.items.len()
        invariant
            i <= window.items@.len(),
            scores@.len() == window.items@.len(),
            items == scope::recall_views(window.items@),
            texts == text::text_views(scores@),
            s@ == head + item_lines(items, texts, i as int),
        decreases window.items@.len() - i,
    {
        let ghost before = s@;
        proof {
            assert(items[i as int] == window.items@[i as int]@);
            assert(texts[i as int] == scores@[i as int]@);
        }
        add_item_line(
            &mut s,
            i + 1,
            scores[i].as_str(),
            window.items[i].uri.as_str(),
            window.items[i].content.as_str(),
        );
        proof {
            assert(s@ =~= head + item_lines(items, texts, i + 1));
        }
        i += 1;
    }
    s
}

/// The text of a feedback: how many labels it added, how many there are, and the unknown
/// uris.
pub open spec fn feedback_answer(
    recorded: nat,
    log: Seq<feedback::EntryView>,
    unknown: Seq<Seq<char>>,
) -> Seq<char> {
    let head = "Recorded "@ + text::decimal(recorded)
        + " observation(s); the feedback log holds "@ + text::decimal(log.len()) + " ("@
        + text::decimal(feedback::relevant_among(log)) + " relevant)."@;
    if unknown.len() == 0 {
        head
    } else {
        head + " Unknown uris (not in the last recall): "@ + debug_list(unknown) + "."@
    }
}

impl CorpusServer {
    /// The documents.
    pub closed spec fn docs(&self) -> Seq<DocView> {
        self.mem@
    }

    /// What the session holds.
    pub closed spec fn past(&self) -> session::SessionView {
        self.session@
    }

    /// The length of an embedding.
    pub closed spec fn length(&self) -> nat {
        self.dim as nat
    }

    /// Where it stores.
    pub closed spec fn place(&self) -> Option<Seq<char>> {
        crate::record::optional_text(self.store)
    }

    /// A server of documents.
    pub fn new(mem: Corpus, dim: usize, store: Option<String>) -> (s: CorpusServer)
        ensures
            s.docs() == mem@,
            s.past().items.len() == 0,
            s.past().log.len() == 0,
            s.length() == dim,
            s.place() == crate::record::optional_text(store),
    {
        CorpusServer { mem, dim, store, session: Session::new() }
    }

    /// The documents.
    pub fn corpus(&self) -> (c: &Corpus)
        ensures
            c@ == self.docs(),
    {
        &self.mem
    }

    /// The length of an embedding.
    pub fn dim(&self) -> (n: usize)
        ensures
            n == self.length(),
    {
        self.dim
    }

    /// Answers a recall with a window, the texts of its scores beside it, and keeps what it
    /// returned for the labels to come.
    pub fn tool_recall(&mut self, query: &str, window: &RecallWindow, scores: &Vec<String>) -> (s:
        String)
        requires
            scores@.len() == window.items@.len(),
        ensures
            s@ == recall_answer(
                query@,
                window.strategy@,
                scope::recall_views(window.items@),
                window.tokens as nat,
                text::text_views(scores@),
                old(self).docs().len(),
            ),
            final(self).docs() == old(self).docs(),
            final(self).length() == old(self).length(),
            final(self).place() == old(self).place(),
            final(self).past() == (session::SessionView {
                query: query@,
                items: scope::recall_views(window.items@).map_values(
                    |x: scope::RecallItemView| (x.uri, x.score),
                ),
                log: old(self).past().log,
            }),
    {
        let ghost views = scope::recall_views(window.items@);
        let mut kept: Vec<(String, u32)> = Vec::new();
        let mut i: usize = 0;
        while i < window.items.len()
            invariant
                i <= window.items@.len(),
                kept@.len() == i,
                forall|j: int|
                    0 <= j < i ==> (#[trigger] kept@[j]).0@ == window.items@[j].uri@ && kept@[j].1
                        == window.items@[j].score,
            decreases window.items@.len() - i,
        {
            kept.push((window.items[i].uri.as_str().to_owned(), window.items[i].score));
            i += 1;
        }
        proof {
            assert(session::pair_views(kept@) =~= views.map_values(
                |x: scope::RecallItemView| (x.uri, x.score),
            ));
        }
        self.session.keep(query, kept);
        write_answer(query, window, scores, self.mem.docs.len())
    }

    /// Adds documents; one without a name is named by its place.
    pub fn tool_remember(&mut self, args: &Args, documents: Option<Vec<Args>>) -> (r: Result<
        String,
        String,
    >)
        requires
            old(self).docs().len() + (match documents {
                Some(d) => d@.len(),
                None => 1,
            }) <= usize::MAX,
        ensures
            final(self).past() == old(self).past(),
            final(self).length() == old(self).length(),
            final(self).place() == old(self).place(),
            ({
                let list = match documents {
                    Some(d) => Some(all_args(d@)),
                    None => None,
                };
                match (r, remember_request(args@, list)) {
                    (Ok(m), Ok(docs)) => {
                        &&& final(self).docs() == old(self).docs() + all_named(
                            docs,
                            old(self).docs().len(),
                        )
                        &&& m@ == "Remembered "@ + text::decimal(docs.len())
                            + " document(s); corpus now holds "@ + text::decimal(
                            old(self).docs().len() + docs.len(),
                        ) + " document(s)."@
                    },
                    (Err(m), Err(e)) => m@ == e && final(self).docs() == old(self).docs(),
                    _ => false,
                }
            }),
    {
        let docs = match &documents {
            Some(list) => {
                proof {
                    lemma_docs_len(all_args(list@));
                }
                parse_docs(list)?
            },
            None => {
                if !args.has("content") {
                    return Err(
                        "provide `documents` (array) or a single `content` string".to_owned(),
                    );
                }
                let d = parse_doc(args)?;
                let mut one: Vec<Doc> = Vec::new();
                one.push(d);
                proof {
                    assert(doc_views(one@) =~= seq![d@]);
                }
                one
            },
        };
        let count: usize = docs.len();
        if count == 0 {
            proof {
                assert(doc_views(docs@).len() == 0);
            }
            return Err("no documents to remember".to_owned());
        }
        let ghost added = doc_views(docs@);
        let held: usize = self.mem.docs.len();
        self.add(docs);
        let mut m = "Remembered ".to_owned();
        push_decimal(&mut m, count as u128);
        m.append(" document(s); corpus now holds ");
        push_decimal(&mut m, (held + count) as u128);
        m.append(" document(s).");
        Ok(m)
    }

    fn add(&mut self, docs: Vec<Doc>)
        requires
            old(self).docs().len() + docs@.len() <= usize::MAX,
        ensures
            final(self).past() == old(self).past(),
            final(self).length() == old(self).length(),
            final(self).place() == old(self).place(),
            final(self).docs() == old(self).docs() + all_named(
                doc_views(docs@),
                old(self).docs().len(),
            ),
    {
        let ghost before = self.docs();
        let ghost added = all_named(doc_views(docs@), before.len());
        let mut i: usize = 0;
        proof {
            assert(before + added.take(0) =~= before);
        }
        while i < docs.len()
            invariant
                i <= docs@.len(),
                before.len() + docs@.len() <= usize::MAX,
                added == all_named(doc_views(docs@), before.len()),
                self.session == old(self).session,
                self.dim == old(self).dim,
                self.store == old(self).store,
                doc_views(self.mem.docs@) == before + added.take(i as int),
                self.mem.docs@.len() == before.len() + i,
            decreases docs@.len() - i,
        {
            let ghost was = self.mem.docs@;
            let uri = if text::is_blank(docs[i].uri.as_str()) {
                let mut u = "doc:".to_owned();
                push_decimal(&mut u, (self.mem.docs.len() + 1) as u128);
                u
            } else {
                docs[i].uri.as_str().to_owned()
            };
            let d = Doc {
                uri,
                content: docs[i].content.as_str().to_owned(),
                keywords: clone_texts(&docs[i].keywords),
            };
            proof {
                assert(doc_views(docs@)[i as int] == docs@[i as int]@);
                assert(d@ == added[i as int]);
            }
            self.mem.docs.push(d);
            proof {
                assert(doc_views(self.mem.docs@) =~= doc_views(was).push(d@));
                assert(doc_views(self.mem.docs@) =~= before + added.take(i + 1));
            }
            i += 1;
        }
        proof {
            assert(added.take(i as int) =~= added);
        }
    }

    /// Labels documents of the last recall by their uris; unknown uris are reported.
    pub fn tool_feedback(&mut self, args: &Args) -> (r: Result<String, String>)
        ensures
            final(self).docs() == old(self).docs(),
            final(self).length() == old(self).length(),
            final(self).place() == old(self).place(),
            match (r, corpus_feedback(args@, old(self).past())) {
                (Ok(m), Ok((labels, unknown))) => {
                    &&& final(self).past() == (session::SessionView {
                        log: old(self).past().log + labels,
                        ..old(self).past()
                    })
                    &&& m@ == feedback_answer(labels.len(), final(self).past().log, unknown)
                },
                (Err(m), Err(e)) => m@ == e && final(self).past() == old(self).past(),
                _ => false,
            },
    {
        if self.session.has_nothing() {
            return Err("feedback needs a prior recall in this session".to_owned());
        }
        let yes = take_texts(args, "relevant");
        let no = take_texts(args, "irrelevant");
        let report = self.session.label_items(yes, no, false)?;
        let mut m = "Recorded ".to_owned();
        push_decimal(&mut m, report.recorded as u128);
        m.append(" observation(s); the feedback log holds ");
        push_decimal(&mut m, report.total as u128);
        m.append(" (");
        push_decimal(&mut m, self.session.feedback_relevant() as u128);
        m.append(" relevant).");
        if report.unknown.len() > 0 {
            m.append(" Unknown uris (not in the last recall): ");
            m.append(list_debug(&report.unknown).as_str());
            m.append(".");
        }
        proof {
            assert(text::text_views(report.unknown@).len() == report.unknown@.len());
        }
        Ok(m)
    }

    /// Counts what is stored.
    pub fn tool_stats(&self) -> (m: String)
        ensures
            m@ == text::decimal(self.docs().len()) + " document(s); embedding dim="@
                + text::decimal(self.length()) + "; store="@ + (match self.place() {
                Some(p) => p,
                None => "(in-memory only)"@,
            }) + "; feedback: "@ + text::decimal(self.past().log.len()) + " observation(s) ("@
                + text::decimal(feedback::relevant_among(self.past().log)) + " relevant)."@,
    {
        let mut m = String::new();
        proof {
            assert(m@ =~= Seq::<char>::empty());
        }
        push_decimal(&mut m, self.mem.docs.len() as u128);
        proof {
            assert(m@ =~= text::decimal(self.docs().len()));
        }
        m.append(" document(s); embedding dim=");
        push_decimal(&mut m, self.dim as u128);
        m.append("; store=");
        match &self.store {
            Some(p) => m.append(p.as_str()),
            None => m.append("(in-memory only)"),
        }
        m.append("; feedback: ");
        push_decimal(&mut m, self.session.feedback_recorded() as u128);
        m.append(" observation(s) (");
        push_decimal(&mut m, self.session.feedback_relevant() as u128);
        m.append(" relevant).");
        m
    }

    /// Removes all documents.
    pub fn tool_clear(&mut self) -> (m: String)
        ensures
            final(self).docs().len() == 0,
            final(self).past() == old(self).past(),
            final(self).length() == old(self).length(),
            final(self).place() == old(self).place(),
            m@ == "Cleared "@ + text::decimal(old(self).docs().len()) + " document(s)."@,
    {
        let mut m = "Cleared ".to_owned();
        push_decimal(&mut m, self.mem.docs.len() as u128);
        m.append(" document(s).");
        self.mem = Corpus::new(Vec::new());
        m
    }
}

proof fn lemma_docs_len(s: Seq<mcp::ArgsView>)
    ensures
        docs_of(s) matches Ok(d) ==> d.len() == s.len(),
    decreases s.len(),
{
    if s.len() > 0 {
        lemma_docs_len(s.drop_last());
    }
}

fn clone_texts(v: &Vec<String>) -> (r: Vec<String>)
    ensures
        text::text_views(r@) == text::text_views(v@),
{
    let mut out: Vec<String> = Vec::new();
    let mut i: usize = 0;
    while i < v.len()
        invariant
            i <= v@.len(),
            out@.len() == i,
            forall|j: int| 0 <= j < i ==> (#[trigger] out@[j])@ == v@[j]@,
        decreases v@.len() - i,
    {
        out.push(v[i].as_str().to_owned());
        i += 1;
    }
    proof {
        assert(text::text_views(out@) =~= text::text_views(v@));
    }
    out
}

/// The scope of a query is every document without keywords and every one of which it mentions a
/// keyword, whatever its case, in their order, and no other.
pub proof fn law_scope_is_what_the_query_mentions(docs: Seq<DocView>, q: Seq<char>)
    ensures
        scoped(docs, q) == docs.filter(
            |d: DocView|
                d.keywords.len() == 0 || exists|i: int|
                    0 <= i < d.keywords.len() && #[trigger] text::occurs(
                        q,
                        scope::lower_form(d.keywords[i]),
                    ),
        ).map_values(|d: DocView| scope::ScopeItemView { uri: d.uri, content: d.content }),
    decreases docs.len(),
{
    reveal(Seq::filter);
    let keep = |d: DocView|
        d.keywords.len() == 0 || exists|i: int|
            0 <= i < d.keywords.len() && #[trigger] text::occurs(
                q,
                scope::lower_form(d.keywords[i]),
            );
    let item = |d: DocView| scope::ScopeItemView { uri: d.uri, content: d.content };
    if docs.len() > 0 {
        let less = docs.drop_last();
        law_scope_is_what_the_query_mentions(less, q);
        assert(keep(docs.last()) == in_scope(docs.last(), q));
        if keep(docs.last()) {
            assert(less.filter(keep).push(docs.last()).map_values(item) =~= less.filter(
                keep,
            ).map_values(item).push(item(docs.last())));
        }
    }
    assert(scoped(docs, q) =~= docs.filter(keep).map_values(item));
}

/// Every text of a list counts, in its place, and what is no text is passed over.
pub proof fn law_texts_of_a_list(s: Seq<Option<Seq<char>>>)
    ensures
        texts_among(s) == s.filter(|t: Option<Seq<char>>| t is Some).map_values(
            |t: Option<Seq<char>>| t->0,
        ),
    decreases s.len(),
{
    reveal(Seq::filter);
    let keep = |t: Option<Seq<char>>| t is Some;
    let inner = |t: Option<Seq<char>>| t->0;
    if s.len() > 0 {
        let less = s.drop_last();
        law_texts_of_a_list(less);
        if keep(s.last()) {
            assert(less.filter(keep).push(s.last()).map_values(inner) =~= less.filter(
                keep,
            ).map_values(inner).push(s.last()->0));
        }
    }
    assert(texts_among(s) =~= s.filter(keep).map_values(inner));
}

/// Documents are remembered all or not at all: each is the one that its arguments describe, in
/// their order; where one is at fault, the fault is that of the first.
pub proof fn law_documents_all_or_none(s: Seq<mcp::ArgsView>)
    ensures
        match docs_of(s) {
            Ok(docs) => docs.len() == s.len() && forall|i: int|
                0 <= i < s.len() ==> doc_of(#[trigger] s[i]) == Ok::<_, Seq<char>>(docs[i]),
            Err(e) => exists|i: int|
                0 <= i < s.len() && doc_of(#[trigger] s[i]) == Err::<DocView, _>(e) && forall|j: int|
                    0 <= j < i ==> doc_of(#[trigger] s[j]) is Ok,
        },
    decreases s.len(),
{
    if s.len() > 0 {
        let less = s.drop_last();
        law_documents_all_or_none(less);
        match docs_of(less) {
            Ok(before) => {
                assert forall|i: int| 0 <= i < less.len() implies doc_of(#[trigger] s[i]) == Ok::<
                    _,
                    Seq<char>,
                >(before[i]) by {
                    assert(less[i] == s[i]);
                }
                if doc_of(s.last()) is Err {
                    assert(s[s.len() - 1] == s.last());
                }
            },
            Err(e) => {
                let i = choose|i: int|
                    0 <= i < less.len() && doc_of(#[trigger] less[i]) == Err::<DocView, _>(e)
                        && forall|j: int| 0 <= j < i ==> doc_of(#[trigger] less[j]) is Ok;
                assert(s[i] == less[i]);
                assert forall|j: int| 0 <= j < i implies doc_of(#[trigger] s[j]) is Ok by {
                    assert(less[j] == s[j]);
                }
            },
        }
    }
}

/// The answer to a recall has the line of every item, in their order, each with its place and
/// its score.
pub proof fn law_every_item_has_its_line(
    items: Seq<scope::RecallItemView>,
    scores: Seq<Seq<char>>,
    n: int,
)
    requires
        0 <= n <= items.len(),
    ensures
        item_lines(items, scores, n) == Seq::new(
            n as nat,
            |i: int|
                text::decimal((i + 1) as nat) + ". ["@ + scores[i] + "] "@ + items[i].uri + " — "@
                    + items[i].content + "\n"@,
        ).flatten(),
    decreases n,
{
    let line = |i: int|
        text::decimal((i + 1) as nat) + ". ["@ + scores[i] + "] "@ + items[i].uri + " — "@
            + items[i].content + "\n"@;
    let lines = Seq::new(n as nat, line);
    if n > 0 {
        law_every_item_has_its_line(items, scores, n - 1);
        let less = Seq::new((n - 1) as nat, line);
        assert(lines =~= less.push(line(n - 1)));
        less.lemma_flatten_push(line(n - 1));
        assert(item_lines(items, scores, n) =~= less.flatten() + line(n - 1));
    } else {
        assert(lines.len() == 0);
        assert(item_lines(items, scores, n) =~= lines.flatten());
    }
}

/// Every tool is found by its name, and a name that is none's finds none.
pub proof fn law_tools_are_found_by_name(t: CorpusTool, name: Seq<char>)
    ensures
        tool_of(t.word()) == Ok::<_, Seq<char>>(t),
        tool_of(name) is Err <==> forall|u: CorpusTool| #[trigger] u.word() != name,
        every_tool().contains(t),
{
    reveal_strlit("recall");
    reveal_strlit("remember");
    reveal_strlit("feedback");
    reveal_strlit("stats");
    reveal_strlit("clear");
    assert("recall"@[2] == 'c' && "remember"@[2] == 'm');
    assert("recall"@[0] != "feedback"@[0] && "recall"@[0] != "stats"@[0] && "recall"@[0]
        != "clear"@[0]);
    assert("remember"@[0] != "feedback"@[0] && "remember"@[0] != "stats"@[0] && "remember"@[0]
        != "clear"@[0]);
    assert("feedback"@[0] != "stats"@[0] && "feedback"@[0] != "clear"@[0]);
    assert("stats"@[0] != "clear"@[0]);
    let i: int = match t {
        CorpusTool::Recall => 0,
        CorpusTool::Remember => 1,
        CorpusTool::Feedback => 2,
        CorpusTool::Stats => 3,
        CorpusTool::Clear => 4,
    };
    assert(every_tool()[i] == t);
    if tool_of(name) is Ok {
        assert((tool_of(name)->Ok_0).word() == name);
    }
}

/// Every document has a name when it is added: its own, or one by its place among all; and nothing
/// else of it changes.
pub proof fn law_every_document_is_named(docs: Seq<DocView>, held: nat, i: int)
    requires
        0 <= i < docs.len(),
    ensures
        all_named(docs, held).len() == docs.len(),
        !text::blank(docs[i].uri) ==> all_named(docs, held)[i] == docs[i],
        text::blank(docs[i].uri) ==> all_named(docs, held)[i].uri == "doc:"@ + text::decimal(
            (held + i + 1) as nat,
        ),
        all_named(docs, held)[i].content == docs[i].content,
        all_named(docs, held)[i].keywords == docs[i].keywords,
{
}

/// A document is what its arguments describe: its content without the white space around it, which
/// must not be blank, the uri as given and every keyword that is a text.
pub proof fn law_documents_are_as_described(args: mcp::ArgsView)
    ensures
        doc_of(args) is Ok <==> !text::blank(mcp::text_given(args, "content"@)),
        doc_of(args) matches Ok(d) ==> {
            &&& d.content == text::trim(mcp::text_given(args, "content"@))
            &&& d.uri == mcp::text_given(args, "uri"@)
            &&& d.keywords == texts_arg(args, "keywords"@)
        },
{
    text::law_trim_blank(mcp::text_given(args, "content"@));
    assert(text::blank(Seq::<char>::empty()));
}

/// A count is the number given, or the default, and one at least.
pub proof fn law_counts_are_as_given(args: mcp::ArgsView, key: Seq<char>, default: u64)
    ensures
        1 <= count_arg(args, key, default) <= usize::MAX,
        mcp::number_given(args, key) matches Some(n) ==> (1 <= n <= usize::MAX ==> count_arg(
            args,
            key,
            default,
        ) == n),
        mcp::number_given(args, key) is None && 1 <= default <= usize::MAX ==> count_arg(
            args,
            key,
            default,
        ) == default,
{
}

/// A recall asks for what is given: the query without the white space around it, which must not be
/// blank, the items, by default five, and the tokens, by default 256.
pub proof fn law_recall_asks_for_what_is_given(args: mcp::ArgsView)
    ensures
        recall_request(args) is Ok <==> !text::blank(mcp::text_given(args, "query"@)),
        recall_request(args) matches Ok((q, k, budget)) ==> {
            &&& q == text::trim(mcp::text_given(args, "query"@))
            &&& mcp::number_given(args, "k"@) matches Some(n) ==> (1 <= n <= usize::MAX ==> k == n)
            &&& mcp::number_given(args, "k"@) is None ==> k == 5
            &&& mcp::number_given(args, "budget_tokens"@) matches Some(n) ==> (1 <= n <= usize::MAX
                ==> budget == n)
            &&& mcp::number_given(args, "budget_tokens"@) is None ==> budget == 256
        },
{
    text::law_trim_blank(mcp::text_given(args, "query"@));
    assert(text::blank(Seq::<char>::empty()));
}

/// The length of an embedding is the number that the setting gives, where it is above zero, and
/// 256 else; it is never zero.
pub proof fn law_length_is_never_zero(setting: Option<Seq<char>>)
    ensures
        dim_of(setting) > 0,
        setting matches Some(s) ==> (text::unsigned_value(s, usize::MAX as nat) matches Some(n)
            ==> (n > 0 ==> dim_of(setting) == n)),
        setting is None ==> dim_of(setting) == 256,
{
}

/// Feedback labels what the last recall returned, as it was given, and names every uri that it did
/// not return; it needs a recall before it.
pub proof fn law_feedback_labels_what_was_recalled(
    args: mcp::ArgsView,
    s: session::SessionView,
)
    ensures
        corpus_feedback(args, s) is Ok <==> s.items.len() > 0,
        corpus_feedback(args, s) matches Ok((labels, unknown)) ==> {
            let yes = texts_arg(args, "relevant"@);
            let no = texts_arg(args, "irrelevant"@);
            &&& labels.len() + unknown.len() == yes.len() + no.len()
            &&& forall|i: int|
                0 <= i < labels.len() ==> {
                    let e = #[trigger] labels[i];
                    &&& e.relevant ==> yes.contains(e.memory)
                    &&& !e.relevant ==> no.contains(e.memory)
                    &&& e.query == s.query
                    &&& session::item_at(s.items, e.memory) == Some(e.score)
                }
        },
{
    if s.items.len() > 0 {
        let yes = texts_arg(args, "relevant"@);
        let no = texts_arg(args, "irrelevant"@);
        session::law_every_uri_is_accounted_for(s, yes, true);
        session::law_every_uri_is_accounted_for(s, no, false);
        let first = session::labels_of(s, yes, true);
        let second = session::labels_of(s, no, false);
        let labels = first + second;
        assert forall|i: int| 0 <= i < labels.len() implies {
            let e = #[trigger] labels[i];
            &&& e.relevant ==> yes.contains(e.memory)
            &&& !e.relevant ==> no.contains(e.memory)
            &&& e.query == s.query
            &&& session::item_at(s.items, e.memory) == Some(e.score)
        } by {
            if i < first.len() {
                assert(labels[i] == first[i]);
            } else {
                assert(labels[i] == second[i - first.len()]);
            }
        }
    }
}

/// The methods that the server knows, and that it names any other.
pub proof fn law_methods_are_known(method: Seq<char>)
    ensures
        answer_to("initialize"@) is Initialize,
        answer_to("ping"@) is Pong,
        answer_to("tools/list"@) is ListTools,
        answer_to("tools/call"@) is CallTool,
        answer_to("resources/list"@) is NoResources,
        answer_to("prompts/list"@) is NoPrompts,
        answer_to(method) is Initialize ==> method == "initialize"@,
        answer_to(method) is Pong ==> method == "ping"@,
        answer_to(method) is ListTools ==> method == "tools/list"@,
        answer_to(method) is CallTool ==> method == "tools/call"@,
        answer_to(method) is NoResources ==> method == "resources/list"@,
        answer_to(method) is NoPrompts ==> method == "prompts/list"@,
        answer_to(method) matches AnswerView::NotFound(m) ==> m == "method not found: "@ + method,
{
    reveal_strlit("initialize");
    reveal_strlit("ping");
    reveal_strlit("tools/list");
    reveal_strlit("tools/call");
    reveal_strlit("resources/list");
    reveal_strlit("prompts/list");
    assert("initialize"@.len() == 10 && "initialize"@[0] == 'i');
    assert("ping"@.len() == 4);
    assert("tools/list"@.len() == 10 && "tools/list"@[0] == 't' && "tools/list"@[6] == 'l');
    assert("tools/call"@.len() == 10 && "tools/call"@[0] == 't' && "tools/call"@[6] == 'c');
    assert("resources/list"@.len() == 14);
    assert("prompts/list"@.len() == 12);
}

/// The answer to a recall tells the query, and of what was found the number, the strategy, the
/// tokens and every item's line; where nothing was found, how much there is.
pub proof fn law_recall_answer_tells_all(
    query: Seq<char>,
    strategy: Seq<char>,
    items: Seq<scope::RecallItemView>,
    tokens: nat,
    scores: Seq<Seq<char>>,
    held: nat,
)
    ensures
        ({
            let s = recall_answer(query, strategy, items, tokens, scores, held);
            &&& text::occurs(s, crate::fileguard::debug_form(query))
            &&& items.len() > 0 ==> {
                &&& text::occurs(s, strategy)
                &&& text::occurs(s, text::decimal(items.len()) + " item(s)"@)
                &&& text::occurs(s, text::decimal(tokens) + " token(s)"@)
                &&& text::occurs(s, item_lines(items, scores, items.len() as int))
            }
            &&& items.len() == 0 ==> text::occurs(s, text::decimal(held) + " document(s)"@)
        }),
{
    let s = recall_answer(query, strategy, items, tokens, scores, held);
    let q = crate::fileguard::debug_form(query);
    if items.len() == 0 {
        let n = text::decimal(held) + " document(s)"@;
        reveal_strlit(" document(s)).");
        reveal_strlit(" document(s)");
        reveal_strlit(").");
        assert(" document(s))."@ =~= " document(s)"@ + ")."@);
        let a = "No matches for "@ + q + " (corpus holds "@;
        text::law_parts_occur(a, n, ")."@, n);
        assert(a + n + ")."@ =~= s);
        text::law_parts_occur("No matches for "@, q, " (corpus holds "@ + n + ")."@, q);
        assert("No matches for "@ + q + (" (corpus holds "@ + n + ")."@) =~= s);
    } else {
        let lines = item_lines(items, scores, items.len() as int);
        let n = text::decimal(items.len()) + " item(s)"@;
        let t = text::decimal(tokens) + " token(s)"@;
        reveal_strlit(" item(s), ~");
        reveal_strlit(" item(s)");
        reveal_strlit(", ~");
        reveal_strlit(" token(s):\n");
        reveal_strlit(" token(s)");
        reveal_strlit(":\n");
        assert(" item(s), ~"@ =~= " item(s)"@ + ", ~"@);
        assert(" token(s):\n"@ =~= " token(s)"@ + ":\n"@);
        let a = "recall("@;
        let b = ") — strategy="@;
        let e = Seq::<char>::empty();
        text::law_parts_occur(a, q, b + strategy + ", "@ + n + ", ~"@ + t + ":\n"@ + lines, q);
        assert(a + q + (b + strategy + ", "@ + n + ", ~"@ + t + ":\n"@ + lines) =~= s);
        text::law_parts_occur(a + q + b, strategy, ", "@ + n + ", ~"@ + t + ":\n"@ + lines, q);
        assert(a + q + b + strategy + (", "@ + n + ", ~"@ + t + ":\n"@ + lines) =~= s);
        text::law_parts_occur(a + q + b + strategy + ", "@, n, ", ~"@ + t + ":\n"@ + lines, q);
        assert(a + q + b + strategy + ", "@ + n + (", ~"@ + t + ":\n"@ + lines) =~= s);
        text::law_parts_occur(
            a + q + b + strategy + ", "@ + n + ", ~"@,
            t,
            ":\n"@ + lines,
            q,
        );
        assert(a + q + b + strategy + ", "@ + n + ", ~"@ + t + (":\n"@ + lines) =~= s);
        text::law_parts_occur(
            a + q + b + strategy + ", "@ + n + ", ~"@ + t + ":\n"@,
            lines,
            e,
            q,
        );
        assert(a + q + b + strategy + ", "@ + n + ", ~"@ + t + ":\n"@ + lines + e =~= s);
    }
}

} // verus!
