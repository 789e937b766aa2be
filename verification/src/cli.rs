//! The command line: its options, its commands, and what they print.
use crate::embed::{EmbedError, EmbedFault};
use crate::mcp;
use crate::text;
use crate::text::push_decimal;
use vstd::prelude::*;

verus! {

/// The file of the store, where nothing else is said.
pub const DEFAULT_STORE: &'static str = "octasoma.frac";

/// Where the embedding service is, where nothing else is said.
pub const DEFAULT_URL: &'static str = "http://localhost:11434";

/// The model of the embedding service, where nothing else is said.
pub const DEFAULT_MODEL: &'static str = "nomic-embed-text";

/// The length of an embedding of the embedding service, where nothing else is said.
pub const DEFAULT_OLLAMA_DIM: usize = 768;

/// The length of a hashed embedding, where nothing else is said.
pub const DEFAULT_HASH_DIM: usize = 256;

/// What the command line understands.
pub const USAGE: &'static str = "octasoma — command-line semantic memory

USAGE:
  octasoma <command> [text...] [options]

COMMANDS:
  remember <text>     store a memory
  recall   <query>    list the most relevant memories
  reflect  <query>    print a prompt-ready context block
  explain  <query>    show WHY: zoom path + nearest memories + 3-D positions
  export   <file>     dump 3-D points to JSON for a viewer
  stats               show store statistics
  help                show this help

OPTIONS:
  --store <path>      memory file (default: ./octasoma.frac, or $OCTASOMA_STORE)
  -k, --top-k <n>     how many memories to return (default: 5)
  --hash              offline embedder (no model server; exact-text recall only)
  --url <url>         Ollama base URL (default: http://localhost:11434)
  --model <name>      embedding model (default: nomic-embed-text)
  --dim <n>           embedding dimensionality (default: 768 ollama / 256 hash)

EXAMPLES:
  octasoma remember \"I prefer dark mode\"
  octasoma recall \"what do I prefer?\"
  octasoma --hash remember \"works fully offline\"
  octasoma --hash recall \"offline\"";

/// The words ask for help: there are none, or the first does.
pub open spec fn wants_help(words: Seq<Seq<char>>) -> bool {
    words.len() == 0 || words[0] == "help"@ || words[0] == "-h"@ || words[0] == "--help"@
}

/// Whether the words ask for help.
pub fn asks_for_help(words: &Vec<String>) -> (r: bool)
    ensures
        r == wants_help(text::text_views(words@)),
{
    if words.len() == 0 {
        return true;
    }
    let w = words[0].as_str();
    proof {
        assert(text::text_views(words@)[0] == w@);
    }
    text::text_equal(w, "help") || text::text_equal(w, "-h") || text::text_equal(w, "--help")
}

/// The options of the command line.
#[derive(Debug)]
pub struct CliOptions {
    /// The command.
    pub command: String,
    /// The other words.
    pub positionals: Vec<String>,
    /// The file of the store.
    pub store: String,
    /// Whether texts are hashed in place of being embedded.
    pub use_hash: bool,
    /// Where the embedding service is.
    pub url: String,
    /// The model of the embedding service.
    pub model: String,
    /// The length of an embedding.
    pub dim: Option<usize>,
    /// How many memories to return.
    pub k: usize,
}

/// The options as values.
pub struct CliView {
    pub command: Seq<char>,
    pub positionals: Seq<Seq<char>>,
    pub store: Seq<char>,
    pub use_hash: bool,
    pub url: Seq<char>,
    pub model: Seq<char>,
    pub dim: Option<nat>,
    pub k: nat,
}

impl View for CliOptions {
    type V = CliView;

    open spec fn view(&self) -> CliView {
        CliView {
            command: self.command@,
            positionals: text::text_views(self.positionals@),
            store: self.store@,
            use_hash: self.use_hash,
            url: self.url@,
            model: self.model@,
            dim: match self.dim {
                Some(n) => Some(n as nat),
                None => None,
            },
            k: self.k as nat,
        }
    }
}

/// The number at a place, where there is one.
pub open spec fn number_at(words: Seq<Seq<char>>, i: int) -> Option<nat> {
    if 0 <= i < words.len() {
        text::unsigned_value(words[i], usize::MAX as nat)
    } else {
        None
    }
}

/// The options that the words from a place on set, or why they cannot.
pub open spec fn cli_from(words: Seq<Seq<char>>, i: int, o: CliView) -> Result<CliView, Seq<char>>
    decreases words.len() + 2 - i,
{
    if !(0 <= i < words.len()) {
        Ok(o)
    } else if words[i] == "--hash"@ {
        cli_from(words, i + 1, CliView { use_hash: true, ..o })
    } else if words[i] == "--store"@ {
        if i + 1 < words.len() {
            cli_from(words, i + 2, CliView { store: words[i + 1], ..o })
        } else {
            Err("--store needs a path"@)
        }
    } else if words[i] == "--url"@ {
        if i + 1 < words.len() {
            cli_from(words, i + 2, CliView { url: words[i + 1], ..o })
        } else {
            Err("--url needs a value"@)
        }
    } else if words[i] == "--model"@ {
        if i + 1 < words.len() {
            cli_from(words, i + 2, CliView { model: words[i + 1], ..o })
        } else {
            Err("--model needs a value"@)
        }
    } else if words[i] == "--dim"@ {
        match number_at(words, i + 1) {
            Some(n) => cli_from(words, i + 2, CliView { dim: Some(n), ..o }),
            None => Err("--dim needs an integer"@),
        }
    } else if words[i] == "-k"@ || words[i] == "--top-k"@ {
        match number_at(words, i + 1) {
            Some(n) => cli_from(words, i + 2, CliView { k: n, ..o }),
            None => Err("-k needs an integer"@),
        }
    } else if o.command.len() == 0 {
        cli_from(words, i + 1, CliView { command: words[i], ..o })
    } else {
        cli_from(words, i + 1, CliView { positionals: o.positionals.push(words[i]), ..o })
    }
}

/// The options without any word, of a store that the environment may name.
pub open spec fn cli_defaults(store: Option<Seq<char>>) -> CliView {
    CliView {
        command: Seq::empty(),
        positionals: Seq::empty(),
        store: match store {
            Some(s) => s,
            None => DEFAULT_STORE@,
        },
        use_hash: false,
        url: DEFAULT_URL@,
        model: DEFAULT_MODEL@,
        dim: None,
        k: 5,
    }
}

fn take_number(words: &Vec<String>, i: usize) -> (n: Option<usize>)
    ensures
        match n {
            Some(k) => number_at(text::text_views(words@), i as int) == Some(k as nat),
            None => number_at(text::text_views(words@), i as int) is None,
        },
{
    if i < words.len() {
        match text::parse_unsigned(words[i].as_str(), usize::MAX as u64) {
            Some(n) => Some(n as usize),
            None => None,
        }
    } else {
        None
    }
}

fn take_value(words: &Vec<String>, i: usize) -> (s: Option<String>)
    ensures
        match s {
            Some(v) => i < words@.len() && v@ == text::text_views(words@)[i as int],
            None => i >= words@.len(),
        },
{
    if i < words.len() {
        Some(words[i].as_str().to_owned())
    } else {
        None
    }
}

/// Reads the words of the command line; flags may stand anywhere. `store` is what the
/// environment says.
pub fn parse_cli(words: &Vec<String>, store: Option<String>) -> (r: Result<CliOptions, String>)
    requires
        words@.len() + 1 < usize::MAX,
    ensures
        match (
            r,
            cli_from(
                text::text_views(words@),
                0,
                cli_defaults(crate::record::optional_text(store)),
            ),
        ) {
            (Ok(a), Ok(b)) => a@ == b,
            (Err(a), Err(b)) => a@ == b,
            _ => false,
        },
{
    let ghost views = text::text_views(words@);
    let ghost start = cli_defaults(crate::record::optional_text(store));
    let mut o = CliOptions {
        command: String::new(),
        positionals: Vec::new(),
        store: match store {
            Some(s) => s,
            None => DEFAULT_STORE.to_owned(),
        },
        use_hash: false,
        url: DEFAULT_URL.to_owned(),
        model: DEFAULT_MODEL.to_owned(),
        dim: None,
        k: 5,
    };
    let mut i: usize = 0;
    proof {
        assert(o.command@ =~= Seq::<char>::empty());
        assert(text::text_views(o.positionals@) =~= Seq::<Seq<char>>::empty());
    }
    while i < words.len()
        invariant
            i <= words@.len() + 1,
            words@.len() + 1 < usize::MAX,
            views == text::text_views(words@),
            cli_from(views, i as int, o@) == cli_from(views, 0, start),
            start == cli_defaults(crate::record::optional_text(store)),
        decreases words@.len() + 1 - i,
    {
        let w = words[i].as_str();
        proof {
            assert(views[i as int] == w@);
        }
        if text::text_equal(w, "--hash") {
            o.use_hash = true;
            i += 1;
        } else if text::text_equal(w, "--store") {
            match take_value(words, i + 1) {
                Some(v) => {
                    o.store = v;
                },
                None => {
                    return Err("--store needs a path".to_owned());
                },
            }
            i += 2;
        } else if text::text_equal(w, "--url") {
            match take_value(words, i + 1) {
                Some(v) => {
                    o.url = v;
                },
                None => {
                    return Err("--url needs a value".to_owned());
                },
            }
            i += 2;
        } else if text::text_equal(w, "--model") {
            match take_value(words, i + 1) {
                Some(v) => {
                    o.model = v;
                },
                None => {
                    return Err("--model needs a value".to_owned());
                },
            }
            i += 2;
        } else if text::text_equal(w, "--dim") {
            match take_number(words, i + 1) {
                Some(n) => {
                    o.dim = Some(n);
                },
                None => {
                    return Err("--dim needs an integer".to_owned());
                },
            }
            i += 2;
        } else if text::text_equal(w, "-k") || text::text_equal(w, "--top-k") {
            match take_number(words, i + 1) {
                Some(n) => {
                    o.k = n;
                },
                None => {
                    return Err("-k needs an integer".to_owned());
                },
            }
            i += 2;
        } else {
            if mcp::is_empty(o.command.as_str()) {
                o.command = w.to_owned();
            } else {
                let ghost before = o.positionals@;
                o.positionals.push(w.to_owned());
                proof {
                    assert(text::text_views(o.positionals@) =~= text::text_views(before).push(w@));
                }
            }
            i += 1;
        }
    }
    Ok(o)
}

/// The length of an embedding that the options choose.
pub fn embedding_length(o: &CliOptions) -> (n: usize)
    ensures
        n == (match o.dim {
            Some(d) => d,
            None => if o.use_hash {
                DEFAULT_HASH_DIM
            } else {
                DEFAULT_OLLAMA_DIM
            },
        }),
{
    match o.dim {
        Some(d) => d,
        None => if o.use_hash {
            DEFAULT_HASH_DIM
        } else {
            DEFAULT_OLLAMA_DIM
        },
    }
}

/// A command.
#[derive(Clone, Copy, Debug, PartialEq, Eq, Structural)]
pub enum Command {
    /// Stores a memory.
    Remember,
    /// Lists the nearest memories.
    Recall,
    /// Prints the nearest memories as a context.
    Reflect,
    /// Shows why a recall finds what it finds.
    Explain,
    /// Writes the points for a viewer.
    Export,
    /// Counts what is stored.
    Stats,
}

/// The command of a word.
pub open spec fn command_of(word: Seq<char>) -> Option<Command> {
    if word == "remember"@ || word == "add"@ || word == "store"@ {
        Some(Command::Remember)
    } else if word == "recall"@ || word == "query"@ || word == "search"@ {
        Some(Command::Recall)
    } else if word == "reflect"@ || word == "context"@ {
        Some(Command::Reflect)
    } else if word == "explain"@ || word == "why"@ {
        Some(Command::Explain)
    } else if word == "export"@ {
        Some(Command::Export)
    } else if word == "stats"@ || word == "info"@ {
        Some(Command::Stats)
    } else {
        None
    }
}

/// Why a command without a text does nothing; `stats` needs none.
pub open spec fn missing_text(c: Command) -> Option<Seq<char>> {
    match c {
        Command::Remember => Some("nothing to remember (provide some text)"@),
        Command::Recall => Some("nothing to recall (provide a query)"@),
        Command::Reflect => Some("nothing to reflect on (provide a query)"@),
        Command::Explain => Some("nothing to explain (provide a query)"@),
        Command::Export => Some("provide an output path, e.g. `octasoma export memory.json`"@),
        Command::Stats => None,
    }
}

/// The command to run, or why there is none.
pub open spec fn planned(word: Seq<char>, argument: Seq<char>) -> Result<Command, Seq<char>> {
    match command_of(word) {
        None => Err("unknown command '"@ + word + "' (try `octasoma help`)"@),
        Some(c) => match missing_text(c) {
            Some(m) => if argument.len() == 0 {
                Err(m)
            } else {
                Ok(c)
            },
            None => Ok(c),
        },
    }
}

fn find_command(word: &str) -> (c: Option<Command>)
    ensures
        c == command_of(word@),
{
    if text::text_equal(word, "remember") || text::text_equal(word, "add") || text::text_equal(
        word,
        "store",
    ) {
        Some(Command::Remember)
    } else if text::text_equal(word, "recall") || text::text_equal(word, "query")
        || text::text_equal(word, "search") {
        Some(Command::Recall)
    } else if text::text_equal(word, "reflect") || text::text_equal(word, "context") {
        Some(Command::Reflect)
    } else if text::text_equal(word, "explain") || text::text_equal(word, "why") {
        Some(Command::Explain)
    } else if text::text_equal(word, "export") {
        Some(Command::Export)
    } else if text::text_equal(word, "stats") || text::text_equal(word, "info") {
        Some(Command::Stats)
    } else {
        None
    }
}

/// The command to run, or why there is none.
pub fn plan(word: &str, argument: &str) -> (r: Result<Command, String>)
    ensures
        match (r, planned(word@, argument@)) {
            (Ok(a), Ok(b)) => a == b,
            (Err(a), Err(b)) => a@ == b,
            _ => false,
        },
{
    let c = match find_command(word) {
        Some(c) => c,
        None => {
            let mut m = "unknown command '".to_owned();
            m.append(word);
            m.append("' (try `octasoma help`)");
            return Err(m);
        },
    };
    if !mcp::is_empty(argument) {
        return Ok(c);
    }
    match c {
        Command::Remember => Err("nothing to remember (provide some text)".to_owned()),
        Command::Recall => Err("nothing to recall (provide a query)".to_owned()),
        Command::Reflect => Err("nothing to reflect on (provide a query)".to_owned()),
        Command::Explain => Err("nothing to explain (provide a query)".to_owned()),
        Command::Export => Err(
            "provide an output path, e.g. `octasoma export memory.json`".to_owned(),
        ),
        Command::Stats => Ok(c),
    }
}

/// Whether a command may begin a new store; the others need one that is there.
pub fn may_create(c: Command) -> (r: bool)
    ensures
        r == (c == Command::Remember),
{
    match c {
        Command::Remember => true,
        _ => false,
    }
}

/// The error of a store that is not there.
pub fn no_store(store: &str) -> (m: String)
    ensures
        m@ == "no memory at "@ + store@ + " yet — run `octasoma remember \"...\"` first"@,
{
    let mut m = "no memory at ".to_owned();
    m.append(store);
    m.append(" yet — run `octasoma remember \"...\"` first");
    m
}

/// The error of a store that cannot be opened.
pub fn cannot_open(store: &str, why: &str) -> (m: String)
    ensures
        m@ == "could not open "@ + store@ + ": "@ + why@
            + " (was it created with a different embedder/dimension?)"@,
{
    let mut m = "could not open ".to_owned();
    m.append(store);
    m.append(": ");
    m.append(why);
    m.append(" (was it created with a different embedder/dimension?)");
    m
}

/// The error of a failed embedding, with a hint where the service may not be running.
pub fn embed_err(e: &EmbedError) -> (m: String)
    ensures
        m@ == (match e@ {
            EmbedFault::Io(io) => "embedding request failed: "@ + io.message
                + "\nhint: start your model server (e.g. `ollama serve`) or run offline with `--hash`"@,
            EmbedFault::Protocol(why) => "embedding endpoint returned an unexpected reply: "@ + why,
        }),
{
    match e {
        EmbedError::Io(io) => {
            let mut m = "embedding request failed: ".to_owned();
            m.append(io.message());
            m.append(
                "\nhint: start your model server (e.g. `ollama serve`) or run offline with `--hash`",
            );
            m
        },
        EmbedError::Protocol(why) => {
            let mut m = "embedding endpoint returned an unexpected reply: ".to_owned();
            m.append(why.as_str());
            m
        },
    }
}

/// What `remember` prints.
pub fn remembered(memories: usize, store: &str) -> (m: String)
    ensures
        m@ == "remembered ("@ + text::decimal(memories as nat) + " memories in "@ + store@ + ")"@,
{
    let mut m = "remembered (".to_owned();
    push_decimal(&mut m, memories as u128);
    m.append(" memories in ");
    m.append(store);
    m.append(")");
    m
}

/// What `export` prints.
pub fn exported(memories: usize, path: &str) -> (m: String)
    ensures
        m@ == "exported "@ + text::decimal(memories as nat) + " memories to "@ + path@
            + " (3-D points for a viewer)"@,
{
    let mut m = "exported ".to_owned();
    push_decimal(&mut m, memories as u128);
    m.append(" memories to ");
    m.append(path);
    m.append(" (3-D points for a viewer)");
    m
}

/// The memories, each with its place before it.
pub open spec fn numbered(hits: Seq<Seq<char>>) -> Seq<Seq<char>> {
    Seq::new(hits.len(), |i: int| text::decimal((i + 1) as nat) + ". "@ + hits[i])
}

/// What `recall` prints, line by line.
pub open spec fn recall_lines(hits: Seq<Seq<char>>) -> Seq<Seq<char>> {
    if hits.len() == 0 {
        seq!["(no memories found)"@]
    } else {
        numbered(hits)
    }
}

/// What `recall` prints, line by line.
pub fn print_recall(hits: &Vec<String>) -> (lines: Vec<String>)
    ensures
        text::text_views(lines@) == recall_lines(text::text_views(hits@)),
{
    let mut out: Vec<String> = Vec::new();
    if hits.len() == 0 {
        out.push("(no memories found)".to_owned());
        proof {
            assert(text::text_views(out@) =~= seq!["(no memories found)"@]);
        }
        return out;
    }
    let ghost views = text::text_views(hits@);
    let mut i: usize = 0;
    while i < hits.len()
        invariant
            i <= hits@.len(),
            views == text::text_views(hits@),
            out@.len() == i,
            forall|j: int| 0 <= j < i ==> (#[trigger] out@[j])@ == numbered(views)[j],
        decreases hits@.len() - i,
    {
        let mut line = String::new();
        proof {
            assert(line@ =~= Seq::<char>::empty());
        }
        push_decimal(&mut line, (i + 1) as u128);
        line.append(". ");
        line.append(hits[i].as_str());
        proof {
            assert(line@ =~= numbered(views)[i as int]);
        }
        out.push(line);
        i += 1;
    }
    proof {
        assert(text::text_views(out@) =~= numbered(views));
    }
    out
}

/// What `reflect` prints: the memories, one below the other.
pub fn print_reflection(hits: &Vec<String>) -> (s: String)
    ensures
        s@ == (if text::joined(text::text_views(hits@), "\n"@).len() == 0 {
            "(no memories found)"@
        } else {
            text::joined(text::text_views(hits@), "\n"@)
        }),
{
    let s = text::join(hits, "\n");
    if mcp::is_empty(s.as_str()) {
        "(no memories found)".to_owned()
    } else {
        s
    }
}

/// A number in a column of eight characters, at its right.
pub open spec fn column(n: nat) -> Seq<char> {
    let d = text::decimal(n);
    if d.len() >= 8 {
        d
    } else {
        Seq::new((8 - d.len()) as nat, |i: int| ' ') + d
    }
}

fn push_column(s: &mut String, n: usize)
    ensures
        final(s)@ == old(s)@ + column(n as nat),
{
    let ghost before = s@;
    let mut d = String::new();
    proof {
        assert(d@ =~= Seq::<char>::empty());
    }
    push_decimal(&mut d, n as u128);
    proof {
        assert(d@ =~= text::decimal(n as nat));
    }
    let v = text::chars_of(d.as_str());
    let mut i: usize = v.len();
    while i < 8
        invariant
            v@ == d@,
            v@.len() <= i,
            i <= 8 || i == v@.len(),
            s@ == before + Seq::new((i - v@.len()) as nat, |j: int| ' '),
        decreases 8 - i,
    {
        proof {
            assert((before + Seq::new((i - v@.len()) as nat, |j: int| ' ')).push(' ') =~= before
                + Seq::new((i + 1 - v@.len()) as nat, |j: int| ' '));
        }
        s.push(' ');
        i += 1;
    }
    s.append(d.as_str());
    proof {
        assert(s@ =~= before + column(n as nat));
    }
}

/// What `stats` prints.
pub fn print_stats(store: &str, memories: usize, nodes: usize, arena: usize, high_dim: usize) -> (s:
    String)
    ensures
        s@ == "store:   "@ + store@ + "\nmemories:"@ + column(memories as nat) + "\nnodes:   "@
            + column(nodes as nat) + "\narena:   "@ + column(arena as nat)
            + " bytes\nhigh_dim:"@ + column(high_dim as nat),
{
    let mut s = "store:   ".to_owned();
    s.append(store);
    s.append("\nmemories:");
    push_column(&mut s, memories);
    s.append("\nnodes:   ");
    push_column(&mut s, nodes);
    s.append("\narena:   ");
    push_column(&mut s, arena);
    s.append(" bytes\nhigh_dim:");
    push_column(&mut s, high_dim);
    s
}

/// The word is the name of an option.
pub open spec fn is_option(w: Seq<char>) -> bool {
    w == "--hash"@ || w == "--store"@ || w == "--url"@ || w == "--model"@ || w == "--dim"@ || w
        == "-k"@ || w == "--top-k"@
}

/// Options are read from the front: each word or pair sets its own field and the rest is read from
/// there on. The first other word is the command and all that follow are its arguments, in their
/// order. An option that wants a value and has none, or no number where it wants one, is refused.
pub proof fn law_each_option_sets_its_field(rest: Seq<Seq<char>>, v: Seq<char>, o: CliView)
    ensures
        cli_from(Seq::empty(), 0, o) == Ok::<_, Seq<char>>(o),
        cli_from(seq!["--hash"@] + rest, 0, o) == cli_from(rest, 0, CliView { use_hash: true, ..o }),
        cli_from(seq!["--store"@, v] + rest, 0, o) == cli_from(rest, 0, CliView { store: v, ..o }),
        cli_from(seq!["--url"@, v] + rest, 0, o) == cli_from(rest, 0, CliView { url: v, ..o }),
        cli_from(seq!["--model"@, v] + rest, 0, o) == cli_from(rest, 0, CliView { model: v, ..o }),
        text::unsigned_value(v, usize::MAX as nat) matches Some(n) ==> {
            &&& cli_from(seq!["--dim"@, v] + rest, 0, o) == cli_from(
                rest,
                0,
                CliView { dim: Some(n), ..o },
            )
            &&& cli_from(seq!["-k"@, v] + rest, 0, o) == cli_from(rest, 0, CliView { k: n, ..o })
            &&& cli_from(seq!["--top-k"@, v] + rest, 0, o) == cli_from(
                rest,
                0,
                CliView { k: n, ..o },
            )
        },
        text::unsigned_value(v, usize::MAX as nat) is None ==> {
            &&& cli_from(seq!["--dim"@, v] + rest, 0, o) is Err
            &&& cli_from(seq!["-k"@, v] + rest, 0, o) is Err
            &&& cli_from(seq!["--top-k"@, v] + rest, 0, o) is Err
        },
        cli_from(seq!["--store"@], 0, o) is Err,
        cli_from(seq!["--url"@], 0, o) is Err,
        cli_from(seq!["--model"@], 0, o) is Err,
        cli_from(seq!["--dim"@], 0, o) is Err,
        cli_from(seq!["-k"@], 0, o) is Err,
        !is_option(v) && o.command.len() == 0 ==> cli_from(seq![v] + rest, 0, o) == cli_from(
            rest,
            0,
            CliView { command: v, ..o },
        ),
        !is_option(v) && o.command.len() > 0 ==> cli_from(seq![v] + rest, 0, o) == cli_from(
            rest,
            0,
            CliView { positionals: o.positionals.push(v), ..o },
        ),
{
    lemma_option_words();
    let a = seq!["--hash"@];
    assert((a + rest)[0] == "--hash"@);
    lemma_cli_shift(a, rest, 1, CliView { use_hash: true, ..o });
    lemma_pair("--store"@, v, rest);
    lemma_cli_shift(seq!["--store"@, v], rest, 2, CliView { store: v, ..o });
    lemma_pair("--url"@, v, rest);
    lemma_cli_shift(seq!["--url"@, v], rest, 2, CliView { url: v, ..o });
    lemma_pair("--model"@, v, rest);
    lemma_cli_shift(seq!["--model"@, v], rest, 2, CliView { model: v, ..o });
    lemma_pair("--dim"@, v, rest);
    lemma_pair("-k"@, v, rest);
    lemma_pair("--top-k"@, v, rest);
    if let Some(n) = text::unsigned_value(v, usize::MAX as nat) {
        lemma_cli_shift(seq!["--dim"@, v], rest, 2, CliView { dim: Some(n), ..o });
        lemma_cli_shift(seq!["-k"@, v], rest, 2, CliView { k: n, ..o });
        lemma_cli_shift(seq!["--top-k"@, v], rest, 2, CliView { k: n, ..o });
    }
    assert((seq![v] + rest)[0] == v);
    lemma_cli_shift(seq![v], rest, 1, CliView { command: v, ..o });
    lemma_cli_shift(seq![v], rest, 1, CliView { positionals: o.positionals.push(v), ..o });
}

proof fn lemma_pair(w: Seq<char>, v: Seq<char>, rest: Seq<Seq<char>>)
    ensures
        (seq![w, v] + rest)[0] == w,
        (seq![w, v] + rest)[1] == v,
        (seq![w, v] + rest).len() >= 2,
{
}

proof fn lemma_option_words()
    ensures
        "--hash"@.len() == 6,
        "--store"@.len() == 7,
        "--url"@.len() == 5,
        "--model"@.len() == 7,
        "--dim"@.len() == 5,
        "-k"@.len() == 2,
        "--top-k"@.len() == 7,
        "--url"@ != "--dim"@,
        "--store"@ != "--model"@,
        "--store"@ != "--top-k"@,
        "--model"@ != "--top-k"@,
{
    reveal_strlit("--hash");
    reveal_strlit("--store");
    reveal_strlit("--url");
    reveal_strlit("--model");
    reveal_strlit("--dim");
    reveal_strlit("-k");
    reveal_strlit("--top-k");
    assert("--url"@[2] != "--dim"@[2]);
    assert("--store"@[2] != "--model"@[2]);
    assert("--store"@[2] != "--top-k"@[2]);
    assert("--model"@[2] != "--top-k"@[2]);
}

proof fn lemma_cli_shift(a: Seq<Seq<char>>, rest: Seq<Seq<char>>, i: int, o: CliView)
    requires
        i >= a.len(),
    ensures
        cli_from(a + rest, i, o) == cli_from(rest, i - a.len(), o),
    decreases a.len() + rest.len() + 2 - i,
{
    let s = a + rest;
    let j = i - a.len();
    if i < s.len() {
        assert(s[i] == rest[j]);
        if i + 1 < s.len() {
            assert(s[i + 1] == rest[j + 1]);
        }
        let w = rest[j];
        let v = s[i + 1];
        let n = number_at(s, i + 1);
        if w == "--hash"@ {
            lemma_cli_shift(a, rest, i + 1, CliView { use_hash: true, ..o });
        } else if w == "--store"@ {
            if i + 1 < s.len() {
                lemma_cli_shift(a, rest, i + 2, CliView { store: v, ..o });
            }
        } else if w == "--url"@ {
            if i + 1 < s.len() {
                lemma_cli_shift(a, rest, i + 2, CliView { url: v, ..o });
            }
        } else if w == "--model"@ {
            if i + 1 < s.len() {
                lemma_cli_shift(a, rest, i + 2, CliView { model: v, ..o });
            }
        } else if w == "--dim"@ {
            if n is Some {
                lemma_cli_shift(a, rest, i + 2, CliView { dim: n, ..o });
            }
        } else if w == "-k"@ || w == "--top-k"@ {
            if n is Some {
                lemma_cli_shift(a, rest, i + 2, CliView { k: n->0, ..o });
            }
        } else if o.command.len() == 0 {
            lemma_cli_shift(a, rest, i + 1, CliView { command: w, ..o });
        } else {
            lemma_cli_shift(a, rest, i + 1, CliView { positionals: o.positionals.push(w), ..o });
        }
    }
}

/// A command is run just where it is known and has what it needs; a column is at least eight wide
/// and ends with its number; and recalled memories are numbered from one, in their order.
pub proof fn law_commands_and_columns(
    word: Seq<char>,
    argument: Seq<char>,
    n: nat,
    hits: Seq<Seq<char>>,
    i: int,
)
    ensures
        planned(word, argument) is Ok <==> command_of(word) is Some && (argument.len() > 0
            || command_of(word) == Some(Command::Stats)),
        planned(word, argument) matches Ok(c) ==> command_of(word) == Some(c),
        column(n).len() >= 8,
        exists|j: int|
            0 <= j <= column(n).len() && #[trigger] column(n).skip(j) == text::decimal(n) && forall|
                k: int,
            |
                0 <= k < j ==> column(n)[k] == ' ',
        hits.len() > 0 ==> recall_lines(hits).len() == hits.len(),
        0 <= i < hits.len() ==> recall_lines(hits)[i] == text::decimal((i + 1) as nat) + ". "@
            + hits[i],
        hits.len() == 0 ==> recall_lines(hits) == seq!["(no memories found)"@],
{
    let d = text::decimal(n);
    let j = if d.len() >= 8 {
        0
    } else {
        8 - d.len()
    };
    assert(column(n).skip(j) =~= d);
}

/// Each command has its words, and no other word is a command.
pub proof fn law_command_words(w: Seq<char>)
    ensures
        command_of(w) == Some(Command::Remember) <==> w == "remember"@ || w == "add"@ || w
            == "store"@,
        command_of(w) == Some(Command::Export) <==> w == "export"@,
        command_of(w) == Some(Command::Recall) <==> w == "recall"@ || w == "query"@ || w
            == "search"@,
        command_of(w) == Some(Command::Reflect) <==> w == "reflect"@ || w == "context"@,
        command_of(w) == Some(Command::Explain) <==> w == "explain"@ || w == "why"@,
        command_of(w) == Some(Command::Stats) <==> w == "stats"@ || w == "info"@,
{
    reveal_strlit("remember");
    reveal_strlit("add");
    reveal_strlit("store");
    reveal_strlit("recall");
    reveal_strlit("query");
    reveal_strlit("search");
    reveal_strlit("reflect");
    reveal_strlit("context");
    reveal_strlit("explain");
    reveal_strlit("why");
    reveal_strlit("export");
    reveal_strlit("stats");
    reveal_strlit("info");
    assert("remember"@.len() == 8);
    assert("add"@.len() == 3 && "add"@[0] == 'a');
    assert("why"@.len() == 3 && "why"@[0] == 'w');
    assert("info"@.len() == 4);
    assert("store"@.len() == 5 && "store"@[0] == 's' && "store"@[2] == 'o');
    assert("stats"@.len() == 5 && "stats"@[0] == 's' && "stats"@[2] == 'a');
    assert("query"@.len() == 5 && "query"@[0] == 'q');
    assert("recall"@.len() == 6 && "recall"@[0] == 'r');
    assert("search"@.len() == 6 && "search"@[0] == 's');
    assert("export"@.len() == 6 && "export"@[0] == 'e');
    assert("reflect"@.len() == 7 && "reflect"@[0] == 'r');
    assert("context"@.len() == 7 && "context"@[0] == 'c');
    assert("explain"@.len() == 7 && "explain"@[0] == 'e');
}

} // verus!
