//! Embedding providers: the deterministic hash embedder, and the requests and replies of a
//! local model server.
use crate::error::StoreError;
use crate::text;
use crate::text::push_decimal;
use vstd::prelude::*;
use vstd::string::*;
use vstd::utf8::*;

verus! {

/// Why a text could not be embedded.
#[derive(Debug)]
pub enum EmbedError {
    /// The transport failed.
    Io(StoreError),
    /// The reply could not be understood.
    Protocol(String),
}

/// An error as a value.
pub enum EmbedFault {
    Io(crate::error::ErrorView),
    Protocol(Seq<char>),
}

impl EmbedFault {
    /// The error as a text.
    pub open spec fn text(self) -> Seq<char> {
        match self {
            EmbedFault::Io(e) => "embedding I/O error: "@ + e.message,
            EmbedFault::Protocol(m) => "embedding protocol error: "@ + m,
        }
    }
}

impl View for EmbedError {
    type V = EmbedFault;

    open spec fn view(&self) -> EmbedFault {
        match self {
            EmbedError::Io(e) => EmbedFault::Io(e@),
            EmbedError::Protocol(m) => EmbedFault::Protocol(m@),
        }
    }
}

impl EmbedError {
    /// The error as a text.
    pub fn message(&self) -> (m: String)
        ensures
            m@ == self@.text(),
    {
        match self {
            EmbedError::Io(e) => {
                let mut m = "embedding I/O error: ".to_owned();
                m.append(e.message());
                m
            },
            EmbedError::Protocol(why) => {
                let mut m = "embedding protocol error: ".to_owned();
                m.append(why.as_str());
                m
            },
        }
    }

    /// A protocol error.
    pub fn protocol(why: &str) -> (e: EmbedError)
        ensures
            e@ == EmbedFault::Protocol(why@),
    {
        EmbedError::Protocol(why.to_owned())
    }
}

/// The fault of an embedding of the wrong length, or with a value that is not finite.
pub open spec fn embedding_fault(expected: nat, len: nat, finite: bool) -> Option<EmbedFault> {
    if len != expected {
        Some(
            EmbedFault::Protocol(
                "embedding has "@ + text::decimal(len) + " values, expected "@ + text::decimal(
                    expected,
                ),
            ),
        )
    } else if !finite {
        Some(EmbedFault::Protocol("embedding has a value that is not finite"@))
    } else {
        None
    }
}

/// Holds an embedding's length against the expected one, and its values to be finite.
pub fn check_embedding(expected: usize, len: usize, finite: bool) -> (r: Result<(), EmbedError>)
    ensures
        match r {
            Ok(_) => embedding_fault(expected as nat, len as nat, finite) is None,
            Err(e) => embedding_fault(expected as nat, len as nat, finite) == Some(e@),
        },
{
    if len != expected {
        let mut m = "embedding has ".to_owned();
        push_decimal(&mut m, len as u128);
        m.append(" values, expected ");
        push_decimal(&mut m, expected as u128);
        return Err(EmbedError::Protocol(m));
    }
    if !finite {
        return Err(EmbedError::protocol("embedding has a value that is not finite"));
    }
    Ok(())
}

/// The FNV-1a hash of the first bytes of a text, `n` of them.
pub open spec fn fnv(bytes: Seq<u8>) -> u64
    decreases bytes.len(),
{
    if bytes.len() == 0 {
        0xcbf2_9ce4_8422_2325
    } else {
        vstd::wrapping::u64_specs::wrapping_mul(
            fnv(bytes.drop_last()) ^ (bytes.last() as u64),
            0x0000_0100_0000_01b3,
        )
    }
}

/// An embedder that seeds the generator with a hash of the text. It is deterministic and
/// not semantic.
#[derive(Debug)]
pub struct HashEmbedder {
    dim: usize,
}

impl HashEmbedder {
    #[verifier::type_invariant]
    spec fn sized(self) -> bool {
        self.dim > 0
    }

    /// The length of its embeddings.
    pub closed spec fn size(&self) -> usize {
        self.dim
    }

    /// An embedder of vectors of length `dim`.
    pub fn new(dim: usize) -> (e: HashEmbedder)
        requires
            dim > 0,
        ensures
            e.size() == dim,
    {
        HashEmbedder { dim }
    }

    /// The length of its embeddings, which is not zero.
    pub fn dim(&self) -> (n: usize)
        ensures
            n == self.size(),
            n > 0,
    {
        proof {
            use_type_invariant(&*self);
        }
        self.dim
    }

    /// The seed of a text: the FNV-1a hash of its bytes.
    pub fn seed_of(text: &str) -> (h: u64)
        ensures
            h == fnv(encode_utf8(text@)),
    {
        let bytes = text.as_bytes();
        let mut h: u64 = 0xcbf2_9ce4_8422_2325;
        let mut i: usize = 0;
        while i < bytes.len()
            invariant
                i <= bytes@.len(),
                h == fnv(bytes@.take(i as int)),
            decreases bytes@.len() - i,
        {
            proof {
                assert(bytes@.take(i + 1).drop_last() =~= bytes@.take(i as int));
            }
            h = h ^ (bytes[i] as u64);
            h = h.wrapping_mul(0x0000_0100_0000_01b3);
            i += 1;
        }
        proof {
            assert(bytes@.take(i as int) =~= bytes@);
        }
        h
    }
}

/// A client of a local model server.
#[derive(Debug)]
pub struct OllamaEmbedder {
    base_url: String,
    model: String,
    endpoint: String,
    dim: usize,
    timeout_ms: u64,
}

/// A client as a value.
pub struct ClientView {
    pub base_url: Seq<char>,
    pub model: Seq<char>,
    pub endpoint: Seq<char>,
    pub dim: usize,
    pub timeout_ms: u64,
}

impl View for OllamaEmbedder {
    type V = ClientView;

    closed spec fn view(&self) -> ClientView {
        ClientView {
            base_url: self.base_url@,
            model: self.model@,
            endpoint: self.endpoint@,
            dim: self.dim,
            timeout_ms: self.timeout_ms,
        }
    }
}

/// A text without the slashes at its end.
pub open spec fn without_slashes(s: Seq<char>) -> Seq<char>
    decreases s.len(),
{
    if s.len() > 0 && s.last() == '/' {
        without_slashes(s.drop_last())
    } else {
        s
    }
}

/// The body of a request: the model and the text, as JSON.
pub open spec fn request_json(model: Seq<char>, prompt: Seq<char>) -> Seq<char> {
    "{\"model\":"@ + json_text(model) + ",\"prompt\":"@ + json_text(prompt) + "}"@
}

impl OllamaEmbedder {
    /// A client of `model` at `base_url`, whose embeddings have length `dim`. It asks at
    /// `/api/embeddings` and waits a minute.
    pub fn new(base_url: &str, model: &str, dim: usize) -> (c: OllamaEmbedder)
        requires
            dim > 0,
        ensures
            c@ == (ClientView {
                base_url: without_slashes(base_url@),
                model: model@,
                endpoint: "/api/embeddings"@,
                dim,
                timeout_ms: 60_000,
            }),
    {
        let v = text::chars_of(base_url);
        let mut to: usize = v.len();
        proof {
            assert(v@.take(v@.len() as int) =~= v@);
        }
        while to > 0 && v[to - 1] == '/'
            invariant
                to <= v@.len(),
                without_slashes(v@) == without_slashes(v@.take(to as int)),
            decreases to,
        {
            proof {
                assert(v@.take(to as int).drop_last() =~= v@.take(to - 1));
            }
            to -= 1;
        }
        let base = text::text_of(&v, 0, to);
        proof {
            assert(base@ =~= v@.take(to as int));
        }
        OllamaEmbedder {
            base_url: base,
            model: model.to_owned(),
            endpoint: "/api/embeddings".to_owned(),
            dim,
            timeout_ms: 60_000,
        }
    }

    /// Asks at another path.
    pub fn with_endpoint(self, endpoint: &str) -> (c: OllamaEmbedder)
        ensures
            c@ == (ClientView { endpoint: endpoint@, ..self@ }),
    {
        OllamaEmbedder {
            base_url: self.base_url,
            model: self.model,
            endpoint: endpoint.to_owned(),
            dim: self.dim,
            timeout_ms: self.timeout_ms,
        }
    }

    /// Waits for another time, in milliseconds.
    pub fn with_timeout(self, timeout_ms: u64) -> (c: OllamaEmbedder)
        ensures
            c@ == (ClientView { timeout_ms, ..self@ }),
    {
        OllamaEmbedder {
            base_url: self.base_url,
            model: self.model,
            endpoint: self.endpoint,
            dim: self.dim,
            timeout_ms,
        }
    }

    /// The length of its embeddings.
    pub fn dim(&self) -> (n: usize)
        ensures
            n == self@.dim,
    {
        self.dim
    }

    /// The time to wait, in milliseconds.
    pub fn timeout_ms(&self) -> (n: u64)
        ensures
            n == self@.timeout_ms,
    {
        self.timeout_ms
    }

    /// Where to ask.
    pub fn url(&self) -> (s: String)
        ensures
            s@ == self@.base_url + self@.endpoint,
    {
        let mut s = self.base_url.as_str().to_owned();
        s.append(self.endpoint.as_str());
        s
    }

    /// What to ask for a text.
    pub fn request_body(&self, prompt: &str) -> (s: String)
        ensures
            s@ == request_json(self@.model, prompt@),
    {
        let mut s = "{\"model\":".to_owned();
        s.append(json_string(self.model.as_str()).as_str());
        s.append(",\"prompt\":");
        s.append(json_string(prompt).as_str());
        s.append("}");
        s
    }
}

/// A hexadecimal digit, in lower case.
pub open spec fn hex_char(d: nat) -> char {
    if d < 10 {
        (48 + d) as char
    } else {
        (87 + d) as char
    }
}

/// A character inside a JSON string.
pub open spec fn json_char(c: char) -> Seq<char> {
    if c == '"' {
        "\\\""@
    } else if c == '\\' {
        "\\\\"@
    } else if c == '\n' {
        "\\n"@
    } else if c == '\r' {
        "\\r"@
    } else if c == '\t' {
        "\\t"@
    } else if (c as u32) < 0x20 {
        "\\u00"@ + seq![hex_char((c as nat) / 16), hex_char((c as nat) % 16)]
    } else {
        seq![c]
    }
}

/// The characters inside a JSON string.
pub open spec fn json_inner(s: Seq<char>) -> Seq<char>
    decreases s.len(),
{
    if s.len() == 0 {
        Seq::empty()
    } else {
        json_inner(s.drop_last()) + json_char(s.last())
    }
}

/// A text as a JSON string.
pub open spec fn json_text(s: Seq<char>) -> Seq<char> {
    "\""@ + json_inner(s) + "\""@
}

/// The hexadecimal digit of a number under 16.
fn hex_digit(d: u32) -> (c: char)
    requires
        d < 16,
    ensures
        c == hex_char(d as nat),
{
    if d < 10 {
        (48 + d as u8) as char
    } else {
        (87 + d as u8) as char
    }
}

/// A text as a JSON string, quotes included.
pub fn json_string(s: &str) -> (out: String)
    ensures
        out@ == json_text(s@),
{
    let v = text::chars_of(s);
    let mut out = "\"".to_owned();
    let mut i: usize = 0;
    proof {
        assert("\""@ + json_inner(v@.take(0)) =~= "\""@);
    }
    while i < v.len()
        invariant
            i <= v@.len(),
            out@ == "\""@ + json_inner(v@.take(i as int)),
        decreases v@.len() - i,
    {
        let c: char = v[i];
        let ghost before = out@;
        if c == '"' {
            out.append("\\\"");
        } else if c == '\\' {
            out.append("\\\\");
        } else if c == '\n' {
            out.append("\\n");
        } else if c == '\r' {
            out.append("\\r");
        } else if c == '\t' {
            out.append("\\t");
        } else if (c as u32) < 0x20 {
            let n: u32 = c as u32;
            out.append("\\u00");
            out.push(hex_digit(n / 16));
            out.push(hex_digit(n % 16));
            proof {
                char_u32_cast(c, n);
                assert(n as nat == c as nat);
                let h = hex_char((c as nat) / 16);
                let l = hex_char((c as nat) % 16);
                assert(out@ == (before + "\\u00"@).push(h).push(l));
                assert(before + "\\u00"@ + seq![hex_char((c as nat) / 16)] + seq![
                    hex_char((c as nat) % 16),
                ] =~= before + json_char(c));
                assert(out@ =~= before + json_char(c));
            }
        } else {
            out.push(c);
            proof {
                assert(out@ =~= before + seq![c]);
            }
        }
        proof {
            assert(out@ =~= before + json_char(c));
            assert(v@.take(i + 1).drop_last() =~= v@.take(i as int));
            assert("\""@ + json_inner(v@.take(i as int)) + json_char(c) =~= "\""@ + (json_inner(
                v@.take(i as int),
            ) + json_char(c)));
        }
        i += 1;
    }
    proof {
        assert(v@.take(i as int) =~= s@);
    }
    out.append("\"");
    out
}

/// Where a request goes.
#[derive(Debug)]
pub struct HttpTarget {
    /// The host.
    pub host: String,
    /// The port.
    pub port: u16,
    /// The path.
    pub path: String,
}

/// A target as a value.
pub struct TargetView {
    pub host: Seq<char>,
    pub port: nat,
    pub path: Seq<char>,
}

impl View for HttpTarget {
    type V = TargetView;

    open spec fn view(&self) -> TargetView {
        TargetView { host: self.host@, port: self.port as nat, path: self.path@ }
    }
}

/// The path of what follows the scheme: from the first slash on, or a slash.
pub open spec fn path_of(rest: Seq<char>) -> Seq<char> {
    let i = text::first_pos(rest, '/') as int;
    if i < rest.len() {
        rest.skip(i)
    } else {
        "/"@
    }
}

/// The host and port of what stands before the path: they are parted at the last colon; a
/// port that is no number of 16 bits, or is missing, is 80.
pub open spec fn host_of(authority: Seq<char>) -> (Seq<char>, nat) {
    let i = text::last_pos(authority, ':');
    if i < 0 {
        (authority, 80)
    } else {
        (
            authority.take(i),
            match text::unsigned_value(authority.skip(i + 1), 65535) {
                Some(p) => p,
                None => 80,
            },
        )
    }
}

/// The target of an `http://` URL.
pub open spec fn target_of(url: Seq<char>) -> Option<TargetView> {
    match text::stripped(url, "http://"@) {
        None => None,
        Some(rest) => {
            let (host, port) = host_of(rest.take(text::first_pos(rest, '/') as int));
            Some(TargetView { host, port, path: path_of(rest) })
        },
    }
}

/// Takes an `http://` URL apart; other URLs are refused.
pub fn parse_url(url: &str) -> (r: Result<HttpTarget, StoreError>)
    ensures
        match r {
            Ok(t) => target_of(url@) == Some(t@),
            Err(e) => target_of(url@) is None && e@ == crate::error::invalid_input(
                "only http:// URLs are supported"@,
            ),
        },
{
    let rest = match text::strip_prefix(url, "http://") {
        Some(t) => t,
        None => return Err(StoreError::input("only http:// URLs are supported")),
    };
    let v = text::chars_of(rest.as_str());
    let slash: usize = text::find_char(&v, 0, '/');
    proof {
        assert(v@.skip(0) =~= v@);
    }
    let path = if slash < v.len() {
        text::text_of(&v, slash, v.len())
    } else {
        "/".to_owned()
    };
    let authority = text::text_of(&v, 0, slash);
    let a = text::chars_of(authority.as_str());
    let colon: usize = text::find_last_char(&a, ':');
    proof {
        assert(authority@ =~= v@.take(slash as int));
        if slash < v@.len() {
            assert(v@.subrange(slash as int, v@.len() as int) =~= v@.skip(slash as int));
        }
    }
    if colon == 0 {
        return Ok(HttpTarget { host: authority, port: 80, path });
    }
    let host = text::text_of(&a, 0, colon - 1);
    let number = text::text_of(&a, colon, a.len());
    proof {
        assert(host@ =~= a@.take(colon - 1));
        assert(number@ =~= a@.skip(colon as int));
    }
    let port: u16 = match text::parse_unsigned(number.as_str(), 65535) {
        Some(n) => n as u16,
        None => 80,
    };
    Ok(HttpTarget { host, port, path })
}

/// The text of a request.
pub open spec fn request_text(t: TargetView, body: Seq<char>) -> Seq<char> {
    "POST "@ + t.path + " HTTP/1.1\r\nHost: "@ + t.host
        + "\r\nContent-Type: application/json\r\nContent-Length: "@ + text::decimal(
        encode_utf8(body).len(),
    ) + "\r\nConnection: close\r\n\r\n"@ + body
}

/// The text of a request that posts `body` as JSON.
pub fn http_request(target: &HttpTarget, body: &str) -> (s: String)
    ensures
        s@ == request_text(target@, body@),
{
    let len: usize = body.as_bytes().len();
    let mut s = "POST ".to_owned();
    s.append(target.path.as_str());
    s.append(" HTTP/1.1\r\nHost: ");
    s.append(target.host.as_str());
    s.append("\r\nContent-Type: application/json\r\nContent-Length: ");
    push_decimal(&mut s, len as u128);
    s.append("\r\nConnection: close\r\n\r\n");
    s.append(body);
    s
}

/// `i` is the first place where the pattern stands.
pub open spec fn first_at(s: Seq<char>, pat: Seq<char>, i: int) -> bool {
    text::occurs_at(s, pat, i) && forall|j: int| 0 <= j < i ==> !#[trigger] text::occurs_at(s, pat, j)
}

/// The body of a reply: what follows the first empty line.
pub fn response_body(raw: &str) -> (r: Result<String, StoreError>)
    ensures
        match r {
            Ok(b) => exists|i: int| #[trigger]
                first_at(raw@, "\r\n\r\n"@, i) && b@ == raw@.skip(i + 4),
            Err(e) => !text::occurs(raw@, "\r\n\r\n"@) && e@ == crate::error::invalid_data(
                "malformed HTTP response"@,
            ),
        },
{
    let v = text::chars_of(raw);
    let p = text::chars_of("\r\n\r\n");
    proof {
        reveal_strlit("\r\n\r\n");
    }
    match text::find_text(&v, &p) {
        Some(i) => {
            let n: usize = v.len();
            let b = text::text_of(&v, i + 4, n);
            proof {
                assert(b@ =~= raw@.skip(i + 4));
                assert(first_at(raw@, "\r\n\r\n"@, i as int));
            }
            Ok(b)
        },
        None => Err(StoreError::invalid("malformed HTTP response")),
    }
}

/// The parts of a text between commas.
pub open spec fn comma_parts(s: Seq<char>) -> Seq<Seq<char>>
    decreases s.len(),
{
    let i = text::first_pos(s, ',') as int;
    if i < s.len() {
        seq![s.take(i)] + comma_parts(s.skip(i + 1))
    } else {
        seq![s]
    }
}

/// The parts that are not blank, trimmed.
pub open spec fn tokens(parts: Seq<Seq<char>>) -> Seq<Seq<char>>
    decreases parts.len(),
{
    if parts.len() == 0 {
        Seq::empty()
    } else {
        let t = text::trim(parts[0]);
        (if t.len() == 0 {
            Seq::empty()
        } else {
            seq![t]
        }) + tokens(parts.drop_first())
    }
}

/// The elements of an array: `after` is what follows the key, whose array begins at the
/// next bracket and ends at the first closing one behind it.
pub open spec fn array_after(after: Seq<char>) -> Option<Seq<Seq<char>>> {
    let lb = text::first_pos(after, '[') as int;
    if lb >= after.len() {
        None
    } else {
        let rb = lb + text::first_pos(after.skip(lb), ']');
        if rb >= after.len() {
            None
        } else {
            Some(tokens(comma_parts(after.subrange(lb + 1, rb))))
        }
    }
}

/// The elements of the array that follows a key: nothing where the key or an array after
/// it is missing.
pub fn array_tokens(json: &str, key: &str) -> (r: Option<Vec<String>>)
    ensures
        match r {
            Some(ts) => exists|i: int| #[trigger]
                first_at(json@, "\""@ + key@ + "\""@, i) && array_after(
                    json@.skip(i + key@.len() + 2),
                ) == Some(text::text_views(ts@)),
            None => !text::occurs(json@, "\""@ + key@ + "\""@) || exists|i: int| #[trigger]
                first_at(json@, "\""@ + key@ + "\""@, i) && array_after(
                    json@.skip(i + key@.len() + 2),
                ) is None,
        },
{
    let mut pattern = "\"".to_owned();
    pattern.append(key);
    pattern.append("\"");
    proof {
        reveal_strlit("\"");
    }
    let v = text::chars_of(json);
    let p = text::chars_of(pattern.as_str());
    let at: usize = match text::find_text(&v, &p) {
        Some(i) => i,
        None => return None,
    };
    let n: usize = v.len();
    let rest = text::text_of(&v, at + p.len(), n);
    let after = text::chars_of(rest.as_str());
    proof {
        assert(first_at(json@, pattern@, at as int));
        assert(after@ =~= json@.skip(at + key@.len() + 2));
        assert(after@.skip(0) =~= after@);
    }
    let lb: usize = text::find_char(&after, 0, '[');
    if lb >= after.len() {
        return None;
    }
    let rb: usize = text::find_char(&after, lb, ']');
    if rb >= after.len() {
        return None;
    }
    proof {
        assert(after@[lb as int] == '[');
    }
    let inner = text::text_of(&after, lb + 1, rb);
    Some(split_tokens(inner.as_str()))
}

/// The trimmed parts between commas that are not blank.
fn split_tokens(s: &str) -> (out: Vec<String>)
    ensures
        text::text_views(out@) == tokens(comma_parts(s@)),
{
    let v = text::chars_of(s);
    let mut out: Vec<String> = Vec::new();
    let mut from: usize = 0;
    let n: usize = v.len();
    proof {
        assert(v@.skip(0) =~= v@);
        assert(text::text_views(out@) + tokens(comma_parts(s@)) =~= tokens(comma_parts(s@)));
    }
    loop
        invariant
            from <= n,
            n == v@.len(),
            text::text_views(out@) + tokens(comma_parts(v@.skip(from as int))) == tokens(
                comma_parts(v@),
            ),
            v@ == s@,
        decreases n - from,
    {
        let ghost tail = v@.skip(from as int);
        let ghost before = text::text_views(out@);
        let to: usize = text::find_char(&v, from, ',');
        let part = text::text_of(&v, from, to);
        let t = text::trimmed(part.as_str());
        proof {
            assert(part@ =~= tail.take(to - from));
            let parts = comma_parts(tail);
            if to < n {
                assert(tail.skip(to - from + 1) =~= v@.skip(to + 1));
                assert(parts.drop_first() =~= comma_parts(v@.skip(to + 1)));
            } else {
                assert(tail.take(to - from) =~= tail);
                assert(parts.drop_first() =~= Seq::<Seq<char>>::empty());
            }
            assert(parts[0] == part@);
        }
        if t.len() > 0 {
            let word = text::text_of(&t, 0, t.len());
            proof {
                assert(word@ =~= t@);
                assert(text::text_views(out@.push(word)) =~= before.push(word@));
                assert(before + (seq![t@] + tokens(comma_parts(tail).drop_first()))
                    =~= before.push(t@) + tokens(comma_parts(tail).drop_first()));
            }
            out.push(word);
        } else {
            proof {
                assert(Seq::<Seq<char>>::empty() + tokens(comma_parts(tail).drop_first())
                    =~= tokens(comma_parts(tail).drop_first()));
            }
        }
        if to >= n {
            proof {
                assert(text::text_views(out@) + Seq::<Seq<char>>::empty() =~= text::text_views(
                    out@,
                ));
            }
            return out;
        }
        from = to + 1;
    }
}

/// The reply's fault: no array, or an empty one.
pub open spec fn reply_fault(tokens: Option<Seq<Seq<char>>>) -> Option<EmbedFault> {
    match tokens {
        None => Some(EmbedFault::Protocol("response had no numeric \"embedding\" array"@)),
        Some(ts) => if ts.len() == 0 {
            Some(EmbedFault::Protocol("empty embedding"@))
        } else {
            None
        },
    }
}

/// The elements of a reply's embedding; what the caller cannot read as numbers it hands in
/// as nothing.
pub fn check_reply(numbers: Option<Vec<String>>) -> (r: Result<Vec<String>, EmbedError>)
    ensures
        match r {
            Ok(ts) => numbers matches Some(n) && ts == n && ts@.len() > 0,
            Err(e) => reply_fault(
                match numbers {
                    Some(n) => Some(text::text_views(n@)),
                    None => None,
                },
            ) == Some(e@),
        },
{
    match numbers {
        None => Err(EmbedError::protocol("response had no numeric \"embedding\" array")),
        Some(ts) => if ts.len() == 0 {
            Err(EmbedError::protocol("empty embedding"))
        } else {
            Ok(ts)
        },
    }
}

/// The slashes at the end go, all of them and nothing else.
pub proof fn law_only_end_slashes_go(s: Seq<char>)
    ensures
        exists|n: int|
            0 <= n <= s.len() && without_slashes(s) == #[trigger] s.take(n) && (n > 0 ==> s[n - 1]
                != '/') && forall|i: int| n <= i < s.len() ==> s[i] == '/',
{
    let n = lemma_slashes(s);
    assert(without_slashes(s) == s.take(n));
}

proof fn lemma_slashes(s: Seq<char>) -> (n: int)
    ensures
        0 <= n <= s.len(),
        without_slashes(s) == s.take(n),
        n > 0 ==> s[n - 1] != '/',
        forall|i: int| n <= i < s.len() ==> s[i] == '/',
    decreases s.len(),
{
    if s.len() > 0 && s.last() == '/' {
        let less = s.drop_last();
        let n = lemma_slashes(less);
        assert(less.take(n) =~= s.take(n));
        assert forall|i: int| n <= i < s.len() implies s[i] == '/' by {
            if i < less.len() {
                assert(less[i] == s[i]);
            }
        }
        n
    } else {
        assert(s.take(s.len() as int) =~= s);
        s.len() as int
    }
}

/// A text goes into JSON character by character: two texts in a row give their forms in a row, and
/// a character that needs no escape stands for itself.
pub proof fn law_json_goes_by_characters(a: Seq<char>, b: Seq<char>, c: char)
    ensures
        json_inner(a + b) == json_inner(a) + json_inner(b),
        json_inner(seq![c]) == json_char(c),
        c != '"' && c != '\\' && c as nat >= 32 ==> json_inner(seq![c]) == seq![c],
        c == '"' || c == '\\' || (c as nat) < 32 ==> json_inner(seq![c]).len() >= 2 && json_inner(
            seq![c],
        )[0] == '\\',
    decreases b.len(),
{
    assert(seq![c].drop_last() =~= Seq::empty());
    assert(json_inner(seq![c].drop_last()) =~= Seq::empty());
    assert(json_inner(seq![c]) =~= json_char(c));
    reveal_strlit("\\\"");
    reveal_strlit("\\\\");
    reveal_strlit("\\t");
    reveal_strlit("\\n");
    reveal_strlit("\\r");
    reveal_strlit("\\u00");
    if b.len() == 0 {
        assert(a + b =~= a);
        assert(json_inner(a) + json_inner(b) =~= json_inner(a));
    } else {
        law_json_goes_by_characters(a, b.drop_last(), c);
        assert((a + b).drop_last() =~= a + b.drop_last());
        assert((a + b).last() == b.last());
        assert(json_inner(a + b) =~= json_inner(a) + json_inner(b));
    }
}

/// Commas part a text at every place: no part holds one, and the parts with a comma between each
/// and the next are the text again.
pub proof fn law_commas_part_a_text(a: Seq<char>, rest: Seq<char>)
    requires
        !a.contains(','),
    ensures
        comma_parts(a) == seq![a],
        comma_parts(a.push(',') + rest) == seq![a] + comma_parts(rest),
{
    let s = a.push(',') + rest;
    text::lemma_first_pos(s, ',');
    text::lemma_first_pos(a, ',');
    let p = text::first_pos(s, ',') as int;
    assert(s[a.len() as int] == ',');
    if p < a.len() {
        assert(a.contains(a[p]));
        assert(s[p] == a[p]);
    }
    assert(s.take(p) =~= a);
    assert(s.skip(p + 1) =~= rest);
}

/// The tokens of parts are taken part by part: each is its part without the white space at its
/// ends, and blank parts give none.
pub proof fn law_tokens_go_by_parts(a: Seq<Seq<char>>, b: Seq<Seq<char>>, p: Seq<char>)
    ensures
        tokens(a + b) == tokens(a) + tokens(b),
        text::blank(p) ==> tokens(seq![p]).len() == 0,
        !text::blank(p) ==> tokens(seq![p]) == seq![text::trim(p)],
    decreases a.len(),
{
    text::law_trim_blank(p);
    assert(seq![p].drop_first() =~= Seq::empty());
    assert(tokens(seq![p].drop_first()) =~= Seq::empty());
    if a.len() == 0 {
        assert(a + b =~= b);
        assert(tokens(a) + tokens(b) =~= tokens(b));
    } else {
        law_tokens_go_by_parts(a.drop_first(), b, p);
        assert((a + b).drop_first() =~= a.drop_first() + b);
        assert((a + b)[0] == a[0]);
        assert(tokens(a + b) =~= tokens(a) + tokens(b));
    }
}

/// The array of a reply is what stands between the first opening bracket and the first closing one
/// behind it.
pub proof fn law_array_is_between_brackets(before: Seq<char>, inner: Seq<char>, behind: Seq<char>)
    requires
        !before.contains('['),
        !inner.contains(']'),
    ensures
        array_after(before.push('[') + inner.push(']') + behind) == Some(
            tokens(comma_parts(inner)),
        ),
{
    let s = before.push('[') + inner.push(']') + behind;
    let lb = text::first_pos(s, '[') as int;
    text::lemma_first_pos(s, '[');
    assert(s[before.len() as int] == '[');
    if lb < before.len() {
        assert(s[lb] == before[lb]);
        assert(before.contains(before[lb]));
    }
    let t = s.skip(lb);
    text::lemma_first_pos(t, ']');
    let at = text::first_pos(t, ']') as int;
    assert(t[inner.len() as int + 1] == ']');
    if at < inner.len() + 1 {
        if at == 0 {
            assert(t[0] == '[');
        } else {
            assert(t[at] == inner[at - 1]);
            assert(inner.contains(inner[at - 1]));
        }
    }
    assert(s.subrange(lb + 1, lb + at) =~= inner);
}

/// A URL gives back the host, the port and the path that it was made of; without a port it is 80.
pub proof fn law_url_gives_its_parts(host: Seq<char>, port: nat, path: Seq<char>)
    requires
        !host.contains('/'),
        port <= 65535,
        path.len() > 0,
        path[0] == '/',
    ensures
        target_of("http://"@ + (host.push(':') + text::decimal(port) + path)) == Some(
            TargetView { host, port, path },
        ),
        !host.contains(':') ==> target_of("http://"@ + (host + path)) == Some(
            TargetView { host, port: 80, path },
        ),
        !host.contains(':') ==> target_of("http://"@ + host) == Some(
            TargetView { host, port: 80, path: "/"@ },
        ),
{
    let d = text::decimal(port);
    let authority = host.push(':') + d;
    text::lemma_decimal_digits(port);
    text::law_decimal_round_trip(port, 0, 65535);
    assert forall|i: int| 0 <= i < authority.len() implies authority[i] != '/' by {
        if i < host.len() {
            assert(host.contains(host[i]));
        } else if i > host.len() {
            assert(text::is_digit(d[i - host.len() - 1]));
        }
    }
    lemma_authority(authority, path);
    text::law_last_pos(authority, ':');
    assert(authority[host.len() as int] == ':');
    assert forall|i: int| host.len() < i < authority.len() implies authority[i] != ':' by {
        assert(text::is_digit(d[i - host.len() - 1]));
    }
    assert(text::last_pos(authority, ':') == host.len());
    assert(authority.take(host.len() as int) =~= host);
    assert(authority.skip(host.len() as int + 1) =~= d);
    assert(host.push(':') + d + path =~= authority + path);
    if !host.contains(':') {
        text::law_last_pos(host, ':');
        assert forall|i: int| 0 <= i < host.len() implies host[i] != '/' by {
            assert(host.contains(host[i]));
        }
        lemma_authority(host, path);
        text::lemma_stripped("http://"@, host);
        text::lemma_first_pos(host, '/');
        assert(host.take(host.len() as int) =~= host);
    }
}

proof fn lemma_authority(authority: Seq<char>, path: Seq<char>)
    requires
        forall|i: int| 0 <= i < authority.len() ==> authority[i] != '/',
        path.len() > 0,
        path[0] == '/',
    ensures
        text::stripped("http://"@ + (authority + path), "http://"@) == Some(authority + path),
        text::first_pos(authority + path, '/') == authority.len(),
        (authority + path).take(authority.len() as int) == authority,
        path_of(authority + path) == path,
{
    let rest = authority + path;
    text::lemma_stripped("http://"@, rest);
    text::lemma_first_pos(rest, '/');
    assert(rest[authority.len() as int] == '/');
    let p = text::first_pos(rest, '/') as int;
    if p < authority.len() {
        assert(rest[p] == authority[p]);
    }
    assert(rest.take(authority.len() as int) =~= authority);
    assert(rest.skip(authority.len() as int) =~= path);
}

/// An embedding is taken just where it has the expected length and only finite values, and a reply
/// just where it has an array that is not empty.
pub proof fn law_sound_replies(
    expected: nat,
    len: nat,
    finite: bool,
    found: Option<Seq<Seq<char>>>,
)
    ensures
        embedding_fault(expected, len, finite) is None <==> len == expected && finite,
        reply_fault(found) is None <==> found is Some && found->0.len() > 0,
{
}

/// A request is sent to its path and host, tells the bytes of its body, and ends with a blank line
/// and the body.
pub proof fn law_request_tells_its_length(t: TargetView, body: Seq<char>)
    ensures
        ({
            let s = request_text(t, body);
            &&& s.len() >= body.len() + 4
            &&& s.skip(s.len() - body.len()) == body
            &&& s.subrange(s.len() - body.len() - 4, s.len() - body.len()) == "\r\n\r\n"@
            &&& text::occurs(s, "POST "@ + t.path + " HTTP/1.1\r\n"@)
            &&& text::occurs(s, "Host: "@ + t.host + "\r\n"@)
            &&& text::occurs(s, "Content-Length: "@ + text::decimal(encode_utf8(body).len()))
        }),
{
    let s = request_text(t, body);
    let n = text::decimal(encode_utf8(body).len());
    reveal_strlit(" HTTP/1.1\r\nHost: ");
    reveal_strlit(" HTTP/1.1\r\n");
    reveal_strlit("Host: ");
    reveal_strlit("\r\nContent-Type: application/json\r\nContent-Length: ");
    reveal_strlit("\r\n");
    reveal_strlit("Content-Type: application/json\r\n");
    reveal_strlit("Content-Length: ");
    reveal_strlit("\r\nConnection: close\r\n\r\n");
    reveal_strlit("\r\nConnection: close");
    reveal_strlit("\r\n\r\n");
    let first = "POST "@ + t.path + " HTTP/1.1\r\n"@;
    let host = "Host: "@ + t.host + "\r\n"@;
    let kind = "Content-Type: application/json\r\n"@;
    let length = "Content-Length: "@ + n;
    let end = "\r\nConnection: close"@;
    let blank = "\r\n\r\n"@;
    assert(" HTTP/1.1\r\nHost: "@ =~= " HTTP/1.1\r\n"@ + "Host: "@);
    assert("\r\nContent-Type: application/json\r\nContent-Length: "@ =~= "\r\n"@ + kind
        + "Content-Length: "@);
    assert("\r\nConnection: close\r\n\r\n"@ =~= end + blank);
    assert(s =~= first + host + kind + length + end + blank + body);
    let e = Seq::<char>::empty();
    text::law_parts_occur(e, first, host + kind + length + end + blank + body, first);
    assert(e + first + (host + kind + length + end + blank + body) =~= s);
    text::law_parts_occur(first, host, kind + length + end + blank + body, host);
    assert(first + host + (kind + length + end + blank + body) =~= s);
    text::law_parts_occur(first + host + kind, length, end + blank + body, length);
    assert(first + host + kind + length + (end + blank + body) =~= s);
    let head = first + host + kind + length + end;
    assert(s =~= head + blank + body);
    assert(s.skip(s.len() - body.len()) =~= body);
    assert(s.subrange(s.len() - body.len() - 4, s.len() - body.len()) =~= blank);
}

} // verus!
