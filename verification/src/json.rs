//! JSON: one level of a value read from its text, and objects and lists written as texts.
//!
//! What stands inside a list or an object is held as its own JSON text, and read when it is
//! asked for.
use crate::embed;
use crate::mcp;
use crate::mcp::{Arg, Args};
use crate::text;
use crate::text::{push_decimal, text_equal};
use serde_json::Value;
use vstd::prelude::*;

verus! {

/// One level of a JSON value.
#[derive(Debug)]
pub enum Json {
    /// Nothing.
    Null,
    /// A truth value.
    Bool(bool),
    /// A number, as an integer where it is one from zero to `u64::MAX`.
    Number(Option<u64>),
    /// A text.
    Text(String),
    /// A list of JSON texts.
    List(Vec<String>),
    /// An object: names and JSON texts.
    Object(Vec<(String, String)>),
}

/// One level of a JSON value, as a value.
pub enum JsonView {
    Null,
    Bool(bool),
    Number(Option<u64>),
    Text(Seq<char>),
    List(Seq<Seq<char>>),
    Object(Seq<(Seq<char>, Seq<char>)>),
}

/// The views of the members of an object.
pub open spec fn member_views(v: Seq<(String, String)>) -> Seq<(Seq<char>, Seq<char>)> {
    v.map_values(|m: (String, String)| (m.0@, m.1@))
}

impl View for Json {
    type V = JsonView;

    open spec fn view(&self) -> JsonView {
        match self {
            Json::Null => JsonView::Null,
            Json::Bool(b) => JsonView::Bool(*b),
            Json::Number(n) => JsonView::Number(*n),
            Json::Text(s) => JsonView::Text(s@),
            Json::List(v) => JsonView::List(text::text_views(v@)),
            Json::Object(v) => JsonView::Object(member_views(v@)),
        }
    }
}

/// A JSON value.
pub enum JsonTree {
    /// Nothing.
    Null,
    /// A truth value.
    Bool(bool),
    /// An integer from zero on.
    Whole(u64),
    /// A negative integer.
    Negative(i64),
    /// Another number, by the bit pattern of its double.
    Fraction(u64),
    /// A text.
    Text(Seq<char>),
    /// A list.
    List(Seq<JsonTree>),
    /// An object: names and values.
    Object(Seq<(Seq<char>, JsonTree)>),
}

/// What `serde_json::from_str` reads from a text, or the text of its error.
pub uninterp spec fn json_parsed(s: Seq<char>) -> Result<JsonTree, Seq<char>>;

/// How `serde_json` writes a value.
pub uninterp spec fn json_written(t: JsonTree) -> Seq<char>;

/// One level of a value: what stands inside a list or an object is written as JSON texts.
pub open spec fn level_of(t: JsonTree) -> JsonView {
    match t {
        JsonTree::Null => JsonView::Null,
        JsonTree::Bool(b) => JsonView::Bool(b),
        JsonTree::Whole(n) => JsonView::Number(Some(n)),
        JsonTree::Negative(_) => JsonView::Number(None),
        JsonTree::Fraction(_) => JsonView::Number(None),
        JsonTree::Text(s) => JsonView::Text(s),
        JsonTree::List(v) => JsonView::List(v.map_values(|e: JsonTree| json_written(e))),
        JsonTree::Object(v) => JsonView::Object(
            v.map_values(|m: (Seq<char>, JsonTree)| (m.0, json_written(m.1))),
        ),
    }
}

/// One level of what a text stands for, or why it stands for nothing.
pub open spec fn json_read(s: Seq<char>) -> Result<JsonView, Seq<char>> {
    match json_parsed(s) {
        Ok(t) => Ok(level_of(t)),
        Err(e) => Err(e),
    }
}

/// Calls `serde_json::from_str` for a `serde_json::Value`, and writes what stands inside a
/// list or an object back as JSON texts with its `to_string`. The contract names what was
/// read, and what is written of each part.
#[verifier::external_body]
pub(crate) fn read_json(s: &str) -> (r: Result<Json, String>)
    ensures
        match r {
            Ok(j) => json_parsed(s@) is Ok && j@ == level_of(json_parsed(s@)->Ok_0),
            Err(e) => json_parsed(s@) == Err::<JsonTree, _>(e@),
        },
{
    match serde_json::from_str::<Value>(s) {
        Ok(Value::Null) => Ok(Json::Null),
        Ok(Value::Bool(b)) => Ok(Json::Bool(b)),
        Ok(Value::Number(n)) => Ok(Json::Number(n.as_u64())),
        Ok(Value::String(t)) => Ok(Json::Text(t)),
        Ok(Value::Array(a)) => Ok(Json::List(a.iter().map(|v| v.to_string()).collect())),
        Ok(Value::Object(o)) => {
            Ok(Json::Object(o.into_iter().map(|(k, v)| (k, v.to_string())).collect()))
        },
        Err(e) => Err(e.to_string()),
    }
}

/// A text is read as a value.
pub open spec fn reads_as(s: Seq<char>, t: JsonTree) -> bool {
    json_parsed(s) == Ok::<_, Seq<char>>(t)
}

/// A character as it stands in a quoted text: quotes, backslashes and control characters are
/// escaped.
pub open spec fn quoted_char(c: char) -> Seq<char> {
    if c == '"' {
        "\\\""@
    } else if c == '\\' {
        "\\\\"@
    } else if c as nat == 8 {
        "\\b"@
    } else if c == '\t' {
        "\\t"@
    } else if c == '\n' {
        "\\n"@
    } else if c as nat == 12 {
        "\\f"@
    } else if c == '\r' {
        "\\r"@
    } else if (c as nat) < 32 {
        "\\u00"@ + seq![embed::hex_char((c as nat) / 16), embed::hex_char((c as nat) % 16)]
    } else {
        seq![c]
    }
}

/// The characters of a text as they stand between quotes.
pub open spec fn quoted_inner(s: Seq<char>) -> Seq<char>
    decreases s.len(),
{
    if s.len() == 0 {
        Seq::empty()
    } else {
        quoted_inner(s.drop_last()) + quoted_char(s.last())
    }
}

/// A text between quotes.
pub open spec fn quoted(s: Seq<char>) -> Seq<char> {
    "\""@ + quoted_inner(s) + "\""@
}

/// Writes a text with the `to_string` of a `serde_json::Value` that holds it. The contract
/// says that the text comes out between quotes, with quotes, backslashes and control
/// characters escaped, that this is how `serde_json` writes the value, and that it reads the
/// text back from it.
#[verifier::external_body]
pub(crate) fn quote(s: &str) -> (r: String)
    ensures
        r@ == quoted(s@),
        r@ == json_written(JsonTree::Text(s@)),
        reads_as(r@, JsonTree::Text(s@)),
{
    Value::String(s.to_owned()).to_string()
}

/// The first member of a name from the `i`th on.
pub open spec fn member_from(members: Seq<(Seq<char>, Seq<char>)>, key: Seq<char>, i: int) -> Option<
    Seq<char>,
>
    decreases members.len() - i,
{
    if !(0 <= i < members.len()) {
        None
    } else if members[i].0 == key {
        Some(members[i].1)
    } else {
        member_from(members, key, i + 1)
    }
}

/// The JSON text of a member of an object; nothing of what is no object.
pub open spec fn member(j: JsonView, key: Seq<char>) -> Option<Seq<char>> {
    match j {
        JsonView::Object(m) => member_from(m, key, 0),
        _ => None,
    }
}

/// The text that a JSON text stands for, if it stands for one.
pub open spec fn text_of(s: Seq<char>) -> Option<Seq<char>> {
    match json_read(s) {
        Ok(JsonView::Text(t)) => Some(t),
        _ => None,
    }
}

/// The text that a member holds, if it holds one.
pub open spec fn text_member(j: JsonView, key: Seq<char>) -> Option<Seq<char>> {
    match member(j, key) {
        Some(s) => text_of(s),
        None => None,
    }
}

/// The argument that a JSON value stands for.
pub open spec fn argument(j: Result<JsonView, Seq<char>>) -> mcp::ArgView {
    match j {
        Ok(JsonView::Null) => mcp::ArgView::Null,
        Ok(JsonView::Number(Some(n))) => mcp::ArgView::Number(n),
        Ok(JsonView::Text(t)) => mcp::ArgView::Text(t),
        Ok(JsonView::List(v)) => mcp::ArgView::List(v.map_values(|s: Seq<char>| text_of(s))),
        _ => mcp::ArgView::Other,
    }
}

/// The arguments that a JSON value stands for: the members of an object, and none of
/// anything else.
pub open spec fn arguments(j: JsonView) -> mcp::ArgsView {
    match j {
        JsonView::Object(m) => m.map_values(
            |e: (Seq<char>, Seq<char>)| (e.0, argument(json_read(e.1))),
        ),
        _ => Seq::empty(),
    }
}

/// The value that a JSON text stands for, null where there is none.
pub open spec fn read_or_null(s: Option<Seq<char>>) -> JsonView {
    match s {
        Some(t) => match json_read(t) {
            Ok(j) => j,
            Err(_) => JsonView::Null,
        },
        None => JsonView::Null,
    }
}

/// The text that a JSON text stands for, if it stands for one.
pub fn read_text(s: &str) -> (r: Option<String>)
    ensures
        match r {
            Some(t) => text_of(s@) == Some(t@),
            None => text_of(s@) is None,
        },
{
    match read_json(s) {
        Ok(Json::Text(t)) => Some(t),
        _ => None,
    }
}

impl Json {
    /// The JSON text of a member of an object; nothing of what is no object.
    pub fn member(&self, key: &str) -> (r: Option<String>)
        ensures
            match r {
                Some(s) => member(self@, key@) == Some(s@),
                None => member(self@, key@) is None,
            },
    {
        let members = match self {
            Json::Object(m) => m,
            _ => return None,
        };
        let ghost views = member_views(members@);
        let mut i: usize = 0;
        while i < members.len()
            invariant
                i <= members@.len(),
                views == member_views(members@),
                self@ == JsonView::Object(views),
                member_from(views, key@, 0) == member_from(views, key@, i as int),
            decreases members@.len() - i,
        {
            proof {
                assert(views[i as int] == (members@[i as int].0@, members@[i as int].1@));
            }
            if text_equal(members[i].0.as_str(), key) {
                return Some(members[i].1.as_str().to_owned());
            }
            i += 1;
        }
        None
    }

    /// The text that a member holds, if it holds one.
    pub fn text_member(&self, key: &str) -> (r: Option<String>)
        ensures
            match r {
                Some(t) => text_member(self@, key@) == Some(t@),
                None => text_member(self@, key@) is None,
            },
    {
        match self.member(key) {
            Some(s) => read_text(s.as_str()),
            None => None,
        }
    }

    /// The text that a member holds, empty where it holds none.
    pub fn text_or_empty(&self, key: &str) -> (t: String)
        ensures
            t@ == (match text_member(self@, key@) {
                Some(t) => t,
                None => Seq::empty(),
            }),
    {
        match self.text_member(key) {
            Some(t) => t,
            None => {
                let t = String::new();
                proof {
                    assert(t@ =~= Seq::<char>::empty());
                }
                t
            },
        }
    }

    /// The value of a member, null where there is none.
    pub fn child(&self, key: &str) -> (j: Json)
        ensures
            j@ == read_or_null(member(self@, key@)),
    {
        match self.member(key) {
            Some(s) => match read_json(s.as_str()) {
                Ok(j) => j,
                Err(_) => Json::Null,
            },
            None => Json::Null,
        }
    }

    /// The arguments that the value stands for.
    pub fn arguments(&self) -> (a: Args)
        ensures
            a@ == arguments(self@),
    {
        let mut args = Args::new();
        let members = match self {
            Json::Object(m) => m,
            _ => return args,
        };
        let ghost all = arguments(self@);
        let ghost views = member_views(members@);
        let mut i: usize = 0;
        proof {
            assert(args@ =~= all.take(0));
        }
        while i < members.len()
            invariant
                i <= members@.len(),
                views == member_views(members@),
                all.len() == members@.len(),
                forall|j: int|
                    0 <= j < all.len() ==> #[trigger] all[j] == (
                        views[j].0,
                        argument(json_read(views[j].1)),
                    ),
                args@ == all.take(i as int),
            decreases members@.len() - i,
        {
            let ghost before = args@;
            let value = read_argument(members[i].1.as_str());
            proof {
                assert(views[i as int] == (members@[i as int].0@, members@[i as int].1@));
                assert(all[i as int] == (members@[i as int].0@, value@));
            }
            args.push(members[i].0.as_str().to_owned(), value);
            proof {
                assert(args@ =~= all.take(i + 1));
            }
            i += 1;
        }
        proof {
            assert(all.take(i as int) =~= all);
        }
        args
    }
}

fn read_argument(s: &str) -> (a: Arg)
    ensures
        a@ == argument(json_read(s@)),
{
    match read_json(s) {
        Ok(Json::Null) => Arg::Null,
        Ok(Json::Number(Some(n))) => Arg::Number(n),
        Ok(Json::Text(t)) => Arg::Text(t),
        Ok(Json::List(v)) => Arg::List(read_texts(&v)),
        _ => Arg::Other,
    }
}

fn read_texts(v: &Vec<String>) -> (r: Vec<Option<String>>)
    ensures
        mcp::element_views(r@) == text::text_views(v@).map_values(|s: Seq<char>| text_of(s)),
{
    let mut out: Vec<Option<String>> = Vec::new();
    let mut i: usize = 0;
    while i < v.len()
        invariant
            i <= v@.len(),
            out@.len() == i,
            forall|j: int|
                0 <= j < i ==> crate::record::optional_text(#[trigger] out@[j]) == text_of(v@[j]@),
        decreases v@.len() - i,
    {
        out.push(read_text(v[i].as_str()));
        i += 1;
    }
    proof {
        assert(mcp::element_views(out@) =~= text::text_views(v@).map_values(
            |s: Seq<char>| text_of(s),
        ));
    }
    out
}

/// The members of an object.
pub type MembersView = Seq<(Seq<char>, Seq<char>)>;

/// A member: its name, and the JSON text of its value.
pub type MemberView = (Seq<char>, Seq<char>);

/// No members.
pub open spec fn of0() -> MembersView {
    Seq::empty()
}

/// One member.
pub open spec fn of1(a: MemberView) -> MembersView {
    of0().push(a)
}

/// Two members.
pub open spec fn of2(a: MemberView, b: MemberView) -> MembersView {
    of1(a).push(b)
}

/// Three members.
pub open spec fn of3(a: MemberView, b: MemberView, c: MemberView) -> MembersView {
    of2(a, b).push(c)
}

/// Four members.
pub open spec fn of4(a: MemberView, b: MemberView, c: MemberView, d: MemberView) -> MembersView {
    of3(a, b, c).push(d)
}

/// The members with another, where it is there.
pub open spec fn with(m: MembersView, there: bool, key: Seq<char>, value: Seq<char>) -> MembersView {
    if there {
        m.push((key, value))
    } else {
        m
    }
}

/// A member as it stands in the text of an object.
pub open spec fn member_form(m: (Seq<char>, Seq<char>)) -> Seq<char> {
    quoted(m.0) + ":"@ + m.1
}

/// The text of an object, from the names and the JSON texts of its members.
pub open spec fn object_form(members: Seq<(Seq<char>, Seq<char>)>) -> Seq<char> {
    "{"@ + text::joined(
        members.map_values(|m: (Seq<char>, Seq<char>)| member_form(m)),
        ","@,
    ) + "}"@
}

/// The text of a list of JSON texts.
pub open spec fn list_form(parts: Seq<Seq<char>>) -> Seq<char> {
    "["@ + text::joined(parts, ","@) + "]"@
}

/// The texts of a list, each quoted.
pub open spec fn quoted_list(parts: Seq<Seq<char>>) -> Seq<char> {
    list_form(parts.map_values(|s: Seq<char>| quoted(s)))
}

/// The text of a truth value.
pub open spec fn truth(b: bool) -> Seq<char> {
    if b {
        "true"@
    } else {
        "false"@
    }
}

/// The text of an integer.
pub open spec fn integer(n: int) -> Seq<char> {
    if n < 0 {
        "-"@ + text::decimal((-n) as nat)
    } else {
        text::decimal(n as nat)
    }
}

/// The members of an object that is being written.
pub struct Members {
    parts: Vec<String>,
    members: Ghost<Seq<(Seq<char>, Seq<char>)>>,
}

impl Members {
    /// The members so far.
    pub closed spec fn view(&self) -> Seq<(Seq<char>, Seq<char>)> {
        self.members@
    }

    #[verifier::type_invariant]
    spec fn told(&self) -> bool {
        text::text_views(self.parts@) == self.members@.map_values(
            |m: (Seq<char>, Seq<char>)| member_form(m),
        )
    }

    /// No members.
    pub fn new() -> (m: Members)
        ensures
            m@ == Seq::<(Seq<char>, Seq<char>)>::empty(),
    {
        let parts: Vec<String> = Vec::new();
        let members: Ghost<Seq<(Seq<char>, Seq<char>)>> = Ghost(Seq::empty());
        proof {
            assert(text::text_views(parts@) =~= members@.map_values(
                |m: (Seq<char>, Seq<char>)| member_form(m),
            ));
        }
        Members { parts, members }
    }

    /// Adds a member: its name, and the JSON text of its value.
    pub fn put(self, key: &str, value: String) -> (m: Members)
        ensures
            m@ == self@.push((key@, value@)),
    {
        proof {
            use_type_invariant(&self);
        }
        let mut part = quote(key);
        part.append(":");
        part.append(value.as_str());
        let mut parts = self.parts;
        let ghost before = parts@;
        let members: Ghost<Seq<(Seq<char>, Seq<char>)>> = Ghost(
            self.members@.push((key@, value@)),
        );
        parts.push(part);
        proof {
            assert(part@ =~= member_form((key@, value@)));
            assert(text::text_views(parts@) =~= text::text_views(before).push(part@));
            assert(members@.map_values(|m: (Seq<char>, Seq<char>)| member_form(m))
                =~= self.members@.map_values(|m: (Seq<char>, Seq<char>)| member_form(m)).push(
                part@,
            ));
        }
        Members { parts, members }
    }

    /// The text of the object.
    pub fn text(&self) -> (s: String)
        ensures
            s@ == object_form(self@),
    {
        proof {
            use_type_invariant(self);
        }
        let mut s = "{".to_owned();
        s.append(text::join(&self.parts, ",").as_str());
        s.append("}");
        s
    }
}

/// The text of a list of JSON texts.
pub fn list_text(parts: &Vec<String>) -> (s: String)
    ensures
        s@ == list_form(text::text_views(parts@)),
{
    let mut s = "[".to_owned();
    s.append(text::join(parts, ",").as_str());
    s.append("]");
    s
}

/// The text of a list of texts.
pub fn quoted_list_text(parts: &Vec<String>) -> (s: String)
    ensures
        s@ == quoted_list(text::text_views(parts@)),
{
    let mut quotes: Vec<String> = Vec::new();
    let mut i: usize = 0;
    while i < parts.len()
        invariant
            i <= parts@.len(),
            quotes@.len() == i,
            forall|j: int| 0 <= j < i ==> (#[trigger] quotes@[j])@ == quoted(parts@[j]@),
        decreases parts@.len() - i,
    {
        quotes.push(quote(parts[i].as_str()));
        i += 1;
    }
    proof {
        assert(text::text_views(quotes@) =~= text::text_views(parts@).map_values(
            |s: Seq<char>| quoted(s),
        ));
    }
    list_text(&quotes)
}

/// The text of a truth value.
pub fn truth_text(b: bool) -> (s: String)
    ensures
        s@ == truth(b),
{
    if b {
        "true".to_owned()
    } else {
        "false".to_owned()
    }
}

/// The text of a number.
pub fn number_text(n: u64) -> (s: String)
    ensures
        s@ == text::decimal(n as nat),
{
    let mut s = String::new();
    push_decimal(&mut s, n as u128);
    proof {
        assert(s@ =~= text::decimal(n as nat));
    }
    s
}

/// The text of a count.
pub fn count_text(n: usize) -> (s: String)
    ensures
        s@ == text::decimal(n as nat),
{
    number_text(n as u64)
}

/// The text of an integer.
pub fn integer_text(n: i64) -> (s: String)
    ensures
        s@ == integer(n as int),
{
    if n >= 0 {
        return number_text(n as u64);
    }
    let mut s = "-".to_owned();
    push_decimal(&mut s, (-(n as i128)) as u128);
    s
}

/// The member of a name is the first of that name.
pub proof fn law_first_member_answers(members: Seq<(Seq<char>, Seq<char>)>, key: Seq<char>, i: int)
    requires
        0 <= i < members.len(),
        members[i].0 == key,
        forall|j: int| 0 <= j < i ==> (#[trigger] members[j]).0 != key,
    ensures
        member(JsonView::Object(members), key) == Some(members[i].1),
{
    lemma_member_from(members, key, 0, i);
}

proof fn lemma_member_from(
    members: Seq<(Seq<char>, Seq<char>)>,
    key: Seq<char>,
    from: int,
    i: int,
)
    requires
        0 <= from <= i <= members.len(),
        forall|j: int| from <= j < i ==> (#[trigger] members[j]).0 != key,
    ensures
        member_from(members, key, from) == member_from(members, key, i),
    decreases i - from,
{
    if from < i {
        lemma_member_from(members, key, from + 1, i);
    }
}

/// A name that no member bears has no answer, and neither has any name of what is no object.
pub proof fn law_missing_member(j: JsonView, key: Seq<char>)
    ensures
        j is Object ==> (member(j, key) is None <==> forall|i: int|
            0 <= i < j->Object_0.len() ==> (#[trigger] j->Object_0[i]).0 != key),
        !(j is Object) ==> member(j, key) is None,
{
    if let JsonView::Object(m) = j {
        if forall|i: int| 0 <= i < m.len() ==> (#[trigger] m[i]).0 != key {
            lemma_member_from(m, key, 0, m.len() as int);
        } else {
            lemma_member_there(m, key, 0);
        }
    }
}

proof fn lemma_member_there(members: Seq<(Seq<char>, Seq<char>)>, key: Seq<char>, from: int)
    requires
        0 <= from,
        exists|i: int| from <= i < members.len() && (#[trigger] members[i]).0 == key,
    ensures
        member_from(members, key, from) is Some,
    decreases members.len() - from,
{
    if members[from].0 != key {
        lemma_member_there(members, key, from + 1);
    }
}

/// A quoted text is its characters one by one: the form of two texts in a row is that of the
/// first before that of the second, and a character that needs no escape stands for itself.
pub proof fn law_quoting_goes_by_characters(a: Seq<char>, b: Seq<char>, c: char)
    ensures
        quoted_inner(a + b) == quoted_inner(a) + quoted_inner(b),
        quoted_inner(seq![c]) == quoted_char(c),
        c != '"' && c != '\\' && c as nat >= 32 ==> quoted_inner(seq![c]) == seq![c],
        c == '"' || c == '\\' || (c as nat) < 32 ==> quoted_inner(seq![c]).len() >= 2
            && quoted_inner(seq![c])[0] == '\\',
    decreases b.len(),
{
    assert(seq![c].drop_last() =~= Seq::empty());
    assert(quoted_inner(seq![c].drop_last()) =~= Seq::empty());
    assert(quoted_inner(seq![c]) =~= quoted_char(c));
    reveal_strlit("\\\"");
    reveal_strlit("\\\\");
    reveal_strlit("\\b");
    reveal_strlit("\\t");
    reveal_strlit("\\n");
    reveal_strlit("\\f");
    reveal_strlit("\\r");
    reveal_strlit("\\u00");
    if b.len() == 0 {
        assert(a + b =~= a);
        assert(quoted_inner(a) + quoted_inner(b) =~= quoted_inner(a));
    } else {
        law_quoting_goes_by_characters(a, b.drop_last(), c);
        assert((a + b).drop_last() =~= a + b.drop_last());
        assert((a + b).last() == b.last());
        assert(quoted_inner(a + b) =~= quoted_inner(a) + quoted_inner(b));
    }
}

/// A text whose characters need no escape stands between quotes as it is.
pub proof fn law_plain_text_is_kept(s: Seq<char>)
    requires
        forall|i: int|
            0 <= i < s.len() ==> (#[trigger] s[i]) != '"' && s[i] != '\\' && s[i] as nat >= 32,
    ensures
        quoted_inner(s) == s,
        quoted(s) == "\""@ + s + "\""@,
    decreases s.len(),
{
    if s.len() > 0 {
        let p = s.drop_last();
        assert forall|i: int| 0 <= i < p.len() implies (#[trigger] p[i]) != '"' && p[i] != '\\'
            && p[i] as nat >= 32 by {
            assert(p[i] == s[i]);
        }
        law_plain_text_is_kept(p);
        assert(s.last() == s[s.len() - 1]);
        assert(quoted_inner(s) =~= p + seq![s.last()]);
        assert(quoted_inner(s) =~= s);
    }
}

/// An object of two or of three members: braces, and commas between the members.
pub proof fn law_small_objects(a: MemberView, b: MemberView, c: MemberView)
    ensures
        object_form(of0()) == "{"@ + "}"@,
        object_form(of1(a)) == "{"@ + member_form(a) + "}"@,
        object_form(of2(a, b)) == "{"@ + (member_form(a) + ","@ + member_form(b)) + "}"@,
        object_form(of3(a, b, c)) == "{"@ + (member_form(a) + ","@ + member_form(b) + ","@
            + member_form(c)) + "}"@,
{
    let f = |m: (Seq<char>, Seq<char>)| member_form(m);
    assert(of0().map_values(f) =~= Seq::empty());
    assert("{"@ + Seq::empty() + "}"@ =~= "{"@ + "}"@);
    assert(of1(a).map_values(f) =~= seq![member_form(a)]);
    assert(of2(a, b).map_values(f) =~= seq![member_form(a)] + seq![member_form(b)]);
    assert(of3(a, b, c).map_values(f) =~= (seq![member_form(a)] + seq![member_form(b)]) + seq![
        member_form(c),
    ]);
    let (x, y, z) = (seq![member_form(a)], seq![member_form(b)], seq![member_form(c)]);
    text::law_joined_texts_are_all_there(x, y, member_form(a), ","@);
    text::law_joined_texts_are_all_there(x + y, z, member_form(b), ","@);
    text::law_joined_texts_are_all_there(x, z, member_form(c), ","@);
}

/// The text tells a member of an object: its name and its value stand in it as they do there.
pub open spec fn tells(s: Seq<char>, key: Seq<char>, value: Seq<char>) -> bool {
    text::occurs(s, quoted(key) + ":"@ + value)
}

/// The text of an object tells every member, and that of a list holds every element.
pub proof fn law_texts_tell_all(members: MembersView, parts: Seq<Seq<char>>, i: int)
    ensures
        0 <= i < members.len() ==> tells(object_form(members), members[i].0, members[i].1),
        0 <= i < parts.len() ==> text::occurs(list_form(parts), parts[i]),
{
    if 0 <= i < members.len() {
        let f = |m: (Seq<char>, Seq<char>)| member_form(m);
        let forms = members.map_values(f);
        text::law_joined_texts_occur(forms, ","@, i);
        assert(forms[i] == member_form(members[i]));
        text::law_parts_occur("{"@, text::joined(forms, ","@), "}"@, forms[i]);
    }
    if 0 <= i < parts.len() {
        text::law_joined_texts_occur(parts, ","@, i);
        text::law_parts_occur("["@, text::joined(parts, ","@), "]"@, parts[i]);
    }
}

/// What the value of a member holds, the text of the object holds.
pub proof fn law_texts_hold_what_values_hold(
    s: Seq<char>,
    key: Seq<char>,
    value: Seq<char>,
    part: Seq<char>,
)
    requires
        tells(s, key, value),
        text::occurs(value, part),
    ensures
        text::occurs(s, part),
{
    let m = quoted(key) + ":"@ + value;
    let none = Seq::<char>::empty();
    text::law_parts_occur(quoted(key) + ":"@, value, none, part);
    assert(quoted(key) + ":"@ + value + none =~= m);
    text::law_occurring_is_transitive(s, m, part);
}

/// An argument is what its JSON text stands for: a text, a whole number, nothing, or a list of
/// which what is no text is left open; and each argument keeps its name and place.
pub proof fn law_arguments_are_the_members(members: MembersView, i: int)
    requires
        0 <= i < members.len(),
    ensures
        arguments(JsonView::Object(members)).len() == members.len(),
        arguments(JsonView::Object(members))[i].0 == members[i].0,
        ({
            let a = arguments(JsonView::Object(members))[i].1;
            match json_parsed(members[i].1) {
                Ok(JsonTree::Text(t)) => a == mcp::ArgView::Text(t),
                Ok(JsonTree::Whole(n)) => a == mcp::ArgView::Number(n),
                Ok(JsonTree::Null) => a is Null,
                Ok(JsonTree::List(v)) => a is List && a->List_0.len() == v.len(),
                _ => a is Other,
            }
        }),
{
}

} // verus!
