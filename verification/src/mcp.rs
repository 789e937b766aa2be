//! The tool server: which lines and arguments it accepts, what each tool call asks of the
//! memory, and what it answers.
//!
//! Requests come in as plain values and answers go out as plain values. The JSON lines that
//! carry them are read and written in `json` and `replies`.
use crate::fileguard;
use crate::hybrid::QueryStrategy;
use crate::record;
use crate::record::{RelationKind, Sensitivity};
use crate::text;
use crate::text::push_decimal;
use vstd::prelude::*;
use vstd::utf8::*;

verus! {

/// The unit separator, which parts the uri and the content of a payload.
pub const SEP: char = '\u{1f}';

/// The bytes of a request.
pub const MAX_REQUEST_BYTES: usize = 1_048_576;

/// The bytes of a stored text.
pub const MAX_TEXT_BYTES: usize = 131_072;

/// The bytes of a query.
pub const MAX_QUERY_BYTES: usize = 32_768;

/// The bytes of a uri.
pub const MAX_URI_BYTES: usize = 4_096;

/// The bytes of a region.
pub const MAX_REGION_BYTES: usize = 1_024;

/// The bytes of a strategy.
pub const MAX_STRATEGY_BYTES: usize = 32;

/// The bytes of a scope component or a source.
pub const MAX_SCOPE_BYTES: usize = 256;

/// The bytes of a classification or a relation.
pub const MAX_WORD_BYTES: usize = 32;

/// The hits of a recall.
pub const MAX_K: usize = 32;

/// The rows that an expansion appends.
pub const MAX_EXPANDED: usize = 32;

/// The levels that an expansion follows.
pub const MAX_HOPS: usize = 2;

/// The length of an embedding.
pub const MAX_DIM: usize = 16_384;

/// The fewest bits of a sketch.
pub const MIN_BITS: usize = 64;

/// The most bits of a sketch.
pub const MAX_BITS: usize = 8_192;

/// The uris of one list of labels.
pub const MAX_FEEDBACK_URIS: usize = 64;

/// The labels of a session.
pub const MAX_FEEDBACK_ENTRIES: usize = 1_024;

/// The items of a store.
pub const MAX_MEMORIES: usize = 10_000;

/// The regions of a store.
pub const MAX_REGIONS: usize = 1_024;

/// A line of input.
#[derive(Debug)]
pub enum InputLine {
    /// There is no more input.
    Eof,
    /// A line, without its end.
    Line(String),
    /// The line is longer than a request may be.
    TooLong,
    /// The line is not UTF-8.
    InvalidUtf8,
}

/// A line as a value.
pub enum LineView {
    Eof,
    Line(Seq<char>),
    TooLong,
    InvalidUtf8,
}

impl View for InputLine {
    type V = LineView;

    open spec fn view(&self) -> LineView {
        match self {
            InputLine::Eof => LineView::Eof,
            InputLine::Line(s) => LineView::Line(s@),
            InputLine::TooLong => LineView::TooLong,
            InputLine::InvalidUtf8 => LineView::InvalidUtf8,
        }
    }
}

/// Bytes without one given byte at their end.
pub open spec fn without_last(b: Seq<u8>, x: u8) -> Seq<u8> {
    if b.len() > 0 && b.last() == x {
        b.drop_last()
    } else {
        b
    }
}

/// What the bytes of a line are: the line feed at their end and a carriage return before it
/// are no part of the line.
pub open spec fn line_of(b: Seq<u8>) -> LineView {
    if b.len() == 0 {
        LineView::Eof
    } else if b.len() > MAX_REQUEST_BYTES {
        LineView::TooLong
    } else {
        let t = without_last(without_last(b, 10), 13);
        if valid_utf8(t) {
            LineView::Line(decode_utf8(t))
        } else {
            LineView::InvalidUtf8
        }
    }
}

/// Whether the rest of an overlong line is still to be passed over: its end was not read.
pub fn line_continues(bytes: &Vec<u8>) -> (r: bool)
    ensures
        r == (bytes@.len() > MAX_REQUEST_BYTES && bytes@.last() != 10),
{
    let n: usize = bytes.len();
    n > MAX_REQUEST_BYTES && bytes[n - 1] != 10
}

/// Takes the bytes that were read up to a line feed, or up to one more than a request may
/// have.
pub fn classify_line(bytes: Vec<u8>) -> (r: InputLine)
    ensures
        r@ == line_of(bytes@),
{
    let mut b = bytes;
    let n: usize = b.len();
    if n == 0 {
        return InputLine::Eof;
    }
    if n > MAX_REQUEST_BYTES {
        return InputLine::TooLong;
    }
    if b[n - 1] == 10 {
        let _ = b.pop();
        proof {
            assert(b@ =~= bytes@.drop_last());
        }
    }
    let m: usize = b.len();
    let ghost before = b@;
    if m > 0 && b[m - 1] == 13 {
        let _ = b.pop();
        proof {
            assert(b@ =~= before.drop_last());
        }
    }
    match fileguard::string_from_utf8(b) {
        Ok(s) => InputLine::Line(s),
        Err(_) => InputLine::InvalidUtf8,
    }
}

/// An argument of a tool call.
#[derive(Debug)]
pub enum Arg {
    /// Nothing.
    Null,
    /// A number that is no less than zero and has no fraction.
    Number(u64),
    /// A text.
    Text(String),
    /// A list; what is no text in it is left empty.
    List(Vec<Option<String>>),
    /// Anything else.
    Other,
}

/// An argument as a value.
pub enum ArgView {
    Null,
    Number(u64),
    Text(Seq<char>),
    List(Seq<Option<Seq<char>>>),
    Other,
}

/// The views of the elements of a list.
pub open spec fn element_views(s: Seq<Option<String>>) -> Seq<Option<Seq<char>>> {
    s.map_values(|x: Option<String>| record::optional_text(x))
}

impl View for Arg {
    type V = ArgView;

    open spec fn view(&self) -> ArgView {
        match self {
            Arg::Null => ArgView::Null,
            Arg::Number(n) => ArgView::Number(*n),
            Arg::Text(s) => ArgView::Text(s@),
            Arg::List(v) => ArgView::List(element_views(v@)),
            Arg::Other => ArgView::Other,
        }
    }
}

/// The arguments of a tool call.
#[derive(Debug)]
pub struct Args {
    entries: Vec<(String, Arg)>,
}

/// The arguments as values, by their names.
pub type ArgsView = Seq<(Seq<char>, ArgView)>;

/// The argument of a name: the first of that name.
pub open spec fn lookup(args: ArgsView, key: Seq<char>) -> Option<ArgView>
    decreases args.len(),
{
    if args.len() == 0 {
        None
    } else if args[0].0 == key {
        Some(args[0].1)
    } else {
        lookup(args.drop_first(), key)
    }
}

impl Args {
    /// The arguments as values.
    pub closed spec fn view(&self) -> ArgsView {
        self.entries@.map_values(|e: (String, Arg)| (e.0@, e.1@))
    }

    /// No arguments.
    pub fn new() -> (a: Args)
        ensures
            a@ == Seq::<(Seq<char>, ArgView)>::empty(),
    {
        let a = Args { entries: Vec::new() };
        proof {
            assert(a@ =~= Seq::<(Seq<char>, ArgView)>::empty());
        }
        a
    }

    /// Adds an argument.
    pub fn push(&mut self, key: String, value: Arg)
        ensures
            final(self)@ == old(self)@.push((key@, value@)),
    {
        self.entries.push((key, value));
        proof {
            assert(self@ =~= old(self)@.push((key@, value@)));
        }
    }

    /// Whether there is an argument of that name.
    pub fn has(&self, key: &str) -> (r: bool)
        ensures
            r == (lookup(self@, key@) is Some),
    {
        self.get(key).is_some()
    }

    /// The argument of a name.
    pub fn get(&self, key: &str) -> (r: Option<&Arg>)
        ensures
            match r {
                Some(a) => lookup(self@, key@) == Some(a@),
                None => lookup(self@, key@) is None,
            },
    {
        let mut i: usize = 0;
        proof {
            assert(self@.skip(0) =~= self@);
        }
        while i < self.entries.len()
            invariant
                i <= self.entries@.len(),
                lookup(self@, key@) == lookup(self@.skip(i as int), key@),
            decreases self.entries@.len() - i,
        {
            proof {
                assert(self@.skip(i as int).drop_first() =~= self@.skip(i + 1));
                assert(self@.skip(i as int)[0] == (
                    self.entries@[i as int].0@,
                    self.entries@[i as int].1@,
                ));
            }
            if text::text_equal(self.entries[i].0.as_str(), key) {
                return Some(&self.entries[i].1);
            }
            i += 1;
        }
        None
    }
}

/// The bytes of a text.
pub open spec fn byte_len(s: Seq<char>) -> nat {
    encode_utf8(s).len()
}

fn bytes_of(s: &str) -> (n: usize)
    ensures
        n == byte_len(s@),
{
    s.as_bytes().len()
}

/// What is wrong with a text argument.
pub open spec fn text_fault(a: Option<ArgView>, key: Seq<char>, max: nat) -> Option<Seq<char>> {
    match a {
        None => None,
        Some(ArgView::Text(s)) => if byte_len(s) > max {
            Some("`"@ + key + "` exceeds the "@ + text::decimal(max) + "-byte limit"@)
        } else {
            None
        },
        Some(_) => Some("`"@ + key + "` must be a string"@),
    }
}

/// A text argument; a missing one is empty.
pub open spec fn text_arg(args: ArgsView, key: Seq<char>, max: nat) -> Result<Seq<char>, Seq<char>> {
    match text_fault(lookup(args, key), key, max) {
        Some(e) => Err(e),
        None => Ok(
            match lookup(args, key) {
                Some(ArgView::Text(s)) => s,
                _ => Seq::empty(),
            },
        ),
    }
}

/// The outcome of a step agrees with its specification.
pub open spec fn same_text(r: Result<String, String>, spec: Result<Seq<char>, Seq<char>>) -> bool {
    match (r, spec) {
        (Ok(a), Ok(b)) => a@ == b,
        (Err(a), Err(b)) => a@ == b,
        _ => false,
    }
}

/// A text argument, at most `max` bytes long; a missing one is empty.
pub fn bounded_string(args: &Args, key: &str, max: usize) -> (r: Result<String, String>)
    ensures
        same_text(r, text_arg(args@, key@, max as nat)),
{
    match args.get(key) {
        None => {
            let s = String::new();
            proof {
                assert(s@ =~= Seq::<char>::empty());
            }
            Ok(s)
        },
        Some(Arg::Text(s)) => {
            if bytes_of(s.as_str()) > max {
                let mut m = "`".to_owned();
                m.append(key);
                m.append("` exceeds the ");
                push_decimal(&mut m, max as u128);
                m.append("-byte limit");
                return Err(m);
            }
            Ok(s.as_str().to_owned())
        },
        Some(_) => {
            let mut m = "`".to_owned();
            m.append(key);
            m.append("` must be a string");
            Err(m)
        },
    }
}

/// A number argument from `min` to `max`, with a default.
pub open spec fn number_arg(args: ArgsView, key: Seq<char>, default: nat, min: nat, max: nat) -> Result<
    nat,
    Seq<char>,
> {
    match lookup(args, key) {
        None => Ok(default),
        Some(ArgView::Number(n)) => if n > usize::MAX {
            Err("`"@ + key + "` is too large for this platform"@)
        } else if n < min || n > max {
            Err(
                "`"@ + key + "` must be between "@ + text::decimal(min) + " and "@ + text::decimal(
                    max,
                ),
            )
        } else {
            Ok(n as nat)
        },
        Some(_) => Err("`"@ + key + "` must be a positive integer"@),
    }
}

/// A number argument from `min` to `max`, with a default.
pub fn bounded_usize(args: &Args, key: &str, default: usize, min: usize, max: usize) -> (r: Result<
    usize,
    String,
>)
    ensures
        match (r, number_arg(args@, key@, default as nat, min as nat, max as nat)) {
            (Ok(a), Ok(b)) => a == b,
            (Err(a), Err(b)) => a@ == b,
            _ => false,
        },
{
    match args.get(key) {
        None => Ok(default),
        Some(Arg::Number(n)) => {
            let n: u64 = *n;
            if n > usize::MAX as u64 {
                let mut m = "`".to_owned();
                m.append(key);
                m.append("` is too large for this platform");
                return Err(m);
            }
            let v: usize = n as usize;
            if v < min || v > max {
                let mut m = "`".to_owned();
                m.append(key);
                m.append("` must be between ");
                push_decimal(&mut m, min as u128);
                m.append(" and ");
                push_decimal(&mut m, max as u128);
                return Err(m);
            }
            Ok(v)
        },
        Some(_) => {
            let mut m = "`".to_owned();
            m.append(key);
            m.append("` must be a positive integer");
            Err(m)
        },
    }
}

/// An optional number argument: a missing one and nothing are the same.
pub open spec fn optional_number(args: ArgsView, key: Seq<char>) -> Result<
    Option<u64>,
    Seq<char>,
> {
    match lookup(args, key) {
        None => Ok(None),
        Some(ArgView::Null) => Ok(None),
        Some(ArgView::Number(n)) => Ok(Some(n)),
        Some(_) => Err("`"@ + key + "` must be a non-negative integer"@),
    }
}

/// An optional number argument.
pub fn bounded_opt_u64(args: &Args, key: &str) -> (r: Result<Option<u64>, String>)
    ensures
        match (r, optional_number(args@, key@)) {
            (Ok(a), Ok(b)) => a == b,
            (Err(a), Err(b)) => a@ == b,
            _ => false,
        },
{
    match args.get(key) {
        None => Ok(None),
        Some(Arg::Null) => Ok(None),
        Some(Arg::Number(n)) => Ok(Some(*n)),
        Some(_) => {
            let mut m = "`".to_owned();
            m.append(key);
            m.append("` must be a non-negative integer");
            Err(m)
        },
    }
}

/// A number argument that must be there.
pub open spec fn required_number(args: ArgsView, key: Seq<char>) -> Result<u64, Seq<char>> {
    match optional_number(args, key) {
        Err(e) => Err(e),
        Ok(None) => Err("`"@ + key + "` is required"@),
        Ok(Some(n)) => Ok(n),
    }
}

/// A number argument that must be there.
pub fn bounded_req_u64(args: &Args, key: &str) -> (r: Result<u64, String>)
    ensures
        match (r, required_number(args@, key@)) {
            (Ok(a), Ok(b)) => a == b,
            (Err(a), Err(b)) => a@ == b,
            _ => false,
        },
{
    match bounded_opt_u64(args, key)? {
        Some(n) => Ok(n),
        None => {
            let mut m = "`".to_owned();
            m.append(key);
            m.append("` is required");
            Err(m)
        },
    }
}

/// What is wrong with the elements of a list from the `i`th on.
pub open spec fn elements_fault(s: Seq<Option<Seq<char>>>, key: Seq<char>, i: int) -> Option<
    Seq<char>,
>
    decreases s.len() - i,
{
    if !(0 <= i < s.len()) {
        None
    } else {
        match s[i] {
            None => Some(
                "`"@ + key + "["@ + text::decimal(i as nat) + "]` must be a string"@,
            ),
            Some(t) => if byte_len(t) > MAX_URI_BYTES {
                Some(
                    "`"@ + key + "["@ + text::decimal(i as nat) + "]` exceeds the "@ + text::decimal(
                        MAX_URI_BYTES as nat,
                    ) + "-byte URI limit"@,
                )
            } else {
                elements_fault(s, key, i + 1)
            },
        }
    }
}

/// A list of uris; a missing one is empty.
pub open spec fn list_arg(args: ArgsView, key: Seq<char>) -> Result<Seq<Seq<char>>, Seq<char>> {
    match lookup(args, key) {
        None => Ok(Seq::empty()),
        Some(ArgView::List(s)) => if s.len() > MAX_FEEDBACK_URIS {
            Err(
                "`"@ + key + "` exceeds the "@ + text::decimal(MAX_FEEDBACK_URIS as nat)
                    + "-item limit"@,
            )
        } else {
            match elements_fault(s, key, 0) {
                Some(e) => Err(e),
                None => Ok(Seq::new(s.len(), |i: int| s[i]->0)),
            }
        },
        Some(_) => Err("`"@ + key + "` must be an array of strings"@),
    }
}

/// A list of uris; a missing one is empty.
pub fn bounded_string_list(args: &Args, key: &str) -> (r: Result<Vec<String>, String>)
    ensures
        match (r, list_arg(args@, key@)) {
            (Ok(a), Ok(b)) => text::text_views(a@) == b,
            (Err(a), Err(b)) => a@ == b,
            _ => false,
        },
{
    let list = match args.get(key) {
        None => {
            let none: Vec<String> = Vec::new();
            proof {
                assert(text::text_views(none@) =~= Seq::<Seq<char>>::empty());
            }
            return Ok(none);
        },
        Some(Arg::List(v)) => v,
        Some(_) => {
            let mut m = "`".to_owned();
            m.append(key);
            m.append("` must be an array of strings");
            return Err(m);
        },
    };
    if list.len() > MAX_FEEDBACK_URIS {
        let mut m = "`".to_owned();
        m.append(key);
        m.append("` exceeds the ");
        push_decimal(&mut m, MAX_FEEDBACK_URIS as u128);
        m.append("-item limit");
        return Err(m);
    }
    let ghost s = element_views(list@);
    let mut out: Vec<String> = Vec::new();
    let mut i: usize = 0;
    while i < list.len()
        invariant
            i <= list@.len(),
            s == element_views(list@),
            lookup(args@, key@) == Some(ArgView::List(s)),
            s.len() <= MAX_FEEDBACK_URIS,
            elements_fault(s, key@, 0) == elements_fault(s, key@, i as int),
            out@.len() == i,
            forall|j: int| 0 <= j < i ==> s[j] == Some((#[trigger] out@[j])@),
        decreases list@.len() - i,
    {
        proof {
            assert(s[i as int] == record::optional_text(list@[i as int]));
        }
        match &list[i] {
            None => {
                let mut m = "`".to_owned();
                m.append(key);
                m.append("[");
                push_decimal(&mut m, i as u128);
                m.append("]` must be a string");
                return Err(m);
            },
            Some(t) => {
                if bytes_of(t.as_str()) > MAX_URI_BYTES {
                    let mut m = "`".to_owned();
                    m.append(key);
                    m.append("[");
                    push_decimal(&mut m, i as u128);
                    m.append("]` exceeds the ");
                    push_decimal(&mut m, MAX_URI_BYTES as u128);
                    m.append("-byte URI limit");
                    return Err(m);
                }
                out.push(t.as_str().to_owned());
            },
        }
        i += 1;
    }
    proof {
        assert(text::text_views(out@) =~= Seq::new(s.len(), |i: int| s[i]->0));
    }
    Ok(out)
}

/// What is wrong with the size of a store.
pub open spec fn capacity_fault(memories: nat, regions: nat) -> Option<Seq<char>> {
    if memories > MAX_MEMORIES {
        Some("store exceeds the "@ + text::decimal(MAX_MEMORIES as nat) + "-memory limit"@)
    } else if regions > MAX_REGIONS {
        Some("store exceeds the "@ + text::decimal(MAX_REGIONS as nat) + "-region limit"@)
    } else {
        None
    }
}

/// Holds the size of a store to its limits.
pub fn validate_store_capacity(memory_count: usize, region_count: usize) -> (r: Result<(), String>)
    ensures
        match r {
            Ok(_) => capacity_fault(memory_count as nat, region_count as nat) is None,
            Err(e) => capacity_fault(memory_count as nat, region_count as nat) == Some(e@),
        },
{
    if memory_count > MAX_MEMORIES {
        let mut m = "store exceeds the ".to_owned();
        push_decimal(&mut m, MAX_MEMORIES as u128);
        m.append("-memory limit");
        return Err(m);
    }
    if region_count > MAX_REGIONS {
        let mut m = "store exceeds the ".to_owned();
        push_decimal(&mut m, MAX_REGIONS as u128);
        m.append("-region limit");
        return Err(m);
    }
    Ok(())
}

/// Why a store does not take one more item.
pub open spec fn growth_fault(memories: nat, regions: nat, adds_region: bool) -> Option<Seq<char>> {
    match capacity_fault(memories, regions) {
        Some(e) => Some(e),
        None => if memories >= MAX_MEMORIES {
            Some("store has reached the "@ + text::decimal(MAX_MEMORIES as nat) + "-memory limit"@)
        } else if adds_region && regions >= MAX_REGIONS {
            Some("store has reached the "@ + text::decimal(MAX_REGIONS as nat) + "-region limit"@)
        } else {
            None
        },
    }
}

/// Whether a store takes one more item, and a new region for it where it needs one.
pub fn ensure_ingest_capacity(memory_count: usize, region_count: usize, adds_region: bool) -> (r: Result<
    (),
    String,
>)
    ensures
        match r {
            Ok(_) => growth_fault(memory_count as nat, region_count as nat, adds_region) is None,
            Err(e) => growth_fault(memory_count as nat, region_count as nat, adds_region) == Some(
                e@,
            ),
        },
{
    validate_store_capacity(memory_count, region_count)?;
    if memory_count >= MAX_MEMORIES {
        let mut m = "store has reached the ".to_owned();
        push_decimal(&mut m, MAX_MEMORIES as u128);
        m.append("-memory limit");
        return Err(m);
    }
    if adds_region && region_count >= MAX_REGIONS {
        let mut m = "store has reached the ".to_owned();
        push_decimal(&mut m, MAX_REGIONS as u128);
        m.append("-region limit");
        return Err(m);
    }
    Ok(())
}

/// A store within its limits that takes one more item stays within them.
pub proof fn law_growth_stays_within_limits(memories: nat, regions: nat, adds_region: bool)
    requires
        growth_fault(memories, regions, adds_region) is None,
    ensures
        capacity_fault(
            memories + 1,
            if adds_region {
                regions + 1
            } else {
                regions
            },
        ) is None,
{
}

/// Why a session does not take more labels.
pub open spec fn feedback_fault(current: nat, additional: nat) -> Option<Seq<char>> {
    if current + additional > usize::MAX {
        Some("feedback count overflow"@)
    } else if current + additional > MAX_FEEDBACK_ENTRIES {
        Some(
            "feedback log would exceed the "@ + text::decimal(MAX_FEEDBACK_ENTRIES as nat)
                + "-observation session limit"@,
        )
    } else {
        None
    }
}

/// Whether a session takes more labels.
pub fn ensure_feedback_capacity(current: usize, additional: usize) -> (r: Result<(), String>)
    ensures
        match r {
            Ok(_) => feedback_fault(current as nat, additional as nat) is None,
            Err(e) => feedback_fault(current as nat, additional as nat) == Some(e@),
        },
{
    match current.checked_add(additional) {
        None => Err("feedback count overflow".to_owned()),
        Some(n) => {
            if n > MAX_FEEDBACK_ENTRIES {
                let mut m = "feedback log would exceed the ".to_owned();
                push_decimal(&mut m, MAX_FEEDBACK_ENTRIES as u128);
                m.append("-observation session limit");
                return Err(m);
            }
            Ok(())
        },
    }
}

/// The record id in a payload: what stands before the first separator, or all of it.
pub open spec fn key_of(payload: Seq<char>) -> Seq<char> {
    payload.take(text::first_pos(payload, SEP) as int)
}

/// The record id in a payload.
pub fn record_key(payload: &str) -> (r: String)
    ensures
        r@ == key_of(payload@),
{
    let v = text::chars_of(payload);
    proof {
        assert(v@.skip(0) =~= v@);
    }
    let i: usize = text::find_char(&v, 0, SEP);
    let r = text::text_of(&v, 0, i);
    proof {
        assert(r@ =~= payload@.take(i as int));
    }
    r
}

/// The uri and the content of a payload; one without a separator is all content.
pub open spec fn parted(payload: Seq<char>) -> (Seq<char>, Seq<char>) {
    let i = text::first_pos(payload, SEP) as int;
    if i < payload.len() {
        (payload.take(i), payload.skip(i + 1))
    } else {
        (Seq::empty(), payload)
    }
}

/// The uri and the content of a payload.
pub fn split_payload(raw: &str) -> (r: (String, String))
    ensures
        (r.0@, r.1@) == parted(raw@),
{
    let v = text::chars_of(raw);
    proof {
        assert(v@.skip(0) =~= v@);
    }
    let i: usize = text::find_char(&v, 0, SEP);
    let n: usize = v.len();
    if i < n {
        let a = text::text_of(&v, 0, i);
        let b = text::text_of(&v, i + 1, n);
        proof {
            assert(a@ =~= raw@.take(i as int));
            assert(b@ =~= raw@.skip(i + 1));
        }
        (a, b)
    } else {
        let none = String::new();
        proof {
            assert(none@ =~= Seq::<char>::empty());
        }
        (none, raw.to_owned())
    }
}

/// A payload packs the uri and the content.
pub open spec fn packed(uri: Seq<char>, content: Seq<char>) -> Seq<char> {
    uri.push(SEP) + content
}

pub(crate) fn pack(uri: &str, content: &str) -> (s: String)
    ensures
        s@ == packed(uri@, content@),
{
    let mut s = uri.to_owned();
    s.push(SEP);
    s.append(content);
    s
}

/// A packed payload gives back the uri and the content, where the uri holds no separator;
/// its record id is the uri.
pub proof fn law_payload_round_trip(uri: Seq<char>, content: Seq<char>)
    requires
        !uri.contains(SEP),
    ensures
        parted(packed(uri, content)) == (uri, content),
        key_of(packed(uri, content)) == uri,
{
    let p = packed(uri, content);
    lemma_first_sep(p, uri.len() as int);
    assert(p.take(uri.len() as int) =~= uri);
    assert(p.skip((uri.len() + 1) as int) =~= content);
}

proof fn lemma_first_sep(p: Seq<char>, n: int)
    requires
        0 <= n < p.len(),
        p[n] == SEP,
        forall|i: int| 0 <= i < n ==> p[i] != SEP,
    ensures
        text::first_pos(p, SEP) == n,
    decreases n,
{
    if n > 0 {
        let t = p.drop_first();
        assert forall|i: int| 0 <= i < n - 1 implies t[i] != SEP by {
            assert(t[i] == p[i + 1]);
        }
        lemma_first_sep(t, n - 1);
        assert(p[0] != SEP);
    } else {
        assert(p[0] == SEP);
    }
}

/// The kind of a uri: what stands before its first colon, or `memory` where that is empty.
pub open spec fn kind_part(uri: Seq<char>) -> Seq<char> {
    let head = uri.take(text::first_pos(uri, ':') as int);
    if head.len() == 0 {
        "memory"@
    } else {
        head
    }
}

/// The kind of a uri.
pub fn kind_of(uri: &str) -> (r: String)
    ensures
        r@ == kind_part(uri@),
{
    let v = text::chars_of(uri);
    proof {
        assert(v@.skip(0) =~= v@);
    }
    let i: usize = text::find_char(&v, 0, ':');
    if i == 0 {
        return "memory".to_owned();
    }
    let r = text::text_of(&v, 0, i);
    proof {
        assert(r@ =~= uri@.take(i as int));
    }
    r
}

/// The causal region of a uri: what follows its first colon, or all of it; a symbol's uri
/// loses what follows its last colon.
pub open spec fn region_part(uri: Seq<char>) -> Seq<char> {
    let i = text::first_pos(uri, ':') as int;
    let rest = if i < uri.len() {
        uri.skip(i + 1)
    } else {
        uri
    };
    if text::starts_with(uri, "sym:"@) && text::last_pos(rest, ':') >= 0 {
        rest.take(text::last_pos(rest, ':'))
    } else {
        rest
    }
}

/// The causal region of a uri.
pub fn region_of(uri: &str) -> (r: String)
    ensures
        r@ == region_part(uri@),
{
    let v = text::chars_of(uri);
    let sym = text::chars_of("sym:");
    proof {
        assert(v@.skip(0) =~= v@);
    }
    let i: usize = text::find_char(&v, 0, ':');
    let n: usize = v.len();
    let rest = if i < n {
        text::text_of(&v, i + 1, n)
    } else {
        text::text_of(&v, 0, n)
    };
    proof {
        if i < n {
            assert(rest@ =~= uri@.skip(i + 1));
        } else {
            assert(rest@ =~= uri@);
        }
    }
    if !text::has_prefix(&v, &sym) {
        return rest;
    }
    let w = text::chars_of(rest.as_str());
    let j: usize = text::find_last_char(&w, ':');
    if j > 0 {
        let r = text::text_of(&w, 0, j - 1);
        proof {
            assert(r@ =~= rest@.take(j - 1));
        }
        return r;
    }
    rest
}

/// A text that is there, or nothing for an empty one.
pub open spec fn filled(s: Seq<char>) -> Option<Seq<char>> {
    if s.len() == 0 {
        None
    } else {
        Some(s)
    }
}

/// A text that is there, or nothing for an empty one.
pub fn non_empty(value: String) -> (r: Option<String>)
    ensures
        record::optional_text(r) == filled(value@),
{
    if is_empty(value.as_str()) {
        None
    } else {
        Some(value)
    }
}

pub(crate) fn is_empty(s: &str) -> (r: bool)
    ensures
        r == (s@.len() == 0),
{
    let v = text::chars_of(s);
    v.len() == 0
}

/// The first text that is there.
pub open spec fn or_else(a: Seq<char>, b: Seq<char>) -> Seq<char> {
    if a.len() == 0 {
        b
    } else {
        a
    }
}

pub(crate) fn first_of(a: String, b: &str) -> (r: String)
    ensures
        r@ == or_else(a@, b@),
{
    if is_empty(a.as_str()) {
        b.to_owned()
    } else {
        a
    }
}

/// The classification of a word; an empty word is internal.
pub open spec fn sensitivity_of(s: Seq<char>) -> Result<Sensitivity, Seq<char>> {
    if s.len() == 0 || s == "internal"@ {
        Ok(Sensitivity::Internal)
    } else if s == "public"@ {
        Ok(Sensitivity::Public)
    } else if s == "confidential"@ {
        Ok(Sensitivity::Confidential)
    } else if s == "restricted"@ {
        Ok(Sensitivity::Restricted)
    } else {
        Err(
            "`sensitivity` must be one of public, internal, confidential, restricted (got '"@ + s
                + "')"@,
        )
    }
}

/// The classification of a word.
pub fn parse_sensitivity(s: &str) -> (r: Result<Sensitivity, String>)
    ensures
        match (r, sensitivity_of(s@)) {
            (Ok(a), Ok(b)) => a == b,
            (Err(a), Err(b)) => a@ == b,
            _ => false,
        },
{
    if is_empty(s) || text::text_equal(s, "internal") {
        Ok(Sensitivity::Internal)
    } else if text::text_equal(s, "public") {
        Ok(Sensitivity::Public)
    } else if text::text_equal(s, "confidential") {
        Ok(Sensitivity::Confidential)
    } else if text::text_equal(s, "restricted") {
        Ok(Sensitivity::Restricted)
    } else {
        let mut m =
            "`sensitivity` must be one of public, internal, confidential, restricted (got '".to_owned();
        m.append(s);
        m.append("')");
        Err(m)
    }
}

/// The name of a relation.
pub open spec fn relation_word(kind: RelationKind) -> Seq<char> {
    match kind {
        RelationKind::Confirms => "confirms"@,
        RelationKind::Contradicts => "contradicts"@,
        RelationKind::Supersedes => "supersedes"@,
        RelationKind::SupersededBy => "superseded_by"@,
    }
}

/// The name of a relation.
pub fn relation_name(kind: RelationKind) -> (r: &'static str)
    ensures
        r@ == relation_word(kind),
{
    match kind {
        RelationKind::Confirms => "confirms",
        RelationKind::Contradicts => "contradicts",
        RelationKind::Supersedes => "supersedes",
        RelationKind::SupersededBy => "superseded_by",
    }
}

/// The relation of a word.
pub open spec fn relation_of(s: Seq<char>) -> Result<RelationKind, Seq<char>> {
    if s == "confirms"@ {
        Ok(RelationKind::Confirms)
    } else if s == "contradicts"@ {
        Ok(RelationKind::Contradicts)
    } else if s == "supersedes"@ {
        Ok(RelationKind::Supersedes)
    } else if s == "superseded_by"@ || s == "superseded-by"@ {
        Ok(RelationKind::SupersededBy)
    } else {
        Err(
            "`relation` must be one of confirms, contradicts, supersedes, superseded_by (got '"@
                + s + "')"@,
        )
    }
}

/// The relation of a word.
pub fn parse_relation(s: &str) -> (r: Result<RelationKind, String>)
    ensures
        match (r, relation_of(s@)) {
            (Ok(a), Ok(b)) => a == b,
            (Err(a), Err(b)) => a@ == b,
            _ => false,
        },
{
    if text::text_equal(s, "confirms") {
        Ok(RelationKind::Confirms)
    } else if text::text_equal(s, "contradicts") {
        Ok(RelationKind::Contradicts)
    } else if text::text_equal(s, "supersedes") {
        Ok(RelationKind::Supersedes)
    } else if text::text_equal(s, "superseded_by") || text::text_equal(s, "superseded-by") {
        Ok(RelationKind::SupersededBy)
    } else {
        let mut m =
            "`relation` must be one of confirms, contradicts, supersedes, superseded_by (got '".to_owned();
        m.append(s);
        m.append("')");
        Err(m)
    }
}

/// Every relation's name is read back as the relation.
pub proof fn law_relation_names(kind: RelationKind)
    ensures
        relation_of(relation_word(kind)) == Ok::<_, Seq<char>>(kind),
{
    reveal_strlit("confirms");
    reveal_strlit("contradicts");
    reveal_strlit("supersedes");
    reveal_strlit("superseded_by");
    assert("confirms"@.len() == 8);
    assert("contradicts"@.len() == 11);
    assert("supersedes"@.len() == 10);
    assert("superseded_by"@.len() == 13);
}

/// The strategy of a word; any other word is the precise one.
pub open spec fn strategy_of(s: Seq<char>) -> QueryStrategy {
    if s == "fast"@ || s == "spatial"@ {
        QueryStrategy::FastSpatial
    } else if s == "cascade"@ || s == "hybrid"@ {
        QueryStrategy::HybridCascade
    } else {
        QueryStrategy::PrecisionSketch
    }
}

/// The strategy of a word.
pub fn parse_strategy(s: &str) -> (r: QueryStrategy)
    ensures
        r == strategy_of(s@),
{
    if text::text_equal(s, "fast") || text::text_equal(s, "spatial") {
        QueryStrategy::FastSpatial
    } else if text::text_equal(s, "cascade") || text::text_equal(s, "hybrid") {
        QueryStrategy::HybridCascade
    } else {
        QueryStrategy::PrecisionSketch
    }
}

/// The name of a strategy.
pub open spec fn strategy_word(s: QueryStrategy) -> Seq<char> {
    match s {
        QueryStrategy::FastSpatial => "fast-spatial"@,
        QueryStrategy::PrecisionSketch => "precise"@,
        QueryStrategy::HybridCascade => "hybrid-cascade"@,
    }
}

/// The name of a strategy.
pub fn strategy_name(s: QueryStrategy) -> (r: &'static str)
    ensures
        r@ == strategy_word(s),
{
    match s {
        QueryStrategy::FastSpatial => "fast-spatial",
        QueryStrategy::PrecisionSketch => "precise",
        QueryStrategy::HybridCascade => "hybrid-cascade",
    }
}

/// The generation of a write: the one asked for, which must be newer than the stored one, or
/// the next one.
pub open spec fn next_generation(current: Option<u64>, args: ArgsView) -> Result<u64, Seq<char>> {
    let now = match current {
        Some(g) => g,
        None => 0,
    };
    match optional_number(args, "generation"@) {
        Err(e) => Err(e),
        Ok(Some(g)) => if g <= now {
            Err(not_newer(now))
        } else {
            Ok(g)
        },
        Ok(None) => if now == u64::MAX {
            Err(not_newer(now))
        } else {
            Ok((now + 1) as u64)
        },
    }
}

/// The error of a generation that is not newer.
pub open spec fn not_newer(current: u64) -> Seq<char> {
    "`generation` must be strictly greater than the current "@ + text::decimal(current as nat)
}

/// The generation of a write.
pub fn resolve_generation(current: Option<u64>, args: &Args) -> (r: Result<u64, String>)
    ensures
        match (r, next_generation(current, args@)) {
            (Ok(a), Ok(b)) => a == b,
            (Err(a), Err(b)) => a@ == b,
            _ => false,
        },
{
    let now: u64 = match current {
        Some(g) => g,
        None => 0,
    };
    let asked = bounded_opt_u64(args, "generation")?;
    match asked {
        Some(g) => {
            if g > now {
                return Ok(g);
            }
        },
        None => {
            if now < u64::MAX {
                return Ok(now + 1);
            }
        },
    }
    let mut m = "`generation` must be strictly greater than the current ".to_owned();
    push_decimal(&mut m, now as u128);
    Err(m)
}

/// A resolved generation is newer than the stored one, so that the write is not refused as
/// stale.
pub proof fn law_generations_advance(current: Option<u64>, args: ArgsView)
    ensures
        next_generation(current, args) matches Ok(g) ==> g >= 1 && (current matches Some(c)
            ==> g > c),
{
}

/// The argument of a name is the first of that name, and there is none where none bears it.
pub proof fn law_first_argument_answers(args: ArgsView, key: Seq<char>, i: int)
    requires
        0 <= i <= args.len(),
        forall|j: int| 0 <= j < i ==> (#[trigger] args[j]).0 != key,
    ensures
        i == args.len() ==> lookup(args, key) is None,
        i < args.len() && args[i].0 == key ==> lookup(args, key) == Some(args[i].1),
    decreases args.len(),
{
    if i > 0 {
        let rest = args.drop_first();
        assert(args[0].0 != key);
        assert forall|j: int| 0 <= j < i - 1 implies (#[trigger] rest[j]).0 != key by {
            assert(rest[j] == args[j + 1]);
        }
        law_first_argument_answers(rest, key, i - 1);
    }
}

/// The text that an argument gives; empty where it gives none.
pub open spec fn text_given(args: ArgsView, key: Seq<char>) -> Seq<char> {
    match lookup(args, key) {
        Some(ArgView::Text(s)) => s,
        _ => Seq::empty(),
    }
}

/// The number that an argument gives.
pub open spec fn number_given(args: ArgsView, key: Seq<char>) -> Option<u64> {
    match lookup(args, key) {
        Some(ArgView::Number(n)) => Some(n),
        _ => None,
    }
}

/// A text argument is taken just where it is missing or a text of at most `max` bytes, and is then
/// that text.
pub proof fn law_text_arguments(args: ArgsView, key: Seq<char>, max: nat)
    ensures
        text_arg(args, key, max) is Ok <==> lookup(args, key) is None || (lookup(args, key)->0
            is Text && byte_len(text_given(args, key)) <= max),
        text_arg(args, key, max) matches Ok(s) ==> s == text_given(args, key),
{
}

/// A number argument is taken just where it is missing or a number within its limits, and is then
/// that number, or the default.
pub proof fn law_number_arguments(args: ArgsView, key: Seq<char>, default: nat, min: nat, max: nat)
    requires
        max <= usize::MAX,
    ensures
        number_arg(args, key, default, min, max) is Ok <==> lookup(args, key) is None || (
        number_given(args, key) matches Some(n) && min <= n <= max),
        number_arg(args, key, default, min, max) matches Ok(n) ==> n == (match number_given(
            args,
            key,
        ) {
            Some(g) => g as nat,
            None => default,
        }),
        optional_number(args, key) is Ok <==> lookup(args, key) is None || lookup(args, key)->0
            is Null || lookup(args, key)->0 is Number,
        optional_number(args, key) matches Ok(n) ==> n == number_given(args, key),
        required_number(args, key) matches Ok(n) ==> number_given(args, key) == Some(n),
        number_given(args, key) matches Some(n) ==> required_number(args, key) == Ok::<
            _,
            Seq<char>,
        >(n),
{
}

/// A list is taken just where it is missing, or has at most sixty-four elements that are all texts
/// of at most 4,096 bytes; it is then those texts in their order.
pub proof fn law_list_arguments(args: ArgsView, key: Seq<char>)
    ensures
        list_arg(args, key) is Ok <==> match lookup(args, key) {
            None => true,
            Some(ArgView::List(s)) => s.len() <= 64 && forall|i: int|
                0 <= i < s.len() ==> (#[trigger] s[i]) is Some && byte_len(s[i]->0) <= 4_096,
            _ => false,
        },
        list_arg(args, key) matches Ok(t) ==> match lookup(args, key) {
            Some(ArgView::List(s)) => t.len() == s.len() && forall|i: int|
                0 <= i < s.len() ==> (#[trigger] s[i]) == Some(t[i]),
            _ => t.len() == 0,
        },
{
    if let Some(ArgView::List(s)) = lookup(args, key) {
        lemma_elements_fault(s, key, 0);
    }
}

proof fn lemma_elements_fault(s: Seq<Option<Seq<char>>>, key: Seq<char>, from: int)
    requires
        0 <= from <= s.len(),
    ensures
        elements_fault(s, key, from) is None <==> forall|i: int|
            from <= i < s.len() ==> (#[trigger] s[i]) is Some && byte_len(s[i]->0) <= 4_096,
    decreases s.len() - from,
{
    if from < s.len() {
        lemma_elements_fault(s, key, from + 1);
        if s[from] is Some && byte_len(s[from]->0) <= 4_096 {
            assert(elements_fault(s, key, from) == elements_fault(s, key, from + 1));
        }
    }
}

/// The fault of a list is that of the first element that is not in order.
pub proof fn law_first_bad_element_is_named(s: Seq<Option<Seq<char>>>, key: Seq<char>, i: int)
    requires
        0 <= i < s.len(),
        s[i] is None || byte_len(s[i]->0) > 4_096,
        forall|j: int| 0 <= j < i ==> (#[trigger] s[j]) is Some && byte_len(s[j]->0) <= 4_096,
    ensures
        elements_fault(s, key, 0) == Some(
            "`"@ + key + "["@ + text::decimal(i as nat) + (match s[i] {
                None => "]` must be a string"@,
                Some(_) => "]` exceeds the "@ + text::decimal(4_096) + "-byte URI limit"@,
            }),
        ),
{
    lemma_elements_skip(s, key, 0, i);
    let start = "`"@ + key + "["@ + text::decimal(i as nat);
    if s[i] is Some {
        assert(start + "]` exceeds the "@ + text::decimal(4_096) + "-byte URI limit"@ =~= start + (
        "]` exceeds the "@ + text::decimal(4_096) + "-byte URI limit"@));
    }
}

proof fn lemma_elements_skip(s: Seq<Option<Seq<char>>>, key: Seq<char>, from: int, i: int)
    requires
        0 <= from <= i < s.len(),
        forall|j: int| from <= j < i ==> (#[trigger] s[j]) is Some && byte_len(s[j]->0) <= 4_096,
    ensures
        elements_fault(s, key, from) == elements_fault(s, key, i),
    decreases i - from,
{
    if from < i {
        assert(s[from] is Some);
        lemma_elements_skip(s, key, from + 1, i);
    }
}

/// A uri of a kind and a rest tells both: the kind before its first colon, and as its region the
/// rest, of which a symbol's loses the name behind the last colon.
pub proof fn law_uri_tells_kind_and_region(kind: Seq<char>, rest: Seq<char>, name: Seq<char>)
    requires
        kind.len() > 0,
        !kind.contains(':'),
        !name.contains(':'),
    ensures
        kind_part(kind.push(':') + rest) == kind,
        kind != "sym"@ ==> region_part(kind.push(':') + rest) == rest,
        kind == "sym"@ ==> region_part(kind.push(':') + (rest.push(':') + name)) == rest,
        kind == "sym"@ ==> region_part(kind.push(':') + name) == name,
        kind_part(kind) == kind,
        region_part(kind) == kind,
{
    lemma_uri(kind, rest);
    lemma_uri(kind, rest.push(':') + name);
    lemma_uri(kind, name);
    text::lemma_first_pos(kind, ':');
    assert(text::first_pos(kind, ':') == kind.len());
    assert(kind.take(kind.len() as int) =~= kind);
    reveal_strlit("sym:");
    reveal_strlit("sym");
    if text::starts_with(kind, "sym:"@) {
        assert(kind.take(4)[3] == ':');
        assert(kind.contains(kind[3]));
    }
    let u = kind.push(':') + rest;
    if kind != "sym"@ && text::starts_with(u, "sym:"@) {
        assert(u.take(4)[0] == 's' && u.take(4)[1] == 'y' && u.take(4)[2] == 'm' && u.take(4)[3]
            == ':');
        assert(u[0] == 's' && u[1] == 'y' && u[2] == 'm' && u[3] == ':');
        assert(u[kind.len() as int] == ':');
        assert(kind.len() >= 3);
        if kind.len() > 3 {
            assert(kind[3] == ':');
            assert(kind.contains(kind[3]));
        }
        assert(kind =~= "sym"@);
    }
    if kind == "sym"@ {
        let tail = rest.push(':') + name;
        let v = kind.push(':') + tail;
        assert(v.take(4) =~= "sym:"@);
        text::law_last_pos(tail, ':');
        assert(tail[rest.len() as int] == ':');
        assert forall|i: int| rest.len() < i < tail.len() implies tail[i] != ':' by {
            assert(name.contains(tail[i])) by {
                assert(name[i - rest.len() - 1] == tail[i]);
            }
        }
        assert(text::last_pos(tail, ':') == rest.len());
        assert(tail.take(rest.len() as int) =~= rest);
        text::law_last_pos(name, ':');
    }
}

proof fn lemma_uri(kind: Seq<char>, rest: Seq<char>)
    requires
        !kind.contains(':'),
    ensures
        text::first_pos(kind.push(':') + rest, ':') == kind.len(),
        (kind.push(':') + rest).take(kind.len() as int) == kind,
        (kind.push(':') + rest).skip(kind.len() as int + 1) == rest,
{
    let u = kind.push(':') + rest;
    text::lemma_first_pos(u, ':');
    let p = text::first_pos(u, ':') as int;
    assert(u[kind.len() as int] == ':');
    if p < kind.len() {
        assert(kind.contains(kind[p]));
        assert(u[p] == kind[p]);
    }
    assert(u.take(kind.len() as int) =~= kind);
    assert(u.skip(kind.len() as int + 1) =~= rest);
}

/// A line is the text before its end: the text comes back from its bytes with a line feed, with a
/// carriage return and a line feed, and at the end of the input with neither.
pub proof fn law_line_gives_its_text(s: Seq<char>)
    requires
        encode_utf8(s).len() > 0,
        encode_utf8(s).last() != 10,
        encode_utf8(s).last() != 13,
        encode_utf8(s).len() + 2 <= 1_048_576,
    ensures
        line_of(encode_utf8(s)) == LineView::Line(s),
        line_of(encode_utf8(s).push(10)) == LineView::Line(s),
        line_of(encode_utf8(s).push(13).push(10)) == LineView::Line(s),
{
    let b = encode_utf8(s);
    encode_utf8_valid_utf8(s);
    encode_utf8_decode_utf8(s);
    assert(b.push(10).drop_last() =~= b);
    assert(b.push(13).push(10).drop_last() =~= b.push(13));
    assert(b.push(13).drop_last() =~= b);
}

/// No byte is the end of the input, and a line beyond the limit is refused whatever it holds.
pub proof fn law_line_limits(b: Seq<u8>)
    ensures
        line_of(b) is Eof <==> b.len() == 0,
        line_of(b) is TooLong <==> b.len() > 1_048_576,
{
}

/// Each class of sensitivity has one word; no word at all is internal, and any other is refused.
pub proof fn law_sensitivity_words(s: Seq<char>)
    ensures
        sensitivity_of(s) == Ok::<_, Seq<char>>(Sensitivity::Public) <==> s == "public"@,
        sensitivity_of(s) == Ok::<_, Seq<char>>(Sensitivity::Internal) <==> s == "internal"@
            || s.len() == 0,
        sensitivity_of(s) == Ok::<_, Seq<char>>(Sensitivity::Confidential) <==> s
            == "confidential"@,
        sensitivity_of(s) == Ok::<_, Seq<char>>(Sensitivity::Restricted) <==> s == "restricted"@,
{
    reveal_strlit("public");
    reveal_strlit("internal");
    reveal_strlit("confidential");
    reveal_strlit("restricted");
    assert("public"@.len() == 6);
    assert("internal"@.len() == 8);
    assert("confidential"@.len() == 12);
    assert("restricted"@.len() == 10);
}

/// Each strategy has its words, and every other word is the precise one.
pub proof fn law_strategy_words(s: Seq<char>)
    ensures
        strategy_of(s) is FastSpatial <==> s == "fast"@ || s == "spatial"@,
        strategy_of(s) is HybridCascade <==> s == "cascade"@ || s == "hybrid"@,
        strategy_of(s) is PrecisionSketch <==> s != "fast"@ && s != "spatial"@ && s != "cascade"@
            && s != "hybrid"@,
{
    reveal_strlit("fast");
    reveal_strlit("spatial");
    reveal_strlit("cascade");
    reveal_strlit("hybrid");
    assert("fast"@.len() == 4);
    assert("hybrid"@.len() == 6);
    assert("spatial"@[0] != "cascade"@[0]);
    assert("spatial"@.len() == 7 && "cascade"@.len() == 7);
}

/// A session takes labels just as long as there are at most 1,024 of them in all.
pub proof fn law_feedback_is_bounded(current: nat, additional: nat)
    ensures
        feedback_fault(current, additional) is None <==> current + additional <= 1_024,
{
}

/// A payload without a separator is all content, and is its own record id.
pub proof fn law_plain_payload_is_all_content(payload: Seq<char>)
    requires
        !payload.contains(SEP),
    ensures
        parted(payload) == (Seq::<char>::empty(), payload),
        key_of(payload) == payload,
{
    text::lemma_first_pos(payload, SEP);
    let i = text::first_pos(payload, SEP) as int;
    if i < payload.len() {
        assert(payload.contains(payload[i]));
    }
    assert(payload.take(payload.len() as int) =~= payload);
}

/// An argument is missing, or a text of at most `max` bytes.
pub open spec fn text_ok(args: ArgsView, key: Seq<char>, max: nat) -> bool {
    match lookup(args, key) {
        None => true,
        Some(ArgView::Text(s)) => encode_utf8(s).len() <= max,
        _ => false,
    }
}

/// An argument is missing, or a number within limits.
pub open spec fn count_ok(args: ArgsView, key: Seq<char>, min: nat, max: nat) -> bool {
    match lookup(args, key) {
        None => true,
        Some(ArgView::Number(n)) => min <= n <= max,
        _ => false,
    }
}

/// An argument is missing, null, or a number.
pub open spec fn moment_ok(args: ArgsView, key: Seq<char>) -> bool {
    match lookup(args, key) {
        None => true,
        Some(ArgView::Null) => true,
        Some(ArgView::Number(_)) => true,
        _ => false,
    }
}

/// The generation that is given is newer than the stored one, or none is given and there is a next
/// one.
pub open spec fn generation_ok(args: ArgsView, stored: Option<u64>) -> bool {
    let now = match stored {
        Some(g) => g,
        None => 0,
    };
    moment_ok(args, "generation"@) && match number_given(args, "generation"@) {
        Some(g) => g > now,
        None => now < u64::MAX,
    }
}

/// A word of sensitivity is known.
pub open spec fn sensitivity_known(s: Seq<char>) -> bool {
    s == "public"@ || s == "internal"@ || s == "confidential"@ || s == "restricted"@
}

/// The generation of a write is accepted just where it is newer.
pub proof fn law_newer_generations_are_accepted(stored: Option<u64>, args: ArgsView)
    ensures
        next_generation(stored, args) is Ok <==> generation_ok(args, stored),
{
}

} // verus!
