//! Text primitives: character classes, trimming, decimal numbers, byte order.
use vstd::prelude::*;
use vstd::string::*;
use vstd::utf8::*;

verus! {

/// Specification of `String::push`: it appends one character at the end.
pub assume_specification[ String::push ](s: &mut String, c: char)
    ensures
        final(s)@ == old(s)@.push(c),
;

/// The characters with the Unicode `White_Space` property.
pub open spec fn is_whitespace(c: char) -> bool {
    ||| '\u{9}' <= c <= '\u{d}'
    ||| c == ' '
    ||| c == '\u{85}'
    ||| c == '\u{a0}'
    ||| c == '\u{1680}'
    ||| '\u{2000}' <= c <= '\u{200a}'
    ||| c == '\u{2028}'
    ||| c == '\u{2029}'
    ||| c == '\u{202f}'
    ||| c == '\u{205f}'
    ||| c == '\u{3000}'
}

/// Whether every character of `s` is white space (the empty text included).
pub open spec fn blank(s: Seq<char>) -> bool {
    forall|i: int| 0 <= i < s.len() ==> is_whitespace(#[trigger] s[i])
}

/// Tests the Unicode `White_Space` property.
pub fn whitespace(c: char) -> (r: bool)
    ensures
        r == is_whitespace(c),
{
    ('\u{9}' <= c && c <= '\u{d}') || c == ' ' || c == '\u{85}' || c == '\u{a0}' || c == '\u{1680}'
        || ('\u{2000}' <= c && c <= '\u{200a}') || c == '\u{2028}' || c == '\u{2029}'
        || c == '\u{202f}' || c == '\u{205f}' || c == '\u{3000}'
}

/// The characters of `s`, in order.
pub fn chars_of(s: &str) -> (v: Vec<char>)
    ensures
        v@ == s@,
{
    let mut v: Vec<char> = Vec::new();
    for c in it: s.chars()
        invariant
            it.seq() == s@,
            v@ == s@.take(it.index()),
    {
        v.push(c);
    }
    v
}

/// The text made of the characters `v[from..to]`.
pub fn text_of(v: &[char], from: usize, to: usize) -> (s: String)
    requires
        from <= to <= v@.len(),
    ensures
        s@ == v@.subrange(from as int, to as int),
{
    let mut s = String::new();
    let mut i: usize = from;
    while i < to
        invariant
            from <= i <= to <= v@.len(),
            s@ == v@.subrange(from as int, i as int),
        decreases to - i,
    {
        s.push(v[i]);
        i += 1;
    }
    s
}

/// Whether `s` is made of white space only.
pub fn is_blank(s: &str) -> (r: bool)
    ensures
        r == blank(s@),
{
    let v = chars_of(s);
    let mut i: usize = 0;
    while i < v.len()
        invariant
            i <= v@.len(),
            v@ == s@,
            forall|j: int| 0 <= j < i ==> is_whitespace(#[trigger] v@[j]),
        decreases v@.len() - i,
    {
        if !whitespace(v[i]) {
            return false;
        }
        i += 1;
    }
    true
}


/// Two texts with the same bytes have the same characters.
pub proof fn lemma_utf8_injective(a: Seq<char>, b: Seq<char>)
    requires
        encode_utf8(a) == encode_utf8(b),
    ensures
        a == b,
{
    encode_utf8_decode_utf8(a);
    encode_utf8_decode_utf8(b);
}

/// Whether two byte strings are equal.
pub fn bytes_equal(a: &[u8], b: &[u8]) -> (r: bool)
    ensures
        r == (a@ == b@),
{
    if a.len() != b.len() {
        return false;
    }
    let mut i: usize = 0;
    while i < a.len()
        invariant
            i <= a@.len(),
            a@.len() == b@.len(),
            forall|j: int| 0 <= j < i ==> a@[j] == b@[j],
        decreases a@.len() - i,
    {
        if a[i] != b[i] {
            assert(a@[i as int] != b@[i as int]);
            return false;
        }
        i += 1;
    }
    assert(a@ =~= b@);
    true
}

/// Whether two texts are equal.
pub fn text_equal(a: &str, b: &str) -> (r: bool)
    ensures
        r == (a@ == b@),
{
    let r = bytes_equal(a.as_bytes(), b.as_bytes());
    proof {
        if r {
            lemma_utf8_injective(a@, b@);
        }
    }
    r
}

/// Lexicographic order of byte strings.
pub open spec fn bytes_below(a: Seq<u8>, b: Seq<u8>) -> bool
    decreases a.len(),
{
    if b.len() == 0 {
        false
    } else if a.len() == 0 {
        true
    } else if a[0] != b[0] {
        a[0] < b[0]
    } else {
        bytes_below(a.drop_first(), b.drop_first())
    }
}

/// The order of texts: that of their UTF-8 bytes.
pub open spec fn text_below(a: Seq<char>, b: Seq<char>) -> bool {
    bytes_below(encode_utf8(a), encode_utf8(b))
}

/// The byte order is irreflexive, transitive and total.
proof fn lemma_bytes_below_antisymmetric(a: Seq<u8>, b: Seq<u8>)
    ensures
        !(bytes_below(a, b) && bytes_below(b, a)),
        !bytes_below(a, b) && !bytes_below(b, a) ==> a == b,
    decreases a.len(),
{
    if a.len() > 0 && b.len() > 0 && a[0] == b[0] {
        lemma_bytes_below_antisymmetric(a.drop_first(), b.drop_first());
        if a.drop_first() == b.drop_first() {
            assert(a =~= seq![a[0]] + a.drop_first());
            assert(b =~= seq![b[0]] + b.drop_first());
        }
    } else if a.len() == 0 && b.len() == 0 {
        assert(a =~= b);
    }
}

proof fn lemma_bytes_below_transitive(a: Seq<u8>, b: Seq<u8>, c: Seq<u8>)
    requires
        bytes_below(a, b),
        bytes_below(b, c),
    ensures
        bytes_below(a, c),
    decreases a.len(),
{
    if a.len() > 0 && a[0] == b[0] && b[0] == c[0] {
        lemma_bytes_below_transitive(a.drop_first(), b.drop_first(), c.drop_first());
    }
}

/// The order of texts is a strict total order: no text is below itself, of two
/// different texts exactly one is below the other, and the order is transitive.
pub proof fn law_text_order(a: Seq<char>, b: Seq<char>, c: Seq<char>)
    ensures
        !text_below(a, a),
        a != b ==> (text_below(a, b) <==> !text_below(b, a)),
        text_below(a, b) && text_below(b, c) ==> text_below(a, c),
{
    lemma_bytes_below_antisymmetric(encode_utf8(a), encode_utf8(a));
    lemma_bytes_below_antisymmetric(encode_utf8(a), encode_utf8(b));
    if encode_utf8(a) == encode_utf8(b) {
        lemma_utf8_injective(a, b);
    }
    if text_below(a, b) && text_below(b, c) {
        lemma_bytes_below_transitive(encode_utf8(a), encode_utf8(b), encode_utf8(c));
    }
}

/// Whether the bytes of `a` come before those of `b`.
pub fn bytes_before(a: &[u8], b: &[u8]) -> (r: bool)
    ensures
        r == bytes_below(a@, b@),
{
    let mut i: usize = 0;
    assert(a@.skip(0) =~= a@ && b@.skip(0) =~= b@);
    while i < a.len() && i < b.len()
        invariant
            i <= a@.len(),
            i <= b@.len(),
            bytes_below(a@, b@) == bytes_below(a@.skip(i as int), b@.skip(i as int)),
        decreases a@.len() - i,
    {
        proof {
            assert(a@.skip(i as int).drop_first() =~= a@.skip(i + 1));
            assert(b@.skip(i as int).drop_first() =~= b@.skip(i + 1));
        }
        if a[i] != b[i] {
            return a[i] < b[i];
        }
        i += 1;
    }
    i < b.len()
}

/// Whether `a` comes before `b` in the order of texts.
pub fn text_before(a: &str, b: &str) -> (r: bool)
    ensures
        r == text_below(a@, b@),
{
    bytes_before(a.as_bytes(), b.as_bytes())
}

/// The decimal digit of value `d`.
pub open spec fn digit(d: nat) -> char {
    (48 + d) as char
}

/// The decimal notation of `n`, without leading zeros.
pub open spec fn decimal(n: nat) -> Seq<char>
    decreases n,
{
    if n < 10 {
        seq![digit(n)]
    } else {
        decimal(n / 10).push(digit(n % 10))
    }
}

/// The decimal notation of `n`, filled with leading zeros up to `width` digits.
pub open spec fn padded(n: nat, width: nat) -> Seq<char> {
    let d = decimal(n);
    if d.len() >= width {
        d
    } else {
        Seq::new((width - d.len()) as nat, |i: int| '0') + d
    }
}

/// Appends the decimal notation of `n` to `s`.
pub fn push_decimal(s: &mut String, n: u128)
    ensures
        final(s)@ == old(s)@ + decimal(n as nat),
    decreases n,
{
    if n >= 10 {
        push_decimal(s, n / 10);
    }
    let d: u8 = (n % 10) as u8;
    s.push((48 + d) as char);
}

/// Appends `n` in decimal with leading zeros up to `width` digits.
pub fn push_padded(s: &mut String, n: u64, width: usize)
    ensures
        final(s)@ == old(s)@ + padded(n as nat, width as nat),
{
    let mut d = String::new();
    push_decimal(&mut d, n as u128);
    let digits = chars_of(&d);
    let mut i: usize = digits.len();
    let ghost start = s@;
    let ghost mut k: nat = 0;
    assert(d@ =~= decimal(n as nat));
    while i < width
        invariant
            digits@.len() <= i,
            i <= width || i == digits@.len(),
            k == i - digits@.len(),
            s@ == start + Seq::new(k, |j: int| '0'),
        decreases width - i,
    {
        s.push('0');
        i += 1;
        proof {
            k = k + 1;
            assert(Seq::new(k, |j: int| '0') =~= Seq::new((k - 1) as nat, |j: int| '0').push('0'));
        }
    }
    s.append(&d);
    assert(s@ =~= start + padded(n as nat, width as nat));
}

/// Whether `c` is an ASCII decimal digit.
pub open spec fn is_digit(c: char) -> bool {
    '0' <= c <= '9'
}

/// The number that a sequence of digits denotes.
pub open spec fn digits_value(s: Seq<char>) -> nat
    decreases s.len(),
{
    if s.len() == 0 {
        0
    } else {
        digits_value(s.drop_last()) * 10 + (s.last() as nat - 48) as nat
    }
}

/// Whether `s` is one or more digits.
pub open spec fn all_digits(s: Seq<char>) -> bool {
    s.len() > 0 && forall|i: int| 0 <= i < s.len() ==> is_digit(#[trigger] s[i])
}

/// The value of an unsigned number in decimal, an optional plus sign before it,
/// where it is at most `max`.
pub open spec fn unsigned_value(s: Seq<char>, max: nat) -> Option<nat> {
    let d = if s.len() > 0 && s[0] == '+' {
        s.drop_first()
    } else {
        s
    };
    if all_digits(d) && digits_value(d) <= max {
        Some(digits_value(d))
    } else {
        None
    }
}

proof fn lemma_digits_value_grows(s: Seq<char>, n: int)
    requires
        0 <= n <= s.len(),
    ensures
        digits_value(s.take(n)) <= digits_value(s),
    decreases s.len(),
{
    if n < s.len() {
        assert(s.drop_last().take(n) =~= s.take(n));
        lemma_digits_value_grows(s.drop_last(), n);
    } else {
        assert(s.take(n) =~= s);
    }
}

/// Reads an unsigned decimal number of at most `max`.
pub fn parse_unsigned(s: &str, max: u64) -> (r: Option<u64>)
    ensures
        r is Some <==> unsigned_value(s@, max as nat) is Some,
        r matches Some(n) ==> unsigned_value(s@, max as nat) == Some(n as nat),
{
    let v = chars_of(s);
    let start: usize = if v.len() > 0 && v[0] == '+' {
        1
    } else {
        0
    };
    let ghost d = if s@.len() > 0 && s@[0] == '+' {
        s@.drop_first()
    } else {
        s@
    };
    assert(d =~= v@.skip(start as int));
    if v.len() == start {
        return None;
    }
    let mut i: usize = start;
    let mut value: u64 = 0;
    assert(d.take(0) =~= Seq::<char>::empty());
    while i < v.len()
        invariant
            start <= i <= v@.len(),
            start < v@.len(),
            d == v@.skip(start as int),
            s@ == v@,
            d == (if s@.len() > 0 && s@[0] == '+' {
                s@.drop_first()
            } else {
                s@
            }),
            forall|j: int| 0 <= j < i - start ==> is_digit(#[trigger] d[j]),
            value == digits_value(d.take(i - start)),
            value <= max,
        decreases v@.len() - i,
    {
        let c = v[i];
        assert(c == d[i - start]);
        if c < '0' || c > '9' {
            return None;
        }
        let next: u128 = (value as u128) * 10 + (c as u32 - 48) as u128;
        proof {
            assert(d.take(i + 1 - start).drop_last() =~= d.take(i - start));
            lemma_digits_value_grows(d, i + 1 - start);
        }
        if next > max as u128 {
            return None;
        }
        value = next as u64;
        i += 1;
    }
    assert(d.take(i - start) =~= d);
    Some(value)
}

proof fn lemma_decimal_value(n: nat)
    ensures
        all_digits(decimal(n)),
        digits_value(decimal(n)) == n,
    decreases n,
{
    if n < 10 {
        assert(decimal(n).drop_last() =~= Seq::<char>::empty());
        assert(digits_value(decimal(n).drop_last()) == 0);
    } else {
        lemma_decimal_value(n / 10);
        assert(decimal(n).drop_last() =~= decimal(n / 10));
        assert forall|i: int| 0 <= i < decimal(n).len() implies is_digit(#[trigger] decimal(n)[i]) by {
            if i < decimal(n / 10).len() {
                assert(decimal(n)[i] == decimal(n / 10)[i]);
            }
        }
    }
}

proof fn lemma_zeros_value(k: nat, d: Seq<char>)
    ensures
        digits_value(Seq::new(k, |i: int| '0') + d) == digits_value(d),
    decreases d.len(), k,
{
    let s = Seq::new(k, |i: int| '0') + d;
    if d.len() > 0 {
        assert(s.drop_last() =~= Seq::new(k, |i: int| '0') + d.drop_last());
        lemma_zeros_value(k, d.drop_last());
    } else if k > 0 {
        assert(s.drop_last() =~= Seq::new((k - 1) as nat, |i: int| '0') + d);
        lemma_zeros_value((k - 1) as nat, d);
    } else {
        assert(s =~= d);
    }
}

/// Reading a number back from its decimal notation, zero-filled or not, gives the
/// number.
pub proof fn law_decimal_round_trip(n: nat, width: nat, max: nat)
    requires
        n <= max,
    ensures
        unsigned_value(decimal(n), max) == Some(n),
        unsigned_value(padded(n, width), max) == Some(n),
{
    lemma_decimal_value(n);
    let d = decimal(n);
    assert(is_digit(d[0]));
    let p = padded(n, width);
    if d.len() < width {
        let k = (width - d.len()) as nat;
        lemma_zeros_value(k, d);
        assert forall|i: int| 0 <= i < p.len() implies is_digit(#[trigger] p[i]) by {
            if i >= k {
                assert(p[i] == d[i - k]);
            }
        }
    }
    assert(is_digit(p[0]));
}


proof fn lemma_decimal_len(n: nat, k: nat, bound: nat)
    requires
        k >= 1,
        n < bound,
        bound == power_of_ten(k),
    ensures
        1 <= decimal(n).len() <= k,
    decreases k,
{
    if n >= 10 {
        assert(k >= 2) by {
            reveal_with_fuel(power_of_ten, 2);
        }
        lemma_decimal_len(n / 10, (k - 1) as nat, power_of_ten((k - 1) as nat));
    }
}

/// A decimal notation is one or more digits.
pub proof fn lemma_decimal_digits(n: nat)
    ensures
        all_digits(decimal(n)),
{
    lemma_decimal_value(n);
}

/// Ten to the power `k`.
pub open spec fn power_of_ten(k: nat) -> nat
    decreases k,
{
    if k == 0 {
        1
    } else {
        10 * power_of_ten((k - 1) as nat)
    }
}

/// Twenty digits hold every 64-bit number.
pub proof fn lemma_padded_20(n: u64)
    ensures
        padded(n as nat, 20).len() == 20,
        all_digits(padded(n as nat, 20)),
        digits_value(padded(n as nat, 20)) == n,
{
    reveal_with_fuel(power_of_ten, 21);
    lemma_decimal_len(n as nat, 20, power_of_ten(20));
    law_decimal_round_trip(n as nat, 20, n as nat);
    let p = padded(n as nat, 20);
    assert(p[0] == '0' || p =~= decimal(n as nat));
    lemma_decimal_value(n as nat);
    assert(is_digit(p[0]));
}

/// `s` without its leading white space.
pub open spec fn trim_start(s: Seq<char>) -> Seq<char>
    decreases s.len(),
{
    if s.len() > 0 && is_whitespace(s[0]) {
        trim_start(s.drop_first())
    } else {
        s
    }
}

/// `s` without its trailing white space.
pub open spec fn trim_end(s: Seq<char>) -> Seq<char>
    decreases s.len(),
{
    if s.len() > 0 && is_whitespace(s.last()) {
        trim_end(s.drop_last())
    } else {
        s
    }
}

/// `s` without the white space on either side.
pub open spec fn trim(s: Seq<char>) -> Seq<char> {
    trim_end(trim_start(s))
}

/// The characters of `s` without the white space on either side.
pub fn trimmed(s: &str) -> (r: Vec<char>)
    ensures
        r@ == trim(s@),
{
    let v = chars_of(s);
    let mut from: usize = 0;
    assert(v@.subrange(0, v@.len() as int) =~= v@);
    while from < v.len() && whitespace(v[from])
        invariant
            from <= v@.len(),
            trim_start(v@) == trim_start(v@.subrange(from as int, v@.len() as int)),
        decreases v@.len() - from,
    {
        assert(v@.subrange(from as int, v@.len() as int).drop_first() =~= v@.subrange(
            from + 1,
            v@.len() as int,
        ));
        from += 1;
    }
    let mut to: usize = v.len();
    while to > from && whitespace(v[to - 1])
        invariant
            from <= to <= v@.len(),
            trim(v@) == trim_end(v@.subrange(from as int, to as int)),
        decreases to,
    {
        assert(v@.subrange(from as int, to as int).drop_last() =~= v@.subrange(
            from as int,
            to - 1,
        ));
        to -= 1;
    }
    let mut r: Vec<char> = Vec::new();
    let mut i: usize = from;
    while i < to
        invariant
            from <= i <= to <= v@.len(),
            r@ == v@.subrange(from as int, i as int),
        decreases to - i,
    {
        r.push(v[i]);
        i += 1;
    }
    r
}

/// Trimming leaves nothing exactly of the blank texts.
pub proof fn law_trim_blank(s: Seq<char>)
    ensures
        trim(s).len() == 0 <==> blank(s),
    decreases s.len(),
{
    if s.len() > 0 {
        if is_whitespace(s[0]) {
            law_trim_blank(s.drop_first());
            if blank(s.drop_first()) {
                assert forall|i: int| 0 <= i < s.len() implies is_whitespace(#[trigger] s[i]) by {
                    if i > 0 {
                        assert(s.drop_first()[i - 1] == s[i]);
                    }
                }
            }
            if blank(s) {
                assert forall|i: int| 0 <= i < s.drop_first().len() implies is_whitespace(
                    #[trigger] s.drop_first()[i],
                ) by {
                    assert(s.drop_first()[i] == s[i + 1]);
                }
            }
        } else {
            lemma_trim_end_keeps_first(s);
        }
    }
}

proof fn lemma_trim_end_keeps_first(s: Seq<char>)
    requires
        s.len() > 0,
        !is_whitespace(s[0]),
    ensures
        trim_end(s).len() > 0,
    decreases s.len(),
{
    if is_whitespace(s.last()) {
        lemma_trim_end_keeps_first(s.drop_last());
    }
}

/// The position of the first `c` in `s`, or the length of `s` where there is none.
pub open spec fn first_pos(s: Seq<char>, c: char) -> nat
    decreases s.len(),
{
    if s.len() == 0 || s[0] == c {
        0
    } else {
        1 + first_pos(s.drop_first(), c)
    }
}

/// The position of the last `c` in `s`, or -1 where there is none.
pub open spec fn last_pos(s: Seq<char>, c: char) -> int
    decreases s.len(),
{
    if s.len() == 0 {
        -1
    } else if s.last() == c {
        s.len() - 1
    } else {
        last_pos(s.drop_last(), c)
    }
}

/// Finds the first `c` at or after `from`.
pub fn find_char(v: &[char], from: usize, c: char) -> (r: usize)
    requires
        from <= v@.len(),
    ensures
        r == from + first_pos(v@.skip(from as int), c),
        from <= r <= v@.len(),
        r < v@.len() ==> v@[r as int] == c,
        forall|j: int| from <= j < r ==> v@[j] != c,
{
    let mut i: usize = from;
    while i < v.len() && v[i] != c
        invariant
            from <= i <= v@.len(),
            from + first_pos(v@.skip(from as int), c) == i + first_pos(v@.skip(i as int), c),
            forall|j: int| from <= j < i ==> v@[j] != c,
        decreases v@.len() - i,
    {
        assert(v@.skip(i as int).drop_first() =~= v@.skip(i + 1));
        i += 1;
    }
    i
}

/// Finds the last `c`, one past its position; 0 where there is none.
pub fn find_last_char(v: &[char], c: char) -> (r: usize)
    ensures
        r == last_pos(v@, c) + 1,
        r <= v@.len(),
{
    let mut i: usize = v.len();
    assert(v@.take(v@.len() as int) =~= v@);
    while i > 0 && v[i - 1] != c
        invariant
            i <= v@.len(),
            last_pos(v@, c) == last_pos(v@.take(i as int), c),
        decreases i,
    {
        assert(v@.take(i as int).drop_last() =~= v@.take(i - 1));
        i -= 1;
    }
    i
}

/// The position of the first `c` is within the text or just past its end, and no
/// `c` stands before it.
pub proof fn lemma_first_pos(s: Seq<char>, c: char)
    ensures
        first_pos(s, c) <= s.len(),
        first_pos(s, c) < s.len() ==> s[first_pos(s, c) as int] == c,
        forall|i: int| 0 <= i < first_pos(s, c) ==> s[i] != c,
        first_pos(s, c) == s.len() <==> !s.contains(c),
    decreases s.len(),
{
    if s.len() > 0 && s[0] != c {
        lemma_first_pos(s.drop_first(), c);
        let k = first_pos(s.drop_first(), c);
        assert forall|i: int| 0 <= i < first_pos(s, c) implies s[i] != c by {
            if i > 0 {
                assert(s.drop_first()[i - 1] == s[i]);
            }
        }
        if s.contains(c) {
            let i = choose|i: int| 0 <= i < s.len() && s[i] == c;
            assert(s.drop_first()[i - 1] == c);
        }
        if s.drop_first().contains(c) {
            let i = choose|i: int| 0 <= i < s.drop_first().len() && s.drop_first()[i] == c;
            assert(s[i + 1] == c);
        }
    } else if s.len() > 0 {
        assert(s.contains(s[0]));
    }
}

/// Whether `pat` stands in `s` at position `i`.
pub open spec fn occurs_at(s: Seq<char>, pat: Seq<char>, i: int) -> bool {
    0 <= i && i + pat.len() <= s.len() && s.subrange(i, i + pat.len()) == pat
}

/// Whether `pat` stands anywhere in `s`.
pub open spec fn occurs(s: Seq<char>, pat: Seq<char>) -> bool {
    exists|i: int| occurs_at(s, pat, i)
}

/// Whether `pat` stands in `v` at position `at`.
fn stands_at(v: &[char], pat: &[char], at: usize) -> (r: bool)
    requires
        at + pat@.len() <= v@.len(),
    ensures
        r == occurs_at(v@, pat@, at as int),
{
    let n: usize = v.len();
    let mut i: usize = 0;
    while i < pat.len()
        invariant
            i <= pat@.len(),
            n == v@.len(),
            at + pat@.len() <= n,
            forall|j: int| 0 <= j < i ==> v@[at + j] == pat@[j],
        decreases pat@.len() - i,
    {
        if v[at + i] != pat[i] {
            assert(v@.subrange(at as int, at + pat@.len())[i as int] == v@[at + i]);
            return false;
        }
        i += 1;
    }
    assert(v@.subrange(at as int, at + pat@.len()) =~= pat@);
    true
}

/// Finds the first place where `pat` stands in `v`.
pub fn find_text(v: &[char], pat: &[char]) -> (r: Option<usize>)
    ensures
        r is Some <==> occurs(v@, pat@),
        r matches Some(i) ==> occurs_at(v@, pat@, i as int) && forall|j: int|
            0 <= j < i ==> !occurs_at(v@, pat@, j),
{
    let mut i: usize = 0;
    while i <= v.len() && pat.len() <= v.len() - i
        invariant
            i <= v@.len() + 1,
            forall|j: int| 0 <= j < i ==> !occurs_at(v@, pat@, j),
        decreases v@.len() + 1 - i,
    {
        if stands_at(v, pat, i) {
            return Some(i);
        }
        if i == v.len() {
            assert(!occurs(v@, pat@));
            return None;
        }
        i += 1;
    }
    None
}

/// Whether `pat` stands anywhere in `s`.
pub fn contains_text(s: &str, pat: &str) -> (r: bool)
    ensures
        r == occurs(s@, pat@),
{
    let v = chars_of(s);
    let p = chars_of(pat);
    find_text(&v, &p).is_some()
}

/// Whether `s` begins with `pat`.
pub open spec fn starts_with(s: Seq<char>, pat: Seq<char>) -> bool {
    pat.len() <= s.len() && s.take(pat.len() as int) == pat
}

/// Whether `v` begins with `pat`.
pub fn has_prefix(v: &[char], pat: &[char]) -> (r: bool)
    ensures
        r == starts_with(v@, pat@),
{
    if pat.len() > v.len() {
        return false;
    }
    let r = stands_at(v, pat, 0);
    assert(v@.subrange(0, pat@.len() as int) =~= v@.take(pat@.len() as int));
    r
}


/// `s` without one carriage return at its end.
pub open spec fn without_return(s: Seq<char>) -> Seq<char> {
    if s.len() > 0 && s.last() == '\r' {
        s.drop_last()
    } else {
        s
    }
}

/// The lines of a text: each ends at a line feed, with or without a carriage return
/// before it; the last one may end with the text.
pub open spec fn lines(s: Seq<char>) -> Seq<Seq<char>>
    decreases s.len(),
{
    let p = first_pos(s, '\n');
    if s.len() == 0 {
        Seq::empty()
    } else if p >= s.len() {
        seq![s]
    } else {
        seq![without_return(s.take(p as int))] + lines(s.skip((p + 1) as int))
    }
}

/// Splits a text into its lines.
pub fn split_lines(s: &str) -> (r: Vec<String>)
    ensures
        text_views(r@) == lines(s@),
{
    let v = chars_of(s);
    let n: usize = v.len();
    let mut r: Vec<String> = Vec::new();
    let mut from: usize = 0;
    assert(v@.skip(0) =~= v@);
    assert(text_views(r@) + lines(v@) =~= lines(v@));
    while from < n
        invariant
            n == v@.len(),
            from <= n,
            text_views(r@) + lines(v@.skip(from as int)) == lines(s@),
        decreases n - from,
    {
        let ghost rest = v@.skip(from as int);
        let ghost before = text_views(r@);
        let end: usize = find_char(&v, from, '\n');
        if end == n {
            let line = text_of(&v, from, n);
            proof {
                assert(line@ =~= rest);
                assert(text_views(r@.push(line)) =~= before.push(line@));
                assert(before.push(rest) =~= before + seq![rest]);
                assert(text_views(r@.push(line)) + lines(v@.skip(n as int)) =~= lines(s@));
            }
            r.push(line);
            from = n;
        } else {
            let stop: usize = if end > from && v[end - 1] == '\r' {
                end - 1
            } else {
                end
            };
            let line = text_of(&v, from, stop);
            proof {
                let p = (end - from) as int;
                assert(rest.take(p) =~= v@.subrange(from as int, end as int));
                assert(line@ =~= without_return(rest.take(p)));
                assert(rest.skip(p + 1) =~= v@.skip(end + 1));
                assert(text_views(r@.push(line)) =~= before.push(line@));
                assert(before + (seq![line@] + lines(v@.skip(end + 1))) =~= before.push(line@)
                    + lines(v@.skip(end + 1)));
            }
            r.push(line);
            from = end + 1;
        }
    }
    assert(text_views(r@) + lines(v@.skip(from as int)) =~= text_views(r@));
    r
}

/// The texts of a list of strings.
pub open spec fn text_views(s: Seq<String>) -> Seq<Seq<char>> {
    s.map_values(|t: String| t@)
}

/// A text that stands on one line: no line feed in it, no carriage return at its end.
pub open spec fn one_line(s: Seq<char>) -> bool {
    !s.contains('\n') && (s.len() > 0 ==> s.last() != '\r')
}

/// Texts one below the other, each ended by a line feed.
pub open spec fn below_each_other(ls: Seq<Seq<char>>) -> Seq<char>
    decreases ls.len(),
{
    if ls.len() == 0 {
        Seq::empty()
    } else {
        below_each_other(ls.drop_last()) + ls.last().push('\n')
    }
}

/// Writes texts one below the other.
pub fn join_lines(ls: &Vec<String>) -> (s: String)
    ensures
        s@ == below_each_other(text_views(ls@)),
{
    let ghost all = text_views(ls@);
    let mut s = String::new();
    let mut i: usize = 0;
    assert(all.take(0) =~= Seq::empty());
    while i < ls.len()
        invariant
            i <= ls@.len(),
            all == text_views(ls@),
            s@ == below_each_other(all.take(i as int)),
        decreases ls@.len() - i,
    {
        proof {
            assert(all.take(i + 1).drop_last() =~= all.take(i as int));
            assert(all.take(i + 1).last() == all[i as int]);
            assert(s@ + all[i as int].push('\n') =~= (s@ + all[i as int]).push('\n'));
        }
        s.append(&ls[i]);
        s.push('\n');
        i += 1;
    }
    assert(all.take(i as int) =~= all);
    s
}

proof fn lemma_first_line(a: Seq<char>, rest: Seq<char>)
    requires
        one_line(a),
    ensures
        lines(a.push('\n') + rest) == seq![a] + lines(rest),
{
    let s = a.push('\n') + rest;
    lemma_first_pos(s, '\n');
    let p = first_pos(s, '\n');
    assert(s[a.len() as int] == '\n');
    if p < a.len() {
        assert(a.contains(a[p as int]));
        assert(s[p as int] == a[p as int]);
    }
    assert(p == a.len());
    assert(s.take(p as int) =~= a);
    assert(s.skip((p + 1) as int) =~= rest);
}

proof fn lemma_lines_of(ls: Seq<Seq<char>>, rest: Seq<char>)
    requires
        forall|i: int| 0 <= i < ls.len() ==> one_line(#[trigger] ls[i]),
    ensures
        lines(below_each_other(ls) + rest) == ls + lines(rest),
    decreases ls.len(),
{
    if ls.len() == 0 {
        assert(below_each_other(ls) + rest =~= rest);
        assert(ls + lines(rest) =~= lines(rest));
    } else {
        let init = ls.drop_last();
        let last = ls.last();
        assert(last == ls[ls.len() - 1]);
        assert(below_each_other(ls) + rest =~= below_each_other(init) + (last.push('\n') + rest));
        assert forall|i: int| 0 <= i < init.len() implies one_line(#[trigger] init[i]) by {
            assert(init[i] == ls[i]);
        }
        lemma_lines_of(init, last.push('\n') + rest);
        lemma_first_line(last, rest);
        assert(init + (seq![last] + lines(rest)) =~= ls + lines(rest));
    }
}

/// Splitting what was joined gives the lines back, where each of them stands on one
/// line.
pub proof fn law_lines_round_trip(ls: Seq<Seq<char>>)
    requires
        forall|i: int| 0 <= i < ls.len() ==> one_line(#[trigger] ls[i]),
    ensures
        lines(below_each_other(ls)) == ls,
{
    lemma_lines_of(ls, Seq::empty());
    assert(below_each_other(ls) + Seq::<char>::empty() =~= below_each_other(ls));
    assert(ls + lines(Seq::<char>::empty()) =~= ls);
}

/// What follows `prefix` in `s`, where `s` begins with it.
pub open spec fn stripped(s: Seq<char>, prefix: Seq<char>) -> Option<Seq<char>> {
    if starts_with(s, prefix) {
        Some(s.skip(prefix.len() as int))
    } else {
        None
    }
}

/// Takes `prefix` off `s`.
pub fn strip_prefix(s: &str, prefix: &str) -> (r: Option<String>)
    ensures
        match r {
            Some(t) => stripped(s@, prefix@) == Some(t@),
            None => stripped(s@, prefix@) is None,
        },
{
    let v = chars_of(s);
    let p = chars_of(prefix);
    if has_prefix(&v, &p) {
        let t = text_of(&v, p.len(), v.len());
        assert(t@ =~= s@.skip(prefix@.len() as int));
        Some(t)
    } else {
        None
    }
}

pub proof fn lemma_stripped(prefix: Seq<char>, value: Seq<char>)
    ensures
        stripped(prefix + value, prefix) == Some(value),
{
    assert((prefix + value).take(prefix.len() as int) =~= prefix);
    assert((prefix + value).skip(prefix.len() as int) =~= value);
}

/// The texts, parted by another.
pub open spec fn joined(parts: Seq<Seq<char>>, sep: Seq<char>) -> Seq<char>
    decreases parts.len(),
{
    if parts.len() == 0 {
        Seq::empty()
    } else if parts.len() == 1 {
        parts[0]
    } else {
        joined(parts.drop_last(), sep) + sep + parts.last()
    }
}

/// The texts, parted by another.
pub fn join(parts: &Vec<String>, sep: &str) -> (s: String)
    ensures
        s@ == joined(text_views(parts@), sep@),
{
    let mut s = String::new();
    let ghost views = text_views(parts@);
    let mut i: usize = 0;
    proof {
        assert(s@ =~= Seq::<char>::empty());
    }
    while i < parts.len()
        invariant
            i <= parts@.len(),
            views == text_views(parts@),
            s@ == joined(views.take(i as int), sep@),
        decreases parts@.len() - i,
    {
        proof {
            assert(views.take(i + 1).drop_last() =~= views.take(i as int));
            assert(views.take(i + 1).last() == parts@[i as int]@);
        }
        if i > 0 {
            s.append(sep);
        }
        s.append(parts[i].as_str());
        proof {
            if i == 0 {
                assert(s@ =~= parts@[0]@);
                assert(views.take(1)[0] == parts@[0]@);
            }
        }
        i += 1;
    }
    proof {
        assert(views.take(i as int) =~= views);
    }
    s
}

/// Trimming takes the white space at both ends, all of it and nothing else.
pub proof fn law_trim_takes_the_ends(s: Seq<char>)
    ensures
        exists|a: int, b: int|
            0 <= a <= b <= s.len() && trim(s) == #[trigger] s.subrange(a, b) && blank(
                s.take(a),
            ) && blank(s.skip(b)) && (a < b ==> !is_whitespace(s[a]) && !is_whitespace(s[b - 1])),
{
    let a = lemma_trim_start(s);
    let t = s.skip(a);
    let n = lemma_trim_end(t);
    let b = a + n;
    assert(t.take(n) =~= s.subrange(a, b));
    assert(t.skip(n) =~= s.skip(b));
    if n > 0 {
        assert(t[n - 1] == s[b - 1]);
    }
    assert(trim(s) == s.subrange(a, b));
}

proof fn lemma_trim_start(s: Seq<char>) -> (a: int)
    ensures
        0 <= a <= s.len(),
        trim_start(s) == s.skip(a),
        blank(s.take(a)),
        a < s.len() ==> !is_whitespace(s[a]),
    decreases s.len(),
{
    if s.len() > 0 && is_whitespace(s[0]) {
        let rest = s.drop_first();
        let b = lemma_trim_start(rest);
        assert(rest.skip(b) =~= s.skip(b + 1));
        assert forall|i: int| 0 <= i < s.take(b + 1).len() implies is_whitespace(
            #[trigger] s.take(b + 1)[i],
        ) by {
            if i > 0 {
                assert(rest.take(b)[i - 1] == s[i]);
            }
        }
        b + 1
    } else {
        assert(s.skip(0) =~= s);
        0
    }
}

proof fn lemma_trim_end(s: Seq<char>) -> (n: int)
    ensures
        0 <= n <= s.len(),
        trim_end(s) == s.take(n),
        blank(s.skip(n)),
        n > 0 ==> !is_whitespace(s[n - 1]),
    decreases s.len(),
{
    if s.len() > 0 && is_whitespace(s.last()) {
        let less = s.drop_last();
        let n = lemma_trim_end(less);
        assert(less.take(n) =~= s.take(n));
        assert forall|i: int| 0 <= i < s.skip(n).len() implies is_whitespace(
            #[trigger] s.skip(n)[i],
        ) by {
            if n + i < less.len() {
                assert(less.skip(n)[i] == s[n + i]);
            }
        }
        n
    } else {
        assert(s.take(s.len() as int) =~= s);
        s.len() as int
    }
}

/// The last position of a character is where it stands and stands no more behind.
pub proof fn law_last_pos(s: Seq<char>, c: char)
    ensures
        -1 <= last_pos(s, c) < s.len(),
        last_pos(s, c) >= 0 ==> s[last_pos(s, c)] == c,
        forall|i: int| last_pos(s, c) < i < s.len() ==> s[i] != c,
        last_pos(s, c) < 0 <==> !s.contains(c),
    decreases s.len(),
{
    if s.len() > 0 && s.last() != c {
        let less = s.drop_last();
        law_last_pos(less, c);
        assert forall|i: int| last_pos(s, c) < i < s.len() implies s[i] != c by {
            if i < less.len() {
                assert(less[i] == s[i]);
            }
        }
        if s.contains(c) {
            let i = choose|i: int| 0 <= i < s.len() && s[i] == c;
            assert(less[i] == c);
        }
        if less.contains(c) {
            let i = choose|i: int| 0 <= i < less.len() && less[i] == c;
            assert(s[i] == c);
        }
    } else if s.len() > 0 {
        assert(s[s.len() - 1] == c);
    }
}

/// Joined texts are all there, in their order, with the separator between each and the next.
pub proof fn law_joined_texts_are_all_there(
    a: Seq<Seq<char>>,
    b: Seq<Seq<char>>,
    one: Seq<char>,
    sep: Seq<char>,
)
    ensures
        joined(seq![one], sep) == one,
        a.len() > 0 && b.len() > 0 ==> joined(a + b, sep) == joined(a, sep) + sep + joined(b, sep),
        a.len() == 0 ==> joined(a, sep).len() == 0,
    decreases b.len(),
{
    if a.len() > 0 && b.len() > 0 {
        let s = a + b;
        assert(s.last() == b.last());
        if b.len() == 1 {
            assert(s.drop_last() =~= a);
            assert(joined(b, sep) == b[0]);
        } else {
            law_joined_texts_are_all_there(a, b.drop_last(), one, sep);
            assert(s.drop_last() =~= a + b.drop_last());
            assert(joined(s, sep) =~= joined(a, sep) + sep + joined(b, sep));
        }
    }
}

/// The order of texts is that of a dictionary, byte by byte: at the first difference the smaller
/// byte decides, and a beginning comes before what goes on.
pub proof fn law_bytes_order_is_a_dictionary(a: Seq<u8>, b: Seq<u8>)
    ensures
        bytes_below(a, b) <==> exists|i: int|
            0 <= i <= a.len() && i < b.len() && #[trigger] a.take(i) == b.take(i) && (i == a.len()
                || a[i] < b[i]),
    decreases a.len(),
{
    if b.len() > 0 && a.len() > 0 && a[0] == b[0] {
        let x = a.drop_first();
        let y = b.drop_first();
        law_bytes_order_is_a_dictionary(x, y);
        if bytes_below(a, b) {
            let i = choose|i: int|
                0 <= i <= x.len() && i < y.len() && #[trigger] x.take(i) == y.take(i) && (i
                    == x.len() || x[i] < y[i]);
            assert(a.take(i + 1) =~= seq![a[0]] + x.take(i));
            assert(b.take(i + 1) =~= seq![b[0]] + y.take(i));
            assert(a.take(i + 1) == b.take(i + 1));
        }
        if exists|i: int|
            0 <= i <= a.len() && i < b.len() && #[trigger] a.take(i) == b.take(i) && (i == a.len()
                || a[i] < b[i]) {
            let i = choose|i: int|
                0 <= i <= a.len() && i < b.len() && #[trigger] a.take(i) == b.take(i) && (i
                    == a.len() || a[i] < b[i]);
            assert(i > 0);
            assert(x.take(i - 1) =~= a.take(i).drop_first());
            assert(y.take(i - 1) =~= b.take(i).drop_first());
            assert(x.take(i - 1) == y.take(i - 1));
        }
    } else if b.len() > 0 {
        assert(a.take(0) =~= b.take(0));
        if !bytes_below(a, b) {
            assert forall|i: int|
                0 <= i <= a.len() && i < b.len() && #[trigger] a.take(i) == b.take(i) implies !(i
                == a.len() || a[i] < b[i]) by {
                if i > 0 {
                    assert(a.take(i)[0] == a[0]);
                    assert(b.take(i)[0] == b[0]);
                }
            }
        }
    }
}

/// A line ends at the first line feed, without the carriage return before it, and the rest is
/// lines again; a text without a line feed is one line.
pub proof fn law_a_line_ends_at_its_feed(a: Seq<char>, rest: Seq<char>)
    requires
        !a.contains('\n'),
    ensures
        lines(a.push('\n') + rest) == seq![
            if a.len() > 0 && a.last() == '\r' {
                a.drop_last()
            } else {
                a
            },
        ] + lines(rest),
        lines(a) == (if a.len() == 0 {
            Seq::empty()
        } else {
            seq![a]
        }),
{
    let s = a.push('\n') + rest;
    lemma_first_pos(s, '\n');
    lemma_first_pos(a, '\n');
    let p = first_pos(s, '\n');
    assert(s[a.len() as int] == '\n');
    if p < a.len() {
        assert(a.contains(a[p as int]));
        assert(s[p as int] == a[p as int]);
    }
    assert(s.take(p as int) =~= a);
    assert(s.skip((p + 1) as int) =~= rest);
}

/// A text stands in every text of which it is a part, and so does all that stands in it.
pub proof fn law_parts_occur(a: Seq<char>, p: Seq<char>, c: Seq<char>, pat: Seq<char>)
    ensures
        occurs(a + p + c, p),
        occurs(p, pat) ==> occurs(a + p + c, pat),
{
    let s = a + p + c;
    assert(s.subrange(a.len() as int, (a.len() + p.len()) as int) =~= p);
    assert(occurs_at(s, p, a.len() as int));
    if occurs(p, pat) {
        let i = choose|i: int| occurs_at(p, pat, i);
        assert(s.subrange(a.len() + i, a.len() + i + pat.len()) =~= p.subrange(
            i,
            i + pat.len(),
        ));
        assert(occurs_at(s, pat, a.len() + i));
    }
}

/// Every one of the texts stands in what they make when they are joined.
pub proof fn law_joined_texts_occur(parts: Seq<Seq<char>>, sep: Seq<char>, i: int)
    requires
        0 <= i < parts.len(),
    ensures
        occurs(joined(parts, sep), parts[i]),
    decreases parts.len(),
{
    let none = Seq::<char>::empty();
    if parts.len() == 1 {
        law_parts_occur(none, parts[0], none, parts[0]);
        assert(none + parts[0] + none =~= parts[0]);
    } else if i == parts.len() - 1 {
        let head = joined(parts.drop_last(), sep) + sep;
        law_parts_occur(head, parts[i], none, parts[i]);
        assert(head + parts[i] + none =~= joined(parts, sep));
    } else {
        law_joined_texts_occur(parts.drop_last(), sep, i);
        let head = joined(parts.drop_last(), sep);
        law_parts_occur(none, head, sep + parts.last(), parts[i]);
        assert(none + head + (sep + parts.last()) =~= joined(parts, sep));
    }
}

/// A plus sign before a number changes nothing, and neither do zeros.
pub proof fn law_signs_and_zeros_change_nothing(n: nat, width: nat, max: nat)
    requires
        n <= max,
    ensures
        unsigned_value(seq!['+'] + decimal(n), max) == Some(n),
        unsigned_value(seq!['+'] + padded(n, width), max) == Some(n),
        unsigned_value(Seq::empty(), max) is None,
        unsigned_value(seq!['+'], max) is None,
{
    law_decimal_round_trip(n, width, max);
    lemma_decimal_value(n);
    assert(is_digit(decimal(n)[0]));
    let p = padded(n, width);
    assert((seq!['+'] + decimal(n)).drop_first() =~= decimal(n));
    assert((seq!['+'] + p).drop_first() =~= p);
    if decimal(n).len() < width {
        assert(p[0] == '0');
    } else {
        assert(p =~= decimal(n));
    }
    assert(seq!['+'].drop_first() =~= Seq::empty());
}

/// What stands in a part stands in the whole.
pub proof fn law_occurring_is_transitive(s: Seq<char>, m: Seq<char>, part: Seq<char>)
    requires
        occurs(s, m),
        occurs(m, part),
    ensures
        occurs(s, part),
{
    let i = choose|i: int| occurs_at(s, m, i);
    let j = choose|j: int| occurs_at(m, part, j);
    assert(s.subrange(i, i + m.len()) == m);
    assert(s.subrange(i + j, i + j + part.len()) =~= m.subrange(j, j + part.len()));
    assert(occurs_at(s, part, i + j));
}

/// Numbers are written to the base ten, the highest digit first, and without zeros before it;
/// padded ones have zeros before it, as many as the width wants.
pub proof fn law_numbers_are_to_the_base_ten(n: nat, width: nat)
    ensures
        n < 10 ==> decimal(n) == seq![(48 + n) as char],
        n >= 10 ==> decimal(n) == decimal(n / 10).push((48 + n % 10) as char),
        padded(n, width).len() == (if decimal(n).len() >= width {
            decimal(n).len()
        } else {
            width
        }),
        padded(n, width).skip(padded(n, width).len() - decimal(n).len()) == decimal(n),
        forall|i: int|
            0 <= i < padded(n, width).len() - decimal(n).len() ==> #[trigger] padded(n, width)[i]
                == '0',
{
    let p = padded(n, width);
    assert(p.skip(p.len() - decimal(n).len()) =~= decimal(n));
}

} // verus!
