//! Validate-before-allocate guards and the little-endian, length-prefixed wire
//! format that every persisted artefact shares.
//!
//! No declared count sizes an allocation before it was held against the bytes that
//! are left in the input.
use crate::error;
use crate::error::{ErrorKind, StoreError};
use crate::text;
use crate::text::push_decimal;
use vstd::prelude::*;
use vstd::string::*;
use vstd::utf8::*;

verus! {

/// An LZ4 block expands by less than this factor.
pub const MAX_LZ4_RATIO: u64 = 256;

/// The message of a declared count that the rest of the input cannot hold.
pub open spec fn count_message(
    what: Seq<char>,
    count: nat,
    min_record_bytes: nat,
    remaining: nat,
) -> Seq<char> {
    what + ": "@ + text::decimal(count) + " declared records need at least "@ + text::decimal(
        count * min_record_bytes,
    ) + " bytes, but only "@ + text::decimal(remaining) + " remain in the file"@
}

/// Rejects `count` records of at least `min_record_bytes` each where they cannot
/// fit in the `remaining` bytes.
pub fn guard_count(what: &str, count: usize, min_record_bytes: usize, remaining: u64) -> (r: Result<
    (),
    StoreError,
>)
    ensures
        r is Ok <==> count * min_record_bytes <= remaining,
        r matches Err(e) ==> e@ == error::invalid_data(
            count_message(what@, count as nat, min_record_bytes as nat, remaining as nat),
        ),
{
    assert(count * min_record_bytes <= 0xffff_ffff_ffff_ffff * 0xffff_ffff_ffff_ffff)
        by (nonlinear_arith)
        requires
            0 <= count <= 0xffff_ffff_ffff_ffff,
            0 <= min_record_bytes <= 0xffff_ffff_ffff_ffff,
    ;
    let need: u128 = count as u128 * min_record_bytes as u128;
    if need > remaining as u128 {
        let mut m = what.to_owned();
        m.append(": ");
        push_decimal(&mut m, count as u128);
        m.append(" declared records need at least ");
        push_decimal(&mut m, need);
        m.append(" bytes, but only ");
        push_decimal(&mut m, remaining as u128);
        m.append(" remain in the file");
        return Err(StoreError::new(ErrorKind::InvalidData, m));
    }
    Ok(())
}


/// Rejects a declared decompressed length that no LZ4 block of `comp_len` bytes
/// could produce.
pub fn guard_decompressed(what: &str, decomp_len: u64, comp_len: u64) -> (r: Result<(), StoreError>)
    ensures
        r is Ok <==> decomp_len <= comp_len * MAX_LZ4_RATIO,
        r matches Err(e) ==> e@ == error::invalid_data(
            what@ + ": declared decompressed length "@ + text::decimal(decomp_len as nat)
                + " exceeds "@ + text::decimal(MAX_LZ4_RATIO as nat) + "x the "@ + text::decimal(
                comp_len as nat,
            ) + " compressed bytes — corrupt or hostile"@,
        ),
{
    if decomp_len as u128 > comp_len as u128 * MAX_LZ4_RATIO as u128 {
        let mut m = what.to_owned();
        m.append(": declared decompressed length ");
        push_decimal(&mut m, decomp_len as u128);
        m.append(" exceeds ");
        push_decimal(&mut m, MAX_LZ4_RATIO as u128);
        m.append("x the ");
        push_decimal(&mut m, comp_len as u128);
        m.append(" compressed bytes — corrupt or hostile");
        return Err(StoreError::new(ErrorKind::InvalidData, m));
    }
    Ok(())
}

/// The text that the `Debug` format of `str` gives for a string: its characters
/// between quotes, with escapes.
pub uninterp spec fn debug_form(s: Seq<char>) -> Seq<char>;

/// Calls the `Debug` format of `str`; the contract names its result.
#[verifier::external_body]
pub(crate) fn debug_text(s: &str) -> (r: String)
    ensures
        r@ == debug_form(s@),
{
    format!("{:?}", s)
}

/// Requires a component that a manifest selects to have the generated name.
pub fn guard_generated_component(what: &str, actual: &str, expected: &str) -> (r: Result<
    (),
    StoreError,
>)
    ensures
        r is Ok <==> actual@ == expected@,
        r matches Err(e) ==> e@ == component_error(what@, actual@, expected@),
{
    if !text::text_equal(actual, expected) {
        let mut m = what.to_owned();
        m.append(": expected generated component ");
        m.append(&debug_text(expected));
        m.append(", got ");
        m.append(&debug_text(actual));
        return Err(StoreError::new(ErrorKind::InvalidData, m));
    }
    Ok(())
}

/// The error of a component that does not have the generated name.
pub open spec fn component_error(
    what: Seq<char>,
    actual: Seq<char>,
    expected: Seq<char>,
) -> error::ErrorView {
    error::invalid_data(
        what + ": expected generated component "@ + debug_form(expected) + ", got "@ + debug_form(
            actual,
        ),
    )
}

/// The error of bytes that remain after the declared records.
pub open spec fn trailing_error(what: Seq<char>, remaining: nat) -> error::ErrorView {
    error::invalid_data(
        what + ": "@ + text::decimal(remaining)
            + " trailing bytes remain after the declared records"@,
    )
}

/// Requires a parser to have consumed its whole input.
pub fn guard_no_trailing_bytes(what: &str, remaining: usize) -> (r: Result<(), StoreError>)
    ensures
        r is Ok <==> remaining == 0,
        r matches Err(e) ==> e@ == trailing_error(what@, remaining as nat),
{
    if remaining != 0 {
        let mut m = what.to_owned();
        m.append(": ");
        push_decimal(&mut m, remaining as u128);
        m.append(" trailing bytes remain after the declared records");
        return Err(StoreError::new(ErrorKind::InvalidData, m));
    }
    Ok(())
}

/// Rejects a payload record that falls outside the decompressed arena.
pub fn guard_payload_bounds(what: &str, offset: usize, len: usize, arena_len: usize) -> (r: Result<
    (),
    StoreError,
>)
    ensures
        r is Ok <==> offset + len <= arena_len,
        r matches Err(e) ==> e@ == error::invalid_data(
            what@ + ": payload record ["@ + text::decimal(offset as nat) + ", "@ + text::decimal(
                offset as nat,
            ) + "+"@ + text::decimal(len as nat) + ") exceeds the "@ + text::decimal(
                arena_len as nat,
            ) + "-byte payload arena"@,
        ),
{
    let outside = match offset.checked_add(len) {
        Some(end) => end > arena_len,
        None => true,
    };
    if outside {
        let mut m = what.to_owned();
        m.append(": payload record [");
        push_decimal(&mut m, offset as u128);
        m.append(", ");
        push_decimal(&mut m, offset as u128);
        m.append("+");
        push_decimal(&mut m, len as u128);
        m.append(") exceeds the ");
        push_decimal(&mut m, arena_len as u128);
        m.append("-byte payload arena");
        return Err(StoreError::new(ErrorKind::InvalidData, m));
    }
    Ok(())
}

/// The `k` low bytes of `n`, least significant first.
pub open spec fn le_bytes(n: nat, k: nat) -> Seq<u8>
    decreases k,
{
    if k == 0 {
        Seq::empty()
    } else {
        seq![(n % 256) as u8] + le_bytes(n / 256, (k - 1) as nat)
    }
}

/// The number that `s` denotes, least significant byte first.
pub open spec fn le_value(s: Seq<u8>) -> nat
    decreases s.len(),
{
    if s.len() == 0 {
        0
    } else {
        s[0] as nat + 256 * le_value(s.drop_first())
    }
}

/// 256 to the power `k`.
pub open spec fn byte_range(k: nat) -> nat
    decreases k,
{
    if k == 0 {
        1
    } else {
        256 * byte_range((k - 1) as nat)
    }
}

/// Reading back the little-endian bytes of a number that fits gives the number.
pub proof fn law_le_round_trip(n: nat, k: nat)
    requires
        n < byte_range(k),
    ensures
        le_bytes(n, k).len() == k,
        le_value(le_bytes(n, k)) == n,
    decreases k,
{
    if k > 0 {
        law_le_round_trip(n / 256, (k - 1) as nat);
        assert(le_bytes(n, k).drop_first() =~= le_bytes(n / 256, (k - 1) as nat));
    }
}

pub proof fn lemma_le_bytes_len(n: nat, k: nat)
    ensures
        le_bytes(n, k).len() == k,
    decreases k,
{
    if k > 0 {
        lemma_le_bytes_len(n / 256, (k - 1) as nat);
    }
}

proof fn lemma_le_value_bound(s: Seq<u8>)
    ensures
        le_value(s) < byte_range(s.len()),
    decreases s.len(),
{
    if s.len() > 0 {
        lemma_le_value_bound(s.drop_first());
    }
}

pub proof fn lemma_byte_ranges()
    ensures
        byte_range(1) == 0x100,
        byte_range(4) == 0x1_0000_0000,
        byte_range(8) == 0x1_0000_0000_0000_0000,
{
    reveal_with_fuel(byte_range, 9);
}

/// Appends the bytes of `s`.
pub fn put_slice(out: &mut Vec<u8>, s: &[u8])
    ensures
        final(out)@ == old(out)@ + s@,
{
    out.extend_from_slice(s);
    assert(out@ =~= old(out)@ + s@);
}

/// Appends `n` as `k` bytes, least significant first.
fn put_le(out: &mut Vec<u8>, n: u64, k: usize)
    ensures
        final(out)@ == old(out)@ + le_bytes(n as nat, k as nat),
{
    let ghost start = out@;
    let mut left: u64 = n;
    let mut i: usize = 0;
    assert(start + le_bytes(n as nat, k as nat) =~= out@ + le_bytes(n as nat, k as nat));
    while i < k
        invariant
            i <= k,
            start + le_bytes(n as nat, k as nat) == out@ + le_bytes(left as nat, (k - i) as nat),
        decreases k - i,
    {
        let ghost before = out@;
        out.push((left % 256) as u8);
        proof {
            assert(out@ + le_bytes(left as nat / 256, (k - i - 1) as nat) =~= before + le_bytes(
                left as nat,
                (k - i) as nat,
            ));
        }
        left = left / 256;
        i += 1;
    }
    assert(out@ + le_bytes(left as nat, 0) =~= out@);
}

/// Appends a `u32`, little-endian.
pub fn put_u32(out: &mut Vec<u8>, n: u32)
    ensures
        final(out)@ == old(out)@ + le_bytes(n as nat, 4),
{
    put_le(out, n as u64, 4);
}

/// Appends a `u64`, little-endian.
pub fn put_u64(out: &mut Vec<u8>, n: u64)
    ensures
        final(out)@ == old(out)@ + le_bytes(n as nat, 8),
{
    put_le(out, n, 8);
}

/// A byte string with its length as a `u32` before it.
pub open spec fn lp_bytes(b: Seq<u8>) -> Seq<u8> {
    le_bytes((b.len() as u32) as nat, 4) + b
}

/// A byte string with its length as a `u64` before it.
pub open spec fn lp64_bytes(b: Seq<u8>) -> Seq<u8> {
    le_bytes((b.len() as u64) as nat, 8) + b
}

/// Appends a `u32`-length-prefixed byte string.
pub fn write_lp_bytes(out: &mut Vec<u8>, bytes: &[u8])
    ensures
        final(out)@ == old(out)@ + lp_bytes(bytes@),
{
    put_u32(out, bytes.len() as u32);
    put_slice(out, bytes);
    assert(out@ =~= old(out)@ + lp_bytes(bytes@));
}

/// Appends a `u64`-length-prefixed byte string.
pub fn write_u64_lp(out: &mut Vec<u8>, bytes: &[u8])
    ensures
        final(out)@ == old(out)@ + lp64_bytes(bytes@),
{
    put_u64(out, bytes.len() as u64);
    put_slice(out, bytes);
    assert(out@ =~= old(out)@ + lp64_bytes(bytes@));
}

/// What reading a value from the front of `s` gives: the value and the bytes after
/// it, or an error.
pub type Parsed<T> = Result<(T, Seq<u8>), error::ErrorView>;

/// Reads `len` bytes of the field `what`.
pub open spec fn get_counted(what: Seq<char>, len: nat, s: Seq<u8>) -> Parsed<Seq<u8>> {
    if len > s.len() {
        Err(error::invalid_data(count_message(what, len, 1, s.len())))
    } else {
        Ok((s.take(len as int), s.skip(len as int)))
    }
}

/// Reads the `k` bytes of the field `what` as a little-endian number.
pub open spec fn get_le(what: Seq<char>, s: Seq<u8>, k: nat) -> Parsed<nat> {
    match get_counted(what, k, s) {
        Ok((b, rest)) => Ok((le_value(b), rest)),
        Err(e) => Err(e),
    }
}

/// Reads a `u32`.
pub open spec fn get_u32(what: Seq<char>, s: Seq<u8>) -> Parsed<u32> {
    match get_le(what, s, 4) {
        Ok((n, rest)) => Ok((n as u32, rest)),
        Err(e) => Err(e),
    }
}

/// Reads a `u64`.
pub open spec fn get_u64(what: Seq<char>, s: Seq<u8>) -> Parsed<u64> {
    match get_le(what, s, 8) {
        Ok((n, rest)) => Ok((n as u64, rest)),
        Err(e) => Err(e),
    }
}

/// Reads a `u32`-length-prefixed byte string.
pub open spec fn get_lp_bytes(what: Seq<char>, s: Seq<u8>) -> Parsed<Seq<u8>> {
    match get_u32(what, s) {
        Ok((len, rest)) => get_counted(what, len as nat, rest),
        Err(e) => Err(e),
    }
}

/// The text that `String::from_utf8` gives for its error on bytes that are not
/// UTF-8.
pub uninterp spec fn utf8_error_text(bytes: Seq<u8>) -> Seq<char>;

/// Bytes as a text, where they are UTF-8.
pub open spec fn decoded(b: Parsed<Seq<u8>>) -> Parsed<Seq<char>> {
    match b {
        Ok((bytes, rest)) => if valid_utf8(bytes) {
            Ok((decode_utf8(bytes), rest))
        } else {
            Err(error::invalid_data(utf8_error_text(bytes)))
        },
        Err(e) => Err(e),
    }
}

/// Reads a `u32`-length-prefixed text.
pub open spec fn get_lp_string(what: Seq<char>, s: Seq<u8>) -> Parsed<Seq<char>> {
    decoded(get_lp_bytes(what, s))
}

/// Reads a `u64`-length-prefixed text.
pub open spec fn get_u64_lp_string(what: Seq<char>, s: Seq<u8>) -> Parsed<Seq<char>> {
    match get_u64(what, s) {
        Ok((len, rest)) => decoded(get_counted(what, (len as usize) as nat, rest)),
        Err(e) => Err(e),
    }
}

/// Calls `String::from_utf8`: it succeeds exactly on UTF-8 and then gives the text
/// that the bytes encode; the contract names the text of its error.
#[verifier::external_body]
pub(crate) fn string_from_utf8(bytes: Vec<u8>) -> (r: Result<String, String>)
    ensures
        r is Ok <==> valid_utf8(bytes@),
        r matches Ok(s) ==> s@ == decode_utf8(bytes@),
        r matches Err(m) ==> m@ == utf8_error_text(bytes@),
{
    match String::from_utf8(bytes) {
        Ok(s) => Ok(s),
        Err(e) => Err(e.to_string()),
    }
}

/// Whether the outcome of a read agrees with its specification.
pub open spec fn agrees<T, V>(
    r: Result<T, StoreError>,
    value: spec_fn(T) -> V,
    rest: Seq<u8>,
    spec: Parsed<V>,
) -> bool {
    match (r, spec) {
        (Ok(v), Ok((x, after))) => value(v) == x && rest == after,
        (Err(e), Err(x)) => e@ == x,
        _ => false,
    }
}

/// A reader of a byte string that counts what it consumed.
pub struct CountingReader<'a> {
    bytes: &'a [u8],
    pos: usize,
}

impl<'a> CountingReader<'a> {
    #[verifier::type_invariant]
    spec fn well_formed(self) -> bool {
        self.pos <= self.bytes@.len()
    }

    /// The bytes that are still to be read.
    pub closed spec fn rest(&self) -> Seq<u8> {
        self.bytes@.skip(self.pos as int)
    }

    /// The number of bytes read so far.
    pub closed spec fn count(&self) -> nat {
        self.pos as nat
    }

    /// A reader at the start of `bytes`.
    pub fn new(bytes: &'a [u8]) -> (r: CountingReader<'a>)
        ensures
            r.rest() == bytes@,
            r.count() == 0,
    {
        assert(bytes@.skip(0) =~= bytes@);
        CountingReader { bytes, pos: 0 }
    }

    /// The number of bytes read so far.
    pub fn consumed(&self) -> (n: u64)
        ensures
            n == self.count(),
    {
        self.pos as u64
    }

    /// The number of bytes that are left.
    pub fn remaining(&self) -> (n: usize)
        ensures
            n == self.rest().len(),
    {
        proof {
            use_type_invariant(&*self);
        }
        self.bytes.len() - self.pos
    }

    /// Reads the next `n` bytes, or nothing where fewer are left.
    pub fn read_exact(&mut self, n: usize) -> (r: Result<Vec<u8>, StoreError>)
        ensures
            match r {
                Ok(v) => {
                    &&& n <= old(self).rest().len()
                    &&& v@ == old(self).rest().take(n as int)
                    &&& final(self).rest() == old(self).rest().skip(n as int)
                    &&& final(self).count() == old(self).count() + n
                },
                Err(e) => {
                    &&& n > old(self).rest().len()
                    &&& e@ == error::end_of_input()
                    &&& final(self).rest() == old(self).rest()
                    &&& final(self).count() == old(self).count()
                },
            },
    {
        proof {
            use_type_invariant(&*self);
        }
        let total: usize = self.bytes.len();
        if n > total - self.pos {
            return Err(StoreError::eof());
        }
        let from: usize = self.pos;
        let ghost before = self.rest();
        let mut v: Vec<u8> = Vec::new();
        let mut i: usize = 0;
        while i < n
            invariant
                i <= n,
                from + n <= total,
                total == self.bytes@.len(),
                before == self.bytes@.skip(from as int),
                v@ == before.take(i as int),
            decreases n - i,
        {
            v.push(self.bytes[from + i]);
            i += 1;
            assert(v@ =~= before.take(i as int));
        }
        self.pos = from + n;
        assert(self.bytes@.skip(from + n) =~= before.skip(n as int));
        Ok(v)
    }
}

/// Reads `len` bytes of the field `what`; where fewer are left, the error names it.
pub fn read_counted(what: &str, len: usize, r: &mut CountingReader<'_>) -> (b: Result<
    Vec<u8>,
    StoreError,
>)
    ensures
        agrees(
            b,
            |v: Vec<u8>| v@,
            final(r).rest(),
            get_counted(what@, len as nat, old(r).rest()),
        ),
{
    match guard_count(what, len, 1, r.remaining() as u64) {
        Ok(_) => r.read_exact(len),
        Err(e) => Err(e),
    }
}

/// Reads `k` bytes as a little-endian number.
fn read_le(what: &str, r: &mut CountingReader<'_>, k: usize) -> (n: Result<u64, StoreError>)
    requires
        k <= 8,
    ensures
        agrees(n, |v: u64| v as nat, final(r).rest(), get_le(what@, old(r).rest(), k as nat)),
{
    match read_counted(what, k, r) {
        Ok(b) => {
            let mut value: u64 = 0;
            let mut i: usize = k;
            assert(b@.skip(k as int) =~= Seq::<u8>::empty());
            while i > 0
                invariant
                    i <= k <= 8,
                    b@.len() == k,
                    value == le_value(b@.skip(i as int)),
                decreases i,
            {
                proof {
                    assert(b@.skip(i - 1).drop_first() =~= b@.skip(i as int));
                    lemma_le_value_bound(b@.skip(i - 1));
                    lemma_byte_range_grows((k - i + 1) as nat, 8);
                    lemma_byte_ranges();
                }
                value = b[i - 1] as u64 + 256 * value;
                i -= 1;
            }
            assert(b@.skip(0) =~= b@);
            Ok(value)
        },
        Err(e) => Err(e),
    }
}

proof fn lemma_byte_range_grows(a: nat, b: nat)
    requires
        a <= b,
    ensures
        byte_range(a) <= byte_range(b),
    decreases b,
{
    if a < b {
        lemma_byte_range_grows(a, (b - 1) as nat);
    }
}

/// Reads a `u32`, little-endian.
pub fn read_u32_le(what: &str, r: &mut CountingReader<'_>) -> (n: Result<u32, StoreError>)
    ensures
        agrees(n, |v: u32| v, final(r).rest(), get_u32(what@, old(r).rest())),
{
    let ghost s = r.rest();
    match read_le(what, r, 4) {
        Ok(n) => {
            proof {
                lemma_le_value_bound(s.take(4));
                lemma_byte_ranges();
            }
            Ok(n as u32)
        },
        Err(e) => Err(e),
    }
}

/// Reads a `u64`, little-endian.
pub fn read_u64_le(what: &str, r: &mut CountingReader<'_>) -> (n: Result<u64, StoreError>)
    ensures
        agrees(n, |v: u64| v, final(r).rest(), get_u64(what@, old(r).rest())),
{
    read_le(what, r, 8)
}

/// Reads a `u32`-length-prefixed byte string.
pub fn read_lp_bytes(what: &str, r: &mut CountingReader<'_>) -> (b: Result<Vec<u8>, StoreError>)
    ensures
        agrees(b, |v: Vec<u8>| v@, final(r).rest(), get_lp_bytes(what@, old(r).rest())),
{
    match read_u32_le(what, r) {
        Ok(len) => read_counted(what, len as usize, r),
        Err(e) => Err(e),
    }
}

/// Turns bytes into a text.
fn into_text(bytes: Vec<u8>) -> (t: Result<String, StoreError>)
    ensures
        match t {
            Ok(s) => valid_utf8(bytes@) && s@ == decode_utf8(bytes@),
            Err(e) => !valid_utf8(bytes@) && e@ == error::invalid_data(utf8_error_text(bytes@)),
        },
{
    match string_from_utf8(bytes) {
        Ok(s) => Ok(s),
        Err(m) => Err(StoreError::new(ErrorKind::InvalidData, m)),
    }
}

/// Reads a `u32`-length-prefixed text.
pub fn read_lp_string(what: &str, r: &mut CountingReader<'_>) -> (t: Result<String, StoreError>)
    ensures
        agrees(t, |v: String| v@, final(r).rest(), get_lp_string(what@, old(r).rest())),
{
    match read_lp_bytes(what, r) {
        Ok(b) => into_text(b),
        Err(e) => Err(e),
    }
}

/// Reads a `u64`-length-prefixed text.
pub fn read_u64_lp_string(what: &str, r: &mut CountingReader<'_>) -> (t: Result<String, StoreError>)
    ensures
        agrees(t, |v: String| v@, final(r).rest(), get_u64_lp_string(what@, old(r).rest())),
{
    match read_u64_le(what, r) {
        Ok(len) => match read_counted(what, len as usize, r) {
            Ok(b) => into_text(b),
            Err(e) => Err(e),
        },
        Err(e) => Err(e),
    }
}


/// A number that was written with `k` bytes reads back, and what follows it is
/// left.
pub proof fn lemma_get_le(what: Seq<char>, n: nat, k: nat, rest: Seq<u8>)
    requires
        n < byte_range(k),
    ensures
        get_le(what, le_bytes(n, k) + rest, k) == Ok::<_, error::ErrorView>((n, rest)),
{
    law_le_round_trip(n, k);
    assert((le_bytes(n, k) + rest).take(k as int) =~= le_bytes(n, k));
    assert((le_bytes(n, k) + rest).skip(k as int) =~= rest);
}

pub proof fn lemma_get_u32(what: Seq<char>, n: u32, rest: Seq<u8>)
    ensures
        get_u32(what, le_bytes(n as nat, 4) + rest) == Ok::<_, error::ErrorView>((n, rest)),
{
    lemma_byte_ranges();
    lemma_get_le(what, n as nat, 4, rest);
}

pub proof fn lemma_get_u64(what: Seq<char>, n: u64, rest: Seq<u8>)
    ensures
        get_u64(what, le_bytes(n as nat, 8) + rest) == Ok::<_, error::ErrorView>((n, rest)),
{
    lemma_byte_ranges();
    lemma_get_le(what, n as nat, 8, rest);
}

/// A length-prefixed byte string reads back, and what follows it is left, where its
/// length fits the prefix.
pub proof fn law_lp_bytes_round_trip(what: Seq<char>, b: Seq<u8>, rest: Seq<u8>)
    requires
        b.len() <= u32::MAX,
    ensures
        get_lp_bytes(what, lp_bytes(b) + rest) == Ok::<_, error::ErrorView>((b, rest)),
{
    assert(lp_bytes(b) + rest =~= le_bytes(b.len(), 4) + (b + rest));
    lemma_get_u32(what, b.len() as u32, b + rest);
    assert((b + rest).take(b.len() as int) =~= b);
    assert((b + rest).skip(b.len() as int) =~= rest);
}

/// A length-prefixed text reads back, and what follows it is left, where its length
/// fits the prefix.
pub proof fn law_lp_string_round_trip(what: Seq<char>, t: Seq<char>, rest: Seq<u8>)
    requires
        encode_utf8(t).len() <= u32::MAX,
    ensures
        get_lp_string(what, lp_bytes(encode_utf8(t)) + rest) == Ok::<_, error::ErrorView>(
            (t, rest),
        ),
{
    law_lp_bytes_round_trip(what, encode_utf8(t), rest);
    encode_utf8_valid_utf8(t);
    encode_utf8_decode_utf8(t);
}

/// The same of a text with a `u64` length prefix.
pub proof fn law_u64_lp_string_round_trip(what: Seq<char>, t: Seq<char>, rest: Seq<u8>)
    requires
        encode_utf8(t).len() <= usize::MAX,
    ensures
        get_u64_lp_string(what, lp64_bytes(encode_utf8(t)) + rest) == Ok::<_, error::ErrorView>(
            (t, rest),
        ),
{
    let b = encode_utf8(t);
    assert(lp64_bytes(b) + rest =~= le_bytes(b.len(), 8) + (b + rest));
    lemma_get_u64(what, b.len() as u64, b + rest);
    assert((b + rest).take(b.len() as int) =~= b);
    assert((b + rest).skip(b.len() as int) =~= rest);
    encode_utf8_valid_utf8(t);
    encode_utf8_decode_utf8(t);
}


/// Byte strings one after the other.
pub open spec fn joined(parts: Seq<Seq<u8>>) -> Seq<u8>
    decreases parts.len(),
{
    if parts.len() == 0 {
        Seq::empty()
    } else {
        parts[0] + joined(parts.drop_first())
    }
}

pub proof fn lemma_joined_push(parts: Seq<Seq<u8>>, last: Seq<u8>)
    ensures
        joined(parts.push(last)) == joined(parts) + last,
    decreases parts.len(),
{
    if parts.len() == 0 {
        assert(parts.push(last).drop_first() =~= parts);
        assert(joined(parts) =~= Seq::<u8>::empty());
        assert(parts.push(last)[0] == last);
        assert(last + Seq::<u8>::empty() =~= Seq::<u8>::empty() + last);
    } else {
        assert(parts.push(last).drop_first() =~= parts.drop_first().push(last));
        lemma_joined_push(parts.drop_first(), last);
        assert(joined(parts.push(last)) =~= joined(parts) + last);
    }
}

/// Where every part has at least `k` bytes, `n` parts together have at least
/// `n * k`.
pub proof fn lemma_joined_len(parts: Seq<Seq<u8>>, k: nat)
    requires
        forall|i: int| 0 <= i < parts.len() ==> (#[trigger] parts[i]).len() >= k,
    ensures
        joined(parts).len() >= parts.len() * k,
    decreases parts.len(),
{
    if parts.len() > 0 {
        assert(parts[0].len() >= k);
        assert forall|i: int| 0 <= i < parts.drop_first().len() implies (
        #[trigger] parts.drop_first()[i]).len() >= k by {
            assert(parts.drop_first()[i] == parts[i + 1]);
        }
        lemma_joined_len(parts.drop_first(), k);
        assert(parts.len() * k == k + (parts.len() - 1) * k) by (nonlinear_arith)
            requires
                parts.len() > 0,
        ;
    } else {
        assert(parts.len() * k == 0) by (nonlinear_arith)
            requires
                parts.len() == 0,
        ;
    }
}

/// Items that were read before, put in front of those that a read gives.
pub open spec fn prepended<T>(before: Seq<T>, r: Parsed<Seq<T>>) -> Parsed<Seq<T>> {
    match r {
        Ok((items, rest)) => Ok((before + items, rest)),
        Err(e) => Err(e),
    }
}

pub proof fn lemma_prepended<T>(before: Seq<T>, item: T, r: Parsed<Seq<T>>)
    ensures
        prepended(before, prepended(seq![item], r)) == prepended(before.push(item), r),
{
    if r is Ok {
        let items = r->Ok_0.0;
        assert(before + (seq![item] + items) =~= before.push(item) + items);
    }
}

pub proof fn lemma_prepended_nothing<T>(r: Parsed<Seq<T>>)
    ensures
        prepended(Seq::<T>::empty(), r) == r,
{
    if r is Ok {
        let items = r->Ok_0.0;
        assert(Seq::<T>::empty() + items =~= items);
    }
}

/// Regrouping 2 byte strings and what follows them.
pub proof fn lemma_regroup2(a: Seq<u8>, b: Seq<u8>, rest: Seq<u8>)
    ensures
        a + b + rest == a + (b + rest),
{
    assert(a + b + rest =~= a + (b + rest));
}

/// Regrouping 3 byte strings and what follows them.
pub proof fn lemma_regroup3(a: Seq<u8>, b: Seq<u8>, c: Seq<u8>, rest: Seq<u8>)
    ensures
        a + b + c + rest == a + (b + (c + rest)),
{
    assert(a + b + c + rest =~= a + (b + (c + rest)));
}

/// Regrouping 4 byte strings and what follows them.
pub proof fn lemma_regroup4(a: Seq<u8>, b: Seq<u8>, c: Seq<u8>, d: Seq<u8>, rest: Seq<u8>)
    ensures
        a + b + c + d + rest == a + (b + (c + (d + rest))),
{
    assert(a + b + c + d + rest =~= a + (b + (c + (d + rest))));
}

/// Regrouping 5 byte strings and what follows them.
pub proof fn lemma_regroup5(a: Seq<u8>, b: Seq<u8>, c: Seq<u8>, d: Seq<u8>, e: Seq<u8>, rest: Seq<u8>)
    ensures
        a + b + c + d + e + rest == a + (b + (c + (d + (e + rest)))),
{
    assert(a + b + c + d + e + rest =~= a + (b + (c + (d + (e + rest)))));
}

/// Regrouping 6 byte strings and what follows them.
pub proof fn lemma_regroup6(a: Seq<u8>, b: Seq<u8>, c: Seq<u8>, d: Seq<u8>, e: Seq<u8>, f: Seq<u8>, rest: Seq<u8>)
    ensures
        a + b + c + d + e + f + rest == a + (b + (c + (d + (e + (f + rest))))),
{
    assert(a + b + c + d + e + f + rest =~= a + (b + (c + (d + (e + (f + rest))))));
}

/// Regrouping 7 byte strings and what follows them.
pub proof fn lemma_regroup7(a: Seq<u8>, b: Seq<u8>, c: Seq<u8>, d: Seq<u8>, e: Seq<u8>, f: Seq<u8>, g: Seq<u8>, rest: Seq<u8>)
    ensures
        a + b + c + d + e + f + g + rest == a + (b + (c + (d + (e + (f + (g + rest)))))),
{
    assert(a + b + c + d + e + f + g + rest =~= a + (b + (c + (d + (e + (f + (g + rest)))))));
}

/// Appending 3 byte strings one by one appends them together.
pub proof fn lemma_appended3(start: Seq<u8>, a: Seq<u8>, b: Seq<u8>, c: Seq<u8>)
    ensures
        start + a + b + c == start + (a + b + c),
{
    assert(start + a + b + c =~= start + (a + b + c));
}

/// Appending 5 byte strings one by one appends them together.
pub proof fn lemma_appended5(start: Seq<u8>, a: Seq<u8>, b: Seq<u8>, c: Seq<u8>, d: Seq<u8>, e: Seq<u8>)
    ensures
        start + a + b + c + d + e == start + (a + b + c + d + e),
{
    assert(start + a + b + c + d + e =~= start + (a + b + c + d + e));
}

/// Appending 6 byte strings one by one appends them together.
pub proof fn lemma_appended6(start: Seq<u8>, a: Seq<u8>, b: Seq<u8>, c: Seq<u8>, d: Seq<u8>, e: Seq<u8>, f: Seq<u8>)
    ensures
        start + a + b + c + d + e + f == start + (a + b + c + d + e + f),
{
    assert(start + a + b + c + d + e + f =~= start + (a + b + c + d + e + f));
}

/// Appending 7 byte strings one by one appends them together.
pub proof fn lemma_appended7(start: Seq<u8>, a: Seq<u8>, b: Seq<u8>, c: Seq<u8>, d: Seq<u8>, e: Seq<u8>, f: Seq<u8>, g: Seq<u8>)
    ensures
        start + a + b + c + d + e + f + g == start + (a + b + c + d + e + f + g),
{
    assert(start + a + b + c + d + e + f + g =~= start + (a + b + c + d + e + f + g));
}

/// The bytes of a number stand with the least first: each is the digit to the base 256 at its
/// place.
pub proof fn law_least_byte_first(n: nat, k: nat, i: nat)
    requires
        i < k,
    ensures
        le_bytes(n, k).len() == k,
        le_bytes(n, k)[i as int] as nat == n / byte_range(i) % 256,
    decreases i,
{
    lemma_le_bytes_len(n, k);
    let rest = le_bytes(n / 256, (k - 1) as nat);
    if i > 0 {
        let j = (i - 1) as nat;
        law_least_byte_first(n / 256, (k - 1) as nat, j);
        assert(le_bytes(n, k)[i as int] == rest[j as int]);
        lemma_byte_range_positive(j);
        vstd::arithmetic::div_mod::lemma_div_denominator(
            n as int,
            256,
            byte_range(j) as int,
        );
        assert(256 * byte_range(j) == byte_range(i));
    } else {
        assert(byte_range(0) == 1);
        assert(n / 1 == n);
    }
}

proof fn lemma_byte_range_positive(k: nat)
    ensures
        byte_range(k) > 0,
    decreases k,
{
    if k > 0 {
        lemma_byte_range_positive((k - 1) as nat);
    }
}

} // verus!
