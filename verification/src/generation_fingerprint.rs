//! The interpretation identity that a persisted generation is bound to.
//!
//! Component hashes show that a generation is intact. They do not show that it is
//! reopened with the same embedding model, projection, quantization, index and
//! calibration; a fingerprint does.
use crate::error;
use crate::error::{ErrorKind, StoreError};
use crate::record;
use crate::record::clone_text;
use crate::text;
use crate::text::{push_decimal, text_equal};
use vstd::prelude::*;
use vstd::string::*;
use vstd::utf8::*;

verus! {

/// The SciRust revision that defines the numerical foundation.
pub const SCIRUST_REVISION: &'static str = "9b3d9492bb20e097231598a731df689ad4bd4bcc";

/// The longest value of a field, in bytes.
pub const MAX_FINGERPRINT_BYTES: usize = 1024;

/// Identity of the interpretation that reopening a generation needs.
#[derive(Debug, PartialEq, Eq)]
pub struct GenerationFingerprint {
    /// Embedding provider, model and revision.
    pub embedding: String,
    /// Projection algorithm, seed or digest.
    pub projection: String,
    /// Stored-vector precision.
    pub quantization: String,
    /// Configuration of the precision index.
    pub index: String,
    /// SciRust revision.
    pub scirust_revision: String,
    /// Calibration artefact, if any.
    pub calibration: Option<String>,
}

/// The value of a fingerprint in specifications.
#[verifier::ext_equal]
pub struct IdentityView {
    pub embedding: Seq<char>,
    pub projection: Seq<char>,
    pub quantization: Seq<char>,
    pub index: Seq<char>,
    pub scirust_revision: Seq<char>,
    pub calibration: Option<Seq<char>>,
}

impl View for GenerationFingerprint {
    type V = IdentityView;

    open spec fn view(&self) -> IdentityView {
        IdentityView {
            embedding: self.embedding@,
            projection: self.projection@,
            quantization: self.quantization@,
            index: self.index@,
            scirust_revision: self.scirust_revision@,
            calibration: record::optional_text(self.calibration),
        }
    }
}

impl Clone for GenerationFingerprint {
    fn clone(&self) -> (r: GenerationFingerprint)
        ensures
            r@ == self@,
    {
        GenerationFingerprint {
            embedding: self.embedding.clone(),
            projection: self.projection.clone(),
            quantization: self.quantization.clone(),
            index: self.index.clone(),
            scirust_revision: self.scirust_revision.clone(),
            calibration: clone_text(&self.calibration),
        }
    }
}

/// Every byte is printable ASCII.
pub open spec fn printable(b: Seq<u8>) -> bool {
    forall|i: int| 0 <= i < b.len() ==> 0x20 <= #[trigger] b[i] <= 0x7e
}

/// The fault of one field, if it has one: it is empty, too long, or not printable.
pub open spec fn value_fault(name: Seq<char>, value: Seq<char>) -> Option<error::ErrorView> {
    let b = encode_utf8(value);
    if value.len() == 0 {
        Some(error::invalid_input("generation fingerprint "@ + name + " is empty"@))
    } else if b.len() > MAX_FINGERPRINT_BYTES {
        Some(
            error::invalid_input(
                "generation fingerprint "@ + name + " exceeds "@ + text::decimal(
                    MAX_FINGERPRINT_BYTES as nat,
                ) + " bytes"@,
            ),
        )
    } else if !printable(b) {
        Some(
            error::invalid_input(
                "generation fingerprint "@ + name + " must contain printable ASCII only"@,
            ),
        )
    } else {
        None
    }
}

/// The first of two faults.
pub open spec fn first_fault(
    a: Option<error::ErrorView>,
    b: Option<error::ErrorView>,
) -> Option<error::ErrorView> {
    if a is Some {
        a
    } else {
        b
    }
}

/// The first fault among the fields of a fingerprint.
pub open spec fn identity_fault(f: IdentityView) -> Option<error::ErrorView> {
    first_fault(
        value_fault("embedding"@, f.embedding),
        first_fault(
            value_fault("projection"@, f.projection),
            first_fault(
                value_fault("quantization"@, f.quantization),
                first_fault(
                    value_fault("index"@, f.index),
                    first_fault(
                        value_fault("scirust_revision"@, f.scirust_revision),
                        match f.calibration {
                            Some(c) => value_fault("calibration"@, c),
                            None => None,
                        },
                    ),
                ),
            ),
        ),
    )
}

/// Whether an outcome reports exactly the given fault.
pub open spec fn reports(r: Result<(), StoreError>, fault: Option<error::ErrorView>) -> bool {
    match r {
        Ok(_) => fault is None,
        Err(e) => fault == Some(e@),
    }
}

fn named(prefix: &str, name: &str) -> (m: String)
    ensures
        m@ == prefix@ + name@,
{
    let mut m = prefix.to_owned();
    m.append(name);
    m
}

/// Checks one field.
pub fn validate_value(name: &str, value: &str) -> (r: Result<(), StoreError>)
    ensures
        reports(r, value_fault(name@, value@)),
{
    let b = value.as_bytes();
    if value.is_empty() {
        let mut m = named("generation fingerprint ", name);
        m.append(" is empty");
        return Err(StoreError::new(ErrorKind::InvalidInput, m));
    }
    if b.len() > MAX_FINGERPRINT_BYTES {
        let mut m = named("generation fingerprint ", name);
        m.append(" exceeds ");
        push_decimal(&mut m, MAX_FINGERPRINT_BYTES as u128);
        m.append(" bytes");
        return Err(StoreError::new(ErrorKind::InvalidInput, m));
    }
    let mut i: usize = 0;
    while i < b.len()
        invariant
            i <= b@.len(),
            b@ == encode_utf8(value@),
            value@.len() > 0,
            b@.len() <= MAX_FINGERPRINT_BYTES,
            forall|j: int| 0 <= j < i ==> 0x20 <= #[trigger] b@[j] <= 0x7e,
        decreases b@.len() - i,
    {
        if b[i] < 0x20 || b[i] > 0x7e {
            assert(!printable(b@));
            let mut m = named("generation fingerprint ", name);
            m.append(" must contain printable ASCII only");
            return Err(StoreError::new(ErrorKind::InvalidInput, m));
        }
        i += 1;
    }
    Ok(())
}

impl GenerationFingerprint {
    /// A fingerprint of the current SciRust revision, without calibration.
    pub fn canonical(embedding: &str, projection: &str, quantization: &str, index: &str) -> (f:
        GenerationFingerprint)
        ensures
            f@ == (IdentityView {
                embedding: embedding@,
                projection: projection@,
                quantization: quantization@,
                index: index@,
                scirust_revision: SCIRUST_REVISION@,
                calibration: None,
            }),
    {
        GenerationFingerprint {
            embedding: embedding.to_owned(),
            projection: projection.to_owned(),
            quantization: quantization.to_owned(),
            index: index.to_owned(),
            scirust_revision: SCIRUST_REVISION.to_owned(),
            calibration: None,
        }
    }

    /// The same fingerprint with a calibration artefact.
    pub fn with_calibration(self, calibration: &str) -> (f: GenerationFingerprint)
        ensures
            f@ == (IdentityView { calibration: Some(calibration@), ..self@ }),
    {
        GenerationFingerprint {
            embedding: self.embedding,
            projection: self.projection,
            quantization: self.quantization,
            index: self.index,
            scirust_revision: self.scirust_revision,
            calibration: Some(calibration.to_owned()),
        }
    }

    /// Checks every field and reports the first fault.
    pub fn validate(&self) -> (r: Result<(), StoreError>)
        ensures
            reports(r, identity_fault(self@)),
    {
        validate_value("embedding", &self.embedding)?;
        validate_value("projection", &self.projection)?;
        validate_value("quantization", &self.quantization)?;
        validate_value("index", &self.index)?;
        validate_value("scirust_revision", &self.scirust_revision)?;
        match &self.calibration {
            Some(c) => validate_value("calibration", c),
            None => Ok(()),
        }
    }

    /// Whether two fingerprints are the same in every field.
    pub fn same_as(&self, other: &GenerationFingerprint) -> (r: bool)
        ensures
            r == (self@ == other@),
    {
        text_equal(&self.embedding, &other.embedding) && text_equal(
            &self.projection,
            &other.projection,
        ) && text_equal(&self.quantization, &other.quantization) && text_equal(
            &self.index,
            &other.index,
        ) && text_equal(&self.scirust_revision, &other.scirust_revision) && same_optional(
            &self.calibration,
            &other.calibration,
        )
    }
}

/// Whether two optional texts are the same.
pub(crate) fn same_optional(a: &Option<String>, b: &Option<String>) -> (r: bool)
    ensures
        r == (record::optional_text(*a) == record::optional_text(*b)),
{
    match (a, b) {
        (Some(x), Some(y)) => text_equal(x, y),
        (None, None) => true,
        _ => false,
    }
}

proof fn lemma_wide_lead(v: u32)
    by (bit_vector)
    ensures
        0xC0u8 | (((v >> 6) & 0x1F) as u8) >= 0x80,
        0xE0u8 | (((v >> 12) & 0x0F) as u8) >= 0x80,
        0xF0u8 | (((v >> 18) & 0x7) as u8) >= 0x80,
{
}

proof fn lemma_narrow(v: u32)
    by (bit_vector)
    requires
        v <= 0x7f,
    ensures
        (v & 0x7F) as u8 == v,
{
}

/// The characters of a text whose bytes are printable ASCII are printable ASCII.
pub proof fn lemma_printable_chars(t: Seq<char>)
    requires
        printable(encode_utf8(t)),
    ensures
        forall|i: int| 0 <= i < t.len() ==> ' ' <= #[trigger] t[i] <= '~',
    decreases t.len(),
{
    if t.len() > 0 {
        let b = encode_utf8(t);
        let c: char = t[0];
        let v = c as u32;
        char_is_scalar(c);
        let head = encode_scalar(v);
        let tail = encode_utf8(t.drop_first());
        assert(b == head + tail);
        assert(b[0] == head[0]);
        lemma_wide_lead(v);
        assert(0x20 <= b[0] <= 0x7e);
        assert(has_width_1_encoding(v));
        lemma_narrow(v);
        assert(head[0] == v);
        char_u32_cast(c, v);
        assert(' ' <= (v as char) <= '~');
        assert forall|i: int| 0 <= i < tail.len() implies 0x20 <= #[trigger] tail[i] <= 0x7e by {
            assert(b[head.len() + i] == tail[i]);
        }
        lemma_printable_chars(t.drop_first());
        assert forall|i: int| 0 <= i < t.len() implies ' ' <= #[trigger] t[i] <= '~' by {
            if i > 0 {
                assert(t.drop_first()[i - 1] == t[i]);
            }
        }
    }
}

/// A field is in order: not empty, not too long, and printable.
pub open spec fn in_order(value: Seq<char>) -> bool {
    &&& value.len() > 0
    &&& encode_utf8(value).len() <= MAX_FINGERPRINT_BYTES
    &&& printable(encode_utf8(value))
}

/// A fingerprint has no fault just where each of its fields is in order.
pub proof fn law_sound_fingerprints(f: IdentityView)
    ensures
        identity_fault(f) is None <==> {
            &&& in_order(f.embedding)
            &&& in_order(f.projection)
            &&& in_order(f.quantization)
            &&& in_order(f.index)
            &&& in_order(f.scirust_revision)
            &&& f.calibration matches Some(c) ==> in_order(c)
        },
{
}

} // verus!
