//! Immutable, integrity-checked generations: the binary manifest, the pointer that
//! publishes it, and every decision of saving and of opening the current one.
//!
//! A generation is written under a staging name, hashed, bound by a manifest and
//! renamed; only then a pointer makes it current. Listing directories and reading and
//! writing files is left to the caller, who hands the bytes in.
use crate::digest;
use crate::digest::sha256_bytes;
use crate::error;
use crate::error::{ErrorKind, StoreError};
use crate::fileguard;
use crate::fileguard::{
    guard_no_trailing_bytes, put_slice, put_u32, put_u64, read_counted, read_u32_le, read_u64_le,
    string_from_utf8, write_lp_bytes, CountingReader,
};
use crate::generation_fingerprint;
use crate::generation_fingerprint::{same_optional, IdentityView};
use crate::record;
use crate::record::clone_text;
use crate::text;
use crate::text::{bytes_equal, chars_of, parse_unsigned, push_decimal, push_padded, text_equal, text_of};
use vstd::prelude::*;
use vstd::string::*;
use vstd::utf8::*;

verus! {

/// The version of both formats.
pub const FORMAT_VERSION: u32 = 1;

/// The longest value of a fingerprint field, in bytes.
pub const MAX_FINGERPRINT_BYTES: usize = 4096;

/// The name of the tree component.
pub const TREE_FILE: &'static str = "tree.frac";

/// The name of the sketch component.
pub const SKETCH_FILE: &'static str = "index.skch";

/// The name of the manifest.
pub const MANIFEST_FILE: &'static str = "manifest.osg";

/// The directory of the generations.
pub const GENERATIONS_DIR: &'static str = "generations";

/// The directory of the pointers.
pub const CURRENT_DIR: &'static str = "current";

/// The SciRust revision that manifests bind to.
pub const SCIRUST_REVISION: &'static str = "9b3d9492bb20e097231598a731df689ad4bd4bcc";

/// `OSGM`
pub open spec fn manifest_magic() -> Seq<u8> {
    seq![79u8, 83, 71, 77]
}

/// `OSGP`
pub open spec fn pointer_magic() -> Seq<u8> {
    seq![79u8, 83, 71, 80]
}

/// Interpretation fingerprint bound into every generation.
#[derive(Debug, PartialEq, Eq)]
pub struct GenerationFingerprint {
    pub embedding: String,
    pub projection: String,
    pub quantization: String,
    pub index: String,
    pub scirust_revision: String,
    pub calibration: Option<String>,
}

impl View for GenerationFingerprint {
    type V = IdentityView;

    open spec fn view(&self) -> IdentityView {
        IdentityView {
            embedding: self.embedding@,
            projection: self.projection@,
            quantization: self.quantization@,
            index: self.index@,
            scirust_revision: self.scirust_revision@,
            calibration: record::optional_text(self.calibration),
        }
    }
}

impl Clone for GenerationFingerprint {
    fn clone(&self) -> (r: GenerationFingerprint)
        ensures
            r@ == self@,
    {
        GenerationFingerprint {
            embedding: self.embedding.clone(),
            projection: self.projection.clone(),
            quantization: self.quantization.clone(),
            index: self.index.clone(),
            scirust_revision: self.scirust_revision.clone(),
            calibration: clone_text(&self.calibration),
        }
    }
}

/// The fault of one mandatory field: it is empty or too long.
pub open spec fn field_fault(name: Seq<char>, value: Seq<char>) -> Option<error::ErrorView> {
    if value.len() == 0 {
        Some(error::invalid_data("generation fingerprint "@ + name + " is empty"@))
    } else if encode_utf8(value).len() > MAX_FINGERPRINT_BYTES {
        Some(
            error::invalid_data(
                "generation fingerprint "@ + name + " exceeds "@ + text::decimal(
                    MAX_FINGERPRINT_BYTES as nat,
                ) + " bytes"@,
            ),
        )
    } else {
        None
    }
}

/// The fault of the calibration: it is too long.
pub open spec fn calibration_fault(value: Option<Seq<char>>) -> Option<error::ErrorView> {
    match value {
        Some(c) => if encode_utf8(c).len() > MAX_FINGERPRINT_BYTES {
            Some(
                error::invalid_data(
                    "generation calibration fingerprint exceeds "@ + text::decimal(
                        MAX_FINGERPRINT_BYTES as nat,
                    ) + " bytes"@,
                ),
            )
        } else {
            None
        },
        None => None,
    }
}

/// The first fault among the fields of a fingerprint.
pub open spec fn fingerprint_fault(f: IdentityView) -> Option<error::ErrorView> {
    generation_fingerprint::first_fault(
        field_fault("embedding"@, f.embedding),
        generation_fingerprint::first_fault(
            field_fault("projection"@, f.projection),
            generation_fingerprint::first_fault(
                field_fault("quantization"@, f.quantization),
                generation_fingerprint::first_fault(
                    field_fault("index"@, f.index),
                    generation_fingerprint::first_fault(
                        field_fault("scirust_revision"@, f.scirust_revision),
                        calibration_fault(f.calibration),
                    ),
                ),
            ),
        ),
    )
}

fn check_field(name: &str, value: &str) -> (r: Result<(), StoreError>)
    ensures
        generation_fingerprint::reports(r, field_fault(name@, value@)),
{
    if value.is_empty() {
        let mut m = "generation fingerprint ".to_owned();
        m.append(name);
        m.append(" is empty");
        return Err(StoreError::new(ErrorKind::InvalidData, m));
    }
    if value.as_bytes().len() > MAX_FINGERPRINT_BYTES {
        let mut m = "generation fingerprint ".to_owned();
        m.append(name);
        m.append(" exceeds ");
        push_decimal(&mut m, MAX_FINGERPRINT_BYTES as u128);
        m.append(" bytes");
        return Err(StoreError::new(ErrorKind::InvalidData, m));
    }
    Ok(())
}

impl GenerationFingerprint {
    /// A fingerprint of the current SciRust revision, without calibration.
    pub fn canonical(embedding: &str, projection: &str, quantization: &str, index: &str) -> (f:
        GenerationFingerprint)
        ensures
            f@ == (IdentityView {
                embedding: embedding@,
                projection: projection@,
                quantization: quantization@,
                index: index@,
                scirust_revision: SCIRUST_REVISION@,
                calibration: None,
            }),
    {
        GenerationFingerprint {
            embedding: embedding.to_owned(),
            projection: projection.to_owned(),
            quantization: quantization.to_owned(),
            index: index.to_owned(),
            scirust_revision: SCIRUST_REVISION.to_owned(),
            calibration: None,
        }
    }

    /// Checks every field and reports the first fault.
    pub fn validate(&self) -> (r: Result<(), StoreError>)
        ensures
            generation_fingerprint::reports(r, fingerprint_fault(self@)),
    {
        check_field("embedding", &self.embedding)?;
        check_field("projection", &self.projection)?;
        check_field("quantization", &self.quantization)?;
        check_field("index", &self.index)?;
        check_field("scirust_revision", &self.scirust_revision)?;
        match &self.calibration {
            Some(c) => {
                if c.as_str().as_bytes().len() > MAX_FINGERPRINT_BYTES {
                    let mut m = "generation calibration fingerprint exceeds ".to_owned();
                    push_decimal(&mut m, MAX_FINGERPRINT_BYTES as u128);
                    m.append(" bytes");
                    return Err(StoreError::new(ErrorKind::InvalidData, m));
                }
                Ok(())
            },
            None => Ok(()),
        }
    }

    /// Whether two fingerprints are the same in every field.
    pub fn same_as(&self, other: &GenerationFingerprint) -> (r: bool)
        ensures
            r == (self@ == other@),
    {
        text_equal(&self.embedding, &other.embedding) && text_equal(
            &self.projection,
            &other.projection,
        ) && text_equal(&self.quantization, &other.quantization) && text_equal(
            &self.index,
            &other.index,
        ) && text_equal(&self.scirust_revision, &other.scirust_revision) && same_optional(
            &self.calibration,
            &other.calibration,
        )
    }
}

/// Integrity and interpretation metadata of one generation.
#[derive(Debug, PartialEq, Eq)]
pub struct GenerationManifest {
    pub generation: u64,
    pub dim: usize,
    pub fingerprint: GenerationFingerprint,
    pub tree_sha256: [u8; 32],
    pub sketch_sha256: [u8; 32],
}

/// The value of a [`GenerationManifest`] in specifications.
#[verifier::ext_equal]
pub struct ManifestView {
    pub generation: u64,
    pub dim: usize,
    pub fingerprint: IdentityView,
    pub tree_sha256: Seq<u8>,
    pub sketch_sha256: Seq<u8>,
}

impl View for GenerationManifest {
    type V = ManifestView;

    open spec fn view(&self) -> ManifestView {
        ManifestView {
            generation: self.generation,
            dim: self.dim,
            fingerprint: self.fingerprint@,
            tree_sha256: self.tree_sha256@,
            sketch_sha256: self.sketch_sha256@,
        }
    }
}

impl Clone for GenerationManifest {
    fn clone(&self) -> (r: GenerationManifest)
        ensures
            r@ == self@,
    {
        GenerationManifest {
            generation: self.generation,
            dim: self.dim,
            fingerprint: self.fingerprint.clone(),
            tree_sha256: self.tree_sha256,
            sketch_sha256: self.sketch_sha256,
        }
    }
}

/// What a published pointer says.
#[derive(Clone, Copy, Debug, PartialEq, Eq)]
pub struct GenerationPointer {
    pub generation: u64,
    pub manifest_sha256: [u8; 32],
}

/// The value of a [`GenerationPointer`] in specifications.
#[verifier::ext_equal]
pub struct PointerView {
    pub generation: u64,
    pub manifest_sha256: Seq<u8>,
}

impl View for GenerationPointer {
    type V = PointerView;

    open spec fn view(&self) -> PointerView {
        PointerView { generation: self.generation, manifest_sha256: self.manifest_sha256@ }
    }
}

/// The bytes of a fingerprint.
pub open spec fn identity_bytes(f: IdentityView) -> Seq<u8> {
    fileguard::lp_bytes(encode_utf8(f.embedding)) + fileguard::lp_bytes(encode_utf8(f.projection))
        + fileguard::lp_bytes(encode_utf8(f.quantization)) + fileguard::lp_bytes(
        encode_utf8(f.index),
    ) + fileguard::lp_bytes(encode_utf8(f.scirust_revision)) + calibration_bytes(f.calibration)
}

/// The bytes of an optional calibration: a flag, and the text where there is one.
pub open spec fn calibration_bytes(c: Option<Seq<char>>) -> Seq<u8> {
    match c {
        Some(c) => seq![1u8] + fileguard::lp_bytes(encode_utf8(c)),
        None => seq![0u8],
    }
}

/// The bytes of a manifest.
pub open spec fn manifest_bytes(m: ManifestView) -> Seq<u8> {
    manifest_magic() + fileguard::le_bytes(FORMAT_VERSION as nat, 4) + fileguard::le_bytes(
        m.generation as nat,
        8,
    ) + fileguard::le_bytes(m.dim as nat, 4) + identity_bytes(m.fingerprint) + m.tree_sha256
        + m.sketch_sha256
}

/// The bytes of a pointer.
pub open spec fn pointer_bytes(p: PointerView) -> Seq<u8> {
    pointer_magic() + fileguard::le_bytes(FORMAT_VERSION as nat, 4) + fileguard::le_bytes(
        p.generation as nat,
        8,
    ) + p.manifest_sha256
}

/// What encoding a manifest gives: its bytes, or the fault of its fingerprint, or
/// that the dimension does not fit.
pub open spec fn encoded_manifest(m: ManifestView) -> Result<Seq<u8>, error::ErrorView> {
    match fingerprint_fault(m.fingerprint) {
        Some(e) => Err(e),
        None => if m.dim > u32::MAX {
            Err(
                error::invalid_data("embedding dimension does not fit generation manifest u32"@),
            )
        } else {
            Ok(manifest_bytes(m))
        },
    }
}

/// Appends a fingerprint field.
pub fn write_string(out: &mut Vec<u8>, value: &str) -> (r: Result<(), StoreError>)
    ensures
        match r {
            Ok(_) => encode_utf8(value@).len() <= MAX_FINGERPRINT_BYTES && final(out)@ == old(out)@
                + fileguard::lp_bytes(encode_utf8(value@)),
            Err(e) => encode_utf8(value@).len() > MAX_FINGERPRINT_BYTES && e@
                == error::invalid_data("generation fingerprint field is too long"@)
                && final(out)@ == old(out)@,
        },
{
    let b = value.as_bytes();
    if b.len() > MAX_FINGERPRINT_BYTES {
        return Err(StoreError::invalid("generation fingerprint field is too long"));
    }
    write_lp_bytes(out, b);
    Ok(())
}

fn put_identity(out: &mut Vec<u8>, f: &GenerationFingerprint) -> (r: Result<(), StoreError>)
    requires
        fingerprint_fault(f@) is None,
    ensures
        r is Ok,
        final(out)@ == old(out)@ + identity_bytes(f@),
{
    write_string(out, &f.embedding)?;
    write_string(out, &f.projection)?;
    write_string(out, &f.quantization)?;
    write_string(out, &f.index)?;
    write_string(out, &f.scirust_revision)?;
    let ghost before = out@;
    match &f.calibration {
        Some(c) => {
            out.push(1);
            write_string(out, c)?;
        },
        None => {
            out.push(0);
        },
    }
    proof {
        assert(out@ =~= before + calibration_bytes(f@.calibration));
        fileguard::lemma_appended6(
            old(out)@,
            fileguard::lp_bytes(encode_utf8(f@.embedding)),
            fileguard::lp_bytes(encode_utf8(f@.projection)),
            fileguard::lp_bytes(encode_utf8(f@.quantization)),
            fileguard::lp_bytes(encode_utf8(f@.index)),
            fileguard::lp_bytes(encode_utf8(f@.scirust_revision)),
            calibration_bytes(f@.calibration),
        );
    }
    Ok(())
}

/// Encodes a manifest.
pub fn encode_manifest(manifest: &GenerationManifest) -> (r: Result<Vec<u8>, StoreError>)
    ensures
        match r {
            Ok(b) => encoded_manifest(manifest@) == Ok::<_, error::ErrorView>(b@),
            Err(e) => encoded_manifest(manifest@) == Err::<Seq<u8>, _>(e@),
        },
{
    manifest.fingerprint.validate()?;
    if manifest.dim > 0xffff_ffff {
        return Err(
            StoreError::invalid("embedding dimension does not fit generation manifest u32"),
        );
    }
    let mut out: Vec<u8> = vec![79, 83, 71, 77];
    assert(out@ =~= manifest_magic());
    put_u32(&mut out, FORMAT_VERSION);
    put_u64(&mut out, manifest.generation);
    put_u32(&mut out, manifest.dim as u32);
    put_identity(&mut out, &manifest.fingerprint)?;
    put_slice(&mut out, &manifest.tree_sha256);
    put_slice(&mut out, &manifest.sketch_sha256);
    Ok(out)
}

/// Encodes a pointer.
pub fn encode_pointer(generation: u64, manifest_sha256: [u8; 32]) -> (out: Vec<u8>)
    ensures
        out@ == pointer_bytes(PointerView { generation, manifest_sha256: manifest_sha256@ }),
{
    let mut out: Vec<u8> = vec![79, 83, 71, 80];
    assert(out@ =~= pointer_magic());
    put_u32(&mut out, FORMAT_VERSION);
    put_u64(&mut out, generation);
    put_slice(&mut out, &manifest_sha256);
    out
}

/// Reads the opening four bytes and holds them against the expected ones.
pub open spec fn get_magic(
    expected: Seq<u8>,
    what: Seq<char>,
    s: Seq<u8>,
) -> fileguard::Parsed<()> {
    if s.len() < 4 {
        Err(error::invalid_data(fileguard::count_message(what + " magic"@, 4, 1, s.len())))
    } else if s.take(4) != expected {
        Err(error::invalid_data("invalid "@ + what + " magic"@))
    } else {
        Ok(((), s.skip(4)))
    }
}

/// Reads the version.
pub open spec fn get_version(what: Seq<char>, s: Seq<u8>) -> fileguard::Parsed<()> {
    match fileguard::get_u32(what + " version"@, s) {
        Err(e) => Err(e),
        Ok((version, s)) => if version != FORMAT_VERSION {
            Err(
                error::invalid_data(
                    "unsupported "@ + what + " version "@ + text::decimal(version as nat),
                ),
            )
        } else {
            Ok(((), s))
        },
    }
}

/// Reads a fingerprint field.
pub open spec fn get_string(s: Seq<u8>) -> fileguard::Parsed<Seq<char>> {
    match fileguard::get_u32("generation fingerprint"@, s) {
        Err(e) => Err(e),
        Ok((len, s)) => if len > MAX_FINGERPRINT_BYTES {
            Err(
                error::invalid_data(
                    "generation fingerprint field exceeds "@ + text::decimal(
                        MAX_FINGERPRINT_BYTES as nat,
                    ) + " bytes"@,
                ),
            )
        } else {
            match fileguard::get_counted("generation fingerprint"@, len as nat, s) {
                Err(e) => Err(e),
                Ok((b, s)) => if valid_utf8(b) {
                    Ok((decode_utf8(b), s))
                } else {
                    Err(
                        error::invalid_data(
                            "fingerprint is not UTF-8: "@ + fileguard::utf8_error_text(b),
                        ),
                    )
                },
            }
        },
    }
}

/// Reads one byte.
pub open spec fn get_byte(s: Seq<u8>) -> fileguard::Parsed<u8> {
    if s.len() < 1 {
        Err(
            error::invalid_data(
                fileguard::count_message("generation calibration flag"@, 1, 1, s.len()),
            ),
        )
    } else {
        Ok((s[0], s.skip(1)))
    }
}

/// Reads the calibration.
pub open spec fn get_calibration(s: Seq<u8>) -> fileguard::Parsed<Option<Seq<char>>> {
    match get_byte(s) {
        Err(e) => Err(e),
        Ok((flag, s)) => if flag == 0 {
            Ok((None, s))
        } else if flag == 1 {
            match get_string(s) {
                Err(e) => Err(e),
                Ok((c, s)) => Ok((Some(c), s)),
            }
        } else {
            Err(error::invalid_data("invalid calibration-presence flag"@))
        },
    }
}

/// Reads a fingerprint and checks it.
#[verifier::opaque]
pub open spec fn get_identity(s: Seq<u8>) -> fileguard::Parsed<IdentityView> {
    match get_string(s) {
        Err(e) => Err(e),
        Ok((embedding, s)) => match get_string(s) {
            Err(e) => Err(e),
            Ok((projection, s)) => match get_string(s) {
                Err(e) => Err(e),
                Ok((quantization, s)) => match get_string(s) {
                    Err(e) => Err(e),
                    Ok((index, s)) => match get_string(s) {
                        Err(e) => Err(e),
                        Ok((scirust_revision, s)) => match get_calibration(s) {
                            Err(e) => Err(e),
                            Ok((calibration, s)) => {
                                let f = IdentityView {
                                    embedding,
                                    projection,
                                    quantization,
                                    index,
                                    scirust_revision,
                                    calibration,
                                };
                                match fingerprint_fault(f) {
                                    Some(e) => Err(e),
                                    None => Ok((f, s)),
                                }
                            },
                        },
                    },
                },
            },
        },
    }
}

/// Reads a SHA-256 digest.
pub open spec fn get_hash(s: Seq<u8>) -> fileguard::Parsed<Seq<u8>> {
    fileguard::get_counted("generation digest"@, 32, s)
}

/// What decoding a manifest gives.
pub open spec fn decoded_manifest(bytes: Seq<u8>) -> Result<ManifestView, error::ErrorView> {
    match get_magic(manifest_magic(), "generation manifest"@, bytes) {
        Err(e) => Err(e),
        Ok((_, s)) => match get_version("generation manifest"@, s) {
            Err(e) => Err(e),
            Ok((_, s)) => match fileguard::get_u64("generation number"@, s) {
                Err(e) => Err(e),
                Ok((generation, s)) => match fileguard::get_u32("generation dim"@, s) {
                    Err(e) => Err(e),
                    Ok((dim, s)) => match get_identity(s) {
                        Err(e) => Err(e),
                        Ok((fingerprint, s)) => match get_hash(s) {
                            Err(e) => Err(e),
                            Ok((tree_sha256, s)) => match get_hash(s) {
                                Err(e) => Err(e),
                                Ok((sketch_sha256, s)) => if s.len() != 0 {
                                    Err(
                                        fileguard::trailing_error(
                                            "generation manifest"@,
                                            s.len(),
                                        ),
                                    )
                                } else {
                                    Ok(
                                        ManifestView {
                                            generation,
                                            dim: dim as usize,
                                            fingerprint,
                                            tree_sha256,
                                            sketch_sha256,
                                        },
                                    )
                                },
                            },
                        },
                    },
                },
            },
        },
    }
}

/// What decoding a pointer gives.
pub open spec fn decoded_pointer(bytes: Seq<u8>) -> Result<PointerView, error::ErrorView> {
    match get_magic(pointer_magic(), "generation pointer"@, bytes) {
        Err(e) => Err(e),
        Ok((_, s)) => match get_version("generation pointer"@, s) {
            Err(e) => Err(e),
            Ok((_, s)) => match fileguard::get_u64("generation number"@, s) {
                Err(e) => Err(e),
                Ok((generation, s)) => match get_hash(s) {
                    Err(e) => Err(e),
                    Ok((manifest_sha256, s)) => if s.len() != 0 {
                        Err(fileguard::trailing_error("generation pointer"@, s.len()))
                    } else {
                        Ok(PointerView { generation, manifest_sha256 })
                    },
                },
            },
        },
    }
}

/// Reads the opening four bytes.
pub fn read_magic(r: &mut CountingReader<'_>, expected: [u8; 4], what: &str) -> (v: Result<
    (),
    StoreError,
>)
    ensures
        fileguard::agrees(
            v,
            |v: ()| v,
            final(r).rest(),
            get_magic(expected@, what@, old(r).rest()),
        ),
{
    let mut field = what.to_owned();
    field.append(" magic");
    let b = read_counted(field.as_str(), 4, r)?;
    if !bytes_equal(&b, &expected) {
        let mut m = "invalid ".to_owned();
        m.append(what);
        m.append(" magic");
        return Err(StoreError::new(ErrorKind::InvalidData, m));
    }
    Ok(())
}

fn read_version(r: &mut CountingReader<'_>, what: &str) -> (v: Result<(), StoreError>)
    ensures
        fileguard::agrees(v, |v: ()| v, final(r).rest(), get_version(what@, old(r).rest())),
{
    let mut field = what.to_owned();
    field.append(" version");
    let version: u32 = read_u32_le(field.as_str(), r)?;
    if version != FORMAT_VERSION {
        let mut m = "unsupported ".to_owned();
        m.append(what);
        m.append(" version ");
        push_decimal(&mut m, version as u128);
        return Err(StoreError::new(ErrorKind::InvalidData, m));
    }
    Ok(())
}

/// Reads a fingerprint field.
pub fn read_string(r: &mut CountingReader<'_>) -> (v: Result<String, StoreError>)
    ensures
        fileguard::agrees(v, |v: String| v@, final(r).rest(), get_string(old(r).rest())),
{
    let len: u32 = read_u32_le("generation fingerprint", r)?;
    if len as usize > MAX_FINGERPRINT_BYTES {
        let mut m = "generation fingerprint field exceeds ".to_owned();
        push_decimal(&mut m, MAX_FINGERPRINT_BYTES as u128);
        m.append(" bytes");
        return Err(StoreError::new(ErrorKind::InvalidData, m));
    }
    let b = read_counted("generation fingerprint", len as usize, r)?;
    match string_from_utf8(b) {
        Ok(s) => Ok(s),
        Err(e) => {
            let mut m = "fingerprint is not UTF-8: ".to_owned();
            m.append(&e);
            Err(StoreError::new(ErrorKind::InvalidData, m))
        },
    }
}

fn read_calibration(r: &mut CountingReader<'_>) -> (v: Result<Option<String>, StoreError>)
    ensures
        fileguard::agrees(
            v,
            |v: Option<String>| record::optional_text(v),
            final(r).rest(),
            get_calibration(old(r).rest()),
        ),
{
    let flag = read_counted("generation calibration flag", 1, r)?;
    if flag[0] == 0 {
        Ok(None)
    } else if flag[0] == 1 {
        let c = read_string(r)?;
        Ok(Some(c))
    } else {
        Err(StoreError::invalid("invalid calibration-presence flag"))
    }
}

fn read_identity(r: &mut CountingReader<'_>) -> (v: Result<GenerationFingerprint, StoreError>)
    ensures
        fileguard::agrees(
            v,
            |v: GenerationFingerprint| v@,
            final(r).rest(),
            get_identity(old(r).rest()),
        ),
{
    proof {
        reveal(get_identity);
    }
    let embedding = read_string(r)?;
    let projection = read_string(r)?;
    let quantization = read_string(r)?;
    let index = read_string(r)?;
    let scirust_revision = read_string(r)?;
    let calibration = read_calibration(r)?;
    let f = GenerationFingerprint {
        embedding,
        projection,
        quantization,
        index,
        scirust_revision,
        calibration,
    };
    f.validate()?;
    Ok(f)
}

/// Reads a SHA-256 digest.
pub fn read_hash(r: &mut CountingReader<'_>) -> (v: Result<[u8; 32], StoreError>)
    ensures
        fileguard::agrees(v, |v: [u8; 32]| v@, final(r).rest(), get_hash(old(r).rest())),
{
    let b = read_counted("generation digest", 32, r)?;
    let mut hash: [u8; 32] = [0;32];
    let mut i: usize = 0;
    while i < 32
        invariant
            i <= 32,
            b@.len() == 32,
            forall|j: int| 0 <= j < i ==> hash@[j] == b@[j],
        decreases 32 - i,
    {
        hash[i] = b[i];
        i += 1;
    }
    assert(hash@ =~= b@);
    Ok(hash)
}

/// Decodes a manifest.
pub fn decode_manifest(bytes: &[u8]) -> (v: Result<GenerationManifest, StoreError>)
    ensures
        match v {
            Ok(m) => decoded_manifest(bytes@) == Ok::<_, error::ErrorView>(m@),
            Err(e) => decoded_manifest(bytes@) == Err::<ManifestView, _>(e@),
        },
{
    let mut r = CountingReader::new(bytes);
    let magic: [u8; 4] = [79, 83, 71, 77];
    assert(magic@ =~= manifest_magic());
    read_magic(&mut r, magic, "generation manifest")?;
    read_version(&mut r, "generation manifest")?;
    let generation: u64 = read_u64_le("generation number", &mut r)?;
    let dim: u32 = read_u32_le("generation dim", &mut r)?;
    let fingerprint = read_identity(&mut r)?;
    let tree_sha256 = read_hash(&mut r)?;
    let sketch_sha256 = read_hash(&mut r)?;
    guard_no_trailing_bytes("generation manifest", r.remaining())?;
    Ok(
        GenerationManifest {
            generation,
            dim: dim as usize,
            fingerprint,
            tree_sha256,
            sketch_sha256,
        },
    )
}

/// Decodes a pointer.
pub fn decode_pointer(bytes: &[u8]) -> (v: Result<GenerationPointer, StoreError>)
    ensures
        match v {
            Ok(p) => decoded_pointer(bytes@) == Ok::<_, error::ErrorView>(p@),
            Err(e) => decoded_pointer(bytes@) == Err::<PointerView, _>(e@),
        },
{
    let mut r = CountingReader::new(bytes);
    let magic: [u8; 4] = [79, 83, 71, 80];
    assert(magic@ =~= pointer_magic());
    read_magic(&mut r, magic, "generation pointer")?;
    read_version(&mut r, "generation pointer")?;
    let generation: u64 = read_u64_le("generation number", &mut r)?;
    let manifest_sha256 = read_hash(&mut r)?;
    guard_no_trailing_bytes("generation pointer", r.remaining())?;
    Ok(GenerationPointer { generation, manifest_sha256 })
}


proof fn lemma_get_string(t: Seq<char>, rest: Seq<u8>)
    requires
        encode_utf8(t).len() <= MAX_FINGERPRINT_BYTES,
    ensures
        get_string(fileguard::lp_bytes(encode_utf8(t)) + rest) == Ok::<_, error::ErrorView>(
            (t, rest),
        ),
{
    let b = encode_utf8(t);
    fileguard::lemma_regroup2(fileguard::le_bytes(b.len(), 4), b, rest);
    fileguard::lemma_get_u32("generation fingerprint"@, b.len() as u32, b + rest);
    assert((b + rest).take(b.len() as int) =~= b);
    assert((b + rest).skip(b.len() as int) =~= rest);
    encode_utf8_valid_utf8(t);
    encode_utf8_decode_utf8(t);
}

proof fn lemma_get_calibration(c: Option<Seq<char>>, rest: Seq<u8>)
    requires
        calibration_fault(c) is None,
    ensures
        get_calibration(calibration_bytes(c) + rest) == Ok::<_, error::ErrorView>((c, rest)),
{
    match c {
        Some(t) => {
            let body = fileguard::lp_bytes(encode_utf8(t)) + rest;
            assert(calibration_bytes(c) + rest =~= seq![1u8] + body);
            assert((seq![1u8] + body).skip(1) =~= body);
            lemma_get_string(t, rest);
        },
        None => {
            assert((seq![0u8] + rest).skip(1) =~= rest);
        },
    }
}

proof fn lemma_get_identity(f: IdentityView, rest: Seq<u8>)
    requires
        fingerprint_fault(f) is None,
    ensures
        get_identity(identity_bytes(f) + rest) == Ok::<_, error::ErrorView>((f, rest)),
{
    reveal(get_identity);
    let a = fileguard::lp_bytes(encode_utf8(f.embedding));
    let b = fileguard::lp_bytes(encode_utf8(f.projection));
    let c = fileguard::lp_bytes(encode_utf8(f.quantization));
    let d = fileguard::lp_bytes(encode_utf8(f.index));
    let e = fileguard::lp_bytes(encode_utf8(f.scirust_revision));
    let g = calibration_bytes(f.calibration);
    fileguard::lemma_regroup6(a, b, c, d, e, g, rest);
    lemma_get_string(f.embedding, b + (c + (d + (e + (g + rest)))));
    lemma_get_string(f.projection, c + (d + (e + (g + rest))));
    lemma_get_string(f.quantization, d + (e + (g + rest)));
    lemma_get_string(f.index, e + (g + rest));
    lemma_get_string(f.scirust_revision, g + rest);
    lemma_get_calibration(f.calibration, rest);
}

proof fn lemma_get_hash(h: Seq<u8>, rest: Seq<u8>)
    requires
        h.len() == 32,
    ensures
        get_hash(h + rest) == Ok::<_, error::ErrorView>((h, rest)),
{
    assert((h + rest).take(32) =~= h);
    assert((h + rest).skip(32) =~= rest);
}

/// Decoding an encoded manifest gives the manifest back, whenever it could be encoded.
pub proof fn law_manifest_round_trip(m: ManifestView)
    requires
        encoded_manifest(m) is Ok,
        m.tree_sha256.len() == 32,
        m.sketch_sha256.len() == 32,
    ensures
        decoded_manifest(encoded_manifest(m)->Ok_0) == Ok::<_, error::ErrorView>(m),
{
    let rest = Seq::<u8>::empty();
    let v = fileguard::le_bytes(FORMAT_VERSION as nat, 4);
    let g = fileguard::le_bytes(m.generation as nat, 8);
    let d = fileguard::le_bytes(m.dim as nat, 4);
    let f = identity_bytes(m.fingerprint);
    let t = m.tree_sha256;
    let k = m.sketch_sha256;
    let bytes = manifest_bytes(m);
    assert(bytes + rest =~= bytes);
    fileguard::lemma_regroup7(manifest_magic(), v, g, d, f, t, k, rest);
    let s1 = v + (g + (d + (f + (t + (k + rest)))));
    assert(bytes == manifest_magic() + s1);
    assert(bytes.take(4) =~= manifest_magic());
    assert(bytes.skip(4) =~= s1);
    fileguard::lemma_get_u32(
        "generation manifest"@ + " version"@,
        FORMAT_VERSION,
        g + (d + (f + (t + (k + rest)))),
    );
    fileguard::lemma_get_u64("generation number"@, m.generation, d + (f + (t + (k + rest))));
    fileguard::lemma_get_u32("generation dim"@, m.dim as u32, f + (t + (k + rest)));
    lemma_get_identity(m.fingerprint, t + (k + rest));
    lemma_get_hash(t, k + rest);
    lemma_get_hash(k, rest);
}

/// Decoding an encoded pointer gives the pointer back.
pub proof fn law_pointer_round_trip(p: PointerView)
    requires
        p.manifest_sha256.len() == 32,
    ensures
        decoded_pointer(pointer_bytes(p)) == Ok::<_, error::ErrorView>(p),
{
    let rest = Seq::<u8>::empty();
    let v = fileguard::le_bytes(FORMAT_VERSION as nat, 4);
    let g = fileguard::le_bytes(p.generation as nat, 8);
    let h = p.manifest_sha256;
    let bytes = pointer_bytes(p);
    assert(bytes + rest =~= bytes);
    fileguard::lemma_regroup4(pointer_magic(), v, g, h, rest);
    let s1 = v + (g + (h + rest));
    assert(bytes == pointer_magic() + s1);
    assert(bytes.take(4) =~= pointer_magic());
    assert(bytes.skip(4) =~= s1);
    fileguard::lemma_get_u32("generation pointer"@ + " version"@, FORMAT_VERSION, g + (h + rest));
    fileguard::lemma_get_u64("generation number"@, p.generation, h + rest);
    lemma_get_hash(h, rest);
}

// ---- names and listings ----

/// The directory name of a generation.
pub open spec fn dir_name(generation: u64) -> Seq<char> {
    "gen-"@ + text::padded(generation as nat, 20)
}

/// The file name of a pointer.
pub open spec fn pointer_name(generation: u64) -> Seq<char> {
    text::padded(generation as nat, 20) + ".ptr"@
}

/// The directory name of a generation.
pub fn generation_dir_name(generation: u64) -> (s: String)
    ensures
        s@ == dir_name(generation),
{
    let mut s = "gen-".to_owned();
    push_padded(&mut s, generation, 20);
    s
}

/// The file name of a pointer.
pub fn pointer_file_name(generation: u64) -> (s: String)
    ensures
        s@ == pointer_name(generation),
{
    let mut s = String::new();
    push_padded(&mut s, generation, 20);
    s.append(".ptr");
    assert(s@ =~= pointer_name(generation));
    s
}

/// What a directory entry is.
#[derive(Clone, Copy, Debug, PartialEq, Eq, Structural)]
pub enum EntryKind {
    File,
    Symlink,
    Other,
}

/// An entry of the pointer directory; the name is absent where it is not UTF-8.
#[derive(Debug)]
pub struct PointerEntry {
    pub name: Option<String>,
    pub kind: EntryKind,
}

/// The value of a [`PointerEntry`] in specifications.
#[verifier::ext_equal]
pub struct EntryView {
    pub name: Option<Seq<char>>,
    pub kind: EntryKind,
}

impl View for PointerEntry {
    type V = EntryView;

    open spec fn view(&self) -> EntryView {
        EntryView { name: record::optional_text(self.name), kind: self.kind }
    }
}

/// The generation that an entry of the pointer directory publishes: none for a hidden
/// name, and an error for everything that is not a pointer file.
pub open spec fn entry_generation(e: EntryView) -> Result<Option<u64>, error::ErrorView> {
    match e.name {
        None => Err(error::invalid_data("current-pointer filename is not valid UTF-8"@)),
        Some(name) => if name.len() > 0 && name[0] == '.' {
            Ok(None)
        } else if e.kind == EntryKind::Symlink {
            Err(
                error::invalid_data(
                    "symbolic link is not allowed in current pointer directory: "@ + name,
                ),
            )
        } else if e.kind != EntryKind::File {
            Err(
                error::invalid_data("unexpected non-file in current pointer directory: "@ + name),
            )
        } else if name.len() < 4 || name.skip(name.len() - 4) != ".ptr"@ {
            Err(error::invalid_data("unexpected current pointer entry: "@ + name))
        } else {
            let digits = name.take(name.len() - 4);
            if digits.len() != 20 || !text::all_digits(digits) {
                Err(error::invalid_data("invalid current pointer filename: "@ + name))
            } else if text::digits_value(digits) > u64::MAX {
                Err(error::invalid_data("invalid generation number in pointer: "@ + name))
            } else {
                Ok(Some(text::digits_value(digits) as u64))
            }
        },
    }
}

fn with_name(message: &str, name: &str) -> (e: StoreError)
    ensures
        e@ == error::invalid_data(message@ + name@),
{
    let mut m = message.to_owned();
    m.append(name);
    StoreError::new(ErrorKind::InvalidData, m)
}

/// Whether `v` is digits only.
pub(crate) fn only_digits(v: &[char]) -> (r: bool)
    ensures
        r == text::all_digits(v@),
{
    let mut i: usize = 0;
    while i < v.len()
        invariant
            i <= v@.len(),
            forall|j: int| 0 <= j < i ==> text::is_digit(#[trigger] v@[j]),
        decreases v@.len() - i,
    {
        if v[i] < '0' || v[i] > '9' {
            assert(!text::is_digit(v@[i as int]));
            return false;
        }
        i += 1;
    }
    v.len() > 0
}

fn published_by(e: &PointerEntry) -> (r: Result<Option<u64>, StoreError>)
    ensures
        match r {
            Ok(g) => entry_generation(e@) == Ok::<_, error::ErrorView>(g),
            Err(x) => entry_generation(e@) == Err::<Option<u64>, _>(x@),
        },
{
    let name = match &e.name {
        Some(n) => n,
        None => return Err(StoreError::invalid("current-pointer filename is not valid UTF-8")),
    };
    let v = chars_of(name);
    let n: usize = v.len();
    if n > 0 && v[0] == '.' {
        return Ok(None);
    }
    match e.kind {
        EntryKind::Symlink => {
            return Err(
                with_name("symbolic link is not allowed in current pointer directory: ", name),
            );
        },
        EntryKind::Other => {
            return Err(with_name("unexpected non-file in current pointer directory: ", name));
        },
        EntryKind::File => {},
    }
    proof {
        reveal_strlit(".ptr");
    }
    if n < 4 || v[n - 4] != '.' || v[n - 3] != 'p' || v[n - 2] != 't' || v[n - 1] != 'r' {
        proof {
            if n >= 4 && v@.skip(n - 4) == ".ptr"@ {
                assert(v@[n - 4] == ".ptr"@[0]);
                assert(v@[n - 3] == ".ptr"@[1]);
                assert(v@[n - 2] == ".ptr"@[2]);
                assert(v@[n - 1] == ".ptr"@[3]);
            }
        }
        return Err(with_name("unexpected current pointer entry: ", name));
    }
    assert(v@.skip(n - 4) =~= ".ptr"@);
    let digits = text_of(&v, 0, n - 4);
    assert(digits@ =~= v@.take(n - 4));
    let d = chars_of(&digits);
    if n - 4 != 20 || !only_digits(&d) {
        return Err(with_name("invalid current pointer filename: ", name));
    }
    assert(text::is_digit(d@[0]));
    match parse_unsigned(&digits, u64::MAX) {
        Some(g) => Ok(Some(g)),
        None => Err(with_name("invalid generation number in pointer: ", name)),
    }
}

/// The later of an optional and another number.
pub open spec fn later(a: Option<u64>, b: Option<u64>) -> Option<u64> {
    match (a, b) {
        (Some(x), Some(y)) => Some(if x >= y {
            x
        } else {
            y
        }),
        (Some(x), None) => Some(x),
        (None, y) => y,
    }
}

/// The highest generation that the entries publish, or the error of the first entry
/// that is not in order.
pub open spec fn latest_published(entries: Seq<EntryView>) -> Result<Option<u64>, error::ErrorView>
    decreases entries.len(),
{
    if entries.len() == 0 {
        Ok(None)
    } else {
        match latest_published(entries.drop_last()) {
            Err(e) => Err(e),
            Ok(a) => match entry_generation(entries.last()) {
                Err(e) => Err(e),
                Ok(b) => Ok(later(a, b)),
            },
        }
    }
}

/// The values of a list of entries.
pub open spec fn entry_views(s: Seq<PointerEntry>) -> Seq<EntryView> {
    s.map_values(|e: PointerEntry| e@)
}

proof fn lemma_latest_error(entries: Seq<EntryView>, n: int)
    requires
        0 <= n <= entries.len(),
        latest_published(entries.take(n)) is Err,
    ensures
        latest_published(entries) == latest_published(entries.take(n)),
    decreases entries.len(),
{
    if n == entries.len() {
        assert(entries.take(n) =~= entries);
    } else {
        assert(entries.drop_last().take(n) =~= entries.take(n));
        lemma_latest_error(entries.drop_last(), n);
    }
}

/// Finds the highest generation that the entries of the pointer directory publish.
pub fn latest_published_generation(entries: &[PointerEntry]) -> (r: Result<Option<u64>, StoreError>)
    ensures
        match r {
            Ok(g) => latest_published(entry_views(entries@)) == Ok::<_, error::ErrorView>(g),
            Err(e) => latest_published(entry_views(entries@)) == Err::<Option<u64>, _>(e@),
        },
{
    let ghost all = entry_views(entries@);
    let mut latest: Option<u64> = None;
    let mut i: usize = 0;
    assert(all.take(0) =~= Seq::empty());
    while i < entries.len()
        invariant
            i <= entries@.len(),
            all == entry_views(entries@),
            latest_published(all.take(i as int)) == Ok::<_, error::ErrorView>(latest),
        decreases entries@.len() - i,
    {
        proof {
            assert(all.take(i + 1).drop_last() =~= all.take(i as int));
            assert(all.take(i + 1).last() == all[i as int]);
        }
        match published_by(&entries[i]) {
            Ok(found) => {
                latest = match (latest, found) {
                    (Some(x), Some(y)) => Some(if x >= y {
                        x
                    } else {
                        y
                    }),
                    (Some(x), None) => Some(x),
                    (None, y) => y,
                };
            },
            Err(e) => {
                proof {
                    lemma_latest_error(all, i + 1);
                }
                return Err(e);
            },
        }
        i += 1;
    }
    assert(all.take(i as int) =~= all);
    Ok(latest)
}

// ---- saving ----

/// What is to be written for a new generation, in this order: the components and the
/// manifest under the directory, then the pointer.
#[derive(Debug)]
pub struct Publication {
    pub manifest: GenerationManifest,
    pub dir: String,
    pub manifest_bytes: Vec<u8>,
    pub pointer: String,
    pub pointer_bytes: Vec<u8>,
}

/// The error of a generation that is not newer than the published ones.
pub open spec fn not_newer(latest: u64, proposed: u64) -> error::ErrorView {
    error::invalid_data(
        "generation must increase monotonically: latest="@ + text::decimal(latest as nat)
            + ", proposed="@ + text::decimal(proposed as nat),
    )
}

/// The manifest that binds two components.
pub open spec fn sealed(
    generation: u64,
    dim: usize,
    fingerprint: IdentityView,
    tree: Seq<u8>,
    sketch: Seq<u8>,
) -> ManifestView {
    ManifestView {
        generation,
        dim,
        fingerprint,
        tree_sha256: digest::sha256(tree),
        sketch_sha256: digest::sha256(sketch),
    }
}

/// The fault of a proposed generation: its fingerprint, the listing, or its number.
pub open spec fn proposal_fault(
    entries: Seq<EntryView>,
    generation: u64,
    fingerprint: IdentityView,
) -> Option<error::ErrorView> {
    match fingerprint_fault(fingerprint) {
        Some(e) => Some(e),
        None => match latest_published(entries) {
            Err(e) => Some(e),
            Ok(Some(latest)) => if generation <= latest {
                Some(not_newer(latest, generation))
            } else {
                None
            },
            Ok(None) => None,
        },
    }
}

/// Decisions of the commit protocol.
pub struct GenerationStore;

impl GenerationStore {
    /// Checks a proposed generation against what is published.
    pub fn check_proposal(
        entries: &[PointerEntry],
        generation: u64,
        fingerprint: &GenerationFingerprint,
    ) -> (r: Result<(), StoreError>)
        ensures
            generation_fingerprint::reports(
                r,
                proposal_fault(entry_views(entries@), generation, fingerprint@),
            ),
    {
        fingerprint.validate()?;
        match latest_published_generation(entries)? {
            Some(latest) => {
                if generation <= latest {
                    let mut m = "generation must increase monotonically: latest=".to_owned();
                    push_decimal(&mut m, latest as u128);
                    m.append(", proposed=");
                    push_decimal(&mut m, generation as u128);
                    return Err(StoreError::new(ErrorKind::InvalidData, m));
                }
                Ok(())
            },
            None => Ok(()),
        }
    }

    /// Prepares a new generation of two components: its manifest and its pointer. The
    /// number must exceed every published one.
    pub fn save(
        entries: &[PointerEntry],
        generation: u64,
        dim: usize,
        fingerprint: &GenerationFingerprint,
        tree: &[u8],
        sketch: &[u8],
    ) -> (r: Result<Publication, StoreError>)
        ensures
            match r {
                Ok(p) => {
                    let m = sealed(generation, dim, fingerprint@, tree@, sketch@);
                    &&& proposal_fault(entry_views(entries@), generation, fingerprint@) is None
                    &&& dim <= u32::MAX
                    &&& p.manifest@ == m
                    &&& p.dir@ == dir_name(generation)
                    &&& p.manifest_bytes@ == manifest_bytes(m)
                    &&& p.pointer@ == pointer_name(generation)
                    &&& p.pointer_bytes@ == pointer_bytes(
                        PointerView {
                            generation,
                            manifest_sha256: digest::sha256(manifest_bytes(m)),
                        },
                    )
                },
                Err(e) => match proposal_fault(entry_views(entries@), generation, fingerprint@) {
                    Some(x) => e@ == x,
                    None => dim > u32::MAX && e@ == error::invalid_data(
                        "embedding dimension does not fit generation manifest u32"@,
                    ),
                },
            },
    {
        GenerationStore::check_proposal(entries, generation, fingerprint)?;
        let manifest = GenerationManifest {
            generation,
            dim,
            fingerprint: fingerprint.clone(),
            tree_sha256: sha256_bytes(tree),
            sketch_sha256: sha256_bytes(sketch),
        };
        let manifest_bytes = encode_manifest(&manifest)?;
        let pointer_bytes = encode_pointer(generation, sha256_bytes(&manifest_bytes));
        Ok(
            Publication {
                manifest,
                dir: generation_dir_name(generation),
                manifest_bytes,
                pointer: pointer_file_name(generation),
                pointer_bytes,
            },
        )
    }

    /// The generation to open: the highest that is published. There is no fallback to
    /// an older one.
    pub fn current_generation(entries: &[PointerEntry]) -> (r: Result<u64, StoreError>)
        ensures
            match r {
                Ok(g) => current_of(entry_views(entries@)) == Ok::<_, error::ErrorView>(g),
                Err(e) => current_of(entry_views(entries@)) == Err::<u64, _>(e@),
            },
    {
        match latest_published_generation(entries)? {
            Some(g) => Ok(g),
            None => Err(
                StoreError::new(
                    ErrorKind::NotFound,
                    "generation store has no published pointer".to_owned(),
                ),
            ),
        }
    }

    /// Reads the pointer of `generation`.
    pub fn check_pointer(generation: u64, bytes: &[u8]) -> (r: Result<
        GenerationPointer,
        StoreError,
    >)
        ensures
            match r {
                Ok(p) => checked_pointer(generation, bytes@) == Ok::<_, error::ErrorView>(p@),
                Err(e) => checked_pointer(generation, bytes@) == Err::<PointerView, _>(e@),
            },
    {
        let p = decode_pointer(bytes)?;
        if p.generation != generation {
            return Err(
                StoreError::invalid("generation pointer body does not match its filename"),
            );
        }
        Ok(p)
    }

    /// Reads the manifest that a pointer publishes and holds it against what the caller
    /// expects.
    pub fn check_manifest(
        pointer: &GenerationPointer,
        bytes: &[u8],
        expected_dim: usize,
        expected: &GenerationFingerprint,
    ) -> (r: Result<GenerationManifest, StoreError>)
        ensures
            match r {
                Ok(m) => checked_manifest(pointer@, bytes@, expected_dim, expected@) == Ok::<
                    _,
                    error::ErrorView,
                >(m@),
                Err(e) => checked_manifest(pointer@, bytes@, expected_dim, expected@) == Err::<
                    ManifestView,
                    _,
                >(e@),
            },
    {
        let actual = sha256_bytes(bytes);
        if !bytes_equal(&actual, &pointer.manifest_sha256) {
            return Err(
                StoreError::invalid("generation manifest SHA-256 does not match current pointer"),
            );
        }
        let manifest = decode_manifest(bytes)?;
        if manifest.generation != pointer.generation {
            return Err(
                StoreError::invalid("generation manifest number does not match current pointer"),
            );
        }
        if manifest.dim != expected_dim {
            let mut m = "generation dimension mismatch: manifest=".to_owned();
            push_decimal(&mut m, manifest.dim as u128);
            m.append(", expected=");
            push_decimal(&mut m, expected_dim as u128);
            return Err(StoreError::new(ErrorKind::InvalidData, m));
        }
        if !manifest.fingerprint.same_as(expected) {
            return Err(StoreError::invalid("generation interpretation fingerprint mismatch"));
        }
        Ok(manifest)
    }

    /// Holds the tree component against the manifest.
    pub fn check_tree(manifest: &GenerationManifest, tree: &[u8]) -> (r: Result<(), StoreError>)
        ensures
            r is Ok <==> digest::sha256(tree@) == manifest@.tree_sha256,
            r matches Err(e) ==> e@ == error::invalid_data("tree.frac SHA-256 mismatch"@),
    {
        let actual = sha256_bytes(tree);
        if !bytes_equal(&actual, &manifest.tree_sha256) {
            return Err(StoreError::invalid("tree.frac SHA-256 mismatch"));
        }
        Ok(())
    }

    /// Holds the sketch component against the manifest.
    pub fn check_sketch(manifest: &GenerationManifest, sketch: &[u8]) -> (r: Result<
        (),
        StoreError,
    >)
        ensures
            r is Ok <==> digest::sha256(sketch@) == manifest@.sketch_sha256,
            r matches Err(e) ==> e@ == error::invalid_data("index.skch SHA-256 mismatch"@),
    {
        let actual = sha256_bytes(sketch);
        if !bytes_equal(&actual, &manifest.sketch_sha256) {
            return Err(StoreError::invalid("index.skch SHA-256 mismatch"));
        }
        Ok(())
    }

    /// Opens a published generation from the bytes of its files: every integrity and
    /// interpretation binding is checked, in order, before the components are used.
    pub fn open_current(
        entries: &[PointerEntry],
        pointer: &[u8],
        manifest: &[u8],
        tree: &[u8],
        sketch: &[u8],
        expected_dim: usize,
        expected: &GenerationFingerprint,
    ) -> (r: Result<GenerationManifest, StoreError>)
        ensures
            match r {
                Ok(m) => opened(
                    entry_views(entries@),
                    pointer@,
                    manifest@,
                    tree@,
                    sketch@,
                    expected_dim,
                    expected@,
                ) == Ok::<_, error::ErrorView>(m@),
                Err(e) => opened(
                    entry_views(entries@),
                    pointer@,
                    manifest@,
                    tree@,
                    sketch@,
                    expected_dim,
                    expected@,
                ) == Err::<ManifestView, _>(e@),
            },
    {
        expected.validate()?;
        let generation: u64 = GenerationStore::current_generation(entries)?;
        let p = GenerationStore::check_pointer(generation, pointer)?;
        let m = GenerationStore::check_manifest(&p, manifest, expected_dim, expected)?;
        GenerationStore::check_tree(&m, tree)?;
        GenerationStore::check_sketch(&m, sketch)?;
        Ok(m)
    }
}

/// The generation to open.
pub open spec fn current_of(entries: Seq<EntryView>) -> Result<u64, error::ErrorView> {
    match latest_published(entries) {
        Err(e) => Err(e),
        Ok(Some(g)) => Ok(g),
        Ok(None) => Err(
            error::ErrorView {
                kind: ErrorKind::NotFound,
                message: "generation store has no published pointer"@,
            },
        ),
    }
}

/// The pointer of a generation.
pub open spec fn checked_pointer(generation: u64, bytes: Seq<u8>) -> Result<
    PointerView,
    error::ErrorView,
> {
    match decoded_pointer(bytes) {
        Err(e) => Err(e),
        Ok(p) => if p.generation != generation {
            Err(error::invalid_data("generation pointer body does not match its filename"@))
        } else {
            Ok(p)
        },
    }
}

/// The manifest that a pointer publishes.
pub open spec fn checked_manifest(
    p: PointerView,
    bytes: Seq<u8>,
    expected_dim: usize,
    expected: IdentityView,
) -> Result<ManifestView, error::ErrorView> {
    if digest::sha256(bytes) != p.manifest_sha256 {
        Err(error::invalid_data("generation manifest SHA-256 does not match current pointer"@))
    } else {
        match decoded_manifest(bytes) {
            Err(e) => Err(e),
            Ok(m) => if m.generation != p.generation {
                Err(
                    error::invalid_data(
                        "generation manifest number does not match current pointer"@,
                    ),
                )
            } else if m.dim != expected_dim {
                Err(
                    error::invalid_data(
                        "generation dimension mismatch: manifest="@ + text::decimal(m.dim as nat)
                            + ", expected="@ + text::decimal(expected_dim as nat),
                    ),
                )
            } else if m.fingerprint != expected {
                Err(error::invalid_data("generation interpretation fingerprint mismatch"@))
            } else {
                Ok(m)
            },
        }
    }
}

/// What opening the current generation gives.
pub open spec fn opened(
    entries: Seq<EntryView>,
    pointer: Seq<u8>,
    manifest: Seq<u8>,
    tree: Seq<u8>,
    sketch: Seq<u8>,
    expected_dim: usize,
    expected: IdentityView,
) -> Result<ManifestView, error::ErrorView> {
    match fingerprint_fault(expected) {
        Some(e) => Err(e),
        None => match current_of(entries) {
            Err(e) => Err(e),
            Ok(generation) => match checked_pointer(generation, pointer) {
                Err(e) => Err(e),
                Ok(p) => match checked_manifest(p, manifest, expected_dim, expected) {
                    Err(e) => Err(e),
                    Ok(m) => if digest::sha256(tree) != m.tree_sha256 {
                        Err(error::invalid_data("tree.frac SHA-256 mismatch"@))
                    } else if digest::sha256(sketch) != m.sketch_sha256 {
                        Err(error::invalid_data("index.skch SHA-256 mismatch"@))
                    } else {
                        Ok(m)
                    },
                },
            },
        },
    }
}

proof fn lemma_pointer_entry(generation: u64)
    ensures
        entry_generation(
            EntryView { name: Some(pointer_name(generation)), kind: EntryKind::File },
        ) == Ok::<_, error::ErrorView>(Some(generation)),
{
    let name = pointer_name(generation);
    let d = text::padded(generation as nat, 20);
    text::lemma_padded_20(generation);
    reveal_strlit(".ptr");
    assert(name.take(name.len() - 4) =~= d);
    assert(name.skip(name.len() - 4) =~= ".ptr"@);
    assert(name[0] == d[0]);
    assert(text::is_digit(d[0]));
}

/// What a save prepares opens again: once its pointer is listed, opening with the same
/// dimension and fingerprint gives the manifest back.
pub proof fn law_published_generation_opens(
    entries: Seq<EntryView>,
    generation: u64,
    dim: usize,
    fingerprint: IdentityView,
    tree: Seq<u8>,
    sketch: Seq<u8>,
)
    requires
        proposal_fault(entries, generation, fingerprint) is None,
        dim <= u32::MAX,
    ensures
        ({
            let m = sealed(generation, dim, fingerprint, tree, sketch);
            let bytes = manifest_bytes(m);
            let p = PointerView { generation, manifest_sha256: digest::sha256(bytes) };
            opened(
                entries.push(
                    EntryView { name: Some(pointer_name(generation)), kind: EntryKind::File },
                ),
                pointer_bytes(p),
                bytes,
                tree,
                sketch,
                dim,
                fingerprint,
            ) == Ok::<_, error::ErrorView>(m)
        }),
{
    let m = sealed(generation, dim, fingerprint, tree, sketch);
    let bytes = manifest_bytes(m);
    let p = PointerView { generation, manifest_sha256: digest::sha256(bytes) };
    let entry = EntryView { name: Some(pointer_name(generation)), kind: EntryKind::File };
    assert(entries.push(entry).drop_last() =~= entries);
    lemma_pointer_entry(generation);
    law_manifest_round_trip(m);
    law_pointer_round_trip(p);
}

/// A changed component is refused: where a component's digest differs from the one in
/// the manifest, opening fails, whatever else is in order.
pub proof fn law_corruption_is_refused(
    entries: Seq<EntryView>,
    pointer: Seq<u8>,
    manifest: Seq<u8>,
    tree: Seq<u8>,
    sketch: Seq<u8>,
    expected_dim: usize,
    expected: IdentityView,
)
    ensures
        opened(entries, pointer, manifest, tree, sketch, expected_dim, expected) matches Ok(m) ==> {
            &&& digest::sha256(tree) == m.tree_sha256
            &&& digest::sha256(sketch) == m.sketch_sha256
            &&& decoded_pointer(pointer) is Ok
            &&& decoded_pointer(pointer)->Ok_0.manifest_sha256 == digest::sha256(manifest)
            &&& current_of(entries) == Ok::<_, error::ErrorView>(m.generation)
            &&& m.dim == expected_dim
            &&& m.fingerprint == expected
        },
{
}

/// The published generation is the highest that any entry publishes: it is one of theirs and none
/// is above it. There is none just where no entry publishes one.
pub proof fn law_latest_is_the_highest(entries: Seq<EntryView>)
    requires
        latest_published(entries) is Ok,
    ensures
        latest_published(entries)->Ok_0 matches Some(g) ==> exists|i: int|
            0 <= i < entries.len() && entry_generation(#[trigger] entries[i]) == Ok::<
                _,
                error::ErrorView,
            >(Some(g)),
        forall|i: int|
            0 <= i < entries.len() ==> entry_generation(#[trigger] entries[i]) is Ok && (
            entry_generation(entries[i])->Ok_0 matches Some(h) ==> latest_published(entries)->Ok_0
                matches Some(g) && h <= g),
    decreases entries.len(),
{
    if entries.len() > 0 {
        let less = entries.drop_last();
        let last = entries.len() - 1;
        law_latest_is_the_highest(less);
        assert forall|i: int| 0 <= i < entries.len() implies entry_generation(#[trigger] entries[i])
            is Ok && (entry_generation(entries[i])->Ok_0 matches Some(h) ==> latest_published(
            entries,
        )->Ok_0 matches Some(g) && h <= g) by {
            if i < last {
                assert(less[i] == entries[i]);
            }
        }
        if let Some(g) = latest_published(entries)->Ok_0 {
            if entry_generation(entries[last]) == Ok::<_, error::ErrorView>(Some(g)) {
            } else {
                let i = choose|i: int|
                    0 <= i < less.len() && entry_generation(#[trigger] less[i]) == Ok::<
                        _,
                        error::ErrorView,
                    >(Some(g));
                assert(entries[i] == less[i]);
            }
        }
    }
}

/// The listing is refused just where some entry is, and with the error of the first such entry.
pub proof fn law_first_bad_entry_is_named(entries: Seq<EntryView>, i: int)
    requires
        0 <= i < entries.len(),
        entry_generation(entries[i]) is Err,
        forall|j: int| 0 <= j < i ==> entry_generation(#[trigger] entries[j]) is Ok,
    ensures
        latest_published(entries) == Err::<Option<u64>, _>(entry_generation(entries[i])->Err_0),
{
    let first = entries.take(i);
    lemma_entries_in_order(first);
    let more = entries.take(i + 1);
    assert(more.drop_last() =~= first);
    assert(more.last() == entries[i]);
    lemma_latest_error(entries, i + 1);
}

proof fn lemma_entries_in_order(entries: Seq<EntryView>)
    requires
        forall|j: int| 0 <= j < entries.len() ==> entry_generation(#[trigger] entries[j]) is Ok,
    ensures
        latest_published(entries) is Ok,
    decreases entries.len(),
{
    if entries.len() > 0 {
        let less = entries.drop_last();
        assert forall|j: int| 0 <= j < less.len() implies entry_generation(#[trigger] less[j])
            is Ok by {
            assert(less[j] == entries[j]);
        }
        lemma_entries_in_order(less);
        assert(entry_generation(entries[entries.len() - 1]) is Ok);
    }
}

/// A pointer file is read back from its name, a hidden name publishes nothing, and what is no file
/// is refused.
pub proof fn law_pointer_names(g: u64, name: Seq<char>, kind: EntryKind)
    ensures
        entry_generation(EntryView { name: Some(pointer_name(g)), kind: EntryKind::File }) == Ok::<
            _,
            error::ErrorView,
        >(Some(g)),
        name.len() > 0 && name[0] == '.' ==> entry_generation(EntryView { name: Some(name), kind })
            == Ok::<_, error::ErrorView>(None::<u64>),
        !(name.len() > 0 && name[0] == '.') && kind != EntryKind::File ==> entry_generation(
            EntryView { name: Some(name), kind },
        ) is Err,
        entry_generation(EntryView { name: None, kind }) is Err,
{
    let d = text::padded(g as nat, 20);
    let n = pointer_name(g);
    text::lemma_padded_20(g);
    reveal_strlit(".ptr");
    assert(text::is_digit(d[0]));
    assert(n[0] == d[0]);
    assert(n.skip(n.len() - 4) =~= ".ptr"@);
    assert(n.take(n.len() - 4) =~= d);
}

/// A field is in order: not empty and not too long.
pub open spec fn in_order(value: Seq<char>) -> bool {
    value.len() > 0 && encode_utf8(value).len() <= MAX_FINGERPRINT_BYTES
}

/// A fingerprint has no fault just where each of its fields is in order; a calibration may be
/// empty.
pub proof fn law_sound_fingerprints(f: IdentityView)
    ensures
        fingerprint_fault(f) is None <==> {
            &&& in_order(f.embedding)
            &&& in_order(f.projection)
            &&& in_order(f.quantization)
            &&& in_order(f.index)
            &&& in_order(f.scirust_revision)
            &&& f.calibration matches Some(c) ==> encode_utf8(c).len() <= MAX_FINGERPRINT_BYTES
        },
{
}

} // verus!
