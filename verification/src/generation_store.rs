//! Crash-safe generations of a hybrid store: the text manifest, the `CURRENT` pointer,
//! and the decisions of saving, opening and pruning.
//!
//! A hybrid store is two coupled indexes. They are written into one immutable
//! generation directory, both are hashed, and a small pointer publishes the whole, so
//! that a reader always opens one complete generation.
use crate::digest;
use crate::digest::hash_bytes;
use crate::error;
use crate::error::{ErrorKind, StoreError};
use crate::fileguard;
use crate::fileguard::string_from_utf8;
use crate::generation::only_digits;
use crate::generation_fingerprint;
use crate::generation_fingerprint::{GenerationFingerprint, IdentityView};
use crate::record;
use crate::text;
use crate::text::{
    chars_of, join_lines, parse_unsigned, push_decimal, push_padded, split_lines, strip_prefix,
    text_equal,
};
use vstd::prelude::*;
use vstd::relations::*;
use vstd::seq_lib::*;
use vstd::string::*;
use vstd::utf8::*;

verus! {

pub const MANIFEST_MAGIC_V1: &'static str = "OCTASOMA-HYBRID-GENERATION-V1";

pub const MANIFEST_MAGIC_V2: &'static str = "OCTASOMA-HYBRID-GENERATION-V2";

pub const CURRENT_MAGIC: &'static str = "OCTASOMA-HYBRID-CURRENT-V1";

pub const TREE_FILE: &'static str = "tree.frac";

pub const SKETCH_FILE: &'static str = "index.skch";

pub const MANIFEST_FILE: &'static str = "MANIFEST";

pub const CURRENT_FILE: &'static str = "CURRENT";

/// The longest manifest that is read.
pub const MAX_MANIFEST_BYTES: u64 = 16384;

/// The longest pointer that is read.
pub const MAX_CURRENT_BYTES: u64 = 512;

/// The manifest of a hybrid generation.
#[derive(Debug)]
pub struct Manifest {
    pub generation: u64,
    pub dim: usize,
    pub items: usize,
    pub default_shortlist: usize,
    pub octasoma_version: String,
    pub fingerprint: Option<GenerationFingerprint>,
    pub tree_sha256: String,
    pub sketch_sha256: String,
}

/// The value of a [`Manifest`] in specifications.
#[verifier::ext_equal]
pub struct ManifestView {
    pub generation: u64,
    pub dim: usize,
    pub items: usize,
    pub default_shortlist: usize,
    pub octasoma_version: Seq<char>,
    pub fingerprint: Option<IdentityView>,
    pub tree_sha256: Seq<char>,
    pub sketch_sha256: Seq<char>,
}

/// The value of an optional fingerprint.
pub open spec fn optional_identity(f: Option<GenerationFingerprint>) -> Option<IdentityView> {
    match f {
        Some(f) => Some(f@),
        None => None,
    }
}

/// The value of an optional reference to a fingerprint.
pub open spec fn optional_identity_ref(f: Option<&GenerationFingerprint>) -> Option<IdentityView> {
    match f {
        Some(f) => Some(f@),
        None => None,
    }
}

impl View for Manifest {
    type V = ManifestView;

    open spec fn view(&self) -> ManifestView {
        ManifestView {
            generation: self.generation,
            dim: self.dim,
            items: self.items,
            default_shortlist: self.default_shortlist,
            octasoma_version: self.octasoma_version@,
            fingerprint: optional_identity(self.fingerprint),
            tree_sha256: self.tree_sha256@,
            sketch_sha256: self.sketch_sha256@,
        }
    }
}

// ---- generation names ----

/// The directory name of a generation.
pub open spec fn name_of(generation: u64) -> Seq<char> {
    "generation-"@ + text::padded(generation as nat, 20)
}

/// The generation that a directory name denotes.
pub open spec fn generation_of(name: Seq<char>) -> Option<u64> {
    match text::stripped(name, "generation-"@) {
        None => None,
        Some(d) => if d.len() == 20 && text::all_digits(d) && text::digits_value(d) <= u64::MAX {
            Some(text::digits_value(d) as u64)
        } else {
            None
        },
    }
}

/// The directory name of a generation.
pub fn generation_name(generation: u64) -> (s: String)
    ensures
        s@ == name_of(generation),
{
    let mut s = "generation-".to_owned();
    push_padded(&mut s, generation, 20);
    s
}

/// The generation that a directory name denotes.
pub fn parse_generation_name(name: &str) -> (r: Option<u64>)
    ensures
        r == generation_of(name@),
{
    match strip_prefix(name, "generation-") {
        None => None,
        Some(digits) => {
            let d = chars_of(&digits);
            if d.len() != 20 || !only_digits(&d) {
                return None;
            }
            assert(text::is_digit(d@[0]));
            parse_unsigned(&digits, u64::MAX)
        },
    }
}

/// The name of a generation denotes that generation, and different generations have
/// different names.
pub proof fn law_generation_names(a: u64, b: u64)
    ensures
        generation_of(name_of(a)) == Some(a),
        name_of(a) == name_of(b) ==> a == b,
{
    text::lemma_padded_20(a);
    text::lemma_padded_20(b);
    text::lemma_stripped("generation-"@, text::padded(a as nat, 20));
    text::lemma_stripped("generation-"@, text::padded(b as nat, 20));
}

/// The highest generation among directory names.
pub open spec fn highest_of(names: Seq<Seq<char>>) -> Option<u64>
    decreases names.len(),
{
    if names.len() == 0 {
        None
    } else {
        crate::generation::later(highest_of(names.drop_last()), generation_of(names.last()))
    }
}

/// Finds the highest generation among directory names.
pub fn highest_generation(names: &[String]) -> (r: Option<u64>)
    ensures
        r == highest_of(text::text_views(names@)),
{
    let ghost all = text::text_views(names@);
    let mut highest: Option<u64> = None;
    let mut i: usize = 0;
    assert(all.take(0) =~= Seq::empty());
    while i < names.len()
        invariant
            i <= names@.len(),
            all == text::text_views(names@),
            highest == highest_of(all.take(i as int)),
        decreases names@.len() - i,
    {
        proof {
            assert(all.take(i + 1).drop_last() =~= all.take(i as int));
            assert(all.take(i + 1).last() == all[i as int]);
        }
        highest = match (highest, parse_generation_name(&names[i])) {
            (Some(x), Some(y)) => Some(if x >= y {
                x
            } else {
                y
            }),
            (Some(x), None) => Some(x),
            (None, y) => y,
        };
        i += 1;
    }
    assert(all.take(i as int) =~= all);
    highest
}

/// The number that the next save uses: one past the highest.
pub open spec fn next_of(names: Seq<Seq<char>>) -> Result<u64, error::ErrorView> {
    let highest = match highest_of(names) {
        Some(g) => g,
        None => 0,
    };
    if highest == u64::MAX {
        Err(error::invalid_data("hybrid generation counter overflow"@))
    } else {
        Ok((highest + 1) as u64)
    }
}

/// Chooses the number that the next save uses.
pub fn next_generation(names: &[String]) -> (r: Result<u64, StoreError>)
    ensures
        match r {
            Ok(g) => next_of(text::text_views(names@)) == Ok::<_, error::ErrorView>(g),
            Err(e) => next_of(text::text_views(names@)) == Err::<u64, _>(e@),
        },
{
    let highest: u64 = match highest_generation(names) {
        Some(g) => g,
        None => 0,
    };
    if highest == u64::MAX {
        return Err(StoreError::invalid("hybrid generation counter overflow"));
    }
    Ok(highest + 1)
}

proof fn lemma_highest(names: Seq<Seq<char>>, i: int)
    requires
        0 <= i < names.len(),
        generation_of(names[i]) is Some,
    ensures
        highest_of(names) is Some,
        generation_of(names[i])->0 <= highest_of(names)->0,
    decreases names.len(),
{
    if i < names.len() - 1 {
        assert(names.drop_last()[i] == names[i]);
        lemma_highest(names.drop_last(), i);
    }
}

/// A save never reuses a generation that a directory name shows.
pub proof fn law_next_generation_is_new(names: Seq<Seq<char>>, i: int)
    requires
        0 <= i < names.len(),
        next_of(names) is Ok,
    ensures
        generation_of(names[i]) matches Some(g) ==> g < next_of(names)->Ok_0,
        name_of(next_of(names)->Ok_0) != names[i],
{
    if generation_of(names[i]) is Some {
        lemma_highest(names, i);
    }
    law_generation_names(next_of(names)->Ok_0, 0);
}

// ---- the manifest ----

/// The lines of a manifest.
pub open spec fn manifest_lines(m: ManifestView) -> Seq<Seq<char>> {
    match m.fingerprint {
        Some(f) => seq![
            MANIFEST_MAGIC_V2@,
            "generation="@ + text::decimal(m.generation as nat),
            "dim="@ + text::decimal(m.dim as nat),
            "items="@ + text::decimal(m.items as nat),
            "default_shortlist="@ + text::decimal(m.default_shortlist as nat),
            "octasoma_version="@ + m.octasoma_version,
            "embedding="@ + f.embedding,
            "projection="@ + f.projection,
            "quantization="@ + f.quantization,
            "index="@ + f.index,
            "scirust_revision="@ + f.scirust_revision,
            "calibration_present="@ + text::decimal(
                if f.calibration is Some {
                    1
                } else {
                    0
                },
            ),
            "calibration="@ + calibration_text(f.calibration),
            "tree_sha256="@ + m.tree_sha256,
            "sketch_sha256="@ + m.sketch_sha256,
        ],
        None => seq![
            MANIFEST_MAGIC_V1@,
            "generation="@ + text::decimal(m.generation as nat),
            "dim="@ + text::decimal(m.dim as nat),
            "items="@ + text::decimal(m.items as nat),
            "default_shortlist="@ + text::decimal(m.default_shortlist as nat),
            "octasoma_version="@ + m.octasoma_version,
            "tree_sha256="@ + m.tree_sha256,
            "sketch_sha256="@ + m.sketch_sha256,
        ],
    }
}

/// The calibration, or nothing.
pub open spec fn calibration_text(c: Option<Seq<char>>) -> Seq<char> {
    match c {
        Some(c) => c,
        None => Seq::empty(),
    }
}

/// The text of a manifest.
pub open spec fn manifest_text(m: ManifestView) -> Seq<char> {
    text::below_each_other(manifest_lines(m))
}

fn number_line(prefix: &str, n: u64) -> (s: String)
    ensures
        s@ == prefix@ + text::decimal(n as nat),
{
    let mut s = prefix.to_owned();
    push_decimal(&mut s, n as u128);
    s
}

fn text_line(prefix: &str, value: &str) -> (s: String)
    ensures
        s@ == prefix@ + value@,
{
    let mut s = prefix.to_owned();
    s.append(value);
    s
}

/// Writes a manifest.
pub fn encode_manifest(m: &Manifest) -> (s: String)
    ensures
        s@ == manifest_text(m@),
{
    let mut ls: Vec<String> = Vec::new();
    match &m.fingerprint {
        Some(_) => {
            ls.push(MANIFEST_MAGIC_V2.to_owned());
        },
        None => {
            ls.push(MANIFEST_MAGIC_V1.to_owned());
        },
    }
    ls.push(number_line("generation=", m.generation));
    ls.push(number_line("dim=", m.dim as u64));
    ls.push(number_line("items=", m.items as u64));
    ls.push(number_line("default_shortlist=", m.default_shortlist as u64));
    ls.push(text_line("octasoma_version=", &m.octasoma_version));
    match &m.fingerprint {
        Some(f) => {
            ls.push(text_line("embedding=", &f.embedding));
            ls.push(text_line("projection=", &f.projection));
            ls.push(text_line("quantization=", &f.quantization));
            ls.push(text_line("index=", &f.index));
            ls.push(text_line("scirust_revision=", &f.scirust_revision));
            match &f.calibration {
                Some(c) => {
                    ls.push(number_line("calibration_present=", 1));
                    ls.push(text_line("calibration=", c));
                },
                None => {
                    ls.push(number_line("calibration_present=", 0));
                    let empty = String::new();
                    ls.push(text_line("calibration=", &empty));
                },
            }
        },
        None => {},
    }
    ls.push(text_line("tree_sha256=", &m.tree_sha256));
    ls.push(text_line("sketch_sha256=", &m.sketch_sha256));
    assert(text::text_views(ls@) =~= manifest_lines(m@));
    join_lines(&ls)
}

/// The value of a field, which must be there and must not be empty.
pub open spec fn field_value(line: Seq<char>, prefix: Seq<char>) -> Result<
    Seq<char>,
    error::ErrorView,
> {
    match text::stripped(line, prefix) {
        None => Err(error::invalid_data("missing MANIFEST/CURRENT field "@ + prefix)),
        Some(v) => if v.len() == 0 {
            Err(error::invalid_data("empty MANIFEST/CURRENT field "@ + prefix))
        } else {
            Ok(v)
        },
    }
}

/// The number of a field.
pub open spec fn field_number(line: Seq<char>, prefix: Seq<char>, max: nat) -> Result<
    nat,
    error::ErrorView,
> {
    match field_value(line, prefix) {
        Err(e) => Err(e),
        Ok(v) => match text::unsigned_value(v, max) {
            None => Err(error::invalid_data("invalid numeric MANIFEST field "@ + prefix)),
            Some(n) => Ok(n),
        },
    }
}

/// A SHA-256 digest in lower-case hexadecimal.
pub open spec fn is_hash(v: Seq<char>) -> bool {
    v.len() == 64 && forall|i: int| 0 <= i < v.len() ==> digest::is_hex(#[trigger] v[i])
}

/// The digest of a field.
pub open spec fn field_hash(line: Seq<char>, prefix: Seq<char>) -> Result<
    Seq<char>,
    error::ErrorView,
> {
    match field_value(line, prefix) {
        Err(e) => Err(e),
        Ok(v) => if is_hash(v) {
            Ok(v)
        } else {
            Err(error::invalid_data("invalid SHA-256 field "@ + prefix))
        },
    }
}

fn prefixed(message: &str, prefix: &str) -> (e: StoreError)
    ensures
        e@ == error::invalid_data(message@ + prefix@),
{
    let mut m = message.to_owned();
    m.append(prefix);
    StoreError::new(ErrorKind::InvalidData, m)
}

/// Reads the value of a field.
pub fn required_value(line: &str, prefix: &str) -> (r: Result<String, StoreError>)
    ensures
        match r {
            Ok(v) => field_value(line@, prefix@) == Ok::<_, error::ErrorView>(v@),
            Err(e) => field_value(line@, prefix@) == Err::<Seq<char>, _>(e@),
        },
{
    match strip_prefix(line, prefix) {
        None => Err(prefixed("missing MANIFEST/CURRENT field ", prefix)),
        Some(v) => {
            if v.as_str().is_empty() {
                return Err(prefixed("empty MANIFEST/CURRENT field ", prefix));
            }
            Ok(v)
        },
    }
}

/// Reads the number of a field.
pub fn parse_number(line: &str, prefix: &str, max: u64) -> (r: Result<u64, StoreError>)
    ensures
        match r {
            Ok(n) => field_number(line@, prefix@, max as nat) == Ok::<_, error::ErrorView>(
                n as nat,
            ),
            Err(e) => field_number(line@, prefix@, max as nat) == Err::<nat, _>(e@),
        },
{
    let v = required_value(line, prefix)?;
    match parse_unsigned(&v, max) {
        Some(n) => Ok(n),
        None => Err(prefixed("invalid numeric MANIFEST field ", prefix)),
    }
}

/// Reads the digest of a field.
pub fn parse_hash(line: &str, prefix: &str) -> (r: Result<String, StoreError>)
    ensures
        match r {
            Ok(v) => field_hash(line@, prefix@) == Ok::<_, error::ErrorView>(v@),
            Err(e) => field_hash(line@, prefix@) == Err::<Seq<char>, _>(e@),
        },
{
    let v = required_value(line, prefix)?;
    let c = chars_of(&v);
    if c.len() != 64 {
        return Err(prefixed("invalid SHA-256 field ", prefix));
    }
    let mut i: usize = 0;
    while i < 64
        invariant
            i <= 64,
            c@.len() == 64,
            c@ == v@,
            field_value(line@, prefix@) == Ok::<_, error::ErrorView>(v@),
            forall|j: int| 0 <= j < i ==> digest::is_hex(#[trigger] v@[j]),
        decreases 64 - i,
    {
        let x = c[i];
        if !((x >= '0' && x <= '9') || (x >= 'a' && x <= 'f')) {
            assert(!digest::is_hex(v@[i as int]));
            return Err(prefixed("invalid SHA-256 field ", prefix));
        }
        i += 1;
    }
    Ok(v)
}

/// The four counters of a manifest.
#[verifier::ext_equal]
pub struct CountersView {
    pub generation: u64,
    pub dim: usize,
    pub items: usize,
    pub default_shortlist: usize,
}

struct Counters {
    generation: u64,
    dim: usize,
    items: usize,
    default_shortlist: usize,
}

impl View for Counters {
    type V = CountersView;

    closed spec fn view(&self) -> CountersView {
        CountersView {
            generation: self.generation,
            dim: self.dim,
            items: self.items,
            default_shortlist: self.default_shortlist,
        }
    }
}

/// Reads the four counters from lines 1 to 4.
#[verifier::opaque]
pub open spec fn counters_of(ls: Seq<Seq<char>>) -> Result<CountersView, error::ErrorView> {
    match field_number(ls[1], "generation="@, u64::MAX as nat) {
        Err(e) => Err(e),
        Ok(generation) => match field_number(ls[2], "dim="@, usize::MAX as nat) {
            Err(e) => Err(e),
            Ok(dim) => match field_number(ls[3], "items="@, usize::MAX as nat) {
                Err(e) => Err(e),
                Ok(items) => match field_number(
                    ls[4],
                    "default_shortlist="@,
                    usize::MAX as nat,
                ) {
                    Err(e) => Err(e),
                    Ok(default_shortlist) => if default_shortlist == 0 {
                        Err(error::invalid_data("MANIFEST default_shortlist must be non-zero"@))
                    } else {
                        Ok(
                            CountersView {
                                generation: generation as u64,
                                dim: dim as usize,
                                items: items as usize,
                                default_shortlist: default_shortlist as usize,
                            },
                        )
                    },
                },
            },
        },
    }
}

fn read_counters(ls: &Vec<String>) -> (r: Result<Counters, StoreError>)
    requires
        ls@.len() >= 5,
    ensures
        match r {
            Ok(c) => counters_of(text::text_views(ls@)) == Ok::<_, error::ErrorView>(c@),
            Err(e) => counters_of(text::text_views(ls@)) == Err::<CountersView, _>(e@),
        },
{
    proof {
        reveal(counters_of);
    }
    let generation: u64 = parse_number(&ls[1], "generation=", u64::MAX)?;
    let dim: u64 = parse_number(&ls[2], "dim=", usize::MAX as u64)?;
    let items: u64 = parse_number(&ls[3], "items=", usize::MAX as u64)?;
    let default_shortlist: u64 = parse_number(&ls[4], "default_shortlist=", usize::MAX as u64)?;
    if default_shortlist == 0 {
        return Err(StoreError::invalid("MANIFEST default_shortlist must be non-zero"));
    }
    Ok(
        Counters {
            generation,
            dim: dim as usize,
            items: items as usize,
            default_shortlist: default_shortlist as usize,
        },
    )
}

/// Reads version and digests from the given lines and completes a manifest.
#[verifier::opaque]
pub open spec fn completed(
    c: CountersView,
    fingerprint: Option<IdentityView>,
    version: Seq<char>,
    tree: Seq<char>,
    sketch: Seq<char>,
) -> Result<ManifestView, error::ErrorView> {
    match field_value(version, "octasoma_version="@) {
        Err(e) => Err(e),
        Ok(octasoma_version) => match field_hash(tree, "tree_sha256="@) {
            Err(e) => Err(e),
            Ok(tree_sha256) => match field_hash(sketch, "sketch_sha256="@) {
                Err(e) => Err(e),
                Ok(sketch_sha256) => Ok(
                    ManifestView {
                        generation: c.generation,
                        dim: c.dim,
                        items: c.items,
                        default_shortlist: c.default_shortlist,
                        octasoma_version,
                        fingerprint,
                        tree_sha256,
                        sketch_sha256,
                    },
                ),
            },
        },
    }
}

fn complete(
    c: Counters,
    fingerprint: Option<GenerationFingerprint>,
    version: &str,
    tree: &str,
    sketch: &str,
) -> (r: Result<Manifest, StoreError>)
    ensures
        match r {
            Ok(m) => completed(
                c@,
                optional_identity(fingerprint),
                version@,
                tree@,
                sketch@,
            ) == Ok::<_, error::ErrorView>(m@),
            Err(e) => completed(
                c@,
                optional_identity(fingerprint),
                version@,
                tree@,
                sketch@,
            ) == Err::<ManifestView, _>(e@),
        },
{
    proof {
        reveal(completed);
    }
    let octasoma_version = required_value(version, "octasoma_version=")?;
    let tree_sha256 = parse_hash(tree, "tree_sha256=")?;
    let sketch_sha256 = parse_hash(sketch, "sketch_sha256=")?;
    Ok(
        Manifest {
            generation: c.generation,
            dim: c.dim,
            items: c.items,
            default_shortlist: c.default_shortlist,
            octasoma_version,
            fingerprint,
            tree_sha256,
            sketch_sha256,
        },
    )
}

/// What the eight lines of the first version say.
pub open spec fn manifest_v1(ls: Seq<Seq<char>>) -> Result<ManifestView, error::ErrorView> {
    if ls.len() != 8 {
        Err(error::invalid_data("invalid v1 hybrid generation MANIFEST field count"@))
    } else {
        match counters_of(ls) {
            Err(e) => Err(e),
            Ok(c) => completed(c, None, ls[5], ls[6], ls[7]),
        }
    }
}

/// Reads the calibration from its flag and its value.
#[verifier::opaque]
pub open spec fn calibration_of(flag: Seq<char>, value: Seq<char>) -> Result<
    Option<Seq<char>>,
    error::ErrorView,
> {
    match field_number(flag, "calibration_present="@, u8::MAX as nat) {
        Err(e) => Err(e),
        Ok(present) => match text::stripped(value, "calibration="@) {
            None => Err(error::invalid_data("missing MANIFEST field calibration="@)),
            Some(raw) => if present == 0 && raw.len() == 0 {
                Ok(None)
            } else if present == 1 && raw.len() > 0 {
                Ok(Some(raw))
            } else if present == 0 {
                Err(
                    error::invalid_data("calibration value present while calibration_present=0"@),
                )
            } else if present == 1 {
                Err(error::invalid_data("calibration_present=1 but calibration is empty"@))
            } else {
                Err(error::invalid_data("calibration_present must be 0 or 1"@))
            },
        },
    }
}

/// Reads the fingerprint from lines 6 to 10 and the calibration, and checks it.
#[verifier::opaque]
pub open spec fn identity_of(ls: Seq<Seq<char>>, calibration: Option<Seq<char>>) -> Result<
    IdentityView,
    error::ErrorView,
> {
    match field_value(ls[6], "embedding="@) {
        Err(e) => Err(e),
        Ok(embedding) => match field_value(ls[7], "projection="@) {
            Err(e) => Err(e),
            Ok(projection) => match field_value(ls[8], "quantization="@) {
                Err(e) => Err(e),
                Ok(quantization) => match field_value(ls[9], "index="@) {
                    Err(e) => Err(e),
                    Ok(index) => match field_value(ls[10], "scirust_revision="@) {
                        Err(e) => Err(e),
                        Ok(scirust_revision) => {
                            let f = IdentityView {
                                embedding,
                                projection,
                                quantization,
                                index,
                                scirust_revision,
                                calibration,
                            };
                            match generation_fingerprint::identity_fault(f) {
                                Some(e) => Err(
                                    error::invalid_data(
                                        "invalid persisted generation fingerprint: "@ + e.message,
                                    ),
                                ),
                                None => Ok(f),
                            }
                        },
                    },
                },
            },
        },
    }
}

/// What the fifteen lines of the second version say.
pub open spec fn manifest_v2(ls: Seq<Seq<char>>) -> Result<ManifestView, error::ErrorView> {
    if ls.len() != 15 {
        Err(error::invalid_data("invalid v2 hybrid generation MANIFEST field count"@))
    } else {
        match counters_of(ls) {
            Err(e) => Err(e),
            Ok(c) => match calibration_of(ls[11], ls[12]) {
                Err(e) => Err(e),
                Ok(calibration) => match identity_of(ls, calibration) {
                    Err(e) => Err(e),
                    Ok(f) => completed(c, Some(f), ls[5], ls[13], ls[14]),
                },
            },
        }
    }
}

/// What the lines of a manifest say.
pub open spec fn manifest_of_lines(ls: Seq<Seq<char>>) -> Result<ManifestView, error::ErrorView> {
    if ls.len() > 0 && ls[0] == MANIFEST_MAGIC_V1@ {
        manifest_v1(ls)
    } else if ls.len() > 0 && ls[0] == MANIFEST_MAGIC_V2@ {
        manifest_v2(ls)
    } else {
        Err(error::invalid_data("invalid hybrid generation MANIFEST magic"@))
    }
}

/// What a manifest says.
pub open spec fn parsed_manifest(raw: Seq<char>) -> Result<ManifestView, error::ErrorView> {
    manifest_of_lines(text::lines(raw))
}

/// Whether the outcome of reading a manifest agrees with its specification.
pub open spec fn reads(
    r: Result<Manifest, StoreError>,
    spec: Result<ManifestView, error::ErrorView>,
) -> bool {
    match r {
        Ok(m) => spec == Ok::<_, error::ErrorView>(m@),
        Err(e) => spec == Err::<ManifestView, _>(e@),
    }
}

/// Reads the eight lines of the first version.
pub fn parse_manifest_v1(ls: &Vec<String>) -> (r: Result<Manifest, StoreError>)
    ensures
        reads(r, manifest_v1(text::text_views(ls@))),
{
    if ls.len() != 8 {
        return Err(StoreError::invalid("invalid v1 hybrid generation MANIFEST field count"));
    }
    let c = read_counters(ls)?;
    complete(c, None, &ls[5], &ls[6], &ls[7])
}

fn read_calibration(flag: &str, value: &str) -> (r: Result<Option<String>, StoreError>)
    ensures
        match r {
            Ok(c) => calibration_of(flag@, value@) == Ok::<_, error::ErrorView>(
                record::optional_text(c),
            ),
            Err(e) => calibration_of(flag@, value@) == Err::<Option<Seq<char>>, _>(e@),
        },
{
    proof {
        reveal(calibration_of);
    }
    let present: u64 = parse_number(flag, "calibration_present=", 255)?;
    let raw = match strip_prefix(value, "calibration=") {
        Some(raw) => raw,
        None => return Err(StoreError::invalid("missing MANIFEST field calibration=")),
    };
    let empty = raw.as_str().is_empty();
    if present == 0 && empty {
        Ok(None)
    } else if present == 1 && !empty {
        Ok(Some(raw))
    } else if present == 0 {
        Err(StoreError::invalid("calibration value present while calibration_present=0"))
    } else if present == 1 {
        Err(StoreError::invalid("calibration_present=1 but calibration is empty"))
    } else {
        Err(StoreError::invalid("calibration_present must be 0 or 1"))
    }
}

fn read_identity(ls: &Vec<String>, calibration: Option<String>) -> (r: Result<
    GenerationFingerprint,
    StoreError,
>)
    requires
        ls@.len() >= 11,
    ensures
        match r {
            Ok(f) => identity_of(
                text::text_views(ls@),
                record::optional_text(calibration),
            ) == Ok::<_, error::ErrorView>(f@),
            Err(e) => identity_of(
                text::text_views(ls@),
                record::optional_text(calibration),
            ) == Err::<IdentityView, _>(e@),
        },
{
    proof {
        reveal(identity_of);
    }
    let embedding = required_value(&ls[6], "embedding=")?;
    let projection = required_value(&ls[7], "projection=")?;
    let quantization = required_value(&ls[8], "quantization=")?;
    let index = required_value(&ls[9], "index=")?;
    let scirust_revision = required_value(&ls[10], "scirust_revision=")?;
    let f = GenerationFingerprint {
        embedding,
        projection,
        quantization,
        index,
        scirust_revision,
        calibration,
    };
    match f.validate() {
        Ok(_) => Ok(f),
        Err(e) => Err(prefixed("invalid persisted generation fingerprint: ", e.message())),
    }
}

/// Reads the fifteen lines of the second version.
pub fn parse_manifest_v2(ls: &Vec<String>) -> (r: Result<Manifest, StoreError>)
    ensures
        reads(r, manifest_v2(text::text_views(ls@))),
{
    if ls.len() != 15 {
        return Err(StoreError::invalid("invalid v2 hybrid generation MANIFEST field count"));
    }
    let c = read_counters(ls)?;
    let calibration = read_calibration(&ls[11], &ls[12])?;
    let f = read_identity(ls, calibration)?;
    complete(c, Some(f), &ls[5], &ls[13], &ls[14])
}

/// Reads a manifest of either version.
pub fn parse_manifest(raw: &str) -> (r: Result<Manifest, StoreError>)
    ensures
        reads(r, parsed_manifest(raw@)),
{
    let ls = split_lines(raw);
    if ls.len() > 0 && text_equal(&ls[0], MANIFEST_MAGIC_V1) {
        parse_manifest_v1(&ls)
    } else if ls.len() > 0 && text_equal(&ls[0], MANIFEST_MAGIC_V2) {
        parse_manifest_v2(&ls)
    } else {
        Err(StoreError::invalid("invalid hybrid generation MANIFEST magic"))
    }
}

// ---- the pointer ----

/// The text of the pointer.
pub open spec fn current_text(name: Seq<char>, manifest_sha256: Seq<char>) -> Seq<char> {
    text::below_each_other(
        seq![
            CURRENT_MAGIC@,
            "generation="@ + name,
            "manifest_sha256="@ + manifest_sha256,
        ],
    )
}

/// Writes the pointer.
pub fn encode_current(name: &str, manifest_sha256: &str) -> (s: String)
    ensures
        s@ == current_text(name@, manifest_sha256@),
{
    let mut ls: Vec<String> = Vec::new();
    ls.push(CURRENT_MAGIC.to_owned());
    ls.push(text_line("generation=", name));
    ls.push(text_line("manifest_sha256=", manifest_sha256));
    assert(text::text_views(ls@) =~= seq![
        CURRENT_MAGIC@,
        "generation="@ + name@,
        "manifest_sha256="@ + manifest_sha256@,
    ]);
    join_lines(&ls)
}

/// What a pointer says: the generation's name and the digest of its manifest.
pub open spec fn parsed_current(raw: Seq<char>) -> Result<
    (Seq<char>, Seq<char>),
    error::ErrorView,
> {
    let ls = text::lines(raw);
    if ls.len() != 3 || ls[0] != CURRENT_MAGIC@ {
        Err(error::invalid_data("invalid hybrid CURRENT header/field count"@))
    } else {
        match field_value(ls[1], "generation="@) {
            Err(e) => Err(e),
            Ok(name) => if generation_of(name) is None {
                Err(error::invalid_data("CURRENT contains an invalid generation name"@))
            } else {
                match field_hash(ls[2], "manifest_sha256="@) {
                    Err(e) => Err(e),
                    Ok(hash) => Ok((name, hash)),
                }
            },
        }
    }
}

/// Reads a pointer.
pub fn parse_current(raw: &str) -> (r: Result<(String, String), StoreError>)
    ensures
        match r {
            Ok((name, hash)) => parsed_current(raw@) == Ok::<_, error::ErrorView>((name@, hash@)),
            Err(e) => parsed_current(raw@) == Err::<(Seq<char>, Seq<char>), _>(e@),
        },
{
    let ls = split_lines(raw);
    if ls.len() != 3 || !text_equal(&ls[0], CURRENT_MAGIC) {
        return Err(StoreError::invalid("invalid hybrid CURRENT header/field count"));
    }
    let name = required_value(&ls[1], "generation=")?;
    if parse_generation_name(&name).is_none() {
        return Err(StoreError::invalid("CURRENT contains an invalid generation name"));
    }
    let hash = parse_hash(&ls[2], "manifest_sha256=")?;
    Ok((name, hash))
}

/// What the bytes of a small file say, where it is short enough and UTF-8.
pub open spec fn small_text_of(bytes: Seq<u8>, max: u64, what: Seq<char>) -> Result<
    Seq<char>,
    error::ErrorView,
> {
    if bytes.len() > max {
        Err(
            error::invalid_data(
                what + " is "@ + text::decimal(bytes.len()) + " bytes, above the "@ + text::decimal(
                    max as nat,
                ) + "-byte limit"@,
            ),
        )
    } else if !valid_utf8(bytes) {
        Err(error::invalid_data(what + " is not valid UTF-8"@))
    } else {
        Ok(decode_utf8(bytes))
    }
}

/// Checks the length that a file system reports for a small file.
pub fn check_small_size(len: u64, max: u64, what: &str) -> (r: Result<(), StoreError>)
    ensures
        r is Ok <==> len <= max,
        r matches Err(e) ==> e@ == error::invalid_data(
            what@ + " is "@ + text::decimal(len as nat) + " bytes, above the "@ + text::decimal(
                max as nat,
            ) + "-byte limit"@,
        ),
{
    if len > max {
        let mut m = what.to_owned();
        m.append(" is ");
        push_decimal(&mut m, len as u128);
        m.append(" bytes, above the ");
        push_decimal(&mut m, max as u128);
        m.append("-byte limit");
        return Err(StoreError::new(ErrorKind::InvalidData, m));
    }
    Ok(())
}

/// Reads the bytes of a small file as a text.
pub fn read_small_text(bytes: Vec<u8>, max: u64, what: &str) -> (r: Result<String, StoreError>)
    ensures
        match r {
            Ok(s) => small_text_of(bytes@, max, what@) == Ok::<_, error::ErrorView>(s@),
            Err(e) => small_text_of(bytes@, max, what@) == Err::<Seq<char>, _>(e@),
        },
{
    check_small_size(bytes.len() as u64, max, what)?;
    match string_from_utf8(bytes) {
        Ok(s) => Ok(s),
        Err(_) => {
            let mut m = what.to_owned();
            m.append(" is not valid UTF-8");
            Err(StoreError::new(ErrorKind::InvalidData, m))
        },
    }
}


// ---- saving ----

/// What is to be written for a new generation, in this order: the components and the
/// manifest under the name, then the pointer.
#[derive(Debug)]
pub struct Publication {
    pub manifest: Manifest,
    pub name: String,
    pub manifest_text: String,
    pub current: String,
}

/// The manifest that binds two components.
pub open spec fn sealed(
    generation: u64,
    dim: usize,
    items: usize,
    default_shortlist: usize,
    version: Seq<char>,
    fingerprint: Option<IdentityView>,
    tree: Seq<u8>,
    sketch: Seq<u8>,
) -> ManifestView {
    ManifestView {
        generation,
        dim,
        items,
        default_shortlist,
        octasoma_version: version,
        fingerprint,
        tree_sha256: digest::hex(digest::sha256(tree)),
        sketch_sha256: digest::hex(digest::sha256(sketch)),
    }
}

/// The fault of an optional fingerprint.
pub open spec fn binding_fault(fingerprint: Option<IdentityView>) -> Option<error::ErrorView> {
    match fingerprint {
        Some(f) => generation_fingerprint::identity_fault(f),
        None => None,
    }
}

fn check_binding(fingerprint: Option<&GenerationFingerprint>) -> (r: Result<(), StoreError>)
    ensures
        generation_fingerprint::reports(r, binding_fault(optional_identity_ref(fingerprint))),
{
    match fingerprint {
        Some(f) => f.validate(),
        None => Ok(()),
    }
}

/// Prepares the next generation from the names in the store directory and the bytes of
/// the two components.
pub fn save(
    names: &[String],
    dim: usize,
    items: usize,
    default_shortlist: usize,
    version: &str,
    fingerprint: Option<&GenerationFingerprint>,
    tree: &[u8],
    sketch: &[u8],
) -> (r: Result<Publication, StoreError>)
    ensures
        match r {
            Ok(p) => {
                let m = sealed(
                    next_of(text::text_views(names@))->Ok_0,
                    dim,
                    items,
                    default_shortlist,
                    version@,
                    optional_identity_ref(fingerprint),
                    tree@,
                    sketch@,
                );
                &&& binding_fault(optional_identity_ref(fingerprint)) is None
                &&& next_of(text::text_views(names@)) is Ok
                &&& p.manifest@ == m
                &&& p.name@ == name_of(m.generation)
                &&& p.manifest_text@ == manifest_text(m)
                &&& p.current@ == current_text(
                    name_of(m.generation),
                    digest::hex(digest::sha256(encode_utf8(manifest_text(m)))),
                )
            },
            Err(e) => match binding_fault(optional_identity_ref(fingerprint)) {
                Some(x) => e@ == x,
                None => next_of(text::text_views(names@)) == Err::<u64, _>(e@),
            },
        },
{
    check_binding(fingerprint)?;
    let generation: u64 = next_generation(names)?;
    let bound = match fingerprint {
        Some(f) => Some(f.clone()),
        None => None,
    };
    let manifest = Manifest {
        generation,
        dim,
        items,
        default_shortlist,
        octasoma_version: version.to_owned(),
        fingerprint: bound,
        tree_sha256: hash_bytes(tree),
        sketch_sha256: hash_bytes(sketch),
    };
    let manifest_text = encode_manifest(&manifest);
    let manifest_sha256 = hash_bytes(manifest_text.as_str().as_bytes());
    let name = generation_name(generation);
    let current = encode_current(&name, &manifest_sha256);
    Ok(Publication { manifest, name, manifest_text, current })
}

// ---- opening ----

/// Where a store is opened from.
#[derive(Clone, Copy, Debug, PartialEq, Eq, Structural)]
pub enum OpenSource {
    /// The published pointer.
    Current,
    /// The pointer that a publication moved aside and did not replace.
    Previous,
    /// The two files of a store without generations.
    Legacy,
}

/// Chooses where to open from. A generation without a pointer is never promoted, and a
/// store without identity is refused where one is demanded.
pub open spec fn source_of(
    current: bool,
    previous: bool,
    names: Seq<Seq<char>>,
    strict: bool,
) -> Result<OpenSource, error::ErrorView> {
    if current {
        Ok(OpenSource::Current)
    } else if previous {
        Ok(OpenSource::Previous)
    } else if highest_of(names) is Some {
        Err(
            error::invalid_data(
                "hybrid generation exists but no published CURRENT pointer is present"@,
            ),
        )
    } else if strict {
        Err(
            error::invalid_data(
                "strict fingerprint open refuses a legacy store with no interpretation binding"@,
            ),
        )
    } else {
        Ok(OpenSource::Legacy)
    }
}

/// Chooses where to open from.
pub fn open_source(current: bool, previous: bool, names: &[String], strict: bool) -> (r: Result<
    OpenSource,
    StoreError,
>)
    ensures
        match r {
            Ok(x) => source_of(current, previous, text::text_views(names@), strict) == Ok::<
                _,
                error::ErrorView,
            >(x),
            Err(e) => source_of(current, previous, text::text_views(names@), strict) == Err::<
                OpenSource,
                _,
            >(e@),
        },
{
    if current {
        return Ok(OpenSource::Current);
    }
    if previous {
        return Ok(OpenSource::Previous);
    }
    if highest_generation(names).is_some() {
        return Err(
            StoreError::invalid(
                "hybrid generation exists but no published CURRENT pointer is present",
            ),
        );
    }
    if strict {
        return Err(
            StoreError::invalid(
                "strict fingerprint open refuses a legacy store with no interpretation binding",
            ),
        );
    }
    Ok(OpenSource::Legacy)
}

/// The manifest of a published generation, held against its name, the pointer's digest,
/// the dimension and the expected fingerprint.
#[verifier::opaque]
pub open spec fn checked_generation(
    name: Seq<char>,
    raw: Seq<char>,
    dim: usize,
    expected_hash: Seq<char>,
    expected: Option<IdentityView>,
) -> Result<ManifestView, error::ErrorView> {
    match generation_of(name) {
        None => Err(
            error::invalid_data("invalid hybrid generation name "@ + fileguard::debug_form(name)),
        ),
        Some(generation) => if digest::hex(digest::sha256(encode_utf8(raw))) != expected_hash {
            Err(error::invalid_data("CURRENT manifest hash does not match MANIFEST"@))
        } else {
            match parsed_manifest(raw) {
                Err(e) => Err(e),
                Ok(m) => if m.generation != generation {
                    Err(
                        error::invalid_data(
                            "generation directory and MANIFEST generation disagree"@,
                        ),
                    )
                } else if m.dim != dim {
                    Err(
                        error::invalid_input(
                            "hybrid store dimension mismatch: manifest "@ + text::decimal(
                                m.dim as nat,
                            ) + ", requested "@ + text::decimal(dim as nat),
                        ),
                    )
                } else {
                    match expected {
                        None => Ok(m),
                        Some(f) => match m.fingerprint {
                            None => Err(
                                error::invalid_data(
                                    "strict fingerprint open refuses an unbound generation"@,
                                ),
                            ),
                            Some(actual) => if actual != f {
                                Err(
                                    error::invalid_data(
                                        "hybrid generation interpretation fingerprint mismatch"@,
                                    ),
                                )
                            } else {
                                Ok(m)
                            },
                        },
                    }
                },
            }
        },
    }
}

/// Checks the manifest of a published generation before any component is read.
pub fn open_generation(
    name: &str,
    raw: &str,
    dim: usize,
    expected_hash: &str,
    expected: Option<&GenerationFingerprint>,
) -> (r: Result<Manifest, StoreError>)
    ensures
        reads(
            r,
            checked_generation(
                name@,
                raw@,
                dim,
                expected_hash@,
                optional_identity_ref(expected),
            ),
        ),
{
    proof {
        reveal(checked_generation);
    }
    let generation: u64 = match parse_generation_name(name) {
        Some(g) => g,
        None => {
            return Err(
                prefixed("invalid hybrid generation name ", &fileguard::debug_text(name)),
            );
        },
    };
    let actual = hash_bytes(raw.as_bytes());
    if !text_equal(&actual, expected_hash) {
        return Err(StoreError::invalid("CURRENT manifest hash does not match MANIFEST"));
    }
    let manifest = parse_manifest(raw)?;
    if manifest.generation != generation {
        return Err(
            StoreError::invalid("generation directory and MANIFEST generation disagree"),
        );
    }
    if manifest.dim != dim {
        let mut m = "hybrid store dimension mismatch: manifest ".to_owned();
        push_decimal(&mut m, manifest.dim as u128);
        m.append(", requested ");
        push_decimal(&mut m, dim as u128);
        return Err(StoreError::new(ErrorKind::InvalidInput, m));
    }
    match expected {
        None => {},
        Some(f) => match &manifest.fingerprint {
            None => {
                return Err(
                    StoreError::invalid("strict fingerprint open refuses an unbound generation"),
                );
            },
            Some(bound) => {
                if !bound.same_as(f) {
                    return Err(
                        StoreError::invalid(
                            "hybrid generation interpretation fingerprint mismatch",
                        ),
                    );
                }
            },
        },
    }
    Ok(manifest)
}

/// The fault of a component whose digest differs.
pub open spec fn component_fault(bytes: Seq<u8>, expected: Seq<char>, what: Seq<char>) -> Option<
    error::ErrorView,
> {
    let actual = digest::hex(digest::sha256(bytes));
    if actual != expected {
        Some(
            error::invalid_data(
                what + " SHA-256 mismatch: expected "@ + expected + ", got "@ + actual,
            ),
        )
    } else {
        None
    }
}

/// Holds a component against its digest.
pub fn verify_hash(bytes: &[u8], expected: &str, what: &str) -> (r: Result<(), StoreError>)
    ensures
        generation_fingerprint::reports(r, component_fault(bytes@, expected@, what@)),
{
    let actual = hash_bytes(bytes);
    if !text_equal(&actual, expected) {
        let mut m = what.to_owned();
        m.append(" SHA-256 mismatch: expected ");
        m.append(expected);
        m.append(", got ");
        m.append(&actual);
        return Err(StoreError::new(ErrorKind::InvalidData, m));
    }
    Ok(())
}

/// Holds the item counts of the two loaded components against the manifest.
pub fn verify_items(manifest: &Manifest, tree_items: usize, sketch_items: usize) -> (r: Result<
    (),
    StoreError,
>)
    ensures
        r is Ok <==> tree_items == manifest@.items && sketch_items == manifest@.items,
        r matches Err(e) ==> e@ == error::invalid_data(
            "hybrid generation item-count mismatch: manifest "@ + text::decimal(
                manifest@.items as nat,
            ) + ", tree "@ + text::decimal(tree_items as nat) + ", sketch "@ + text::decimal(
                sketch_items as nat,
            ),
        ),
{
    if tree_items != manifest.items || sketch_items != manifest.items {
        let mut m = "hybrid generation item-count mismatch: manifest ".to_owned();
        push_decimal(&mut m, manifest.items as u128);
        m.append(", tree ");
        push_decimal(&mut m, tree_items as u128);
        m.append(", sketch ");
        push_decimal(&mut m, sketch_items as u128);
        return Err(StoreError::new(ErrorKind::InvalidData, m));
    }
    Ok(())
}

/// What opening a published store from the bytes of its files gives.
pub open spec fn opened(
    current: Seq<char>,
    manifest: Seq<char>,
    tree: Seq<u8>,
    sketch: Seq<u8>,
    dim: usize,
    expected: Option<IdentityView>,
) -> Result<ManifestView, error::ErrorView> {
    match binding_fault(expected) {
        Some(e) => Err(e),
        None => match parsed_current(current) {
            Err(e) => Err(e),
            Ok((name, hash)) => match checked_generation(name, manifest, dim, hash, expected) {
                Err(e) => Err(e),
                Ok(m) => match component_fault(tree, m.tree_sha256, "hybrid tree"@) {
                    Some(e) => Err(e),
                    None => match component_fault(sketch, m.sketch_sha256, "hybrid sketch"@) {
                        Some(e) => Err(e),
                        None => Ok(m),
                    },
                },
            },
        },
    }
}

/// Opens a published store from the bytes of its files: pointer, manifest and components
/// are checked in this order.
pub fn open(
    current: &str,
    manifest: &str,
    tree: &[u8],
    sketch: &[u8],
    dim: usize,
    expected: Option<&GenerationFingerprint>,
) -> (r: Result<Manifest, StoreError>)
    ensures
        reads(
            r,
            opened(current@, manifest@, tree@, sketch@, dim, optional_identity_ref(expected)),
        ),
{
    check_binding(expected)?;
    let (name, hash) = parse_current(current)?;
    let m = open_generation(&name, manifest, dim, &hash, expected)?;
    verify_hash(tree, &m.tree_sha256, "hybrid tree")?;
    verify_hash(sketch, &m.sketch_sha256, "hybrid sketch")?;
    Ok(m)
}

// ---- pruning ----

/// The generations that directory names denote, in their order.
pub open spec fn generations_of(names: Seq<Seq<char>>) -> Seq<u64>
    decreases names.len(),
{
    if names.len() == 0 {
        Seq::empty()
    } else {
        match generation_of(names.last()) {
            Some(g) => generations_of(names.drop_last()).push(g),
            None => generations_of(names.drop_last()),
        }
    }
}

/// The generations from the newest to the oldest.
pub open spec fn newest_first(g: Seq<u64>) -> Seq<u64> {
    g.sort_by(|a: u64, b: u64| a >= b)
}

/// The generations to remove: all but the newest `keep`, and never the current one.
pub open spec fn prunable(g: Seq<u64>, keep: nat, current: u64) -> Seq<u64> {
    newest_first(g).skip(
        if keep <= g.len() {
            keep as int
        } else {
            g.len() as int
        },
    ).filter(other_than(current))
}

/// Every number but one.
pub open spec fn other_than(current: u64) -> spec_fn(u64) -> bool {
    |x: u64| x != current
}

proof fn lemma_insert_multiset(s: Seq<u64>, at: int, x: u64)
    requires
        0 <= at <= s.len(),
    ensures
        s.insert(at, x).to_multiset() == s.to_multiset().insert(x),
{
    broadcast use vstd::multiset::group_multiset_axioms;
    broadcast use group_to_multiset_ensures;

    let t = s.insert(at, x);
    assert(t.remove(at) =~= s);
    to_multiset_remove(t, at);
    assert(t[at] == x);
    assert(t.contains(x));
    assert(t.to_multiset().count(x) > 0);
    assert(t.to_multiset() =~= s.to_multiset().insert(x));
}

/// Sorts generations from the newest to the oldest.
fn sort_newest_first(g: &Vec<u64>) -> (r: Vec<u64>)
    ensures
        r@ == newest_first(g@),
        r@.len() == g@.len(),
{
    let mut r: Vec<u64> = Vec::new();
    let mut i: usize = 0;
    let ghost leq = |a: u64, b: u64| a >= b;
    assert(g@.take(0) =~= Seq::<u64>::empty());
    assert(r@ =~= Seq::<u64>::empty());
    while i < g.len()
        invariant
            i <= g@.len(),
            r@.len() == i,
            leq == (|a: u64, b: u64| a >= b),
            forall|a: int, b: int| 0 <= a < b < r@.len() ==> r@[a] >= r@[b],
            r@.to_multiset() == g@.take(i as int).to_multiset(),
        decreases g@.len() - i,
    {
        let x: u64 = g[i];
        let mut at: usize = r.len();
        while at > 0 && r[at - 1] < x
            invariant
                at <= r@.len(),
                forall|a: int| at <= a < r@.len() ==> r@[a] < x,
            decreases at,
        {
            at -= 1;
        }
        proof {
            lemma_insert_multiset(r@, at as int, x);
            to_multiset_build(g@.take(i as int), x);
            assert(g@.take(i + 1) =~= g@.take(i as int).push(x));
            let before = r@;
            let t = before.insert(at as int, x);
            assert forall|a: int, b: int| 0 <= a < b < t.len() implies t[a] >= t[b] by {
                if a < at {
                    assert(t[a] == before[a]);
                    assert(a == at - 1 || before[a] >= before[at - 1]);
                }
                if b < at {
                    assert(t[b] == before[b]);
                } else if b > at {
                    assert(t[b] == before[b - 1]);
                }
                if a > at {
                    assert(t[a] == before[a - 1]);
                }
            }
        }
        r.insert(at, x);
        i += 1;
    }
    proof {
        assert(g@.take(i as int) =~= g@);
        assert(total_ordering(leq));
        g@.lemma_sort_by_ensures(leq);
        assert(sorted_by(r@, leq));
        lemma_sorted_unique(r@, g@.sort_by(leq), leq);
    }
    r
}

/// Chooses the generations to remove. Nothing is removed where no pointer is published
/// or where nothing would be kept.
pub fn prune_generations(names: &[String], current: Option<&str>, keep: usize) -> (r: Result<
    Vec<u64>,
    StoreError,
>)
    ensures
        match r {
            Ok(v) => prune_plan(
                text::text_views(names@),
                record::optional_str(current),
                keep,
            ) == Ok::<_, error::ErrorView>(v@),
            Err(e) => prune_plan(
                text::text_views(names@),
                record::optional_str(current),
                keep,
            ) == Err::<Seq<u64>, _>(e@),
        },
{
    if keep == 0 {
        return Err(StoreError::invalid("generation pruning must keep at least one"));
    }
    let raw = match current {
        Some(raw) => raw,
        None => {
            return Err(
                StoreError::invalid("refusing to prune: no published CURRENT pointer is present"),
            );
        },
    };
    let (name, _) = parse_current(raw)?;
    let current_number: u64 = match parse_generation_name(&name) {
        Some(g) => g,
        None => {
            return Err(StoreError::invalid("CURRENT contains an invalid generation name"));
        },
    };
    let ghost all = text::text_views(names@);
    let mut generations: Vec<u64> = Vec::new();
    let mut i: usize = 0;
    assert(all.take(0) =~= Seq::empty());
    while i < names.len()
        invariant
            i <= names@.len(),
            all == text::text_views(names@),
            generations@ == generations_of(all.take(i as int)),
        decreases names@.len() - i,
    {
        proof {
            assert(all.take(i + 1).drop_last() =~= all.take(i as int));
            assert(all.take(i + 1).last() == all[i as int]);
        }
        match parse_generation_name(&names[i]) {
            Some(g) => {
                generations.push(g);
            },
            None => {},
        }
        i += 1;
    }
    assert(all.take(i as int) =~= all);
    let sorted = sort_newest_first(&generations);
    let start: usize = if keep <= sorted.len() {
        keep
    } else {
        sorted.len()
    };
    let ghost old_ones = sorted@.skip(start as int);
    let ghost spare = other_than(current_number);
    let mut doomed: Vec<u64> = Vec::new();
    let mut k: usize = start;
    proof {
        reveal(Seq::filter);
        assert(old_ones.take(0) =~= Seq::<u64>::empty());
    }
    while k < sorted.len()
        invariant
            start <= k <= sorted@.len(),
            old_ones == sorted@.skip(start as int),
            spare == other_than(current_number),
            doomed@ == old_ones.take(k - start).filter(spare),
        decreases sorted@.len() - k,
    {
        proof {
            reveal(Seq::filter);
            assert(old_ones.take(k + 1 - start).drop_last() =~= old_ones.take(k - start));
            assert(old_ones.take(k + 1 - start).last() == sorted@[k as int]);
        }
        if sorted[k] != current_number {
            doomed.push(sorted[k]);
        }
        k += 1;
    }
    assert(old_ones.take(k - start) =~= old_ones);
    Ok(doomed)
}

/// What pruning chooses.
pub open spec fn prune_plan(
    names: Seq<Seq<char>>,
    current: Option<Seq<char>>,
    keep: usize,
) -> Result<Seq<u64>, error::ErrorView> {
    if keep == 0 {
        Err(error::invalid_data("generation pruning must keep at least one"@))
    } else {
        match current {
            None => Err(
                error::invalid_data("refusing to prune: no published CURRENT pointer is present"@),
            ),
            Some(raw) => match parsed_current(raw) {
                Err(e) => Err(e),
                Ok((name, _)) => Ok(
                    prunable(generations_of(names), keep as nat, generation_of(name)->0),
                ),
            },
        }
    }
}

proof fn lemma_filter_keeps(s: Seq<u64>, p: spec_fn(u64) -> bool, x: u64)
    ensures
        s.filter(p).contains(x) ==> s.contains(x) && p(x),
    decreases s.len(),
{
    reveal(Seq::filter);
    if s.len() > 0 {
        let init = s.drop_last();
        lemma_filter_keeps(init, p, x);
        if s.filter(p).contains(x) {
            let i = choose|i: int| 0 <= i < s.filter(p).len() && s.filter(p)[i] == x;
            if i < init.filter(p).len() {
                assert(init.filter(p)[i] == x);
                let j = choose|j: int| 0 <= j < init.len() && init[j] == x;
                assert(s[j] == x);
            } else {
                assert(s[s.len() - 1] == x);
            }
        }
    }
}

/// Pruning never removes the current generation, and never one of the newest `keep`: for
/// every generation that goes, at least `keep` that are not older stand before it.
pub proof fn law_prune_keeps_current_and_newest(g: Seq<u64>, keep: nat, current: u64, x: u64)
    requires
        prunable(g, keep, current).contains(x),
    ensures
        x != current,
        keep < g.len(),
        g.contains(x),
        forall|i: int| 0 <= i < keep ==> newest_first(g)[i] >= x,
{
    let leq = |a: u64, b: u64| a >= b;
    assert(total_ordering(leq));
    g.lemma_sort_by_ensures(leq);
    let sorted = newest_first(g);
    broadcast use group_to_multiset_ensures;

    assert(sorted.len() == g.len()) by {
        assert(sorted.to_multiset().len() == g.to_multiset().len());
    }
    let start = if keep <= g.len() {
        keep as int
    } else {
        g.len() as int
    };
    lemma_filter_keeps(sorted.skip(start), other_than(current), x);
    let j = choose|j: int| 0 <= j < sorted.skip(start).len() && sorted.skip(start)[j] == x;
    assert(sorted[start + j] == x);
    assert(sorted.contains(x));
    assert(g.to_multiset().count(x) > 0);
    assert forall|i: int| 0 <= i < keep implies newest_first(g)[i] >= x by {
        assert(leq(sorted[i], sorted[start + j]));
    }
}


// ---- what is written is read ----

/// A text that is not empty and stands on one line.
spec fn label(s: Seq<char>) -> bool {
    s.len() > 0 && text::one_line(s)
}

proof fn lemma_label_generation()
    ensures
        label("generation="@),
{
    reveal_strlit("generation=");
}

proof fn lemma_label_dim()
    ensures
        label("dim="@),
{
    reveal_strlit("dim=");
}

proof fn lemma_label_items()
    ensures
        label("items="@),
{
    reveal_strlit("items=");
}

proof fn lemma_label_default_shortlist()
    ensures
        label("default_shortlist="@),
{
    reveal_strlit("default_shortlist=");
}

proof fn lemma_label_octasoma_version()
    ensures
        label("octasoma_version="@),
{
    reveal_strlit("octasoma_version=");
}

proof fn lemma_label_embedding()
    ensures
        label("embedding="@),
{
    reveal_strlit("embedding=");
}

proof fn lemma_label_projection()
    ensures
        label("projection="@),
{
    reveal_strlit("projection=");
}

proof fn lemma_label_quantization()
    ensures
        label("quantization="@),
{
    reveal_strlit("quantization=");
}

proof fn lemma_label_index()
    ensures
        label("index="@),
{
    reveal_strlit("index=");
}

proof fn lemma_label_scirust_revision()
    ensures
        label("scirust_revision="@),
{
    reveal_strlit("scirust_revision=");
}

proof fn lemma_label_calibration_present()
    ensures
        label("calibration_present="@),
{
    reveal_strlit("calibration_present=");
}

proof fn lemma_label_calibration()
    ensures
        label("calibration="@),
{
    reveal_strlit("calibration=");
}

proof fn lemma_label_tree_sha256()
    ensures
        label("tree_sha256="@),
{
    reveal_strlit("tree_sha256=");
}

proof fn lemma_label_sketch_sha256()
    ensures
        label("sketch_sha256="@),
{
    reveal_strlit("sketch_sha256=");
}

proof fn lemma_label_manifest_sha256()
    ensures
        label("manifest_sha256="@),
{
    reveal_strlit("manifest_sha256=");
}

proof fn lemma_labelled(prefix: Seq<char>, value: Seq<char>)
    requires
        label(prefix),
        text::one_line(value),
    ensures
        text::one_line(prefix + value),
{
    let s = prefix + value;
    if s.contains('\n') {
        let i = choose|i: int| 0 <= i < s.len() && s[i] == '\n';
        if i < prefix.len() {
            assert(prefix[i] == '\n');
        } else {
            assert(value[i - prefix.len()] == '\n');
        }
    }
    if value.len() > 0 {
        assert(s.last() == value.last());
    } else {
        assert(s.last() == prefix.last());
    }
}

proof fn lemma_printable_line(t: Seq<char>)
    requires
        generation_fingerprint::printable(encode_utf8(t)),
    ensures
        text::one_line(t),
{
    generation_fingerprint::lemma_printable_chars(t);
    if t.contains('\n') {
        let i = choose|i: int| 0 <= i < t.len() && t[i] == '\n';
        assert(' ' <= t[i]);
    }
    if t.len() > 0 {
        assert(' ' <= t[t.len() - 1]);
    }
}

proof fn lemma_number(prefix: Seq<char>, n: nat, max: nat)
    requires
        label(prefix),
        n <= max,
    ensures
        text::one_line(prefix + text::decimal(n)),
        field_number(prefix + text::decimal(n), prefix, max) == Ok::<_, error::ErrorView>(n),
{
    let d = text::decimal(n);
    text::law_decimal_round_trip(n, 0, max);
    text::lemma_decimal_digits(n);
    text::lemma_stripped(prefix, d);
    if d.contains('\n') {
        let i = choose|i: int| 0 <= i < d.len() && d[i] == '\n';
        assert(text::is_digit(d[i]));
    }
    assert(text::is_digit(d[d.len() - 1]));
    lemma_labelled(prefix, d);
}

proof fn lemma_hash(prefix: Seq<char>, v: Seq<char>)
    requires
        label(prefix),
        is_hash(v),
    ensures
        text::one_line(prefix + v),
        field_hash(prefix + v, prefix) == Ok::<_, error::ErrorView>(v),
{
    text::lemma_stripped(prefix, v);
    if v.contains('\n') {
        let i = choose|i: int| 0 <= i < v.len() && v[i] == '\n';
        assert(digest::is_hex(v[i]));
    }
    assert(digest::is_hex(v[v.len() - 1]));
    lemma_labelled(prefix, v);
}

proof fn lemma_value(prefix: Seq<char>, v: Seq<char>)
    requires
        label(prefix),
        label(v),
    ensures
        text::one_line(prefix + v),
        field_value(prefix + v, prefix) == Ok::<_, error::ErrorView>(v),
{
    text::lemma_stripped(prefix, v);
    lemma_labelled(prefix, v);
}

/// A manifest that reading gives back: its shortlist is not zero, its version stands on
/// one line, its digests are digests, and its fingerprint is in order.
pub open spec fn writable(m: ManifestView) -> bool {
    &&& m.default_shortlist > 0
    &&& m.octasoma_version.len() > 0
    &&& text::one_line(m.octasoma_version)
    &&& binding_fault(m.fingerprint) is None
    &&& is_hash(m.tree_sha256)
    &&& is_hash(m.sketch_sha256)
}

proof fn lemma_counters(m: ManifestView, ls: Seq<Seq<char>>)
    requires
        m.default_shortlist > 0,
        ls.len() >= 5,
        ls[1] == "generation="@ + text::decimal(m.generation as nat),
        ls[2] == "dim="@ + text::decimal(m.dim as nat),
        ls[3] == "items="@ + text::decimal(m.items as nat),
        ls[4] == "default_shortlist="@ + text::decimal(m.default_shortlist as nat),
    ensures
        counters_of(ls) == Ok::<_, error::ErrorView>(
            CountersView {
                generation: m.generation,
                dim: m.dim,
                items: m.items,
                default_shortlist: m.default_shortlist,
            },
        ),
        text::one_line(ls[1]),
        text::one_line(ls[2]),
        text::one_line(ls[3]),
        text::one_line(ls[4]),
{
    reveal(counters_of);
    lemma_label_generation();
    lemma_label_dim();
    lemma_label_items();
    lemma_label_default_shortlist();
    lemma_number("generation="@, m.generation as nat, u64::MAX as nat);
    lemma_number("dim="@, m.dim as nat, usize::MAX as nat);
    lemma_number("items="@, m.items as nat, usize::MAX as nat);
    lemma_number("default_shortlist="@, m.default_shortlist as nat, usize::MAX as nat);
}

proof fn lemma_completed(m: ManifestView, version: Seq<char>, tree: Seq<char>, sketch: Seq<char>)
    requires
        writable(m),
        version == "octasoma_version="@ + m.octasoma_version,
        tree == "tree_sha256="@ + m.tree_sha256,
        sketch == "sketch_sha256="@ + m.sketch_sha256,
    ensures
        completed(
            CountersView {
                generation: m.generation,
                dim: m.dim,
                items: m.items,
                default_shortlist: m.default_shortlist,
            },
            m.fingerprint,
            version,
            tree,
            sketch,
        ) == Ok::<_, error::ErrorView>(m),
        text::one_line(version),
        text::one_line(tree),
        text::one_line(sketch),
{
    reveal(completed);
    lemma_label_octasoma_version();
    lemma_label_tree_sha256();
    lemma_label_sketch_sha256();
    lemma_value("octasoma_version="@, m.octasoma_version);
    lemma_hash("tree_sha256="@, m.tree_sha256);
    lemma_hash("sketch_sha256="@, m.sketch_sha256);
}

proof fn lemma_calibration(c: Option<Seq<char>>, flag: Seq<char>, value: Seq<char>)
    requires
        c matches Some(t) ==> label(t),
        flag == "calibration_present="@ + text::decimal(
            if c is Some {
                1
            } else {
                0
            },
        ),
        value == "calibration="@ + calibration_text(c),
    ensures
        calibration_of(flag, value) == Ok::<_, error::ErrorView>(c),
        text::one_line(flag),
        text::one_line(value),
{
    reveal(calibration_of);
    lemma_label_calibration_present();
    lemma_label_calibration();
    let present: nat = if c is Some {
        1
    } else {
        0
    };
    lemma_number("calibration_present="@, present, u8::MAX as nat);
    text::lemma_stripped("calibration="@, calibration_text(c));
    assert(text::one_line(calibration_text(c)));
    lemma_labelled("calibration="@, calibration_text(c));
}

proof fn lemma_identity(f: IdentityView, ls: Seq<Seq<char>>)
    requires
        generation_fingerprint::identity_fault(f) is None,
        ls.len() >= 11,
        ls[6] == "embedding="@ + f.embedding,
        ls[7] == "projection="@ + f.projection,
        ls[8] == "quantization="@ + f.quantization,
        ls[9] == "index="@ + f.index,
        ls[10] == "scirust_revision="@ + f.scirust_revision,
    ensures
        identity_of(ls, f.calibration) == Ok::<_, error::ErrorView>(f),
        text::one_line(ls[6]),
        text::one_line(ls[7]),
        text::one_line(ls[8]),
        text::one_line(ls[9]),
        text::one_line(ls[10]),
        f.calibration matches Some(c) ==> label(c),
{
    reveal(identity_of);
    lemma_label_embedding();
    lemma_label_projection();
    lemma_label_quantization();
    lemma_label_index();
    lemma_label_scirust_revision();
    lemma_printable_line(f.embedding);
    lemma_printable_line(f.projection);
    lemma_printable_line(f.quantization);
    lemma_printable_line(f.index);
    lemma_printable_line(f.scirust_revision);
    lemma_value("embedding="@, f.embedding);
    lemma_value("projection="@, f.projection);
    lemma_value("quantization="@, f.quantization);
    lemma_value("index="@, f.index);
    lemma_value("scirust_revision="@, f.scirust_revision);
    if f.calibration is Some {
        lemma_printable_line(f.calibration->0);
    }
}

proof fn lemma_magics()
    ensures
        label(MANIFEST_MAGIC_V1@),
        label(MANIFEST_MAGIC_V2@),
        label(CURRENT_MAGIC@),
        MANIFEST_MAGIC_V1@ != MANIFEST_MAGIC_V2@,
{
    reveal_strlit("OCTASOMA-HYBRID-GENERATION-V1");
    reveal_strlit("OCTASOMA-HYBRID-GENERATION-V2");
    reveal_strlit("OCTASOMA-HYBRID-CURRENT-V1");
    assert(MANIFEST_MAGIC_V1@[28] == '1');
    assert(MANIFEST_MAGIC_V2@[28] == '2');
}

/// Reading a written manifest gives it back, in either version.
pub proof fn law_manifest_round_trip(m: ManifestView)
    requires
        writable(m),
    ensures
        parsed_manifest(manifest_text(m)) == Ok::<_, error::ErrorView>(m),
{
    let ls = manifest_lines(m);
    lemma_magics();
    lemma_counters(m, ls);
    match m.fingerprint {
        Some(f) => {
            lemma_identity(f, ls);
            lemma_calibration(f.calibration, ls[11], ls[12]);
            lemma_completed(m, ls[5], ls[13], ls[14]);
            assert(ls.len() == 15);
        },
        None => {
            lemma_completed(m, ls[5], ls[6], ls[7]);
            assert(ls.len() == 8);
        },
    }
    assert forall|i: int| 0 <= i < ls.len() implies text::one_line(#[trigger] ls[i]) by {
        assert(text::one_line(ls[0]));
    }
    text::law_lines_round_trip(ls);
}

/// Reading a written pointer gives its name and digest back.
pub proof fn law_current_round_trip(generation: u64, hash: Seq<char>)
    requires
        is_hash(hash),
    ensures
        parsed_current(current_text(name_of(generation), hash)) == Ok::<_, error::ErrorView>(
            (name_of(generation), hash),
        ),
{
    let name = name_of(generation);
    let ls = seq![CURRENT_MAGIC@, "generation="@ + name, "manifest_sha256="@ + hash];
    lemma_magics();
    lemma_label_generation();
    lemma_label_manifest_sha256();
    law_generation_names(generation, generation);
    text::lemma_padded_20(generation);
    let d = text::padded(generation as nat, 20);
    reveal_strlit("generation-");
    assert(label("generation-"@));
    if d.contains('\n') {
        let i = choose|i: int| 0 <= i < d.len() && d[i] == '\n';
        assert(text::is_digit(d[i]));
    }
    assert(text::is_digit(d[d.len() - 1]));
    lemma_labelled("generation-"@, d);
    lemma_value("generation="@, name);
    lemma_hash("manifest_sha256="@, hash);
    assert forall|i: int| 0 <= i < ls.len() implies text::one_line(#[trigger] ls[i]) by {
        assert(text::one_line(ls[0]));
        assert(text::one_line(ls[1]));
        assert(text::one_line(ls[2]));
    }
    text::law_lines_round_trip(ls);
}

/// What a save prepares opens again: with the same dimension, and with the same
/// fingerprint or without asking for one, opening gives the manifest back.
pub proof fn law_published_store_opens(
    m: ManifestView,
    tree: Seq<u8>,
    sketch: Seq<u8>,
    expected: Option<IdentityView>,
)
    requires
        m.default_shortlist > 0,
        m.octasoma_version.len() > 0,
        text::one_line(m.octasoma_version),
        binding_fault(m.fingerprint) is None,
        m == sealed(
            m.generation,
            m.dim,
            m.items,
            m.default_shortlist,
            m.octasoma_version,
            m.fingerprint,
            tree,
            sketch,
        ),
        expected is None || expected == m.fingerprint,
    ensures
        opened(
            current_text(
                name_of(m.generation),
                digest::hex(digest::sha256(encode_utf8(manifest_text(m)))),
            ),
            manifest_text(m),
            tree,
            sketch,
            m.dim,
            expected,
        ) == Ok::<_, error::ErrorView>(m),
{
    reveal(checked_generation);
    let h = digest::hex(digest::sha256(encode_utf8(manifest_text(m))));
    digest::law_hex(digest::sha256(tree), digest::sha256(tree));
    digest::law_hex(digest::sha256(sketch), digest::sha256(sketch));
    digest::law_hex(
        digest::sha256(encode_utf8(manifest_text(m))),
        digest::sha256(encode_utf8(manifest_text(m))),
    );
    assert(is_hash(h));
    assert(writable(m));
    law_manifest_round_trip(m);
    law_current_round_trip(m.generation, h);
    law_generation_names(m.generation, m.generation);
}

/// A strict open succeeds only on a generation that is bound to the very fingerprint, and
/// an open of any kind only where pointer, manifest and components agree.
pub proof fn law_open_checks_everything(
    current: Seq<char>,
    manifest: Seq<char>,
    tree: Seq<u8>,
    sketch: Seq<u8>,
    dim: usize,
    expected: Option<IdentityView>,
)
    ensures
        opened(current, manifest, tree, sketch, dim, expected) matches Ok(m) ==> {
            &&& expected is Some ==> m.fingerprint == expected
            &&& m.dim == dim
            &&& m.tree_sha256 == digest::hex(digest::sha256(tree))
            &&& m.sketch_sha256 == digest::hex(digest::sha256(sketch))
            &&& parsed_current(current) matches Ok((name, hash)) && hash == digest::hex(
                digest::sha256(encode_utf8(manifest)),
            ) && generation_of(name) == Some(m.generation)
        },
{
    reveal(checked_generation);
}

/// The highest generation is one that a directory name shows, and no name shows a higher one;
/// there is none just where no name shows one.
pub proof fn law_highest_is_the_highest(names: Seq<Seq<char>>)
    ensures
        highest_of(names) matches Some(g) ==> exists|i: int|
            0 <= i < names.len() && generation_of(#[trigger] names[i]) == Some(g),
        forall|i: int|
            0 <= i < names.len() ==> (generation_of(#[trigger] names[i]) matches Some(h)
                ==> highest_of(names) matches Some(g) && h <= g),
    decreases names.len(),
{
    assert forall|i: int| 0 <= i < names.len() implies (generation_of(#[trigger] names[i])
        matches Some(h) ==> highest_of(names) matches Some(g) && h <= g) by {
        if generation_of(names[i]) is Some {
            lemma_highest(names, i);
        }
    }
    if names.len() > 0 {
        let less = names.drop_last();
        law_highest_is_the_highest(less);
        if let Some(g) = highest_of(names) {
            if generation_of(names[names.len() - 1]) != Some(g) {
                let i = choose|i: int|
                    0 <= i < less.len() && generation_of(#[trigger] less[i]) == Some(g);
                assert(names[i] == less[i]);
            }
        }
    }
}

/// The generations of a directory are those that its names show, one for each such name and in
/// their order.
pub proof fn law_generations_of_names(a: Seq<Seq<char>>, b: Seq<Seq<char>>, name: Seq<char>)
    ensures
        generations_of(a + b) == generations_of(a) + generations_of(b),
        generations_of(seq![name]) == (match generation_of(name) {
            Some(g) => seq![g],
            None => Seq::empty(),
        }),
    decreases b.len(),
{
    assert(seq![name].drop_last() =~= Seq::empty());
    assert(generations_of(seq![name].drop_last()) =~= Seq::empty());
    assert(generations_of(seq![name]) =~= (match generation_of(name) {
        Some(g) => seq![g],
        None => Seq::empty(),
    }));
    if b.len() == 0 {
        assert(a + b =~= a);
        assert(generations_of(a) + generations_of(b) =~= generations_of(a));
    } else {
        law_generations_of_names(a, b.drop_last(), name);
        assert((a + b).drop_last() =~= a + b.drop_last());
        assert((a + b).last() == b.last());
        assert(generations_of(a + b) =~= generations_of(a) + generations_of(b));
    }
}

/// Pruning leaves out none: what stands behind the newest `keep` goes, unless it is the current
/// generation.
pub proof fn law_prune_removes_the_rest(g: Seq<u64>, keep: nat, current: u64, i: int)
    requires
        keep <= i < g.len(),
        newest_first(g)[i] != current,
    ensures
        prunable(g, keep, current).contains(newest_first(g)[i]),
{
    let leq = |a: u64, b: u64| a >= b;
    assert(total_ordering(leq));
    g.lemma_sort_by_ensures(leq);
    let sorted = newest_first(g);
    broadcast use group_to_multiset_ensures;

    assert(sorted.len() == g.len()) by {
        assert(sorted.to_multiset().len() == g.to_multiset().len());
    }
    let x = sorted[i];
    let old = sorted.skip(keep as int);
    assert(old[i - keep] == x);
    lemma_other_stays(old, current, i - keep);
}

proof fn lemma_other_stays(s: Seq<u64>, current: u64, i: int)
    requires
        0 <= i < s.len(),
        s[i] != current,
    ensures
        s.filter(other_than(current)).contains(s[i]),
    decreases s.len(),
{
    reveal(Seq::filter);
    let keep = other_than(current);
    let p = s.drop_last();
    let t = p.filter(keep);
    if i < p.len() {
        lemma_other_stays(p, current, i);
        let j = choose|j: int| 0 <= j < t.len() && t[j] == s[i];
        assert(s.filter(keep)[j] == s[i]);
    } else {
        assert(s.filter(keep)[t.len() as int] == s[i]);
    }
}

/// A store is opened from its pointer wherever there is one, else from the earlier one; only a
/// store without any pointer and any generation is opened as it was before there were generations,
/// and not where an identity is demanded.
pub proof fn law_source_is_the_published_one(
    current: bool,
    previous: bool,
    names: Seq<Seq<char>>,
    strict: bool,
)
    ensures
        source_of(current, previous, names, strict) == Ok::<_, error::ErrorView>(
            OpenSource::Current,
        ) <==> current,
        source_of(current, previous, names, strict) == Ok::<_, error::ErrorView>(
            OpenSource::Previous,
        ) <==> !current && previous,
        source_of(current, previous, names, strict) == Ok::<_, error::ErrorView>(
            OpenSource::Legacy,
        ) <==> !current && !previous && !strict && forall|i: int|
            0 <= i < names.len() ==> generation_of(#[trigger] names[i]) is None,
{
    law_highest_is_the_highest(names);
    if highest_of(names) is None {
        assert forall|i: int| 0 <= i < names.len() implies generation_of(#[trigger] names[i])
            is None by {
            if generation_of(names[i]) is Some {
                lemma_highest(names, i);
            }
        }
    }
}

/// Pruning needs a published pointer and keeps one generation at least; what it then removes are
/// generations of the directory, and never the one that the pointer names.
pub proof fn law_prune_needs_a_pointer(
    names: Seq<Seq<char>>,
    current: Option<Seq<char>>,
    keep: usize,
    x: u64,
)
    ensures
        prune_plan(names, current, keep) is Ok ==> keep > 0 && current is Some && parsed_current(
            current->0,
        ) is Ok,
        keep > 0 && current is Some && parsed_current(current->0) is Ok ==> prune_plan(
            names,
            current,
            keep,
        ) is Ok,
        prune_plan(names, current, keep) matches Ok(old) ==> old.contains(x)
            ==> generations_of(names).contains(x) && generation_of(
            parsed_current(current->0)->Ok_0.0,
        ) != Some(x),
{
    if let Ok(old) = prune_plan(names, current, keep) {
        if old.contains(x) {
            let named = generation_of(parsed_current(current->0)->Ok_0.0);
            law_prune_keeps_current_and_newest(
                generations_of(names),
                keep as nat,
                named->0,
                x,
            );
        }
    }
}

} // verus!
