//! The manifests of sharded stores: which regions a store holds, and where.
//!
//! A spatial store (`OSMS`) names the file of each region; a hybrid store (`OSHH`) names the
//! directory of each region, which must be the generated one, and says whether a record
//! layer stands beside them.
use crate::error;
use crate::error::{ErrorKind, StoreError};
use crate::fileguard;
use crate::fileguard::{
    guard_count, guard_generated_component, guard_no_trailing_bytes, put_slice, put_u32, put_u64,
    read_counted, read_u32_le, read_u64_le, read_u64_lp_string, CountingReader, Parsed,
};
use crate::record_codec as codec;
use crate::text;
use crate::text::{push_decimal, push_padded};
use vstd::prelude::*;
use vstd::utf8::*;

verus! {

/// The least bytes of a region's entry: two empty strings.
pub const MIN_ENTRY_BYTES: usize = 16;

/// The version of a spatial store's manifest.
pub const SHARD_VERSION: u32 = 1;

/// The version of a hybrid store's manifest.
pub const HYBRID_VERSION: u32 = 2;

/// The four bytes `OSMS`.
pub open spec fn shard_magic() -> Seq<u8> {
    seq![79u8, 83, 77, 83]
}

/// The four bytes `OSHH`.
pub open spec fn hybrid_magic() -> Seq<u8> {
    seq![79u8, 83, 72, 72]
}

/// The name of a region's directory: `shard_` and its number with at least eight digits.
pub open spec fn shard_name(i: nat) -> Seq<char> {
    "shard_"@ + text::padded(i, 8)
}

/// The name of a region's directory.
pub fn shard_dir_name(i: u64) -> (s: String)
    ensures
        s@ == shard_name(i as nat),
{
    let mut s = "shard_".to_owned();
    push_padded(&mut s, i, 8);
    s
}

/// The name of a region's file.
pub open spec fn shard_file(i: nat) -> Seq<char> {
    shard_name(i) + ".frac"@
}

/// The name of a region's file.
pub fn shard_file_name(i: u64) -> (s: String)
    ensures
        s@ == shard_file(i as nat),
{
    let mut s = shard_dir_name(i);
    s.append(".frac");
    s
}

/// A directory name is that of a region: `shard_` and eight digits.
pub open spec fn is_shard_name(name: Seq<char>) -> bool {
    name.len() == 14 && text::starts_with(name, "shard_"@) && text::all_digits(name.skip(6))
}

/// Whether a directory name is that of a region.
pub fn names_shard(name: &str) -> (r: bool)
    ensures
        r == is_shard_name(name@),
{
    let v = text::chars_of(name);
    let p = text::chars_of("shard_");
    proof {
        reveal_strlit("shard_");
    }
    if v.len() != 14 || !text::has_prefix(&v, &p) {
        return false;
    }
    let rest = text::text_of(&v, 6, 14);
    proof {
        assert(rest@ =~= name@.skip(6));
    }
    crate::generation::only_digits(text::chars_of(rest.as_str()).as_slice())
}

/// A region and where it is kept.
#[derive(Debug)]
pub struct ShardEntry {
    /// The region.
    pub region: String,
    /// The file of the region.
    pub name: String,
}

impl View for ShardEntry {
    type V = (Seq<char>, Seq<char>);

    open spec fn view(&self) -> (Seq<char>, Seq<char>) {
        (self.region@, self.name@)
    }
}

/// The views of entries.
pub open spec fn entry_views(s: Seq<ShardEntry>) -> Seq<(Seq<char>, Seq<char>)> {
    s.map_values(|e: ShardEntry| e@)
}

/// The manifest of a spatial store.
#[derive(Debug)]
pub struct ShardManifest {
    /// The dimension of the embeddings.
    pub dim: u32,
    /// The seed of the projections.
    pub seed: u64,
    /// The regions.
    pub shards: Vec<ShardEntry>,
}

/// The manifest of a spatial store as a value.
pub struct ShardManifestView {
    pub dim: u32,
    pub seed: u64,
    pub shards: Seq<(Seq<char>, Seq<char>)>,
}

impl View for ShardManifest {
    type V = ShardManifestView;

    open spec fn view(&self) -> ShardManifestView {
        ShardManifestView { dim: self.dim, seed: self.seed, shards: entry_views(self.shards@) }
    }
}

/// Reads an entry.
#[verifier::opaque]
pub open spec fn get_entry(s: Seq<u8>) -> Parsed<(Seq<char>, Seq<char>)> {
    match fileguard::get_u64_lp_string("manifest string"@, s) {
        Err(e) => Err(e),
        Ok((region, s)) => match fileguard::get_u64_lp_string("manifest string"@, s) {
            Err(e) => Err(e),
            Ok((name, s)) => Ok(((region, name), s)),
        },
    }
}

/// Reads `n` entries.
pub open spec fn get_entries(n: nat, s: Seq<u8>) -> Parsed<Seq<(Seq<char>, Seq<char>)>>
    decreases n,
{
    if n == 0 {
        Ok((Seq::empty(), s))
    } else {
        match get_entry(s) {
            Err(e) => Err(e),
            Ok((x, s)) => fileguard::prepended(seq![x], get_entries((n - 1) as nat, s)),
        }
    }
}

/// The bytes of an entry.
pub open spec fn entry_bytes(e: (Seq<char>, Seq<char>)) -> Seq<u8> {
    fileguard::lp64_bytes(encode_utf8(e.0)) + fileguard::lp64_bytes(encode_utf8(e.1))
}

/// The bytes of entries.
pub open spec fn entries_bytes(s: Seq<(Seq<char>, Seq<char>)>) -> Seq<u8> {
    fileguard::joined(Seq::new(s.len(), |i: int| entry_bytes(s[i])))
}

/// The entry's texts are no longer than a memory holds.
pub open spec fn entry_fits(e: (Seq<char>, Seq<char>)) -> bool {
    encode_utf8(e.0).len() <= usize::MAX && encode_utf8(e.1).len() <= usize::MAX
}

proof fn lemma_entry_round_trip(e: (Seq<char>, Seq<char>), rest: Seq<u8>)
    requires
        entry_fits(e),
    ensures
        get_entry(entry_bytes(e) + rest) == Ok::<_, error::ErrorView>((e, rest)),
        entry_bytes(e).len() >= MIN_ENTRY_BYTES,
{
    reveal(get_entry);
    let a = fileguard::lp64_bytes(encode_utf8(e.0));
    let b = fileguard::lp64_bytes(encode_utf8(e.1));
    fileguard::lemma_regroup2(a, b, rest);
    fileguard::law_u64_lp_string_round_trip("manifest string"@, e.0, b + rest);
    fileguard::law_u64_lp_string_round_trip("manifest string"@, e.1, rest);
    fileguard::lemma_le_bytes_len((encode_utf8(e.0).len() as u64) as nat, 8);
    fileguard::lemma_le_bytes_len((encode_utf8(e.1).len() as u64) as nat, 8);
}

proof fn lemma_entries_round_trip(s: Seq<(Seq<char>, Seq<char>)>, rest: Seq<u8>)
    requires
        forall|i: int| 0 <= i < s.len() ==> entry_fits(#[trigger] s[i]),
    ensures
        get_entries(s.len(), entries_bytes(s) + rest) == Ok::<_, error::ErrorView>((s, rest)),
        entries_bytes(s).len() >= s.len() * MIN_ENTRY_BYTES,
    decreases s.len(),
{
    let parts = Seq::new(s.len(), |i: int| entry_bytes(s[i]));
    if s.len() == 0 {
        assert(entries_bytes(s) + rest =~= rest);
        assert(s =~= Seq::<(Seq<char>, Seq<char>)>::empty());
    } else {
        let t = s.drop_first();
        assert(entry_fits(s[0]));
        assert forall|i: int| 0 <= i < t.len() implies entry_fits(#[trigger] t[i]) by {
            assert(t[i] == s[i + 1]);
        }
        lemma_entries_round_trip(t, rest);
        assert(parts.drop_first() =~= Seq::new(t.len(), |i: int| entry_bytes(t[i])));
        lemma_entry_round_trip(s[0], entries_bytes(t) + rest);
        assert(entries_bytes(s) + rest =~= entry_bytes(s[0]) + (entries_bytes(t) + rest));
        assert(seq![s[0]] + t =~= s);
        assert(s.len() * MIN_ENTRY_BYTES == t.len() * MIN_ENTRY_BYTES + MIN_ENTRY_BYTES)
            by (nonlinear_arith)
            requires
                s.len() == t.len() + 1,
        ;
    }
}

/// Appends an entry.
fn put_entry(out: &mut Vec<u8>, region: &str, name: &str)
    ensures
        final(out)@ == old(out)@ + entry_bytes((region@, name@)),
        entry_fits((region@, name@)),
{
    let ghost start = out@;
    let a = region.as_bytes();
    let b = name.as_bytes();
    let n: usize = a.len();
    let m: usize = b.len();
    fileguard::write_u64_lp(out, a);
    fileguard::write_u64_lp(out, b);
    proof {
        assert(n == encode_utf8(region@).len());
        assert(m == encode_utf8(name@).len());
        assert(out@ =~= start + entry_bytes((region@, name@)));
    }
}

/// Reads an entry.
fn read_entry(r: &mut CountingReader<'_>) -> (v: Result<ShardEntry, StoreError>)
    ensures
        fileguard::agrees(v, |v: ShardEntry| v@, final(r).rest(), get_entry(old(r).rest())),
{
    proof {
        reveal(get_entry);
    }
    let region = read_u64_lp_string("manifest string", r)?;
    let name = read_u64_lp_string("manifest string", r)?;
    Ok(ShardEntry { region, name })
}

/// The error of a declared number of regions that the rest cannot hold.
pub open spec fn count_error(n: usize, remaining: nat) -> error::ErrorView {
    error::invalid_data(
        fileguard::count_message("manifest shards"@, n as nat, MIN_ENTRY_BYTES as nat, remaining),
    )
}

/// What reading a spatial store's manifest gives. Bytes after the entries are not looked at.
#[verifier::opaque]
pub open spec fn decoded_shards(bytes: Seq<u8>, dim: usize) -> Result<
    ShardManifestView,
    error::ErrorView,
> {
    if bytes.len() < 4 {
        Err(error::invalid_data(fileguard::count_message("shard manifest magic"@, 4, 1, bytes.len())))
    } else if bytes.take(4) != shard_magic() {
        Err(error::invalid_data("not an OctaSoma shard manifest (bad magic)"@))
    } else {
        match fileguard::get_u32("shard manifest version"@, bytes.skip(4)) {
            Err(e) => Err(e),
            Ok((version, s)) => if version != SHARD_VERSION {
                Err(
                    error::invalid_data(
                        "unsupported shard manifest version "@ + text::decimal(version as nat)
                            + " (this build reads v"@ + text::decimal(SHARD_VERSION as nat) + ")"@,
                    ),
                )
            } else {
                match fileguard::get_u32("shard manifest dim"@, s) {
                    Err(e) => Err(e),
                    Ok((found, s)) => if found as usize != dim {
                        Err(
                            error::invalid_data(
                                "dim mismatch: manifest has "@ + text::decimal(found as nat)
                                    + ", embedder has "@ + text::decimal(dim as nat),
                            ),
                        )
                    } else {
                        match fileguard::get_u64("shard manifest seed"@, s) {
                            Err(e) => Err(e),
                            Ok((seed, s)) => match fileguard::get_u64("manifest shards"@, s) {
                                Err(e) => Err(e),
                                Ok((n, s)) => if (n as usize) * MIN_ENTRY_BYTES > s.len() {
                                    Err(count_error(n as usize, s.len()))
                                } else {
                                    match get_entries((n as usize) as nat, s) {
                                        Err(e) => Err(e),
                                        Ok((shards, s)) => Ok(
                                            ShardManifestView { dim: found, seed, shards },
                                        ),
                                    }
                                },
                            },
                        }
                    },
                }
            },
        }
    }
}

/// The bytes of a spatial store's manifest.
pub open spec fn shards_bytes(m: ShardManifestView) -> Seq<u8> {
    shard_magic() + fileguard::le_bytes(SHARD_VERSION as nat, 4) + fileguard::le_bytes(
        m.dim as nat,
        4,
    ) + fileguard::le_bytes(m.seed as nat, 8) + fileguard::le_bytes(
        (m.shards.len() as u64) as nat,
        8,
    ) + entries_bytes(m.shards)
}

proof fn lemma_shards_round_trip(m: ShardManifestView)
    requires
        m.shards.len() <= usize::MAX,
        forall|i: int| 0 <= i < m.shards.len() ==> entry_fits(#[trigger] m.shards[i]),
    ensures
        decoded_shards(shards_bytes(m), m.dim as usize) == Ok::<_, error::ErrorView>(m),
{
    reveal(decoded_shards);
    let v = fileguard::le_bytes(SHARD_VERSION as nat, 4);
    let d = fileguard::le_bytes(m.dim as nat, 4);
    let s = fileguard::le_bytes(m.seed as nat, 8);
    let n = fileguard::le_bytes((m.shards.len() as u64) as nat, 8);
    let body = entries_bytes(m.shards);
    fileguard::lemma_regroup5(shard_magic(), v, d, s, n, body);
    let all = shards_bytes(m);
    assert(all.take(4) =~= shard_magic());
    assert(all.skip(4) =~= v + (d + (s + (n + body))));
    fileguard::lemma_get_u32("shard manifest version"@, SHARD_VERSION, d + (s + (n + body)));
    fileguard::lemma_get_u32("shard manifest dim"@, m.dim, s + (n + body));
    fileguard::lemma_get_u64("shard manifest seed"@, m.seed, n + body);
    fileguard::lemma_get_u64("manifest shards"@, m.shards.len() as u64, body);
    assert(body + Seq::<u8>::empty() =~= body);
    lemma_entries_round_trip(m.shards, Seq::empty());
}

impl ShardManifest {
    /// The bytes of the manifest, which read back as the manifest.
    pub fn encode(&self) -> (out: Vec<u8>)
        ensures
            out@ == shards_bytes(self@),
            decoded_shards(out@, self.dim as usize) == Ok::<_, error::ErrorView>(self@),
    {
        let mut out: Vec<u8> = Vec::new();
        let head: [u8; 4] = [79, 83, 77, 83];
        put_slice(&mut out, head.as_slice());
        put_u32(&mut out, SHARD_VERSION);
        put_u32(&mut out, self.dim);
        put_u64(&mut out, self.seed);
        put_u64(&mut out, self.shards.len() as u64);
        let ghost start = out@;
        let ghost parts = Seq::new(self@.shards.len(), |i: int| entry_bytes(self@.shards[i]));
        let mut i: usize = 0;
        proof {
            assert(head@ =~= shard_magic());
            assert(Seq::<u8>::empty() + shard_magic() =~= shard_magic());
            assert(parts.take(0) =~= Seq::<Seq<u8>>::empty());
            assert(start + fileguard::joined(parts.take(0)) =~= start);
        }
        while i < self.shards.len()
            invariant
                i <= self.shards@.len(),
                parts == Seq::new(self@.shards.len(), |i: int| entry_bytes(self@.shards[i])),
                out@ == start + fileguard::joined(parts.take(i as int)),
                forall|j: int| 0 <= j < i ==> entry_fits(#[trigger] self@.shards[j]),
            decreases self.shards@.len() - i,
        {
            put_entry(
                &mut out,
                self.shards[i].region.as_str(),
                self.shards[i].name.as_str(),
            );
            proof {
                assert(self@.shards[i as int] == self.shards@[i as int]@);
                let done = parts.take(i as int);
                assert(parts.take(i + 1) =~= done.push(parts[i as int]));
                fileguard::lemma_joined_push(done, parts[i as int]);
                assert(start + fileguard::joined(done) + parts[i as int] =~= start + (
                fileguard::joined(done) + parts[i as int]));
            }
            i += 1;
        }
        proof {
            assert(parts.take(i as int) =~= parts);
            let n: usize = self.shards.len();
            lemma_shards_round_trip(self@);
        }
        out
    }

    /// Reads a manifest for embeddings of a dimension.
    pub fn decode(bytes: &[u8], dim: usize) -> (r: Result<ShardManifest, StoreError>)
        ensures
            match r {
                Ok(m) => decoded_shards(bytes@, dim) == Ok::<_, error::ErrorView>(m@),
                Err(e) => decoded_shards(bytes@, dim) == Err::<ShardManifestView, _>(e@),
            },
    {
        proof {
            reveal(decoded_shards);
        }
        let mut r = CountingReader::new(bytes);
        let head = read_counted("shard manifest magic", 4, &mut r)?;
        if head[0] != 79 || head[1] != 83 || head[2] != 77 || head[3] != 83 {
            return Err(StoreError::invalid("not an OctaSoma shard manifest (bad magic)"));
        }
        proof {
            assert(head@ =~= shard_magic());
        }
        let version: u32 = read_u32_le("shard manifest version", &mut r)?;
        if version != SHARD_VERSION {
            let mut m = "unsupported shard manifest version ".to_owned();
            push_decimal(&mut m, version as u128);
            m.append(" (this build reads v");
            push_decimal(&mut m, SHARD_VERSION as u128);
            m.append(")");
            return Err(StoreError::new(ErrorKind::InvalidData, m));
        }
        let found: u32 = read_u32_le("shard manifest dim", &mut r)?;
        if found as usize != dim {
            let mut m = "dim mismatch: manifest has ".to_owned();
            push_decimal(&mut m, found as u128);
            m.append(", embedder has ");
            push_decimal(&mut m, dim as u128);
            return Err(StoreError::new(ErrorKind::InvalidData, m));
        }
        let seed: u64 = read_u64_le("shard manifest seed", &mut r)?;
        let n: usize = read_u64_le("manifest shards", &mut r)? as usize;
        guard_count("manifest shards", n, MIN_ENTRY_BYTES, r.remaining() as u64)?;
        let shards = read_entries(&mut r, n)?;
        Ok(ShardManifest { dim: found, seed, shards })
    }
}

/// Reads `n` entries.
fn read_entries(r: &mut CountingReader<'_>, n: usize) -> (v: Result<Vec<ShardEntry>, StoreError>)
    ensures
        fileguard::agrees(
            v,
            |v: Vec<ShardEntry>| entry_views(v@),
            final(r).rest(),
            get_entries(n as nat, old(r).rest()),
        ),
{
    let ghost start = r.rest();
    let mut list: Vec<ShardEntry> = Vec::new();
    let mut i: usize = 0;
    proof {
        fileguard::lemma_prepended_nothing(get_entries(n as nat, start));
        assert(entry_views(list@) =~= Seq::<(Seq<char>, Seq<char>)>::empty());
    }
    while i < n
        invariant
            i <= n,
            get_entries(n as nat, start) == fileguard::prepended(
                entry_views(list@),
                get_entries((n - i) as nat, r.rest()),
            ),
            start == old(r).rest(),
        decreases n - i,
    {
        let ghost before = entry_views(list@);
        let e = read_entry(r)?;
        proof {
            fileguard::lemma_prepended(before, e@, get_entries((n - i - 1) as nat, r.rest()));
            assert(entry_views(list@.push(e)) =~= before.push(e@));
        }
        list.push(e);
        i += 1;
    }
    proof {
        assert(entry_views(list@) + Seq::<(Seq<char>, Seq<char>)>::empty() =~= entry_views(list@));
    }
    Ok(list)
}

/// The manifest of a hybrid store.
#[derive(Debug)]
pub struct HybridManifest {
    /// The dimension of the embeddings.
    pub dim: u32,
    /// The seed of the projections.
    pub seed: u64,
    /// The bits of the sketches.
    pub bits: u64,
    /// The regions, in the order of their directories.
    pub regions: Vec<String>,
    /// Whether a record layer stands beside the regions.
    pub has_records: bool,
}

/// The manifest of a hybrid store as a value.
pub struct HybridManifestView {
    pub dim: u32,
    pub seed: u64,
    pub bits: u64,
    pub regions: Seq<Seq<char>>,
    pub has_records: bool,
}

impl View for HybridManifest {
    type V = HybridManifestView;

    open spec fn view(&self) -> HybridManifestView {
        HybridManifestView {
            dim: self.dim,
            seed: self.seed,
            bits: self.bits,
            regions: text::text_views(self.regions@),
            has_records: self.has_records,
        }
    }
}

/// Reads `n` regions, the first of which has number `i`; each directory must have the
/// generated name.
pub open spec fn get_regions(n: nat, i: nat, s: Seq<u8>) -> Parsed<Seq<Seq<char>>>
    decreases n,
{
    if n == 0 {
        Ok((Seq::empty(), s))
    } else {
        match get_entry(s) {
            Err(e) => Err(e),
            Ok((x, s)) => if x.1 != shard_name(i) {
                Err(
                    fileguard::component_error(
                        "hybrid manifest shard"@,
                        x.1,
                        shard_name(i),
                    ),
                )
            } else {
                fileguard::prepended(seq![x.0], get_regions((n - 1) as nat, i + 1, s))
            },
        }
    }
}

/// Reads the flag of the record layer, which only the newer version has.
pub open spec fn get_records_flag(version: u32, s: Seq<u8>) -> Parsed<bool> {
    if version < 2 {
        Ok((false, s))
    } else {
        match codec::get_u8("manifest records flag"@, s) {
            Err(e) => Err(e),
            Ok((b, s)) => if b == 0 {
                Ok((false, s))
            } else if b == 1 {
                Ok((true, s))
            } else {
                Err(
                    error::invalid_data(
                        "manifest records flag must be 0 or 1, got "@ + text::decimal(b as nat),
                    ),
                )
            },
        }
    }
}

/// What reading a hybrid store's manifest gives.
#[verifier::opaque]
pub open spec fn decoded_hybrid(bytes: Seq<u8>, dim: usize) -> Result<
    HybridManifestView,
    error::ErrorView,
> {
    if bytes.len() < 4 {
        Err(error::invalid_data(fileguard::count_message("sharded-hybrid magic"@, 4, 1, bytes.len())))
    } else if bytes.take(4) != hybrid_magic() {
        Err(error::invalid_data("not a sharded-hybrid manifest (bad magic)"@))
    } else {
        match fileguard::get_u32("sharded-hybrid version"@, bytes.skip(4)) {
            Err(e) => Err(e),
            Ok((version, s)) => if version > 2 || version == 0 {
                Err(
                    error::invalid_data(
                        "unsupported sharded-hybrid version "@ + text::decimal(version as nat),
                    ),
                )
            } else {
                match fileguard::get_u32("sharded-hybrid dim"@, s) {
                    Err(e) => Err(e),
                    Ok((found, s)) => match fileguard::get_u64("sharded-hybrid seed"@, s) {
                        Err(e) => Err(e),
                        Ok((seed, s)) => match fileguard::get_u64("sharded-hybrid bits"@, s) {
                            Err(e) => Err(e),
                            Ok((bits, s)) => if found as usize != dim {
                                Err(
                                    error::invalid_data(
                                        "dim mismatch: manifest "@ + text::decimal(found as nat)
                                            + ", embedder "@ + text::decimal(dim as nat),
                                    ),
                                )
                            } else {
                                get_hybrid_body(version, found, seed, bits, s)
                            },
                        },
                    },
                }
            },
        }
    }
}

/// Reads the regions and the flag of a hybrid store's manifest.
#[verifier::opaque]
pub open spec fn get_hybrid_body(version: u32, dim: u32, seed: u64, bits: u64, s: Seq<u8>) -> Result<
    HybridManifestView,
    error::ErrorView,
> {
    match fileguard::get_u64("manifest shards"@, s) {
        Err(e) => Err(e),
        Ok((n, s)) => if (n as usize) * MIN_ENTRY_BYTES > s.len() {
            Err(count_error(n as usize, s.len()))
        } else {
            match get_regions((n as usize) as nat, 0, s) {
                Err(e) => Err(e),
                Ok((regions, s)) => match get_records_flag(version, s) {
                    Err(e) => Err(e),
                    Ok((has_records, s)) => if s.len() > 0 {
                        Err(fileguard::trailing_error("sharded-hybrid manifest"@, s.len()))
                    } else {
                        Ok(HybridManifestView { dim, seed, bits, regions, has_records })
                    },
                },
            }
        },
    }
}

/// Reads `n` regions.
fn read_regions(r: &mut CountingReader<'_>, n: usize) -> (v: Result<Vec<String>, StoreError>)
    ensures
        fileguard::agrees(
            v,
            |v: Vec<String>| text::text_views(v@),
            final(r).rest(),
            get_regions(n as nat, 0, old(r).rest()),
        ),
{
    let ghost start = r.rest();
    let mut list: Vec<String> = Vec::new();
    let mut i: usize = 0;
    proof {
        fileguard::lemma_prepended_nothing(get_regions(n as nat, 0, start));
        assert(text::text_views(list@) =~= Seq::<Seq<char>>::empty());
    }
    while i < n
        invariant
            i <= n,
            get_regions(n as nat, 0, start) == fileguard::prepended(
                text::text_views(list@),
                get_regions((n - i) as nat, i as nat, r.rest()),
            ),
            start == old(r).rest(),
        decreases n - i,
    {
        let ghost before = text::text_views(list@);
        let e = read_entry(r)?;
        let expected = shard_dir_name(i as u64);
        guard_generated_component("hybrid manifest shard", e.name.as_str(), expected.as_str())?;
        proof {
            fileguard::lemma_prepended(
                before,
                e.region@,
                get_regions((n - i - 1) as nat, (i + 1) as nat, r.rest()),
            );
            assert(text::text_views(list@.push(e.region)) =~= before.push(e.region@));
        }
        list.push(e.region);
        i += 1;
    }
    proof {
        assert(text::text_views(list@) + Seq::<Seq<char>>::empty() =~= text::text_views(list@));
    }
    Ok(list)
}

/// The entries of a hybrid store's regions.
pub open spec fn hybrid_entries(regions: Seq<Seq<char>>) -> Seq<(Seq<char>, Seq<char>)> {
    Seq::new(regions.len(), |i: int| (regions[i], shard_name(i as nat)))
}

/// The bytes of a hybrid store's manifest.
pub open spec fn hybrid_bytes(m: HybridManifestView) -> Seq<u8> {
    hybrid_magic() + fileguard::le_bytes(HYBRID_VERSION as nat, 4) + fileguard::le_bytes(
        m.dim as nat,
        4,
    ) + fileguard::le_bytes(m.seed as nat, 8) + fileguard::le_bytes(m.bits as nat, 8)
        + fileguard::le_bytes((m.regions.len() as u64) as nat, 8) + (entries_bytes(
        hybrid_entries(m.regions),
    ) + seq![
        if m.has_records {
            1u8
        } else {
            0u8
        },
    ])
}

/// Reading entries with generated names gives their regions.
proof fn lemma_regions_of_entries(all: Seq<Seq<char>>, i: nat, s: Seq<u8>, rest: Seq<u8>)
    requires
        i <= all.len(),
        get_entries((all.len() - i) as nat, s) == Ok::<_, error::ErrorView>(
            (hybrid_entries(all).skip(i as int), rest),
        ),
    ensures
        get_regions((all.len() - i) as nat, i, s) == Ok::<_, error::ErrorView>(
            (all.skip(i as int), rest),
        ),
    decreases all.len() - i,
{
    if i < all.len() {
        let entries = hybrid_entries(all);
        let (x, after) = get_entry(s)->Ok_0;
        let more = get_entries((all.len() - i - 1) as nat, after);
        assert(more is Ok);
        let tail = more->Ok_0.0;
        assert(seq![x] + tail == entries.skip(i as int));
        assert((seq![x] + tail)[0] == x);
        assert(x == entries[i as int]);
        assert(tail =~= (seq![x] + tail).drop_first());
        assert(entries.skip(i as int).drop_first() =~= entries.skip((i + 1) as int));
        lemma_regions_of_entries(all, i + 1, after, rest);
        assert(seq![all[i as int]] + all.skip((i + 1) as int) =~= all.skip(i as int));
    } else {
        assert(all.skip(i as int) =~= Seq::<Seq<char>>::empty());
    }
}

proof fn lemma_hybrid_round_trip(m: HybridManifestView)
    requires
        m.regions.len() <= usize::MAX,
        forall|i: int|
            0 <= i < m.regions.len() ==> entry_fits(#[trigger] hybrid_entries(m.regions)[i]),
    ensures
        decoded_hybrid(hybrid_bytes(m), m.dim as usize) == Ok::<_, error::ErrorView>(m),
{
    reveal(decoded_hybrid);
    reveal(get_hybrid_body);
    let flag = seq![
        if m.has_records {
            1u8
        } else {
            0u8
        },
    ];
    let entries = hybrid_entries(m.regions);
    let v = fileguard::le_bytes(HYBRID_VERSION as nat, 4);
    let d = fileguard::le_bytes(m.dim as nat, 4);
    let s = fileguard::le_bytes(m.seed as nat, 8);
    let b = fileguard::le_bytes(m.bits as nat, 8);
    let n = fileguard::le_bytes((m.regions.len() as u64) as nat, 8);
    let body = entries_bytes(entries) + flag;
    fileguard::lemma_regroup6(hybrid_magic(), v, d, s, b, n, body);
    let all = hybrid_bytes(m);
    assert(all.take(4) =~= hybrid_magic());
    assert(all.skip(4) =~= v + (d + (s + (b + (n + body)))));
    fileguard::lemma_get_u32("sharded-hybrid version"@, HYBRID_VERSION, d + (s + (b + (n + body))));
    fileguard::lemma_get_u32("sharded-hybrid dim"@, m.dim, s + (b + (n + body)));
    fileguard::lemma_get_u64("sharded-hybrid seed"@, m.seed, b + (n + body));
    fileguard::lemma_get_u64("sharded-hybrid bits"@, m.bits, n + body);
    fileguard::lemma_get_u64("manifest shards"@, m.regions.len() as u64, body);
    lemma_entries_round_trip(entries, flag);
    assert(entries.skip(0) =~= entries);
    lemma_regions_of_entries(m.regions, 0, body, flag);
    assert(m.regions.skip(0) =~= m.regions);
    assert(flag.skip(1) =~= Seq::<u8>::empty());
}

impl HybridManifest {
    /// The bytes of the manifest, which read back as the manifest.
    pub fn encode(&self) -> (out: Vec<u8>)
        ensures
            out@ == hybrid_bytes(self@),
            decoded_hybrid(out@, self.dim as usize) == Ok::<_, error::ErrorView>(self@),
    {
        let mut out: Vec<u8> = Vec::new();
        let head: [u8; 4] = [79, 83, 72, 72];
        put_slice(&mut out, head.as_slice());
        put_u32(&mut out, HYBRID_VERSION);
        put_u32(&mut out, self.dim);
        put_u64(&mut out, self.seed);
        put_u64(&mut out, self.bits);
        put_u64(&mut out, self.regions.len() as u64);
        let ghost start = out@;
        let ghost entries = hybrid_entries(self@.regions);
        let ghost parts = Seq::new(entries.len(), |i: int| entry_bytes(entries[i]));
        let mut i: usize = 0;
        proof {
            assert(head@ =~= hybrid_magic());
            assert(Seq::<u8>::empty() + hybrid_magic() =~= hybrid_magic());
            assert(parts.take(0) =~= Seq::<Seq<u8>>::empty());
            assert(start + fileguard::joined(parts.take(0)) =~= start);
        }
        while i < self.regions.len()
            invariant
                i <= self.regions@.len(),
                entries == hybrid_entries(self@.regions),
                parts == Seq::new(entries.len(), |i: int| entry_bytes(entries[i])),
                out@ == start + fileguard::joined(parts.take(i as int)),
                forall|j: int| 0 <= j < i ==> entry_fits(#[trigger] entries[j]),
            decreases self.regions@.len() - i,
        {
            let name = shard_dir_name(i as u64);
            put_entry(&mut out, self.regions[i].as_str(), name.as_str());
            proof {
                assert(entries[i as int] == (self.regions@[i as int]@, name@));
                let done = parts.take(i as int);
                assert(parts.take(i + 1) =~= done.push(parts[i as int]));
                fileguard::lemma_joined_push(done, parts[i as int]);
                assert(start + fileguard::joined(done) + parts[i as int] =~= start + (
                fileguard::joined(done) + parts[i as int]));
            }
            i += 1;
        }
        let ghost before = out@;
        out.push(
            if self.has_records {
                1
            } else {
                0
            },
        );
        proof {
            assert(parts.take(i as int) =~= parts);
            let n: usize = self.regions.len();
            assert(out@ =~= hybrid_bytes(self@));
            lemma_hybrid_round_trip(self@);
        }
        out
    }

    /// Reads a manifest for embeddings of a dimension.
    pub fn decode(bytes: &[u8], dim: usize) -> (r: Result<HybridManifest, StoreError>)
        ensures
            match r {
                Ok(m) => decoded_hybrid(bytes@, dim) == Ok::<_, error::ErrorView>(m@),
                Err(e) => decoded_hybrid(bytes@, dim) == Err::<HybridManifestView, _>(e@),
            },
    {
        proof {
            reveal(decoded_hybrid);
            reveal(get_hybrid_body);
        }
        let mut r = CountingReader::new(bytes);
        let head = read_counted("sharded-hybrid magic", 4, &mut r)?;
        if head[0] != 79 || head[1] != 83 || head[2] != 72 || head[3] != 72 {
            return Err(StoreError::invalid("not a sharded-hybrid manifest (bad magic)"));
        }
        proof {
            assert(head@ =~= hybrid_magic());
        }
        let version: u32 = read_u32_le("sharded-hybrid version", &mut r)?;
        if version > 2 || version == 0 {
            let mut m = "unsupported sharded-hybrid version ".to_owned();
            push_decimal(&mut m, version as u128);
            return Err(StoreError::new(ErrorKind::InvalidData, m));
        }
        let found: u32 = read_u32_le("sharded-hybrid dim", &mut r)?;
        let seed: u64 = read_u64_le("sharded-hybrid seed", &mut r)?;
        let bits: u64 = read_u64_le("sharded-hybrid bits", &mut r)?;
        if found as usize != dim {
            let mut m = "dim mismatch: manifest ".to_owned();
            push_decimal(&mut m, found as u128);
            m.append(", embedder ");
            push_decimal(&mut m, dim as u128);
            return Err(StoreError::new(ErrorKind::InvalidData, m));
        }
        let n: usize = read_u64_le("manifest shards", &mut r)? as usize;
        guard_count("manifest shards", n, MIN_ENTRY_BYTES, r.remaining() as u64)?;
        let regions = read_regions(&mut r, n)?;
        let has_records = if version >= 2 {
            let b: u8 = codec::read_u8("manifest records flag", &mut r)?;
            if b > 1 {
                let mut m = "manifest records flag must be 0 or 1, got ".to_owned();
                push_decimal(&mut m, b as u128);
                return Err(StoreError::new(ErrorKind::InvalidData, m));
            }
            b == 1
        } else {
            false
        };
        guard_no_trailing_bytes("sharded-hybrid manifest", r.remaining())?;
        Ok(HybridManifest { dim: found, seed, bits, regions, has_records })
    }
}

/// What the manifest of a spatial store writes down is read back.
pub proof fn law_shard_manifest_round_trip(m: ShardManifestView)
    requires
        m.shards.len() <= usize::MAX,
        forall|i: int| 0 <= i < m.shards.len() ==> entry_fits(#[trigger] m.shards[i]),
    ensures
        decoded_shards(shards_bytes(m), m.dim as usize) == Ok::<_, error::ErrorView>(m),
{
    lemma_shards_round_trip(m);
}

/// What the manifest of a hybrid store writes down is read back.
pub proof fn law_hybrid_manifest_round_trip(m: HybridManifestView)
    requires
        m.regions.len() <= usize::MAX,
        forall|i: int|
            0 <= i < m.regions.len() ==> entry_fits(#[trigger] hybrid_entries(m.regions)[i]),
    ensures
        decoded_hybrid(hybrid_bytes(m), m.dim as usize) == Ok::<_, error::ErrorView>(m),
{
    lemma_hybrid_round_trip(m);
}

/// No two regions have one directory or one file.
pub proof fn law_shard_names_differ(i: nat, j: nat)
    ensures
        shard_name(i) == shard_name(j) ==> i == j,
        shard_file(i) == shard_file(j) ==> i == j,
{
    let a = text::padded(i, 8);
    let b = text::padded(j, 8);
    let max = i + j;
    text::law_decimal_round_trip(i, 8, max);
    text::law_decimal_round_trip(j, 8, max);
    if shard_file(i) == shard_file(j) {
        assert(shard_name(i).len() == shard_name(j).len()) by {
            assert(shard_file(i).len() == shard_file(j).len());
        }
        assert(shard_file(i).take(shard_name(i).len() as int) =~= shard_name(i));
        assert(shard_file(j).take(shard_name(j).len() as int) =~= shard_name(j));
    }
    if shard_name(i) == shard_name(j) {
        assert(shard_name(i).skip("shard_"@.len() as int) =~= a);
        assert(shard_name(j).skip("shard_"@.len() as int) =~= b);
    }
}

} // verus!
