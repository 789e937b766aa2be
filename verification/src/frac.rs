//! The image of a spatial memory on disk: the versioned `FRAC` format.
//!
//! An image is a header (magic, version, dimension), the engine's parameters, the octree's
//! nodes and buckets, the items, the projection, and the payload arena as an LZ4 block, all
//! little-endian. Floating-point values are carried as their bit patterns.
use crate::error;
use crate::error::{ErrorKind, StoreError};
use crate::fileguard;
use crate::fileguard::{
    guard_count, guard_decompressed, guard_payload_bounds, put_slice, put_u32, put_u64, read_counted,
    read_u32_le, read_u64_le, CountingReader, Parsed,
};
use crate::text;
use crate::text::push_decimal;
use vstd::prelude::*;

verus! {

/// The version of the format.
pub const FILE_VERSION: u32 = 3;

/// The bytes of a node record.
pub const NODE_BYTES: usize = 52;

/// The bytes of an item record.
pub const ITEM_BYTES: usize = 28;

/// What stands for a missing child or bucket.
pub const NONE: u32 = 0xffff_ffff;

/// The four bytes `FRAC`.
pub open spec fn magic() -> Seq<u8> {
    seq![70u8, 82, 65, 67]
}

/// What `lz4_flex::decompress` returns: the bytes, or the text of its error.
pub uninterp spec fn lz4_decompressed(input: Seq<u8>, size: nat) -> Result<Seq<u8>, Seq<char>>;

/// From so many `0xFF` bytes on, a length field of an LZ4 block may overflow the machine's
/// words: the field is summed in 32 bits, and added to a place in the output.
pub open spec fn run_limit() -> nat {
    if usize::MAX == u32::MAX {
        8_000_000
    } else {
        16_843_009
    }
}

/// The number of `0xFF` bytes in a row from `i` on.
pub open spec fn run_from(s: Seq<u8>, i: int) -> nat
    decreases s.len() - i,
{
    if 0 <= i < s.len() && s[i] == 0xff {
        1 + run_from(s, i + 1)
    } else {
        0
    }
}

/// A length field, half a token and what follows at `i`, is too long.
pub open spec fn field_overlong(s: Seq<u8>, half: u8, i: int) -> bool {
    half == 15 && run_from(s, i) >= run_limit()
}

/// Where a length field ends: a half of fifteen goes on with `0xFF` bytes and one more.
pub open spec fn field_end(s: Seq<u8>, half: u8, i: int) -> int {
    if half == 15 {
        i + run_from(s, i) + 1
    } else {
        i
    }
}

/// The length that a field gives.
pub open spec fn field_value(s: Seq<u8>, half: u8, i: int) -> int {
    if half == 15 {
        15 + 255 * run_from(s, i) + s[i + run_from(s, i)]
    } else {
        half as int
    }
}

/// Some length field of the sequences from `at` on is too long. A sequence is a token, its
/// literals, the two bytes of an offset and the length of a match; the last ends with its
/// literals.
pub open spec fn overlong_from(s: Seq<u8>, at: int) -> bool
    decreases s.len() - at,
{
    if !(0 <= at < s.len()) {
        false
    } else {
        let literals = s[at] / 16;
        let matched = s[at] % 16;
        let start = field_end(s, literals, at + 1);
        if field_overlong(s, literals, at + 1) {
            true
        } else if start > s.len() {
            false
        } else {
            let back = start + field_value(s, literals, at + 1) + 2;
            if back > s.len() {
                false
            } else if field_overlong(s, matched, back) {
                true
            } else if field_end(s, matched, back) > s.len() {
                false
            } else {
                overlong_from(s, field_end(s, matched, back))
            }
        }
    }
}

/// Some length field of an LZ4 block is too long.
pub open spec fn overlong(block: Seq<u8>) -> bool {
    overlong_from(block, 0)
}

/// Decompressing the block with room for the input gives the input.
pub open spec fn restores(block: Seq<u8>, input: Seq<u8>) -> bool {
    lz4_decompressed(block, input.len()) == Ok::<_, Seq<char>>(input)
}

/// The block stands for the input: it is no shorter than a 255th of it, it restores it unless
/// some length field is too long, and none is where the input is not.
pub open spec fn packs(block: Seq<u8>, input: Seq<u8>) -> bool {
    &&& input.len() <= 255 * block.len()
    &&& !overlong(block) ==> restores(block, input)
    &&& input.len() < 255 * run_limit() ==> !overlong(block)
}

/// Calls `lz4_flex::compress`. The contract says that the block is no shorter than a 255th of
/// the input, that `lz4_flex::decompress` gives the input back from it unless a length field
/// is too long, and that a length field, which holds the length of a part of the input, is not
/// too long where the input is not. Which block it is depends on the machine.
#[verifier::external_body]
fn lz4_compress(input: &[u8]) -> (r: Vec<u8>)
    requires
        input@.len() * 110 <= isize::MAX,
    ensures
        packs(r@, input@),
{
    lz4_flex::compress(input)
}

/// Calls `lz4_flex::decompress`. The contract names the result and says that no more bytes
/// come out than the given size. A block with a length field that is too long is left out:
/// summing the field could overflow.
#[verifier::external_body]
fn lz4_decompress(input: &[u8], size: usize) -> (r: Result<Vec<u8>, String>)
    requires
        !overlong(input@),
        size <= isize::MAX,
    ensures
        match r {
            Ok(v) => lz4_decompressed(input@, size as nat) == Ok::<_, Seq<char>>(v@) && v@.len()
                <= size,
            Err(e) => lz4_decompressed(input@, size as nat) == Err::<Seq<u8>, _>(e@),
        },
{
    lz4_flex::decompress(input, size).map_err(|e| e.to_string())
}

/// The number of `0xFF` bytes from which a length field is too long.
fn longest_run() -> (n: usize)
    ensures
        n == run_limit(),
{
    if usize::MAX as u64 == u32::MAX as u64 {
        8_000_000
    } else {
        16_843_009
    }
}

/// Counts the `0xFF` bytes in a row from `i` on, no further than to a limit.
fn count_run(s: &[u8], i: usize, limit: usize) -> (n: usize)
    requires
        i <= s@.len(),
    ensures
        n <= limit,
        n < limit ==> n == run_from(s@, i as int),
        n == limit ==> run_from(s@, i as int) >= limit,
        i + n <= s@.len(),
{
    let mut n: usize = 0;
    while n < limit && n < s.len() - i && s[i + n] == 0xff
        invariant
            n <= limit,
            i + n <= s@.len(),
            run_from(s@, i as int) == n + run_from(s@, i + n),
        decreases s@.len() - i - n,
    {
        n += 1;
    }
    n
}

/// Whether some length field of an LZ4 block is too long.
fn is_overlong(s: &[u8]) -> (r: bool)
    ensures
        r == overlong(s@),
{
    let limit: usize = longest_run();
    let mut at: usize = 0;
    while at < s.len()
        invariant
            at <= s@.len(),
            limit == run_limit(),
            overlong(s@) == overlong_from(s@, at as int),
        decreases s@.len() - at,
    {
        let literals: u8 = s[at] / 16;
        let matched: u8 = s[at] % 16;
        let mut start: usize = at + 1;
        let mut count: usize = literals as usize;
        if literals == 15 {
            let run: usize = count_run(s, start, limit);
            if run == limit {
                return true;
            }
            if run == s.len() - start {
                return false;
            }
            count = 15 + 255 * run + s[start + run] as usize;
            start = start + run + 1;
        }
        if count > s.len() - start || s.len() - start - count < 2 {
            return false;
        }
        let back: usize = start + count + 2;
        at = back;
        if matched == 15 {
            let run: usize = count_run(s, back, limit);
            if run == limit {
                return true;
            }
            if run == s.len() - back {
                return false;
            }
            at = back + run + 1;
        }
    }
    false
}

/// A list of records of one kind, read one after another.
pub open spec fn get_list<T>(item: spec_fn(Seq<u8>) -> Parsed<T>, n: nat, s: Seq<u8>) -> Parsed<
    Seq<T>,
>
    decreases n,
{
    if n == 0 {
        Ok((Seq::empty(), s))
    } else {
        match item(s) {
            Err(e) => Err(e),
            Ok((x, s)) => fileguard::prepended(seq![x], get_list(item, (n - 1) as nat, s)),
        }
    }
}

/// A list with its number of records as a `u64` before it; each record takes at least
/// `min` bytes.
pub open spec fn get_counted_list<T>(
    what: Seq<char>,
    min: nat,
    item: spec_fn(Seq<u8>) -> Parsed<T>,
    s: Seq<u8>,
) -> Parsed<Seq<T>> {
    match fileguard::get_u64(what, s) {
        Err(e) => Err(e),
        Ok((n, s)) => if (n as usize) * min > s.len() {
            Err(
                error::invalid_data(
                    fileguard::count_message(what, (n as usize) as nat, min, s.len()),
                ),
            )
        } else {
            get_list(item, (n as usize) as nat, s)
        },
    }
}

/// The bytes of a list with its number of records before it.
pub open spec fn counted(parts: Seq<Seq<u8>>) -> Seq<u8> {
    fileguard::le_bytes((parts.len() as u64) as nat, 8) + fileguard::joined(parts)
}

/// A list reads back where each of its records does.
proof fn lemma_list_round_trip<T>(
    item: spec_fn(Seq<u8>) -> Parsed<T>,
    parts: Seq<Seq<u8>>,
    values: Seq<T>,
    rest: Seq<u8>,
)
    requires
        parts.len() == values.len(),
        forall|i: int, after: Seq<u8>|
            0 <= i < parts.len() ==> #[trigger] item(parts[i] + after) == Ok::<_, error::ErrorView>(
                (values[i], after),
            ),
    ensures
        get_list(item, parts.len(), fileguard::joined(parts) + rest) == Ok::<_, error::ErrorView>(
            (values, rest),
        ),
    decreases parts.len(),
{
    if parts.len() == 0 {
        assert(fileguard::joined(parts) + rest =~= rest);
        assert(values =~= Seq::<T>::empty());
    } else {
        let more = parts.drop_first();
        let others = values.drop_first();
        assert forall|i: int, after: Seq<u8>| 0 <= i < more.len() implies #[trigger] item(
            more[i] + after,
        ) == Ok::<_, error::ErrorView>((others[i], after)) by {
            assert(more[i] == parts[i + 1]);
            assert(item(parts[i + 1] + after) == Ok::<_, error::ErrorView>(
                (values[i + 1], after),
            ));
        }
        lemma_list_round_trip(item, more, others, rest);
        assert(fileguard::joined(parts) + rest =~= parts[0] + (fileguard::joined(more) + rest));
        assert(item(parts[0] + (fileguard::joined(more) + rest)) == Ok::<_, error::ErrorView>(
            (values[0], fileguard::joined(more) + rest),
        ));
        assert(seq![values[0]] + others =~= values);
    }
}

/// A counted list reads back where each of its records does and takes its least size.
proof fn lemma_counted_round_trip<T>(
    what: Seq<char>,
    min: nat,
    item: spec_fn(Seq<u8>) -> Parsed<T>,
    parts: Seq<Seq<u8>>,
    values: Seq<T>,
    rest: Seq<u8>,
)
    requires
        parts.len() <= usize::MAX,
        parts.len() == values.len(),
        forall|i: int| 0 <= i < parts.len() ==> (#[trigger] parts[i]).len() >= min,
        forall|i: int, after: Seq<u8>|
            0 <= i < parts.len() ==> #[trigger] item(parts[i] + after) == Ok::<_, error::ErrorView>(
                (values[i], after),
            ),
    ensures
        get_counted_list(what, min, item, counted(parts) + rest) == Ok::<_, error::ErrorView>(
            (values, rest),
        ),
{
    let body = fileguard::joined(parts);
    assert(counted(parts) + rest =~= fileguard::le_bytes(parts.len(), 8) + (body + rest));
    fileguard::lemma_get_u64(what, parts.len() as u64, body + rest);
    fileguard::lemma_joined_len(parts, min);
    lemma_list_round_trip(item, parts, values, rest);
}

/// The reader of a word.
pub open spec fn word() -> spec_fn(Seq<u8>) -> Parsed<u32> {
    |s: Seq<u8>| fileguard::get_u32("FRAC word"@, s)
}

/// The reader of `n` words.
pub open spec fn words(n: nat) -> spec_fn(Seq<u8>) -> Parsed<Seq<u32>> {
    |s: Seq<u8>| get_list(word(), n, s)
}

/// The reader of a bucket: its items after their number.
pub open spec fn bucket() -> spec_fn(Seq<u8>) -> Parsed<Seq<u32>> {
    |s: Seq<u8>| get_counted_list("FRAC bucket"@, 4, word(), s)
}

/// The bytes of each word.
pub open spec fn word_parts(w: Seq<u32>) -> Seq<Seq<u8>> {
    Seq::new(w.len(), |i: int| fileguard::le_bytes(w[i] as nat, 4))
}

/// The bytes of words.
pub open spec fn word_bytes(w: Seq<u32>) -> Seq<u8> {
    fileguard::joined(word_parts(w))
}

/// An item of an image: its point as bit patterns, and its payload in the arena.
#[derive(Clone, Copy, Debug)]
pub struct ItemRecord {
    /// The bit patterns of the point's coordinates.
    pub point: [u32; 3],
    /// Where the payload begins.
    pub payload_offset: usize,
    /// The bytes of the payload.
    pub payload_len: usize,
}

/// An item as a value.
pub struct ItemView {
    pub point: Seq<u32>,
    pub offset: usize,
    pub len: usize,
}

impl View for ItemRecord {
    type V = ItemView;

    open spec fn view(&self) -> ItemView {
        ItemView { point: self.point@, offset: self.payload_offset, len: self.payload_len }
    }
}

/// The reader of an item.
pub open spec fn item() -> spec_fn(Seq<u8>) -> Parsed<ItemView> {
    |s: Seq<u8>| get_item(s)
}

/// Reads an item.
pub open spec fn get_item(s: Seq<u8>) -> Parsed<ItemView> {
    match get_list(word(), 3, s) {
        Err(e) => Err(e),
        Ok((point, s)) => match fileguard::get_u64("FRAC item offset"@, s) {
            Err(e) => Err(e),
            Ok((offset, s)) => match fileguard::get_u64("FRAC item length"@, s) {
                Err(e) => Err(e),
                Ok((len, s)) => Ok(
                    (ItemView { point, offset: offset as usize, len: len as usize }, s),
                ),
            },
        },
    }
}

/// The bytes of an item.
pub open spec fn item_bytes(i: ItemView) -> Seq<u8> {
    word_bytes(i.point) + fileguard::le_bytes((i.offset as u64) as nat, 8) + fileguard::le_bytes(
        (i.len as u64) as nat,
        8,
    )
}

/// A node of an image: its cell as bit patterns, its children and its bucket.
#[derive(Clone, Copy, Debug)]
pub struct NodeRecord {
    /// The bit patterns of the cell's centre.
    pub center: [u32; 3],
    /// The bit pattern of half the cell's side.
    pub half_size: u32,
    /// The child of each octant.
    pub children: [u32; 8],
    /// The bucket of a leaf.
    pub bucket_id: u32,
}

impl View for NodeRecord {
    type V = Seq<u32>;

    open spec fn view(&self) -> Seq<u32> {
        self.center@.push(self.half_size) + self.children@.push(self.bucket_id)
    }
}

/// The views of nodes.
pub open spec fn node_views(v: Seq<NodeRecord>) -> Seq<Seq<u32>> {
    v.map_values(|n: NodeRecord| n@)
}

/// The views of buckets.
pub open spec fn bucket_views(v: Seq<Vec<u32>>) -> Seq<Seq<u32>> {
    v.map_values(|b: Vec<u32>| b@)
}

/// The views of items.
pub open spec fn item_views(v: Seq<ItemRecord>) -> Seq<ItemView> {
    v.map_values(|i: ItemRecord| i@)
}

/// The image of a spatial memory.
#[derive(Debug)]
pub struct FracImage {
    /// The dimension of the embeddings.
    pub high_dim: u32,
    /// The bit pattern of half the world's side.
    pub world_half_size: u32,
    /// The items that a leaf holds before it subdivides.
    pub bucket_capacity: u64,
    /// The bit pattern of half the side of the smallest cell.
    pub min_half_size: u32,
    /// The nodes.
    pub nodes: Vec<NodeRecord>,
    /// The buckets of the leaves.
    pub buckets: Vec<Vec<u32>>,
    /// The items.
    pub items: Vec<ItemRecord>,
    /// The bit patterns of the projection.
    pub projection: Vec<u32>,
    /// The payloads.
    pub arena: Vec<u8>,
}

/// An image as a value.
pub struct ImageView {
    pub high_dim: u32,
    pub world_half_size: u32,
    pub bucket_capacity: u64,
    pub min_half_size: u32,
    pub nodes: Seq<Seq<u32>>,
    pub buckets: Seq<Seq<u32>>,
    pub items: Seq<ItemView>,
    pub projection: Seq<u32>,
    pub arena: Seq<u8>,
}

impl View for FracImage {
    type V = ImageView;

    open spec fn view(&self) -> ImageView {
        ImageView {
            high_dim: self.high_dim,
            world_half_size: self.world_half_size,
            bucket_capacity: self.bucket_capacity,
            min_half_size: self.min_half_size,
            nodes: node_views(self.nodes@),
            buckets: bucket_views(self.buckets@),
            items: item_views(self.items@),
            projection: self.projection@,
            arena: self.arena@,
        }
    }
}

/// Appends words.
fn put_words(out: &mut Vec<u8>, w: &[u32])
    ensures
        final(out)@ == old(out)@ + word_bytes(w@),
{
    let ghost start = out@;
    let mut i: usize = 0;
    proof {
        assert(word_parts(w@).take(0) =~= Seq::<Seq<u8>>::empty());
        assert(start + fileguard::joined(word_parts(w@).take(0)) =~= start);
    }
    while i < w.len()
        invariant
            i <= w@.len(),
            out@ == start + fileguard::joined(word_parts(w@).take(i as int)),
        decreases w@.len() - i,
    {
        let ghost before = out@;
        put_u32(out, w[i]);
        proof {
            let done = word_parts(w@).take(i as int);
            let part = fileguard::le_bytes(w@[i as int] as nat, 4);
            assert(word_parts(w@).take(i + 1) =~= done.push(part));
            fileguard::lemma_joined_push(done, part);
            assert(start + fileguard::joined(done) + part =~= start + (fileguard::joined(done)
                + part));
        }
        i += 1;
    }
    proof {
        assert(word_parts(w@).take(i as int) =~= word_parts(w@));
    }
}

/// Reads `n` words.
fn read_words(r: &mut CountingReader<'_>, n: usize) -> (v: Result<Vec<u32>, StoreError>)
    ensures
        fileguard::agrees(
            v,
            |v: Vec<u32>| v@,
            final(r).rest(),
            get_list(word(), n as nat, old(r).rest()),
        ),
{
    let ghost start = r.rest();
    let mut list: Vec<u32> = Vec::new();
    let mut i: usize = 0;
    proof {
        fileguard::lemma_prepended_nothing(get_list(word(), n as nat, start));
    }
    while i < n
        invariant
            i <= n,
            get_list(word(), n as nat, start) == fileguard::prepended(
                list@,
                get_list(word(), (n - i) as nat, r.rest()),
            ),
            start == old(r).rest(),
        decreases n - i,
    {
        let ghost before = list@;
        let w: u32 = read_u32_le("FRAC word", r)?;
        list.push(w);
        i += 1;
        proof {
            fileguard::lemma_prepended(before, w, get_list(word(), (n - i) as nat, r.rest()));
        }
    }
    proof {
        assert(list@ + Seq::<u32>::empty() =~= list@);
    }
    Ok(list)
}

/// Reads words after their number.
fn read_counted_words(what: &str, r: &mut CountingReader<'_>) -> (v: Result<Vec<u32>, StoreError>)
    ensures
        fileguard::agrees(
            v,
            |v: Vec<u32>| v@,
            final(r).rest(),
            get_counted_list(what@, 4, word(), old(r).rest()),
        ),
{
    let n: usize = read_u64_le(what, r)? as usize;
    guard_count(what, n, 4, r.remaining() as u64)?;
    read_words(r, n)
}

/// Appends words after their number.
fn put_counted_words(out: &mut Vec<u8>, w: &[u32])
    ensures
        final(out)@ == old(out)@ + counted(word_parts(w@)),
{
    let ghost start = out@;
    put_u64(out, w.len() as u64);
    put_words(out, w);
    proof {
        assert(out@ =~= start + counted(word_parts(w@)));
    }
}

/// A list of at least `n` words has at least `n` of them after a read.
proof fn lemma_list_len<T>(item: spec_fn(Seq<u8>) -> Parsed<T>, n: nat, s: Seq<u8>)
    ensures
        get_list(item, n, s) matches Ok(p) ==> p.0.len() == n,
    decreases n,
{
    if n > 0 {
        if let Ok((x, s)) = item(s) {
            lemma_list_len(item, (n - 1) as nat, s);
        }
    }
}

/// Reads a node.
fn read_node(r: &mut CountingReader<'_>) -> (v: Result<NodeRecord, StoreError>)
    ensures
        fileguard::agrees(v, |v: NodeRecord| v@, final(r).rest(), words(13)(old(r).rest())),
{
    proof {
        lemma_list_len(word(), 13, r.rest());
    }
    let w = read_words(r, 13)?;
    let node = NodeRecord {
        center: [w[0], w[1], w[2]],
        half_size: w[3],
        children: [w[4], w[5], w[6], w[7], w[8], w[9], w[10], w[11]],
        bucket_id: w[12],
    };
    proof {
        assert(node@ =~= w@);
    }
    Ok(node)
}

/// Reads an item.
fn read_item(r: &mut CountingReader<'_>) -> (v: Result<ItemRecord, StoreError>)
    ensures
        fileguard::agrees(v, |v: ItemRecord| v@, final(r).rest(), item()(old(r).rest())),
{
    proof {
        lemma_list_len(word(), 3, r.rest());
    }
    let w = read_words(r, 3)?;
    let payload_offset: usize = read_u64_le("FRAC item offset", r)? as usize;
    let payload_len: usize = read_u64_le("FRAC item length", r)? as usize;
    let record = ItemRecord { point: [w[0], w[1], w[2]], payload_offset, payload_len };
    proof {
        assert(record@.point =~= w@);
    }
    Ok(record)
}

/// Reads the nodes.
fn read_nodes(r: &mut CountingReader<'_>) -> (v: Result<Vec<NodeRecord>, StoreError>)
    ensures
        fileguard::agrees(
            v,
            |v: Vec<NodeRecord>| node_views(v@),
            final(r).rest(),
            get_counted_list("FRAC nodes"@, NODE_BYTES as nat, words(13), old(r).rest()),
        ),
{
    let n: usize = read_u64_le("FRAC nodes", r)? as usize;
    guard_count("FRAC nodes", n, NODE_BYTES, r.remaining() as u64)?;
    let ghost start = r.rest();
    let mut list: Vec<NodeRecord> = Vec::new();
    let mut i: usize = 0;
    proof {
        fileguard::lemma_prepended_nothing(get_list(words(13), n as nat, start));
        assert(node_views(list@) =~= Seq::<Seq<u32>>::empty());
    }
    while i < n
        invariant
            i <= n,
            get_list(words(13), n as nat, start) == fileguard::prepended(
                node_views(list@),
                get_list(words(13), (n - i) as nat, r.rest()),
            ),
            get_counted_list("FRAC nodes"@, NODE_BYTES as nat, words(13), old(r).rest())
                == get_list(words(13), n as nat, start),
        decreases n - i,
    {
        let ghost before = node_views(list@);
        let node = read_node(r)?;
        proof {
            fileguard::lemma_prepended(
                before,
                node@,
                get_list(words(13), (n - i - 1) as nat, r.rest()),
            );
            assert(node_views(list@.push(node)) =~= before.push(node@));
        }
        list.push(node);
        i += 1;
    }
    proof {
        assert(node_views(list@) + Seq::<Seq<u32>>::empty() =~= node_views(list@));
    }
    Ok(list)
}

/// Reads the buckets.
fn read_buckets(r: &mut CountingReader<'_>) -> (v: Result<Vec<Vec<u32>>, StoreError>)
    ensures
        fileguard::agrees(
            v,
            |v: Vec<Vec<u32>>| bucket_views(v@),
            final(r).rest(),
            get_counted_list("FRAC buckets"@, 8, bucket(), old(r).rest()),
        ),
{
    let n: usize = read_u64_le("FRAC buckets", r)? as usize;
    guard_count("FRAC buckets", n, 8, r.remaining() as u64)?;
    let ghost start = r.rest();
    let mut list: Vec<Vec<u32>> = Vec::new();
    let mut i: usize = 0;
    proof {
        fileguard::lemma_prepended_nothing(get_list(bucket(), n as nat, start));
        assert(bucket_views(list@) =~= Seq::<Seq<u32>>::empty());
    }
    while i < n
        invariant
            i <= n,
            get_list(bucket(), n as nat, start) == fileguard::prepended(
                bucket_views(list@),
                get_list(bucket(), (n - i) as nat, r.rest()),
            ),
            get_counted_list("FRAC buckets"@, 8, bucket(), old(r).rest()) == get_list(
                bucket(),
                n as nat,
                start,
            ),
        decreases n - i,
    {
        let ghost before = bucket_views(list@);
        let b = read_counted_words("FRAC bucket", r)?;
        proof {
            fileguard::lemma_prepended(
                before,
                b@,
                get_list(bucket(), (n - i - 1) as nat, r.rest()),
            );
            assert(bucket_views(list@.push(b)) =~= before.push(b@));
        }
        list.push(b);
        i += 1;
    }
    proof {
        assert(bucket_views(list@) + Seq::<Seq<u32>>::empty() =~= bucket_views(list@));
    }
    Ok(list)
}

/// Reads the items.
fn read_items(r: &mut CountingReader<'_>) -> (v: Result<Vec<ItemRecord>, StoreError>)
    ensures
        fileguard::agrees(
            v,
            |v: Vec<ItemRecord>| item_views(v@),
            final(r).rest(),
            get_counted_list("FRAC items"@, ITEM_BYTES as nat, item(), old(r).rest()),
        ),
{
    let n: usize = read_u64_le("FRAC items", r)? as usize;
    guard_count("FRAC items", n, ITEM_BYTES, r.remaining() as u64)?;
    let ghost start = r.rest();
    let mut list: Vec<ItemRecord> = Vec::new();
    let mut i: usize = 0;
    proof {
        fileguard::lemma_prepended_nothing(get_list(item(), n as nat, start));
        assert(item_views(list@) =~= Seq::<ItemView>::empty());
    }
    while i < n
        invariant
            i <= n,
            get_list(item(), n as nat, start) == fileguard::prepended(
                item_views(list@),
                get_list(item(), (n - i) as nat, r.rest()),
            ),
            get_counted_list("FRAC items"@, ITEM_BYTES as nat, item(), old(r).rest())
                == get_list(item(), n as nat, start),
        decreases n - i,
    {
        let ghost before = item_views(list@);
        let x = read_item(r)?;
        proof {
            fileguard::lemma_prepended(
                before,
                x@,
                get_list(item(), (n - i - 1) as nat, r.rest()),
            );
            assert(item_views(list@.push(x)) =~= before.push(x@));
        }
        list.push(x);
        i += 1;
    }
    proof {
        assert(item_views(list@) + Seq::<ItemView>::empty() =~= item_views(list@));
    }
    Ok(list)
}

/// The four bytes as `Debug` shows an array of them.
pub open spec fn shown(b: Seq<u8>) -> Seq<char> {
    "["@ + text::decimal(b[0] as nat) + ", "@ + text::decimal(b[1] as nat) + ", "@ + text::decimal(
        b[2] as nat,
    ) + ", "@ + text::decimal(b[3] as nat) + "]"@
}

fn push_shown(m: &mut String, b: &[u8])
    requires
        b@.len() == 4,
    ensures
        final(m)@ == old(m)@ + shown(b@),
{
    let ghost start = m@;
    m.append("[");
    push_decimal(m, b[0] as u128);
    m.append(", ");
    push_decimal(m, b[1] as u128);
    m.append(", ");
    push_decimal(m, b[2] as u128);
    m.append(", ");
    push_decimal(m, b[3] as u128);
    m.append("]");
    proof {
        assert(m@ =~= start + shown(b@));
    }
}

/// The error of a file with another magic.
pub open spec fn magic_error(got: Seq<u8>) -> error::ErrorView {
    error::invalid_data("invalid magic: expected "@ + shown(magic()) + ", got "@ + shown(got))
}

/// The error of a file of another version.
pub open spec fn version_error(version: u32) -> error::ErrorView {
    error::invalid_data(
        "unsupported file version "@ + text::decimal(version as nat)
            + " (this build writes/reads v"@ + text::decimal(FILE_VERSION as nat) + ")"@,
    )
}

/// The error of a file of another dimension.
pub open spec fn dimension_error(found: u32, expected: usize) -> error::ErrorView {
    error::invalid_data(
        "high_dim mismatch: file has "@ + text::decimal(found as nat) + ", caller expected "@
            + text::decimal(expected as nat),
    )
}

/// Reads the header: the magic, the version and the dimension, which are checked in this
/// order once all three are there.
pub open spec fn get_header(s: Seq<u8>, expected: usize) -> Parsed<u32> {
    if s.len() < 4 {
        Err(error::invalid_data(fileguard::count_message("FRAC magic"@, 4, 1, s.len())))
    } else {
        match fileguard::get_u32("FRAC version"@, s.skip(4)) {
            Err(e) => Err(e),
            Ok((version, rest)) => match fileguard::get_u32("FRAC high_dim"@, rest) {
                Err(e) => Err(e),
                Ok((high_dim, rest)) => if s.take(4) != magic() {
                    Err(magic_error(s.take(4)))
                } else if version != FILE_VERSION {
                    Err(version_error(version))
                } else if high_dim as usize != expected {
                    Err(dimension_error(high_dim, expected))
                } else {
                    Ok((high_dim, rest))
                },
            },
        }
    }
}

/// Reads the header.
fn read_header(r: &mut CountingReader<'_>, expected: usize) -> (v: Result<u32, StoreError>)
    ensures
        fileguard::agrees(v, |v: u32| v, final(r).rest(), get_header(old(r).rest(), expected)),
{
    let head = read_counted("FRAC magic", 4, r)?;
    let version: u32 = read_u32_le("FRAC version", r)?;
    let high_dim: u32 = read_u32_le("FRAC high_dim", r)?;
    let want: [u8; 4] = [70, 82, 65, 67];
    proof {
        assert(want@ =~= magic());
    }
    if head[0] != 70 || head[1] != 82 || head[2] != 65 || head[3] != 67 {
        let mut m = "invalid magic: expected ".to_owned();
        push_shown(&mut m, want.as_slice());
        m.append(", got ");
        push_shown(&mut m, head.as_slice());
        return Err(StoreError::new(ErrorKind::InvalidData, m));
    }
    proof {
        assert(head@ =~= magic());
    }
    if version != FILE_VERSION {
        let mut m = "unsupported file version ".to_owned();
        push_decimal(&mut m, version as u128);
        m.append(" (this build writes/reads v");
        push_decimal(&mut m, FILE_VERSION as u128);
        m.append(")");
        return Err(StoreError::new(ErrorKind::InvalidData, m));
    }
    if high_dim as usize != expected {
        let mut m = "high_dim mismatch: file has ".to_owned();
        push_decimal(&mut m, high_dim as u128);
        m.append(", caller expected ");
        push_decimal(&mut m, expected as u128);
        return Err(StoreError::new(ErrorKind::InvalidData, m));
    }
    Ok(high_dim)
}

/// The error of an arena that `lz4_flex` does not decompress.
pub open spec fn arena_error(why: Seq<char>) -> error::ErrorView {
    error::invalid_data("lz4 decompression failed: "@ + why)
}

/// Reads the arena: its length, the length of its LZ4 block, and the block.
#[verifier::opaque]
pub open spec fn get_arena(s: Seq<u8>) -> Parsed<Seq<u8>> {
    match fileguard::get_u64("FRAC arena length"@, s) {
        Err(e) => Err(e),
        Ok((size, s)) => match fileguard::get_u64("FRAC arena"@, s) {
            Err(e) => Err(e),
            Ok((comp, s)) => if (comp as usize) > s.len() {
                Err(
                    error::invalid_data(
                        fileguard::count_message(
                            "FRAC arena"@,
                            (comp as usize) as nat,
                            1,
                            s.len(),
                        ),
                    ),
                )
            } else if size > (comp as usize) * fileguard::MAX_LZ4_RATIO {
                Err(
                    error::invalid_data(
                        "FRAC arena"@ + ": declared decompressed length "@ + text::decimal(
                            size as nat,
                        ) + " exceeds "@ + text::decimal(fileguard::MAX_LZ4_RATIO as nat)
                            + "x the "@ + text::decimal((comp as usize) as nat)
                            + " compressed bytes — corrupt or hostile"@,
                    ),
                )
            } else {
                match unpacked(s.take((comp as usize) as int), size) {
                    Err(e) => Err(e),
                    Ok(arena) => Ok((arena, s.skip((comp as usize) as int))),
                }
            },
        },
    }
}

/// The bytes of an LZ4 block of a declared size.
pub open spec fn unpacked(block: Seq<u8>, size: u64) -> Result<Seq<u8>, error::ErrorView> {
    if size > isize::MAX {
        Err(arena_error("the declared size exceeds the address space"@))
    } else if overlong(block) {
        Err(arena_error("a length field overflows"@))
    } else {
        match lz4_decompressed(block, size as nat) {
            Ok(arena) => Ok(arena),
            Err(why) => Err(arena_error(why)),
        }
    }
}

/// Decompresses an LZ4 block of a declared size.
fn unpack(block: &[u8], size: u64) -> (r: Result<Vec<u8>, StoreError>)
    ensures
        match r {
            Ok(v) => unpacked(block@, size) == Ok::<_, error::ErrorView>(v@),
            Err(e) => unpacked(block@, size) == Err::<Seq<u8>, _>(e@),
        },
{
    let mut m = "lz4 decompression failed: ".to_owned();
    if size > isize::MAX as u64 {
        m.append("the declared size exceeds the address space");
        return Err(StoreError::new(ErrorKind::InvalidData, m));
    }
    if is_overlong(block) {
        m.append("a length field overflows");
        return Err(StoreError::new(ErrorKind::InvalidData, m));
    }
    match lz4_decompress(block, size as usize) {
        Ok(v) => Ok(v),
        Err(why) => {
            m.append(&why);
            Err(StoreError::new(ErrorKind::InvalidData, m))
        },
    }
}

/// Reads the arena.
fn read_arena(r: &mut CountingReader<'_>) -> (v: Result<Vec<u8>, StoreError>)
    ensures
        fileguard::agrees(v, |v: Vec<u8>| v@, final(r).rest(), get_arena(old(r).rest())),
{
    proof {
        reveal(get_arena);
    }
    let size: u64 = read_u64_le("FRAC arena length", r)?;
    let comp: usize = read_u64_le("FRAC arena", r)? as usize;
    guard_count("FRAC arena", comp, 1, r.remaining() as u64)?;
    guard_decompressed("FRAC arena", size, comp as u64)?;
    let block = r.read_exact(comp)?;
    unpack(block.as_slice(), size)
}

/// The error of the first item from `i` on whose payload falls outside the arena.
pub open spec fn first_outside(items: Seq<ItemView>, i: int, arena_len: nat) -> Option<
    error::ErrorView,
>
    decreases items.len() - i,
{
    if !(0 <= i < items.len()) {
        None
    } else if items[i].offset + items[i].len > arena_len {
        Some(
            error::invalid_data(
                "FRAC item"@ + ": payload record ["@ + text::decimal(items[i].offset as nat)
                    + ", "@ + text::decimal(items[i].offset as nat) + "+"@ + text::decimal(
                    items[i].len as nat,
                ) + ") exceeds the "@ + text::decimal(arena_len) + "-byte payload arena"@,
            ),
        )
    } else {
        first_outside(items, i + 1, arena_len)
    }
}

/// Holds every item's payload against the arena.
fn check_payloads(items: &Vec<ItemRecord>, arena_len: usize) -> (r: Result<(), StoreError>)
    ensures
        match r {
            Ok(_) => first_outside(item_views(items@), 0, arena_len as nat) is None,
            Err(e) => first_outside(item_views(items@), 0, arena_len as nat) == Some(e@),
        },
{
    let mut i: usize = 0;
    while i < items.len()
        invariant
            i <= items@.len(),
            first_outside(item_views(items@), 0, arena_len as nat) == first_outside(
                item_views(items@),
                i as int,
                arena_len as nat,
            ),
        decreases items@.len() - i,
    {
        proof {
            assert(item_views(items@)[i as int] == items@[i as int]@);
        }
        guard_payload_bounds(
            "FRAC item",
            items[i].payload_offset,
            items[i].payload_len,
            arena_len,
        )?;
        i += 1;
    }
    Ok(())
}

/// Reads an image for embeddings of the expected dimension.
#[verifier::opaque]
pub open spec fn get_image(bytes: Seq<u8>, expected: usize) -> Parsed<ImageView> {
    match get_header(bytes, expected) {
        Err(e) => Err(e),
        Ok((high_dim, s)) => match fileguard::get_u32("FRAC world half size"@, s) {
            Err(e) => Err(e),
            Ok((world_half_size, s)) => match fileguard::get_u64("FRAC bucket capacity"@, s) {
                Err(e) => Err(e),
                Ok((bucket_capacity, s)) => match fileguard::get_u32("FRAC min half size"@, s) {
                    Err(e) => Err(e),
                    Ok((min_half_size, s)) => match get_body(s) {
                        Err(e) => Err(e),
                        Ok(((nodes, buckets, items, projection, arena), s)) => Ok(
                            (
                                ImageView {
                                    high_dim,
                                    world_half_size,
                                    bucket_capacity,
                                    min_half_size,
                                    nodes,
                                    buckets,
                                    items,
                                    projection,
                                    arena,
                                },
                                s,
                            ),
                        ),
                    },
                },
            },
        },
    }
}

/// What reading an image for embeddings of the expected dimension gives; bytes after the
/// image are not looked at.
pub open spec fn decoded_image(bytes: Seq<u8>, expected: usize) -> Result<
    ImageView,
    error::ErrorView,
> {
    match get_image(bytes, expected) {
        Ok((image, _)) => Ok(image),
        Err(e) => Err(e),
    }
}

/// Reads the lists and the arena of an image.
#[verifier::opaque]
pub open spec fn get_body(s: Seq<u8>) -> Parsed<
    (Seq<Seq<u32>>, Seq<Seq<u32>>, Seq<ItemView>, Seq<u32>, Seq<u8>),
> {
    match get_counted_list("FRAC nodes"@, NODE_BYTES as nat, words(13), s) {
        Err(e) => Err(e),
        Ok((nodes, s)) => match get_counted_list("FRAC buckets"@, 8, bucket(), s) {
            Err(e) => Err(e),
            Ok((buckets, s)) => match get_counted_list(
                "FRAC items"@,
                ITEM_BYTES as nat,
                item(),
                s,
            ) {
                Err(e) => Err(e),
                Ok((items, s)) => match get_counted_list("FRAC projection"@, 4, word(), s) {
                    Err(e) => Err(e),
                    Ok((projection, s)) => match get_arena(s) {
                        Err(e) => Err(e),
                        Ok((arena, s)) => match first_outside(items, 0, arena.len()) {
                            Some(e) => Err(e),
                            None => Ok(((nodes, buckets, items, projection, arena), s)),
                        },
                    },
                },
            },
        },
    }
}

impl FracImage {
    /// Reads an image for embeddings of the expected dimension. Bytes after the arena are
    /// not looked at.
    pub fn decode(bytes: &[u8], expected_high_dim: usize) -> (r: Result<FracImage, StoreError>)
        ensures
            match r {
                Ok(image) => decoded_image(bytes@, expected_high_dim) == Ok::<
                    _,
                    error::ErrorView,
                >(image@),
                Err(e) => decoded_image(bytes@, expected_high_dim) == Err::<ImageView, _>(e@),
            },
    {
        proof {
            reveal(get_image);
            reveal(get_body);
        }
        let mut r = CountingReader::new(bytes);
        let high_dim: u32 = read_header(&mut r, expected_high_dim)?;
        let world_half_size: u32 = read_u32_le("FRAC world half size", &mut r)?;
        let bucket_capacity: u64 = read_u64_le("FRAC bucket capacity", &mut r)?;
        let min_half_size: u32 = read_u32_le("FRAC min half size", &mut r)?;
        let nodes = read_nodes(&mut r)?;
        let buckets = read_buckets(&mut r)?;
        let items = read_items(&mut r)?;
        let projection = read_counted_words("FRAC projection", &mut r)?;
        let arena = read_arena(&mut r)?;
        check_payloads(&items, arena.len())?;
        Ok(
            FracImage {
                high_dim,
                world_half_size,
                bucket_capacity,
                min_half_size,
                nodes,
                buckets,
                items,
                projection,
                arena,
            },
        )
    }
}

/// The bytes of each node.
pub open spec fn node_parts(nodes: Seq<Seq<u32>>) -> Seq<Seq<u8>> {
    Seq::new(nodes.len(), |i: int| word_bytes(nodes[i]))
}

/// The bytes of each bucket.
pub open spec fn bucket_parts(buckets: Seq<Seq<u32>>) -> Seq<Seq<u8>> {
    Seq::new(buckets.len(), |i: int| counted(word_parts(buckets[i])))
}

/// The bytes of each item.
pub open spec fn item_parts(items: Seq<ItemView>) -> Seq<Seq<u8>> {
    Seq::new(items.len(), |i: int| item_bytes(items[i]))
}

/// The bytes of the header and the parameters.
pub open spec fn head_bytes(i: ImageView) -> Seq<u8> {
    magic() + fileguard::le_bytes(FILE_VERSION as nat, 4) + fileguard::le_bytes(
        i.high_dim as nat,
        4,
    ) + fileguard::le_bytes(i.world_half_size as nat, 4) + fileguard::le_bytes(
        i.bucket_capacity as nat,
        8,
    ) + fileguard::le_bytes(i.min_half_size as nat, 4)
}

/// The bytes of an arena, given as its length, with its LZ4 block.
pub open spec fn arena_bytes(len: nat, block: Seq<u8>) -> Seq<u8> {
    fileguard::le_bytes((len as u64) as nat, 8) + fileguard::lp64_bytes(block)
}

/// The bytes of an image, with the LZ4 block of its arena.
pub open spec fn image_bytes(i: ImageView, block: Seq<u8>) -> Seq<u8> {
    head_bytes(i) + counted(node_parts(i.nodes)) + counted(bucket_parts(i.buckets)) + counted(
        item_parts(i.items),
    ) + counted(word_parts(i.projection)) + arena_bytes(i.arena.len(), block)
}

proof fn lemma_words_round_trip(w: Seq<u32>, rest: Seq<u8>)
    ensures
        get_list(word(), w.len(), word_bytes(w) + rest) == Ok::<_, error::ErrorView>((w, rest)),
        word_bytes(w).len() == 4 * w.len(),
{
    let parts = word_parts(w);
    assert forall|i: int, after: Seq<u8>| 0 <= i < parts.len() implies #[trigger] word()(
        parts[i] + after,
    ) == Ok::<_, error::ErrorView>((w[i], after)) by {
        fileguard::lemma_get_u32("FRAC word"@, w[i], after);
    }
    lemma_list_round_trip(word(), parts, w, rest);
    lemma_word_bytes_len(w);
}

proof fn lemma_word_bytes_len(w: Seq<u32>)
    ensures
        word_bytes(w).len() == 4 * w.len(),
    decreases w.len(),
{
    if w.len() > 0 {
        lemma_word_bytes_len(w.drop_first());
        fileguard::lemma_le_bytes_len(w[0] as nat, 4);
        assert(word_parts(w).drop_first() =~= word_parts(w.drop_first()));
    }
}

proof fn lemma_counted_words_round_trip(what: Seq<char>, w: Seq<u32>, rest: Seq<u8>)
    requires
        w.len() <= usize::MAX,
    ensures
        get_counted_list(what, 4, word(), counted(word_parts(w)) + rest) == Ok::<
            _,
            error::ErrorView,
        >((w, rest)),
        counted(word_parts(w)).len() >= 8,
{
    let parts = word_parts(w);
    assert forall|i: int, after: Seq<u8>| 0 <= i < parts.len() implies #[trigger] word()(
        parts[i] + after,
    ) == Ok::<_, error::ErrorView>((w[i], after)) by {
        fileguard::lemma_get_u32("FRAC word"@, w[i], after);
    }
    assert forall|i: int| 0 <= i < parts.len() implies (#[trigger] parts[i]).len() >= 4 by {
        fileguard::lemma_le_bytes_len(w[i] as nat, 4);
    }
    lemma_counted_round_trip(what, 4, word(), parts, w, rest);
    fileguard::lemma_le_bytes_len((parts.len() as u64) as nat, 8);
}

proof fn lemma_nodes_round_trip(nodes: Seq<Seq<u32>>, rest: Seq<u8>)
    requires
        nodes.len() <= usize::MAX,
        forall|i: int| 0 <= i < nodes.len() ==> (#[trigger] nodes[i]).len() == 13,
    ensures
        get_counted_list(
            "FRAC nodes"@,
            NODE_BYTES as nat,
            words(13),
            counted(node_parts(nodes)) + rest,
        ) == Ok::<_, error::ErrorView>((nodes, rest)),
{
    let parts = node_parts(nodes);
    assert forall|i: int, after: Seq<u8>| 0 <= i < parts.len() implies #[trigger] words(13)(
        parts[i] + after,
    ) == Ok::<_, error::ErrorView>((nodes[i], after)) by {
        assert(nodes[i].len() == 13);
        lemma_words_round_trip(nodes[i], after);
    }
    assert forall|i: int| 0 <= i < parts.len() implies (#[trigger] parts[i]).len() >= NODE_BYTES by {
        assert(nodes[i].len() == 13);
        lemma_word_bytes_len(nodes[i]);
    }
    lemma_counted_round_trip(
        "FRAC nodes"@,
        NODE_BYTES as nat,
        words(13),
        parts,
        nodes,
        rest,
    );
}

proof fn lemma_buckets_round_trip(buckets: Seq<Seq<u32>>, rest: Seq<u8>)
    requires
        buckets.len() <= usize::MAX,
        forall|i: int| 0 <= i < buckets.len() ==> (#[trigger] buckets[i]).len() <= usize::MAX,
    ensures
        get_counted_list("FRAC buckets"@, 8, bucket(), counted(bucket_parts(buckets)) + rest)
            == Ok::<_, error::ErrorView>((buckets, rest)),
{
    let parts = bucket_parts(buckets);
    assert forall|i: int, after: Seq<u8>| 0 <= i < parts.len() implies #[trigger] bucket()(
        parts[i] + after,
    ) == Ok::<_, error::ErrorView>((buckets[i], after)) by {
        assert(buckets[i].len() <= usize::MAX);
        lemma_counted_words_round_trip("FRAC bucket"@, buckets[i], after);
    }
    assert forall|i: int| 0 <= i < parts.len() implies (#[trigger] parts[i]).len() >= 8 by {
        assert(buckets[i].len() <= usize::MAX);
        lemma_counted_words_round_trip("FRAC bucket"@, buckets[i], Seq::empty());
    }
    lemma_counted_round_trip("FRAC buckets"@, 8, bucket(), parts, buckets, rest);
}

proof fn lemma_items_round_trip(items: Seq<ItemView>, rest: Seq<u8>)
    requires
        items.len() <= usize::MAX,
        forall|i: int| 0 <= i < items.len() ==> (#[trigger] items[i]).point.len() == 3,
    ensures
        get_counted_list(
            "FRAC items"@,
            ITEM_BYTES as nat,
            item(),
            counted(item_parts(items)) + rest,
        ) == Ok::<_, error::ErrorView>((items, rest)),
{
    let parts = item_parts(items);
    assert forall|i: int, after: Seq<u8>| 0 <= i < parts.len() implies #[trigger] item()(
        parts[i] + after,
    ) == Ok::<_, error::ErrorView>((items[i], after)) by {
        assert(items[i].point.len() == 3);
        let a = word_bytes(items[i].point);
        let b = fileguard::le_bytes((items[i].offset as u64) as nat, 8);
        let c = fileguard::le_bytes((items[i].len as u64) as nat, 8);
        fileguard::lemma_regroup3(a, b, c, after);
        lemma_words_round_trip(items[i].point, b + (c + after));
        fileguard::lemma_get_u64("FRAC item offset"@, items[i].offset as u64, c + after);
        fileguard::lemma_get_u64("FRAC item length"@, items[i].len as u64, after);
    }
    assert forall|i: int| 0 <= i < parts.len() implies (#[trigger] parts[i]).len() >= ITEM_BYTES by {
        assert(items[i].point.len() == 3);
        lemma_word_bytes_len(items[i].point);
        fileguard::lemma_le_bytes_len((items[i].offset as u64) as nat, 8);
        fileguard::lemma_le_bytes_len((items[i].len as u64) as nat, 8);
    }
    lemma_counted_round_trip("FRAC items"@, ITEM_BYTES as nat, item(), parts, items, rest);
}

proof fn lemma_arena_round_trip(arena: Seq<u8>, block: Seq<u8>)
    requires
        arena.len() <= isize::MAX,
        block.len() <= usize::MAX,
        packs(block, arena),
        !overlong(block),
    ensures
        get_arena(arena_bytes(arena.len(), block)) == Ok::<_, error::ErrorView>(
            (arena, Seq::<u8>::empty()),
        ),
{
    reveal(get_arena);
    let a = fileguard::le_bytes((arena.len() as u64) as nat, 8);
    let b = fileguard::le_bytes((block.len() as u64) as nat, 8);
    assert(arena_bytes(arena.len(), block) =~= a + (b + block));
    fileguard::lemma_get_u64("FRAC arena length"@, arena.len() as u64, b + block);
    fileguard::lemma_get_u64("FRAC arena"@, block.len() as u64, block);
    assert(block.take(block.len() as int) =~= block);
    assert(block.skip(block.len() as int) =~= Seq::<u8>::empty());
}

/// An image that reads back: its records have their sizes, and every payload lies in the
/// arena.
pub open spec fn sound(i: ImageView) -> bool {
    &&& i.nodes.len() <= usize::MAX
    &&& forall|k: int| 0 <= k < i.nodes.len() ==> (#[trigger] i.nodes[k]).len() == 13
    &&& i.buckets.len() <= usize::MAX
    &&& forall|k: int| 0 <= k < i.buckets.len() ==> (#[trigger] i.buckets[k]).len() <= usize::MAX
    &&& i.items.len() <= usize::MAX
    &&& forall|k: int| 0 <= k < i.items.len() ==> (#[trigger] i.items[k]).point.len() == 3
    &&& i.projection.len() <= usize::MAX
    &&& first_outside(i.items, 0, i.arena.len()) is None
}

proof fn lemma_body_round_trip(i: ImageView, block: Seq<u8>)
    requires
        sound(i),
        i.arena.len() <= isize::MAX,
        block.len() <= usize::MAX,
        packs(block, i.arena),
        !overlong(block),
    ensures
        get_body(
            counted(node_parts(i.nodes)) + (counted(bucket_parts(i.buckets)) + (counted(
                item_parts(i.items),
            ) + (counted(word_parts(i.projection)) + arena_bytes(i.arena.len(), block)))),
        ) == Ok::<_, error::ErrorView>(
            ((i.nodes, i.buckets, i.items, i.projection, i.arena), Seq::<u8>::empty()),
        ),
{
    reveal(get_body);
    let d = arena_bytes(i.arena.len(), block);
    let c = counted(word_parts(i.projection)) + d;
    let b = counted(item_parts(i.items)) + c;
    let a = counted(bucket_parts(i.buckets)) + b;
    lemma_nodes_round_trip(i.nodes, a);
    lemma_buckets_round_trip(i.buckets, b);
    lemma_items_round_trip(i.items, c);
    lemma_counted_words_round_trip("FRAC projection"@, i.projection, d);
    lemma_arena_round_trip(i.arena, block);
}

proof fn lemma_image_round_trip(i: ImageView, block: Seq<u8>)
    requires
        sound(i),
        i.high_dim <= usize::MAX,
        i.arena.len() <= isize::MAX,
        block.len() <= usize::MAX,
        packs(block, i.arena),
        !overlong(block),
    ensures
        get_image(image_bytes(i, block), i.high_dim as usize) == Ok::<_, error::ErrorView>(
            (i, Seq::<u8>::empty()),
        ),
{
    reveal(get_image);
    let body = counted(node_parts(i.nodes)) + (counted(bucket_parts(i.buckets)) + (counted(
        item_parts(i.items),
    ) + (counted(word_parts(i.projection)) + arena_bytes(i.arena.len(), block))));
    let v = fileguard::le_bytes(FILE_VERSION as nat, 4);
    let h = fileguard::le_bytes(i.high_dim as nat, 4);
    let w = fileguard::le_bytes(i.world_half_size as nat, 4);
    let c = fileguard::le_bytes(i.bucket_capacity as nat, 8);
    let m = fileguard::le_bytes(i.min_half_size as nat, 4);
    let all = image_bytes(i, block);
    fileguard::lemma_regroup5(
        head_bytes(i),
        counted(node_parts(i.nodes)),
        counted(bucket_parts(i.buckets)),
        counted(item_parts(i.items)),
        counted(word_parts(i.projection)),
        arena_bytes(i.arena.len(), block),
    );
    fileguard::lemma_regroup6(magic(), v, h, w, c, m, body);
    let after = v + (h + (w + (c + (m + body))));
    assert(all == magic() + after);
    assert(all.take(4) =~= magic());
    assert(all.skip(4) =~= after);
    fileguard::lemma_get_u32("FRAC version"@, FILE_VERSION, h + (w + (c + (m + body))));
    fileguard::lemma_get_u32("FRAC high_dim"@, i.high_dim, w + (c + (m + body)));
    fileguard::lemma_get_u32("FRAC world half size"@, i.world_half_size, c + (m + body));
    fileguard::lemma_get_u64("FRAC bucket capacity"@, i.bucket_capacity, m + body);
    fileguard::lemma_get_u32("FRAC min half size"@, i.min_half_size, body);
    lemma_body_round_trip(i, block);
}

/// Appends the nodes.
fn put_nodes(out: &mut Vec<u8>, nodes: &Vec<NodeRecord>)
    ensures
        final(out)@ == old(out)@ + counted(node_parts(node_views(nodes@))),
{
    let ghost parts = node_parts(node_views(nodes@));
    put_u64(out, nodes.len() as u64);
    let ghost start = out@;
    let mut i: usize = 0;
    proof {
        assert(parts.take(0) =~= Seq::<Seq<u8>>::empty());
        assert(start + fileguard::joined(parts.take(0)) =~= start);
    }
    while i < nodes.len()
        invariant
            i <= nodes@.len(),
            parts == node_parts(node_views(nodes@)),
            out@ == start + fileguard::joined(parts.take(i as int)),
        decreases nodes@.len() - i,
    {
        let n = nodes[i];
        let w: [u32; 13] = [
            n.center[0],
            n.center[1],
            n.center[2],
            n.half_size,
            n.children[0],
            n.children[1],
            n.children[2],
            n.children[3],
            n.children[4],
            n.children[5],
            n.children[6],
            n.children[7],
            n.bucket_id,
        ];
        put_words(out, w.as_slice());
        proof {
            assert(w@ =~= node_views(nodes@)[i as int]);
            let done = parts.take(i as int);
            assert(parts.take(i + 1) =~= done.push(parts[i as int]));
            fileguard::lemma_joined_push(done, parts[i as int]);
            assert(start + fileguard::joined(done) + parts[i as int] =~= start + (
            fileguard::joined(done) + parts[i as int]));
        }
        i += 1;
    }
    proof {
        assert(parts.take(i as int) =~= parts);
        assert(out@ =~= old(out)@ + counted(parts));
    }
}

/// Appends the buckets.
fn put_buckets(out: &mut Vec<u8>, buckets: &Vec<Vec<u32>>)
    ensures
        final(out)@ == old(out)@ + counted(bucket_parts(bucket_views(buckets@))),
{
    let ghost parts = bucket_parts(bucket_views(buckets@));
    put_u64(out, buckets.len() as u64);
    let ghost start = out@;
    let mut i: usize = 0;
    proof {
        assert(parts.take(0) =~= Seq::<Seq<u8>>::empty());
        assert(start + fileguard::joined(parts.take(0)) =~= start);
    }
    while i < buckets.len()
        invariant
            i <= buckets@.len(),
            parts == bucket_parts(bucket_views(buckets@)),
            out@ == start + fileguard::joined(parts.take(i as int)),
        decreases buckets@.len() - i,
    {
        put_counted_words(out, buckets[i].as_slice());
        proof {
            assert(buckets@[i as int]@ == bucket_views(buckets@)[i as int]);
            let done = parts.take(i as int);
            assert(parts.take(i + 1) =~= done.push(parts[i as int]));
            fileguard::lemma_joined_push(done, parts[i as int]);
            assert(start + fileguard::joined(done) + parts[i as int] =~= start + (
            fileguard::joined(done) + parts[i as int]));
        }
        i += 1;
    }
    proof {
        assert(parts.take(i as int) =~= parts);
        assert(out@ =~= old(out)@ + counted(parts));
    }
}

/// Appends the items.
fn put_items(out: &mut Vec<u8>, items: &Vec<ItemRecord>)
    ensures
        final(out)@ == old(out)@ + counted(item_parts(item_views(items@))),
{
    let ghost parts = item_parts(item_views(items@));
    put_u64(out, items.len() as u64);
    let ghost start = out@;
    let mut i: usize = 0;
    proof {
        assert(parts.take(0) =~= Seq::<Seq<u8>>::empty());
        assert(start + fileguard::joined(parts.take(0)) =~= start);
    }
    while i < items.len()
        invariant
            i <= items@.len(),
            parts == item_parts(item_views(items@)),
            out@ == start + fileguard::joined(parts.take(i as int)),
        decreases items@.len() - i,
    {
        let ghost before = out@;
        let x = items[i];
        put_words(out, x.point.as_slice());
        put_u64(out, x.payload_offset as u64);
        put_u64(out, x.payload_len as u64);
        proof {
            assert(x@ == item_views(items@)[i as int]);
            fileguard::lemma_appended3(
                before,
                word_bytes(x@.point),
                fileguard::le_bytes((x.payload_offset as u64) as nat, 8),
                fileguard::le_bytes((x.payload_len as u64) as nat, 8),
            );
            let done = parts.take(i as int);
            assert(parts.take(i + 1) =~= done.push(parts[i as int]));
            fileguard::lemma_joined_push(done, parts[i as int]);
            assert(start + fileguard::joined(done) + parts[i as int] =~= start + (
            fileguard::joined(done) + parts[i as int]));
        }
        i += 1;
    }
    proof {
        assert(parts.take(i as int) =~= parts);
        assert(out@ =~= old(out)@ + counted(parts));
    }
}

impl FracImage {
    /// The bytes of the image, with some LZ4 block that stands for its arena. Where every
    /// payload lies in the arena and no length field of the block is too long, they read back
    /// as the image; the block of an arena that is not too long has no such field.
    pub fn encode(&self) -> (out: Vec<u8>)
        requires
            self.arena@.len() * 110 <= isize::MAX,
        ensures
            exists|block: Seq<u8>|
                {
                    &&& out@ == #[trigger] image_bytes(self@, block)
                    &&& packs(block, self@.arena)
                    &&& first_outside(self@.items, 0, self@.arena.len()) is None && !overlong(block)
                        ==> get_image(out@, self.high_dim as usize) == Ok::<_, error::ErrorView>(
                        (self@, Seq::<u8>::empty()),
                    )
                },
            first_outside(self@.items, 0, self@.arena.len()) is None && self@.arena.len() < 255
                * run_limit() ==> get_image(out@, self.high_dim as usize) == Ok::<
                _,
                error::ErrorView,
            >((self@, Seq::<u8>::empty())),
    {
        let mut out: Vec<u8> = Vec::new();
        let want: [u8; 4] = [70, 82, 65, 67];
        put_slice(&mut out, want.as_slice());
        put_u32(&mut out, FILE_VERSION);
        put_u32(&mut out, self.high_dim);
        put_u32(&mut out, self.world_half_size);
        put_u64(&mut out, self.bucket_capacity);
        put_u32(&mut out, self.min_half_size);
        proof {
            assert(want@ =~= magic());
            assert(Seq::<u8>::empty() + magic() =~= magic());
            assert(out@ == head_bytes(self@));
        }
        put_nodes(&mut out, &self.nodes);
        put_buckets(&mut out, &self.buckets);
        put_items(&mut out, &self.items);
        put_counted_words(&mut out, self.projection.as_slice());
        let ghost before = out@;
        put_u64(&mut out, self.arena.len() as u64);
        let block = lz4_compress(self.arena.as_slice());
        fileguard::write_u64_lp(&mut out, block.as_slice());
        proof {
            assert(out@ =~= before + arena_bytes(self@.arena.len(), block@));
            assert(out@ == image_bytes(self@, block@));
            let n: usize = self.nodes.len();
            let b: usize = self.buckets.len();
            let i: usize = self.items.len();
            let p: usize = self.projection.len();
            let c: usize = block.len();
            if first_outside(self@.items, 0, self@.arena.len()) is None && !overlong(block@) {
                assert forall|k: int| 0 <= k < self@.buckets.len() implies (
                #[trigger] self@.buckets[k]).len() <= usize::MAX by {
                    let m: usize = self.buckets@[k].len();
                    assert(self@.buckets[k] == self.buckets@[k]@);
                }
                assert forall|k: int| 0 <= k < self@.nodes.len() implies (
                #[trigger] self@.nodes[k]).len() == 13 by {
                    assert(self@.nodes[k] == self.nodes@[k]@);
                }
                assert forall|k: int| 0 <= k < self@.items.len() implies (
                #[trigger] self@.items[k]).point.len() == 3 by {
                    assert(self@.items[k] == self.items@[k]@);
                }
                assert(sound(self@));
                lemma_image_round_trip(self@, block@);
            }
        }
        out
    }
}

/// Reading an image lets no payload stand outside the arena.
pub proof fn law_payloads_lie_in_the_arena(bytes: Seq<u8>, expected: usize, i: int)
    requires
        decoded_image(bytes, expected) is Ok,
        0 <= i < decoded_image(bytes, expected)->Ok_0.items.len(),
    ensures
        ({
            let image = decoded_image(bytes, expected)->Ok_0;
            image.items[i].offset + image.items[i].len <= image.arena.len()
        }),
{
    reveal(get_image);
    reveal(get_body);
    let image = decoded_image(bytes, expected)->Ok_0;
    lemma_all_inside(image.items, 0, image.arena.len(), i);
}

proof fn lemma_all_inside(items: Seq<ItemView>, from: int, arena_len: nat, i: int)
    requires
        0 <= from <= i < items.len(),
        first_outside(items, from, arena_len) is None,
    ensures
        items[i].offset + items[i].len <= arena_len,
    decreases items.len() - from,
{
    if from < i {
        lemma_all_inside(items, from + 1, arena_len, i);
    }
}

/// Where every payload lies in the arena, none is reported.
pub proof fn law_no_payload_is_reported_without_cause(items: Seq<ItemView>, arena_len: nat)
    requires
        forall|i: int|
            0 <= i < items.len() ==> (#[trigger] items[i]).offset + items[i].len <= arena_len,
    ensures
        first_outside(items, 0, arena_len) is None,
{
    lemma_none_outside(items, 0, arena_len);
}

proof fn lemma_none_outside(items: Seq<ItemView>, from: int, arena_len: nat)
    requires
        0 <= from <= items.len(),
        forall|i: int|
            0 <= i < items.len() ==> (#[trigger] items[i]).offset + items[i].len <= arena_len,
    ensures
        first_outside(items, from, arena_len) is None,
    decreases items.len() - from,
{
    if from < items.len() {
        lemma_none_outside(items, from + 1, arena_len);
    }
}

} // verus!
