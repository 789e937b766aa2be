//! The memory routine of an agent: what it stores, what it hands to the model, and when it
//! saves.
//!
//! Embedding, search and saving are the caller's work: the routine says what to do and takes
//! what came of it.
use crate::conformal;
use crate::conformal::quantile_at;
use crate::feedback;
use crate::feedback::RelevanceFeedback;
use crate::lifecycle;
use crate::session;
use crate::text;
use vstd::prelude::*;
use vstd::utf8::*;

verus! {

/// The policy of the routine.
#[derive(Debug)]
pub struct KernelConfig {
    /// How many memories a reflection retrieves.
    pub top_k: usize,
    /// The line above the memories.
    pub context_header: String,
    /// What stands before each memory.
    pub bullet: String,
    /// Observations of fewer characters, without the space around them, are not stored.
    pub min_observation_chars: usize,
    /// The bytes that the context has at most.
    pub max_context_chars: usize,
    /// Where the store is saved.
    pub autosave_path: Option<String>,
    /// After how many observations the store is saved; zero for never.
    pub autosave_every: usize,
}

impl Default for KernelConfig {
    fn default() -> (c: KernelConfig)
        ensures
            c.top_k == 5,
            c.context_header@ == "## Relevant memories"@,
            c.bullet@ == "- "@,
            c.min_observation_chars == 8,
            c.max_context_chars == 2000,
            c.autosave_path is None,
            c.autosave_every == 0,
    {
        KernelConfig {
            top_k: 5,
            context_header: "## Relevant memories".to_owned(),
            bullet: "- ".to_owned(),
            min_observation_chars: 8,
            max_context_chars: 2000,
            autosave_path: None,
            autosave_every: 0,
        }
    }
}

/// What one step of the routine gives.
#[derive(Debug)]
pub struct MemoryStep {
    /// The context for the model, empty where nothing was found.
    pub context: String,
    /// The memories found, nearest first.
    pub retrieved: Vec<String>,
    /// Whether the input was stored.
    pub stored_input: bool,
}

/// What came of an observation.
#[derive(Debug)]
pub struct Observed {
    /// Whether it is stored.
    pub stored: bool,
    /// Where the store is to be saved now, if it is.
    pub save_to: Option<String>,
}

/// A recall whose size follows from the evidence.
#[derive(Debug)]
pub struct ConformalRecall {
    /// The memories and the bit patterns of their scores, nearest first.
    pub memories: Vec<(String, u32)>,
    /// The order key of the calibrated radius, if the evidence gives one.
    pub radius: Option<u64>,
    /// How many labels the radius was calibrated on.
    pub calibration_n: usize,
    /// Whether the promise of coverage holds.
    pub guaranteed: bool,
}

/// A memory found: its text, the bit pattern of its score, and the order key of its distance
/// from a perfect score.
#[derive(Debug)]
pub struct Scored {
    /// The text.
    pub memory: String,
    /// The bit pattern of the score.
    pub score: u32,
    /// The order key of the nonconformity.
    pub nonconformity: u64,
}

/// The texts and scores of memories found.
pub open spec fn pairs_of(s: Seq<Scored>) -> Seq<(Seq<char>, u32)> {
    s.map_values(|x: Scored| (x.memory@, x.score))
}

/// The texts of memories found.
pub open spec fn texts_of(s: Seq<Scored>) -> Seq<Seq<char>> {
    s.map_values(|x: Scored| x.memory@)
}

/// A memory on one line.
pub open spec fn on_one_line(m: Seq<char>) -> Seq<char> {
    m.map_values(|c: char| if c == '\n' {
        ' '
    } else {
        c
    })
}

/// The bytes of a text.
pub open spec fn size(s: Seq<char>) -> nat {
    encode_utf8(s).len()
}

/// A context to which memories are added, one by one, until it has `max` bytes.
pub open spec fn bulleted(
    start: Seq<char>,
    bullet: Seq<char>,
    memories: Seq<Seq<char>>,
    max: nat,
    i: int,
) -> Seq<char>
    decreases memories.len() - i,
{
    if !(0 <= i < memories.len()) {
        start
    } else {
        let next = start + bullet + on_one_line(memories[i]) + "\n"@;
        if size(next) >= max {
            next
        } else {
            bulleted(next, bullet, memories, max, i + 1)
        }
    }
}

/// `r` is the longest beginning of `s` that has at most `max` bytes.
pub open spec fn is_cut(s: Seq<char>, max: nat, r: Seq<char>) -> bool {
    &&& r.len() <= s.len()
    &&& r == s.take(r.len() as int)
    &&& size(r) <= max
    &&& r.len() < s.len() ==> size(s.take((r.len() + 1) as int)) > max
}

/// The context that memories make: a header and a line for each, cut to the policy's size.
/// Without memories it is empty.
pub open spec fn is_context(
    config: KernelConfig,
    memories: Seq<Seq<char>>,
    context: Seq<char>,
) -> bool {
    if memories.len() == 0 {
        context.len() == 0
    } else {
        is_cut(
            bulleted(
                config.context_header@ + "\n"@,
                config.bullet@,
                memories,
                config.max_context_chars as nat,
                0,
            ),
            config.max_context_chars as nat,
            context,
        )
    }
}

proof fn lemma_encode_concat(a: Seq<char>, b: Seq<char>)
    ensures
        encode_utf8(a + b) == encode_utf8(a) + encode_utf8(b),
    decreases a.len(),
{
    if a.len() == 0 {
        assert(a + b =~= b);
        assert(encode_utf8(a) + encode_utf8(b) =~= encode_utf8(b));
    } else {
        assert((a + b).drop_first() =~= a.drop_first() + b);
        lemma_encode_concat(a.drop_first(), b);
        assert(encode_scalar(a[0] as u32) + (encode_utf8(a.drop_first()) + encode_utf8(b))
            =~= encode_scalar(a[0] as u32) + encode_utf8(a.drop_first()) + encode_utf8(b));
    }
}

/// The context has at most the bytes that the policy allows.
pub proof fn law_context_is_bounded(
    config: KernelConfig,
    memories: Seq<Seq<char>>,
    context: Seq<char>,
)
    requires
        is_context(config, memories, context),
    ensures
        size(context) <= config.max_context_chars,
{
    if memories.len() == 0 {
        assert(context =~= Seq::<char>::empty());
    }
}

/// The line of a memory: the bullet, the memory with spaces for its line breaks, and a line
/// break.
pub open spec fn memory_line(bullet: Seq<char>, m: Seq<char>) -> Seq<char> {
    bullet + m.map_values(|c: char| if c == '\n' {
        ' '
    } else {
        c
    }) + "\n"@
}

/// The line of each memory.
pub open spec fn memory_lines(bullet: Seq<char>, memories: Seq<Seq<char>>) -> Seq<Seq<char>> {
    memories.map_values(|m: Seq<char>| memory_line(bullet, m))
}

/// The header and the lines of all the memories, however long they are.
pub open spec fn all_lines(config: KernelConfig, memories: Seq<Seq<char>>) -> Seq<char> {
    config.context_header@ + "\n"@ + memory_lines(config.bullet@, memories).flatten()
}

/// A context is what the policy has room for of the header and the lines of all the memories:
/// all of it, or so much that one character more would be too many bytes. Without memories it
/// is empty.
pub open spec fn has_room(config: KernelConfig, memories: Seq<Seq<char>>, context: Seq<char>) -> bool {
    let all = if memories.len() == 0 {
        Seq::empty()
    } else {
        all_lines(config, memories)
    };
    &&& context.len() <= all.len()
    &&& context == all.take(context.len() as int)
    &&& size(context) <= config.max_context_chars
    &&& context.len() < all.len() ==> size(all.take((context.len() + 1) as int))
        > config.max_context_chars
}

proof fn lemma_longer_is_larger(s: Seq<char>, n: int)
    requires
        0 <= n < s.len(),
    ensures
        size(s.take(n + 1)) > size(s.take(n)),
{
    let one = seq![s[n]];
    assert(s.take(n + 1) =~= s.take(n) + one);
    lemma_encode_concat(s.take(n), one);
    assert(one.drop_first() =~= Seq::<char>::empty());
    assert(encode_utf8(one.drop_first()) =~= Seq::<u8>::empty());
    assert(encode_utf8(one) =~= encode_scalar(s[n] as u32));
    char_is_scalar(s[n]);
}

proof fn lemma_bulleted_begins_all(
    start: Seq<char>,
    bullet: Seq<char>,
    memories: Seq<Seq<char>>,
    max: nat,
    i: int,
    context: Seq<char>,
)
    requires
        0 <= i <= memories.len(),
        is_cut(bulleted(start, bullet, memories, max, i), max, context),
    ensures
        is_cut(
            start + memory_lines(bullet, memories).skip(i).flatten(),
            max,
            context,
        ),
    decreases memories.len() - i,
{
    let lines = memory_lines(bullet, memories);
    let whole = start + lines.skip(i).flatten();
    if i == memories.len() {
        assert(lines.skip(i).len() == 0);
        assert(whole =~= start);
    } else {
        let next = start + bullet + on_one_line(memories[i]) + "\n"@;
        assert(on_one_line(memories[i]) =~= memories[i].map_values(|c: char| if c == '\n' {
            ' '
        } else {
            c
        }));
        assert(next =~= start + memory_line(bullet, memories[i]));
        assert(lines.skip(i).drop_first() =~= lines.skip(i + 1));
        assert(lines.skip(i).first() == memory_line(bullet, memories[i]));
        let rest = lines.skip(i + 1).flatten();
        assert(lines.skip(i).flatten() == lines.skip(i).first().add(rest));
        assert(whole =~= next + rest);
        if size(next) >= max {
            let n = context.len() as int;
            assert(context =~= whole.take(n));
            if n < next.len() {
                assert(whole.take(n + 1) =~= next.take(n + 1));
            } else if n < whole.len() {
                assert(whole.take(n) =~= next);
                lemma_longer_is_larger(whole, n);
            }
        } else {
            lemma_bulleted_begins_all(next, bullet, memories, max, i + 1, context);
        }
    }
}

/// Every memory is in a context that has room for it: the context is the header and the line of
/// each memory, in their order, and ends before the last only where the policy allows no more
/// bytes.
pub proof fn law_context_tells_what_it_has_room_for(
    config: KernelConfig,
    memories: Seq<Seq<char>>,
    context: Seq<char>,
)
    requires
        is_context(config, memories, context),
    ensures
        has_room(config, memories, context),
{
    if memories.len() > 0 {
        let lines = memory_lines(config.bullet@, memories);
        lemma_bulleted_begins_all(
            config.context_header@ + "\n"@,
            config.bullet@,
            memories,
            config.max_context_chars as nat,
            0,
            context,
        );
        assert(lines.skip(0) =~= lines);
    } else {
        assert(context =~= Seq::<char>::empty());
        assert(context =~= Seq::<char>::empty().take(0));
    }
}

fn width(c: char) -> (n: usize)
    ensures
        n == encode_scalar(c as u32).len(),
        1 <= n <= 4,
{
    let v: u32 = c as u32;
    proof {
        char_is_scalar(c);
    }
    if v <= 0x7F {
        1
    } else if v <= 0x7FF {
        2
    } else if v <= 0xFFFF {
        3
    } else {
        4
    }
}

fn cut_text(s: &str, max: usize) -> (r: String)
    ensures
        is_cut(s@, max as nat, r@),
{
    let v = text::chars_of(s);
    let mut used: usize = 0;
    let mut i: usize = 0;
    proof {
        assert(v@.take(0) =~= Seq::<char>::empty());
    }
    while i < v.len()
        invariant
            i <= v@.len(),
            v@ == s@,
            used == size(v@.take(i as int)),
            used <= max,
        decreases v@.len() - i,
    {
        let w: usize = width(v[i]);
        proof {
            let one = seq![v@[i as int]];
            assert(v@.take(i + 1) =~= v@.take(i as int) + one);
            lemma_encode_concat(v@.take(i as int), one);
            assert(one.drop_first() =~= Seq::<char>::empty());
            assert(encode_utf8(one.drop_first()) =~= Seq::<u8>::empty());
            assert(encode_utf8(one) =~= encode_scalar(v@[i as int] as u32));
        }
        if w > max - used {
            let r = text::text_of(&v, 0, i);
            proof {
                assert(r@ =~= s@.take(i as int));
            }
            return r;
        }
        used += w;
        i += 1;
    }
    let r = text::text_of(&v, 0, i);
    proof {
        assert(r@ =~= s@);
        assert(v@.take(i as int) =~= s@);
        assert(s@.take(r@.len() as int) =~= s@);
    }
    r
}

fn one_line(m: &str) -> (s: String)
    ensures
        s@ == on_one_line(m@),
{
    let v = text::chars_of(m);
    let mut s = String::new();
    let mut i: usize = 0;
    proof {
        assert(s@ =~= on_one_line(v@.take(0)));
    }
    while i < v.len()
        invariant
            i <= v@.len(),
            v@ == m@,
            s@ == on_one_line(v@.take(i as int)),
        decreases v@.len() - i,
    {
        let c = v[i];
        let d = if c == '\n' {
            ' '
        } else {
            c
        };
        proof {
            assert(on_one_line(v@.take(i + 1)) =~= on_one_line(v@.take(i as int)).push(d));
        }
        s.push(d);
        i += 1;
    }
    proof {
        assert(v@.take(i as int) =~= m@);
    }
    s
}

/// The memory routine.
pub struct MemoryKernel {
    config: KernelConfig,
    pending: usize,
    last: Option<(String, Vec<(String, u32)>)>,
    log: RelevanceFeedback,
}

/// What the last recall returned: the query, and the memories with their scores.
pub type LastRecall = Option<(Seq<char>, Seq<(Seq<char>, u32)>)>;

/// The labels that indices into the last recall give; an index past its end gives none.
pub open spec fn labels_at(
    query: Seq<char>,
    items: Seq<(Seq<char>, u32)>,
    indices: Seq<usize>,
    relevant: bool,
) -> Seq<feedback::EntryView>
    decreases indices.len(),
{
    if indices.len() == 0 {
        Seq::empty()
    } else {
        let before = labels_at(query, items, indices.drop_last(), relevant);
        let i = indices.last();
        if i < items.len() {
            before.push(session::label(query, items[i as int].0, items[i as int].1, relevant))
        } else {
            before
        }
    }
}

/// Each index into the last recall gives its own label, in their order, and one past its end
/// gives none.
pub proof fn law_labels_add_up(
    query: Seq<char>,
    items: Seq<(Seq<char>, u32)>,
    a: Seq<usize>,
    b: Seq<usize>,
    relevant: bool,
)
    ensures
        labels_at(query, items, a + b, relevant) == labels_at(query, items, a, relevant)
            + labels_at(query, items, b, relevant),
        a.len() == 1 ==> labels_at(query, items, a, relevant) == (if a[0] < items.len() {
            seq![session::label(query, items[a[0] as int].0, items[a[0] as int].1, relevant)]
        } else {
            Seq::empty()
        }),
    decreases b.len(),
{
    if a.len() == 1 {
        assert(a.drop_last().len() == 0);
        assert(labels_at(query, items, a.drop_last(), relevant).len() == 0);
        if a[0] < items.len() {
            assert(labels_at(query, items, a, relevant) =~= seq![
                session::label(query, items[a[0] as int].0, items[a[0] as int].1, relevant),
            ]);
        } else {
            assert(labels_at(query, items, a, relevant) =~= Seq::empty());
        }
    }
    let l = labels_at(query, items, a, relevant);
    if b.len() == 0 {
        assert(a + b =~= a);
        assert(l + labels_at(query, items, b, relevant) =~= l);
    } else {
        law_labels_add_up(query, items, a, b.drop_last(), relevant);
        assert((a + b).drop_last() =~= a + b.drop_last());
        assert((a + b).last() == b.last());
        assert(labels_at(query, items, a + b, relevant) =~= l + labels_at(
            query,
            items,
            b,
            relevant,
        ));
    }
}

/// The memories whose nonconformity is at most the radius, in their order.
pub open spec fn inside(s: Seq<Scored>, radius: u64) -> Seq<(Seq<char>, u32)>
    decreases s.len(),
{
    if s.len() == 0 {
        Seq::empty()
    } else if s.last().nonconformity <= radius {
        inside(s.drop_last(), radius).push((s.last().memory@, s.last().score))
    } else {
        inside(s.drop_last(), radius)
    }
}

/// The memories of a recall whose size follows from the evidence: those within the radius,
/// or as many as the policy says where there is no radius.
pub open spec fn recall_members(s: Seq<Scored>, radius: Option<u64>, top_k: nat) -> Seq<
    (Seq<char>, u32),
> {
    match radius {
        Some(q) => inside(s, q),
        None => pairs_of(s).take(if s.len() < top_k {
            s.len() as int
        } else {
            top_k as int
        }),
    }
}

/// The memories are those within the radius, in the order in which they were found: `at` holds
/// their places.
pub open spec fn within_radius(
    s: Seq<Scored>,
    radius: u64,
    members: Seq<(Seq<char>, u32)>,
    at: Seq<int>,
) -> bool {
    &&& at.len() == members.len()
    &&& forall|i: int|
        0 <= i < at.len() ==> 0 <= (#[trigger] at[i]) < s.len() && s[at[i]].nonconformity <= radius
            && members[i] == (s[at[i]].memory@, s[at[i]].score)
    &&& forall|i: int, j: int| 0 <= i < j < at.len() ==> #[trigger] at[i] < #[trigger] at[j]
    &&& forall|j: int|
        0 <= j < s.len() && (#[trigger] s[j]).nonconformity <= radius ==> at.contains(j)
}

/// The memories of a recall are the right ones: with a radius, all that were found within it
/// and no others; without one, the first `top_k` that were found, or all where there are fewer.
/// What was found stands in its order.
pub open spec fn is_recall_set(
    s: Seq<Scored>,
    radius: Option<u64>,
    top_k: nat,
    members: Seq<(Seq<char>, u32)>,
) -> bool {
    match radius {
        Some(q) => exists|at: Seq<int>| within_radius(s, q, members, at),
        None => {
            &&& members.len() <= top_k
            &&& members.len() <= s.len()
            &&& members.len() == top_k || members.len() == s.len()
            &&& forall|i: int|
                0 <= i < members.len() ==> #[trigger] members[i] == (s[i].memory@, s[i].score)
        },
    }
}

proof fn lemma_inside(s: Seq<Scored>, radius: u64) -> (at: Seq<int>)
    ensures
        within_radius(s, radius, inside(s, radius), at),
    decreases s.len(),
{
    if s.len() == 0 {
        Seq::empty()
    } else {
        let less = s.drop_last();
        let before = lemma_inside(less, radius);
        let n = s.len() - 1;
        let at = if s.last().nonconformity <= radius {
            before.push(n)
        } else {
            before
        };
        let members = inside(s, radius);
        assert forall|i: int| 0 <= i < at.len() implies 0 <= (#[trigger] at[i]) < s.len()
            && s[at[i]].nonconformity <= radius && members[i] == (
            s[at[i]].memory@,
            s[at[i]].score,
        ) by {
            if i < before.len() {
                assert(at[i] == before[i]);
                assert(less[before[i]] == s[before[i]]);
            }
        }
        assert forall|i: int, j: int| 0 <= i < j < at.len() implies #[trigger] at[i]
            < #[trigger] at[j] by {
            assert(at[i] == before[i]);
            if j < before.len() {
                assert(at[j] == before[j]);
            }
        }
        assert forall|j: int| 0 <= j < s.len() && (#[trigger] s[j]).nonconformity
            <= radius implies at.contains(j) by {
            if j < n {
                assert(less[j] == s[j]);
                assert(before.contains(j));
                let i = choose|i: int| 0 <= i < before.len() && before[i] == j;
                assert(at[i] == j);
            } else {
                assert(at[before.len() as int] == j);
            }
        }
        at
    }
}

/// A recall holds all that was found within the radius and nothing else; without a radius it
/// begins with the nearest, and holds as many as the policy says. It promises coverage where
/// something that was found lies outside the radius, or nothing was found.
pub proof fn law_recall_set_is_right(s: Seq<Scored>, radius: Option<u64>, top_k: nat)
    ensures
        is_recall_set(s, radius, top_k, recall_members(s, radius, top_k)),
        recall_promise(s, radius) == (match radius {
            Some(q) => s.len() == 0 || exists|j: int|
                0 <= j < s.len() && (#[trigger] s[j]).nonconformity > q,
            None => false,
        }),
{
    if let Some(q) = radius {
        let at = lemma_inside(s, q);
        assert(within_radius(s, q, recall_members(s, radius, top_k), at));
        lemma_inside_all(s, q);
    }
}

proof fn lemma_inside_all(s: Seq<Scored>, radius: u64)
    ensures
        inside(s, radius).len() <= s.len(),
        inside(s, radius).len() == s.len() <==> forall|j: int|
            0 <= j < s.len() ==> (#[trigger] s[j]).nonconformity <= radius,
    decreases s.len(),
{
    if s.len() > 0 {
        let less = s.drop_last();
        lemma_inside_all(less, radius);
        if inside(s, radius).len() == s.len() {
            assert forall|j: int| 0 <= j < s.len() implies (#[trigger] s[j]).nonconformity
                <= radius by {
                if j < less.len() {
                    assert(less[j] == s[j]);
                }
            }
        }
        if forall|j: int| 0 <= j < s.len() ==> (#[trigger] s[j]).nonconformity <= radius {
            assert(s[s.len() - 1].nonconformity <= radius);
            assert forall|j: int| 0 <= j < less.len() implies (#[trigger] less[j]).nonconformity
                <= radius by {
                assert(less[j] == s[j]);
            }
        }
    }
}

/// Whether the promise of coverage holds: there is a radius, and it bound, so the pool did
/// not cut the set.
pub open spec fn recall_promise(s: Seq<Scored>, radius: Option<u64>) -> bool {
    match radius {
        Some(q) => inside(s, q).len() < s.len() || s.len() == 0,
        None => false,
    }
}

/// The radius is calibrated on the evidence: it is the score of the rank, and there is none
/// where the evidence has no such rank.
pub open spec fn is_radius(evidence: Seq<u64>, rank: nat, radius: Option<u64>) -> bool {
    match radius {
        Some(q) => 1 <= rank <= evidence.len() && conformal::is_quantile(evidence, rank, q),
        None => rank == 0 || rank > evidence.len(),
    }
}

/// The memories within the radius that the evidence gives at a rank. Where it gives none, they
/// are the first `top_k`, and nothing is promised; where the radius took all that was found,
/// more may have been left out, and nothing is promised either.
pub fn conformal_set(found: &Vec<Scored>, evidence: &Vec<u64>, rank: usize, top_k: usize) -> (r:
    ConformalRecall)
    ensures
        r.calibration_n == evidence@.len(),
        is_radius(evidence@, rank as nat, r.radius),
        session::pair_views(r.memories@) == recall_members(found@, r.radius, top_k as nat),
        is_recall_set(found@, r.radius, top_k as nat, session::pair_views(r.memories@)),
        r.guaranteed == recall_promise(found@, r.radius),
        r.guaranteed ==> 1 <= rank <= r.calibration_n,
{
    let calibration_n: usize = evidence.len();
    proof {
        law_recall_set_is_right(found@, None, top_k as nat);
    }
    match quantile_at(evidence.as_slice(), rank) {
        Some(at) => {
            let q: u64 = evidence[at];
            let memories = within(found, q);
            let guaranteed = memories.len() < found.len() || found.len() == 0;
            proof {
                assert(session::pair_views(memories@).len() == memories@.len());
                lemma_inside_len(found@, q);
                law_recall_set_is_right(found@, Some(q), top_k as nat);
            }
            ConformalRecall { memories, radius: Some(q), calibration_n, guaranteed }
        },
        None => {
            let memories = first(found, top_k);
            ConformalRecall { memories, radius: None, calibration_n, guaranteed: false }
        },
    }
}

impl MemoryKernel {
    /// The policy.
    pub closed spec fn policy(&self) -> KernelConfig {
        self.config
    }

    /// The observations since the last save.
    pub closed spec fn unsaved(&self) -> nat {
        self.pending as nat
    }

    /// What the last recall returned.
    pub closed spec fn recalled(&self) -> LastRecall {
        match self.last {
            Some((q, items)) => Some((q@, session::pair_views(items@))),
            None => None,
        }
    }

    /// The labels.
    pub closed spec fn labels(&self) -> Seq<feedback::EntryView> {
        self.log@
    }

    /// A routine of a policy.
    pub fn new(config: KernelConfig) -> (k: MemoryKernel)
        ensures
            k.policy() == config,
            k.unsaved() == 0,
            k.recalled() is None,
            k.labels().len() == 0,
    {
        MemoryKernel { config, pending: 0, last: None, log: RelevanceFeedback::new() }
    }

    /// A routine of the default policy.
    pub fn with_defaults() -> (k: MemoryKernel)
        ensures
            k.policy().top_k == 5,
            k.policy().context_header@ == "## Relevant memories"@,
            k.policy().bullet@ == "- "@,
            k.policy().min_observation_chars == 8,
            k.policy().max_context_chars == 2000,
            k.policy().autosave_path is None,
            k.policy().autosave_every == 0,
            k.unsaved() == 0,
            k.recalled() is None,
            k.labels().len() == 0,
    {
        MemoryKernel::new(KernelConfig::default())
    }

    /// The policy.
    pub fn config(&self) -> (c: &KernelConfig)
        ensures
            *c == self.policy(),
    {
        &self.config
    }

    /// The policy, to change.
    pub fn config_mut(&mut self) -> (c: &mut KernelConfig)
        ensures
            *c == old(self).policy(),
            final(self).policy() == *final(c),
            final(self).unsaved() == old(self).unsaved(),
            final(self).recalled() == old(self).recalled(),
            final(self).labels() == old(self).labels(),
    {
        &mut self.config
    }

    /// Whether an observation is stored: it is long enough without the space around it.
    pub fn admits(&self, observation: &str) -> (r: bool)
        ensures
            r == (text::trim(observation@).len() >= self.policy().min_observation_chars),
    {
        text::trimmed(observation).len() >= self.config.min_observation_chars
    }

    /// Notes an observation, which the caller has stored if the policy admits it. Where the
    /// policy says that it is time to save, it gives the path and the count starts anew,
    /// whatever comes of the save.
    pub fn observe(&mut self, observation: &str) -> (r: Observed)
        requires
            old(self).unsaved() < usize::MAX,
        ensures
            final(self).policy() == old(self).policy(),
            final(self).recalled() == old(self).recalled(),
            final(self).labels() == old(self).labels(),
            r.stored == (text::trim(observation@).len() >= old(
                self,
            ).policy().min_observation_chars),
            !r.stored ==> r.save_to is None && final(self).unsaved() == old(self).unsaved(),
            r.stored ==> {
                let c = old(self).policy();
                let due = c.autosave_every > 0 && old(self).unsaved() + 1 >= c.autosave_every;
                match (r.save_to, c.autosave_path) {
                    (Some(path), Some(p)) => due && path@ == p@ && final(self).unsaved() == 0,
                    (None, Some(_)) => !due && final(self).unsaved() == old(self).unsaved() + 1,
                    (None, None) => final(self).unsaved() == old(self).unsaved() + 1,
                    (Some(_), None) => false,
                }
            },
    {
        if !self.admits(observation) {
            return Observed { stored: false, save_to: None };
        }
        self.pending += 1;
        if self.config.autosave_every == 0 || self.pending < self.config.autosave_every {
            return Observed { stored: true, save_to: None };
        }
        let path = match &self.config.autosave_path {
            Some(p) => p.as_str().to_owned(),
            None => {
                return Observed { stored: true, save_to: None };
            },
        };
        self.pending = 0;
        Observed { stored: true, save_to: Some(path) }
    }

    /// Notes that the store was saved.
    pub fn saved(&mut self)
        ensures
            final(self).unsaved() == 0,
            final(self).policy() == old(self).policy(),
            final(self).recalled() == old(self).recalled(),
            final(self).labels() == old(self).labels(),
    {
        self.pending = 0;
    }

    /// Keeps what a recall returned, for the labels to come.
    fn keep(&mut self, query: &str, found: &Vec<Scored>)
        ensures
            final(self).policy() == old(self).policy(),
            final(self).unsaved() == old(self).unsaved(),
            final(self).labels() == old(self).labels(),
            final(self).recalled() == Some((query@, pairs_of(found@))),
    {
        let mut items: Vec<(String, u32)> = Vec::new();
        let mut i: usize = 0;
        while i < found.len()
            invariant
                i <= found@.len(),
                items@.len() == i,
                forall|j: int|
                    0 <= j < i ==> (#[trigger] items@[j]).0@ == found@[j].memory@ && items@[j].1
                        == found@[j].score,
            decreases found@.len() - i,
        {
            items.push((found[i].memory.as_str().to_owned(), found[i].score));
            i += 1;
        }
        proof {
            assert(session::pair_views(items@) =~= pairs_of(found@));
        }
        self.last = Some((query.to_owned(), items));
    }

    /// The context that memories make.
    pub fn format_context(&self, memories: &Vec<String>) -> (context: String)
        ensures
            is_context(self.policy(), text::text_views(memories@), context@),
            has_room(self.policy(), text::text_views(memories@), context@),
    {
        if memories.len() == 0 {
            let none = String::new();
            proof {
                law_context_tells_what_it_has_room_for(
                    self.policy(),
                    text::text_views(memories@),
                    none@,
                );
            }
            return none;
        }
        let ghost names = text::text_views(memories@);
        let ghost max = self.config.max_context_chars as nat;
        let ghost bullet = self.config.bullet@;
        let mut out = self.config.context_header.as_str().to_owned();
        out.append("\n");
        let ghost full = bulleted(out@, bullet, names, max, 0);
        let mut i: usize = 0;
        let mut done = false;
        while i < memories.len() && !done
            invariant
                i <= memories@.len(),
                names == text::text_views(memories@),
                max == self.config.max_context_chars,
                bullet == self.config.bullet@,
                full == (if done {
                    out@
                } else {
                    bulleted(out@, bullet, names, max, i as int)
                }),
            decreases memories@.len() - i,
        {
            let ghost before = out@;
            proof {
                assert(names[i as int] == memories@[i as int]@);
            }
            out.append(self.config.bullet.as_str());
            out.append(one_line(memories[i].as_str()).as_str());
            out.append("\n");
            proof {
                assert(out@ =~= before + bullet + on_one_line(names[i as int]) + "\n"@);
            }
            if out.as_str().as_bytes().len() >= self.config.max_context_chars {
                done = true;
            }
            i += 1;
        }
        let context = cut_text(out.as_str(), self.config.max_context_chars);
        proof {
            law_context_tells_what_it_has_room_for(self.policy(), names, context@);
        }
        context
    }

    /// The context for a query, of the memories that were found for it.
    pub fn recall_context(&mut self, query: &str, found: &Vec<Scored>) -> (context: String)
        ensures
            is_context(old(self).policy(), texts_of(found@), context@),
            has_room(old(self).policy(), texts_of(found@), context@),
            final(self).policy() == old(self).policy(),
            final(self).unsaved() == old(self).unsaved(),
            final(self).labels() == old(self).labels(),
            final(self).recalled() == Some((query@, pairs_of(found@))),
    {
        self.keep(query, found);
        let memories = texts(found);
        self.format_context(&memories)
    }

    /// One step: the context for an input, of the memories that were found for it.
    /// `stored_input` says whether the input was then stored.
    pub fn step(&mut self, input: &str, found: &Vec<Scored>, stored_input: bool) -> (s: MemoryStep)
        ensures
            is_context(old(self).policy(), texts_of(found@), s.context@),
            has_room(old(self).policy(), texts_of(found@), s.context@),
            text::text_views(s.retrieved@) == texts_of(found@),
            s.stored_input == stored_input,
            final(self).policy() == old(self).policy(),
            final(self).unsaved() == old(self).unsaved(),
            final(self).labels() == old(self).labels(),
            final(self).recalled() == Some((input@, pairs_of(found@))),
    {
        self.keep(input, found);
        let retrieved = texts(found);
        let context = self.format_context(&retrieved);
        MemoryStep { context, retrieved, stored_input }
    }

    /// A fragment of a system prompt that says how to treat the context.
    pub fn system_prompt(&self) -> (s: String)
        ensures
            s@ == PROMPT_BEFORE@ + self.policy().context_header@ + PROMPT_AFTER@,
    {
        let mut s = PROMPT_BEFORE.to_owned();
        s.append(self.config.context_header.as_str());
        s.append(PROMPT_AFTER);
        s
    }

    /// How many memories a recall whose size follows from the evidence looks at: four times
    /// what the policy says, and sixteen at least.
    pub fn pool(&self) -> (n: usize)
        ensures
            n == (if 4 * self.policy().top_k < 16 {
                16nat
            } else {
                lifecycle::cut((4 * self.policy().top_k) as nat)
            }),
    {
        match self.config.top_k.checked_mul(4) {
            Some(n) => if n < 16 {
                16
            } else {
                n
            },
            None => usize::MAX,
        }
    }

    /// The scores on which a radius is calibrated: those of relevant targets that were
    /// chosen independently of any recall.
    pub fn calibration_scores(&self) -> (r: Vec<u32>)
        ensures
            r@ == feedback::target_scores(self.labels()),
    {
        self.log.nonconformity()
    }

    /// A recall of as many memories as the evidence needs. `evidence` holds the keys of the
    /// nonconformities of [`calibration_scores`](Self::calibration_scores), one for each;
    /// see [`conformal_set`].
    pub fn recall_set(
        &mut self,
        query: &str,
        found: &Vec<Scored>,
        evidence: &Vec<u64>,
        rank: usize,
    ) -> (r: ConformalRecall)
        requires
            evidence@.len() == feedback::target_scores(old(self).labels()).len(),
        ensures
            r.calibration_n == feedback::target_scores(old(self).labels()).len(),
            is_radius(evidence@, rank as nat, r.radius),
            session::pair_views(r.memories@) == recall_members(
                found@,
                r.radius,
                old(self).policy().top_k as nat,
            ),
            is_recall_set(
                found@,
                r.radius,
                old(self).policy().top_k as nat,
                session::pair_views(r.memories@),
            ),
            r.guaranteed == recall_promise(found@, r.radius),
            r.guaranteed ==> 1 <= rank <= r.calibration_n,
            final(self).policy() == old(self).policy(),
            final(self).unsaved() == old(self).unsaved(),
            final(self).labels() == old(self).labels(),
            final(self).recalled() == Some((query@, pairs_of(found@))),
    {
        self.keep(query, found);
        conformal_set(found, evidence, rank, self.config.top_k)
    }

    /// Labels memories of the last recall by their places in it; places past its end are
    /// ignored, and without a recall nothing happens. Returns how many labels were added.
    pub fn feedback(&mut self, relevant: &[usize], irrelevant: &[usize]) -> (n: usize)
        requires
            relevant@.len() + irrelevant@.len() <= usize::MAX,
        ensures
            final(self).policy() == old(self).policy(),
            final(self).unsaved() == old(self).unsaved(),
            final(self).recalled() == old(self).recalled(),
            ({
                let added = match old(self).recalled() {
                    Some((query, items)) => labels_at(query, items, relevant@, true) + labels_at(
                        query,
                        items,
                        irrelevant@,
                        false,
                    ),
                    None => Seq::empty(),
                };
                final(self).labels() == old(self).labels() + added && n == added.len()
            }),
    {
        let a: usize = self.label_all(relevant, true);
        let ghost middle = self.labels();
        let b: usize = self.label_all(irrelevant, false);
        proof {
            match old(self).recalled() {
                Some((query, items)) => {
                    let x = labels_at(query, items, relevant@, true);
                    let y = labels_at(query, items, irrelevant@, false);
                    assert(old(self).labels() + x + y =~= old(self).labels() + (x + y));
                },
                None => {},
            }
        }
        a + b
    }

    fn label_all(&mut self, indices: &[usize], relevant: bool) -> (n: usize)
        ensures
            final(self).policy() == old(self).policy(),
            final(self).unsaved() == old(self).unsaved(),
            final(self).recalled() == old(self).recalled(),
            n <= indices@.len(),
            ({
                let added = match old(self).recalled() {
                    Some((query, items)) => labels_at(query, items, indices@, relevant),
                    None => Seq::empty(),
                };
                final(self).labels() == old(self).labels() + added && n == added.len()
            }),
    {
        let ghost before = self.log@;
        let mut n: usize = 0;
        match &self.last {
            None => {
                proof {
                    assert(before + Seq::<feedback::EntryView>::empty() =~= before);
                }
            },
            Some((query, items)) => {
                let ghost pairs = session::pair_views(items@);
                let mut i: usize = 0;
                proof {
                    assert(before + labels_at(query@, pairs, indices@.take(0), relevant)
                        =~= before);
                }
                while i < indices.len()
                    invariant
                        i <= indices@.len(),
                        n <= i,
                        self.config == old(self).config,
                        self.pending == old(self).pending,
                        self.last == old(self).last,
                        pairs == session::pair_views(items@),
                        self.log@ == before + labels_at(
                            query@,
                            pairs,
                            indices@.take(i as int),
                            relevant,
                        ),
                        n == labels_at(query@, pairs, indices@.take(i as int), relevant).len(),
                    decreases indices@.len() - i,
                {
                    let at: usize = indices[i];
                    let ghost was = self.log@;
                    proof {
                        assert(indices@.take(i + 1).drop_last() =~= indices@.take(i as int));
                        assert(indices@.take(i + 1).last() == at);
                    }
                    if at < items.len() {
                        proof {
                            assert(pairs[at as int] == (items@[at as int].0@, items@[at as int].1));
                        }
                        self.log.record(
                            query.as_str(),
                            items[at].0.as_str(),
                            items[at].1,
                            relevant,
                        );
                        n += 1;
                        proof {
                            assert(self.log@ =~= before + labels_at(
                                query@,
                                pairs,
                                indices@.take(i + 1),
                                relevant,
                            ));
                        }
                    }
                    i += 1;
                }
                proof {
                    assert(indices@.take(i as int) =~= indices@);
                }
            },
        }
        n
    }

    /// The labels.
    pub fn feedback_log(&self) -> (l: &RelevanceFeedback)
        ensures
            l@ == self.labels(),
    {
        &self.log
    }
}

fn texts(found: &Vec<Scored>) -> (r: Vec<String>)
    ensures
        text::text_views(r@) == texts_of(found@),
{
    let mut out: Vec<String> = Vec::new();
    let mut i: usize = 0;
    while i < found.len()
        invariant
            i <= found@.len(),
            out@.len() == i,
            forall|j: int| 0 <= j < i ==> (#[trigger] out@[j])@ == found@[j].memory@,
        decreases found@.len() - i,
    {
        out.push(found[i].memory.as_str().to_owned());
        i += 1;
    }
    proof {
        assert(text::text_views(out@) =~= texts_of(found@));
    }
    out
}

proof fn lemma_inside_len(s: Seq<Scored>, radius: u64)
    ensures
        inside(s, radius).len() <= s.len(),
    decreases s.len(),
{
    if s.len() > 0 {
        lemma_inside_len(s.drop_last(), radius);
    }
}

fn within(found: &Vec<Scored>, radius: u64) -> (r: Vec<(String, u32)>)
    ensures
        session::pair_views(r@) == inside(found@, radius),
{
    let mut out: Vec<(String, u32)> = Vec::new();
    let mut i: usize = 0;
    proof {
        assert(session::pair_views(out@) =~= inside(found@.take(0), radius));
    }
    while i < found.len()
        invariant
            i <= found@.len(),
            session::pair_views(out@) == inside(found@.take(i as int), radius),
        decreases found@.len() - i,
    {
        let ghost was = out@;
        proof {
            assert(found@.take(i + 1).drop_last() =~= found@.take(i as int));
            assert(found@.take(i + 1).last() == found@[i as int]);
        }
        if found[i].nonconformity <= radius {
            out.push((found[i].memory.as_str().to_owned(), found[i].score));
            proof {
                assert(session::pair_views(out@) =~= session::pair_views(was).push(
                    (found@[i as int].memory@, found@[i as int].score),
                ));
            }
        }
        i += 1;
    }
    proof {
        assert(found@.take(i as int) =~= found@);
    }
    out
}

fn first(found: &Vec<Scored>, k: usize) -> (r: Vec<(String, u32)>)
    ensures
        session::pair_views(r@) == recall_members(found@, None, k as nat),
{
    let mut out: Vec<(String, u32)> = Vec::new();
    let mut i: usize = 0;
    while i < found.len() && i < k
        invariant
            i <= found@.len(),
            i <= k,
            out@.len() == i,
            forall|j: int|
                0 <= j < i ==> (#[trigger] out@[j]).0@ == found@[j].memory@ && out@[j].1
                    == found@[j].score,
        decreases found@.len() - i,
    {
        out.push((found[i].memory.as_str().to_owned(), found[i].score));
        i += 1;
    }
    proof {
        assert(session::pair_views(out@) =~= recall_members(found@, None, k as nat));
    }
    out
}

/// The system prompt before the header.
pub const PROMPT_BEFORE: &'static str =
    "You have a long-term semantic memory. When relevant, recalled memories are provided to you in a section titled \"";

/// The system prompt after the header.
pub const PROMPT_AFTER: &'static str =
    "\". Use them as background recollections: prefer information that is consistent and recent, treat them as fallible (they may be partial or outdated), and never invent memories that are not listed. If the user states a durable fact, preference, or decision, assume it will be remembered for future turns. Do not mention the memory mechanism unless asked.";

/// Labels of what recall returned add nothing to the evidence on which a radius is calibrated.
pub proof fn law_labels_of_candidates_calibrate_nothing(
    log: Seq<feedback::EntryView>,
    query: Seq<char>,
    items: Seq<(Seq<char>, u32)>,
    indices: Seq<usize>,
    relevant: bool,
)
    ensures
        feedback::target_scores(log + labels_at(query, items, indices, relevant))
            == feedback::target_scores(log),
    decreases indices.len(),
{
    let added = labels_at(query, items, indices, relevant);
    if indices.len() == 0 {
        assert(log + added =~= log);
    } else {
        let before = labels_at(query, items, indices.drop_last(), relevant);
        law_labels_of_candidates_calibrate_nothing(
            log,
            query,
            items,
            indices.drop_last(),
            relevant,
        );
        if indices.last() < items.len() {
            assert((log + added).drop_last() =~= log + before);
            assert((log + added).last() == added.last());
        }
    }
}

/// Feedback alone guarantees nothing: however what recall returned is labelled, a log without
/// independent targets gives no radius, and a recall without one promises no coverage.
pub proof fn law_feedback_alone_guarantees_nothing(
    log: Seq<feedback::EntryView>,
    query: Seq<char>,
    items: Seq<(Seq<char>, u32)>,
    indices: Seq<usize>,
    relevant: bool,
    evidence: Seq<u64>,
    rank: nat,
    radius: Option<u64>,
    found: Seq<Scored>,
)
    requires
        feedback::target_scores(log).len() == 0,
        evidence.len() == feedback::target_scores(
            log + labels_at(query, items, indices, relevant),
        ).len(),
        is_radius(evidence, rank, radius),
    ensures
        radius is None,
        !recall_promise(found, radius),
{
    law_labels_of_candidates_calibrate_nothing(log, query, items, indices, relevant);
}

/// The tools that an agent offers its model to drive the memory, as JSON.
pub const MEMORY_TOOL_SCHEMA_JSON: &'static str = r#"[
  {
    "name": "memory_store",
    "description": "Persist a durable fact, preference, decision, or observation to long-term memory. Call this whenever the user states something worth remembering across sessions.",
    "input_schema": {
      "type": "object",
      "properties": {
        "text": { "type": "string", "description": "The information to remember, as a self-contained sentence." }
      },
      "required": ["text"]
    }
  },
  {
    "name": "memory_recall",
    "description": "Retrieve memories relevant to a query before answering. Returns up to top_k past memories, nearest first.",
    "input_schema": {
      "type": "object",
      "properties": {
        "query": { "type": "string", "description": "What to look up in memory." },
        "top_k": { "type": "integer", "description": "Maximum memories to return.", "default": 5 }
      },
      "required": ["query"]
    }
  },
  {
    "name": "memory_explain",
    "description": "Explain why a query recalls what it does: the query's 3-D position, the nested regions it falls through (coarse→fine), and the nearest memories with distances. Use to audit or justify a recall.",
    "input_schema": {
      "type": "object",
      "properties": {
        "query": { "type": "string", "description": "The query to explain." },
        "top_k": { "type": "integer", "description": "Nearest memories to include.", "default": 5 }
      },
      "required": ["query"]
    }
  },
  {
    "name": "memory_feedback",
    "description": "After using recalled memories, report which of them were actually relevant to the task. Indices refer to the order of the last memory_recall result (0-based). This feedback calibrates the memory's confidence guarantees — call it whenever you can tell a recalled memory clearly helped or clearly did not.",
    "input_schema": {
      "type": "object",
      "properties": {
        "relevant_indices": { "type": "array", "items": { "type": "integer" }, "description": "Positions of the recalled memories that were useful." },
        "irrelevant_indices": { "type": "array", "items": { "type": "integer" }, "description": "Positions of the recalled memories that were not useful." }
      }
    }
  }
]"#;

/// Coverage is promised just where there is a radius and something that was found lies beyond it,
/// or nothing was found at all.
pub proof fn law_promise_needs_a_binding_radius(s: Seq<Scored>, radius: Option<u64>)
    ensures
        recall_promise(s, radius) <==> (radius matches Some(q) && (s.len() == 0 || exists|i: int|
            0 <= i < s.len() && (#[trigger] s[i]).nonconformity > q)),
{
    if let Some(q) = radius {
        lemma_beyond(s, q);
    }
}

proof fn lemma_beyond(s: Seq<Scored>, q: u64)
    ensures
        inside(s, q).len() <= s.len(),
        inside(s, q).len() < s.len() <==> exists|i: int|
            0 <= i < s.len() && (#[trigger] s[i]).nonconformity > q,
    decreases s.len(),
{
    if s.len() > 0 {
        let less = s.drop_last();
        lemma_beyond(less, q);
        let last = s.len() - 1;
        if inside(less, q).len() < less.len() {
            let i = choose|i: int| 0 <= i < less.len() && (#[trigger] less[i]).nonconformity > q;
            assert(s[i] == less[i]);
        }
        if exists|i: int| 0 <= i < s.len() && (#[trigger] s[i]).nonconformity > q {
            let i = choose|i: int| 0 <= i < s.len() && (#[trigger] s[i]).nonconformity > q;
            if i < last {
                assert(less[i] == s[i]);
            }
        }
        if s.last().nonconformity > q {
            assert(s[last].nonconformity > q);
        }
    }
}

} // verus!
