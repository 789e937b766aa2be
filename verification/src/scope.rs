//! The recall cascade: a causal scope narrows a query to a region, the region is ranked by
//! similarity, and the best of it is cut to a budget of tokens.
//!
//! Similarities are computed by the caller and handed over as bit patterns.
use crate::hybrid;
use crate::hybrid::Hit;
use crate::lifecycle;
use crate::mcp;
use crate::order;
use crate::text;
use vstd::prelude::*;

verus! {

/// The text in lower case, as `str::to_lowercase` gives it.
pub uninterp spec fn lower_form(s: Seq<char>) -> Seq<char>;

/// Calls `str::to_lowercase`; the contract names its result.
#[verifier::external_body]
pub(crate) fn lower_text(s: &str) -> (r: String)
    ensures
        r@ == lower_form(s@),
{
    s.to_lowercase()
}

/// A candidate of the causal layer.
#[derive(Debug)]
pub struct ScopeItem {
    /// The node.
    pub uri: String,
    /// Its content.
    pub content: String,
}

/// A candidate as a value.
pub struct ScopeItemView {
    pub uri: Seq<char>,
    pub content: Seq<char>,
}

impl View for ScopeItem {
    type V = ScopeItemView;

    open spec fn view(&self) -> ScopeItemView {
        ScopeItemView { uri: self.uri@, content: self.content@ }
    }
}

/// The views of candidates.
pub open spec fn scope_views(s: Seq<ScopeItem>) -> Seq<ScopeItemView> {
    s.map_values(|x: ScopeItem| x@)
}

pub(crate) fn clone_items(items: &Vec<ScopeItem>) -> (r: Vec<ScopeItem>)
    ensures
        scope_views(r@) == scope_views(items@),
{
    let mut out: Vec<ScopeItem> = Vec::new();
    let mut i: usize = 0;
    while i < items.len()
        invariant
            i <= items@.len(),
            out@.len() == i,
            forall|j: int| 0 <= j < i ==> (#[trigger] out@[j])@ == items@[j]@,
        decreases items@.len() - i,
    {
        out.push(
            ScopeItem {
                uri: items[i].uri.as_str().to_owned(),
                content: items[i].content.as_str().to_owned(),
            },
        );
        i += 1;
    }
    proof {
        assert(scope_views(out@) =~= scope_views(items@));
    }
    out
}

/// The causal function: it narrows a query to the candidates of its region.
pub trait CausalScope {
    /// The candidates for a query, within roughly so many tokens.
    fn scope(&self, query: &str, budget_tokens: usize) -> Vec<ScopeItem>;
}

/// A region of a built-in scope: its keywords and its candidates.
#[derive(Debug)]
pub struct ScopeRegion {
    keywords: Vec<String>,
    items: Vec<ScopeItem>,
}

/// A region as a value.
pub struct ScopeRegionView {
    pub keywords: Seq<Seq<char>>,
    pub items: Seq<ScopeItemView>,
}

impl View for ScopeRegion {
    type V = ScopeRegionView;

    closed spec fn view(&self) -> ScopeRegionView {
        ScopeRegionView {
            keywords: text::text_views(self.keywords@),
            items: scope_views(self.items@),
        }
    }
}

/// Some keyword occurs in the text.
pub open spec fn mentions(s: Seq<char>, keywords: Seq<Seq<char>>) -> bool {
    exists|i: int| 0 <= i < keywords.len() && #[trigger] text::occurs(s, keywords[i])
}

pub(crate) fn mentions_any(s: &str, keywords: &Vec<String>) -> (r: bool)
    ensures
        r == mentions(s@, text::text_views(keywords@)),
{
    let ghost views = text::text_views(keywords@);
    let mut i: usize = 0;
    while i < keywords.len()
        invariant
            i <= keywords@.len(),
            views == text::text_views(keywords@),
            forall|j: int| 0 <= j < i ==> !#[trigger] text::occurs(s@, views[j]),
        decreases keywords@.len() - i,
    {
        proof {
            assert(views[i as int] == keywords@[i as int]@);
        }
        if text::contains_text(s, keywords[i].as_str()) {
            proof {
                assert(text::occurs(s@, views[i as int]));
            }
            return true;
        }
        i += 1;
    }
    false
}

/// The candidates of the first region from `i` on of which the text mentions a keyword.
pub open spec fn routed(regions: Seq<ScopeRegionView>, s: Seq<char>, i: int) -> Seq<ScopeItemView>
    decreases regions.len() - i,
{
    if !(0 <= i < regions.len()) {
        Seq::empty()
    } else if mentions(s, regions[i].keywords) {
        regions[i].items
    } else {
        routed(regions, s, i + 1)
    }
}

/// Candidates are those of the first region of which the text mentions a keyword, and none
/// where it mentions none.
pub open spec fn gated(
    regions: Seq<ScopeRegionView>,
    s: Seq<char>,
    items: Seq<ScopeItemView>,
) -> bool {
    if exists|i: int| 0 <= i < regions.len() && mentions(s, (#[trigger] regions[i]).keywords) {
        exists|i: int|
            0 <= i < regions.len() && items == (#[trigger] regions[i]).items && mentions(
                s,
                regions[i].keywords,
            ) && forall|j: int| 0 <= j < i ==> !mentions(s, (#[trigger] regions[j]).keywords)
    } else {
        items.len() == 0
    }
}

/// A query goes to the first region that it mentions, and to no other.
pub proof fn law_first_mentioned_region_answers(regions: Seq<ScopeRegionView>, s: Seq<char>)
    ensures
        gated(regions, s, routed(regions, s, 0)),
{
    lemma_routed(regions, s, 0);
}

proof fn lemma_routed(regions: Seq<ScopeRegionView>, s: Seq<char>, i: int)
    requires
        0 <= i <= regions.len(),
        forall|j: int| 0 <= j < i ==> !mentions(s, (#[trigger] regions[j]).keywords),
    ensures
        gated(regions, s, routed(regions, s, i)),
    decreases regions.len() - i,
{
    if i < regions.len() {
        if mentions(s, regions[i].keywords) {
            assert(routed(regions, s, i) == regions[i].items);
        } else {
            lemma_routed(regions, s, i + 1);
        }
    }
}

/// A scope in memory: regions that are gated by keywords.
#[derive(Debug)]
pub struct InMemoryScope {
    regions: Vec<ScopeRegion>,
}

/// The keywords in lower case.
pub open spec fn lowered(keywords: Seq<&str>) -> Seq<Seq<char>> {
    keywords.map_values(|k: &str| lower_form(k@))
}

/// The pairs as candidates.
pub open spec fn paired(items: Seq<(&str, &str)>) -> Seq<ScopeItemView> {
    items.map_values(|p: (&str, &str)| ScopeItemView { uri: p.0@, content: p.1@ })
}

impl InMemoryScope {
    /// The regions, in the order in which they were added.
    pub closed spec fn view(&self) -> Seq<ScopeRegionView> {
        self.regions@.map_values(|r: ScopeRegion| r@)
    }

    /// A scope without regions.
    pub fn new() -> (s: InMemoryScope)
        ensures
            s@.len() == 0,
    {
        InMemoryScope { regions: Vec::new() }
    }

    /// Adds a region: queries that mention one of the keywords, whatever their case, are
    /// given its items.
    pub fn region(self, keywords: &[&str], items: &[(&str, &str)]) -> (s: InMemoryScope)
        ensures
            s@ == self@.push(
                ScopeRegionView { keywords: lowered(keywords@), items: paired(items@) },
            ),
    {
        let ghost before = self@;
        let mut words: Vec<String> = Vec::new();
        let mut i: usize = 0;
        while i < keywords.len()
            invariant
                i <= keywords@.len(),
                words@.len() == i,
                forall|j: int| 0 <= j < i ==> (#[trigger] words@[j])@ == lower_form(keywords@[j]@),
            decreases keywords@.len() - i,
        {
            words.push(lower_text(keywords[i]));
            i += 1;
        }
        let mut kept: Vec<ScopeItem> = Vec::new();
        let mut n: usize = 0;
        while n < items.len()
            invariant
                n <= items@.len(),
                kept@.len() == n,
                forall|j: int|
                    0 <= j < n ==> (#[trigger] kept@[j]).uri@ == items@[j].0@ && kept@[j].content@
                        == items@[j].1@,
            decreases items@.len() - n,
        {
            kept.push(ScopeItem { uri: items[n].0.to_owned(), content: items[n].1.to_owned() });
            n += 1;
        }
        let mut regions = self.regions;
        let region = ScopeRegion { keywords: words, items: kept };
        proof {
            assert(region@.keywords =~= lowered(keywords@));
            assert(region@.items =~= paired(items@));
        }
        regions.push(region);
        let s = InMemoryScope { regions };
        proof {
            assert(s@ =~= before.push(region@));
        }
        s
    }
}

impl CausalScope for InMemoryScope {
    /// The items of the first region of which the query mentions a keyword, whatever its
    /// case; none where there is no such region. The budget plays no part.
    fn scope(&self, query: &str, budget_tokens: usize) -> (r: Vec<ScopeItem>)
        ensures
            scope_views(r@) == routed(self@, lower_form(query@), 0),
            gated(self@, lower_form(query@), scope_views(r@)),
    {
        let _ = budget_tokens;
        let q = lower_text(query);
        let ghost views = self@;
        let mut i: usize = 0;
        while i < self.regions.len()
            invariant
                i <= self.regions@.len(),
                views == self@,
                q@ == lower_form(query@),
                routed(views, q@, 0) == routed(views, q@, i as int),
            decreases self.regions@.len() - i,
        {
            proof {
                assert(views[i as int] == self.regions@[i as int]@);
            }
            if mentions_any(q.as_str(), &self.regions[i].keywords) {
                proof {
                    law_first_mentioned_region_answers(views, q@);
                }
                return clone_items(&self.regions[i].items);
            }
            i += 1;
        }
        proof {
            law_first_mentioned_region_answers(views, q@);
        }
        let none: Vec<ScopeItem> = Vec::new();
        proof {
            assert(scope_views(none@) =~= Seq::<ScopeItemView>::empty());
        }
        none
    }
}

/// An item of a window.
#[derive(Debug)]
pub struct RecallItem {
    /// The node.
    pub uri: String,
    /// Its content.
    pub content: String,
    /// The bit pattern of its similarity.
    pub score: u32,
}

/// An item of a window as a value.
pub struct RecallItemView {
    pub uri: Seq<char>,
    pub content: Seq<char>,
    pub score: u32,
}

impl View for RecallItem {
    type V = RecallItemView;

    open spec fn view(&self) -> RecallItemView {
        RecallItemView { uri: self.uri@, content: self.content@, score: self.score }
    }
}

/// The views of items.
pub open spec fn recall_views(s: Seq<RecallItem>) -> Seq<RecallItemView> {
    s.map_values(|x: RecallItem| x@)
}

/// A window of context.
#[derive(Debug)]
pub struct RecallWindow {
    /// The way by which it came.
    pub strategy: &'static str,
    /// The items, most relevant first.
    pub items: Vec<RecallItem>,
    /// Its estimated tokens.
    pub tokens: usize,
}

/// The words of a text: the runs of characters between white space.
pub open spec fn word_count(s: Seq<char>) -> nat
    decreases s.len(),
{
    if s.len() == 0 {
        0
    } else {
        let n = s.len() as int;
        let begins = !text::is_whitespace(s[n - 1]) && (n == 1 || text::is_whitespace(s[n - 2]));
        word_count(s.drop_last()) + (if begins {
            1nat
        } else {
            0
        })
    }
}

/// The words of a text.
pub fn count_words(s: &str) -> (n: usize)
    ensures
        n == word_count(s@),
{
    let v = text::chars_of(s);
    let mut n: usize = 0;
    let mut i: usize = 0;
    while i < v.len()
        invariant
            i <= v@.len(),
            v@ == s@,
            n <= i,
            n == word_count(v@.take(i as int)),
        decreases v@.len() - i,
    {
        proof {
            assert(v@.take(i + 1).drop_last() =~= v@.take(i as int));
            assert(v@.take(i + 1)[i as int] == v@[i as int]);
            if i > 0 {
                assert(v@.take(i + 1)[i - 1] == v@[i - 1]);
            }
        }
        if !text::whitespace(v[i]) && (i == 0 || text::whitespace(v[i - 1])) {
            n += 1;
        }
        i += 1;
    }
    proof {
        assert(v@.take(i as int) =~= s@);
    }
    n
}

/// How many items, from the front, go into a budget of tokens: the first always, and then
/// as long as their words fit.
pub open spec fn fitting(items: Seq<RecallItemView>, budget: nat, i: int, tokens: nat) -> int
    decreases items.len() - i,
{
    if !(0 <= i < items.len()) {
        i
    } else if i > 0 && tokens + word_count(items[i].content) > budget {
        i
    } else {
        fitting(items, budget, i + 1, tokens + word_count(items[i].content))
    }
}

/// The words of items.
pub open spec fn words_of(items: Seq<RecallItemView>) -> nat
    decreases items.len(),
{
    if items.len() == 0 {
        0
    } else {
        words_of(items.drop_last()) + word_count(items.last().content)
    }
}

/// The keys by which items are ranked: the more similar, the smaller.
pub open spec fn rank_keys(items: Seq<RecallItemView>) -> Seq<u32> {
    Seq::new(items.len(), |i: int| (0xffff_ffff - order::total_key(items[i].score)) as u32)
}

/// The first `k` items in the order of a ranking.
pub open spec fn top_items(items: Seq<RecallItemView>, r: Seq<usize>, k: nat) -> Seq<RecallItemView> {
    Seq::new(
        if items.len() < k {
            items.len()
        } else {
            k
        },
        |i: int| items[r[i] as int],
    )
}

/// The window of a region: its most similar `k` items, equals in their first order, cut to
/// the budget.
pub open spec fn is_window(
    region: Seq<RecallItemView>,
    k: nat,
    budget: nat,
    items: Seq<RecallItemView>,
    tokens: nat,
) -> bool {
    exists|r: Seq<usize>| #[trigger]
        order::stable_ranking(rank_keys(region), r) && {
            let top = top_items(region, r, k);
            &&& items == top.take(fitting(top, budget, 0, 0))
            &&& tokens == words_of(items)
        }
}

proof fn lemma_fitting(items: Seq<RecallItemView>, budget: nat, i: int, tokens: nat)
    requires
        0 <= i <= items.len(),
        tokens == words_of(items.take(i)),
        i > 1 ==> tokens <= budget,
    ensures
        i <= fitting(items, budget, i, tokens) <= items.len(),
        fitting(items, budget, i, tokens) > 1 ==> words_of(
            items.take(fitting(items, budget, i, tokens)),
        ) <= budget,
        items.len() > 0 ==> fitting(items, budget, i, tokens) >= 1 || i > 0,
    decreases items.len() - i,
{
    if i < items.len() && !(i > 0 && tokens + word_count(items[i].content) > budget) {
        assert(items.take(i + 1).drop_last() =~= items.take(i));
        assert(items.take(i + 1).last() == items[i]);
        if i == 0 {
            assert(items.take(0).len() == 0);
        }
        lemma_fitting(items, budget, i + 1, tokens + word_count(items[i].content));
    }
}

/// Items stand before a budget as a window does, in the order of a ranking: the ranking holds
/// every place of the region once, the more similar first and equals in their first order; the
/// items are its beginning, at most `k`; their words are the tokens; one item is there wherever
/// one can be; more than one keep to the budget; and where fewer are there than could be, the
/// next of the ranking does not fit.
pub open spec fn fills(
    region: Seq<RecallItemView>,
    k: nat,
    budget: nat,
    items: Seq<RecallItemView>,
    tokens: nat,
    r: Seq<usize>,
) -> bool {
    &&& r.len() == region.len()
    &&& forall|i: int| 0 <= i < r.len() ==> (#[trigger] r[i]) < region.len()
    &&& forall|i: int, j: int|
        0 <= i < j < r.len() ==> {
            let a = order::total_key(region[#[trigger] r[i] as int].score);
            let b = order::total_key(region[#[trigger] r[j] as int].score);
            a > b || (a == b && r[i] < r[j])
        }
    &&& items.len() <= k
    &&& items.len() <= region.len()
    &&& forall|i: int| 0 <= i < items.len() ==> #[trigger] items[i] == region[r[i] as int]
    &&& tokens == words_of(items)
    &&& k > 0 && region.len() > 0 ==> items.len() > 0
    &&& items.len() > 1 ==> tokens <= budget
    &&& items.len() < k && items.len() < region.len() ==> tokens + word_count(
        region[r[items.len() as int] as int].content,
    ) > budget
}

/// Items stand before a budget as a window does, in the order of some ranking, of which there
/// is only one.
pub open spec fn is_filled(
    region: Seq<RecallItemView>,
    k: nat,
    budget: nat,
    items: Seq<RecallItemView>,
    tokens: nat,
) -> bool {
    exists|r: Seq<usize>| fills(region, k, budget, items, tokens, r)
}

proof fn lemma_fitting_stops(items: Seq<RecallItemView>, budget: nat, i: int, tokens: nat)
    requires
        0 <= i <= items.len(),
        tokens == words_of(items.take(i)),
    ensures
        ({
            let n = fitting(items, budget, i, tokens);
            &&& i <= n
            &&& n < items.len() ==> words_of(items.take(n)) + word_count(
                items[n].content,
            ) > budget
        }),
    decreases items.len() - i,
{
    if i < items.len() {
        assert(items.take(i + 1).drop_last() =~= items.take(i));
        assert(items.take(i + 1).last() == items[i]);
        lemma_fitting_stops(items, budget, i + 1, tokens + word_count(items[i].content));
    }
}

/// A window is as full as it may be: it holds the most similar items of the region, and ends
/// before `k` of them only where the region ends or the next does not fit the budget.
pub proof fn law_window_is_full(
    region: Seq<RecallItemView>,
    k: nat,
    budget: nat,
    items: Seq<RecallItemView>,
    tokens: nat,
)
    requires
        is_window(region, k, budget, items, tokens),
    ensures
        is_filled(region, k, budget, items, tokens),
{
    let r = choose|r: Seq<usize>| #[trigger]
        order::stable_ranking(rank_keys(region), r) && {
            let top = top_items(region, r, k);
            &&& items == top.take(fitting(top, budget, 0, 0))
            &&& tokens == words_of(items)
        };
    let keys = rank_keys(region);
    let top = top_items(region, r, k);
    assert(top.take(0).len() == 0);
    lemma_fitting(top, budget, 0, 0);
    lemma_fitting_stops(top, budget, 0, 0);
    assert forall|i: int, j: int| 0 <= i < j < r.len() implies {
        let a = order::total_key(region[#[trigger] r[i] as int].score);
        let b = order::total_key(region[#[trigger] r[j] as int].score);
        a > b || (a == b && r[i] < r[j])
    } by {
        assert(order::before(keys, r[i] as int, r[j] as int));
    }
    assert forall|i: int| 0 <= i < items.len() implies #[trigger] items[i] == region[r[i] as int] by {
        assert(items[i] == top[i]);
    }
    assert(fills(region, k, budget, items, tokens, r));
}

/// Words are what stands between white space: a text is as many words as its parts on both
/// sides of a white space.
pub proof fn law_white_space_parts_words(a: Seq<char>, c: char, b: Seq<char>)
    requires
        text::is_whitespace(c),
    ensures
        word_count(a.push(c) + b) == word_count(a) + word_count(b),
    decreases b.len(),
{
    let s = a.push(c) + b;
    if b.len() == 0 {
        assert(s =~= a.push(c));
        assert(s.drop_last() =~= a);
    } else {
        law_white_space_parts_words(a, c, b.drop_last());
        assert(s.drop_last() =~= a.push(c) + b.drop_last());
        let n = s.len() as int;
        assert(s[n - 1] == b[b.len() - 1]);
        if b.len() > 1 {
            assert(s[n - 2] == b[b.len() - 2]);
        } else {
            assert(s[n - 2] == c);
        }
    }
}

/// A text without white space is one word, if it is not empty.
pub proof fn law_no_white_space_is_one_word(s: Seq<char>)
    requires
        forall|i: int| 0 <= i < s.len() ==> !text::is_whitespace(#[trigger] s[i]),
    ensures
        word_count(s) == (if s.len() == 0 {
            0nat
        } else {
            1
        }),
    decreases s.len(),
{
    if s.len() > 0 {
        let less = s.drop_last();
        assert forall|i: int| 0 <= i < less.len() implies !text::is_whitespace(
            #[trigger] less[i],
        ) by {
            assert(less[i] == s[i]);
        }
        law_no_white_space_is_one_word(less);
        assert(!text::is_whitespace(s[s.len() - 1]));
        if s.len() > 1 {
            assert(!text::is_whitespace(s[s.len() - 2]));
        }
    }
}

/// The words of items are those of each: no item is left out, and none counts twice.
pub proof fn law_words_of_items_add_up(a: Seq<RecallItemView>, b: Seq<RecallItemView>)
    ensures
        words_of(a + b) == words_of(a) + words_of(b),
        a.len() == 1 ==> words_of(a) == word_count(a[0].content),
        a.len() == 0 ==> words_of(a) == 0,
    decreases b.len(),
{
    if a.len() == 1 {
        assert(a.drop_last().len() == 0);
        assert(words_of(a.drop_last()) == 0);
    }
    if b.len() == 0 {
        assert(a + b =~= a);
    } else {
        law_words_of_items_add_up(a, b.drop_last());
        assert((a + b).drop_last() =~= a + b.drop_last());
        assert((a + b).last() == b.last());
    }
}

/// A window holds at most `k` items; of a region that is not empty and a `k` that is not
/// zero it holds one at least, and with more than one its tokens keep to the budget.
pub proof fn law_window_keeps_its_bounds(
    region: Seq<RecallItemView>,
    k: nat,
    budget: nat,
    items: Seq<RecallItemView>,
    tokens: nat,
)
    requires
        is_window(region, k, budget, items, tokens),
    ensures
        items.len() <= k,
        region.len() > 0 && k > 0 ==> items.len() > 0,
        items.len() > 1 ==> tokens <= budget,
        forall|i: int| 0 <= i < items.len() ==> region.contains(#[trigger] items[i]),
{
    let r = choose|r: Seq<usize>| #[trigger]
        order::stable_ranking(rank_keys(region), r) && {
            let top = top_items(region, r, k);
            &&& items == top.take(fitting(top, budget, 0, 0))
            &&& tokens == words_of(items)
        };
    let top = top_items(region, r, k);
    assert(top.take(0).len() == 0);
    lemma_fitting(top, budget, 0, 0);
    if top.len() > 0 {
        assert(fitting(top, budget, 0, 0) >= 1);
    }
    assert forall|i: int| 0 <= i < items.len() implies region.contains(#[trigger] items[i]) by {
        assert(items[i] == top[i]);
        assert(top[i] == region[r[i] as int]);
    }
}

/// The cascade over a causal scope.
pub struct Cascade<C: CausalScope> {
    causal: C,
}

impl<C: CausalScope> Cascade<C> {
    /// The causal scope.
    pub closed spec fn causal(&self) -> C {
        self.causal
    }

    /// A cascade over a causal scope.
    pub fn new(causal: C) -> (c: Cascade<C>)
        ensures
            c.causal() == causal,
    {
        Cascade { causal }
    }

    /// The candidates for a query: the scope is asked for a region four times as large as
    /// the window.
    pub fn candidates(&self, query: &str, budget_tokens: usize) -> (r: Vec<ScopeItem>)
        ensures
            call_ensures(C::scope, (&self.causal(), query, scope_budget(budget_tokens)), r),
    {
        let budget: usize = match budget_tokens.checked_mul(4) {
            Some(n) => n,
            None => usize::MAX,
        };
        self.causal.scope(query, budget)
    }
}

/// The tokens for which the scope is asked.
pub open spec fn scope_budget(budget_tokens: usize) -> usize {
    if 4 * budget_tokens > usize::MAX {
        usize::MAX
    } else {
        (4 * budget_tokens) as usize
    }
}

/// The candidates with their similarities.
pub open spec fn scored(region: Seq<ScopeItemView>, scores: Seq<u32>) -> Seq<RecallItemView> {
    Seq::new(
        region.len(),
        |i: int|
            RecallItemView {
                uri: region[i].uri,
                content: region[i].content,
                score: scores[i],
            },
    )
}

/// The window of a region whose candidates have these similarities.
pub fn recall(region: &Vec<ScopeItem>, scores: &Vec<u32>, k: usize, budget_tokens: usize) -> (w:
    RecallWindow)
    requires
        scores@.len() == region@.len(),
    ensures
        w.strategy@ == "causal+semantic"@,
        is_window(
            scored(scope_views(region@), scores@),
            k as nat,
            budget_tokens as nat,
            recall_views(w.items@),
            w.tokens as nat,
        ),
        is_filled(
            scored(scope_views(region@), scores@),
            k as nat,
            budget_tokens as nat,
            recall_views(w.items@),
            w.tokens as nat,
        ),
{
    let ghost all = scored(scope_views(region@), scores@);
    let mut keys: Vec<u32> = Vec::new();
    let mut i: usize = 0;
    while i < scores.len()
        invariant
            i <= scores@.len(),
            scores@.len() == region@.len(),
            all == scored(scope_views(region@), scores@),
            keys@.len() == i,
            forall|j: int| 0 <= j < i ==> #[trigger] keys@[j] == rank_keys(all)[j],
        decreases scores@.len() - i,
    {
        keys.push(order::reversed_key(order::total_order_key(scores[i])));
        i += 1;
    }
    proof {
        assert(keys@ =~= rank_keys(all));
    }
    let ranks = order::stable_order(keys.as_slice());
    let ghost top = top_items(all, ranks@, k as nat);
    let mut items: Vec<RecallItem> = Vec::new();
    let mut tokens: usize = 0;
    let mut n: usize = 0;
    let mut open = true;
    proof {
        assert(recall_views(items@) =~= top.take(0));
    }
    while open && n < ranks.len() && n < k
        invariant
            n <= ranks@.len(),
            n <= k,
            scores@.len() == region@.len(),
            all == scored(scope_views(region@), scores@),
            keys@ == rank_keys(all),
            order::stable_ranking(keys@, ranks@),
            top == top_items(all, ranks@, k as nat),
            items@.len() == n,
            recall_views(items@) == top.take(n as int),
            tokens == words_of(top.take(n as int)),
            open ==> fitting(top, budget_tokens as nat, 0, 0) == fitting(
                top,
                budget_tokens as nat,
                n as int,
                tokens as nat,
            ),
            !open ==> fitting(top, budget_tokens as nat, 0, 0) == n,
        decreases ranks@.len() - n + (if open {
            1int
        } else {
            0
        }),
    {
        let at: usize = ranks[n];
        let t: usize = count_words(region[at].content.as_str());
        proof {
            assert(top[n as int] == all[at as int]);
            assert(scope_views(region@)[at as int] == region@[at as int]@);
            assert(top.take(n + 1).drop_last() =~= top.take(n as int));
            assert(top.take(n + 1).last() == top[n as int]);
        }
        let sum = tokens.checked_add(t);
        let fits = match sum {
            Some(x) => x <= budget_tokens,
            None => false,
        };
        if n > 0 && !fits {
            open = false;
        } else {
            let ghost before = items@;
            tokens = match sum {
                Some(x) => x,
                None => tokens,
            };
            items.push(
                RecallItem {
                    uri: region[at].uri.as_str().to_owned(),
                    content: region[at].content.as_str().to_owned(),
                    score: scores[at],
                },
            );
            proof {
                if n == 0 {
                    assert(top.take(0).len() == 0);
                }
                assert(recall_views(items@) =~= recall_views(before).push(top[n as int]));
                assert(recall_views(items@) =~= top.take(n + 1));
            }
            n += 1;
        }
    }
    proof {
        assert(items@.len() == n);
        assert(fitting(top, budget_tokens as nat, 0, 0) == n);
    }
    proof {
        law_window_is_full(
            all,
            k as nat,
            budget_tokens as nat,
            recall_views(items@),
            tokens as nat,
        );
    }
    RecallWindow { strategy: "causal+semantic", items, tokens }
}

/// A payload with its similarity, as an item of a window.
pub open spec fn unpacked(h: hybrid::HitView) -> RecallItemView {
    let (uri, content) = mcp::parted(h.payload);
    RecallItemView { uri, content, score: h.score }
}

/// The payload under which a node is indexed: its uri and its content.
pub fn packed_node(uri: &str, content: &str) -> (s: String)
    ensures
        s@ == mcp::packed(uri@, content@),
{
    mcp::pack(uri, content)
}

/// How many candidates a recall without a scope ranks exactly: thirty-two for each item
/// wanted, and 256 at least.
pub fn global_shortlist(k: usize) -> (n: usize)
    ensures
        n == (if 32 * k < 256 {
            256nat
        } else {
            lifecycle::cut((32 * k) as nat)
        }),
{
    match k.checked_mul(32) {
        Some(n) => if n < 256 {
            256
        } else {
            n
        },
        None => usize::MAX,
    }
}

/// The window of a recall without a scope, of the hits that the index gave.
pub fn recall_global(hits: &Vec<Hit>) -> (w: RecallWindow)
    ensures
        w.strategy@ == "semantic-global"@,
        recall_views(w.items@) == hybrid::hit_views(hits@).map_values(
            |h: hybrid::HitView| unpacked(h),
        ),
        w.tokens == lifecycle::cut(words_of(recall_views(w.items@))),
{
    let ghost views = hybrid::hit_views(hits@);
    let ghost all = views.map_values(|h: hybrid::HitView| unpacked(h));
    let mut items: Vec<RecallItem> = Vec::new();
    let mut tokens: usize = 0;
    let mut i: usize = 0;
    proof {
        assert(recall_views(items@) =~= all.take(0));
    }
    while i < hits.len()
        invariant
            i <= hits@.len(),
            views == hybrid::hit_views(hits@),
            all == views.map_values(|h: hybrid::HitView| unpacked(h)),
            recall_views(items@) == all.take(i as int),
            tokens == lifecycle::cut(words_of(all.take(i as int))),
        decreases hits@.len() - i,
    {
        let ghost before = items@;
        proof {
            assert(views[i as int] == hits@[i as int]@);
            assert(all.take(i + 1).drop_last() =~= all.take(i as int));
            assert(all.take(i + 1).last() == all[i as int]);
        }
        let (uri, content) = mcp::split_payload(hits[i].payload.as_str());
        let t: usize = count_words(content.as_str());
        tokens = match tokens.checked_add(t) {
            Some(x) => x,
            None => usize::MAX,
        };
        items.push(RecallItem { uri, content, score: hits[i].score });
        proof {
            assert(recall_views(items@) =~= recall_views(before).push(all[i as int]));
            assert(recall_views(items@) =~= all.take(i + 1));
        }
        i += 1;
    }
    proof {
        assert(all.take(i as int) =~= all);
    }
    RecallWindow { strategy: "semantic-global", items, tokens }
}

} // verus!
