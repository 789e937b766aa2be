//! A session of the server: what the last recall returned, the labels that its items were
//! given, and the tools that speak of them.
use crate::feedback;
use crate::feedback::{FeedbackSource, RelevanceFeedback};
use crate::hybrid;
use crate::hybrid::{RelatedHit, ShardedHybrid};
use crate::lifecycle;
use crate::mcp;
use crate::mcp::{
    bounded_string, bounded_string_list, bounded_usize, ensure_feedback_capacity, Args, MAX_K,
    MAX_QUERY_BYTES, MAX_REGION_BYTES,
};
use crate::text;
use crate::tools;
use crate::tools::{recall_window, WindowItem};
use vstd::prelude::*;

verus! {

/// The state of a session.
pub struct Session {
    query: String,
    items: Vec<(String, u32)>,
    log: RelevanceFeedback,
}

/// The state of a session as a value.
pub struct SessionView {
    /// The last query.
    pub query: Seq<char>,
    /// The uris and scores that the last recall returned.
    pub items: Seq<(Seq<char>, u32)>,
    /// The labels.
    pub log: Seq<feedback::EntryView>,
}

/// The uris and scores as values.
pub open spec fn pair_views(s: Seq<(String, u32)>) -> Seq<(Seq<char>, u32)> {
    s.map_values(|p: (String, u32)| (p.0@, p.1))
}

/// The uri and the score of each row.
pub open spec fn scored_uris(rows: Seq<hybrid::RowView>) -> Seq<(Seq<char>, u32)> {
    rows.map_values(|r: hybrid::RowView| (mcp::parted(r.payload).0, r.score))
}

/// The first item of a uri.
pub open spec fn item_at(items: Seq<(Seq<char>, u32)>, uri: Seq<char>) -> Option<u32>
    decreases items.len(),
{
    if items.len() == 0 {
        None
    } else if items[0].0 == uri {
        Some(items[0].1)
    } else {
        item_at(items.drop_first(), uri)
    }
}

/// A label of a recalled item.
pub open spec fn label(query: Seq<char>, uri: Seq<char>, score: u32, relevant: bool)
    -> feedback::EntryView {
    feedback::EntryView {
        query,
        memory: uri,
        score,
        relevant,
        source: FeedbackSource::RetrievedCandidate,
    }
}

/// The labels that a list of uris gives, in its order; uris that the last recall did not
/// return give none.
pub open spec fn labels_of(
    s: SessionView,
    uris: Seq<Seq<char>>,
    relevant: bool,
) -> Seq<feedback::EntryView>
    decreases uris.len(),
{
    if uris.len() == 0 {
        Seq::empty()
    } else {
        let before = labels_of(s, uris.drop_last(), relevant);
        match item_at(s.items, uris.last()) {
            Some(score) => before.push(label(s.query, uris.last(), score, relevant)),
            None => before,
        }
    }
}

/// The uris of a list that the last recall did not return, in their order.
pub open spec fn strangers(s: SessionView, uris: Seq<Seq<char>>) -> Seq<Seq<char>>
    decreases uris.len(),
{
    if uris.len() == 0 {
        Seq::empty()
    } else {
        let before = strangers(s, uris.drop_last());
        match item_at(s.items, uris.last()) {
            Some(_) => before,
            None => before.push(uris.last()),
        }
    }
}

/// What `feedback` adds: the labels, and the uris that are unknown.
pub open spec fn feedback_request(args: mcp::ArgsView, s: SessionView) -> Result<
    (Seq<feedback::EntryView>, Seq<Seq<char>>),
    Seq<char>,
> {
    if s.items.len() == 0 {
        Err("feedback needs a prior recall in this session"@)
    } else {
        match mcp::list_arg(args, "relevant"@) {
            Err(e) => Err(e),
            Ok(yes) => match mcp::list_arg(args, "irrelevant"@) {
                Err(e) => Err(e),
                Ok(no) => {
                    let labels = labels_of(s, yes, true) + labels_of(s, no, false);
                    match mcp::feedback_fault(s.log.len(), labels.len()) {
                        Some(e) => Err(e),
                        None => Ok((labels, strangers(s, yes) + strangers(s, no))),
                    }
                },
            },
        }
    }
}

/// What `feedback` did.
#[derive(Debug)]
pub struct FeedbackReport {
    /// How many labels were added.
    pub recorded: usize,
    /// The uris that the last recall did not return.
    pub unknown: Vec<String>,
    /// How many labels there are.
    pub total: usize,
}

struct Observation {
    uri: String,
    score: u32,
    relevant: bool,
}

spec fn observed(query: Seq<char>, s: Seq<Observation>) -> Seq<feedback::EntryView> {
    s.map_values(|o: Observation| label(query, o.uri@, o.score, o.relevant))
}

impl Session {
    /// The state as a value.
    pub closed spec fn view(&self) -> SessionView {
        SessionView { query: self.query@, items: pair_views(self.items@), log: self.log@ }
    }

    /// A session before its first recall.
    pub fn new() -> (s: Session)
        ensures
            s@.items.len() == 0,
            s@.log.len() == 0,
            s@.query.len() == 0,
    {
        Session { query: String::new(), items: Vec::new(), log: RelevanceFeedback::new() }
    }

    /// How many labels there are.
    pub fn feedback_recorded(&self) -> (n: usize)
        ensures
            n == self@.log.len(),
    {
        self.log.len()
    }

    /// How many labels say relevant.
    pub fn feedback_relevant(&self) -> (n: usize)
        ensures
            n == feedback::relevant_among(self@.log),
    {
        self.log.relevant_count()
    }

    /// Answers a recall, and keeps what it returned for the labels to come.
    pub fn answer_recall(&mut self, query: &str, rows: &Vec<RelatedHit>) -> (r: (
        Vec<WindowItem>,
        usize,
    ))
        ensures
            tools::item_views(r.0@) == hybrid::row_views(rows@).map_values(
                |x: hybrid::RowView| tools::item_of(x),
            ),
            r.1 == lifecycle::cut(
                tools::tokens_of(hybrid::row_views(rows@), rows@.len() as int),
            ),
            final(self)@ == (SessionView {
                query: query@,
                items: scored_uris(hybrid::row_views(rows@)),
                log: old(self)@.log,
            }),
    {
        let (items, tokens) = recall_window(rows);
        let ghost views = hybrid::row_views(rows@);
        let mut kept: Vec<(String, u32)> = Vec::new();
        let mut i: usize = 0;
        proof {
            assert(tools::item_views(items@).len() == views.len());
        }
        while i < items.len()
            invariant
                i <= items@.len(),
                items@.len() == views.len(),
                tools::item_views(items@) == views.map_values(
                    |x: hybrid::RowView| tools::item_of(x),
                ),
                kept@.len() == i,
                forall|j: int|
                    0 <= j < i ==> pair_views(kept@)[j] == #[trigger] scored_uris(views)[j],
            decreases items@.len() - i,
        {
            let ghost was = kept@;
            proof {
                assert(tools::item_views(items@)[i as int] == items@[i as int]@);
                assert(tools::item_views(items@)[i as int] == tools::item_of(views[i as int]));
            }
            kept.push((items[i].uri.as_str().to_owned(), items[i].score));
            proof {
                assert forall|j: int| 0 <= j < i + 1 implies pair_views(kept@)[j]
                    == #[trigger] scored_uris(views)[j] by {
                    if j < i {
                        assert(pair_views(kept@)[j] == pair_views(was)[j]);
                    }
                }
            }
            i += 1;
        }
        self.query = query.to_owned();
        self.items = kept;
        proof {
            assert(self@.items =~= scored_uris(views));
        }
        (items, tokens)
    }

    fn find(&self, uri: &str) -> (r: Option<u32>)
        ensures
            r == item_at(self@.items, uri@),
    {
        let mut i: usize = 0;
        let ghost s = self@.items;
        proof {
            assert(s.skip(0) =~= s);
        }
        while i < self.items.len()
            invariant
                i <= self.items@.len(),
                s == pair_views(self.items@),
                item_at(s, uri@) == item_at(s.skip(i as int), uri@),
            decreases self.items@.len() - i,
        {
            proof {
                assert(s.skip(i as int).drop_first() =~= s.skip(i + 1));
                assert(s.skip(i as int)[0] == (self.items@[i as int].0@, self.items@[i as int].1));
            }
            if text::text_equal(self.items[i].0.as_str(), uri) {
                return Some(self.items[i].1);
            }
            i += 1;
        }
        None
    }

    fn observe(
        &self,
        uris: Vec<String>,
        relevant: bool,
        found: &mut Vec<Observation>,
        unknown: &mut Vec<String>,
    )
        ensures
            observed(self@.query, final(found)@) == observed(self@.query, old(found)@) + labels_of(
                self@,
                text::text_views(uris@),
                relevant,
            ),
            text::text_views(final(unknown)@) == text::text_views(old(unknown)@) + strangers(
                self@,
                text::text_views(uris@),
            ),
    {
        let ghost names = text::text_views(uris@);
        let ghost first = observed(self@.query, found@);
        let ghost second = text::text_views(unknown@);
        let mut i: usize = 0;
        proof {
            assert(first + labels_of(self@, names.take(0), relevant) =~= first);
            assert(second + strangers(self@, names.take(0)) =~= second);
        }
        while i < uris.len()
            invariant
                i <= uris@.len(),
                names == text::text_views(uris@),
                observed(self@.query, found@) == first + labels_of(
                    self@,
                    names.take(i as int),
                    relevant,
                ),
                text::text_views(unknown@) == second + strangers(self@, names.take(i as int)),
            decreases uris@.len() - i,
        {
            let ghost found_was = found@;
            let ghost unknown_was = unknown@;
            proof {
                assert(names.take(i + 1).drop_last() =~= names.take(i as int));
                assert(names.take(i + 1).last() == uris@[i as int]@);
            }
            match self.find(uris[i].as_str()) {
                Some(score) => {
                    let o = Observation { uri: uris[i].as_str().to_owned(), score, relevant };
                    found.push(o);
                    proof {
                        assert(observed(self@.query, found@) =~= observed(
                            self@.query,
                            found_was,
                        ).push(label(self@.query, o.uri@, score, relevant)));
                        assert(observed(self@.query, found@) =~= first + labels_of(
                            self@,
                            names.take(i + 1),
                            relevant,
                        ));
                    }
                },
                None => {
                    unknown.push(uris[i].as_str().to_owned());
                    proof {
                        assert(text::text_views(unknown@) =~= text::text_views(unknown_was).push(
                            uris@[i as int]@,
                        ));
                        assert(text::text_views(unknown@) =~= second + strangers(
                            self@,
                            names.take(i + 1),
                        ));
                    }
                },
            }
            i += 1;
        }
        proof {
            assert(names.take(i as int) =~= names);
        }
    }

    /// Keeps what a recall returned, for the labels to come.
    pub fn keep(&mut self, query: &str, items: Vec<(String, u32)>)
        ensures
            final(self)@ == (SessionView {
                query: query@,
                items: pair_views(items@),
                log: old(self)@.log,
            }),
    {
        self.query = query.to_owned();
        self.items = items;
    }

    /// Whether the last recall returned nothing, or there was none.
    pub fn has_nothing(&self) -> (r: bool)
        ensures
            r == (self@.items.len() == 0),
    {
        self.items.len() == 0
    }

    /// Labels items of the last recall by their uris, if `bounded` only where the session
    /// does not come to hold too many labels.
    pub fn label_items(&mut self, yes: Vec<String>, no: Vec<String>, bounded: bool) -> (r: Result<
        FeedbackReport,
        String,
    >)
        ensures
            final(self)@.query == old(self)@.query,
            final(self)@.items == old(self)@.items,
            ({
                let s = old(self)@;
                let yes_names = text::text_views(yes@);
                let no_names = text::text_views(no@);
                let labels = labels_of(s, yes_names, true) + labels_of(s, no_names, false);
                let fault = mcp::feedback_fault(s.log.len(), labels.len());
                match r {
                    Ok(report) => {
                        &&& bounded ==> fault is None
                        &&& final(self)@.log == s.log + labels
                        &&& report.recorded == labels.len()
                        &&& text::text_views(report.unknown@) == strangers(s, yes_names)
                            + strangers(s, no_names)
                        &&& report.total == s.log.len() + labels.len()
                    },
                    Err(m) => bounded && fault == Some(m@) && final(self)@ == s,
                }
            }),
    {
        let mut found: Vec<Observation> = Vec::new();
        let mut unknown: Vec<String> = Vec::new();
        let ghost s = self@;
        proof {
            assert(observed(s.query, found@) =~= Seq::<feedback::EntryView>::empty());
            assert(text::text_views(unknown@) =~= Seq::<Seq<char>>::empty());
        }
        let ghost yes_names = text::text_views(yes@);
        let ghost no_names = text::text_views(no@);
        self.observe(yes, true, &mut found, &mut unknown);
        proof {
            assert(observed(s.query, found@) =~= labels_of(s, yes_names, true));
            assert(text::text_views(unknown@) =~= strangers(s, yes_names));
        }
        self.observe(no, false, &mut found, &mut unknown);
        let ghost labels = labels_of(s, yes_names, true) + labels_of(s, no_names, false);
        if bounded {
            ensure_feedback_capacity(self.log.len(), found.len())?;
        }
        let recorded: usize = found.len();
        let mut i: usize = 0;
        proof {
            assert(s.log + labels.take(0) =~= s.log);
        }
        while i < found.len()
            invariant
                i <= found@.len(),
                observed(s.query, found@) == labels,
                self@.query == s.query,
                self@.items == s.items,
                self@.log == s.log + labels.take(i as int),
            decreases found@.len() - i,
        {
            proof {
                assert(labels[i as int] == observed(s.query, found@)[i as int]);
                assert((s.log + labels.take(i as int)).push(labels[i as int]) =~= s.log
                    + labels.take(i + 1));
            }
            self.log.record(
                self.query.as_str(),
                found[i].uri.as_str(),
                found[i].score,
                found[i].relevant,
            );
            i += 1;
        }
        proof {
            assert(labels.take(i as int) =~= labels);
        }
        Ok(FeedbackReport { recorded, unknown, total: self.log.len() })
    }

    /// Labels items of the last recall by their uris. Either every label of the call is
    /// added or, where the session would hold too many, none; unknown uris are reported.
    pub fn give_feedback(&mut self, args: &Args) -> (r: Result<FeedbackReport, String>)
        ensures
            final(self)@.query == old(self)@.query,
            final(self)@.items == old(self)@.items,
            match (r, feedback_request(args@, old(self)@)) {
                (Ok(report), Ok((labels, unknown))) => {
                    &&& final(self)@.log == old(self)@.log + labels
                    &&& report.recorded == labels.len()
                    &&& text::text_views(report.unknown@) == unknown
                    &&& report.total == old(self)@.log.len() + labels.len()
                },
                (Err(m), Err(e)) => m@ == e && final(self)@ == old(self)@,
                _ => false,
            },
    {
        if self.items.len() == 0 {
            return Err("feedback needs a prior recall in this session".to_owned());
        }
        let yes = bounded_string_list(args, "relevant")?;
        let no = bounded_string_list(args, "irrelevant")?;
        self.label_items(yes, no, true)
    }
}

/// An explanation that is asked for.
#[derive(Debug)]
pub struct ExplainPlan {
    /// The query.
    pub text: String,
    /// The neighbours wanted.
    pub k: usize,
    /// The region.
    pub region: String,
}

/// The query, the size and the region that `explain` names; the region may be empty.
pub open spec fn explain_request(args: mcp::ArgsView) -> Result<
    (Seq<char>, nat, Seq<char>),
    Seq<char>,
> {
    match mcp::text_arg(args, "text"@, MAX_QUERY_BYTES as nat) {
        Err(e) => Err(e),
        Ok(query) => if query.len() == 0 {
            Err("explain needs `text`"@)
        } else {
            match mcp::number_arg(args, "k"@, 5, 1, MAX_K as nat) {
                Err(e) => Err(e),
                Ok(k) => match mcp::text_arg(args, "region"@, MAX_REGION_BYTES as nat) {
                    Err(e) => Err(e),
                    Ok(region) => Ok((query, k, region)),
                },
            }
        },
    }
}

/// The error of an explanation without a region, where there are several or none.
pub open spec fn region_choice(names: Seq<Seq<char>>) -> Seq<char> {
    "explain needs `region` (one of: "@ + text::joined(names, ", "@) + ")"@
}

/// What `explain` asks for: without a region, it is of the only one.
pub fn plan_explain(args: &Args, mem: &ShardedHybrid) -> (r: Result<ExplainPlan, String>)
    ensures
        match (r, explain_request(args@)) {
            (Ok(p), Ok((query, k, region))) => {
                &&& p.text@ == query
                &&& p.k == k
                &&& if region.len() > 0 {
                    p.region@ == region
                } else {
                    lifecycle::lists_regions(mem, seq![p.region@])
                }
            },
            (Err(m), Ok((query, k, region))) => {
                &&& region.len() == 0
                &&& mem@.dom().len() != 1
                &&& exists|names: Seq<Seq<char>>|
                    #![trigger lifecycle::lists_regions(mem, names)]
                    lifecycle::lists_regions(mem, names) && m@ == region_choice(names)
            },
            (Err(m), Err(e)) => m@ == e,
            (Ok(_), Err(_)) => false,
        },
{
    let query = bounded_string(args, "text", MAX_QUERY_BYTES)?;
    if mcp::is_empty(query.as_str()) {
        return Err("explain needs `text`".to_owned());
    }
    let k: usize = bounded_usize(args, "k", 5, 1, MAX_K)?;
    let asked = bounded_string(args, "region", MAX_REGION_BYTES)?;
    if !mcp::is_empty(asked.as_str()) {
        return Ok(ExplainPlan { text: query, k, region: asked });
    }
    let names = mem.region_keys();
    proof {
        lifecycle::lemma_lists(mem, names@);
    }
    if names.len() == 1 {
        let region = names[0].as_str().to_owned();
        proof {
            assert(text::text_views(names@) =~= seq![region@]);
        }
        return Ok(ExplainPlan { text: query, k, region });
    }
    let mut m = "explain needs `region` (one of: ".to_owned();
    m.append(text::join(&names, ", ").as_str());
    m.append(")");
    proof {
        assert(m@ =~= region_choice(text::text_views(names@)));
    }
    Err(m)
}

/// The error of an explanation that the region could not give.
pub fn unknown_region(region: &str) -> (m: String)
    ensures
        m@ == "unknown region '"@ + region@ + "' or invalid query"@,
{
    let mut m = "unknown region '".to_owned();
    m.append(region);
    m.append("' or invalid query");
    m
}

/// A uri stands for the first item of the last recall that has it, and for none where no item
/// does.
pub proof fn law_first_item_answers(items: Seq<(Seq<char>, u32)>, uri: Seq<char>)
    ensures
        match item_at(items, uri) {
            Some(score) => exists|i: int|
                0 <= i < items.len() && #[trigger] items[i] == (uri, score) && forall|j: int|
                    0 <= j < i ==> (#[trigger] items[j]).0 != uri,
            None => forall|i: int| 0 <= i < items.len() ==> (#[trigger] items[i]).0 != uri,
        },
    decreases items.len(),
{
    if items.len() > 0 {
        if items[0].0 == uri {
            assert(items[0] == (uri, items[0].1));
        } else {
            let rest = items.drop_first();
            law_first_item_answers(rest, uri);
            match item_at(rest, uri) {
                Some(score) => {
                    let i = choose|i: int|
                        0 <= i < rest.len() && #[trigger] rest[i] == (uri, score) && forall|j: int|
                            0 <= j < i ==> (#[trigger] rest[j]).0 != uri;
                    assert(items[i + 1] == (uri, score));
                    assert forall|j: int| 0 <= j < i + 1 implies (#[trigger] items[j]).0 != uri by {
                        if j > 0 {
                            assert(rest[j - 1] == items[j]);
                        }
                    }
                },
                None => {
                    assert forall|j: int| 0 <= j < items.len() implies (#[trigger] items[j]).0
                        != uri by {
                        if j > 0 {
                            assert(rest[j - 1] == items[j]);
                        }
                    }
                },
            }
        }
    }
}

/// Each uri of a list gives its own label, or is unknown, whatever else is in the list: the
/// labels and the unknown uris of two lists are those of one and then of the other.
pub proof fn law_labels_add_up(
    s: SessionView,
    a: Seq<Seq<char>>,
    b: Seq<Seq<char>>,
    relevant: bool,
)
    ensures
        labels_of(s, a + b, relevant) == labels_of(s, a, relevant) + labels_of(s, b, relevant),
        strangers(s, a + b) == strangers(s, a) + strangers(s, b),
    decreases b.len(),
{
    if b.len() == 0 {
        assert(a + b =~= a);
        assert(labels_of(s, a, relevant) + labels_of(s, b, relevant) =~= labels_of(
            s,
            a,
            relevant,
        ));
        assert(strangers(s, a) + strangers(s, b) =~= strangers(s, a));
    } else {
        law_labels_add_up(s, a, b.drop_last(), relevant);
        assert((a + b).drop_last() =~= a + b.drop_last());
        assert((a + b).last() == b.last());
        assert(labels_of(s, a + b, relevant) =~= labels_of(s, a, relevant) + labels_of(
            s,
            b,
            relevant,
        ));
        assert(strangers(s, a + b) =~= strangers(s, a) + strangers(s, b));
    }
}

/// A uri that the last recall returned gives one label, with the query and its score; another
/// gives none, and is unknown.
pub proof fn law_one_uri_gives_one_label(s: SessionView, uri: Seq<char>, relevant: bool)
    ensures
        match item_at(s.items, uri) {
            Some(score) => labels_of(s, seq![uri], relevant) == seq![
                feedback::EntryView {
                    query: s.query,
                    memory: uri,
                    score,
                    relevant,
                    source: FeedbackSource::RetrievedCandidate,
                },
            ] && strangers(s, seq![uri]).len() == 0,
            None => labels_of(s, seq![uri], relevant).len() == 0 && strangers(s, seq![uri])
                == seq![uri],
        },
{
    let one = seq![uri];
    assert(one.drop_last().len() == 0);
    assert(labels_of(s, one.drop_last(), relevant).len() == 0);
    assert(strangers(s, one.drop_last()).len() == 0);
    match item_at(s.items, uri) {
        Some(score) => {
            assert(labels_of(s, one, relevant) =~= seq![
                feedback::EntryView {
                    query: s.query,
                    memory: uri,
                    score,
                    relevant,
                    source: FeedbackSource::RetrievedCandidate,
                },
            ]);
        },
        None => {
            assert(strangers(s, one) =~= seq![uri]);
        },
    }
}

/// Feedback labels what the last recall returned: every label is of a uri that was given, relevant
/// where it was given as such, with the query and the score of the recall; and each uri that was
/// given is either labelled or named as unknown.
pub proof fn law_feedback_labels_what_was_recalled(args: mcp::ArgsView, s: SessionView, i: int)
    requires
        feedback_request(args, s) is Ok,
        0 <= i < feedback_request(args, s)->Ok_0.0.len(),
    ensures
        ({
            let (labels, unknown) = feedback_request(args, s)->Ok_0;
            let yes = mcp::list_arg(args, "relevant"@)->Ok_0;
            let no = mcp::list_arg(args, "irrelevant"@)->Ok_0;
            let e = labels[i];
            &&& labels.len() + unknown.len() == yes.len() + no.len()
            &&& e.relevant ==> yes.contains(e.memory)
            &&& !e.relevant ==> no.contains(e.memory)
            &&& e.query == s.query
            &&& item_at(s.items, e.memory) == Some(e.score)
            &&& e.source is RetrievedCandidate
        }),
{
    let yes = mcp::list_arg(args, "relevant"@)->Ok_0;
    let no = mcp::list_arg(args, "irrelevant"@)->Ok_0;
    let n = labels_of(s, yes, true).len();
    lemma_labelled(s, yes, true);
    lemma_labelled(s, no, false);
    if i < n {
        assert((labels_of(s, yes, true) + labels_of(s, no, false))[i] == labels_of(s, yes, true)[i]);
    } else {
        assert((labels_of(s, yes, true) + labels_of(s, no, false))[i] == labels_of(s, no, false)[i
            - n]);
    }
}

proof fn lemma_labelled(s: SessionView, uris: Seq<Seq<char>>, relevant: bool)
    ensures
        labels_of(s, uris, relevant).len() + strangers(s, uris).len() == uris.len(),
        forall|i: int|
            0 <= i < labels_of(s, uris, relevant).len() ==> {
                let e = #[trigger] labels_of(s, uris, relevant)[i];
                &&& e.relevant == relevant
                &&& uris.contains(e.memory)
                &&& e.query == s.query
                &&& item_at(s.items, e.memory) == Some(e.score)
                &&& e.source is RetrievedCandidate
            },
    decreases uris.len(),
{
    if uris.len() > 0 {
        let p = uris.drop_last();
        lemma_labelled(s, p, relevant);
        let before = labels_of(s, p, relevant);
        let all = labels_of(s, uris, relevant);
        assert forall|i: int| 0 <= i < all.len() implies {
            let e = #[trigger] all[i];
            &&& e.relevant == relevant
            &&& uris.contains(e.memory)
            &&& e.query == s.query
            &&& item_at(s.items, e.memory) == Some(e.score)
            &&& e.source is RetrievedCandidate
        } by {
            if i < before.len() {
                assert(all[i] == before[i]);
                let j = choose|j: int| 0 <= j < p.len() && p[j] == before[i].memory;
                assert(uris[j] == before[i].memory);
            } else {
                assert(uris[uris.len() - 1] == uris.last());
            }
        }
    }
}

/// An explanation asks for what is given: a query, which must not be empty, so many items, by
/// default five, and the region.
pub proof fn law_explain_asks_for_what_is_given(args: mcp::ArgsView)
    ensures
        explain_request(args) matches Ok((query, k, region)) ==> {
            &&& query == mcp::text_given(args, "text"@)
            &&& query.len() > 0
            &&& k == (match mcp::number_given(args, "k"@) {
                Some(n) => n as nat,
                None => 5,
            })
            &&& 1 <= k <= 32
            &&& region == mcp::text_given(args, "region"@)
        },
{
    mcp::law_number_arguments(args, "k"@, 5, 1, 32);
}

/// Each uri of a list is either labelled or named as unknown.
pub proof fn law_every_uri_is_accounted_for(s: SessionView, uris: Seq<Seq<char>>, relevant: bool)
    ensures
        labels_of(s, uris, relevant).len() + strangers(s, uris).len() == uris.len(),
        forall|i: int|
            0 <= i < labels_of(s, uris, relevant).len() ==> {
                let e = #[trigger] labels_of(s, uris, relevant)[i];
                &&& e.relevant == relevant
                &&& uris.contains(e.memory)
                &&& e.query == s.query
                &&& item_at(s.items, e.memory) == Some(e.score)
            },
{
    lemma_labelled(s, uris, relevant);
}

/// An explanation is accepted just where its arguments are in order, and feedback just where there
/// was a recall, its lists are in order and the log has room.
pub proof fn law_requests_are_accepted(args: mcp::ArgsView, s: SessionView)
    ensures
        explain_request(args) is Ok <==> {
            &&& mcp::text_ok(args, "text"@, 32_768)
            &&& mcp::text_given(args, "text"@).len() > 0
            &&& mcp::count_ok(args, "k"@, 1, 32)
            &&& mcp::text_ok(args, "region"@, 1_024)
        },
        feedback_request(args, s) is Ok <==> {
            let yes = mcp::list_arg(args, "relevant"@);
            let no = mcp::list_arg(args, "irrelevant"@);
            &&& s.items.len() > 0
            &&& yes is Ok
            &&& no is Ok
            &&& s.log.len() + labels_of(s, yes->Ok_0, true).len() + labels_of(
                s,
                no->Ok_0,
                false,
            ).len() <= 1_024
        },
{
    mcp::law_number_arguments(args, "k"@, 5, 1, 32);
    let yes = labels_of(s, mcp::list_arg(args, "relevant"@)->Ok_0, true);
    let no = labels_of(s, mcp::list_arg(args, "irrelevant"@)->Ok_0, false);
    mcp::law_feedback_is_bounded(s.log.len(), (yes + no).len());
}

} // verus!
