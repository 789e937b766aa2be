//! The log of relevance labels.
//!
//! Labels of recalled candidates and independently chosen targets are different evidence:
//! only the latter may calibrate a promise of coverage.
use vstd::prelude::*;

verus! {

/// Where a label comes from.
#[derive(Clone, Copy, Debug, PartialEq, Eq, Structural)]
pub enum FeedbackSource {
    /// A candidate that a recall had returned.
    RetrievedCandidate,
    /// A target that was chosen independently of any recall.
    ExternalGroundTruth,
}

/// A label: a memory was relevant for a query, or was not.
#[derive(Debug)]
pub struct FeedbackEntry {
    /// The query.
    pub query: String,
    /// The memory.
    pub memory: String,
    /// The bit pattern of the score that the recall reported.
    pub score: u32,
    /// The verdict.
    pub relevant: bool,
    /// Where the label comes from.
    pub source: FeedbackSource,
}

/// A label as a value.
pub struct EntryView {
    pub query: Seq<char>,
    pub memory: Seq<char>,
    pub score: u32,
    pub relevant: bool,
    pub source: FeedbackSource,
}

impl View for FeedbackEntry {
    type V = EntryView;

    open spec fn view(&self) -> EntryView {
        EntryView {
            query: self.query@,
            memory: self.memory@,
            score: self.score,
            relevant: self.relevant,
            source: self.source,
        }
    }
}

/// The views of labels.
pub open spec fn entry_views(s: Seq<FeedbackEntry>) -> Seq<EntryView> {
    s.map_values(|e: FeedbackEntry| e@)
}

/// The number of labels that say relevant.
pub open spec fn relevant_among(s: Seq<EntryView>) -> nat
    decreases s.len(),
{
    if s.len() == 0 {
        0
    } else {
        relevant_among(s.drop_last()) + (if s.last().relevant {
            1nat
        } else {
            0
        })
    }
}

/// The label is a relevant target that was chosen independently.
pub open spec fn is_target(e: EntryView) -> bool {
    e.relevant && e.source is ExternalGroundTruth
}

/// The scores of the relevant targets that were chosen independently.
pub open spec fn target_scores(s: Seq<EntryView>) -> Seq<u32>
    decreases s.len(),
{
    if s.len() == 0 {
        Seq::empty()
    } else if is_target(s.last()) {
        target_scores(s.drop_last()).push(s.last().score)
    } else {
        target_scores(s.drop_last())
    }
}

/// The labels of a session, in the order of their arrival.
#[derive(Debug)]
pub struct RelevanceFeedback {
    entries: Vec<FeedbackEntry>,
}

impl RelevanceFeedback {
    /// The labels.
    pub closed spec fn view(&self) -> Seq<EntryView> {
        entry_views(self.entries@)
    }

    /// An empty log.
    pub fn new() -> (f: RelevanceFeedback)
        ensures
            f@ == Seq::<EntryView>::empty(),
    {
        let f = RelevanceFeedback { entries: Vec::new() };
        proof {
            assert(f@ =~= Seq::<EntryView>::empty());
        }
        f
    }

    /// Adds a label of a recalled candidate.
    pub fn record(&mut self, query: &str, memory: &str, score: u32, relevant: bool)
        ensures
            final(self)@ == old(self)@.push(
                EntryView {
                    query: query@,
                    memory: memory@,
                    score,
                    relevant,
                    source: FeedbackSource::RetrievedCandidate,
                },
            ),
            target_scores(final(self)@) == target_scores(old(self)@),
    {
        self.record_with_source(query, memory, score, relevant, FeedbackSource::RetrievedCandidate);
        proof {
            assert(self@.drop_last() =~= old(self)@);
        }
    }

    /// Adds a label of an independently chosen target.
    pub fn record_ground_truth(&mut self, query: &str, memory: &str, score: u32, relevant: bool)
        ensures
            final(self)@ == old(self)@.push(
                EntryView {
                    query: query@,
                    memory: memory@,
                    score,
                    relevant,
                    source: FeedbackSource::ExternalGroundTruth,
                },
            ),
    {
        self.record_with_source(
            query,
            memory,
            score,
            relevant,
            FeedbackSource::ExternalGroundTruth,
        );
    }

    fn record_with_source(
        &mut self,
        query: &str,
        memory: &str,
        score: u32,
        relevant: bool,
        source: FeedbackSource,
    )
        ensures
            final(self)@ == old(self)@.push(
                EntryView { query: query@, memory: memory@, score, relevant, source },
            ),
    {
        self.entries.push(
            FeedbackEntry {
                query: query.to_owned(),
                memory: memory.to_owned(),
                score,
                relevant,
                source,
            },
        );
        proof {
            assert(self@ =~= old(self)@.push(
                EntryView { query: query@, memory: memory@, score, relevant, source },
            ));
        }
    }

    /// The labels, in the order of their arrival.
    pub fn entries(&self) -> (r: &[FeedbackEntry])
        ensures
            entry_views(r@) == self@,
    {
        self.entries.as_slice()
    }

    /// The number of labels.
    pub fn len(&self) -> (n: usize)
        ensures
            n == self@.len(),
    {
        self.entries.len()
    }

    /// Whether there is no label.
    pub fn is_empty(&self) -> (r: bool)
        ensures
            r == (self@.len() == 0),
    {
        self.entries.len() == 0
    }

    /// The number of labels that say relevant.
    pub fn relevant_count(&self) -> (n: usize)
        ensures
            n == relevant_among(self@),
            n <= self@.len(),
    {
        let mut n: usize = 0;
        let mut i: usize = 0;
        while i < self.entries.len()
            invariant
                i <= self.entries@.len(),
                n <= i,
                n == relevant_among(self@.take(i as int)),
            decreases self.entries@.len() - i,
        {
            proof {
                assert(self@.take(i + 1).drop_last() =~= self@.take(i as int));
                assert(self@.take(i + 1).last() == self.entries@[i as int]@);
            }
            if self.entries[i].relevant {
                n += 1;
            }
            i += 1;
        }
        proof {
            assert(self@.take(i as int) =~= self@);
        }
        n
    }

    /// The scores and verdicts.
    pub fn score_labels(&self) -> (r: Vec<(u32, bool)>)
        ensures
            r@.len() == self@.len(),
            forall|i: int|
                0 <= i < r@.len() ==> #[trigger] r@[i] == (self@[i].score, self@[i].relevant),
    {
        let mut out: Vec<(u32, bool)> = Vec::new();
        let mut i: usize = 0;
        while i < self.entries.len()
            invariant
                i <= self.entries@.len(),
                out@.len() == i,
                forall|j: int|
                    0 <= j < i ==> #[trigger] out@[j] == (self@[j].score, self@[j].relevant),
            decreases self.entries@.len() - i,
        {
            proof {
                assert(self@[i as int] == self.entries@[i as int]@);
            }
            out.push((self.entries[i].score, self.entries[i].relevant));
            i += 1;
        }
        out
    }

    /// Whether the labels identify a temperature: there are two at least, and not all of one
    /// verdict.
    pub fn identifies_temperature(&self) -> (r: bool)
        ensures
            r == (self@.len() >= 2 && 0 < relevant_among(self@) < self@.len()),
    {
        let n: usize = self.relevant_count();
        self.entries.len() >= 2 && n > 0 && n < self.entries.len()
    }

    /// The scores of the relevant targets that were chosen independently. What recall
    /// returned itself is left out, so that relevant memories that recall missed do not
    /// disappear from the evidence.
    pub fn nonconformity(&self) -> (r: Vec<u32>)
        ensures
            r@ == target_scores(self@),
    {
        let mut out: Vec<u32> = Vec::new();
        let mut i: usize = 0;
        proof {
            assert(out@ =~= target_scores(self@.take(0)));
        }
        while i < self.entries.len()
            invariant
                i <= self.entries@.len(),
                out@ == target_scores(self@.take(i as int)),
            decreases self.entries@.len() - i,
        {
            proof {
                assert(self@.take(i + 1).drop_last() =~= self@.take(i as int));
                assert(self@.take(i + 1).last() == self.entries@[i as int]@);
            }
            if self.entries[i].relevant && self.entries[i].source
                == FeedbackSource::ExternalGroundTruth {
                out.push(self.entries[i].score);
            }
            i += 1;
        }
        proof {
            assert(self@.take(i as int) =~= self@);
        }
        out
    }
}

/// Every label that says relevant counts, once.
pub proof fn law_relevant_labels_are_counted(s: Seq<EntryView>)
    ensures
        relevant_among(s) == s.filter(|e: EntryView| e.relevant).len(),
    decreases s.len(),
{
    reveal(Seq::filter);
    if s.len() > 0 {
        law_relevant_labels_are_counted(s.drop_last());
    }
}

/// The evidence is the scores of all the relevant targets that came from outside, in their
/// order, and of no others.
pub proof fn law_evidence_comes_from_outside(s: Seq<EntryView>)
    ensures
        target_scores(s) == s.filter(
            |e: EntryView| e.relevant && e.source is ExternalGroundTruth,
        ).map_values(|e: EntryView| e.score),
    decreases s.len(),
{
    reveal(Seq::filter);
    let keep = |e: EntryView| e.relevant && e.source is ExternalGroundTruth;
    let score = |e: EntryView| e.score;
    if s.len() > 0 {
        let less = s.drop_last();
        law_evidence_comes_from_outside(less);
        if keep(s.last()) {
            assert(less.filter(keep).push(s.last()).map_values(score) =~= less.filter(
                keep,
            ).map_values(score).push(s.last().score));
        }
    }
    assert(target_scores(s) =~= s.filter(keep).map_values(score));
}

} // verus!
