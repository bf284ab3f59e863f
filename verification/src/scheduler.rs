//! Decisions of the playback loop.
//!
//! The loop that plays audio, emits events and prints runs outside the
//! library (it owns the audio device, the printer and the clock). Once per
//! tick it hands the current playback position to [`Scheduler::tick`], which
//! says which phrases start now, whether a status report is due and whether
//! playback is over.

use vstd::prelude::*;
use crate::alignment::{
    aligned_models, greedy_phrases, lemma_greedy_indices, lemma_proportional_timeline,
    proportional_phrases, AlignedModel, Alignment, WordModel,
};
use crate::transcript::{lemma_parse_well_formed, parsed, PhraseModel, Transcript};

verus! {

/// Minimum position change, in ms, between two status reports (about 10 Hz).
pub open spec fn status_interval_ms() -> int {
    100
}

/// Playback progress: the next aligned phrase to start, the phrase on screen,
/// and the position of the last status report.
#[derive(Debug)]
pub struct Scheduler {
    next_phrase_idx: usize,
    current_phrase_idx: Option<usize>,
    last_status_emit: u64,
}

/// The value of a [`Scheduler`].
pub struct SchedulerModel {
    pub next: int,
    pub current: Option<int>,
    pub last_status: int,
}

impl View for Scheduler {
    type V = SchedulerModel;

    closed spec fn view(&self) -> SchedulerModel {
        SchedulerModel {
            next: self.next_phrase_idx as int,
            current: match self.current_phrase_idx {
                Some(i) => Some(i as int),
                None => None,
            },
            last_status: self.last_status_emit as int,
        }
    }
}

/// A phrase that starts now.
#[derive(Debug, Clone)]
pub struct PhraseCue {
    /// Position of the phrase in the alignment.
    pub aligned_index: usize,
    /// Position of the phrase in the transcript.
    pub transcript_position: usize,
    /// The phrase's own index.
    pub phrase_index: usize,
    /// The phrase that ends as this one starts, if any.
    pub ended: Option<usize>,
    /// How long the phrase lasts.
    pub duration_ms: u64,
}

/// What one tick of the playback loop has to do.
#[derive(Debug, Clone)]
pub struct Tick {
    /// Phrases to start, in order.
    pub cues: Vec<PhraseCue>,
    /// Position to report in a status event, if one is due.
    pub status: Option<u64>,
    /// Whether playback is over.
    pub done: bool,
}

/// Where the run of phrases from `n` on whose start times are at or before
/// `pos` ends.
pub open spec fn fire_end(a: Seq<AlignedModel>, n: int, pos: int) -> int
    decreases a.len() - n,
{
    if 0 <= n < a.len() && a[n].start_ms <= pos {
        fire_end(a, n + 1, pos)
    } else {
        n
    }
}

/// The transcript index of aligned phrase `k`.
pub open spec fn shown_index(t: Seq<PhraseModel>, a: Seq<AlignedModel>, k: int) -> int {
    t[a[k].phrase_index].index
}

/// Every aligned phrase points into the transcript.
pub open spec fn alignment_fits(t: Seq<PhraseModel>, a: Seq<AlignedModel>) -> bool {
    forall|k: int| 0 <= k < a.len() ==> 0 <= (#[trigger] a[k]).phrase_index < t.len()
}

proof fn lemma_fire_end(a: Seq<AlignedModel>, n: int, pos: int)
    requires
        0 <= n <= a.len(),
    ensures
        n <= fire_end(a, n, pos) <= a.len(),
        forall|k: int| n <= k < fire_end(a, n, pos) ==> (#[trigger] a[k]).start_ms <= pos,
        fire_end(a, n, pos) < a.len() ==> a[fire_end(a, n, pos)].start_ms > pos,
    decreases a.len() - n,
{
    if 0 <= n < a.len() && a[n].start_ms <= pos {
        lemma_fire_end(a, n + 1, pos);
    }
}

impl Scheduler {
    /// Whether the scheduler fits an alignment of `len` phrases.
    pub open spec fn wf(&self, len: int) -> bool {
        0 <= self@.next <= len
    }

    /// Nothing started yet, no status reported.
    pub fn new() -> (s: Scheduler)
        ensures
            s@.next == 0,
            s@.current is None,
            s@.last_status == 0,
    {
        Scheduler { next_phrase_idx: 0, current_phrase_idx: None, last_status_emit: 0 }
    }

    /// One tick at playback position `pos`: every phrase not yet started
    /// whose start time is at or before `pos` starts now, in order, each
    /// ending the one before it; a status report is due when the position has
    /// moved at least 100 ms past the last one; playback is over when the
    /// audio has finished or `pos` has reached `total_ms`.
    pub fn tick(
        &mut self,
        transcript: &Transcript,
        alignment: &Alignment,
        pos: u64,
        total_ms: u64,
        finished: bool,
    ) -> (r: Tick)
        requires
            old(self).wf(alignment.phrases@.len() as int),
            alignment_fits(transcript@, aligned_models(alignment.phrases@)),
        ensures
            ({
                let t = transcript@;
                let a = aligned_models(alignment.phrases@);
                let n = old(self)@.next;
                let m = fire_end(a, n, pos as int);
                &&& final(self).wf(a.len() as int)
                &&& final(self)@.next == m
                &&& n <= m <= a.len()
                &&& forall|k: int| n <= k < m ==> (#[trigger] a[k]).start_ms <= pos
                &&& m < a.len() ==> a[m].start_ms > pos
                &&& r.cues@.len() == m - n
                &&& forall|j: int|
                    0 <= j < r.cues@.len() ==> {
                        let c = #[trigger] r.cues@[j];
                        &&& c.aligned_index == n + j
                        &&& c.transcript_position == a[n + j].phrase_index
                        &&& c.phrase_index == shown_index(t, a, n + j)
                        &&& c.duration_ms == if a[n + j].end_ms >= a[n + j].start_ms {
                            a[n + j].end_ms - a[n + j].start_ms
                        } else {
                            0
                        }
                        &&& c.ended == if j == 0 {
                            match old(self)@.current {
                                Some(i) => Some(i as usize),
                                None => None,
                            }
                        } else {
                            Some(shown_index(t, a, n + j - 1) as usize)
                        }
                    }
                &&& final(self)@.current == if m > n {
                    Some(shown_index(t, a, m - 1))
                } else {
                    old(self)@.current
                }
                &&& if pos >= old(self)@.last_status + status_interval_ms() {
                    r.status == Some(pos) && final(self)@.last_status == pos
                } else {
                    r.status is None && final(self)@.last_status == old(self)@.last_status
                }
                &&& r.done == (finished || pos >= total_ms)
            }),
    {
        let ghost t = transcript@;
        let ghost a = aligned_models(alignment.phrases@);
        let ghost n = self.next_phrase_idx as int;
        let ghost cur0 = self@.current;
        proof {
            lemma_fire_end(a, n, pos as int);
        }
        let phrases = &alignment.phrases;
        let len = phrases.len();
        let mut cues: Vec<PhraseCue> = Vec::new();
        while self.next_phrase_idx < len && phrases[self.next_phrase_idx].start_ms <= pos
            invariant
                len == phrases@.len(),
                a == aligned_models(phrases@),
                t == transcript@,
                alignment_fits(t, a),
                n <= self.next_phrase_idx <= len,
                fire_end(a, n, pos as int) == fire_end(a, self.next_phrase_idx as int, pos as int),
                self.last_status_emit == old(self).last_status_emit,
                cues@.len() == self.next_phrase_idx - n,
                self@.current == if self.next_phrase_idx > n {
                    Some(shown_index(t, a, self.next_phrase_idx - 1))
                } else {
                    cur0
                },
                forall|j: int|
                    0 <= j < cues@.len() ==> {
                        let c = #[trigger] cues@[j];
                        &&& c.aligned_index == n + j
                        &&& c.transcript_position == a[n + j].phrase_index
                        &&& c.phrase_index == shown_index(t, a, n + j)
                        &&& c.duration_ms == if a[n + j].end_ms >= a[n + j].start_ms {
                            a[n + j].end_ms - a[n + j].start_ms
                        } else {
                            0
                        }
                        &&& c.ended == if j == 0 {
                            match cur0 {
                                Some(i) => Some(i as usize),
                                None => None,
                            }
                        } else {
                            Some(shown_index(t, a, n + j - 1) as usize)
                        }
                    },
            decreases len - self.next_phrase_idx,
        {
            let k = self.next_phrase_idx;
            let aligned = &phrases[k];
            assert(a[k as int] == aligned@);
            assert(0 <= a[k as int].phrase_index < t.len());
            let position = aligned.phrase_index;
            let phrase_index = transcript.phrases[position].index;
            let cue = PhraseCue {
                aligned_index: k,
                transcript_position: position,
                phrase_index,
                ended: self.current_phrase_idx,
                duration_ms: aligned.end_ms.saturating_sub(aligned.start_ms),
            };
            let ghost before = cues@;
            cues.push(cue);
            assert(cues@[cues@.len() - 1] == cue);
            assert forall|j: int| 0 <= j < before.len() implies cues@[j] == before[j] by {}
            self.current_phrase_idx = Some(phrase_index);
            self.next_phrase_idx = k + 1;
        }
        let status = if pos.saturating_sub(self.last_status_emit) >= 100 {
            self.last_status_emit = pos;
            Some(pos)
        } else {
            None
        };
        let done = finished || pos >= total_ms;
        Tick { cues, status, done }
    }

    /// The phrase still on screen when playback stops: it has to be ended.
    pub fn finish(&self) -> (r: Option<usize>)
        ensures
            r == match self@.current {
                Some(i) => Some(i as usize),
                None => None,
            },
    {
        self.current_phrase_idx
    }
}


/// Both timelines of a parsed transcript point into that transcript, so
/// playback finds the phrase of every entry.
pub proof fn lemma_timelines_fit(input: Seq<char>, audio: int, ws: Seq<WordModel>)
    requires
        audio >= 0,
    ensures
        alignment_fits(parsed(input), proportional_phrases(parsed(input), audio)),
        alignment_fits(parsed(input), greedy_phrases(parsed(input), ws)),
{
    let ps = parsed(input);
    lemma_parse_well_formed(input);
    lemma_proportional_timeline(ps, audio);
    lemma_greedy_indices(ps, ws);
    let q = proportional_phrases(ps, audio);
    let g = greedy_phrases(ps, ws);
    assert forall|k: int| 0 <= k < q.len() implies 0 <= (#[trigger] q[k]).phrase_index < ps.len() by {
        assert(ps[k].index == k);
    }
    assert forall|k: int| 0 <= k < g.len() implies 0 <= (#[trigger] g[k]).phrase_index < ps.len() by {
        assert(ps[k].index == k);
    }
}


/// Ticking at `p1` and then at a later position `p2` starts exactly the
/// phrases that a single tick at `p2` would start: no phrase is skipped or
/// started twice, whatever the tick rate.
pub proof fn lemma_ticks_compose(a: Seq<AlignedModel>, n: int, p1: int, p2: int)
    requires
        0 <= n <= a.len(),
        p1 <= p2,
    ensures
        fire_end(a, fire_end(a, n, p1), p2) == fire_end(a, n, p2),
    decreases a.len() - n,
{
    if n < a.len() && a[n].start_ms <= p1 {
        lemma_ticks_compose(a, n + 1, p1, p2);
    }
}

/// Once the position has reached every start time, every phrase has
/// started.
pub proof fn lemma_all_phrases_start(a: Seq<AlignedModel>, n: int, pos: int)
    requires
        0 <= n <= a.len(),
        forall|k: int| 0 <= k < a.len() ==> (#[trigger] a[k]).start_ms <= pos,
    ensures
        fire_end(a, n, pos) == a.len(),
    decreases a.len() - n,
{
    if n < a.len() {
        lemma_all_phrases_start(a, n + 1, pos);
    }
}

} // verus!
