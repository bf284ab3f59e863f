//! Per-phrase timing for playback: when each phrase starts and ends, and when
//! each of its characters is revealed.
//!
//! Two timelines exist:
//!
//! * the **proportional** timeline ([`proportional_alignment`]) spreads the
//!   audio duration over the phrases in proportion to their character count;
//! * the **speech** timeline ([`greedy_align`]) walks the word stream that a
//!   speech recogniser returned and gives each phrase the time span of the
//!   words that cover it.

use vstd::prelude::*;
use crate::text::{char_count, chars_of};
use crate::transcript::{phrase_models, PhraseModel, Transcript};

verus! {

/// Timing data for a single phrase.
#[derive(Debug, Clone)]
pub struct AlignedPhrase {
    pub phrase_index: usize,
    pub start_ms: u64,
    pub end_ms: u64,
    /// Per-character start times in ms, relative to `start_ms`; one entry per
    /// character of the phrase text.
    pub char_start_ms: Vec<u32>,
}

/// Where a timeline came from.
#[derive(Debug, Clone, Copy, PartialEq, Eq)]
pub enum AlignmentSource {
    Proportional,
    OpenaiWhisper,
}

/// A timeline for a whole transcript.
#[derive(Debug, Clone)]
pub struct Alignment {
    pub audio_duration_ms: u64,
    pub phrases: Vec<AlignedPhrase>,
    pub source: AlignmentSource,
}

/// The value of an [`AlignedPhrase`].
pub struct AlignedModel {
    pub phrase_index: int,
    pub start_ms: int,
    pub end_ms: int,
    pub char_start_ms: Seq<u32>,
}

impl View for AlignedPhrase {
    type V = AlignedModel;

    open spec fn view(&self) -> AlignedModel {
        AlignedModel {
            phrase_index: self.phrase_index as int,
            start_ms: self.start_ms as int,
            end_ms: self.end_ms as int,
            char_start_ms: self.char_start_ms@,
        }
    }
}

/// The values of a sequence of aligned phrases.
pub open spec fn aligned_models(v: Seq<AlignedPhrase>) -> Seq<AlignedModel> {
    v.map_values(|a: AlignedPhrase| a@)
}

/// A word of recognised speech with its time span in ms.
#[derive(Debug, Clone)]
pub struct TimedWord {
    pub word: String,
    pub start_ms: u64,
    pub end_ms: u64,
}

/// The value of a [`TimedWord`].
pub struct WordModel {
    pub word: Seq<char>,
    pub start_ms: u64,
    pub end_ms: u64,
}

impl View for TimedWord {
    type V = WordModel;

    open spec fn view(&self) -> WordModel {
        WordModel { word: self.word@, start_ms: self.start_ms, end_ms: self.end_ms }
    }
}

/// The values of a sequence of words.
pub open spec fn word_models(v: Seq<TimedWord>) -> Seq<WordModel> {
    v.map_values(|w: TimedWord| w@)
}

// ---------------------------------------------------------------------------
// Character timings
// ---------------------------------------------------------------------------

/// Reveal time of character `i` of `n` spread evenly over `duration` ms,
/// rounded down and capped at `u32::MAX`.
pub open spec fn char_timing(duration: int, n: int, i: int) -> u32 {
    let v = duration * i / n;
    if v > u32::MAX {
        u32::MAX
    } else {
        v as u32
    }
}

/// Reveal times of `n` characters spread evenly over `duration` ms.
pub open spec fn linear_timings(duration: int, n: int) -> Seq<u32> {
    Seq::new(n as nat, |i: int| char_timing(duration, n, i))
}

/// Reveal times of `nchars` characters spread evenly over `duration_ms`:
/// character `i` starts at `duration_ms * i / nchars`.
pub fn linear_char_timings(duration_ms: u64, nchars: usize) -> (v: Vec<u32>)
    ensures
        v@ == linear_timings(duration_ms as int, nchars as int),
{
    let mut v: Vec<u32> = Vec::new();
    if nchars == 0 {
        assert(v@ =~= linear_timings(duration_ms as int, 0));
        return v;
    }
    let mut i: usize = 0;
    while i < nchars
        invariant
            i <= nchars,
            nchars > 0,
            v@ == linear_timings(duration_ms as int, nchars as int).take(i as int),
        decreases nchars - i,
    {
        assert((duration_ms as int) * (i as int) <= (u64::MAX as int) * (u64::MAX as int))
            by (nonlinear_arith)
            requires
                duration_ms <= u64::MAX,
                i <= u64::MAX,
        ;
        let prod: u128 = (duration_ms as u128) * (i as u128);
        let q: u128 = prod / (nchars as u128);
        let t: u32 = if q > 0xFFFF_FFFFu128 {
            0xFFFF_FFFFu32
        } else {
            q as u32
        };
        v.push(t);
        assert(v@ =~= linear_timings(duration_ms as int, nchars as int).take(i + 1));
        i = i + 1;
    }
    assert(linear_timings(duration_ms as int, nchars as int).take(nchars as int)
        =~= linear_timings(duration_ms as int, nchars as int));
    v
}

// ---------------------------------------------------------------------------
// Proportional timeline
// ---------------------------------------------------------------------------

/// Weight of a phrase: its character count, at least 1.
pub open spec fn weight(text: Seq<char>) -> int {
    if text.len() == 0 {
        1
    } else {
        text.len() as int
    }
}

/// Sum of the weights of `ps`.
pub open spec fn weight_sum(ps: Seq<PhraseModel>) -> int
    decreases ps.len(),
{
    if ps.len() == 0 {
        0
    } else {
        weight_sum(ps.drop_last()) + weight(ps.last().text)
    }
}

/// The divisor of the proportional split: the weight sum, at least 1.
pub open spec fn total_weight(ps: Seq<PhraseModel>) -> int {
    if weight_sum(ps) == 0 {
        1
    } else {
        weight_sum(ps)
    }
}

/// Duration given to phrase `i`: its share of the audio, rounded down.
pub open spec fn prop_duration(ps: Seq<PhraseModel>, audio: int, i: int) -> int {
    audio * weight(ps[i].text) / total_weight(ps)
}

/// Start of phrase `i`: the sum of the durations before it.
pub open spec fn prop_start(ps: Seq<PhraseModel>, audio: int, i: int) -> int
    decreases i,
{
    if i <= 0 {
        0
    } else {
        prop_start(ps, audio, i - 1) + prop_duration(ps, audio, i - 1)
    }
}

/// The proportional timeline of `ps` over `audio` ms.
pub open spec fn proportional_phrases(ps: Seq<PhraseModel>, audio: int) -> Seq<AlignedModel> {
    Seq::new(
        ps.len(),
        |i: int|
            AlignedModel {
                phrase_index: ps[i].index,
                start_ms: prop_start(ps, audio, i),
                end_ms: prop_start(ps, audio, i) + prop_duration(ps, audio, i),
                char_start_ms: linear_timings(prop_duration(ps, audio, i), ps[i].text.len() as int),
            },
    )
}

proof fn lemma_weight_sum_prefix(ps: Seq<PhraseModel>, i: int)
    requires
        0 <= i < ps.len(),
    ensures
        weight_sum(ps.take(i + 1)) == weight_sum(ps.take(i)) + weight(ps[i].text),
{
    assert(ps.take(i + 1).drop_last() =~= ps.take(i));
}

proof fn lemma_weight_sum_bounds(ps: Seq<PhraseModel>, i: int)
    requires
        0 <= i <= ps.len(),
    ensures
        0 <= weight_sum(ps.take(i)) <= weight_sum(ps),
        weight_sum(ps.take(i)) >= i,
    decreases ps.len() - i,
{
    lemma_weight_sum_nonneg(ps.take(i));
    if i < ps.len() {
        lemma_weight_sum_prefix(ps, i);
        lemma_weight_sum_bounds(ps, i + 1);
    } else {
        assert(ps.take(i) =~= ps);
        lemma_weight_sum_nonneg(ps);
    }
}

proof fn lemma_weight_sum_nonneg(ps: Seq<PhraseModel>)
    ensures
        weight_sum(ps) >= ps.len(),
    decreases ps.len(),
{
    if ps.len() > 0 {
        lemma_weight_sum_nonneg(ps.drop_last());
    }
}

/// Starts never pass the share of the audio that the weights before them
/// are worth: `start(i) * total <= audio * weight_sum(ps[..i])`.
proof fn lemma_prop_start_bound(ps: Seq<PhraseModel>, audio: int, i: int)
    requires
        0 <= i <= ps.len(),
        audio >= 0,
    ensures
        prop_start(ps, audio, i) * total_weight(ps) <= audio * weight_sum(ps.take(i)),
        prop_start(ps, audio, i) >= 0,
    decreases i,
{
    lemma_weight_sum_nonneg(ps);
    if i > 0 {
        lemma_prop_start_bound(ps, audio, i - 1);
        lemma_weight_sum_prefix(ps, i - 1);
        let t = total_weight(ps);
        let w = weight(ps[i - 1].text);
        let s = prop_start(ps, audio, i - 1);
        let d = prop_duration(ps, audio, i - 1);
        let wp = weight_sum(ps.take(i - 1));
        assert(d * t <= audio * w && d >= 0) by (nonlinear_arith)
            requires
                d == audio * w / t,
                t > 0,
                w > 0,
                audio >= 0,
        ;
        assert((s + d) * t <= audio * (wp + w)) by (nonlinear_arith)
            requires
                s * t <= audio * wp,
                d * t <= audio * w,
        ;
    }
}

/// Every phrase of the proportional timeline ends no later than the audio.
proof fn lemma_prop_within(ps: Seq<PhraseModel>, audio: int, i: int)
    requires
        0 <= i <= ps.len(),
        audio >= 0,
    ensures
        0 <= prop_start(ps, audio, i) <= audio,
{
    lemma_prop_start_bound(ps, audio, i);
    lemma_weight_sum_bounds(ps, i);
    let t = total_weight(ps);
    let s = prop_start(ps, audio, i);
    let w = weight_sum(ps.take(i));
    assert(w <= t);
    assert(s <= audio) by (nonlinear_arith)
        requires
            s * t <= audio * w,
            w <= t,
            t > 0,
            audio >= 0,
    ;
}

proof fn lemma_prop_duration_bounds(ps: Seq<PhraseModel>, audio: int, i: int)
    requires
        0 <= i < ps.len(),
        audio >= 0,
    ensures
        0 <= prop_duration(ps, audio, i) <= audio,
{
    lemma_weight_sum_bounds(ps, i + 1);
    lemma_weight_sum_bounds(ps, i);
    lemma_weight_sum_prefix(ps, i);
    let t = total_weight(ps);
    let w = weight(ps[i].text);
    assert(w <= t);
    assert(audio * w / t <= audio && audio * w / t >= 0) by (nonlinear_arith)
        requires
            0 < w <= t,
            audio >= 0,
    ;
}

/// Proportional fallback: the audio duration is spread over the phrases in
/// proportion to their character count (at least 1 each); phrases follow
/// each other without gaps from 0 ms.
pub fn proportional_alignment(transcript: &Transcript, audio_duration_ms: u64) -> (a: Alignment)
    ensures
        a.audio_duration_ms == audio_duration_ms,
        a.source == AlignmentSource::Proportional,
        aligned_models(a.phrases@) == proportional_phrases(transcript@, audio_duration_ms as int),
{
    let ghost ps = transcript@;
    let phrases = &transcript.phrases;
    let n = phrases.len();
    // Sum of the weights; each is at most `usize::MAX`, so the sum fits.
    let mut sum: u128 = 0;
    let mut i: usize = 0;
    while i < n
        invariant
            n == phrases@.len(),
            ps == phrase_models(phrases@),
            i <= n,
            sum == weight_sum(ps.take(i as int)),
            sum <= (i as int) * (usize::MAX as int),
        decreases n - i,
    {
        proof {
            lemma_weight_sum_prefix(ps, i as int);
        }
        let c = char_count(phrases[i].text.as_str());
        let w: usize = if c == 0 {
            1
        } else {
            c
        };
        assert(ps[i as int].text == phrases@[i as int].text@);
        assert(sum + w <= (i + 1) * (usize::MAX as int)) by (nonlinear_arith)
            requires
                sum <= (i as int) * (usize::MAX as int),
                w <= usize::MAX,
        ;
        assert((i + 1) * (usize::MAX as int) <= (usize::MAX as int) * (usize::MAX as int))
            by (nonlinear_arith)
            requires
                i + 1 <= usize::MAX,
        ;
        assert((usize::MAX as int) * (usize::MAX as int) <= u128::MAX) by (nonlinear_arith)
            requires
                usize::MAX <= u64::MAX,
        ;
        sum = sum + w as u128;
        i = i + 1;
    }
    assert(ps.take(n as int) =~= ps);
    let total: u128 = if sum == 0 {
        1
    } else {
        sum
    };
    let mut out: Vec<AlignedPhrase> = Vec::new();
    let mut t: u64 = 0;
    let mut j: usize = 0;
    while j < n
        invariant
            n == phrases@.len(),
            ps == phrase_models(phrases@),
            total == total_weight(ps),
            j <= n,
            t == prop_start(ps, audio_duration_ms as int, j as int),
            aligned_models(out@) == proportional_phrases(ps, audio_duration_ms as int).take(
                j as int,
            ),
        decreases n - j,
    {
        let p = &phrases[j];
        assert(ps[j as int] == p@);
        let c = char_count(p.text.as_str());
        let w: usize = if c == 0 {
            1
        } else {
            c
        };
        proof {
            lemma_prop_duration_bounds(ps, audio_duration_ms as int, j as int);
            lemma_prop_within(ps, audio_duration_ms as int, j as int + 1);
        }
        assert((audio_duration_ms as int) * (w as int) <= (u64::MAX as int) * (u64::MAX as int))
            by (nonlinear_arith)
            requires
                audio_duration_ms <= u64::MAX,
                w <= u64::MAX,
        ;
        let dur128: u128 = (audio_duration_ms as u128) * (w as u128) / total;
        assert(dur128 == prop_duration(ps, audio_duration_ms as int, j as int));
        let dur: u64 = dur128 as u64;
        let start = t;
        let end = start + dur;
        let ap = AlignedPhrase {
            phrase_index: p.index,
            start_ms: start,
            end_ms: end,
            char_start_ms: linear_char_timings(dur, c),
        };
        let ghost before = out@;
        out.push(ap);
        assert(aligned_models(out@) =~= aligned_models(before).push(ap@));
        assert(proportional_phrases(ps, audio_duration_ms as int).take(j + 1) =~= proportional_phrases(
            ps,
            audio_duration_ms as int,
        ).take(j as int).push(ap@));
        t = end;
        j = j + 1;
    }
    assert(proportional_phrases(ps, audio_duration_ms as int).take(n as int) =~= proportional_phrases(
        ps,
        audio_duration_ms as int,
    ));
    Alignment { audio_duration_ms, phrases: out, source: AlignmentSource::Proportional }
}


/// The proportional timeline starts at 0, its phrases follow each other
/// without gaps or overlaps, none ends after the audio, each keeps the index
/// of its phrase and has one reveal time per character.
pub proof fn lemma_proportional_timeline(ps: Seq<PhraseModel>, audio: int)
    requires
        audio >= 0,
    ensures
        ({
            let q = proportional_phrases(ps, audio);
            &&& q.len() == ps.len()
            &&& q.len() > 0 ==> q[0].start_ms == 0
            &&& forall|i: int| 0 <= i < q.len() - 1 ==> #[trigger] q[i].end_ms == q[i + 1].start_ms
            &&& forall|i: int|
                0 <= i < q.len() ==> 0 <= #[trigger] q[i].start_ms <= q[i].end_ms <= audio
            &&& forall|i: int|
                0 <= i < q.len() ==> (#[trigger] q[i]).phrase_index == ps[i].index
                    && q[i].char_start_ms.len() == ps[i].text.len()
        }),
{
    let q = proportional_phrases(ps, audio);
    assert forall|i: int| 0 <= i < q.len() implies 0 <= #[trigger] q[i].start_ms <= q[i].end_ms
        <= audio by {
        lemma_prop_within(ps, audio, i);
        lemma_prop_within(ps, audio, i + 1);
        lemma_prop_duration_bounds(ps, audio, i);
    }
}

/// Reveal times run from 0, never decrease, and never pass the duration.
pub proof fn lemma_linear_timings(duration: int, n: int)
    requires
        duration >= 0,
        n >= 0,
    ensures
        linear_timings(duration, n).len() == n,
        n > 0 ==> linear_timings(duration, n)[0] == 0,
        forall|i: int, j: int|
            0 <= i <= j < n ==> #[trigger] linear_timings(duration, n)[i]
                <= #[trigger] linear_timings(duration, n)[j],
        forall|i: int| 0 <= i < n ==> #[trigger] linear_timings(duration, n)[i] <= duration,
{
    let v = linear_timings(duration, n);
    assert forall|i: int, j: int| 0 <= i <= j < n implies #[trigger] v[i] <= #[trigger] v[j] by {
        assert(duration * i / n <= duration * j / n) by (nonlinear_arith)
            requires
                0 <= i <= j,
                n > 0,
                duration >= 0,
        ;
    }
    assert forall|i: int| 0 <= i < n implies #[trigger] v[i] <= duration by {
        assert(duration * i / n <= duration) by (nonlinear_arith)
            requires
                0 <= i < n,
                duration >= 0,
        ;
    }
    if n > 0 {
        assert(duration * 0 / n == 0) by (nonlinear_arith)
            requires
                n > 0,
        ;
    }
}

// ---------------------------------------------------------------------------
// Speech timeline
// ---------------------------------------------------------------------------

/// Characters that do not count when matching phrases against recognised
/// words: Japanese and ASCII punctuation, brackets and white space.
pub open spec fn is_skipped(c: char) -> bool {
    ||| c == '、' || c == '。' || c == '・'
    ||| c == '「' || c == '」' || c == '『' || c == '』'
    ||| c == '(' || c == ')' || c == '（' || c == '）'
    ||| c == '　' || c == ' ' || c == '\t' || c == '\n' || c == '\r'
    ||| c == '!' || c == '?' || c == '！' || c == '？'
    ||| c == '.' || c == ','
}

/// Number of characters of `s` that count for matching.
pub open spec fn content_count(s: Seq<char>) -> int
    decreases s.len(),
{
    if s.len() == 0 {
        0
    } else {
        content_count(s.drop_last()) + if is_skipped(s.last()) {
            0int
        } else {
            1int
        }
    }
}

proof fn lemma_content_count_bounds(s: Seq<char>)
    ensures
        0 <= content_count(s) <= s.len(),
    decreases s.len(),
{
    if s.len() > 0 {
        lemma_content_count_bounds(s.drop_last());
    }
}

/// Counts the characters of `s` that count for matching.
pub fn count_content_chars(s: &str) -> (n: usize)
    ensures
        n == content_count(s@),
{
    let cs = chars_of(s);
    let mut n: usize = 0;
    let mut i: usize = 0;
    while i < cs.len()
        invariant
            cs@ == s@,
            i <= cs@.len(),
            n == content_count(cs@.take(i as int)),
        decreases cs@.len() - i,
    {
        assert(cs@.take(i + 1).drop_last() =~= cs@.take(i as int));
        proof {
            lemma_content_count_bounds(cs@.take(i as int));
        }
        let c = cs[i];
        let skipped = c == '、' || c == '。' || c == '・' || c == '「' || c == '」' || c == '『'
            || c == '』' || c == '(' || c == ')' || c == '（' || c == '）' || c == '　' || c == ' '
            || c == '\t' || c == '\n' || c == '\r' || c == '!' || c == '?' || c == '！' || c == '？'
            || c == '.' || c == ',';
        if !skipped {
            n = n + 1;
        }
        i = i + 1;
    }
    assert(cs@.take(cs@.len() as int) =~= cs@);
    n
}

/// Where the cursor stops when words from `cursor` on are consumed until
/// their counted characters reach `target` (`acc` already counted).
pub open spec fn consume_end(ws: Seq<WordModel>, cursor: int, acc: int, target: int) -> int
    decreases ws.len() - cursor,
{
    if 0 <= cursor < ws.len() && acc < target {
        consume_end(ws, cursor + 1, acc + content_count(ws[cursor].word), target)
    } else {
        cursor
    }
}

/// Sum of the counted characters of the words.
pub open spec fn word_chars(ws: Seq<WordModel>) -> int
    decreases ws.len(),
{
    if ws.len() == 0 {
        0
    } else {
        word_chars(ws.drop_last()) + content_count(ws.last().word)
    }
}

/// Time covered by the words: from the first word's start to the last
/// word's end (0 when there are no words, or the end comes first).
pub open spec fn word_span(ws: Seq<WordModel>) -> int {
    if ws.len() > 0 && ws.last().end_ms >= ws[0].start_ms {
        ws.last().end_ms - ws[0].start_ms
    } else {
        0
    }
}

/// Speaking rate of the recognised speech: its time span divided by its
/// counted characters, rounded down, and at least 1 ms per character (also
/// when there is nothing to measure).
pub open spec fn ms_per_char(ws: Seq<WordModel>) -> int {
    if word_chars(ws) > 0 && word_span(ws) / word_chars(ws) >= 1 {
        word_span(ws) / word_chars(ws)
    } else {
        1
    }
}

/// Time given to a phrase that comes after the last recognised word: its
/// counted characters (at least 1) at the speaking rate.
pub open spec fn interpolated_ms(ws: Seq<WordModel>, text: Seq<char>) -> int {
    ms_per_char(ws) * (if content_count(text) > 0 {
        content_count(text)
    } else {
        1
    })
}

/// `x`, capped at `u64::MAX`.
pub open spec fn cap_u64(x: int) -> int {
    if x > u64::MAX {
        u64::MAX as int
    } else {
        x
    }
}

/// The speech timeline of the first `i` phrases, and the word cursor after
/// them.
pub open spec fn greedy_prefix(ps: Seq<PhraseModel>, ws: Seq<WordModel>, i: int) -> (
    Seq<AlignedModel>,
    int,
)
    decreases i,
{
    if i <= 0 {
        (seq![], 0)
    } else {
        let (out, cur) = greedy_prefix(ps, ws, i - 1);
        let p = ps[i - 1];
        let end_word = consume_end(ws, cur, 0, content_count(p.text));
        let prev_end = if out.len() > 0 {
            out.last().end_ms
        } else {
            0
        };
        let (s, e) = if end_word > cur {
            (ws[cur].start_ms as int, ws[end_word - 1].end_ms as int)
        } else if cur >= ws.len() {
            (prev_end, cap_u64(prev_end + interpolated_ms(ws, p.text)))
        } else {
            (prev_end, prev_end)
        };
        let dur = if e >= s {
            e - s
        } else {
            0
        };
        (
            out.push(
                AlignedModel {
                    phrase_index: p.index,
                    start_ms: s,
                    end_ms: e,
                    char_start_ms: linear_timings(dur, p.text.len() as int),
                },
            ),
            end_word,
        )
    }
}

/// The speech timeline: each phrase takes words from a moving cursor until
/// their counted characters reach its own count; it spans from the first
/// taken word's start to the last taken word's end. Once the words have run
/// out, each further phrase is interpolated: it starts where the phrase
/// before it ends (or at 0) and lasts its counted characters (at least 1) at
/// the speaking rate of the recognised words ([`ms_per_char`]). A phrase
/// with no counted characters while words remain gets no word and a
/// zero-length span at the end of the phrase before it (or at 0).
pub open spec fn greedy_phrases(ps: Seq<PhraseModel>, ws: Seq<WordModel>) -> Seq<AlignedModel> {
    greedy_prefix(ps, ws, ps.len() as int).0
}

proof fn lemma_consume_end_bounds(ws: Seq<WordModel>, cursor: int, acc: int, target: int)
    requires
        0 <= cursor <= ws.len(),
    ensures
        cursor <= consume_end(ws, cursor, acc, target) <= ws.len(),
        acc < target && cursor < ws.len() ==> consume_end(ws, cursor, acc, target) > cursor,
    decreases ws.len() - cursor,
{
    if 0 <= cursor < ws.len() && acc < target {
        lemma_consume_end_bounds(ws, cursor + 1, acc + content_count(ws[cursor].word), target);
    }
}

proof fn lemma_greedy_prefix_len(ps: Seq<PhraseModel>, ws: Seq<WordModel>, i: int)
    requires
        0 <= i <= ps.len(),
    ensures
        greedy_prefix(ps, ws, i).0.len() == i,
        0 <= greedy_prefix(ps, ws, i).1 <= ws.len(),
        forall|k: int|
            0 <= k < i ==> (#[trigger] greedy_prefix(ps, ws, i).0[k]).phrase_index == ps[k].index
                && greedy_prefix(ps, ws, i).0[k].char_start_ms.len() == ps[k].text.len(),
        forall|k: int|
            0 <= k < i ==> 0 <= (#[trigger] greedy_prefix(ps, ws, i).0[k]).start_ms
                && 0 <= greedy_prefix(ps, ws, i).0[k].end_ms <= u64::MAX,
    decreases i,
{
    if i > 0 {
        lemma_greedy_prefix_len(ps, ws, i - 1);
        let (out, cur) = greedy_prefix(ps, ws, i - 1);
        lemma_consume_end_bounds(ws, cur, 0, content_count(ps[i - 1].text));
        lemma_interpolated_positive(ws, ps[i - 1].text);
        let out2 = greedy_prefix(ps, ws, i).0;
        if out.len() > 0 {
            assert(out.last() == out[out.len() - 1]);
        }
        assert forall|k: int| 0 <= k < i implies (#[trigger] out2[k]).phrase_index
            == ps[k].index && out2[k].char_start_ms.len() == ps[k].text.len() by {
            if k < i - 1 {
                assert(out2[k] == out[k]);
            }
        }
        assert forall|k: int| 0 <= k < i implies 0 <= (#[trigger] out2[k]).start_ms && 0
            <= out2[k].end_ms <= u64::MAX by {
            if k < i - 1 {
                assert(out2[k] == out[k]);
            }
        }
    }
}

proof fn lemma_interpolated_positive(ws: Seq<WordModel>, text: Seq<char>)
    ensures
        ms_per_char(ws) >= 1,
        interpolated_ms(ws, text) >= 1,
{
    let r = ms_per_char(ws);
    let c = if content_count(text) > 0 {
        content_count(text)
    } else {
        1
    };
    assert(r * c >= 1) by (nonlinear_arith)
        requires
            r >= 1,
            c >= 1,
    ;
}

/// Earlier entries of the speech timeline do not change as later phrases
/// are aligned.
proof fn lemma_greedy_prefix_stable(ps: Seq<PhraseModel>, ws: Seq<WordModel>, i: int, j: int)
    requires
        0 <= i <= j <= ps.len(),
    ensures
        forall|k: int|
            0 <= k < i ==> #[trigger] greedy_prefix(ps, ws, j).0[k] == greedy_prefix(ps, ws, i).0[k],
    decreases j - i,
{
    if j > i {
        lemma_greedy_prefix_stable(ps, ws, i, j - 1);
        lemma_greedy_prefix_len(ps, ws, j - 1);
        let prev = greedy_prefix(ps, ws, j - 1).0;
        assert forall|k: int| 0 <= k < i implies #[trigger] greedy_prefix(ps, ws, j).0[k]
            == greedy_prefix(ps, ws, i).0[k] by {
            assert(greedy_prefix(ps, ws, j).0[k] == prev[k]);
        }
    }
}

/// Once the phrases before `i` have taken every recognised word, phrase `i`
/// is interpolated: it starts where phrase `i - 1` ends (or at 0), lasts its
/// counted characters (at least 1) at the speaking rate of the words, and so
/// ends strictly after it starts (unless it starts at `u64::MAX`).
pub proof fn lemma_greedy_interpolates(ps: Seq<PhraseModel>, ws: Seq<WordModel>, i: int)
    requires
        0 <= i < ps.len(),
        greedy_prefix(ps, ws, i).1 == ws.len(),
    ensures
        ({
            let q = greedy_phrases(ps, ws);
            &&& q[i].start_ms == if i > 0 {
                q[i - 1].end_ms
            } else {
                0
            }
            &&& q[i].end_ms == cap_u64(q[i].start_ms + interpolated_ms(ws, ps[i].text))
            &&& q[i].start_ms < u64::MAX ==> q[i].end_ms > q[i].start_ms
        }),
{
    lemma_greedy_prefix_len(ps, ws, i);
    lemma_greedy_prefix_len(ps, ws, i + 1);
    lemma_greedy_prefix_stable(ps, ws, i + 1, ps.len() as int);
    lemma_interpolated_positive(ws, ps[i].text);
    let (out, cur) = greedy_prefix(ps, ws, i);
    let out2 = greedy_prefix(ps, ws, i + 1).0;
    assert(greedy_phrases(ps, ws)[i] == out2[i]);
    if i > 0 {
        lemma_greedy_prefix_stable(ps, ws, i, i + 1);
        assert(greedy_phrases(ps, ws)[i - 1] == out2[i - 1]);
        assert(out2[i - 1] == out[i - 1]);
        assert(out.last() == out[i - 1]);
    }
}

proof fn lemma_content_count_append(a: Seq<char>, b: Seq<char>)
    ensures
        content_count(a + b) == content_count(a) + content_count(b),
    decreases b.len(),
{
    if b.len() == 0 {
        assert(a + b =~= a);
    } else {
        lemma_content_count_append(a, b.drop_last());
        assert((a + b).drop_last() =~= a + b.drop_last());
        assert((a + b).last() == b.last());
    }
}

/// Counting for matching goes character by character: a character placed
/// anywhere in a text adds nothing when it is one of the Japanese or ASCII
/// punctuation marks 、。・!?！？., the brackets 「」『』()（）, or the white
/// space 　, space, tab, `\n`, `\r`, and adds one otherwise.
pub proof fn lemma_content_count_char(a: Seq<char>, c: char, b: Seq<char>)
    ensures
        content_count(a + seq![c] + b) == content_count(a) + content_count(b) + if c == '、' || c
            == '。' || c == '・' || c == '「' || c == '」' || c == '『' || c == '』' || c == '('
            || c == ')' || c == '（' || c == '）' || c == '　' || c == ' ' || c == '\t' || c
            == '\n' || c == '\r' || c == '!' || c == '?' || c == '！' || c == '？' || c == '.'
            || c == ',' {
            0int
        } else {
            1int
        },
{
    lemma_content_count_append(a, seq![c]);
    lemma_content_count_append(a + seq![c], b);
    assert(seq![c].drop_last() =~= Seq::<char>::empty());
    assert(seq![c].last() == c);
    assert(content_count(Seq::<char>::empty()) == 0);
    assert(content_count(seq![c]) == if is_skipped(c) {
        0int
    } else {
        1int
    });
}

/// A phrase whose counted characters the next unused word already covers
/// takes that word alone: in particular the first phrase, when the first
/// word has at least as many counted characters as it (and it has some),
/// spans exactly the first word.
pub proof fn lemma_greedy_first_word(ps: Seq<PhraseModel>, ws: Seq<WordModel>)
    requires
        ps.len() > 0,
        ws.len() > 0,
        0 < content_count(ps[0].text) <= content_count(ws[0].word),
    ensures
        greedy_phrases(ps, ws)[0].start_ms == ws[0].start_ms,
        greedy_phrases(ps, ws)[0].end_ms == ws[0].end_ms,
{
    let t = content_count(ps[0].text);
    assert(consume_end(ws, 1, content_count(ws[0].word), t) == 1);
    assert(consume_end(ws, 0, 0, t) == 1);
    lemma_greedy_prefix_len(ps, ws, 1);
    lemma_greedy_prefix_stable(ps, ws, 1, ps.len() as int);
    let (out0, cur0) = greedy_prefix(ps, ws, 0);
    assert(out0 == Seq::<AlignedModel>::empty() && cur0 == 0);
    let first = greedy_prefix(ps, ws, 1).0[0];
    assert(first.start_ms == ws[0].start_ms && first.end_ms == ws[0].end_ms);
    assert(greedy_phrases(ps, ws)[0] == first);
}

/// The speech timeline has one entry per phrase, each keeping the index of
/// its phrase and having one reveal time per character.
pub proof fn lemma_greedy_indices(ps: Seq<PhraseModel>, ws: Seq<WordModel>)
    ensures
        greedy_phrases(ps, ws).len() == ps.len(),
        forall|k: int|
            0 <= k < ps.len() ==> (#[trigger] greedy_phrases(ps, ws)[k]).phrase_index
                == ps[k].index && greedy_phrases(ps, ws)[k].char_start_ms.len()
                == ps[k].text.len(),
{
    lemma_greedy_prefix_len(ps, ws, ps.len() as int);
}

/// The speaking rate of the recognised words (see [`ms_per_char`]).
fn ms_per_counted_char(words: &[TimedWord]) -> (r: u64)
    ensures
        r == ms_per_char(word_models(words@)),
{
    let ghost ws = word_models(words@);
    let nw = words.len();
    let mut sum: u128 = 0;
    let mut i: usize = 0;
    while i < nw
        invariant
            nw == words@.len(),
            ws == word_models(words@),
            i <= nw,
            sum == word_chars(ws.take(i as int)),
            sum <= (i as int) * (usize::MAX as int),
        decreases nw - i,
    {
        assert(ws.take(i + 1).drop_last() =~= ws.take(i as int));
        assert(ws[i as int] == words@[i as int]@);
        let c = count_content_chars(words[i].word.as_str());
        assert(sum + c <= (i + 1) * (usize::MAX as int)) by (nonlinear_arith)
            requires
                sum <= (i as int) * (usize::MAX as int),
                c <= usize::MAX,
        ;
        assert((i + 1) * (usize::MAX as int) <= (usize::MAX as int) * (usize::MAX as int))
            by (nonlinear_arith)
            requires
                i + 1 <= usize::MAX,
        ;
        assert((usize::MAX as int) * (usize::MAX as int) <= u128::MAX) by (nonlinear_arith)
            requires
                usize::MAX <= u64::MAX,
        ;
        sum = sum + c as u128;
        i = i + 1;
    }
    assert(ws.take(nw as int) =~= ws);
    let span: u64 = if nw > 0 && words[nw - 1].end_ms >= words[0].start_ms {
        words[nw - 1].end_ms - words[0].start_ms
    } else {
        0
    };
    if nw > 0 {
        assert(ws.last() == words@[nw - 1]@);
        assert(ws[0] == words@[0]@);
    }
    assert(span == word_span(ws));
    if sum > 0 {
        let q: u128 = span as u128 / sum;
        assert(q <= span) by (nonlinear_arith)
            requires
                q == span as int / sum as int,
                sum >= 1,
                span >= 0,
        ;
        if q >= 1 {
            q as u64
        } else {
            1
        }
    } else {
        1
    }
}

/// Align the transcript to recognised words (see [`greedy_phrases`]).
pub fn greedy_align(transcript: &Transcript, words: &[TimedWord]) -> (out: Vec<AlignedPhrase>)
    ensures
        aligned_models(out@) == greedy_phrases(transcript@, word_models(words@)),
{
    let ghost ps = transcript@;
    let ghost ws = word_models(words@);
    let phrases = &transcript.phrases;
    let n = phrases.len();
    let nw = words.len();
    let rate = ms_per_counted_char(words);
    let mut out: Vec<AlignedPhrase> = Vec::with_capacity(n);
    let mut cursor: usize = 0;
    let mut i: usize = 0;
    while i < n
        invariant
            n == phrases@.len(),
            nw == words@.len(),
            rate == ms_per_char(ws),
            ps == phrase_models(phrases@),
            ws == word_models(words@),
            i <= n,
            aligned_models(out@) == greedy_prefix(ps, ws, i as int).0,
            cursor == greedy_prefix(ps, ws, i as int).1,
            cursor <= nw,
        decreases n - i,
    {
        proof {
            lemma_greedy_prefix_len(ps, ws, i as int);
        }
        let phrase = &phrases[i];
        assert(ps[i as int] == phrase@);
        let target = count_content_chars(phrase.text.as_str());
        let start_word = cursor;
        let mut acc: usize = 0;
        let ghost mut acc_true: int = 0;
        while cursor < nw && acc < target
            invariant
                nw == words@.len(),
                ws == word_models(words@),
                start_word <= cursor <= nw,
                acc_true >= 0,
                (acc < target) == (acc_true < target),
                acc_true < target ==> acc == acc_true,
                consume_end(ws, start_word as int, 0, target as int) == consume_end(
                    ws,
                    cursor as int,
                    acc_true,
                    target as int,
                ),
            decreases nw - cursor,
        {
            assert(ws[cursor as int] == words@[cursor as int]@);
            let c = count_content_chars(words[cursor].word.as_str());
            proof {
                lemma_content_count_bounds(ws[cursor as int].word);
                acc_true = acc_true + c;
            }
            // Saturating: once the sum reaches `usize::MAX` it is at least the
            // target either way, which is all the loop asks of it.
            acc = acc.saturating_add(c);
            cursor = cursor + 1;
        }
        let end_word = cursor;
        let ghost prev = aligned_models(out@);
        let prev_end: u64 = if out.len() > 0 {
            assert(prev.last() == out@[out@.len() - 1]@);
            out[out.len() - 1].end_ms
        } else {
            0
        };
        let (s, e) = if end_word > start_word {
            (words[start_word].start_ms, words[end_word - 1].end_ms)
        } else if start_word >= nw {
            let n1: usize = if target > 0 {
                target
            } else {
                1
            };
            assert((rate as int) * (n1 as int) <= (u64::MAX as int) * (u64::MAX as int))
                by (nonlinear_arith)
                requires
                    rate <= u64::MAX,
                    n1 <= u64::MAX,
            ;
            assert((u64::MAX as int) * (u64::MAX as int) + u64::MAX <= u128::MAX)
                by (nonlinear_arith);
            let e128: u128 = prev_end as u128 + (rate as u128) * (n1 as u128);
            let e: u64 = if e128 > 0xFFFF_FFFF_FFFF_FFFFu128 {
                0xFFFF_FFFF_FFFF_FFFFu64
            } else {
                e128 as u64
            };
            (prev_end, e)
        } else {
            (prev_end, prev_end)
        };
        let dur = e.saturating_sub(s);
        let nchars = char_count(phrase.text.as_str());
        let ap = AlignedPhrase {
            phrase_index: phrase.index,
            start_ms: s,
            end_ms: e,
            char_start_ms: linear_char_timings(dur, nchars),
        };
        let ghost before = out@;
        out.push(ap);
        assert(aligned_models(out@) =~= aligned_models(before).push(ap@));
        i = i + 1;
    }
    out
}

/// The speech timeline as an [`Alignment`]; `audio_duration_ms` is the
/// duration that the recogniser reported.
pub fn whisper_alignment(transcript: &Transcript, words: &[TimedWord], audio_duration_ms: u64) -> (a:
    Alignment)
    ensures
        a.audio_duration_ms == audio_duration_ms,
        a.source == AlignmentSource::OpenaiWhisper,
        aligned_models(a.phrases@) == greedy_phrases(transcript@, word_models(words@)),
{
    let phrases = greedy_align(transcript, words);
    Alignment { audio_duration_ms, phrases, source: AlignmentSource::OpenaiWhisper }
}


/// Recognised words in time order: each spans forward in time and none
/// starts before an earlier one has ended.
pub open spec fn words_in_order(ws: Seq<WordModel>) -> bool {
    &&& forall|k: int| 0 <= k < ws.len() ==> 0 <= #[trigger] ws[k].start_ms <= ws[k].end_ms
    &&& forall|k: int, m: int|
        0 <= k < m < ws.len() ==> #[trigger] ws[k].end_ms <= #[trigger] ws[m].start_ms
}

/// A timeline in order: each phrase ends no earlier than it starts and the
/// next one starts no earlier than it ends.
pub open spec fn timeline_in_order(q: Seq<AlignedModel>) -> bool {
    &&& forall|i: int| 0 <= i < q.len() ==> 0 <= #[trigger] q[i].start_ms <= q[i].end_ms
    &&& forall|i: int| 0 <= i < q.len() - 1 ==> #[trigger] q[i].end_ms <= q[i + 1].start_ms
}

proof fn lemma_greedy_prefix_ordered(ps: Seq<PhraseModel>, ws: Seq<WordModel>, i: int)
    requires
        0 <= i <= ps.len(),
        words_in_order(ws),
    ensures
        ({
            let (out, cur) = greedy_prefix(ps, ws, i);
            &&& out.len() == i
            &&& 0 <= cur <= ws.len()
            &&& timeline_in_order(out)
            &&& out.len() > 0 && cur < ws.len() ==> out.last().end_ms <= ws[cur].start_ms
            &&& out.len() == 0 ==> cur == 0
            &&& forall|k: int|
                0 <= k < out.len() ==> (#[trigger] out[k]).phrase_index == ps[k].index
                    && out[k].char_start_ms.len() == ps[k].text.len()
        }),
    decreases i,
{
    if i > 0 {
        lemma_greedy_prefix_ordered(ps, ws, i - 1);
        lemma_greedy_prefix_len(ps, ws, i - 1);
        let (out, cur) = greedy_prefix(ps, ws, i - 1);
        let p = ps[i - 1];
        let end_word = consume_end(ws, cur, 0, content_count(p.text));
        lemma_consume_end_bounds(ws, cur, 0, content_count(p.text));
        lemma_interpolated_positive(ws, p.text);
        let (out2, cur2) = greedy_prefix(ps, ws, i);
        assert(cur2 == end_word);
        let a = out2.last();
        if out.len() > 0 {
            assert(out.last() == out[out.len() - 1]);
        }
        if end_word > cur {
            assert(a.start_ms == ws[cur].start_ms);
            assert(a.end_ms == ws[end_word - 1].end_ms);
            if end_word - 1 > cur {
                assert(ws[cur].end_ms <= ws[end_word - 1].start_ms);
            }
            if end_word < ws.len() {
                assert(ws[end_word - 1].end_ms <= ws[end_word].start_ms);
            }
        }
        assert forall|k: int| 0 <= k < out2.len() - 1 implies #[trigger] out2[k].end_ms
            <= out2[k + 1].start_ms by {
            if k + 1 < out.len() {
                assert(out2[k] == out[k]);
                assert(out2[k + 1] == out[k + 1]);
            } else {
                assert(out2[k] == out.last());
            }
        }
        assert forall|k: int| 0 <= k < out2.len() implies 0 <= #[trigger] out2[k].start_ms
            <= out2[k].end_ms by {
            if k < out.len() {
                assert(out2[k] == out[k]);
            } else if out.len() > 0 {
                assert(out[out.len() - 1].start_ms <= out[out.len() - 1].end_ms);
            }
        }
        assert forall|k: int| 0 <= k < out2.len() implies (#[trigger] out2[k]).phrase_index
            == ps[k].index && out2[k].char_start_ms.len() == ps[k].text.len() by {
            if k < out.len() {
                assert(out2[k] == out[k]);
            }
        }
    }
}

/// When the recognised words are in time order, the speech timeline is in
/// order too: every phrase ends no earlier than it starts, and the next
/// phrase starts no earlier than it ends. Each entry keeps the index of its
/// phrase and has one reveal time per character.
pub proof fn lemma_greedy_timeline_in_order(ps: Seq<PhraseModel>, ws: Seq<WordModel>)
    requires
        words_in_order(ws),
    ensures
        greedy_phrases(ps, ws).len() == ps.len(),
        timeline_in_order(greedy_phrases(ps, ws)),
        forall|k: int|
            0 <= k < ps.len() ==> (#[trigger] greedy_phrases(ps, ws)[k]).phrase_index == ps[k].index
                && greedy_phrases(ps, ws)[k].char_start_ms.len() == ps[k].text.len(),
{
    lemma_greedy_prefix_ordered(ps, ws, ps.len() as int);
}


// ---------------------------------------------------------------------------
// Upload MIME type
// ---------------------------------------------------------------------------

/// ASCII letters in lower case; other characters unchanged.
pub open spec fn ascii_lower(c: char) -> char {
    if 'A' <= c && c <= 'Z' {
        (((c as u8) + 32) as u8) as char
    } else {
        c
    }
}

/// `s` with ASCII letters in lower case.
pub open spec fn ascii_lowercase(s: Seq<char>) -> Seq<char> {
    s.map_values(|c: char| ascii_lower(c))
}

fn lower_char(c: char) -> (r: char)
    ensures
        r == ascii_lower(c),
{
    if 'A' <= c && c <= 'Z' {
        ((c as u8) + 32) as char
    } else {
        c
    }
}

fn lowered(s: &str) -> (v: Vec<char>)
    ensures
        v@ == ascii_lowercase(s@),
{
    let cs = chars_of(s);
    let mut v: Vec<char> = Vec::new();
    let mut i: usize = 0;
    while i < cs.len()
        invariant
            cs@ == s@,
            i <= cs@.len(),
            v@ == ascii_lowercase(cs@).take(i as int),
        decreases cs@.len() - i,
    {
        v.push(lower_char(cs[i]));
        i = i + 1;
        assert(v@ =~= ascii_lowercase(cs@).take(i as int));
    }
    assert(ascii_lowercase(cs@).take(cs@.len() as int) =~= ascii_lowercase(cs@));
    v
}

fn same_chars(a: &[char], b: &[char]) -> (r: bool)
    ensures
        r == (a@ == b@),
{
    if a.len() != b.len() {
        return false;
    }
    let mut i: usize = 0;
    while i < a.len()
        invariant
            a@.len() == b@.len(),
            i <= a@.len(),
            forall|j: int| 0 <= j < i ==> a@[j] == b@[j],
        decreases a@.len() - i,
    {
        if a[i] != b[i] {
            return false;
        }
        i = i + 1;
    }
    assert(a@ =~= b@);
    true
}

/// The MIME type announced for an upload, from the file extension (any
/// ASCII case).
pub open spec fn mime_for(ext: Option<Seq<char>>) -> Seq<char> {
    match ext {
        None => "application/octet-stream"@,
        Some(e) => {
            let l = ascii_lowercase(e);
            if l == seq!['m', 'p', '3'] {
                "audio/mpeg"@
            } else if l == seq!['w', 'a', 'v'] {
                "audio/wav"@
            } else if l == seq!['f', 'l', 'a', 'c'] {
                "audio/flac"@
            } else if l == seq!['o', 'g', 'g'] || l == seq!['o', 'g', 'a'] {
                "audio/ogg"@
            } else if l == seq!['m', '4', 'a'] || l == seq!['m', 'p', '4'] {
                "audio/mp4"@
            } else if l == seq!['w', 'e', 'b', 'm'] {
                "audio/webm"@
            } else {
                "application/octet-stream"@
            }
        },
    }
}

/// The upload type reads the extension in any ASCII case, and the known
/// audio extensions give their types: mp3 is audio/mpeg, wav audio/wav,
/// flac audio/flac, ogg and oga audio/ogg, m4a and mp4 audio/mp4, webm
/// audio/webm; a path without an extension is sent as
/// application/octet-stream.
pub proof fn lemma_mime_types(e: Seq<char>)
    ensures
        mime_for(Some(e)) == mime_for(Some(ascii_lowercase(e))),
        ascii_lowercase(e) == seq!['m', 'p', '3'] ==> mime_for(Some(e)) == "audio/mpeg"@,
        ascii_lowercase(e) == seq!['w', 'a', 'v'] ==> mime_for(Some(e)) == "audio/wav"@,
        ascii_lowercase(e) == seq!['f', 'l', 'a', 'c'] ==> mime_for(Some(e)) == "audio/flac"@,
        ascii_lowercase(e) == seq!['o', 'g', 'g'] ==> mime_for(Some(e)) == "audio/ogg"@,
        ascii_lowercase(e) == seq!['o', 'g', 'a'] ==> mime_for(Some(e)) == "audio/ogg"@,
        ascii_lowercase(e) == seq!['m', '4', 'a'] ==> mime_for(Some(e)) == "audio/mp4"@,
        ascii_lowercase(e) == seq!['m', 'p', '4'] ==> mime_for(Some(e)) == "audio/mp4"@,
        ascii_lowercase(e) == seq!['w', 'e', 'b', 'm'] ==> mime_for(Some(e)) == "audio/webm"@,
        mime_for(None) == "application/octet-stream"@,
{
    assert forall|i: int| 0 <= i < e.len() implies ascii_lower(ascii_lower(e[i])) == ascii_lower(
        e[i],
    ) by {
        let c = e[i];
        if 'A' <= c && c <= 'Z' {
            assert('a' <= ascii_lower(c) && ascii_lower(c) <= 'z');
        }
    }
    assert(ascii_lowercase(ascii_lowercase(e)) =~= ascii_lowercase(e));
}

/// The MIME type for a file extension (see [`mime_for`]).
pub fn mime_for_extension(ext: Option<&str>) -> (m: &'static str)
    ensures
        m@ == mime_for(
            match ext {
                Some(e) => Some(e@),
                None => None,
            },
        ),
{
    match ext {
        None => "application/octet-stream",
        Some(e) => {
            let l = lowered(e);
            assert(['m', 'p', '3']@ =~= seq!['m', 'p', '3']);
            assert(['w', 'a', 'v']@ =~= seq!['w', 'a', 'v']);
            assert(['f', 'l', 'a', 'c']@ =~= seq!['f', 'l', 'a', 'c']);
            assert(['o', 'g', 'g']@ =~= seq!['o', 'g', 'g']);
            assert(['o', 'g', 'a']@ =~= seq!['o', 'g', 'a']);
            assert(['m', '4', 'a']@ =~= seq!['m', '4', 'a']);
            assert(['m', 'p', '4']@ =~= seq!['m', 'p', '4']);
            assert(['w', 'e', 'b', 'm']@ =~= seq!['w', 'e', 'b', 'm']);
            if same_chars(l.as_slice(), &['m', 'p', '3']) {
                "audio/mpeg"
            } else if same_chars(l.as_slice(), &['w', 'a', 'v']) {
                "audio/wav"
            } else if same_chars(l.as_slice(), &['f', 'l', 'a', 'c']) {
                "audio/flac"
            } else if same_chars(l.as_slice(), &['o', 'g', 'g']) || same_chars(
                l.as_slice(),
                &['o', 'g', 'a'],
            ) {
                "audio/ogg"
            } else if same_chars(l.as_slice(), &['m', '4', 'a']) || same_chars(
                l.as_slice(),
                &['m', 'p', '4'],
            ) {
                "audio/mp4"
            } else if same_chars(l.as_slice(), &['w', 'e', 'b', 'm']) {
                "audio/webm"
            } else {
                "application/octet-stream"
            }
        },
    }
}

/// The extension of the last component of `path`, as `Path::extension`
/// returns it.
pub uninterp spec fn path_extension(path: Seq<char>) -> Option<Seq<char>>;

/// Calls `std::path::Path::extension` on `path` (a `str` path always has a
/// UTF-8 extension).
#[verifier::external_body]
fn extension_of(path: &str) -> (r: Option<String>)
    ensures
        match r {
            Some(e) => path_extension(path@) == Some(e@),
            None => path_extension(path@) is None,
        },
{
    match std::path::Path::new(path).extension() {
        Some(e) => Some(e.to_string_lossy().into_owned()),
        None => None,
    }
}

/// The MIME type announced when uploading the file at `path`.
pub fn guess_mime(path: &str) -> (m: &'static str)
    ensures
        m@ == mime_for(path_extension(path@)),
{
    match extension_of(path) {
        Some(e) => mime_for_extension(Some(e.as_str())),
        None => mime_for_extension(None),
    }
}

} // verus!
