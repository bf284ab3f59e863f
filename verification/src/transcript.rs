//! Parses oral history transcripts into a flat sequence of `Phrase`s that
//! drive both the on-screen display and the thermal printer.
//!
//! Two layouts are recognised:
//!
//! 1. **Single-speaker**: paragraphs separated by blank lines; interviewer
//!    turns are prefixed with `──`; no speaker labels.
//! 2. **Multi-speaker**: the same paragraph structure, plus lines holding only
//!    a name followed by `：` or `:` (or a short bare name ending in an
//!    honorific) that label the speaker of the following paragraphs.
//!
//! In both layouts a line that starts with `──` is an interviewer turn, even
//! when the rest of it would also read as a speaker label.
//!
//! Each non-empty paragraph is then split into phrases after `、` and `。`.

use vstd::prelude::*;
use crate::text::{
    chars_of, copy_range, ends_with, has_suffix, is_ws, lemma_trim_end_shape, lemma_trim_shape,
    lemma_trim_start_shape, skip_leading,
    string_from_chars, strip_leading, trim, trim_bounds, trim_end, trim_start, trimmed,
};

verus! {

/// Who is speaking in a paragraph.
#[derive(Debug, Clone, PartialEq, Eq)]
pub enum Speaker {
    Interviewer,
    /// A speaker introduced by a label line such as `大塚さん：`.
    Named { name: String },
    /// Single-speaker transcripts where no name labels appear.
    Anonymous,
}

/// The mathematical value of a [`Speaker`].
pub enum SpeakerModel {
    Interviewer,
    Named(Seq<char>),
    Anonymous,
}

impl View for Speaker {
    type V = SpeakerModel;

    open spec fn view(&self) -> SpeakerModel {
        match self {
            Speaker::Interviewer => SpeakerModel::Interviewer,
            Speaker::Named { name } => SpeakerModel::Named(name@),
            Speaker::Anonymous => SpeakerModel::Anonymous,
        }
    }
}

impl Speaker {
    /// A copy of this speaker.
    pub fn duplicate(&self) -> (r: Speaker)
        ensures
            r@ == self@,
    {
        match self {
            Speaker::Interviewer => Speaker::Interviewer,
            Speaker::Named { name } => Speaker::Named { name: name.clone() },
            Speaker::Anonymous => Speaker::Anonymous,
        }
    }
}

/// A unit of synchronized output: one print burst on the receipt printer and
/// one screen of typewriter text.
#[derive(Debug, Clone)]
pub struct Phrase {
    /// 0-based index across the whole transcript.
    pub index: usize,
    /// Speaker carried over from the enclosing paragraph.
    pub speaker: Speaker,
    /// Text content; trailing `、`/`。` is kept.
    pub text: String,
    /// True for the first phrase of its paragraph.
    pub paragraph_start: bool,
}

/// The mathematical value of a [`Phrase`].
pub struct PhraseModel {
    pub index: int,
    pub speaker: SpeakerModel,
    pub text: Seq<char>,
    pub paragraph_start: bool,
}

impl View for Phrase {
    type V = PhraseModel;

    open spec fn view(&self) -> PhraseModel {
        PhraseModel {
            index: self.index as int,
            speaker: self.speaker@,
            text: self.text@,
            paragraph_start: self.paragraph_start,
        }
    }
}

/// A parsed transcript.
#[derive(Debug, Clone)]
pub struct Transcript {
    pub phrases: Vec<Phrase>,
}

/// The values of a sequence of phrases.
pub open spec fn phrase_models(v: Seq<Phrase>) -> Seq<PhraseModel> {
    v.map_values(|p: Phrase| p@)
}

impl View for Transcript {
    type V = Seq<PhraseModel>;

    open spec fn view(&self) -> Seq<PhraseModel> {
        phrase_models(self.phrases@)
    }
}

/// One paragraph, before phrase splitting.
pub struct ParaModel {
    pub speaker: SpeakerModel,
    pub text: Seq<char>,
}

// ---------------------------------------------------------------------------
// Lines
// ---------------------------------------------------------------------------

/// Scan of `s` into complete lines (each without its `\n`, and without a
/// `\r` just before it) and the unfinished last line.
pub open spec fn line_scan(s: Seq<char>) -> (Seq<Seq<char>>, Seq<char>)
    decreases s.len(),
{
    if s.len() == 0 {
        (seq![], seq![])
    } else {
        let (done, cur) = line_scan(s.drop_last());
        if s.last() == '\n' {
            (done.push(drop_cr(cur)), seq![])
        } else {
            (done, cur.push(s.last()))
        }
    }
}

/// A line without a trailing `\r`.
pub open spec fn drop_cr(l: Seq<char>) -> Seq<char> {
    if l.len() > 0 && l.last() == '\r' {
        l.drop_last()
    } else {
        l
    }
}

/// The lines of `s` as `str::lines` yields them: split at `\n` or `\r\n`;
/// a final line ending adds no empty line.
pub open spec fn lines(s: Seq<char>) -> Seq<Seq<char>> {
    let (done, cur) = line_scan(s);
    if cur.len() > 0 {
        done.push(cur)
    } else {
        done
    }
}

// ---------------------------------------------------------------------------
// Speaker labels
// ---------------------------------------------------------------------------

/// `k` is the first position of `c` in `s`.
pub open spec fn is_first(s: Seq<char>, c: char, k: int) -> bool {
    &&& 0 <= k < s.len()
    &&& s[k] == c
    &&& forall|j: int| 0 <= j < k ==> s[j] != c
}

/// The first position of `c` in `s`, if any.
pub open spec fn first_index(s: Seq<char>, c: char) -> Option<int> {
    if exists|k: int| is_first(s, c, k) {
        Some(choose|k: int| is_first(s, c, k))
    } else {
        None
    }
}

/// Split at the first full-width colon `：`, or else at the first `:`.
pub open spec fn colon_split(s: Seq<char>) -> Option<(Seq<char>, Seq<char>)> {
    match first_index(s, '：') {
        Some(k) => Some((s.take(k), s.skip(k + 1))),
        None => match first_index(s, ':') {
            Some(k) => Some((s.take(k), s.skip(k + 1))),
            None => None,
        },
    }
}

/// The label form `name：` / `name:` with nothing after the colon and a
/// name of 1 to 20 characters.
pub open spec fn colon_label(line: Seq<char>) -> Option<Seq<char>> {
    match colon_split(line) {
        Some((name, rest)) => if trim(rest).len() == 0 && 0 < trim(name).len() <= 20 {
            Some(trim(name))
        } else {
            None
        },
        None => None,
    }
}

/// Whether `t` ends in one of the honorifics さん, 君, 氏, 先生.
pub open spec fn ends_with_honorific(t: Seq<char>) -> bool {
    ||| ends_with(t, seq!['さ', 'ん'])
    ||| ends_with(t, seq!['君'])
    ||| ends_with(t, seq!['氏'])
    ||| ends_with(t, seq!['先', '生'])
}

/// The colon-less label form: a line of at most 15 characters, not ending in
/// 。, 、 or ！, that ends in an honorific.
pub open spec fn bare_label(line: Seq<char>) -> Option<Seq<char>> {
    let t = trim(line);
    if t.len() > 15 {
        None
    } else if ends_with(t, seq!['。']) || ends_with(t, seq!['、']) || ends_with(t, seq!['！']) {
        None
    } else if ends_with_honorific(t) {
        Some(t)
    } else {
        None
    }
}

/// The speaker name that `line` labels, if it is a label line.
pub open spec fn speaker_label(line: Seq<char>) -> Option<Seq<char>> {
    match colon_label(line) {
        Some(name) => Some(name),
        None => bare_label(line),
    }
}

// ---------------------------------------------------------------------------
// Paragraphs
// ---------------------------------------------------------------------------

/// State while scanning lines: finished paragraphs, the current speaker and
/// the text of the paragraph being collected.
pub struct ScanState {
    pub paras: Seq<ParaModel>,
    pub speaker: SpeakerModel,
    pub buf: Seq<char>,
}

/// The full-width space used to indent paragraphs.
pub open spec fn ideographic_space() -> char {
    '\u{3000}'
}

/// Whether the (trimmed) line starts with the interviewer marker `──`.
pub open spec fn has_interviewer_prefix(line: Seq<char>) -> bool {
    line.len() >= 2 && line[0] == '─' && line[1] == '─'
}

/// End the paragraph being collected: it is kept unless it is blank.
pub open spec fn flush_state(st: ScanState) -> ScanState {
    if trim(st.buf).len() == 0 {
        ScanState { buf: seq![], ..st }
    } else {
        ScanState {
            paras: st.paras.push(ParaModel { speaker: st.speaker, text: st.buf }),
            buf: seq![],
            ..st
        }
    }
}

/// One line of input.
pub open spec fn scan_line(st: ScanState, raw: Seq<char>) -> ScanState {
    let line = trim(raw);
    if line.len() == 0 {
        flush_state(st)
    } else if has_interviewer_prefix(line) {
        let f = flush_state(st);
        ScanState {
            paras: f.paras.push(
                ParaModel {
                    speaker: SpeakerModel::Interviewer,
                    text: trim(strip_leading(line.skip(2), ideographic_space())),
                },
            ),
            ..f
        }
    } else if speaker_label(line) is Some {
        ScanState { speaker: SpeakerModel::Named(speaker_label(line)->0), ..flush_state(st) }
    } else {
        let normalized = strip_leading(line, ideographic_space());
        ScanState {
            buf: if st.buf.len() == 0 {
                normalized
            } else {
                st.buf.push(' ') + normalized
            },
            ..st
        }
    }
}

/// The state before any line.
pub open spec fn initial_scan() -> ScanState {
    ScanState { paras: seq![], speaker: SpeakerModel::Anonymous, buf: seq![] }
}

/// The state after the given lines.
pub open spec fn scan_lines(ls: Seq<Seq<char>>) -> ScanState
    decreases ls.len(),
{
    if ls.len() == 0 {
        initial_scan()
    } else {
        scan_line(scan_lines(ls.drop_last()), ls.last())
    }
}

/// The paragraphs of a transcript.
pub open spec fn paragraphs(input: Seq<char>) -> Seq<ParaModel> {
    flush_state(scan_lines(lines(input))).paras
}

// ---------------------------------------------------------------------------
// Phrases
// ---------------------------------------------------------------------------

/// The characters after which a paragraph is split.
pub open spec fn is_stop(c: char) -> bool {
    c == '、' || c == '。'
}

/// Scan of a paragraph into finished phrases and the unfinished tail.
pub open spec fn piece_scan(s: Seq<char>) -> (Seq<Seq<char>>, Seq<char>)
    decreases s.len(),
{
    if s.len() == 0 {
        (seq![], seq![])
    } else {
        let (ps, cur) = piece_scan(s.drop_last());
        let cur2 = cur.push(s.last());
        if is_stop(s.last()) {
            let t = trim(cur2);
            (if t.len() > 0 {
                ps.push(t)
            } else {
                ps
            }, seq![])
        } else {
            (ps, cur2)
        }
    }
}

/// The phrases of a paragraph: split after each `、` and `。`, each piece
/// trimmed, blank pieces dropped.
pub open spec fn pieces(s: Seq<char>) -> Seq<Seq<char>> {
    let (ps, cur) = piece_scan(s);
    let t = trim(cur);
    if t.len() > 0 {
        ps.push(t)
    } else {
        ps
    }
}

/// The phrases of paragraph `p`, numbered from `base`.
pub open spec fn para_phrases(base: int, p: ParaModel) -> Seq<PhraseModel> {
    let ps = pieces(p.text);
    Seq::new(
        ps.len(),
        |i: int|
            PhraseModel { index: base + i, speaker: p.speaker, text: ps[i], paragraph_start: i == 0 },
    )
}

/// The phrases of a sequence of paragraphs, numbered from 0.
pub open spec fn phrases_of(paras: Seq<ParaModel>) -> Seq<PhraseModel>
    decreases paras.len(),
{
    if paras.len() == 0 {
        seq![]
    } else {
        let prev = phrases_of(paras.drop_last());
        prev + para_phrases(prev.len() as int, paras.last())
    }
}

/// The transcript that `input` parses to.
pub open spec fn parsed(input: Seq<char>) -> Seq<PhraseModel> {
    phrases_of(paragraphs(input))
}


// ---------------------------------------------------------------------------
// Executable parser
// ---------------------------------------------------------------------------

/// The values of a sequence of character vectors.
pub open spec fn char_seqs(v: Seq<Vec<char>>) -> Seq<Seq<char>> {
    v.map_values(|l: Vec<char>| l@)
}

/// One paragraph from the transcript, before phrase splitting.
struct Paragraph {
    speaker: Speaker,
    text: Vec<char>,
}

impl View for Paragraph {
    type V = ParaModel;

    closed spec fn view(&self) -> ParaModel {
        ParaModel { speaker: self.speaker@, text: self.text@ }
    }
}

/// The values of a sequence of paragraphs.
spec fn para_models(v: Seq<Paragraph>) -> Seq<ParaModel> {
    v.map_values(|p: Paragraph| p@)
}

/// Parse a transcript into phrases.
pub fn parse(input: &str) -> (t: Transcript)
    ensures
        t@ == parsed(input@),
{
    let chars = chars_of(input);
    let paragraphs = collect_paragraphs(chars.as_slice());
    let phrases = split_phrases(paragraphs.as_slice());
    Transcript { phrases }
}

/// The lines of `input`, split as `str::lines` splits them.
fn split_lines(input: &[char]) -> (res: Vec<Vec<char>>)
    ensures
        char_seqs(res@) == lines(input@),
{
    let mut done: Vec<Vec<char>> = Vec::new();
    let mut cur: Vec<char> = Vec::new();
    let mut i: usize = 0;
    while i < input.len()
        invariant
            i <= input@.len(),
            char_seqs(done@) == line_scan(input@.take(i as int)).0,
            cur@ == line_scan(input@.take(i as int)).1,
        decreases input@.len() - i,
    {
        assert(input@.take(i + 1).drop_last() =~= input@.take(i as int));
        let c = input[i];
        if c == '\n' {
            let ghost cur0 = cur@;
            if cur.len() > 0 && cur[cur.len() - 1] == '\r' {
                cur.pop();
                assert(cur@ =~= drop_cr(cur0));
            }
            let mut line: Vec<char> = Vec::new();
            std::mem::swap(&mut line, &mut cur);
            let ghost before = done@;
            done.push(line);
            assert(char_seqs(done@) =~= char_seqs(before).push(drop_cr(cur0)));
            assert(cur@ =~= Seq::<char>::empty());
        } else {
            cur.push(c);
        }
        i = i + 1;
    }
    assert(input@.take(input@.len() as int) =~= input@);
    if cur.len() > 0 {
        let ghost before = done@;
        let ghost c0 = cur@;
        done.push(cur);
        assert(char_seqs(done@) =~= char_seqs(before).push(c0));
    }
    done
}

/// First position of `c` in `s`.
fn find_char(s: &[char], c: char) -> (r: Option<usize>)
    ensures
        match r {
            Some(k) => first_index(s@, c) == Some(k as int),
            None => first_index(s@, c) is None,
        },
{
    let mut i: usize = 0;
    while i < s.len()
        invariant
            i <= s@.len(),
            forall|j: int| 0 <= j < i ==> s@[j] != c,
        decreases s@.len() - i,
    {
        if s[i] == c {
            assert(is_first(s@, c, i as int));
            assert forall|k: int| is_first(s@, c, k) implies k == i by {
                if k < i {
                    assert(s@[k] != c);
                } else if k > i {
                    assert(s@[i as int] != c);
                }
            }
            return Some(i);
        }
        i = i + 1;
    }
    assert forall|k: int| !is_first(s@, c, k) by {
        if 0 <= k < s@.len() {
            assert(s@[k] != c);
        }
    }
    None
}

/// Appends `s[lo..hi]` to `dst`.
fn append_range(dst: &mut Vec<char>, s: &[char], lo: usize, hi: usize)
    requires
        lo <= hi <= s@.len(),
    ensures
        final(dst)@ == old(dst)@ + s@.subrange(lo as int, hi as int),
{
    let mut i = lo;
    while i < hi
        invariant
            lo <= i <= hi <= s@.len(),
            dst@ == old(dst)@ + s@.subrange(lo as int, i as int),
        decreases hi - i,
    {
        dst.push(s[i]);
        i = i + 1;
        assert(dst@ =~= old(dst)@ + s@.subrange(lo as int, i as int));
    }
}

/// Where `s` splits into name and rest: at the first full-width `：` (the
/// usual convention in Japanese transcripts), else at the first `:`.
fn split_once_on_colon(s: &[char]) -> (r: Option<usize>)
    ensures
        match r {
            Some(k) => k < s@.len() && colon_split(s@) == Some(
                (s@.subrange(0, k as int), s@.subrange(k + 1, s@.len() as int)),
            ),
            None => colon_split(s@) is None,
        },
{
    let colon = match find_char(s, '：') {
        Some(k) => Some(k),
        None => find_char(s, ':'),
    };
    if let Some(k) = colon {
        assert(s@.take(k as int) =~= s@.subrange(0, k as int));
        assert(s@.skip(k + 1) =~= s@.subrange(k + 1, s@.len() as int));
    }
    colon
}

/// `Some(name)` if `line` is only a speaker label such as `大塚さん：`,
/// `大塚さん:`, or a short bare `大塚さん` (a label whose colon was dropped).
fn parse_speaker_label(line: &[char]) -> (r: Option<Vec<char>>)
    ensures
        match r {
            Some(v) => speaker_label(line@) == Some(v@),
            None => speaker_label(line@) is None,
        },
{
    let n = line.len();
    if let Some(k) = split_once_on_colon(line) {
        let (ra, rb) = trim_bounds(line, k + 1, n);
        if ra == rb {
            let (na, nb) = trim_bounds(line, 0, k);
            if na < nb && nb - na <= 20 {
                let name = copy_range(line, na, nb);
                return Some(name);
            }
        }
    }
    assert(colon_label(line@) is None);
    let (a, b) = trim_bounds(line, 0, n);
    assert(line@.subrange(0, n as int) =~= line@);
    let t = copy_range(line, a, b);
    if t.len() > 15 {
        return None;
    }
    if has_suffix(t.as_slice(), &['。']) || has_suffix(t.as_slice(), &['、']) || has_suffix(
        t.as_slice(),
        &['！'],
    ) {
        assert(seq!['。'] =~= ['。']@);
        return None;
    }
    assert(seq!['。'] =~= ['。']@);
    assert(seq!['、'] =~= ['、']@);
    assert(seq!['！'] =~= ['！']@);
    assert(seq!['さ', 'ん'] =~= ['さ', 'ん']@);
    assert(seq!['君'] =~= ['君']@);
    assert(seq!['氏'] =~= ['氏']@);
    assert(seq!['先', '生'] =~= ['先', '生']@);
    if has_suffix(t.as_slice(), &['さ', 'ん']) || has_suffix(t.as_slice(), &['君']) || has_suffix(
        t.as_slice(),
        &['氏'],
    ) || has_suffix(t.as_slice(), &['先', '生']) {
        return Some(t);
    }
    None
}

/// End the paragraph in `buf`: a non-blank one is added to `out`.
fn flush(buf: &mut Vec<char>, speaker: &Speaker, out: &mut Vec<Paragraph>)
    ensures
        para_models(final(out)@) == flush_state(
            ScanState { paras: para_models(old(out)@), speaker: speaker@, buf: old(buf)@ },
        ).paras,
        final(buf)@ == Seq::<char>::empty(),
{
    let n = buf.len();
    let (a, b) = trim_bounds(buf.as_slice(), 0, n);
    assert(buf@.subrange(0, n as int) =~= buf@);
    if a == b {
        buf.clear();
        return ;
    }
    let mut text: Vec<char> = Vec::new();
    std::mem::swap(&mut text, buf);
    let p = Paragraph { speaker: speaker.duplicate(), text };
    let ghost before = out@;
    out.push(p);
    assert(para_models(out@) =~= para_models(before).push(p@));
}

/// The paragraphs of the transcript `input`.
fn collect_paragraphs(input: &[char]) -> (res: Vec<Paragraph>)
    ensures
        para_models(res@) == paragraphs(input@),
{
    let ls = split_lines(input);
    let ghost lsv = lines(input@);
    let mut out: Vec<Paragraph> = Vec::new();
    let mut speaker = Speaker::Anonymous;
    let mut buf: Vec<char> = Vec::new();
    let mut i: usize = 0;
    assert(para_models(out@) =~= Seq::<ParaModel>::empty());
    while i < ls.len()
        invariant
            char_seqs(ls@) == lsv,
            i <= ls@.len(),
            scan_lines(lsv.take(i as int)).paras == para_models(out@),
            scan_lines(lsv.take(i as int)).speaker == speaker@,
            scan_lines(lsv.take(i as int)).buf == buf@,
        decreases ls@.len() - i,
    {
        assert(lsv.take(i + 1).drop_last() =~= lsv.take(i as int));
        let ghost st = scan_lines(lsv.take(i as int));
        let raw = &ls[i];
        assert(raw@ == lsv[i as int]);
        let rn = raw.len();
        let (a, b) = trim_bounds(raw.as_slice(), 0, rn);
        assert(raw@.subrange(0, rn as int) =~= raw@);
        if a == b {
            flush(&mut buf, &speaker, &mut out);
        } else {
            let line = copy_range(raw.as_slice(), a, b);
            let ln = line.len();
            if ln >= 2 && line[0] == '─' && line[1] == '─' {
                flush(&mut buf, &speaker, &mut out);
                let k = skip_leading(line.as_slice(), 2, ln, '\u{3000}');
                assert(line@.skip(2) =~= line@.subrange(2, ln as int));
                let text = trimmed(line.as_slice(), k, ln);
                let p = Paragraph { speaker: Speaker::Interviewer, text };
                let ghost before = out@;
                out.push(p);
                assert(para_models(out@) =~= para_models(before).push(p@));
            } else {
                match parse_speaker_label(line.as_slice()) {
                    Some(name) => {
                        flush(&mut buf, &speaker, &mut out);
                        speaker = Speaker::Named { name: string_from_chars(name.as_slice()) };
                    },
                    None => {
                        let k = skip_leading(line.as_slice(), 0, ln, '\u{3000}');
                        assert(line@.subrange(0, ln as int) =~= line@);
                        if buf.len() > 0 {
                            buf.push(' ');
                        }
                        append_range(&mut buf, line.as_slice(), k, ln);
                    },
                }
            }
        }
        i = i + 1;
    }
    assert(lsv.take(ls@.len() as int) =~= lsv);
    flush(&mut buf, &speaker, &mut out);
    out
}

/// Splits a paragraph after each `、` and `。`, keeping the punctuation with
/// the preceding phrase; pieces are trimmed and blank ones dropped.
fn split_paragraph_into_phrases(text: &[char]) -> (res: Vec<Vec<char>>)
    ensures
        char_seqs(res@) == pieces(text@),
{
    let mut phrases: Vec<Vec<char>> = Vec::new();
    let mut current: Vec<char> = Vec::new();
    let mut i: usize = 0;
    while i < text.len()
        invariant
            i <= text@.len(),
            char_seqs(phrases@) == piece_scan(text@.take(i as int)).0,
            current@ == piece_scan(text@.take(i as int)).1,
        decreases text@.len() - i,
    {
        assert(text@.take(i + 1).drop_last() =~= text@.take(i as int));
        let ch = text[i];
        current.push(ch);
        if ch == '、' || ch == '。' {
            let cn = current.len();
            assert(current@.subrange(0, cn as int) =~= current@);
            let t = trimmed(current.as_slice(), 0, cn);
            if t.len() > 0 {
                let ghost before = phrases@;
                let ghost tv = t@;
                phrases.push(t);
                assert(char_seqs(phrases@) =~= char_seqs(before).push(tv));
            }
            current.clear();
        }
        i = i + 1;
    }
    assert(text@.take(text@.len() as int) =~= text@);
    let cn = current.len();
    assert(current@.subrange(0, cn as int) =~= current@);
    let t = trimmed(current.as_slice(), 0, cn);
    if t.len() > 0 {
        let ghost before = phrases@;
        let ghost tv = t@;
        phrases.push(t);
        assert(char_seqs(phrases@) =~= char_seqs(before).push(tv));
    }
    phrases
}

/// Numbers the phrases of all paragraphs consecutively.
fn split_phrases(paragraphs: &[Paragraph]) -> (res: Vec<Phrase>)
    ensures
        phrase_models(res@) == phrases_of(para_models(paragraphs@)),
{
    let ghost pm = para_models(paragraphs@);
    let mut out: Vec<Phrase> = Vec::new();
    let mut p: usize = 0;
    assert(phrase_models(out@) =~= phrases_of(pm.take(0)));
    while p < paragraphs.len()
        invariant
            pm == para_models(paragraphs@),
            p <= paragraphs@.len(),
            phrase_models(out@) == phrases_of(pm.take(p as int)),
        decreases paragraphs@.len() - p,
    {
        let para = &paragraphs[p];
        assert(para@ == pm[p as int]);
        let ps = split_paragraph_into_phrases(para.text.as_slice());
        let ghost base = out@.len() as int;
        let ghost prev = phrase_models(out@);
        let ghost all = para_phrases(base, pm[p as int]);
        let mut i: usize = 0;
        assert(phrase_models(out@) =~= prev + all.take(0));
        while i < ps.len()
            invariant
                char_seqs(ps@) == pieces(para.text@),
                para@ == pm[p as int],
                all == para_phrases(base, pm[p as int]),
                i <= ps@.len(),
                base == prev.len(),
                phrase_models(out@) == prev + all.take(i as int),
            decreases ps@.len() - i,
        {
            let idx = out.len();
            let text = string_from_chars(ps[i].as_slice());
            let ph = Phrase {
                index: idx,
                speaker: para.speaker.duplicate(),
                text,
                paragraph_start: i == 0,
            };
            let ghost before = out@;
            out.push(ph);
            assert(phrase_models(out@) =~= phrase_models(before).push(ph@));
            assert(ph@ == all[i as int]);
            assert(prev + all.take(i + 1) =~= (prev + all.take(i as int)).push(all[i as int]));
            i = i + 1;
        }
        assert(all.take(ps@.len() as int) =~= all);
        assert(pm.take(p + 1).drop_last() =~= pm.take(p as int));
        assert(pm.take(p + 1).last() == pm[p as int]);
        p = p + 1;
    }
    assert(pm.take(paragraphs@.len() as int) =~= pm);
    out
}


// ---------------------------------------------------------------------------
// Properties of every parse
// ---------------------------------------------------------------------------

/// A well-formed phrase text: non-empty, no white space at either end, and
/// `、`/`。` at most as its last character.
pub open spec fn phrase_text_ok(t: Seq<char>) -> bool {
    &&& t.len() > 0
    &&& !is_ws(t[0])
    &&& !is_ws(t.last())
    &&& forall|j: int| 0 <= j < t.len() - 1 ==> !is_stop(#[trigger] t[j])
}

proof fn lemma_piece_scan(s: Seq<char>)
    ensures
        forall|k: int|
            0 <= k < piece_scan(s).0.len() ==> phrase_text_ok(#[trigger] piece_scan(s).0[k]),
        forall|j: int| 0 <= j < piece_scan(s).1.len() ==> !is_stop(#[trigger] piece_scan(s).1[j]),
    decreases s.len(),
{
    if s.len() > 0 {
        lemma_piece_scan(s.drop_last());
        let (ps, cur) = piece_scan(s.drop_last());
        let cur2 = cur.push(s.last());
        if is_stop(s.last()) {
            let t = trim(cur2);
            let r = lemma_trim_shape(cur2);
            if t.len() > 0 {
                assert(t[0] == cur2[r.0]);
                assert(t.last() == cur2[r.1 - 1]);
                assert forall|j: int| 0 <= j < t.len() - 1 implies !is_stop(#[trigger] t[j]) by {
                    assert(t[j] == cur2[r.0 + j]);
                    if r.0 + j < cur.len() {
                        assert(cur2[r.0 + j] == cur[r.0 + j]);
                    } else {
                        // the stop character is not white space, so it is kept last
                        assert(!is_ws(cur2[cur2.len() - 1]));
                        assert(r.1 == cur2.len());
                    }
                }
                assert(phrase_text_ok(t));
                assert forall|k: int| 0 <= k < ps.push(t).len() implies phrase_text_ok(
                    #[trigger] ps.push(t)[k],
                ) by {
                    if k < ps.len() {
                        assert(ps.push(t)[k] == ps[k]);
                    }
                }
            }
        } else {
            assert forall|j: int| 0 <= j < cur2.len() implies !is_stop(#[trigger] cur2[j]) by {
                if j < cur.len() {
                    assert(cur2[j] == cur[j]);
                }
            }
        }
    }
}

proof fn lemma_pieces(s: Seq<char>)
    ensures
        forall|k: int| 0 <= k < pieces(s).len() ==> phrase_text_ok(#[trigger] pieces(s)[k]),
{
    lemma_piece_scan(s);
    let (ps, cur) = piece_scan(s);
    let t = trim(cur);
    if t.len() > 0 {
        let r = lemma_trim_shape(cur);
        assert(t[0] == cur[r.0]);
        assert(t.last() == cur[r.1 - 1]);
        assert forall|j: int| 0 <= j < t.len() - 1 implies !is_stop(#[trigger] t[j]) by {
            assert(t[j] == cur[r.0 + j]);
        }
        assert forall|k: int| 0 <= k < ps.push(t).len() implies phrase_text_ok(
            #[trigger] ps.push(t)[k],
        ) by {
            if k < ps.len() {
                assert(ps.push(t)[k] == ps[k]);
            }
        }
    }
}

/// The shape of a phrase sequence built from paragraphs.
pub open spec fn phrases_well_formed(p: Seq<PhraseModel>) -> bool {
    &&& forall|i: int| 0 <= i < p.len() ==> (#[trigger] p[i]).index == i
    &&& forall|i: int| 0 <= i < p.len() ==> phrase_text_ok((#[trigger] p[i]).text)
    &&& forall|i: int|
        0 < i < p.len() && !(#[trigger] p[i]).paragraph_start ==> p[i].speaker == p[i - 1].speaker
    &&& p.len() > 0 ==> p[0].paragraph_start
}

proof fn lemma_phrases_of(paras: Seq<ParaModel>)
    ensures
        phrases_well_formed(phrases_of(paras)),
    decreases paras.len(),
{
    if paras.len() > 0 {
        lemma_phrases_of(paras.drop_last());
        let prev = phrases_of(paras.drop_last());
        let q = para_phrases(prev.len() as int, paras.last());
        let all = prev + q;
        lemma_pieces(paras.last().text);
        assert forall|i: int| 0 <= i < all.len() implies (#[trigger] all[i]).index == i
            && phrase_text_ok(all[i].text) by {
            if i >= prev.len() {
                assert(all[i] == q[i - prev.len()]);
            }
        }
        assert forall|i: int|
            0 < i < all.len() && !(#[trigger] all[i]).paragraph_start implies all[i].speaker
            == all[i - 1].speaker by {
            if i > prev.len() {
                assert(all[i] == q[i - prev.len()]);
                assert(all[i - 1] == q[i - 1 - prev.len()]);
            } else if i == prev.len() {
                assert(all[i] == q[0]);
            }
        }
        if all.len() > 0 && prev.len() == 0 {
            assert(all[0] == q[0]);
        }
    }
}

/// Every parse yields phrases numbered 0, 1, 2, ... in order; each phrase
/// text is non-empty, has no white space at either end and holds `、` or `。`
/// only as its last character; the first phrase starts a paragraph; and a
/// phrase that does not start a paragraph has the speaker of the phrase
/// before it.
pub proof fn lemma_parse_well_formed(input: Seq<char>)
    ensures
        phrases_well_formed(parsed(input)),
{
    lemma_phrases_of(paragraphs(input));
}


/// `s` holds no line break.
pub open spec fn single_line(s: Seq<char>) -> bool {
    forall|j: int| 0 <= j < s.len() ==> #[trigger] s[j] != '\n'
}

proof fn lemma_single_line_subrange(s: Seq<char>, a: int, b: int)
    requires
        single_line(s),
        0 <= a <= b <= s.len(),
    ensures
        single_line(s.subrange(a, b)),
{
    assert forall|j: int| 0 <= j < b - a implies #[trigger] s.subrange(a, b)[j] != '\n' by {
        assert(s.subrange(a, b)[j] == s[a + j]);
    }
}

proof fn lemma_single_line_trim(s: Seq<char>)
    requires
        single_line(s),
    ensures
        single_line(trim(s)),
{
    let r = lemma_trim_shape(s);
    lemma_single_line_subrange(s, r.0, r.1);
}

proof fn lemma_single_line_strip(s: Seq<char>, c: char)
    requires
        single_line(s),
    ensures
        single_line(strip_leading(s, c)),
    decreases s.len(),
{
    if s.len() > 0 && s[0] == c {
        lemma_single_line_subrange(s, 1, s.len() as int);
        assert(s.drop_first() =~= s.subrange(1, s.len() as int));
        lemma_single_line_strip(s.drop_first(), c);
    }
}

proof fn lemma_line_scan_single(s: Seq<char>)
    ensures
        forall|k: int| 0 <= k < line_scan(s).0.len() ==> single_line(#[trigger] line_scan(s).0[k]),
        single_line(line_scan(s).1),
    decreases s.len(),
{
    if s.len() > 0 {
        lemma_line_scan_single(s.drop_last());
        let (done, cur) = line_scan(s.drop_last());
        if s.last() == '\n' {
            let l = drop_cr(cur);
            if cur.len() > 0 && cur.last() == '\r' {
                lemma_single_line_subrange(cur, 0, cur.len() - 1);
                assert(cur.drop_last() =~= cur.subrange(0, cur.len() - 1));
            }
            assert forall|k: int| 0 <= k < done.push(l).len() implies single_line(
                #[trigger] done.push(l)[k],
            ) by {
                if k < done.len() {
                    assert(done.push(l)[k] == done[k]);
                }
            }
        } else {
            assert forall|j: int| 0 <= j < cur.push(s.last()).len() implies #[trigger] cur.push(
                s.last(),
            )[j] != '\n' by {
                if j < cur.len() {
                    assert(cur.push(s.last())[j] == cur[j]);
                }
            }
        }
    }
}

proof fn lemma_lines_single(s: Seq<char>)
    ensures
        forall|k: int| 0 <= k < lines(s).len() ==> single_line(#[trigger] lines(s)[k]),
{
    lemma_line_scan_single(s);
    let (done, cur) = line_scan(s);
    if cur.len() > 0 {
        assert forall|k: int| 0 <= k < done.push(cur).len() implies single_line(
            #[trigger] done.push(cur)[k],
        ) by {
            if k < done.len() {
                assert(done.push(cur)[k] == done[k]);
            }
        }
    }
}

/// Every paragraph and the paragraph being collected hold no line break.
pub open spec fn scan_single(st: ScanState) -> bool {
    &&& forall|k: int| 0 <= k < st.paras.len() ==> single_line((#[trigger] st.paras[k]).text)
    &&& single_line(st.buf)
}

proof fn lemma_flush_single(st: ScanState)
    requires
        scan_single(st),
    ensures
        scan_single(flush_state(st)),
{
    let f = flush_state(st);
    if trim(st.buf).len() != 0 {
        assert forall|k: int| 0 <= k < f.paras.len() implies single_line(
            (#[trigger] f.paras[k]).text,
        ) by {
            if k < st.paras.len() {
                assert(f.paras[k] == st.paras[k]);
            }
        }
    }
}

proof fn lemma_scan_lines_single(ls: Seq<Seq<char>>)
    requires
        forall|k: int| 0 <= k < ls.len() ==> single_line(#[trigger] ls[k]),
    ensures
        scan_single(scan_lines(ls)),
    decreases ls.len(),
{
    if ls.len() > 0 {
        assert forall|k: int| 0 <= k < ls.drop_last().len() implies single_line(
            #[trigger] ls.drop_last()[k],
        ) by {
            assert(ls.drop_last()[k] == ls[k]);
        }
        lemma_scan_lines_single(ls.drop_last());
        let st = scan_lines(ls.drop_last());
        let raw = ls.last();
        assert(single_line(raw));
        let line = trim(raw);
        lemma_single_line_trim(raw);
        lemma_flush_single(st);
        if line.len() == 0 {
        } else if has_interviewer_prefix(line) {
            let f = flush_state(st);
            lemma_single_line_subrange(line, 2, line.len() as int);
            assert(line.skip(2) =~= line.subrange(2, line.len() as int));
            lemma_single_line_strip(line.skip(2), ideographic_space());
            lemma_single_line_trim(strip_leading(line.skip(2), ideographic_space()));
            let t = trim(strip_leading(line.skip(2), ideographic_space()));
            let p2 = f.paras.push(ParaModel { speaker: SpeakerModel::Interviewer, text: t });
            assert forall|k: int| 0 <= k < p2.len() implies single_line((#[trigger] p2[k]).text) by {
                if k < f.paras.len() {
                    assert(p2[k] == f.paras[k]);
                }
            }
        } else if speaker_label(line) is Some {
        } else {
            let n = strip_leading(line, ideographic_space());
            lemma_single_line_strip(line, ideographic_space());
            if st.buf.len() != 0 {
                let b = st.buf.push(' ') + n;
                assert forall|j: int| 0 <= j < b.len() implies #[trigger] b[j] != '\n' by {
                    if j < st.buf.len() {
                        assert(b[j] == st.buf[j]);
                    } else if j > st.buf.len() {
                        assert(b[j] == n[j - st.buf.len() - 1]);
                    }
                }
            }
        }
    }
}

proof fn lemma_piece_scan_single(s: Seq<char>)
    requires
        single_line(s),
    ensures
        forall|k: int|
            0 <= k < piece_scan(s).0.len() ==> single_line(#[trigger] piece_scan(s).0[k]),
        single_line(piece_scan(s).1),
    decreases s.len(),
{
    if s.len() > 0 {
        lemma_single_line_subrange(s, 0, s.len() - 1);
        assert(s.drop_last() =~= s.subrange(0, s.len() - 1));
        lemma_piece_scan_single(s.drop_last());
        let (ps, cur) = piece_scan(s.drop_last());
        let cur2 = cur.push(s.last());
        assert forall|j: int| 0 <= j < cur2.len() implies #[trigger] cur2[j] != '\n' by {
            if j < cur.len() {
                assert(cur2[j] == cur[j]);
            }
        }
        if is_stop(s.last()) {
            let t = trim(cur2);
            lemma_single_line_trim(cur2);
            assert forall|k: int| 0 <= k < ps.push(t).len() implies single_line(
                #[trigger] ps.push(t)[k],
            ) by {
                if k < ps.len() {
                    assert(ps.push(t)[k] == ps[k]);
                }
            }
        }
    }
}

proof fn lemma_pieces_single(s: Seq<char>)
    requires
        single_line(s),
    ensures
        forall|k: int| 0 <= k < pieces(s).len() ==> single_line(#[trigger] pieces(s)[k]),
{
    lemma_piece_scan_single(s);
    let (ps, cur) = piece_scan(s);
    let t = trim(cur);
    lemma_single_line_trim(cur);
    if t.len() > 0 {
        assert forall|k: int| 0 <= k < ps.push(t).len() implies single_line(
            #[trigger] ps.push(t)[k],
        ) by {
            if k < ps.len() {
                assert(ps.push(t)[k] == ps[k]);
            }
        }
    }
}

proof fn lemma_phrases_of_single(paras: Seq<ParaModel>)
    requires
        forall|k: int| 0 <= k < paras.len() ==> single_line((#[trigger] paras[k]).text),
    ensures
        forall|i: int|
            0 <= i < phrases_of(paras).len() ==> single_line((#[trigger] phrases_of(paras)[i]).text),
    decreases paras.len(),
{
    if paras.len() > 0 {
        assert forall|k: int| 0 <= k < paras.drop_last().len() implies single_line(
            (#[trigger] paras.drop_last()[k]).text,
        ) by {
            assert(paras.drop_last()[k] == paras[k]);
        }
        lemma_phrases_of_single(paras.drop_last());
        let prev = phrases_of(paras.drop_last());
        let q = para_phrases(prev.len() as int, paras.last());
        assert(single_line(paras.last().text));
        lemma_pieces_single(paras.last().text);
        let all = prev + q;
        assert forall|i: int| 0 <= i < all.len() implies single_line((#[trigger] all[i]).text) by {
            if i >= prev.len() {
                assert(all[i] == q[i - prev.len()]);
            } else {
                assert(all[i] == prev[i]);
            }
        }
    }
}

/// A phrase never spans a line break: lines of one paragraph are joined
/// with a space.
pub proof fn lemma_phrases_single_line(input: Seq<char>)
    ensures
        forall|i: int|
            0 <= i < parsed(input).len() ==> single_line((#[trigger] parsed(input)[i]).text),
{
    lemma_lines_single(input);
    lemma_scan_lines_single(lines(input));
    lemma_flush_single(scan_lines(lines(input)));
    lemma_phrases_of_single(paragraphs(input));
}

// ---------------------------------------------------------------------------
// Label lines
// ---------------------------------------------------------------------------

/// The speaker of a phrase that follows a label naming `name`: the label's
/// name where no label or interviewer marker gave it another.
pub open spec fn relabel(sp: SpeakerModel, name: Seq<char>) -> SpeakerModel {
    match sp {
        SpeakerModel::Anonymous => SpeakerModel::Named(name),
        _ => sp,
    }
}

/// The phrases `ps` as they read after `base` earlier phrases and a label
/// naming `name`: numbered on from `base`, and spoken by `name` where they
/// had no named speaker.
pub open spec fn spoken_by(ps: Seq<PhraseModel>, name: Seq<char>, base: int) -> Seq<
    PhraseModel,
> {
    Seq::new(
        ps.len(),
        |i: int|
            PhraseModel {
                index: ps[i].index + base,
                speaker: relabel(ps[i].speaker, name),
                text: ps[i].text,
                paragraph_start: ps[i].paragraph_start,
            },
    )
}

/// `s` is empty or ends with a line break: it is made of whole lines.
pub open spec fn whole_lines(s: Seq<char>) -> bool {
    s.len() == 0 || s.last() == '\n'
}

spec fn relabel_paras(ps: Seq<ParaModel>, name: Seq<char>) -> Seq<ParaModel> {
    Seq::new(
        ps.len(),
        |i: int| ParaModel { speaker: relabel(ps[i].speaker, name), text: ps[i].text },
    )
}

spec fn scan_from(st: ScanState, ls: Seq<Seq<char>>) -> ScanState
    decreases ls.len(),
{
    if ls.len() == 0 {
        st
    } else {
        scan_line(scan_from(st, ls.drop_last()), ls.last())
    }
}

proof fn lemma_line_scan_append(a: Seq<char>, b: Seq<char>)
    requires
        line_scan(a).1 == Seq::<char>::empty(),
    ensures
        line_scan(a + b).0 == line_scan(a).0 + line_scan(b).0,
        line_scan(a + b).1 == line_scan(b).1,
    decreases b.len(),
{
    if b.len() == 0 {
        assert(a + b =~= a);
        assert(line_scan(a).0 + line_scan(b).0 =~= line_scan(a).0);
    } else {
        lemma_line_scan_append(a, b.drop_last());
        assert((a + b).drop_last() =~= a + b.drop_last());
        assert((a + b).last() == b.last());
        let (d, c) = line_scan(b.drop_last());
        if b.last() == '\n' {
            assert(line_scan(a).0 + d.push(drop_cr(c)) =~= (line_scan(a).0 + d).push(drop_cr(c)));
        }
    }
}

proof fn lemma_line_scan_single_line(l: Seq<char>)
    requires
        single_line(l),
    ensures
        line_scan(l).0 == Seq::<Seq<char>>::empty(),
        line_scan(l).1 == l,
    decreases l.len(),
{
    if l.len() > 0 {
        lemma_single_line_subrange(l, 0, l.len() - 1);
        assert(l.drop_last() =~= l.subrange(0, l.len() - 1));
        lemma_line_scan_single_line(l.drop_last());
        assert(l[l.len() - 1] != '\n');
        assert(l.drop_last().push(l.last()) =~= l);
    }
}

proof fn lemma_lines_around(pre: Seq<char>, line: Seq<char>, post: Seq<char>)
    requires
        whole_lines(pre),
        single_line(line),
    ensures
        lines(pre + line.push('\n') + post) == lines(pre) + seq![drop_cr(line)] + lines(post),
{
    assert(line_scan(pre).1 == Seq::<char>::empty());
    lemma_line_scan_single_line(line);
    assert(line.push('\n').drop_last() =~= line);
    assert(line_scan(line.push('\n')).0 =~= seq![drop_cr(line)]);
    lemma_line_scan_append(pre, line.push('\n'));
    let x = pre + line.push('\n');
    lemma_line_scan_append(x, post);
    let a = lines(pre) + seq![drop_cr(line)];
    let (d, c) = line_scan(post);
    if c.len() > 0 {
        assert((a + d).push(c) =~= a + d.push(c));
    }
}

proof fn lemma_scan_lines_from(ls: Seq<Seq<char>>)
    ensures
        scan_lines(ls) == scan_from(initial_scan(), ls),
    decreases ls.len(),
{
    if ls.len() > 0 {
        lemma_scan_lines_from(ls.drop_last());
    }
}

proof fn lemma_scan_from_append(st: ScanState, a: Seq<Seq<char>>, b: Seq<Seq<char>>)
    ensures
        scan_from(st, a + b) == scan_from(scan_from(st, a), b),
    decreases b.len(),
{
    if b.len() == 0 {
        assert(a + b =~= a);
    } else {
        lemma_scan_from_append(st, a, b.drop_last());
        assert((a + b).drop_last() =~= a + b.drop_last());
        assert((a + b).last() == b.last());
    }
}

spec fn follows_label(st2: ScanState, st1: ScanState, before: Seq<ParaModel>, name: Seq<char>) -> bool {
    &&& st2.paras == before + relabel_paras(st1.paras, name)
    &&& st2.speaker == relabel(st1.speaker, name)
    &&& st2.buf == st1.buf
}

proof fn lemma_flush_follows(st2: ScanState, st1: ScanState, before: Seq<ParaModel>, name: Seq<char>)
    requires
        follows_label(st2, st1, before, name),
    ensures
        follows_label(flush_state(st2), flush_state(st1), before, name),
{
    if trim(st1.buf).len() != 0 {
        let p1 = ParaModel { speaker: st1.speaker, text: st1.buf };
        let p2 = ParaModel { speaker: st2.speaker, text: st2.buf };
        assert(st2.paras.push(p2) =~= before + relabel_paras(st1.paras.push(p1), name));
    }
}

proof fn lemma_scan_line_follows(
    st2: ScanState,
    st1: ScanState,
    before: Seq<ParaModel>,
    name: Seq<char>,
    raw: Seq<char>,
)
    requires
        follows_label(st2, st1, before, name),
    ensures
        follows_label(scan_line(st2, raw), scan_line(st1, raw), before, name),
{
    lemma_flush_follows(st2, st1, before, name);
    let line = trim(raw);
    if line.len() == 0 {
    } else if has_interviewer_prefix(line) {
        let f1 = flush_state(st1);
        let f2 = flush_state(st2);
        let p = ParaModel {
            speaker: SpeakerModel::Interviewer,
            text: trim(strip_leading(line.skip(2), ideographic_space())),
        };
        assert(f2.paras.push(p) =~= before + relabel_paras(f1.paras.push(p), name));
    } else if speaker_label(line) is Some {
    } else {
    }
}

proof fn lemma_scan_from_follows(
    st2: ScanState,
    st1: ScanState,
    before: Seq<ParaModel>,
    name: Seq<char>,
    ls: Seq<Seq<char>>,
)
    requires
        follows_label(st2, st1, before, name),
    ensures
        follows_label(scan_from(st2, ls), scan_from(st1, ls), before, name),
    decreases ls.len(),
{
    if ls.len() > 0 {
        lemma_scan_from_follows(st2, st1, before, name, ls.drop_last());
        lemma_scan_line_follows(
            scan_from(st2, ls.drop_last()),
            scan_from(st1, ls.drop_last()),
            before,
            name,
            ls.last(),
        );
    }
}

proof fn lemma_phrases_of_relabel(before: Seq<ParaModel>, q: Seq<ParaModel>, name: Seq<char>)
    ensures
        phrases_of(before + relabel_paras(q, name)) == phrases_of(before) + spoken_by(
            phrases_of(q),
            name,
            phrases_of(before).len() as int,
        ),
    decreases q.len(),
{
    let b = phrases_of(before).len() as int;
    if q.len() == 0 {
        assert(before + relabel_paras(q, name) =~= before);
        assert(phrases_of(before) + spoken_by(phrases_of(q), name, b) =~= phrases_of(before));
    } else {
        lemma_phrases_of_relabel(before, q.drop_last(), name);
        let r = relabel_paras(q, name);
        assert((before + r).drop_last() =~= before + relabel_paras(q.drop_last(), name));
        assert((before + r).last() == r[q.len() - 1]);
        let pq = phrases_of(q.drop_last());
        let m = pq.len() as int;
        let last = q.last();
        let rl = ParaModel { speaker: relabel(last.speaker, name), text: last.text };
        assert(r[q.len() - 1] == rl);
        let head = phrases_of(before) + spoken_by(pq, name, b);
        assert(head.len() == b + m);
        let lhs = head + para_phrases(b + m, rl);
        let full = pq + para_phrases(m, last);
        assert(phrases_of(q) == full);
        let rhs = phrases_of(before) + spoken_by(full, name, b);
        assert forall|i: int| 0 <= i < lhs.len() implies lhs[i] == rhs[i] by {
            if i >= b + m {
                assert(full[i - b] == para_phrases(m, last)[i - b - m]);
            } else if i >= b {
                assert(full[i - b] == pq[i - b]);
            }
        }
        assert(lhs =~= rhs);
    }
}

proof fn lemma_label_between(pre: Seq<char>, line: Seq<char>, post: Seq<char>, name: Seq<char>)
    requires
        whole_lines(pre),
        single_line(line),
        drop_cr(line) == line,
        trim(line).len() > 0,
        !has_interviewer_prefix(trim(line)),
        speaker_label(trim(line)) == Some(name),
    ensures
        parsed(pre + line.push('\n') + post) == parsed(pre) + spoken_by(
            parsed(post),
            name,
            parsed(pre).len() as int,
        ),
{
    let whole = pre + line.push('\n') + post;
    lemma_lines_around(pre, line, post);
    let lp = lines(pre);
    let lq = lines(post);
    assert(lines(whole) == lp + seq![line] + lq);
    lemma_scan_lines_from(lines(whole));
    lemma_scan_from_append(initial_scan(), lp + seq![line], lq);
    lemma_scan_from_append(initial_scan(), lp, seq![line]);
    lemma_scan_lines_from(lp);
    lemma_scan_lines_from(lq);
    let s = scan_lines(lp);
    assert(seq![line].drop_last() =~= Seq::<Seq<char>>::empty());
    assert(scan_from(s, seq![line].drop_last()) == s);
    assert(seq![line].last() == line);
    assert(scan_from(s, seq![line]) == scan_line(s, line));
    let t = scan_line(s, line);
    let before = flush_state(s).paras;
    assert(before == paragraphs(pre));
    assert(relabel_paras(Seq::<ParaModel>::empty(), name) =~= Seq::<ParaModel>::empty());
    assert(before + relabel_paras(initial_scan().paras, name) =~= before);
    assert(follows_label(t, initial_scan(), before, name));
    lemma_scan_from_follows(t, initial_scan(), before, name, lq);
    lemma_flush_follows(scan_from(t, lq), scan_from(initial_scan(), lq), before, name);
    assert(paragraphs(whole) == before + relabel_paras(paragraphs(post), name));
    lemma_phrases_of_relabel(before, paragraphs(post), name);
}

proof fn lemma_trim_unchanged(s: Seq<char>)
    requires
        s.len() > 0,
        !is_ws(s[0]),
        !is_ws(s.last()),
    ensures
        trim(s) == s,
{
    assert(trim_start(s) == s);
    assert(trim_end(s) == s);
}

proof fn lemma_trimmed_ends(s: Seq<char>)
    requires
        s.len() > 0,
        trim(s) == s,
    ensures
        !is_ws(s[0]),
        !is_ws(s.last()),
{
    let a = lemma_trim_start_shape(s);
    let t = trim_start(s);
    let b = lemma_trim_end_shape(t);
    assert(t.len() == s.len() - a);
    assert(trim(s).len() == b);
    assert(a == 0);
    assert(t =~= s);
    assert(t[b - 1] == s.last());
}

/// A line holding only a name of 1 to 20 characters (with no colon in it)
/// and a colon, ASCII `:` or full-width `：`, is a speaker label: it gives
/// no phrase; the text before it parses as it would alone; and the text
/// after it parses as it would alone, numbered on, with its phrases spoken
/// by that name until another label or an interviewer turn.
pub proof fn lemma_colon_label_line(pre: Seq<char>, name: Seq<char>, colon: char, post: Seq<char>)
    requires
        whole_lines(pre),
        colon == ':' || colon == '：',
        0 < name.len() <= 20,
        trim(name) == name,
        single_line(name),
        forall|j: int| 0 <= j < name.len() ==> #[trigger] name[j] != ':' && name[j] != '：',
        !has_interviewer_prefix(name),
    ensures
        parsed(pre + name.push(colon).push('\n') + post) == parsed(pre) + spoken_by(
            parsed(post),
            name,
            parsed(pre).len() as int,
        ),
{
    let line = name.push(colon);
    let n = name.len() as int;
    lemma_trimmed_ends(name);
    assert(line[0] == name[0]);
    lemma_trim_unchanged(line);
    assert forall|j: int| 0 <= j < line.len() implies #[trigger] line[j] != '\n' by {
        if j < n {
            assert(line[j] == name[j]);
        }
    }
    if n >= 2 {
        assert(line[1] == name[1]);
    }
    assert(line.take(n) =~= name);
    assert(line.skip(n + 1) =~= Seq::<char>::empty());
    assert(trim(Seq::<char>::empty()) =~= Seq::<char>::empty());
    assert(is_first(line, colon, n));
    assert forall|k: int| is_first(line, colon, k) implies k == n by {
        if k < n {
            assert(line[k] == name[k]);
        }
    }
    if colon == ':' {
        assert forall|k: int| !is_first(line, '：', k) by {
            if 0 <= k < n {
                assert(line[k] == name[k]);
            }
        }
        assert(first_index(line, '：') is None);
    }
    assert(colon_split(line) == Some((name, Seq::<char>::empty())));
    assert(speaker_label(line) == Some(name));
    lemma_label_between(pre, line, post, name);
}

/// A short line (at most 15 characters) of a name ending in one of the
/// honorifics さん, 君, 氏 or 先生 is a speaker label with no colon: it
/// gives no phrase; the text before it parses as it would alone; and the
/// text after it parses as it would alone, numbered on, with its phrases
/// spoken by that name until another label or an interviewer turn.
pub proof fn lemma_honorific_label_line(pre: Seq<char>, name: Seq<char>, post: Seq<char>)
    requires
        whole_lines(pre),
        name.len() <= 15,
        trim(name) == name,
        single_line(name),
        !has_interviewer_prefix(name),
        ends_with(name, seq!['さ', 'ん']) || ends_with(name, seq!['君']) || ends_with(
            name,
            seq!['氏'],
        ) || ends_with(name, seq!['先', '生']),
    ensures
        parsed(pre + name.push('\n') + post) == parsed(pre) + spoken_by(
            parsed(post),
            name,
            parsed(pre).len() as int,
        ),
{
    let n = name.len() as int;
    let last = name.last();
    assert(name.subrange(n - 1, n)[0] == last);
    if ends_with(name, seq!['さ', 'ん']) {
        assert(name.subrange(n - 2, n)[1] == last);
    }
    if ends_with(name, seq!['先', '生']) {
        assert(name.subrange(n - 2, n)[1] == last);
    }
    assert(last == 'ん' || last == '君' || last == '氏' || last == '生');
    lemma_trimmed_ends(name);
    assert(!ends_with(name, seq!['。']));
    assert(!ends_with(name, seq!['、']));
    assert(!ends_with(name, seq!['！']));
    match colon_split(name) {
        Some((head, rest)) => {
            let c = if first_index(name, '：') is Some {
                '：'
            } else {
                ':'
            };
            let k = first_index(name, c)->0;
            assert(is_first(name, c, k));
            assert(k < n - 1);
            assert(rest == name.skip(k + 1));
            assert(rest.last() == last);
            let r = lemma_trim_shape(rest);
            if trim(rest).len() == 0 {
                assert(is_ws(rest[rest.len() - 1]));
            }
        },
        None => {},
    }
    assert(colon_label(name) is None);
    assert(bare_label(name) == Some(name));
    assert(drop_cr(name) == name);
    lemma_label_between(pre, name, post, name);
}

} // verus!
