//! ESC/POS command byte builders for the EPSON TM-T90II.
//!
//! The printer is initialised for Japanese (Kanji mode, Shift_JIS) at the
//! start of a session.

use vstd::prelude::*;
use vstd::string::StringSliceAdditionalSpecFns;
use vstd::utf8::is_ascii_chars;

verus! {

/// `ESC @`: reset the printer.
pub open spec fn init_bytes() -> Seq<u8> {
    seq![0x1Bu8, 0x40u8]
}

/// `FS &`: enter Kanji mode.
pub open spec fn kanji_on_bytes() -> Seq<u8> {
    seq![0x1Cu8, 0x26u8]
}

/// `FS C 1`: select the Shift_JIS Kanji code system.
pub open spec fn kanji_shift_jis_bytes() -> Seq<u8> {
    seq![0x1Cu8, 0x43u8, 0x01u8]
}

/// `GS V 0`: full paper cut.
pub open spec fn cut_full_bytes() -> Seq<u8> {
    seq![0x1Du8, 0x56u8, 0x00u8]
}

/// `ESC d n`: feed `n` lines.
pub open spec fn feed_lines_bytes(n: u8) -> Seq<u8> {
    seq![0x1Bu8, 0x64u8, n]
}

/// `ESC J n`: feed `n` dot rows.
pub open spec fn feed_dots_bytes(n: u8) -> Seq<u8> {
    seq![0x1Bu8, 0x4Au8, n]
}

/// The session preamble: reset, Kanji mode, Shift_JIS.
pub open spec fn session_open_bytes() -> Seq<u8> {
    init_bytes() + kanji_on_bytes() + kanji_shift_jis_bytes()
}

/// Feed `n` lines. ESC d n.
pub fn feed_lines(n: u8) -> (res: [u8; 3])
    ensures
        res@ == feed_lines_bytes(n),
{
    let res = [0x1B, 0x64, n];
    assert(res@ =~= feed_lines_bytes(n));
    res
}

/// Feed `n` dot-rows for finer-grained paper advance. ESC J n.
pub fn feed_dots(n: u8) -> (res: [u8; 3])
    ensures
        res@ == feed_dots_bytes(n),
{
    let res = [0x1B, 0x4A, n];
    assert(res@ =~= feed_dots_bytes(n));
    res
}

/// Session init: reset + kanji + Shift_JIS.
pub fn session_open() -> (res: Vec<u8>)
    ensures
        res@ == session_open_bytes(),
{
    let mut v: Vec<u8> = Vec::with_capacity(8);
    v.push(0x1B);
    v.push(0x40);
    v.push(0x1C);
    v.push(0x26);
    v.push(0x1C);
    v.push(0x43);
    v.push(0x01);
    assert(v@ =~= session_open_bytes());
    v
}


/// Full paper cut. GS V 0.
pub fn cut_full() -> (res: [u8; 3])
    ensures
        res@ == cut_full_bytes(),
{
    let res = [0x1D, 0x56, 0x00];
    assert(res@ =~= cut_full_bytes());
    res
}

/// The bytes that `encoding_rs::SHIFT_JIS.encode` produces for `text`
/// (unmappable characters become HTML numeric character references).
pub uninterp spec fn shift_jis_encoding(text: Seq<char>) -> Seq<u8>;

/// Calls `encoding_rs::SHIFT_JIS.encode`. The result is the encoder's output
/// for `text`, whatever it is; for ASCII-only text the encoder hands the
/// input bytes back unchanged (encoding_rs returns a borrow of
/// `text.as_bytes()` in that case). The length bound keeps the encoder's
/// buffer-size computation from overflowing, where it panics.
#[verifier::external_body]
fn shift_jis_encode(text: &str) -> (bytes: Vec<u8>)
    requires
        text.spec_bytes().len() <= usize::MAX / 8,
    ensures
        bytes@ == shift_jis_encoding(text@),
        is_ascii_chars(text@) ==> bytes@ == Seq::new(text@.len(), |i: int| text@[i] as u8),
{
    let (cow, _, _) = encoding_rs::SHIFT_JIS.encode(text);
    cow.into_owned()
}

/// Encode Japanese text as Shift_JIS for the printer.
pub fn encode_sjis(text: &str) -> (bytes: Vec<u8>)
    requires
        text.spec_bytes().len() <= usize::MAX / 8,
    ensures
        bytes@ == shift_jis_encoding(text@),
        is_ascii_chars(text@) ==> bytes@ == Seq::new(text@.len(), |i: int| text@[i] as u8),
{
    shift_jis_encode(text)
}

/// What the printer is sent for one phrase: its Shift_JIS text and a line
/// feed.
pub fn phrase_bytes(text: &str) -> (bytes: Vec<u8>)
    requires
        text.spec_bytes().len() <= usize::MAX / 8,
    ensures
        bytes@ == shift_jis_encoding(text@).push(0x0Au8),
{
    let mut bytes = encode_sjis(text);
    bytes.push(0x0A);
    bytes
}

} // verus!
