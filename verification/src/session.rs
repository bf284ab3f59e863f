//! The decisions behind the application's commands: decoding a transcript
//! file, and the life of a playback session (loaded, playing, stopped,
//! cleared, re-aligned).
//!
//! The session is generic over the handles the application keeps for the
//! transcript (`T`), the timeline (`A`) and the cancellation token of a
//! running playback (`C`).

use vstd::prelude::*;
use vstd::utf8::{decode_utf8, valid_utf8};
use crate::alignment::AlignmentSource;
use crate::transcript::{parse, parsed, Transcript};

verus! {

/// Calls `std::str::from_utf8`: it succeeds exactly when the bytes are valid
/// UTF-8 (std's documentation), and the text is then what they encode.
#[verifier::external_body]
fn utf8_text(bytes: &[u8]) -> (r: Option<String>)
    ensures
        r is Some <==> valid_utf8(bytes@),
        r matches Some(s) ==> s@ == decode_utf8(bytes@),
{
    match std::str::from_utf8(bytes) {
        Ok(s) => Some(s.to_owned()),
        Err(_) => None,
    }
}

/// The text that `encoding_rs::SHIFT_JIS.decode` produces for `bytes`
/// (with BOM sniffing; malformed sequences become U+FFFD).
pub uninterp spec fn shift_jis_decoding(bytes: Seq<u8>) -> Seq<char>;

/// Calls `encoding_rs::SHIFT_JIS.decode` and keeps the decoded text. The
/// length bound keeps the decoder's buffer-size computation from overflowing,
/// where it panics.
#[verifier::external_body]
fn shift_jis_decode(bytes: &[u8]) -> (s: String)
    requires
        bytes@.len() <= usize::MAX / 8,
    ensures
        s@ == shift_jis_decoding(bytes@),
{
    let (cow, _, _) = encoding_rs::SHIFT_JIS.decode(bytes);
    cow.into_owned()
}

/// The text of a transcript file: UTF-8 when the bytes are valid UTF-8,
/// Shift_JIS (older Japanese transcripts) otherwise.
pub open spec fn decoded_text(bytes: Seq<u8>) -> Seq<char> {
    if valid_utf8(bytes) {
        decode_utf8(bytes)
    } else {
        shift_jis_decoding(bytes)
    }
}

/// Liveness check of the command channel.
pub fn ping() -> (s: &'static str)
    ensures
        s@ == "pong"@,
{
    "pong"
}

/// Try UTF-8 first, fall back to Shift_JIS.
pub fn decode_text(bytes: &[u8]) -> (s: String)
    requires
        bytes@.len() <= usize::MAX / 8,
    ensures
        s@ == decoded_text(bytes@),
{
    match utf8_text(bytes) {
        Some(s) => s,
        None => shift_jis_decode(bytes),
    }
}

/// Decode and parse the contents of a transcript file.
pub fn load_transcript(bytes: &[u8]) -> (t: Transcript)
    requires
        bytes@.len() <= usize::MAX / 8,
    ensures
        t@ == parsed(decoded_text(bytes@)),
{
    let text = decode_text(bytes);
    parse(text.as_str())
}

/// What the frontend is told about a freshly loaded session.
#[derive(Debug, Clone)]
pub struct SessionSummary {
    pub phrase_count: usize,
    pub audio_duration_ms: u64,
    pub transcript_path: String,
    pub audio_path: String,
    pub alignment_source: AlignmentSource,
}

/// The summary of a session over `transcript` and audio of
/// `audio_duration_ms`, whose initial timeline came from `source`.
pub fn summarize(
    transcript: &Transcript,
    audio_duration_ms: u64,
    transcript_path: String,
    audio_path: String,
    source: AlignmentSource,
) -> (s: SessionSummary)
    ensures
        s.phrase_count == transcript@.len(),
        s.audio_duration_ms == audio_duration_ms,
        s.transcript_path == transcript_path,
        s.audio_path == audio_path,
        s.alignment_source == source,
{
    SessionSummary {
        phrase_count: transcript.phrases.len(),
        audio_duration_ms,
        transcript_path,
        audio_path,
        alignment_source: source,
    }
}

/// A loaded session.
pub struct Session<T, A, C> {
    pub transcript: T,
    pub alignment: A,
    pub audio_path: String,
    /// The cancellation token of the running playback, if one is running.
    pub cancel: Option<C>,
}

/// Why a command on the session was refused.
#[derive(Debug, Clone, Copy, PartialEq, Eq)]
pub enum SessionError {
    NoSession,
    AlreadyPlaying,
}

impl SessionError {
    /// The message shown to the user.
    pub fn message(&self) -> (s: String)
        ensures
            *self == SessionError::NoSession ==> s@ == "no session loaded"@,
            *self == SessionError::AlreadyPlaying ==> s@ == "playback already running"@,
    {
        match self {
            SessionError::NoSession => "no session loaded".to_owned(),
            SessionError::AlreadyPlaying => "playback already running".to_owned(),
        }
    }
}

/// The slot after a successful start: the session now holds `token`.
pub open spec fn started<T, A, C>(slot: Option<Session<T, A, C>>, token: C) -> Option<
    Session<T, A, C>,
> {
    match slot {
        Some(s) => Some(Session { cancel: Some(token), ..s }),
        None => None,
    }
}

/// The slot after a stop: the session without its token.
pub open spec fn stopped<T, A, C>(slot: Option<Session<T, A, C>>) -> Option<Session<T, A, C>> {
    match slot {
        Some(s) => Some(Session { cancel: None, ..s }),
        None => None,
    }
}

/// The token of the running playback, if any.
pub open spec fn running_token<T, A, C>(slot: Option<Session<T, A, C>>) -> Option<C> {
    match slot {
        Some(s) => s.cancel,
        None => None,
    }
}

/// Make a freshly loaded session current; any previous session is dropped
/// (its playback, if any, is not cancelled).
pub fn install_session<T, A, C>(
    slot: &mut Option<Session<T, A, C>>,
    transcript: T,
    alignment: A,
    audio_path: String,
)
    ensures
        *final(slot) == Some(
            Session::<T, A, C> { transcript, alignment, audio_path, cancel: None },
        ),
{
    *slot = Some(Session { transcript, alignment, audio_path, cancel: None });
}

/// What a start does to the slot: refused without a session or while a
/// playback is running (the slot unchanged); otherwise the session keeps
/// `token` to cancel the new playback later.
pub open spec fn start_step<T, A, C>(slot: Option<Session<T, A, C>>, token: C) -> (
    Result<(), SessionError>,
    Option<Session<T, A, C>>,
) {
    match slot {
        None => (Err(SessionError::NoSession), slot),
        Some(s) => if s.cancel is Some {
            (Err(SessionError::AlreadyPlaying), slot)
        } else {
            (Ok(()), started(slot, token))
        },
    }
}

/// What a stop does to the slot: refused without a session; otherwise the
/// token of the running playback, if any, is handed back and the session
/// keeps none.
pub open spec fn stop_step<T, A, C>(slot: Option<Session<T, A, C>>) -> (
    Result<Option<C>, SessionError>,
    Option<Session<T, A, C>>,
) {
    match slot {
        None => (Err(SessionError::NoSession), slot),
        Some(s) => (Ok(s.cancel), stopped(slot)),
    }
}

/// What a finished background alignment does to the slot: a loaded session
/// takes the new timeline, and the result says whether one was loaded.
pub open spec fn align_step<T, A, C>(slot: Option<Session<T, A, C>>, alignment: A) -> (
    bool,
    Option<Session<T, A, C>>,
) {
    match slot {
        Some(s) => (true, Some(Session { alignment, ..s })),
        None => (false, None),
    }
}

/// Start playback: refused without a session or while one is running;
/// otherwise the session keeps `token` to cancel it later.
pub fn start_playback<T, A, C>(slot: &mut Option<Session<T, A, C>>, token: C) -> (r: Result<
    (),
    SessionError,
>)
    ensures
        (r, *final(slot)) == start_step(*old(slot), token),
{
    match slot {
        None => Err(SessionError::NoSession),
        Some(s) => {
            if s.cancel.is_some() {
                return Err(SessionError::AlreadyPlaying);
            }
            s.cancel = Some(token);
            Ok(())
        },
    }
}

/// Stop playback: refused without a session; otherwise the token of the
/// running playback, if any, is handed back to be signalled.
pub fn stop_playback<T, A, C>(slot: &mut Option<Session<T, A, C>>) -> (r: Result<
    Option<C>,
    SessionError,
>)
    ensures
        (r, *final(slot)) == stop_step(*old(slot)),
{
    match slot {
        None => Err(SessionError::NoSession),
        Some(s) => Ok(s.cancel.take()),
    }
}

/// Clear the session entirely; the token of a running playback, if any, is
/// handed back to be signalled.
pub fn clear_session<T, A, C>(slot: &mut Option<Session<T, A, C>>) -> (r: Option<C>)
    ensures
        (*final(slot)) is None,
        r == running_token(*old(slot)),
{
    match slot.take() {
        Some(mut s) => s.cancel.take(),
        None => None,
    }
}

/// What a re-alignment needs: the session's transcript and audio path;
/// refused without a session.
pub fn realign<T, A, C>(slot: &Option<Session<T, A, C>>) -> (r: Result<(&T, &String), SessionError>)
    ensures
        match *slot {
            Some(s) => r == Ok::<(&T, &String), SessionError>((&s.transcript, &s.audio_path)),
            None => r == Err::<(&T, &String), SessionError>(SessionError::NoSession),
        },
{
    match slot {
        Some(s) => Ok((&s.transcript, &s.audio_path)),
        None => Err(SessionError::NoSession),
    }
}

/// A finished background alignment replaces the session's timeline if a
/// session is still loaded; the result says whether it did.
pub fn install_alignment<T, A, C>(slot: &mut Option<Session<T, A, C>>, alignment: A) -> (r: bool)
    ensures
        (r, *final(slot)) == align_step(*old(slot), alignment),
{
    match slot {
        Some(s) => {
            s.alignment = alignment;
            true
        },
        None => false,
    }
}

/// Starting a playback on a loaded idle session and then stopping it hands
/// back the token the start was given and leaves the session as it was.
pub proof fn lemma_start_then_stop<T, A, C>(slot: Option<Session<T, A, C>>, token: C)
    requires
        slot is Some,
        running_token(slot) is None,
    ensures
        running_token(started(slot, token)) == Some(token),
        stopped(started(slot, token)) == slot,
{
    let s = slot->0;
    assert(stopped(started(slot, token))->0 == s);
}

/// A command on a loaded session that does not replace it: a start with
/// its cancellation token, a stop, or the arrival of a new timeline.
pub enum PlaybackCommand<A, C> {
    Start(C),
    Stop,
    Align(A),
}

/// The slot after one command.
pub open spec fn command_step<T, A, C>(
    slot: Option<Session<T, A, C>>,
    cmd: PlaybackCommand<A, C>,
) -> Option<Session<T, A, C>> {
    match cmd {
        PlaybackCommand::Start(token) => start_step(slot, token).1,
        PlaybackCommand::Stop => stop_step(slot).1,
        PlaybackCommand::Align(alignment) => align_step(slot, alignment).1,
    }
}

/// The slot after the commands, in order.
pub open spec fn after_commands<T, A, C>(
    slot: Option<Session<T, A, C>>,
    cmds: Seq<PlaybackCommand<A, C>>,
) -> Option<Session<T, A, C>>
    decreases cmds.len(),
{
    if cmds.len() == 0 {
        slot
    } else {
        command_step(after_commands(slot, cmds.drop_last()), cmds.last())
    }
}

/// Whether the last start or stop among the commands is a start (`initially`
/// when there is neither).
pub open spec fn last_is_start<A, C>(initially: bool, cmds: Seq<PlaybackCommand<A, C>>) -> bool
    decreases cmds.len(),
{
    if cmds.len() == 0 {
        initially
    } else {
        match cmds.last() {
            PlaybackCommand::Start(_) => true,
            PlaybackCommand::Stop => false,
            PlaybackCommand::Align(_) => last_is_start(initially, cmds.drop_last()),
        }
    }
}

/// Playbacks whose token has not been handed back to be signalled: the one
/// running at the outset, if any, plus each accepted start, less each stop
/// that handed a token back.
pub open spec fn live_playbacks<T, A, C>(
    slot: Option<Session<T, A, C>>,
    cmds: Seq<PlaybackCommand<A, C>>,
) -> int
    decreases cmds.len(),
{
    if cmds.len() == 0 {
        if running_token(slot) is Some {
            1
        } else {
            0
        }
    } else {
        let before = after_commands(slot, cmds.drop_last());
        live_playbacks(slot, cmds.drop_last()) + match cmds.last() {
            PlaybackCommand::Start(token) => if start_step(before, token).0 is Ok {
                1int
            } else {
                0int
            },
            PlaybackCommand::Stop => if stop_step(before).0 matches Ok(Some(_)) {
                -1int
            } else {
                0int
            },
            PlaybackCommand::Align(_) => 0int,
        }
    }
}

/// Over any run of starts, stops and new timelines on a loaded session: the
/// session stays loaded with its transcript and audio; a playback is running
/// exactly when the last start or stop was a start; a further start is then
/// refused as already playing, and accepted otherwise; and at most one
/// playback's token is ever outstanding, none when the last was a stop.
pub proof fn lemma_playback_commands<T, A, C>(
    slot: Option<Session<T, A, C>>,
    cmds: Seq<PlaybackCommand<A, C>>,
    token: C,
)
    requires
        slot is Some,
    ensures
        ({
            let after = after_commands(slot, cmds);
            let playing = last_is_start(running_token(slot) is Some, cmds);
            &&& after is Some
            &&& after->0.transcript == slot->0.transcript
            &&& after->0.audio_path == slot->0.audio_path
            &&& (running_token(after) is Some) == playing
            &&& start_step(after, token).0 == if playing {
                Err::<(), SessionError>(SessionError::AlreadyPlaying)
            } else {
                Ok::<(), SessionError>(())
            }
            &&& live_playbacks(slot, cmds) == if playing {
                1int
            } else {
                0int
            }
        }),
    decreases cmds.len(),
{
    if cmds.len() > 0 {
        lemma_playback_commands(slot, cmds.drop_last(), token);
    }
}

} // verus!
