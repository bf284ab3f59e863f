use receipt::alignment::AlignmentSource;
use receipt::session::{
    clear_session, decode_text, install_alignment, install_session, load_transcript, ping,
    realign, start_playback, stop_playback, summarize, Session, SessionError,
};
use receipt::transcript::parse;

type Slot = Option<Session<&'static str, u32, u8>>;

#[test]
fn ping_answers_pong() {
    assert_eq!(ping(), "pong");
}

#[test]
fn utf8_first_then_shift_jis() {
    assert_eq!(decode_text("あいう".as_bytes()), "あいう");
    assert_eq!(decode_text(&[0x82, 0xA0, 0x82, 0xA2]), "あい");
    assert_eq!(decode_text(b"plain"), "plain");
    let t = load_transcript(&[0x82, 0xA0, 0x81, 0x41, 0x82, 0xA2, 0x81, 0x42]);
    let texts: Vec<&str> = t.phrases.iter().map(|p| p.text.as_str()).collect();
    assert_eq!(texts, vec!["あ、", "い。"]);
}

#[test]
fn summary_counts_phrases() {
    let t = parse("一、二。\n");
    let s = summarize(&t, 1234, "a.txt".into(), "a.wav".into(), AlignmentSource::Proportional);
    assert_eq!(s.phrase_count, 2);
    assert_eq!(s.audio_duration_ms, 1234);
    assert_eq!(s.transcript_path, "a.txt");
    assert_eq!(s.audio_path, "a.wav");
    assert_eq!(s.alignment_source, AlignmentSource::Proportional);
}

#[test]
fn commands_without_a_session_are_refused() {
    let mut slot: Slot = None;
    assert_eq!(start_playback(&mut slot, 1), Err(SessionError::NoSession));
    assert_eq!(stop_playback(&mut slot), Err(SessionError::NoSession));
    assert!(realign(&slot).is_err());
    assert_eq!(clear_session(&mut slot), None);
    assert!(!install_alignment(&mut slot, 9));
    assert!(slot.is_none());
    assert_eq!(SessionError::NoSession.message(), "no session loaded");
}

#[test]
fn start_stop_and_restart() {
    let mut slot: Slot = None;
    install_session(&mut slot, "transcript", 1, "a.wav".into());
    assert_eq!(start_playback(&mut slot, 7), Ok(()));
    assert_eq!(start_playback(&mut slot, 8), Err(SessionError::AlreadyPlaying));
    assert_eq!(SessionError::AlreadyPlaying.message(), "playback already running");
    assert_eq!(stop_playback(&mut slot), Ok(Some(7)));
    assert_eq!(stop_playback(&mut slot), Ok(None));
    assert_eq!(start_playback(&mut slot, 8), Ok(()));
    let (t, p) = realign(&slot).unwrap();
    assert_eq!((*t, p.as_str()), ("transcript", "a.wav"));
    assert!(install_alignment(&mut slot, 2));
    assert_eq!(slot.as_ref().unwrap().alignment, 2);
    assert_eq!(clear_session(&mut slot), Some(8));
    assert!(slot.is_none());
}

#[test]
fn new_timeline_while_playing_keeps_the_playback() {
    let mut slot: Slot = None;
    install_session(&mut slot, "transcript", 1, "a.wav".into());
    assert_eq!(start_playback(&mut slot, 3), Ok(()));
    assert!(install_alignment(&mut slot, 5));
    assert_eq!(start_playback(&mut slot, 4), Err(SessionError::AlreadyPlaying));
    assert_eq!(stop_playback(&mut slot), Ok(Some(3)));
    assert!(install_alignment(&mut slot, 6));
    assert_eq!(start_playback(&mut slot, 4), Ok(()));
    let s = slot.as_ref().unwrap();
    assert_eq!((s.transcript, s.alignment, s.audio_path.as_str()), ("transcript", 6, "a.wav"));
    assert_eq!(s.cancel, Some(4));
}
