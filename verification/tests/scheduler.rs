use receipt::alignment::{proportional_alignment, AlignedPhrase, Alignment, AlignmentSource};
use receipt::scheduler::Scheduler;
use receipt::transcript::parse;

fn timeline(spans: &[(usize, u64, u64)]) -> Alignment {
    Alignment {
        audio_duration_ms: 10_000,
        phrases: spans
            .iter()
            .map(|&(i, s, e)| AlignedPhrase {
                phrase_index: i,
                start_ms: s,
                end_ms: e,
                char_start_ms: vec![],
            })
            .collect(),
        source: AlignmentSource::Proportional,
    }
}

#[test]
fn phrases_start_when_position_reaches_them() {
    let t = parse("一。二。三。\n");
    let a = timeline(&[(0, 0, 100), (1, 100, 250), (2, 250, 400)]);
    let mut s = Scheduler::new();

    let tick = s.tick(&t, &a, 0, 400, false);
    assert_eq!(tick.cues.len(), 1);
    assert_eq!(tick.cues[0].aligned_index, 0);
    assert_eq!(tick.cues[0].phrase_index, 0);
    assert_eq!(tick.cues[0].ended, None);
    assert_eq!(tick.cues[0].duration_ms, 100);
    assert_eq!(tick.status, None);
    assert!(!tick.done);

    let tick = s.tick(&t, &a, 50, 400, false);
    assert!(tick.cues.is_empty());

    // Two phrases are due at once: both start, in order, each ending the
    // one before it.
    let tick = s.tick(&t, &a, 260, 400, false);
    assert_eq!(tick.cues.len(), 2);
    assert_eq!(tick.cues[0].aligned_index, 1);
    assert_eq!(tick.cues[0].ended, Some(0));
    assert_eq!(tick.cues[1].aligned_index, 2);
    assert_eq!(tick.cues[1].ended, Some(1));
    assert_eq!(tick.cues[1].transcript_position, 2);
    assert_eq!(tick.status, Some(260));
    assert!(!tick.done);

    let tick = s.tick(&t, &a, 400, 400, false);
    assert!(tick.cues.is_empty());
    assert_eq!(tick.status, Some(400));
    assert!(tick.done);
    assert_eq!(s.finish(), Some(2));
}

#[test]
fn status_is_throttled_to_100ms() {
    let t = parse("");
    let a = timeline(&[]);
    let mut s = Scheduler::new();
    assert_eq!(s.tick(&t, &a, 99, 1000, false).status, None);
    assert_eq!(s.tick(&t, &a, 100, 1000, false).status, Some(100));
    assert_eq!(s.tick(&t, &a, 150, 1000, false).status, None);
    assert_eq!(s.tick(&t, &a, 199, 1000, false).status, None);
    assert_eq!(s.tick(&t, &a, 200, 1000, false).status, Some(200));
    // A position behind the last report never triggers one.
    assert_eq!(s.tick(&t, &a, 10, 1000, false).status, None);
    assert_eq!(s.finish(), None);
}

#[test]
fn playback_ends_when_audio_finishes() {
    let t = parse("");
    let a = timeline(&[]);
    let mut s = Scheduler::new();
    assert!(s.tick(&t, &a, 10, 1000, true).done);
    assert!(!s.tick(&t, &a, 10, 1000, false).done);
}

#[test]
fn every_phrase_starts_once_in_order() {
    let t = parse("あ、いう、えおか。きくけこさ。\n");
    let a = proportional_alignment(&t, 3000);
    let mut s = Scheduler::new();
    let mut started = Vec::new();
    let mut pos = 0;
    while pos <= 3000 {
        for c in s.tick(&t, &a, pos, 3000, false).cues {
            started.push(c.aligned_index);
        }
        pos += 16;
    }
    assert_eq!(started, (0..a.phrases.len()).collect::<Vec<_>>());
}
