use receipt::alignment::{
    count_content_chars, greedy_align, guess_mime, linear_char_timings, mime_for_extension,
    proportional_alignment, whisper_alignment, AlignmentSource, TimedWord,
};
use receipt::transcript::parse;

fn word(w: &str, start_ms: u64, end_ms: u64) -> TimedWord {
    TimedWord { word: w.to_string(), start_ms, end_ms }
}

#[test]
fn linear_timings_exact_values() {
    assert_eq!(linear_char_timings(1000, 4), vec![0, 250, 500, 750]);
    assert_eq!(linear_char_timings(10, 3), vec![0, 3, 6]);
    assert_eq!(linear_char_timings(500, 0), Vec::<u32>::new());
    assert_eq!(linear_char_timings(0, 3), vec![0, 0, 0]);
}

#[test]
fn linear_timings_cap_at_u32_max() {
    let v = linear_char_timings(u64::MAX, 2);
    assert_eq!(v, vec![0, u32::MAX]);
}

#[test]
fn proportional_split_by_character_count() {
    let t = parse("あいう、えお。\n");
    let a = proportional_alignment(&t, 7000);
    assert_eq!(a.source, AlignmentSource::Proportional);
    assert_eq!(a.audio_duration_ms, 7000);
    assert_eq!(a.phrases.len(), 2);
    assert_eq!((a.phrases[0].start_ms, a.phrases[0].end_ms), (0, 4000));
    assert_eq!((a.phrases[1].start_ms, a.phrases[1].end_ms), (4000, 7000));
    assert_eq!(a.phrases[0].phrase_index, 0);
    assert_eq!(a.phrases[1].phrase_index, 1);
    assert_eq!(a.phrases[0].char_start_ms, vec![0, 1000, 2000, 3000]);
    assert_eq!(a.phrases[1].char_start_ms, vec![0, 1000, 2000]);
}

#[test]
fn proportional_timeline_is_contiguous_and_within_audio() {
    let t = parse("一、二三、四五六、七八九十。\n\n──はい。\n");
    let a = proportional_alignment(&t, 1000);
    assert_eq!(a.phrases.len(), t.phrases.len());
    assert_eq!(a.phrases[0].start_ms, 0);
    for w in a.phrases.windows(2) {
        assert_eq!(w[0].end_ms, w[1].start_ms);
    }
    for (p, ap) in t.phrases.iter().zip(a.phrases.iter()) {
        assert!(ap.start_ms <= ap.end_ms && ap.end_ms <= 1000);
        assert_eq!(ap.char_start_ms.len(), p.text.chars().count());
    }
    // weights 2, 3, 4, 5, 3 of 17: 117, 176, 235, 294, 176 ms
    let ends: Vec<u64> = a.phrases.iter().map(|p| p.end_ms).collect();
    assert_eq!(ends, vec![117, 293, 528, 822, 998]);
}

#[test]
fn proportional_of_empty_transcript() {
    let t = parse("");
    let a = proportional_alignment(&t, 5000);
    assert!(a.phrases.is_empty());
    assert_eq!(a.audio_duration_ms, 5000);
}

#[test]
fn content_chars_skip_punctuation_and_space() {
    assert_eq!(count_content_chars("あ、い。 (う)「え」！？.,\t　"), 4);
    assert_eq!(count_content_chars(""), 0);
    assert_eq!(count_content_chars("hello world"), 10);
}

#[test]
fn greedy_assigns_word_spans() {
    let t = parse("こんにちは、元気ですか。\n");
    let words = vec![word("こんにちは", 0, 500), word("元気", 600, 800), word("ですか", 800, 1200)];
    let out = greedy_align(&t, &words);
    assert_eq!(out.len(), 2);
    assert_eq!((out[0].start_ms, out[0].end_ms), (0, 500));
    assert_eq!((out[1].start_ms, out[1].end_ms), (600, 1200));
    assert_eq!(out[0].char_start_ms, vec![0, 83, 166, 250, 333, 416]);
    assert_eq!(out[1].char_start_ms, vec![0, 100, 200, 300, 400, 500]);
}

#[test]
fn greedy_interpolates_when_words_run_out() {
    let t = parse("一二三。四五六。七。\n");
    let words = vec![word("一二三四五六", 100, 900)];
    let out = greedy_align(&t, &words);
    assert_eq!(out.len(), 3);
    assert_eq!((out[0].start_ms, out[0].end_ms), (100, 900));
    // 800 ms over 6 counted characters: 133 ms each
    assert_eq!((out[1].start_ms, out[1].end_ms), (900, 1299));
    assert_eq!((out[2].start_ms, out[2].end_ms), (1299, 1432));
    assert_eq!(out[1].char_start_ms, vec![0, 99, 199, 299]);
}

#[test]
fn greedy_gives_unmatched_phrase_its_own_span() {
    let t = parse("あい、うえ。\n");
    let words = vec![word("あい", 0, 500)];
    let out = greedy_align(&t, &words);
    assert_eq!(out.len(), 2);
    assert_eq!((out[0].start_ms, out[0].end_ms), (0, 500));
    assert_eq!((out[1].start_ms, out[1].end_ms), (500, 1000));
    assert!(out[1].start_ms >= out[0].end_ms && out[1].end_ms > out[1].start_ms);
}

#[test]
fn greedy_without_words_interpolates_from_zero() {
    let t = parse("ある。\n");
    let out = greedy_align(&t, &[]);
    assert_eq!(out.len(), 1);
    assert_eq!((out[0].start_ms, out[0].end_ms), (0, 2));
}

#[test]
fn greedy_timeline_in_order_for_ordered_words() {
    let t = parse("あい、うえお、か。きくけこ。\n");
    let words = vec![
        word("あ", 0, 100),
        word("い", 100, 150),
        word("うえ", 200, 300),
        word("お", 300, 400),
        word("か", 450, 500),
    ];
    let a = whisper_alignment(&t, &words, 2000);
    assert_eq!(a.source, AlignmentSource::OpenaiWhisper);
    assert_eq!(a.audio_duration_ms, 2000);
    for p in &a.phrases {
        assert!(p.start_ms <= p.end_ms);
    }
    for w in a.phrases.windows(2) {
        assert!(w[0].end_ms <= w[1].start_ms);
    }
    assert_eq!((a.phrases[0].start_ms, a.phrases[0].end_ms), (0, 150));
    assert_eq!((a.phrases[1].start_ms, a.phrases[1].end_ms), (200, 400));
    assert_eq!((a.phrases[2].start_ms, a.phrases[2].end_ms), (450, 500));
    // 500 ms over 6 counted characters: 83 ms each, 4 characters
    assert_eq!((a.phrases[3].start_ms, a.phrases[3].end_ms), (500, 832));
}

#[test]
fn mime_from_extension() {
    assert_eq!(guess_mime("/tmp/talk.MP3"), "audio/mpeg");
    assert_eq!(guess_mime("a/b.wav"), "audio/wav");
    assert_eq!(guess_mime("x.Flac"), "audio/flac");
    assert_eq!(guess_mime("x.oga"), "audio/ogg");
    assert_eq!(guess_mime("x.m4a"), "audio/mp4");
    assert_eq!(guess_mime("x.webm"), "audio/webm");
    assert_eq!(guess_mime("noext"), "application/octet-stream");
    assert_eq!(guess_mime(".hidden"), "application/octet-stream");
    assert_eq!(guess_mime("x.txt"), "application/octet-stream");
    assert_eq!(mime_for_extension(Some("OGG")), "audio/ogg");
    assert_eq!(mime_for_extension(None), "application/octet-stream");
}
