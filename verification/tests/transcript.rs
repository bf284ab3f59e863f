use receipt::transcript::{parse, Speaker};

#[test]
fn parses_single_speaker_with_interviewer_marker() {
    let input = "──質問ですか。\n\n答えです、はい。\n";
    let t = parse(input);
    assert_eq!(t.phrases.len(), 3);
    assert_eq!(t.phrases[0].speaker, Speaker::Interviewer);
    assert_eq!(t.phrases[0].text, "質問ですか。");
    assert_eq!(t.phrases[1].speaker, Speaker::Anonymous);
    assert_eq!(t.phrases[1].text, "答えです、");
    assert!(t.phrases[1].paragraph_start);
    assert_eq!(t.phrases[2].text, "はい。");
    assert!(!t.phrases[2].paragraph_start);
}

#[test]
fn parses_multi_speaker_labels() {
    let input = "大塚さん：\nあのね、そうだよ。\n\n岩田さん：\n違うと思う。\n";
    let t = parse(input);
    assert_eq!(t.phrases.len(), 3);
    assert_eq!(t.phrases[0].speaker, Speaker::Named { name: "大塚さん".into() });
    assert_eq!(t.phrases[0].text, "あのね、");
    assert_eq!(t.phrases[1].text, "そうだよ。");
    assert_eq!(t.phrases[2].speaker, Speaker::Named { name: "岩田さん".into() });
    assert_eq!(t.phrases[2].text, "違うと思う。");
}

#[test]
fn ignores_blank_lines_and_full_width_indents() {
    let input = "　最初の段落です。\n\n　\n　次の段落、続きです。\n";
    let t = parse(input);
    assert_eq!(t.phrases.len(), 3);
    assert_eq!(t.phrases[0].text, "最初の段落です。");
    assert_eq!(t.phrases[1].text, "次の段落、");
    assert_eq!(t.phrases[2].text, "続きです。");
}

#[test]
fn standalone_name_without_colon_is_a_speaker_label() {
    // A bare `大塚さん` (no colon) on its own line, between blank lines, is
    // still a label.
    let input = "大塚さん：\nまず最初の発言です。\n\n大塚さん\nいや、次の発言です。\n";
    let t = parse(input);
    assert_eq!(t.phrases.len(), 3);
    assert_eq!(t.phrases[0].speaker, Speaker::Named { name: "大塚さん".into() });
    assert_eq!(t.phrases[0].text, "まず最初の発言です。");
    assert_eq!(t.phrases[1].speaker, Speaker::Named { name: "大塚さん".into() });
    assert_eq!(t.phrases[1].text, "いや、");
    assert!(t.phrases[1].paragraph_start);
    assert_eq!(t.phrases[2].text, "次の発言です。");
    assert!(!t.phrases[2].paragraph_start);
}

#[test]
fn colon_in_content_is_not_a_speaker_label() {
    // A line with content after the colon is regular text, not a label.
    let input = "時刻は10:30でした。\n";
    let t = parse(input);
    assert_eq!(t.phrases.len(), 1);
    assert_eq!(t.phrases[0].speaker, Speaker::Anonymous);
    assert_eq!(t.phrases[0].text, "時刻は10:30でした。");
}

#[test]
fn phrases_are_numbered_in_order_and_well_formed() {
    let input = "大塚さん：\n　あのね、\nそうだよ。　ほんと\n\n──はい、どうぞ。\n";
    let t = parse(input);
    for (i, p) in t.phrases.iter().enumerate() {
        assert_eq!(p.index, i);
        assert!(!p.text.is_empty());
        assert_eq!(p.text.trim(), p.text);
        let n = p.text.chars().count();
        for (j, c) in p.text.chars().enumerate() {
            if j + 1 < n {
                assert!(c != '、' && c != '。');
            }
        }
    }
    assert!(t.phrases[0].paragraph_start);
    let texts: Vec<&str> = t.phrases.iter().map(|p| p.text.as_str()).collect();
    assert_eq!(texts, vec!["あのね、", "そうだよ。", "ほんと", "はい、", "どうぞ。"]);
    assert_eq!(t.phrases[3].speaker, Speaker::Interviewer);
    assert!(t.phrases[3].paragraph_start);
    assert_eq!(t.phrases[2].speaker, Speaker::Named { name: "大塚さん".into() });
}

#[test]
fn crlf_lines_and_empty_input() {
    assert_eq!(parse("").phrases.len(), 0);
    assert_eq!(parse("\n\n").phrases.len(), 0);
    let t = parse("一行目、\r\n二行目。\r\n");
    let texts: Vec<&str> = t.phrases.iter().map(|p| p.text.as_str()).collect();
    assert_eq!(texts, vec!["一行目、", "二行目。"]);
    assert!(t.phrases[0].paragraph_start);
    assert!(!t.phrases[1].paragraph_start);
}

#[test]
fn long_colon_label_is_content() {
    // A name of more than 20 characters before the colon is not a label.
    let input = "あいうえおかきくけこさしすせそたちつてとな：\n";
    let t = parse(input);
    assert_eq!(t.phrases.len(), 1);
    assert_eq!(t.phrases[0].speaker, Speaker::Anonymous);
}

#[test]
fn lines_of_a_paragraph_join_with_a_space() {
    let t = parse("一行目の\n続き、そして\n終わり。\n");
    let texts: Vec<&str> = t.phrases.iter().map(|p| p.text.as_str()).collect();
    assert_eq!(texts, vec!["一行目の 続き、", "そして 終わり。"]);
    assert!(t.phrases.iter().all(|p| !p.text.contains('\n')));
}

#[test]
fn speaker_persists_until_next_label() {
    let t = parse("大塚さん：\n最初。\n\n次の段落。\n──質問。\n\n答え。\n");
    let speakers: Vec<Speaker> = t.phrases.iter().map(|p| p.speaker.clone()).collect();
    let otsuka = Speaker::Named { name: "大塚さん".into() };
    assert_eq!(
        speakers,
        vec![otsuka.clone(), otsuka.clone(), Speaker::Interviewer, otsuka]
    );
}

#[test]
fn preview_truncates_with_ellipsis() {
    assert_eq!(receipt::text::truncate("あいうえお", 3), "あいう…");
    assert_eq!(receipt::text::truncate("あいう", 3), "あいう");
    assert_eq!(receipt::text::truncate("", 0), "");
}

#[test]
fn interviewer_marker_wins_over_label_shape() {
    // Short and ending in an honorific, but it starts with the interviewer
    // marker: an interviewer turn, not a speaker label.
    let t = parse("──そうですか、田中さん\n");
    assert_eq!(t.phrases.len(), 2);
    assert_eq!(t.phrases[0].speaker, Speaker::Interviewer);
    assert_eq!(t.phrases[0].text, "そうですか、");
    assert!(t.phrases[0].paragraph_start);
    assert_eq!(t.phrases[1].speaker, Speaker::Interviewer);
    assert_eq!(t.phrases[1].text, "田中さん");
    // The same line with a colon-label shape is an interviewer turn too.
    let t = parse("──田中さん：\n");
    assert_eq!(t.phrases.len(), 1);
    assert_eq!(t.phrases[0].speaker, Speaker::Interviewer);
    assert_eq!(t.phrases[0].text, "田中さん：");
}
