use receipt::settings::Settings;

fn with_key(k: Option<&str>) -> Settings {
    Settings { openai_api_key: k.map(|s| s.to_string()), printer_offset_ms: Some(40) }
}

#[test]
fn stored_key_wins_over_environment() {
    assert_eq!(with_key(Some("sk-a")).resolve_api_key(Some("sk-env".into())), Some("sk-a".into()));
    assert_eq!(with_key(Some("")).resolve_api_key(Some("sk-env".into())), Some("sk-env".into()));
    assert_eq!(with_key(None).resolve_api_key(Some("sk-env".into())), Some("sk-env".into()));
    assert_eq!(with_key(None).resolve_api_key(Some("".into())), None);
    assert_eq!(with_key(None).resolve_api_key(None), None);
}

#[test]
fn key_status_reports_the_source() {
    let s = with_key(Some("sk-a")).api_key_status(Some("sk-env".into()));
    assert!(s.configured);
    assert_eq!(s.source, "settings");
    let s = with_key(Some("")).api_key_status(Some("sk-env".into()));
    assert!(s.configured);
    assert_eq!(s.source, "env");
    let s = with_key(None).api_key_status(None);
    assert!(!s.configured);
    assert_eq!(s.source, "none");
}

#[test]
fn setting_a_key_trims_it_and_blank_keys_are_refused() {
    let mut s = with_key(None);
    assert_eq!(s.set_api_key("  sk-123 \n"), Ok(()));
    assert_eq!(s.openai_api_key.as_deref(), Some("sk-123"));
    assert_eq!(s.printer_offset_ms, Some(40));
    assert_eq!(s.set_api_key(" \t "), Err("empty key".to_string()));
    assert_eq!(s.openai_api_key.as_deref(), Some("sk-123"));
    s.clear_api_key();
    assert_eq!(s.openai_api_key, None);
    assert_eq!(s.resolve_api_key(Some("sk-env".into())), Some("sk-env".into()));
}

#[test]
fn load_falls_back_to_defaults() {
    let d = Settings::load(None);
    assert_eq!(d.openai_api_key, None);
    assert_eq!(d.printer_offset_ms, None);
    let s = Settings::load(Some(with_key(Some("k"))));
    assert_eq!(s.openai_api_key.as_deref(), Some("k"));
    assert_eq!(s.printer_offset_ms, Some(40));
}
