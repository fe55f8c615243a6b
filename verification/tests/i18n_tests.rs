use nyado::i18n::{copy_loc, get_from_loc, key_name_at, I18n, I18nError, Localization, KEY_COUNT};

fn loc(prefix: &str, extra: &[(&str, &str)]) -> Localization {
    let texts: Vec<String> = (0..KEY_COUNT).map(|i| format!("{}{}", prefix, i)).collect();
    let extra = extra.iter().map(|(k, v)| (k.to_string(), v.to_string())).collect();
    Localization { texts, extra }
}

fn index_of(key: &str) -> usize {
    (0..KEY_COUNT).find(|&i| key_name_at(i) == key).unwrap()
}

#[test]
fn fixed_keys_are_distinct_and_known() {
    let mut names: Vec<&str> = (0..KEY_COUNT).map(key_name_at).collect();
    assert_eq!(names[0], "celebration_line1");
    assert_eq!(names[KEY_COUNT - 1], "all_done");
    names.sort();
    names.dedup();
    assert_eq!(names.len(), KEY_COUNT);
}

#[test]
fn lookup_fixed_then_extra() {
    let l = loc("en", &[("popup_esc_hint", "Esc to cancel")]);
    let i = index_of("all_done");
    assert_eq!(get_from_loc(&l, "all_done"), Some(format!("en{}", i).as_str()));
    assert_eq!(get_from_loc(&l, "popup_esc_hint"), Some("Esc to cancel"));
    assert_eq!(get_from_loc(&l, "nope"), None);
}

#[test]
fn fill_missing_takes_english() {
    let en = loc("en", &[("a", "A"), ("b", "B")]);
    let mut ru = loc("ru", &[("b", "Б")]);
    let i = index_of("title");
    ru.texts[i] = String::new();
    ru.fill_missing(&en);
    assert_eq!(ru.texts[i], format!("en{}", i));
    assert_eq!(ru.texts[0], "ru0");
    assert_eq!(get_from_loc(&ru, "a"), Some("A"));
    assert_eq!(get_from_loc(&ru, "b"), Some("Б"));
    assert_eq!(ru.extra.len(), 2);
}

#[test]
fn languages_ordered_english_first() {
    let langs = vec![
        ("ru".to_string(), loc("ru", &[])),
        ("en".to_string(), loc("old", &[])),
        ("de".to_string(), loc("de", &[])),
        ("en".to_string(), loc("en", &[])),
    ];
    let i18n = I18n::from_languages(langs).ok().unwrap();
    let codes: Vec<&str> = i18n.languages.iter().map(|(c, _)| c.as_str()).collect();
    assert_eq!(codes, vec!["en", "ru", "de"]);
    assert_eq!(i18n.current_code(), "en");
    assert_eq!(i18n.get("title"), format!("en{}", index_of("title")));
}

#[test]
fn english_is_required() {
    let r = I18n::from_languages(vec![("ru".to_string(), loc("ru", &[]))]);
    assert!(matches!(r, Err(I18nError::EnglishMissing)));
}

#[test]
fn switching_languages() {
    let langs = vec![("ru".to_string(), loc("ru", &[])), ("en".to_string(), loc("en", &[("only_en", "E")]))];
    let mut i18n = I18n::from_languages(langs).ok().unwrap();
    assert!(i18n.set_language_by_code("ru"));
    assert_eq!(i18n.current_code(), "ru");
    assert_eq!(i18n.get("title"), format!("ru{}", index_of("title")));
    assert_eq!(i18n.get("only_en"), "E");
    assert_eq!(i18n.get("missing_key"), "???");
    assert!(!i18n.set_language_by_code("fr"));
    assert_eq!(i18n.current_code(), "ru");
    i18n.toggle_language();
    assert_eq!(i18n.current_code(), "en");
    i18n.toggle_language();
    assert_eq!(i18n.current_code(), "ru");
}

#[test]
fn copy_is_equal() {
    let l = loc("x", &[("k", "v")]);
    let c = copy_loc(&l);
    assert_eq!(c.texts, l.texts);
    assert_eq!(c.extra, l.extra);
}

#[test]
fn languages_follow_the_usual_order() {
    let langs = vec![
        ("es".to_string(), loc("es", &[])),
        ("fr".to_string(), loc("fr", &[])),
        ("ja".to_string(), loc("ja", &[])),
        ("zh".to_string(), loc("zh", &[])),
        ("de".to_string(), loc("de", &[])),
        ("ru".to_string(), loc("ru", &[])),
        ("en".to_string(), loc("en", &[])),
    ];
    let mut i18n = I18n::from_languages(langs).ok().unwrap();
    let codes: Vec<&str> = i18n.languages.iter().map(|(c, _)| c.as_str()).collect();
    assert_eq!(codes, vec!["en", "ru", "zh", "ja", "es", "de", "fr"]);
    assert_eq!(i18n.current_code(), "en");
    i18n.toggle_language();
    assert_eq!(i18n.current_code(), "ru");
    i18n.toggle_language();
    assert_eq!(i18n.current_code(), "zh");
    i18n.toggle_language();
    assert_eq!(i18n.current_code(), "ja");
    i18n.toggle_language();
    assert_eq!(i18n.current_code(), "es");
}
