use rusty_qr::history::{add_entry, date_string, days_to_ymd, has_free_id, is_leap, remove_entry, LibraryEntry, SavedTemplateState};
use rusty_qr::lang::{choose_lang_file, detect_locale, locale_from_value, parse_lang, parse_locale, wanted_stem_exec, Lang, TomlItem};
use rusty_qr::qr::types::QrForm;
use rusty_qr::theme::{AppTheme, Tab};

fn entry(id: u64) -> LibraryEntry {
    LibraryEntry {
        id,
        name: format!("e{id}"),
        date: String::new(),
        form: QrForm::default(),
        template: SavedTemplateState::default(),
    }
}

#[test]
fn dates_are_formatted_in_utc() {
    assert_eq!(date_string(0), "1970-01-01 00:00");
    assert_eq!(date_string(951_782_400 + 3_600 * 13 + 60 * 7), "2000-02-29 13:07");
    assert_eq!(date_string(1_704_067_199), "2023-12-31 23:59");
    assert_eq!(days_to_ymd(365), (1971, 1, 1));
    assert!(is_leap(2000));
    assert!(!is_leap(1900));
    assert!(is_leap(2024));
}

#[test]
fn new_entries_go_first_with_a_fresh_id() {
    let mut es = vec![entry(3), entry(7), entry(5)];
    add_entry(&mut es, "Nouveau".to_string(), QrForm::default(), SavedTemplateState::default(), "2024-01-01  10:00".to_string());
    assert_eq!(es.len(), 4);
    assert_eq!(es[0].id, 8);
    assert_eq!(es[0].name, "Nouveau");
    assert_eq!(es[0].date, "2024-01-01  10:00");
    assert_eq!(es[1].id, 3);
    let mut empty: Vec<LibraryEntry> = Vec::new();
    add_entry(&mut empty, "a".to_string(), QrForm::default(), SavedTemplateState::default(), String::new());
    assert_eq!(empty[0].id, 1);
}

#[test]
fn removing_keeps_the_others_in_order() {
    let mut es = vec![entry(1), entry(2), entry(3), entry(2)];
    remove_entry(&mut es, 2);
    let ids: Vec<u64> = es.iter().map(|e| e.id).collect();
    assert_eq!(ids, vec![1, 3]);
    remove_entry(&mut es, 9);
    assert_eq!(es.len(), 2);
}

#[test]
fn removing_the_new_entry_restores_the_library() {
    let mut es = vec![entry(4), entry(2)];
    add_entry(&mut es, "x".to_string(), QrForm::default(), SavedTemplateState::default(), String::new());
    let id = es[0].id;
    remove_entry(&mut es, id);
    let ids: Vec<u64> = es.iter().map(|e| e.id).collect();
    assert_eq!(ids, vec![4, 2]);
}

fn table() -> Vec<(String, TomlItem)> {
    vec![
        ("title".to_string(), TomlItem::Str("RustyQR".to_string())),
        (
            "theme".to_string(),
            TomlItem::Table(vec![
                ("dark".to_string(), TomlItem::Str("Sombre".to_string())),
                ("size".to_string(), TomlItem::Other("3".to_string())),
            ]),
        ),
    ]
}

#[test]
fn translations_are_flattened_with_dotted_keys() {
    let l = Lang::from_table(&table());
    assert_eq!(l.t("title"), "RustyQR");
    assert_eq!(l.t("theme.dark"), "Sombre");
    assert_eq!(l.t("theme.size"), "3");
    assert_eq!(l.t("missing.key"), "missing.key");
    let mut l2 = Lang::new();
    l2.insert("k".to_string(), "v1".to_string());
    l2.insert("k".to_string(), "v2".to_string());
    assert_eq!(l2.t("k"), "v2");
}

#[test]
fn language_files_are_read_from_their_toml_text() {
    let text = "title = \"RustyQR\"\n\n[theme]\ndark = \"Sombre\"\nsize = 3\n\n[theme.extra]\non = true\n";
    let l = parse_lang(text).expect("valid TOML");
    assert_eq!(l.t("title"), "RustyQR");
    assert_eq!(l.t("theme.dark"), "Sombre");
    assert_eq!(l.t("theme.size"), "3");
    assert_eq!(l.t("theme.extra.on"), "true");
    assert_eq!(l.t("theme"), "theme");
    let empty = parse_lang("").expect("empty TOML");
    assert_eq!(empty.t("title"), "title");
}

#[test]
fn invalid_language_files_are_refused() {
    assert!(parse_lang("title = ").is_err());
    assert!(parse_lang("[theme\ndark = \"x\"").is_err());
    assert!(parse_lang("a = 1\na = 2\n").is_err());
}

#[test]
fn theme_tooltips_and_cycle() {
    let l = Lang::from_table(&table());
    assert_eq!(AppTheme::Dark.tooltip(&l), "Sombre");
    assert_eq!(AppTheme::Light.tooltip(&l), "theme.light");
    assert_eq!(AppTheme::System.cycle(), AppTheme::Light);
    assert_eq!(AppTheme::Light.cycle(), AppTheme::Dark);
    assert_eq!(AppTheme::Dark.cycle(), AppTheme::System);
    assert_eq!(AppTheme::Light.icon(), "\u{2600}");
    assert_eq!(AppTheme::default(), AppTheme::System);
    assert!(Tab::Creator != Tab::Export);
}

#[test]
fn locales_are_split() {
    let (l, c) = parse_locale("fr-CH");
    assert_eq!((l.as_str(), c.as_str()), ("fr", "CH"));
    let (l, c) = parse_locale("de");
    assert_eq!((l.as_str(), c.as_str()), ("de", "US"));
    let (l, c) = parse_locale("zh_Hant_TW");
    assert_eq!((l.as_str(), c.as_str()), ("zh", "Hant_TW"));
    assert_eq!(locale_from_value(" fr_FR.UTF-8 \n"), Some("fr_FR".to_string()));
    assert_eq!(locale_from_value("C"), None);
    assert_eq!(locale_from_value("POSIX"), None);
    assert_eq!(locale_from_value("   "), None);
    assert_eq!(detect_locale(&[None, Some("C".to_string()), Some("it_IT.UTF-8".to_string())]), "it_IT");
    assert_eq!(detect_locale(&[None, None, None, None]), "en_US");
}

fn stems(v: &[&str]) -> Vec<String> {
    v.iter().map(|s| s.to_string()).collect()
}

#[test]
fn language_file_choice() {
    let s = stems(&["EN_en.default", "FR_fr", "ch_FR"]);
    assert_eq!(choose_lang_file(&s, "fr", "CH"), Some(2));
    assert_eq!(choose_lang_file(&s, "fr", "BE"), Some(1));
    assert_eq!(choose_lang_file(&s, "it", "IT"), Some(0));
    let s = stems(&["DE_de", "AT_de"]);
    assert_eq!(choose_lang_file(&s, "es", "ES"), Some(0));
    assert_eq!(choose_lang_file(&[], "es", "ES"), None);
    let s = stems(&["CH_fr.default", "BE_fr.v2"]);
    assert_eq!(choose_lang_file(&s, "fr", "FR"), Some(1));
}

#[test]
fn identifiers_run_out_only_at_the_top() {
    assert!(has_free_id(&[]));
    assert!(has_free_id(&[entry(3), entry(u64::MAX - 1)]));
    assert!(!has_free_id(&[entry(2), entry(u64::MAX)]));
}

#[test]
fn wanted_stem_is_country_then_language() {
    assert_eq!(wanted_stem_exec("FR", "ch"), "CH_fr");
    assert_eq!(wanted_stem_exec("de", "AT"), "AT_de");
}

#[test]
fn locale_values_lose_unicode_white_space() {
    assert_eq!(locale_from_value("\u{3000}de_CH.UTF-8\u{a0}\t"), Some("de_CH".to_string()));
    assert_eq!(locale_from_value("\u{2028}\u{85}"), None);
}
