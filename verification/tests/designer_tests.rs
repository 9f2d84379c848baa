use rusty_qr::card::{CardConfig, CardLayout};
use rusty_qr::designer::{
    change_layout, extra_remote_templates, is_offline_error, keep_color_state, keep_field_state, preview_text, profile_index, restore_colors,
    restore_fields, restored_template_index, selected_template_label, selected_template_svg, selection_after_removal,
    template_source, template_state, TemplateSource,
};
use rusty_qr::history::{SavedColor, SavedField, SavedTemplateState};
use rusty_qr::template::{BuiltinTemplate, RemoteTemplate, TemplateColor, TemplateField};

fn builtins() -> Vec<BuiltinTemplate> {
    vec![
        BuiltinTemplate { id: "modern", name: "Moderne", description: "a", svg: "<svg id='m'/>" },
        BuiltinTemplate { id: "classic", name: "Classique", description: "b", svg: "<svg id='c'/>" },
    ]
}

fn remotes() -> Vec<RemoteTemplate> {
    vec![
        RemoteTemplate {
            id: "r1".to_string(),
            name: "Distant".to_string(),
            description: String::new(),
            file: "r1.svg".to_string(),
            svg: Some("<svg id='r'/>".to_string()),
        },
        RemoteTemplate {
            id: "r2".to_string(),
            name: "Pas encore".to_string(),
            description: String::new(),
            file: "r2.svg".to_string(),
            svg: None,
        },
    ]
}

fn field(var: &str, value: &str, visible: bool) -> TemplateField {
    TemplateField {
        var: var.to_string(),
        label: format!("label {var}"),
        default: format!("default {var}"),
        value: value.to_string(),
        visible,
    }
}

fn color(var: &str, value: [u8; 3]) -> TemplateColor {
    TemplateColor { var: var.to_string(), label: var.to_string(), default: [1, 2, 3], value }
}

#[test]
fn selection_index_maps_to_sources() {
    assert_eq!(template_source(0, 2), TemplateSource::NoTemplate);
    assert_eq!(template_source(1, 2), TemplateSource::Builtin(0));
    assert_eq!(template_source(2, 2), TemplateSource::Builtin(1));
    assert_eq!(template_source(3, 2), TemplateSource::Custom);
    assert_eq!(template_source(4, 2), TemplateSource::Remote(0));
    assert_eq!(template_source(6, 2), TemplateSource::Remote(2));
}

#[test]
fn selected_svg_for_each_source() {
    let b = builtins();
    let r = remotes();
    let custom = Some("<svg id='x'/>".to_string());
    assert_eq!(selected_template_svg(0, &b, &custom, &r), None);
    assert_eq!(selected_template_svg(2, &b, &custom, &r).as_deref(), Some("<svg id='c'/>"));
    assert_eq!(selected_template_svg(3, &b, &custom, &r).as_deref(), Some("<svg id='x'/>"));
    assert_eq!(selected_template_svg(3, &b, &None, &r), None);
    assert_eq!(selected_template_svg(4, &b, &custom, &r).as_deref(), Some("<svg id='r'/>"));
    assert_eq!(selected_template_svg(5, &b, &custom, &r), None);
    assert_eq!(selected_template_svg(9, &b, &custom, &r), None);
}

#[test]
fn selected_label_for_each_source() {
    let b = builtins();
    let r = remotes();
    assert_eq!(selected_template_label(0, &b, &r), "Aucun");
    assert_eq!(selected_template_label(1, &b, &r), "Moderne");
    assert_eq!(selected_template_label(3, &b, &r), "Personnalisé");
    assert_eq!(selected_template_label(5, &b, &r), "Pas encore");
    assert_eq!(selected_template_label(8, &b, &r), "");
}

#[test]
fn restoring_a_saved_template_selection() {
    let b = builtins();
    let mut state = SavedTemplateState::default();
    assert_eq!(restored_template_index(&state, &b), 0);
    state.custom_svg = Some("<svg/>".to_string());
    assert_eq!(restored_template_index(&state, &b), 3);
    state.builtin_id = Some("classic".to_string());
    assert_eq!(restored_template_index(&state, &b), 2);
    state.builtin_id = Some("gone".to_string());
    assert_eq!(restored_template_index(&state, &b), 0);
}

#[test]
fn saved_field_values_are_restored_by_variable() {
    let detected = vec![field("F0", "", true), field("F1", "", true), field("F2", "", true)];
    let saved = vec![
        SavedField { var: "F1".to_string(), value: "Alice".to_string(), visible: false },
        SavedField { var: "F1".to_string(), value: "Bob".to_string(), visible: true },
        SavedField { var: "F9".to_string(), value: "x".to_string(), visible: true },
    ];
    let r = restore_fields(detected, &saved);
    assert_eq!(r.len(), 3);
    assert_eq!(r[0].value, "");
    assert!(r[0].visible);
    assert_eq!(r[1].value, "Alice");
    assert!(!r[1].visible);
    assert_eq!(r[1].label, "label F1");
    assert_eq!(r[1].default, "default F1");
    assert_eq!(r[2].value, "");
}

#[test]
fn field_state_survives_a_new_detection() {
    let previous = vec![field("F0", "Titre", false), field("F3", "Pied", true)];
    let detected = vec![field("F3", "", true), field("F4", "", true)];
    let r = keep_field_state(detected, &previous);
    assert_eq!(r[0].var, "F3");
    assert_eq!(r[0].value, "Pied");
    assert!(r[0].visible);
    assert_eq!(r[1].value, "");
}

#[test]
fn colours_are_restored_and_kept_by_variable() {
    let detected = vec![color("C0", [1, 2, 3]), color("C1", [1, 2, 3])];
    let saved = vec![SavedColor { var: "C1".to_string(), value: [200, 100, 50] }];
    let r = restore_colors(detected, &saved);
    assert_eq!(r[0].value, [1, 2, 3]);
    assert_eq!(r[1].value, [200, 100, 50]);
    assert_eq!(r[1].default, [1, 2, 3]);

    let previous = vec![color("C0", [9, 9, 9])];
    let r2 = keep_color_state(vec![color("C0", [0, 0, 0]), color("C2", [4, 4, 4])], &previous);
    assert_eq!(r2[0].value, [9, 9, 9]);
    assert_eq!(r2[1].value, [4, 4, 4]);
}

#[test]
fn layout_change_keeps_texts_by_position() {
    let mut card = CardConfig::new(CardLayout::BusinessCard);
    card.fields = vec!["Nom".into(), "Poste".into(), "Tel".into(), "Mail".into(), "Web".into()];
    card.bg_color = [0, 0, 0];
    change_layout(&mut card, CardLayout::Label);
    assert!(card.layout == CardLayout::Label);
    assert_eq!(card.fields, vec!["Nom".to_string(), "Poste".to_string()]);
    assert_eq!(card.bg_color, [255, 255, 255]);
    assert_eq!(card.text_color, [30, 30, 30]);
    assert_eq!(card.accent_color, [50, 100, 200]);

    change_layout(&mut card, CardLayout::BusinessCard);
    assert_eq!(card.fields.len(), 5);
    assert_eq!(card.fields[1], "Poste");
    assert_eq!(card.fields[4], "");
}

#[test]
fn preview_is_cut_after_sixty_characters() {
    assert_eq!(preview_text("court"), "court");
    let exact: String = "é".repeat(60);
    assert_eq!(preview_text(&exact), exact);
    let long: String = "ab".repeat(40);
    let p = preview_text(&long);
    assert_eq!(p.chars().count(), 61);
    assert!(p.ends_with('…'));
    assert!(p.starts_with("abab"));
}

#[test]
fn offline_errors_are_recognised() {
    assert!(is_offline_error("Dns failed: no such host"));
    assert!(is_offline_error("Connection REFUSED"));
    assert!(is_offline_error("operation TimeOut"));
    assert!(is_offline_error("Network is unreachable"));
    assert!(!is_offline_error("status code 404"));
    assert!(!is_offline_error(""));
}

#[test]
fn profile_in_use_and_after_removal() {
    assert_eq!(profile_index(1, 3), Some(1));
    assert_eq!(profile_index(5, 3), Some(0));
    assert_eq!(profile_index(0, 0), None);
    assert_eq!(selection_after_removal(1, 3), 1);
    assert_eq!(selection_after_removal(3, 3), 2);
    assert_eq!(selection_after_removal(0, 0), 0);
}

#[test]
fn remote_templates_already_built_in_are_dropped() {
    let b = builtins();
    let mut list = remotes();
    list.push(RemoteTemplate {
        id: "classic".to_string(),
        name: "Classique".to_string(),
        description: String::new(),
        file: "classic.svg".to_string(),
        svg: None,
    });
    list.push(RemoteTemplate {
        id: "neo".to_string(),
        name: "Neo".to_string(),
        description: String::new(),
        file: "neo.svg".to_string(),
        svg: None,
    });
    let r = extra_remote_templates(list, &b);
    let ids: Vec<&str> = r.iter().map(|t| t.id.as_str()).collect();
    assert_eq!(ids, vec!["r1", "r2", "neo"]);
    assert!(extra_remote_templates(Vec::new(), &b).is_empty());
}

#[test]
fn saved_state_reloads_the_same_selection() {
    let b = builtins();
    let r = remotes();
    let custom = Some("<svg id='x'/>".to_string());
    let fields = vec![field("F0", "Alice", false)];
    let colors = vec![color("C0", [7, 8, 9])];

    let s = template_state(2, &b, &custom, &r, &fields, &colors, CardConfig::new(CardLayout::Badge));
    assert_eq!(s.builtin_id.as_deref(), Some("classic"));
    assert_eq!(s.custom_svg, None);
    assert_eq!(s.fields.len(), 1);
    assert_eq!(s.fields[0].value, "Alice");
    assert!(!s.fields[0].visible);
    assert_eq!(s.colors[0].value, [7, 8, 9]);
    assert!(s.card.as_ref().map(|c| c.layout == CardLayout::Badge).unwrap_or(false));
    assert_eq!(restored_template_index(&s, &b), 2);

    let c = template_state(3, &b, &custom, &r, &[], &[], CardConfig::default());
    assert_eq!(c.builtin_id, None);
    assert_eq!(c.custom_svg.as_deref(), Some("<svg id='x'/>"));
    assert_eq!(restored_template_index(&c, &b), 3);

    let remote = template_state(4, &b, &custom, &r, &[], &[], CardConfig::default());
    assert_eq!(remote.custom_svg.as_deref(), Some("<svg id='r'/>"));
    assert_eq!(restored_template_index(&remote, &b), 3);

    let none = template_state(0, &b, &custom, &r, &[], &[], CardConfig::default());
    assert_eq!(none.builtin_id, None);
    assert_eq!(none.custom_svg, None);
    assert_eq!(restored_template_index(&none, &b), 0);
}
