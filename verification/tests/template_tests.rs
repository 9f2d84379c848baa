use rusty_qr::card::{CardConfig, CardLayout};
use rusty_qr::raster::RgbaRaster;
use rusty_qr::render::{build_vars, preprocess_colors, preprocess_defaults, render, render_preview, substitute};
use rusty_qr::template::{
    colors_readable, detect_colors, detect_fields, detect_palette_defaults, palette_readable, TemplateColor, TemplateField,
};
use base64::Engine;
use image::ImageEncoder;

#[test]
fn palette_comment_is_read() {
    let t = "<svg>\n<!-- @palette BG=#1a2B3c FG=#FFFFFF AC=#00ff7f -->\n</svg>";
    assert!(palette_readable(t));
    let (bg, fg, ac) = detect_palette_defaults(t);
    assert_eq!(bg, Some([0x1a, 0x2b, 0x3c]));
    assert_eq!(fg, Some([255, 255, 255]));
    assert_eq!(ac, Some([0, 255, 127]));
}

#[test]
fn palette_missing_or_partial() {
    assert_eq!(detect_palette_defaults("<svg/>"), (None, None, None));
    let (bg, fg, ac) = detect_palette_defaults("<!-- @palette FG=#12345 BG=#zz0000 AC=#0a0b0c\r\n");
    assert_eq!(bg, None);
    assert_eq!(fg, None);
    assert_eq!(ac, Some([10, 11, 12]));
}

#[test]
fn palette_with_multibyte_text_is_not_readable() {
    // Slicing "é" in two would panic: such a template is reported unreadable.
    assert!(!palette_readable("@palette BG=#Aé1234"));
}

#[test]
fn colors_are_detected_in_slot_order() {
    let t = "a {{C2:#00FF00}} b {{C0:#6C63FF|Couleur principale}} {{C4:#12}} {{C1:#GG0000}}";
    assert!(colors_readable(t));
    let cs = detect_colors(t);
    assert_eq!(cs.len(), 2);
    assert_eq!(cs[0].var, "C0");
    assert_eq!(cs[0].label, "Couleur principale");
    assert_eq!(cs[0].default, [0x6C, 0x63, 0xFF]);
    assert_eq!(cs[0].value, cs[0].default);
    assert_eq!(cs[1].var, "C2");
    assert_eq!(cs[1].label, "Couleur C2");
    assert_eq!(cs[1].default, [0, 255, 0]);
}

#[test]
fn fields_are_detected_with_defaults() {
    let t = "{{F0}} {{F1:Votre nom}} {{F3:Contact}} {{F6}}";
    let labels = ["Nom", "Titre"];
    let fs = detect_fields(t, &labels);
    assert_eq!(fs.len(), 3);
    assert_eq!((fs[0].var.as_str(), fs[0].label.as_str(), fs[0].default.as_str()), ("F0", "Nom", ""));
    assert_eq!((fs[1].var.as_str(), fs[1].label.as_str(), fs[1].default.as_str()), ("F1", "Titre", "Votre nom"));
    assert_eq!((fs[2].var.as_str(), fs[2].label.as_str(), fs[2].default.as_str()), ("F3", "Champ", "Contact"));
    assert!(fs.iter().all(|f| f.visible && f.value.is_empty()));
}

fn color(var: &str, value: [u8; 3]) -> TemplateColor {
    TemplateColor { var: var.to_string(), label: String::new(), default: [0, 0, 0], value }
}

fn field(var: &str, value: &str, visible: bool) -> TemplateField {
    TemplateField { var: var.to_string(), label: String::new(), default: String::new(), value: value.to_string(), visible }
}

#[test]
fn color_slots_take_the_current_value() {
    let t = "x{{C0:#000000|A}}y{{C0:#111111}}z{{C1:#222222}}";
    let out = preprocess_colors(t, &[color("C0", [255, 0, 16])]);
    assert_eq!(out, "x#FF0010y#FF0010z{{C1:#222222}}");
}

#[test]
fn default_slots_follow_field_state() {
    let t = "[{{F0:Nom}}][{{F1:Titre & co}}][{{F2:X}}][{{F3:Y}}]";
    let fields = [field("F0", "Ada <3", true), field("F1", "", true), field("F2", "caché", false)];
    let out = preprocess_defaults(t, &fields);
    assert_eq!(out, "[Ada &lt;3][Titre &amp; co][][Y]");
}

#[test]
fn substitution_replaces_every_occurrence() {
    let vars = vec![("W".to_string(), "321".to_string()), ("BG".to_string(), "#FFFFFF".to_string())];
    assert_eq!(substitute("{{W}}x{{W}} {{BG}} {{H}}", &vars), "321x321 #FFFFFF {{H}}");
}

fn var<'a>(vars: &'a [(String, String)], k: &str) -> &'a str {
    vars.iter().find(|(n, _)| n == k).map(|(_, v)| v.as_str()).expect(k)
}

#[test]
fn business_card_variables() {
    let mut c = CardConfig::new(CardLayout::BusinessCard);
    c.fields = vec!["Ada".to_string(), "Dev".to_string()];
    let vars = build_vars(&c, None, &[]);
    assert_eq!(var(&vars, "W"), "321");
    assert_eq!(var(&vars, "H"), "204");
    assert_eq!(var(&vars, "BG"), "#FFFFFF");
    assert_eq!(var(&vars, "FG"), "#1E1E1E");
    assert_eq!(var(&vars, "AC"), "#3264C8");
    let h = 204f32;
    let qr_sz = (h * 0.82) as u32;
    let qr_x = (h * 0.09) as u32;
    assert_eq!(var(&vars, "QR_SZ"), qr_sz.to_string());
    assert_eq!(var(&vars, "QR_X"), qr_x.to_string());
    assert_eq!(var(&vars, "QR_Y"), qr_x.to_string());
    let tx = qr_x + qr_sz + (h * 0.07) as u32;
    assert_eq!(var(&vars, "TX"), tx.to_string());
    assert_eq!(var(&vars, "TA"), "start");
    assert_eq!(var(&vars, "TY0"), (qr_x + 8).to_string());
    assert_eq!(var(&vars, "TY4"), (qr_x + 8 + 61).to_string());
    assert_eq!(var(&vars, "AX"), (tx as i32 - 6).to_string());
    assert_eq!(var(&vars, "AW"), "3");
    assert_eq!(var(&vars, "F0"), "Ada");
    assert_eq!(var(&vars, "F4"), "");
    let cx = qr_x + qr_sz / 2;
    let cy = qr_x + qr_sz / 2;
    assert_eq!(
        var(&vars, "QR_IMAGE"),
        format!("  <rect x=\"{qr_x}\" y=\"{qr_x}\" width=\"{qr_sz}\" height=\"{qr_sz}\" fill=\"#D0D0D0\" rx=\"4\"/>\n  <text x=\"{cx}\" y=\"{cy}\" text-anchor=\"middle\" dominant-baseline=\"middle\" fill=\"#888\" font-family=\"Arial,sans-serif\" font-size=\"14\">QR</text>")
    );
    assert_eq!(
        var(&vars, "ACCENT_BLOCK"),
        format!("  <rect x=\"{}\" y=\"{qr_x}\" width=\"3\" height=\"{qr_sz}\" fill=\"#3264C8\" rx=\"1\"/>", tx as i32 - 6)
    );
    assert_eq!(
        var(&vars, "TEXT_BLOCK"),
        format!(
            "  <text x=\"{tx}\" y=\"{}\" text-anchor=\"start\" dominant-baseline=\"auto\" font-family=\"Arial,sans-serif\" font-size=\"14\" font-weight=\"bold\" fill=\"#1E1E1E\">Ada</text>\n  <text x=\"{tx}\" y=\"{}\" text-anchor=\"start\" dominant-baseline=\"auto\" font-family=\"Arial,sans-serif\" font-size=\"10\" font-weight=\"normal\" fill=\"#3264C8\">Dev</text>\n",
            qr_x + 8,
            qr_x + 28
        )
    );
}

#[test]
fn badge_and_label_variables() {
    let c = CardConfig::new(CardLayout::Badge);
    let vars = build_vars(&c, None, &[]);
    assert_eq!(var(&vars, "ACCENT_BLOCK"), "  <rect x=\"0\" y=\"0\" width=\"340\" height=\"12\" fill=\"#3264C8\"/>");
    assert_eq!(var(&vars, "AH"), "12");
    assert_eq!(var(&vars, "TY0"), ((226f32 * 0.32) as u32).to_string());
    let l = CardConfig::new(CardLayout::Label);
    let vars = build_vars(&l, None, &[]);
    assert_eq!(var(&vars, "ACCENT_BLOCK"), "");
    assert_eq!(var(&vars, "TA"), "middle");
    assert_eq!(var(&vars, "TX"), "113");
}

#[test]
fn template_fields_drive_field_variables() {
    let c = CardConfig::new(CardLayout::Flyer);
    let fields = [field("F1", "x&y", true), field("F3", "hidden", false)];
    let vars = build_vars(&c, None, &fields);
    assert_eq!(var(&vars, "F1"), "x&amp;y");
    assert_eq!(var(&vars, "F3"), "");
    assert_eq!(var(&vars, "F0"), "");
    assert_eq!(var(&vars, "F4"), "");
}

#[test]
fn render_substitutes_everything() {
    let mut c = CardConfig::new(CardLayout::Label);
    c.fields = vec!["Titre".to_string(), String::new()];
    let t = "<svg width=\"{{W}}\" fill=\"{{C0:#000000|Fond}}\">{{F0}}|{{F1:Défaut}}</svg>";
    let colors = [color("C0", [1, 2, 3])];
    let out = render(t, &c, None, &[], &colors);
    assert_eq!(out, "<svg width=\"226\" fill=\"#010203\">Titre|Défaut</svg>");
    assert_eq!(render_preview(t, &c, &[], &colors, None), out);
}

#[test]
fn render_embeds_the_qr_image() {
    let c = CardConfig::new(CardLayout::Flyer);
    let img = RgbaRaster { width: 1, height: 1, pixels: vec![0, 0, 0, 255] };
    let out = render("{{QR_IMAGE}}", &c, Some(&img), &[], &[]);
    let mut png = Vec::new();
    image::codecs::png::PngEncoder::new(&mut png).write_image(&img.pixels, 1, 1, image::ColorType::Rgba8).unwrap();
    let b64 = base64::engine::general_purpose::STANDARD.encode(&png);
    let (w, h) = (559u32, 396u32);
    let sz = (w as f32 * 0.40) as u32;
    let x = (w - sz) / 2;
    let y = (h as f32 * 0.06) as u32;
    assert_eq!(out, format!("  <image x=\"{x}\" y=\"{y}\" width=\"{sz}\" height=\"{sz}\" href=\"data:image/png;base64,{b64}\"/>"));
}

#[test]
fn default_slots_are_replaced_once() {
    let mk = |var: &str, value: &str, visible: bool| TemplateField {
        var: var.to_string(),
        label: String::new(),
        default: String::new(),
        value: value.to_string(),
        visible,
    };
    assert_eq!(preprocess_defaults("{{F0:a}}", &[mk("F0", "{{F0:z}}", true)]), "{{F0:z}}");
    assert_eq!(preprocess_defaults("[{{F0:a}}|{{F0:b}}]", &[mk("F0", "{{x", true)]), "[{{x|{{x]");
    assert_eq!(preprocess_defaults("{{F1:d}}", &[mk("F1", "{{F1:d}}", false)]), "");
    assert_eq!(preprocess_defaults("{{F2:a<b}}", &[]), "a&lt;b");
}
