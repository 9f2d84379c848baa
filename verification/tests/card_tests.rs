use rusty_qr::card::{card_qr_box_exec, card_qr_raster, embed_style, to_svg, CardConfig, CardLayout};
use rusty_qr::raster::{ModuleStyle, RgbaRaster};
use rusty_qr::template::{calc_qr_sz, calc_qr_x, calc_qr_y};
use base64::Engine;
use image::ImageEncoder;

fn mm(v: f32) -> u32 {
    (v * 3.78f32) as u32
}

#[test]
fn canvas_sizes_follow_f32_arithmetic() {
    assert_eq!(CardLayout::BusinessCard.canvas_px(), (mm(85.0), mm(54.0)));
    assert_eq!(CardLayout::Label.canvas_px(), (mm(60.0), mm(60.0)));
    assert_eq!(CardLayout::Badge.canvas_px(), (mm(90.0), mm(60.0)));
    assert_eq!(CardLayout::Flyer.canvas_px(), (mm(148.0), mm(105.0)));
    assert_eq!(CardLayout::BusinessCard.canvas_px(), (321, 204));
    assert_eq!(CardLayout::Label.canvas_px(), (226, 226));
    assert_eq!(CardLayout::Badge.canvas_px(), (340, 226));
    assert_eq!(CardLayout::Flyer.canvas_px(), (559, 396));
}

#[test]
fn layout_labels_and_fields() {
    assert_eq!(CardLayout::BusinessCard.label(), "Carte de visite (85×54 mm)");
    assert_eq!(CardLayout::Flyer.label(), "Flyer compact (A6)");
    assert_eq!(CardLayout::Badge.field_labels(), &["Nom", "Organisation", "Identifiant"]);
    assert_eq!(CardLayout::all().len(), 4);
    let c = CardConfig::new(CardLayout::Label);
    assert_eq!(c.fields.len(), 2);
    assert!(c.fields.iter().all(|f| f.is_empty()));
    assert_eq!(c.bg_color, [255, 255, 255]);
    assert_eq!(c.text_color, [30, 30, 30]);
    assert_eq!(c.accent_color, [50, 100, 200]);
    let d = CardConfig::default();
    assert_eq!(d.layout, CardLayout::BusinessCard);
    assert_eq!(d.fields.len(), 5);
}

#[test]
fn template_geometry_follows_f32_arithmetic() {
    for l in CardLayout::all() {
        let c = CardConfig::new(l);
        let (w, h) = l.canvas_px();
        let sz = match l {
            CardLayout::BusinessCard => (h as f32 * 0.82) as u32,
            CardLayout::Label => (w as f32 * 0.58) as u32,
            CardLayout::Badge => (h as f32 * 0.75) as u32,
            CardLayout::Flyer => (w as f32 * 0.40) as u32,
        };
        assert_eq!(calc_qr_sz(&c, w, h), sz);
        let x = match l {
            CardLayout::BusinessCard | CardLayout::Badge => (h as f32 * 0.09) as u32,
            _ => (w - sz) / 2,
        };
        assert_eq!(calc_qr_x(&c, w, h, sz), x);
        let y = match l {
            CardLayout::BusinessCard => (h as f32 * 0.09) as u32,
            CardLayout::Label | CardLayout::Flyer => (h as f32 * 0.06) as u32,
            CardLayout::Badge => (h - sz) / 2,
        };
        assert_eq!(calc_qr_y(&c, h, sz), y);
    }
    assert_eq!(calc_qr_sz(&CardConfig::new(CardLayout::BusinessCard), 321, 204), 167);
}

#[test]
fn the_qr_square_lies_inside_every_canvas() {
    let expected = [
        (CardLayout::BusinessCard, (167, 18, 18)),
        (CardLayout::Label, (131, 47, 13)),
        (CardLayout::Badge, (169, 20, 28)),
        (CardLayout::Flyer, (223, 168, 23)),
    ];
    for (l, (sz, x, y)) in expected {
        let c = CardConfig::new(l);
        let (w, h) = l.canvas_px();
        let s = calc_qr_sz(&c, w, h);
        assert!(s <= w && s <= h);
        let qx = calc_qr_x(&c, w, h, s);
        let qy = calc_qr_y(&c, h, s);
        assert_eq!((s, qx, qy), (sz, x, y));
        assert!(qx + s <= w);
        assert!(qy + s <= h);
    }
}

fn hex(c: [u8; 3]) -> String {
    format!("#{:02X}{:02X}{:02X}", c[0], c[1], c[2])
}

fn escape_xml(s: &str) -> String {
    s.replace('&', "&amp;").replace('<', "&lt;").replace('>', "&gt;").replace('"', "&quot;")
}

/// The card SVG computed as the application always computed it, with the
/// embedded image (or placeholder) given.
fn expected_svg(config: &CardConfig, embed: &dyn Fn(u32, u32, u32) -> String) -> String {
    let (w, h) = config.layout.canvas_px();
    let bg = hex(config.bg_color);
    let fg = hex(config.text_color);
    let acc = hex(config.accent_color);
    let mut svg = format!(
        "<?xml version=\"1.0\" encoding=\"UTF-8\"?>\n<svg xmlns=\"http://www.w3.org/2000/svg\" xmlns:xlink=\"http://www.w3.org/1999/xlink\"\n     width=\"{w}\" height=\"{h}\" viewBox=\"0 0 {w} {h}\">\n  <rect width=\"{w}\" height=\"{h}\" fill=\"{bg}\"/>\n"
    );
    let labels = config.layout.field_labels();
    match config.layout {
        CardLayout::BusinessCard => {
            let qr_sz = (h as f32 * 0.82) as u32;
            let qr_x = (h as f32 * 0.09) as u32;
            let qr_y = (h as f32 * 0.09) as u32;
            let text_x = (qr_x + qr_sz + (h as f32 * 0.07) as u32) as i32;
            let text_w = w as i32 - text_x - (h as f32 * 0.06) as i32;
            svg.push_str(&embed(qr_x, qr_y, qr_sz));
            let bar_x = text_x - 6;
            svg.push_str(&format!("  <rect x=\"{bar_x}\" y=\"{qr_y}\" width=\"3\" height=\"{qr_sz}\" fill=\"{acc}\" rx=\"1\"/>\n"));
            let mut ty = qr_y as i32 + 8;
            for (i, field) in config.fields.iter().enumerate() {
                if field.is_empty() {
                    continue;
                }
                let (fs, color, bold) = match i {
                    0 => (15, &fg, true),
                    1 => (10, &acc, false),
                    _ => (9, &fg, false),
                };
                let icon = match i {
                    2 => "☎ ",
                    3 => "✉ ",
                    4 => "🌐 ",
                    _ => "",
                };
                let weight = if bold { "bold" } else { "normal" };
                let hint = labels.get(i).copied().unwrap_or("");
                svg.push_str(&format!(
                    "  <text x=\"{text_x}\" y=\"{ty}\" font-family=\"Arial,sans-serif\" font-size=\"{fs}\"\n       font-weight=\"{weight}\" fill=\"{color}\" textLength=\"{text_w}\"\n       lengthAdjust=\"spacingAndGlyphs\"><!-- {hint} -->{icon}{}</text>\n",
                    escape_xml(field)
                ));
                ty += fs + 5;
            }
        }
        CardLayout::Label => {
            let qr_sz = (w as f32 * 0.58) as u32;
            let qr_x = (w - qr_sz) / 2;
            let qr_y = (h as f32 * 0.06) as u32;
            svg.push_str(&embed(qr_x, qr_y, qr_sz));
            let mut ty = (qr_y + qr_sz + 10) as i32;
            for (i, field) in config.fields.iter().enumerate() {
                if field.is_empty() {
                    continue;
                }
                let (fs, color) = if i == 0 { (13, &acc) } else { (9, &fg) };
                let hint = labels.get(i).copied().unwrap_or("");
                svg.push_str(&format!(
                    "  <text x=\"{}\" y=\"{ty}\" text-anchor=\"middle\"\n       font-family=\"Arial,sans-serif\" font-size=\"{fs}\" fill=\"{color}\">\n    <!-- {hint} -->{}</text>\n",
                    w / 2,
                    escape_xml(field)
                ));
                ty += fs + 4;
            }
        }
        CardLayout::Badge => {
            let qr_sz = (h as f32 * 0.75) as u32;
            let qr_x = (h as f32 * 0.12) as u32;
            let qr_y = (h - qr_sz) / 2;
            svg.push_str(&embed(qr_x, qr_y, qr_sz));
            svg.push_str(&format!("  <rect x=\"0\" y=\"0\" width=\"{w}\" height=\"12\" fill=\"{acc}\"/>\n"));
            let text_x = (qr_x + qr_sz + 16) as i32;
            let text_w = w as i32 - text_x - 10;
            let mut ty = (h as f32 * 0.32) as i32;
            for (i, field) in config.fields.iter().enumerate() {
                if field.is_empty() {
                    continue;
                }
                let (fs, color, bold) = match i {
                    0 => (16, &fg, true),
                    1 => (10, &acc, false),
                    _ => (8, &fg, false),
                };
                let weight = if bold { "bold" } else { "normal" };
                let hint = labels.get(i).copied().unwrap_or("");
                svg.push_str(&format!(
                    "  <text x=\"{text_x}\" y=\"{ty}\" font-family=\"Arial,sans-serif\" font-size=\"{fs}\"\n       font-weight=\"{weight}\" fill=\"{color}\" textLength=\"{text_w}\"\n       lengthAdjust=\"spacingAndGlyphs\"><!-- {hint} -->{}</text>\n",
                    escape_xml(field)
                ));
                ty += fs + 6;
            }
        }
        CardLayout::Flyer => {
            let qr_sz = (w as f32 * 0.40) as u32;
            let qr_x = (w - qr_sz) / 2;
            let qr_y = (h as f32 * 0.10) as u32;
            svg.push_str(&embed(qr_x, qr_y, qr_sz));
            let mut ty = (qr_y + qr_sz + 14) as i32;
            let cx = (w / 2) as i32;
            for (i, field) in config.fields.iter().enumerate() {
                if field.is_empty() {
                    continue;
                }
                let (fs, color, bold) = match i {
                    0 => (18, &acc, true),
                    1 => (12, &fg, true),
                    _ => (10, &fg, false),
                };
                let weight = if bold { "bold" } else { "normal" };
                let hint = labels.get(i).copied().unwrap_or("");
                svg.push_str(&format!(
                    "  <text x=\"{cx}\" y=\"{ty}\" text-anchor=\"middle\"\n       font-family=\"Arial,sans-serif\" font-size=\"{fs}\" font-weight=\"{weight}\"\n       fill=\"{color}\"><!-- {hint} -->{}</text>\n",
                    escape_xml(field)
                ));
                ty += fs + 5;
            }
        }
    }
    svg.push_str("</svg>\n");
    svg
}

fn placeholder(x: u32, y: u32, size: u32) -> String {
    format!(
        "  <rect x=\"{x}\" y=\"{y}\" width=\"{size}\" height=\"{size}\" fill=\"#CCCCCC\" rx=\"4\"/>\n  <text x=\"{}\" y=\"{}\" text-anchor=\"middle\" fill=\"#888\" font-size=\"12\">QR code</text>\n",
        x + size / 2,
        y + size / 2
    )
}

fn filled(layout: CardLayout) -> CardConfig {
    let mut c = CardConfig::new(layout);
    c.fields = vec![
        "Ada <Lovelace>".to_string(),
        "R&D".to_string(),
        String::new(),
        "a@b.fr".to_string(),
        "\"site\"".to_string(),
        "sixth".to_string(),
    ];
    c.accent_color = [1, 2, 250];
    c
}

#[test]
fn card_svg_with_placeholder_matches_reference() {
    for l in CardLayout::all() {
        let c = filled(l);
        let got = to_svg(&c, None);
        assert_eq!(got, expected_svg(&c, &placeholder), "{:?}", l);
    }
}

fn png_of(img: &RgbaRaster) -> Vec<u8> {
    let mut png = Vec::new();
    image::codecs::png::PngEncoder::new(&mut png)
        .write_image(&img.pixels, img.width, img.height, image::ColorType::Rgba8)
        .unwrap();
    png
}

#[test]
fn card_svg_embeds_the_raster_as_png() {
    let matrix = vec![vec![true, false, true], vec![false, true, false], vec![true, true, false]];
    let style = ModuleStyle { fg: [0, 0, 0], bg: [255, 255, 255], module_px: 10, quiet_zone: 4 };
    for l in CardLayout::all() {
        let c = filled(l);
        let img = card_qr_raster(&c, &matrix, &style);
        let (_, _, size) = card_qr_box_exec(l);
        let px = (size as usize / (3 + 4 * 2 + 1)).max(1) as u32;
        assert_eq!(img.width, (3 + 2 * 2) * px);
        let b64 = base64::engine::general_purpose::STANDARD.encode(png_of(&img));
        let embed = |x: u32, y: u32, s: u32| {
            format!("  <image x=\"{x}\" y=\"{y}\" width=\"{s}\" height=\"{s}\"\n       xlink:href=\"data:image/png;base64,{b64}\"/>\n")
        };
        assert_eq!(to_svg(&c, Some(&img)), expected_svg(&c, &embed));
    }
}

#[test]
fn embed_style_sizes_modules() {
    let style = ModuleStyle { fg: [9, 9, 9], bg: [1, 1, 1], module_px: 10, quiet_zone: 4 };
    let s = embed_style(&style, 167, 21);
    assert_eq!(s.module_px, 167 / 30);
    assert_eq!(s.quiet_zone, 2);
    assert_eq!(s.fg, [9, 9, 9]);
    let tiny = embed_style(&style, 5, 21);
    assert_eq!(tiny.module_px, 1);
}
