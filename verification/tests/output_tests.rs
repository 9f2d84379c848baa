use rusty_qr::export::{build_document_xml, build_eps, build_svg, docx_parts, eps_fits, image_extent_emu, svg_fits, ExportFormat, CONTENT_TYPES};
use rusty_qr::logo::generate_rgba;
use rusty_qr::raster::{can_render, render_modules, rgba_to_rgb, ModuleStyle};
use rusty_qr::style::{hash_url, logo_cache_name};

#[test]
fn export_format_names() {
    assert_eq!(ExportFormat::Docx.label(), "DOCX (Word)");
    assert_eq!(ExportFormat::Jpg.extension(), "jpg");
    assert_eq!(ExportFormat::Eps.filter_name(), "EPS PostScript");
    assert_eq!(ExportFormat::all().len(), 6);
}

fn rgb_hex(c: [u8; 3]) -> String {
    format!("#{:02X}{:02X}{:02X}", c[0], c[1], c[2])
}

/// The SVG export as the application always wrote it.
fn reference_svg(matrix: &[Vec<bool>], fg: [u8; 3], bg: [u8; 3], px: usize, qz: usize) -> String {
    if matrix.is_empty() {
        return String::new();
    }
    let n = matrix.len();
    let total = (n + qz * 2) * px;
    let mut svg = format!(
        "<?xml version=\"1.0\" encoding=\"UTF-8\"?>\n<svg xmlns=\"http://www.w3.org/2000/svg\" version=\"1.1\"\nwidth=\"{total}\" height=\"{total}\" viewBox=\"0 0 {total} {total}\">\n<rect width=\"{total}\" height=\"{total}\" fill=\"{}\"/>\n",
        rgb_hex(bg)
    );
    let fill = rgb_hex(fg);
    for (row_i, row) in matrix.iter().enumerate() {
        let y = (row_i + qz) * px;
        let mut col = 0;
        while col < n {
            if row[col] {
                let start = col;
                while col < n && row[col] {
                    col += 1;
                }
                let x = (start + qz) * px;
                let w = (col - start) * px;
                svg.push_str(&format!("  <rect x=\"{x}\" y=\"{y}\" width=\"{w}\" height=\"{px}\" fill=\"{fill}\"/>\n"));
            } else {
                col += 1;
            }
        }
    }
    svg.push_str("</svg>\n");
    svg
}

/// The EPS export as the application always wrote it (with `f32` colours).
fn reference_eps(matrix: &[Vec<bool>], fg: [u8; 3], bg: [u8; 3], px: i32, qz: i32) -> String {
    if matrix.is_empty() {
        return String::new();
    }
    let n = matrix.len() as i32;
    let total = (n + qz * 2) * px;
    let f = |c: u8| c as f32 / 255.0;
    let mut eps = format!(
        "%!PS-Adobe-3.0 EPSF-3.0\n%%BoundingBox: 0 0 {total} {total}\n%%Title: QR Code\n%%Creator: RustyQR\n%%EndComments\n{:.4} {:.4} {:.4} setrgbcolor\n0 0 {total} {total} rectfill\n{:.4} {:.4} {:.4} setrgbcolor\n",
        f(bg[0]), f(bg[1]), f(bg[2]), f(fg[0]), f(fg[1]), f(fg[2])
    );
    for (row_i, row) in matrix.iter().enumerate() {
        for (col_i, &dark) in row.iter().enumerate() {
            if !dark {
                continue;
            }
            let x = (col_i as i32 + qz) * px;
            let y = total - (row_i as i32 + qz + 1) * px;
            eps.push_str(&format!("{x} {y} {px} {px} rectfill\n"));
        }
    }
    eps.push_str("%%EOF\n");
    eps
}

fn sample_matrix() -> Vec<Vec<bool>> {
    let m = rusty_qr::qr::micro_qr::encode(b"RUSTY").ok().unwrap();
    m
}

#[test]
fn svg_export_matches_reference() {
    let m = sample_matrix();
    assert_eq!(build_svg(&m, [10, 20, 30], [250, 251, 252], 10, 4), reference_svg(&m, [10, 20, 30], [250, 251, 252], 10, 4));
    assert_eq!(build_svg(&m, [0, 0, 0], [255, 255, 255], 1, 0), reference_svg(&m, [0, 0, 0], [255, 255, 255], 1, 0));
    assert_eq!(build_svg(&Vec::new(), [0, 0, 0], [0, 0, 0], 3, 3), "");
}

#[test]
fn eps_export_matches_reference() {
    let m = sample_matrix();
    assert_eq!(build_eps(&m, [20, 40, 120], [240, 245, 255], 10, 4), reference_eps(&m, [20, 40, 120], [240, 245, 255], 10, 4));
    assert_eq!(build_eps(&Vec::new(), [0, 0, 0], [0, 0, 0], 3, 3), "");
}

#[test]
fn eps_channels_match_f32_formatting() {
    let m = vec![vec![true]];
    for c in 0..=255u8 {
        let got = build_eps(&m, [c, c, c], [c, c, c], 1, 0);
        let want = reference_eps(&m, [c, c, c], [c, c, c], 1, 0);
        assert_eq!(got, want, "channel {c}");
    }
}

#[test]
fn word_document_extent() {
    assert_eq!(image_extent_emu(370, 370), (370 * 9525, 370 * 9525));
    let xml = build_document_xml(12, 34);
    assert!(xml.contains("<wp:extent cx=\"12\" cy=\"34\"/>"));
    assert!(xml.contains("<a:ext cx=\"12\" cy=\"34\"/>"));
    assert!(xml.ends_with("</w:document>"));
    assert!(CONTENT_TYPES.contains("image/png"));
}

#[test]
fn modules_are_rasterised() {
    let m = vec![vec![true, false], vec![false, true]];
    let style = ModuleStyle { fg: [1, 2, 3], bg: [200, 201, 202], module_px: 2, quiet_zone: 1 };
    let img = render_modules(&m, &style);
    assert_eq!((img.width, img.height), (8, 8));
    let px = |x: usize, y: usize| &img.pixels[(y * 8 + x) * 4..(y * 8 + x) * 4 + 4];
    assert_eq!(px(0, 0), &[200, 201, 202, 255]);
    assert_eq!(px(2, 2), &[1, 2, 3, 255]);
    assert_eq!(px(3, 3), &[1, 2, 3, 255]);
    assert_eq!(px(4, 2), &[200, 201, 202, 255]);
    assert_eq!(px(5, 5), &[1, 2, 3, 255]);
    let empty = render_modules(&Vec::new(), &style);
    assert_eq!((empty.width, empty.height, empty.pixels), (1, 1, vec![0, 0, 0, 0]));
    let zero = ModuleStyle { fg: [0, 0, 0], bg: [9, 9, 9], module_px: 0, quiet_zone: 0 };
    assert_eq!(render_modules(&m, &zero).width, 2);
    assert_eq!(rgba_to_rgb(&[1, 2, 3, 4, 5, 6, 7, 8]), vec![1, 2, 3, 5, 6, 7]);
}

/// The logo as the application always drew it.
fn reference_logo(size: u32) -> Vec<u8> {
    const BG: [u8; 4] = [26, 26, 46, 255];
    const GREEN: [u8; 4] = [80, 210, 80, 255];
    fn put(buf: &mut [u8], stride: u32, x: u32, y: u32, w: u32, h: u32, c: [u8; 4]) {
        for dy in 0..h {
            for dx in 0..w {
                let px = x + dx;
                let py = y + dy;
                if px < stride && py < (buf.len() as u32 / stride / 4) {
                    let i = (py * stride + px) as usize * 4;
                    if i + 3 < buf.len() {
                        buf[i..i + 4].copy_from_slice(&c);
                    }
                }
            }
        }
    }
    fn finder(buf: &mut [u8], stride: u32, ox: u32, oy: u32, m: u32) {
        put(buf, stride, ox, oy, 7 * m, 7 * m, GREEN);
        put(buf, stride, ox + m, oy + m, 5 * m, 5 * m, BG);
        put(buf, stride, ox + 2 * m, oy + 2 * m, 3 * m, 3 * m, GREEN);
    }
    let mut buf = vec![0u8; (size * size * 4) as usize];
    for px in buf.chunks_mut(4) {
        px.copy_from_slice(&BG);
    }
    let m = (size / 22).max(1);
    let pad = m;
    finder(&mut buf, size, pad, pad, m);
    finder(&mut buf, size, size - 8 * m, pad, m);
    finder(&mut buf, size, pad, size - 8 * m, m);
    let timing_start = 8 * m;
    let timing_end = size - 8 * m;
    let mut t = timing_start;
    while t < timing_end {
        if (t / m) % 2 == 0 {
            put(&mut buf, size, t, 6 * m, m, m, GREEN);
            put(&mut buf, size, 6 * m, t, m, m, GREEN);
        }
        t += m;
    }
    let data: &[(u32, u32)] = &[
        (0, 0), (2, 0), (4, 0), (6, 0), (1, 1), (3, 1), (5, 1), (0, 2), (2, 2), (4, 2), (6, 2), (1, 3), (5, 3), (0, 4),
        (2, 4), (4, 4), (6, 4), (3, 5), (5, 5), (0, 6), (1, 6), (4, 6), (6, 6),
    ];
    let dox = timing_end + m;
    let doy = timing_end + m;
    for &(dx, dy) in data {
        let x = dox + dx * m;
        let y = doy + dy * m;
        if x + m <= size && y + m <= size {
            put(&mut buf, size, x, y, m, m, GREEN);
        }
    }
    let align_x = size / 2 - m;
    let align_y = size - 4 * m;
    put(&mut buf, size, align_x, align_y, 5 * m, 5 * m, GREEN);
    put(&mut buf, size, align_x + m, align_y + m, 3 * m, 3 * m, BG);
    put(&mut buf, size, align_x + 2 * m, align_y + 2 * m, m, m, GREEN);
    buf
}

#[test]
fn logo_matches_reference_drawing() {
    for size in [8u32, 16, 21, 22, 32, 48, 64, 100, 256] {
        assert_eq!(generate_rgba(size), reference_logo(size), "size {size}");
    }
}

#[test]
fn logo_cache_names() {
    let url = "https://example.org/logo.svg";
    let h = url.bytes().fold(0u64, |h, b| h.wrapping_mul(31).wrapping_add(b as u64));
    assert_eq!(hash_url(url), h);
    assert_eq!(logo_cache_name(url, "IMAGE/PNG"), format!("{h:016X}.png"));
    assert_eq!(logo_cache_name(url, "image/jpeg"), format!("{h:016X}.jpg"));
    assert_eq!(logo_cache_name(url, "image/webp"), format!("{h:016X}.webp"));
    assert_eq!(logo_cache_name(url, "text/plain"), format!("{h:016X}.svg"));
    assert_eq!(logo_cache_name("nodot", ""), format!("{:016X}.nodot", hash_url("nodot")));
}

#[test]
fn size_checks_before_rendering() {
    let m = vec![vec![true, false], vec![false, true]];
    let style = ModuleStyle { fg: [0, 0, 0], bg: [255, 255, 255], module_px: 10, quiet_zone: 4 };
    assert!(can_render(&m, &style));
    let huge = ModuleStyle { fg: [0, 0, 0], bg: [255, 255, 255], module_px: u32::MAX, quiet_zone: 4 };
    assert!(!can_render(&m, &huge));
    let ragged = vec![vec![true; 7], vec![false, true]];
    assert!(!can_render(&ragged, &style));
    assert!(can_render(&Vec::new(), &style));
    assert!(svg_fits(&m, 10, 4));
    assert!(!svg_fits(&vec![vec![true], vec![true, true]], 10, 4));
    assert!(eps_fits(&m, 10, 4));
    assert!(!eps_fits(&m, 0x8000_0000, 4));
    assert!(!eps_fits(&m, 300_000_000, 4));
}

#[test]
fn word_document_parts_of_a_raster() {
    let m = vec![vec![true, false], vec![false, true]];
    let style = ModuleStyle { fg: [0, 0, 0], bg: [255, 255, 255], module_px: 3, quiet_zone: 1 };
    let img = render_modules(&m, &style);
    assert_eq!(img.width, 12);
    let (png, xml) = docx_parts(&img);
    assert_eq!(&png[..8], &[0x89, b'P', b'N', b'G', 0x0d, 0x0a, 0x1a, 0x0a]);
    assert!(xml.contains("<wp:extent cx=\"114300\" cy=\"114300\"/>"));
    assert_eq!(xml, build_document_xml(114300, 114300));
}
