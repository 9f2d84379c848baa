//! SVG template engine: variable substitution, field and colour detection,
//! layout geometry.
use vstd::prelude::*;
use crate::card::{CardConfig, CardLayout};
use crate::scale::{f32_scale, f32_scale_exec, f32_ulp_exp, lemma_ulp_exp_at, round_f32};
use vstd::arithmetic::power2::pow2;
use crate::text::{
    decimal, find_first, find_in, is_boundary_exec, lemma_boundary_after_ascii, lemma_boundary_at_ascii, parse_hex_pair,
    parse_hex_pair_exec, push_decimal, push_str, substring_bytes, has_infix, hex_digit_char, lemma_find_from_none,
    lemma_find_from_some, occurs_at,
};
use vstd::string::StringSliceAdditionalSpecFns;
use vstd::utf8::{decode_utf8, is_char_boundary, valid_utf8};

verus! {

// ─── Geometry helpers ────────────────────────────────────────────────────────

/// Side of the QR square: `h * 0.82`, `w * 0.58`, `h * 0.75` or `w * 0.40`
/// (in `f32`, truncated) for a business card, label, badge or flyer.
pub open spec fn qr_sz_spec(layout: CardLayout, w: nat, h: nat) -> nat {
    match layout {
        CardLayout::BusinessCard => f32_scale(h, 13757317, 24),
        CardLayout::Label => f32_scale(w, 9730785, 24),
        CardLayout::Badge => f32_scale(h, 12582912, 24),
        CardLayout::Flyer => f32_scale(w, 13421773, 25),
    }
}

/// Left edge of the QR square: `h * 0.09` for a business card or badge,
/// centred otherwise.
pub open spec fn qr_x_spec(layout: CardLayout, w: nat, h: nat, qr_sz: nat) -> nat {
    match layout {
        CardLayout::BusinessCard | CardLayout::Badge => f32_scale(h, 12079596, 27),
        _ => ((w - qr_sz) / 2) as nat,
    }
}

/// Top edge of the QR square: `h * 0.09` for a business card, `h * 0.06`
/// for a label or flyer, centred for a badge.
pub open spec fn qr_y_spec(layout: CardLayout, h: nat, qr_sz: nat) -> nat {
    match layout {
        CardLayout::BusinessCard => f32_scale(h, 12079596, 27),
        CardLayout::Label | CardLayout::Flyer => f32_scale(h, 16106127, 28),
        CardLayout::Badge => ((h - qr_sz) / 2) as nat,
    }
}

pub fn calc_qr_sz(config: &CardConfig, w: u32, h: u32) -> (r: u32)
    ensures
        r == qr_sz_spec(config.layout, w as nat, h as nat),
{
    match config.layout {
        CardLayout::BusinessCard => f32_scale_exec(h, 13757317, 24),
        CardLayout::Label => f32_scale_exec(w, 9730785, 24),
        CardLayout::Badge => f32_scale_exec(h, 12582912, 24),
        CardLayout::Flyer => f32_scale_exec(w, 13421773, 25),
    }
}

pub fn calc_qr_x(config: &CardConfig, w: u32, h: u32, qr_sz: u32) -> (r: u32)
    requires
        config.layout == CardLayout::Label || config.layout == CardLayout::Flyer ==> qr_sz <= w,
    ensures
        r == qr_x_spec(config.layout, w as nat, h as nat, qr_sz as nat),
{
    match config.layout {
        CardLayout::BusinessCard | CardLayout::Badge => f32_scale_exec(h, 12079596, 27),
        _ => (w - qr_sz) / 2,
    }
}

pub fn calc_qr_y(config: &CardConfig, h: u32, qr_sz: u32) -> (r: u32)
    requires
        config.layout == CardLayout::Badge ==> qr_sz <= h,
    ensures
        r == qr_y_spec(config.layout, h as nat, qr_sz as nat),
{
    match config.layout {
        CardLayout::BusinessCard => f32_scale_exec(h, 12079596, 27),
        CardLayout::Label | CardLayout::Flyer => f32_scale_exec(h, 16106127, 28),
        CardLayout::Badge => (h - qr_sz) / 2,
    }
}

/// The canvas of each layout in pixels, and the QR side, left and top edges
/// that the layout gives on it.
proof fn lemma_qr_geometry_values(l: CardLayout)
    ensures
        ({
            let (w, h) = l.canvas_px_spec();
            let s = qr_sz_spec(l, w as nat, h as nat);
            let x = qr_x_spec(l, w as nat, h as nat, s);
            let y = qr_y_spec(l, h as nat, s);
            match l {
                CardLayout::BusinessCard => w == 321 && h == 204 && s == 167 && x == 18 && y == 18,
                CardLayout::Label => w == 226 && h == 226 && s == 131 && x == 47 && y == 13,
                CardLayout::Badge => w == 340 && h == 226 && s == 169 && x == 20 && y == 28,
                CardLayout::Flyer => w == 559 && h == 396 && s == 223 && x == 168 && y == 23,
            }
        }),
{
    vstd::arithmetic::power2::lemma2_to64();
    match l {
        CardLayout::BusinessCard => {
            lemma_f32_scale_value(85, 15854469, 22, 7, 321);
            lemma_f32_scale_value(54, 15854469, 22, 6, 204);
            lemma_f32_scale_value(204, 13757317, 24, 8, 167);
            lemma_f32_scale_value(204, 12079596, 27, 8, 18);
        },
        CardLayout::Label => {
            lemma_f32_scale_value(60, 15854469, 22, 6, 226);
            lemma_f32_scale_value(226, 9730785, 24, 8, 131);
            lemma_f32_scale_value(226, 16106127, 28, 8, 13);
        },
        CardLayout::Badge => {
            lemma_f32_scale_value(90, 15854469, 22, 7, 340);
            lemma_f32_scale_value(60, 15854469, 22, 6, 226);
            lemma_f32_scale_value(226, 12582912, 24, 8, 169);
            lemma_f32_scale_value(226, 12079596, 27, 8, 20);
        },
        CardLayout::Flyer => {
            lemma_f32_scale_value(148, 15854469, 22, 8, 559);
            lemma_f32_scale_value(105, 15854469, 22, 7, 396);
            lemma_f32_scale_value(559, 13421773, 25, 9, 223);
            lemma_f32_scale_value(396, 16106127, 28, 9, 23);
        },
    }
}

/// `f32_scale` at given values, unfolded: the product has `e` low bits
/// below the 24 significant ones.
proof fn lemma_f32_scale_value(v: nat, mant: nat, shift: nat, e: nat, t: nat)
    requires
        v < 0x100_0000,
        e <= 9,
        shift <= 30,
        (v * mant) / pow2(e) < 0x100_0000,
        (v * mant) / pow2(e) >= 0x80_0000 || e == 0,
        ({
            let u = pow2(e);
            let q = (v * mant) / u;
            let r = (v * mant) % u;
            (if 2 * r > u || (2 * r == u && q % 2 == 1) {
                (q + 1) * u
            } else {
                q * u
            }) / pow2(shift) == t
        }),
        t <= u32::MAX,
    ensures
        f32_scale(v, mant, shift) == t,
{
    vstd::arithmetic::power2::lemma2_to64();
    assert(f32_ulp_exp(v) == 0);
    assert(round_f32(v) == v);
    lemma_ulp_exp_at(v * mant, e);
}

/// For every layout, the QR square lies inside the canvas: its side is at
/// most the canvas width and height (so centring it subtracts nothing
/// larger than the canvas), and it ends within both.
pub proof fn law_qr_inside_canvas(l: CardLayout)
    ensures
        ({
            let (w, h) = l.canvas_px_spec();
            let s = qr_sz_spec(l, w as nat, h as nat);
            let x = qr_x_spec(l, w as nat, h as nat, s);
            let y = qr_y_spec(l, h as nat, s);
            &&& s <= w
            &&& s <= h
            &&& x + s <= w
            &&& y + s <= h
        }),
{
    lemma_qr_geometry_values(l);
}

/// Text geometry of a layout: x, text anchor, and the baseline of each of
/// the five text lines.
pub open spec fn text_geometry_spec(layout: CardLayout, w: nat, h: nat, qr_x: nat, qr_y: nat, qr_sz: nat) -> (nat, Seq<char>, Seq<nat>) {
    match layout {
        CardLayout::BusinessCard => {
            let ty0 = qr_y + 8;
            (
                qr_x + qr_sz + f32_scale(h, 9395241, 27),
                "start"@,
                seq![ty0, ty0 + 20, ty0 + 35, ty0 + 48, ty0 + 61],
            )
        },
        CardLayout::Label => {
            let ty0 = qr_y + qr_sz + 14;
            (w / 2, "middle"@, seq![ty0, ty0 + 17, ty0 + 30, ty0 + 43, ty0 + 56])
        },
        CardLayout::Badge => {
            let ty0 = f32_scale(h, 10737418, 25);
            (qr_x + qr_sz + 16, "start"@, seq![ty0, ty0 + 20, ty0 + 33, ty0 + 45, ty0 + 57])
        },
        CardLayout::Flyer => {
            let ty0 = qr_y + qr_sz + 18;
            (w / 2, "middle"@, seq![ty0, ty0 + 24, ty0 + 41, ty0 + 55, ty0 + 69])
        },
    }
}

/// The text x, anchor and line baselines of the layout.
pub(crate) fn calc_text_geometry(config: &CardConfig, w: u32, h: u32, qr_x: u32, qr_y: u32, qr_sz: u32) -> (r: (
    u32,
    &'static str,
    [u32; 5],
))
    requires
        h < 0x100_0000,
        qr_x + qr_sz + h + 16 <= u32::MAX,
        qr_y + qr_sz + 100 <= u32::MAX,
    ensures
        r.0 == text_geometry_spec(config.layout, w as nat, h as nat, qr_x as nat, qr_y as nat, qr_sz as nat).0,
        r.1@ == text_geometry_spec(config.layout, w as nat, h as nat, qr_x as nat, qr_y as nat, qr_sz as nat).1,
        r.2@.len() == 5,
        forall|i: int| 0 <= i < 5 ==> r.2@[i] == text_geometry_spec(config.layout, w as nat, h as nat, qr_x as nat, qr_y as nat, qr_sz as nat).2[i],
{
    match config.layout {
        CardLayout::BusinessCard => {
            let d = f32_scale_exec(h, 9395241, 27);
            assert(d <= h) by {
                vstd::arithmetic::power2::lemma2_to64();
                crate::scale::lemma_scale_below_one(h as nat, 9395241, 27);
            }
            let tx = qr_x + qr_sz + d;
            let ty0 = qr_y + 8;
            (tx, "start", [ty0, ty0 + 20, ty0 + 35, ty0 + 48, ty0 + 61])
        },
        CardLayout::Label => {
            let tx = w / 2;
            let ty0 = qr_y + qr_sz + 14;
            (tx, "middle", [ty0, ty0 + 17, ty0 + 30, ty0 + 43, ty0 + 56])
        },
        CardLayout::Badge => {
            let tx = qr_x + qr_sz + 16;
            let ty0 = f32_scale_exec(h, 10737418, 25);
            assert(ty0 <= h) by {
                vstd::arithmetic::power2::lemma2_to64();
                crate::scale::lemma_scale_below_one(h as nat, 10737418, 25);
            }
            (tx, "start", [ty0, ty0 + 20, ty0 + 33, ty0 + 45, ty0 + 57])
        },
        CardLayout::Flyer => {
            let tx = w / 2;
            let ty0 = qr_y + qr_sz + 18;
            (tx, "middle", [ty0, ty0 + 24, ty0 + 41, ty0 + 55, ty0 + 69])
        },
    }
}

/// The accent rectangle (x, y, width, height) of the layout.
pub open spec fn accent_rect_spec(layout: CardLayout, w: nat, qr_y: nat, qr_sz: nat, tx: nat) -> (int, nat, nat, nat) {
    match layout {
        CardLayout::BusinessCard => (tx - 6, qr_y, 3, qr_sz),
        CardLayout::Badge => (0, 0, w, 12),
        _ => (0, 0, 0, 0),
    }
}

pub(crate) fn calc_accent_rect(config: &CardConfig, w: u32, _h: u32, _qr_x: u32, qr_y: u32, qr_sz: u32, tx: u32) -> (r: (i32, u32, u32, u32))
    requires
        tx <= i32::MAX,
    ensures
        (r.0 as int, r.1 as nat, r.2 as nat, r.3 as nat) == accent_rect_spec(config.layout, w as nat, qr_y as nat, qr_sz as nat, tx as nat),
{
    match config.layout {
        CardLayout::BusinessCard => (tx as i32 - 6, qr_y, 3, qr_sz),
        CardLayout::Badge => (0, 0, w, 12),
        _ => (0, 0, 0, 0),
    }
}


// ─── Palette comment ─────────────────────────────────────────────────────────

/// The bytes of `@palette`.
pub open spec fn palette_marker() -> Seq<u8> {
    seq![64u8, 112, 97, 108, 101, 116, 116, 101]
}

/// Index of the first line feed at or after `i`, or the end of `b`.
pub open spec fn line_end(b: Seq<u8>, i: int) -> int
    decreases b.len() - i,
{
    if i < 0 || i >= b.len() {
        b.len() as int
    } else if b[i] == 10 {
        i
    } else {
        line_end(b, i + 1)
    }
}

/// End of the content of the line starting at `start`: the line ends at
/// its line feed, less a carriage return right before it (as `str::lines`).
pub open spec fn line_content_end(b: Seq<u8>, start: int) -> int {
    let e = line_end(b, start);
    if e < b.len() && e > start && b[e - 1] == 13 {
        e - 1
    } else {
        e
    }
}

proof fn lemma_line_end_bounds(b: Seq<u8>, i: int)
    requires
        0 <= i <= b.len(),
    ensures
        i <= line_end(b, i) <= b.len(),
        line_end(b, i) < b.len() ==> b[line_end(b, i)] == 10,
        forall|j: int| i <= j < line_end(b, i) ==> b[j] != 10,
    decreases b.len() - i,
{
    if i < b.len() && b[i] != 10 {
        lemma_line_end_bounds(b, i + 1);
    }
}

/// The first line, from the line starting at `start` on, that contains
/// `@palette`: its start and content end.
pub open spec fn palette_line_from(b: Seq<u8>, start: int) -> Option<(int, int)>
    decreases b.len() - start,
{
    if start < 0 || start >= b.len() {
        None
    } else {
        let e = line_end(b, start);
        let ce = line_content_end(b, start);
        if e < start {
            None
        } else if find_first(b.subrange(start, ce), palette_marker()) is Some {
            Some((start, ce))
        } else if e >= b.len() {
            None
        } else {
            palette_line_from(b, e + 1)
        }
    }
}

/// Where the six hex digits after `key` (as `KEY=#`) in the line
/// `b[ls..le]` start, when the line holds `key` and six bytes follow it.
pub open spec fn palette_digits_at(b: Seq<u8>, ls: int, le: int, key: Seq<u8>) -> Option<int> {
    match find_first(b.subrange(ls, le), key) {
        None => None,
        Some(p) => {
            let st = ls + p + key.len();
            if le - st < 6 {
                None
            } else {
                Some(st)
            }
        },
    }
}

/// Three hexadecimal byte pairs from `st` on, as an RGB colour.
pub open spec fn rgb_at(b: Seq<u8>, st: int) -> Option<Seq<u8>> {
    match parse_hex_pair(b[st], b[st + 1]) {
        None => None,
        Some(r) => match parse_hex_pair(b[st + 2], b[st + 3]) {
            None => None,
            Some(g) => match parse_hex_pair(b[st + 4], b[st + 5]) {
                None => None,
                Some(bl) => Some(seq![r, g, bl]),
            },
        },
    }
}

/// Whether parsing the colour at `st` slices the text only at character
/// boundaries (the two-byte slices are taken one after the other, each
/// only when the previous one parsed).
pub open spec fn rgb_slices_ok(b: Seq<u8>, st: int) -> bool {
    &&& is_char_boundary(b, st + 2)
    &&& parse_hex_pair(b[st], b[st + 1]) is Some ==> {
        &&& is_char_boundary(b, st + 4)
        &&& parse_hex_pair(b[st + 2], b[st + 3]) is Some ==> is_char_boundary(b, st + 6)
    }
}

/// The colour given for `key` on the palette line, if any.
pub open spec fn palette_color(b: Seq<u8>, key: Seq<u8>) -> Option<Seq<u8>> {
    match palette_line_from(b, 0) {
        None => None,
        Some(line) => match palette_digits_at(b, line.0, line.1, key) {
            None => None,
            Some(st) => rgb_at(b, st),
        },
    }
}

/// Whether reading the colour for `key` slices only at character boundaries.
pub open spec fn palette_color_ok(b: Seq<u8>, key: Seq<u8>) -> bool {
    match palette_line_from(b, 0) {
        None => true,
        Some(line) => match palette_digits_at(b, line.0, line.1, key) {
            None => true,
            Some(st) => rgb_slices_ok(b, st),
        },
    }
}

/// The bytes of `BG=#`, `FG=#` and `AC=#`.
pub open spec fn bg_key() -> Seq<u8> {
    seq![66u8, 71, 61, 35]
}

pub open spec fn fg_key() -> Seq<u8> {
    seq![70u8, 71, 61, 35]
}

pub open spec fn ac_key() -> Seq<u8> {
    seq![65u8, 67, 61, 35]
}

/// Whether `detect_palette_defaults` reads the template without slicing
/// inside a character.
pub open spec fn palette_slices_ok(template: Seq<u8>) -> bool {
    &&& palette_color_ok(template, bg_key())
    &&& palette_color_ok(template, fg_key())
    &&& palette_color_ok(template, ac_key())
}

/// The view of an optional RGB colour.
pub open spec fn rgb_view(c: Option<[u8; 3]>) -> Option<Seq<u8>> {
    match c {
        Some(a) => Some(a@),
        None => None,
    }
}

fn find_palette_line(b: &[u8]) -> (r: Option<(usize, usize)>)
    ensures
        r is None <==> palette_line_from(b@, 0) is None,
        r matches Some(line) ==> palette_line_from(b@, 0) == Some((line.0 as int, line.1 as int)),
        r matches Some(line) ==> line.0 <= line.1 <= b@.len(),
{
    let marker: [u8; 8] = [64u8, 112, 97, 108, 101, 116, 116, 101];
    assert(marker@ =~= palette_marker());
    let len = b.len();
    let mut start: usize = 0;
    while start < len
        invariant
            len == b@.len(),
            start <= len,
            marker@ == palette_marker(),
            palette_line_from(b@, 0) == palette_line_from(b@, start as int),
        decreases len - start,
    {
        let mut e = start;
        while e < len && b[e] != 10
            invariant
                start <= e <= len,
                len == b@.len(),
                line_end(b@, start as int) == line_end(b@, e as int),
            decreases len - e,
        {
            e = e + 1;
        }
        let ce = if e < len && e > start && b[e - 1] == 13 {
            e - 1
        } else {
            e
        };
        if find_in(b, start, ce, marker.as_slice()).is_some() {
            return Some((start, ce));
        }
        if e >= len {
            return None;
        }
        start = e + 1;
    }
    None
}

fn palette_color_exec(b: &[u8], ls: usize, le: usize, key: &[u8]) -> (r: Option<[u8; 3]>)
    requires
        ls <= le <= b@.len(),
        valid_utf8(b@),
        key@.len() == 4,
        match palette_digits_at(b@, ls as int, le as int, key@) {
            None => true,
            Some(st) => rgb_slices_ok(b@, st),
        },
    ensures
        rgb_view(r) == match palette_digits_at(b@, ls as int, le as int, key@) {
            None => None,
            Some(st) => rgb_at(b@, st),
        },
{
    let pos = match find_in(b, ls, le, key) {
        Some(p) => p,
        None => {
            return None;
        },
    };
    let st = pos + key.len();
    if le - st < 6 {
        return None;
    }
    let r = match parse_hex_pair_exec(b[st], b[st + 1]) {
        Some(v) => v,
        None => {
            return None;
        },
    };
    let g = match parse_hex_pair_exec(b[st + 2], b[st + 3]) {
        Some(v) => v,
        None => {
            return None;
        },
    };
    let bl = match parse_hex_pair_exec(b[st + 4], b[st + 5]) {
        Some(v) => v,
        None => {
            return None;
        },
    };
    let c = [r, g, bl];
    assert(c@ =~= seq![r, g, bl]);
    Some(c)
}

/// Reads `<!-- @palette BG=#rrggbb FG=#rrggbb AC=#rrggbb -->` from the
/// template: the (background, text, accent) colours, each `None` if absent.
pub fn detect_palette_defaults(template: &str) -> (r: (Option<[u8; 3]>, Option<[u8; 3]>, Option<[u8; 3]>))
    requires
        palette_slices_ok(template.spec_bytes()),
    ensures
        rgb_view(r.0) == palette_color(template.spec_bytes(), bg_key()),
        rgb_view(r.1) == palette_color(template.spec_bytes(), fg_key()),
        rgb_view(r.2) == palette_color(template.spec_bytes(), ac_key()),
{
    let b = template.as_bytes();
    proof {
        vstd::utf8::encode_utf8_valid_utf8(template@);
    }
    let (ls, le) = match find_palette_line(b) {
        Some(line) => line,
        None => {
            return (None, None, None);
        },
    };
    let bg: [u8; 4] = [66u8, 71, 61, 35];
    let fg: [u8; 4] = [70u8, 71, 61, 35];
    let ac: [u8; 4] = [65u8, 67, 61, 35];
    assert(bg@ =~= bg_key());
    assert(fg@ =~= fg_key());
    assert(ac@ =~= ac_key());
    (
        palette_color_exec(b, ls, le, bg.as_slice()),
        palette_color_exec(b, ls, le, fg.as_slice()),
        palette_color_exec(b, ls, le, ac.as_slice()),
    )
}

/// Whether `detect_palette_defaults` can read `template`: it slices the
/// palette colours only at character boundaries.
pub fn palette_readable(template: &str) -> (ok: bool)
    ensures
        ok == palette_slices_ok(template.spec_bytes()),
{
    let b = template.as_bytes();
    proof {
        vstd::utf8::encode_utf8_valid_utf8(template@);
    }
    let (ls, le) = match find_palette_line(b) {
        Some(line) => line,
        None => {
            return true;
        },
    };
    let bg: [u8; 4] = [66u8, 71, 61, 35];
    let fg: [u8; 4] = [70u8, 71, 61, 35];
    let ac: [u8; 4] = [65u8, 67, 61, 35];
    assert(bg@ =~= bg_key());
    assert(fg@ =~= fg_key());
    assert(ac@ =~= ac_key());
    rgb_readable(b, ls, le, bg.as_slice()) && rgb_readable(b, ls, le, fg.as_slice()) && rgb_readable(b, ls, le, ac.as_slice())
}

fn rgb_readable(b: &[u8], ls: usize, le: usize, key: &[u8]) -> (ok: bool)
    requires
        ls <= le <= b@.len(),
        valid_utf8(b@),
    ensures
        ok == match palette_digits_at(b@, ls as int, le as int, key@) {
            None => true,
            Some(st) => rgb_slices_ok(b@, st),
        },
{
    let pos = match find_in(b, ls, le, key) {
        Some(p) => p,
        None => {
            return true;
        },
    };
    let st = pos + key.len();
    if le - st < 6 {
        return true;
    }
    if !is_boundary_exec(b, st + 2) {
        return false;
    }
    if parse_hex_pair_exec(b[st], b[st + 1]).is_none() {
        return true;
    }
    if !is_boundary_exec(b, st + 4) {
        return false;
    }
    if parse_hex_pair_exec(b[st + 2], b[st + 3]).is_none() {
        return true;
    }
    is_boundary_exec(b, st + 6)
}


// ─── Templates ───────────────────────────────────────────────────────────────

/// A template shipped with the application.
pub struct BuiltinTemplate {
    pub id: &'static str,
    pub name: &'static str,
    pub description: &'static str,
    pub svg: &'static str,
}

/// A template listed in the remote index; its SVG once downloaded.
#[derive(Clone)]
pub struct RemoteTemplate {
    pub id: String,
    pub name: String,
    pub description: String,
    pub file: String,
    pub svg: Option<String>,
}

// ─── Colour slots `{{Cx:#RRGGBB|Label}}` ─────────────────────────────────────

/// One colour slot of a template.
#[derive(Clone)]
pub struct TemplateColor {
    /// The slot's variable: `C0` to `C4`.
    pub var: String,
    /// The label shown beside the colour picker.
    pub label: String,
    /// The colour written in the template.
    pub default: [u8; 3],
    /// The colour picked by the user.
    pub value: [u8; 3],
}

/// One text field of a template.
#[derive(Clone)]
pub struct TemplateField {
    /// The field's variable: `F0` to `F4`.
    pub var: String,
    /// The label shown beside the text box.
    pub label: String,
    /// The default text written in the template (`{{F0:default}}`).
    pub default: String,
    /// The text typed by the user.
    pub value: String,
    /// Whether the field is shown.
    pub visible: bool,
}

/// The bytes of `{{Ci:#`.
pub open spec fn color_prefix(i: nat) -> Seq<u8> {
    seq![123u8, 123, 67, (48 + i) as u8, 58, 35]
}

/// The bytes of `}}`.
pub open spec fn close_braces() -> Seq<u8> {
    seq![125u8, 125]
}

/// The byte range of the inside of the first `{{Ci:#...}}` slot.
pub open spec fn color_slot_inner(b: Seq<u8>, i: nat) -> Option<(int, int)> {
    match find_first(b, color_prefix(i)) {
        None => None,
        Some(p) => {
            let st = p + 6;
            match find_first(b.subrange(st, b.len() as int), close_braces()) {
                None => None,
                Some(e) => Some((st, st + e)),
            }
        },
    }
}

/// Where the label of a slot whose inside is `b[st..en]` starts: after its
/// first `|`, if any.
pub open spec fn slot_label_start(b: Seq<u8>, st: int, en: int) -> Option<int> {
    match find_first(b.subrange(st, en), seq![124u8]) {
        Some(q) => Some(st + q + 1),
        None => None,
    }
}

/// The hexadecimal part of a slot whose inside is `b[st..en]`.
pub open spec fn slot_hex(b: Seq<u8>, st: int, en: int) -> Seq<u8> {
    match slot_label_start(b, st, en) {
        Some(l) => b.subrange(st, l - 1),
        None => b.subrange(st, en),
    }
}

/// The colour and label of slot `i`, if the template has it and its colour
/// parses; the label defaults to `Couleur Ci`.
pub open spec fn color_slot(b: Seq<u8>, i: nat) -> Option<(Seq<u8>, Seq<char>)> {
    match color_slot_inner(b, i) {
        None => None,
        Some(inner) => {
            let hex = slot_hex(b, inner.0, inner.1);
            if hex.len() < 6 {
                None
            } else {
                match rgb_at(hex, 0) {
                    None => None,
                    Some(rgb) => Some(
                        (
                            rgb,
                            match slot_label_start(b, inner.0, inner.1) {
                                Some(l) => decode_utf8(b.subrange(l, inner.1)),
                                None => "Couleur C"@ + decimal(i),
                            },
                        ),
                    ),
                }
            }
        },
    }
}

/// Whether reading slot `i` slices its colour only at character boundaries.
pub open spec fn color_slot_ok(b: Seq<u8>, i: nat) -> bool {
    match color_slot_inner(b, i) {
        None => true,
        Some(inner) => {
            let hex = slot_hex(b, inner.0, inner.1);
            hex.len() < 6 || rgb_slices_ok(hex, 0)
        },
    }
}

/// Whether `detect_colors` reads the template without slicing inside a
/// character.
pub open spec fn colors_slices_ok(b: Seq<u8>) -> bool {
    forall|i: nat| i < 5 ==> #[trigger] color_slot_ok(b, i)
}

/// The colour slots among the first `n`: (variable, label, colour).
pub open spec fn detected_colors(b: Seq<u8>, n: nat) -> Seq<(Seq<char>, Seq<char>, Seq<u8>)>
    decreases n,
{
    if n == 0 {
        Seq::empty()
    } else {
        detected_colors(b, (n - 1) as nat) + match color_slot(b, (n - 1) as nat) {
            Some(slot) => seq![("C"@ + decimal((n - 1) as nat), slot.1, slot.0)],
            None => Seq::empty(),
        }
    }
}

/// The view of a detected colour: (variable, label, default colour).
pub open spec fn color_view(c: TemplateColor) -> (Seq<char>, Seq<char>, Seq<u8>) {
    (c.var@, c.label@, c.default@)
}

/// Reads three hexadecimal byte pairs at the start of `hex`.
fn rgb_from(hex: &[u8]) -> (r: Option<[u8; 3]>)
    requires
        hex@.len() >= 6,
    ensures
        rgb_view(r) == rgb_at(hex@, 0),
{
    let r = match parse_hex_pair_exec(hex[0], hex[1]) {
        Some(v) => v,
        None => {
            return None;
        },
    };
    let g = match parse_hex_pair_exec(hex[2], hex[3]) {
        Some(v) => v,
        None => {
            return None;
        },
    };
    let bl = match parse_hex_pair_exec(hex[4], hex[5]) {
        Some(v) => v,
        None => {
            return None;
        },
    };
    let c = [r, g, bl];
    assert(c@ =~= seq![r, g, bl]);
    Some(c)
}

/// A variable name: a letter followed by the slot number.
fn var_name(letter: &str, i: u64) -> (s: String)
    ensures
        s@ == letter@ + decimal(i as nat),
{
    let mut s = String::new();
    push_str(&mut s, letter);
    push_decimal(&mut s, i);
    s
}

fn color_slot_exec(template: &str, i: u8) -> (r: Option<TemplateColor>)
    requires
        i < 5,
        color_slot_ok(template.spec_bytes(), i as nat),
    ensures
        match color_slot(template.spec_bytes(), i as nat) {
            None => r is None,
            Some(slot) => r matches Some(c) && color_view(c) == ("C"@ + decimal(i as nat), slot.1, slot.0)
                && c.value@ == c.default@,
        },
{
    let b = template.as_bytes();
    let ghost bs = b@;
    proof {
        vstd::utf8::encode_utf8_valid_utf8(template@);
    }
    let len = b.len();
    let prefix: [u8; 6] = [123u8, 123, 67, 48 + i, 58, 35];
    assert(prefix@ =~= color_prefix(i as nat));
    assert(bs.subrange(0, len as int) =~= bs);
    let p = match find_in(b, 0, len, prefix.as_slice()) {
        Some(p) => p,
        None => {
            return None;
        },
    };
    let st = p + 6;
    let close: [u8; 2] = [125u8, 125];
    assert(close@ =~= close_braces());
    let en = match find_in(b, st, len, close.as_slice()) {
        Some(e) => e,
        None => {
            return None;
        },
    };
    assert(color_slot_inner(bs, i as nat) == Some((st as int, en as int)));
    let pipe: [u8; 1] = [124u8];
    assert(pipe@ =~= seq![124u8]);
    let lstart = find_in(b, st, en, pipe.as_slice());
    let hex_end = match lstart {
        Some(q) => q,
        None => en,
    };
    proof {
        match lstart {
            Some(q) => {
                assert(slot_label_start(bs, st as int, en as int) == Some(q + 1));
            },
            None => {},
        }
    }
    let hex = vstd::slice::slice_subrange(b, st, hex_end);
    assert(hex@ == slot_hex(bs, st as int, en as int));
    if hex.len() < 6 {
        return None;
    }
    let rgb = match rgb_from(hex) {
        Some(c) => c,
        None => {
            return None;
        },
    };
    let label = match lstart {
        Some(q) => {
            proof {
                assert(bs.subrange(q as int, q + 1) =~= seq![124u8]);
                assert(bs[q as int] == 124u8);
                lemma_boundary_after_ascii(bs, q + 1);
                assert(bs.subrange(en as int, en + 2) =~= close_braces());
                lemma_boundary_at_ascii(bs, en as int);
            }
            substring_bytes(template, q + 1, en)
        },
        None => {
            let mut l = String::new();
            push_str(&mut l, "Couleur C");
            push_decimal(&mut l, i as u64);
            l
        },
    };
    let var = var_name("C", i as u64);
    Some(TemplateColor { var, label, default: rgb, value: rgb })
}

/// Scans the template for the colour slots `{{C0:#RRGGBB|Label}}` to
/// `{{C4:...}}`: each slot present whose colour parses, in slot order.
pub fn detect_colors(template: &str) -> (r: Vec<TemplateColor>)
    requires
        colors_slices_ok(template.spec_bytes()),
    ensures
        r@.len() == detected_colors(template.spec_bytes(), 5).len(),
        forall|k: int| 0 <= k < r@.len() ==> color_view(#[trigger] r@[k]) == detected_colors(template.spec_bytes(), 5)[k],
        forall|k: int| 0 <= k < r@.len() ==> (#[trigger] r@[k]).value@ == r@[k].default@,
{
    let ghost bs = template.spec_bytes();
    let mut out: Vec<TemplateColor> = Vec::new();
    let mut i: u8 = 0;
    while i < 5
        invariant
            i <= 5,
            bs == template.spec_bytes(),
            colors_slices_ok(bs),
            out@.len() == detected_colors(bs, i as nat).len(),
            forall|k: int| 0 <= k < out@.len() ==> color_view(#[trigger] out@[k]) == detected_colors(bs, i as nat)[k],
            forall|k: int| 0 <= k < out@.len() ==> (#[trigger] out@[k]).value@ == out@[k].default@,
        decreases 5 - i,
    {
        assert(color_slot_ok(bs, i as nat));
        match color_slot_exec(template, i) {
            Some(c) => {
                out.push(c);
            },
            None => {},
        }
        assert(detected_colors(bs, (i + 1) as nat) == detected_colors(bs, i as nat) + match color_slot(bs, i as nat) {
            Some(slot) => seq![("C"@ + decimal(i as nat), slot.1, slot.0)],
            None => Seq::empty(),
        });
        i = i + 1;
    }
    out
}

/// Whether `detect_colors` can read `template`: it slices the slot colours
/// only at character boundaries.
pub fn colors_readable(template: &str) -> (ok: bool)
    ensures
        ok == colors_slices_ok(template.spec_bytes()),
{
    let mut i: u8 = 0;
    while i < 5
        invariant
            i <= 5,
            forall|k: nat| k < i ==> #[trigger] color_slot_ok(template.spec_bytes(), k),
        decreases 5 - i,
    {
        if !color_slot_readable(template, i) {
            return false;
        }
        i = i + 1;
    }
    true
}

fn color_slot_readable(template: &str, i: u8) -> (ok: bool)
    requires
        i < 5,
    ensures
        ok == color_slot_ok(template.spec_bytes(), i as nat),
{
    let b = template.as_bytes();
    let ghost bs = b@;
    proof {
        vstd::utf8::encode_utf8_valid_utf8(template@);
    }
    let len = b.len();
    let prefix: [u8; 6] = [123u8, 123, 67, 48 + i, 58, 35];
    assert(prefix@ =~= color_prefix(i as nat));
    assert(bs.subrange(0, len as int) =~= bs);
    let p = match find_in(b, 0, len, prefix.as_slice()) {
        Some(p) => p,
        None => {
            return true;
        },
    };
    let st = p + 6;
    let close: [u8; 2] = [125u8, 125];
    assert(close@ =~= close_braces());
    let en = match find_in(b, st, len, close.as_slice()) {
        Some(e) => e,
        None => {
            return true;
        },
    };
    let pipe: [u8; 1] = [124u8];
    assert(pipe@ =~= seq![124u8]);
    let lstart = find_in(b, st, en, pipe.as_slice());
    let hex_end = match lstart {
        Some(q) => q,
        None => en,
    };
    let hex = vstd::slice::slice_subrange(b, st, hex_end);
    assert(hex@ == slot_hex(bs, st as int, en as int));
    if hex.len() < 6 {
        return true;
    }
    proof {
        assert(bs.subrange(p as int, p + 6) =~= color_prefix(i as nat));
        assert(bs[st - 1] == 35u8);
        lemma_boundary_after_ascii(bs, st as int);
        match lstart {
            Some(q) => {
                assert(bs.subrange(q as int, q + 1) =~= seq![124u8]);
                assert(bs[q as int] == 124u8);
            },
            None => {
                assert(bs.subrange(en as int, en + 2) =~= close_braces());
            },
        }
        lemma_boundary_at_ascii(bs, hex_end as int);
        crate::text::lemma_valid_between(bs, st as int, hex_end as int);
    }
    if !is_boundary_exec(hex, 2) {
        return false;
    }
    if parse_hex_pair_exec(hex[0], hex[1]).is_none() {
        return true;
    }
    if !is_boundary_exec(hex, 4) {
        return false;
    }
    if parse_hex_pair_exec(hex[2], hex[3]).is_none() {
        return true;
    }
    is_boundary_exec(hex, 6)
}

// ─── Text fields `{{Fx}}` and `{{Fx:default}}` ───────────────────────────────

/// The bytes of `{{Fi}}`.
pub open spec fn field_simple(i: nat) -> Seq<u8> {
    seq![123u8, 123, 70, (48 + i) as u8, 125, 125]
}

/// The bytes of `{{Fi:`.
pub open spec fn field_ext_prefix(i: nat) -> Seq<u8> {
    seq![123u8, 123, 70, (48 + i) as u8, 58]
}

/// Whether the template uses field `i`, plain or with a default.
pub open spec fn field_present(b: Seq<u8>, i: nat) -> bool {
    find_first(b, field_simple(i)) is Some || find_first(b, field_ext_prefix(i)) is Some
}

/// The default text of the first `{{Fi:default}}`, or nothing.
pub open spec fn field_default(b: Seq<u8>, i: nat) -> Seq<char> {
    match find_first(b, field_ext_prefix(i)) {
        None => Seq::empty(),
        Some(p) => match find_first(b.subrange(p + 5, b.len() as int), close_braces()) {
            None => Seq::empty(),
            Some(e) => decode_utf8(b.subrange(p + 5, p + 5 + e)),
        },
    }
}

/// The label of field `i`: the layout's label, or `Champ` past them.
pub open spec fn field_label(labels: Seq<Seq<char>>, i: int) -> Seq<char> {
    if 0 <= i < labels.len() {
        labels[i]
    } else {
        "Champ"@
    }
}

/// The fields among the first `n` that the template uses: (variable,
/// label, default text).
pub open spec fn detected_fields(b: Seq<u8>, labels: Seq<Seq<char>>, n: nat) -> Seq<(Seq<char>, Seq<char>, Seq<char>)>
    decreases n,
{
    if n == 0 {
        Seq::empty()
    } else {
        detected_fields(b, labels, (n - 1) as nat) + if field_present(b, (n - 1) as nat) {
            seq![("F"@ + decimal((n - 1) as nat), field_label(labels, n - 1), field_default(b, (n - 1) as nat))]
        } else {
            Seq::empty()
        }
    }
}

/// The variable `Fi` of text field `i` (a single digit).
pub open spec fn field_var(i: nat) -> Seq<char> {
    seq!['F', ((48 + i) as u8) as char]
}

proof fn lemma_has_infix_found(b: Seq<u8>, pat: Seq<u8>)
    ensures
        has_infix(b, pat) <==> find_first(b, pat) is Some,
{
    if find_first(b, pat) is Some {
        lemma_find_from_some(b, pat, 0);
        let p = find_first(b, pat)->0;
        assert(occurs_at(b, pat, p));
        assert(b.subrange(p, p + pat.len()) == pat);
    } else {
        lemma_find_from_none(b, pat, 0);
        if has_infix(b, pat) {
            let p = choose|p: int| 0 <= p && p + pat.len() <= b.len() && #[trigger] b.subrange(p, p + pat.len()) == pat;
            assert(occurs_at(b, pat, p));
        }
    }
}

proof fn lemma_detected_vars(b: Seq<u8>, labels: Seq<Seq<char>>, n: nat)
    requires
        n <= 5,
    ensures
        forall|k: int|
            #![trigger detected_fields(b, labels, n)[k]]
            0 <= k < detected_fields(b, labels, n).len() ==> exists|j: nat|
                j < n && #[trigger] field_var(j) == detected_fields(b, labels, n)[k].0 && field_present(b, j)
                    && detected_fields(b, labels, n)[k].1 == field_label(labels, j as int),
        forall|j: nat|
            j < n && field_present(b, j) ==> exists|k: int|
                0 <= k < detected_fields(b, labels, n).len() && #[trigger] detected_fields(b, labels, n)[k].0 == field_var(j),
    decreases n,
{
    if n > 0 {
        let m = (n - 1) as nat;
        lemma_detected_vars(b, labels, m);
        let prev = detected_fields(b, labels, m);
        let cur = detected_fields(b, labels, n);
        reveal_strlit("F");
        assert("F"@ + decimal(m) =~= field_var(m));
        assert forall|k: int| #![trigger cur[k]] 0 <= k < cur.len() implies exists|j: nat|
            j < n && #[trigger] field_var(j) == cur[k].0 && field_present(b, j) && cur[k].1 == field_label(labels, j as int) by {
            if k < prev.len() {
                assert(cur[k] == prev[k]);
                let j = choose|j: nat|
                    j < m && #[trigger] field_var(j) == prev[k].0 && field_present(b, j) && prev[k].1 == field_label(labels, j as int);
                assert(field_var(j) == cur[k].0);
            } else {
                assert(field_var(m) == cur[k].0);
            }
        }
        assert forall|j: nat| j < n && field_present(b, j) implies exists|k: int|
            0 <= k < cur.len() && #[trigger] cur[k].0 == field_var(j) by {
            if j < m {
                let k = choose|k: int| 0 <= k < prev.len() && #[trigger] prev[k].0 == field_var(j);
                assert(cur[k] == prev[k]);
            } else {
                assert(cur[prev.len() as int].0 == field_var(j));
            }
        }
    }
}

/// A template's text fields are exactly those it uses: for each `i` below
/// five, the bytes `{{Fi}}` or `{{Fi:` occur in the template exactly when
/// the detected fields hold one with variable `Fi`, and that field carries
/// the layout's `i`-th label (or `Champ` past the labels).
pub proof fn law_detected_fields_are_the_used_ones(b: Seq<u8>, labels: Seq<Seq<char>>, i: nat)
    requires
        i < 5,
    ensures
        (has_infix(b, seq![123u8, 123, 70, (48 + i) as u8, 125, 125]) || has_infix(b, seq![123u8, 123, 70, (48 + i) as u8, 58]))
            <==> exists|k: int|
            0 <= k < detected_fields(b, labels, 5).len() && #[trigger] detected_fields(b, labels, 5)[k].0 == field_var(i),
        forall|k: int|
            0 <= k < detected_fields(b, labels, 5).len() && #[trigger] detected_fields(b, labels, 5)[k].0 == field_var(i)
                ==> detected_fields(b, labels, 5)[k].1 == (if i < labels.len() {
                labels[i as int]
            } else {
                "Champ"@
            }),
{
    lemma_detected_vars(b, labels, 5);
    lemma_has_infix_found(b, field_simple(i));
    lemma_has_infix_found(b, field_ext_prefix(i));
    let d = detected_fields(b, labels, 5);
    assert(seq![123u8, 123, 70, (48 + i) as u8, 125, 125] =~= field_simple(i));
    assert(seq![123u8, 123, 70, (48 + i) as u8, 58] =~= field_ext_prefix(i));
    assert forall|k: int| 0 <= k < d.len() && #[trigger] d[k].0 == field_var(i) implies field_present(b, i) && d[k].1
        == field_label(labels, i as int) by {
        let j = choose|j: nat|
            j < 5 && #[trigger] field_var(j) == d[k].0 && field_present(b, j) && d[k].1 == field_label(labels, j as int);
        lemma_field_var_injective(i, j);
    }
    if field_present(b, i) {
        assert(exists|k: int| 0 <= k < d.len() && #[trigger] d[k].0 == field_var(i));
    }
}

proof fn lemma_field_var_injective(i: nat, j: nat)
    requires
        i < 5,
        j < 5,
        field_var(i) == field_var(j),
    ensures
        i == j,
{
    assert(field_var(i)[1] == field_var(j)[1]);
}

/// The view of a detected field: (variable, label, default text).
pub open spec fn field_view(f: TemplateField) -> (Seq<char>, Seq<char>, Seq<char>) {
    (f.var@, f.label@, f.default@)
}

/// The texts of a slice of string slices.
pub open spec fn strs_view(v: Seq<&str>) -> Seq<Seq<char>> {
    Seq::new(v.len(), |i: int| v[i]@)
}

/// The default text of `{{Fi:default}}` in the template, or an empty string.
fn extract_default(template: &str, i: u8) -> (r: String)
    requires
        i < 5,
    ensures
        r@ == field_default(template.spec_bytes(), i as nat),
{
    let b = template.as_bytes();
    let ghost bs = b@;
    proof {
        vstd::utf8::encode_utf8_valid_utf8(template@);
    }
    let len = b.len();
    let prefix: [u8; 5] = [123u8, 123, 70, 48 + i, 58];
    assert(prefix@ =~= field_ext_prefix(i as nat));
    assert(bs.subrange(0, len as int) =~= bs);
    if let Some(p) = find_in(b, 0, len, prefix.as_slice()) {
        let st = p + 5;
        let close: [u8; 2] = [125u8, 125];
        assert(close@ =~= close_braces());
        if let Some(en) = find_in(b, st, len, close.as_slice()) {
            proof {
                assert(bs[st - 1] == 58u8);
                lemma_boundary_after_ascii(bs, st as int);
                assert(bs[en as int] == 125u8);
                lemma_boundary_at_ascii(bs, en as int);
            }
            return substring_bytes(template, st, en);
        }
    }
    String::new()
}

fn field_present_exec(template: &str, i: u8) -> (r: bool)
    requires
        i < 5,
    ensures
        r == field_present(template.spec_bytes(), i as nat),
{
    let b = template.as_bytes();
    let len = b.len();
    assert(b@.subrange(0, len as int) =~= b@);
    let simple: [u8; 6] = [123u8, 123, 70, 48 + i, 125, 125];
    assert(simple@ =~= field_simple(i as nat));
    let ext: [u8; 5] = [123u8, 123, 70, 48 + i, 58];
    assert(ext@ =~= field_ext_prefix(i as nat));
    find_in(b, 0, len, simple.as_slice()).is_some() || find_in(b, 0, len, ext.as_slice()).is_some()
}

/// Scans the template for the fields `{{F0}}` to `{{F4}}` (plain or as
/// `{{Fi:default}}`): each field used, in order, labelled from
/// `layout_labels` (or `Champ`), with its default text, an empty value,
/// and shown.
pub fn detect_fields(template: &str, layout_labels: &[&str]) -> (r: Vec<TemplateField>)
    ensures
        r@.len() == detected_fields(template.spec_bytes(), strs_view(layout_labels@), 5).len(),
        forall|k: int| 0 <= k < r@.len() ==> field_view(#[trigger] r@[k]) == detected_fields(
            template.spec_bytes(),
            strs_view(layout_labels@),
            5,
        )[k],
        forall|k: int| 0 <= k < r@.len() ==> (#[trigger] r@[k]).value@.len() == 0 && r@[k].visible,
{
    let ghost bs = template.spec_bytes();
    let ghost labels = strs_view(layout_labels@);
    let mut out: Vec<TemplateField> = Vec::new();
    let mut i: u8 = 0;
    while i < 5
        invariant
            i <= 5,
            bs == template.spec_bytes(),
            labels == strs_view(layout_labels@),
            out@.len() == detected_fields(bs, labels, i as nat).len(),
            forall|k: int| 0 <= k < out@.len() ==> field_view(#[trigger] out@[k]) == detected_fields(bs, labels, i as nat)[k],
            forall|k: int| 0 <= k < out@.len() ==> (#[trigger] out@[k]).value@.len() == 0 && out@[k].visible,
        decreases 5 - i,
    {
        if field_present_exec(template, i) {
            let default = extract_default(template, i);
            let label = if (i as usize) < layout_labels.len() {
                layout_labels[i as usize].to_owned()
            } else {
                "Champ".to_owned()
            };
            assert(label@ == field_label(labels, i as int));
            let f = TemplateField { var: var_name("F", i as u64), label, default, value: String::new(), visible: true };
            out.push(f);
        }
        assert(detected_fields(bs, labels, (i + 1) as nat) == detected_fields(bs, labels, i as nat) + if field_present(bs, i as nat) {
            seq![("F"@ + decimal(i as nat), field_label(labels, i as int), field_default(bs, i as nat))]
        } else {
            Seq::empty()
        });
        i = i + 1;
    }
    out
}

} // verus!
