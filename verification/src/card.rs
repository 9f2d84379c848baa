//! Card designer: layouts (business card, label, badge, flyer) and their SVG.
use vstd::prelude::*;
use crate::qr::encoder::{matrix_view, QrMatrix};
use crate::raster::{png_data_uri, png_rgba, push_png_data_uri, render_modules, renderable, rendered, ModuleStyle, RgbaRaster};
use crate::scale::{f32_scale, f32_scale_exec, lemma_scale_at_most, lemma_scale_below_one};
use crate::text::{decimal, hex_color, int_decimal, push_decimal, push_decimal_wide, push_hex_color, push_int, push_str, push_xml_escaped, xml_escaped};

verus! {

/// A card layout.
#[derive(Clone, Copy, PartialEq, Eq, Debug, Structural)]
pub enum CardLayout {
    BusinessCard,
    Label,
    Badge,
    Flyer,
}

/// Mantissa and exponent of the `f32` millimetre-to-pixel factor 3.78
/// (3.78 rounds to 15854469 * 2^-22).
pub open spec fn mm_factor_mant() -> nat {
    15854469
}

/// Pixels at 96 dpi for a length in millimetres: `(v * 3.78) as u32` in `f32`.
pub open spec fn mm_spec(v: nat) -> nat {
    f32_scale(v, mm_factor_mant(), 22)
}

fn mm(v: u32) -> (px: u32)
    ensures
        px == mm_spec(v as nat),
{
    f32_scale_exec(v, 15854469, 22)
}

impl CardLayout {
    /// Every layout, in menu order.
    pub fn all() -> (v: Vec<CardLayout>)
        ensures
            v@ == seq![CardLayout::BusinessCard, CardLayout::Label, CardLayout::Badge, CardLayout::Flyer],
    {
        let v = vec![CardLayout::BusinessCard, CardLayout::Label, CardLayout::Badge, CardLayout::Flyer];
        assert(v@ =~= seq![CardLayout::BusinessCard, CardLayout::Label, CardLayout::Badge, CardLayout::Flyer]);
        v
    }

    pub open spec fn label_spec(self) -> Seq<char> {
        match self {
            CardLayout::BusinessCard => "Carte de visite (85×54 mm)"@,
            CardLayout::Label => "Étiquette QR (60×60 mm)"@,
            CardLayout::Badge => "Badge (90×60 mm)"@,
            CardLayout::Flyer => "Flyer compact (A6)"@,
        }
    }

    pub fn label(&self) -> (s: &'static str)
        ensures
            s@ == self.label_spec(),
    {
        match self {
            CardLayout::BusinessCard => "Carte de visite (85×54 mm)",
            CardLayout::Label => "Étiquette QR (60×60 mm)",
            CardLayout::Badge => "Badge (90×60 mm)",
            CardLayout::Flyer => "Flyer compact (A6)",
        }
    }

    /// Physical size in millimetres (width, height).
    pub open spec fn size_mm(self) -> (nat, nat) {
        match self {
            CardLayout::BusinessCard => (85, 54),
            CardLayout::Label => (60, 60),
            CardLayout::Badge => (90, 60),
            CardLayout::Flyer => (148, 105),
        }
    }

    /// Canvas size in pixels at 96 dpi.
    pub open spec fn canvas_px_spec(self) -> (u32, u32) {
        (mm_spec(self.size_mm().0) as u32, mm_spec(self.size_mm().1) as u32)
    }

    /// Canvas dimensions in pixels at 96 dpi (for preview / PNG export).
    pub fn canvas_px(&self) -> (r: (u32, u32))
        ensures
            r == self.canvas_px_spec(),
    {
        match self {
            CardLayout::BusinessCard => (mm(85), mm(54)),
            CardLayout::Label => (mm(60), mm(60)),
            CardLayout::Badge => (mm(90), mm(60)),
            CardLayout::Flyer => (mm(148), mm(105)),
        }
    }

    /// The labels of the layout's text fields.
    pub open spec fn field_labels_spec(self) -> Seq<Seq<char>> {
        match self {
            CardLayout::BusinessCard => seq!["Nom"@, "Titre / Poste"@, "Téléphone"@, "Email"@, "Site web"@],
            CardLayout::Label => seq!["Titre"@, "Description"@],
            CardLayout::Badge => seq!["Nom"@, "Organisation"@, "Identifiant"@],
            CardLayout::Flyer => seq!["Titre"@, "Sous-titre"@, "Description"@, "Contact"@],
        }
    }

    /// Field labels for the text zones.
    pub fn field_labels(&self) -> (v: &'static [&'static str])
        ensures
            v@.len() == self.field_labels_spec().len(),
            forall|i: int| 0 <= i < v@.len() ==> (#[trigger] v@[i])@ == self.field_labels_spec()[i],
    {
        match self {
            CardLayout::BusinessCard => &["Nom", "Titre / Poste", "Téléphone", "Email", "Site web"],
            CardLayout::Label => &["Titre", "Description"],
            CardLayout::Badge => &["Nom", "Organisation", "Identifiant"],
            CardLayout::Flyer => &["Titre", "Sous-titre", "Description", "Contact"],
        }
    }
}

/// A card: layout, colours and the text of its fields.
#[derive(Clone)]
pub struct CardConfig {
    pub layout: CardLayout,
    pub bg_color: [u8; 3],
    pub text_color: [u8; 3],
    pub accent_color: [u8; 3],
    pub fields: Vec<String>,
}

impl CardConfig {
    /// A card of `layout` with white background, dark text, blue accent
    /// and one empty field per field label.
    pub fn new(layout: CardLayout) -> (c: Self)
        ensures
            c.layout == layout,
            c.bg_color@ == seq![255u8, 255, 255],
            c.text_color@ == seq![30u8, 30, 30],
            c.accent_color@ == seq![50u8, 100, 200],
            c.fields@.len() == layout.field_labels_spec().len(),
            forall|i: int| 0 <= i < c.fields@.len() ==> (#[trigger] c.fields@[i])@.len() == 0,
    {
        let labels = layout.field_labels();
        let mut fields: Vec<String> = Vec::new();
        let mut i: usize = 0;
        while i < labels.len()
            invariant
                i <= labels@.len(),
                fields@.len() == i,
                forall|k: int| 0 <= k < i ==> (#[trigger] fields@[k])@.len() == 0,
            decreases labels@.len() - i,
        {
            fields.push(String::new());
            i = i + 1;
        }
        let c = CardConfig {
            layout,
            bg_color: [255, 255, 255],
            text_color: [30, 30, 30],
            accent_color: [50, 100, 200],
            fields,
        };
        assert(c.bg_color@ =~= seq![255u8, 255, 255]);
        assert(c.text_color@ =~= seq![30u8, 30, 30]);
        assert(c.accent_color@ =~= seq![50u8, 100, 200]);
        c
    }
}

impl Default for CardConfig {
    fn default() -> (c: Self)
        ensures
            c.layout == CardLayout::BusinessCard,
            c.bg_color@ == seq![255u8, 255, 255],
            c.text_color@ == seq![30u8, 30, 30],
            c.accent_color@ == seq![50u8, 100, 200],
            c.fields@.len() == 5,
            forall|i: int| 0 <= i < c.fields@.len() ==> (#[trigger] c.fields@[i])@.len() == 0,
    {
        Self::new(CardLayout::BusinessCard)
    }
}


// ─── SVG rendering ───────────────────────────────────────────────────────────

/// Canvas width and height of a layout, in pixels.
pub open spec fn canvas_w(l: CardLayout) -> nat {
    l.canvas_px_spec().0 as nat
}

pub open spec fn canvas_h(l: CardLayout) -> nat {
    l.canvas_px_spec().1 as nat
}

pub proof fn lemma_canvas_bounds(l: CardLayout)
    ensures
        canvas_w(l) <= 1184,
        canvas_h(l) <= 1184,
        canvas_w(l) == mm_spec(l.size_mm().0),
        canvas_h(l) == mm_spec(l.size_mm().1),
{
    vstd::arithmetic::power2::lemma2_to64();
    lemma_scale_at_most(l.size_mm().0, 15854469, 22, 4);
    lemma_scale_at_most(l.size_mm().1, 15854469, 22, 4);
}

/// Where the card's SVG puts the QR code: (x, y, side).
pub open spec fn card_qr_box(l: CardLayout) -> (nat, nat, nat) {
    let w = canvas_w(l);
    let h = canvas_h(l);
    match l {
        CardLayout::BusinessCard => (f32_scale(h, 12079596, 27), f32_scale(h, 12079596, 27), f32_scale(h, 13757317, 24)),
        CardLayout::Label => {
            let sz = f32_scale(w, 9730785, 24);
            (((w - sz) / 2) as nat, f32_scale(h, 16106127, 28), sz)
        },
        CardLayout::Badge => {
            let sz = f32_scale(h, 12582912, 24);
            (f32_scale(h, 16106127, 27), ((h - sz) / 2) as nat, sz)
        },
        CardLayout::Flyer => {
            let sz = f32_scale(w, 13421773, 25);
            (((w - sz) / 2) as nat, f32_scale(h, 13421773, 27), sz)
        },
    }
}

/// The QR box of the card SVG.
pub fn card_qr_box_exec(l: CardLayout) -> (r: (u32, u32, u32))
    ensures
        (r.0 as nat, r.1 as nat, r.2 as nat) == card_qr_box(l),
        r.0 <= 1184,
        r.1 <= 1184,
        r.2 <= 1184,
{
    let (w, h) = l.canvas_px();
    proof {
        lemma_canvas_bounds(l);
        vstd::arithmetic::power2::lemma2_to64();
        lemma_scale_below_one(w as nat, 9730785, 24);
        lemma_scale_below_one(w as nat, 13421773, 25);
        lemma_scale_below_one(h as nat, 12079596, 27);
        lemma_scale_below_one(h as nat, 13757317, 24);
        lemma_scale_below_one(h as nat, 16106127, 28);
        lemma_scale_below_one(h as nat, 12582912, 24);
        lemma_scale_below_one(h as nat, 16106127, 27);
        lemma_scale_below_one(h as nat, 13421773, 27);
    }
    match l {
        CardLayout::BusinessCard => (f32_scale_exec(h, 12079596, 27), f32_scale_exec(h, 12079596, 27), f32_scale_exec(h, 13757317, 24)),
        CardLayout::Label => {
            let sz = f32_scale_exec(w, 9730785, 24);
            ((w - sz) / 2, f32_scale_exec(h, 16106127, 28), sz)
        },
        CardLayout::Badge => {
            let sz = f32_scale_exec(h, 12582912, 24);
            (f32_scale_exec(h, 16106127, 27), (h - sz) / 2, sz)
        },
        CardLayout::Flyer => {
            let sz = f32_scale_exec(w, 13421773, 25);
            ((w - sz) / 2, f32_scale_exec(h, 13421773, 27), sz)
        },
    }
}

/// The text column of the card SVG: (x, `textLength`, first baseline).
/// Centred layouts use the canvas centre and have no `textLength`.
pub open spec fn card_text_column(l: CardLayout) -> (int, int, int) {
    let w = canvas_w(l) as int;
    let h = canvas_h(l);
    let b = card_qr_box(l);
    match l {
        CardLayout::BusinessCard => {
            let tx = (b.0 + b.2 + f32_scale(h, 9395241, 27)) as int;
            (tx, w - tx - f32_scale(h, 16106127, 28), (b.1 + 8) as int)
        },
        CardLayout::Label => (w / 2, 0, (b.1 + b.2 + 10) as int),
        CardLayout::Badge => {
            let tx = (b.0 + b.2 + 16) as int;
            (tx, w - tx - 10, f32_scale(h, 10737418, 25) as int)
        },
        CardLayout::Flyer => (w / 2, 0, (b.1 + b.2 + 14) as int),
    }
}

/// Font size, accent colour and boldness of the text of field `i`.
pub open spec fn card_text_style(l: CardLayout, i: int) -> (nat, bool, bool) {
    match l {
        CardLayout::BusinessCard => if i == 0 {
            (15, false, true)
        } else if i == 1 {
            (10, true, false)
        } else {
            (9, false, false)
        },
        CardLayout::Label => if i == 0 {
            (13, true, false)
        } else {
            (9, false, false)
        },
        CardLayout::Badge => if i == 0 {
            (16, false, true)
        } else if i == 1 {
            (10, true, false)
        } else {
            (8, false, false)
        },
        CardLayout::Flyer => if i == 0 {
            (18, true, true)
        } else if i == 1 {
            (12, false, true)
        } else {
            (10, false, false)
        },
    }
}

/// How far the baseline moves down after the text of field `i`.
pub open spec fn card_line_step(l: CardLayout, i: int) -> int {
    card_text_style(l, i).0 + match l {
        CardLayout::BusinessCard => 5int,
        CardLayout::Label => 4int,
        CardLayout::Badge => 6int,
        CardLayout::Flyer => 5int,
    }
}

/// The icon before the text of field `i` of a business card.
pub open spec fn card_icon(i: int) -> Seq<char> {
    if i == 2 {
        "☎ "@
    } else if i == 3 {
        "✉ "@
    } else if i == 4 {
        "🌐 "@
    } else {
        Seq::empty()
    }
}

/// A left-aligned `<text>` element stretched to `textLength`.
pub open spec fn stretched_text(x: int, ty: int, fs: nat, weight: Seq<char>, color: Seq<char>, len: int, hint: Seq<char>, body: Seq<char>) -> Seq<char> {
    "  <text x=\""@ + int_decimal(x) + "\" y=\""@ + int_decimal(ty)
        + "\" font-family=\"Arial,sans-serif\" font-size=\""@ + decimal(fs) + "\"\n       font-weight=\""@
        + weight + "\" fill=\""@ + color + "\" textLength=\""@ + int_decimal(len)
        + "\"\n       lengthAdjust=\"spacingAndGlyphs\"><!-- "@ + hint + " -->"@ + body + "</text>\n"@
}

/// A centred `<text>` element of normal weight, the comment on its own line.
pub open spec fn centred_text(x: int, ty: int, fs: nat, color: Seq<char>, hint: Seq<char>, body: Seq<char>) -> Seq<char> {
    "  <text x=\""@ + int_decimal(x) + "\" y=\""@ + int_decimal(ty)
        + "\" text-anchor=\"middle\"\n       font-family=\"Arial,sans-serif\" font-size=\""@ + decimal(fs)
        + "\" fill=\""@ + color + "\">\n    <!-- "@ + hint + " -->"@ + body + "</text>\n"@
}

/// A centred `<text>` element with a font weight.
pub open spec fn centred_weighted_text(x: int, ty: int, fs: nat, weight: Seq<char>, color: Seq<char>, hint: Seq<char>, body: Seq<char>) -> Seq<char> {
    "  <text x=\""@ + int_decimal(x) + "\" y=\""@ + int_decimal(ty)
        + "\" text-anchor=\"middle\"\n       font-family=\"Arial,sans-serif\" font-size=\""@ + decimal(fs)
        + "\" font-weight=\""@ + weight + "\"\n       fill=\""@ + color + "\"><!-- "@ + hint + " -->"@
        + body + "</text>\n"@
}

/// The `<text>` element of field `i` at baseline `ty`.
#[verifier::opaque]
pub open spec fn card_text_element(
    l: CardLayout,
    i: int,
    ty: int,
    field: Seq<char>,
    hint: Seq<char>,
    fg: Seq<char>,
    acc: Seq<char>,
) -> Seq<char> {
    let col = card_text_column(l);
    let st = card_text_style(l, i);
    let color = if st.1 {
        acc
    } else {
        fg
    };
    let weight = if st.2 {
        "bold"@
    } else {
        "normal"@
    };
    match l {
        CardLayout::BusinessCard => stretched_text(col.0, ty, st.0, weight, color, col.1, hint, card_icon(i) + xml_escaped(field)),
        CardLayout::Badge => stretched_text(col.0, ty, st.0, weight, color, col.1, hint, xml_escaped(field)),
        CardLayout::Label => centred_text(col.0, ty, st.0, color, hint, xml_escaped(field)),
        CardLayout::Flyer => centred_weighted_text(col.0, ty, st.0, weight, color, hint, xml_escaped(field)),
    }
}

/// The label of field `i`, empty past the layout's labels.
pub open spec fn card_hint(l: CardLayout, i: int) -> Seq<char> {
    if 0 <= i < l.field_labels_spec().len() {
        l.field_labels_spec()[i]
    } else {
        Seq::empty()
    }
}

/// The text elements of the non-empty fields from `i` on, the first at
/// baseline `ty`.
pub open spec fn card_lines(l: CardLayout, fields: Seq<Seq<char>>, fg: Seq<char>, acc: Seq<char>, i: int, ty: int) -> Seq<char>
    decreases fields.len() - i,
{
    if i < 0 || i >= fields.len() {
        Seq::empty()
    } else if fields[i].len() == 0 {
        card_lines(l, fields, fg, acc, i + 1, ty)
    } else {
        card_text_element(l, i, ty, fields[i], card_hint(l, i), fg, acc) + card_lines(
            l,
            fields,
            fg,
            acc,
            i + 1,
            ty + card_line_step(l, i),
        )
    }
}

/// The texts of the fields of a card.
pub open spec fn fields_view(c: CardConfig) -> Seq<Seq<char>> {
    Seq::new(c.fields@.len(), |i: int| c.fields@[i]@)
}

/// The QR element at (x, y) of side `size`: the PNG as a data URI, or a
/// grey placeholder.
pub open spec fn card_qr_element(x: nat, y: nat, size: nat, png: Option<Seq<u8>>) -> Seq<char> {
    match png {
        None => "  <rect x=\""@ + decimal(x) + "\" y=\""@ + decimal(y) + "\" width=\""@ + decimal(size)
            + "\" height=\""@ + decimal(size) + "\" fill=\"#CCCCCC\" rx=\"4\"/>\n  <text x=\""@ + decimal(x + size / 2)
            + "\" y=\""@ + decimal(y + size / 2)
            + "\" text-anchor=\"middle\" fill=\"#888\" font-size=\"12\">QR code</text>\n"@,
        Some(p) => "  <image x=\""@ + decimal(x) + "\" y=\""@ + decimal(y) + "\" width=\""@ + decimal(size)
            + "\" height=\""@ + decimal(size) + "\"\n       xlink:href=\""@ + png_data_uri(p) + "\"/>\n"@,
    }
}

/// The accent decoration of a layout: a bar left of the text of a business
/// card, a header strip on a badge.
pub open spec fn card_decoration(l: CardLayout, acc: Seq<char>) -> Seq<char> {
    let b = card_qr_box(l);
    match l {
        CardLayout::BusinessCard => "  <rect x=\""@ + int_decimal(card_text_column(l).0 - 6) + "\" y=\""@ + decimal(b.1)
            + "\" width=\"3\" height=\""@ + decimal(b.2) + "\" fill=\""@ + acc + "\" rx=\"1\"/>\n"@,
        CardLayout::Badge => "  <rect x=\"0\" y=\"0\" width=\""@ + decimal(canvas_w(l)) + "\" height=\"12\" fill=\""@ + acc
            + "\"/>\n"@,
        _ => Seq::empty(),
    }
}

/// The SVG document of a card, with the QR code given as PNG bytes.
pub open spec fn card_svg(c: CardConfig, png: Option<Seq<u8>>) -> Seq<char> {
    let l = c.layout;
    let w = decimal(canvas_w(l));
    let h = decimal(canvas_h(l));
    let b = card_qr_box(l);
    "<?xml version=\"1.0\" encoding=\"UTF-8\"?>\n<svg xmlns=\"http://www.w3.org/2000/svg\" xmlns:xlink=\"http://www.w3.org/1999/xlink\"\n     width=\""@
        + w + "\" height=\""@ + h + "\" viewBox=\"0 0 "@ + w + " "@ + h + "\">\n  <rect width=\""@ + w + "\" height=\""@ + h
        + "\" fill=\""@ + hex_color(c.bg_color@) + "\"/>\n"@ + card_qr_element(b.0, b.1, b.2, png) + card_decoration(
        l,
        hex_color(c.accent_color@),
    ) + card_lines(l, fields_view(c), hex_color(c.text_color@), hex_color(c.accent_color@), 0, card_text_column(l).2)
        + "</svg>\n"@
}

/// The PNG bytes of an optional raster.
pub open spec fn raster_png(qr: Option<&RgbaRaster>) -> Option<Seq<u8>> {
    match qr {
        Some(img) => Some(png_rgba(img.pixels@, img.width, img.height)),
        None => None,
    }
}

/// Whether a raster's buffer matches its dimensions.
pub open spec fn raster_ok(qr: Option<&RgbaRaster>) -> bool {
    match qr {
        Some(img) => img.pixels@.len() == img.width * img.height * 4,
        None => true,
    }
}

fn push_qr_element(out: &mut String, x: u32, y: u32, size: u32, qr: Option<&RgbaRaster>)
    requires
        raster_ok(qr),
        x <= 1184,
        y <= 1184,
        size <= 1184,
    ensures
        final(out)@ == old(out)@ + card_qr_element(x as nat, y as nat, size as nat, raster_png(qr)),
{
    match qr {
        None => {
            push_str(out, "  <rect x=\"");
            push_decimal(out, x as u64);
            push_str(out, "\" y=\"");
            push_decimal(out, y as u64);
            push_str(out, "\" width=\"");
            push_decimal(out, size as u64);
            push_str(out, "\" height=\"");
            push_decimal(out, size as u64);
            push_str(out, "\" fill=\"#CCCCCC\" rx=\"4\"/>\n  <text x=\"");
            push_decimal(out, (x + size / 2) as u64);
            push_str(out, "\" y=\"");
            push_decimal(out, (y + size / 2) as u64);
            push_str(out, "\" text-anchor=\"middle\" fill=\"#888\" font-size=\"12\">QR code</text>\n");
        },
        Some(img) => {
            push_str(out, "  <image x=\"");
            push_decimal(out, x as u64);
            push_str(out, "\" y=\"");
            push_decimal(out, y as u64);
            push_str(out, "\" width=\"");
            push_decimal(out, size as u64);
            push_str(out, "\" height=\"");
            push_decimal(out, size as u64);
            push_str(out, "\"\n       xlink:href=\"");
            push_png_data_uri(out, img);
            push_str(out, "\"/>\n");
        },
    }
}

fn card_text_column_exec(l: CardLayout) -> (r: (i64, i64, i64))
    ensures
        (r.0 as int, r.1 as int, r.2 as int) == card_text_column(l),
        -10000 <= r.0 <= 10000,
        -10000 <= r.1 <= 10000,
        0 <= r.2 <= 10000,
{
    let (w, h) = l.canvas_px();
    let (x, y, sz) = card_qr_box_exec(l);
    proof {
        lemma_canvas_bounds(l);
        vstd::arithmetic::power2::lemma2_to64();
        lemma_scale_below_one(h as nat, 9395241, 27);
        lemma_scale_below_one(h as nat, 16106127, 28);
        lemma_scale_below_one(h as nat, 10737418, 25);
    }
    match l {
        CardLayout::BusinessCard => {
            let tx = (x as i64) + (sz as i64) + (f32_scale_exec(h, 9395241, 27) as i64);
            (tx, (w as i64) - tx - (f32_scale_exec(h, 16106127, 28) as i64), (y as i64) + 8)
        },
        CardLayout::Label => ((w / 2) as i64, 0, (y as i64) + (sz as i64) + 10),
        CardLayout::Badge => {
            let tx = (x as i64) + (sz as i64) + 16;
            (tx, (w as i64) - tx - 10, f32_scale_exec(h, 10737418, 25) as i64)
        },
        CardLayout::Flyer => ((w / 2) as i64, 0, (y as i64) + (sz as i64) + 14),
    }
}

fn card_text_style_exec(l: CardLayout, i: usize) -> (r: (u64, bool, bool))
    ensures
        (r.0 as nat, r.1, r.2) == card_text_style(l, i as int),
        r.0 <= 18,
{
    match l {
        CardLayout::BusinessCard => if i == 0 {
            (15, false, true)
        } else if i == 1 {
            (10, true, false)
        } else {
            (9, false, false)
        },
        CardLayout::Label => if i == 0 {
            (13, true, false)
        } else {
            (9, false, false)
        },
        CardLayout::Badge => if i == 0 {
            (16, false, true)
        } else if i == 1 {
            (10, true, false)
        } else {
            (8, false, false)
        },
        CardLayout::Flyer => if i == 0 {
            (18, true, true)
        } else if i == 1 {
            (12, false, true)
        } else {
            (10, false, false)
        },
    }
}

fn push_stretched_text(out: &mut String, x: i64, ty: u128, fs: u64, weight: &str, color: &str, len: i64, hint: &str, icon: &str, field: &str)
    requires
        x > i64::MIN,
        len > i64::MIN,
    ensures
        final(out)@ == old(out)@ + stretched_text(x as int, ty as int, fs as nat, weight@, color@, len as int, hint@, icon@ + xml_escaped(field@)),
{
    let ghost start = out@;
    push_str(out, "  <text x=\"");
    push_int(out, x);
    push_str(out, "\" y=\"");
    push_decimal_wide(out, ty);
    push_str(out, "\" font-family=\"Arial,sans-serif\" font-size=\"");
    push_decimal(out, fs);
    push_str(out, "\"\n       font-weight=\"");
    push_str(out, weight);
    push_str(out, "\" fill=\"");
    push_str(out, color);
    push_str(out, "\" textLength=\"");
    push_int(out, len);
    push_str(out, "\"\n       lengthAdjust=\"spacingAndGlyphs\"><!-- ");
    push_str(out, hint);
    push_str(out, " -->");
    push_str(out, icon);
    push_xml_escaped(out, field);
    push_str(out, "</text>\n");
    assert(out@ =~= start + stretched_text(x as int, ty as int, fs as nat, weight@, color@, len as int, hint@, icon@ + xml_escaped(field@)));
}

fn push_centred_text(out: &mut String, x: i64, ty: u128, fs: u64, color: &str, hint: &str, field: &str)
    requires
        x > i64::MIN,
    ensures
        final(out)@ == old(out)@ + centred_text(x as int, ty as int, fs as nat, color@, hint@, xml_escaped(field@)),
{
    let ghost start = out@;
    push_str(out, "  <text x=\"");
    push_int(out, x);
    push_str(out, "\" y=\"");
    push_decimal_wide(out, ty);
    push_str(out, "\" text-anchor=\"middle\"\n       font-family=\"Arial,sans-serif\" font-size=\"");
    push_decimal(out, fs);
    push_str(out, "\" fill=\"");
    push_str(out, color);
    push_str(out, "\">\n    <!-- ");
    push_str(out, hint);
    push_str(out, " -->");
    push_xml_escaped(out, field);
    push_str(out, "</text>\n");
    assert(out@ =~= start + centred_text(x as int, ty as int, fs as nat, color@, hint@, xml_escaped(field@)));
}

fn push_centred_weighted_text(out: &mut String, x: i64, ty: u128, fs: u64, weight: &str, color: &str, hint: &str, field: &str)
    requires
        x > i64::MIN,
    ensures
        final(out)@ == old(out)@ + centred_weighted_text(x as int, ty as int, fs as nat, weight@, color@, hint@, xml_escaped(field@)),
{
    let ghost start = out@;
    push_str(out, "  <text x=\"");
    push_int(out, x);
    push_str(out, "\" y=\"");
    push_decimal_wide(out, ty);
    push_str(out, "\" text-anchor=\"middle\"\n       font-family=\"Arial,sans-serif\" font-size=\"");
    push_decimal(out, fs);
    push_str(out, "\" font-weight=\"");
    push_str(out, weight);
    push_str(out, "\"\n       fill=\"");
    push_str(out, color);
    push_str(out, "\"><!-- ");
    push_str(out, hint);
    push_str(out, " -->");
    push_xml_escaped(out, field);
    push_str(out, "</text>\n");
    assert(out@ =~= start + centred_weighted_text(x as int, ty as int, fs as nat, weight@, color@, hint@, xml_escaped(field@)));
}

fn card_icon_exec(l: CardLayout, i: usize) -> (s: &'static str)
    ensures
        s@ == (if l == CardLayout::BusinessCard { card_icon(i as int) } else { Seq::empty() }),
{
    if l == CardLayout::BusinessCard {
        if i == 2 {
            "☎ "
        } else if i == 3 {
            "✉ "
        } else if i == 4 {
            "🌐 "
        } else {
            proof {
                reveal_strlit("");
            }
            ""
        }
    } else {
        proof {
            reveal_strlit("");
        }
        ""
    }
}

fn push_card_text(out: &mut String, l: CardLayout, i: usize, ty: u128, field: &str, hint: &str, fg: &str, acc: &str)
    ensures
        final(out)@ == old(out)@ + card_text_element(l, i as int, ty as int, field@, hint@, fg@, acc@),
{
    reveal(card_text_element);
    let (tx, tw, _) = card_text_column_exec(l);
    let (fs, accent, bold) = card_text_style_exec(l, i);
    let color = if accent {
        acc
    } else {
        fg
    };
    let weight = if bold {
        "bold"
    } else {
        "normal"
    };
    match l {
        CardLayout::BusinessCard | CardLayout::Badge => {
            let icon = card_icon_exec(l, i);
            push_stretched_text(out, tx, ty, fs, weight, color, tw, hint, icon, field);
            proof {
                if l == CardLayout::Badge {
                    assert(icon@ + xml_escaped(field@) =~= xml_escaped(field@));
                }
            }
        },
        CardLayout::Label => {
            push_centred_text(out, tx, ty, fs, color, hint, field);
        },
        CardLayout::Flyer => {
            push_centred_weighted_text(out, tx, ty, fs, weight, color, hint, field);
        },
    }
}

/// Renders the card as SVG: background, the QR code (the given raster as
/// an embedded PNG, or a grey placeholder), the layout's accent decoration,
/// and one text element per non-empty field.
pub fn to_svg(config: &CardConfig, qr: Option<&RgbaRaster>) -> (svg: String)
    requires
        raster_ok(qr),
    ensures
        svg@ == card_svg(*config, raster_png(qr)),
{
    let l = config.layout;
    let (w, h) = l.canvas_px();
    proof {
        lemma_canvas_bounds(l);
    }
    let bg = crate::text::hex(config.bg_color);
    let fg = crate::text::hex(config.text_color);
    let acc = crate::text::hex(config.accent_color);
    let mut svg = String::new();
    push_str(&mut svg, "<?xml version=\"1.0\" encoding=\"UTF-8\"?>\n<svg xmlns=\"http://www.w3.org/2000/svg\" xmlns:xlink=\"http://www.w3.org/1999/xlink\"\n     width=\"");
    push_decimal(&mut svg, w as u64);
    push_str(&mut svg, "\" height=\"");
    push_decimal(&mut svg, h as u64);
    push_str(&mut svg, "\" viewBox=\"0 0 ");
    push_decimal(&mut svg, w as u64);
    push_str(&mut svg, " ");
    push_decimal(&mut svg, h as u64);
    push_str(&mut svg, "\">\n  <rect width=\"");
    push_decimal(&mut svg, w as u64);
    push_str(&mut svg, "\" height=\"");
    push_decimal(&mut svg, h as u64);
    push_str(&mut svg, "\" fill=\"");
    push_str(&mut svg, bg.as_str());
    push_str(&mut svg, "\"/>\n");
    let (qx, qy, qsz) = card_qr_box_exec(l);
    push_qr_element(&mut svg, qx, qy, qsz, qr);
    let (tx, _, ty0) = card_text_column_exec(l);
    let ghost before_deco = svg@;
    match l {
        CardLayout::BusinessCard => {
            push_str(&mut svg, "  <rect x=\"");
            push_int(&mut svg, tx - 6);
            push_str(&mut svg, "\" y=\"");
            push_decimal(&mut svg, qy as u64);
            push_str(&mut svg, "\" width=\"3\" height=\"");
            push_decimal(&mut svg, qsz as u64);
            push_str(&mut svg, "\" fill=\"");
            push_str(&mut svg, acc.as_str());
            push_str(&mut svg, "\" rx=\"1\"/>\n");
        },
        CardLayout::Badge => {
            push_str(&mut svg, "  <rect x=\"0\" y=\"0\" width=\"");
            push_decimal(&mut svg, w as u64);
            push_str(&mut svg, "\" height=\"12\" fill=\"");
            push_str(&mut svg, acc.as_str());
            push_str(&mut svg, "\"/>\n");
        },
        _ => {},
    }
    proof {
        assert(svg@ =~= before_deco + card_decoration(l, acc@));
    }
    let ghost fields = fields_view(*config);
    let ghost prefix = svg@;
    let labels = l.field_labels();
    let mut ty: u128 = ty0 as u128;
    let mut i: usize = 0;
    let n = config.fields.len();
    while i < n
        invariant
            n == config.fields@.len(),
            i <= n,
            ty <= 10000 + 24 * i,
            0 <= ty0 <= 10000,
            fields == fields_view(*config),
            labels@.len() == l.field_labels_spec().len(),
            forall|k: int| 0 <= k < labels@.len() ==> (#[trigger] labels@[k])@ == l.field_labels_spec()[k],
            fg@ == hex_color(config.text_color@),
            acc@ == hex_color(config.accent_color@),
            svg@ + card_lines(l, fields, fg@, acc@, i as int, ty as int) == prefix + card_lines(
                l,
                fields,
                fg@,
                acc@,
                0,
                ty0 as int,
            ),
        decreases n - i,
    {
        let field = &config.fields[i];
        assert(field@ == fields[i as int]);
        if field.as_str().is_empty() {
            i = i + 1;
        } else {
            let hint: &str = if i < labels.len() {
                labels[i]
            } else {
                ""
            };
            proof {
                if i >= labels@.len() {
                    reveal_strlit("");
                }
                assert(hint@ == card_hint(l, i as int));
            }
            let ghost rest = card_lines(l, fields, fg@, acc@, i + 1, ty + card_line_step(l, i as int));
            let ghost old_svg = svg@;
            push_card_text(&mut svg, l, i, ty, field.as_str(), hint, fg.as_str(), acc.as_str());
            let (fs, _, _) = card_text_style_exec(l, i);
            let step: i64 = match l {
                CardLayout::BusinessCard => 5,
                CardLayout::Label => 4,
                CardLayout::Badge => 6,
                CardLayout::Flyer => 5,
            };
            proof {
                assert(svg@ + rest =~= old_svg + (card_text_element(l, i as int, ty as int, fields[i as int], card_hint(l, i as int), fg@, acc@) + rest));
            }
            ty = ty + (fs as u128) + (step as u128);
            i = i + 1;
        }
    }
    proof {
        assert(svg@ + Seq::<char>::empty() =~= svg@);
    }
    push_str(&mut svg, "</svg>\n");
    proof {
        assert(svg@ =~= card_svg(*config, raster_png(qr)));
    }
    svg
}

/// The module style of the QR code embedded in a card: modules sized so
/// that the code with its quiet zone plus one module fits `size`, at least
/// one pixel, and a quiet zone of two modules.
pub open spec fn embed_style_spec(style: ModuleStyle, size: nat, n: nat) -> ModuleStyle {
    let d = (n + 2 * style.quiet_zone + 1) as nat;
    let px = size / d;
    ModuleStyle {
        fg: style.fg,
        bg: style.bg,
        module_px: if px == 0 {
            1
        } else {
            px as u32
        },
        quiet_zone: 2,
    }
}

/// The module style for embedding an `n`-module code in a square of `size`.
pub fn embed_style(style: &ModuleStyle, size: u32, n: usize) -> (r: ModuleStyle)
    requires
        n + 2 * style.quiet_zone + 1 <= usize::MAX,
    ensures
        r == embed_style_spec(*style, size as nat, n as nat),
{
    let d = n + (style.quiet_zone as usize) * 2 + 1;
    let px = (size as usize) / d;
    ModuleStyle {
        fg: style.fg,
        bg: style.bg,
        module_px: if px == 0 {
            1
        } else {
            px as u32
        },
        quiet_zone: 2,
    }
}

/// The QR raster that the card SVG embeds: the matrix rendered with
/// `embed_style` for the layout's QR box.
pub fn card_qr_raster(config: &CardConfig, matrix: &QrMatrix, style: &ModuleStyle) -> (img: RgbaRaster)
    requires
        matrix@.len() + 2 * style.quiet_zone + 1 <= usize::MAX,
        renderable(matrix_view(matrix), embed_style_spec(*style, card_qr_box(config.layout).2, matrix@.len() as nat)),
    ensures
        img.width == img.height,
        img.width == rendered(matrix_view(matrix), embed_style_spec(*style, card_qr_box(config.layout).2, matrix@.len() as nat)).0,
        img.pixels@ == rendered(matrix_view(matrix), embed_style_spec(*style, card_qr_box(config.layout).2, matrix@.len() as nat)).1,
{
    let (_, _, size) = card_qr_box_exec(config.layout);
    let st = embed_style(style, size, matrix.len());
    render_modules(matrix, &st)
}

} // verus!
