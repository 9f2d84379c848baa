//! Export formats, and the vector documents of a QR code: SVG with merged
//! runs of modules, EPS, and the body of a Word document.
use vstd::prelude::*;
use crate::qr::encoder::{matrix_view, QrMatrix};
use crate::raster::{encode_png, png_rgba, RgbaRaster};
use crate::text::{decimal, hex_color, int_decimal, push_char, push_decimal, push_hex_color, push_int, push_padded, push_str, zero_padded};

verus! {

/// A file format the QR code can be exported to.
#[derive(Clone, Copy, PartialEq, Eq, Debug, Structural)]
pub enum ExportFormat {
    Png,
    Jpg,
    Svg,
    Pdf,
    Eps,
    Docx,
}

impl ExportFormat {
    /// Every format, in menu order.
    pub fn all() -> (v: Vec<ExportFormat>)
        ensures
            v@ == seq![
                ExportFormat::Png,
                ExportFormat::Jpg,
                ExportFormat::Svg,
                ExportFormat::Pdf,
                ExportFormat::Eps,
                ExportFormat::Docx,
            ],
    {
        let v = vec![
            ExportFormat::Png,
            ExportFormat::Jpg,
            ExportFormat::Svg,
            ExportFormat::Pdf,
            ExportFormat::Eps,
            ExportFormat::Docx,
        ];
        assert(v@ =~= seq![
            ExportFormat::Png,
            ExportFormat::Jpg,
            ExportFormat::Svg,
            ExportFormat::Pdf,
            ExportFormat::Eps,
            ExportFormat::Docx,
        ]);
        v
    }

    pub open spec fn label_spec(self) -> Seq<char> {
        match self {
            ExportFormat::Png => "PNG"@,
            ExportFormat::Jpg => "JPEG"@,
            ExportFormat::Svg => "SVG"@,
            ExportFormat::Pdf => "PDF"@,
            ExportFormat::Eps => "EPS"@,
            ExportFormat::Docx => "DOCX (Word)"@,
        }
    }

    /// The name shown for the format.
    pub fn label(&self) -> (s: &'static str)
        ensures
            s@ == self.label_spec(),
    {
        match self {
            ExportFormat::Png => "PNG",
            ExportFormat::Jpg => "JPEG",
            ExportFormat::Svg => "SVG",
            ExportFormat::Pdf => "PDF",
            ExportFormat::Eps => "EPS",
            ExportFormat::Docx => "DOCX (Word)",
        }
    }

    pub open spec fn extension_spec(self) -> Seq<char> {
        match self {
            ExportFormat::Png => "png"@,
            ExportFormat::Jpg => "jpg"@,
            ExportFormat::Svg => "svg"@,
            ExportFormat::Pdf => "pdf"@,
            ExportFormat::Eps => "eps"@,
            ExportFormat::Docx => "docx"@,
        }
    }

    /// The file extension of the format.
    pub fn extension(&self) -> (s: &'static str)
        ensures
            s@ == self.extension_spec(),
    {
        match self {
            ExportFormat::Png => "png",
            ExportFormat::Jpg => "jpg",
            ExportFormat::Svg => "svg",
            ExportFormat::Pdf => "pdf",
            ExportFormat::Eps => "eps",
            ExportFormat::Docx => "docx",
        }
    }

    pub open spec fn filter_name_spec(self) -> Seq<char> {
        match self {
            ExportFormat::Png => "PNG Image"@,
            ExportFormat::Jpg => "JPEG Image"@,
            ExportFormat::Svg => "SVG Vector"@,
            ExportFormat::Pdf => "PDF Document"@,
            ExportFormat::Eps => "EPS PostScript"@,
            ExportFormat::Docx => "Word Document"@,
        }
    }

    /// The name of the file dialog's filter for the format.
    pub fn filter_name(&self) -> (s: &'static str)
        ensures
            s@ == self.filter_name_spec(),
    {
        match self {
            ExportFormat::Png => "PNG Image",
            ExportFormat::Jpg => "JPEG Image",
            ExportFormat::Svg => "SVG Vector",
            ExportFormat::Pdf => "PDF Document",
            ExportFormat::Eps => "EPS PostScript",
            ExportFormat::Docx => "Word Document",
        }
    }
}

// ─── SVG ─────────────────────────────────────────────────────────────────────

/// Where the run of dark modules starting at `c` ends: the first light
/// module from `c` on, or `n`.
pub open spec fn run_end(row: Seq<bool>, n: int, c: int) -> int
    decreases n - c,
{
    if c >= n || !row[c] {
        c
    } else {
        run_end(row, n, c + 1)
    }
}

/// One SVG rectangle.
pub open spec fn svg_rect(x: nat, y: nat, w: nat, h: nat, fill: Seq<char>) -> Seq<char> {
    "  <rect x=\""@ + decimal(x) + "\" y=\""@ + decimal(y) + "\" width=\""@ + decimal(w) + "\" height=\""@ + decimal(h)
        + "\" fill=\""@ + fill + "\"/>\n"@
}

/// The rectangles of the runs of dark modules of a row from column `c` on.
pub open spec fn row_rects(row: Seq<bool>, n: int, c: int, y: nat, qz: nat, px: nat, fill: Seq<char>) -> Seq<char>
    decreases n - c,
{
    if c < 0 || c >= n {
        Seq::empty()
    } else if row[c] {
        let e = run_end(row, n, c);
        if e <= c || e > n {
            Seq::empty()
        } else {
            svg_rect(((c + qz) * px) as nat, y, ((e - c) * px) as nat, px, fill) + row_rects(row, n, e, y, qz, px, fill)
        }
    } else {
        row_rects(row, n, c + 1, y, qz, px, fill)
    }
}

/// The rectangles of the rows from `r` on.
pub open spec fn rows_rects(m: Seq<Seq<bool>>, r: int, qz: nat, px: nat, fill: Seq<char>) -> Seq<char>
    decreases m.len() - r,
{
    if r < 0 || r >= m.len() {
        Seq::empty()
    } else {
        row_rects(m[r], m.len() as int, 0, ((r + qz) * px) as nat, qz, px, fill) + rows_rects(m, r + 1, qz, px, fill)
    }
}

/// The SVG document of a QR code: a background square and one rectangle
/// per run of dark modules of a row; nothing for an empty matrix.
pub open spec fn qr_svg(m: Seq<Seq<bool>>, fg: Seq<u8>, bg: Seq<u8>, px: nat, qz: nat) -> Seq<char> {
    if m.len() == 0 {
        Seq::empty()
    } else {
        let t = decimal(((m.len() + 2 * qz) * px) as nat);
        "<?xml version=\"1.0\" encoding=\"UTF-8\"?>\n<svg xmlns=\"http://www.w3.org/2000/svg\" version=\"1.1\"\nwidth=\""@ + t
            + "\" height=\""@ + t + "\" viewBox=\"0 0 "@ + t + " "@ + t + "\">\n<rect width=\""@ + t + "\" height=\""@ + t
            + "\" fill=\""@ + hex_color(bg) + "\"/>\n"@ + rows_rects(m, 0, qz, px, hex_color(fg)) + "</svg>\n"@
    }
}

/// Whether the SVG of a matrix can be built: every row has the matrix's
/// width, and the document's size fits.
pub open spec fn svg_buildable(m: Seq<Seq<bool>>, px: nat, qz: nat) -> bool {
    &&& forall|r: int| 0 <= r < m.len() ==> #[trigger] m[r].len() >= m.len()
    &&& m.len() + 2 * qz <= u64::MAX
    &&& (m.len() + 2 * qz) * px <= u64::MAX
}

proof fn lemma_run_end(row: Seq<bool>, n: int, c: int)
    requires
        0 <= c <= n,
    ensures
        c <= run_end(row, n, c) <= n,
        forall|k: int| c <= k < run_end(row, n, c) ==> row[k],
    decreases n - c,
{
    if c < n && row[c] {
        lemma_run_end(row, n, c + 1);
    }
}

fn push_svg_row(out: &mut String, row: &Vec<bool>, n: usize, y: u64, qz: u64, px: u64, fill: &str)
    requires
        row@.len() >= n,
        n + qz <= u64::MAX,
        (n + qz) * px <= u64::MAX,
    ensures
        final(out)@ == old(out)@ + row_rects(row@, n as int, 0, y as nat, qz as nat, px as nat, fill@),
{
    let ghost start = out@;
    let mut col: usize = 0;
    while col < n
        invariant
            row@.len() >= n,
            n + qz <= u64::MAX,
            (n + qz) * px <= u64::MAX,
            col <= n,
            out@ + row_rects(row@, n as int, col as int, y as nat, qz as nat, px as nat, fill@) == start + row_rects(
                row@,
                n as int,
                0,
                y as nat,
                qz as nat,
                px as nat,
                fill@,
            ),
        decreases n - col,
    {
        if row[col] {
            let s = col;
            proof {
                lemma_run_end(row@, n as int, s as int);
            }
            while col < n && row[col]
                invariant
                    s <= col <= n,
                    row@.len() >= n,
                    run_end(row@, n as int, s as int) == run_end(row@, n as int, col as int),
                decreases n - col,
            {
                col = col + 1;
            }
            proof {
                assert(col as int == run_end(row@, n as int, s as int));
                assert((s + qz) * px <= (n + qz) * px) by (nonlinear_arith)
                    requires
                        s <= n,
                ;
                assert((col - s) * px <= (n + qz) * px) by (nonlinear_arith)
                    requires
                        col - s <= n,
                ;
            }
            let x = ((s as u64) + qz) * px;
            let w = ((col - s) as u64) * px;
            let ghost old_out = out@;
            let ghost rest = row_rects(row@, n as int, col as int, y as nat, qz as nat, px as nat, fill@);
            push_str(out, "  <rect x=\"");
            push_decimal(out, x);
            push_str(out, "\" y=\"");
            push_decimal(out, y);
            push_str(out, "\" width=\"");
            push_decimal(out, w);
            push_str(out, "\" height=\"");
            push_decimal(out, px);
            push_str(out, "\" fill=\"");
            push_str(out, fill);
            push_str(out, "\"/>\n");
            proof {
                let r = svg_rect(x as nat, y as nat, w as nat, px as nat, fill@);
                assert(out@ =~= old_out + r);
                assert(out@ + rest =~= old_out + (r + rest));
            }
        } else {
            col = col + 1;
        }
    }
}

/// Whether `build_svg` can write `matrix` with these sizes.
pub fn svg_fits(matrix: &QrMatrix, module_px: u32, quiet_zone: u32) -> (r: bool)
    ensures
        r == svg_buildable(matrix_view(matrix), module_px as nat, quiet_zone as nat),
{
    let ghost m = matrix_view(matrix);
    let n = matrix.len();
    let mut i: usize = 0;
    while i < n
        invariant
            m == matrix_view(matrix),
            n == m.len(),
            i <= n,
            forall|k: int| 0 <= k < i ==> #[trigger] m[k].len() >= m.len(),
        decreases n - i,
    {
        if matrix[i].len() < n {
            assert(!(m[i as int].len() >= m.len()));
            return false;
        }
        i = i + 1;
    }
    match (n as u64).checked_add(2 * (quiet_zone as u64)) {
        Some(side) => side.checked_mul(module_px as u64).is_some(),
        None => false,
    }
}

/// The SVG document of a QR code with modules of `module_px` pixels and a
/// quiet zone of `quiet_zone` modules; dark modules next to each other in
/// a row share one rectangle.
pub fn build_svg(matrix: &QrMatrix, fg: [u8; 3], bg: [u8; 3], module_px: u32, quiet_zone: u32) -> (svg: String)
    requires
        svg_buildable(matrix_view(matrix), module_px as nat, quiet_zone as nat),
    ensures
        svg@ == qr_svg(matrix_view(matrix), fg@, bg@, module_px as nat, quiet_zone as nat),
{
    let ghost m = matrix_view(matrix);
    let n = matrix.len();
    if n == 0 {
        return String::new();
    }
    let px = module_px as u64;
    let qz = quiet_zone as u64;
    let total = ((n as u64) + qz * 2) * px;
    let fill = crate::text::hex(fg);
    let mut svg = String::new();
    push_str(&mut svg, "<?xml version=\"1.0\" encoding=\"UTF-8\"?>\n<svg xmlns=\"http://www.w3.org/2000/svg\" version=\"1.1\"\nwidth=\"");
    push_decimal(&mut svg, total);
    push_str(&mut svg, "\" height=\"");
    push_decimal(&mut svg, total);
    push_str(&mut svg, "\" viewBox=\"0 0 ");
    push_decimal(&mut svg, total);
    push_str(&mut svg, " ");
    push_decimal(&mut svg, total);
    push_str(&mut svg, "\">\n<rect width=\"");
    push_decimal(&mut svg, total);
    push_str(&mut svg, "\" height=\"");
    push_decimal(&mut svg, total);
    push_str(&mut svg, "\" fill=\"");
    push_hex_color(&mut svg, bg);
    push_str(&mut svg, "\"/>\n");
    let ghost head = svg@;
    let mut r: usize = 0;
    while r < n
        invariant
            n == matrix@.len(),
            m == matrix_view(matrix),
            svg_buildable(m, px as nat, qz as nat),
            px == module_px,
            qz == quiet_zone,
            r <= n,
            fill@ == hex_color(fg@),
            svg@ + rows_rects(m, r as int, qz as nat, px as nat, fill@) == head + rows_rects(m, 0, qz as nat, px as nat, fill@),
        decreases n - r,
    {
        proof {
            assert(m[r as int].len() >= m.len());
            assert((r + qz) * px <= (n + 2 * qz) * px) by (nonlinear_arith)
                requires
                    r < n,
            ;
            assert((n + qz) * px <= (n + 2 * qz) * px) by (nonlinear_arith);
        }
        let y = ((r as u64) + qz) * px;
        let ghost old_svg = svg@;
        let ghost rest = rows_rects(m, r + 1, qz as nat, px as nat, fill@);
        push_svg_row(&mut svg, &matrix[r], n, y, qz, px, fill.as_str());
        proof {
            assert(matrix@[r as int]@ == m[r as int]);
            let rr = row_rects(m[r as int], n as int, 0, y as nat, qz as nat, px as nat, fill@);
            assert(svg@ + rest =~= old_svg + (rr + rest));
        }
        r = r + 1;
    }
    proof {
        assert(svg@ + Seq::<char>::empty() =~= svg@);
    }
    push_str(&mut svg, "</svg>\n");
    proof {
        assert(svg@ =~= qr_svg(m, fg@, bg@, px as nat, qz as nat));
    }
    svg
}

// ─── EPS ─────────────────────────────────────────────────────────────────────

/// A colour channel as a fraction of 255 with four decimals, rounded to
/// the nearest (`c / 255` never falls half-way between two such values).
pub open spec fn eps_channel(c: u8) -> Seq<char> {
    let k = (20000 * (c as nat) + 255) / 510;
    decimal(k / 10000) + "."@ + zero_padded(k % 10000, 4)
}

/// An RGB colour as three EPS channels.
pub open spec fn eps_color(c: Seq<u8>) -> Seq<char> {
    eps_channel(c[0]) + " "@ + eps_channel(c[1]) + " "@ + eps_channel(c[2])
}

/// The `rectfill` of the dark module (r, c), the y axis pointing up.
pub open spec fn eps_cell(r: int, c: int, total: int, qz: int, px: int) -> Seq<char> {
    int_decimal((c + qz) * px) + " "@ + int_decimal(total - (r + qz + 1) * px) + " "@ + int_decimal(px) + " "@
        + int_decimal(px) + " rectfill\n"@
}

/// The cells of the dark modules of row `r` from column `c` on.
pub open spec fn eps_row(row: Seq<bool>, r: int, c: int, total: int, qz: int, px: int) -> Seq<char>
    decreases row.len() - c,
{
    if c < 0 || c >= row.len() {
        Seq::empty()
    } else {
        (if row[c] {
            eps_cell(r, c, total, qz, px)
        } else {
            Seq::empty()
        }) + eps_row(row, r, c + 1, total, qz, px)
    }
}

/// The cells of the rows from `r` on.
pub open spec fn eps_rows(m: Seq<Seq<bool>>, r: int, total: int, qz: int, px: int) -> Seq<char>
    decreases m.len() - r,
{
    if r < 0 || r >= m.len() {
        Seq::empty()
    } else {
        eps_row(m[r], r, 0, total, qz, px) + eps_rows(m, r + 1, total, qz, px)
    }
}

/// The EPS document of a QR code: bounding box, background, and one
/// filled square per dark module; nothing for an empty matrix.
pub open spec fn qr_eps(m: Seq<Seq<bool>>, fg: Seq<u8>, bg: Seq<u8>, px: int, qz: int) -> Seq<char> {
    if m.len() == 0 {
        Seq::empty()
    } else {
        let total = (m.len() + 2 * qz) * px;
        let t = int_decimal(total);
        "%!PS-Adobe-3.0 EPSF-3.0\n%%BoundingBox: 0 0 "@ + t + " "@ + t
            + "\n%%Title: QR Code\n%%Creator: RustyQR\n%%EndComments\n"@ + eps_color(bg) + " setrgbcolor\n0 0 "@ + t + " "@ + t
            + " rectfill\n"@ + eps_color(fg) + " setrgbcolor\n"@ + eps_rows(m, 0, total, qz, px) + "%%EOF\n"@
    }
}

/// Whether the EPS of a matrix can be built in 32-bit arithmetic.
pub open spec fn eps_buildable(m: Seq<Seq<bool>>, px: nat, qz: nat) -> bool {
    &&& (m.len() + 2 * qz) * px <= i32::MAX
    &&& m.len() + 2 * qz <= i32::MAX
    &&& px <= i32::MAX
    &&& forall|r: int| 0 <= r < m.len() ==> (#[trigger] m[r].len() + qz) * px <= i32::MAX && m[r].len() + qz <= i32::MAX
}

fn push_eps_channel(out: &mut String, c: u8)
    ensures
        final(out)@ == old(out)@ + eps_channel(c),
{
    let k = ((c as u64) * 20000 + 255) / 510;
    push_decimal(out, k / 10000);
    push_str(out, ".");
    push_padded(out, k % 10000, 4);
}

fn push_eps_color(out: &mut String, c: [u8; 3])
    ensures
        final(out)@ == old(out)@ + eps_color(c@),
{
    let ghost start = out@;
    push_eps_channel(out, c[0]);
    push_str(out, " ");
    push_eps_channel(out, c[1]);
    push_str(out, " ");
    push_eps_channel(out, c[2]);
    assert(out@ =~= start + eps_color(c@));
}

fn push_eps_row(out: &mut String, row: &Vec<bool>, r: i64, total: i64, qz: i64, px: i64)
    requires
        0 <= r,
        0 <= qz,
        0 <= px <= i32::MAX,
        total <= i32::MAX,
        (row@.len() + qz) * px <= i32::MAX,
        row@.len() + qz <= i32::MAX,
        (r + qz + 1) * px <= i64::MAX,
        0 <= r + qz + 1 <= i32::MAX,
        -i32::MAX <= total - (r + qz + 1) * px,
    ensures
        final(out)@ == old(out)@ + eps_row(row@, r as int, 0, total as int, qz as int, px as int),
{
    let ghost start = out@;
    let n = row.len();
    let mut c: usize = 0;
    assert(total - (r + qz + 1) * px <= i32::MAX) by (nonlinear_arith)
        requires
            total <= i32::MAX,
            0 <= px,
            0 <= r + qz + 1,
    ;
    let y = total - (r + qz + 1) * px;
    while c < n
        invariant
            n == row@.len(),
            c <= n,
            0 <= qz,
            0 <= px <= i32::MAX,
            (row@.len() + qz) * px <= i32::MAX,
            row@.len() + qz <= i32::MAX,
            y == total - (r + qz + 1) * px,
            -i32::MAX <= y <= i32::MAX,
            out@ + eps_row(row@, r as int, c as int, total as int, qz as int, px as int) == start + eps_row(
                row@,
                r as int,
                0,
                total as int,
                qz as int,
                px as int,
            ),
        decreases n - c,
    {
        let ghost old_out = out@;
        let ghost rest = eps_row(row@, r as int, c + 1, total as int, qz as int, px as int);
        if row[c] {
            proof {
                assert((c + qz) * px <= (row@.len() + qz) * px) by (nonlinear_arith)
                    requires
                        c <= row@.len(),
                        0 <= px,
                        0 <= qz,
                ;
                assert((c + qz) * px >= 0) by (nonlinear_arith)
                    requires
                        0 <= px,
                        0 <= qz,
                ;
            }
            let x = ((c as i64) + qz) * px;
            push_int(out, x);
            push_str(out, " ");
            push_int(out, y);
            push_str(out, " ");
            push_int(out, px);
            push_str(out, " ");
            push_int(out, px);
            push_str(out, " rectfill\n");
            proof {
                let cell = eps_cell(r as int, c as int, total as int, qz as int, px as int);
                assert(out@ =~= old_out + cell);
                assert(out@ + rest =~= old_out + (cell + rest));
            }
        } else {
            proof {
                assert(Seq::<char>::empty() + rest =~= rest);
            }
        }
        c = c + 1;
    }
    assert(out@ + Seq::<char>::empty() =~= out@);
}

/// Whether `build_eps` can write `matrix` with these sizes.
pub fn eps_fits(matrix: &QrMatrix, module_px: u32, quiet_zone: u32) -> (r: bool)
    ensures
        r == eps_buildable(matrix_view(matrix), module_px as nat, quiet_zone as nat),
{
    let ghost m = matrix_view(matrix);
    let lim: u64 = 0x7fff_ffff;
    let px = module_px as u64;
    let qz = quiet_zone as u64;
    if px > lim || matrix.len() as u64 > lim {
        return false;
    }
    let side = matrix.len() as u64 + 2 * qz;
    if side > lim {
        return false;
    }
    proof {
        assert(side * px <= 0x7fff_ffffu64 * 0x7fff_ffffu64) by (nonlinear_arith)
            requires
                side <= 0x7fff_ffffu64,
                px <= 0x7fff_ffffu64,
        ;
    }
    if side * px > lim {
        return false;
    }
    let mut i: usize = 0;
    while i < matrix.len()
        invariant
            m == matrix_view(matrix),
            i <= m.len(),
            px == module_px,
            qz == quiet_zone,
            lim == i32::MAX,
            px <= lim,
            forall|k: int|
                0 <= k < i ==> (#[trigger] m[k].len() + qz) * px <= i32::MAX && m[k].len() + qz <= i32::MAX,
        decreases m.len() - i,
    {
        let len = matrix[i].len() as u64;
        if len > lim {
            proof {
                assert(m[i as int].len() + qz > i32::MAX);
            }
            return false;
        }
        let w = len + qz;
        if w > lim {
            proof {
                assert(m[i as int].len() + qz > i32::MAX);
            }
            return false;
        }
        proof {
            assert(w * px <= 0x7fff_ffffu64 * 0x7fff_ffffu64) by (nonlinear_arith)
                requires
                    w <= 0x7fff_ffffu64,
                    px <= 0x7fff_ffffu64,
            ;
        }
        if w * px > lim {
            proof {
                assert((m[i as int].len() + qz) * px > i32::MAX);
            }
            return false;
        }
        i = i + 1;
    }
    true
}

/// The EPS document of a QR code with modules of `module_px` points and a
/// quiet zone of `quiet_zone` modules.
pub fn build_eps(matrix: &QrMatrix, fg: [u8; 3], bg: [u8; 3], module_px: u32, quiet_zone: u32) -> (eps: String)
    requires
        eps_buildable(matrix_view(matrix), module_px as nat, quiet_zone as nat),
    ensures
        eps@ == qr_eps(matrix_view(matrix), fg@, bg@, module_px as int, quiet_zone as int),
{
    let ghost m = matrix_view(matrix);
    let n = matrix.len();
    if n == 0 {
        return String::new();
    }
    let px = module_px as i64;
    let qz = quiet_zone as i64;
    let total = ((n as i64) + qz * 2) * px;
    let mut eps = String::new();
    push_str(&mut eps, "%!PS-Adobe-3.0 EPSF-3.0\n%%BoundingBox: 0 0 ");
    push_int(&mut eps, total);
    push_str(&mut eps, " ");
    push_int(&mut eps, total);
    push_str(&mut eps, "\n%%Title: QR Code\n%%Creator: RustyQR\n%%EndComments\n");
    push_eps_color(&mut eps, bg);
    push_str(&mut eps, " setrgbcolor\n0 0 ");
    push_int(&mut eps, total);
    push_str(&mut eps, " ");
    push_int(&mut eps, total);
    push_str(&mut eps, " rectfill\n");
    push_eps_color(&mut eps, fg);
    push_str(&mut eps, " setrgbcolor\n");
    let ghost head = eps@;
    let mut r: usize = 0;
    while r < n
        invariant
            n == matrix@.len(),
            m == matrix_view(matrix),
            eps_buildable(m, px as nat, qz as nat),
            px == module_px,
            qz == quiet_zone,
            total == (n + 2 * qz) * px,
            r <= n,
            eps@ + eps_rows(m, r as int, total as int, qz as int, px as int) == head + eps_rows(m, 0, total as int, qz as int, px as int),
        decreases n - r,
    {
        proof {
            assert(matrix@[r as int]@ == m[r as int]);
            assert((m[r as int].len() + qz) * px <= i32::MAX);
            assert((r + qz + 1) * px <= total) by (nonlinear_arith)
                requires
                    r < n,
                    total == (n + 2 * qz) * px,
                    0 <= px,
                    0 <= qz,
            ;
            assert((r + qz + 1) * px >= 0) by (nonlinear_arith)
                requires
                    0 <= px,
                    0 <= qz,
                    0 <= r,
            ;
        }
        let ghost old_eps = eps@;
        let ghost rest = eps_rows(m, r + 1, total as int, qz as int, px as int);
        push_eps_row(&mut eps, &matrix[r], r as i64, total, qz, px);
        proof {
            let rr = eps_row(m[r as int], r as int, 0, total as int, qz as int, px as int);
            assert(eps@ + rest =~= old_eps + (rr + rest));
        }
        r = r + 1;
    }
    proof {
        assert(eps@ + Seq::<char>::empty() =~= eps@);
    }
    push_str(&mut eps, "%%EOF\n");
    proof {
        assert(eps@ =~= qr_eps(m, fg@, bg@, px as int, qz as int));
    }
    eps
}

// ─── Word document ───────────────────────────────────────────────────────────

/// English Metric Units per pixel at 96 dpi (914400 per inch).
pub open spec fn emu_per_px() -> nat {
    9525
}

/// The extent of an image in English Metric Units.
pub fn image_extent_emu(width_px: u32, height_px: u32) -> (r: (u32, u32))
    requires
        width_px * 9525 <= u32::MAX,
        height_px * 9525 <= u32::MAX,
    ensures
        r.0 == width_px * emu_per_px(),
        r.1 == height_px * emu_per_px(),
{
    (width_px * 9525, height_px * 9525)
}

/// The `word/document.xml` part: one paragraph holding the picture of
/// extent `cx` by `cy` EMU.
pub open spec fn document_xml(cx: nat, cy: nat) -> Seq<char> {
    "<?xml version=\"1.0\" encoding=\"UTF-8\" standalone=\"yes\"?>\n<w:document xmlns:wpc=\"http://schemas.microsoft.com/office/word/2010/wordprocessingCanvas\"\n  xmlns:w=\"http://schemas.openxmlformats.org/wordprocessingml/2006/main\"\n  xmlns:wp=\"http://schemas.openxmlformats.org/drawingml/2006/wordprocessingDrawing\"\n  xmlns:a=\"http://schemas.openxmlformats.org/drawingml/2006/main\"\n  xmlns:pic=\"http://schemas.openxmlformats.org/drawingml/2006/picture\"\n  xmlns:r=\"http://schemas.openxmlformats.org/officeDocument/2006/relationships\">\n<w:body>\n  <w:p>\n    <w:r>\n      <w:drawing>\n        <wp:inline>\n          <wp:extent cx=\""@ + decimal(cx) + "\" cy=\""@ + decimal(cy) + "\"/>\n          <wp:docPr id=\"1\" name=\"QR Code\"/>\n          <a:graphic>\n            <a:graphicData uri=\"http://schemas.openxmlformats.org/drawingml/2006/picture\">\n              <pic:pic>\n                <pic:nvPicPr>\n                  <pic:cNvPr id=\"0\" name=\"QR Code\"/>\n                  <pic:cNvPicPr/>\n                </pic:nvPicPr>\n                <pic:blipFill>\n                  <a:blip r:embed=\"rId1\"/>\n                  <a:stretch><a:fillRect/></a:stretch>\n                </pic:blipFill>\n                <pic:spPr>\n                  <a:xfrm><a:off x=\"0\" y=\"0\"/><a:ext cx=\""@ + decimal(cx) + "\" cy=\""@ + decimal(cy) + "\"/></a:xfrm>\n                  <a:prstGeom prst=\"rect\"><a:avLst/></a:prstGeom>\n                </pic:spPr>\n              </pic:pic>\n            </a:graphicData>\n          </a:graphic>\n        </wp:inline>\n      </w:drawing>\n    </w:r>\n  </w:p>\n  <w:sectPr/>\n</w:body>\n</w:document>"@
}

/// The main part of the Word document showing the QR code.
pub fn build_document_xml(cx: u32, cy: u32) -> (r: String)
    ensures
        r@ == document_xml(cx as nat, cy as nat),
{
    let mut s = String::new();
    push_str(&mut s, "<?xml version=\"1.0\" encoding=\"UTF-8\" standalone=\"yes\"?>\n<w:document xmlns:wpc=\"http://schemas.microsoft.com/office/word/2010/wordprocessingCanvas\"\n  xmlns:w=\"http://schemas.openxmlformats.org/wordprocessingml/2006/main\"\n  xmlns:wp=\"http://schemas.openxmlformats.org/drawingml/2006/wordprocessingDrawing\"\n  xmlns:a=\"http://schemas.openxmlformats.org/drawingml/2006/main\"\n  xmlns:pic=\"http://schemas.openxmlformats.org/drawingml/2006/picture\"\n  xmlns:r=\"http://schemas.openxmlformats.org/officeDocument/2006/relationships\">\n<w:body>\n  <w:p>\n    <w:r>\n      <w:drawing>\n        <wp:inline>\n          <wp:extent cx=\"");
    push_decimal(&mut s, cx as u64);
    push_str(&mut s, "\" cy=\"");
    push_decimal(&mut s, cy as u64);
    push_str(&mut s, "\"/>\n          <wp:docPr id=\"1\" name=\"QR Code\"/>\n          <a:graphic>\n            <a:graphicData uri=\"http://schemas.openxmlformats.org/drawingml/2006/picture\">\n              <pic:pic>\n                <pic:nvPicPr>\n                  <pic:cNvPr id=\"0\" name=\"QR Code\"/>\n                  <pic:cNvPicPr/>\n                </pic:nvPicPr>\n                <pic:blipFill>\n                  <a:blip r:embed=\"rId1\"/>\n                  <a:stretch><a:fillRect/></a:stretch>\n                </pic:blipFill>\n                <pic:spPr>\n                  <a:xfrm><a:off x=\"0\" y=\"0\"/><a:ext cx=\"");
    push_decimal(&mut s, cx as u64);
    push_str(&mut s, "\" cy=\"");
    push_decimal(&mut s, cy as u64);
    push_str(&mut s, "\"/></a:xfrm>\n                  <a:prstGeom prst=\"rect\"><a:avLst/></a:prstGeom>\n                </pic:spPr>\n              </pic:pic>\n            </a:graphicData>\n          </a:graphic>\n        </wp:inline>\n      </w:drawing>\n    </w:r>\n  </w:p>\n  <w:sectPr/>\n</w:body>\n</w:document>");
    assert(s@ =~= document_xml(cx as nat, cy as nat));
    s
}

/// The picture and main part of the Word document showing a raster: its
/// PNG file, and `word/document.xml` with the raster's extent at 96 dpi.
pub fn docx_parts(img: &RgbaRaster) -> (r: (Vec<u8>, String))
    requires
        img.pixels@.len() == img.width * img.height * 4,
        img.width * 9525 <= u32::MAX,
        img.height * 9525 <= u32::MAX,
    ensures
        r.0@ == png_rgba(img.pixels@, img.width, img.height),
        r.1@ == document_xml(img.width as nat * emu_per_px(), img.height as nat * emu_per_px()),
{
    let png = encode_png(img.pixels.as_slice(), img.width, img.height);
    let (cx, cy) = image_extent_emu(img.width, img.height);
    (png, build_document_xml(cx, cy))
}

/// The `[Content_Types].xml` part of the Word document.
pub const CONTENT_TYPES: &'static str = "<?xml version=\"1.0\" encoding=\"UTF-8\" standalone=\"yes\"?>\n<Types xmlns=\"http://schemas.openxmlformats.org/package/2006/content-types\">\n  <Default Extension=\"rels\" ContentType=\"application/vnd.openxmlformats-package.relationships+xml\"/>\n  <Default Extension=\"xml\" ContentType=\"application/xml\"/>\n  <Default Extension=\"png\" ContentType=\"image/png\"/>\n  <Override PartName=\"/word/document.xml\"\n    ContentType=\"application/vnd.openxmlformats-officedocument.wordprocessingml.document.main+xml\"/>\n</Types>";

/// The `_rels/.rels` part of the Word document.
pub const ROOT_RELS: &'static str = "<?xml version=\"1.0\" encoding=\"UTF-8\" standalone=\"yes\"?>\n<Relationships xmlns=\"http://schemas.openxmlformats.org/package/2006/relationships\">\n  <Relationship Id=\"rId1\" Type=\"http://schemas.openxmlformats.org/officeDocument/2006/relationships/officeDocument\"\n    Target=\"word/document.xml\"/>\n</Relationships>";

/// The `word/_rels/document.xml.rels` part of the Word document.
pub const DOC_RELS: &'static str = "<?xml version=\"1.0\" encoding=\"UTF-8\" standalone=\"yes\"?>\n<Relationships xmlns=\"http://schemas.openxmlformats.org/package/2006/relationships\">\n  <Relationship Id=\"rId1\" Type=\"http://schemas.openxmlformats.org/officeDocument/2006/relationships/image\"\n    Target=\"media/image1.png\"/>\n</Relationships>";

} // verus!
