//! Rasterising a module matrix into RGBA pixels, and the PNG and base64
//! encodings used to embed such a raster in SVG or Word documents.
use vstd::prelude::*;
use crate::qr::encoder::{matrix_view, QrMatrix};
use crate::text::push_str;
use base64::Engine;
use image::ImageEncoder;

verus! {

/// The colours and sizes that a module rendering uses.
pub struct ModuleStyle {
    pub fg: [u8; 3],
    pub bg: [u8; 3],
    pub module_px: u32,
    pub quiet_zone: u32,
}

/// An RGBA image: `width * height` pixels of four bytes, row by row.
pub struct RgbaRaster {
    pub width: u32,
    pub height: u32,
    pub pixels: Vec<u8>,
}

/// Pixels per module: `module_px`, at least 1.
pub open spec fn effective_px(style: ModuleStyle) -> nat {
    if style.module_px == 0 {
        1
    } else {
        style.module_px as nat
    }
}

/// Side of the rendering of an `n`-module matrix, quiet zone included.
pub open spec fn raster_side(n: nat, style: ModuleStyle) -> nat {
    ((n + 2 * style.quiet_zone) * effective_px(style)) as nat
}

/// Whether module (r, c) exists and is dark.
pub open spec fn module_dark(m: Seq<Seq<bool>>, r: int, c: int) -> bool {
    0 <= r < m.len() && 0 <= c < m[r].len() && m[r][c]
}

/// Whether the pixel (x, y) lies in a dark module.
pub open spec fn pixel_dark(m: Seq<Seq<bool>>, style: ModuleStyle, x: int, y: int) -> bool {
    let px = effective_px(style) as int;
    module_dark(m, y / px - style.quiet_zone, x / px - style.quiet_zone)
}

/// Channel `k` of the pixel (x, y): the foreground colour on dark modules,
/// the background elsewhere, fully opaque.
pub open spec fn pixel_channel(m: Seq<Seq<bool>>, style: ModuleStyle, x: int, y: int, k: int) -> u8 {
    if k == 3 {
        255
    } else if pixel_dark(m, style, x, y) {
        style.fg@[k]
    } else {
        style.bg@[k]
    }
}

/// Byte `i` of the rendering of side `sz`, rows top to bottom.
pub open spec fn raster_byte(m: Seq<Seq<bool>>, style: ModuleStyle, sz: nat, i: int) -> u8 {
    pixel_channel(m, style, (i / 4) % (sz as int), (i / 4) / (sz as int), i % 4)
}

/// The rendering of a matrix: a square of side `raster_side`, or a single
/// transparent black pixel for an empty matrix.
pub open spec fn rendered(m: Seq<Seq<bool>>, style: ModuleStyle) -> (nat, Seq<u8>) {
    if m.len() == 0 {
        (1, seq![0u8, 0, 0, 0])
    } else {
        let sz = raster_side(m.len(), style);
        (sz, Seq::new(sz * sz * 4, |i: int| raster_byte(m, style, sz, i)))
    }
}

/// Whether a matrix can be rendered with `style`: its rows fit the
/// rendering, and the rendering fits in memory.
pub open spec fn renderable(m: Seq<Seq<bool>>, style: ModuleStyle) -> bool {
    &&& forall|r: int| 0 <= r < m.len() ==> #[trigger] m[r].len() <= m.len() + style.quiet_zone
    &&& raster_side(m.len(), style) <= u32::MAX
    &&& raster_side(m.len(), style) * raster_side(m.len(), style) * 4 <= usize::MAX
}

pub proof fn lemma_pixel_index(sz: int, x: int, y: int, k: int)
    requires
        0 <= x < sz,
        0 <= y,
        0 <= k < 4,
    ensures
        ((y * sz + x) * 4 + k) / 4 == y * sz + x,
        ((y * sz + x) * 4 + k) % 4 == k,
        (y * sz + x) % sz == x,
        (y * sz + x) / sz == y,
{
    vstd::arithmetic::div_mod::lemma_fundamental_div_mod_converse((y * sz + x) * 4 + k, 4, y * sz + x, k);
    vstd::arithmetic::div_mod::lemma_fundamental_div_mod_converse(y * sz + x, sz, y, x);
}

/// Whether `render_modules` can render `matrix` with `style`.
pub fn can_render(matrix: &QrMatrix, style: &ModuleStyle) -> (r: bool)
    ensures
        r == renderable(matrix_view(matrix), *style),
{
    let ghost m = matrix_view(matrix);
    let n = matrix.len() as u64;
    let qz = style.quiet_zone as u64;
    let px: u64 = if style.module_px == 0 {
        1
    } else {
        style.module_px as u64
    };
    let side = match n.checked_add(2 * qz) {
        Some(v) => match v.checked_mul(px) {
            Some(w) => w,
            None => {
                proof {
                    assert(v * px >= v) by (nonlinear_arith)
                        requires
                            px >= 1,
                    ;
                }
                return false;
            },
        },
        None => {
            proof {
                assert((n + 2 * qz) * px >= n + 2 * qz) by (nonlinear_arith)
                    requires
                        px >= 1,
                ;
            }
            return false;
        },
    };
    assert(side as nat == raster_side(m.len(), *style));
    if side > u32::MAX as u64 {
        return false;
    }
    proof {
        assert((n + 2 * qz) * px >= n + 2 * qz) by (nonlinear_arith)
            requires
                px >= 1,
        ;
    }
    let limit = n + qz;
    let mut r: usize = 0;
    while r < matrix.len()
        invariant
            m == matrix_view(matrix),
            n == m.len(),
            limit == m.len() + style.quiet_zone,
            r <= m.len(),
            forall|k: int| 0 <= k < r ==> #[trigger] m[k].len() <= m.len() + style.quiet_zone,
        decreases m.len() - r,
    {
        if matrix[r].len() as u64 > limit {
            assert(!(m[r as int].len() <= m.len() + style.quiet_zone));
            return false;
        }
        r = r + 1;
    }
    proof {
        assert(side * side <= 0xffff_ffffu64 * 0xffff_ffffu64) by (nonlinear_arith)
            requires
                side <= 0xffff_ffffu64,
        ;
    }
    let sq = side * side;
    match sq.checked_mul(4) {
        Some(b) => b <= usize::MAX as u64,
        None => false,
    }
}

/// Renders the modules of `matrix`: each module is a `module_px` square,
/// inside a quiet zone of `quiet_zone` modules.
pub fn render_modules(matrix: &QrMatrix, style: &ModuleStyle) -> (img: RgbaRaster)
    requires
        renderable(matrix_view(matrix), *style),
    ensures
        img.width == rendered(matrix_view(matrix), *style).0,
        img.height == img.width,
        img.pixels@ == rendered(matrix_view(matrix), *style).1,
{
    let ghost m = matrix_view(matrix);
    let n = matrix.len();
    if n == 0 {
        let pixels = vec![0u8, 0, 0, 0];
        assert(pixels@ =~= seq![0u8, 0, 0, 0]);
        return RgbaRaster { width: 1, height: 1, pixels };
    }
    let px: u32 = if style.module_px == 0 {
        1
    } else {
        style.module_px
    };
    let qz = style.quiet_zone;
    proof {
        assert((n + 2 * qz) * px >= n + 2 * qz) by (nonlinear_arith)
            requires
                px >= 1,
        ;
    }
    let sz: u32 = ((n as u32) + qz * 2) * px;
    let ghost szi = sz as int;
    assert(sz as nat == raster_side(m.len(), *style));
    assert(sz >= 1);
    let mut pixels: Vec<u8> = Vec::new();
    let mut y: u32 = 0;
    while y < sz
        invariant
            sz as nat == raster_side(m.len(), *style),
            sz >= 1,
            szi == sz,
            px as nat == effective_px(*style),
            qz == style.quiet_zone,
            n == matrix@.len(),
            m == matrix_view(matrix),
            renderable(m, *style),
            y <= sz,
            pixels@.len() == (y * szi) * 4,
            forall|i: int| 0 <= i < pixels@.len() ==> #[trigger] pixels@[i] == raster_byte(m, *style, sz as nat, i),
        decreases sz - y,
    {
        let mut x: u32 = 0;
        while x < sz
            invariant
                sz as nat == raster_side(m.len(), *style),
                sz >= 1,
                szi == sz,
                px as nat == effective_px(*style),
                qz == style.quiet_zone,
                n == matrix@.len(),
                m == matrix_view(matrix),
                y < sz,
                x <= sz,
                pixels@.len() == (y * szi + x) * 4,
                forall|i: int| 0 <= i < pixels@.len() ==> #[trigger] pixels@[i] == raster_byte(m, *style, sz as nat, i),
            decreases sz - x,
        {
            let r = y / px;
            let c = x / px;
            let dark = if r >= qz && c >= qz {
                let rr = (r - qz) as usize;
                let cc = (c - qz) as usize;
                rr < n && cc < matrix[rr].len() && matrix[rr][cc]
            } else {
                false
            };
            assert(dark == pixel_dark(m, *style, x as int, y as int));
            let color = if dark {
                style.fg
            } else {
                style.bg
            };
            let ghost base = pixels@.len() as int;
            proof {
                assert(y * szi + x < szi * szi) by (nonlinear_arith)
                    requires
                        y < szi,
                        x < szi,
                        0 <= y,
                ;
            }
            pixels.push(color[0]);
            pixels.push(color[1]);
            pixels.push(color[2]);
            pixels.push(255u8);
            proof {
                assert forall|k: int| 0 <= k < 4 implies #[trigger] pixels@[base + k] == raster_byte(m, *style, sz as nat, base + k) by {
                    lemma_pixel_index(szi, x as int, y as int, k);
                }
                assert forall|i: int| 0 <= i < pixels@.len() implies #[trigger] pixels@[i] == raster_byte(m, *style, sz as nat, i) by {
                    if i >= base {
                        assert(pixels@[base + (i - base)] == raster_byte(m, *style, sz as nat, base + (i - base)));
                    }
                }
                assert(pixels@.len() == (y * szi + x + 1) * 4) by (nonlinear_arith)
                    requires
                        pixels@.len() == base + 4,
                        base == (y * szi + x) * 4,
                ;
            }
            x = x + 1;
        }
        proof {
            assert(pixels@.len() == ((y + 1) * szi) * 4) by (nonlinear_arith)
                requires
                    pixels@.len() == (y * szi + szi) * 4,
            ;
        }
        y = y + 1;
    }
    proof {
        assert(pixels@ =~= rendered(m, *style).1);
    }
    RgbaRaster { width: sz, height: sz, pixels }
}

/// The RGB bytes of an RGBA buffer: the alpha byte of each pixel dropped.
pub open spec fn rgb_of(rgba: Seq<u8>) -> Seq<u8> {
    Seq::new((rgba.len() / 4 * 3) as nat, |i: int| rgba[(i / 3) * 4 + i % 3])
}

/// Drops the alpha channel of an RGBA buffer.
pub fn rgba_to_rgb(rgba: &[u8]) -> (rgb: Vec<u8>)
    ensures
        rgb@ == rgb_of(rgba@),
{
    let mut out: Vec<u8> = Vec::new();
    let len = rgba.len();
    let count = len / 4;
    let mut p: usize = 0;
    while p < count
        invariant
            len == rgba@.len(),
            count == rgba@.len() / 4,
            p <= count,
            out@.len() == p * 3,
            forall|i: int| 0 <= i < out@.len() ==> #[trigger] out@[i] == rgba@[(i / 3) * 4 + i % 3],
        decreases count - p,
    {
        proof {
            assert(p * 4 + 3 < rgba@.len()) by (nonlinear_arith)
                requires
                    p < count,
                    count == rgba@.len() / 4,
            ;
        }
        let ghost base = out@.len() as int;
        out.push(rgba[p * 4]);
        out.push(rgba[p * 4 + 1]);
        out.push(rgba[p * 4 + 2]);
        proof {
            assert forall|i: int| 0 <= i < out@.len() implies #[trigger] out@[i] == rgba@[(i / 3) * 4 + i % 3] by {
                if i >= base {
                    let k = i - base;
                    vstd::arithmetic::div_mod::lemma_fundamental_div_mod_converse(i, 3, p as int, k);
                }
            }
        }
        p = p + 1;
    }
    assert(out@ =~= rgb_of(rgba@));
    out
}

// ─── PNG and base64 ─────────────────────────────────────────────────────────

/// The PNG file that the `image` crate writes for an RGBA buffer of the
/// given dimensions (8 bits per channel, default compression and filter).
pub uninterp spec fn png_rgba(pixels: Seq<u8>, width: u32, height: u32) -> Seq<u8>;

/// Encodes an RGBA buffer as PNG with `image::codecs::png::PngEncoder`
/// (`write_image`, colour type `Rgba8`), into memory. The encoder asserts
/// that the buffer holds `width * height * 4` bytes. Its error (a zero
/// dimension) is ignored, as the callers do: the bytes written so far are
/// returned. The bytes are named by `png_rgba`.
#[verifier::external_body]
pub(crate) fn encode_png(pixels: &[u8], width: u32, height: u32) -> (png: Vec<u8>)
    requires
        pixels@.len() == width * height * 4,
    ensures
        png@ == png_rgba(pixels@, width, height),
{
    let mut png: Vec<u8> = Vec::new();
    let enc = image::codecs::png::PngEncoder::new(&mut png);
    let _ = enc.write_image(pixels, width, height, image::ColorType::Rgba8);
    png
}

/// The standard base64 alphabet.
pub open spec fn b64_char(v: nat) -> char {
    if v < 26 {
        ((65 + v) as u8) as char
    } else if v < 52 {
        ((71 + v) as u8) as char
    } else if v < 62 {
        ((v - 4) as u8) as char
    } else if v == 62 {
        '+'
    } else {
        '/'
    }
}

/// Standard base64 with `=` padding (RFC 4648).
pub open spec fn base64_spec(b: Seq<u8>) -> Seq<char>
    decreases b.len(),
{
    if b.len() == 0 {
        Seq::empty()
    } else if b.len() == 1 {
        seq![b64_char(b[0] as nat / 4), b64_char((b[0] as nat % 4) * 16), '=', '=']
    } else if b.len() == 2 {
        seq![
            b64_char(b[0] as nat / 4),
            b64_char((b[0] as nat % 4) * 16 + b[1] as nat / 16),
            b64_char((b[1] as nat % 16) * 4),
            '=',
        ]
    } else {
        seq![
            b64_char(b[0] as nat / 4),
            b64_char((b[0] as nat % 4) * 16 + b[1] as nat / 16),
            b64_char((b[1] as nat % 16) * 4 + b[2] as nat / 64),
            b64_char(b[2] as nat % 64),
        ] + base64_spec(b.subrange(3, b.len() as int))
    }
}

/// Encodes bytes in standard base64 with padding, with
/// `base64::engine::general_purpose::STANDARD.encode`; the crate's
/// documentation defines that engine as the RFC 4648 alphabet with padding.
/// It panics only when the output length overflows `usize`, which no slice
/// is long enough to cause (a slice holds at most `isize::MAX` bytes).
#[verifier::external_body]
pub(crate) fn base64_standard(bytes: &[u8]) -> (s: String)
    ensures
        s@ == base64_spec(bytes@),
{
    base64::engine::general_purpose::STANDARD.encode(bytes)
}

/// The data URI of a PNG image.
pub open spec fn png_data_uri(png: Seq<u8>) -> Seq<char> {
    "data:image/png;base64,"@ + base64_spec(png)
}

/// Appends the PNG data URI of the raster.
pub fn push_png_data_uri(out: &mut String, img: &RgbaRaster)
    requires
        img.pixels@.len() == img.width * img.height * 4,
    ensures
        final(out)@ == old(out)@ + png_data_uri(png_rgba(img.pixels@, img.width, img.height)),
{
    let png = encode_png(img.pixels.as_slice(), img.width, img.height);
    push_str(out, "data:image/png;base64,");
    let b64 = base64_standard(png.as_slice());
    push_str(out, b64.as_str());
}

} // verus!
