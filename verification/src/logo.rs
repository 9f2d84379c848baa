//! The application's logo drawn in RGBA pixels: a dark square with three
//! green finder patterns, timing patterns, decorative data modules and an
//! alignment pattern.
use vstd::prelude::*;
use crate::raster::lemma_pixel_index;

verus! {

/// The dark background `#1A1A2E`.
pub open spec fn logo_bg() -> Seq<u8> {
    seq![26u8, 26, 46, 255]
}

/// The green `#50D250`.
pub open spec fn logo_green() -> Seq<u8> {
    seq![80u8, 210, 80, 255]
}

/// A rectangle to paint: x, y, width, height, and green (or background).
pub type PaintOp = (nat, nat, nat, nat, bool);

/// `buf` (a square image of side `stride`) with the rectangle painted.
pub open spec fn paint(buf: Seq<u8>, stride: nat, op: PaintOp) -> Seq<u8> {
    Seq::new(
        buf.len(),
        |i: int|
            {
                let p = i / 4;
                let px = p % (stride as int);
                let py = p / (stride as int);
                if op.0 <= px < op.0 + op.2 && op.1 <= py < op.1 + op.3 {
                    if op.4 {
                        logo_green()[i % 4]
                    } else {
                        logo_bg()[i % 4]
                    }
                } else {
                    buf[i]
                }
            },
    )
}

/// `buf` with the rectangles painted one after the other.
pub open spec fn paint_all(buf: Seq<u8>, stride: nat, ops: Seq<PaintOp>) -> Seq<u8>
    decreases ops.len(),
{
    if ops.len() == 0 {
        buf
    } else {
        paint_all(paint(buf, stride, ops[0]), stride, ops.drop_first())
    }
}

/// The module size of the logo: a 22nd of its side, at least one pixel.
pub open spec fn logo_module(size: nat) -> nat {
    if size / 22 == 0 {
        1
    } else {
        size / 22
    }
}

/// A finder pattern at (ox, oy): 7 green modules around 5 dark around 3
/// green.
pub open spec fn finder_ops(ox: nat, oy: nat, m: nat) -> Seq<PaintOp> {
    seq![(ox, oy, 7 * m, 7 * m, true), (ox + m, oy + m, 5 * m, 5 * m, false), (ox + 2 * m, oy + 2 * m, 3 * m, 3 * m, true)]
}

/// The timing modules from `t` to `end`, every other module green, along
/// the sixth row and column.
pub open spec fn timing_ops(t: nat, end: nat, m: nat) -> Seq<PaintOp>
    decreases end - t,
{
    if m == 0 || t >= end {
        Seq::empty()
    } else {
        (if (t / m) % 2 == 0 {
            seq![(t, 6 * m, m, m, true), (6 * m, t, m, m, true)]
        } else {
            Seq::empty()
        }) + if t + m < end {
            timing_ops(t + m, end, m)
        } else {
            Seq::empty()
        }
    }
}

/// The decorative data modules, in modules from the data corner.
pub open spec fn data_points() -> Seq<(nat, nat)> {
    seq![
        (0, 0), (2, 0), (4, 0), (6, 0),
        (1, 1), (3, 1), (5, 1),
        (0, 2), (2, 2), (4, 2), (6, 2),
        (1, 3), (5, 3),
        (0, 4), (2, 4), (4, 4), (6, 4),
        (3, 5), (5, 5),
        (0, 6), (1, 6), (4, 6), (6, 6),
    ]
}

/// The data modules from point `i` on that fit in the logo.
pub open spec fn data_ops(i: nat, dox: nat, doy: nat, m: nat, size: nat) -> Seq<PaintOp>
    decreases 23 - i,
{
    if i >= 23 {
        Seq::empty()
    } else {
        let x = dox + data_points()[i as int].0 * m;
        let y = doy + data_points()[i as int].1 * m;
        (if x + m <= size && y + m <= size {
            seq![(x, y, m, m, true)]
        } else {
            Seq::empty()
        }) + data_ops(i + 1, dox, doy, m, size)
    }
}

/// Every rectangle of the logo, in painting order.
pub open spec fn logo_ops(size: nat) -> Seq<PaintOp> {
    let m = logo_module(size);
    let end = (size - 8 * m) as nat;
    let ax = (size / 2 - m) as nat;
    let ay = (size - 4 * m) as nat;
    finder_ops(m, m, m) + finder_ops(end, m, m) + finder_ops(m, end, m) + timing_ops(8 * m, end, m) + data_ops(
        0,
        end + m,
        end + m,
        m,
        size,
    ) + seq![(ax, ay, 5 * m, 5 * m, true), (ax + m, ay + m, 3 * m, 3 * m, false), (ax + 2 * m, ay + 2 * m, m, m, true)]
}

/// The logo's pixels: the background painted with every rectangle.
pub open spec fn logo_pixels(size: nat) -> Seq<u8> {
    paint_all(Seq::new(size * size * 4, |i: int| logo_bg()[i % 4]), size, logo_ops(size))
}

/// Whether pixel byte `i` lies in the part of the rectangle painted after
/// `dy` full rows and `dx` more pixels.
pub open spec fn painted(i: int, stride: nat, x: nat, y: nat, w: nat, dy: nat, dx: nat) -> bool {
    let p = i / 4;
    let px = p % (stride as int);
    let py = p / (stride as int);
    x <= px < x + w && ((y <= py < y + dy) || (py == y + dy && px < x + dx))
}

/// Paints the rectangle (x, y, w, h) of the square image `buf` of side
/// `stride` with colour `c`, clipped to the image.
fn put(buf: &mut Vec<u8>, stride: u32, x: u32, y: u32, w: u32, h: u32, green: bool)
    requires
        old(buf)@.len() == stride * stride * 4,
        stride > 0,
        x + w <= u32::MAX,
        y + h <= u32::MAX,
        stride * stride * 4 <= u32::MAX,
    ensures
        final(buf)@ == paint(old(buf)@, stride as nat, (x as nat, y as nat, w as nat, h as nat, green)),
{
    let c: [u8; 4] = if green {
        [80u8, 210, 80, 255]
    } else {
        [26u8, 26, 46, 255]
    };
    let ghost col = if green {
        logo_green()
    } else {
        logo_bg()
    };
    assert(c@ =~= col);
    let ghost orig = buf@;
    let ghost s = stride as int;
    let len = buf.len() as u32;
    assert(len / stride / 4 == stride) by (nonlinear_arith)
        requires
            len == stride * stride * 4,
            stride > 0,
    {
        vstd::arithmetic::div_mod::lemma_fundamental_div_mod_converse(len as int, stride as int, (stride * 4) as int, 0);
        vstd::arithmetic::div_mod::lemma_fundamental_div_mod_converse((stride * 4) as int, 4, stride as int, 0);
    }
    let mut dy: u32 = 0;
    while dy < h
        invariant
            buf@.len() == orig.len(),
            orig.len() == stride * stride * 4,
            len == orig.len(),
            len / stride / 4 == stride,
            stride > 0,
            s == stride,
            c@ == col,
            dy <= h,
            x + w <= u32::MAX,
            y + h <= u32::MAX,
            forall|i: int| 0 <= i < buf@.len() ==> #[trigger] buf@[i] == if painted(i, stride as nat, x as nat, y as nat, w as nat, dy as nat, 0) {
                col[i % 4]
            } else {
                orig[i]
            },
        decreases h - dy,
    {
        let mut dx: u32 = 0;
        while dx < w
            invariant
                buf@.len() == orig.len(),
                orig.len() == stride * stride * 4,
                len == orig.len(),
                len / stride / 4 == stride,
                stride > 0,
                s == stride,
                c@ == col,
                dy < h,
                dx <= w,
                x + w <= u32::MAX,
                y + h <= u32::MAX,
                forall|i: int| 0 <= i < buf@.len() ==> #[trigger] buf@[i] == if painted(i, stride as nat, x as nat, y as nat, w as nat, dy as nat, dx as nat) {
                    col[i % 4]
                } else {
                    orig[i]
                },
            decreases w - dx,
        {
            let px = x + dx;
            let py = y + dy;
            let ghost before = buf@;
            if px < stride && py < len / stride / 4 {
                proof {
                    assert((py * stride + px) * 4 + 3 < stride * stride * 4) by (nonlinear_arith)
                        requires
                            px < stride,
                            py < stride,
                    ;
                }
                let i = ((py * stride + px) * 4) as usize;
                buf.set(i, c[0]);
                buf.set(i + 1, c[1]);
                buf.set(i + 2, c[2]);
                buf.set(i + 3, c[3]);
                proof {
                    assert forall|j: int| 0 <= j < buf@.len() implies #[trigger] buf@[j] == if painted(j, stride as nat, x as nat, y as nat, w as nat, dy as nat, (dx + 1) as nat) {
                        col[j % 4]
                    } else {
                        orig[j]
                    } by {
                        let p = j / 4;
                        if i <= j < i + 4 {
                            lemma_pixel_index(s, px as int, py as int, j - i);
                        } else {
                            assert(before[j] == buf@[j]);
                            if p % s == px && p / s == py {
                                vstd::arithmetic::div_mod::lemma_fundamental_div_mod(p, s);
                                vstd::arithmetic::div_mod::lemma_fundamental_div_mod(j, 4);
                                assert(false) by (nonlinear_arith)
                                    requires
                                        p == s * (p / s) + p % s,
                                        j == 4 * (j / 4) + j % 4,
                                        0 <= j % 4 < 4,
                                        p == j / 4,
                                        p % s == px,
                                        p / s == py,
                                        i == (py * s + px) * 4,
                                        !(i <= j < i + 4),
                                ;
                            }
                        }
                    }
                }
            } else {
                proof {
                    assert forall|j: int| 0 <= j < buf@.len() implies #[trigger] buf@[j] == if painted(j, stride as nat, x as nat, y as nat, w as nat, dy as nat, (dx + 1) as nat) {
                        col[j % 4]
                    } else {
                        orig[j]
                    } by {
                        let p = j / 4;
                        vstd::arithmetic::div_mod::lemma_mod_bound(p, s);
                        assert(p < s * s) by (nonlinear_arith)
                            requires
                                0 <= j < s * s * 4,
                                p == j / 4,
                        ;
                        vstd::arithmetic::div_mod::lemma_div_is_ordered_by_denominator(p, s, s);
                        assert(p / s < s) by {
                            vstd::arithmetic::div_mod::lemma_div_by_multiple_is_strongly_ordered(p, s * s, s, s);
                        }
                    }
                }
            }
            dx = dx + 1;
        }
        dy = dy + 1;
    }
    assert(buf@ =~= paint(orig, stride as nat, (x as nat, y as nat, w as nat, h as nat, green)));
}

/// Paints the next rectangle of the plan `rest`.
fn put_next(buf: &mut Vec<u8>, size: u32, x: u32, y: u32, w: u32, h: u32, green: bool, Ghost(rest): Ghost<Seq<PaintOp>>, Ghost(target): Ghost<Seq<u8>>)
    requires
        old(buf)@.len() == size * size * 4,
        size > 0,
        x + w <= u32::MAX,
        y + h <= u32::MAX,
        size * size * 4 <= u32::MAX,
        rest.len() > 0,
        rest[0] == (x as nat, y as nat, w as nat, h as nat, green),
        paint_all(old(buf)@, size as nat, rest) == target,
    ensures
        final(buf)@.len() == size * size * 4,
        paint_all(final(buf)@, size as nat, rest.drop_first()) == target,
{
    put(buf, size, x, y, w, h, green);
}

/// A background of side `size`.
fn fill_background(size: u32) -> (buf: Vec<u8>)
    requires
        size * size * 4 <= u32::MAX,
    ensures
        buf@ == Seq::new(size as nat * size as nat * 4, |k: int| logo_bg()[k % 4]),
{
    let n = size * size * 4;
    let mut buf: Vec<u8> = Vec::new();
    let mut i: u32 = 0;
    while i < n
        invariant
            n == size * size * 4,
            i <= n,
            i % 4 == 0,
            buf@ == Seq::new(i as nat, |k: int| logo_bg()[k % 4]),
        decreases n - i,
    {
        proof {
            assert(n % 4 == 0) by (nonlinear_arith)
                requires
                    n == size * size * 4,
            ;
            assert(i + 4 <= n) by (nonlinear_arith)
                requires
                    i % 4 == 0,
                    n % 4 == 0,
                    i < n,
            ;
        }
        buf.push(26);
        buf.push(26);
        buf.push(46);
        buf.push(255);
        proof {
            assert forall|k: int| 0 <= k < i + 4 implies #[trigger] buf@[k] == logo_bg()[k % 4] by {
                if k >= i {
                    vstd::arithmetic::div_mod::lemma_fundamental_div_mod_converse(k, 4, (i / 4) as int, k - i);
                }
            }
            assert(buf@ =~= Seq::new((i + 4) as nat, |k: int| logo_bg()[k % 4]));
        }
        i = i + 4;
    }
    buf
}

/// Paints a finder pattern at (ox, oy).
fn paint_finder(buf: &mut Vec<u8>, size: u32, ox: u32, oy: u32, m: u32, Ghost(rest): Ghost<Seq<PaintOp>>, Ghost(target): Ghost<Seq<u8>>)
    requires
        old(buf)@.len() == size * size * 4,
        0 < size <= 32767,
        size * size * 4 <= u32::MAX,
        ox <= size,
        oy <= size,
        m <= size,
        rest.len() >= 3,
        rest.subrange(0, 3) == finder_ops(ox as nat, oy as nat, m as nat),
        paint_all(old(buf)@, size as nat, rest) == target,
    ensures
        final(buf)@.len() == size * size * 4,
        paint_all(final(buf)@, size as nat, rest.subrange(3, rest.len() as int)) == target,
{
    let ghost mut r = rest;
    assert(r[0] == rest.subrange(0, 3)[0]);
    put_next(buf, size, ox, oy, 7 * m, 7 * m, true, Ghost(r), Ghost(target));
    proof {
        r = r.drop_first();
        assert(r[0] == rest.subrange(0, 3)[1]);
    }
    put_next(buf, size, ox + m, oy + m, 5 * m, 5 * m, false, Ghost(r), Ghost(target));
    proof {
        r = r.drop_first();
        assert(r[0] == rest.subrange(0, 3)[2]);
    }
    put_next(buf, size, ox + 2 * m, oy + 2 * m, 3 * m, 3 * m, true, Ghost(r), Ghost(target));
    proof {
        assert(r.drop_first() =~= rest.subrange(3, rest.len() as int));
    }
}

/// Paints the timing patterns from `t` on.
fn paint_timing(buf: &mut Vec<u8>, size: u32, m: u32, end: u32, Ghost(tail): Ghost<Seq<PaintOp>>, Ghost(target): Ghost<Seq<u8>>)
    requires
        old(buf)@.len() == size * size * 4,
        0 < size <= 32767,
        size * size * 4 <= u32::MAX,
        m >= 1,
        8 * m <= size,
        end == size - 8 * m,
        paint_all(old(buf)@, size as nat, timing_ops((8 * m) as nat, end as nat, m as nat) + tail) == target,
    ensures
        final(buf)@.len() == size * size * 4,
        paint_all(final(buf)@, size as nat, tail) == target,
{
    let ghost mut rest = timing_ops((8 * m) as nat, end as nat, m as nat) + tail;
    let mut t = 8 * m;
    if t >= end {
        proof {
            assert(rest =~= tail);
        }
        return;
    }
    while t < end
        invariant
            buf@.len() == size * size * 4,
            0 < size <= 32767,
            size * size * 4 <= u32::MAX,
            m >= 1,
            8 * m <= size,
            end == size - 8 * m,
            t <= size,
            paint_all(buf@, size as nat, rest) == target,
            rest == (if t < end {
                timing_ops(t as nat, end as nat, m as nat)
            } else {
                Seq::empty()
            }) + tail,
        decreases size - t,
    {
        let ghost next = if t + m < end {
            timing_ops((t + m) as nat, end as nat, m as nat)
        } else {
            Seq::empty()
        };
        if (t / m) % 2 == 0 {
            proof {
                assert(rest =~= seq![((t as nat), (6 * m) as nat, m as nat, m as nat, true), ((6 * m) as nat, t as nat, m as nat, m as nat, true)] + next + tail);
            }
            put_next(buf, size, t, 6 * m, m, m, true, Ghost(rest), Ghost(target));
            proof {
                rest = rest.drop_first();
            }
            put_next(buf, size, 6 * m, t, m, m, true, Ghost(rest), Ghost(target));
            proof {
                rest = rest.drop_first();
                assert(rest =~= next + tail);
            }
        } else {
            proof {
                assert(rest =~= next + tail);
            }
        }
        t = t + m;
    }
    proof {
        assert(rest =~= tail);
    }
}

/// Paints the decorative data modules from the corner (dox, doy).
fn paint_data(buf: &mut Vec<u8>, size: u32, m: u32, dox: u32, Ghost(tail): Ghost<Seq<PaintOp>>, Ghost(target): Ghost<Seq<u8>>)
    requires
        old(buf)@.len() == size * size * 4,
        0 < size <= 32767,
        size * size * 4 <= u32::MAX,
        m >= 1,
        m <= size,
        dox <= size,
        paint_all(old(buf)@, size as nat, data_ops(0, dox as nat, dox as nat, m as nat, size as nat) + tail) == target,
    ensures
        final(buf)@.len() == size * size * 4,
        paint_all(final(buf)@, size as nat, tail) == target,
{
    let ghost mut rest = data_ops(0, dox as nat, dox as nat, m as nat, size as nat) + tail;
    let data: [(u32, u32); 23] = [
        (0, 0), (2, 0), (4, 0), (6, 0),
        (1, 1), (3, 1), (5, 1),
        (0, 2), (2, 2), (4, 2), (6, 2),
        (1, 3), (5, 3),
        (0, 4), (2, 4), (4, 4), (6, 4),
        (3, 5), (5, 5),
        (0, 6), (1, 6), (4, 6), (6, 6),
    ];
    assert(forall|k: int| 0 <= k < 23 ==> (data@[k].0 as nat, data@[k].1 as nat) == #[trigger] data_points()[k]);
    let mut k: usize = 0;
    while k < 23
        invariant
            buf@.len() == size * size * 4,
            0 < size <= 32767,
            size * size * 4 <= u32::MAX,
            m >= 1,
            m <= size,
            dox <= size,
            k <= 23,
            forall|j: int| 0 <= j < 23 ==> (data@[j].0 as nat, data@[j].1 as nat) == #[trigger] data_points()[j],
            paint_all(buf@, size as nat, rest) == target,
            rest == data_ops(k as nat, dox as nat, dox as nat, m as nat, size as nat) + tail,
        decreases 23 - k,
    {
        let (dx, dy) = data[k];
        assert(dx <= 6 && dy <= 6) by {
            assert((data@[k as int].0 as nat, data@[k as int].1 as nat) == data_points()[k as int]);
        }
        assert(dx * m <= 6 * 32767 && dy * m <= 6 * 32767) by (nonlinear_arith)
            requires
                dx <= 6,
                dy <= 6,
                m <= 32767,
        ;
        let x = dox + dx * m;
        let y = dox + dy * m;
        let ghost next = data_ops((k + 1) as nat, dox as nat, dox as nat, m as nat, size as nat);
        assert(data_points()[k as int] == (dx as nat, dy as nat));
        if x + m <= size && y + m <= size {
            proof {
                assert(rest =~= seq![(x as nat, y as nat, m as nat, m as nat, true)] + next + tail);
            }
            put_next(buf, size, x, y, m, m, true, Ghost(rest), Ghost(target));
            proof {
                rest = rest.drop_first();
                assert(rest =~= next + tail);
            }
        } else {
            proof {
                assert(rest =~= next + tail);
            }
        }
        k = k + 1;
    }
    proof {
        assert(rest =~= tail);
    }
}

/// The logo as RGBA bytes, row by row, for a square of side `size`.
pub fn generate_rgba(size: u32) -> (buf: Vec<u8>)
    requires
        8 <= size,
        size * size * 4 <= u32::MAX,
    ensures
        buf@ == logo_pixels(size as nat),
{
    assert(size <= 32767) by (nonlinear_arith)
        requires
            size * size * 4 <= u32::MAX,
    ;
    let mut buf = fill_background(size);
    let ghost target = logo_pixels(size as nat);
    let m: u32 = if size / 22 == 0 {
        1
    } else {
        size / 22
    };
    assert(8 * m <= size) by (nonlinear_arith)
        requires
            m == (if size / 22 == 0 { 1 } else { size / 22 }),
            size >= 8,
    ;
    let end = size - 8 * m;
    let ax = size / 2 - m;
    let ay = size - 4 * m;
    let ghost f1 = finder_ops(m as nat, m as nat, m as nat);
    let ghost f2 = finder_ops(end as nat, m as nat, m as nat);
    let ghost f3 = finder_ops(m as nat, end as nat, m as nat);
    let ghost al = seq![
        (ax as nat, ay as nat, (5 * m) as nat, (5 * m) as nat, true),
        ((ax + m) as nat, (ay + m) as nat, (3 * m) as nat, (3 * m) as nat, false),
        ((ax + 2 * m) as nat, (ay + 2 * m) as nat, m as nat, m as nat, true),
    ];
    let ghost dops = data_ops(0, (end + m) as nat, (end + m) as nat, m as nat, size as nat);
    let ghost tops = timing_ops((8 * m) as nat, end as nat, m as nat);
    let ghost rest = logo_ops(size as nat);
    assert(rest =~= f1 + (f2 + (f3 + (tops + (dops + al)))));
    assert(buf@ =~= Seq::new(size as nat * size as nat * 4, |k: int| logo_bg()[k % 4]));
    assert(rest.subrange(0, 3) =~= f1);
    paint_finder(&mut buf, size, m, m, m, Ghost(rest), Ghost(target));
    proof {
        assert(rest.subrange(3, rest.len() as int) =~= f2 + (f3 + (tops + (dops + al))));
    }
    let ghost rest = f2 + (f3 + (tops + (dops + al)));
    assert(rest.subrange(0, 3) =~= f2);
    paint_finder(&mut buf, size, end, m, m, Ghost(rest), Ghost(target));
    proof {
        assert(rest.subrange(3, rest.len() as int) =~= f3 + (tops + (dops + al)));
    }
    let ghost rest = f3 + (tops + (dops + al));
    assert(rest.subrange(0, 3) =~= f3);
    paint_finder(&mut buf, size, m, end, m, Ghost(rest), Ghost(target));
    proof {
        assert(rest.subrange(3, rest.len() as int) =~= tops + (dops + al));
    }
    paint_timing(&mut buf, size, m, end, Ghost(dops + al), Ghost(target));
    paint_data(&mut buf, size, m, end + m, Ghost(al), Ghost(target));
    assert(ay + 5 * m <= 2 * size);
    let ghost rest = al;
    put_next(&mut buf, size, ax, ay, 5 * m, 5 * m, true, Ghost(rest), Ghost(target));
    let ghost rest = rest.drop_first();
    put_next(&mut buf, size, ax + m, ay + m, 3 * m, 3 * m, false, Ghost(rest), Ghost(target));
    let ghost rest = rest.drop_first();
    put_next(&mut buf, size, ax + 2 * m, ay + 2 * m, m, m, true, Ghost(rest), Ghost(target));
    proof {
        assert(rest.drop_first() =~= Seq::<PaintOp>::empty());
    }
    buf
}

} // verus!
