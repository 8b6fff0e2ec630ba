//! Where the glyphs of the rain are drawn.

use crate::error_laws::apart;
use crate::error_laws::lemma_minus_error;
use crate::error_laws::lemma_over_error;
use crate::error_laws::lemma_plus_error;
use crate::error_laws::lemma_times_error;
use crate::rain_frame::RainGeometry;
use crate::rain_painter::glyph_quad;
use crate::rain_painter::Texture;
use crate::rounding::lemma_round_bits_zero;
use crate::single::abs;
use crate::single::one_in_units;
use crate::single::Single;
use crate::single_laws::lemma_integer;
use crate::single_laws::lemma_rounded;
use crate::single_laws::lemma_zero;
use crate::term_window::LinearRgba;
use vstd::arithmetic::power2::lemma2_to64;
use vstd::arithmetic::power2::lemma_pow2_adds;
use vstd::arithmetic::power2::lemma_pow2_pos;
use vstd::arithmetic::power2::lemma_pow2_strictly_increases;
use vstd::arithmetic::power2::pow2;
use vstd::prelude::*;

verus! {

/// The extent of a picture along one axis, in pixels of this zoom.
pub open spec fn drawn_extent(extent: isize, scale: Single, zoom: Single) -> Single {
    Single::integer(extent as int).times(scale).times(zoom)
}

/// Where a glyph starts along one axis.
spec fn axis_start(origin: Single, at: Single, cell: Single, extent: Single) -> Single {
    origin.plus(at.times(cell)).plus(cell.minus(extent).over(Single::integer(2)))
}

/// No length along an axis is above `m` units: where the grid starts, how far into it
/// the cell is, the cell, the extent of the picture as it is drawn, and half of the
/// window.
pub open spec fn axis_fits(
    origin: Single,
    at: Single,
    cell: Single,
    picture: Single,
    zoom: Single,
    off: Single,
    m: nat,
) -> bool {
    let u = one_in_units();
    &&& u <= m <= 0x100_0000 * u
    &&& origin.is_finite() && -m <= origin.value() <= m
    &&& at.is_finite() && cell.is_finite() && 0 <= cell.value() <= m
    &&& -(m * u) <= at.value() * cell.value() <= m * u
    &&& picture.is_finite() && 0 <= picture.value()
    &&& zoom.is_finite() && 0 < zoom.value()
    &&& picture.value() * zoom.value() <= m * u
    &&& off.is_finite() && -m <= off.value() <= m
}

/// No length of a glyph's place is above `m` units, in either direction.
pub open spec fn quad_fits(
    texture: Texture,
    g: RainGeometry,
    col: usize,
    row: Single,
    m: nat,
) -> bool {
    &&& axis_fits(
        g.ox,
        Single::integer(col as int),
        g.cell_w,
        Single::integer(texture.width as int).times(texture.scale),
        g.zoom,
        g.left_off,
        m,
    )
    &&& axis_fits(
        g.oy,
        row,
        g.cell_h,
        Single::integer(texture.height as int).times(texture.scale),
        g.zoom,
        g.top_off,
        m,
    )
}

/// A sum that is at most `w`: how far off it is, and what it is at most.
proof fn lemma_sum_near(a: Single, b: Single, w: int, m: int)
    requires
        a.is_finite(),
        b.is_finite(),
        -w <= a.value() + b.value() <= w,
        0 <= w <= 16 * m,
        32 * m <= pow2(200),
    ensures
        a.plus(b).is_finite(),
        -w <= 0x100_0000 * (a.plus(b).value() - (a.value() + b.value())) <= w,
        -(w + m) <= a.plus(b).value() <= w + m,
{
    lemma_plus_error(a, b);
}

/// The same of a difference.
proof fn lemma_difference_near(a: Single, b: Single, w: int, m: int)
    requires
        a.is_finite(),
        b.is_finite(),
        -w <= a.value() - b.value() <= w,
        0 <= w <= 16 * m,
        32 * m <= pow2(200),
    ensures
        a.minus(b).is_finite(),
        -w <= 0x100_0000 * (a.minus(b).value() - (a.value() - b.value())) <= w,
        -(w + m) <= a.minus(b).value() <= w + m,
{
    lemma_minus_error(a, b);
}

/// The same of a half.
proof fn lemma_half_near(a: Single, w: int, m: int)
    requires
        a.is_finite(),
        -w <= a.value() <= w,
        0x100_0000 <= m,
        0 <= w <= 3 * m,
        32 * m <= pow2(200),
    ensures
        a.over(Single::integer(2)).is_finite(),
        -(w + m) <= 0x100_0000 * (2 * a.over(Single::integer(2)).value() - a.value()) <= w + m,
        -(2 * m) <= a.over(Single::integer(2)).value() <= 2 * m,
{
    let u = one_in_units() as int;
    let two = Single::integer(2);
    lemma_pow2_pos(149);
    lemma_integer(2);
    let v = a.value();
    let n = abs(v) as int;
    assert(n * u <= pow2(200) * (2 * u)) by (nonlinear_arith)
        requires
            0 <= n <= pow2(200),
            u >= 0,
    ;
    lemma_over_error(a, two);
    let h = a.over(two).value();
    assert(h * (2 * u) - v * u == (2 * h - v) * u && v * u - h * (2 * u) == (v - 2 * h) * u)
        by (nonlinear_arith);
    assert(0x100_0000 * (2 * h - v) <= n + 0x100_0000 && 0x100_0000 * (v - 2 * h) <= n
        + 0x100_0000) by (nonlinear_arith)
        requires
            0x100_0000 * ((2 * h - v) * u) <= n * u + 0x80_0000 * (2 * u),
            0x100_0000 * ((v - 2 * h) * u) <= n * u + 0x80_0000 * (2 * u),
            u > 0,
    ;
}

/// The same of a product.
proof fn lemma_product_near(a: Single, b: Single, m: int)
    requires
        a.is_finite(),
        b.is_finite(),
        0x100_0000 <= m,
        32 * m <= pow2(200),
        -(m * one_in_units()) <= a.value() * b.value() <= m * one_in_units(),
    ensures
        a.times(b).is_finite(),
        -(2 * (m * one_in_units())) <= 0x100_0000 * (a.times(b).value() * one_in_units() - a.value()
            * b.value()) <= 2 * (m * one_in_units()),
        -(2 * m) <= a.times(b).value() <= 2 * m,
{
    let u = one_in_units() as int;
    lemma_pow2_pos(149);
    let p = a.value() * b.value();
    assert(m * u <= pow2(200) * u && 0x80_0000 * u <= m * u) by (nonlinear_arith)
        requires
            m <= pow2(200),
            0x80_0000 <= m,
            u >= 0,
    ;
    lemma_times_error(a, b);
    let x = a.times(b).value();
    assert(-(2 * m) <= x <= 2 * m) by (nonlinear_arith)
        requires
            0x100_0000 * (x * u - p) <= 2 * (m * u),
            -(0x100_0000 * (x * u - p)) <= 2 * (m * u),
            -(m * u) <= p <= m * u,
            m >= 0,
            u > 0,
    ;
}

/// The middle and the extent of a glyph along one axis.
proof fn lemma_axis(
    origin: Single,
    at: Single,
    cell: Single,
    picture: Single,
    zoom: Single,
    off: Single,
    m: nat,
)
    requires
        axis_fits(origin, at, cell, picture, zoom, off, m),
    ensures
        ({
            let u = one_in_units();
            let extent = picture.times(zoom);
            let start = axis_start(origin, at, cell, extent);
            let near = start.minus(off).value();
            let far = start.plus(extent).minus(off).value();
            &&& 0x100_0000 * apart(
                (near + far) * u,
                2 * ((origin.value() - off.value()) * u) + 2 * (at.value() * cell.value())
                    + cell.value() * u,
            ) <= 64 * (m * u)
            &&& 0x100_0000 * apart(far - near, extent.value()) <= 32 * m
        }),
{
    let u = one_in_units() as int;
    let k = m as int;
    lemma_pow2_pos(149);
    lemma2_to64();
    lemma_pow2_strictly_increases(24, 149);
    lemma_pow2_adds(24, 149);
    lemma_pow2_adds(5, 173);
    lemma_pow2_strictly_increases(178, 200);
    assert(picture.value() * zoom.value() >= 0) by (nonlinear_arith)
        requires
            picture.value() >= 0,
            zoom.value() > 0,
    ;
    assert(k * u >= 0) by (nonlinear_arith)
        requires
            k >= 0,
            u >= 0,
    ;
    lemma_product_near(picture, zoom, k);
    let extent = picture.times(zoom);
    assert(extent.value() >= 0) by {
        reveal(Single::spec_times);
        lemma_zero();
        lemma_rounded(picture.negative() != zoom.negative(), picture.size() * zoom.size(), u as nat);
        if picture.negative() {
            assert(picture.size() == 0);
            assert(picture.size() * zoom.size() == 0);
            lemma_round_bits_zero(0, u as nat);
        }
    }
    lemma_product_near(at, cell, k);
    let x1 = at.times(cell);
    lemma_sum_near(origin, x1, 3 * k, k);
    let x2 = origin.plus(x1);
    lemma_difference_near(cell, extent, 2 * k, k);
    let h0 = cell.minus(extent);
    lemma_half_near(h0, 3 * k, k);
    let h = h0.over(Single::integer(2));
    lemma_sum_near(x2, h, 6 * k, k);
    let x3 = x2.plus(h);
    lemma_difference_near(x3, off, 8 * k, k);
    lemma_sum_near(x3, extent, 9 * k, k);
    let far0 = x3.plus(extent);
    lemma_difference_near(far0, off, 11 * k, k);
    let near = x3.minus(off).value();
    let far = far0.minus(off).value();
    // What is left besides the product.
    let n: int = 0x100_0000;
    let p = at.value() * cell.value();
    let (o, c, f) = (origin.value(), cell.value(), off.value());
    let rest = near + far - (2 * o + 2 * x1.value() + c - 2 * f);
    assert(-(56 * k) <= n * rest <= 56 * k);
    let e1 = x1.value() * u - p;
    let total = (near + far) * u - (2 * ((o - f) * u) + 2 * p + c * u);
    assert(total == rest * u + 2 * e1) by (nonlinear_arith)
        requires
            rest == near + far - (2 * o + 2 * x1.value() + c - 2 * f),
            e1 == x1.value() * u - p,
            total == (near + far) * u - (2 * ((o - f) * u) + 2 * p + c * u),
    ;
    assert(-(56 * (k * u)) <= n * (rest * u) <= 56 * (k * u)) by (nonlinear_arith)
        requires
            -(56 * k) <= n * rest <= 56 * k,
            u >= 0,
    ;
}

/// A glyph is drawn about the centre of its cell, whatever the zoom: twice the middle of
/// its quad is the sum of the edges of its cell, to within 2^-18 of the largest length
/// that goes into its place. The quad has the extent of the zoomed picture, to within
/// 2^-19 of that length.
pub proof fn lemma_glyph_is_centred(
    texture: Texture,
    g: RainGeometry,
    col: usize,
    row: Single,
    color: LinearRgba,
    m: nat,
)
    requires
        quad_fits(texture, g, col, row, m),
    ensures
        ({
            let u = one_in_units();
            let quad = glyph_quad(texture, g, col, row, color);
            let at = Single::integer(col as int);
            &&& 0x4_0000 * apart(
                (quad.left.value() + quad.right.value()) * u,
                2 * ((g.ox.value() - g.left_off.value()) * u) + 2 * (at.value() * g.cell_w.value())
                    + g.cell_w.value() * u,
            ) <= m * u
            &&& 0x4_0000 * apart(
                (quad.top.value() + quad.bottom.value()) * u,
                2 * ((g.oy.value() - g.top_off.value()) * u) + 2 * (row.value() * g.cell_h.value())
                    + g.cell_h.value() * u,
            ) <= m * u
            &&& 0x8_0000 * apart(
                quad.right.value() - quad.left.value(),
                drawn_extent(texture.width, texture.scale, g.zoom).value(),
            ) <= m
            &&& 0x8_0000 * apart(
                quad.bottom.value() - quad.top.value(),
                drawn_extent(texture.height, texture.scale, g.zoom).value(),
            ) <= m
            &&& quad.color == color
            &&& quad.has_color == texture.has_color
            &&& quad.hsv is None
            &&& quad.layer == 2
        }),
{
    lemma_axis(
        g.ox,
        Single::integer(col as int),
        g.cell_w,
        Single::integer(texture.width as int).times(texture.scale),
        g.zoom,
        g.left_off,
        m,
    );
    lemma_axis(
        g.oy,
        row,
        g.cell_h,
        Single::integer(texture.height as int).times(texture.scale),
        g.zoom,
        g.top_off,
        m,
    );
}

/// Extents under two zooms are in the ratio of the zooms, up to the rounding of the two.
proof fn lemma_ratio(picture: Single, zoom: Single, other: Single, m: nat)
    requires
        picture.is_finite(),
        zoom.is_finite(),
        other.is_finite(),
        0 <= picture.value(),
        0 < zoom.value(),
        0 < other.value(),
        m <= 0x100_0000 * one_in_units(),
        picture.value() * zoom.value() <= m * one_in_units(),
        picture.value() * other.value() <= m * one_in_units(),
    ensures
        ({
            let u = one_in_units();
            0x100_0000 * (apart(
                picture.times(zoom).value() * other.value(),
                picture.times(other).value() * zoom.value(),
            ) * u) <= 2 * (picture.value() * zoom.value() * other.value()) + 0x80_0000 * ((
            zoom.value() + other.value()) * u)
        }),
{
    let u = one_in_units() as int;
    let b = picture.value();
    let (y, z) = (zoom.value(), other.value());
    lemma_pow2_pos(149);
    lemma2_to64();
    lemma_pow2_adds(24, 149);
    lemma_pow2_strictly_increases(173, 200);
    assert(m * u <= pow2(200) * u && b * y >= 0 && b * z >= 0) by (nonlinear_arith)
        requires
            m <= pow2(200),
            u >= 0,
            b >= 0,
            y >= 0,
            z >= 0,
    ;
    lemma_times_error(picture, zoom);
    lemma_times_error(picture, other);
    let e = picture.times(zoom).value();
    let f = picture.times(other).value();
    let n: int = 0x100_0000;
    let h: int = 0x80_0000;
    // Both products with the other zoom are near the product of all three.
    let (de, df) = (e * u - b * y, f * u - b * z);
    assert(n * (de * z) <= (b * y + h * u) * z && n * (de * z) >= -((b * y + h * u) * z))
        by (nonlinear_arith)
        requires
            n * de <= b * y + h * u,
            n * de >= -(b * y + h * u),
            z > 0,
    ;
    assert(n * (df * y) <= (b * z + h * u) * y && n * (df * y) >= -((b * z + h * u) * y))
        by (nonlinear_arith)
        requires
            n * df <= b * z + h * u,
            n * df >= -(b * z + h * u),
            y > 0,
    ;
    let all = b * y * z;
    assert((b * y + h * u) * z == all + h * (z * u) && (b * z + h * u) * y == all + h * (y * u))
        by (nonlinear_arith)
        requires
            all == b * y * z,
    ;
    assert((y + z) * u == y * u + z * u) by (nonlinear_arith);
    let diff = e * z - f * y;
    assert(diff * u == de * z - df * y) by (nonlinear_arith)
        requires
            diff == e * z - f * y,
            de == e * u - b * y,
            df == f * u - b * z,
    ;
    assert((-diff) * u == -(diff * u)) by (nonlinear_arith);
}

/// Zoom scales a glyph about its cell centre: under two zooms the quads have the same
/// middle, to within rounding, and the extents of the picture are in the ratio of the
/// zooms, to within the rounding of the two extents. The colours and the layer are the
/// same.
pub proof fn lemma_zoom_scales_about_the_centre(
    texture: Texture,
    g: RainGeometry,
    other: Single,
    col: usize,
    row: Single,
    color: LinearRgba,
    m: nat,
)
    requires
        quad_fits(texture, g, col, row, m),
        quad_fits(texture, (RainGeometry { zoom: other, ..g }), col, row, m),
    ensures
        ({
            let u = one_in_units();
            let one = glyph_quad(texture, g, col, row, color);
            let two = glyph_quad(texture, (RainGeometry { zoom: other, ..g }), col, row, color);
            let w = Single::integer(texture.width as int).times(texture.scale).value();
            let h = Single::integer(texture.height as int).times(texture.scale).value();
            let (y, z) = (g.zoom.value(), other.value());
            &&& 0x2_0000 * apart(
                one.left.value() + one.right.value(),
                two.left.value() + two.right.value(),
            ) <= m
            &&& 0x2_0000 * apart(
                one.top.value() + one.bottom.value(),
                two.top.value() + two.bottom.value(),
            ) <= m
            &&& 0x100_0000 * (apart(
                drawn_extent(texture.width, texture.scale, g.zoom).value() * z,
                drawn_extent(texture.width, texture.scale, other).value() * y,
            ) * u) <= 2 * (w * y * z) + 0x80_0000 * ((y + z) * u)
            &&& 0x100_0000 * (apart(
                drawn_extent(texture.height, texture.scale, g.zoom).value() * z,
                drawn_extent(texture.height, texture.scale, other).value() * y,
            ) * u) <= 2 * (h * y * z) + 0x80_0000 * ((y + z) * u)
            &&& one.color == two.color && one.has_color == two.has_color && one.hsv == two.hsv
            &&& one.layer == two.layer
        }),
{
    let u = one_in_units() as int;
    let g2 = RainGeometry { zoom: other, ..g };
    let one = glyph_quad(texture, g, col, row, color);
    let two = glyph_quad(texture, g2, col, row, color);
    lemma_pow2_pos(149);
    lemma_glyph_is_centred(texture, g, col, row, color, m);
    lemma_glyph_is_centred(texture, g2, col, row, color, m);
    lemma_same_middle(
        one.left.value() + one.right.value(),
        two.left.value() + two.right.value(),
        2 * ((g.ox.value() - g.left_off.value()) * u) + 2 * (Single::integer(col as int).value()
            * g.cell_w.value()) + g.cell_w.value() * u,
        m as int,
        u,
    );
    lemma_same_middle(
        one.top.value() + one.bottom.value(),
        two.top.value() + two.bottom.value(),
        2 * ((g.oy.value() - g.top_off.value()) * u) + 2 * (row.value() * g.cell_h.value())
            + g.cell_h.value() * u,
        m as int,
        u,
    );
    lemma_ratio(
        Single::integer(texture.width as int).times(texture.scale),
        g.zoom,
        other,
        m,
    );
    lemma_ratio(
        Single::integer(texture.height as int).times(texture.scale),
        g.zoom,
        other,
        m,
    );
}

/// Two sums that are near the same are near each other.
proof fn lemma_same_middle(a: int, b: int, middle: int, m: int, u: int)
    requires
        u > 0,
        0x4_0000 * apart(a * u, middle) <= m * u,
        0x4_0000 * apart(b * u, middle) <= m * u,
    ensures
        0x2_0000 * apart(a, b) <= m,
{
    assert(0x2_0000 * (a - b) <= m && 0x2_0000 * (b - a) <= m) by (nonlinear_arith)
        requires
            u > 0,
            0x4_0000 * (a * u - b * u) <= 2 * (m * u),
            0x4_0000 * (b * u - a * u) <= 2 * (m * u),
    ;
}

/// The edges of a glyph at any size: what they are computed from.
pub proof fn lemma_quad_at_any_size(
    texture: Texture,
    g: RainGeometry,
    col: usize,
    row: Single,
    color: LinearRgba,
)
    ensures
        ({
            let quad = glyph_quad(texture, g, col, row, color);
            let two = Single::integer(2);
            let width = Single::integer(texture.width as int).times(texture.scale).times(g.zoom);
            let height = Single::integer(texture.height as int).times(texture.scale).times(g.zoom);
            let x = g.ox.plus(Single::integer(col as int).times(g.cell_w)).plus(
                g.cell_w.minus(width).over(two),
            );
            let y = g.oy.plus(row.times(g.cell_h)).plus(g.cell_h.minus(height).over(two));
            &&& quad.left == x.minus(g.left_off)
            &&& quad.right == x.plus(width).minus(g.left_off)
            &&& quad.top == y.minus(g.top_off)
            &&& quad.bottom == y.plus(height).minus(g.top_off)
            &&& quad.color == color && quad.has_color == texture.has_color && quad.hsv is None
            &&& quad.layer == 2
        }),
{
}

} // verus!
