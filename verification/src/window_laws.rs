//! What the tab bar and the place of the rain are, said of the window's own fields.

use crate::error_laws::apart;
use crate::error_laws::lemma_minus_error;
use crate::error_laws::lemma_plus_error;
use crate::error_laws::lemma_times_error;
use crate::glyphs::GlyphInfo;
use crate::matrix_rain::frame_due;
use crate::matrix_rain::frame_palette;
use crate::matrix_rain::PaneArea;
use crate::matrix_rain::RainFrame;
use crate::motion_laws::lemma_rain_expires;
use crate::nearest_laws::lemma_ceil;
use crate::nearest_laws::lemma_comparisons;
use crate::nearest_laws::lemma_moved_into_range;
use crate::nearest_laws::lemma_truncated;
use crate::rain_frame::progress;
use crate::rain_frame::quantum_at;
use crate::rain_frame::zoom_at;
use crate::rain_laws::lemma_plus_zero;
use crate::rounding::lemma_round_bits_scaled;
use crate::rounding::lemma_round_fits;
use crate::single::abs;
use crate::single::one_in_units;
use crate::single::Single;
use crate::single_laws::lemma_integer;
use crate::single_laws::lemma_integer_back;
use crate::single_laws::lemma_integer_difference;
use crate::single_laws::lemma_integer_sum;
use crate::single_laws::lemma_negated;
use crate::single_laws::lemma_plus_commutes;
use crate::single_laws::lemma_plus_increases;
use crate::single_laws::lemma_rounded;
use crate::single_laws::lemma_zero;
use crate::single_laws::lemma_zero_times;
use crate::tab_bar::bar_action;
use crate::tab_bar::bar_height;
use crate::tab_bar::bar_items;
use crate::tab_bar::classic_y;
use crate::tab_bar::fancy;
use crate::tab_bar::handle;
use crate::tab_bar::handle_height;
use crate::tab_bar::handle_x;
use crate::tab_bar::inner_edge;
use crate::tab_bar::lemma_classic_bar_is_at_the_edge;
use crate::tab_bar::width_context;
use crate::tab_bar::TabBarAction;
use crate::tab_bar::TabBarEvent;
use crate::term_window::Border;
use crate::term_window::Config;
use crate::term_window::Dimensions;
use crate::term_window::RenderMetrics;
use crate::term_window::TabBarPosition;
use crate::term_window::TabSwitchAnim;
use crate::term_window::TermWindow;
use crate::term_window::UIItem;
use crate::term_window::UIItemType;
use vstd::arithmetic::div_mod::lemma_fundamental_div_mod;
use vstd::arithmetic::power2::lemma2_to64;
use vstd::arithmetic::power2::lemma_pow2_adds;
use vstd::arithmetic::power2::lemma_pow2_pos;
use vstd::arithmetic::power2::lemma_pow2_strictly_increases;
use vstd::arithmetic::power2::lemma_pow2_unfold;
use vstd::arithmetic::power2::pow2;
use vstd::prelude::*;

verus! {

/// The bar runs from top to bottom at the left and at the right, and nowhere else; there
/// and where it is asked for it is fancy.
pub proof fn lemma_fancy_bars(config: Config)
    ensures
        config.tab_bar_position.vertical() == match config.tab_bar_position {
            TabBarPosition::Left => true,
            TabBarPosition::Right => true,
            TabBarPosition::Top => false,
            TabBarPosition::Bottom => false,
        },
        fancy(config) == match config.tab_bar_position {
            TabBarPosition::Left => true,
            TabBarPosition::Right => true,
            TabBarPosition::Top => config.use_fancy_tab_bar,
            TabBarPosition::Bottom => config.use_fancy_tab_bar,
        },
{
}

/// The width that the user dragged a vertical bar to is its width, be it narrower or
/// wider than the configured one. Without one it is the configured width, and a
/// horizontal bar has none.
pub proof fn lemma_dragged_width_counts(win: TermWindow)
    ensures
        win.config.tab_bar_position is Left || win.config.tab_bar_position is Right ==> (
        match win.tab_bar_width_override {
            Some(dragged) => win.bar_width() == dragged,
            None => win.bar_width() == win.configured_tab_bar_width,
        }),
        win.config.tab_bar_position is Top || win.config.tab_bar_position is Bottom
            ==> win.bar_width().value() == 0 && win.bar_width() == (Single { bits: 0 }),
{
    lemma_zero();
}

/// Once the user dragged the bar, its configured width does not matter: neither for its
/// width, nor for its handle, nor for where the panes start.
pub proof fn lemma_configured_width_is_overridden<E>(
    win: TermWindow,
    configured: Single,
    pane_left: usize,
    pane_top: usize,
    title_cell_height: Result<Single, E>,
)
    requires
        win.tab_bar_width_override is Some,
    ensures
        ({
            let other = TermWindow { configured_tab_bar_width: configured, ..win };
            &&& other.bar_width() == win.bar_width()
            &&& other.pane_x(pane_left) == win.pane_x(pane_left)
            &&& other.pane_y(pane_top, title_cell_height) == win.pane_y(pane_top, title_cell_height)
        }),
{
}

/// The line of a classic bar lets the background show exactly where the window is not
/// opaque: where there is something behind the text, or the opacity is any number but
/// one, or none. Then it has no background of its own; else it has the text's.
pub proof fn lemma_classic_bar_transparency(win: TermWindow)
    ensures
        ({
            let opacity = win.config.window_background_opacity;
            let opaque = !win.has_window_background && !opacity.is_nan() && opacity.value()
                == one_in_units();
            let line = win.classic_line();
            &&& line.window_is_transparent == !opaque
            &&& opaque ==> line.background_alpha == win.config.text_background_opacity
            &&& !opaque ==> line.background_alpha == (Single { bits: 0 })
        }),
{
    lemma_integer(1);
    lemma_comparisons(win.config.window_background_opacity, Single::integer(1));
    assert(1 * one_in_units() == one_in_units());
}

/// The line of a classic bar goes over the whole width of the window, and has as many
/// columns as whole cells fit.
pub proof fn lemma_classic_bar_extent(win: TermWindow)
    requires
        win.render_metrics.cell_size.width > 0,
    ensures
        ({
            let line = win.classic_line();
            let width = win.render_metrics.cell_size.width;
            &&& line.left_pixel_x.value() == 0
            &&& win.dimensions.pixel_width < 0x100_0000 ==> line.pixel_width.value()
                == win.dimensions.pixel_width * one_in_units()
            &&& line.dims.cols * width <= win.dimensions.pixel_width < (line.dims.cols + 1) * width
            &&& line.dims.viewport_rows == 1
            &&& line.dims.scrollback_rows == 0 && line.dims.scrollback_top == 0
            &&& line.dims.physical_top == 0
            &&& line.dims.dpi == win.terminal_size.dpi
            &&& line.dims.pixel_width == win.terminal_size.pixel_width
            &&& win.render_metrics.cell_size.height >= 0 ==> line.dims.pixel_height
                == win.render_metrics.cell_size.height
            &&& !line.dims.reverse_video
            &&& line.selection_start == line.selection_end
            &&& line.use_pixel_positioning == win.config.experimental_pixel_positioning
            &&& line.is_active && line.cursor_is_default_color && !line.password_input
        }),
{
    let w = win.render_metrics.cell_size.width as int;
    let p = win.dimensions.pixel_width as int;
    lemma_zero();
    if p < 0x100_0000 {
        lemma_integer(p);
    }
    lemma_fundamental_div_mod(p, w);
    assert(win.classic_line().dims.cols == p / w);
    assert(w * (p / w) == (p / w) * w && (p / w + 1) * w == (p / w) * w + w) by (nonlinear_arith);
}

/// Where a classic bar has no room above the bottom border, it is at the top.
pub proof fn lemma_classic_bar_without_room(
    dimensions: Dimensions,
    border: Border,
    metrics: RenderMetrics,
)
    requires
        0 <= metrics.cell_size.height,
        metrics.cell_size.height + border.bottom < 0x100_0000,
        dimensions.pixel_height <= metrics.cell_size.height + border.bottom,
    ensures
        classic_y(TabBarPosition::Bottom, dimensions, border, metrics).value() == 0,
{
    let taken = metrics.cell_size.height + border.bottom;
    lemma_integer_sum(metrics.cell_size.height as int, border.bottom as int);
    lemma_integer_difference(dimensions.pixel_height as int, taken);
    lemma_integer(dimensions.pixel_height - taken);
    lemma_pow2_pos(149);
    let over = dimensions.pixel_height - taken;
    assert(over * one_in_units() <= 0) by (nonlinear_arith)
        requires
            over <= 0,
            one_in_units() > 0,
    ;
    lemma_moved_into_range(Single::integer(over));
}

/// The height of a fancy bar is a whole number of pixels, and seven quarters of the
/// height of the title font's cells or less than a pixel more, up to rounding. That of a
/// classic one is the height of a cell. There is an error exactly where a fancy bar's
/// font has one, and it is that one.
pub proof fn lemma_bar_height<E>(
    config: Config,
    title_cell_height: Result<Single, E>,
    metrics: RenderMetrics,
)
    ensures
        ({
            let is_fancy = config.use_fancy_tab_bar || config.tab_bar_position is Left
                || config.tab_bar_position is Right;
            let height = bar_height(config, title_cell_height, metrics);
            let u = one_in_units();
            &&& !is_fancy ==> height is Ok && (-0x100_0000 < metrics.cell_size.height < 0x100_0000
                ==> height->Ok_0.value() == metrics.cell_size.height * u)
            &&& is_fancy ==> (height is Err <==> title_cell_height is Err)
            &&& is_fancy && title_cell_height is Err ==> height == title_cell_height
            &&& is_fancy ==> (title_cell_height matches Ok(cell) ==> (cell.is_finite() && 0
                <= cell.value() < 0x10_0000 * u ==> {
                let h = height->Ok_0.value();
                &&& h % (u as int) == 0
                &&& 0x100_0000 * (7 * cell.value() - 4 * h) <= 7 * cell.value() + 0x200_0000
                &&& 0x100_0000 * (4 * h - 7 * cell.value() - 4 * u) < 7 * cell.value()
                    + 0x200_0000
            }))
        }),
{
    let is_fancy = config.use_fancy_tab_bar || config.tab_bar_position is Left
        || config.tab_bar_position is Right;
    let u = one_in_units() as int;
    lemma_pow2_pos(149);
    if !is_fancy {
        if -0x100_0000 < metrics.cell_size.height < 0x100_0000 {
            lemma_integer(metrics.cell_size.height as int);
        }
    } else if title_cell_height is Ok {
        let cell = title_cell_height->Ok_0;
        if cell.is_finite() && 0 <= cell.value() < 0x10_0000 * u {
            lemma_title_height(cell);
        }
    }
}

/// Seven quarters of a height, rounded up.
proof fn lemma_title_height(cell: Single)
    requires
        cell.is_finite(),
        0 <= cell.value() < 0x10_0000 * one_in_units(),
    ensures
        ({
            let u = one_in_units();
            let h = cell.times(Single::fraction(7, 4)).ceil().value();
            &&& h % (u as int) == 0
            &&& 0x100_0000 * (7 * cell.value() - 4 * h) <= 7 * cell.value() + 0x200_0000
            &&& 0x100_0000 * (4 * h - 7 * cell.value() - 4 * u) < 7 * cell.value() + 0x200_0000
        }),
{
    let u = one_in_units() as int;
    let f = Single::fraction(7, 4);
    let q = pow2(147);
    lemma_pow2_pos(149);
    lemma2_to64();
    lemma_pow2_adds(147, 2);
    lemma_pow2_adds(20, 149);
    lemma_pow2_adds(24, 149);
    lemma_pow2_strictly_increases(173, 200);
    // The factor is exact.
    assert(f.is_finite() && !f.negative() && f.value() == 7 * q) by {
        reveal(Single::fraction);
        lemma_round_fits(7, 147);
        assert((7 * q) * 4 == 7 * u && 1 * 4 == 4);
        lemma_round_bits_scaled((7 * q) as nat, 1, 4);
        lemma_rounded(false, (7 * u) as nat, 4);
    }
    let v = cell.value();
    assert(0 <= v * f.value() <= pow2(200) * u && 4 * (v * f.value()) == 7 * (v * u))
        by (nonlinear_arith)
        requires
            0 <= v < 0x10_0000 * u,
            f.value() == 7 * q,
            u == 4 * q,
            pow2(200) >= 0x100_0000 * u,
            u >= 0,
    ;
    lemma_times_error(cell, f);
    let p = cell.times(f);
    let pv = p.value();
    assert(0x100_0000 * (4 * pv - 7 * v) <= 7 * v + 0x200_0000 && 0x100_0000 * (7 * v - 4 * pv)
        <= 7 * v + 0x200_0000) by (nonlinear_arith)
        requires
            0x100_0000 * (pv * u - v * f.value()) <= v * f.value() + 0x80_0000 * u,
            0x100_0000 * (v * f.value() - pv * u) <= v * f.value() + 0x80_0000 * u,
            4 * (v * f.value()) == 7 * (v * u),
            u > 0,
    ;
    assert(p.size() < 0x80_0000 * u);
    lemma_ceil(p);
}

/// The handle starts below the top border, is six pixels wide and resizes the bar. It has
/// no height where the borders leave none, and does not start left of the window.
pub proof fn lemma_handle_fields(
    position: TabBarPosition,
    dimensions: Dimensions,
    border: Border,
    width: Single,
)
    ensures
        ({
            let item = handle(position, dimensions, border, width);
            &&& item.y == border.top
            &&& item.width == 6
            &&& item.item_type == UIItemType::TabBarSeparator
            &&& dimensions.pixel_height <= border.top + border.bottom < 0x100_0000 ==> item.height
                == 0
        }),
{
    let taken = border.top + border.bottom;
    if dimensions.pixel_height <= taken && taken < 0x100_0000 {
        let over = dimensions.pixel_height - taken;
        lemma_pow2_pos(149);
        lemma_integer_difference(dimensions.pixel_height as int, taken);
        lemma_integer(over);
        assert(over * one_in_units() <= 0) by (nonlinear_arith)
            requires
                over <= 0,
                one_in_units() > 0,
        ;
        lemma_moved_into_range(Single::integer(over));
        lemma_truncated(Single::integer(over).or_zero(), usize::MAX as nat);
        lemma_zero_is_zero(Single::integer(over));
    }
}

/// What is not above zero, moved to zero, is cut off to zero.
proof fn lemma_zero_is_zero(a: Single)
    requires
        !a.is_nan(),
        a.value() <= 0,
    ensures
        a.or_zero() == (Single { bits: 0 }),
        a.or_zero().truncated(usize::MAX as nat) == 0,
{
    lemma_zero();
    reveal(Single::spec_or_zero);
    lemma_truncated(Single { bits: 0 }, usize::MAX as nat);
}

/// Where a Right bar leaves no room for the handle, it starts at the window's left edge.
pub proof fn lemma_handle_without_room(dimensions: Dimensions, border: Border, width: Single)
    requires
        inner_edge(TabBarPosition::Right, dimensions.pixel_width, border, width).is_finite(),
        inner_edge(TabBarPosition::Right, dimensions.pixel_width, border, width).value() <= 6
            * one_in_units(),
    ensures
        handle(TabBarPosition::Right, dimensions, border, width).x == 0,
{
    let edge = inner_edge(TabBarPosition::Right, dimensions.pixel_width, border, width);
    let six = Single::integer(6);
    lemma_integer(6);
    lemma_negated(six);
    lemma_plus_increases(edge, six, six.negated());
    lemma_integer_difference(6, 6);
    lemma_zero();
    lemma_zero_is_zero(edge.minus(six));
}

/// The inner edge of a vertical bar is its width away from the border on its side, up to
/// rounding.
pub proof fn lemma_inner_edge(
    position: TabBarPosition,
    pixel_width: usize,
    border: Border,
    width: Single,
)
    requires
        position is Left || position is Right,
        pixel_width < 0x40_0000,
        border.left < 0x40_0000,
        border.right < 0x40_0000,
        width.is_finite(),
        0 <= width.value() < 0x40_0000 * one_in_units(),
    ensures
        ({
            let u = one_in_units();
            let edge = inner_edge(position, pixel_width, border, width);
            let exact = if position is Left {
                border.left * u + width.value()
            } else {
                (pixel_width - border.right) * u - width.value()
            };
            edge.is_finite() && 0x100_0000 * apart(edge.value(), exact) <= abs(exact)
        }),
{
    let u = one_in_units();
    lemma_pow2_pos(149);
    lemma2_to64();
    lemma_pow2_adds(24, 149);
    lemma_pow2_strictly_increases(173, 200);
    if position is Left {
        lemma_integer(border.left as int);
        assert(0 <= border.left * u <= 0x40_0000 * u) by (nonlinear_arith)
            requires
                0 <= border.left <= 0x40_0000,
        ;
        lemma_plus_error(Single::integer(border.left as int), width);
    } else {
        let room = pixel_width - border.right;
        lemma_integer_difference(pixel_width as int, border.right as int);
        lemma_integer(room);
        assert(-(0x40_0000 * u) <= room * u <= 0x40_0000 * u) by (nonlinear_arith)
            requires
                -0x40_0000 <= room <= 0x40_0000,
        ;
        lemma_minus_error(Single::integer(room), width);
    }
}

/// What a pane's cells start after at the left, in this order: a shown Left bar with the
/// width it was dragged to or else its configured one, the padding, the border, and the
/// columns of other panes.
pub proof fn lemma_pane_starts_after(win: TermWindow, pane_left: usize)
    ensures
        ({
            let bar = if win.show_tab_bar && win.config.tab_bar_position is Left {
                match win.tab_bar_width_override {
                    Some(dragged) => dragged,
                    None => win.configured_tab_bar_width,
                }
            } else {
                Single { bits: 0 }
            };
            win.pane_x(pane_left) == bar.plus(win.padding.left).plus(
                Single::integer(win.os_border.left as int),
            ).plus(
                Single::integer(pane_left as int).times(
                    Single::integer(win.render_metrics.cell_size.width as int),
                ),
            )
        }),
{
}

/// What a pane's cells start below, in this order: a shown Top bar, the padding, the
/// border, and the rows of other panes. A bar whose font fails takes nothing.
pub proof fn lemma_pane_starts_below<E>(
    win: TermWindow,
    pane_top: usize,
    title_cell_height: Result<Single, E>,
)
    ensures
        ({
            let bar = if !win.show_tab_bar || !(win.config.tab_bar_position is Top) {
                Single { bits: 0 }
            } else if !win.config.use_fancy_tab_bar {
                Single::integer(win.render_metrics.cell_size.height as int)
            } else {
                match title_cell_height {
                    Ok(cell) => cell.times(Single::fraction(7, 4)).ceil(),
                    Err(_) => Single { bits: 0 },
                }
            };
            win.pane_y(pane_top, title_cell_height) == bar.plus(win.padding.top).plus(
                Single::integer(win.os_border.top as int),
            ).plus(
                Single::integer(pane_top as int).times(
                    Single::integer(win.render_metrics.cell_size.height as int),
                ),
            )
        }),
{
}

/// A product of whole numbers is exact.
pub proof fn lemma_integer_product(a: nat, b: nat)
    requires
        a < 0x100_0000,
        b < 0x100_0000,
        a * b < 0x100_0000,
    ensures
        Single::integer(a as int).times(Single::integer(b as int)) == Single::integer(
            (a * b) as int,
        ),
{
    let u = one_in_units();
    let n = a * b;
    lemma_pow2_pos(149);
    lemma_integer(a as int);
    lemma_integer(b as int);
    reveal(Single::spec_times);
    reveal(Single::integer);
    assert((a * u) * (b * u) == (n * u) * u) by (nonlinear_arith)
        requires
            n == a * b,
    ;
    lemma_round_bits_scaled(n * u, 1, u);
    assert(1 * u == u);
}

/// A sum of whole numbers of pixels, as the places of panes are made.
proof fn lemma_whole_place(bar: nat, padding: nat, border: nat, cells: nat, cell: nat)
    requires
        bar + padding + border + cells * cell < 0x100_0000,
        cells < 0x100_0000,
        cell < 0x100_0000,
    ensures
        Single::integer(bar as int).plus(Single::integer(padding as int)).plus(
            Single::integer(border as int),
        ).plus(Single::integer(cells as int).times(Single::integer(cell as int)))
            == Single::integer((bar + padding + border + cells * cell) as int),
{
    assert(cells * cell >= 0) by (nonlinear_arith);
    lemma_integer_sum(bar as int, padding as int);
    lemma_integer_sum((bar + padding) as int, border as int);
    lemma_integer_sum((bar + padding + border) as int, (cells * cell) as int);
    lemma_integer_product(cells, cell);
}

/// With whole numbers of pixels the place of a pane is their sum: the width of a shown
/// Left bar, the padding, the border, and the cells of other panes.
pub proof fn lemma_whole_pane_x(win: TermWindow, bar: nat, padding: nat, pane_left: usize)
    requires
        win.padding.left == Single::integer(padding as int),
        0 <= win.render_metrics.cell_size.width < 0x100_0000,
        pane_left < 0x100_0000,
        bar + padding + win.os_border.left + pane_left * win.render_metrics.cell_size.width
            < 0x100_0000,
        win.show_tab_bar && win.config.tab_bar_position is Left ==> (
        match win.tab_bar_width_override {
            Some(dragged) => dragged == Single::integer(bar as int),
            None => win.configured_tab_bar_width == Single::integer(bar as int),
        }),
        !(win.show_tab_bar && win.config.tab_bar_position is Left) ==> bar == 0,
    ensures
        win.pane_x(pane_left) == Single::integer(
            bar + padding + win.os_border.left + pane_left * win.render_metrics.cell_size.width,
        ),
{
    lemma_zero();
    lemma_pane_starts_after(win, pane_left);
    lemma_whole_place(
        bar,
        padding,
        win.os_border.left as nat,
        pane_left as nat,
        win.render_metrics.cell_size.width as nat,
    );
}

/// The same from above, with the height of a shown Top bar.
pub proof fn lemma_whole_pane_y<E>(
    win: TermWindow,
    bar: nat,
    padding: nat,
    pane_top: usize,
    title_cell_height: Result<Single, E>,
)
    requires
        win.padding.top == Single::integer(padding as int),
        0 <= win.render_metrics.cell_size.height < 0x100_0000,
        pane_top < 0x100_0000,
        bar + padding + win.os_border.top + pane_top * win.render_metrics.cell_size.height
            < 0x100_0000,
        win.show_tab_bar && win.config.tab_bar_position is Top ==> bar_height(
            win.config,
            title_cell_height,
            win.render_metrics,
        ) == Result::<Single, E>::Ok(Single::integer(bar as int)),
        !(win.show_tab_bar && win.config.tab_bar_position is Top) ==> bar == 0,
    ensures
        win.pane_y(pane_top, title_cell_height) == Single::integer(
            bar + padding + win.os_border.top + pane_top * win.render_metrics.cell_size.height,
        ),
{
    lemma_zero();
    lemma_pane_starts_below(win, pane_top, title_cell_height);
    lemma_whole_place(
        bar,
        padding,
        win.os_border.top as nat,
        pane_top as nat,
        win.render_metrics.cell_size.height as nat,
    );
}

/// Without padding the first column of the panes starts where the handle of a Left bar
/// does, whatever the width of the bar.
pub proof fn lemma_panes_start_at_the_handle(win: TermWindow)
    requires
        win.show_tab_bar,
        win.config.tab_bar_position is Left,
        win.padding.left == (Single { bits: 0 }),
        win.os_border.left < 0x100_0000,
        -0x100_0000 < win.render_metrics.cell_size.width < 0x100_0000,
        win.bar_width().is_finite(),
        win.bar_width().value() > 0,
        win.bar_width().value() < 0x100_0000 * one_in_units(),
    ensures
        win.pane_x(0).or_zero().truncated(usize::MAX as nat) == handle(
            win.config.tab_bar_position,
            win.dimensions,
            win.os_border,
            win.bar_width(),
        ).x,
{
    let w = win.bar_width();
    let b = Single::integer(win.os_border.left as int);
    let cw = Single::integer(win.render_metrics.cell_size.width as int);
    let zero = Single::integer(0);
    let u = one_in_units();
    lemma_pow2_pos(149);
    lemma_zero();
    lemma_integer(win.os_border.left as int);
    lemma_integer(win.render_metrics.cell_size.width as int);
    lemma_plus_zero(w, zero);
    lemma_plus_commutes(w, b);
    lemma_zero_times(zero, cw);
    assert(0 <= b.value() <= 0x100_0000 * u) by (nonlinear_arith)
        requires
            b.value() == win.os_border.left * u,
            0 <= win.os_border.left <= 0x100_0000,
    ;
    lemma2_to64();
    lemma_pow2_adds(24, 149);
    lemma_pow2_adds(1, 173);
    lemma_pow2_strictly_increases(174, 200);
    lemma_plus_error(w, b);
    let edge = w.plus(b);
    assert(edge.value() > 0);
    lemma_plus_zero(edge, zero.times(cw));
    assert(win.pane_x(0) == edge);
    lemma_truncated(edge.or_zero(), usize::MAX as nat);
}

/// Where a frame of the rain is, said of the window: the corner of the pane's cells, the
/// extent of a cell, and half of the window.
pub proof fn lemma_rain_geometry<E>(
    win: TermWindow,
    elapsed: Single,
    pane: PaneArea,
    title_cell_height: Result<Single, E>,
)
    ensures
        ({
            let u = one_in_units();
            let g = win.rain_geometry(elapsed, pane, title_cell_height);
            let cell = win.render_metrics.cell_size;
            &&& g.ox == win.pane_x(pane.left)
            &&& g.oy == win.pane_y(pane.top, title_cell_height)
            &&& g.zoom == zoom_at(progress(elapsed))
            &&& -0x100_0000 < cell.width < 0x100_0000 ==> g.cell_w.value() == cell.width * u
            &&& -0x100_0000 < cell.height < 0x100_0000 ==> g.cell_h.value() == cell.height * u
            &&& win.dimensions.pixel_width < 0x100_0000 ==> 2 * g.left_off.value()
                == win.dimensions.pixel_width * u
            &&& win.dimensions.pixel_height < 0x100_0000 ==> 2 * g.top_off.value()
                == win.dimensions.pixel_height * u
        }),
{
    let cell = win.render_metrics.cell_size;
    if -0x100_0000 < cell.width < 0x100_0000 {
        lemma_integer(cell.width as int);
    }
    if -0x100_0000 < cell.height < 0x100_0000 {
        lemma_integer(cell.height as int);
    }
    if win.dimensions.pixel_width < 0x100_0000 {
        lemma_half(win.dimensions.pixel_width as nat);
    }
    if win.dimensions.pixel_height < 0x100_0000 {
        lemma_half(win.dimensions.pixel_height as nat);
    }
}

/// Half of a whole number is exact.
proof fn lemma_half(n: nat)
    requires
        n < 0x100_0000,
    ensures
        2 * Single::integer(n as int).over(Single::integer(2)).value() == n * one_in_units(),
{
    let u = one_in_units();
    let h = pow2(148);
    lemma_pow2_pos(149);
    lemma_pow2_pos(148);
    lemma_pow2_unfold(149);
    lemma_zero();
    lemma_integer(n as int);
    lemma_integer(2);
    reveal(Single::spec_over);
    let a = Single::integer(n as int);
    assert(a.size() * u == (n * h) * (2 * u)) by (nonlinear_arith)
        requires
            a.size() == n * u,
            u == 2 * h,
    ;
    lemma_round_bits_scaled(n * h, 1, 2 * u);
    assert(1 * (2 * u) == 2 * u);
    lemma_round_fits(n, 148);
    lemma_rounded(false, a.size() * u, 2 * u);
    assert(2 * (n * h) == n * u) by (nonlinear_arith)
        requires
            u == 2 * h,
    ;
}

/// A frame is as large as the smaller of the screens, the captured one and the live one.
pub proof fn lemma_frame_extent<E>(
    win: TermWindow,
    anim: TabSwitchAnim,
    palette_len: usize,
    elapsed: Single,
    pane: PaneArea,
    title_cell_height: Result<Single, E>,
)
    ensures
        ({
            let setup = win.rain_setup(anim, palette_len, elapsed, pane, title_cell_height);
            &&& setup.cols <= anim.cols && setup.cols <= pane.cols
            &&& setup.cols == anim.cols || setup.cols == pane.cols
            &&& setup.rows <= anim.rows && setup.rows <= pane.rows
            &&& setup.rows == anim.rows || setup.rows == pane.rows
            &&& setup.palette_len == palette_len
            &&& setup.progress == progress(elapsed)
            &&& setup.quantum == quantum_at(elapsed)
            &&& setup.geometry == win.rain_geometry(elapsed, pane, title_cell_height)
        }),
{
}

/// The configured width of a bar is measured exactly where the bar is vertical: by the
/// window's resolution, its width and the width of a cell.
pub proof fn lemma_width_is_measured(config: Config, metrics: RenderMetrics, dimensions: Dimensions)
    ensures
        ({
            let context = width_context(config, metrics, dimensions);
            &&& config.tab_bar_position is Top || config.tab_bar_position is Bottom ==> context is None
            &&& config.tab_bar_position is Left || config.tab_bar_position is Right ==> {
                &&& context is Some
                &&& context->0.dpi == Single::integer(dimensions.dpi as int)
                &&& context->0.pixel_max == Single::integer(dimensions.pixel_width as int)
                &&& context->0.pixel_cell == Single::integer(metrics.cell_size.width as int)
            }
        }),
{
}

/// A fancy bar is built if it is not there yet, then painted, and that is all; a classic one
/// has its areas told, then its line rendered, and that is all.
pub proof fn lemma_bar_actions_in_order(win: TermWindow, items: Vec<UIItem>)
    ensures
        ({
            let is_fancy = win.config.use_fancy_tab_bar || win.config.tab_bar_position is Left
                || win.config.tab_bar_position is Right;
            &&& is_fancy && !win.has_fancy_tab_bar ==> bar_action(win, TabBarEvent::Start)
                == TabBarAction::BuildFancy
            &&& is_fancy && win.has_fancy_tab_bar ==> bar_action(win, TabBarEvent::Start)
                == TabBarAction::PaintFancy
            &&& bar_action(win, TabBarEvent::FancyBuilt) == TabBarAction::PaintFancy
            &&& bar_action(win, TabBarEvent::FancyPainted(items)) == TabBarAction::Done
            &&& !is_fancy ==> bar_action(win, TabBarEvent::Start) is ComputeItems
            &&& bar_action(win, TabBarEvent::ItemsComputed(items)) matches TabBarAction::RenderLine(
                line,
            ) ==> line == win.classic_line()
            &&& bar_action(win, TabBarEvent::ItemsComputed(items)) is RenderLine
            &&& bar_action(win, TabBarEvent::LineRendered) == TabBarAction::Done
        }),
{
}

/// The areas of a classic bar are told for the row of pixels that its line is at, and for
/// the cells of the window.
pub proof fn lemma_classic_areas(win: TermWindow)
    requires
        !win.config.use_fancy_tab_bar,
        win.config.tab_bar_position is Top || win.config.tab_bar_position is Bottom,
        win.os_border.top < 0x100_0000,
        win.dimensions.pixel_height < 0x100_0000,
        0 <= win.render_metrics.cell_size.height,
        0 <= win.render_metrics.cell_size.width,
        win.render_metrics.cell_size.height + win.os_border.bottom <= win.dimensions.pixel_height,
    ensures
        bar_action(win, TabBarEvent::Start) == (TabBarAction::ComputeItems {
            y: if win.config.tab_bar_position is Top {
                win.os_border.top
            } else {
                (win.dimensions.pixel_height - win.os_border.bottom
                    - win.render_metrics.cell_size.height) as usize
            },
            cell_height: win.render_metrics.cell_size.height as usize,
            cell_width: win.render_metrics.cell_size.width as usize,
        }),
{
    lemma_classic_bar_is_at_the_edge(
        win.config.tab_bar_position,
        win.dimensions,
        win.os_border,
        win.render_metrics,
    );
    if win.config.tab_bar_position is Top {
        lemma_integer_back(win.os_border.top as int);
    } else {
        lemma_integer_back(
            win.dimensions.pixel_height - win.os_border.bottom
                - win.render_metrics.cell_size.height,
        );
    }
}

/// The areas that were there stay, the host's follow in their order, and the handle of a
/// vertical bar is the last one, so that it wins; a horizontal bar has no handle.
pub proof fn lemma_areas_are_added(win: TermWindow, items: Vec<UIItem>, i: int)
    ensures
        ({
            let n = win.ui_items@.len();
            let k = items@.len();
            let is_vertical = win.config.tab_bar_position is Left
                || win.config.tab_bar_position is Right;
            let painted = bar_items(win, TabBarEvent::FancyPainted(items));
            let computed = bar_items(win, TabBarEvent::ItemsComputed(items));
            &&& painted.len() == n + k + if is_vertical {
                1int
            } else {
                0
            }
            &&& computed.len() == n + k
            &&& 0 <= i < n ==> painted[i] == win.ui_items@[i] && computed[i] == win.ui_items@[i]
            &&& n <= i < n + k ==> painted[i] == items@[i - n] && computed[i] == items@[i - n]
            &&& is_vertical ==> painted.last().item_type == UIItemType::TabBarSeparator
                && painted.last() == handle(
                win.config.tab_bar_position,
                win.dimensions,
                win.os_border,
                win.bar_width(),
            )
            &&& bar_items(win, TabBarEvent::Start) == win.ui_items@
            &&& bar_items(win, TabBarEvent::FancyBuilt) == win.ui_items@
            &&& bar_items(win, TabBarEvent::LineRendered) == win.ui_items@
        }),
{
}

/// The handle at any size of the window: what its edges are computed from.
pub proof fn lemma_handle_at_any_size(
    position: TabBarPosition,
    dimensions: Dimensions,
    border: Border,
    width: Single,
)
    requires
        position is Left || position is Right,
    ensures
        ({
            let edge = if position is Left {
                Single::integer(border.left as int).plus(width)
            } else {
                Single::integer(dimensions.pixel_width as int).minus(
                    Single::integer(border.right as int),
                ).minus(width).minus(Single::integer(6))
            };
            let room = Single::integer(dimensions.pixel_height as int).minus(
                Single::integer(border.top + border.bottom),
            );
            let item = handle(position, dimensions, border, width);
            &&& item.x == edge.or_zero().truncated(usize::MAX as nat)
            &&& item.height == room.or_zero().truncated(usize::MAX as nat)
        }),
{
    let edge = handle_x(position, dimensions.pixel_width, border, width);
    lemma_truncated(edge.or_zero(), usize::MAX as nat);
    lemma_truncated(
        handle_height(dimensions.pixel_height, border),
        usize::MAX as nat,
    );
}

/// The height of a bar at any size: a fancy one is seven quarters of the title's cells high,
/// rounded up, and fails as they do; a classic one is a cell high.
pub proof fn lemma_bar_height_at_any_size<E>(
    config: Config,
    title_cell_height: Result<Single, E>,
    metrics: RenderMetrics,
)
    ensures
        ({
            let height = bar_height(config, title_cell_height, metrics);
            let is_fancy = config.use_fancy_tab_bar || config.tab_bar_position is Left
                || config.tab_bar_position is Right;
            &&& is_fancy && title_cell_height is Err ==> height == title_cell_height
            &&& is_fancy && title_cell_height is Ok ==> height is Ok && height->Ok_0
                == title_cell_height->Ok_0.times(Single::fraction(7, 4)).ceil()
            &&& !is_fancy ==> height is Ok && height->Ok_0 == Single::integer(
                metrics.cell_size.height as int,
            )
        }),
{
}

/// A classic bar at any size of the window.
pub proof fn lemma_classic_bar_at_any_size(win: TermWindow)
    ensures
        win.config.tab_bar_position is Bottom ==> win.classic_line().top_pixel_y == Single::integer(
            win.dimensions.pixel_height as int,
        ).minus(
            Single::integer(win.render_metrics.cell_size.height as int).plus(
                Single::integer(win.os_border.bottom as int),
            ),
        ).or_zero(),
        !(win.config.tab_bar_position is Bottom) ==> win.classic_line().top_pixel_y
            == Single::integer(win.os_border.top as int),
        win.classic_line().pixel_width == Single::integer(win.dimensions.pixel_width as int),
{
}

/// The geometry of a frame at any size of the window.
pub proof fn lemma_geometry_at_any_size<E>(
    win: TermWindow,
    elapsed: Single,
    pane: PaneArea,
    title_cell_height: Result<Single, E>,
)
    ensures
        ({
            let g = win.rain_geometry(elapsed, pane, title_cell_height);
            let two = Single::integer(2);
            let left_bar = if win.show_tab_bar && win.config.tab_bar_position is Left {
                match win.tab_bar_width_override {
                    Some(dragged) => dragged,
                    None => win.configured_tab_bar_width,
                }
            } else {
                Single { bits: 0 }
            };
            let top_bar = if win.show_tab_bar && win.config.tab_bar_position is Top {
                if win.config.use_fancy_tab_bar {
                    match title_cell_height {
                        Ok(height) => height.times(Single::fraction(7, 4)).ceil(),
                        Err(_) => Single { bits: 0 },
                    }
                } else {
                    g.cell_h
                }
            } else {
                Single { bits: 0 }
            };
            &&& g.ox == left_bar.plus(win.padding.left).plus(
                Single::integer(win.os_border.left as int),
            ).plus(Single::integer(pane.left as int).times(g.cell_w))
            &&& g.oy == top_bar.plus(win.padding.top).plus(
                Single::integer(win.os_border.top as int),
            ).plus(Single::integer(pane.top as int).times(g.cell_h))
            &&& g.cell_w == Single::integer(win.render_metrics.cell_size.width as int)
            &&& g.cell_h == Single::integer(win.render_metrics.cell_size.height as int)
            &&& g.left_off == Single::integer(win.dimensions.pixel_width as int).over(two)
            &&& g.top_off == Single::integer(win.dimensions.pixel_height as int).over(two)
        }),
{
}

/// A window without a transition has nothing to do. One with a transition is done with it
/// from 4200 milliseconds on; until then there is a frame, the next one is due in sixteen
/// milliseconds, and the palette is shaped if there is none.
pub proof fn lemma_frame_due(running: bool, has_palette: bool, elapsed_secs: Single)
    ensures
        ({
            let elapsed = elapsed_secs.times(Single::integer(1000));
            let over = !elapsed.is_nan() && elapsed.value() >= 4200 * one_in_units();
            let frame = frame_due(running, has_palette, elapsed_secs);
            &&& !running <==> frame is Idle
            &&& running && over <==> frame is Expired
            &&& running && !over ==> frame == (RainFrame::Running {
                elapsed,
                next_frame_millis: 16,
                palette_missing: !has_palette,
            })
        }),
{
    lemma_rain_expires(elapsed_secs.times(Single::integer(1000)));
}

/// A palette that was kept is used as it is, whatever was shaped; without one the shaped one
/// is, all of it; without either there is no stream.
pub proof fn lemma_palette_in_use(
    kept: Option<Vec<GlyphInfo>>,
    shaped: Option<Vec<GlyphInfo>>,
    other: Option<Vec<GlyphInfo>>,
)
    ensures
        kept is Some ==> frame_palette(kept, shaped) == kept->0@ && frame_palette(kept, other)
            == frame_palette(kept, shaped),
        kept is None && shaped is Some ==> frame_palette(kept, shaped) == shaped->0@,
        kept is None && shaped is None ==> frame_palette(kept, shaped).len() == 0,
{
}

} // verus!
