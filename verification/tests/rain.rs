use std::collections::HashMap;
use termwindow_render::glyphs::GlyphInfo;
use termwindow_render::hash::hash3;
use termwindow_render::matrix_rain::{PaneArea, RainFrame};
use termwindow_render::rain_frame::{
    describe_column, rain_progress, rain_quantum, rain_zoom, GlyphSource, RainStep, LAYER,
};
use termwindow_render::rain_painter::{
    emit_matrix_glyph, Face, GlyphQuad, RainAction, RainEvent, RainPainter, Texture,
};
use termwindow_render::screen::{Line, PaneDimensions, PaneSnapshot};
use termwindow_render::single::Single;
use termwindow_render::term_window::{
    Border, CellSize, Config, Dimensions, LinearRgba, Padding, RenderMetrics, Rect,
    TabBarPosition, TermWindow, TerminalSize, Timestamp,
};

fn single(x: f32) -> Single {
    Single::from_bits(x.to_bits())
}

fn float(x: Single) -> f32 {
    f32::from_bits(x.to_bits())
}

fn window() -> TermWindow {
    TermWindow {
        config: Config {
            tab_bar_position: TabBarPosition::Top,
            use_fancy_tab_bar: true,
            window_background_opacity: single(1.0),
            text_background_opacity: single(1.0),
            experimental_pixel_positioning: false,
        },
        show_tab_bar: true,
        dimensions: Dimensions { pixel_width: 1001, pixel_height: 601, dpi: 96 },
        render_metrics: RenderMetrics { cell_size: CellSize { width: 9, height: 19 } },
        os_border: Border { top: 1, left: 2, bottom: 3, right: 4 },
        padding: Padding { left: single(4.5), top: single(2.25) },
        terminal_size: TerminalSize { dpi: 96, pixel_width: 990 },
        has_window_background: false,
        configured_tab_bar_width: single(200.0),
        tab_bar_width_override: None,
        has_fancy_tab_bar: true,
        ui_items: Vec::new(),
        tab_switch_anim: None,
        matrix_rain_palette: None,
    }
}

fn title() -> Result<Single, ()> {
    Ok(single(16.0))
}

fn pane(pane_id: usize, rows: &[&str]) -> PaneSnapshot {
    let lines: Vec<Line> = rows
        .iter()
        .map(|row| Line { cells: row.chars().map(|c| Some(c.to_string())).collect() })
        .collect();
    PaneSnapshot {
        pane_id,
        dims: PaneDimensions {
            cols: rows.first().map_or(0, |row| row.len()),
            viewport_rows: rows.len(),
            physical_top: 0,
        },
        lines,
    }
}

fn tall(pane_id: usize, cols: usize, rows: usize, fill: char) -> PaneSnapshot {
    let row: String = std::iter::repeat(fill).take(cols).collect();
    let rows: Vec<&str> = (0..rows).map(|_| row.as_str()).collect();
    pane(pane_id, &rows)
}

fn glyph(id: usize) -> GlyphInfo {
    GlyphInfo { id, glyph_pos: 1 + id as u32, is_space: false }
}

const NOW: Timestamp = Timestamp { secs: 5, nanos: 7 };

const WHOLE: PaneArea = PaneArea { left: 0, top: 0, cols: 1000, rows: 1000 };

#[test]
fn transition_compares_the_screens() {
    let mut win = window();
    let old = pane(1, &["abc", "def", "ghi"]);
    let new = pane(2, &["abc", "dEf", "ghI"]);
    assert!(win.start_matrix_rain(Some(old), &new, NOW));
    assert_eq!(win.matrix_rain_pane_id(), Some(2));
    assert_eq!(win.matrix_rain_start(), Some(NOW));
    let anim = win.tab_switch_anim.as_ref().unwrap();
    assert_eq!((anim.cols, anim.rows), (3, 3));
    assert_eq!(anim.depth, vec![-1, 1, 2]);
    assert_eq!(anim.cells, vec!["a", "b", "c", "d", "E", "f", "g", "h", "I"]);
    assert_eq!(anim.old_cells, vec!["a", "b", "c", "d", "e", "f", "g", "h", "i"]);
    assert!(anim.glyphs.is_empty());
}

#[test]
fn identical_screens_are_not_animated() {
    let mut win = window();
    assert!(!win.start_matrix_rain(Some(pane(1, &["ab", "cd"])), &pane(2, &["ab", "cd"]), NOW));
    assert!(win.tab_switch_anim.is_none());
    assert_eq!(win.matrix_rain_pane_id(), None);
    // A transition that is under way goes on.
    assert!(win.start_matrix_rain(None, &pane(3, &["ab"]), NOW));
    assert!(!win.start_matrix_rain(Some(pane(1, &["ab"])), &pane(2, &["ab"]), NOW));
    assert_eq!(win.matrix_rain_pane_id(), Some(3));
}

#[test]
fn empty_screens_are_not_animated() {
    let mut win = window();
    assert!(!win.start_matrix_rain(None, &pane(2, &[]), NOW));
    assert!(!win.start_matrix_rain(Some(pane(1, &["a"])), &pane(2, &["", ""]), NOW));
    assert!(win.tab_switch_anim.is_none());
}

#[test]
fn incomparable_screen_is_rebuilt_fully() {
    for prev in [None, Some(pane(1, &["abcd", "efgh"])), Some(pane(1, &["abc"]))] {
        let mut win = window();
        assert!(win.start_matrix_rain(prev, &pane(2, &["abc", "def"]), NOW));
        let anim = win.tab_switch_anim.as_ref().unwrap();
        assert_eq!(anim.depth, vec![1, 1, 1]);
        assert!(anim.old_cells.is_empty());
    }
}

#[test]
fn frames_run_until_the_transition_is_over() {
    let mut win = window();
    assert_eq!(win.paint_matrix_rain(single(1.0)), RainFrame::Idle);
    win.start_matrix_rain(None, &pane(2, &["ab"]), NOW);
    assert_eq!(
        win.paint_matrix_rain(single(1.5)),
        RainFrame::Running {
            elapsed: single(1500.0),
            next_frame_millis: 16,
            palette_missing: true,
        }
    );
    win.matrix_rain_palette = Some(Vec::new());
    assert_eq!(
        win.paint_matrix_rain(single(4.1999)),
        RainFrame::Running {
            elapsed: single(4.1999f32 * 1000.0),
            next_frame_millis: 16,
            palette_missing: false,
        }
    );
    assert!(win.tab_switch_anim.is_some());
    assert_eq!(win.paint_matrix_rain(single(4.2)), RainFrame::Expired);
    assert!(win.tab_switch_anim.is_none());
    assert_eq!(win.paint_matrix_rain(single(4.3)), RainFrame::Idle);
}

#[test]
fn progress_zoom_and_quantum_follow_the_clock() {
    for i in 0..2000 {
        let elapsed = i as f32 * 2.3;
        let p = (elapsed / 4200.0).clamp(0.0, 1.0);
        assert_eq!(float(rain_progress(single(elapsed))), p);
        let t = (p / 0.35).clamp(0.0, 1.0);
        let t = t * t * (3.0 - 2.0 * t);
        let zoom = 1.21f32 + (1.0 - 1.21f32) * t;
        assert_eq!(float(rain_zoom(single(p))), zoom);
        assert_eq!(rain_quantum(single(elapsed)), (elapsed / 60.0) as u32);
    }
    assert_eq!(float(rain_zoom(single(0.0))), 1.21);
    for p in [0.35f32, 0.36, 0.5, 1.0] {
        assert_eq!(float(rain_zoom(single(p))), 1.0);
    }
}

struct Col {
    fall: f32,
    settle: f32,
    front_row: i32,
    gap: i32,
    matrix: i32,
    depth: i32,
}

fn float_column(c: usize, depth: i32, p: f32) -> Col {
    let matrix = 3 + (hash3(c as u32, 1, 0) % 10) as i32;
    let gap = 1 + (hash3(c as u32, 2, 0) % 2) as i32;
    let bridge = 1 + (hash3(c as u32, 5, 0) % 2) as i32;
    let phase = (hash3(c as u32, 3, 0) % 1000) as f32 / 1000.0 * 0.25;
    let fp = ((p - phase) / (1.0 - 0.25)).clamp(0.0, 1.0);
    let fp = fp * fp * (3.0 - 2.0 * fp);
    let total_lead = (gap + matrix + bridge + 2) as f32;
    let fall = fp * (depth as f32 + 1.0 + total_lead);
    let settle = fall - total_lead;
    Col { fall, settle, front_row: settle.floor() as i32, gap, matrix, depth }
}

#[test]
fn columns_move_as_the_formulas_say() {
    for c in 0..40usize {
        for depth in [-1i32, 0, 1, 7, 23, 60, 200] {
            for i in 0..=60 {
                let p = i as f32 / 60.0;
                let ours = describe_column(c, depth, single(p));
                let expected = float_column(c, depth, p);
                assert_eq!(float(ours.fall), expected.fall);
                assert_eq!(float(ours.settle), expected.settle);
                assert_eq!(ours.front_row, expected.front_row);
                assert_eq!((ours.gap, ours.matrix), (expected.gap, expected.matrix));
                assert_eq!(ours.depth, depth);
            }
        }
    }
}

fn color(red: f32, green: f32, blue: f32, alpha: f32) -> LinearRgba {
    LinearRgba {
        red: single(red),
        green: single(green),
        blue: single(blue),
        alpha: single(alpha),
    }
}

/// The steps of a frame, computed with floats.
fn float_frame(
    win_origin: (f32, f32),
    depth: &[i32],
    anim_cols: usize,
    has_old: bool,
    cols: usize,
    rows: usize,
    elapsed: f32,
    palette: usize,
) -> Vec<RainStep> {
    let (ox, oy) = win_origin;
    let (cell_w, cell_h) = (9f32, 19f32);
    let p = (elapsed / 4200.0).clamp(0.0, 1.0);
    let quantum = (elapsed / 60.0) as u32;
    let rows_i = rows as i32;
    let mut steps = Vec::new();
    for c in 0..cols {
        let cd = float_column(c, depth[c].min(rows_i - 1), p);
        if cd.depth < 0 {
            continue;
        }
        let mask_top = (cd.front_row + 1).max(0);
        if mask_top <= cd.depth {
            let y0 = oy + mask_top as f32 * cell_h;
            let y1 = oy + (cd.depth + 1) as f32 * cell_h;
            steps.push(RainStep::Mask(termwindow_render::term_window::Rect {
                x: single(ox + c as f32 * cell_w),
                y: single(y0),
                width: single(cell_w),
                height: single(y1 - y0),
            }));
        }
        if has_old {
            for r in 0..=cd.depth {
                let yrow = r as f32 + cd.fall;
                if yrow > cd.depth as f32 + 0.999 {
                    continue;
                }
                let g = 0.40 + 0.55 * (yrow / (cd.depth as f32 + 1.0)).clamp(0.0, 1.0);
                steps.push(RainStep::Glyph {
                    source: GlyphSource::Old(r as usize * anim_cols + c),
                    col: c,
                    row: single(yrow),
                    color: color(0.0, g, 0.12 * g, 1.0),
                });
            }
        }
        let r = cd.front_row + 1;
        if r >= 0 && r <= cd.depth && cd.settle >= 0.0 {
            steps.push(RainStep::Glyph {
                source: GlyphSource::New(r as usize * anim_cols + c),
                col: c,
                row: single(cd.settle),
                color: color(0.80, 1.0, 0.85, 1.0),
            });
        }
        if palette > 0 {
            for j in 0..cd.matrix {
                let row = r + cd.gap + 1 + j;
                if row < 0 || row > cd.depth || row >= rows_i {
                    continue;
                }
                let idx = hash3(c as u32, row as u32, quantum) as usize % palette;
                let b = (j + 1) as f32 / cd.matrix as f32;
                let color = if j == cd.matrix - 1 {
                    color(0.75, 1.0, 0.80, 1.0)
                } else {
                    let g = 0.25 + 0.75 * b;
                    color(0.0, g, 0.10 * g, 0.35 + 0.65 * b)
                };
                steps.push(RainStep::Glyph {
                    source: GlyphSource::Stream(idx),
                    col: c,
                    row: single(row as f32),
                    color,
                });
            }
        }
    }
    steps
}

#[test]
fn frame_consists_of_the_steps_of_its_columns() {
    let area = PaneArea { left: 3, top: 2, cols: 20, rows: 18 };
    for has_prev in [false, true] {
        for i in 0..=42 {
            let elapsed = i as f32 * 99.7;
            let mut win = window();
            let mut prev = tall(1, 24, 20, 'o');
            // One column that stays as it is, and one that changes half way down.
            for line in prev.lines.iter_mut() {
                line.cells[3] = Some("n".to_string());
            }
            for line in prev.lines.iter_mut().skip(9) {
                line.cells[5] = Some("n".to_string());
            }
            let prev = if has_prev { Some(prev) } else { None };
            assert!(win.start_matrix_rain(prev, &tall(2, 24, 20, 'n'), NOW));
            let depth = win.tab_switch_anim.as_ref().unwrap().depth.clone();
            if has_prev {
                assert_eq!((depth[3], depth[5], depth[6]), (-1, 8, 19));
            }
            let palette: Vec<GlyphInfo> = (0..7).map(glyph).collect();
            let painter =
                win.paint_matrix_rain_inner(Some(palette), single(elapsed), area, title()).unwrap();
            let bar = (16f32 * 1.75).ceil();
            let ox = 0f32 + 4.5 + 2.0 + 3.0 * 9.0;
            let oy = bar + 2.25 + 1.0 + 2.0 * 19.0;
            let want = float_frame((ox, oy), &depth, 24, has_prev, 20, 18, elapsed, 7);
            assert_eq!(painter.steps, want);
            assert_eq!(float(painter.geometry.ox), ox);
            assert_eq!(float(painter.geometry.oy), oy);
            assert_eq!(float(painter.geometry.left_off), 1001f32 / 2.0);
            assert_eq!(float(painter.geometry.top_off), 601f32 / 2.0);
        }
    }
}

#[test]
fn nothing_is_left_at_the_end() {
    let mut win = window();
    win.start_matrix_rain(Some(tall(1, 40, 50, 'o')), &tall(2, 40, 50, 'n'), NOW);
    let painter =
        win.paint_matrix_rain_inner(Some(vec![glyph(0)]), single(4200.0), WHOLE, title()).unwrap();
    assert!(painter.steps.is_empty());
}

#[test]
fn old_text_is_in_its_place_at_the_start() {
    let mut win = window();
    win.start_matrix_rain(Some(tall(1, 4, 6, 'o')), &tall(2, 4, 6, 'n'), NOW);
    let painter = win.paint_matrix_rain_inner(None, single(0.0), WHOLE, title()).unwrap();
    // A mask and six rows of old text in each of the four columns.
    assert_eq!(painter.steps.len(), 4 * 7);
    for (i, step) in painter.steps.iter().enumerate() {
        match step {
            RainStep::Mask(rect) => {
                assert_eq!(i % 7, 0);
                assert_eq!(float(rect.height), 6.0 * 19.0);
            }
            RainStep::Glyph { source, row, .. } => {
                let r = i % 7 - 1;
                assert_eq!(*source, GlyphSource::Old(r * 4 + i / 7));
                assert_eq!(float(*row), r as f32);
            }
        }
    }
}

#[test]
fn fronts_descend_with_time() {
    for c in 0..20usize {
        let mut last = i32::MIN;
        for i in 0..=300 {
            let front = describe_column(c, 40, single(i as f32 / 300.0)).front_row;
            assert!(front >= last);
            last = front;
        }
        assert_eq!(last, 41);
    }
}

#[test]
fn old_text_rides_right_below_the_stream() {
    for c in 0..20usize {
        let bridge = termwindow_render::hash::bridge_for(c);
        for i in 0..=300 {
            let cd = describe_column(c, 40, single(i as f32 / 300.0));
            if float(cd.settle) >= 0.0 {
                let last = cd.front_row + 1 + cd.gap + cd.matrix;
                // The blank cells between the bottom of the stream and the old text.
                let blank = float(cd.fall) - (last + 1) as f32;
                assert!(bridge as f32 <= blank && blank < (bridge + 1) as f32);
            }
        }
    }
}

#[test]
fn stream_is_off_the_screen_at_the_start() {
    let mut win = window();
    assert!(win.start_matrix_rain(Some(pane(1, &["a"])), &pane(2, &["b"]), NOW));
    let painter =
        win.paint_matrix_rain_inner(Some(vec![glyph(0)]), single(0.0), WHOLE, title()).unwrap();
    // The mask, and the old text in its place.
    assert_eq!(painter.steps.len(), 2);
    assert!(matches!(painter.steps[0], RainStep::Mask(_)));
    assert!(matches!(
        painter.steps[1],
        RainStep::Glyph { source: GlyphSource::Old(0), col: 0, row, .. } if float(row) == 0.0
    ));
}

#[test]
fn stream_keeps_its_distance_before_the_first_row_is_built() {
    for c in 0..20usize {
        let bridge = termwindow_render::hash::bridge_for(c);
        for i in 0..=300 {
            let cd = describe_column(c, 40, single(i as f32 / 300.0));
            let lead = (cd.gap + cd.matrix + bridge + 2) as f32;
            let first = (cd.front_row + 2 + cd.gap) as f32;
            let last = first + (cd.matrix - 1) as f32;
            let settle = float(cd.settle);
            assert!(settle + 1.0 + (cd.gap as f32) < first);
            assert!(first <= settle + 2.0 + cd.gap as f32);
            assert!(last + 1.0 + bridge as f32 <= settle + lead);
            assert!(settle + lead < last + 2.0 + bridge as f32);
        }
    }
}

#[test]
fn placed_rows_stay() {
    for c in 0..10usize {
        for i in 0..4200 {
            let at = |ms: f32| describe_column(c, 60, rain_progress(single(ms)));
            let (now, later) = (at(i as f32), at(i as f32 + 4.0));
            assert!(float(now.fall) <= float(later.fall));
            assert!(now.front_row <= later.front_row);
            assert!(
                float(rain_zoom(rain_progress(single(i as f32 + 4.0))))
                    <= float(rain_zoom(rain_progress(single(i as f32))))
            );
        }
    }
}

#[test]
fn columns_fall_back_by_rounding_only() {
    // From one number to the next, close to the end.
    let mut fell_back = false;
    for c in 0..10usize {
        let way = float(describe_column(c, 60, single(1.0)).fall);
        let mut last = f32::MIN;
        let mut last_zoom = f32::MAX;
        for i in (0..40000u32).rev() {
            let p = single(f32::from_bits(0.93f32.to_bits() - i));
            let settle = float(describe_column(c, 60, p).settle);
            assert!((last - settle) * 524288.0 <= way);
            fell_back |= settle < last;
            last = settle;
            let p = single(f32::from_bits(0.35f32.to_bits() - i));
            let zoom = float(rain_zoom(p));
            assert!((zoom - last_zoom) * 524288.0 <= 1.0);
            last_zoom = zoom;
        }
    }
    assert!(fell_back);
}

#[test]
fn exchanged_screens_have_the_same_depths() {
    let p = pane(1, &["abc", "def", "ghi"]);
    let q = pane(2, &["abx", "dyf", "ghi"]);
    let (mut there, mut back) = (window(), window());
    assert!(there.start_matrix_rain(Some(p.clone()), &q, NOW));
    assert!(back.start_matrix_rain(Some(q), &p, NOW));
    let (there, back) = (there.tab_switch_anim.unwrap(), back.tab_switch_anim.unwrap());
    assert_eq!(there.depth, vec![-1, 1, 0]);
    assert_eq!(there.depth, back.depth);
    assert_eq!(there.cells, back.old_cells);
    assert_eq!(there.old_cells, back.cells);
}

#[test]
fn well_formed_transitions_are_told() {
    let mut win = window();
    assert!(win.is_wf());
    win.start_matrix_rain(Some(tall(1, 4, 6, 'o')), &tall(2, 4, 6, 'n'), NOW);
    assert!(win.is_wf());
    win.tab_switch_anim.as_mut().unwrap().depth[2] = 6;
    assert!(!win.is_wf());
    win.tab_switch_anim.as_mut().unwrap().depth[2] = -2;
    assert!(!win.is_wf());
    win.tab_switch_anim.as_mut().unwrap().depth[2] = -1;
    assert!(win.is_wf());
    win.tab_switch_anim.as_mut().unwrap().old_cells.pop();
    assert!(!win.is_wf());
    win.tab_switch_anim.as_mut().unwrap().old_cells.clear();
    assert!(win.is_wf());
    win.tab_switch_anim.as_mut().unwrap().rows = usize::MAX;
    assert!(!win.is_wf());
}

#[test]
fn zoom_scales_about_the_centre_of_the_cell() {
    let mut win = window();
    win.start_matrix_rain(None, &tall(2, 6, 30, 'n'), NOW);
    let painter = win.paint_matrix_rain_inner(None, single(900.0), WHOLE, title()).unwrap();
    let texture = Texture { width: 7, height: 15, scale: single(1.1), has_color: true };
    let tint = color(0.1, 0.2, 0.3, 0.4);
    let (ox, oy) = (float(painter.geometry.ox), float(painter.geometry.oy));
    for zoom in [1.0f32, 1.05, 1.21, 2.0] {
        let mut geometry = painter.geometry;
        geometry.zoom = single(zoom);
        let quad = emit_matrix_glyph(Some(texture), &geometry, 4, single(7.25), tint).unwrap();
        let centre = |near: Single, far: Single| (float(near) + float(far)) / 2.0;
        let x = ox + 4.5 * 9.0 - 1001.0 / 2.0;
        let y = oy + 7.75 * 19.0 - 601.0 / 2.0;
        assert!((centre(quad.left, quad.right) - x).abs() < 0.001);
        assert!((centre(quad.top, quad.bottom) - y).abs() < 0.001);
        assert!((float(quad.right) - float(quad.left) - 7.7 * zoom).abs() < 0.001);
        assert!((float(quad.bottom) - float(quad.top) - 16.5 * zoom).abs() < 0.001);
        assert_eq!(quad.color, tint);
    }
    assert!(emit_matrix_glyph(None, &painter.geometry, 4, single(7.25), tint).is_none());
}

#[test]
fn pane_without_cells_needs_no_fonts() {
    for (cols, rows) in [(0usize, 5usize), (5, 0)] {
        let mut win = window();
        win.start_matrix_rain(None, &tall(2, 4, 6, 'n'), NOW);
        let area = PaneArea { left: 0, top: 0, cols, rows };
        let mut painter = win.paint_matrix_rain_inner(None, single(100.0), area, title()).unwrap();
        assert!(matches!(painter.advance(RainEvent::Ready), RainAction::Done));
        win.finish_matrix_rain(painter);
        assert_eq!(win.matrix_rain_pane_id(), Some(2));
        assert_eq!(win.matrix_rain_palette, Some(Vec::new()));
    }
}

#[test]
fn no_painter_without_a_transition() {
    assert!(window().paint_matrix_rain_inner(None, single(1.0), WHOLE, title()).is_none());
}

#[test]
fn palette_is_kept() {
    let mut win = window();
    win.start_matrix_rain(None, &tall(2, 4, 6, 'n'), NOW);
    win.matrix_rain_palette = Some(vec![glyph(5)]);
    let shaped = Some(vec![glyph(1), glyph(2)]);
    let painter = win.paint_matrix_rain_inner(shaped, single(1.0), WHOLE, title()).unwrap();
    assert_eq!(painter.palette, vec![glyph(5)]);
    assert!(win.tab_switch_anim.is_none() && win.matrix_rain_palette.is_none());
    win.finish_matrix_rain(painter);
    assert_eq!(win.matrix_rain_palette, Some(vec![glyph(5)]));
    assert_eq!(win.matrix_rain_start(), Some(NOW));
}

fn is_fonts(action: &RainAction) -> bool {
    matches!(action, RainAction::LoadFonts)
}

/// Paints a frame to its end. Returns the graphemes that were shaped, and how often
/// there was something to fill and to draw.
fn paint(painter: &mut RainPainter, drawable: bool) -> (Vec<String>, usize, usize) {
    let (mut shaped, mut fills, mut quads) = (Vec::new(), 0, 0);
    let mut action = painter.advance(RainEvent::Ready);
    assert!(is_fonts(&action));
    action = painter.advance(RainEvent::Ready);
    let texture = Texture { width: 7, height: 14, scale: single(1.0), has_color: false };
    loop {
        let event = match action {
            RainAction::LoadFonts => panic!("fonts are loaded once"),
            RainAction::Fill { layer, color: black, .. } => {
                assert_eq!(layer, LAYER);
                assert_eq!(black, color(0.0, 0.0, 0.0, 1.0));
                fills += 1;
                RainEvent::Ready
            }
            RainAction::Shape(text) => {
                let id = shaped.len();
                shaped.push(text);
                RainEvent::Shaped(if drawable { Some(glyph(id)) } else { None })
            }
            RainAction::Rasterize { followed_by_space, num_cells, .. } => {
                assert_eq!((followed_by_space, num_cells), (false, 1));
                RainEvent::Rasterized(Some(texture))
            }
            RainAction::Quad(quad) => {
                assert_eq!((quad.layer, quad.has_color, quad.hsv), (LAYER, false, None));
                quads += 1;
                RainEvent::Ready
            }
            RainAction::Done => return (shaped, fills, quads),
        };
        action = painter.advance(event);
    }
}

#[test]
fn graphemes_are_shaped_once() {
    let mut win = window();
    win.start_matrix_rain(Some(tall(1, 5, 8, 'o')), &tall(2, 5, 8, 'n'), NOW);
    let mut painter = win.paint_matrix_rain_inner(None, single(100.0), WHOLE, title()).unwrap();
    let (shaped, fills, quads) = paint(&mut painter, true);
    assert_eq!(shaped, vec!["o"]);
    assert_eq!(fills, 5);
    assert!(quads > 5);
    win.finish_matrix_rain(painter);
    let mut painter = win.paint_matrix_rain_inner(None, single(100.0), WHOLE, title()).unwrap();
    let (shaped, _, again) = paint(&mut painter, true);
    assert!(shaped.is_empty());
    assert_eq!(again, quads);
}

#[test]
fn undrawable_graphemes_are_remembered_too() {
    let mut win = window();
    win.start_matrix_rain(Some(tall(1, 5, 8, 'o')), &tall(2, 5, 8, 'n'), NOW);
    let mut painter = win.paint_matrix_rain_inner(None, single(100.0), WHOLE, title()).unwrap();
    let (shaped, fills, quads) = paint(&mut painter, false);
    assert_eq!((shaped.len(), fills, quads), (1, 5, 0));
}

#[test]
fn blanks_are_not_shaped() {
    let mut win = window();
    let mut old = tall(1, 5, 8, ' ');
    old.lines[3].cells[2] = None;
    win.start_matrix_rain(Some(old), &tall(2, 5, 8, 'n'), NOW);
    let mut painter = win.paint_matrix_rain_inner(None, single(0.0), WHOLE, title()).unwrap();
    let (shaped, fills, quads) = paint(&mut painter, true);
    assert_eq!((shaped.len(), fills, quads), (0, 5, 0));
}

#[test]
fn shaping_is_capped_per_frame() {
    let mut win = window();
    let mut old = tall(1, 20, 20, 'o');
    for (r, line) in old.lines.iter_mut().enumerate() {
        for (c, cell) in line.cells.iter_mut().enumerate() {
            *cell = char::from_u32(0x4e00 + (r * 20 + c) as u32).map(|ch| ch.to_string());
        }
    }
    win.start_matrix_rain(Some(old), &tall(2, 20, 20, 'n'), NOW);
    let mut total = 0;
    for frame in 0..5 {
        let mut painter = win.paint_matrix_rain_inner(None, single(0.0), WHOLE, title()).unwrap();
        let (shaped, _, quads) = paint(&mut painter, true);
        total += shaped.len();
        assert_eq!(shaped.len(), if frame < 4 { 96 } else { 400 - 4 * 96 });
        assert_eq!(quads, total);
        win.finish_matrix_rain(painter);
    }
    assert_eq!(total, 400);
}

#[test]
fn glyphs_without_a_picture_are_passed_over() {
    let mut win = window();
    win.start_matrix_rain(Some(tall(1, 1, 2, 'o')), &tall(2, 1, 2, 'n'), NOW);
    let mut painter = win.paint_matrix_rain_inner(None, single(0.0), WHOLE, title()).unwrap();
    assert!(is_fonts(&painter.advance(RainEvent::Ready)));
    assert!(matches!(painter.advance(RainEvent::Ready), RainAction::Fill { .. }));
    assert!(matches!(painter.advance(RainEvent::Ready), RainAction::Shape(s) if s == "o"));
    // An outcome that was not asked for changes nothing.
    assert!(matches!(
        painter.advance(RainEvent::Rasterized(None)),
        RainAction::Shape(s) if s == "o"
    ));
    for _ in 0..2 {
        let action = painter.advance(RainEvent::Shaped(Some(glyph(4))));
        assert!(matches!(
            action,
            RainAction::Rasterize { glyph: g, face: Face::Text, .. } if g == glyph(4)
        ));
    }
    assert_eq!(painter.budget, 95);
    assert!(matches!(
        painter.advance(RainEvent::Rasterized(None)),
        RainAction::Rasterize { glyph: g, face: Face::Text, .. } if g == glyph(4)
    ));
    assert!(matches!(painter.advance(RainEvent::Rasterized(None)), RainAction::Done));
}

#[test]
fn quads_are_centred_in_their_cells() {
    let mut win = window();
    win.start_matrix_rain(None, &tall(2, 6, 30, 'n'), NOW);
    let elapsed = 900.0f32;
    let palette = Some(vec![glyph(0)]);
    let mut painter = win.paint_matrix_rain_inner(palette, single(elapsed), WHOLE, title()).unwrap();
    let zoom = float(rain_zoom(single(elapsed / 4200.0)));
    let (ox, oy) = (float(painter.geometry.ox), float(painter.geometry.oy));
    let (cell_w, cell_h) = (9f32, 19f32);
    let (left_off, top_off) = (1001f32 / 2.0, 601f32 / 2.0);
    let texture = Texture { width: 7, height: 15, scale: single(1.1), has_color: true };
    assert!(is_fonts(&painter.advance(RainEvent::Ready)));
    let mut action = painter.advance(RainEvent::Ready);
    let mut seen = 0;
    loop {
        let next = painter.next;
        let event = match action {
            RainAction::Rasterize { glyph: g, face, .. } => {
                assert_eq!((g, face), (glyph(0), Face::Stream));
                let step = painter.steps[next];
                action = painter.advance(RainEvent::Rasterized(Some(texture)));
                let (col, row, tint) = match step {
                    RainStep::Glyph { col, row, color, .. } => (col, float(row), color),
                    other => panic!("{other:?}"),
                };
                let gw = 7 as f32 * 1.1f32 * zoom;
                let gh = 15 as f32 * 1.1f32 * zoom;
                let gx = ox + col as f32 * cell_w + (cell_w - gw) / 2.0;
                let gy = oy + row * cell_h + (cell_h - gh) / 2.0;
                match action {
                    RainAction::Quad(quad) => {
                        assert_eq!(float(quad.left), gx - left_off);
                        assert_eq!(float(quad.top), gy - top_off);
                        assert_eq!(float(quad.right), gx + gw - left_off);
                        assert_eq!(float(quad.bottom), gy + gh - top_off);
                        assert_eq!(quad.color, tint);
                        assert_eq!((quad.layer, quad.has_color), (LAYER, true));
                    }
                    other => panic!("{other:?}"),
                }
                seen += 1;
                RainEvent::Ready
            }
            RainAction::Shape(_) => RainEvent::Shaped(None),
            RainAction::Done => break,
            _ => RainEvent::Ready,
        };
        action = painter.advance(event);
    }
    assert!(seen > 10);
}

#[test]
fn rain_is_on_the_top_layer() {
    assert_eq!(LAYER, 2);
    let mut win = window();
    win.start_matrix_rain(Some(tall(1, 3, 9, 'o')), &tall(2, 3, 9, 'n'), NOW);
    let palette = Some(vec![glyph(0)]);
    let mut painter =
        win.paint_matrix_rain_inner(palette, single(1800.0), WHOLE, title()).unwrap();
    // Each fill and each quad is looked at as it comes.
    let (_, fills, quads) = paint(&mut painter, true);
    assert!(fills > 0 && quads > 0);
}

#[test]
fn origin_lines_up_with_the_cells() {
    let mut win = window();
    let origin = |win: &TermWindow| {
        let (x, y) = win.matrix_pane_origin(3, 2, title());
        (float(x), float(y))
    };
    let bar = (16f32 * 1.75).ceil();
    assert_eq!(origin(&win), (4.5 + 2.0 + 27.0, bar + 2.25 + 1.0 + 38.0));
    let (x, y) = win.matrix_pane_origin(3, 2, Err("no font"));
    assert_eq!((float(x), float(y)), (4.5 + 2.0 + 27.0, 2.25 + 1.0 + 38.0));
    win.show_tab_bar = false;
    assert_eq!(origin(&win), (4.5 + 2.0 + 27.0, 2.25 + 1.0 + 38.0));
    win.show_tab_bar = true;
    win.config.tab_bar_position = TabBarPosition::Left;
    assert_eq!(origin(&win), (200.0 + 4.5 + 2.0 + 27.0, 2.25 + 1.0 + 38.0));
    win.config.tab_bar_position = TabBarPosition::Right;
    assert_eq!(origin(&win), (4.5 + 2.0 + 27.0, 2.25 + 1.0 + 38.0));
    win.config.tab_bar_position = TabBarPosition::Bottom;
    assert_eq!(origin(&win), (4.5 + 2.0 + 27.0, 2.25 + 1.0 + 38.0));
}

#[test]
fn progress_goes_from_none_to_all() {
    let mut last = 0.0;
    for i in 0..5000 {
        let p = float(rain_progress(single(i as f32 * 0.9)));
        assert!(last <= p && p <= 1.0);
        last = p;
    }
    assert_eq!(last, 1.0);
    assert_eq!(float(rain_progress(single(0.0))), 0.0);
    assert_eq!(float(rain_progress(single(2100.0))), 0.5);
}

#[test]
fn zoom_is_between_its_start_and_one() {
    for i in 0..=3000 {
        let zoom = float(rain_zoom(single(i as f32 / 3000.0)));
        assert!((1.0..=1.21).contains(&zoom));
    }
}

#[test]
fn columns_stay_on_their_way() {
    for c in 0..10usize {
        let lead = describe_column(c, 0, single(1.0)).fall;
        let lead = float(lead) - 1.0;
        for i in 0..2000u32 {
            // Also close to the end, where rounding could carry the ramp past one.
            for p in [i as f32 / 2000.0, f32::from_bits(1f32.to_bits() - i)] {
                let fall = float(describe_column(c, 40, single(p)).fall);
                assert!((0.0..=41.0 + lead).contains(&fall));
            }
        }
    }
}

/// What a frame shows.
#[derive(Debug, PartialEq)]
enum Drawn {
    Fill(Rect),
    Quad(GlyphQuad),
}

fn shape(text: &str) -> Option<GlyphInfo> {
    // Vowels have no glyph.
    let ch = text.chars().next()?;
    if "aeiou".contains(ch) {
        None
    } else {
        Some(glyph(ch as usize))
    }
}

fn picture(glyph: GlyphInfo, face: Face) -> Option<Texture> {
    // Some glyphs have no picture.
    if glyph.id % 5 == 0 {
        None
    } else {
        let width = 5 + (glyph.id % 7) as isize;
        let height = if face == Face::Text { 14 } else { 17 };
        Some(Texture { width, height, scale: single(0.75), has_color: glyph.id % 3 == 0 })
    }
}

/// What the steps of a frame come to, one after the other.
fn drawn_by_steps(painter: &RainPainter) -> Vec<Drawn> {
    let mut memo: HashMap<String, Option<GlyphInfo>> = HashMap::new();
    let mut budget = 96;
    let mut drawn = Vec::new();
    for step in &painter.steps {
        let (source, col, row, tint) = match *step {
            RainStep::Mask(rect) => {
                drawn.push(Drawn::Fill(rect));
                continue;
            }
            RainStep::Glyph { source, col, row, color } => (source, col, row, color),
        };
        let (info, face) = match source {
            GlyphSource::Stream(k) => (Some(painter.palette[k]), Face::Stream),
            GlyphSource::Old(k) | GlyphSource::New(k) => {
                let text = if source == GlyphSource::Old(k) {
                    &painter.anim.old_cells[k]
                } else {
                    &painter.anim.cells[k]
                };
                if text.is_empty() || text == " " {
                    continue;
                }
                if !memo.contains_key(text) {
                    if budget <= 0 {
                        continue;
                    }
                    memo.insert(text.clone(), shape(text));
                    budget -= 1;
                }
                (memo[text], Face::Text)
            }
        };
        if let Some(info) = info {
            let quad = emit_matrix_glyph(picture(info, face), &painter.geometry, col, row, tint);
            drawn.extend(quad.map(Drawn::Quad));
        }
    }
    drawn
}

#[test]
fn painter_follows_the_steps_of_its_frame() {
    let mut old = tall(1, 12, 20, 'o');
    let mut new = tall(2, 12, 20, 'n');
    for r in 0..20usize {
        for c in 0..12usize {
            let i = (r * 12 + c) as u32;
            old.lines[r].cells[c] = char::from_u32(0x41 + i % 180).map(|ch| ch.to_string());
            new.lines[r].cells[c] = char::from_u32(0x20 + i % 90).map(|ch| ch.to_string());
        }
    }
    for elapsed in [0.0f32, 700.0, 1500.0, 2600.0, 3200.0] {
        let mut win = window();
        win.start_matrix_rain(Some(old.clone()), &new, NOW);
        let palette = Some((0..11).map(glyph).collect());
        let mut painter = win.paint_matrix_rain_inner(palette, single(elapsed), WHOLE, title()).unwrap();
        let expected = drawn_by_steps(&painter);
        let mut drawn = Vec::new();
        let mut event = RainEvent::Ready;
        let mut moves = 0;
        loop {
            moves += 1;
            event = match painter.advance(event) {
                RainAction::LoadFonts => {
                    assert_eq!(moves, 1);
                    RainEvent::Ready
                }
                RainAction::Fill { rect, .. } => {
                    drawn.push(Drawn::Fill(rect));
                    RainEvent::Ready
                }
                RainAction::Shape(text) => RainEvent::Shaped(shape(&text)),
                RainAction::Rasterize { glyph, face, .. } => {
                    RainEvent::Rasterized(picture(glyph, face))
                }
                RainAction::Quad(quad) => {
                    drawn.push(Drawn::Quad(quad));
                    RainEvent::Ready
                }
                RainAction::Done => break,
            };
        }
        assert!(moves <= 3 * painter.steps.len() + 2);
        assert!(!drawn.is_empty());
        assert_eq!(drawn, expected);
    }
}
