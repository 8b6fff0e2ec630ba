use termwindow_render::screen::{
    capture_screen, changed_depths, Line, PaneDimensions, PaneSnapshot,
};

fn line(text: &str) -> Line {
    Line { cells: text.chars().map(|c| Some(c.to_string())).collect() }
}

fn pane(cols: usize, rows: usize, lines: Vec<Line>) -> PaneSnapshot {
    PaneSnapshot {
        pane_id: 1,
        dims: PaneDimensions { cols, viewport_rows: rows, physical_top: 0 },
        lines,
    }
}

fn strings(texts: &[&str]) -> Vec<String> {
    texts.iter().map(|t| t.to_string()).collect()
}

#[test]
fn screen_is_captured_row_by_row() {
    let (cols, rows, cells) = capture_screen(&pane(3, 2, vec![line("abc"), line("def")]));
    assert_eq!((cols, rows), (3, 2));
    assert_eq!(cells, strings(&["a", "b", "c", "d", "e", "f"]));
}

#[test]
fn missing_cells_and_lines_are_blank() {
    let wide = Line { cells: vec![Some("全".to_string()), None, Some("x".to_string())] };
    let (_, _, cells) = capture_screen(&pane(3, 3, vec![wide, line("d")]));
    assert_eq!(cells, strings(&["全", "", "x", "d", "", "", "", "", ""]));
}

#[test]
fn cells_and_lines_outside_the_viewport_are_left_out() {
    let (_, _, cells) = capture_screen(&pane(2, 1, vec![line("abc"), line("def")]));
    assert_eq!(cells, strings(&["a", "b"]));
}

#[test]
fn empty_screen_has_no_cells() {
    assert_eq!(capture_screen(&pane(0, 4, vec![line("a")])), (0, 4, Vec::new()));
    assert_eq!(capture_screen(&pane(4, 0, vec![line("a")])), (4, 0, Vec::new()));
}

#[test]
fn visible_rows_start_at_the_physical_top() {
    let dims = PaneDimensions { cols: 80, viewport_rows: 24, physical_top: 100 };
    assert_eq!(dims.visible_rows(), (100, 124));
    let dims = PaneDimensions { cols: 80, viewport_rows: 24, physical_top: -5 };
    assert_eq!(dims.visible_rows(), (-5, 19));
}

#[test]
fn depth_is_the_deepest_changed_row() {
    let before = strings(&["a", "b", "c", "d", "e", "f", "g", "h", "i"]);
    let after = strings(&["a", "B", "c", "d", "E", "f", "g", "h", "I"]);
    assert_eq!(changed_depths(&before, &after, 3, 3), vec![-1, 1, 2]);
    assert_eq!(changed_depths(&before, &before, 3, 3), vec![-1, -1, -1]);
}
