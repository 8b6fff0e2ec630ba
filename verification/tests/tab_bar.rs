use termwindow_render::single::Single;
use termwindow_render::tab_bar::{TabBarAction, TabBarEvent};
use termwindow_render::term_window::{
    Border, CellSize, Config, Dimensions, Padding, RenderMetrics, TabBarPosition, TermWindow,
    TerminalSize, UIItem, UIItemType,
};

fn single(x: f32) -> Single {
    Single::from_bits(x.to_bits())
}

fn float(x: Single) -> f32 {
    f32::from_bits(x.to_bits())
}

fn window(position: TabBarPosition, use_fancy_tab_bar: bool) -> TermWindow {
    TermWindow {
        config: Config {
            tab_bar_position: position,
            use_fancy_tab_bar,
            window_background_opacity: single(1.0),
            text_background_opacity: single(0.8),
            experimental_pixel_positioning: false,
        },
        show_tab_bar: true,
        dimensions: Dimensions { pixel_width: 1000, pixel_height: 600, dpi: 96 },
        render_metrics: RenderMetrics { cell_size: CellSize { width: 9, height: 18 } },
        os_border: Border { top: 3, left: 4, bottom: 5, right: 6 },
        padding: Padding { left: single(0.0), top: single(0.0) },
        terminal_size: TerminalSize { dpi: 96, pixel_width: 990 },
        has_window_background: false,
        configured_tab_bar_width: single(200.0),
        tab_bar_width_override: None,
        has_fancy_tab_bar: false,
        ui_items: Vec::new(),
        tab_switch_anim: None,
        matrix_rain_palette: None,
    }
}

fn host_item(id: usize) -> UIItem {
    UIItem { x: 0, y: 0, width: 1, height: 1, item_type: UIItemType::Host(id) }
}

#[test]
fn left_and_right_are_vertical() {
    assert!(window(TabBarPosition::Left, false).is_tab_bar_vertical());
    assert!(window(TabBarPosition::Right, false).is_tab_bar_vertical());
    assert!(!window(TabBarPosition::Top, false).is_tab_bar_vertical());
    assert!(!window(TabBarPosition::Bottom, false).is_tab_bar_vertical());
    assert_eq!(
        window(TabBarPosition::Right, false).resolved_tab_bar_position(),
        TabBarPosition::Right
    );
}

#[test]
fn vertical_bars_are_fancy() {
    assert!(window(TabBarPosition::Left, false).effective_use_fancy_tab_bar());
    assert!(window(TabBarPosition::Right, true).effective_use_fancy_tab_bar());
    assert!(window(TabBarPosition::Top, true).effective_use_fancy_tab_bar());
    assert!(!window(TabBarPosition::Top, false).effective_use_fancy_tab_bar());
    assert!(!window(TabBarPosition::Bottom, false).effective_use_fancy_tab_bar());
}

#[test]
fn fancy_height_is_of_the_title_font() {
    let title: Result<Single, &str> = Ok(single(17.3));
    let win = window(TabBarPosition::Top, true);
    assert_eq!(float(win.tab_bar_pixel_height(title).unwrap()), (17.3f32 * 1.75).ceil());
    assert_eq!(float(win.tab_bar_pixel_height(title).unwrap()), 31.0);
    let win = window(TabBarPosition::Left, false);
    assert_eq!(float(win.tab_bar_pixel_height(title).unwrap()), 31.0);
}

#[test]
fn error_of_the_title_font_is_handed_on() {
    for (position, fancy) in [(TabBarPosition::Top, true), (TabBarPosition::Right, false)] {
        let win = window(position, fancy);
        assert_eq!(win.tab_bar_pixel_height(Err("no such font")), Err("no such font"));
        assert_eq!(
            TermWindow::tab_bar_pixel_height_impl(&win.config, Err(7), &win.render_metrics),
            Err(7)
        );
    }
}

#[test]
fn classic_height_is_of_a_cell() {
    let win = window(TabBarPosition::Bottom, false);
    assert_eq!(float(win.tab_bar_pixel_height(Err("no such font")).unwrap()), 18.0);
    assert_eq!(float(win.tab_bar_pixel_height::<()>(Ok(single(40.0))).unwrap()), 18.0);
}

#[test]
fn width_is_measured_only_in_vertical_positions() {
    let win = window(TabBarPosition::Left, false);
    let context =
        TermWindow::tab_bar_width_context(&win.config, &win.render_metrics, &win.dimensions);
    let context = context.unwrap();
    assert_eq!(float(context.dpi), 96.0);
    assert_eq!(float(context.pixel_max), 1000.0);
    assert_eq!(float(context.pixel_cell), 9.0);
    let win = window(TabBarPosition::Top, true);
    assert_eq!(
        TermWindow::tab_bar_width_context(&win.config, &win.render_metrics, &win.dimensions),
        None
    );
}

#[test]
fn dragged_width_counts_while_vertical() {
    let mut win = window(TabBarPosition::Left, false);
    assert_eq!(float(win.tab_bar_pixel_width()), 200.0);
    win.tab_bar_width_override = Some(single(123.5));
    assert_eq!(float(win.tab_bar_pixel_width()), 123.5);
    win.config.tab_bar_position = TabBarPosition::Top;
    assert_eq!(float(win.tab_bar_pixel_width()), 0.0);
}

#[test]
fn fancy_bar_is_built_once() {
    let mut win = window(TabBarPosition::Top, true);
    assert_eq!(win.paint_tab_bar(TabBarEvent::Start), TabBarAction::BuildFancy);
    assert!(!win.has_fancy_tab_bar);
    assert_eq!(win.paint_tab_bar(TabBarEvent::FancyBuilt), TabBarAction::PaintFancy);
    let painted = TabBarEvent::FancyPainted(vec![host_item(1), host_item(2)]);
    assert_eq!(win.paint_tab_bar(painted), TabBarAction::Done);
    assert_eq!(win.ui_items, vec![host_item(1), host_item(2)]);
    assert_eq!(win.paint_tab_bar(TabBarEvent::Start), TabBarAction::PaintFancy);
}

#[test]
fn left_bar_has_its_handle_on_the_right() {
    let mut win = window(TabBarPosition::Left, false);
    win.ui_items.push(host_item(9));
    win.paint_tab_bar(TabBarEvent::FancyPainted(vec![host_item(1)]));
    assert_eq!(
        win.ui_items,
        vec![
            host_item(9),
            host_item(1),
            UIItem {
                x: 204,
                y: 3,
                width: 6,
                height: 592,
                item_type: UIItemType::TabBarSeparator,
            }
        ]
    );
}

#[test]
fn right_bar_has_its_handle_on_the_left() {
    let mut win = window(TabBarPosition::Right, false);
    win.paint_tab_bar(TabBarEvent::FancyPainted(Vec::new()));
    assert_eq!(win.ui_items.len(), 1);
    assert_eq!(win.ui_items[0].x, 1000 - 6 - 200 - 6);
    assert_eq!(win.ui_items[0].x + win.ui_items[0].width, 1000 - 6 - 200);
}

#[test]
fn handle_stays_in_a_tiny_window() {
    let mut win = window(TabBarPosition::Right, false);
    win.dimensions = Dimensions { pixel_width: 100, pixel_height: 4, dpi: 96 };
    win.paint_tab_bar(TabBarEvent::FancyPainted(Vec::new()));
    assert_eq!(win.ui_items[0].x, 0);
    assert_eq!(win.ui_items[0].height, 0);
}

#[test]
fn fractional_width_is_cut_off() {
    let mut win = window(TabBarPosition::Left, false);
    win.tab_bar_width_override = Some(single(100.75));
    win.paint_tab_bar(TabBarEvent::FancyPainted(Vec::new()));
    assert_eq!(win.ui_items[0].x, (4f32 + 100.75).max(0.) as usize);
    assert_eq!(win.ui_items[0].x, 104);
}

#[test]
fn handle_does_not_pass_the_edge_of_a_right_bar() {
    let mut win = window(TabBarPosition::Right, false);
    win.tab_bar_width_override = Some(single(100.75));
    win.paint_tab_bar(TabBarEvent::FancyPainted(Vec::new()));
    let edge = 1000f32 - 6.0 - 100.75;
    let end = (win.ui_items[0].x + win.ui_items[0].width) as f32;
    assert!(end <= edge && edge < end + 1.0);
}

#[test]
fn classic_bar_at_the_bottom() {
    let mut win = window(TabBarPosition::Bottom, false);
    assert_eq!(
        win.paint_tab_bar(TabBarEvent::Start),
        TabBarAction::ComputeItems { y: 600 - 18 - 5, cell_height: 18, cell_width: 9 }
    );
    let action = win.paint_tab_bar(TabBarEvent::ItemsComputed(vec![host_item(3)]));
    assert_eq!(win.ui_items, vec![host_item(3)]);
    let line = match action {
        TabBarAction::RenderLine(line) => line,
        other => panic!("{other:?}"),
    };
    assert_eq!(float(line.top_pixel_y), 577.0);
    assert_eq!(float(line.left_pixel_x), 0.0);
    assert_eq!(float(line.pixel_width), 1000.0);
    assert_eq!((line.selection_start, line.selection_end), (0, 0));
    assert_eq!((line.stable_line_idx, line.pane_id, line.cursor_column), (None, None, None));
    assert_eq!((line.cursor_border_color, line.cursor_fg, line.cursor_bg), (None, None, None));
    assert_eq!((line.selection_fg, line.selection_bg), (None, None));
    assert_eq!((line.style, line.font, line.shape_key), (None, None, None));
    assert_eq!(line.dims.cols, 111);
    assert_eq!(line.dims.viewport_rows, 1);
    assert_eq!(line.dims.scrollback_rows, 0);
    assert_eq!(line.dims.dpi, 96);
    assert_eq!(line.dims.pixel_width, 990);
    assert_eq!(line.dims.pixel_height, 18);
    assert!(!line.dims.reverse_video);
    assert!(line.is_active && line.cursor_is_default_color && !line.password_input);
    assert!(!line.window_is_transparent);
    assert_eq!(float(line.background_alpha), 0.8);
    assert_eq!(win.paint_tab_bar(TabBarEvent::LineRendered), TabBarAction::Done);
}

#[test]
fn classic_bar_at_the_top() {
    let mut win = window(TabBarPosition::Top, false);
    assert_eq!(
        win.paint_tab_bar(TabBarEvent::Start),
        TabBarAction::ComputeItems { y: 3, cell_height: 18, cell_width: 9 }
    );
}

#[test]
fn classic_bar_in_a_window_that_is_too_low() {
    let mut win = window(TabBarPosition::Bottom, false);
    win.dimensions.pixel_height = 10;
    assert_eq!(
        win.paint_tab_bar(TabBarEvent::Start),
        TabBarAction::ComputeItems { y: 0, cell_height: 18, cell_width: 9 }
    );
}

#[test]
fn background_shows_through_a_transparent_window() {
    for (background, opacity) in [(true, 1.0f32), (false, 0.5), (false, f32::NAN)] {
        let mut win = window(TabBarPosition::Top, false);
        win.has_window_background = background;
        win.config.window_background_opacity = single(opacity);
        match win.paint_tab_bar(TabBarEvent::ItemsComputed(Vec::new())) {
            TabBarAction::RenderLine(line) => {
                assert!(line.window_is_transparent);
                assert_eq!(float(line.background_alpha), 0.0);
            }
            other => panic!("{other:?}"),
        }
    }
}
