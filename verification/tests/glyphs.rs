use termwindow_render::glyphs::{
    matrix_font, matrix_font_family, matrix_palette_text, matrix_text_style, shape_grapheme,
    shape_matrix_palette, shape_options, Direction, FontChoice, GlyphInfo,
};

fn glyph(id: usize, glyph_pos: u32, is_space: bool) -> GlyphInfo {
    GlyphInfo { id, glyph_pos, is_space }
}

#[test]
fn stream_is_set_in_the_matrix_font() {
    let style = matrix_text_style();
    assert_eq!(style.font.len(), 1);
    assert_eq!(style.font[0].family, "Matrix Code NFI");
    assert_eq!(style.foreground, None);
    assert_eq!(matrix_font_family(), "Matrix Code NFI");
}

#[test]
fn palette_text_is_letters_and_digits() {
    assert_eq!(
        matrix_palette_text(),
        "ABCDEFGHIJKLMNOPQRSTUVWXYZabcdefghijklmnopqrstuvwxyz0123456789"
    );
}

#[test]
fn missing_matrix_font_falls_back() {
    assert!(matches!(matrix_font::<u8, &str>(Ok(7)), FontChoice::Resolved(7)));
    assert!(matches!(matrix_font::<u8, &str>(Err("no font")), FontChoice::Default));
}

#[test]
fn grapheme_is_its_leading_glyph() {
    let infos = vec![glyph(1, 10, false), glyph(2, 11, false)];
    assert_eq!(shape_grapheme::<&str>(Ok(infos)), Some(glyph(1, 10, false)));
    assert_eq!(shape_grapheme::<&str>(Ok(Vec::new())), None);
    assert_eq!(shape_grapheme(Err("unshapable")), None);
}

#[test]
fn palette_drops_tofu_and_spaces() {
    let infos = vec![
        glyph(0, 5, false),
        glyph(1, 0, false),
        glyph(2, 6, true),
        glyph(3, 7, false),
        glyph(4, 0, true),
    ];
    assert_eq!(
        shape_matrix_palette::<&str>(Ok(infos)),
        Ok(vec![glyph(0, 5, false), glyph(3, 7, false)])
    );
    assert_eq!(shape_matrix_palette::<&str>(Err("no font")), Err("no font"));
}

#[test]
fn all_of_a_text_is_shaped_from_left_to_right() {
    let options = shape_options();
    assert!(options.filter_out_synthetic);
    assert_eq!(options.direction, Direction::LeftToRight);
    assert_eq!((options.range_start, options.range_end), (None, None));
    assert_eq!((options.presentation, options.presentation_width), (None, None));
}
