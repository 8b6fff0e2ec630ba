//! The matrix-rain tab transition and the tab bar layout of a terminal window.

pub mod error_laws;
pub mod frame_laws;
pub mod glyph_laws;
pub mod glyphs;
pub mod hash;
pub mod hash_laws;
pub mod matrix_rain;
pub mod motion_laws;
pub mod nearest_laws;
pub mod painter_laws;
pub mod rain_frame;
pub mod rain_laws;
pub mod rain_painter;
pub mod ramp_laws;
pub mod rounding;
pub mod screen;
pub mod screen_laws;
pub mod single;
pub mod single_laws;
pub mod step_laws;
pub mod tab_bar;
pub mod term_window;
pub mod time_laws;
pub mod window_laws;
