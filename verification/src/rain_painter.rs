//! Carries out the steps of a frame of the rain.
//!
//! The painter decides, the host draws: each call takes what has come of the last
//! action and tells the next one.

use crate::glyphs::lookup;
use crate::glyphs::memo_glyph;
use crate::glyphs::GlyphInfo;
use crate::glyphs::GlyphLookup;
use crate::rain_frame::steps_in_range;
use crate::rain_frame::GlyphSource;
use crate::rain_frame::RainGeometry;
use crate::rain_frame::RainStep;
use crate::rain_frame::LAYER;
use crate::screen::texts;
use crate::single::Single;
use crate::term_window::LinearRgba;
use crate::term_window::Rect;
use crate::term_window::TabSwitchAnim;
use vstd::prelude::*;

verus! {

/// Cap on new shaping per frame, so a dense screen can never stall a frame.
pub const SHAPE_BUDGET: i32 = 96;

/// Which font a glyph is of.
#[derive(Clone, Copy, PartialEq, Eq, Structural, Debug)]
pub enum Face {
    /// The user's font: real characters.
    Text,
    /// The matrix font: the falling stream.
    Stream,
}

/// The picture of a glyph.
#[derive(Clone, Copy, PartialEq, Eq, Structural, Debug)]
pub struct Texture {
    pub width: isize,
    pub height: isize,
    /// What the picture is scaled by to match its font's size.
    pub scale: Single,
    /// The picture has colours of its own.
    pub has_color: bool,
}

/// A change of colours: a turn of the hue, and factors of the other two.
#[derive(Clone, Copy, PartialEq, Eq, Structural, Debug)]
pub struct HsbTransform {
    pub hue: Single,
    pub saturation: Single,
    pub brightness: Single,
}

/// Where a glyph goes, in pixels from the centre of the window, and how it is drawn.
#[derive(Clone, Copy, PartialEq, Eq, Structural, Debug)]
pub struct GlyphQuad {
    /// The quad layer that it is drawn on.
    pub layer: usize,
    pub left: Single,
    pub top: Single,
    pub right: Single,
    pub bottom: Single,
    pub color: LinearRgba,
    /// The picture's own colours count, in place of `color`.
    pub has_color: bool,
    /// The change of colours, if there is one.
    pub hsv: Option<HsbTransform>,
}

/// What the host has to do next.
#[derive(Debug)]
pub enum RainAction {
    /// Load the fonts of both faces.
    LoadFonts,
    /// Fill this area of this quad layer with this colour.
    Fill { layer: usize, rect: Rect, color: LinearRgba },
    /// Shape this grapheme in the user's font.
    Shape(String),
    /// Fetch the picture of this glyph, as it is that many cells wide and with or
    /// without a space behind it.
    Rasterize { glyph: GlyphInfo, face: Face, followed_by_space: bool, num_cells: u8 },
    /// Draw the picture that was just fetched.
    Quad(GlyphQuad),
    /// The frame is painted.
    Done,
}

/// What has come of the last action.
#[derive(Clone, Copy, PartialEq, Eq, Structural, Debug)]
pub enum RainEvent {
    /// It is done, or there was none yet.
    Ready,
    /// The grapheme was shaped to this glyph, if it has a drawable one.
    Shaped(Option<GlyphInfo>),
    /// The glyph has this picture, if it has one.
    Rasterized(Option<Texture>),
}

/// An action, with its text as characters.
pub enum ActionView {
    LoadFonts,
    Fill { layer: usize, rect: Rect, color: LinearRgba },
    Shape(Seq<char>),
    Rasterize { glyph: GlyphInfo, face: Face, followed_by_space: bool, num_cells: u8 },
    Quad(GlyphQuad),
    Done,
}

impl View for RainAction {
    type V = ActionView;

    open spec fn view(&self) -> ActionView {
        match self {
            RainAction::LoadFonts => ActionView::LoadFonts,
            RainAction::Fill { layer, rect, color } => ActionView::Fill {
                layer: *layer,
                rect: *rect,
                color: *color,
            },
            RainAction::Shape(text) => ActionView::Shape(text@),
            RainAction::Rasterize { glyph, face, followed_by_space, num_cells } => {
                ActionView::Rasterize {
                    glyph: *glyph,
                    face: *face,
                    followed_by_space: *followed_by_space,
                    num_cells: *num_cells,
                }
            },
            RainAction::Quad(quad) => ActionView::Quad(*quad),
            RainAction::Done => ActionView::Done,
        }
    }
}

/// What a frame is painted from.
pub struct Scene {
    pub steps: Seq<RainStep>,
    pub old_texts: Seq<Seq<char>>,
    pub new_texts: Seq<Seq<char>>,
    pub palette: Seq<GlyphInfo>,
    pub geometry: RainGeometry,
}

/// How far the painting of a frame is.
pub struct PainterState {
    /// The fonts have not been asked for yet.
    pub fonts_due: bool,
    /// The step to paint next has been asked about.
    pub waiting: bool,
    /// The step to paint next.
    pub next: nat,
    /// How many graphemes may still be shaped.
    pub budget: int,
    /// What graphemes were shaped to.
    pub memo: Map<Seq<char>, Option<GlyphInfo>>,
}

/// The colour of a mask: black.
pub open spec fn hide_color() -> LinearRgba {
    LinearRgba {
        red: Single { bits: 0 },
        green: Single { bits: 0 },
        blue: Single { bits: 0 },
        alpha: Single::integer(1),
    }
}

/// Where a glyph goes: `zoom` scales it about its cell centre, so the effect can
/// start a little larger and settle to the normal cell size.
pub open spec fn glyph_quad(
    texture: Texture,
    g: RainGeometry,
    col: usize,
    row: Single,
    color: LinearRgba,
) -> GlyphQuad {
    let gw = Single::integer(texture.width as int).times(texture.scale).times(g.zoom);
    let gh = Single::integer(texture.height as int).times(texture.scale).times(g.zoom);
    let gx = g.ox.plus(Single::integer(col as int).times(g.cell_w)).plus(
        g.cell_w.minus(gw).over(Single::integer(2)),
    );
    let gy = g.oy.plus(row.times(g.cell_h)).plus(g.cell_h.minus(gh).over(Single::integer(2)));
    GlyphQuad {
        layer: LAYER,
        left: gx.minus(g.left_off),
        top: gy.minus(g.top_off),
        right: gx.plus(gw).minus(g.left_off),
        bottom: gy.plus(gh).minus(g.top_off),
        color,
        has_color: texture.has_color,
        hsv: None,
    }
}

/// What a mask asks for: its area in black, on the layer of the rain.
pub open spec fn mask_action(rect: Rect) -> ActionView {
    ActionView::Fill { layer: LAYER, rect, color: hide_color() }
}

/// What a glyph asks for: its picture, one cell wide.
pub open spec fn glyph_action(glyph: GlyphInfo, face: Face) -> ActionView {
    ActionView::Rasterize { glyph, face, followed_by_space: false, num_cells: 1 }
}

/// What a grapheme asks for; nothing, if it is not drawn.
pub open spec fn text_action(text: Seq<char>, s: PainterState) -> Option<ActionView> {
    match lookup(s.memo, text, s.budget) {
        GlyphLookup::Skip => None,
        GlyphLookup::Shape => Some(ActionView::Shape(text)),
        GlyphLookup::Draw(glyph) => Some(glyph_action(glyph, Face::Text)),
    }
}

/// What step `i` asks for; nothing, if there is nothing to draw.
pub open spec fn step_action(scene: Scene, s: PainterState, i: int) -> Option<ActionView> {
    match scene.steps[i] {
        RainStep::Mask(rect) => Some(mask_action(rect)),
        RainStep::Glyph { source, .. } => match source {
            GlyphSource::Old(k) => text_action(scene.old_texts[k as int], s),
            GlyphSource::New(k) => text_action(scene.new_texts[k as int], s),
            GlyphSource::Stream(k) => Some(glyph_action(scene.palette[k as int], Face::Stream)),
        },
    }
}

/// The first step from `i` on that asks for something.
pub open spec fn first_asking(scene: Scene, s: PainterState, i: nat) -> nat
    decreases scene.steps.len() - i,
{
    if i < scene.steps.len() && step_action(scene, s, i as int) is None {
        first_asking(scene, s, i + 1)
    } else {
        i
    }
}

/// The painter asked for a shaping, and it has the outcome.
pub open spec fn takes_shaping(scene: Scene, s: PainterState, event: RainEvent) -> bool {
    &&& s.waiting
    &&& s.next < scene.steps.len()
    &&& event is Shaped
    &&& step_action(scene, s, s.next as int) matches Some(ActionView::Shape(_))
}

/// The painter asked for a picture, and it has the outcome.
pub open spec fn takes_picture(scene: Scene, s: PainterState, event: RainEvent) -> bool {
    &&& s.waiting
    &&& s.next < scene.steps.len()
    &&& event is Rasterized
    &&& step_action(scene, s, s.next as int) matches Some(ActionView::Rasterize { .. })
}

/// How far the painting is once it has the outcome of the last action. An outcome
/// that was not asked for changes nothing.
pub open spec fn absorbed(scene: Scene, s: PainterState, event: RainEvent) -> PainterState {
    if takes_shaping(scene, s, event) {
        let text = step_action(scene, s, s.next as int)->0->Shape_0;
        PainterState {
            budget: s.budget - 1,
            memo: s.memo.insert(text, event->Shaped_0),
            ..s
        }
    } else if takes_picture(scene, s, event) {
        PainterState { next: s.next + 1, ..s }
    } else {
        s
    }
}

/// The next action, where nothing is left of the last one.
pub open spec fn asks(scene: Scene, s: PainterState) -> (PainterState, ActionView) {
    let i = first_asking(scene, s, s.next);
    if s.fonts_due {
        (PainterState { fonts_due: false, waiting: false, ..s }, ActionView::LoadFonts)
    } else if i >= scene.steps.len() {
        (PainterState { next: i, waiting: false, ..s }, ActionView::Done)
    } else {
        let action = step_action(scene, s, i as int)->0;
        if action is Fill {
            (PainterState { next: i + 1, waiting: false, ..s }, action)
        } else {
            (PainterState { next: i, waiting: true, ..s }, action)
        }
    }
}

/// One move of the painter: how far it is then, and what it asks for. A glyph
/// whose picture came is drawn; one without a picture is passed over.
pub open spec fn moves(scene: Scene, s: PainterState, event: RainEvent) -> (
    PainterState,
    ActionView,
) {
    let t = absorbed(scene, s, event);
    if takes_picture(scene, s, event) && event->Rasterized_0 is Some {
        let step = scene.steps[s.next as int];
        (
            PainterState { waiting: false, ..t },
            ActionView::Quad(
                glyph_quad(
                    event->Rasterized_0->0,
                    scene.geometry,
                    step->col,
                    step->row,
                    step->color,
                ),
            ),
        )
    } else {
        asks(scene, t)
    }
}

/// The quad of one glyph at cell (col, fractional-row) tinted `color`, if the
/// glyph has a picture.
pub fn emit_matrix_glyph(
    texture: Option<Texture>,
    g: &RainGeometry,
    col: usize,
    row: Single,
    color: LinearRgba,
) -> (quad: Option<GlyphQuad>)
    ensures
        quad == (match texture {
            Some(texture) => Some(glyph_quad(texture, *g, col, row, color)),
            None => None,
        }),
{
    let texture = match texture {
        Some(texture) => texture,
        None => return None,
    };
    let gw = Single::from_i64(texture.width as i64).times(texture.scale).times(g.zoom);
    let gh = Single::from_i64(texture.height as i64).times(texture.scale).times(g.zoom);
    let two = Single::from_u64(2);
    let gx = g.ox.plus(Single::from_usize(col).times(g.cell_w)).plus(
        g.cell_w.minus(gw).over(two),
    );
    let gy = g.oy.plus(row.times(g.cell_h)).plus(g.cell_h.minus(gh).over(two));
    Some(
        GlyphQuad {
            layer: LAYER,
            left: gx.minus(g.left_off),
            top: gy.minus(g.top_off),
            right: gx.plus(gw).minus(g.left_off),
            bottom: gy.plus(gh).minus(g.top_off),
            color,
            has_color: texture.has_color,
            hsv: None,
        },
    )
}

/// The painter of one frame. It holds the transition and the palette while the
/// frame is painted.
pub struct RainPainter {
    pub anim: TabSwitchAnim,
    pub palette: Vec<GlyphInfo>,
    pub geometry: RainGeometry,
    pub steps: Vec<RainStep>,
    pub fonts_due: bool,
    pub waiting: bool,
    pub next: usize,
    pub budget: i32,
}

impl RainPainter {
    /// What the frame is painted from.
    pub open spec fn scene(self) -> Scene {
        Scene {
            steps: self.steps@,
            old_texts: texts(self.anim.old_cells@),
            new_texts: texts(self.anim.cells@),
            palette: self.palette@,
            geometry: self.geometry,
        }
    }

    /// How far the painting is.
    pub open spec fn state(self) -> PainterState {
        PainterState {
            fonts_due: self.fonts_due,
            waiting: self.waiting,
            next: self.next as nat,
            budget: self.budget as int,
            memo: self.anim.glyphs@,
        }
    }

    /// The painter is at one of its steps, and each of them draws what there is.
    pub open spec fn wf(self) -> bool {
        &&& self.anim.wf()
        &&& self.next <= self.steps@.len()
        &&& 0 <= self.budget <= SHAPE_BUDGET
        &&& steps_in_range(self.anim, self.palette.len(), self.steps@)
    }

    /// The action that fetches a glyph's picture.
    fn fetch(glyph: GlyphInfo, face: Face) -> (action: RainAction)
        ensures
            action@ == glyph_action(glyph, face),
    {
        RainAction::Rasterize { glyph, face, followed_by_space: false, num_cells: 1 }
    }

    /// What the step asks for, and the text if it has one to be shaped.
    fn ask(&self, i: usize) -> (action: Option<RainAction>)
        requires
            self.wf(),
            i < self.steps@.len(),
        ensures
            match step_action(self.scene(), self.state(), i as int) {
                Some(view) => action matches Some(action) && action@ == view,
                None => action is None,
            },
    {
        match self.steps[i] {
            RainStep::Mask(rect) => {
                let zero = Single { bits: 0 };
                let color = LinearRgba {
                    red: zero,
                    green: zero,
                    blue: zero,
                    alpha: Single::from_u64(1),
                };
                Some(RainAction::Fill { layer: LAYER, rect, color })
            },
            RainStep::Glyph { source, .. } => {
                let text: &String = match source {
                    GlyphSource::Old(k) => &self.anim.old_cells[k],
                    GlyphSource::New(k) => &self.anim.cells[k],
                    GlyphSource::Stream(k) => {
                        return Some(Self::fetch(self.palette[k], Face::Stream));
                    },
                };
                match memo_glyph(&self.anim.glyphs, text.as_str(), self.budget) {
                    GlyphLookup::Skip => None,
                    GlyphLookup::Shape => Some(RainAction::Shape(text.clone())),
                    GlyphLookup::Draw(glyph) => Some(Self::fetch(glyph, Face::Text)),
                }
            },
        }
    }

    /// The next action, where nothing is left of the last one.
    fn ask_next(&mut self) -> (action: RainAction)
        requires
            old(self).wf(),
        ensures
            final(self).wf(),
            final(self).scene() == old(self).scene(),
            final(self).anim == old(self).anim,
            final(self).palette == old(self).palette,
            asks(old(self).scene(), old(self).state()) == (final(self).state(), action@),
    {
        if self.fonts_due {
            self.fonts_due = false;
            self.waiting = false;
            return RainAction::LoadFonts;
        }
        let mut i: usize = self.next;
        let ghost scene = self.scene();
        let ghost s = self.state();
        while i < self.steps.len()
            invariant
                self.wf(),
                i <= self.steps@.len(),
                *self == *old(self),
                !self.fonts_due,
                scene == self.scene(),
                s == self.state(),
                first_asking(scene, s, s.next) == first_asking(scene, s, i as nat),
            decreases self.steps@.len() - i,
        {
            if let Some(action) = self.ask(i) {
                match &action {
                    RainAction::Fill { .. } => {
                        self.next = i + 1;
                        self.waiting = false;
                    },
                    _ => {
                        self.next = i;
                        self.waiting = true;
                    },
                }
                return action;
            }
            i = i + 1;
        }
        self.next = i;
        self.waiting = false;
        RainAction::Done
    }

    /// Takes what has come of the last action, and tells the next one.
    pub fn advance(&mut self, event: RainEvent) -> (action: RainAction)
        requires
            old(self).wf(),
        ensures
            final(self).wf(),
            final(self).scene() == old(self).scene(),
            moves(old(self).scene(), old(self).state(), event) == (final(self).state(), action@),
            final(self).palette == old(self).palette,
            final(self).anim == (TabSwitchAnim {
                glyphs: final(self).anim.glyphs,
                ..old(self).anim
            }),
    {
        if self.waiting && self.next < self.steps.len() {
            let asked = self.ask(self.next);
            match (event, asked) {
                (RainEvent::Shaped(shaped), Some(RainAction::Shape(text))) => {
                    self.anim.glyphs.insert(text, shaped);
                    self.budget = self.budget - 1;
                },
                (
                    RainEvent::Rasterized(texture),
                    Some(RainAction::Rasterize { .. }),
                ) => {
                    let i = self.next;
                    self.next = i + 1;
                    if let RainStep::Glyph { col, row, color, .. } = self.steps[i] {
                        if let Some(quad) = emit_matrix_glyph(
                            texture,
                            &self.geometry,
                            col,
                            row,
                            color,
                        ) {
                            self.waiting = false;
                            return RainAction::Quad(quad);
                        }
                    }
                },
                _ => {},
            }
        }
        self.ask_next()
    }
}

} // verus!
