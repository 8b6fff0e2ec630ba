//! What the host is told for each step of a frame, and what comes of its answers.

use crate::glyphs::lemma_lookup;
use crate::glyphs::GlyphInfo;
use crate::matrix_rain::handed_back;
use crate::matrix_rain::planned;
use crate::matrix_rain::rain_pane;
use crate::matrix_rain::rain_start;
use crate::painter_laws::frame_start;
use crate::painter_laws::lemma_first_asking;
use crate::rain_frame::frame_steps;
use crate::rain_frame::FrameSetup;
use crate::rain_frame::GlyphSource;
use crate::rain_frame::RainStep;
use crate::rain_painter::first_asking;
use crate::rain_painter::glyph_quad;
use crate::rain_painter::moves;
use crate::rain_painter::step_action;
use crate::rain_painter::takes_picture;
use crate::rain_painter::takes_shaping;
use crate::rain_painter::ActionView;
use crate::rain_painter::Face;
use crate::rain_painter::PainterState;
use crate::rain_painter::RainEvent;
use crate::rain_painter::RainPainter;
use crate::rain_painter::Scene;
use crate::rain_painter::Texture;
use crate::single::Single;
use crate::term_window::LinearRgba;
use crate::term_window::TabSwitchAnim;
use crate::term_window::TermWindow;
use vstd::prelude::*;

verus! {

/// The painter is at this step, and nothing is left of the last action.
pub open spec fn at_step(scene: Scene, s: PainterState, step: RainStep) -> bool {
    &&& s.next < scene.steps.len()
    &&& scene.steps[s.next as int] == step
    &&& !s.fonts_due
    &&& !s.waiting
}

/// The painter passes over its step: it does what it does at the one after it.
pub open spec fn passes_over(scene: Scene, s: PainterState) -> bool {
    moves(scene, s, RainEvent::Ready) == moves(
        scene,
        PainterState { next: s.next + 1, ..s },
        RainEvent::Ready,
    )
}

/// The painter asks for the picture of this glyph, one cell wide and with nothing behind
/// it, and waits for it.
pub open spec fn fetches(scene: Scene, s: PainterState, glyph: GlyphInfo, face: Face) -> bool {
    let (t, action) = moves(scene, s, RainEvent::Ready);
    &&& t == (PainterState { waiting: true, ..s })
    &&& action matches ActionView::Rasterize {
        glyph: asked,
        face: asked_face,
        followed_by_space,
        num_cells,
    } ==> {
        &&& asked == glyph
        &&& asked_face == face
        &&& !followed_by_space
        &&& num_cells == 1
    }
    &&& action is Rasterize
}

/// What a step asks for depends on the memo and the budget alone.
proof fn lemma_same_first_asking(scene: Scene, s: PainterState, t: PainterState, i: nat)
    requires
        s.memo == t.memo,
        s.budget == t.budget,
    ensures
        first_asking(scene, s, i) == first_asking(scene, t, i),
    decreases scene.steps.len() - i,
{
    if i < scene.steps.len() {
        lemma_same_first_asking(scene, s, t, i + 1);
    }
}

/// A glyph of the stream is the one at its place in the palette, in the stream's font.
pub proof fn lemma_stream_step(
    scene: Scene,
    s: PainterState,
    k: usize,
    col: usize,
    row: Single,
    color: LinearRgba,
)
    requires
        at_step(scene, s, RainStep::Glyph { source: GlyphSource::Stream(k), col, row, color }),
    ensures
        fetches(scene, s, scene.palette[k as int], Face::Stream),
{
}

/// A character of either screen is the text of its cell. An empty cell or a space is passed
/// over. Any other text is drawn with the glyph that the memo has for it, in the user's
/// font, passed over if that is none, and shaped if the memo does not have it and a shaping
/// is left.
pub proof fn lemma_text_step(
    scene: Scene,
    s: PainterState,
    outgoing: bool,
    k: usize,
    col: usize,
    row: Single,
    color: LinearRgba,
)
    requires
        at_step(
            scene,
            s,
            RainStep::Glyph {
                source: if outgoing {
                    GlyphSource::Old(k)
                } else {
                    GlyphSource::New(k)
                },
                col,
                row,
                color,
            },
        ),
    ensures
        ({
            let text = if outgoing {
                scene.old_texts[k as int]
            } else {
                scene.new_texts[k as int]
            };
            let blank = text.len() == 0 || (text.len() == 1 && text[0] == ' ');
            let known = s.memo.contains_key(text);
            &&& blank ==> passes_over(scene, s)
            &&& !blank && known && s.memo[text] is Some ==> fetches(
                scene,
                s,
                s.memo[text]->0,
                Face::Text,
            )
            &&& !blank && known && s.memo[text] is None ==> passes_over(scene, s)
            &&& !blank && !known && s.budget > 0 ==> moves(scene, s, RainEvent::Ready) == (
                PainterState { waiting: true, ..s },
                ActionView::Shape(text),
            )
            &&& !blank && !known && s.budget <= 0 ==> passes_over(scene, s)
        }),
{
    let text = if outgoing {
        scene.old_texts[k as int]
    } else {
        scene.new_texts[k as int]
    };
    lemma_lookup(s.memo, text, s.budget);
    lemma_same_first_asking(scene, s, PainterState { next: s.next + 1, ..s }, s.next + 1);
}

/// Once a text is shaped, the memo has what it was shaped to, one shaping less is left, and
/// the painter looks at the same step again.
pub proof fn lemma_shaped_text(
    scene: Scene,
    s: PainterState,
    text: Seq<char>,
    shaped: Option<GlyphInfo>,
)
    requires
        s.next < scene.steps.len(),
        !s.fonts_due,
        !s.waiting,
        moves(scene, s, RainEvent::Ready) == (
            PainterState { waiting: true, ..s },
            ActionView::Shape(text),
        ),
    ensures
        ({
            let asked = PainterState { waiting: true, ..s };
            let told = PainterState {
                memo: s.memo.insert(text, shaped),
                budget: s.budget - 1,
                ..s
            };
            moves(scene, asked, RainEvent::Shaped(shaped)) == moves(
                scene,
                told,
                RainEvent::Ready,
            )
        }),
{
    let asked = PainterState { waiting: true, ..s };
    let told = PainterState { memo: s.memo.insert(text, shaped), budget: s.budget - 1, ..s };
    lemma_first_asking(scene, s, s.next);
    assert(step_action(scene, asked, s.next as int) == step_action(scene, s, s.next as int));
    assert(takes_shaping(scene, asked, RainEvent::Shaped(shaped)));
    lemma_same_first_asking(scene, PainterState { waiting: true, ..told }, told, s.next);
}

/// A glyph that has a picture is drawn at the column, the row and in the colour of its step,
/// and the painter goes on to the next one; a glyph without a picture is passed over.
pub proof fn lemma_fetched_picture(
    scene: Scene,
    s: PainterState,
    source: GlyphSource,
    col: usize,
    row: Single,
    color: LinearRgba,
    texture: Texture,
)
    requires
        at_step(scene, s, RainStep::Glyph { source, col, row, color }),
        moves(scene, s, RainEvent::Ready).0 == (PainterState { waiting: true, ..s }),
        moves(scene, s, RainEvent::Ready).1 is Rasterize,
    ensures
        ({
            let asked = PainterState { waiting: true, ..s };
            let past = PainterState { next: s.next + 1, ..s };
            &&& moves(scene, asked, RainEvent::Rasterized(Some(texture))) == (
                past,
                ActionView::Quad(glyph_quad(texture, scene.geometry, col, row, color)),
            )
            &&& moves(scene, asked, RainEvent::Rasterized(None)) == moves(
                scene,
                past,
                RainEvent::Ready,
            )
        }),
{
    let asked = PainterState { waiting: true, ..s };
    let past = PainterState { next: s.next + 1, ..s };
    lemma_first_asking(scene, s, s.next);
    assert(step_action(scene, asked, s.next as int) == step_action(scene, s, s.next as int));
    assert(takes_picture(scene, asked, RainEvent::Rasterized(Some(texture))));
    assert(takes_picture(scene, asked, RainEvent::Rasterized(None)));
    lemma_same_first_asking(scene, PainterState { waiting: true, ..past }, past, past.next);
}

/// The frame is done exactly once there is no step left to draw.
pub proof fn lemma_frame_is_done(scene: Scene, s: PainterState)
    requires
        s.next >= scene.steps.len(),
        !s.fonts_due,
    ensures
        moves(scene, s, RainEvent::Ready).1 == ActionView::Done,
        moves(scene, s, RainEvent::Ready).0.memo == s.memo,
{
}

/// An answer that was not asked for changes nothing: the painter asks again.
pub proof fn lemma_stray_answers(scene: Scene, s: PainterState, event: RainEvent)
    requires
        !s.waiting,
    ensures
        moves(scene, s, event) == moves(scene, s, RainEvent::Ready),
{
}

/// The host is told the pane and the start of the transition that runs, and none without
/// one; each frame hands the transition and the palette back as the painter leaves them,
/// and nothing else of the window changes.
pub proof fn lemma_frame_hands_back(win: TermWindow, painter: RainPainter)
    ensures
        ({
            let after = handed_back(win, painter);
            &&& win.tab_switch_anim is None ==> rain_pane(win) is None && rain_start(win) is None
            &&& rain_pane(after) == Some(painter.anim.pane_id)
            &&& rain_start(after) == Some(painter.anim.start)
            &&& after.tab_switch_anim == Some(painter.anim)
            &&& after.matrix_rain_palette == Some(painter.palette)
            &&& after == (TermWindow {
                tab_switch_anim: after.tab_switch_anim,
                matrix_rain_palette: after.matrix_rain_palette,
                ..win
            })
        }),
{
}

/// A frame has steps exactly where it has cells, and then it starts at the first of them
/// with the fonts to load and 96 shapings.
pub proof fn lemma_frame_starts(
    anim: TabSwitchAnim,
    setup: FrameSetup,
    memo: Map<Seq<char>, Option<GlyphInfo>>,
)
    ensures
        setup.rows == 0 || setup.cols == 0 ==> planned(anim, setup).len() == 0,
        setup.rows > 0 ==> planned(anim, setup) == frame_steps(anim, setup, setup.cols as nat),
        frame_start(memo).fonts_due,
        !frame_start(memo).waiting,
        frame_start(memo).next == 0,
        frame_start(memo).budget == 96,
        frame_start(memo).memo == memo,
{
}

} // verus!
