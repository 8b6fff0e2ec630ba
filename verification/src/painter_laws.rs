//! What holds of the painting of a frame as a whole.

use crate::glyphs::lookup;
use crate::glyphs::GlyphInfo;
use crate::glyphs::GlyphLookup;
use crate::rain_frame::GlyphSource;
use crate::rain_frame::RainStep;
use crate::rain_frame::LAYER;
use crate::rain_painter::absorbed;
use crate::rain_painter::first_asking;
use crate::rain_painter::glyph_quad;
use crate::rain_painter::mask_action;
use crate::rain_painter::moves;
use crate::rain_painter::step_action;
use crate::rain_painter::takes_picture;
use crate::rain_painter::takes_shaping;
use crate::rain_painter::ActionView;
use crate::rain_painter::Face;
use crate::rain_painter::PainterState;
use crate::rain_painter::RainEvent;
use crate::rain_painter::Scene;
use crate::rain_painter::Texture;
use crate::rain_painter::SHAPE_BUDGET;
use crate::single::one_in_units;
use crate::single_laws::lemma_integer;
use crate::single_laws::lemma_zero;
use crate::term_window::Rect;
use vstd::prelude::*;

verus! {

/// How far the painting is after a run of outcomes.
pub open spec fn after(scene: Scene, s: PainterState, events: Seq<RainEvent>) -> PainterState
    decreases events.len(),
{
    if events.len() == 0 {
        s
    } else {
        moves(scene, after(scene, s, events.drop_last()), events.last()).0
    }
}

/// How many graphemes were shaped in a run of outcomes.
pub open spec fn shapings(scene: Scene, s: PainterState, events: Seq<RainEvent>) -> nat
    decreases events.len(),
{
    if events.len() == 0 {
        0
    } else {
        let before = after(scene, s, events.drop_last());
        shapings(scene, s, events.drop_last()) + (if takes_shaping(scene, before, events.last()) {
            1nat
        } else {
            0nat
        })
    }
}

/// The first step that asks for something is at or below the one looked from, and
/// within the frame.
pub proof fn lemma_first_asking(scene: Scene, s: PainterState, i: nat)
    requires
        i <= scene.steps.len(),
    ensures
        i <= first_asking(scene, s, i) <= scene.steps.len(),
        first_asking(scene, s, i) < scene.steps.len() ==> step_action(
            scene,
            s,
            first_asking(scene, s, i) as int,
        ) is Some,
    decreases scene.steps.len() - i,
{
    if i < scene.steps.len() && step_action(scene, s, i as int) is None {
        lemma_first_asking(scene, s, i + 1);
    }
}

/// What a step asks for depends on the memo and the budget alone.
proof fn lemma_same_asking(scene: Scene, s: PainterState, t: PainterState)
    requires
        s.memo == t.memo,
        s.budget == t.budget,
    ensures
        forall|i: int| #[trigger] step_action(scene, s, i) == step_action(scene, t, i),
{
}

/// New shaping is capped per frame, so a dense screen can never stall one: whatever
/// comes of the actions, no more graphemes are shaped than the frame's budget, and
/// none is asked for once it is spent.
pub proof fn lemma_shaping_is_capped(scene: Scene, s: PainterState, events: Seq<RainEvent>)
    requires
        s.budget >= 0,
    ensures
        shapings(scene, s, events) + after(scene, s, events).budget == s.budget,
        shapings(scene, s, events) <= s.budget,
        forall|event: RainEvent|
            shapings(scene, s, events) == s.budget ==> !(#[trigger] moves(
                scene,
                after(scene, s, events),
                event,
            ).1 is Shape),
    decreases events.len(),
{
    if events.len() > 0 {
        lemma_shaping_is_capped(scene, s, events.drop_last());
    }
    let t = after(scene, s, events);
    assert forall|event: RainEvent| shapings(scene, s, events) == s.budget implies !(
    #[trigger] moves(scene, t, event).1 is Shape) by {
        let a = absorbed(scene, t, event);
        if a.next <= scene.steps.len() {
            lemma_first_asking(scene, a, a.next);
        }
    }
}

/// What the memo holds stays, and a text in it is not asked for in this frame.
pub proof fn lemma_memo_is_kept(
    scene: Scene,
    s: PainterState,
    events: Seq<RainEvent>,
    text: Seq<char>,
)
    requires
        s.memo.contains_key(text),
    ensures
        after(scene, s, events).memo.contains_key(text),
        after(scene, s, events).memo[text] == s.memo[text],
        forall|event: RainEvent|
            (#[trigger] moves(scene, after(scene, s, events), event)).1 != ActionView::Shape(text),
    decreases events.len(),
{
    if events.len() > 0 {
        lemma_memo_is_kept(scene, s, events.drop_last(), text);
    }
    let t = after(scene, s, events);
    assert forall|event: RainEvent| (#[trigger] moves(scene, t, event)).1 != ActionView::Shape(
        text,
    ) by {
        let a = absorbed(scene, t, event);
        if a.next <= scene.steps.len() {
            lemma_first_asking(scene, a, a.next);
        }
    }
}

/// Where the painting of a frame starts.
pub open spec fn frame_start(memo: Map<Seq<char>, Option<GlyphInfo>>) -> PainterState {
    PainterState { fonts_due: true, waiting: false, next: 0, budget: SHAPE_BUDGET as int, memo }
}

/// What the memo of a transition holds after a run of frames, each of a scene and of
/// what came of the actions.
pub open spec fn memo_after(
    memo: Map<Seq<char>, Option<GlyphInfo>>,
    frames: Seq<(Scene, Seq<RainEvent>)>,
) -> Map<Seq<char>, Option<GlyphInfo>>
    decreases frames.len(),
{
    if frames.len() == 0 {
        memo
    } else {
        let (scene, events) = frames.last();
        after(scene, frame_start(memo_after(memo, frames.drop_last())), events).memo
    }
}

/// A grapheme is shaped at most once in a transition: once the memo holds it, no frame
/// that follows changes what it was shaped to, and none asks for it again.
pub proof fn lemma_shaped_once(
    memo: Map<Seq<char>, Option<GlyphInfo>>,
    frames: Seq<(Scene, Seq<RainEvent>)>,
    text: Seq<char>,
    scene: Scene,
    events: Seq<RainEvent>,
    event: RainEvent,
)
    requires
        memo.contains_key(text),
    ensures
        memo_after(memo, frames).contains_key(text),
        memo_after(memo, frames)[text] == memo[text],
        moves(scene, after(scene, frame_start(memo_after(memo, frames)), events), event).1
            != ActionView::Shape(text),
    decreases frames.len(),
{
    if frames.len() > 0 {
        let (last_scene, last_events) = frames.last();
        lemma_shaped_once(memo, frames.drop_last(), text, scene, events, event);
        lemma_memo_is_kept(
            last_scene,
            frame_start(memo_after(memo, frames.drop_last())),
            last_events,
            text,
        );
    }
    lemma_memo_is_kept(scene, frame_start(memo_after(memo, frames)), events, text);
}

/// The fonts are loaded before anything else of a frame, and once.
pub proof fn lemma_fonts_come_first(scene: Scene, s: PainterState, event: RainEvent)
    requires
        s.next <= scene.steps.len(),
        !(s.waiting && s.fonts_due),
    ensures
        s.fonts_due <==> moves(scene, s, event).1 is LoadFonts,
        !moves(scene, s, event).0.fonts_due,
{
    let a = absorbed(scene, s, event);
    lemma_first_asking(scene, a, a.next);
}

/// A mask is black and covers what is below it, and is all of its step.
pub proof fn lemma_masks_are_black(scene: Scene, s: PainterState, rect: Rect)
    requires
        s.next < scene.steps.len(),
        scene.steps[s.next as int] == RainStep::Mask(rect),
        !s.fonts_due,
        !s.waiting,
    ensures
        moves(scene, s, RainEvent::Ready).0.next == s.next + 1,
        moves(scene, s, RainEvent::Ready).1 matches ActionView::Fill { layer, rect: area, color }
            ==> {
            &&& area == rect
            &&& layer == 2
            &&& color.red.value() == 0 && color.green.value() == 0 && color.blue.value() == 0
            &&& color.alpha.value() == one_in_units()
        },
        moves(scene, s, RainEvent::Ready).1 is Fill,
{
    lemma_zero();
    lemma_integer(1);
    assert(1 * one_in_units() == one_in_units());
}

/// All of the rain is on its layer, so that it covers the pane's text: whatever comes of
/// the actions, nothing is filled or drawn on another one.
pub proof fn lemma_rain_is_on_its_layer(scene: Scene, s: PainterState, event: RainEvent)
    requires
        s.next <= scene.steps.len(),
    ensures
        moves(scene, s, event).1 matches ActionView::Fill { layer, .. } ==> layer == LAYER,
        moves(scene, s, event).1 matches ActionView::Quad(quad) ==> quad.layer == LAYER,
{
    let a = absorbed(scene, s, event);
    lemma_first_asking(scene, a, a.next);
}

/// The event is the outcome of this action.
pub open spec fn answers(action: ActionView, event: RainEvent) -> bool {
    match action {
        ActionView::Shape(_) => event is Shaped,
        ActionView::Rasterize { .. } => event is Rasterized,
        _ => event is Ready,
    }
}

/// The painter is within the frame, and it is not waiting before it has the fonts.
pub open spec fn under_way(scene: Scene, s: PainterState) -> bool {
    s.next <= scene.steps.len() && !(s.waiting && s.fonts_due)
}

/// How many moves are left at most, with this outcome of the last action: three for
/// each step, one that ends the frame, and one for the fonts.
pub open spec fn moves_left(scene: Scene, s: PainterState, event: RainEvent) -> int {
    let fonts = if s.fonts_due {
        1int
    } else {
        0
    };
    let left = 3 * (scene.steps.len() - s.next) + 1 + fonts;
    if takes_shaping(scene, s, event) {
        left - 1
    } else if takes_picture(scene, s, event) {
        left - 2
    } else {
        left
    }
}

/// A move after which the frame is not done leaves fewer moves.
proof fn lemma_move(scene: Scene, s: PainterState, event: RainEvent, next_event: RainEvent)
    requires
        under_way(scene, s),
        moves(scene, s, event).1 !is Done,
        answers(moves(scene, s, event).1, next_event),
    ensures
        under_way(scene, moves(scene, s, event).0),
        moves_left(scene, moves(scene, s, event).0, next_event) < moves_left(scene, s, event),
{
    let a = absorbed(scene, s, event);
    let (t, action) = moves(scene, s, event);
    lemma_first_asking(scene, a, a.next);
}

/// Each of the outcomes answers the action before it, and the frame is not done in
/// any of the moves.
pub open spec fn unfinished(scene: Scene, s: PainterState, events: Seq<RainEvent>) -> bool
    decreases events.len(),
{
    events.len() > 0 ==> {
        let (t, action) = moves(scene, s, events[0]);
        &&& action !is Done
        &&& events.len() > 1 ==> answers(action, events[1])
        &&& unfinished(scene, t, events.drop_first())
    }
}

/// The frame gets painted: whatever comes of the actions, it is done after three moves
/// for each step and two more at most.
pub proof fn lemma_painting_ends(scene: Scene, s: PainterState, events: Seq<RainEvent>)
    requires
        under_way(scene, s),
        unfinished(scene, s, events),
        events.len() > 0,
    ensures
        events.len() < moves_left(scene, s, events[0]) <= 3 * scene.steps.len() + 2,
    decreases events.len(),
{
    let (t, action) = moves(scene, s, events[0]);
    let rest = events.drop_first();
    if rest.len() > 0 {
        lemma_move(scene, s, events[0], rest[0]);
        lemma_painting_ends(scene, t, rest);
    } else {
        let next_event = match action {
            ActionView::Shape(_) => RainEvent::Shaped(None),
            ActionView::Rasterize { .. } => RainEvent::Rasterized(None),
            _ => RainEvent::Ready,
        };
        lemma_move(scene, s, events[0], next_event);
    }
}

/// What a host makes of the actions: the glyph of each grapheme, and the picture of
/// each glyph.
pub struct Host {
    pub shape: spec_fn(Seq<char>) -> Option<GlyphInfo>,
    pub picture: spec_fn(GlyphInfo, Face) -> Option<Texture>,
}

/// What comes of an action with this host.
pub open spec fn outcome(host: Host, action: ActionView) -> RainEvent {
    match action {
        ActionView::Shape(text) => RainEvent::Shaped((host.shape)(text)),
        ActionView::Rasterize { glyph, face, .. } => RainEvent::Rasterized(
            (host.picture)(glyph, face),
        ),
        _ => RainEvent::Ready,
    }
}

/// What the host is told to paint in `n` moves at most, from this outcome on.
pub open spec fn drawn(
    scene: Scene,
    host: Host,
    s: PainterState,
    event: RainEvent,
    n: nat,
) -> Seq<ActionView>
    decreases n,
{
    let (t, action) = moves(scene, s, event);
    if n == 0 || action is Done {
        Seq::empty()
    } else {
        (if action is Fill || action is Quad {
            seq![action]
        } else {
            Seq::empty()
        }) + drawn(scene, host, t, outcome(host, action), (n - 1) as nat)
    }
}

/// The frame is done in `n` moves at most.
pub open spec fn done_within(
    scene: Scene,
    host: Host,
    s: PainterState,
    event: RainEvent,
    n: nat,
) -> bool
    decreases n,
{
    let (t, action) = moves(scene, s, event);
    n > 0 && (action is Done || done_within(
        scene,
        host,
        t,
        outcome(host, action),
        (n - 1) as nat,
    ))
}

/// A step's glyph is drawn where the glyph has a picture.
pub open spec fn glyph_painted(
    scene: Scene,
    step: RainStep,
    picture: Option<Texture>,
) -> Seq<ActionView> {
    match picture {
        Some(texture) => seq![
            ActionView::Quad(
                glyph_quad(texture, scene.geometry, step->col, step->row, step->color),
            ),
        ],
        None => Seq::empty(),
    }
}

/// The text that a step draws, if it draws one.
pub open spec fn step_text(scene: Scene, step: RainStep) -> Option<Seq<char>> {
    match step {
        RainStep::Glyph { source: GlyphSource::Old(k), .. } => Some(scene.old_texts[k as int]),
        RainStep::Glyph { source: GlyphSource::New(k), .. } => Some(scene.new_texts[k as int]),
        _ => None,
    }
}

/// What the steps from `i` on come to, one after the other: a mask is filled, a glyph
/// of the stream is drawn, and a text is looked up, shaped on first sight while the
/// budget lasts, and drawn if it has a glyph.
pub open spec fn painted(
    scene: Scene,
    host: Host,
    memo: Map<Seq<char>, Option<GlyphInfo>>,
    budget: int,
    i: nat,
) -> Seq<ActionView>
    decreases scene.steps.len() - i,
{
    if i >= scene.steps.len() {
        Seq::empty()
    } else {
        let step = scene.steps[i as int];
        match step_text(scene, step) {
            None => (match step {
                RainStep::Glyph { source: GlyphSource::Stream(k), .. } => glyph_painted(
                    scene,
                    step,
                    (host.picture)(scene.palette[k as int], Face::Stream),
                ),
                _ => seq![mask_action(step->Mask_0)],
            }) + painted(scene, host, memo, budget, i + 1),
            Some(text) => {
                let shapes = lookup(memo, text, budget) is Shape;
                let new_memo = if shapes {
                    memo.insert(text, (host.shape)(text))
                } else {
                    memo
                };
                let new_budget = if shapes {
                    budget - 1
                } else {
                    budget
                };
                (match lookup(new_memo, text, new_budget) {
                    GlyphLookup::Draw(glyph) => glyph_painted(
                        scene,
                        step,
                        (host.picture)(glyph, Face::Text),
                    ),
                    _ => Seq::empty(),
                }) + painted(scene, host, new_memo, new_budget, i + 1)
            },
        }
    }
}

/// What is still to be painted, with this outcome of the last action.
spec fn to_paint(scene: Scene, host: Host, s: PainterState, event: RainEvent) -> Seq<ActionView> {
    let a = absorbed(scene, s, event);
    (if takes_picture(scene, s, event) {
        glyph_painted(scene, scene.steps[s.next as int], event->Rasterized_0)
    } else {
        Seq::empty()
    }) + painted(scene, host, a.memo, a.budget, a.next)
}

/// A step that asks for nothing comes to nothing.
proof fn lemma_nothing_painted(scene: Scene, host: Host, s: PainterState, i: nat)
    requires
        i <= scene.steps.len(),
    ensures
        painted(scene, host, s.memo, s.budget, i) == painted(
            scene,
            host,
            s.memo,
            s.budget,
            first_asking(scene, s, i),
        ),
    decreases scene.steps.len() - i,
{
    if i < scene.steps.len() && step_action(scene, s, i as int) is None {
        lemma_nothing_painted(scene, host, s, i + 1);
    }
}

/// A move paints the first of what is still to be painted.
proof fn lemma_paints_next(scene: Scene, host: Host, s: PainterState, event: RainEvent)
    requires
        under_way(scene, s),
    ensures
        ({
            let (t, action) = moves(scene, s, event);
            to_paint(scene, host, s, event) == if action is Done {
                Seq::empty()
            } else {
                (if action is Fill || action is Quad {
                    seq![action]
                } else {
                    Seq::empty()
                }) + to_paint(scene, host, t, outcome(host, action))
            }
        }),
{
    let a = absorbed(scene, s, event);
    let (t, action) = moves(scene, s, event);
    let next_event = outcome(host, action);
    lemma_first_asking(scene, a, a.next);
    lemma_nothing_painted(scene, host, a, a.next);
    assert(t.memo == a.memo && t.budget == a.budget);
    lemma_same_asking(scene, a, t);
    let i = first_asking(scene, a, a.next);
    let rest = if action is Done {
        Seq::empty()
    } else {
        (if action is Fill || action is Quad {
            seq![action]
        } else {
            Seq::empty()
        }) + to_paint(scene, host, t, next_event)
    };
    if action is Shape {
        let b = absorbed(scene, t, next_event);
        assert(painted(scene, host, a.memo, a.budget, i) =~= painted(
            scene,
            host,
            b.memo,
            b.budget,
            i,
        ));
    }
    assert(to_paint(scene, host, s, event) =~= rest);
}

/// A run paints what is still to be painted, and ends.
proof fn lemma_run_paints(
    scene: Scene,
    host: Host,
    s: PainterState,
    event: RainEvent,
    n: nat,
)
    requires
        under_way(scene, s),
        n >= moves_left(scene, s, event),
    ensures
        drawn(scene, host, s, event, n) == to_paint(scene, host, s, event),
        done_within(scene, host, s, event, n),
    decreases n,
{
    let (t, action) = moves(scene, s, event);
    lemma_paints_next(scene, host, s, event);
    if action !is Done {
        lemma_move(scene, s, event, outcome(host, action));
        lemma_run_paints(scene, host, t, outcome(host, action), (n - 1) as nat);
    }
}

/// The painter paints the steps of its frame, all of them and in their order: what the
/// host is told to fill and to draw, until the frame is done, is what the steps come to
/// one after the other.
pub proof fn lemma_painter_follows_steps(scene: Scene, host: Host, s: PainterState, n: nat)
    requires
        !s.waiting,
        s.next == 0,
        n >= 3 * scene.steps.len() + 2,
    ensures
        done_within(scene, host, s, RainEvent::Ready, n),
        drawn(scene, host, s, RainEvent::Ready, n) == painted(scene, host, s.memo, s.budget, 0),
{
    lemma_run_paints(scene, host, s, RainEvent::Ready, n);
}

} // verus!
