//! Glyphs: the fonts they come from, the memo of shaped text, and the palette of
//! the falling stream.

use vstd::hash_map::StringHashMap;
use vstd::prelude::*;
use vstd::string::*;

verus! {

/// A shaped glyph.
#[derive(Clone, Copy, PartialEq, Eq, Structural, Debug)]
pub struct GlyphInfo {
    /// Which of the host's shaped glyphs this is.
    pub id: usize,
    /// The glyph's place in its font; the font's `.notdef` glyph is at zero.
    pub glyph_pos: u32,
    pub is_space: bool,
}

/// A font, by its family.
#[derive(Clone, Debug)]
pub struct FontAttributes {
    pub family: String,
}

/// The fonts that a text is set in, and its colour where the style gives one.
#[derive(Clone, Debug)]
pub struct TextStyle {
    pub font: Vec<FontAttributes>,
    pub foreground: Option<u32>,
}

/// Font family used for the falling stream glyphs. Its glyphs (the film's
/// mirrored katakana) are mapped onto ASCII, so we feed it ASCII below. Falls
/// back to the user's font if it isn't installed.
pub fn matrix_font_family() -> (family: &'static str)
    ensures
        family@ == "Matrix Code NFI"@,
{
    "Matrix Code NFI"
}

/// The text that the palette of the falling stream is shaped from.
pub fn matrix_palette_text() -> (text: &'static str)
    ensures
        text@ == "ABCDEFGHIJKLMNOPQRSTUVWXYZabcdefghijklmnopqrstuvwxyz0123456789"@,
{
    "ABCDEFGHIJKLMNOPQRSTUVWXYZabcdefghijklmnopqrstuvwxyz0123456789"
}

/// Text style selecting the matrix stream font.
pub fn matrix_text_style() -> (style: TextStyle)
    ensures
        style.font@.len() == 1,
        style.font@[0].family@ == "Matrix Code NFI"@,
        style.foreground is None,
{
    let mut font: Vec<FontAttributes> = Vec::new();
    font.push(FontAttributes { family: matrix_font_family().to_owned() });
    TextStyle { font, foreground: None }
}

/// Which font to draw the stream in.
#[derive(Clone, Copy, Debug)]
pub enum FontChoice<F> {
    /// This one.
    Resolved(F),
    /// The user's font.
    Default,
}

/// The font that was looked up, if it was found.
pub open spec fn font_choice<F, E>(resolved: Result<F, E>) -> FontChoice<F> {
    match resolved {
        Ok(font) => FontChoice::Resolved(font),
        Err(_) => FontChoice::Default,
    }
}

/// A font that was found is the one to draw in, whichever it is; the user's font is drawn in
/// only where none was.
pub proof fn lemma_font_choice<F, E>(resolved: Result<F, E>)
    ensures
        resolved is Ok ==> font_choice(resolved) == FontChoice::Resolved(resolved->Ok_0),
        resolved is Err ==> font_choice(resolved) is Default,
{
}

/// Resolve the matrix stream font, falling back to the user's font if the Matrix
/// Code NFI family isn't installed: `resolved` is what looking it up gave.
pub fn matrix_font<F, E>(resolved: Result<F, E>) -> (choice: FontChoice<F>)
    ensures
        choice == (match resolved {
            Ok(font) => FontChoice::Resolved(font),
            Err(_) => FontChoice::Default,
        }),
        choice == font_choice(resolved),
{
    match resolved {
        Ok(font) => FontChoice::Resolved(font),
        Err(_) => FontChoice::Default,
    }
}

/// The way that a text runs.
#[derive(Clone, Copy, PartialEq, Eq, Structural, Debug)]
pub enum Direction {
    LeftToRight,
    RightToLeft,
}

/// How a text is to look: as plain text or as a picture.
#[derive(Clone, Copy, PartialEq, Eq, Structural, Debug)]
pub enum Presentation {
    Text,
    Emoji,
}

/// How a text is shaped.
#[derive(Clone, Copy, PartialEq, Eq, Structural, Debug)]
pub struct ShapeOptions {
    /// What the terminal draws itself is not asked of the fonts.
    pub filter_out_synthetic: bool,
    /// The presentation to choose a font by, if there is one.
    pub presentation: Option<Presentation>,
    pub direction: Direction,
    /// The part of the text to shape, from its first byte to the one past its last; none
    /// stands for all of it.
    pub range_start: Option<usize>,
    pub range_end: Option<usize>,
    /// The width that the presentation is to have, if it is to have one.
    pub presentation_width: Option<usize>,
}

/// How graphemes and the palette are shaped: all of the text, from left to right, without
/// what the terminal draws itself.
pub fn shape_options() -> (options: ShapeOptions)
    ensures
        options == (ShapeOptions {
            filter_out_synthetic: true,
            presentation: None,
            direction: Direction::LeftToRight,
            range_start: None,
            range_end: None,
            presentation_width: None,
        }),
{
    ShapeOptions {
        filter_out_synthetic: true,
        presentation: None,
        direction: Direction::LeftToRight,
        range_start: None,
        range_end: None,
        presentation_width: None,
    }
}

/// The first of the glyphs, if there is one.
pub open spec fn leading_glyph(infos: Seq<GlyphInfo>) -> Option<GlyphInfo> {
    if infos.len() > 0 {
        Some(infos[0])
    } else {
        None
    }
}

/// However many glyphs a grapheme was shaped to, the first of them leads it, whatever it
/// is; only without any there is none.
pub proof fn lemma_leading_glyph(first: GlyphInfo, rest: Seq<GlyphInfo>)
    ensures
        leading_glyph(seq![first] + rest) == Some(first),
        leading_glyph(Seq::empty()) is None,
{
}

/// The leading glyph of a single shaped grapheme, or `None` if it has no
/// drawable glyph: no font, no shaping, or no glyph in it.
pub fn shape_grapheme<E>(shaped: Result<Vec<GlyphInfo>, E>) -> (glyph: Option<GlyphInfo>)
    ensures
        glyph == (match shaped {
            Ok(infos) => if infos@.len() > 0 {
                Some(infos@[0])
            } else {
                None
            },
            Err(_) => None,
        }),
        glyph == (match shaped {
            Ok(infos) => leading_glyph(infos@),
            Err(_) => None,
        }),
{
    match shaped {
        Ok(infos) => {
            if infos.len() > 0 {
                Some(infos[0])
            } else {
                None
            }
        },
        Err(_) => None,
    }
}

/// The glyph can be drawn in the falling stream.
pub open spec fn drawable(info: GlyphInfo) -> bool {
    info.glyph_pos != 0 && !info.is_space
}

/// A glyph can be drawn in the stream unless the font does not have it, or it is a space.
pub proof fn lemma_drawable(info: GlyphInfo)
    ensures
        drawable(info) == !(info.glyph_pos == 0 || info.is_space),
{
}

/// The glyph palette for the falling stream, of the glyphs that its text was
/// shaped to in the matrix font. `.notdef` glyphs are dropped so a missing font
/// degrades to plain characters rather than tofu boxes.
pub fn shape_matrix_palette<E>(shaped: Result<Vec<GlyphInfo>, E>) -> (palette: Result<
    Vec<GlyphInfo>,
    E,
>)
    ensures
        match shaped {
            Ok(infos) => palette matches Ok(p) && p@ == infos@.filter(
                |info: GlyphInfo| drawable(info),
            ),
            Err(e) => palette == Result::<Vec<GlyphInfo>, E>::Err(e),
        },
        shaped is Ok ==> palette->Ok_0@ == shaped->Ok_0@.filter(
            |info: GlyphInfo| info.glyph_pos != 0 && !info.is_space,
        ),
{
    let infos = match shaped {
        Ok(infos) => infos,
        Err(e) => return Err(e),
    };
    let ghost keep = |info: GlyphInfo| drawable(info);
    let mut palette: Vec<GlyphInfo> = Vec::new();
    let mut i: usize = 0;
    while i < infos.len()
        invariant
            i <= infos@.len(),
            keep == (|info: GlyphInfo| drawable(info)),
            palette@ == infos@.take(i as int).filter(keep),
        decreases infos@.len() - i,
    {
        let info = infos[i];
        proof {
            reveal(Seq::filter);
            assert(infos@.take(i + 1).drop_last() =~= infos@.take(i as int));
        }
        if info.glyph_pos != 0 && !info.is_space {
            palette.push(info);
        }
        i = i + 1;
    }
    assert(infos@.take(i as int) =~= infos@);
    proof {
        let plain = |info: GlyphInfo| info.glyph_pos != 0 && !info.is_space;
        assert(keep =~= plain);
    }
    Ok(palette)
}

/// What there is to do about drawing a grapheme.
#[derive(Clone, Copy, PartialEq, Eq, Structural, Debug)]
pub enum GlyphLookup {
    /// Draw nothing.
    Skip,
    /// Shape it, hand the outcome to the memo and look again.
    Shape,
    /// Draw this glyph.
    Draw(GlyphInfo),
}

/// The grapheme leaves its cell empty.
pub open spec fn is_blank(text: Seq<char>) -> bool {
    text.len() == 0 || text == seq![' ']
}

/// What there is to do about a grapheme, with this memo and this many shapings
/// left in the frame.
pub open spec fn lookup(
    memo: Map<Seq<char>, Option<GlyphInfo>>,
    text: Seq<char>,
    budget: int,
) -> GlyphLookup {
    if is_blank(text) {
        GlyphLookup::Skip
    } else if memo.contains_key(text) {
        match memo[text] {
            Some(info) => GlyphLookup::Draw(info),
            None => GlyphLookup::Skip,
        }
    } else if budget <= 0 {
        GlyphLookup::Skip
    } else {
        GlyphLookup::Shape
    }
}

/// Only an empty text and a single space are passed over as blank. Any other text is drawn
/// with the glyph that the memo has for it, passed over if that is none, and shaped if the
/// memo does not have it and a shaping is left.
pub proof fn lemma_lookup(
    memo: Map<Seq<char>, Option<GlyphInfo>>,
    text: Seq<char>,
    budget: int,
)
    ensures
        text.len() == 0 || (text.len() == 1 && text[0] == ' ') ==> lookup(memo, text, budget)
            == GlyphLookup::Skip,
        text.len() > 1 || (text.len() == 1 && text[0] != ' ') ==> {
            &&& memo.contains_key(text) && memo[text] is Some ==> lookup(memo, text, budget)
                == GlyphLookup::Draw(memo[text]->0)
            &&& memo.contains_key(text) && memo[text] is None ==> lookup(memo, text, budget)
                == GlyphLookup::Skip
            &&& !memo.contains_key(text) ==> (lookup(memo, text, budget) == if budget > 0 {
                GlyphLookup::Shape
            } else {
                GlyphLookup::Skip
            })
        },
{
    if text.len() == 1 && text[0] == ' ' {
        assert(text =~= seq![' ']);
    }
}

/// Look up a real grapheme's glyph from the per-animation memo, to be shaped on
/// first sight (subject to a per-frame budget). Nothing is drawn for blanks,
/// undrawable glyphs, or when the budget is spent this frame.
pub fn memo_glyph(memo: &StringHashMap<Option<GlyphInfo>>, s: &str, budget: i32) -> (r: GlyphLookup)
    ensures
        r == lookup(memo@, s@, budget as int),
        s@.len() > 1 || (s@.len() == 1 && s@[0] != ' ') ==> (match r {
            GlyphLookup::Draw(info) => memo@.contains_key(s@) && memo@[s@] == Some(info),
            GlyphLookup::Shape => !memo@.contains_key(s@) && budget > 0,
            GlyphLookup::Skip => if memo@.contains_key(s@) {
                memo@[s@] is None
            } else {
                budget <= 0
            },
        }),
        s@.len() == 0 || (s@.len() == 1 && s@[0] == ' ') ==> r == GlyphLookup::Skip,
{
    let chars = s.unicode_len();
    if chars == 0 {
        return GlyphLookup::Skip;
    }
    if chars == 1 {
        if s.get_char(0) == ' ' {
            assert(s@ =~= seq![' ']);
            return GlyphLookup::Skip;
        }
    }
    match memo.get(s) {
        Some(shaped) => match shaped {
            Some(info) => GlyphLookup::Draw(*info),
            None => GlyphLookup::Skip,
        },
        None => if budget <= 0 {
            GlyphLookup::Skip
        } else {
            GlyphLookup::Shape
        },
    }
}

} // verus!
