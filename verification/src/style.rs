//! Styled text: what an encoder writes, character by character, with the
//! colour and intensity of each character, and the two sinks that turn it
//! into a string: one that marks style changes with ANSI escape codes, and
//! one that drops the styles.

use vstd::prelude::*;

verus! {

/// A foreground colour.
#[derive(Clone, Copy, Debug, PartialEq, Eq, Structural)]
pub enum Color {
    Red,
    Green,
    Yellow,
    Blue,
    Magenta,
    Cyan,
}

/// How strongly text is drawn.
#[derive(Clone, Copy, Debug, PartialEq, Eq, Structural)]
pub enum Intensity {
    Normal,
    Bold,
    Faint,
}

/// The style of a piece of text. `None` leaves a property as the
/// surroundings have it.
#[derive(Clone, Copy, Debug, PartialEq, Eq)]
pub struct Style {
    pub color: Option<Color>,
    pub intensity: Option<Intensity>,
}

/// A run of text in one style.
#[derive(Clone, Debug, PartialEq, Eq)]
pub struct Span {
    pub text: String,
    pub style: Style,
}

/// One character with its style.
pub type Glyph = (char, Style);

impl Style {
    /// The style that changes nothing.
    #[verifier::allow_in_spec]
    pub fn plain() -> Style
        returns
            (Style { color: None, intensity: None }),
    {
        Style { color: None, intensity: None }
    }

    /// This style with another colour.
    #[verifier::allow_in_spec]
    pub fn with_color(self, color: Color) -> Style
        returns
            (Style { color: Some(color), intensity: self.intensity }),
    {
        Style { color: Some(color), intensity: self.intensity }
    }

    /// This style with another intensity.
    #[verifier::allow_in_spec]
    pub fn with_intensity(self, intensity: Intensity) -> Style
        returns
            (Style { color: self.color, intensity: Some(intensity) }),
    {
        Style { color: self.color, intensity: Some(intensity) }
    }

    /// Computes [`Style::resolved`].
    pub fn resolve(self) -> (r: Style)
        ensures
            r == self.resolved(),
            r.intensity is Some,
    {
        Style {
            color: self.color,
            intensity: Some(
                match self.intensity {
                    Some(intensity) => intensity,
                    None => Intensity::Normal,
                },
            ),
        }
    }

    /// This style as a sink draws it where nothing surrounds it: an
    /// intensity left open is the normal one.
    pub open spec fn resolved(self) -> Style {
        Style {
            color: self.color,
            intensity: Some(
                match self.intensity {
                    Some(intensity) => intensity,
                    None => Intensity::Normal,
                },
            ),
        }
    }
}

/// Each character of `text` in the style `style`.
pub open spec fn paint(text: Seq<char>, style: Style) -> Seq<Glyph> {
    Seq::new(text.len(), |i: int| (text[i], style))
}

/// The styled characters that a sequence of spans holds.
pub open spec fn glyphs(spans: Seq<Span>) -> Seq<Glyph>
    decreases spans.len(),
{
    if spans.len() == 0 {
        Seq::empty()
    } else {
        glyphs(spans.drop_last()) + paint(spans.last().text@, spans.last().style)
    }
}

/// The characters of a styled text, without their styles.
pub open spec fn letters(text: Seq<Glyph>) -> Seq<char> {
    Seq::new(text.len(), |i: int| text[i].0)
}

/// The text of a sequence of spans, without styles.
pub open spec fn plain_text(spans: Seq<Span>) -> Seq<char> {
    letters(glyphs(spans))
}

/// Appends a run of text in one style.
pub fn emit(out: &mut Vec<Span>, text: &str, style: Style)
    ensures
        final(out)@ == old(out)@.push(Span { text: final(out)@.last().text, style }),
        final(out)@.last().text@ == text@,
        glyphs(final(out)@) == glyphs(old(out)@) + paint(text@, style),
{
    let span = Span { text: text.to_owned(), style };
    out.push(span);
    assert(out@.drop_last() == old(out)@);
}

/// Appends a run of text in one style, taking the text over.
pub fn emit_string(out: &mut Vec<Span>, text: String, style: Style)
    ensures
        final(out)@ == old(out)@.push(Span { text, style }),
        glyphs(final(out)@) == glyphs(old(out)@) + paint(text@, style),
{
    out.push(Span { text, style });
    assert(out@.drop_last() == old(out)@);
}

/// Painting distributes over concatenation.
pub proof fn lemma_paint_concat(a: Seq<char>, b: Seq<char>, style: Style)
    ensures
        paint(a + b, style) == paint(a, style) + paint(b, style),
{
    assert(paint(a + b, style) =~= paint(a, style) + paint(b, style));
}

/// The characters of a concatenation are those of its parts.
pub proof fn lemma_letters_concat(a: Seq<Glyph>, b: Seq<Glyph>)
    ensures
        letters(a + b) == letters(a) + letters(b),
{
    assert(letters(a + b) =~= letters(a) + letters(b));
}

/// The characters of painted text are the text.
pub proof fn lemma_letters_paint(text: Seq<char>, style: Style)
    ensures
        letters(paint(text, style)) == text,
{
    assert(letters(paint(text, style)) =~= text);
}

} // verus!


