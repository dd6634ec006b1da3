//! The two sinks for styled text. The ANSI sink marks each change of style
//! with an SGR escape sequence and resets the style at the end; the plain
//! sink writes the text alone.

use vstd::prelude::*;
use crate::style::{Color, Glyph, Intensity, Span, Style, glyphs, letters, paint, plain_text};

verus! {

/// The SGR parameter that selects a foreground colour; `None` is the
/// terminal's default colour.
pub open spec fn color_code(color: Option<Color>) -> Seq<char> {
    match color {
        Some(Color::Red) => seq!['3', '1'],
        Some(Color::Green) => seq!['3', '2'],
        Some(Color::Yellow) => seq!['3', '3'],
        Some(Color::Blue) => seq!['3', '4'],
        Some(Color::Magenta) => seq!['3', '5'],
        Some(Color::Cyan) => seq!['3', '6'],
        None => seq!['3', '9'],
    }
}

/// The SGR parameter that selects an intensity.
pub open spec fn intensity_code(intensity: Option<Intensity>) -> Seq<char> {
    match intensity {
        Some(Intensity::Bold) => seq!['1'],
        Some(Intensity::Faint) => seq!['2'],
        _ => seq!['2', '2'],
    }
}

/// The escape sequence that resets every attribute.
pub open spec fn sgr_reset() -> Seq<char> {
    seq!['\x1b', '[', '0', 'm']
}

/// What the ANSI sink writes to go from the style `from` to the style `to`,
/// both resolved: a reset where `to` is the plain style, else one escape
/// sequence with a parameter for each property that differs, and nothing
/// where none does.
pub open spec fn sgr_change(from: Style, to: Style) -> Seq<char> {
    if from != to && to == Style::plain().resolved() {
        sgr_reset()
    } else if from.color != to.color && from.intensity != to.intensity {
        seq!['\x1b', '['] + color_code(to.color) + seq![';'] + intensity_code(to.intensity) + seq![
            'm',
        ]
    } else if from.color != to.color {
        seq!['\x1b', '['] + color_code(to.color) + seq!['m']
    } else if from.intensity != to.intensity {
        seq!['\x1b', '['] + intensity_code(to.intensity) + seq!['m']
    } else {
        Seq::empty()
    }
}

/// What the ANSI sink writes for `spans` when its style is `current`,
/// followed by what it writes when it is closed.
pub open spec fn ansi_from(spans: Seq<Span>, current: Style) -> Seq<char>
    decreases spans.len(),
{
    if spans.len() == 0 {
        if current != Style::plain().resolved() {
            sgr_reset()
        } else {
            Seq::empty()
        }
    } else if spans[0].text@.len() == 0 {
        ansi_from(spans.skip(1), current)
    } else {
        let style = spans[0].style.resolved();
        sgr_change(current, style) + spans[0].text@ + ansi_from(spans.skip(1), style)
    }
}

/// The text with ANSI escape codes that stands for `spans`.
pub open spec fn ansi_text(spans: Seq<Span>) -> Seq<char> {
    ansi_from(spans, Style::plain().resolved())
}

/// What the ANSI sink writes for styled characters when its style is
/// `current`, followed by what it writes when it is closed: an escape
/// sequence before each character whose style differs from that of the
/// character before it.
pub open spec fn ansi_glyphs(text: Seq<Glyph>, current: Style) -> Seq<char>
    decreases text.len(),
{
    if text.len() == 0 {
        if current != Style::plain().resolved() {
            sgr_reset()
        } else {
            Seq::empty()
        }
    } else {
        let style = text[0].1.resolved();
        sgr_change(current, style) + seq![text[0].0] + ansi_glyphs(text.skip(1), style)
    }
}

/// What the sink writes for a run of text in one style, and then for more
/// styled characters.
pub proof fn lemma_ansi_run(run: Seq<char>, style: Style, more: Seq<Glyph>, current: Style)
    requires
        run.len() > 0,
    ensures
        ansi_glyphs(paint(run, style) + more, current) == sgr_change(current, style.resolved())
            + run + ansi_glyphs(more, style.resolved()),
    decreases run.len(),
{
    let text = paint(run, style) + more;
    let to = style.resolved();
    assert(text[0] == (run[0], style));
    if run.len() == 1 {
        assert(text.skip(1) =~= more);
        assert(seq![run[0]] =~= run);
    } else {
        let shorter = run.skip(1);
        assert(text.skip(1) =~= paint(shorter, style) + more);
        lemma_ansi_run(shorter, style, more, to);
        assert(sgr_change(to, to) =~= Seq::<char>::empty());
        assert(seq![run[0]] + (sgr_change(to, to) + shorter) =~= run);
    }
}

/// What the ANSI sink writes depends on the styled characters alone, not
/// on how they are cut into spans.
pub proof fn lemma_ansi_of_glyphs(spans: Seq<Span>, current: Style)
    ensures
        ansi_from(spans, current) == ansi_glyphs(glyphs(spans), current),
    decreases spans.len(),
{
    if spans.len() == 0 {
        assert(glyphs(spans) =~= Seq::<Glyph>::empty());
    } else {
        lemma_glyphs_first(spans);
        let text = spans[0].text@;
        let rest = spans.skip(1);
        if text.len() == 0 {
            lemma_ansi_of_glyphs(rest, current);
            assert(paint(text, spans[0].style) =~= Seq::<Glyph>::empty());
            assert(glyphs(spans) =~= glyphs(rest));
        } else {
            lemma_ansi_of_glyphs(rest, spans[0].style.resolved());
            lemma_ansi_run(text, spans[0].style, glyphs(rest), current);
        }
    }
}

/// A sink of the crate `stylish` that writes ANSI escape codes into a
/// `String`.
#[verifier::external_body]
pub struct AnsiSink {
    inner: stylish::Ansi<String>,
}

/// The characters that an ANSI sink has written so far.
pub uninterp spec fn ansi_written(sink: AnsiSink) -> Seq<char>;

/// The resolved style in which an ANSI sink wrote last.
pub uninterp spec fn ansi_style(sink: AnsiSink) -> Style;

/// `stylish::Ansi::new` on an empty `String`: nothing is written yet, and
/// the sink starts in the plain style.
#[verifier::external_body]
fn ansi_new() -> (sink: AnsiSink)
    ensures
        ansi_written(sink) == Seq::<char>::empty(),
        ansi_style(sink) == Style::plain().resolved(),
{
    AnsiSink { inner: stylish::Ansi::new(String::new()) }
}

/// `stylish::Write::write_str` on the ANSI sink, with the colour and the
/// intensity as a style of `stylish`. Empty text changes nothing.
/// Otherwise the sink writes the escape sequence for the change from its
/// last style to this one, then the text, and remembers the style. The
/// sink fails only where the writer below it does, and that writer is a
/// `String`: std's documentation of `format!` says that `fmt::Write for
/// String` never returns an error. So the result is always `true`.
#[verifier::external_body]
fn ansi_write(sink: &mut AnsiSink, text: &str, color: Option<Color>, intensity: Intensity) -> (ok:
    bool)
    ensures
        ok,
        text@.len() == 0 ==> ansi_written(*final(sink)) == ansi_written(*old(sink))
            && ansi_style(*final(sink)) == ansi_style(*old(sink)),
        text@.len() > 0 ==> ansi_written(*final(sink)) == ansi_written(*old(sink)) + sgr_change(
            ansi_style(*old(sink)),
            Style { color, intensity: Some(intensity) },
        ) + text@ && ansi_style(*final(sink)) == (Style { color, intensity: Some(intensity) }),
{
    let color = stylish::Foreground(match color {
        None => stylish::Color::Default,
        Some(Color::Red) => stylish::Color::Red,
        Some(Color::Green) => stylish::Color::Green,
        Some(Color::Yellow) => stylish::Color::Yellow,
        Some(Color::Blue) => stylish::Color::Blue,
        Some(Color::Magenta) => stylish::Color::Magenta,
        Some(Color::Cyan) => stylish::Color::Cyan,
    });
    let intensity = match intensity {
        Intensity::Normal => stylish::Intensity::Normal,
        Intensity::Bold => stylish::Intensity::Bold,
        Intensity::Faint => stylish::Intensity::Faint,
    };
    stylish::Write::write_str(&mut sink.inner, text, stylish::Style::default().with(color).with(intensity)).is_ok()
}

/// `stylish::Ansi::finish`: where the last style is not the plain one, the
/// sink writes a reset; then it hands back all that was written. It fails
/// only where the writer below it does, and a `String` never does, so
/// there is always a text.
#[verifier::external_body]
fn ansi_finish(sink: AnsiSink) -> (r: Option<String>)
    ensures
        r is Some,
        r matches Some(text) ==> text@ == ansi_written(sink) + (if ansi_style(sink)
            != Style::plain().resolved() {
            sgr_reset()
        } else {
            Seq::empty()
        }),
{
    sink.inner.finish().ok()
}

/// A sink of the crate `stylish` that drops the styles.
#[verifier::external_type_specification]
#[verifier::external_body]
#[verifier::reject_recursive_types(T)]
pub struct ExPlain<T>(stylish::Plain<T>);

/// The characters that a plain sink has written so far.
pub uninterp spec fn plain_written(sink: stylish::Plain<String>) -> Seq<char>;

/// `stylish::Plain::new` on an empty `String`: nothing is written yet.
#[verifier::external_body]
fn plain_new() -> (sink: stylish::Plain<String>)
    ensures
        plain_written(sink) == Seq::<char>::empty(),
{
    stylish::Plain::new(String::new())
}

/// `stylish::Write::write_str` on the plain sink: the text is handed to
/// the writer below the sink as it is, and the style is ignored. That
/// writer is a `String`, and std's documentation of `format!` says that
/// `fmt::Write for String` never returns an error. So the result is always
/// `true`.
#[verifier::external_body]
fn plain_write(sink: &mut stylish::Plain<String>, text: &str) -> (ok: bool)
    ensures
        ok,
        plain_written(*final(sink)) == plain_written(*old(sink)) + text@,
{
    stylish::Write::write_str(sink, text, stylish::Style::default()).is_ok()
}

/// `stylish::Plain::into_inner`: all that was written.
#[verifier::external_body]
fn plain_finish(sink: stylish::Plain<String>) -> (text: String)
    ensures
        text@ == plain_written(sink),
{
    sink.into_inner()
}

/// Renders styled text with ANSI escape codes: an escape sequence before
/// each change of style, and a reset at the end where the last style is
/// not the plain one.
pub fn render_ansi(spans: &Vec<Span>) -> (text: String)
    ensures
        text@ == ansi_text(spans@),
        text@ == ansi_glyphs(glyphs(spans@), Style::plain().resolved()),
{
    proof {
        lemma_ansi_of_glyphs(spans@, Style::plain().resolved());
    }
    let mut sink = ansi_new();
    let mut i: usize = 0;
    assert(spans@.skip(0) =~= spans@);
    while i < spans.len()
        invariant
            i <= spans.len(),
            ansi_written(sink) + ansi_from(spans@.skip(i as int), ansi_style(sink)) == ansi_text(
                spans@,
            ),
        decreases spans.len() - i,
    {
        let ghost before = sink;
        let ghost rest = spans@.skip(i as int);
        let style = spans[i].style.resolve();
        ansi_write(&mut sink, spans[i].text.as_str(), style.color, style.intensity.unwrap());
        proof {
            assert(rest[0] == spans@[i as int]);
            assert(rest.skip(1) =~= spans@.skip(i + 1));
            if spans@[i as int].text@.len() > 0 {
                assert(ansi_written(sink) + ansi_from(spans@.skip(i + 1), style) =~= ansi_written(
                    before,
                ) + (sgr_change(ansi_style(before), style) + spans@[i as int].text@ + ansi_from(
                    rest.skip(1),
                    style,
                )));
            }
        }
        i += 1;
    }
    assert(spans@.skip(i as int).len() == 0);
    ansi_finish(sink).unwrap()
}

/// Renders styled text without its styles.
pub fn render_plain(spans: &Vec<Span>) -> (text: String)
    ensures
        text@ == plain_text(spans@),
{
    let mut sink = plain_new();
    let mut i: usize = 0;
    assert(plain_text(spans@.take(0)) =~= Seq::<char>::empty());
    while i < spans.len()
        invariant
            i <= spans.len(),
            plain_written(sink) == plain_text(spans@.take(i as int)),
        decreases spans.len() - i,
    {
        plain_write(&mut sink, spans[i].text.as_str());
        proof {
            let upto = spans@.take(i + 1);
            assert(upto.drop_last() =~= spans@.take(i as int));
            assert(upto.last() == spans@[i as int]);
            crate::style::lemma_letters_concat(
                glyphs(upto.drop_last()),
                paint(spans@[i as int].text@, spans@[i as int].style),
            );
            crate::style::lemma_letters_paint(spans@[i as int].text@, spans@[i as int].style);
        }
        i += 1;
    }
    assert(spans@.take(i as int) =~= spans@);
    plain_finish(sink)
}

/// Whether a character can stand among the parameters of an SGR
/// sequence: a digit or a semicolon.
pub open spec fn is_parameter(c: char) -> bool {
    ('0' <= c && c <= '9') || c == ';'
}

/// The first position from `from` on that holds no parameter character.
pub open spec fn parameters_end(text: Seq<char>, from: int) -> int
    decreases text.len() - from,
{
    if from < 0 || from >= text.len() || !is_parameter(text[from]) {
        from
    } else {
        parameters_end(text, from + 1)
    }
}

/// The length of the SGR sequence that `text` starts with: the escape
/// character, a square bracket, parameters and the letter `m`; 0 where it
/// starts with none.
pub open spec fn sgr_len(text: Seq<char>) -> nat {
    let end = parameters_end(text, 2);
    if text.len() >= 3 && text[0] == '\x1b' && text[1] == '[' && 2 <= end < text.len()
        && text[end] == 'm' {
        (end + 1) as nat
    } else {
        0
    }
}

/// The text without its SGR sequences.
pub open spec fn strip_sgr(text: Seq<char>) -> Seq<char>
    decreases text.len(),
{
    if text.len() == 0 {
        Seq::empty()
    } else if sgr_len(text) > 0 {
        strip_sgr(text.skip(sgr_len(text) as int))
    } else {
        seq![text[0]] + strip_sgr(text.skip(1))
    }
}

/// Whether no SGR sequence starts anywhere in a text.
pub open spec fn sgr_free(text: Seq<char>) -> bool {
    forall|at: int| 0 <= at < text.len() ==> sgr_len(#[trigger] text.skip(at)) == 0
}

/// The styled characters of spans are those of the first span and those
/// of the others.
pub proof fn lemma_glyphs_first(spans: Seq<Span>)
    requires
        spans.len() > 0,
    ensures
        glyphs(spans) == paint(spans[0].text@, spans[0].style) + glyphs(spans.skip(1)),
    decreases spans.len(),
{
    if spans.len() == 1 {
        assert(spans.drop_last() =~= Seq::<Span>::empty());
        assert(spans.skip(1) =~= Seq::<Span>::empty());
        assert(glyphs(spans) =~= paint(spans[0].text@, spans[0].style) + glyphs(spans.skip(1)));
    } else {
        lemma_glyphs_first(spans.drop_last());
        assert(spans.drop_last().skip(1) =~= spans.skip(1).drop_last());
        assert(spans.drop_last()[0] == spans[0]);
        assert(spans.skip(1).last() == spans.last());
        assert(glyphs(spans) =~= paint(spans[0].text@, spans[0].style) + glyphs(spans.skip(1)));
    }
}

/// The plain text of spans is the text of the first span and the plain
/// text of the others.
pub proof fn lemma_plain_first(spans: Seq<Span>)
    requires
        spans.len() > 0,
    ensures
        plain_text(spans) == spans[0].text@ + plain_text(spans.skip(1)),
{
    lemma_glyphs_first(spans);
    crate::style::lemma_letters_concat(
        paint(spans[0].text@, spans[0].style),
        glyphs(spans.skip(1)),
    );
    crate::style::lemma_letters_paint(spans[0].text@, spans[0].style);
}

/// Where the parameters end, a character that is no parameter stands, or
/// the text ends; everything before it, from `from` on, is a parameter.
pub proof fn lemma_parameters_end(text: Seq<char>, from: int)
    requires
        0 <= from <= text.len(),
    ensures
        from <= parameters_end(text, from) <= text.len(),
        parameters_end(text, from) < text.len() ==> !is_parameter(
            text[parameters_end(text, from)],
        ),
        forall|i: int| from <= i < parameters_end(text, from) ==> is_parameter(#[trigger] text[i]),
    decreases text.len() - from,
{
    if from < text.len() && is_parameter(text[from]) {
        lemma_parameters_end(text, from + 1);
    }
}

/// Parameters end at the first position that holds no parameter.
pub proof fn lemma_parameters_end_at(text: Seq<char>, from: int, end: int)
    requires
        0 <= from <= end < text.len(),
        forall|i: int| from <= i < end ==> is_parameter(#[trigger] text[i]),
        !is_parameter(text[end]),
    ensures
        parameters_end(text, from) == end,
    decreases end - from,
{
    if from < end {
        assert(is_parameter(text[from]));
        lemma_parameters_end_at(text, from + 1, end);
    }
}

/// An SGR sequence at the start of a text is one at the start of every
/// text that begins with the same characters.
pub proof fn lemma_sgr_len_prefix(one: Seq<char>, other: Seq<char>)
    requires
        sgr_len(one) > 0,
        other.len() >= sgr_len(one),
        forall|i: int| 0 <= i < sgr_len(one) ==> one[i] == other[i],
    ensures
        sgr_len(other) == sgr_len(one),
{
    lemma_parameters_end(one, 2);
    let end = parameters_end(one, 2);
    assert forall|i: int| 2 <= i < end implies is_parameter(#[trigger] other[i]) by {
        assert(is_parameter(one[i]));
    }
    lemma_parameters_end_at(other, 2, end);
}

/// No character of an SGR sequence but the first is the escape character.
pub proof fn lemma_sgr_inside(text: Seq<char>, at: int)
    requires
        sgr_len(text) > 0,
        1 <= at < sgr_len(text),
    ensures
        text[at] != '\x1b',
{
    lemma_parameters_end(text, 2);
    if 2 <= at < parameters_end(text, 2) {
        assert(is_parameter(text[at]));
    }
}

/// A text that starts with the escape character, a bracket, parameters
/// and `m` starts with an SGR sequence of their length.
pub proof fn lemma_sgr_well_formed(parameters: Seq<char>, rest: Seq<char>)
    requires
        forall|i: int| 0 <= i < parameters.len() ==> is_parameter(#[trigger] parameters[i]),
    ensures
        sgr_len(seq!['\x1b', '['] + parameters + seq!['m'] + rest) == parameters.len() + 3,
{
    let text = seq!['\x1b', '['] + parameters + seq!['m'] + rest;
    let end: int = (parameters.len() + 2) as int;
    assert forall|i: int| 2 <= i < end implies is_parameter(#[trigger] text[i]) by {
        assert(text[i] == parameters[i - 2]);
    }
    assert(text[end] == 'm');
    lemma_parameters_end_at(text, 2, end);
}

/// What the sink writes for a change of style is nothing or one SGR
/// sequence.
pub proof fn lemma_change_is_sgr(from: Style, to: Style, rest: Seq<char>)
    ensures
        sgr_change(from, to).len() == 0 || sgr_len(sgr_change(from, to) + rest) == sgr_change(
            from,
            to,
        ).len(),
{
    let change = sgr_change(from, to);
    if change.len() > 0 {
        let parameters = change.subrange(2, change.len() - 1);
        assert(change =~= seq!['\x1b', '['] + parameters + seq!['m']);
        assert forall|i: int| 0 <= i < parameters.len() implies is_parameter(
            #[trigger] parameters[i],
        ) by {
            assert(parameters[i] == change[i + 2]);
        }
        lemma_sgr_well_formed(parameters, rest);
        assert(change + rest =~= seq!['\x1b', '['] + parameters + seq!['m'] + rest);
    }
}

/// What the ANSI sink writes agrees with the plain text up to the first
/// escape character that it writes.
pub proof fn lemma_ansi_agrees(spans: Seq<Span>, current: Style, count: int)
    requires
        0 <= count <= ansi_from(spans, current).len(),
        forall|i: int| 0 <= i < count ==> ansi_from(spans, current)[i] != '\x1b',
    ensures
        count <= plain_text(spans).len(),
        forall|i: int| 0 <= i < count ==> ansi_from(spans, current)[i] == plain_text(spans)[i],
    decreases spans.len(),
{
    let ansi = ansi_from(spans, current);
    if spans.len() == 0 {
        if count > 0 {
            assert(ansi[0] == '\x1b');
        }
    } else {
        lemma_plain_first(spans);
        let text = spans[0].text@;
        let rest = spans.skip(1);
        if text.len() == 0 {
            lemma_ansi_agrees(rest, current, count);
            assert(plain_text(spans) =~= plain_text(rest));
        } else {
            let style = spans[0].style.resolved();
            let change = sgr_change(current, style);
            let tail = ansi_from(rest, style);
            assert(ansi == change + text + tail);
            if change.len() > 0 {
                if count > 0 {
                    assert(ansi[0] == change[0]);
                    assert(change[0] == '\x1b');
                }
            } else {
                assert(ansi =~= text + tail);
                if count > text.len() {
                    let more = count - text.len();
                    assert forall|i: int| 0 <= i < more implies tail[i] != '\x1b' by {
                        assert(ansi[i + text.len()] == tail[i]);
                    }
                    lemma_ansi_agrees(rest, style, more);
                    assert forall|i: int| 0 <= i < count implies ansi[i] == plain_text(spans)[i] by {
                        if i >= text.len() {
                            assert(ansi[i] == tail[i - text.len()]);
                        }
                    }
                }
            }
        }
    }
}

/// Text in which no SGR sequence starts, when what follows it is read as
/// the plain text would be, passes through the stripping unchanged.
pub proof fn lemma_strip_text(text: Seq<char>, spans: Seq<Span>, style: Style)
    requires
        forall|at: int|
            0 <= at < text.len() ==> sgr_len(#[trigger] (text + plain_text(spans)).skip(at)) == 0,
    ensures
        strip_sgr(text + ansi_from(spans, style)) == text + strip_sgr(ansi_from(spans, style)),
    decreases text.len(),
{
    let tail = ansi_from(spans, style);
    let plain = plain_text(spans);
    if text.len() == 0 {
        assert(text + tail =~= tail);
        assert(text + strip_sgr(tail) =~= strip_sgr(tail));
    } else {
        let whole = text + tail;
        let len = sgr_len(whole);
        if len > 0 {
            assert(len <= whole.len());
            let reach = if len > text.len() {
                len - text.len()
            } else {
                0
            };
            assert forall|i: int| 0 <= i < reach implies tail[i] != '\x1b' by {
                lemma_sgr_inside(whole, i + text.len());
                assert(whole[i + text.len()] == tail[i]);
            }
            lemma_ansi_agrees(spans, style, reach);
            let other = (text + plain).skip(0);
            assert(other =~= text + plain);
            assert forall|i: int| 0 <= i < len implies whole[i] == other[i] by {
                if i >= text.len() {
                    assert(whole[i] == tail[i - text.len()]);
                    assert(other[i] == plain[i - text.len()]);
                }
            }
            lemma_sgr_len_prefix(whole, other);
            assert(false);
        }
        let shorter = text.skip(1);
        assert forall|at: int| 0 <= at < shorter.len() implies sgr_len(
            #[trigger] (shorter + plain).skip(at),
        ) == 0 by {
            assert((shorter + plain).skip(at) =~= (text + plain).skip(at + 1));
        }
        lemma_strip_text(shorter, spans, style);
        assert(whole.skip(1) =~= shorter + tail);
        assert(text + strip_sgr(tail) =~= seq![text[0]] + (shorter + strip_sgr(tail)));
    }
}

/// Where the text itself holds no SGR sequence, the plain text is what
/// the ANSI sink writes, without the SGR sequences.
pub proof fn lemma_strip_ansi(spans: Seq<Span>, current: Style)
    requires
        sgr_free(plain_text(spans)),
    ensures
        strip_sgr(ansi_from(spans, current)) == plain_text(spans),
    decreases spans.len(),
{
    let ansi = ansi_from(spans, current);
    if spans.len() == 0 {
        assert(plain_text(spans) =~= Seq::<char>::empty());
        if ansi.len() > 0 {
            assert(ansi == sgr_reset());
            lemma_sgr_well_formed(seq!['0'], Seq::empty());
            assert(seq!['\x1b', '['] + seq!['0'] + seq!['m'] + Seq::<char>::empty() =~= ansi);
            assert(sgr_len(ansi) == 4);
            assert(ansi.skip(4) =~= Seq::<char>::empty());
            assert(strip_sgr(ansi.skip(4)) =~= Seq::<char>::empty());
        }
    } else {
        lemma_plain_first(spans);
        let text = spans[0].text@;
        let rest = spans.skip(1);
        let plain = plain_text(rest);
        assert forall|at: int| 0 <= at < plain.len() implies sgr_len(#[trigger] plain.skip(at))
            == 0 by {
            assert(plain.skip(at) =~= plain_text(spans).skip(at + text.len()));
        }
        if text.len() == 0 {
            lemma_strip_ansi(rest, current);
            assert(plain_text(spans) =~= plain);
        } else {
            let style = spans[0].style.resolved();
            let change = sgr_change(current, style);
            let tail = ansi_from(rest, style);
            lemma_strip_ansi(rest, style);
            lemma_strip_text(text, rest, style);
            lemma_change_is_sgr(current, style, text + tail);
            assert(ansi =~= change + (text + tail));
            if change.len() > 0 {
                assert(ansi.skip(change.len() as int) =~= text + tail);
            } else {
                assert(ansi =~= text + tail);
            }
        }
    }
}

/// The plain sink writes what the ANSI sink writes, without the SGR
/// sequences, for every styled text that holds no SGR sequence itself.
pub proof fn lemma_plain_is_stripped_ansi(spans: Seq<Span>)
    requires
        sgr_free(plain_text(spans)),
    ensures
        strip_sgr(ansi_text(spans)) == plain_text(spans),
{
    lemma_strip_ansi(spans, Style::plain().resolved());
}

/// Whether a text holds no escape character.
pub open spec fn escape_free(text: Seq<char>) -> bool {
    forall|i: int| 0 <= i < text.len() ==> #[trigger] text[i] != '\x1b'
}

/// The text without styles is the text with ANSI escape codes without its
/// SGR sequences, for styled characters none of which is the escape
/// character: styling adds, drops and moves no character.
pub proof fn lemma_plain_is_stripped(text: Seq<Glyph>, current: Style)
    requires
        escape_free(letters(text)),
    ensures
        strip_sgr(ansi_glyphs(text, current)) == letters(text),
    decreases text.len(),
{
    let ansi = ansi_glyphs(text, current);
    if text.len() == 0 {
        assert(letters(text) =~= Seq::<char>::empty());
        if ansi.len() > 0 {
            assert(ansi == sgr_reset());
            lemma_sgr_well_formed(seq!['0'], Seq::empty());
            assert(seq!['\x1b', '['] + seq!['0'] + seq!['m'] + Seq::<char>::empty() =~= ansi);
            assert(sgr_len(ansi) == 4);
            assert(ansi.skip(4) =~= Seq::<char>::empty());
            assert(strip_sgr(ansi.skip(4)) =~= Seq::<char>::empty());
        }
    } else {
        let c = text[0].0;
        let style = text[0].1.resolved();
        let change = sgr_change(current, style);
        let rest = text.skip(1);
        let tail = ansi_glyphs(rest, style);
        let body = seq![c] + tail;
        assert(letters(text)[0] == c);
        assert forall|i: int| 0 <= i < letters(rest).len() implies #[trigger] letters(rest)[i]
            != '\x1b' by {
            assert(letters(rest)[i] == letters(text)[i + 1]);
        }
        lemma_plain_is_stripped(rest, style);
        lemma_change_is_sgr(current, style, body);
        assert(ansi =~= change + body);
        assert(body[0] == c);
        assert(sgr_len(body) == 0);
        assert(body.skip(1) =~= tail);
        assert(strip_sgr(body) == seq![c] + strip_sgr(tail));
        assert(letters(text) =~= seq![c] + letters(rest));
        if change.len() > 0 {
            assert(ansi == change + body);
            assert(sgr_len(ansi) == change.len());
            assert(ansi.skip(change.len() as int) =~= body);
            assert(strip_sgr(ansi) == strip_sgr(ansi.skip(sgr_len(ansi) as int)));
        } else {
            assert(ansi =~= body);
        }
    }
}

} // verus!
