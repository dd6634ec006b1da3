use cbor_diag::sink::{render_ansi, render_plain};
use cbor_diag::style::{Color, Intensity, Span, Style};

fn span(text: &str, color: Option<Color>, intensity: Option<Intensity>) -> Span {
    Span { text: text.to_string(), style: Style { color, intensity } }
}

#[test]
fn ansi_marks_each_change_of_style() {
    let spans = vec![
        span("Hello ", None, None),
        span("Ferris", Some(Color::Red), None),
    ];
    assert_eq!(render_ansi(&spans), "Hello \x1b[31mFerris\x1b[0m");
    assert_eq!(render_plain(&spans), "Hello Ferris");
}

#[test]
fn ansi_joins_parameters_and_resets() {
    let spans = vec![
        span("a", Some(Color::Yellow), Some(Intensity::Faint)),
        span("b", Some(Color::Yellow), None),
        span("", Some(Color::Red), None),
        span("c", None, None),
        span("d", None, Some(Intensity::Bold)),
    ];
    assert_eq!(
        render_ansi(&spans),
        "\x1b[33;2ma\x1b[22mb\x1b[0mc\x1b[1md\x1b[0m"
    );
    assert_eq!(render_plain(&spans), "abcd");
}

#[test]
fn nothing_to_write_gives_nothing() {
    assert_eq!(render_ansi(&vec![]), "");
    assert_eq!(render_plain(&vec![]), "");
    let empty = vec![span("", Some(Color::Red), Some(Intensity::Bold)), span("", None, None)];
    assert_eq!(render_ansi(&empty), "");
    assert_eq!(render_plain(&empty), "");
}
