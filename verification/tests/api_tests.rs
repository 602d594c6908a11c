use not_br::process;
use not_br::process_text;
use not_br::NotBrError;
use not_br::OutputType;

#[test]
fn test_invalid_percentage_above_one() {
    let r = process_text("Lorem ipsum", 1, 3, 2, OutputType::Markdown);
    assert_eq!(r, Err(NotBrError::InvalidPercentage));
}

#[test]
fn test_invalid_percentage_negative() {
    let r = process_text("Lorem ipsum", 2, -1, 2, OutputType::HTML);
    assert_eq!(r, Err(NotBrError::InvalidPercentage));
}

#[test]
fn test_invalid_percentage_zero_denominator() {
    let r = process_text("Lorem ipsum", 1, 0, 0, OutputType::Markdown);
    assert_eq!(r, Err(NotBrError::InvalidPercentage));
}

#[test]
fn test_zero_frequency_skips_validation() {
    let r = process_text("Lorem ipsum", 0, 7, 2, OutputType::Markdown);
    assert_eq!(r.unwrap(), String::from("Lorem ipsum"));
}

#[test]
fn test_empty_input() {
    let r = process_text("", 1, 1, 2, OutputType::Markdown);
    assert_eq!(r.unwrap(), String::from(""));
}

#[test]
fn test_punctuation_only_input() {
    let r = process_text("... --- !!!", 1, 1, 1, OutputType::HTML);
    assert_eq!(r.unwrap(), String::from("... --- !!!"));
}

#[test]
fn test_one_third_fraction_rounds_up() {
    let r = process_text("Lorem", 1, 1, 3, OutputType::Markdown);
    assert_eq!(r.unwrap(), String::from("**Lo**rem"));
}

#[test]
fn test_combining_mark_stays_with_base() {
    // An 'a' followed by a combining ring above forms one grapheme cluster:
    // a 50% bolding of a four-letter word must keep the pair together.
    let r = process_text("a\u{30a}bcd", 1, 1, 2, OutputType::Markdown);
    assert_eq!(r.unwrap(), String::from("**a\u{30a}b**cd"));
}

#[test]
fn test_process_matches_process_text() {
    let input = "Lorem ipsum dolor sit amet, consetetur sadipscing elitr.";
    let a = process(input, 2, 1, 2, OutputType::HTML);
    let b = process_text(input, 2, 1, 2, OutputType::HTML);
    assert_eq!(a, b);
}

#[test]
fn test_from_str_aliases() {
    assert_eq!(OutputType::from_str("html"), Ok(OutputType::HTML));
    assert_eq!(OutputType::from_str("HTML"), Ok(OutputType::HTML));
    assert_eq!(OutputType::from_str("HtMl"), Ok(OutputType::HTML));
    assert_eq!(OutputType::from_str("markdown"), Ok(OutputType::Markdown));
    assert_eq!(OutputType::from_str("Markdown"), Ok(OutputType::Markdown));
    assert_eq!(OutputType::from_str("md"), Ok(OutputType::Markdown));
    assert_eq!(OutputType::from_str("MD"), Ok(OutputType::Markdown));
}

#[test]
fn test_from_str_unrecognized() {
    assert_eq!(
        OutputType::from_str("latex"),
        Err(NotBrError::UnrecognizedOutputKind)
    );
    assert_eq!(
        OutputType::from_str(""),
        Err(NotBrError::UnrecognizedOutputKind)
    );
}

#[test]
fn test_marker_strip_round_trip_markdown() {
    let input = "Lorem ipsum dolor sit amet, consetetur sadipscing elitr.";
    let out = process_text(input, 2, 1, 3, OutputType::Markdown).unwrap();
    assert_eq!(out.replace("**", ""), input);
}

#[test]
fn test_marker_strip_round_trip_html() {
    let input = "Büß du ja zwölf Qirsch, Kämpe!";
    let out = process_text(input, 1, 1, 2, OutputType::HTML).unwrap();
    assert_eq!(out.replace("<b>", "").replace("</b>", ""), input);
}

#[test]
fn test_marker_strip_round_trip_html_with_angle_brackets() {
    let input = "tip < top > mid";
    let out = process_text(input, 1, 1, 1, OutputType::HTML).unwrap();
    assert_eq!(out, "<b>tip</b> < <b>top</b> > <b>mid</b>");
    assert_eq!(out.replace("<b>", "").replace("</b>", ""), input);
}

#[test]
fn test_process_bytes_valid() {
    let input = "Lorem ipsum dolor.";
    let r = not_br::process_bytes(input.as_bytes(), 2, 1, 2, OutputType::Markdown);
    assert_eq!(r.unwrap(), String::from("**Lor**em ipsum **dol**or."));
}

#[test]
fn test_process_bytes_invalid_encoding() {
    let bytes: Vec<u8> = vec![0x4c, 0x6f, 0xff, 0x72];
    let r = not_br::process_bytes(&bytes, 1, 1, 2, OutputType::Markdown);
    assert_eq!(r, Err(NotBrError::InvalidEncoding));
}

#[test]
fn test_markers() {
    assert_eq!(OutputType::HTML.get_open(), "<b>");
    assert_eq!(OutputType::HTML.get_closing(), "</b>");
    assert_eq!(OutputType::Markdown.get_open(), "**");
    assert_eq!(OutputType::Markdown.get_closing(), "**");
}
