use not_br::process_text;
use not_br::OutputType;

#[test]
fn test_markdown_simple_ascii_only_0ptct() {
    let input = "Lorem ipsum dolor sit amet, consetetur sadipscing elitr.";

    let expected_html = String::from(input);
    let expected_markdown = String::from(input);

    let output_markdown = process_text(input, 1, 0, 1, OutputType::Markdown);
    let output_html = process_text(input, 1, 0, 1, OutputType::HTML);

    assert_eq!(output_markdown.unwrap(), expected_markdown);
    assert_eq!(output_html.unwrap(), expected_html);
}

#[test]
fn test_markdown_simple_ascii_only_zero_frequency() {
    let input = "Lorem ipsum dolor sit amet, consetetur sadipscing elitr.";

    let expected_html = String::from(input);
    let expected_markdown = String::from(input);

    let output_markdown = process_text(input, 0, 50, 1, OutputType::Markdown);
    let output_html = process_text(input, 0, 50, 1, OutputType::HTML);

    assert_eq!(output_markdown.unwrap(), expected_markdown);
    assert_eq!(output_html.unwrap(), expected_html);
}

#[test]
fn test_markdown_simple_ascii_only_50pct() {
    let input = "Lorem ipsum dolor sit amet, consetetur sadipscing elitr.";

    let output_markdown = process_text(input, 1, 1, 2, OutputType::Markdown);
    let output_html = process_text(input, 1, 1, 2, OutputType::HTML);

    let expected_markdown = String::from(
        "**Lor**em **ips**um **dol**or **si**t **am**et, **conse**tetur **sadip**scing **eli**tr.",
    );
    let expected_html = String::from(
        "<b>Lor</b>em <b>ips</b>um <b>dol</b>or <b>si</b>t <b>am</b>et, <b>conse</b>tetur <b>sadip</b>scing <b>eli</b>tr.",
    );

    assert_eq!(output_html.unwrap(), expected_html);
    assert_eq!(output_markdown.unwrap(), expected_markdown);
}

#[test]
fn test_markdown_simple_ascii_only_50pct_frequency_two() {
    let input = "Lorem ipsum dolor.";

    let output_markdown = process_text(input, 2, 1, 2, OutputType::Markdown);
    let output_html = process_text(input, 2, 1, 2, OutputType::HTML);

    let expected_markdown = String::from("**Lor**em ipsum **dol**or.");
    let expected_html = String::from("<b>Lor</b>em ipsum <b>dol</b>or.");

    assert_eq!(output_html.unwrap(), expected_html);
    assert_eq!(output_markdown.unwrap(), expected_markdown);
}

#[test]
fn test_markdown_simple_ascii_only_50pct_frequency_three() {
    let input = "Lorem ipsum dolor sit.";

    let output_markdown = process_text(input, 3, 1, 2, OutputType::Markdown);
    let output_html = process_text(input, 3, 1, 2, OutputType::HTML);

    let expected_markdown = String::from("**Lor**em ipsum dolor **si**t.");
    let expected_html = String::from("<b>Lor</b>em ipsum dolor <b>si</b>t.");

    assert_eq!(output_html.unwrap(), expected_html);
    assert_eq!(output_markdown.unwrap(), expected_markdown);
}

#[test]
fn test_markdown_simple_ascii_only_100pct() {
    let input = "Lorem ipsum dolor sit amet, consetetur sadipscing elitr.";

    let output_markdown = process_text(input, 1, 1, 1, OutputType::Markdown);
    let output_html = process_text(input, 1, 1, 1, OutputType::HTML);

    let expected_markdown = String::from(
        "**Lorem** **ipsum** **dolor** **sit** **amet**, **consetetur** **sadipscing** **elitr**.",
    );
    let expected_html = String::from(
        "<b>Lorem</b> <b>ipsum</b> <b>dolor</b> <b>sit</b> <b>amet</b>, <b>consetetur</b> <b>sadipscing</b> <b>elitr</b>.",
    );

    assert_eq!(output_markdown.unwrap(), expected_markdown);
    assert_eq!(output_html.unwrap(), expected_html);
}

#[test]
fn test_markdown_simple_panagram_german_0pct() {
    let input = "Büß du ja zwölf Qirsch, Kämpe!";

    let expected_html = String::from(input);
    let expected_markdown = String::from(input);

    let output_markdown = process_text(input, 1, 0, 1, OutputType::Markdown);
    let output_html = process_text(input, 1, 0, 1, OutputType::HTML);

    assert_eq!(output_markdown.unwrap(), expected_markdown);
    assert_eq!(output_html.unwrap(), expected_html);
}

#[test]
fn test_markdown_simple_panagram_german_50pct() {
    let input = "Büß du ja zwölf Qirsch, Kämpe!";

    let output_markdown = process_text(input, 1, 1, 2, OutputType::Markdown);
    let output_html = process_text(input, 1, 1, 2, OutputType::HTML);

    let expected_markdown =
        String::from("**Bü**ß **d**u **j**a **zwö**lf **Qir**sch, **Käm**pe!");
    let expected_html =
        String::from("<b>Bü</b>ß <b>d</b>u <b>j</b>a <b>zwö</b>lf <b>Qir</b>sch, <b>Käm</b>pe!");

    assert_eq!(output_html.unwrap(), expected_html);
    assert_eq!(output_markdown.unwrap(), expected_markdown);
}

#[test]
fn test_markdown_simple_panagram_german_100pct() {
    let input = "Büß du ja zwölf Qirsch, Kämpe!";

    let output_markdown = process_text(input, 1, 1, 1, OutputType::Markdown);
    let output_html = process_text(input, 1, 1, 1, OutputType::HTML);

    let expected_markdown =
        String::from("**Büß** **du** **ja** **zwölf** **Qirsch**, **Kämpe**!");
    let expected_html =
        String::from("<b>Büß</b> <b>du</b> <b>ja</b> <b>zwölf</b> <b>Qirsch</b>, <b>Kämpe</b>!");

    assert_eq!(output_markdown.unwrap(), expected_markdown);
    assert_eq!(output_html.unwrap(), expected_html);
}
