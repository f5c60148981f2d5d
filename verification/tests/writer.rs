use bits::writer::Writer;

fn text(w: &Writer) -> String {
    String::from_utf8(w.text().to_vec()).unwrap()
}

#[test]
pub fn basic_write() {
    let mut w = Writer::str();
    w.write_str("hello world!!!");
    assert_eq!("hello world!!!", text(&w));
}

#[test]
pub fn indented_write() {
    // full write
    let mut w = Writer::str();
    w.indented();
    w.write_str("Head:\nLine 1\nLine 2\n");
    assert_eq!("Head:\n    Line 1\n    Line 2\n", text(&w));

    // split write after new-line
    let mut w = Writer::str();
    w.write_str("Head(\n");
    w.indented();
    w.write_str("Line 1\nLine 2\n");
    w.dedent();
    w.write_str(")");
    assert_eq!("Head(\n    Line 1\n    Line 2\n)", text(&w));
}

#[test]
pub fn write_crlf() {
    let mut w = Writer::str();
    w.indented();
    w.write_str("Head:\r\nLine 1\r\nLine 2\r");
    assert_eq!("Head:\n    Line 1\n    Line 2\n", text(&w));

    let mut w = Writer::str();
    w.write_str("Head(\r\n");
    w.indented();
    w.write_str("Line 1\rLine 2\r\n");
    w.dedent();
    w.write_str(")");
    assert_eq!("Head(\n    Line 1\n    Line 2\n)", text(&w));
}

#[test]
fn split_writes_match_single_write() {
    let mut a = Writer::str();
    a.indented_with(b"> ");
    a.write_str("one\r");
    a.write_str("\ntwo\n");
    let mut b = Writer::str();
    b.indented_with(b"> ");
    b.write_str("one\r\ntwo\n");
    assert_eq!(text(&a), text(&b));
    assert_eq!(text(&a), "one\n> two\n");
}

#[test]
fn dedent_without_level_keeps_indent() {
    let mut w = Writer::str();
    w.dedent();
    w.write_str("a\nb");
    assert_eq!(text(&w), "a\nb");
    assert_eq!(w.write(b"\r\r"), 2);
    assert_eq!(text(&w), "a\nb\n\n");
}
