use bits::source::{Cursor, RangeBound, SourceMap, Span};

#[test]
fn spans_merge_and_cover() {
    let mut sources = SourceMap::new(b".");
    let src = sources.from_string("test", "let x = 1 + 2");
    let a = Span::new(src, 0, 3, 0);
    let b = Span::new(src, 8, 13, 2);
    let m = Span::merge(a, b);
    assert_eq!(m.pos(), 0);
    assert_eq!(m.end(), 13);
    assert_eq!(m.indent(), 0);
    assert_eq!(m, Span::merge(b, a));
    assert_eq!(m, a.merged(b));
    assert_eq!(Span::merge(a, Span::empty()), a);
    assert_eq!(Span::merge(Span::empty(), b), b);
    assert_eq!(Span::range(&[a, Span::new(src, 4, 5, 0), b]), m);
    assert!(Span::range(&[]).is_empty());
    assert_eq!(b.text(&sources), b"1 + 2");
}

#[test]
fn source_ranges() {
    let mut sources = SourceMap::new(b".");
    let src = sources.from_string("name", "abcdef");
    assert_eq!(src.len(), 6);
    assert_eq!(src.name(&sources), b"name");
    assert_eq!(src.text(&sources), b"abcdef");
    assert_eq!(src.path(&sources), None);
    let r = src.range(RangeBound::Included(1), RangeBound::Excluded(4));
    assert_eq!(r.text(&sources), b"bcd");
    let r = src.range(RangeBound::Excluded(1), RangeBound::Included(4));
    assert_eq!(r.text(&sources), b"cde");
    let r = src.range(RangeBound::Unbounded, RangeBound::Unbounded);
    assert_eq!(r.text(&sources), b"abcdef");
}

#[test]
fn files_are_found_by_path() {
    let mut sources = SourceMap::new(b"/base");
    assert_eq!(sources.base_dir(), b"/base");
    let previous = sources.set_base_dir(b"/other");
    assert_eq!(previous, b"/base".to_vec());
    let f = sources.add_file(b"a.txt", b"text", b"/other/a.txt");
    assert_eq!(sources.find_path(b"/other/a.txt"), Some(f));
    assert_eq!(sources.find_path(b"/other/b.txt"), None);
    assert_eq!(f.path(&sources), Some(&b"/other/a.txt"[..]));
}

#[test]
fn cursor_moves_over_text() {
    let mut sources = SourceMap::new(b".");
    let src = sources.from_string("t", "hello");
    let mut cursor = Cursor::new(&sources, src);
    assert_eq!(cursor.len(), 5);
    cursor.skip_len(2);
    assert_eq!(cursor.pos(), 2);
    let span = cursor.span_with_len(3);
    assert_eq!(span.text(&sources), b"llo");
}
