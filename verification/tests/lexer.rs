use bits::lexer::{is_space, DefaultGrammar, Grammar, Lexer, SymbolTable, Token};
use bits::source::{Cursor, SourceMap, Span};
use bits::symbol::Symbol;

fn tokenize_str(sources: &SourceMap, span: Span) -> Vec<(Token, String)> {
    let mut lexer = Lexer::new(DefaultGrammar);
    lexer.add_symbols(&["+", "++", "-", "--", "<", "<<", "<<<", "=", "==", ",", "."]);

    let mut cursor = Cursor::new(sources, span.src());
    let out = lexer.tokenize(&mut cursor);
    assert!(cursor.len() == 0, "failed to parse: {:?}", cursor.text());
    out.into_iter()
        .map(|(token, span)| (token, String::from_utf8(span.text(sources).to_vec()).unwrap()))
        .collect()
}

fn tokenize(sources: &SourceMap, span: Span) -> Vec<Token> {
    tokenize_str(sources, span).into_iter().map(|x| x.0).collect()
}

fn expect(items: Vec<(Token, &str)>) -> Vec<(Token, String)> {
    items.into_iter().map(|(t, s)| (t, s.to_string())).collect()
}

#[test]
fn empty() {
    let mut sources = SourceMap::new(b".");
    let input = sources.from_string("test", "").span();
    let result = tokenize(&sources, input);
    assert_eq!(result, []);

    let input = sources.from_string("test", "\t\t  ").span();
    let result = tokenize(&sources, input);
    assert_eq!(result, []);
}

#[test]
fn line_break() {
    let mut sources = SourceMap::new(b".");
    let input = sources.from_string("test", "\n\r\r\n\n").span();
    let result = tokenize(&sources, input);
    assert_eq!(result, [Token::Break, Token::Break, Token::Break, Token::Break]);
}

#[test]
fn symbols() {
    let mut sources = SourceMap::new(b".");
    let input = sources.from_string("test", "+++-+\n<<<<< <\n,,\n").span();
    let result = tokenize(&sources, input);

    let inc = Symbol::str("++");
    let add = Symbol::str("+");
    let sub = Symbol::str("-");
    let sl3 = Symbol::str("<<<");
    let sl2 = Symbol::str("<<");
    let sl1 = Symbol::str("<");
    let comma = Symbol::str(",");

    assert_eq!(
        result,
        [
            Token::Symbol(inc),
            Token::Symbol(add.clone()),
            Token::Symbol(sub),
            Token::Symbol(add),
            Token::Break,
            Token::Symbol(sl3),
            Token::Symbol(sl2),
            Token::Symbol(sl1),
            Token::Break,
            Token::Symbol(comma.clone()),
            Token::Symbol(comma),
            Token::Break,
        ]
    )
}

#[test]
fn words() {
    let mut sources = SourceMap::new(b".");
    let input = sources.from_string("test", "a ab abc a1 a2 _ __ _a _0 abc_123");
    let result = tokenize(&sources, input.span());

    let words = ["a", "ab", "abc", "a1", "a2", "_", "__", "_a", "_0", "abc_123"];
    let expected: Vec<Token> = words.iter().map(|w| Token::Word(Symbol::str(w))).collect();
    assert_eq!(result, expected)
}

#[test]
fn numbers() {
    let mut sources = SourceMap::new(b".");
    let text = [
        "0 123",
        "1.2 3.45 10e1 10E20",
        "1e+23 1E-23 1.45e2 1.23E-45",
        "1_000_000_.56_78_e+1_2_3_",
        "1abc 1.0abc 1e1abc 1.0e+1abc 1eee",
        "1.abc",
    ]
    .join("\n");
    let input = sources.from_string("test", &text);
    let result = tokenize_str(&sources, input.span());

    let dot = Symbol::str(".");
    let abc = Symbol::str("abc");

    assert_eq!(
        result,
        expect(vec![
            (Token::Integer, "0"),
            (Token::Integer, "123"),
            (Token::Break, "\n"),
            (Token::Float, "1.2"),
            (Token::Float, "3.45"),
            (Token::Float, "10e1"),
            (Token::Float, "10E20"),
            (Token::Break, "\n"),
            (Token::Float, "1e+23"),
            (Token::Float, "1E-23"),
            (Token::Float, "1.45e2"),
            (Token::Float, "1.23E-45"),
            (Token::Break, "\n"),
            (Token::Float, "1_000_000_.56_78_e+1_2_3_"),
            (Token::Break, "\n"),
            (Token::Integer, "1abc"),
            (Token::Float, "1.0abc"),
            (Token::Float, "1e1abc"),
            (Token::Float, "1.0e+1abc"),
            (Token::Integer, "1eee"),
            (Token::Break, "\n"),
            (Token::Integer, "1"),
            (Token::Symbol(dot), "."),
            (Token::Word(abc), "abc"),
        ])
    )
}

#[test]
fn comments() {
    let mut sources = SourceMap::new(b".");
    let text = ["# simple comment", "1# C1\r2# C2", "3# C3\r\n4# C4", "#"].join("\n");
    let input = sources.from_string("test", &text);
    let result = tokenize_str(&sources, input.span());

    assert_eq!(
        result,
        expect(vec![
            (Token::Comment, "# simple comment"),
            (Token::Break, "\n"),
            (Token::Integer, "1"),
            (Token::Comment, "# C1"),
            (Token::Break, "\r"),
            (Token::Integer, "2"),
            (Token::Comment, "# C2"),
            (Token::Break, "\n"),
            (Token::Integer, "3"),
            (Token::Comment, "# C3"),
            (Token::Break, "\r\n"),
            (Token::Integer, "4"),
            (Token::Comment, "# C4"),
            (Token::Break, "\n"),
            (Token::Comment, "#"),
        ])
    )
}

#[test]
fn strings() {
    let mut sources = SourceMap::new(b".");
    let text = [
        r#"'' 'hello world'"#,
        r#"'a''b''c'"#,
        r#"'abc\'def'"#,
        r#"'\\\''"#,
        r#""" "hello world""#,
        r#""a""b""c""#,
        r#""abc\"def""#,
        r#""\\\"""#,
    ]
    .join("\n");
    let input = sources.from_string("test", &text);

    let result = tokenize_str(&sources, input.span());
    assert_eq!(
        result,
        expect(vec![
            (Token::Literal, r#"''"#),
            (Token::Literal, r#"'hello world'"#),
            (Token::Break, "\n"),
            (Token::Literal, r#"'a'"#),
            (Token::Literal, r#"'b'"#),
            (Token::Literal, r#"'c'"#),
            (Token::Break, "\n"),
            (Token::Literal, r#"'abc\'def'"#),
            (Token::Break, "\n"),
            (Token::Literal, r#"'\\\''"#),
            (Token::Break, "\n"),
            (Token::Literal, r#""""#),
            (Token::Literal, r#""hello world""#),
            (Token::Break, "\n"),
            (Token::Literal, r#""a""#),
            (Token::Literal, r#""b""#),
            (Token::Literal, r#""c""#),
            (Token::Break, "\n"),
            (Token::Literal, r#""abc\"def""#),
            (Token::Break, "\n"),
            (Token::Literal, r#""\\\"""#),
        ])
    )
}

#[test]
fn unicode_spaces_are_skipped() {
    let mut sources = SourceMap::new(b".");
    let input = sources.from_string("test", "a\u{00A0}b\u{2003}\u{3000}c");
    let result = tokenize(&sources, input.span());
    assert_eq!(result, [Token::Word(Symbol::str("a")), Token::Word(Symbol::str("b")), Token::Word(Symbol::str("c"))]);
}

#[test]
fn stops_at_unknown_byte() {
    let mut sources = SourceMap::new(b".");
    let input = sources.from_string("test", "a $ b");
    let mut lexer = Lexer::new(DefaultGrammar);
    let mut cursor = Cursor::new(&sources, input);
    let result = lexer.tokenize(&mut cursor);
    assert_eq!(result.len(), 1);
    assert_eq!(cursor.pos(), 2);
}

#[test]
fn tabs_separate_tokens() {
    let mut sources = SourceMap::new(b".");
    let input = sources.from_string("test", "a\tb \t+\t\n");
    let result = tokenize_str(&sources, input.span());
    assert_eq!(
        result,
        expect(vec![
            (Token::Word(Symbol::str("a")), "a"),
            (Token::Word(Symbol::str("b")), "b"),
            (Token::Symbol(Symbol::str("+")), "+"),
            (Token::Break, "\n"),
        ])
    );
}

#[test]
fn symbol_table_reads_longest_prefix() {
    use_symbol_table();
}

fn use_symbol_table() {
    let mut table = SymbolTable::new();
    table.add_symbol(b"<");
    table.add_symbol(b"<<");
    table.add_symbol(b"<<<");
    table.add_symbol(b"=");
    assert_eq!(table.read(b"<<x"), Some(2));
    assert_eq!(table.read(b"<<<<"), Some(3));
    assert_eq!(table.read(b"=<"), Some(1));
    assert_eq!(table.read(b"x<"), None);
    assert_eq!(table.read(b""), None);
}

#[test]
fn space_characters() {
    for c in [' ', '\u{00A0}', '\u{1680}', '\u{2000}', '\u{200A}', '\u{202F}', '\u{205F}', '\u{3000}'] {
        assert!(is_space(c));
        assert!(<DefaultGrammar as Grammar>::is_space(c));
    }
    for c in ['\t', '\n', '\r', 'a', '\u{200B}', '\u{1FFF}'] {
        assert!(!is_space(c));
    }
    assert!(<DefaultGrammar as Grammar>::is_space('\t'));
    assert!(!<DefaultGrammar as Grammar>::is_space('\n'));
}
