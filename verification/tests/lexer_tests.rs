use std::cmp::Ordering;
use m6parserkit::lexer::interner::{str2sym, sym2str, Interner};
use m6parserkit::lexer::pattern::{CharMatcher, RegexCharMatcher, SimpleCharMatcher, TokenMatcher};
use m6parserkit::lexer::prelude::{prelude_matchers, aqstr_m, aux_strlike_m, dqstr_m, heredoc_m, lit_regex_m, sqstr_m, trim, try_heredoc_m, StdMatcher};
use m6parserkit::lexer::srcfile::{Span, SrcFileInfo, SrcLoc};
use m6parserkit::lexer::token::Token;
use m6parserkit::lexer::tokenize::{tokenize, FnMatcher, TokenizeErrorReason};

#[test]
fn test_error_info() {
    println!("aaaa\n^^^^^")
}

fn names_and_values(interner: &Interner, toks: &[Token]) -> Vec<(String, String)> {
    toks.iter().map(|t| (t.name_string(interner), t.value_string(interner))).collect()
}

#[test]
fn srcloc_of_char_offsets() {
    let info = SrcFileInfo::from_str("ab\ncd\n".to_string());
    assert_eq!(info.get_srcstr(), "ab\ncd\n");
    assert_eq!(info.get_path(), "");
    assert_eq!(info.offset2srcloc(0), SrcLoc { ln: 1, col: 1 });
    assert_eq!(info.offset2srcloc(1), SrcLoc { ln: 1, col: 2 });
    assert_eq!(info.offset2srcloc(3), SrcLoc { ln: 2, col: 1 });
    assert_eq!(info.offset2srcloc(4), SrcLoc { ln: 2, col: 2 });
    assert_eq!(info.offset2srcloc(6), SrcLoc { ln: 3, col: 1 });
}

#[test]
fn srcloc_of_byte_offsets_counts_characters() {
    let info = SrcFileInfo::from_str("\u{e9}x\nyz".to_string());
    assert_eq!(info.boffset2srcloc(0), SrcLoc { ln: 1, col: 1 });
    assert_eq!(info.boffset2srcloc(2), SrcLoc { ln: 1, col: 2 });
    assert_eq!(info.boffset2srcloc(3), SrcLoc { ln: 1, col: 3 });
    assert_eq!(info.boffset2srcloc(4), SrcLoc { ln: 2, col: 1 });
    assert_eq!(info.boffset2srcloc(5), SrcLoc { ln: 2, col: 2 });
}

#[test]
fn linestr_gives_the_whole_line() {
    let info = SrcFileInfo::from_str("ab\ncd\nef".to_string());
    assert_eq!(info.linestr(0), Some("ab\n"));
    assert_eq!(info.linestr(4), Some("cd\n"));
    assert_eq!(info.linestr(7), Some("ef"));
}

#[test]
fn srcloc_new_and_order() {
    let a = SrcLoc::new((2, 5));
    assert_eq!(a, SrcLoc { ln: 2, col: 5 });
    assert!(SrcLoc::new((1, 9)) < a);
    assert!(SrcLoc::new((2, 4)) < a);
}

#[test]
fn path_parts() {
    let info = SrcFileInfo::with_path("/tmp/dir/file.txt".to_string(), "x".to_string());
    assert_eq!(info.filename(), "file.txt");
    assert_eq!(info.dirname(), "/tmp/dir");
    let bare = SrcFileInfo::from_str("x".to_string());
    assert_eq!(bare.try_filename(), None);
    assert_eq!(bare.try_dirname(), None);
}

#[test]
fn span_len_and_chars() {
    let span = Span { from: 1, end: 4 };
    assert_eq!(span.len(), 3);
    assert_eq!(span.chars_count("a\u{e9}bc"), 2);
    assert_eq!(Span::default(), Span { from: 0, end: 0 });
}

#[test]
fn interning_round_trip() {
    let mut interner = Interner::new();
    let a = str2sym(&mut interner, "alpha");
    let b = str2sym(&mut interner, "beta");
    let a2 = str2sym(&mut interner, "alpha");
    assert_eq!(a, a2);
    assert_ne!(a, b);
    assert_eq!(interner.len(), 2);
    assert_eq!(sym2str(&interner, a), "alpha");
    assert_eq!(sym2str(&interner, b), "beta");
}

#[test]
fn token_accessors() {
    let mut interner = Interner::new();
    let name = str2sym(&mut interner, "id");
    let value = str2sym(&mut interner, "x\u{e9}");
    let tok = Token { name, value, span: Span { from: 2, end: 5 } };
    assert_eq!(tok.name_string(&interner), "id");
    assert_eq!(tok.value_string(&interner), "x\u{e9}");
    assert_eq!(tok.chars_len(&interner), 2);
    assert_eq!(tok.span(), Span { from: 2, end: 5 });
    assert_eq!(tok.span_len(&interner), 3);
    assert_eq!(tok.span_chars_count("abx\u{e9}"), 2);
    assert!(tok.check_name(&interner, "id"));
    assert!(!tok.check_value(&interner, "x"));
    assert!(tok.check_names_in(&interner, &["sp", "id"]));
    assert!(!tok.check_values_in(&interner, &["x", "y"]));

    let renamed = tok.rename(&mut interner, "ident");
    assert_eq!(renamed.name_string(&interner), "ident");
    assert_eq!(renamed.value, tok.value);
    assert_eq!(renamed.span, tok.span);

    let mapped = tok.mapval(&mut interner, "y");
    assert_eq!(mapped.value_string(&interner), "y");
    assert_eq!(mapped.name, tok.name);

    let kw = mapped.rename_by_value(&mut interner, &["if", "y"]);
    assert_eq!(kw.name_string(&interner), "y");
    let same = tok.rename_by_value(&mut interner, &["if"]);
    assert_eq!(same, tok);

    let eof = Token::eof(&mut interner);
    assert_eq!(eof.name_string(&interner), "eof");
    assert_eq!(eof.value_string(&interner), "");
    assert_eq!(eof.span, Span { from: 0, end: 0 });
}

fn word_matchers(interner: &mut Interner) -> Vec<StdMatcher> {
    vec![
        StdMatcher::Pattern(TokenMatcher::new(interner, "^([a-z]+)", "id")),
        StdMatcher::Pattern(TokenMatcher::new(interner, "^( +)", "sp")),
        StdMatcher::DqStr,
    ]
}

#[test]
fn tokenize_words_and_blanks() {
    let mut interner = Interner::new();
    let ms = word_matchers(&mut interner);
    let src = SrcFileInfo::from_str("ab  cd \"e f\"".to_string());
    let toks = tokenize(&src, &mut interner, &ms).unwrap();
    assert_eq!(
        names_and_values(&interner, &toks),
        vec![
            ("id".to_string(), "ab".to_string()),
            ("sp".to_string(), "  ".to_string()),
            ("id".to_string(), "cd".to_string()),
            ("sp".to_string(), " ".to_string()),
            ("dqstr".to_string(), "e f".to_string()),
        ]
    );
    let spans: Vec<Span> = toks.iter().map(|t| t.span).collect();
    assert_eq!(
        spans,
        vec![
            Span { from: 0, end: 2 },
            Span { from: 2, end: 4 },
            Span { from: 4, end: 6 },
            Span { from: 6, end: 7 },
            Span { from: 7, end: 12 },
        ]
    );
    let trimmed = trim(&interner, Ok(toks)).unwrap();
    assert_eq!(
        names_and_values(&interner, &trimmed),
        vec![
            ("id".to_string(), "ab".to_string()),
            ("id".to_string(), "cd".to_string()),
            ("dqstr".to_string(), "e f".to_string()),
        ]
    );
}

#[test]
fn tokenize_empty_text() {
    let mut interner = Interner::new();
    let ms = word_matchers(&mut interner);
    let src = SrcFileInfo::from_str(String::new());
    assert_eq!(tokenize(&src, &mut interner, &ms).unwrap().len(), 0);
}

#[test]
fn tokenize_unrecognized_token_reports_char_offset() {
    let mut interner = Interner::new();
    let ms = word_matchers(&mut interner);
    let src = SrcFileInfo::from_str("ab 1".to_string());
    let err = tokenize(&src, &mut interner, &ms).unwrap_err();
    assert_eq!(err.reason(), TokenizeErrorReason::UnrecognizedToken);
    assert_eq!(err.start(), 3);
    assert_eq!(err.src().get_srcstr(), "ab 1");
}

#[test]
fn tokenize_zero_length_token() {
    let mut interner = Interner::new();
    let ms = vec![StdMatcher::Pattern(TokenMatcher::new(&mut interner, "^(x*)", "xs"))];
    let src = SrcFileInfo::from_str("xy".to_string());
    let err = tokenize(&src, &mut interner, &ms).unwrap_err();
    assert_eq!(err.reason(), TokenizeErrorReason::ZeroLenToken);
    assert_eq!(err.start(), 1);
}

#[test]
fn tokenize_stops_after_a_string() {
    let mut interner = Interner::new();
    let ms = vec![StdMatcher::SqStr];
    let src = SrcFileInfo::from_str("'ab'c".to_string());
    let aux = aux_strlike_m(&mut interner, "'ab'c", 0, "'", "'x", '\\');
    assert_eq!(aux.unwrap().unwrap_err(), TokenizeErrorReason::UnexpectedPostfix);
    let err = tokenize(&src, &mut interner, &ms).unwrap_err();
    assert_eq!(err.reason(), TokenizeErrorReason::UnrecognizedToken);
    assert_eq!(err.start(), 4);
}

#[test]
fn token_matcher_fetch() {
    let mut interner = Interner::new();
    let m = TokenMatcher::new(&mut interner, "^([0-9]+)", "num");
    let tok = m.fetch_tok(&mut interner, "123abc", 7).unwrap().unwrap();
    assert_eq!(tok.value_string(&interner), "123");
    assert_eq!(tok.name_string(&interner), "num");
    assert_eq!(tok.span, Span { from: 7, end: 10 });
    assert!(m.fetch_tok(&mut interner, "abc", 0).is_none());
    let g = TokenMatcher::new(&mut interner, "^a|^(b)", "ab");
    assert!(g.try_fetch_tok(&mut interner, "ax", 0).is_none());
    let b = g.try_fetch_tok(&mut interner, "bx", 0).unwrap().unwrap().unwrap();
    assert_eq!(b.value_string(&interner), "b");
    assert_eq!(b.span, Span { from: 0, end: 1 });
    let via_std = StdMatcher::Pattern(g).fetch(&mut interner, "ax", 0);
    assert_eq!(via_std.unwrap().unwrap_err(), TokenizeErrorReason::UnrecognizedToken);
    assert!(TokenMatcher::try_new(&mut interner, "(", "bad").is_none());
}

#[test]
fn quoted_strings_keep_escapes() {
    let mut interner = Interner::new();
    let t = dqstr_m(&mut interner, "\"a\\\"b\" rest", 5).unwrap().unwrap();
    assert_eq!(t.value_string(&interner), "a\\\"b");
    assert_eq!(t.name_string(&interner), "dqstr");
    assert_eq!(t.span, Span { from: 5, end: 11 });
    let a = aqstr_m(&mut interner, "\"hi\"", 0).unwrap().unwrap();
    assert_eq!(a.value_string(&interner), "hi");
    assert_eq!(a.span, Span { from: 0, end: 4 });
    assert_eq!(a.span_len(&interner), 2);
    assert!(aqstr_m(&mut interner, "`x`", 0).is_none());
    assert_eq!(a.name_string(&interner), "aqstr");
    let s = sqstr_m(&mut interner, "'yz'", 0).unwrap().unwrap();
    assert_eq!(s.value_string(&interner), "yz");
    assert_eq!(s.name_string(&interner), "sqstr");
    assert!(dqstr_m(&mut interner, "abc", 0).is_none());
}

#[test]
fn unterminated_string_drops_its_last_char() {
    let mut interner = Interner::new();
    let t = dqstr_m(&mut interner, "\"abc", 0).unwrap().unwrap();
    assert_eq!(t.value_string(&interner), "ab");
    assert_eq!(t.span, Span { from: 0, end: 4 });
}

#[test]
fn aux_strlike_with_long_postfix() {
    let mut interner = Interner::new();
    let t = aux_strlike_m(&mut interner, "!(ls -l) x", 3, "!(", ")", '\\').unwrap().unwrap();
    assert_eq!(t.value_string(&interner), "ls -l");
    assert_eq!(t.name_string(&interner), "__aux_tmp");
    assert_eq!(t.span, Span { from: 3, end: 11 });
    assert!(aux_strlike_m(&mut interner, "ls", 0, "!(", ")", '\\').is_none());
}

#[test]
fn regex_literal_with_flag() {
    let mut interner = Interner::new();
    let t = lit_regex_m(&mut interner, "/ab+/i;", 2).unwrap().unwrap();
    assert_eq!(t.value_string(&interner), "/ab+/i");
    assert_eq!(t.name_string(&interner), "lit_regex");
    assert_eq!(t.span, Span { from: 2, end: 8 });
    let u = lit_regex_m(&mut interner, "/a/ x", 0).unwrap().unwrap();
    assert_eq!(u.value_string(&interner), "/a/");
    assert_eq!(u.span, Span { from: 0, end: 3 });
    assert!(lit_regex_m(&mut interner, "//comment", 0).is_none());
}

#[test]
fn heredoc_body() {
    let mut interner = Interner::new();
    let src = "<<EOF\nline1\nline2\nEOF\nrest";
    let t = heredoc_m(&mut interner, src, 0).unwrap().unwrap();
    assert_eq!(t.value_string(&interner), "line1\nline2");
    assert_eq!(t.name_string(&interner), "__aux_tmp");
    assert_eq!(t.span, Span { from: 0, end: 21 });
    assert!(heredoc_m(&mut interner, "no heredoc", 0).is_none());
    let u = try_heredoc_m(&mut interner, src, 3).unwrap().unwrap().unwrap();
    assert_eq!(u.value_string(&interner), "line1\nline2");
    assert_eq!(u.span, Span { from: 3, end: 24 });
    assert!(try_heredoc_m(&mut interner, "no heredoc", 0).unwrap().is_none());
}

#[test]
fn std_matcher_fetch_of_lone_quote() {
    let mut interner = Interner::new();
    let r = StdMatcher::DqStr.fetch(&mut interner, "\"", 0);
    assert_eq!(r.unwrap().unwrap_err(), TokenizeErrorReason::UnrecognizedToken);
}

#[test]
fn char_matchers() {
    let s = SimpleCharMatcher::new("xyz");
    assert!(s.is_match('x'));
    assert!(!s.is_match('y'));
    let r = RegexCharMatcher::new("[0-9]");
    assert!(r.is_match('7'));
    assert!(!r.is_match('a'));
    assert!(RegexCharMatcher::try_new("[").is_none());
}

#[test]
fn error_report_points_at_the_column() {
    let mut interner = Interner::new();
    let mut ms = word_matchers(&mut interner);
    ms.push(StdMatcher::Pattern(TokenMatcher::new(&mut interner, "^(\n)", "newline")));
    let src = SrcFileInfo::with_path("in.txt".to_string(), "ab\ncd 1x\n".to_string());
    let err = tokenize(&src, &mut interner, &ms).unwrap_err();
    assert_eq!(err.start(), 6);
    assert_eq!(
        err.message().unwrap(),
        "\n\nUnrecognizedToken:\n\ncd 1x\n\n   ^--\n--> in.txt:2:4\n\n"
    );
}

#[test]
fn error_report_of_last_line() {
    let mut interner = Interner::new();
    let ms = word_matchers(&mut interner);
    let src = SrcFileInfo::from_str("ab 1".to_string());
    let err = tokenize(&src, &mut interner, &ms).unwrap_err();
    assert_eq!(err.message().unwrap(), "\n\nUnrecognizedToken:\n\nab 1\n   ^\n--> :1:4\n\n");
}

#[test]
fn displays_of_token_and_location() {
    let mut interner = Interner::new();
    let name = str2sym(&mut interner, "id");
    let value = str2sym(&mut interner, "x\u{e9}");
    let tok = Token { name, value, span: Span { from: 0, end: 3 } };
    assert_eq!(tok.display(&interner), "name: <id>\nvalue: x\u{e9}\nlen: 2\n");
    assert_eq!(SrcLoc::new((12, 5)).display(), "(12, 5)");
}

#[test]
fn ascii_char_and_byte_offsets_agree() {
    let info = SrcFileInfo::from_str("let x\n  = 1;\n\nend".to_string());
    for k in 0..=info.get_srcstr().len() {
        assert_eq!(info.offset2srcloc(k), info.boffset2srcloc(k));
    }
    assert_eq!(info.offset2srcloc(8), SrcLoc { ln: 2, col: 3 });
}

#[test]
fn token_rule_is_anchored() {
    let mut interner = Interner::new();
    let m = TokenMatcher::try_rule(&mut interner, "num", "[0-9]+").unwrap();
    let tok = m.fetch_tok(&mut interner, "42x", 3).unwrap().unwrap();
    assert_eq!(tok.value_string(&interner), "42");
    assert_eq!(tok.name_string(&interner), "num");
    assert_eq!(tok.span, Span { from: 3, end: 5 });
    assert!(m.fetch_tok(&mut interner, "x42", 0).is_none());
    assert!(TokenMatcher::try_rule(&mut interner, "bad", "(").is_none());
}

#[test]
fn srcloc_order_is_line_then_column() {
    let a = SrcLoc::new((1, 5));
    let b = SrcLoc::new((2, 1));
    let c = SrcLoc::new((2, 3));
    assert_eq!(a.cmp(&b), Ordering::Less);
    assert_eq!(c.cmp(&b), Ordering::Greater);
    assert_eq!(b.cmp(&SrcLoc::new((2, 1))), Ordering::Equal);
    assert_eq!(b.cmp(&c), Ordering::Less);
}

#[test]
fn prelude_matchers_in_order() {
    let mut interner = Interner::new();
    let ms = prelude_matchers(&mut interner).unwrap();
    assert_eq!(ms.len(), 33);
    let src = SrcFileInfo::from_str("(\t) ->\n<= != ++".to_string());
    let toks = tokenize(&src, &mut interner, &ms).unwrap();
    let names: Vec<String> = toks.iter().map(|t| t.name_string(&interner)).collect();
    assert_eq!(names, vec!["lparen", "sp", "rparen", "sp", "rarrow", "newline", "le", "sp", "not", "assign", "sp", "inc"]);
    let kept = trim(&interner, Ok(toks)).unwrap();
    let kept_names: Vec<String> = kept.iter().map(|t| t.name_string(&interner)).collect();
    assert_eq!(kept_names, vec!["lparen", "rparen", "rarrow", "le", "not", "assign", "inc"]);
    let again = trim(&interner, Ok(kept.clone())).unwrap();
    assert_eq!(again, kept);
}
