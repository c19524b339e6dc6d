use m6parserkit::lexer::interner::{str2sym, Interner};
use m6parserkit::lexer::token::Token;
use m6parserkit::lexer::srcfile::{Span, SrcFileInfo};
use m6parserkit::lexer::tokenize::{tokenize, FnMatcher, TokenMatchResult, TokenizeErrorReason};
use vstd::seq::Seq;

/// A matcher that reports a tab escape at every backslash.
struct Escapes;

impl FnMatcher for Escapes {
    fn spec_ready(&self, _strs: Seq<Seq<char>>) -> bool {
        true
    }

    fn spec_fetch(
        &self,
        _strs: Seq<Seq<char>>,
        _source: Seq<char>,
        _from: usize,
    ) -> Option<Result<(Seq<char>, Seq<char>, Span), TokenizeErrorReason>> {
        None
    }

    fn lemma_fetch_stable(&self, _s0: Seq<Seq<char>>, _s1: Seq<Seq<char>>, _source: Seq<char>, _from: usize) {}

    fn fetch(&self, _interner: &mut Interner, source: &str, _from: usize) -> Option<TokenMatchResult> {
        if source.starts_with('\\') {
            Some(Err(TokenizeErrorReason::UnrecognizedEscaped('\t')))
        } else {
            None
        }
    }
}

#[test]
fn report_of_an_escape_quotes_the_character() {
    let mut interner = Interner::new();
    let src = SrcFileInfo::with_path("e.txt".to_string(), "\\x".to_string());
    let err = tokenize(&src, &mut interner, &[Escapes]).unwrap_err();
    assert_eq!(err.reason(), TokenizeErrorReason::UnrecognizedEscaped('\t'));
    assert_eq!(err.message().unwrap(), "\n\nUnrecognizedEscaped('\\t'):\n\n\\x\n^-\n--> e.txt:1:1\n\n");
}

/// A matcher that always reports the span 0..2, wherever it is asked.
struct FirstTwo;

impl FnMatcher for FirstTwo {
    fn spec_ready(&self, _strs: Seq<Seq<char>>) -> bool {
        true
    }

    fn spec_fetch(
        &self,
        _strs: Seq<Seq<char>>,
        _source: Seq<char>,
        _from: usize,
    ) -> Option<Result<(Seq<char>, Seq<char>, Span), TokenizeErrorReason>> {
        None
    }

    fn lemma_fetch_stable(&self, _s0: Seq<Seq<char>>, _s1: Seq<Seq<char>>, _source: Seq<char>, _from: usize) {}

    fn fetch(&self, interner: &mut Interner, _source: &str, _from: usize) -> Option<TokenMatchResult> {
        let name = str2sym(interner, "two");
        let value = str2sym(interner, "xx");
        Some(Ok(Token { name, value, span: Span { from: 0, end: 2 } }))
    }
}

#[test]
fn tokenize_advances_by_span_length() {
    let mut interner = Interner::new();
    let src = SrcFileInfo::from_str("abcde".to_string());
    let toks = tokenize(&src, &mut interner, &[FirstTwo]).unwrap();
    assert_eq!(toks.len(), 3);
    assert!(toks.iter().all(|t| t.span == Span { from: 0, end: 2 }));
    let odd = SrcFileInfo::from_str("abc\u{e9}".to_string());
    let err = tokenize(&odd, &mut interner, &[FirstTwo]).unwrap_err();
    assert_eq!(err.reason(), TokenizeErrorReason::UnrecognizedToken);
    assert_eq!(err.start(), 4);
}
