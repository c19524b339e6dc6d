use m6parserkit::lexer::dfa::{char_matcher_rules, token_recognizer, try_tokenize2, tokenize2, CharRule, LexDFA, LexDFAMap, ENTRY_ST};
use m6parserkit::lexer::interner::{str2sym, Interner};
use m6parserkit::lexer::pattern::{CharMatcher, RegexCharMatcher, SimpleCharMatcher};
use m6parserkit::lexer::srcfile::{Span, SrcFileInfo};
use std::collections::HashMap;

fn lower() -> CharRule {
    CharRule::Pattern(RegexCharMatcher::new("[a-z]"))
}

fn blank() -> CharRule {
    CharRule::Simple(SimpleCharMatcher::new(" "))
}

/// Words and blanks: a token ends where a word meets a blank.
fn word_dfa(interner: &mut Interner) -> LexDFAMap {
    let entry = str2sym(interner, ENTRY_ST);
    let word = str2sym(interner, "word");
    let gap = str2sym(interner, "blank");
    let mut map: LexDFAMap = HashMap::new();
    map.insert(entry.0, vec![(lower(), (word, false)), (blank(), (gap, false))]);
    map.insert(word.0, vec![(lower(), (word, false)), (blank(), (gap, true))]);
    map.insert(gap.0, vec![(blank(), (gap, false)), (lower(), (word, true))]);
    map
}

#[test]
fn dfa_forward_follows_first_matching_rule() {
    let mut interner = Interner::new();
    let map = word_dfa(&mut interner);
    let mut dfa = LexDFA::new(&mut interner, &map);
    assert!(!dfa.forward('a'));
    assert!(!dfa.forward('b'));
    assert!(dfa.forward(' '));
    assert!(!dfa.forward(' '));
    assert!(dfa.forward('c'));
    assert_eq!(dfa.try_forward('1'), None);
    assert!(!dfa.forward('d'));
}

#[test]
fn recognizer_names_by_first_matching_pattern() {
    let mut interner = Interner::new();
    let rec = token_recognizer(&mut interner, 5, &[("ws", " $"), ("word", "[a-z]$")]).unwrap();
    assert_eq!(rec.lookhead, 5);
    assert_eq!(rec.pat_items.len(), 2);
    let t = rec.recognize(&mut interner, "ab cd", Span { from: 0, end: 2 });
    assert_eq!(t.name_string(&interner), "word");
    assert_eq!(t.value_string(&interner), "ab");
    assert_eq!(t.span, Span { from: 0, end: 2 });
    let u = rec.recognize(&mut interner, "ab cd", Span { from: 2, end: 3 });
    assert_eq!(u.name_string(&interner), "ws");
    assert_eq!(rec.try_recognize(&mut interner, "ab 1", Span { from: 3, end: 4 }), None);
    assert_eq!(rec.try_recognize(&mut interner, "ab cd", Span { from: 0, end: 9 }), None);
}

#[test]
fn recognizer_doubles_a_leading_caret() {
    let mut interner = Interner::new();
    let rec = token_recognizer(&mut interner, 1, &[("a", "^a")]).unwrap();
    assert_eq!(rec.pat_items[0].0.as_str(), "^^a");
    let t = rec.recognize(&mut interner, "ab", Span { from: 0, end: 2 });
    assert_eq!(t.value_string(&interner), "ab");
    assert!(token_recognizer(&mut interner, 1, &[("bad", "(")]).is_none());
}

#[test]
fn tokenize2_closes_tokens_at_flagged_transitions() {
    let mut interner = Interner::new();
    let map = word_dfa(&mut interner);
    let rec = token_recognizer(&mut interner, 8, &[("ws", " $"), ("word", "[a-z]$")]).unwrap();
    let src = SrcFileInfo::from_str("ab  cd e".to_string());
    let toks = tokenize2(&src, &mut interner, &map, &rec).unwrap();
    let got: Vec<(String, String, Span)> =
        toks.iter().map(|t| (t.name_string(&interner), t.value_string(&interner), t.span)).collect();
    assert_eq!(
        got,
        vec![
            ("word".to_string(), "ab".to_string(), Span { from: 0, end: 2 }),
            ("ws".to_string(), "  ".to_string(), Span { from: 2, end: 4 }),
            ("word".to_string(), "cd".to_string(), Span { from: 4, end: 6 }),
            ("ws".to_string(), " ".to_string(), Span { from: 6, end: 7 }),
        ]
    );
}

#[test]
fn try_tokenize2_without_transition() {
    let mut interner = Interner::new();
    let map = word_dfa(&mut interner);
    let rec = token_recognizer(&mut interner, 8, &[("ws", " $"), ("word", "[a-z]$")]).unwrap();
    let src = SrcFileInfo::from_str("ab 1".to_string());
    assert!(try_tokenize2(&src, &mut interner, &map, &rec).is_none());
    let empty = SrcFileInfo::from_str(String::new());
    assert_eq!(try_tokenize2(&empty, &mut interner, &map, &rec).unwrap().unwrap().len(), 0);
}

#[test]
fn char_matcher_rules_dispatch_on_kind() {
    let rules = char_matcher_rules(&[("digit", "[0-9]", "r"), ("comma", ",x", "s")]).unwrap();
    assert_eq!(rules.len(), 2);
    assert_eq!(rules[0].0, "digit");
    assert!(matches!(rules[0].1, CharRule::Pattern(_)));
    assert!(rules[0].1.is_match('5'));
    assert!(!rules[0].1.is_match('a'));
    assert_eq!(rules[1].0, "comma");
    assert!(matches!(rules[1].1, CharRule::Simple(_)));
    assert!(rules[1].1.is_match(','));
    assert!(!rules[1].1.is_match('x'));
    assert!(char_matcher_rules(&[("bad", "(", "r")]).is_none());
}
