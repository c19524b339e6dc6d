use vstd::seq::Seq;
use m6parserkit::data::{SyntaxNode, TokenTree};
use m6parserkit::lexer::interner::{str2sym, Interner};
use m6parserkit::lexer::srcfile::Span;
use m6parserkit::lexer::token::Token;
use m6parserkit::spec::{
    gen_counter, gen_counter_1, is_explicit_nonterm, is_nonterm, is_shadow_lfsym, shadow_lfsym, Deriv, Occ, RhStr,
    syntax_enum_display, syntax_enum_name, SyntaxName, BNF,
};
use m6parserkit::spec_parse::{gen_bnf, gen_bnf_from_tokens, parse, try_gen_bnf};

const GRAMMAR: &str = "# statements
Prog:
  | [Stmt]* <eof>
Stmt:
  | <id> <eq> [Expr]
  | ( <a> | <b> )+
Expr:
  | <num>
";

fn rh(syms: &[(&str, Occ)]) -> Vec<(String, Occ)> {
    syms.iter().map(|(s, o)| (s.to_string(), *o)).collect()
}

fn deriv_summary(bnf: &BNF) -> Vec<(String, Vec<Vec<(String, Occ)>>)> {
    bnf.0.iter().map(|d| (d.lfsym.clone(), d.choices.iter().map(|c| c.0.clone()).collect())).collect()
}

#[test]
fn occ_from_str() {
    assert_eq!(Occ::from_str("+"), Ok(Occ::OneOrMore));
    assert_eq!(Occ::from_str("?"), Ok(Occ::AtMostOne));
    assert_eq!(Occ::from_str("*"), Ok(Occ::Any));
    assert_eq!(Occ::from_str("x"), Err("x".to_string()));
    assert_eq!(Occ::from_str("++"), Err("++".to_string()));
}

#[test]
fn nonterminal_kinds() {
    assert!(is_nonterm("Stmt"));
    assert!(!is_nonterm("id"));
    assert!(is_nonterm("!__Stmt_1"));
    assert!(is_shadow_lfsym("!__Stmt_1"));
    assert!(!is_shadow_lfsym("Stmt"));
    assert!(is_explicit_nonterm("\u{c9}t\u{e9}"));
    assert!(!is_explicit_nonterm("!__Stmt_1"));
}

#[test]
fn shadow_names_and_counters() {
    assert_eq!(shadow_lfsym("Stmt", 12), "!__Stmt_12");
    assert_eq!(shadow_lfsym("!__A_1", 0), "!__!__A_1_0");
    assert!(is_shadow_lfsym(&shadow_lfsym("x", 3)));
    let mut c = gen_counter();
    assert_eq!(c.next(), 1);
    assert_eq!(c.next(), 2);
    let mut d = gen_counter_1(5);
    assert_eq!(d.next(), 5);
    assert_eq!(d.next(), 6);
}

#[test]
fn gen_bnf_parses_derivations_and_groups() {
    let mut interner = Interner::new();
    let bnf = gen_bnf(&mut interner, GRAMMAR).unwrap();
    assert_eq!(
        deriv_summary(&bnf),
        vec![
            ("Prog".to_string(), vec![rh(&[("Stmt", Occ::Any), ("eof", Occ::JustOne)])]),
            ("!__Stmt_1".to_string(), vec![rh(&[("a", Occ::JustOne)]), rh(&[("b", Occ::JustOne)])]),
            (
                "Stmt".to_string(),
                vec![
                    rh(&[("id", Occ::JustOne), ("eq", Occ::JustOne), ("Expr", Occ::JustOne)]),
                    rh(&[("!__Stmt_1", Occ::OneOrMore)]),
                ],
            ),
            ("Expr".to_string(), vec![rh(&[("num", Occ::JustOne)])]),
        ]
    );
    assert!(bnf.self_validate().is_ok());
    assert_eq!(bnf.find_lfsym("Stmt").unwrap().choices.len(), 2);
    assert!(bnf.find_lfsym("Nope").is_none());
}

#[test]
fn gen_bnf_nested_groups_and_unpacking() {
    let mut interner = Interner::new();
    let src = "A:\n | <x> ( <y> ( <z> )? )*\nB:\n | ..A\n | <w>\n";
    let bnf = gen_bnf(&mut interner, src).unwrap();
    assert_eq!(
        deriv_summary(&bnf),
        vec![
            ("!__!__A_1_1".to_string(), vec![rh(&[("z", Occ::JustOne)])]),
            ("!__A_1".to_string(), vec![rh(&[("y", Occ::JustOne), ("!__!__A_1_1", Occ::AtMostOne)])]),
            ("A".to_string(), vec![rh(&[("x", Occ::JustOne), ("!__A_1", Occ::Any)])]),
            (
                "B".to_string(),
                vec![rh(&[("x", Occ::JustOne), ("!__A_1", Occ::Any)]), rh(&[]), rh(&[("w", Occ::JustOne)])],
            ),
        ]
    );
}

#[test]
fn gen_bnf_refuses_bad_grammars() {
    let mut interner = Interner::new();
    assert!(try_gen_bnf(&mut interner, "A:\n | [B]\n").is_none());
    assert!(try_gen_bnf(&mut interner, "A:\n | <x>\nA:\n | <y>\n").is_none());
    assert!(try_gen_bnf(&mut interner, "A:\n | <x> %\n").is_none());
    assert!(try_gen_bnf(&mut interner, "| <x>\nA:\n | <y>\n").is_none());
    assert!(try_gen_bnf(&mut interner, "A:\n | ..B\n").is_none());
    assert!(try_gen_bnf(&mut interner, "( <x> )\n").is_none());
}

#[test]
fn gen_bnf_of_empty_text_is_empty() {
    let mut interner = Interner::new();
    let bnf = gen_bnf(&mut interner, "").unwrap();
    assert_eq!(bnf.0.len(), 0);
}

fn mk(interner: &mut Interner, name: &str, value: &str) -> Token {
    let n = str2sym(interner, name);
    let v = str2sym(interner, value);
    Token { name: n, value: v, span: Span { from: 0, end: 1 } }
}

#[test]
fn gen_bnf_from_tokens_strips_brackets() {
    let mut interner = Interner::new();
    let toks = vec![
        mk(&mut interner, "lfsym", "S:"),
        mk(&mut interner, "delim", "|"),
        mk(&mut interner, "term", "<t>"),
        mk(&mut interner, "occ", "?"),
        mk(&mut interner, "nonterm", "[S]"),
    ];
    let bnf = gen_bnf_from_tokens(&mut interner, &toks).unwrap();
    assert_eq!(
        deriv_summary(&bnf),
        vec![("S".to_string(), vec![rh(&[("t", Occ::AtMostOne), ("S", Occ::JustOne)])])]
    );
    let bad = vec![mk(&mut interner, "lfsym", "")];
    assert!(gen_bnf_from_tokens(&mut interner, &bad).is_none());
}

#[test]
fn parse_of_stripped_tokens() {
    let mut interner = Interner::new();
    let toks = vec![
        mk(&mut interner, "lfsym", "S"),
        mk(&mut interner, "delim", "|"),
        mk(&mut interner, "term", "t"),
        mk(&mut interner, "occ", "+"),
    ];
    let bnf = parse(&interner, &toks).unwrap();
    assert_eq!(deriv_summary(&bnf), vec![("S".to_string(), vec![rh(&[("t", Occ::OneOrMore)])])]);
    let bad_occ = vec![
        mk(&mut interner, "lfsym", "S"),
        mk(&mut interner, "delim", "|"),
        mk(&mut interner, "term", "t"),
        mk(&mut interner, "occ", "!"),
    ];
    assert!(parse(&interner, &bad_occ).is_none());
}

fn d(lfsym: &str, choices: Vec<Vec<(String, Occ)>>) -> Deriv {
    Deriv { lfsym: lfsym.to_string(), choices: choices.into_iter().map(RhStr).collect() }
}

#[test]
fn self_validate_reports_first_offence() {
    let dup = BNF(vec![d("A", vec![rh(&[("x", Occ::JustOne)])]), d("A", vec![])]);
    assert_eq!(dup.self_validate(), Err("Duplicate define for A".to_string()));
    let undef = BNF(vec![d("A", vec![rh(&[("x", Occ::JustOne), ("B", Occ::Any)])])]);
    assert_eq!(undef.self_validate(), Err("No define for [B]".to_string()));
    let ok = BNF(vec![d("A", vec![rh(&[("A", Occ::Any)])])]);
    assert_eq!(ok.self_validate(), Ok(()));
    assert_eq!(BNF::default().self_validate(), Ok(()));
}

/// A syntax kind whose name is its text, as the kinds of a generated syntax
/// enum are named by their variants.
#[derive(Debug, Clone, PartialEq)]
struct Kind(String);

impl SyntaxName for Kind {
    fn spec_name(&self) -> Seq<char> {
        unreachable!()
    }

    fn name(&self) -> String {
        self.0.clone()
    }
}

fn leaf(interner: &mut Interner, kind: &str) -> (Kind, SyntaxNode<Kind>) {
    (Kind(kind.to_string()), SyntaxNode::E(mk(interner, kind, kind)))
}

fn node(kind: &str, subs: Vec<(Kind, SyntaxNode<Kind>)>) -> (Kind, SyntaxNode<Kind>) {
    (Kind(kind.to_string()), SyntaxNode::T(TokenTree::new(subs)))
}

#[test]
fn verify_accepts_matching_tree() {
    let mut interner = Interner::new();
    let bnf = gen_bnf(&mut interner, GRAMMAR).unwrap();
    let expr = node("Expr", vec![leaf(&mut interner, "num")]);
    let stmt1 = node("Stmt", vec![leaf(&mut interner, "id"), leaf(&mut interner, "eq"), expr]);
    let stmt2 = node("Stmt", vec![leaf(&mut interner, "a"), leaf(&mut interner, "b"), leaf(&mut interner, "a")]);
    let tt = TokenTree::new(vec![stmt1, stmt2, leaf(&mut interner, "eof")]);
    assert_eq!(bnf.verify(&tt), Ok(()));
    assert_eq!(bnf.try_verify(&tt), Some(Ok(())));
}

#[test]
fn verify_rejects_mismatch() {
    let mut interner = Interner::new();
    let bnf = gen_bnf(&mut interner, GRAMMAR).unwrap();
    let stmt = node("Stmt", vec![leaf(&mut interner, "id"), leaf(&mut interner, "num")]);
    let tt = TokenTree::new(vec![stmt, leaf(&mut interner, "eof")]);
    assert_eq!(bnf.verify(&tt), Err(()));
    let extra = TokenTree::new(vec![leaf(&mut interner, "eof"), leaf(&mut interner, "eof")]);
    assert_eq!(bnf.verify(&extra), Err(()));
}

#[test]
fn verify_with_empty_grammar_accepts_anything() {
    let mut interner = Interner::new();
    let tt = TokenTree::new(vec![leaf(&mut interner, "x")]);
    assert_eq!(BNF(vec![]).verify(&tt), Ok(()));
}

#[test]
fn try_verify_reports_stuck_check() {
    let mut interner = Interner::new();
    let bnf = BNF(vec![d("P", vec![rh(&[("X", Occ::JustOne)])])]);
    let tt = TokenTree::new(vec![node("X", vec![])]);
    assert_eq!(bnf.try_verify(&tt), None);
    let tok_tt = TokenTree::new(vec![leaf(&mut interner, "P")]);
    let bnf2 = BNF(vec![d("P", vec![rh(&[("P", Occ::JustOne)])])]);
    assert_eq!(bnf2.try_verify(&tok_tt), None);
}

#[test]
fn syntax_name_of_string() {
    let mut interner = Interner::new();
    assert_eq!("abc".to_string().name(), "\"abc\"");
    assert_eq!("a\"b".to_string().name(), "\"a\\\"b\"");
    let bnf = BNF(vec![d("P", vec![rh(&[("a", Occ::JustOne)])])]);
    let tt = TokenTree::new(vec![("a".to_string(), SyntaxNode::E(mk(&mut interner, "a", "a")))]);
    assert_eq!(bnf.verify(&tt), Err(()));
}

#[test]
fn try_verify_reports_endless_matching() {
    let mut interner = Interner::new();
    let tt = TokenTree::new(vec![leaf(&mut interner, "b")]);
    let left_rec = BNF(vec![
        d("P", vec![rh(&[("!__P_1", Occ::Any)])]),
        d("!__P_1", vec![rh(&[("!__P_1", Occ::JustOne)])]),
    ]);
    assert_eq!(left_rec.try_verify(&tt), None);
    let empty_repeat = BNF(vec![
        d("P", vec![rh(&[("!__P_1", Occ::Any)])]),
        d("!__P_1", vec![rh(&[("a", Occ::AtMostOne)])]),
    ]);
    assert_eq!(empty_repeat.try_verify(&tt), None);
    let once = BNF(vec![
        d("P", vec![rh(&[("!__P_1", Occ::AtMostOne), ("b", Occ::JustOne)])]),
        d("!__P_1", vec![rh(&[("a", Occ::AtMostOne)])]),
    ]);
    assert_eq!(once.try_verify(&tt), Some(Ok(())));
}

#[test]
fn syntax_enum_names_and_displays() {
    assert_eq!(syntax_enum_name("Expr"), "Expr");
    assert_eq!(syntax_enum_name("r#type"), "type");
    assert_eq!(syntax_enum_name("r"), "r");
    assert_eq!(syntax_enum_display("Expr"), "[Expr]");
    assert_eq!(syntax_enum_display("ident"), "<ident>");
    assert_eq!(syntax_enum_display("r#type"), "<r#type>");
    assert_eq!(syntax_enum_display("r#Type"), "[r#Type]");
}

#[test]
fn token_tree_index_and_index_mut() {
    let mut interner = Interner::new();
    let mut tt = TokenTree::new(vec![leaf(&mut interner, "a"), leaf(&mut interner, "b")]);
    assert_eq!(tt.index(1).0, Kind("b".to_string()));
    tt.index_mut(0).0 = Kind("z".to_string());
    assert_eq!(tt.index(0).0, Kind("z".to_string()));
    assert_eq!(tt.index(1).0, Kind("b".to_string()));
    assert_eq!(tt.len(), 2);
}

#[test]
fn try_gen_bnf_agrees_with_gen_bnf_on_valid_text() {
    let mut interner = Interner::new();
    let src = "S:\n | [A]\nA:\n | <a>\n";
    let a = gen_bnf(&mut interner, src).unwrap();
    let b = try_gen_bnf(&mut interner, src).unwrap();
    let expect = vec![
        ("S".to_string(), vec![rh(&[("A", Occ::JustOne)])]),
        ("A".to_string(), vec![rh(&[("a", Occ::JustOne)])]),
    ];
    assert_eq!(deriv_summary(&a), expect);
    assert_eq!(deriv_summary(&b), expect);
    assert!(try_gen_bnf(&mut interner, "S:\n | [A]\n").is_none());
}

#[test]
fn self_validate_looks_up_uppercase_symbols_only() {
    let dup = BNF(vec![
        Deriv { lfsym: "S".to_string(), choices: vec![] },
        Deriv { lfsym: "S".to_string(), choices: vec![] },
    ]);
    assert_eq!(dup.self_validate(), Err("Duplicate define for S".to_string()));
    let undef = BNF(vec![Deriv {
        lfsym: "S".to_string(),
        choices: vec![RhStr(vec![("b".to_string(), Occ::Any), ("A".to_string(), Occ::JustOne)])],
    }]);
    assert_eq!(undef.self_validate(), Err("No define for [A]".to_string()));
}

#[test]
fn syntax_names_of_numbers_chars_and_str() {
    assert_eq!(7u32.name(), "7");
    assert_eq!(0usize.name(), "0");
    assert_eq!(u128::MAX.name(), u128::MAX.to_string());
    assert_eq!((-12i32).name(), "-12");
    assert_eq!(i8::MIN.name(), "-128");
    assert_eq!(i128::MIN.name(), i128::MIN.to_string());
    assert_eq!('a'.name(), "'a'");
    assert_eq!('\n'.name(), "'\\n'");
    assert_eq!("x".name(), "\"x\"");
}
