use m6parserkit::grammer::grammer;
use m6parserkit::spec::{Occ, BNF};

fn summary(bnf: &BNF) -> Vec<(String, Vec<Vec<(String, Occ)>>)> {
    bnf.0.iter().map(|d| (d.lfsym.clone(), d.choices.iter().map(|c| c.0.clone()).collect())).collect()
}

fn rh(syms: &[(&str, Occ)]) -> Vec<(String, Occ)> {
    syms.iter().map(|(s, o)| (s.to_string(), *o)).collect()
}

#[test]
fn grammer_reads_derivations() {
    let bnf = grammer("Prog: | [Stmt]* <eof>\nStmt: | <id> <eq> [Expr]? | <semi>+\nExpr:").unwrap();
    assert_eq!(
        summary(&bnf),
        vec![
            ("Prog".to_string(), vec![rh(&[("Stmt", Occ::Any), ("eof", Occ::JustOne)])]),
            (
                "Stmt".to_string(),
                vec![
                    rh(&[("id", Occ::JustOne), ("eq", Occ::JustOne), ("Expr", Occ::AtMostOne)]),
                    rh(&[("semi", Occ::OneOrMore)]),
                ],
            ),
            ("Expr".to_string(), vec![]),
        ]
    );
}

#[test]
fn grammer_skips_line_comments_and_reads_empty_choices() {
    let bnf = grammer("// a grammar\nA: || <x> // trailing\n//// not a doc comment\n").unwrap();
    assert_eq!(summary(&bnf), vec![("A".to_string(), vec![rh(&[]), rh(&[("x", Occ::JustOne)])])]);
    assert_eq!(grammer("").unwrap().0.len(), 0);
}

#[test]
fn grammer_refuses_what_is_no_grammar() {
    assert!(grammer("fn: | <x>").is_none());
    assert!(grammer("A: | <self>").is_none());
    assert!(grammer("/// doc\nA: | <x>").is_none());
    assert!(grammer("//! doc\nA: | <x>").is_none());
    assert!(grammer("A: | [x y]").is_none());
    assert!(grammer("A | <x>").is_none());
    assert!(grammer("A: | <x> = <y>").is_none());
    assert!(grammer("A: | [x>").is_none());
    assert!(grammer("A:: | <x>").is_none());
    assert!(grammer("1A: | <x>").is_none());
}

#[test]
fn grammer_reads_raw_identifiers() {
    let bnf = grammer("r#Type: | <r#type> [r#Type]*").unwrap();
    assert_eq!(
        summary(&bnf),
        vec![("r#Type".to_string(), vec![rh(&[("r#type", Occ::JustOne), ("r#Type", Occ::Any)])])]
    );
    assert!(grammer("r#self: | <a>").is_none());
    assert!(grammer("A: | <type>").is_none());
}

#[test]
fn grammer_skips_block_comments() {
    let bnf = grammer("/* outer /* inner */ still */ A: | <a> /**/ /***/ [A]?").unwrap();
    assert_eq!(summary(&bnf), vec![("A".to_string(), vec![rh(&[("a", Occ::JustOne), ("A", Occ::AtMostOne)])])]);
    assert!(grammer("/* open A: | <a>").is_none());
    assert!(grammer("/** doc */ A: | <a>").is_none());
    assert!(grammer("/*! doc */ A: | <a>").is_none());
}

#[test]
fn grammer_reads_unicode_identifiers() {
    let bnf = grammer("Ärger:\u{2028}| <größe> [Ärger]?").unwrap();
    assert_eq!(
        summary(&bnf),
        vec![("Ärger".to_string(), vec![rh(&[("größe", Occ::JustOne), ("Ärger", Occ::AtMostOne)])])]
    );
    assert!(grammer("A: | <1a>").is_none());
    assert!(grammer("A: | <€>").is_none());
}
