use m6parserkit::data::{Cursor, SyntaxNode, TokenTree};
use m6parserkit::infix_expr::{parse_infix_expr, Bop, BopWrapper, InfixExpr};
use m6parserkit::lexer::interner::{str2sym, Interner};
use m6parserkit::lexer::srcfile::Span;
use m6parserkit::lexer::token::Token;

fn render(e: InfixExpr<BopWrapper<char>, i32>) -> String {
    match e {
        InfixExpr::E(x) => x.to_string(),
        InfixExpr::T { bop, pri1, pri2 } => {
            let l = render(*pri1);
            let r = render(*pri2);
            format!("({} {} {})", l, bop.unwrap(), r)
        }
    }
}

fn op(c: char) -> BopWrapper<char> {
    let prec = match c {
        '+' | '-' => 1,
        '*' | '/' => 2,
        _ => 3,
    };
    BopWrapper::new(c, prec)
}

#[test]
fn higher_precedence_binds_tighter() {
    let e = parse_infix_expr(vec![op('+'), op('*')], vec![1, 2, 3]);
    assert_eq!(render(e), "(1 + (2 * 3))");
    let e = parse_infix_expr(vec![op('*'), op('+')], vec![1, 2, 3]);
    assert_eq!(render(e), "((1 * 2) + 3)");
}

#[test]
fn equal_precedence_associates_left() {
    let e = parse_infix_expr(vec![op('-'), op('-'), op('+')], vec![1, 2, 3, 4]);
    assert_eq!(render(e), "(((1 - 2) - 3) + 4)");
}

#[test]
fn mixed_expression() {
    let e = parse_infix_expr(vec![op('+'), op('*'), op('^'), op('-')], vec![1, 2, 3, 4, 5]);
    assert_eq!(render(e), "((1 + (2 * (3 ^ 4))) - 5)");
}

#[test]
fn bop_wrapper_keeps_value_and_precedence() {
    let w = BopWrapper::new("and", 7);
    assert_eq!(w.precedence(), 7);
    assert_eq!(w.unwrap(), "and");
}

#[test]
fn combine_builds_a_node() {
    let e: InfixExpr<BopWrapper<char>, i32> = InfixExpr::E(1).combine(op('+'), InfixExpr::E(2));
    assert_eq!(render(e), "(1 + 2)");
}

#[test]
fn cursor_moves_to_its_end() {
    let mut c = Cursor::new(2);
    assert_eq!(*c, 0);
    assert_eq!(c.get(), Some(0));
    assert!(!c.reach_end());
    c.inc();
    assert_eq!(c.get(), Some(1));
    c.inc();
    assert!(c.reach_end());
    assert_eq!(c.get(), None);
}

fn tok(interner: &mut Interner, name: &str, from: usize, end: usize) -> Token {
    let n = str2sym(interner, name);
    let v = str2sym(interner, "v");
    Token { name: n, value: v, span: Span { from, end } }
}

#[test]
fn token_tree_span_and_ends() {
    let mut interner = Interner::new();
    let t1 = tok(&mut interner, "a", 2, 3);
    let t2 = tok(&mut interner, "b", 4, 7);
    let inner = TokenTree::new(vec![("b".to_string(), SyntaxNode::E(t2))]);
    let empty: TokenTree<String> = TokenTree::new(vec![]);
    let tt = TokenTree::new(vec![
        ("x".to_string(), SyntaxNode::T(empty)),
        ("a".to_string(), SyntaxNode::E(t1)),
        ("B".to_string(), SyntaxNode::T(inner)),
    ]);
    assert_eq!(tt.len(), 3);
    assert_eq!(tt.iter().len(), 3);
    assert_eq!(tt.tok_1st(), Some(&t1));
    assert_eq!(tt.tok_last(), Some(&t2));
    assert_eq!(tt.span(), Span { from: 2, end: 7 });
    assert_eq!(tt.subs[2].1.span(), Span { from: 4, end: 7 });
    assert_eq!(tt.subs[1].1.as_tok(), &t1);
    assert_eq!(tt.subs[2].1.as_tt().len(), 1);
    assert_eq!(tt.subs[0].1.tok_1st(), None);
    assert_eq!(tt.subs[0].1.span(), Span { from: 0, end: 0 });
}

#[test]
fn move_elem_leaves_eof_behind() {
    let mut interner = Interner::new();
    let t1 = tok(&mut interner, "a", 0, 1);
    let t2 = tok(&mut interner, "b", 1, 2);
    let mut tt = TokenTree::new(vec![
        ("a".to_string(), SyntaxNode::E(t1)),
        ("b".to_string(), SyntaxNode::E(t2)),
    ]);
    let (kind, node) = tt.move_elem(&mut interner, 0);
    assert_eq!(kind, "a");
    assert_eq!(node.as_tok(), &t1);
    assert_eq!(tt.len(), 2);
    assert_eq!(tt.subs[0].0, "");
    assert_eq!(tt.subs[0].1.as_tok().name_string(&interner), "eof");
    assert_eq!(tt.subs[1].1.as_tok(), &t2);
    let sub = SyntaxNode::T(TokenTree::new(vec![("a".to_string(), SyntaxNode::E(t1))]));
    assert_eq!(sub.into_tt().len(), 1);
}
