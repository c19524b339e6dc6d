//! Grammars written as Rust tokens, as the `grammer!` form takes them:
//!
//! ```text
//! Prog: | [Stmt]* <eof>
//! Stmt: | <id> <eq> [Expr] | <semi>
//! ```
//!
//! A derivation is an identifier and `:`, then its choices, each after a
//! `|`; a right-hand symbol is `[Name]` or `<name>`, with an optional `*`,
//! `?` or `+` after it. Whitespace, line comments and (nested) block
//! comments separate the tokens; doc comments are refused. Identifiers follow
//! Rust: `_` or an `XID_Start` character, then `XID_Continue` characters, and
//! not a keyword; a raw identifier `r#word` keeps its `r#`.
use crate::lexer::token::{find_str, in_strs};
use crate::spec::{Deriv, DerivView, Occ, RhStr, RhView, BNF};
use crate::spec_parse::{choices_view, derivs_view};
use vstd::prelude::*;

verus! {

/// A token of a grammar written as Rust tokens.
pub enum GTok {
    Ident(String),
    Colon,
    Bar,
    LBrack,
    RBrack,
    Lt,
    Gt,
    Star,
    Question,
    Plus,
}

/// A token as a plain value.
pub enum GTokView {
    Ident(Seq<char>),
    Colon,
    Bar,
    LBrack,
    RBrack,
    Lt,
    Gt,
    Star,
    Question,
    Plus,
}

impl View for GTok {
    type V = GTokView;

    open spec fn view(&self) -> GTokView {
        match self {
            GTok::Ident(s) => GTokView::Ident(s@),
            GTok::Colon => GTokView::Colon,
            GTok::Bar => GTokView::Bar,
            GTok::LBrack => GTokView::LBrack,
            GTok::RBrack => GTokView::RBrack,
            GTok::Lt => GTokView::Lt,
            GTok::Gt => GTokView::Gt,
            GTok::Star => GTokView::Star,
            GTok::Question => GTokView::Question,
            GTok::Plus => GTokView::Plus,
        }
    }
}

/// The views of a list of tokens.
pub open spec fn gtoks_view(v: Seq<GTok>) -> Seq<GTokView> {
    v.map_values(|t: GTok| t@)
}

/// Whether a character outside ASCII has Unicode's `XID_Start` property
/// (`unicode_ident::is_xid_start`).
pub uninterp spec fn xid_start(c: char) -> bool;

/// Whether a character outside ASCII has Unicode's `XID_Continue` property
/// (`unicode_ident::is_xid_continue`).
pub uninterp spec fn xid_continue(c: char) -> bool;

/// `unicode_ident::is_xid_start`: among ASCII characters exactly the letters.
#[verifier::external_body]
fn unicode_xid_start(c: char) -> (r: bool)
    ensures
        r == (if (c as u32) < 128 {
            ('a' <= c && c <= 'z') || ('A' <= c && c <= 'Z')
        } else {
            xid_start(c)
        }),
{
    unicode_ident::is_xid_start(c)
}

/// `unicode_ident::is_xid_continue`: among ASCII characters exactly the
/// letters, the digits and `_`.
#[verifier::external_body]
fn unicode_xid_continue(c: char) -> (r: bool)
    ensures
        r == (if (c as u32) < 128 {
            ('a' <= c && c <= 'z') || ('A' <= c && c <= 'Z') || ('0' <= c && c <= '9') || c == '_'
        } else {
            xid_continue(c)
        }),
{
    unicode_ident::is_xid_continue(c)
}

/// A character that may continue an identifier: one with `XID_Continue`.
pub open spec fn is_ident_char(c: char) -> bool {
    if (c as u32) < 128 {
        ('a' <= c <= 'z') || ('A' <= c <= 'Z') || ('0' <= c <= '9') || c == '_'
    } else {
        xid_continue(c)
    }
}

/// A character that may start an identifier: `_` or one with `XID_Start`.
pub open spec fn is_ident_start(c: char) -> bool {
    c == '_' || if (c as u32) < 128 {
        ('a' <= c <= 'z') || ('A' <= c <= 'Z')
    } else {
        xid_start(c)
    }
}

/// Whitespace between tokens: Unicode's `Pattern_White_Space`.
pub open spec fn is_blank(c: char) -> bool {
    let u = c as u32;
    ||| c == ' ' || c == '\t' || c == '\n' || c == '\r'
    ||| u == 0x0b || u == 0x0c || u == 0x85 || u == 0x200e || u == 0x200f || u == 0x2028 || u == 0x2029
}

/// The end of the identifier characters from `i` on.
pub open spec fn ident_end(cs: Seq<char>, i: int) -> int
    decreases cs.len() - i,
{
    if 0 <= i < cs.len() && is_ident_char(cs[i]) {
        ident_end(cs, i + 1)
    } else {
        i
    }
}

/// The end of the line from `i` on: the line break, or the end of the text.
pub open spec fn comment_end(cs: Seq<char>, i: int) -> int
    decreases cs.len() - i,
{
    if 0 <= i < cs.len() && cs[i] != '\n' {
        comment_end(cs, i + 1)
    } else {
        i
    }
}

/// The identifier characters from `i` on end within the text.
pub proof fn lemma_ident_end(cs: Seq<char>, i: int)
    requires
        0 <= i <= cs.len(),
    ensures
        i <= ident_end(cs, i) <= cs.len(),
        forall|k: int| i <= k < ident_end(cs, i) ==> is_ident_char(#[trigger] cs[k]),
        ident_end(cs, i) < cs.len() ==> !is_ident_char(cs[ident_end(cs, i)]),
    decreases cs.len() - i,
{
    if i < cs.len() && is_ident_char(cs[i]) {
        lemma_ident_end(cs, i + 1);
    }
}

/// The line from `i` on ends within the text.
pub proof fn lemma_comment_end(cs: Seq<char>, i: int)
    requires
        0 <= i <= cs.len(),
    ensures
        i <= comment_end(cs, i) <= cs.len(),
        comment_end(cs, i) < cs.len() ==> cs[comment_end(cs, i)] == '\n',
    decreases cs.len() - i,
{
    if i < cs.len() && cs[i] != '\n' {
        lemma_comment_end(cs, i + 1);
    }
}

/// The words that Rust reserves, and that are no identifiers.
pub open spec fn keywords() -> Seq<&'static str> {
    seq![
        "_", "abstract", "as", "async", "await", "become", "box", "break", "const", "continue", "crate", "do",
        "dyn", "else", "enum", "extern", "false", "final", "fn", "for", "if", "impl", "in", "let", "loop",
        "macro", "match", "mod", "move", "mut", "override", "priv", "pub", "ref", "return", "Self", "self",
        "static", "struct", "super", "trait", "true", "try", "type", "typeof", "unsafe", "unsized", "use",
        "virtual", "where", "while", "yield",
    ]
}

/// The words that cannot be written as raw identifiers (`r#word`).
pub open spec fn raw_refused() -> Seq<&'static str> {
    seq!["_", "crate", "self", "super", "Self"]
}

/// `w` is a word that Rust reserves.
pub open spec fn is_keyword(w: Seq<char>) -> bool {
    in_strs(keywords(), w)
}

/// The token a punctuation character makes.
pub open spec fn punct_tok(c: char) -> Option<GTokView> {
    if c == ':' {
        Some(GTokView::Colon)
    } else if c == '|' {
        Some(GTokView::Bar)
    } else if c == '[' {
        Some(GTokView::LBrack)
    } else if c == ']' {
        Some(GTokView::RBrack)
    } else if c == '<' {
        Some(GTokView::Lt)
    } else if c == '>' {
        Some(GTokView::Gt)
    } else if c == '*' {
        Some(GTokView::Star)
    } else if c == '?' {
        Some(GTokView::Question)
    } else if c == '+' {
        Some(GTokView::Plus)
    } else {
        None
    }
}

/// Where the block comment whose body runs from `i` on ends, `depth` comments
/// being open: the position after the `*/` that closes the outermost one, or
/// `None` when the text ends first. Block comments nest.
pub open spec fn block_end(cs: Seq<char>, i: int, depth: nat) -> Option<int>
    decreases cs.len() - i,
{
    if i < 0 || i >= cs.len() {
        None
    } else if cs[i] == '*' && i + 1 < cs.len() && cs[i + 1] == '/' {
        if depth <= 1 {
            Some(i + 2)
        } else {
            block_end(cs, i + 2, (depth - 1) as nat)
        }
    } else if cs[i] == '/' && i + 1 < cs.len() && cs[i + 1] == '*' {
        block_end(cs, i + 2, depth + 1)
    } else {
        block_end(cs, i + 1, depth)
    }
}

/// A block comment ends after its start and within the text.
pub proof fn lemma_block_end(cs: Seq<char>, i: int, depth: nat)
    requires
        0 <= i,
    ensures
        block_end(cs, i, depth) matches Some(j) ==> i < j <= cs.len(),
    decreases cs.len() - i,
{
    if 0 <= i < cs.len() {
        if cs[i] == '*' && i + 1 < cs.len() && cs[i + 1] == '/' {
            if depth > 1 {
                lemma_block_end(cs, i + 2, (depth - 1) as nat);
            }
        } else if cs[i] == '/' && i + 1 < cs.len() && cs[i + 1] == '*' {
            lemma_block_end(cs, i + 2, depth + 1);
        } else {
            lemma_block_end(cs, i + 1, depth);
        }
    }
}

/// `/*` at `i` opens a doc comment: `/**` not followed by `*` or `/`, or
/// `/*!`.
pub open spec fn is_doc_block(cs: Seq<char>, i: int) -> bool {
    ||| (i + 2 < cs.len() && cs[i + 2] == '!')
    ||| (i + 2 < cs.len() && cs[i + 2] == '*' && !(i + 3 < cs.len() && (cs[i + 3] == '*' || cs[i + 3] == '/')))
}

/// `//` at `i` opens a doc comment: `///` not followed by another `/`, or
/// `//!`.
pub open spec fn is_doc_comment(cs: Seq<char>, i: int) -> bool {
    ||| (i + 2 < cs.len() && cs[i + 2] == '!')
    ||| (i + 2 < cs.len() && cs[i + 2] == '/' && !(i + 3 < cs.len() && cs[i + 3] == '/'))
}

/// The tokens of the characters `cs[i..]`, after the tokens `acc`; `None` at
/// a character that starts no token, a keyword, a word that cannot be raw, a
/// doc comment, or a block comment that does not end.
pub open spec fn lex_grammar(cs: Seq<char>, i: int, acc: Seq<GTokView>) -> Option<Seq<GTokView>>
    decreases cs.len() - i,
{
    if i < 0 || i >= cs.len() {
        Some(acc)
    } else {
        let c = cs[i];
        if is_blank(c) {
            lex_grammar(cs, i + 1, acc)
        } else if c == '/' {
            if i + 1 < cs.len() && cs[i + 1] == '/' && !is_doc_comment(cs, i) {
                proof {
                    lemma_comment_end(cs, i + 2);
                }
                lex_grammar(cs, comment_end(cs, i + 2), acc)
            } else if i + 1 < cs.len() && cs[i + 1] == '*' && !is_doc_block(cs, i) {
                proof {
                    lemma_block_end(cs, i + 2, 1);
                }
                match block_end(cs, i + 2, 1) {
                    None => None,
                    Some(j) => lex_grammar(cs, j, acc),
                }
            } else {
                None
            }
        } else if c == 'r' && i + 2 < cs.len() && cs[i + 1] == '#' && is_ident_start(cs[i + 2]) {
            proof {
                lemma_ident_end(cs, i + 3);
            }
            let j = ident_end(cs, i + 3);
            if in_strs(raw_refused(), cs.subrange(i + 2, j)) {
                None
            } else {
                lex_grammar(cs, j, acc.push(GTokView::Ident(cs.subrange(i, j))))
            }
        } else if is_ident_start(c) {
            proof {
                lemma_ident_end(cs, i + 1);
            }
            let j = ident_end(cs, i + 1);
            let w = cs.subrange(i, j);
            if is_keyword(w) {
                None
            } else {
                lex_grammar(cs, j, acc.push(GTokView::Ident(w)))
            }
        } else {
            match punct_tok(c) {
                Some(t) => lex_grammar(cs, i + 1, acc.push(t)),
                None => None,
            }
        }
    }
}

/// An ASCII letter, digit or `_`.
pub open spec fn is_ascii_word_char(c: char) -> bool {
    ('a' <= c <= 'z') || ('A' <= c <= 'Z') || ('0' <= c <= '9') || c == '_'
}

/// The identifier characters from `k` on run to `j` when the characters
/// before `j` are ASCII word characters and the one at `j`, if any, is an
/// ASCII character that is none.
proof fn lemma_ident_end_at(cs: Seq<char>, k: int, j: int)
    requires
        0 <= k <= j <= cs.len(),
        forall|m: int| k <= m < j ==> is_ascii_word_char(#[trigger] cs[m]),
        j == cs.len() || ((cs[j] as u32) < 128 && !is_ascii_word_char(cs[j])),
    ensures
        ident_end(cs, k) == j,
    decreases j - k,
{
    if k < j {
        assert(is_ascii_word_char(cs[k]));
        lemma_ident_end_at(cs, k + 1, j);
    }
}

/// A word of ASCII letters, digits and `_` that starts with a letter or `_`
/// and is no keyword lexes as one identifier holding the whole word, digits
/// included, when the character after it (if any) is ASCII and neither a word
/// character nor `#`.
pub proof fn lemma_ascii_word_lexes(cs: Seq<char>, i: int, j: int, acc: Seq<GTokView>)
    requires
        0 <= i < j <= cs.len(),
        ('a' <= cs[i] <= 'z') || ('A' <= cs[i] <= 'Z') || cs[i] == '_',
        forall|m: int| i <= m < j ==> is_ascii_word_char(#[trigger] cs[m]),
        j == cs.len() || ((cs[j] as u32) < 128 && !is_ascii_word_char(cs[j]) && cs[j] != '#'),
        !is_keyword(cs.subrange(i, j)),
    ensures
        lex_grammar(cs, i, acc) == lex_grammar(cs, j, acc.push(GTokView::Ident(cs.subrange(i, j)))),
{
    lemma_ident_end_at(cs, i + 1, j);
    if i + 1 < j {
        assert(is_ascii_word_char(cs[i + 1]));
    }
}

/// A Rust keyword is no identifier: a word of ASCII letters, digits and `_`
/// that is a keyword stops the lexing.
pub proof fn lemma_keyword_refused(cs: Seq<char>, i: int, j: int, acc: Seq<GTokView>)
    requires
        0 <= i < j <= cs.len(),
        ('a' <= cs[i] <= 'z') || ('A' <= cs[i] <= 'Z') || cs[i] == '_',
        forall|m: int| i <= m < j ==> is_ascii_word_char(#[trigger] cs[m]),
        j == cs.len() || ((cs[j] as u32) < 128 && !is_ascii_word_char(cs[j]) && cs[j] != '#'),
        is_keyword(cs.subrange(i, j)),
    ensures
        lex_grammar(cs, i, acc) is None,
{
    lemma_ident_end_at(cs, i + 1, j);
    if i + 1 < j {
        assert(is_ascii_word_char(cs[i + 1]));
    }
}

/// A digit cannot start a token: the text does not lex from there.
pub proof fn lemma_digit_starts_nothing(cs: Seq<char>, i: int, acc: Seq<GTokView>)
    requires
        0 <= i < cs.len(),
        '0' <= cs[i] <= '9',
    ensures
        lex_grammar(cs, i, acc) is None,
{
}

/// The occurrence that the token at `p` writes, and the position after it.
pub open spec fn g_occ(t: Seq<GTokView>, p: int) -> (Occ, int) {
    if 0 <= p < t.len() && t[p] is Star {
        (Occ::Any, p + 1)
    } else if 0 <= p < t.len() && t[p] is Question {
        (Occ::AtMostOne, p + 1)
    } else if 0 <= p < t.len() && t[p] is Plus {
        (Occ::OneOrMore, p + 1)
    } else {
        (Occ::JustOne, p)
    }
}

/// Reading the symbols of a choice from `p` on, after the symbols `rh`: the
/// choice and the position after it; `None` where a bracket does not hold one
/// identifier.
pub open spec fn g_rhstr(t: Seq<GTokView>, p: int, rh: RhView) -> Option<(RhView, int)>
    decreases t.len() - p,
{
    if 0 <= p < t.len() && (t[p] is LBrack || t[p] is Lt) {
        if p + 2 < t.len() && t[p + 1] is Ident && ((t[p] is LBrack && t[p + 2] is RBrack) || (t[p] is Lt
            && t[p + 2] is Gt)) {
            let (o, q) = g_occ(t, p + 3);
            g_rhstr(t, q, rh.push((t[p + 1]->Ident_0, o)))
        } else {
            None
        }
    } else {
        Some((rh, p))
    }
}

/// Reading the choices of a derivation from `p` on, after the choices `chs`.
pub open spec fn g_choices(t: Seq<GTokView>, p: int, chs: Seq<RhView>) -> Option<(Seq<RhView>, int)>
    decreases t.len() - p,
{
    if 0 <= p < t.len() && t[p] is Bar {
        match g_rhstr(t, p + 1, Seq::empty()) {
            None => None,
            Some((rh, q)) => if q <= p || q > t.len() {
                None
            } else {
                g_choices(t, q, chs.push(rh))
            },
        }
    } else {
        Some((chs, p))
    }
}

/// Reading the derivations from `p` on, after the derivations `acc`.
pub open spec fn g_derivs(t: Seq<GTokView>, p: int, acc: Seq<DerivView>) -> Option<Seq<DerivView>>
    decreases t.len() - p,
{
    if p < 0 || p >= t.len() {
        Some(acc)
    } else if t[p] is Ident && p + 1 < t.len() && t[p + 1] is Colon {
        match g_choices(t, p + 2, Seq::empty()) {
            None => None,
            Some((chs, q)) => if q <= p || q > t.len() {
                None
            } else {
                g_derivs(t, q, acc.push((t[p]->Ident_0, chs)))
            },
        }
    } else {
        None
    }
}

/// The grammar that the text `src` writes as Rust tokens, or `None` where it
/// does not lex or parse.
pub open spec fn grammer_of(src: Seq<char>) -> Option<Seq<DerivView>> {
    match lex_grammar(src, 0, Seq::empty()) {
        None => None,
        Some(t) => g_derivs(t, 0, Seq::empty()),
    }
}


/// The characters of `s`.
pub(crate) fn chars_of(s: &str) -> (r: Vec<char>)
    ensures
        r@ == s@,
{
    let mut v: Vec<char> = Vec::new();
    for c in it: s.chars()
        invariant
            it.seq() == s@,
            v@ == s@.take(it.index() as int),
    {
        proof {
            assert(c == s@[it.index() as int]);
        }
        v.push(c);
        proof {
            assert(v@ =~= s@.take(it.index() + 1));
        }
    }
    proof {
        assert(s@.take(s@.len() as int) =~= s@);
    }
    v
}

/// Whether `c` may continue an identifier.
fn ident_char(c: char) -> (r: bool)
    ensures
        r == is_ident_char(c),
{
    unicode_xid_continue(c)
}

/// Whether `c` may start an identifier.
fn ident_start(c: char) -> (r: bool)
    ensures
        r == is_ident_start(c),
{
    c == '_' || unicode_xid_start(c)
}

/// Whether `c` is whitespace between tokens.
fn blank(c: char) -> (r: bool)
    ensures
        r == is_blank(c),
{
    let u = c as u32;
    c == ' ' || c == '\t' || c == '\n' || c == '\r' || u == 0x0b || u == 0x0c || u == 0x85 || u == 0x200e || u
        == 0x200f || u == 0x2028 || u == 0x2029
}

/// The token a punctuation character makes.
fn punct(c: char) -> (r: Option<GTok>)
    ensures
        match punct_tok(c) {
            None => r is None,
            Some(t) => r matches Some(x) && x@ == t,
        },
{
    if c == ':' {
        Some(GTok::Colon)
    } else if c == '|' {
        Some(GTok::Bar)
    } else if c == '[' {
        Some(GTok::LBrack)
    } else if c == ']' {
        Some(GTok::RBrack)
    } else if c == '<' {
        Some(GTok::Lt)
    } else if c == '>' {
        Some(GTok::Gt)
    } else if c == '*' {
        Some(GTok::Star)
    } else if c == '?' {
        Some(GTok::Question)
    } else if c == '+' {
        Some(GTok::Plus)
    } else {
        None
    }
}

/// The tokens of the characters `cs`, or `None` where they do not lex.
fn lex(cs: &Vec<char>) -> (r: Option<Vec<GTok>>)
    ensures
        match lex_grammar(cs@, 0, Seq::empty()) {
            None => r is None,
            Some(t) => r matches Some(v) && gtoks_view(v@) == t,
        },
{
    let kws: [&str; 52] = [
        "_", "abstract", "as", "async", "await", "become", "box", "break", "const", "continue", "crate", "do",
        "dyn", "else", "enum", "extern", "false", "final", "fn", "for", "if", "impl", "in", "let", "loop",
        "macro", "match", "mod", "move", "mut", "override", "priv", "pub", "ref", "return", "Self", "self",
        "static", "struct", "super", "trait", "true", "try", "type", "typeof", "unsafe", "unsized", "use",
        "virtual", "where", "while", "yield",
    ];
    let kw = vstd::array::array_as_slice(&kws);
    let raws: [&str; 5] = ["_", "crate", "self", "super", "Self"];
    let raw = vstd::array::array_as_slice(&raws);
    let ghost top = lex_grammar(cs@, 0, Seq::empty());
    let n = cs.len();
    let mut out: Vec<GTok> = Vec::new();
    let mut i: usize = 0;
    proof {
        assert(gtoks_view(out@) =~= Seq::<GTokView>::empty());
    }
    while i < n
        invariant
            n == cs@.len(),
            i <= n,
            kw@ == keywords(),
            raw@ == raw_refused(),
            top == lex_grammar(cs@, 0, Seq::empty()),
            top == lex_grammar(cs@, i as int, gtoks_view(out@)),
        decreases n - i,
    {
        let c = cs[i];
        if blank(c) {
            i += 1;
        } else if c == '/' {
            let is_doc = (n - i > 2 && cs[i + 2] == '!') || (n - i > 2 && cs[i + 2] == '/' && !(n - i > 3 && cs[i
                + 3] == '/'));
            if n - i > 1 && cs[i + 1] == '/' && !is_doc {
                let mut j = i + 2;
                proof {
                    lemma_comment_end(cs@, i + 2);
                }
                while j < n && cs[j] != '\n'
                    invariant
                        n == cs@.len(),
                        i + 2 <= j <= n,
                        comment_end(cs@, i + 2) == comment_end(cs@, j as int),
                    decreases n - j,
                {
                    j += 1;
                }
                i = j;
            } else if n - i > 1 && cs[i + 1] == '*' && !((n - i > 2 && cs[i + 2] == '!') || (n - i > 2 && cs[i + 2]
                == '*' && !(n - i > 3 && (cs[i + 3] == '*' || cs[i + 3] == '/')))) {
                let mut j = i + 2;
                let mut depth: usize = 1;
                proof {
                    lemma_block_end(cs@, i + 2, 1);
                }
                loop
                    invariant_except_break
                        1 <= depth <= j,
                        block_end(cs@, i + 2, 1) == block_end(cs@, j as int, depth as nat),
                    invariant
                        n == cs@.len(),
                        i + 2 <= j <= n,
                        i < n,
                        top == lex_grammar(cs@, i as int, gtoks_view(out@)),
                        top == lex_grammar(cs@, 0, Seq::empty()),
                        cs@[i as int] == '/',
                        cs@[i + 1] == '*',
                        !is_doc_block(cs@, i as int),
                    ensures
                        block_end(cs@, i + 2, 1) == Some(j as int),
                    decreases n - j,
                {
                    if j >= n {
                        proof {
                            assert(block_end(cs@, j as int, depth as nat) is None);
                            assert(lex_grammar(cs@, i as int, gtoks_view(out@)) is None);
                        }
                        return None;
                    }
                    if cs[j] == '*' && j + 1 < n && cs[j + 1] == '/' {
                        if depth <= 1 {
                            j = j + 2;
                            break;
                        }
                        depth = depth - 1;
                        j = j + 2;
                    } else if cs[j] == '/' && j + 1 < n && cs[j + 1] == '*' {
                        depth = depth + 1;
                        j = j + 2;
                    } else {
                        j = j + 1;
                    }
                }
                i = j;
            } else {
                return None;
            }
        } else if c == 'r' && n - i > 2 && cs[i + 1] == '#' && ident_start(cs[i + 2]) {
            let mut j = i + 3;
            let mut w = String::new();
            let mut part = String::new();
            crate::lexer::text::string_push(&mut w, 'r');
            crate::lexer::text::string_push(&mut w, '#');
            crate::lexer::text::string_push(&mut w, cs[i + 2]);
            crate::lexer::text::string_push(&mut part, cs[i + 2]);
            proof {
                lemma_ident_end(cs@, i + 3);
                assert(w@ =~= cs@.subrange(i as int, j as int));
                assert(part@ =~= cs@.subrange(i + 2, j as int));
            }
            while j < n && ident_char(cs[j])
                invariant
                    n == cs@.len(),
                    i + 3 <= j <= n,
                    ident_end(cs@, i + 3) == ident_end(cs@, j as int),
                    w@ == cs@.subrange(i as int, j as int),
                    part@ == cs@.subrange(i + 2, j as int),
                decreases n - j,
            {
                crate::lexer::text::string_push(&mut w, cs[j]);
                crate::lexer::text::string_push(&mut part, cs[j]);
                j += 1;
                proof {
                    assert(w@ =~= cs@.subrange(i as int, j as int));
                    assert(part@ =~= cs@.subrange(i + 2, j as int));
                }
            }
            if find_str(raw, part.as_str()) {
                return None;
            }
            let ghost ob = out@;
            let ghost wv = w@;
            out.push(GTok::Ident(w));
            proof {
                assert(gtoks_view(out@) =~= gtoks_view(ob).push(GTokView::Ident(wv)));
            }
            i = j;
        } else if ident_start(c) {
            let mut j = i + 1;
            let mut w = String::new();
            crate::lexer::text::string_push(&mut w, c);
            proof {
                lemma_ident_end(cs@, i + 1);
                assert(w@ =~= cs@.subrange(i as int, j as int));
            }
            while j < n && ident_char(cs[j])
                invariant
                    n == cs@.len(),
                    i + 1 <= j <= n,
                    ident_end(cs@, i + 1) == ident_end(cs@, j as int),
                    w@ == cs@.subrange(i as int, j as int),
                decreases n - j,
            {
                crate::lexer::text::string_push(&mut w, cs[j]);
                j += 1;
                proof {
                    assert(w@ =~= cs@.subrange(i as int, j as int));
                }
            }
            if find_str(kw, w.as_str()) {
                return None;
            }
            let ghost ob = out@;
            let ghost wv = w@;
            out.push(GTok::Ident(w));
            proof {
                assert(gtoks_view(out@) =~= gtoks_view(ob).push(GTokView::Ident(wv)));
            }
            i = j;
        } else {
            match punct(c) {
                Some(t) => {
                    let ghost ob = out@;
                    let ghost tv = t@;
                    out.push(t);
                    proof {
                        assert(gtoks_view(out@) =~= gtoks_view(ob).push(tv));
                    }
                    i += 1;
                },
                None => {
                    return None;
                },
            }
        }
    }
    Some(out)
}

/// The occurrence that the token at `p` writes, and the position after it.
fn occ_at(t: &Vec<GTok>, p: usize) -> (r: (Occ, usize))
    requires
        p <= t@.len(),
    ensures
        (r.0, r.1 as int) == g_occ(gtoks_view(t@), p as int),
{
    if p < t.len() {
        match &t[p] {
            GTok::Star => (Occ::Any, p + 1),
            GTok::Question => (Occ::AtMostOne, p + 1),
            GTok::Plus => (Occ::OneOrMore, p + 1),
            _ => (Occ::JustOne, p),
        }
    } else {
        (Occ::JustOne, p)
    }
}

/// Reads the symbols of a choice from `p` on.
fn parse_rhstr(t: &Vec<GTok>, p: usize) -> (r: Option<(RhStr, usize)>)
    requires
        p <= t@.len(),
    ensures
        match g_rhstr(gtoks_view(t@), p as int, Seq::empty()) {
            None => r is None,
            Some((rh, q)) => r matches Some((x, e)) && x@ == rh && e == q && p <= e <= t@.len(),
        },
{
    let ghost tv = gtoks_view(t@);
    let ghost top = g_rhstr(tv, p as int, Seq::empty());
    let n = t.len();
    let mut rh = RhStr(Vec::new());
    let mut i = p;
    proof {
        assert(rh@ =~= Seq::<(Seq<char>, Occ)>::empty());
    }
    loop
        invariant
            tv == gtoks_view(t@),
            n == t@.len(),
            p <= i <= n,
            top == g_rhstr(tv, p as int, Seq::empty()),
            top == g_rhstr(tv, i as int, rh@),
        decreases n - i,
    {
        let opener = if i < n {
            match &t[i] {
                GTok::LBrack => 1u8,
                GTok::Lt => 2u8,
                _ => 0u8,
            }
        } else {
            0u8
        };
        if opener == 0 {
            return Some((rh, i));
        }
        if n - i <= 2 {
            return None;
        }
        let name = match &t[i + 1] {
            GTok::Ident(s) => s.clone(),
            _ => {
                return None;
            },
        };
        let closed = match &t[i + 2] {
            GTok::RBrack => opener == 1,
            GTok::Gt => opener == 2,
            _ => false,
        };
        if !closed {
            return None;
        }
        let (o, q) = occ_at(t, i + 3);
        let ghost rb = rh@;
        let ghost nv = name@;
        rh.0.push((name, o));
        proof {
            assert(rh@ =~= rb.push((nv, o)));
        }
        i = q;
    }
}

/// Reads the choices of a derivation from `p` on.
fn parse_choices(t: &Vec<GTok>, p: usize) -> (r: Option<(Vec<RhStr>, usize)>)
    requires
        p <= t@.len(),
    ensures
        match g_choices(gtoks_view(t@), p as int, Seq::empty()) {
            None => r is None,
            Some((chs, q)) => r matches Some((x, e)) && choices_view(x@) == chs && e == q && p <= e <= t@.len(),
        },
{
    let ghost tv = gtoks_view(t@);
    let ghost top = g_choices(tv, p as int, Seq::empty());
    let n = t.len();
    let mut chs: Vec<RhStr> = Vec::new();
    let mut i = p;
    proof {
        assert(choices_view(chs@) =~= Seq::<RhView>::empty());
    }
    loop
        invariant
            tv == gtoks_view(t@),
            n == t@.len(),
            p <= i <= n,
            top == g_choices(tv, p as int, Seq::empty()),
            top == g_choices(tv, i as int, choices_view(chs@)),
        decreases n - i,
    {
        let bar = i < n && match &t[i] {
            GTok::Bar => true,
            _ => false,
        };
        if !bar {
            return Some((chs, i));
        }
        let (rh, q) = match parse_rhstr(t, i + 1) {
            Some(x) => x,
            None => {
                return None;
            },
        };
        let ghost cb = chs@;
        let ghost rv = rh@;
        chs.push(rh);
        proof {
            assert(choices_view(chs@) =~= choices_view(cb).push(rv));
        }
        i = q;
    }
}

/// The grammar that the text `src` writes as Rust tokens: its derivations in
/// order; `None` where a character starts no token, where a word is a Rust
/// keyword, or where the tokens do not form derivations.
pub fn grammer(src: &str) -> (r: Option<BNF>)
    ensures
        match grammer_of(src@) {
            None => r is None,
            Some(ds) => r matches Some(b) && b@ == ds,
        },
{
    let cs = chars_of(src);
    let t = match lex(&cs) {
        Some(t) => t,
        None => {
            return None;
        },
    };
    let ghost tv = gtoks_view(t@);
    let ghost top = g_derivs(tv, 0, Seq::empty());
    let n = t.len();
    let mut ds: Vec<Deriv> = Vec::new();
    let mut i: usize = 0;
    proof {
        assert(derivs_view(ds@) =~= Seq::<DerivView>::empty());
    }
    while i < n
        invariant
            tv == gtoks_view(t@),
            n == t@.len(),
            i <= n,
            top == g_derivs(tv, 0, Seq::empty()),
            top == grammer_of(src@),
            top == g_derivs(tv, i as int, derivs_view(ds@)),
        decreases n - i,
    {
        let name = match &t[i] {
            GTok::Ident(s) => s.clone(),
            _ => {
                return None;
            },
        };
        let colon = i + 1 < n && match &t[i + 1] {
            GTok::Colon => true,
            _ => false,
        };
        if !colon {
            return None;
        }
        let (choices, q) = match parse_choices(&t, i + 2) {
            Some(x) => x,
            None => {
                return None;
            },
        };
        let ghost db = ds@;
        let ghost d = Deriv { lfsym: name, choices };
        ds.push(Deriv { lfsym: name, choices });
        proof {
            assert(derivs_view(ds@) =~= derivs_view(db).push(d@));
        }
        i = q;
    }
    Some(BNF(ds))
}

} // verus!
