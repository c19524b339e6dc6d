//! Regular-expression matchers: token matchers and character matchers.
use super::interner::{lemma_prefix_refl, lemma_prefix_trans, str2sym, try_str2sym, Interner, Symbol};
use super::srcfile::Span;
use super::text::bytes_of;
use super::token::Token;
use super::tokenize::{TokenMatchResult, TokenizeErrorReason};
use vstd::prelude::*;
use vstd::string::StrSliceExecFns;
use vstd::string::StringExecFns;

verus! {

/// `regex::Regex::new(pat)` succeeds.
pub uninterp spec fn regex_valid(pat: Seq<char>) -> bool;

/// The first match of the regular expression `pat` in `text`, as
/// `regex::Regex::captures` finds it: `None` when `pat` does not compile,
/// `Some(None)` when nothing matches, else the byte length of the whole match
/// and the text of capture group `group`, if it took part in the match.
pub uninterp spec fn regex_captures(pat: Seq<char>, text: Seq<char>, group: usize) -> Option<
    Option<(usize, Option<Seq<char>>)>,
>;

/// Whether the regular expression `pat` matches somewhere in `text`
/// (`regex::Regex::is_match`); `None` when `pat` does not compile.
pub uninterp spec fn regex_is_match(pat: Seq<char>, text: Seq<char>) -> Option<bool>;

/// A first match of `pat` in `text`, if any, has a capture group 1.
pub open spec fn group_one_taken(pat: Seq<char>, text: Seq<char>) -> bool {
    match regex_captures(pat, text, 1) {
        Some(Some((n, g))) => g is Some,
        _ => true,
    }
}

/// The pattern of a token rule: `pat` as one group, anchored at the start of
/// the text.
pub open spec fn anchored(pat: Seq<char>) -> Seq<char> {
    seq!['^', '('] + pat + seq![')']
}

/// `regex::Regex::new(pat).is_ok()`.
#[verifier::external_body]
fn regex_compiles(pat: &str) -> (r: bool)
    ensures
        r == regex_valid(pat@),
{
    regex::Regex::new(pat).is_ok()
}

/// `regex::Regex::new(pat)` followed by `captures(text)`: the byte length of
/// the whole match (`Captures::get_match`) and capture group `group`
/// (`Captures::get`). The match is a part of `text`, so its length is at most
/// that of `text`.
#[verifier::external_body]
fn regex_group(pat: &str, text: &str, group: usize) -> (r: Option<Option<(usize, Option<String>)>>)
    ensures
        r.deep_view() == regex_captures(pat@, text@, group),
        r is Some <==> regex_valid(pat@),
        r matches Some(Some((n, g))) ==> n <= bytes_of(text@).len(),
{
    regex::Regex::new(pat).ok().map(
        |re| re.captures(text).map(|cap| (cap.get_match().as_str().len(), cap.get(group).map(|m| m.as_str().to_owned())))
    )
}

/// `regex::Regex::new(pat)` followed by `is_match(text)`.
#[verifier::external_body]
fn regex_match(pat: &str, text: &str) -> (r: Option<bool>)
    ensures
        r == regex_is_match(pat@, text@),
        r is Some <==> regex_valid(pat@),
{
    regex::Regex::new(pat).ok().map(|re| re.is_match(text))
}

/// A regular expression that compiles, kept as its pattern text.
#[derive(Debug)]
pub struct Regex {
    pat: String,
}

impl Regex {
    #[verifier::type_invariant]
    spec fn inv(self) -> bool {
        regex_valid(self.pat@)
    }

    /// The pattern text.
    pub closed spec fn pattern(self) -> Seq<char> {
        self.pat@
    }

    /// The regular expression `patstr`, which must compile.
    pub fn new(patstr: &str) -> (r: Regex)
        requires
            regex_valid(patstr@),
        ensures
            r.pattern() == patstr@,
    {
        Regex { pat: patstr.to_owned() }
    }

    /// The regular expression `patstr`, or `None` when it does not compile.
    pub fn try_new(patstr: &str) -> (r: Option<Regex>)
        ensures
            r is Some <==> regex_valid(patstr@),
            r matches Some(m) ==> m.pattern() == patstr@,
    {
        if regex_compiles(patstr) {
            Some(Regex::new(patstr))
        } else {
            None
        }
    }

    /// The pattern text.
    pub fn as_str(&self) -> (r: &str)
        ensures
            r@ == self.pattern(),
    {
        self.pat.as_str()
    }

    /// Whether the regular expression matches somewhere in `text`.
    pub fn is_match(&self, text: &str) -> (r: bool)
        ensures
            regex_is_match(self.pattern(), text@) == Some(r),
    {
        proof {
            use_type_invariant(self);
        }
        match regex_match(self.pat.as_str(), text) {
            Some(b) => b,
            None => false,
        }
    }

    /// The first match in `text`: its byte length and the text of capture
    /// group `group`, if it took part; `None` when nothing matches.
    pub fn captures(&self, text: &str, group: usize) -> (r: Option<(usize, Option<String>)>)
        ensures
            regex_captures(self.pattern(), text@, group) == Some(r.deep_view()),
            r matches Some((n, g)) ==> n <= bytes_of(text@).len(),
    {
        proof {
            use_type_invariant(self);
        }
        match regex_group(self.pat.as_str(), text, group) {
            Some(x) => x,
            None => None,
        }
    }
}

/// A token matcher: a regular expression whose first capture group is the
/// token's value, and the name the token gets.
pub struct TokenMatcher {
    pat: Regex,
    tok_name: Symbol,
}

impl TokenMatcher {
    /// The regular expression.
    pub closed spec fn pattern(self) -> Seq<char> {
        self.pat.pattern()
    }

    /// The name of the tokens it makes.
    pub closed spec fn name(self) -> Symbol {
        self.tok_name
    }

    /// The name of the tokens it makes.
    pub fn tok_name(&self) -> (r: Symbol)
        ensures
            r == self.name(),
    {
        self.tok_name
    }

    /// A matcher of the regular expression `patstr` for tokens named
    /// `tok_name`; `patstr` must compile.
    pub fn new(interner: &mut Interner, patstr: &str, tok_name: &str) -> (r: TokenMatcher)
        requires
            regex_valid(patstr@),
            old(interner).wf(),
            old(interner).can_intern(tok_name@),
        ensures
            r.pattern() == patstr@,
            final(interner).wf(),
            old(interner)@.is_prefix_of(final(interner)@),
            final(interner).holds(r.name()),
            final(interner).str_of(r.name()) == tok_name@,
            final(interner)@.len() <= old(interner)@.len() + 1,
    {
        let ghost s0 = interner@;
        let sym = str2sym(interner, tok_name);
        proof {
            assert(s0.is_prefix_of(interner@));
        }
        TokenMatcher { pat: Regex::new(patstr), tok_name: sym }
    }

    /// A matcher of the regular expression `patstr`, or `None` when it does
    /// not compile.
    pub fn try_new(interner: &mut Interner, patstr: &str, tok_name: &str) -> (r: Option<TokenMatcher>)
        requires
            old(interner).wf(),
            old(interner).can_intern(tok_name@),
        ensures
            r is Some <==> regex_valid(patstr@),
            final(interner).wf(),
            old(interner)@.is_prefix_of(final(interner)@),
            final(interner)@.len() <= old(interner)@.len() + 1,
            r matches Some(m) ==> m.pattern() == patstr@ && final(interner).holds(m.name())
                && final(interner).str_of(m.name()) == tok_name@,
    {
        if regex_compiles(patstr) {
            Some(TokenMatcher::new(interner, patstr, tok_name))
        } else {
            proof {
                lemma_prefix_refl(interner@);
            }
            None
        }
    }

    /// The matcher of a token rule `tok_name => patstr`: the pattern, as one
    /// group, anchored at the start of the text; `None` when that does not
    /// compile.
    pub fn try_rule(interner: &mut Interner, tok_name: &str, patstr: &str) -> (r: Option<TokenMatcher>)
        requires
            old(interner).wf(),
            old(interner).can_intern(tok_name@),
        ensures
            r is Some <==> regex_valid(anchored(patstr@)),
            final(interner).wf(),
            old(interner)@.is_prefix_of(final(interner)@),
            final(interner)@.len() <= old(interner)@.len() + 1,
            r matches Some(m) ==> m.pattern() == anchored(patstr@) && final(interner).holds(m.name())
                && final(interner).str_of(m.name()) == tok_name@,
    {
        let mut p = String::new();
        p.append("^(");
        p.append(patstr);
        p.append(")");
        proof {
            reveal_strlit("^(");
            reveal_strlit(")");
            assert(p@ =~= anchored(patstr@));
        }
        TokenMatcher::try_new(interner, p.as_str(), tok_name)
    }

    /// The token that the regular expression finds first in `text`, which
    /// sits at byte offset `start`: the match's length gives the span and
    /// capture group 1 the value; `None` when nothing matches. Group 1 must
    /// take part in a match. `UnrecognizedToken` where the interner is full
    /// and the value is new to it.
    pub fn fetch_tok(&self, interner: &mut Interner, text: &str, start: usize) -> (r: Option<TokenMatchResult>)
        requires
            old(interner).wf(),
            old(interner).holds(self.name()),
            start + bytes_of(text@).len() <= usize::MAX,
            group_one_taken(self.pattern(), text@),
        ensures
            final(interner).wf(),
            old(interner)@.is_prefix_of(final(interner)@),
            final(interner)@.len() <= old(interner)@.len() + 1,
            r matches Some(Ok(t)) ==> t.valid_in(final(interner)@),
            regex_captures(self.pattern(), text@, 1) is Some,
            regex_captures(self.pattern(), text@, 1) == Some(None::<(usize, Option<Seq<char>>)>) ==> r is None,
            regex_captures(self.pattern(), text@, 1) matches Some(Some((n, g))) ==> (r matches Some(Err(e))
                ==> e == TokenizeErrorReason::UnrecognizedToken && final(interner)@.len() >= u32::MAX),
            final(interner)@.len() < u32::MAX ==> (regex_captures(self.pattern(), text@, 1) matches Some(
                Some((n, g)),
            ) ==> (r matches Some(Ok(t)) && t.name == self.name() && t.value_in(final(interner)@) == g->0
                && t.span.from == start && t.span.end == start + n)),
    {
        proof {
            lemma_prefix_refl(interner@);
        }
        match self.pat.captures(text, 1) {
            None => None,
            Some((n, g)) => {
                match g {
                    None => {
                        proof {
                            assert(false);
                        }
                        None
                    },
                    Some(m) => {
                        let ghost s0 = interner@;
                        match try_str2sym(interner, m.as_str()) {
                            None => Some(Err(TokenizeErrorReason::UnrecognizedToken)),
                            Some(value) => {
                                let span = Span { from: start, end: start + n };
                                Some(Ok(Token { name: self.tok_name, value, span }))
                            },
                        }
                    },
                }
            },
        }
    }

    /// `fetch_tok`, or `None` where the first match has no group 1.
    pub fn try_fetch_tok(&self, interner: &mut Interner, text: &str, start: usize) -> (r: Option<
        Option<TokenMatchResult>,
    >)
        requires
            old(interner).wf(),
            old(interner).holds(self.name()),
            start + bytes_of(text@).len() <= usize::MAX,
        ensures
            final(interner).wf(),
            old(interner)@.is_prefix_of(final(interner)@),
            final(interner)@.len() <= old(interner)@.len() + 1,
            r matches Some(Some(Ok(t))) ==> t.valid_in(final(interner)@),
            group_one_taken(self.pattern(), text@) <==> r is Some,
            regex_captures(self.pattern(), text@, 1) is Some,
            regex_captures(self.pattern(), text@, 1) == Some(None::<(usize, Option<Seq<char>>)>) ==> r == Some(
                None::<TokenMatchResult>,
            ),
            r matches Some(Some(Err(e))) ==> e == TokenizeErrorReason::UnrecognizedToken && final(interner)@.len()
                >= u32::MAX,
            final(interner)@.len() < u32::MAX ==> (regex_captures(self.pattern(), text@, 1) matches Some(
                Some((n, g)),
            ) ==> (g is Some ==> (r matches Some(Some(Ok(t))) && t.name == self.name() && t.value_in(
                final(interner)@,
            ) == g->0 && t.span.from == start && t.span.end == start + n))),
    {
        match self.pat.captures(text, 1) {
            Some((_, None)) => {
                proof {
                    lemma_prefix_refl(interner@);
                }
                None
            },
            _ => Some(self.fetch_tok(interner, text, start)),
        }
    }
}

/// Decides whether a character belongs to a class.
pub trait CharMatcher {
    /// Whether `c` belongs to the class.
    spec fn spec_is_match(&self, c: char) -> bool;

    fn is_match(&self, c: char) -> (r: bool)
        ensures
            r == self.spec_is_match(c),
    ;
}

/// Matches one character: the first of the string it was made from.
#[derive(Debug)]
pub struct SimpleCharMatcher {
    target: char,
}

impl SimpleCharMatcher {
    /// The character it matches.
    pub closed spec fn target(self) -> char {
        self.target
    }

    /// Matches the first character of `s`, which must not be empty.
    pub fn new(s: &str) -> (r: SimpleCharMatcher)
        requires
            s@.len() > 0,
        ensures
            r.target() == s@[0],
    {
        SimpleCharMatcher { target: s.get_char(0) }
    }

    /// Whether `c` is the character.
    pub fn matches(&self, c: char) -> (r: bool)
        ensures
            r == (c == self.target()),
    {
        self.target == c
    }
}

impl CharMatcher for SimpleCharMatcher {
    open spec fn spec_is_match(&self, c: char) -> bool {
        c == self.target()
    }

    fn is_match(&self, c: char) -> (r: bool) {
        self.matches(c)
    }
}

/// Matches the characters that a regular expression matches, each taken as a
/// one-character string.
#[derive(Debug)]
pub struct RegexCharMatcher {
    pat: Regex,
}

impl RegexCharMatcher {
    /// The regular expression.
    pub closed spec fn pattern(self) -> Seq<char> {
        self.pat.pattern()
    }

    /// A matcher of the regular expression `patstr`, which must compile.
    pub fn new(patstr: &str) -> (r: RegexCharMatcher)
        requires
            regex_valid(patstr@),
        ensures
            r.pattern() == patstr@,
    {
        RegexCharMatcher { pat: Regex::new(patstr) }
    }

    /// A matcher of the regular expression `patstr`, or `None` when it does
    /// not compile.
    pub fn try_new(patstr: &str) -> (r: Option<RegexCharMatcher>)
        ensures
            r is Some <==> regex_valid(patstr@),
            r matches Some(m) ==> m.pattern() == patstr@,
    {
        match Regex::try_new(patstr) {
            Some(p) => Some(RegexCharMatcher { pat: p }),
            None => None,
        }
    }

    /// Whether the regular expression matches `c`.
    pub fn matches(&self, c: char) -> (r: bool)
        ensures
            regex_is_match(self.pattern(), seq![c]) == Some(r),
    {
        let mut s = String::new();
        super::text::string_push(&mut s, c);
        proof {
            assert(s@ =~= seq![c]);
        }
        self.pat.is_match(s.as_str())
    }
}

impl CharMatcher for RegexCharMatcher {
    open spec fn spec_is_match(&self, c: char) -> bool {
        regex_is_match(self.pattern(), seq![c]) == Some(true)
    }

    fn is_match(&self, c: char) -> (r: bool) {
        self.matches(c)
    }
}

} // verus!
