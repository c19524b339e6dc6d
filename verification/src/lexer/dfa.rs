//! Lexing by a character automaton: each character moves the automaton, and a
//! transition flagged as a token end closes the token that the characters
//! before it make; a recognizer then names each closed token by the first of
//! its regular expressions that matches.
use super::interner::{intern_sym, lemma_prefix_refl, lemma_prefix_trans, str2sym, Interner, Symbol};
use super::pattern::{regex_is_match, regex_valid, CharMatcher, Regex, RegexCharMatcher, SimpleCharMatcher};
use super::srcfile::Span;
use super::text::{bytes_of, chars_between, is_boundary, substr};
use super::token::Token;
use std::collections::HashMap;
use vstd::prelude::*;
use vstd::string::StringSliceAdditionalSpecFns;
use vstd::string::StringExecFns;

verus! {

broadcast use vstd::std_specs::hash::group_hash_axioms;

/// A character class of an automaton's rule: one character, or the
/// characters a regular expression matches.
#[derive(Debug)]
pub enum CharRule {
    Simple(SimpleCharMatcher),
    Pattern(RegexCharMatcher),
}

impl CharMatcher for CharRule {
    open spec fn spec_is_match(&self, c: char) -> bool {
        match self {
            CharRule::Simple(m) => m.spec_is_match(c),
            CharRule::Pattern(m) => m.spec_is_match(c),
        }
    }

    fn is_match(&self, c: char) -> (r: bool) {
        match self {
            CharRule::Simple(m) => m.is_match(c),
            CharRule::Pattern(m) => m.is_match(c),
        }
    }
}

/// The rules of a state: a character class, the next state, and whether the
/// transition ends a token.
pub type DfaRules = Vec<(CharRule, (Symbol, bool))>;

/// An automaton: the rules of each state, keyed by the state's symbol.
pub type LexDFAMap = HashMap<usize, DfaRules>;

/// The name of the state an automaton starts in.
pub const ENTRY_ST: &'static str = "entry-state";

/// The symbol that the entry state gets in an interner holding `strs`.
pub open spec fn entry_sym(strs: Seq<Seq<char>>) -> Symbol {
    intern_sym(strs, ENTRY_ST@)
}

/// The transition that the rules `rules[i..]` take on `ch`: that of the first
/// rule whose class holds `ch`.
pub open spec fn step_from(rules: Seq<(CharRule, (Symbol, bool))>, ch: char, i: int) -> Option<(Symbol, bool)>
    decreases rules.len() - i,
{
    if i < 0 || i >= rules.len() {
        None
    } else if rules[i].0.spec_is_match(ch) {
        Some(rules[i].1)
    } else {
        step_from(rules, ch, i + 1)
    }
}

/// The transition of the automaton `table` from state `st` on `ch`; `None`
/// when the state has no rules or no rule holds `ch`.
pub open spec fn dfa_step(table: Map<usize, DfaRules>, st: Symbol, ch: char) -> Option<(Symbol, bool)> {
    if table.contains_key(st.0) {
        step_from(table[st.0]@, ch, 0)
    } else {
        None
    }
}

/// The transition that `rules` take on `ch`.
fn take_step(rules: &DfaRules, ch: char) -> (r: Option<(Symbol, bool)>)
    ensures
        r == step_from(rules@, ch, 0),
{
    let mut i: usize = 0;
    while i < rules.len()
        invariant
            i <= rules@.len(),
            step_from(rules@, ch, 0) == step_from(rules@, ch, i as int),
        decreases rules@.len() - i,
    {
        if rules[i].0.is_match(ch) {
            return Some(rules[i].1);
        }
        i += 1;
    }
    None
}

/// A running automaton: its rules and its current state.
#[derive(Debug)]
pub struct LexDFA<'a> {
    map: &'a LexDFAMap,
    st: Symbol,
}

impl<'a> LexDFA<'a> {
    /// The current state.
    pub closed spec fn state(self) -> Symbol {
        self.st
    }

    /// The rules of the automaton.
    pub closed spec fn table(self) -> Map<usize, DfaRules> {
        self.map@
    }

    /// The automaton `map` in its entry state, `ENTRY_ST`.
    pub fn new(interner: &mut Interner, map: &'a LexDFAMap) -> (r: LexDFA<'a>)
        requires
            old(interner).wf(),
            old(interner).can_intern(ENTRY_ST@),
        ensures
            final(interner).wf(),
            old(interner)@.is_prefix_of(final(interner)@),
            final(interner)@.len() <= old(interner)@.len() + 1,
            final(interner).holds(r.state()),
            final(interner).str_of(r.state()) == ENTRY_ST@,
            r.state() == entry_sym(old(interner)@),
            r.table() == map@,
    {
        let ghost s0 = interner@;
        let st = str2sym(interner, ENTRY_ST);
        proof {
            assert(s0.is_prefix_of(interner@));
        }
        LexDFA { map, st }
    }

    /// Moves on `ch` by the first rule of the current state that holds it,
    /// and tells whether the transition ends a token. The state must have
    /// such a rule.
    pub fn forward(&mut self, ch: char) -> (r: bool)
        requires
            dfa_step(old(self).table(), old(self).state(), ch) is Some,
        ensures
            final(self).table() == old(self).table(),
            (final(self).state(), r) == dfa_step(old(self).table(), old(self).state(), ch)->0,
    {
        match self.try_forward(ch) {
            Some(b) => b,
            None => {
                proof {
                    assert(false);
                }
                false
            },
        }
    }

    /// `forward`, or `None` with the state unchanged when the current state
    /// has no rule that holds `ch`.
    pub fn try_forward(&mut self, ch: char) -> (r: Option<bool>)
        ensures
            final(self).table() == old(self).table(),
            match dfa_step(old(self).table(), old(self).state(), ch) {
                None => r is None && final(self).state() == old(self).state(),
                Some((s, b)) => r == Some(b) && final(self).state() == s,
            },
    {
        let items = match self.map.get(&self.st.0) {
            Some(items) => items,
            None => {
                return None;
            },
        };
        match take_step(items, ch) {
            Some((s, b)) => {
                self.st = s;
                Some(b)
            },
            None => None,
        }
    }
}

/// Names closed tokens: the first pattern that matches the text up to the
/// token's end, looking at most `lookhead` bytes past its start, gives the
/// name.
pub struct TokenRecognizer {
    pub lookhead: usize,
    pub pat_items: Vec<(Regex, Symbol)>,
}

/// The first of the patterns `items[i..]` that matches `text`.
pub open spec fn first_pattern(items: Seq<(Regex, Symbol)>, text: Seq<char>, i: int) -> Option<int>
    decreases items.len() - i,
{
    if i < 0 || i >= items.len() {
        None
    } else if regex_is_match(items[i].0.pattern(), text) == Some(true) {
        Some(i)
    } else {
        first_pattern(items, text, i + 1)
    }
}

/// The patterns are tried in order: the one `first_pattern` picks matches,
/// and none before it does; when it picks none, no pattern from `i` on
/// matches.
pub proof fn lemma_first_pattern_first(items: Seq<(Regex, Symbol)>, text: Seq<char>, i: int)
    requires
        0 <= i,
    ensures
        first_pattern(items, text, i) matches Some(k) ==> i <= k < items.len() && regex_is_match(
            items[k].0.pattern(),
            text,
        ) == Some(true) && forall|m: int|
            i <= m < k ==> regex_is_match(#[trigger] items[m].0.pattern(), text) != Some(true),
        first_pattern(items, text, i) is None ==> forall|m: int|
            i <= m < items.len() ==> regex_is_match(#[trigger] items[m].0.pattern(), text) != Some(true),
    decreases items.len() - i,
{
    if i < items.len() {
        lemma_first_pattern_first(items, text, i + 1);
    }
}

/// The name and text that the patterns `items` give the token covering the
/// bytes `span` of `source`: the patterns are matched against the text from
/// the start of `source` up to the token's end or `look` bytes past its start,
/// whichever comes first. `None` where a slice would not fall on character
/// boundaries, where no pattern matches, or where the end overflows.
pub open spec fn recognized(items: Seq<(Regex, Symbol)>, look: usize, source: Seq<char>, span: Span) -> Option<
    (Symbol, Seq<char>),
> {
    let n = bytes_of(source).len();
    if span.from + look > usize::MAX {
        None
    } else {
        let end: int = if span.end <= span.from + look {
            span.end as int
        } else {
            span.from + look
        };
        if !(end <= n && is_boundary(source, end)) {
            None
        } else {
            match first_pattern(items, chars_between(source, 0, end), 0) {
                None => None,
                Some(k) => if span.from <= span.end && span.end <= n && is_boundary(source, span.from as int)
                    && is_boundary(source, span.end as int) {
                    Some((items[k].1, chars_between(source, span.from as int, span.end as int)))
                } else {
                    None
                },
            }
        }
    }
}

/// The name a recognizer gives a token depends on the source only up to
/// `look` bytes past the token's start (or its end, if that comes first):
/// two sources that agree up to there get the same answer, whatever follows.
pub proof fn lemma_recognized_reads_to_lookahead(
    items: Seq<(Regex, Symbol)>,
    look: usize,
    s1: Seq<char>,
    s2: Seq<char>,
    span: Span,
    cut: int,
)
    requires
        span.from + look <= usize::MAX,
        span.from <= span.end,
        cut == (if span.end <= span.from + look {
            span.end as int
        } else {
            span.from + look
        }),
        span.end <= bytes_of(s1).len(),
        span.end <= bytes_of(s2).len(),
        is_boundary(s1, span.from as int),
        is_boundary(s1, span.end as int),
        is_boundary(s2, span.from as int),
        is_boundary(s2, span.end as int),
        is_boundary(s1, cut),
        is_boundary(s2, cut),
        chars_between(s1, 0, cut) == chars_between(s2, 0, cut),
    ensures
        (recognized(items, look, s1, span) is Some) == (recognized(items, look, s2, span) is Some),
        recognized(items, look, s1, span) matches Some((n1, v1)) ==> recognized(items, look, s2, span) matches Some(
            (n2, v2),
        ) && n1 == n2,
{
}

/// A recognized token's text is exactly the characters of its span, and its
/// name is that of the first pattern matching the text up to the lookahead
/// cut.
pub proof fn lemma_recognized_value(items: Seq<(Regex, Symbol)>, look: usize, source: Seq<char>, span: Span)
    ensures
        recognized(items, look, source, span) matches Some((n, v)) ==> v == chars_between(
            source,
            span.from as int,
            span.end as int,
        ) && exists|k: int|
            0 <= k < items.len() && n == items[k].1 && regex_is_match(#[trigger] items[k].0.pattern(), chars_between(
                source,
                0,
                if span.end <= span.from + look {
                    span.end as int
                } else {
                    span.from + look
                },
            )) == Some(true),
{
    if span.from + look <= usize::MAX {
        let end: int = if span.end <= span.from + look {
            span.end as int
        } else {
            span.from + look
        };
        lemma_first_pattern_first(items, chars_between(source, 0, end), 0);
    }
}

impl TokenRecognizer {
    /// The token covering the bytes `span` of `source`, named by the first
    /// pattern that matches; some pattern must match and the slices must fall
    /// on character boundaries.
    pub fn recognize(&self, interner: &mut Interner, source: &str, span: Span) -> (r: Token)
        requires
            old(interner).wf(),
            old(interner)@.len() < u32::MAX,
            recognized(self.pat_items@, self.lookhead, source@, span) is Some,
        ensures
            final(interner).wf(),
            old(interner)@.is_prefix_of(final(interner)@),
            final(interner)@.len() <= old(interner)@.len() + 1,
            recognized(self.pat_items@, self.lookhead, source@, span) matches Some((name, value)) && r.name == name
                && r.value.0 < final(interner)@.len() && r.value_in(final(interner)@) == value,
            r.span == span,
    {
        match self.try_recognize(interner, source, span) {
            Some(t) => t,
            None => {
                proof {
                    assert(false);
                }
                Token { name: Symbol(0), value: Symbol(0), span }
            },
        }
    }

    /// `recognize`, or `None` where no pattern matches or a slice would not
    /// fall on character boundaries.
    pub fn try_recognize(&self, interner: &mut Interner, source: &str, span: Span) -> (r: Option<Token>)
        requires
            old(interner).wf(),
            old(interner)@.len() < u32::MAX,
        ensures
            final(interner).wf(),
            old(interner)@.is_prefix_of(final(interner)@),
            final(interner)@.len() <= old(interner)@.len() + 1,
            match recognized(self.pat_items@, self.lookhead, source@, span) {
                None => r is None,
                Some((name, value)) => r matches Some(t) && t.name == name && t.value.0 < final(interner)@.len()
                    && t.value_in(final(interner)@) == value && t.span == span,
            },
    {
        proof {
            lemma_prefix_refl(interner@);
            vstd::utf8::encode_utf8_valid_utf8(source@);
            vstd::utf8::is_char_boundary_start_end_of_seq(source.spec_bytes());
        }
        let n = source.as_bytes().len();
        if span.from > usize::MAX - self.lookhead {
            return None;
        }
        let lim = span.from + self.lookhead;
        let end = if span.end <= lim {
            span.end
        } else {
            lim
        };
        if end > n || !source.is_char_boundary(end) {
            return None;
        }
        let head = substr(source, 0, end);
        let ghost items = self.pat_items@;
        let mut i: usize = 0;
        while i < self.pat_items.len()
            invariant
                interner.wf(),
                interner@ == old(interner)@,
                interner@.len() < u32::MAX,
                n == bytes_of(source@).len(),
                span.from + self.lookhead <= usize::MAX,
                end as int == (if span.end <= span.from + self.lookhead {
                    span.end as int
                } else {
                    span.from + self.lookhead
                }),
                end <= n,
                is_boundary(source@, end as int),
                items == self.pat_items@,
                i <= items.len(),
                head@ == chars_between(source@, 0, end as int),
                first_pattern(items, head@, 0) == first_pattern(items, head@, i as int),
            decreases items.len() - i,
        {
            if self.pat_items[i].0.is_match(head) {
                if span.from > span.end || span.end > n || !source.is_char_boundary(span.from)
                    || !source.is_char_boundary(span.end) {
                    return None;
                }
                let text = substr(source, span.from, span.end);
                let ghost s0 = interner@;
                let value = str2sym(interner, text);
                proof {
                    assert(s0.is_prefix_of(interner@));
                }
                return Some(Token { name: self.pat_items[i].1, value, span });
            }
            i += 1;
        }
        None
    }
}


/// The byte offset of character `k` of `s`.
pub open spec fn byte_off(s: Seq<char>, k: int) -> int {
    bytes_of(s.take(k)).len() as int
}

/// A recognized token as its name, its text and its span.
pub type LexedTok = (Symbol, Seq<char>, Span);

/// Running the automaton `table` over the characters `s[i..]` from state
/// `st`, the current token having started at character `last`: a transition
/// that ends a token closes the characters `last..i` into a token named by
/// the patterns `items`, and the next token starts at `i`. The characters of
/// the last token are never closed. `None` where the automaton has no
/// transition or the recognizer names no token.
pub open spec fn lexed(
    table: Map<usize, DfaRules>,
    items: Seq<(Regex, Symbol)>,
    look: usize,
    s: Seq<char>,
    i: int,
    st: Symbol,
    last: int,
    acc: Seq<LexedTok>,
) -> Option<Seq<LexedTok>>
    decreases s.len() - i,
{
    if i < 0 || i >= s.len() {
        Some(acc)
    } else {
        match dfa_step(table, st, s[i]) {
            None => None,
            Some((nst, fin)) => if fin {
                let span = Span { from: byte_off(s, last) as usize, end: byte_off(s, i) as usize };
                match recognized(items, look, s, span) {
                    None => None,
                    Some((name, value)) => lexed(table, items, look, s, i + 1, nst, i, acc.push((name, value, span))),
                }
            } else {
                lexed(table, items, look, s, i + 1, nst, last, acc)
            },
        }
    }
}

/// The tokens `toks` are the recognized tokens `ts`, their values read in the
/// interned strings `strs`.
pub open spec fn tokens_are(toks: Seq<Token>, ts: Seq<LexedTok>, strs: Seq<Seq<char>>) -> bool {
    &&& toks.len() == ts.len()
    &&& forall|k: int|
        0 <= k < ts.len() ==> {
            &&& (#[trigger] toks[k]).name == ts[k].0
            &&& toks[k].value.0 < strs.len()
            &&& toks[k].value_in(strs) == ts[k].1
            &&& toks[k].span == ts[k].2
        }
}

/// The encoding of a prefix of `s` is a prefix of its encoding.
proof fn lemma_byte_off(s: Seq<char>, a: int, b: int)
    requires
        0 <= a <= b <= s.len(),
    ensures
        byte_off(s, b) == byte_off(s, a) + bytes_of(s.subrange(a, b)).len(),
        byte_off(s, b) <= bytes_of(s).len(),
{
    super::text::lemma_bytes_concat(s.take(a), s.subrange(a, b));
    assert(s.take(a) + s.subrange(a, b) =~= s.take(b));
    super::text::lemma_bytes_concat(s.take(b), s.skip(b));
    assert(s.take(b) + s.skip(b) =~= s);
}

/// The spans of `ts` follow one another: each ends where the next starts,
/// and none ends before it starts.
pub open spec fn spans_chain(ts: Seq<LexedTok>) -> bool {
    &&& forall|k: int| 0 <= k < ts.len() ==> (#[trigger] ts[k]).2.from <= ts[k].2.end
    &&& forall|k: int| 0 <= k < ts.len() - 1 ==> (#[trigger] ts[k]).2.end == ts[k + 1].2.from
}

/// The chain of spans goes on from any point of a run of the automaton.
proof fn lemma_lexed_chain(
    table: Map<usize, DfaRules>,
    items: Seq<(Regex, Symbol)>,
    look: usize,
    s: Seq<char>,
    i: int,
    st: Symbol,
    last: int,
    acc: Seq<LexedTok>,
    ts: Seq<LexedTok>,
)
    requires
        lexed(table, items, look, s, i, st, last, acc) == Some(ts),
        bytes_of(s).len() <= usize::MAX,
        0 <= last <= i <= s.len(),
        spans_chain(acc),
        acc.len() == 0 ==> last == 0,
        acc.len() > 0 ==> acc[0].2.from == 0 && acc.last().2.end == byte_off(s, last),
    ensures
        spans_chain(ts),
        ts.len() > 0 ==> ts[0].2.from == 0,
    decreases s.len() - i,
{
    if i < s.len() {
        match dfa_step(table, st, s[i]) {
            None => {},
            Some((nst, fin)) => {
                if fin {
                    let span = Span { from: byte_off(s, last) as usize, end: byte_off(s, i) as usize };
                    match recognized(items, look, s, span) {
                        None => {},
                        Some((name, value)) => {
                            lemma_byte_off(s, last, i);
                            lemma_byte_off(s, 0, last);
                            assert(s.take(0) =~= Seq::<char>::empty());
                            assert(bytes_of(Seq::<char>::empty()) =~= Seq::<u8>::empty());
                            let nacc = acc.push((name, value, span));
                            assert forall|k: int| 0 <= k < nacc.len() - 1 implies (#[trigger] nacc[k]).2.end
                                == nacc[k + 1].2.from by {
                                if k < acc.len() - 1 {
                                    assert(nacc[k] == acc[k]);
                                    assert(nacc[k + 1] == acc[k + 1]);
                                }
                            }
                            assert forall|k: int| 0 <= k < nacc.len() implies (#[trigger] nacc[k]).2.from
                                <= nacc[k].2.end by {
                                if k < acc.len() {
                                    assert(nacc[k] == acc[k]);
                                }
                            }
                            lemma_lexed_chain(table, items, look, s, i + 1, nst, i, nacc, ts);
                        },
                    }
                } else {
                    lemma_lexed_chain(table, items, look, s, i + 1, nst, last, acc, ts);
                }
            },
        }
    }
}

/// The tokens of a run of the automaton over a text follow one another from
/// the start of the text: the first starts at byte 0, and each ends where the
/// next starts.
pub proof fn lemma_tokenize2_contiguous(
    table: Map<usize, DfaRules>,
    items: Seq<(Regex, Symbol)>,
    look: usize,
    s: Seq<char>,
    entry: Symbol,
    ts: Seq<LexedTok>,
)
    requires
        lexed(table, items, look, s, 0, entry, 0, Seq::empty()) == Some(ts),
        bytes_of(s).len() <= usize::MAX,
    ensures
        spans_chain(ts),
        ts.len() > 0 ==> ts[0].2.from == 0,
{
    lemma_lexed_chain(table, items, look, s, 0, entry, 0, Seq::empty(), ts);
}

/// The number of transitions flagged as token ends that the automaton takes
/// over the characters `s[i..]` from state `st`, up to a character it has no
/// transition for.
pub open spec fn token_ends(table: Map<usize, DfaRules>, s: Seq<char>, i: int, st: Symbol) -> nat
    decreases s.len() - i,
{
    if i < 0 || i >= s.len() {
        0
    } else {
        match dfa_step(table, st, s[i]) {
            None => 0,
            Some((nst, fin)) => (if fin {
                1nat
            } else {
                0nat
            }) + token_ends(table, s, i + 1, nst),
        }
    }
}

proof fn lemma_lexed_count(
    table: Map<usize, DfaRules>,
    items: Seq<(Regex, Symbol)>,
    look: usize,
    s: Seq<char>,
    i: int,
    st: Symbol,
    last: int,
    acc: Seq<LexedTok>,
    ts: Seq<LexedTok>,
)
    requires
        lexed(table, items, look, s, i, st, last, acc) == Some(ts),
    ensures
        ts.len() == acc.len() + token_ends(table, s, i, st),
    decreases s.len() - i,
{
    if 0 <= i < s.len() {
        match dfa_step(table, st, s[i]) {
            None => {},
            Some((nst, fin)) => {
                if fin {
                    let span = Span { from: byte_off(s, last) as usize, end: byte_off(s, i) as usize };
                    match recognized(items, look, s, span) {
                        None => {},
                        Some((name, value)) => {
                            lemma_lexed_count(table, items, look, s, i + 1, nst, i, acc.push((name, value, span)), ts);
                        },
                    }
                } else {
                    lemma_lexed_count(table, items, look, s, i + 1, nst, last, acc, ts);
                }
            },
        }
    }
}

/// Lexing gives one token for each transition flagged as a token end.
pub proof fn lemma_tokenize2_count(
    table: Map<usize, DfaRules>,
    items: Seq<(Regex, Symbol)>,
    look: usize,
    s: Seq<char>,
    entry: Symbol,
    ts: Seq<LexedTok>,
)
    requires
        lexed(table, items, look, s, 0, entry, 0, Seq::empty()) == Some(ts),
    ensures
        ts.len() == token_ends(table, s, 0, entry),
{
    lemma_lexed_count(table, items, look, s, 0, entry, 0, Seq::empty(), ts);
}

/// Lexes the text of `src` with the automaton `dfamap` and the recognizer
/// `reconizer`, or `None` where the automaton has no transition for a
/// character or the recognizer names no token.
pub fn try_tokenize2(
    srcfile: &super::srcfile::SrcFileInfo,
    interner: &mut Interner,
    dfamap: &LexDFAMap,
    reconizer: &TokenRecognizer,
) -> (r: Option<super::tokenize::TokenizeResult>)
    requires
        old(interner).wf(),
        old(interner)@.len() + srcfile.src().len() + 1 <= u32::MAX,
    ensures
        final(interner).wf(),
        old(interner)@.is_prefix_of(final(interner)@),
        final(interner).holds(entry_sym(old(interner)@)),
        final(interner).str_of(entry_sym(old(interner)@)) == ENTRY_ST@,
        match lexed(
            dfamap@,
            reconizer.pat_items@,
            reconizer.lookhead,
            srcfile.src(),
            0,
            entry_sym(old(interner)@),
            0,
            Seq::empty(),
        ) {
            None => r is None,
            Some(ts) => r matches Some(Ok(toks)) && tokens_are(toks@, ts, final(interner)@),
        },
{
    let ghost s0 = interner@;
    let source = srcfile.get_srcstr();
    let ghost s = source@;
    let ghost items = reconizer.pat_items@;
    let ghost look = reconizer.lookhead;
    let ghost table = dfamap@;
    let bl = source.as_bytes().len();
    let mut tokens: Vec<Token> = Vec::new();
    let mut dfa = LexDFA::new(interner, dfamap);
    let ghost s1 = interner@;
    let ghost top = lexed(table, items, look, s, 0, dfa.state(), 0, Seq::empty());
    let mut bytes_pos: usize = 0;
    let mut cache = String::new();
    let ghost mut last: int = 0;
    let ghost mut gi: int = 0;
    let ghost mut acc: Seq<LexedTok> = Seq::empty();
    proof {
        assert(cache@ =~= s.subrange(0, 0));
        assert(s.take(0) =~= Seq::<char>::empty());
        assert(bytes_of(s.take(0)) =~= Seq::<u8>::empty());
        assert(source.spec_bytes() == bytes_of(s));
    }
    for c in it: source.chars()
        invariant
            it.seq() == s,
            gi == it.index(),
            s == source@,
            s == srcfile.src(),
            bl == bytes_of(s).len(),
            items == reconizer.pat_items@,
            look == reconizer.lookhead,
            table == dfamap@,
            0 <= last <= gi <= s.len(),
            cache@ == s.subrange(last, gi),
            bytes_pos == byte_off(s, last),
            dfa.table() == table,
            top == lexed(table, items, look, s, 0, entry_sym(s0), 0, Seq::empty()),
            top == lexed(table, items, look, s, gi, dfa.state(), last, acc),
            tokens_are(tokens@, acc, interner@),
            acc.len() <= gi,
            interner.wf(),
            s0 == old(interner)@,
            s0.is_prefix_of(interner@),
            s1.is_prefix_of(interner@),
            s1[entry_sym(s0).0 as int] == ENTRY_ST@,
            entry_sym(s0).0 < s1.len(),
            interner@.len() <= s0.len() + 1 + acc.len(),
            s0.len() + s.len() + 1 <= u32::MAX,
    {
        let ghost i = gi;
        proof {
            assert(c == s[i]);
        }
        match dfa.try_forward(c) {
            None => {
                return None;
            },
            Some(fin) => {
                if fin {
                    proof {
                        lemma_byte_off(s, last, i);
                    }
                    let clen = cache.as_str().as_bytes().len();
                    let span = Span { from: bytes_pos, end: bytes_pos + clen };
                    bytes_pos = bytes_pos + clen;
                    let ghost sb = interner@;
                    match reconizer.try_recognize(interner, source, span) {
                        None => {
                            proof {
                                lemma_prefix_trans(s0, sb, interner@);
                            }
                            return None;
                        },
                        Some(t) => {
                            let ghost tb = tokens@;
                            tokens.push(t);
                            proof {
                                let rv = recognized(items, look, s, span)->0;
                                let nacc = acc.push((rv.0, rv.1, span));
                                assert forall|k: int| 0 <= k < nacc.len() implies {
                                    &&& (#[trigger] tokens@[k]).name == nacc[k].0
                                    &&& tokens@[k].value.0 < interner@.len()
                                    &&& tokens@[k].value_in(interner@) == nacc[k].1
                                    &&& tokens@[k].span == nacc[k].2
                                } by {
                                    if k < acc.len() {
                                        assert(tokens@[k] == tb[k]);
                                        assert(sb[tb[k].value.0 as int] == interner@[tb[k].value.0 as int]);
                                    }
                                }
                                acc = nacc;
                                lemma_prefix_trans(s0, sb, interner@);
                                lemma_prefix_trans(s1, sb, interner@);
                            }
                        },
                    }
                    cache = String::new();
                    proof {
                        last = i;
                    }
                }
            },
        }
        super::text::string_push(&mut cache, c);
        proof {
            gi = i + 1;
            assert(cache@ =~= s.subrange(last, gi));
        }
    }
    proof {
        lemma_prefix_trans(s0, s1, interner@);
    }
    Some(Ok(tokens))
}

/// Lexes the text of `src` with the automaton `dfamap` and the recognizer
/// `reconizer`; the automaton must have a transition for every character and
/// the recognizer must name every token.
pub fn tokenize2(
    srcfile: &super::srcfile::SrcFileInfo,
    interner: &mut Interner,
    dfamap: &LexDFAMap,
    reconizer: &TokenRecognizer,
) -> (r: super::tokenize::TokenizeResult)
    requires
        old(interner).wf(),
        old(interner)@.len() + srcfile.src().len() + 1 <= u32::MAX,
        lexed(
            dfamap@,
            reconizer.pat_items@,
            reconizer.lookhead,
            srcfile.src(),
            0,
            entry_sym(old(interner)@),
            0,
            Seq::empty(),
        ) is Some,
    ensures
        final(interner).wf(),
        old(interner)@.is_prefix_of(final(interner)@),
        r matches Ok(toks) && tokens_are(
            toks@,
            lexed(
                dfamap@,
                reconizer.pat_items@,
                reconizer.lookhead,
                srcfile.src(),
                0,
                entry_sym(old(interner)@),
                0,
                Seq::empty(),
            )->0,
            final(interner)@,
        ),
{
    match try_tokenize2(srcfile, interner, dfamap, reconizer) {
        Some(r) => r,
        None => {
            proof {
                assert(false);
            }
            Ok(Vec::new())
        },
    }
}


/// The pattern a recognizer uses for `p`: a pattern that starts with `^`
/// gets one more `^` in front.
pub open spec fn recognizer_pattern(p: Seq<char>) -> Seq<char> {
    if p.len() > 0 && p[0] == '^' {
        seq!['^'] + p
    } else {
        p
    }
}

/// A recognizer that looks `lookahead` bytes past a token's start and tries
/// the rules `(name, pattern)` in order; `None` when a pattern does not
/// compile.
pub fn token_recognizer(interner: &mut Interner, lookahead: usize, rules: &[(&str, &str)]) -> (r: Option<
    TokenRecognizer,
>)
    requires
        old(interner).wf(),
        old(interner)@.len() + rules@.len() <= u32::MAX,
    ensures
        final(interner).wf(),
        old(interner)@.is_prefix_of(final(interner)@),
        r is Some <==> forall|k: int| 0 <= k < rules@.len() ==> regex_valid(recognizer_pattern(#[trigger] rules@[k].1@)),
        r matches Some(rec) ==> {
            &&& rec.lookhead == lookahead
            &&& rec.pat_items@.len() == rules@.len()
            &&& forall|k: int|
                0 <= k < rules@.len() ==> {
                    &&& (#[trigger] rec.pat_items@[k]).0.pattern() == recognizer_pattern(rules@[k].1@)
                    &&& final(interner).holds(rec.pat_items@[k].1)
                    &&& final(interner).str_of(rec.pat_items@[k].1) == rules@[k].0@
                }
        },
{
    let ghost s0 = interner@;
    proof {
        lemma_prefix_refl(s0);
    }
    let mut pat_items: Vec<(Regex, Symbol)> = Vec::new();
    let mut i: usize = 0;
    while i < rules.len()
        invariant
            interner.wf(),
            s0 == old(interner)@,
            s0.is_prefix_of(interner@),
            interner@.len() <= s0.len() + i,
            s0.len() + rules@.len() <= u32::MAX,
            i <= rules@.len(),
            pat_items@.len() == i,
            forall|k: int| 0 <= k < i ==> regex_valid(recognizer_pattern(#[trigger] rules@[k].1@)),
            forall|k: int|
                0 <= k < i ==> {
                    &&& (#[trigger] pat_items@[k]).0.pattern() == recognizer_pattern(rules@[k].1@)
                    &&& interner.holds(pat_items@[k].1)
                    &&& interner.str_of(pat_items@[k].1) == rules@[k].0@
                },
        decreases rules@.len() - i,
    {
        let (name, pat) = rules[i];
        let mut p = String::new();
        if super::text::str_starts_with(pat, "^") {
            super::text::string_push(&mut p, '^');
        }
        p.append(pat);
        proof {
            reveal_strlit("^");
            assert("^"@ =~= seq!['^']);
            if pat@.len() > 0 && pat@[0] == '^' {
                assert(pat@.subrange(0, 1) =~= seq!['^']);
            }
            if super::text::starts_with(pat@, "^"@) {
                assert(pat@.subrange(0, 1)[0] == pat@[0]);
            }
            assert(p@ =~= recognizer_pattern(pat@));
        }
        let re = match Regex::try_new(p.as_str()) {
            Some(re) => re,
            None => {
                return None;
            },
        };
        let ghost sb = interner@;
        let sym = str2sym(interner, name);
        let ghost pb = pat_items@;
        pat_items.push((re, sym));
        proof {
            assert(sb.is_prefix_of(interner@));
            lemma_prefix_trans(s0, sb, interner@);
            assert forall|k: int| 0 <= k < i + 1 implies {
                &&& (#[trigger] pat_items@[k]).0.pattern() == recognizer_pattern(rules@[k].1@)
                &&& interner.holds(pat_items@[k].1)
                &&& interner.str_of(pat_items@[k].1) == rules@[k].0@
            } by {
                if k < i {
                    assert(pat_items@[k] == pb[k]);
                    assert(sb[pb[k].1.0 as int] == interner@[pb[k].1.0 as int]);
                }
            }
        }
        i += 1;
    }
    Some(TokenRecognizer { lookhead: lookahead, pat_items })
}

/// The kind `r` marks a rule whose class is a regular expression.
pub open spec fn is_regex_kind(kind: Seq<char>) -> bool {
    kind == seq!['r']
}

/// The rules `(name, patstr, kind)` can be built: each regular-expression
/// rule's pattern compiles.
pub open spec fn char_rules_compile(rules: Seq<(&str, &str, &str)>) -> bool {
    forall|k: int| 0 <= k < rules.len() && is_regex_kind(#[trigger] rules[k].2@) ==> regex_valid(rules[k].1@)
}

/// The character classes of the rules `name => patstr | kind`, in order,
/// each with its name: for the kind `r` the regular expression `patstr`, for
/// any other kind the first character of `patstr`, which must then not be
/// empty. `None` when a regular expression does not compile.
pub fn char_matcher_rules(rules: &[(&str, &str, &str)]) -> (r: Option<Vec<(String, CharRule)>>)
    requires
        forall|k: int|
            0 <= k < rules@.len() && !is_regex_kind(#[trigger] rules@[k].2@) ==> rules@[k].1@.len() > 0,
    ensures
        r is Some <==> char_rules_compile(rules@),
        r matches Some(v) ==> v@.len() == rules@.len() && forall|k: int|
            0 <= k < v@.len() ==> {
                &&& (#[trigger] v@[k]).0@ == rules@[k].0@
                &&& is_regex_kind(rules@[k].2@) ==> (v@[k].1 matches CharRule::Pattern(m) && m.pattern()
                    == rules@[k].1@)
                &&& !is_regex_kind(rules@[k].2@) ==> (v@[k].1 matches CharRule::Simple(m) && m.target()
                    == rules@[k].1@[0])
            },
{
    let mut v: Vec<(String, CharRule)> = Vec::new();
    let mut i: usize = 0;
    proof {
        reveal_strlit("r");
        assert("r"@ =~= seq!['r']);
    }
    while i < rules.len()
        invariant
            i <= rules@.len(),
            v@.len() == i,
            "r"@ == seq!['r'],
            forall|k: int|
                0 <= k < rules@.len() && !is_regex_kind(#[trigger] rules@[k].2@) ==> rules@[k].1@.len() > 0,
            forall|k: int| 0 <= k < i && is_regex_kind(#[trigger] rules@[k].2@) ==> regex_valid(rules@[k].1@),
            forall|k: int|
                0 <= k < i ==> {
                    &&& (#[trigger] v@[k]).0@ == rules@[k].0@
                    &&& is_regex_kind(rules@[k].2@) ==> (v@[k].1 matches CharRule::Pattern(m) && m.pattern()
                        == rules@[k].1@)
                    &&& !is_regex_kind(rules@[k].2@) ==> (v@[k].1 matches CharRule::Simple(m) && m.target()
                        == rules@[k].1@[0])
                },
        decreases rules@.len() - i,
    {
        let (name, patstr, kind) = rules[i];
        let rule = if super::text::str_eq(kind, "r") {
            match RegexCharMatcher::try_new(patstr) {
                Some(m) => CharRule::Pattern(m),
                None => {
                    return None;
                },
            }
        } else {
            CharRule::Simple(SimpleCharMatcher::new(patstr))
        };
        let mut n = String::new();
        n.append(name);
        v.push((n, rule));
        i += 1;
    }
    Some(v)
}

} // verus!
