//! BNF grammars: their text form, their self-check, and the check of token
//! trees against them.
use crate::data::{Cursor, SyntaxNode, TokenTree};
use crate::lexer::text::{decimal, push_decimal, push_decimal_wide, starts_with, str_eq, str_starts_with, string_push};
use crate::lexer::tokenize::char_debug;
use vstd::prelude::*;
use vstd::string::StrSliceExecFns;
use vstd::string::StringExecFns;

verus! {

/// How often a right-hand symbol may occur.
#[derive(Clone, Copy, PartialEq, Eq, Structural, Debug)]
pub enum Occ {
    /// `*`
    Any,
    JustOne,
    /// `?`
    AtMostOne,
    /// `+`
    OneOrMore,
}

/// A right-hand string: a choice of a derivation, a sequence of symbols with
/// their occurrence.
#[derive(Debug)]
pub struct RhStr(pub Vec<(String, Occ)>);

/// A derivation: a left-hand symbol and its choices.
#[derive(Debug)]
pub struct Deriv {
    pub lfsym: String,
    pub choices: Vec<RhStr>,
}

/// A grammar: its derivations, the first one being the start.
#[derive(Debug)]
pub struct BNF(pub Vec<Deriv>);

/// A right-hand string as symbols and occurrences.
pub type RhView = Seq<(Seq<char>, Occ)>;

/// A derivation as its left-hand symbol and its choices.
pub type DerivView = (Seq<char>, Seq<RhView>);

impl View for RhStr {
    type V = RhView;

    open spec fn view(&self) -> RhView {
        self.0@.map_values(|p: (String, Occ)| (p.0@, p.1))
    }
}

impl View for Deriv {
    type V = DerivView;

    open spec fn view(&self) -> DerivView {
        (self.lfsym@, self.choices@.map_values(|c: RhStr| c@))
    }
}

impl View for BNF {
    type V = Seq<DerivView>;

    open spec fn view(&self) -> Seq<DerivView> {
        self.0@.map_values(|d: Deriv| d@)
    }
}

impl Default for BNF {
    fn default() -> (r: BNF)
        ensures
            r@.len() == 0,
    {
        BNF(Vec::new())
    }
}

impl Clone for RhStr {
    fn clone(&self) -> (r: RhStr)
        ensures
            r@ == self@,
    {
        let mut v: Vec<(String, Occ)> = Vec::new();
        let mut i: usize = 0;
        while i < self.0.len()
            invariant
                i <= self.0@.len(),
                v@.len() == i,
                forall|k: int| 0 <= k < i ==> (#[trigger] v@[k]).0@ == self.0@[k].0@ && v@[k].1 == self.0@[k].1,
            decreases self.0@.len() - i,
        {
            let s = self.0[i].0.clone();
            v.push((s, self.0[i].1));
            i += 1;
        }
        let r = RhStr(v);
        proof {
            assert(r@ =~= self@);
        }
        r
    }
}

impl Occ {
    /// The occurrence that `s` writes: `+`, `?` or `*`; the string itself as
    /// the error otherwise.
    pub fn from_str(s: &str) -> (r: Result<Occ, String>)
        ensures
            s@ == seq!['+'] ==> r == Ok::<Occ, String>(Occ::OneOrMore),
            s@ == seq!['?'] ==> r == Ok::<Occ, String>(Occ::AtMostOne),
            s@ == seq!['*'] ==> r == Ok::<Occ, String>(Occ::Any),
            s@ != seq!['+'] && s@ != seq!['?'] && s@ != seq!['*'] ==> (r matches Err(e) && e@ == s@),
    {
        proof {
            reveal_strlit("+");
            reveal_strlit("?");
            reveal_strlit("*");
            assert("+"@ =~= seq!['+']);
            assert("?"@ =~= seq!['?']);
            assert("*"@ =~= seq!['*']);
            assert(seq!['+'][0] != seq!['?'][0]);
            assert(seq!['+'][0] != seq!['*'][0]);
            assert(seq!['?'][0] != seq!['*'][0]);
        }
        if str_eq(s, "+") {
            Ok(Occ::OneOrMore)
        } else if str_eq(s, "?") {
            Ok(Occ::AtMostOne)
        } else if str_eq(s, "*") {
            Ok(Occ::Any)
        } else {
            Err(s.to_owned())
        }
    }
}

/// The index of the first derivation of `bnf` whose left-hand symbol is `s`.
pub open spec fn find_deriv(bnf: Seq<DerivView>, s: Seq<char>) -> Option<int>
    decreases bnf.len(),
{
    if bnf.len() == 0 {
        None
    } else {
        match find_deriv(bnf.drop_last(), s) {
            Some(i) => Some(i),
            None => if bnf.last().0 == s {
                Some(bnf.len() - 1)
            } else {
                None
            },
        }
    }
}

/// `find_deriv` finds the first index that holds `s`.
pub proof fn lemma_find_deriv(bnf: Seq<DerivView>, s: Seq<char>, i: int)
    requires
        0 <= i <= bnf.len(),
        forall|k: int| 0 <= k < i ==> (#[trigger] bnf[k]).0 != s,
    ensures
        i < bnf.len() && bnf[i].0 == s ==> find_deriv(bnf, s) == Some(i),
        i == bnf.len() ==> find_deriv(bnf, s) is None,
    decreases bnf.len(),
{
    if bnf.len() > 0 {
        if i == bnf.len() {
            lemma_find_deriv(bnf.drop_last(), s, i - 1);
        } else {
            lemma_find_deriv(bnf.drop_last(), s, i);
            if i < bnf.len() - 1 {
                lemma_find_deriv(bnf.drop_last(), s, i);
            } else {
                lemma_find_deriv(bnf.drop_last(), s, i);
            }
        }
    }
}

impl BNF {
    /// The first derivation of `lfsym`, if any.
    pub fn find_lfsym(&self, lfsym: &str) -> (r: Option<&Deriv>)
        ensures
            r is Some <==> find_deriv(self@, lfsym@) is Some,
            r matches Some(d) ==> *d == self.0@[find_deriv(self@, lfsym@)->0],
    {
        let mut i: usize = 0;
        while i < self.0.len()
            invariant
                i <= self.0@.len(),
                forall|k: int| 0 <= k < i ==> (#[trigger] self@[k]).0 != lfsym@,
            decreases self.0@.len() - i,
        {
            if str_eq(self.0[i].lfsym.as_str(), lfsym) {
                proof {
                    lemma_find_deriv(self@, lfsym@, i as int);
                }
                return Some(&self.0[i]);
            }
            i += 1;
        }
        proof {
            lemma_find_deriv(self@, lfsym@, i as int);
        }
        None
    }
}

/// Whether a character outside ASCII is uppercase in Unicode's sense
/// (`char::is_uppercase`).
pub uninterp spec fn unicode_uppercase(c: char) -> bool;

/// Whether the character is uppercase: among ASCII characters exactly `A` to
/// `Z`, beyond them as Unicode's `Uppercase` property says.
pub open spec fn char_uppercase(c: char) -> bool {
    if (c as u32) < 128 {
        'A' <= c && c <= 'Z'
    } else {
        unicode_uppercase(c)
    }
}

/// `char::is_uppercase`, a function of the character alone. Its
/// documentation gives the ASCII cases: `A` to `Z` are uppercase, the other
/// ASCII characters (lowercase letters, digits, `_`, punctuation) are not.
#[verifier::external_body]
fn std_char_is_uppercase(c: char) -> (r: bool)
    ensures
        r == (if (c as u32) < 128 {
            'A' <= c && c <= 'Z'
        } else {
            unicode_uppercase(c)
        }),
{
    c.is_uppercase()
}

/// The prefix that marks a derivation made for a parenthesized group.
pub open spec fn shadow_prefix() -> Seq<char> {
    seq!['!', '_', '_']
}

/// `sym` names a derivation made for a parenthesized group.
pub open spec fn spec_is_shadow(sym: Seq<char>) -> bool {
    starts_with(sym, shadow_prefix())
}

/// `sym` is an explicit non-terminal: it starts with an uppercase letter.
pub open spec fn spec_is_explicit_nonterm(sym: Seq<char>) -> bool {
    char_uppercase(sym[0])
}

/// `sym` is a non-terminal: a group's derivation or an explicit non-terminal.
pub open spec fn spec_is_nonterm(sym: Seq<char>) -> bool {
    spec_is_shadow(sym) || spec_is_explicit_nonterm(sym)
}

/// Whether `sym` is a non-terminal; `sym` must not be empty.
pub fn is_nonterm(sym: &str) -> (r: bool)
    requires
        sym@.len() > 0,
    ensures
        r == spec_is_nonterm(sym@),
{
    is_shadow_lfsym(sym) || is_explicit_nonterm(sym)
}

/// Whether `sym` starts with an uppercase letter; `sym` must not be empty.
pub fn is_explicit_nonterm(sym: &str) -> (r: bool)
    requires
        sym@.len() > 0,
    ensures
        r == spec_is_explicit_nonterm(sym@),
{
    std_char_is_uppercase(sym.get_char(0))
}

/// Whether `sym` names a derivation made for a parenthesized group.
pub fn is_shadow_lfsym(sym: &str) -> (r: bool)
    ensures
        r == spec_is_shadow(sym@),
{
    proof {
        reveal_strlit("!__");
        assert("!__"@ =~= shadow_prefix());
    }
    str_starts_with(sym, "!__")
}

/// `ident` with every leading raw-identifier marker `r#` taken off.
pub open spec fn raw_stripped(ident: Seq<char>) -> Seq<char>
    decreases ident.len(),
{
    if ident.len() >= 2 && ident[0] == 'r' && ident[1] == '#' {
        raw_stripped(ident.skip(2))
    } else {
        ident
    }
}

/// How a syntax kind named `ident` is shown: `[ident]` for a non-terminal,
/// whose name starts with an uppercase letter, else `<ident>`.
pub open spec fn spec_syntax_display(ident: Seq<char>) -> Seq<char> {
    if char_uppercase(raw_stripped(ident)[0]) {
        seq!['['] + ident + seq![']']
    } else {
        seq!['<'] + ident + seq!['>']
    }
}

/// The name of the syntax kind written `ident`: the identifier without its
/// raw-identifier marker.
pub fn syntax_enum_name(ident: &str) -> (r: String)
    ensures
        r@ == raw_stripped(ident@),
{
    let cs = crate::grammer::chars_of(ident);
    let mut i: usize = 0;
    proof {
        assert(cs@.skip(0) =~= cs@);
    }
    while cs.len() - i >= 2 && cs[i] == 'r' && cs[i + 1] == '#'
        invariant
            i <= cs@.len(),
            raw_stripped(cs@.skip(i as int)) == raw_stripped(ident@),
            cs@ == ident@,
        decreases cs@.len() - i,
    {
        proof {
            assert(cs@.skip(i as int).skip(2) =~= cs@.skip(i + 2));
        }
        i += 2;
    }
    let mut r = String::new();
    let ghost start = i as int;
    proof {
        assert(raw_stripped(cs@.skip(start)) == cs@.skip(start));
    }
    while i < cs.len()
        invariant
            0 <= start <= i <= cs@.len(),
            r@ == cs@.subrange(start, i as int),
        decreases cs@.len() - i,
    {
        string_push(&mut r, cs[i]);
        proof {
            assert(r@ =~= cs@.subrange(start, i + 1));
        }
        i += 1;
    }
    proof {
        assert(r@ =~= cs@.skip(start));
    }
    r
}

/// How the syntax kind written `ident` is shown: `[ident]` where its name
/// starts with an uppercase letter (a non-terminal), else `<ident>`.
pub fn syntax_enum_display(ident: &str) -> (r: String)
    requires
        raw_stripped(ident@).len() > 0,
    ensures
        r@ == spec_syntax_display(ident@),
{
    let name = syntax_enum_name(ident);
    let mut r = String::new();
    if std_char_is_uppercase(name.as_str().get_char(0)) {
        r.append("[");
        r.append(ident);
        r.append("]");
    } else {
        r.append("<");
        r.append(ident);
        r.append(">");
    }
    proof {
        reveal_strlit("[");
        reveal_strlit("]");
        reveal_strlit("<");
        reveal_strlit(">");
    }
    r
}

/// A counter that hands out consecutive numbers.
pub struct Counter {
    count: usize,
}

impl Counter {
    /// The number it hands out next.
    pub closed spec fn value(self) -> usize {
        self.count
    }

    /// Hands out the current number and moves to the next.
    pub fn next(&mut self) -> (r: usize)
        requires
            old(self).value() < usize::MAX,
        ensures
            r == old(self).value(),
            final(self).value() == old(self).value() + 1,
    {
        let old_count = self.count;
        self.count += 1;
        old_count
    }
}

pub type CounterType = Counter;

/// A counter from 1.
pub fn gen_counter() -> (r: CounterType)
    ensures
        r.value() == 1,
{
    gen_counter_1(1)
}

/// A counter from `init`.
pub fn gen_counter_1(init: usize) -> (r: CounterType)
    ensures
        r.value() == init,
{
    Counter { count: init }
}

/// The name of the derivation made for the `count`-th group of `paren`:
/// `!__{paren}_{count}`.
pub open spec fn spec_shadow_lfsym(paren: Seq<char>, count: nat) -> Seq<char> {
    shadow_prefix() + paren + seq!['_'] + decimal(count)
}

/// The name made for a group is a group's name, and so a non-terminal.
pub proof fn lemma_shadow_is_nonterm(paren: Seq<char>, count: nat)
    ensures
        spec_is_shadow(spec_shadow_lfsym(paren, count)),
        spec_is_nonterm(spec_shadow_lfsym(paren, count)),
{
    let s = spec_shadow_lfsym(paren, count);
    assert(s.subrange(0, 3) =~= shadow_prefix());
}

/// The name of the derivation made for the `count`-th group of `paren`.
pub fn shadow_lfsym(paren: &str, count: usize) -> (r: String)
    ensures
        r@ == spec_shadow_lfsym(paren@, count as nat),
{
    let mut s = String::new();
    string_push(&mut s, '!');
    string_push(&mut s, '_');
    string_push(&mut s, '_');
    s.append(paren);
    string_push(&mut s, '_');
    push_decimal(&mut s, count);
    proof {
        assert(s@ =~= spec_shadow_lfsym(paren@, count as nat));
    }
    s
}

/// The outcome of the self-check of a grammar.
pub enum CheckOutcome {
    Valid,
    /// a derivation of this symbol comes after another one
    Duplicate(Seq<char>),
    /// this non-terminal has no derivation
    Undefined(Seq<char>),
    /// an empty right-hand symbol is reached, on which the check cannot go on
    Stuck,
}

/// The check of the right-hand symbols `rh[k..]`.
pub open spec fn check_rh(bnf: Seq<DerivView>, rh: RhView, k: int) -> CheckOutcome
    decreases rh.len() - k,
{
    if k < 0 || k >= rh.len() {
        CheckOutcome::Valid
    } else {
        let sym = rh[k].0;
        if sym.len() == 0 {
            CheckOutcome::Stuck
        } else if spec_is_nonterm(sym) && find_deriv(bnf, sym) is None {
            CheckOutcome::Undefined(sym)
        } else {
            check_rh(bnf, rh, k + 1)
        }
    }
}

/// The check of the choices `chs[j..]`.
pub open spec fn check_choices(bnf: Seq<DerivView>, chs: Seq<RhView>, j: int) -> CheckOutcome
    decreases chs.len() - j,
{
    if j < 0 || j >= chs.len() {
        CheckOutcome::Valid
    } else {
        match check_rh(bnf, chs[j], 0) {
            CheckOutcome::Valid => check_choices(bnf, chs, j + 1),
            other => other,
        }
    }
}

/// The check of the derivations `bnf[i..]`, in order: no left-hand symbol may
/// repeat an earlier one, and every non-terminal on a right-hand side must have
/// a derivation.
pub open spec fn check_from(bnf: Seq<DerivView>, i: int) -> CheckOutcome
    decreases bnf.len() - i,
{
    if i < 0 || i >= bnf.len() {
        CheckOutcome::Valid
    } else if exists|k: int| 0 <= k < i && bnf[k].0 == bnf[i].0 {
        CheckOutcome::Duplicate(bnf[i].0)
    } else {
        match check_choices(bnf, bnf[i].1, 0) {
            CheckOutcome::Valid => check_from(bnf, i + 1),
            other => other,
        }
    }
}

/// No two derivations of `bnf` have the same left-hand symbol.
pub open spec fn unique_lfsyms(bnf: Seq<DerivView>) -> bool {
    forall|a: int, b: int| 0 <= a < b < bnf.len() ==> #[trigger] bnf[a].0 != #[trigger] bnf[b].0
}

/// A right-hand symbol is not empty, and has a derivation where it is a
/// non-terminal.
pub open spec fn rh_sym_ok(bnf: Seq<DerivView>, sym: Seq<char>) -> bool {
    sym.len() > 0 && (spec_is_nonterm(sym) ==> find_deriv(bnf, sym) is Some)
}

/// Every right-hand symbol of `bnf` is fine.
pub open spec fn all_rh_ok(bnf: Seq<DerivView>) -> bool {
    forall|a: int, j: int, m: int|
        0 <= a < bnf.len() && 0 <= j < bnf[a].1.len() && 0 <= m < bnf[a].1[j].len() ==> rh_sym_ok(
            bnf,
            #[trigger] bnf[a].1[j][m].0,
        )
}

proof fn lemma_check_rh_valid(bnf: Seq<DerivView>, rh: RhView, k: int)
    requires
        0 <= k <= rh.len(),
    ensures
        check_rh(bnf, rh, k) is Valid <==> forall|m: int| k <= m < rh.len() ==> rh_sym_ok(bnf, #[trigger] rh[m].0),
    decreases rh.len() - k,
{
    if k < rh.len() {
        lemma_check_rh_valid(bnf, rh, k + 1);
    }
}

proof fn lemma_check_choices_valid(bnf: Seq<DerivView>, chs: Seq<RhView>, j: int)
    requires
        0 <= j <= chs.len(),
    ensures
        check_choices(bnf, chs, j) is Valid <==> forall|jj: int, m: int|
            j <= jj < chs.len() && 0 <= m < chs[jj].len() ==> rh_sym_ok(bnf, #[trigger] chs[jj][m].0),
    decreases chs.len() - j,
{
    if j < chs.len() {
        lemma_check_choices_valid(bnf, chs, j + 1);
        lemma_check_rh_valid(bnf, chs[j], 0);
        if check_choices(bnf, chs, j) is Valid {
            assert forall|jj: int, m: int| j <= jj < chs.len() && 0 <= m < chs[jj].len() implies rh_sym_ok(
                bnf,
                #[trigger] chs[jj][m].0,
            ) by {
                if jj == j {
                    assert(rh_sym_ok(bnf, chs[j][m].0));
                }
            }
        }
        if forall|jj: int, m: int| j <= jj < chs.len() && 0 <= m < chs[jj].len() ==> rh_sym_ok(
            bnf,
            #[trigger] chs[jj][m].0,
        ) {
            assert forall|m: int| 0 <= m < chs[j].len() implies rh_sym_ok(bnf, #[trigger] chs[j][m].0) by {
                assert(rh_sym_ok(bnf, chs[j][m].0));
            }
        }
    }
}

proof fn lemma_check_from_valid(bnf: Seq<DerivView>, i: int)
    requires
        0 <= i <= bnf.len(),
    ensures
        check_from(bnf, i) is Valid <==> (forall|a: int, b: int|
            0 <= a < b && i <= b < bnf.len() ==> #[trigger] bnf[a].0 != #[trigger] bnf[b].0) && (forall|
            a: int,
            j: int,
            m: int,
        |
            i <= a < bnf.len() && 0 <= j < bnf[a].1.len() && 0 <= m < bnf[a].1[j].len() ==> rh_sym_ok(
                bnf,
                #[trigger] bnf[a].1[j][m].0,
            )),
    decreases bnf.len() - i,
{
    if i < bnf.len() {
        lemma_check_from_valid(bnf, i + 1);
        lemma_check_choices_valid(bnf, bnf[i].1, 0);
        if exists|k: int| 0 <= k < i && bnf[k].0 == bnf[i].0 {
            let k = choose|k: int| 0 <= k < i && bnf[k].0 == bnf[i].0;
            assert(bnf[k].0 == bnf[i].0);
        } else {
            if check_from(bnf, i) is Valid {
                assert forall|a: int, j: int, m: int|
                    i <= a < bnf.len() && 0 <= j < bnf[a].1.len() && 0 <= m < bnf[a].1[j].len() implies rh_sym_ok(
                    bnf,
                    #[trigger] bnf[a].1[j][m].0,
                ) by {
                    if a == i {
                        assert(rh_sym_ok(bnf, bnf[i].1[j][m].0));
                    }
                }
                assert forall|a: int, b: int| 0 <= a < b && i <= b < bnf.len() implies #[trigger] bnf[a].0
                    != #[trigger] bnf[b].0 by {
                    if b == i {
                        assert(!(0 <= a < i && bnf[a].0 == bnf[i].0));
                    }
                }
            }
            if (forall|a: int, j: int, m: int|
                i <= a < bnf.len() && 0 <= j < bnf[a].1.len() && 0 <= m < bnf[a].1[j].len() ==> rh_sym_ok(
                    bnf,
                    #[trigger] bnf[a].1[j][m].0,
                )) {
                assert forall|jj: int, m: int| 0 <= jj < bnf[i].1.len() && 0 <= m < bnf[i].1[jj].len() implies rh_sym_ok(
                    bnf,
                    #[trigger] bnf[i].1[jj][m].0,
                ) by {
                    assert(rh_sym_ok(bnf, bnf[i].1[jj][m].0));
                }
            }
        }
    }
}

/// A grammar passes its self-check exactly when no two derivations share a
/// left-hand symbol, no right-hand symbol is empty, and every non-terminal on
/// a right-hand side has a derivation.
pub proof fn lemma_self_check_valid(bnf: Seq<DerivView>)
    ensures
        check_from(bnf, 0) is Valid <==> unique_lfsyms(bnf) && all_rh_ok(bnf),
{
    lemma_check_from_valid(bnf, 0);
}

/// The error text for a repeated derivation of `s`.
pub open spec fn duplicate_msg(s: Seq<char>) -> Seq<char> {
    "Duplicate define for "@ + s
}

/// The error text for a non-terminal `s` with no derivation.
pub open spec fn undefined_msg(s: Seq<char>) -> Seq<char> {
    "No define for ["@ + s + "]"@
}

impl BNF {
    /// Checks the grammar: no symbol has two derivations and every
    /// non-terminal on a right-hand side has a derivation; the error names
    /// the first offence.
    pub fn self_validate(&self) -> (r: Result<(), String>)
        requires
            !(check_from(self@, 0) is Stuck),
        ensures
            check_from(self@, 0) is Valid <==> r is Ok,
            check_from(self@, 0) matches CheckOutcome::Duplicate(s) ==> (r matches Err(m) && m@ == duplicate_msg(s)),
            check_from(self@, 0) matches CheckOutcome::Undefined(s) ==> (r matches Err(m) && m@ == undefined_msg(s)),
    {
        let ghost bnf = self@;
        let mut i: usize = 0;
        while i < self.0.len()
            invariant
                bnf == self@,
                i <= bnf.len(),
                check_from(bnf, 0) == check_from(bnf, i as int),
                !(check_from(bnf, 0) is Stuck),
            decreases bnf.len() - i,
        {
            let deriv = &self.0[i];
            let mut k: usize = 0;
            while k < i
                invariant
                    bnf == self@,
                    i < bnf.len(),
                    k <= i,
                    *deriv == self.0@[i as int],
                    forall|m: int| 0 <= m < k ==> bnf[m].0 != bnf[i as int].0,
                    check_from(bnf, 0) == check_from(bnf, i as int),
                decreases i - k,
            {
                if str_eq(self.0[k].lfsym.as_str(), deriv.lfsym.as_str()) {
                    let mut msg = "Duplicate define for ".to_owned();
                    msg.append(deriv.lfsym.as_str());
                    proof {
                        assert(bnf[k as int].0 == bnf[i as int].0);
                        assert(check_from(bnf, i as int) == CheckOutcome::Duplicate(bnf[i as int].0));
                    }
                    return Err(msg);
                }
                k += 1;
            }
            proof {
                assert(!(exists|m: int| 0 <= m < i && bnf[m].0 == bnf[i as int].0));
            }
            let mut j: usize = 0;
            while j < deriv.choices.len()
                invariant
                    bnf == self@,
                    i < bnf.len(),
                    *deriv == self.0@[i as int],
                    j <= deriv.choices@.len(),
                    check_choices(bnf, bnf[i as int].1, 0) == check_choices(bnf, bnf[i as int].1, j as int),
                    check_from(bnf, 0) == check_from(bnf, i as int),
                    !(check_from(bnf, 0) is Stuck),
                    check_from(bnf, i as int) == (match check_choices(bnf, bnf[i as int].1, 0) {
                        CheckOutcome::Valid => check_from(bnf, i + 1),
                        other => other,
                    }),
                decreases deriv.choices@.len() - j,
            {
                let choice = &deriv.choices[j];
                let ghost rh = bnf[i as int].1[j as int];
                let mut m: usize = 0;
                while m < choice.0.len()
                    invariant
                        bnf == self@,
                        i < bnf.len(),
                        *deriv == self.0@[i as int],
                        j < deriv.choices@.len(),
                        *choice == deriv.choices@[j as int],
                        rh == choice@,
                        m <= rh.len(),
                        check_rh(bnf, rh, 0) == check_rh(bnf, rh, m as int),
                        rh == bnf[i as int].1[j as int],
                        check_choices(bnf, bnf[i as int].1, 0) == check_choices(bnf, bnf[i as int].1, j as int),
                        check_from(bnf, 0) == check_from(bnf, i as int),
                        !(check_from(bnf, 0) is Stuck),
                        check_from(bnf, i as int) == (match check_choices(bnf, bnf[i as int].1, 0) {
                            CheckOutcome::Valid => check_from(bnf, i + 1),
                            other => other,
                        }),
                    decreases rh.len() - m,
                {
                    let sym = choice.0[m].0.as_str();
                    if sym.unicode_len() == 0 {
                        proof {
                            assert(false);
                        }
                    }
                    if is_nonterm(sym) && self.find_lfsym(sym).is_none() {
                        let mut msg = "No define for [".to_owned();
                        msg.append(sym);
                        msg.append("]");
                        return Err(msg);
                    }
                    m += 1;
                }
                j += 1;
            }
            i += 1;
        }
        Ok(())
    }
}

/// The kind of a token-tree child as the grammar names it.
pub trait SyntaxName {
    spec fn spec_name(&self) -> Seq<char>;

    fn name(&self) -> (r: String)
        ensures
            r@ == self.spec_name(),
    ;
}

/// The text that `{:?}` writes for a string: the string quoted, with its
/// special characters escaped.
pub uninterp spec fn str_debug(s: Seq<char>) -> Seq<char>;

/// `format!("{:?}", s)`, a function of the string alone.
#[verifier::external_body]
fn std_str_debug(s: &str) -> (r: String)
    ensures
        r@ == str_debug(s@),
{
    format!("{:?}", s)
}

/// A string names a kind by its debug form, quoted.
impl SyntaxName for String {
    open spec fn spec_name(&self) -> Seq<char> {
        str_debug(self@)
    }

    fn name(&self) -> (r: String) {
        std_str_debug(self.as_str())
    }
}

/// How `{:?}` writes the integer `x`: its decimal digits, after `-` when it
/// is negative.
pub open spec fn int_debug(x: int) -> Seq<char> {
    if x < 0 {
        seq!['-'] + decimal((-x) as nat)
    } else {
        decimal(x as nat)
    }
}

/// `int_debug` of an unsigned number.
fn unsigned_name(n: u128) -> (r: String)
    ensures
        r@ == int_debug(n as int),
{
    let mut s = String::new();
    push_decimal_wide(&mut s, n);
    proof {
        assert(s@ =~= decimal(n as nat));
    }
    s
}

/// `int_debug` of a signed number.
fn signed_name(x: i128) -> (r: String)
    ensures
        r@ == int_debug(x as int),
{
    let mut s = String::new();
    if x < 0 {
        string_push(&mut s, '-');
        let m: u128 = ((-(x + 1)) as u128) + 1;
        assert(m == -x);
        push_decimal_wide(&mut s, m);
    } else {
        push_decimal_wide(&mut s, x as u128);
    }
    proof {
        assert(s@ =~= int_debug(x as int));
    }
    s
}

/// A kind numbered by a `u8` is named by its number.
impl SyntaxName for u8 {
    open spec fn spec_name(&self) -> Seq<char> {
        int_debug(*self as int)
    }

    fn name(&self) -> (r: String) {
        unsigned_name(*self as u128)
    }
}

/// A kind numbered by a `u16` is named by its number.
impl SyntaxName for u16 {
    open spec fn spec_name(&self) -> Seq<char> {
        int_debug(*self as int)
    }

    fn name(&self) -> (r: String) {
        unsigned_name(*self as u128)
    }
}

/// A kind numbered by a `u32` is named by its number.
impl SyntaxName for u32 {
    open spec fn spec_name(&self) -> Seq<char> {
        int_debug(*self as int)
    }

    fn name(&self) -> (r: String) {
        unsigned_name(*self as u128)
    }
}

/// A kind numbered by a `u64` is named by its number.
impl SyntaxName for u64 {
    open spec fn spec_name(&self) -> Seq<char> {
        int_debug(*self as int)
    }

    fn name(&self) -> (r: String) {
        unsigned_name(*self as u128)
    }
}

/// A kind numbered by a `u128` is named by its number.
impl SyntaxName for u128 {
    open spec fn spec_name(&self) -> Seq<char> {
        int_debug(*self as int)
    }

    fn name(&self) -> (r: String) {
        unsigned_name(*self as u128)
    }
}

/// A kind numbered by a `usize` is named by its number.
impl SyntaxName for usize {
    open spec fn spec_name(&self) -> Seq<char> {
        int_debug(*self as int)
    }

    fn name(&self) -> (r: String) {
        unsigned_name(*self as u128)
    }
}

/// A kind numbered by an `i8` is named by its number.
impl SyntaxName for i8 {
    open spec fn spec_name(&self) -> Seq<char> {
        int_debug(*self as int)
    }

    fn name(&self) -> (r: String) {
        signed_name(*self as i128)
    }
}

/// A kind numbered by an `i16` is named by its number.
impl SyntaxName for i16 {
    open spec fn spec_name(&self) -> Seq<char> {
        int_debug(*self as int)
    }

    fn name(&self) -> (r: String) {
        signed_name(*self as i128)
    }
}

/// A kind numbered by an `i32` is named by its number.
impl SyntaxName for i32 {
    open spec fn spec_name(&self) -> Seq<char> {
        int_debug(*self as int)
    }

    fn name(&self) -> (r: String) {
        signed_name(*self as i128)
    }
}

/// A kind numbered by an `i64` is named by its number.
impl SyntaxName for i64 {
    open spec fn spec_name(&self) -> Seq<char> {
        int_debug(*self as int)
    }

    fn name(&self) -> (r: String) {
        signed_name(*self as i128)
    }
}

/// A kind numbered by an `i128` is named by its number.
impl SyntaxName for i128 {
    open spec fn spec_name(&self) -> Seq<char> {
        int_debug(*self as int)
    }

    fn name(&self) -> (r: String) {
        signed_name(*self as i128)
    }
}

/// A kind numbered by an `isize` is named by its number.
impl SyntaxName for isize {
    open spec fn spec_name(&self) -> Seq<char> {
        int_debug(*self as int)
    }

    fn name(&self) -> (r: String) {
        signed_name(*self as i128)
    }
}

/// A character names a kind by its debug form, quoted.
impl SyntaxName for char {
    open spec fn spec_name(&self) -> Seq<char> {
        char_debug(*self)
    }

    fn name(&self) -> (r: String) {
        crate::lexer::tokenize::std_char_debug(*self)
    }
}

/// A string slice names a kind by its debug form, quoted.
impl<'a> SyntaxName for &'a str {
    open spec fn spec_name(&self) -> Seq<char> {
        str_debug(self@)
    }

    fn name(&self) -> (r: String) {
        std_str_debug(*self)
    }
}

/// The outcome of matching the choices of a derivation against the children
/// of a token tree from a position on.
pub enum MatchOutcome {
    /// the first choice that matched: where it stopped, and the children to
    /// check next (derivation index, child index)
    Matched(int, Seq<(int, int)>),
    /// no choice matched: for each, the kind at which it failed
    NoMatch(Seq<Seq<char>>),
    /// a symbol without derivation, a non-terminal on a token, or an empty
    /// symbol is reached, on which the check cannot go on, or the matching
    /// would not end
    Stuck,
}

/// The outcome of matching one choice.
pub enum ChoiceOutcome {
    Done(int, Seq<(int, int)>),
    Failed(Seq<char>),
    Stuck,
}

/// Matching the choice `formal` against the children of `tt`: `p0` is the
/// next formal symbol, `p1` the next child, `repeat` how often the current
/// symbol has matched, `children` the non-terminal children found so far;
/// `fuel` bounds the nesting of group derivations.
///
/// A symbol matches a child of the same kind; a group symbol matches when its
/// derivation matches from there. A matched `JustOne` or `AtMostOne` symbol
/// moves on; a matched `Any` or `OneOrMore` symbol is tried again. An
/// unmatched `Any` or `AtMostOne` symbol, or `OneOrMore` after a match, is
/// skipped; any other unmatched symbol fails the choice. The choice is done
/// when the symbols or the children run out.
///
/// The matching gets stuck where it would not end: where a repeated group
/// matches without taking a child, so that it would be tried again at the
/// same place without end, and where groups nest deeper than `fuel`.
pub open spec fn run_choice<T: SyntaxName>(
    bnf: Seq<DerivView>,
    formal: RhView,
    tt: TokenTree<T>,
    p0: int,
    p1: int,
    repeat: int,
    children: Seq<(int, int)>,
    fuel: nat,
) -> ChoiceOutcome
    decreases fuel, 0int, formal.len() - p0 + tt.subs@.len() - p1,
{
    let n = tt.subs@.len() as int;
    if p0 < 0 || p1 < 0 || p1 >= n || p0 >= formal.len() {
        ChoiceOutcome::Done(p1, children)
    } else {
        let sym = formal[p0].0;
        let occ = formal[p0].1;
        let actual = tt.subs@[p1].0.spec_name();
        let single = occ is JustOne || occ is AtMostOne;
        let skippable = occ is Any || occ is AtMostOne || (occ is OneOrMore && repeat > 0);
        if spec_is_shadow(sym) {
            match find_deriv(bnf, sym) {
                None => ChoiceOutcome::Stuck,
                Some(di) => {
                    let sub = if fuel == 0 {
                        MatchOutcome::Stuck
                    } else {
                        rh_choices(bnf, bnf[di].1, tt, p1, (fuel - 1) as nat, 0, None, Seq::empty())
                    };
                    match sub {
                        MatchOutcome::Stuck => ChoiceOutcome::Stuck,
                        MatchOutcome::Matched(end, ch) => {
                            if end < p1 || end > n {
                                ChoiceOutcome::Stuck
                            } else if single {
                                run_choice(bnf, formal, tt, p0 + 1, end, 0, children + ch, fuel)
                            } else if end == p1 {
                                ChoiceOutcome::Stuck
                            } else {
                                run_choice(bnf, formal, tt, p0, end, repeat + 1, children + ch, fuel)
                            }
                        },
                        MatchOutcome::NoMatch(_) => {
                            if skippable {
                                run_choice(bnf, formal, tt, p0 + 1, p1, 0, children, fuel)
                            } else {
                                ChoiceOutcome::Failed(actual)
                            }
                        },
                    }
                },
            }
        } else if sym == actual {
            if sym.len() == 0 {
                ChoiceOutcome::Stuck
            } else if spec_is_explicit_nonterm(sym) && (find_deriv(bnf, sym) is None
                || !(tt.subs@[p1].1 is T)) {
                ChoiceOutcome::Stuck
            } else {
                let ch2 = if spec_is_explicit_nonterm(sym) {
                    children.push((find_deriv(bnf, sym)->0, p1))
                } else {
                    children
                };
                if single {
                    run_choice(bnf, formal, tt, p0 + 1, p1 + 1, 0, ch2, fuel)
                } else {
                    run_choice(bnf, formal, tt, p0, p1 + 1, repeat + 1, ch2, fuel)
                }
            }
        } else if skippable {
            run_choice(bnf, formal, tt, p0 + 1, p1, 0, children, fuel)
        } else {
            ChoiceOutcome::Failed(actual)
        }
    }
}

/// Matching the choices `chs[j..]` from child `p1` on; `found` is the first
/// choice that matched so far and `failed` the kinds at which the failed
/// ones stopped. Every choice is tried.
pub open spec fn rh_choices<T: SyntaxName>(
    bnf: Seq<DerivView>,
    chs: Seq<RhView>,
    tt: TokenTree<T>,
    p1: int,
    fuel: nat,
    j: int,
    found: Option<(int, Seq<(int, int)>)>,
    failed: Seq<Seq<char>>,
) -> MatchOutcome
    decreases fuel, 1int, chs.len() - j,
{
    if j < 0 || j >= chs.len() {
        match found {
            Some((e, c)) => MatchOutcome::Matched(e, c),
            None => MatchOutcome::NoMatch(failed),
        }
    } else {
        match run_choice(bnf, chs[j], tt, 0, p1, 0, Seq::empty(), fuel) {
            ChoiceOutcome::Stuck => MatchOutcome::Stuck,
            ChoiceOutcome::Done(e, c) => rh_choices(
                bnf,
                chs,
                tt,
                p1,
                fuel,
                j + 1,
                if found is Some { found } else { Some((e, c)) },
                failed,
            ),
            ChoiceOutcome::Failed(a) => rh_choices(bnf, chs, tt, p1, fuel, j + 1, found, failed.push(a)),
        }
    }
}

/// A `+` symbol must match at least once: when it is not a group and the
/// child where its matching starts is of another kind, the choice fails there
/// and does not go on past the symbol.
pub proof fn lemma_one_or_more_needs_a_match<T: SyntaxName>(
    bnf: Seq<DerivView>,
    formal: RhView,
    tt: TokenTree<T>,
    p0: int,
    p1: int,
    children: Seq<(int, int)>,
    fuel: nat,
)
    requires
        0 <= p0 < formal.len(),
        formal[p0].1 is OneOrMore,
        !spec_is_shadow(formal[p0].0),
        0 <= p1 < tt.subs@.len(),
        tt.subs@[p1].0.spec_name() != formal[p0].0,
    ensures
        run_choice(bnf, formal, tt, p0, p1, 0, children, fuel) == ChoiceOutcome::Failed(tt.subs@[p1].0.spec_name()),
{
}

/// A `+` group must match at least once too: when its derivation matches no
/// choice at the child where its matching starts, the choice fails there.
pub proof fn lemma_one_or_more_group_needs_a_match<T: SyntaxName>(
    bnf: Seq<DerivView>,
    formal: RhView,
    tt: TokenTree<T>,
    p0: int,
    p1: int,
    children: Seq<(int, int)>,
    fuel: nat,
    di: int,
)
    requires
        0 <= p0 < formal.len(),
        formal[p0].1 is OneOrMore,
        spec_is_shadow(formal[p0].0),
        find_deriv(bnf, formal[p0].0) == Some(di),
        fuel > 0,
        0 <= p1 < tt.subs@.len(),
        rh_choices(bnf, bnf[di].1, tt, p1, (fuel - 1) as nat, 0, None, Seq::empty()) is NoMatch,
    ensures
        run_choice(bnf, formal, tt, p0, p1, 0, children, fuel) == ChoiceOutcome::Failed(tt.subs@[p1].0.spec_name()),
{
}

/// How a symbol that is not a group meets the child at `p1`. On a child of
/// another kind: `*` and `?` are passed over without taking the child, so is a
/// `+` that has matched before, and a plain symbol or a `+` that never matched
/// fails. On a child of its kind (a terminal): a plain or `?` symbol takes the
/// child and the next symbol follows, a `*` or `+` takes it and stays.
pub proof fn lemma_symbol_step<T: SyntaxName>(
    bnf: Seq<DerivView>,
    formal: RhView,
    tt: TokenTree<T>,
    p0: int,
    p1: int,
    repeat: int,
    children: Seq<(int, int)>,
    fuel: nat,
)
    requires
        0 <= p0 < formal.len(),
        0 <= p1 < tt.subs@.len(),
        !spec_is_shadow(formal[p0].0),
    ensures
        ({
            let sym = formal[p0].0;
            let occ = formal[p0].1;
            let actual = tt.subs@[p1].0.spec_name();
            let r = run_choice(bnf, formal, tt, p0, p1, repeat, children, fuel);
            &&& sym != actual && (occ is Any || occ is AtMostOne || (occ is OneOrMore && repeat > 0)) ==> r
                == run_choice(bnf, formal, tt, p0 + 1, p1, 0, children, fuel)
            &&& sym != actual && (occ is JustOne || (occ is OneOrMore && repeat <= 0)) ==> r
                == ChoiceOutcome::Failed(actual)
            &&& sym == actual && sym.len() > 0 && !spec_is_explicit_nonterm(sym) && (occ is JustOne
                || occ is AtMostOne) ==> r == run_choice(bnf, formal, tt, p0 + 1, p1 + 1, 0, children, fuel)
            &&& sym == actual && sym.len() > 0 && !spec_is_explicit_nonterm(sym) && (occ is Any
                || occ is OneOrMore) ==> r == run_choice(bnf, formal, tt, p0, p1 + 1, repeat + 1, children, fuel)
            &&& sym == actual && sym.len() > 0 && spec_is_explicit_nonterm(sym) && find_deriv(bnf, sym) is Some
                && tt.subs@[p1].1 is T && (occ is JustOne || occ is AtMostOne) ==> r == run_choice(
                bnf,
                formal,
                tt,
                p0 + 1,
                p1 + 1,
                0,
                children.push((find_deriv(bnf, sym)->0, p1)),
                fuel,
            )
            &&& sym == actual && sym.len() > 0 && spec_is_explicit_nonterm(sym) && find_deriv(bnf, sym) is Some
                && tt.subs@[p1].1 is T && (occ is Any || occ is OneOrMore) ==> r == run_choice(
                bnf,
                formal,
                tt,
                p0,
                p1 + 1,
                repeat + 1,
                children.push((find_deriv(bnf, sym)->0, p1)),
                fuel,
            )
        }),
{
}

/// A choice is done, with what it found so far, once the children run out,
/// whatever symbols are left.
pub proof fn lemma_choice_done_at_end<T: SyntaxName>(
    bnf: Seq<DerivView>,
    formal: RhView,
    tt: TokenTree<T>,
    p0: int,
    repeat: int,
    children: Seq<(int, int)>,
    fuel: nat,
)
    ensures
        run_choice(bnf, formal, tt, p0, tt.subs@.len() as int, repeat, children, fuel) == ChoiceOutcome::Done(
            tt.subs@.len() as int,
            children,
        ),
{
}

/// The choices are tried in order and the first that is done gives the
/// match: when the choices match, one of them is done with that result and
/// every one before it failed; when none matches, every one failed, and the
/// kinds at which they failed are listed in order.
pub proof fn lemma_first_choice_wins<T: SyntaxName>(
    bnf: Seq<DerivView>,
    chs: Seq<RhView>,
    tt: TokenTree<T>,
    p1: int,
    fuel: nat,
    j: int,
    failed: Seq<Seq<char>>,
)
    requires
        0 <= j <= chs.len(),
    ensures
        rh_choices(bnf, chs, tt, p1, fuel, j, None, failed) matches MatchOutcome::Matched(e, c) ==> exists|k: int|
            j <= k < chs.len() && #[trigger] run_choice(bnf, chs[k], tt, 0, p1, 0, Seq::empty(), fuel)
                == ChoiceOutcome::Done(e, c) && forall|m: int|
                j <= m < k ==> (#[trigger] run_choice(bnf, chs[m], tt, 0, p1, 0, Seq::empty(), fuel)) is Failed,
        rh_choices(bnf, chs, tt, p1, fuel, j, None, failed) matches MatchOutcome::NoMatch(f) ==> f.len() == failed.len()
            + chs.len() - j && f.subrange(0, failed.len() as int) == failed && forall|m: int|
            j <= m < chs.len() ==> (#[trigger] run_choice(bnf, chs[m], tt, 0, p1, 0, Seq::empty(), fuel))
                == ChoiceOutcome::Failed(f[failed.len() + m - j]),
    decreases chs.len() - j,
{
    if j < chs.len() {
        match run_choice(bnf, chs[j], tt, 0, p1, 0, Seq::empty(), fuel) {
            ChoiceOutcome::Stuck => {},
            ChoiceOutcome::Done(e, c) => {
                lemma_found_stays(bnf, chs, tt, p1, fuel, j + 1, (e, c), failed);
            },
            ChoiceOutcome::Failed(a) => {
                lemma_first_choice_wins(bnf, chs, tt, p1, fuel, j + 1, failed.push(a));
                if let MatchOutcome::NoMatch(f) = rh_choices(bnf, chs, tt, p1, fuel, j, None, failed) {
                    assert(f.subrange(0, (failed.len() + 1) as int) == failed.push(a));
                    assert(f.subrange(0, failed.len() as int) =~= failed.push(a).subrange(0, failed.len() as int));
                    assert(f[failed.len() as int] == failed.push(a)[failed.len() as int]);
                }
            },
        }
    } else {
        if let MatchOutcome::NoMatch(f) = rh_choices(bnf, chs, tt, p1, fuel, j, None, failed) {
            assert(f.subrange(0, failed.len() as int) =~= failed);
        }
    }
}

/// Once a choice is done, the match that comes out is that choice's, unless
/// a later choice gets stuck.
proof fn lemma_found_stays<T: SyntaxName>(
    bnf: Seq<DerivView>,
    chs: Seq<RhView>,
    tt: TokenTree<T>,
    p1: int,
    fuel: nat,
    j: int,
    found: (int, Seq<(int, int)>),
    failed: Seq<Seq<char>>,
)
    requires
        0 <= j <= chs.len(),
    ensures
        rh_choices(bnf, chs, tt, p1, fuel, j, Some(found), failed) is Stuck || rh_choices(
            bnf,
            chs,
            tt,
            p1,
            fuel,
            j,
            Some(found),
            failed,
        ) == MatchOutcome::Matched(found.0, found.1),
    decreases chs.len() - j,
{
    if j < chs.len() {
        match run_choice(bnf, chs[j], tt, 0, p1, 0, Seq::empty(), fuel) {
            ChoiceOutcome::Stuck => {},
            ChoiceOutcome::Done(e, c) => {
                lemma_found_stays(bnf, chs, tt, p1, fuel, j + 1, found, failed);
            },
            ChoiceOutcome::Failed(a) => {
                lemma_found_stays(bnf, chs, tt, p1, fuel, j + 1, found, failed.push(a));
            },
        }
    }
}

/// A choice that starts with a `+` symbol (not a group) never matches
/// children whose first one is of another kind: a grammar alternative
/// `s+ t ...` does not accept a tree without an `s` in front.
pub proof fn lemma_one_or_more_choice_fails<T: SyntaxName>(
    bnf: Seq<DerivView>,
    formal: RhView,
    tt: TokenTree<T>,
    p1: int,
    fuel: nat,
)
    requires
        formal.len() > 0,
        formal[0].1 is OneOrMore,
        !spec_is_shadow(formal[0].0),
        0 <= p1 < tt.subs@.len(),
        tt.subs@[p1].0.spec_name() != formal[0].0,
    ensures
        rh_choices(bnf, seq![formal], tt, p1, fuel, 0, None, Seq::empty()) == MatchOutcome::NoMatch(
            seq![tt.subs@[p1].0.spec_name()],
        ),
{
    lemma_one_or_more_needs_a_match(bnf, formal, tt, 0, p1, Seq::empty(), fuel);
    let chs = seq![formal];
    let a = tt.subs@[p1].0.spec_name();
    assert(chs[0] == formal);
    assert(Seq::<Seq<char>>::empty().push(a) =~= seq![a]);
    assert(rh_choices(bnf, chs, tt, p1, fuel, 1, None, seq![a]) == MatchOutcome::NoMatch(seq![a]));
    assert(rh_choices(bnf, chs, tt, p1, fuel, 0, None, Seq::empty()) == rh_choices(
        bnf,
        chs,
        tt,
        p1,
        fuel,
        1,
        None,
        Seq::<Seq<char>>::empty().push(a),
    ));
}

/// The children found by the executable check are those that the spec names:
/// derivation `sp[k].0` of `bnf` and the subtree of child `sp[k].1` of `tt`.
pub open spec fn children_match<T>(
    bnf: &BNF,
    tt: &TokenTree<T>,
    ex: Seq<(&Deriv, &TokenTree<T>)>,
    sp: Seq<(int, int)>,
) -> bool {
    &&& ex.len() == sp.len()
    &&& forall|k: int|
        0 <= k < sp.len() ==> {
            &&& 0 <= (#[trigger] sp[k]).0 < bnf.0@.len()
            &&& 0 <= sp[k].1 < tt.subs@.len()
            &&& tt.subs@[sp[k].1].1 is T
            &&& *ex[k].0 == bnf.0@[sp[k].0]
            &&& *ex[k].1 == tt.subs@[sp[k].1].1->T_0
        }
}

/// The views of a list of strings.
pub open spec fn strs_view(v: Seq<String>) -> Seq<Seq<char>> {
    v.map_values(|s: String| s@)
}

/// `find_deriv` gives an index of a derivation of `s`.
pub proof fn lemma_find_deriv_some(bnf: Seq<DerivView>, s: Seq<char>)
    ensures
        find_deriv(bnf, s) matches Some(i) ==> 0 <= i < bnf.len() && bnf[i].0 == s,
    decreases bnf.len(),
{
    if bnf.len() > 0 {
        lemma_find_deriv_some(bnf.drop_last(), s);
    }
}

/// Matching children lists concatenate.
proof fn lemma_children_concat<T>(
    bnf: &BNF,
    tt: &TokenTree<T>,
    a: Seq<(&Deriv, &TokenTree<T>)>,
    x: Seq<(int, int)>,
    c: Seq<(&Deriv, &TokenTree<T>)>,
    y: Seq<(int, int)>,
)
    requires
        children_match(bnf, tt, a, x),
        children_match(bnf, tt, c, y),
    ensures
        children_match(bnf, tt, a + c, x + y),
{
    assert forall|k: int| 0 <= k < (x + y).len() implies {
        &&& 0 <= (#[trigger] (x + y)[k]).0 < bnf.0@.len()
        &&& 0 <= (x + y)[k].1 < tt.subs@.len()
        &&& tt.subs@[(x + y)[k].1].1 is T
        &&& *(a + c)[k].0 == bnf.0@[(x + y)[k].0]
        &&& *(a + c)[k].1 == tt.subs@[(x + y)[k].1].1->T_0
    } by {
        if k < x.len() {
            assert((x + y)[k] == x[k]);
            assert((a + c)[k] == a[k]);
        } else {
            assert((x + y)[k] == y[k - x.len()]);
            assert((a + c)[k] == c[k - x.len()]);
        }
    }
}

/// Matching of one choice against the children of `tt` from `start` on.
fn match_choice<'v, T: SyntaxName>(
    bnf: &'v BNF,
    choice: &'v RhStr,
    tt: &'v TokenTree<T>,
    start: Cursor,
    fuel: usize,
) -> (r: Option<Result<(Cursor, Vec<(&'v Deriv, &'v TokenTree<T>)>), String>>)
    requires
        start.end() == tt.subs@.len(),
        start.pos() <= tt.subs@.len(),
    ensures
        match run_choice(bnf@, choice@, *tt, 0, start.pos() as int, 0, Seq::empty(), fuel as nat) {
            ChoiceOutcome::Done(e, c) => r matches Some(Ok((cur, ch))) && cur.pos() == e && cur.end() == start.end()
                && start.pos() <= e <= tt.subs@.len() && children_match(bnf, tt, ch@, c),
            ChoiceOutcome::Failed(a) => r matches Some(Err(s)) && s@ == a,
            ChoiceOutcome::Stuck => r is None,
        },
    decreases fuel, 0int,
{
    let ghost b = bnf@;
    let ghost formal = choice@;
    let ghost n = tt.subs@.len() as int;
    let ghost top = run_choice(b, formal, *tt, 0, start.pos() as int, 0, Seq::empty(), fuel as nat);
    let mut p0 = Cursor::new(choice.0.len());
    let mut p1 = start;
    let mut repeat: usize = 0;
    let mut children: Vec<(&'v Deriv, &'v TokenTree<T>)> = Vec::new();
    let ghost mut chs: Seq<(int, int)> = Seq::empty();
    while !p1.reach_end() && !p0.reach_end()
        invariant
            b == bnf@,
            formal == choice@,
            n == tt.subs@.len(),
            p0.end() == formal.len(),
            p1.end() == n,
            p0.pos() <= formal.len(),
            start.pos() <= p1.pos() <= n,
            repeat <= p1.pos(),
            top == run_choice(b, formal, *tt, 0, start.pos() as int, 0, Seq::empty(), fuel as nat),
            top == run_choice(b, formal, *tt, p0.pos() as int, p1.pos() as int, repeat as int, chs, fuel as nat),
            children_match(bnf, tt, children@, chs),
        decreases formal.len() - p0.pos() + n - p1.pos(),
    {
        let i0 = *p0;
        let i1 = *p1;
        let formal_sym = choice.0[i0].0.as_str();
        let occ = choice.0[i0].1;
        let actual_sym = tt.subs[i1].0.name();
        let ghost sym = formal_sym@;
        proof {
            assert(formal[i0 as int] == (sym, occ));
        }
        let single = match occ {
            Occ::JustOne | Occ::AtMostOne => true,
            _ => false,
        };
        let skippable = match occ {
            Occ::Any | Occ::AtMostOne => true,
            Occ::OneOrMore => repeat > 0,
            Occ::JustOne => false,
        };
        let ghost cur = run_choice(b, formal, *tt, i0 as int, i1 as int, repeat as int, chs, fuel as nat);
        let mut matched = false;
        if is_shadow_lfsym(formal_sym) {
            let shadow = bnf.find_lfsym(formal_sym);
            proof {
                lemma_find_deriv_some(b, sym);
            }
            let shadow_deriv = match shadow {
                Some(d) => d,
                None => {
                    proof {
                        assert(cur is Stuck);
                    }
                    return None;
                },
            };
            let ghost di = find_deriv(b, sym)->0;
            proof {
                assert(b[di] == shadow_deriv@);
            }
            let sub = if fuel == 0 {
                None
            } else {
                verify_rhstr(bnf, shadow_deriv, tt, p1, fuel - 1)
            };
            if sub.is_none() {
                proof {
                    assert(cur is Stuck);
                }
                return None;
            }
            if let Some(Ok((np1, part))) = sub {
                let mut part = part;
                let ghost pv = part@;
                let ghost before = children@;
                let ghost sub_spec = rh_choices(b, b[di].1, *tt, i1 as int, (fuel - 1) as nat, 0, None, Seq::empty());
                let ghost ch = sub_spec->Matched_1;
                proof {
                    assert(fuel > 0);
                    assert(sub_spec is Matched);
                    lemma_children_concat(bnf, tt, before, chs, pv, ch);
                    chs = chs + ch;
                }
                if !single && *np1 == i1 {
                    proof {
                        assert(cur is Stuck);
                    }
                    return None;
                }
                children.append(&mut part);
                p1 = np1;
                if single {
                    p0.inc();
                    repeat = 0;
                } else {
                    repeat += 1;
                }
                matched = true;
            } else {
                proof {
                    if fuel > 0 {
                        let sub_spec = rh_choices(b, b[di].1, *tt, i1 as int, (fuel - 1) as nat, 0, None, Seq::empty());
                        assert(sub_spec is NoMatch);
                    }
                }
            }
        } else if str_eq(formal_sym, actual_sym.as_str()) {
            if formal_sym.unicode_len() == 0 {
                proof {
                    assert(cur is Stuck);
                }
                return None;
            }
            if is_explicit_nonterm(formal_sym) {
                proof {
                    lemma_find_deriv_some(b, sym);
                }
                let d = match bnf.find_lfsym(formal_sym) {
                    Some(d) => d,
                    None => {
                        proof {
                            assert(cur is Stuck);
                        }
                        return None;
                    },
                };
                let node = &tt.subs[i1].1;
                let is_tree = match node {
                    SyntaxNode::T(_) => true,
                    SyntaxNode::E(_) => false,
                };
                if !is_tree {
                    proof {
                        assert(cur is Stuck);
                    }
                    return None;
                }
                let sub_tt = node.as_tt();
                let ghost before = children@;
                let ghost pair = (find_deriv(b, sym)->0, i1 as int);
                children.push((d, sub_tt));
                proof {
                    assert(children@ == before.push((d, sub_tt)));
                    assert forall|k: int| 0 <= k < chs.push(pair).len() implies {
                        &&& 0 <= (#[trigger] chs.push(pair)[k]).0 < bnf.0@.len()
                        &&& 0 <= chs.push(pair)[k].1 < tt.subs@.len()
                        &&& tt.subs@[chs.push(pair)[k].1].1 is T
                        &&& *children@[k].0 == bnf.0@[chs.push(pair)[k].0]
                        &&& *children@[k].1 == tt.subs@[chs.push(pair)[k].1].1->T_0
                    } by {
                        if k < chs.len() {
                            assert(chs.push(pair)[k] == chs[k]);
                            assert(children@[k] == before[k]);
                        }
                    }
                    chs = chs.push(pair);
                }
            }
            p1.inc();
            if single {
                p0.inc();
                repeat = 0;
            } else {
                repeat += 1;
            }
            matched = true;
        }
        if !matched {
            if skippable {
                p0.inc();
                repeat = 0;
            } else {
                proof {
                    assert(cur == ChoiceOutcome::Failed(actual_sym@));
                }
                return Some(Err(actual_sym));
            }
        }
    }
    Some(Ok((p1, children)))
}

/// Matching of the choices of `deriv` against the children of `tt` from `p1`
/// on: the first choice that matches, else the kinds at which each failed.
fn verify_rhstr<'v, T: SyntaxName>(
    bnf: &'v BNF,
    deriv: &'v Deriv,
    tt: &'v TokenTree<T>,
    p1: Cursor,
    fuel: usize,
) -> (r: Option<Result<(Cursor, Vec<(&'v Deriv, &'v TokenTree<T>)>), Vec<String>>>)
    requires
        p1.end() == tt.subs@.len(),
        p1.pos() <= tt.subs@.len(),
    ensures
        match rh_choices(bnf@, deriv@.1, *tt, p1.pos() as int, fuel as nat, 0, None, Seq::empty()) {
            MatchOutcome::Matched(e, c) => r matches Some(Ok((cur, ch))) && cur.pos() == e && cur.end() == p1.end()
                && p1.pos() <= e <= tt.subs@.len() && children_match(bnf, tt, ch@, c),
            MatchOutcome::NoMatch(f) => r matches Some(Err(v)) && strs_view(v@) == f,
            MatchOutcome::Stuck => r is None,
        },
    decreases fuel, 1int,
{
    let ghost b = bnf@;
    let ghost cs = deriv@.1;
    let ghost top = rh_choices(b, cs, *tt, p1.pos() as int, fuel as nat, 0, None, Seq::empty());
    let mut ok: Option<(Cursor, Vec<(&'v Deriv, &'v TokenTree<T>)>)> = None;
    let ghost mut found: Option<(int, Seq<(int, int)>)> = None;
    let mut failed_at: Vec<String> = Vec::new();
    proof {
        assert(strs_view(failed_at@) =~= Seq::<Seq<char>>::empty());
    }
    let mut j: usize = 0;
    while j < deriv.choices.len()
        invariant
            b == bnf@,
            cs == deriv@.1,
            cs.len() == deriv.choices@.len(),
            j <= cs.len(),
            p1.end() == tt.subs@.len(),
            p1.pos() <= tt.subs@.len(),
            top == rh_choices(b, cs, *tt, p1.pos() as int, fuel as nat, 0, None, Seq::empty()),
            top == rh_choices(b, cs, *tt, p1.pos() as int, fuel as nat, j as int, found, strs_view(failed_at@)),
            ok is Some <==> found is Some,
            ok matches Some((cur, ch)) ==> found matches Some((e, c)) && cur.pos() == e && cur.end() == p1.end()
                && p1.pos() <= e <= tt.subs@.len() && children_match(bnf, tt, ch@, c),
        decreases cs.len() - j,
    {
        let choice = &deriv.choices[j];
        proof {
            assert(cs[j as int] == choice@);
        }
        let res = match match_choice(bnf, choice, tt, p1, fuel) {
            Some(res) => res,
            None => {
                return None;
            },
        };
        match res {
            Ok((cur, ch)) => {
                if ok.is_none() {
                    proof {
                        let o = run_choice(b, cs[j as int], *tt, 0, p1.pos() as int, 0, Seq::empty(), fuel as nat);
                        found = Some((o->Done_0, o->Done_1));
                    }
                    ok = Some((cur, ch));
                }
            },
            Err(a) => {
                let ghost fv = failed_at@;
                failed_at.push(a);
                proof {
                    assert(strs_view(failed_at@) =~= strs_view(fv).push(a@));
                }
            },
        }
        j += 1;
    }
    match ok {
        Some((cur, ch)) => Some(Ok((cur, ch))),
        None => Some(Err(failed_at)),
    }
}


/// The height of a node: 0 for a token, one more than its tallest child for a
/// tree.
pub open spec fn node_height<T>(n: SyntaxNode<T>) -> nat
    decreases n,
{
    match n {
        SyntaxNode::E(_) => 0,
        SyntaxNode::T(tt) => 1 + subs_height(tt.subs@),
    }
}

/// The height of the tallest of the nodes `subs`, 0 for none.
pub open spec fn subs_height<T>(subs: Seq<(T, SyntaxNode<T>)>) -> nat
    decreases subs,
{
    if subs.len() == 0 {
        0
    } else {
        let a = node_height(subs.last().1);
        let b = subs_height(subs.drop_last());
        if a >= b { a } else { b }
    }
}

/// Every node of `subs` is at most as tall as `subs_height(subs)`.
proof fn lemma_subs_height<T>(subs: Seq<(T, SyntaxNode<T>)>, i: int)
    requires
        0 <= i < subs.len(),
    ensures
        node_height(subs[i].1) <= subs_height(subs),
    decreases subs.len(),
{
    if i < subs.len() - 1 {
        lemma_subs_height(subs.drop_last(), i);
    }
}

/// The fuel with which a node of `n` children is checked against a grammar of
/// `d` derivations: `d * (n + 1)`, or `usize::MAX` where that does not fit.
/// Groups nested deeper than that repeat a derivation at a position, so a
/// check that needs more would not end.
pub open spec fn check_fuel(d: nat, n: nat) -> nat {
    if n >= usize::MAX || d * (n + 1) > usize::MAX {
        usize::MAX as nat
    } else {
        d * (n + 1)
    }
}

fn compute_check_fuel(d: usize, n: usize) -> (r: usize)
    ensures
        r == check_fuel(d as nat, n as nat),
{
    if n == usize::MAX {
        return usize::MAX;
    }
    match d.checked_mul(n + 1) {
        Some(f) => f,
        None => usize::MAX,
    }
}

/// The outcome of checking a tree, or one level of trees, against a grammar.
pub enum TreeCheck<T> {
    /// every tree matched all its children; the subtrees to check next
    Pass(Seq<(int, TokenTree<T>)>),
    /// a tree matched no choice, or not all its children
    Fail,
    /// the check reached a case on which it cannot go on, or one on which it
    /// would not end
    Stuck,
}

/// Checking the trees `q[k..]` of one level in order, each `q[k].1` against
/// derivation `q[k].0`; `next` holds the subtrees found so far.
pub open spec fn run_level<T: SyntaxName>(
    bnf: Seq<DerivView>,
    q: Seq<(int, TokenTree<T>)>,
    k: int,
    next: Seq<(int, TokenTree<T>)>,
) -> TreeCheck<T>
    decreases q.len() - k,
{
    if k < 0 || k >= q.len() {
        TreeCheck::Pass(next)
    } else {
        let t = q[k].1;
        let n = t.subs@.len();
        match rh_choices(bnf, bnf[q[k].0].1, t, 0, check_fuel(bnf.len(), n), 0, None, Seq::empty()) {
            MatchOutcome::Stuck => TreeCheck::Stuck,
            MatchOutcome::NoMatch(_) => TreeCheck::Fail,
            MatchOutcome::Matched(e, c) => if e == n {
                run_level(
                    bnf,
                    q,
                    k + 1,
                    next + c.map_values(|p: (int, int)| (p.0, t.subs@[p.1].1->T_0)),
                )
            } else {
                TreeCheck::Fail
            },
        }
    }
}

/// Checking the queue `q` level by level; `lv` exceeds the height of every
/// tree in the queue, so it does not run out before the queue does.
pub open spec fn check_levels<T: SyntaxName>(bnf: Seq<DerivView>, q: Seq<(int, TokenTree<T>)>, lv: nat) -> TreeCheck<T>
    decreases lv,
{
    if q.len() == 0 || lv == 0 {
        TreeCheck::Pass(Seq::empty())
    } else {
        match run_level(bnf, q, 0, Seq::empty()) {
            TreeCheck::Pass(next) => check_levels(bnf, next, (lv - 1) as nat),
            other => other,
        }
    }
}

/// Checking `tt` against the grammar, top down and breadth first, from the
/// first derivation; an empty grammar accepts every tree.
pub open spec fn check_tree<T: SyntaxName>(bnf: Seq<DerivView>, tt: TokenTree<T>) -> TreeCheck<T> {
    if bnf.len() == 0 {
        TreeCheck::Pass(Seq::empty())
    } else {
        check_levels(bnf, seq![(0int, tt)], subs_height(tt.subs@) + 1)
    }
}

/// The choices of derivation `d` match the children of `tt` from the first
/// one on, and the match takes all of them.
pub open spec fn takes_all_children<T: SyntaxName>(bnf: Seq<DerivView>, d: int, tt: TokenTree<T>) -> bool {
    rh_choices(bnf, bnf[d].1, tt, 0, check_fuel(bnf.len(), tt.subs@.len()), 0, None, Seq::empty()) matches
        MatchOutcome::Matched(e, c) && e == tt.subs@.len()
}

/// A level passes only when every tree of it matches a choice of its
/// derivation that takes all of its children.
pub proof fn lemma_level_pass_matches_all<T: SyntaxName>(
    bnf: Seq<DerivView>,
    q: Seq<(int, TokenTree<T>)>,
    k: int,
    next: Seq<(int, TokenTree<T>)>,
)
    requires
        0 <= k,
        run_level(bnf, q, k, next) is Pass,
    ensures
        forall|m: int| k <= m < q.len() ==> #[trigger] takes_all_children(bnf, q[m].0, q[m].1),
    decreases q.len() - k,
{
    if k < q.len() {
        let t = q[k].1;
        match rh_choices(bnf, bnf[q[k].0].1, t, 0, check_fuel(bnf.len(), t.subs@.len()), 0, None, Seq::empty()) {
            MatchOutcome::Matched(e, c) => {
                lemma_level_pass_matches_all(
                    bnf,
                    q,
                    k + 1,
                    next + c.map_values(|p: (int, int)| (p.0, t.subs@[p.1].1->T_0)),
                );
            },
            _ => {},
        }
    }
}

/// A tree that passes the check against a non-empty grammar matches a choice
/// of the first derivation that takes all of its children.
pub proof fn lemma_check_tree_root<T: SyntaxName>(bnf: Seq<DerivView>, tt: TokenTree<T>)
    requires
        bnf.len() > 0,
        check_tree(bnf, tt) is Pass,
    ensures
        takes_all_children(bnf, 0, tt),
{
    let q = seq![(0int, tt)];
    let lv = subs_height(tt.subs@) + 1;
    assert(check_levels(bnf, q, lv) == match run_level(bnf, q, 0, Seq::empty()) {
        TreeCheck::Pass(next) => check_levels(bnf, next, (lv - 1) as nat),
        other => other,
    });
    lemma_level_pass_matches_all(bnf, q, 0, Seq::empty());
    assert(q[0] == (0int, tt));
}

/// The check goes down into the subtrees: when a tree with subtrees passes,
/// every non-terminal child that the root's match found is itself matched,
/// all its children taken, by that child's derivation.
pub proof fn lemma_check_tree_children<T: SyntaxName>(bnf: Seq<DerivView>, tt: TokenTree<T>)
    requires
        bnf.len() > 0,
        check_tree(bnf, tt) is Pass,
        subs_height(tt.subs@) >= 1,
    ensures
        rh_choices(bnf, bnf[0].1, tt, 0, check_fuel(bnf.len(), tt.subs@.len()), 0, None, Seq::empty()) matches
            MatchOutcome::Matched(e, c) ==> forall|k: int|
            0 <= k < c.len() ==> #[trigger] takes_all_children(bnf, c[k].0, tt.subs@[c[k].1].1->T_0),
{
    let q = seq![(0int, tt)];
    let lv = subs_height(tt.subs@) + 1;
    lemma_check_tree_root(bnf, tt);
    assert(q[0] == (0int, tt));
    let m = rh_choices(bnf, bnf[0].1, tt, 0, check_fuel(bnf.len(), tt.subs@.len()), 0, None, Seq::empty());
    if let MatchOutcome::Matched(e, c) = m {
        let next = Seq::<(int, TokenTree<T>)>::empty() + c.map_values(|p: (int, int)| (p.0, tt.subs@[p.1].1->T_0));
        assert(run_level(bnf, q, 1, next) == TreeCheck::Pass(next));
        assert(run_level(bnf, q, 0, Seq::empty()) == TreeCheck::Pass(next));
        assert(check_levels(bnf, q, lv) == check_levels(bnf, next, (lv - 1) as nat));
        if next.len() > 0 {
            assert(check_levels(bnf, next, (lv - 1) as nat) == match run_level(bnf, next, 0, Seq::empty()) {
                TreeCheck::Pass(nn) => check_levels(bnf, nn, (lv - 2) as nat),
                other => other,
            });
            assert(check_levels(bnf, next, (lv - 1) as nat) is Pass);
            assert(run_level(bnf, next, 0, Seq::empty()) is Pass);
            lemma_level_pass_matches_all(bnf, next, 0, Seq::empty());
            assert(next =~= c.map_values(|p: (int, int)| (p.0, tt.subs@[p.1].1->T_0)));
            assert forall|k: int| 0 <= k < c.len() implies #[trigger] takes_all_children(
                bnf,
                c[k].0,
                tt.subs@[c[k].1].1->T_0,
            ) by {
                assert(next[k] == (c[k].0, tt.subs@[c[k].1].1->T_0));
                assert(takes_all_children(bnf, next[k].0, next[k].1));
            }
        }
    }
}

/// The queue of executable pairs stands for the queue `qs` of the spec.
pub open spec fn queue_match<T>(bnf: &BNF, q: Seq<(&Deriv, &TokenTree<T>)>, qs: Seq<(int, TokenTree<T>)>) -> bool {
    &&& q.len() == qs.len()
    &&& forall|k: int|
        0 <= k < qs.len() ==> {
            &&& 0 <= (#[trigger] qs[k]).0 < bnf.0@.len()
            &&& *q[k].0 == bnf.0@[qs[k].0]
            &&& *q[k].1 == qs[k].1
        }
}

/// Checks `tt` against a non-empty grammar: `Some(true)` when it passes,
/// `Some(false)` when it fails, `None` when the check gets stuck.
fn run_check<T: SyntaxName>(bnf: &BNF, tt: &TokenTree<T>) -> (r: Option<bool>)
    requires
        bnf.0@.len() > 0,
    ensures
        match check_tree(bnf@, *tt) {
            TreeCheck::Pass(_) => r == Some(true),
            TreeCheck::Fail => r == Some(false),
            TreeCheck::Stuck => r is None,
        },
{
    let ghost b = bnf@;
    let ghost top = check_tree(b, *tt);
    let mut q: Vec<(&Deriv, &TokenTree<T>)> = Vec::new();
    q.push((&bnf.0[0], tt));
    let ghost mut qs: Seq<(int, TokenTree<T>)> = seq![(0int, *tt)];
    let ghost mut lv: nat = subs_height(tt.subs@) + 1;
    let dn = bnf.0.len();
    while q.len() > 0
        invariant
            b == bnf@,
            dn == b.len(),
            queue_match(bnf, q@, qs),
            forall|k: int| 0 <= k < qs.len() ==> subs_height((#[trigger] qs[k]).1.subs@) < lv,
            top == check_levels(b, qs, lv),
            top == check_tree(b, *tt),
        decreases lv,
    {
        let ghost level = run_level(b, qs, 0, Seq::empty());
        let mut nxt: Vec<(&Deriv, &TokenTree<T>)> = Vec::new();
        let ghost mut nq: Seq<(int, TokenTree<T>)> = Seq::empty();
        proof {
            assert(subs_height(qs[0].1.subs@) < lv);
        }
        let mut i: usize = 0;
        while i < q.len()
            invariant
                b == bnf@,
                dn == b.len(),
                lv > 0,
                i <= q@.len(),
                queue_match(bnf, q@, qs),
                queue_match(bnf, nxt@, nq),
                forall|k: int| 0 <= k < qs.len() ==> subs_height((#[trigger] qs[k]).1.subs@) < lv,
                forall|k: int| 0 <= k < nq.len() ==> subs_height((#[trigger] nq[k]).1.subs@) < lv - 1,
                level == run_level(b, qs, 0, Seq::empty()),
                level == run_level(b, qs, i as int, nq),
                qs.len() > 0,
                top == check_levels(b, qs, lv),
                top == check_tree(b, *tt),
            decreases q@.len() - i,
        {
            let (deriv, t) = q[i];
            proof {
                assert(0 <= qs[i as int].0 < b.len());
                assert(b[qs[i as int].0] == deriv@);
            }
            let n = t.subs.len();
            let fuel = compute_check_fuel(dn, n);
            let p1 = Cursor::new(n);
            let ghost sub = rh_choices(b, b[qs[i as int].0].1, *t, 0, check_fuel(b.len(), n as nat), 0, None, Seq::empty());
            proof {
                assert(qs[i as int].1 == *t);
                assert(run_level(b, qs, i as int, nq) == match sub {
                    MatchOutcome::Stuck => TreeCheck::Stuck,
                    MatchOutcome::NoMatch(_) => TreeCheck::Fail,
                    MatchOutcome::Matched(e, c) => if e == n {
                        run_level(b, qs, i + 1, nq + c.map_values(|p: (int, int)| (p.0, t.subs@[p.1].1->T_0)))
                    } else {
                        TreeCheck::<T>::Fail
                    },
                });
                assert(top == match level {
                    TreeCheck::Pass(next) => check_levels(b, next, (lv - 1) as nat),
                    other => other,
                });
            }
            match verify_rhstr(bnf, deriv, t, p1, fuel) {
                None => {
                    return None;
                },
                Some(Err(_)) => {
                    return Some(false);
                },
                Some(Ok((e, children))) => {
                    if !e.reach_end() {
                        return Some(false);
                    }
                    let ghost tv = *t;
                    let ghost c = rh_choices(b, b[qs[i as int].0].1, tv, 0, check_fuel(b.len(), n as nat), 0, None, Seq::empty())->Matched_1;
                    let ghost add = c.map_values(|p: (int, int)| (p.0, tv.subs@[p.1].1->T_0));
                    let ghost before = nxt@;
                    let mut children = children;
                    let ghost cv = children@;
                    nxt.append(&mut children);
                    proof {
                        assert(nxt@ == before + cv);
                        assert forall|k: int| 0 <= k < (nq + add).len() implies {
                            &&& 0 <= (#[trigger] (nq + add)[k]).0 < bnf.0@.len()
                            &&& *nxt@[k].0 == bnf.0@[(nq + add)[k].0]
                            &&& *nxt@[k].1 == (nq + add)[k].1
                        } by {
                            if k >= nq.len() {
                                assert((nq + add)[k] == add[k - nq.len()]);
                                assert(nxt@[k] == cv[k - nq.len()]);
                            } else {
                                assert((nq + add)[k] == nq[k]);
                                assert(nxt@[k] == before[k]);
                            }
                        }
                        assert forall|k: int| 0 <= k < (nq + add).len() implies subs_height(
                            (#[trigger] (nq + add)[k]).1.subs@,
                        ) < lv - 1 by {
                            if k >= nq.len() {
                                let j = k - nq.len();
                                assert((nq + add)[k] == add[j]);
                                let ci = c[j].1;
                                lemma_subs_height(tv.subs@, ci);
                                assert(subs_height(qs[i as int].1.subs@) < lv);
                            } else {
                                assert((nq + add)[k] == nq[k]);
                            }
                        }
                        nq = nq + add;
                    }
                },
            }
            i += 1;
        }
        proof {
            assert(level == TreeCheck::Pass(nq));
            qs = nq;
            lv = (lv - 1) as nat;
        }
        q = nxt;
    }
    Some(true)
}

impl BNF {
    /// Checks `tt` against the grammar, top down and breadth first from the
    /// first derivation: every tree must match one of the choices of its
    /// derivation with all its children, the first such choice naming the
    /// derivations of its non-terminal children. An empty grammar accepts
    /// every tree.
    pub fn verify<T: SyntaxName>(&self, tt: &TokenTree<T>) -> (r: Result<(), ()>)
        requires
            !(check_tree(self@, *tt) is Stuck),
        ensures
            r is Ok <==> check_tree(self@, *tt) is Pass,
    {
        if self.0.len() == 0 {
            return Ok(());
        }
        match run_check(self, tt) {
            Some(true) => Ok(()),
            _ => Err(()),
        }
    }

    /// `verify` where the check can go on to its end; `None` where it gets
    /// stuck on a symbol without derivation, a non-terminal on a token or an
    /// empty symbol, or where the matching would not end: a repeated group
    /// that matches without taking a child, or groups nested deeper than the
    /// grammar's derivations times the tree's positions, which only a group
    /// that reaches itself at the same place can do.
    pub fn try_verify<T: SyntaxName>(&self, tt: &TokenTree<T>) -> (r: Option<Result<(), ()>>)
        ensures
            check_tree(self@, *tt) is Stuck <==> r is None,
            r matches Some(v) ==> (v is Ok <==> check_tree(self@, *tt) is Pass),
    {
        if self.0.len() == 0 {
            return Some(Ok(()));
        }
        match run_check(self, tt) {
            Some(true) => Some(Ok(())),
            Some(false) => Some(Err(())),
            None => None,
        }
    }
}

} // verus!
