//! The text form of a BNF grammar: its tokens, and the parse of a token list
//! into derivations.
//!
//! A derivation starts with `Name:`; its choices are separated by `|`; a
//! right-hand symbol is a non-terminal `[Name]` or a terminal `<name>`, with an
//! optional `+`, `?` or `*` after it; `..Name` adds the choices of an earlier
//! derivation; a parenthesized group becomes a derivation of its own, named
//! by `shadow_lfsym`.
use crate::lexer::interner::{full, Interner};
use crate::lexer::token::Token;
use crate::lexer::tokenize::all_valid_in;
use crate::spec::{find_deriv, lemma_find_deriv, spec_shadow_lfsym, shadow_lfsym, gen_counter, Counter, Deriv, DerivView, Occ, RhStr, RhView, BNF};
use crate::lexer::interner::{lemma_prefix_refl, lemma_prefix_trans};
use crate::lexer::pattern::TokenMatcher;
use crate::lexer::prelude::{is_layout, trim, trimmed, StdMatcher};
use crate::lexer::srcfile::SrcFileInfo;
use crate::lexer::text::{bytes_of, chars_between, is_boundary, str_eq, substr};
use crate::lexer::tokenize::{first_fetch, FnMatcher, tokenize as tokenize_source, tokenize_from, triples_of, TokTriple, TokenizeErrorReason, TokenizeResult};
use crate::lexer::pattern::{regex_captures, regex_valid};
use crate::lexer::srcfile::Span;
use crate::spec::{check_choices, check_from, check_rh};
use vstd::prelude::*;
use vstd::string::StringSliceAdditionalSpecFns;

verus! {

/// A token as its name and its value.
pub type TokView = (Seq<char>, Seq<char>);

/// The names and values of `toks` among the interned strings `strs`.
pub open spec fn tok_views(toks: Seq<Token>, strs: Seq<Seq<char>>) -> Seq<TokView> {
    toks.map_values(|t: Token| (t.name_in(strs), t.value_in(strs)))
}

/// The occurrence written `s`.
pub open spec fn occ_of(s: Seq<char>) -> Option<Occ> {
    if s == seq!['+'] {
        Some(Occ::OneOrMore)
    } else if s == seq!['?'] {
        Some(Occ::AtMostOne)
    } else if s == seq!['*'] {
        Some(Occ::Any)
    } else {
        None
    }
}

/// The occurrence that follows a right-hand symbol, read at `p`: an `occ`
/// token is taken, anything else leaves `JustOne`; `None` for an `occ` token
/// that writes no occurrence.
pub open spec fn occ_at(toks: Seq<TokView>, p: int) -> Option<(Occ, int)> {
    if 0 <= p < toks.len() && toks[p].0 == "occ"@ {
        match occ_of(toks[p].1) {
            Some(o) => Some((o, p + 1)),
            None => None,
        }
    } else {
        Some((Occ::JustOne, p))
    }
}

/// Parsing a parenthesized group from `pos` on, for the derivation `lfsym`:
/// `derives` holds the derivations of nested groups so far, `choices` the
/// finished choices, `rhstr` the current one, `count` the number of the next
/// nested group. The result is the group's derivations, its own last, and the
/// position after its `)`; `None` where a token does not fit.
pub open spec fn group_from(
    toks: Seq<TokView>,
    pos: int,
    lfsym: Seq<char>,
    derives: Seq<DerivView>,
    choices: Seq<RhView>,
    rhstr: RhView,
    count: nat,
) -> Option<(Seq<DerivView>, int)>
    decreases toks.len() - pos,
{
    if pos < 0 || pos >= toks.len() {
        Some((derives.push((lfsym, choices)), pos))
    } else {
        let name = toks[pos].0;
        let value = toks[pos].1;
        if name == "nonterm"@ || name == "term"@ {
            match occ_at(toks, pos + 1) {
                None => None,
                Some((occ, p)) => group_from(toks, p, lfsym, derives, choices, rhstr.push((value, occ)), count),
            }
        } else if name == "lparen"@ {
            let shadow = spec_shadow_lfsym(lfsym, count);
            match group_from(toks, pos + 1, shadow, Seq::empty(), Seq::empty(), Seq::empty(), 1) {
                None => None,
                Some((ds, p2)) => if p2 <= pos || p2 > toks.len() {
                    None
                } else {
                    match occ_at(toks, p2) {
                        None => None,
                        Some((occ, p3)) => group_from(
                            toks,
                            p3,
                            lfsym,
                            derives + ds,
                            choices,
                            rhstr.push((shadow, occ)),
                            count + 1,
                        ),
                    }
                },
            }
        } else if name == "rparen"@ {
            Some((derives.push((lfsym, choices.push(rhstr))), pos + 1))
        } else if name == "delim"@ {
            group_from(toks, pos + 1, lfsym, derives, choices.push(rhstr), Seq::empty(), count)
        } else {
            None
        }
    }
}

/// The state of the parse of a grammar: the derivations so far, the
/// derivation being read and its choices, and the choice being read.
pub struct NomView {
    pub derivs: Seq<DerivView>,
    pub lfsym: Option<Seq<char>>,
    pub choices: Option<Seq<RhView>>,
    pub rhstr: Option<RhView>,
}

/// Closing the current choice: it joins the choices; `None` when there is a
/// choice but no derivation to take it.
pub open spec fn collect_rhstr_view(n: NomView) -> Option<NomView> {
    match n.rhstr {
        None => Some(n),
        Some(r) => match n.choices {
            Some(c) => Some(NomView { choices: Some(c.push(r)), rhstr: None, ..n }),
            None => None,
        },
    }
}

/// Closing the current derivation: it joins the derivations.
pub open spec fn collect_choices_view(n: NomView) -> Option<NomView> {
    match n.choices {
        None => Some(n),
        Some(c) => match n.lfsym {
            Some(l) => Some(NomView { derivs: n.derivs.push((l, c)), lfsym: None, choices: None, ..n }),
            None => None,
        },
    }
}

/// Adding a symbol to the current choice, if there is one.
pub open spec fn push_rhsym_view(n: NomView, sym: Seq<char>, occ: Occ) -> NomView {
    match n.rhstr {
        Some(r) => NomView { rhstr: Some(r.push((sym, occ))), ..n },
        None => n,
    }
}

/// Closing the current choice and derivation.
pub open spec fn collect_view(n: NomView) -> Option<NomView> {
    match collect_rhstr_view(n) {
        None => None,
        Some(n1) => collect_choices_view(n1),
    }
}

/// Parsing a grammar's tokens from `pos` on in the state `nom`; `count` is
/// the number of the next group of the current derivation. `None` where a
/// token does not fit.
pub open spec fn parse_from(toks: Seq<TokView>, pos: int, nom: NomView, count: nat) -> Option<Seq<DerivView>>
    decreases toks.len() - pos,
{
    if pos < 0 || pos >= toks.len() {
        match collect_view(nom) {
            None => None,
            Some(n) => Some(n.derivs),
        }
    } else {
        let name = toks[pos].0;
        let value = toks[pos].1;
        if name == "lfsym"@ {
            match collect_view(nom) {
                None => None,
                Some(n) => parse_from(
                    toks,
                    pos + 1,
                    NomView { lfsym: Some(value), choices: Some(Seq::empty()), ..n },
                    1,
                ),
            }
        } else if name == "unpacked_sym"@ {
            match find_deriv(nom.derivs, value) {
                None => None,
                Some(i) => parse_from(
                    toks,
                    pos + 1,
                    NomView {
                        choices: match nom.choices {
                            Some(c) => Some(c + nom.derivs[i].1),
                            None => None,
                        },
                        ..nom
                    },
                    count,
                ),
            }
        } else if name == "delim"@ {
            match collect_rhstr_view(nom) {
                None => None,
                Some(n) => parse_from(toks, pos + 1, NomView { rhstr: Some(Seq::empty()), ..n }, count),
            }
        } else if name == "nonterm"@ || name == "term"@ {
            match occ_at(toks, pos + 1) {
                None => None,
                Some((occ, p)) => parse_from(toks, p, push_rhsym_view(nom, value, occ), count),
            }
        } else if name == "lparen"@ {
            match nom.lfsym {
                None => None,
                Some(l) => {
                    let shadow = spec_shadow_lfsym(l, count);
                    match group_from(toks, pos + 1, shadow, Seq::empty(), Seq::empty(), Seq::empty(), 1) {
                        None => None,
                        Some((ds, p2)) => if p2 <= pos || p2 > toks.len() {
                            None
                        } else {
                            match occ_at(toks, p2) {
                                None => None,
                                Some((occ, p3)) => parse_from(
                                    toks,
                                    p3,
                                    push_rhsym_view(NomView { derivs: nom.derivs + ds, ..nom }, shadow, occ),
                                    count + 1,
                                ),
                            }
                        },
                    }
                },
            }
        } else {
            None
        }
    }
}

/// Unpacking `..Name` adds all the choices of the first derivation of `Name`
/// read so far, in order, after the choices the current derivation already
/// has: the parse goes on from the next token with exactly those choices.
pub proof fn lemma_unpack_appends_all_choices(toks: Seq<TokView>, pos: int, nom: NomView, count: nat, d: int)
    requires
        0 <= pos < toks.len(),
        toks[pos].0 == "unpacked_sym"@,
        nom.choices is Some,
        0 <= d < nom.derivs.len(),
        nom.derivs[d].0 == toks[pos].1,
        forall|k: int| 0 <= k < d ==> (#[trigger] nom.derivs[k]).0 != toks[pos].1,
    ensures
        parse_from(toks, pos, nom, count) == parse_from(
            toks,
            pos + 1,
            NomView { choices: Some(nom.choices->0 + nom.derivs[d].1), ..nom },
            count,
        ),
{
    crate::spec::lemma_find_deriv(nom.derivs, toks[pos].1, d);
    assert(toks[pos].0 != "lfsym"@) by {
        reveal_strlit("lfsym");
        reveal_strlit("unpacked_sym");
        assert("unpacked_sym"@.len() != "lfsym"@.len());
    }
}

/// The grammar that the tokens `toks` write, or `None` where a token does not
/// fit.
pub open spec fn parse_view(toks: Seq<TokView>) -> Option<Seq<DerivView>> {
    parse_from(toks, 0, NomView { derivs: Seq::empty(), lfsym: None, choices: None, rhstr: None }, 1)
}

/// The views of a list of derivations.
pub open spec fn derivs_view(v: Seq<Deriv>) -> Seq<DerivView> {
    v.map_values(|d: Deriv| d@)
}

/// The views of a list of choices.
pub open spec fn choices_view(v: Seq<RhStr>) -> Seq<RhView> {
    v.map_values(|c: RhStr| c@)
}

/// The view of an optional string.
pub open spec fn opt_str_view(o: Option<String>) -> Option<Seq<char>> {
    match o {
        Some(s) => Some(s@),
        None => None,
    }
}

/// The view of an optional list of choices.
pub open spec fn opt_choices_view(o: Option<Vec<RhStr>>) -> Option<Seq<RhView>> {
    match o {
        Some(v) => Some(choices_view(v@)),
        None => None,
    }
}

/// The view of an optional choice.
pub open spec fn opt_rh_view(o: Option<RhStr>) -> Option<RhView> {
    match o {
        Some(r) => Some(r@),
        None => None,
    }
}

/// The parse state.
struct Nom {
    bnf: BNF,
    lfsym: Option<String>,
    choices: Option<Vec<RhStr>>,
    rhstr: Option<RhStr>,
}

impl View for Nom {
    type V = NomView;

    closed spec fn view(&self) -> NomView {
        NomView {
            derivs: self.bnf@,
            lfsym: opt_str_view(self.lfsym),
            choices: opt_choices_view(self.choices),
            rhstr: opt_rh_view(self.rhstr),
        }
    }
}

impl Nom {
    /// The state before the first token.
    fn new() -> (r: Nom)
        ensures
            r@ == (NomView { derivs: Seq::empty(), lfsym: None, choices: None, rhstr: None }),
    {
        let r = Nom { bnf: BNF(Vec::new()), lfsym: None, choices: None, rhstr: None };
        proof {
            assert(r@.derivs =~= Seq::<DerivView>::empty());
        }
        r
    }

    /// Closes the current derivation; `false` when there are choices but no
    /// left-hand symbol.
    fn collect_choices(&mut self) -> (ok: bool)
        ensures
            collect_choices_view(old(self)@) is Some <==> ok,
            ok ==> final(self)@ == collect_choices_view(old(self)@)->0,
    {
        match self.choices.take() {
            None => true,
            Some(choices) => match self.lfsym.take() {
                Some(lfsym) => {
                    let ghost before = self.bnf@;
                    let ghost d = Deriv { lfsym, choices };
                    self.bnf.0.push(Deriv { lfsym, choices });
                    proof {
                        assert(self.bnf@ =~= before.push(d@));
                    }
                    true
                },
                None => false,
            },
        }
    }

    /// Closes the current choice; `false` when there is a choice but no
    /// derivation to take it.
    fn collect_rhstr(&mut self) -> (ok: bool)
        ensures
            collect_rhstr_view(old(self)@) is Some <==> ok,
            ok ==> final(self)@ == collect_rhstr_view(old(self)@)->0,
    {
        match self.rhstr.take() {
            None => true,
            Some(rhstr) => match self.choices.take() {
                Some(mut choices) => {
                    let ghost before = choices@;
                    let ghost r = rhstr@;
                    choices.push(rhstr);
                    proof {
                        assert(choices_view(choices@) =~= choices_view(before).push(r));
                    }
                    self.choices = Some(choices);
                    true
                },
                None => false,
            },
        }
    }

    /// Adds a symbol to the current choice, if there is one.
    fn push_rhsym(&mut self, rhsym: String, occ: Occ)
        ensures
            final(self)@ == push_rhsym_view(old(self)@, rhsym@, occ),
    {
        match self.rhstr.take() {
            Some(mut symstr) => {
                let ghost before = symstr@;
                let ghost s = rhsym@;
                symstr.0.push((rhsym, occ));
                proof {
                    assert(symstr@ =~= before.push((s, occ)));
                }
                self.rhstr = Some(symstr);
            },
            None => {},
        }
    }
}


/// Copies of the choices `v`.
fn clone_choices(v: &Vec<RhStr>) -> (r: Vec<RhStr>)
    ensures
        choices_view(r@) == choices_view(v@),
{
    let mut out: Vec<RhStr> = Vec::new();
    let mut i: usize = 0;
    while i < v.len()
        invariant
            i <= v@.len(),
            choices_view(out@) == choices_view(v@.take(i as int)),
        decreases v@.len() - i,
    {
        let c = v[i].clone();
        let ghost before = out@;
        out.push(c);
        proof {
            assert(v@.take(i + 1) =~= v@.take(i as int).push(v@[i as int]));
            assert(choices_view(out@) =~= choices_view(before).push(c@));
            assert(choices_view(v@.take(i + 1)) =~= choices_view(v@.take(i as int)).push(v@[i as int]@));
        }
        i += 1;
    }
    proof {
        assert(v@.take(v@.len() as int) =~= v@);
    }
    out
}

/// Reads the occurrence after a right-hand symbol at `p`.
fn parse_occ(interner: &Interner, toks: &[Token], p: usize) -> (r: Option<(Occ, usize)>)
    requires
        interner.wf(),
        all_valid_in(toks@, interner@),
        p <= toks@.len(),
    ensures
        match occ_at(tok_views(toks@, interner@), p as int) {
            None => r is None,
            Some((o, q)) => r == Some((o, q as usize)),
        },
{
    if p < toks.len() && toks[p].check_name(interner, "occ") {
        let v = toks[p].value_string(interner);
        match Occ::from_str(v.as_str()) {
            Ok(o) => Some((o, p + 1)),
            Err(_) => None,
        }
    } else {
        Some((Occ::JustOne, p))
    }
}

/// Parses a parenthesized group that starts at `pos`, just after its `(`, as
/// the derivation `lfsym`: the derivations of its nested groups, then its own,
/// and the position after its `)`.
fn parse_grouped_deriv(interner: &Interner, toks: &[Token], pos: usize, lfsym: String) -> (r: Option<(Vec<Deriv>, usize)>)
    requires
        interner.wf(),
        all_valid_in(toks@, interner@),
        1 <= pos <= toks@.len(),
    ensures
        match group_from(tok_views(toks@, interner@), pos as int, lfsym@, Seq::empty(), Seq::empty(), Seq::empty(), 1) {
            None => r is None,
            Some((ds, p)) => r matches Some((v, q)) && derivs_view(v@) == ds && q == p && pos <= q <= toks@.len(),
        },
    decreases toks@.len() - pos,
{
    let ghost tv = tok_views(toks@, interner@);
    let ghost top = group_from(tv, pos as int, lfsym@, Seq::empty(), Seq::empty(), Seq::empty(), 1);
    let mut derives: Vec<Deriv> = Vec::new();
    let mut choices: Vec<RhStr> = Vec::new();
    let mut rhstr = RhStr(Vec::new());
    let mut auto = gen_counter();
    let mut i: usize = pos;
    proof {
        assert(derivs_view(derives@) =~= Seq::<DerivView>::empty());
        assert(choices_view(choices@) =~= Seq::<RhView>::empty());
        assert(rhstr@ =~= Seq::<(Seq<char>, Occ)>::empty());
    }
    while i < toks.len()
        invariant
            interner.wf(),
            all_valid_in(toks@, interner@),
            tv == tok_views(toks@, interner@),
            1 <= pos <= i <= toks@.len(),
            1 <= auto.value() <= i,
            top == group_from(tv, pos as int, lfsym@, Seq::empty(), Seq::empty(), Seq::empty(), 1),
            top == group_from(
                tv,
                i as int,
                lfsym@,
                derivs_view(derives@),
                choices_view(choices@),
                rhstr@,
                auto.value() as nat,
            ),
        decreases toks@.len() - i,
    {
        let name = toks[i].name_string(interner);
        let value = toks[i].value_string(interner);
        let n = name.as_str();
        if str_eq(n, "nonterm") || str_eq(n, "term") {
            let (occ, p) = match parse_occ(interner, toks, i + 1) {
                Some(x) => x,
                None => {
                    return None;
                },
            };
            let ghost before = rhstr@;
            let ghost v = value@;
            rhstr.0.push((value, occ));
            proof {
                assert(rhstr@ =~= before.push((v, occ)));
            }
            i = p;
        } else if str_eq(n, "lparen") {
            let c = auto.next();
            let shadow = shadow_lfsym(lfsym.as_str(), c);
            let (mut ds, p2) = match parse_grouped_deriv(interner, toks, i + 1, shadow.clone()) {
                Some(x) => x,
                None => {
                    return None;
                },
            };
            let ghost before = derives@;
            let ghost dsv = ds@;
            derives.append(&mut ds);
            proof {
                assert(derivs_view(derives@) =~= derivs_view(before) + derivs_view(dsv));
            }
            let (occ, p3) = match parse_occ(interner, toks, p2) {
                Some(x) => x,
                None => {
                    return None;
                },
            };
            let ghost rb = rhstr@;
            let ghost sv = shadow@;
            rhstr.0.push((shadow, occ));
            proof {
                assert(rhstr@ =~= rb.push((sv, occ)));
            }
            i = p3;
        } else if str_eq(n, "rparen") {
            let ghost cb = choices@;
            let ghost rv = rhstr@;
            choices.push(rhstr);
            proof {
                assert(choices_view(choices@) =~= choices_view(cb).push(rv));
            }
            let ghost db = derives@;
            let ghost d = Deriv { lfsym, choices };
            derives.push(Deriv { lfsym, choices });
            proof {
                assert(derivs_view(derives@) =~= derivs_view(db).push(d@));
            }
            return Some((derives, i + 1));
        } else if str_eq(n, "delim") {
            let ghost cb = choices@;
            let ghost rv = rhstr@;
            choices.push(rhstr);
            proof {
                assert(choices_view(choices@) =~= choices_view(cb).push(rv));
            }
            rhstr = RhStr(Vec::new());
            proof {
                assert(rhstr@ =~= Seq::<(Seq<char>, Occ)>::empty());
            }
            i += 1;
        } else {
            return None;
        }
    }
    let ghost db = derives@;
    let ghost d = Deriv { lfsym, choices };
    derives.push(Deriv { lfsym, choices });
    proof {
        assert(derivs_view(derives@) =~= derivs_view(db).push(d@));
    }
    Some((derives, i))
}


/// Parses the tokens of a grammar (layout dropped, values stripped of their
/// brackets) into its derivations; `None` where a token does not fit: a group
/// or a `|` before the first derivation, an unknown `..` symbol, an `occ`
/// token that writes no occurrence, or a token of another kind.
pub fn parse(interner: &Interner, toks: &[Token]) -> (r: Option<BNF>)
    requires
        interner.wf(),
        all_valid_in(toks@, interner@),
    ensures
        match parse_view(tok_views(toks@, interner@)) {
            None => r is None,
            Some(ds) => r matches Some(b) && b@ == ds,
        },
{
    let ghost tv = tok_views(toks@, interner@);
    let ghost top = parse_view(tv);
    let mut nom = Nom::new();
    let mut auto = gen_counter();
    let mut i: usize = 0;
    while i < toks.len()
        invariant
            interner.wf(),
            all_valid_in(toks@, interner@),
            tv == tok_views(toks@, interner@),
            i <= toks@.len(),
            nom@.lfsym is Some ==> 1 <= auto.value() <= i,
            top == parse_view(tv),
            top == parse_from(tv, i as int, nom@, auto.value() as nat),
        decreases toks@.len() - i,
    {
        let name = toks[i].name_string(interner);
        let value = toks[i].value_string(interner);
        let n = name.as_str();
        if str_eq(n, "lfsym") {
            if !nom.collect_rhstr() {
                return None;
            }
            if !nom.collect_choices() {
                return None;
            }
            nom.lfsym = Some(value);
            nom.choices = Some(Vec::new());
            proof {
                assert(choices_view(Seq::<RhStr>::empty()) =~= Seq::<RhView>::empty());
            }
            auto = gen_counter();
            i += 1;
        } else if str_eq(n, "unpacked_sym") {
            let mut extra = match nom.bnf.find_lfsym(value.as_str()) {
                Some(d) => clone_choices(&d.choices),
                None => {
                    return None;
                },
            };
            proof {
                crate::spec::lemma_find_deriv_some(nom@.derivs, value@);
            }
            match nom.choices.take() {
                Some(mut c) => {
                    let ghost cb = c@;
                    let ghost eb = extra@;
                    c.append(&mut extra);
                    proof {
                        assert(choices_view(c@) =~= choices_view(cb) + choices_view(eb));
                    }
                    nom.choices = Some(c);
                },
                None => {},
            }
            i += 1;
        } else if str_eq(n, "delim") {
            if !nom.collect_rhstr() {
                return None;
            }
            nom.rhstr = Some(RhStr(Vec::new()));
            proof {
                assert(nom@.rhstr->0 =~= Seq::<(Seq<char>, Occ)>::empty());
            }
            i += 1;
        } else if str_eq(n, "nonterm") || str_eq(n, "term") {
            let (occ, p) = match parse_occ(interner, toks, i + 1) {
                Some(x) => x,
                None => {
                    return None;
                },
            };
            nom.push_rhsym(value, occ);
            i = p;
        } else if str_eq(n, "lparen") {
            let l = match &nom.lfsym {
                Some(l) => l.clone(),
                None => {
                    return None;
                },
            };
            let c = auto.next();
            let shadow = shadow_lfsym(l.as_str(), c);
            let (mut ds, p2) = match parse_grouped_deriv(interner, toks, i + 1, shadow.clone()) {
                Some(x) => x,
                None => {
                    return None;
                },
            };
            let ghost before = nom.bnf@;
            let ghost dsv = ds@;
            nom.bnf.0.append(&mut ds);
            proof {
                assert(nom.bnf@ =~= before + derivs_view(dsv));
            }
            let (occ, p3) = match parse_occ(interner, toks, p2) {
                Some(x) => x,
                None => {
                    return None;
                },
            };
            nom.push_rhsym(shadow, occ);
            i = p3;
        } else {
            return None;
        }
    }
    if !nom.collect_rhstr() {
        return None;
    }
    if !nom.collect_choices() {
        return None;
    }
    Some(nom.bnf)
}


/// The value of a token of kind `name` with its brackets taken off, as byte
/// slices of the text: the final `:` of an `lfsym`, the enclosing `[` `]` or
/// `<` `>` of a `nonterm` or `term`, the leading `..` of an `unpacked_sym`.
/// `None` where a slice would not fall on character boundaries or the text is
/// too short for it.
pub open spec fn stripped_value(name: Seq<char>, value: Seq<char>) -> Option<Seq<char>> {
    let n = bytes_of(value).len() as int;
    if name == "lfsym"@ {
        if n >= 1 && is_boundary(value, n - 1) {
            Some(chars_between(value, 0, n - 1))
        } else {
            None
        }
    } else if name == "nonterm"@ || name == "term"@ {
        if n >= 2 && is_boundary(value, 1) && is_boundary(value, n - 1) {
            Some(chars_between(value, 1, n - 1))
        } else {
            None
        }
    } else if name == "unpacked_sym"@ {
        if n >= 2 && is_boundary(value, 2) {
            Some(chars_between(value, 2, n))
        } else {
            None
        }
    } else {
        Some(value)
    }
}

/// Every token of `tv` can have its brackets taken off.
pub open spec fn strip_ok(tv: Seq<TokView>) -> bool {
    forall|k: int| 0 <= k < tv.len() ==> (#[trigger] stripped_value(tv[k].0, tv[k].1)) is Some
}

/// The tokens `tv` with their brackets taken off.
pub open spec fn stripped(tv: Seq<TokView>) -> Seq<TokView> {
    Seq::new(tv.len(), |k: int| (tv[k].0, stripped_value(tv[k].0, tv[k].1)->0))
}

/// Some right-hand symbol of `bnf` is empty.
pub open spec fn has_empty_rhsym(bnf: Seq<DerivView>) -> bool {
    exists|i: int, j: int, k: int|
        0 <= i < bnf.len() && 0 <= j < bnf[i].1.len() && 0 <= k < bnf[i].1[j].len() && (
        #[trigger] bnf[i].1[j][k]).0.len() == 0
}

/// The grammar that the tokens `tv` write, brackets still on: taken off,
/// parsed, and kept only when it passes its self-check; `None` otherwise.
pub open spec fn grammar_of_tokens(tv: Seq<TokView>) -> Option<Seq<DerivView>> {
    if !strip_ok(tv) {
        None
    } else {
        match parse_view(stripped(tv)) {
            None => None,
            Some(ds) => if !has_empty_rhsym(ds) && check_from(ds, 0) is Valid {
                Some(ds)
            } else {
                None
            },
        }
    }
}

/// The views of tokens stay the same when the interner grows.
proof fn lemma_views_grow(toks: Seq<Token>, s0: Seq<Seq<char>>, s1: Seq<Seq<char>>)
    requires
        all_valid_in(toks, s0),
        s0.is_prefix_of(s1),
    ensures
        tok_views(toks, s0) == tok_views(toks, s1),
        all_valid_in(toks, s1),
{
    crate::lexer::tokenize::lemma_valid_grow(toks, s0, s1);
    assert forall|k: int| 0 <= k < toks.len() implies tok_views(toks, s0)[k] == tok_views(toks, s1)[k] by {
        assert(toks[k].valid_in(s0));
    }
    assert(tok_views(toks, s0) =~= tok_views(toks, s1));
}

/// Where the check of the right-hand symbols `rh[k..]` gets stuck, one of
/// them is empty.
proof fn lemma_check_rh_stuck(bnf: Seq<DerivView>, rh: RhView, k: int)
    requires
        check_rh(bnf, rh, k) is Stuck,
    ensures
        exists|m: int| k <= m < rh.len() && 0 <= m && (#[trigger] rh[m]).0.len() == 0,
    decreases rh.len() - k,
{
    if k >= 0 && k < rh.len() && rh[k].0.len() != 0 {
        lemma_check_rh_stuck(bnf, rh, k + 1);
    }
}

/// Where the check of the choices `chs[j..]` gets stuck, one of their symbols
/// is empty.
proof fn lemma_check_choices_stuck(bnf: Seq<DerivView>, chs: Seq<RhView>, j: int)
    requires
        check_choices(bnf, chs, j) is Stuck,
    ensures
        exists|m: int, k: int| j <= m < chs.len() && 0 <= m && 0 <= k < chs[m].len() && (#[trigger] chs[m][k]).0.len() == 0,
    decreases chs.len() - j,
{
    if j >= 0 && j < chs.len() {
        if check_rh(bnf, chs[j], 0) is Stuck {
            lemma_check_rh_stuck(bnf, chs[j], 0);
            let m = choose|m: int| 0 <= m < chs[j].len() && (#[trigger] chs[j][m]).0.len() == 0;
            assert(chs[j][m].0.len() == 0);
        } else {
            lemma_check_choices_stuck(bnf, chs, j + 1);
        }
    }
}

/// Where the self-check of `bnf[i..]` gets stuck, a right-hand symbol is
/// empty.
proof fn lemma_check_from_stuck(bnf: Seq<DerivView>, i: int)
    requires
        check_from(bnf, i) is Stuck,
    ensures
        has_empty_rhsym(bnf),
    decreases bnf.len() - i,
{
    if i >= 0 && i < bnf.len() {
        if !(exists|k: int| 0 <= k < i && bnf[k].0 == bnf[i].0) {
            if check_choices(bnf, bnf[i].1, 0) is Stuck {
                lemma_check_choices_stuck(bnf, bnf[i].1, 0);
                let (m, k) = choose|m: int, k: int|
                    0 <= m < bnf[i].1.len() && 0 <= k < bnf[i].1[m].len() && (#[trigger] bnf[i].1[m][k]).0.len() == 0;
                assert(bnf[i].1[m][k].0.len() == 0);
            } else {
                lemma_check_from_stuck(bnf, i + 1);
            }
        }
    }
}

/// Whether some right-hand symbol of `bnf` is empty.
fn find_empty_rhsym(bnf: &BNF) -> (r: bool)
    ensures
        r == has_empty_rhsym(bnf@),
{
    let ghost b = bnf@;
    let mut i: usize = 0;
    while i < bnf.0.len()
        invariant
            b == bnf@,
            i <= b.len(),
            forall|x: int, j: int, k: int|
                0 <= x < i && 0 <= j < b[x].1.len() && 0 <= k < b[x].1[j].len() ==> (#[trigger] b[x].1[j][k]).0.len() != 0,
        decreases b.len() - i,
    {
        let d = &bnf.0[i];
        let mut j: usize = 0;
        while j < d.choices.len()
            invariant
                b == bnf@,
                i < b.len(),
                *d == bnf.0@[i as int],
                j <= d.choices@.len(),
                forall|x: int, jj: int, k: int|
                    0 <= x < i && 0 <= jj < b[x].1.len() && 0 <= k < b[x].1[jj].len() ==> (#[trigger] b[x].1[jj][k]).0.len() != 0,
                forall|jj: int, k: int|
                    0 <= jj < j && 0 <= k < b[i as int].1[jj].len() ==> (#[trigger] b[i as int].1[jj][k]).0.len() != 0,
            decreases d.choices@.len() - j,
        {
            let c = &d.choices[j];
            let mut k: usize = 0;
            while k < c.0.len()
                invariant
                    b == bnf@,
                    i < b.len(),
                    *d == bnf.0@[i as int],
                    j < d.choices@.len(),
                    *c == d.choices@[j as int],
                    k <= c.0@.len(),
                    forall|x: int, jj: int, kk: int|
                        0 <= x < i && 0 <= jj < b[x].1.len() && 0 <= kk < b[x].1[jj].len() ==> (#[trigger] b[x].1[jj][kk]).0.len() != 0,
                    forall|jj: int, kk: int|
                        0 <= jj < j && 0 <= kk < b[i as int].1[jj].len() ==> (#[trigger] b[i as int].1[jj][kk]).0.len() != 0,
                    forall|kk: int| 0 <= kk < k ==> (#[trigger] b[i as int].1[j as int][kk]).0.len() != 0,
                decreases c.0@.len() - k,
            {
                proof {
                    assert(b[i as int].1[j as int][k as int].0 == c.0@[k as int].0@);
                }
                if c.0[k].0.as_str().unicode_len() == 0 {
                    return true;
                }
                k += 1;
            }
            j += 1;
        }
        i += 1;
    }
    false
}

/// The token with its brackets taken off; `None` where a slice would not fall
/// on character boundaries.
fn strip_token(interner: &mut Interner, tok: Token) -> (r: Option<Token>)
    requires
        old(interner).wf(),
        old(interner)@.len() < u32::MAX,
        tok.valid_in(old(interner)@),
    ensures
        final(interner).wf(),
        old(interner)@.is_prefix_of(final(interner)@),
        final(interner)@.len() <= old(interner)@.len() + 1,
        stripped_value(tok.name_in(old(interner)@), tok.value_in(old(interner)@)) is Some <==> r is Some,
        r matches Some(t) ==> t.valid_in(final(interner)@) && t.name_in(final(interner)@) == tok.name_in(
            old(interner)@,
        ) && t.value_in(final(interner)@) == stripped_value(
            tok.name_in(old(interner)@),
            tok.value_in(old(interner)@),
        )->0 && t.span == tok.span,
{
    proof {
        lemma_prefix_refl(interner@);
    }
    let name = tok.name_string(interner);
    let val = tok.value_string(interner);
    let v = val.as_str();
    let n = v.as_bytes().len();
    let nm = name.as_str();
    proof {
        assert(v.spec_bytes() == bytes_of(v@));
    }
    let (a, b) = if str_eq(nm, "lfsym") {
        if n >= 1 && v.is_char_boundary(n - 1) {
            (0, n - 1)
        } else {
            return None;
        }
    } else if str_eq(nm, "nonterm") || str_eq(nm, "term") {
        if n >= 2 && v.is_char_boundary(1) && v.is_char_boundary(n - 1) {
            (1, n - 1)
        } else {
            return None;
        }
    } else if str_eq(nm, "unpacked_sym") {
        if n >= 2 && v.is_char_boundary(2) {
            (2, n)
        } else {
            return None;
        }
    } else {
        return Some(tok);
    };
    proof {
        vstd::utf8::encode_utf8_valid_utf8(v@);
        vstd::utf8::is_char_boundary_start_end_of_seq(v.spec_bytes());
    }
    let sub = substr(v, a, b);
    let ghost s0 = interner@;
    let t = tok.mapval(interner, sub);
    proof {
        assert(tok.name.0 < s0.len());
        assert(s0.is_prefix_of(interner@));
    }
    Some(t)
}

/// The tokens with their brackets taken off; `None` where a slice of some
/// token would not fall on character boundaries.
fn strip_tokens(interner: &mut Interner, toks: &[Token]) -> (r: Option<Vec<Token>>)
    requires
        old(interner).wf(),
        old(interner)@.len() + toks@.len() <= u32::MAX,
        all_valid_in(toks@, old(interner)@),
    ensures
        final(interner).wf(),
        old(interner)@.is_prefix_of(final(interner)@),
        strip_ok(tok_views(toks@, old(interner)@)) <==> r is Some,
        r matches Some(out) ==> all_valid_in(out@, final(interner)@) && tok_views(out@, final(interner)@)
            == stripped(tok_views(toks@, old(interner)@)),
{
    let ghost s0 = interner@;
    let ghost tv = tok_views(toks@, s0);
    proof {
        lemma_prefix_refl(s0);
    }
    let mut out: Vec<Token> = Vec::new();
    let mut i: usize = 0;
    while i < toks.len()
        invariant
            interner.wf(),
            s0 == old(interner)@,
            s0.is_prefix_of(interner@),
            interner@.len() <= s0.len() + i,
            s0.len() + toks@.len() <= u32::MAX,
            all_valid_in(toks@, s0),
            tv == tok_views(toks@, s0),
            i <= toks@.len(),
            out@.len() == i,
            all_valid_in(out@, interner@),
            forall|k: int| 0 <= k < i ==> (#[trigger] stripped_value(tv[k].0, tv[k].1)) is Some,
            forall|k: int| 0 <= k < i ==> #[trigger] tok_views(out@, interner@)[k] == stripped(tv)[k],
        decreases toks@.len() - i,
    {
        let ghost s1 = interner@;
        let tok = toks[i];
        proof {
            assert(toks@[i as int].valid_in(s0));
            assert(tok.name_in(s1) == tok.name_in(s0));
            assert(tok.value_in(s1) == tok.value_in(s0));
        }
        match strip_token(interner, tok) {
            None => {
                proof {
                    lemma_prefix_trans(s0, s1, interner@);
                    assert(stripped_value(tv[i as int].0, tv[i as int].1) is None);
                }
                return None;
            },
            Some(t) => {
                let ghost ob = out@;
                out.push(t);
                proof {
                    lemma_prefix_trans(s0, s1, interner@);
                    lemma_views_grow(ob, s1, interner@);
                    assert(out@ == ob.push(t));
                    assert forall|k: int| 0 <= k < i + 1 implies #[trigger] tok_views(out@, interner@)[k]
                        == stripped(tv)[k] by {
                        if k < i {
                            assert(tok_views(out@, interner@)[k] == tok_views(ob, interner@)[k]);
                            assert(tok_views(ob, interner@)[k] == tok_views(ob, s1)[k]);
                        }
                    }
                    assert forall|k: int| 0 <= k < out@.len() implies #[trigger] out@[k].valid_in(interner@) by {
                        if k < i {
                            assert(out@[k] == ob[k]);
                        }
                    }
                }
            },
        }
        i += 1;
    }
    proof {
        assert(tok_views(out@, interner@) =~= stripped(tv));
    }
    Some(out)
}

/// The grammar that the tokens `toks` write (layout dropped, brackets still
/// on), checked: `None` where a token's brackets cannot be taken off, where
/// the tokens do not parse, where a right-hand symbol is empty, or where the
/// grammar fails its self-check.
pub fn gen_bnf_from_tokens(interner: &mut Interner, toks: &[Token]) -> (r: Option<BNF>)
    requires
        old(interner).wf(),
        old(interner)@.len() + toks@.len() <= u32::MAX,
        all_valid_in(toks@, old(interner)@),
    ensures
        final(interner).wf(),
        old(interner)@.is_prefix_of(final(interner)@),
        match grammar_of_tokens(tok_views(toks@, old(interner)@)) {
            None => r is None,
            Some(ds) => r matches Some(b) && b@ == ds,
        },
{
    let ghost tv = tok_views(toks@, interner@);
    let stripped_toks = match strip_tokens(interner, toks) {
        Some(t) => t,
        None => {
            return None;
        },
    };
    let bnf = match parse(interner, stripped_toks.as_slice()) {
        Some(b) => b,
        None => {
            return None;
        },
    };
    if find_empty_rhsym(&bnf) {
        return None;
    }
    proof {
        if check_from(bnf@, 0) is Stuck {
            lemma_check_from_stuck(bnf@, 0);
        }
    }
    match bnf.self_validate() {
        Ok(()) => Some(bnf),
        Err(_) => None,
    }
}

/// The pattern of the `k`-th rule of a grammar's text.
pub open spec fn grammar_pattern(k: int) -> Seq<char> {
    if k == 0 {
        "^([[:alpha:]_][[:alnum:]_]*:)"@
    } else if k == 1 {
        "^(\\.\\.[[:alpha:]_][[:alnum:]_]*)"@
    } else if k == 2 {
        "^(\\[[[:alpha:]_][[:alnum:]_]*\\])"@
    } else if k == 3 {
        "^(<[[:alpha:]_][[:alnum:]_]*>)"@
    } else if k == 4 {
        "^((\\+|\\?|\\*))"@
    } else if k == 5 {
        "^(\\|)"@
    } else if k == 6 {
        "^(#.*)"@
    } else if k == 7 {
        "^([[:blank:]]+)"@
    } else if k == 8 {
        "^(\\n\\r?)"@
    } else if k == 9 {
        "^(\\()"@
    } else {
        "^(\\))"@
    }
}

/// The token name of the `k`-th rule of a grammar's text.
pub open spec fn grammar_name(k: int) -> Seq<char> {
    if k == 0 {
        "lfsym"@
    } else if k == 1 {
        "unpacked_sym"@
    } else if k == 2 {
        "nonterm"@
    } else if k == 3 {
        "term"@
    } else if k == 4 {
        "occ"@
    } else if k == 5 {
        "delim"@
    } else if k == 6 {
        "sharp_line_comment"@
    } else if k == 7 {
        "sp"@
    } else if k == 8 {
        "newline"@
    } else if k == 9 {
        "lparen"@
    } else {
        "rparen"@
    }
}

/// The number of rules of a grammar's text.
pub open spec fn grammar_rules() -> int {
    11
}

/// The `i`-th rule of a grammar's text: its pattern and its token name.
fn grammar_rule(i: usize) -> (r: (&'static str, &'static str))
    requires
        i < 11,
    ensures
        r.0@ == grammar_pattern(i as int),
        r.1@ == grammar_name(i as int),
{
    if i == 0 {
        ("^([[:alpha:]_][[:alnum:]_]*:)", "lfsym")
    } else if i == 1 {
        ("^(\\.\\.[[:alpha:]_][[:alnum:]_]*)", "unpacked_sym")
    } else if i == 2 {
        ("^(\\[[[:alpha:]_][[:alnum:]_]*\\])", "nonterm")
    } else if i == 3 {
        ("^(<[[:alpha:]_][[:alnum:]_]*>)", "term")
    } else if i == 4 {
        ("^((\\+|\\?|\\*))", "occ")
    } else if i == 5 {
        ("^(\\|)", "delim")
    } else if i == 6 {
        ("^(#.*)", "sharp_line_comment")
    } else if i == 7 {
        ("^([[:blank:]]+)", "sp")
    } else if i == 8 {
        ("^(\\n\\r?)", "newline")
    } else if i == 9 {
        ("^(\\()", "lparen")
    } else {
        ("^(\\))", "rparen")
    }
}

/// `ms` are the matchers of a grammar's text, their names held in `strs`.
pub open spec fn grammar_ms(ms: Seq<StdMatcher>, strs: Seq<Seq<char>>) -> bool {
    &&& ms.len() == grammar_rules()
    &&& forall|k: int|
        0 <= k < ms.len() ==> {
            &&& (#[trigger] ms[k]) is Pattern
            &&& ms[k]->Pattern_0.pattern() == grammar_pattern(k)
            &&& ms[k]->Pattern_0.name().0 < strs.len()
            &&& strs[ms[k]->Pattern_0.name().0 as int] == grammar_name(k)
        }
}

/// What the `k`-th rule of a grammar's text gives on `source` at `from`.
pub open spec fn grammar_fetch(k: int, source: Seq<char>, from: usize) -> Option<Result<TokTriple, TokenizeErrorReason>> {
    let slen = bytes_of(source).len();
    if slen >= usize::MAX || from > usize::MAX - slen - 1 {
        Some(Err(TokenizeErrorReason::UnrecognizedToken))
    } else {
        match regex_captures(grammar_pattern(k), source, 1) {
            Some(Some((n, g))) => match g {
                None => Some(Err(TokenizeErrorReason::UnrecognizedToken)),
                Some(v) => Some(Ok((grammar_name(k), v, Span { from, end: (from + n) as usize }))),
            },
            _ => None,
        }
    }
}

/// What the first of the rules `i..` of a grammar's text that applies gives.
pub open spec fn grammar_first(rest: Seq<char>, from: usize, i: int) -> Option<Result<TokTriple, TokenizeErrorReason>>
    decreases grammar_rules() - i,
{
    if i < 0 || i >= grammar_rules() {
        None
    } else {
        match grammar_fetch(i, rest, from) {
            None => grammar_first(rest, from, i + 1),
            Some(x) => Some(x),
        }
    }
}

/// Tokenizing a grammar's text from byte offset `pos` on: `tokenize_from`
/// with the rules of a grammar's text.
pub open spec fn grammar_tokens_from(src: Seq<char>, pos: int, acc: Seq<TokTriple>) -> Result<
    Seq<TokTriple>,
    (TokenizeErrorReason, int),
>
    decreases bytes_of(src).len() - pos,
{
    let blen = bytes_of(src).len() as int;
    if pos < 0 || pos >= blen {
        Ok(acc)
    } else {
        match grammar_first(chars_between(src, pos, blen), pos as usize, 0) {
            None => Err((TokenizeErrorReason::UnrecognizedToken, pos)),
            Some(Err(e)) => Err((e, pos)),
            Some(Ok((n, v, sp))) => if sp.from != pos || sp.end < pos || sp.end > blen || !is_boundary(
                src,
                sp.end as int,
            ) {
                Err((TokenizeErrorReason::UnrecognizedToken, pos))
            } else if sp.end == sp.from {
                Err((TokenizeErrorReason::ZeroLenToken, pos))
            } else {
                grammar_tokens_from(src, sp.end as int, acc.push((n, v, sp)))
            },
        }
    }
}

/// The grammar written in the text `src`: its tokens, layout dropped, as
/// `grammar_of_tokens` reads them; `None` where the text does not tokenize.
pub open spec fn grammar_of_text(src: Seq<char>) -> Option<Seq<DerivView>> {
    match grammar_tokens_from(src, 0, Seq::empty()) {
        Err(_) => None,
        Ok(ts) => grammar_of_tokens(
            ts.filter(|t: TokTriple| !is_layout(t.0)).map_values(|t: TokTriple| (t.0, t.1)),
        ),
    }
}

/// The matchers of a grammar's text give what its rules give.
proof fn lemma_grammar_first(ms: Seq<StdMatcher>, strs: Seq<Seq<char>>, rest: Seq<char>, from: usize, i: int)
    requires
        grammar_ms(ms, strs),
        0 <= i <= grammar_rules(),
    ensures
        first_fetch(ms, strs, rest, from, i) == grammar_first(rest, from, i),
    decreases grammar_rules() - i,
{
    if i < grammar_rules() {
        assert(ms[i].spec_fetch(strs, rest, from) == grammar_fetch(i, rest, from));
        lemma_grammar_first(ms, strs, rest, from, i + 1);
    }
}

/// Tokenizing with the matchers of a grammar's text is tokenizing by its
/// rules: both succeed together, with the same tokens.
proof fn lemma_grammar_tokens(
    ms: Seq<StdMatcher>,
    strs: Seq<Seq<char>>,
    src: Seq<char>,
    pos: int,
    cpos: int,
    acc: Seq<TokTriple>,
)
    requires
        grammar_ms(ms, strs),
        bytes_of(src).len() <= usize::MAX,
        0 <= pos <= bytes_of(src).len(),
        is_boundary(src, pos),
        cpos == chars_between(src, 0, pos).len(),
    ensures
        match grammar_tokens_from(src, pos, acc) {
            Ok(ts) => tokenize_from(ms, strs, src, pos, cpos, acc) == Ok::<
                Seq<TokTriple>,
                (TokenizeErrorReason, int),
            >(ts),
            Err(_) => tokenize_from(ms, strs, src, pos, cpos, acc) is Err,
        },
    decreases bytes_of(src).len() - pos,
{
    let blen = bytes_of(src).len() as int;
    if 0 <= pos < blen {
        lemma_grammar_first(ms, strs, chars_between(src, pos, blen), pos as usize, 0);
        lemma_grammar_first_from(chars_between(src, pos, blen), pos as usize, 0);
        match grammar_first(chars_between(src, pos, blen), pos as usize, 0) {
            Some(Ok((n, v, sp))) => {
                if sp.from == pos && sp.end >= pos && sp.end <= blen && sp.end != sp.from && is_boundary(src, sp.end as int) {
                    crate::lexer::tokenize::lemma_chars_split(src, pos, sp.end as int);
                    lemma_grammar_tokens(ms, strs, src, sp.end as int, chars_between(src, 0, sp.end as int).len() as int, acc.push((n, v, sp)));
                }
            },
            _ => {},
        }
    }
}

/// A token that a rule of a grammar's text gives starts where it was asked for.
proof fn lemma_grammar_first_from(rest: Seq<char>, from: usize, i: int)
    requires
        0 <= i <= grammar_rules(),
    ensures
        grammar_first(rest, from, i) matches Some(Ok((n, v, sp))) ==> sp.from == from,
    decreases grammar_rules() - i,
{
    if i < grammar_rules() {
        lemma_grammar_first_from(rest, from, i + 1);
    }
}

/// The layout-free views of tokens are those of their triples.
proof fn lemma_trimmed_views(toks: Seq<Token>, strs: Seq<Seq<char>>)
    ensures
        tok_views(trimmed(toks, strs), strs) == triples_of(toks, strs).filter(|t: TokTriple| !is_layout(t.0)).map_values(
            |t: TokTriple| (t.0, t.1),
        ),
        trimmed(toks, strs).len() <= toks.len(),
    decreases toks.len(),
{
    reveal_with_fuel(Seq::<_>::filter, 1);
    let p1 = |t: Token| !is_layout(t.name_in(strs));
    let p2 = |t: TokTriple| !is_layout(t.0);
    let f = |t: TokTriple| (t.0, t.1);
    if toks.len() > 0 {
        let d = toks.drop_last();
        lemma_trimmed_views(d, strs);
        assert(triples_of(toks, strs).drop_last() =~= triples_of(d, strs));
        assert(trimmed(toks, strs) == if p1(toks.last()) {
            trimmed(d, strs).push(toks.last())
        } else {
            trimmed(d, strs)
        });
        assert(triples_of(toks, strs).filter(p2) == if p2(triples_of(toks, strs).last()) {
            triples_of(d, strs).filter(p2).push(triples_of(toks, strs).last())
        } else {
            triples_of(d, strs).filter(p2)
        });
        if p1(toks.last()) {
            assert(tok_views(trimmed(toks, strs), strs) =~= tok_views(trimmed(d, strs), strs).push(
                (toks.last().name_in(strs), toks.last().value_in(strs)),
            ));
            assert(triples_of(d, strs).filter(p2).push(triples_of(toks, strs).last()).map_values(f)
                =~= triples_of(d, strs).filter(p2).map_values(f).push(f(triples_of(toks, strs).last())));
        }
    } else {
        assert(tok_views(trimmed(toks, strs), strs) =~= Seq::<TokView>::empty());
        assert(triples_of(toks, strs).filter(p2).map_values(f) =~= Seq::<TokView>::empty());
    }
}

/// The matchers of a grammar's text; `None` when a pattern does not compile
/// or the interner has no room for the token names.
fn grammar_matchers(interner: &mut Interner) -> (r: Option<Vec<StdMatcher>>)
    requires
        old(interner).wf(),
    ensures
        final(interner).wf(),
        old(interner)@.is_prefix_of(final(interner)@),
        r matches Some(ms) ==> grammar_ms(ms@, final(interner)@),
        r is Some ==> forall|k: int| 0 <= k < grammar_rules() ==> regex_valid(#[trigger] grammar_pattern(k)),
        r is None ==> (exists|k: int| 0 <= k < grammar_rules() && !regex_valid(#[trigger] grammar_pattern(k)))
            || final(interner)@.len() >= u32::MAX,
{
    proof {
        lemma_prefix_refl(interner@);
    }
    let ghost s0 = interner@;
    let mut ms: Vec<StdMatcher> = Vec::new();
    let mut i: usize = 0;
    while i < 11
        invariant
            interner.wf(),
            s0 == old(interner)@,
            s0.is_prefix_of(interner@),
            i <= 11,
            ms@.len() == i,
            forall|k: int| 0 <= k < i ==> regex_valid(#[trigger] grammar_pattern(k)),
            forall|k: int|
                0 <= k < i ==> {
                    &&& (#[trigger] ms@[k]) is Pattern
                    &&& ms@[k]->Pattern_0.pattern() == grammar_pattern(k)
                    &&& ms@[k]->Pattern_0.name().0 < interner@.len()
                    &&& interner@[ms@[k]->Pattern_0.name().0 as int] == grammar_name(k)
                },
        decreases 11 - i,
    {
        if interner.len() >= u32::MAX as usize {
            return None;
        }
        let (pat, name) = grammar_rule(i);
        let ghost s1 = interner@;
        match TokenMatcher::try_new(interner, pat, name) {
            Some(m) => {
                let ghost mb = ms@;
                ms.push(StdMatcher::Pattern(m));
                proof {
                    assert forall|k: int| 0 <= k < i + 1 implies {
                        &&& (#[trigger] ms@[k]) is Pattern
                        &&& ms@[k]->Pattern_0.pattern() == grammar_pattern(k)
                        &&& ms@[k]->Pattern_0.name().0 < interner@.len()
                        &&& interner@[ms@[k]->Pattern_0.name().0 as int] == grammar_name(k)
                    } by {
                        if k < i {
                            assert(ms@[k] == mb[k]);
                            assert(s1[mb[k]->Pattern_0.name().0 as int] == interner@[mb[k]->Pattern_0.name().0 as int]);
                        }
                    }
                }
            },
            None => {
                proof {
                    lemma_prefix_trans(s0, s1, interner@);
                    assert(!regex_valid(grammar_pattern(i as int)));
                }
                return None;
            },
        }
        proof {
            lemma_prefix_trans(s0, s1, interner@);
        }
        i += 1;
    }
    Some(ms)
}

/// Splits the text of a grammar into its tokens, layout dropped; `None` when
/// the matchers cannot be made. When the patterns compile and the interner
/// had room to the end, the tokens are those of `grammar_tokens_from`.
fn tokenize(interner: &mut Interner, src: &str) -> (r: Option<TokenizeResult>)
    requires
        old(interner).wf(),
    ensures
        final(interner).wf(),
        old(interner)@.is_prefix_of(final(interner)@),
        r matches Some(Ok(toks)) ==> all_valid_in(toks@, final(interner)@),
        r is Some ==> forall|k: int| 0 <= k < grammar_rules() ==> regex_valid(#[trigger] grammar_pattern(k)),
        (forall|k: int| 0 <= k < grammar_rules() ==> regex_valid(#[trigger] grammar_pattern(k)))
            && !full(final(interner)@) ==> match grammar_tokens_from(src@, 0, Seq::empty()) {
            Ok(ts) => r matches Some(Ok(toks)) && tok_views(toks@, final(interner)@) == ts.filter(
                |t: TokTriple| !is_layout(t.0),
            ).map_values(|t: TokTriple| (t.0, t.1)) && toks@.len() <= bytes_of(src@).len(),
            Err(_) => r matches Some(Err(_)),
        },
{
    let ghost s0 = interner@;
    let ms = match grammar_matchers(interner) {
        Some(m) => m,
        None => {
            return None;
        },
    };
    let ghost s1 = interner@;
    let source = SrcFileInfo::from_str(src.to_owned());
    let src_len = src.as_bytes().len();
    let res = tokenize_source(&source, interner, ms.as_slice());
    let ghost s2 = interner@;
    proof {
        lemma_prefix_trans(s0, s1, interner@);
        assert forall|k: int| 0 <= k < ms@.len() implies #[trigger] ms@[k].spec_ready(s1) by {
            assert(ms@[k] is Pattern);
        }
        assert(src.spec_bytes() == bytes_of(src@));
        assert(src.spec_bytes().len() == src_len);
        vstd::utf8::encode_utf8_valid_utf8(src@);
        vstd::utf8::is_char_boundary_start_end_of_seq(bytes_of(src@));
        assert(bytes_of(src@).subrange(0, 0) =~= Seq::<u8>::empty());
        assert(chars_between(src@, 0, 0).len() == 0);
        lemma_grammar_tokens(ms@, s1, src@, 0, 0, Seq::empty());
        if res is Ok {
            lemma_trimmed_views(res->Ok_0@, s2);
        }
    }
    Some(trim(interner, res))
}

/// The grammar written in `src`: tokenized, parsed and checked. `None` where
/// the text does not tokenize or parse, where a right-hand symbol is empty,
/// where the grammar fails its self-check, or when the interner has no room.
/// When the patterns compile and the interner had room to the end, the
/// result is `grammar_of_text` exactly.
fn build_bnf(interner: &mut Interner, src: &str) -> (r: Option<BNF>)
    requires
        old(interner).wf(),
    ensures
        final(interner).wf(),
        old(interner)@.is_prefix_of(final(interner)@),
        r matches Some(b) ==> check_from(b@, 0) is Valid && !has_empty_rhsym(b@),
        r is Some ==> forall|k: int| 0 <= k < grammar_rules() ==> regex_valid(#[trigger] grammar_pattern(k)),
        (forall|k: int| 0 <= k < grammar_rules() ==> regex_valid(#[trigger] grammar_pattern(k)))
            && final(interner)@.len() + bytes_of(src@).len() < u32::MAX ==> match grammar_of_text(
            src@,
        ) {
            None => r is None,
            Some(ds) => r matches Some(b) && b@ == ds,
        },
{
    let ghost s0 = interner@;
    let res = tokenize(interner, src);
    let ghost s1 = interner@;
    let toks = match res {
        Some(Ok(t)) => t,
        _ => {
            return None;
        },
    };
    if toks.len() > u32::MAX as usize || interner.len() > u32::MAX as usize - toks.len() {
        return None;
    }
    let r = gen_bnf_from_tokens(interner, toks.as_slice());
    proof {
        lemma_prefix_trans(s0, s1, interner@);
    }
    r
}

/// The grammar written in `src`, which must hold a grammar that tokenizes,
/// parses and passes its self-check. The result is `grammar_of_text(src)`;
/// `None` only where one of the lexer's own patterns does not compile or the
/// interner runs out of room.
pub fn gen_bnf(interner: &mut Interner, src: &str) -> (r: Option<BNF>)
    requires
        old(interner).wf(),
        grammar_of_text(src@) is Some,
    ensures
        final(interner).wf(),
        old(interner)@.is_prefix_of(final(interner)@),
        r matches Some(b) ==> check_from(b@, 0) is Valid && !has_empty_rhsym(b@),
        (forall|k: int| 0 <= k < grammar_rules() ==> regex_valid(#[trigger] grammar_pattern(k)))
            && final(interner)@.len() + bytes_of(src@).len() < u32::MAX ==> (r matches Some(b)
            && b@ == grammar_of_text(src@)->0),
{
    build_bnf(interner, src)
}

/// `gen_bnf` on any text: the text is built and checked first, and
/// `gen_bnf` runs on it only where that succeeded with room to spare. `None`
/// where the text holds no valid grammar, where a pattern does not compile or
/// the interner has no room.
pub fn try_gen_bnf(interner: &mut Interner, src: &str) -> (r: Option<BNF>)
    requires
        old(interner).wf(),
    ensures
        final(interner).wf(),
        old(interner)@.is_prefix_of(final(interner)@),
        r matches Some(b) ==> check_from(b@, 0) is Valid && !has_empty_rhsym(b@),
        (forall|k: int| 0 <= k < grammar_rules() ==> regex_valid(#[trigger] grammar_pattern(k)))
            && final(interner)@.len() + bytes_of(src@).len() < u32::MAX ==> match grammar_of_text(
            src@,
        ) {
            None => r is None,
            Some(ds) => r matches Some(b) && b@ == ds,
        },
{
    let ghost s0 = interner@;
    let probe = build_bnf(interner, src);
    let ghost s1 = interner@;
    match probe {
        None => None,
        Some(b) => {
            let n = src.as_bytes().len();
            proof {
                assert(src.spec_bytes() == bytes_of(src@));
            }
            if n < u32::MAX as usize && interner.len() < u32::MAX as usize - n {
                let r = gen_bnf(interner, src);
                proof {
                    lemma_prefix_trans(s0, s1, interner@);
                }
                r
            } else {
                Some(b)
            }
        },
    }
}

} // verus!
