//! Ready-made matchers: quoted strings, regex literals, heredocs, and the
//! filter that drops layout tokens.
use super::interner::{full, lemma_prefix_refl, lemma_prefix_trans, str2sym, try_str2sym, Interner};
use super::srcfile::Span;
use super::text::{bytes_of, lemma_bytes_len_ge, starts_with, str_starts_with, string_pop, string_push, substr_from};
use super::token::Token;
use super::tokenize::{TokTriple, TokenMatchResult, TokenizeErrorReason, TokenizeResult};
use super::pattern::{anchored, regex_valid, TokenMatcher};
use vstd::prelude::*;
use vstd::string::StrSliceExecFns;
use vstd::string::StringSliceAdditionalSpecFns;
use vstd::utf8::*;

verus! {

broadcast use vstd::utf8::encode_utf8_valid_utf8, vstd::utf8::encode_utf8_decode_utf8;

/// The character at `i` of `body` is escaped: the character before it is an
/// escape character that is not itself escaped.
pub open spec fn escaped(body: Seq<char>, esc: char, i: int) -> bool
    decreases i,
{
    if i <= 0 {
        false
    } else {
        !escaped(body, esc, i - 1) && body[i - 1] == esc
    }
}

/// The character at `i` of `body` closes the string: an unescaped delimiter
/// that is no escape character.
pub open spec fn closes_at(body: Seq<char>, delim: char, esc: char, i: int) -> bool {
    &&& !escaped(body, esc, i)
    &&& body[i] != esc
    &&& body[i] == delim
}

/// The first position at which `body` closes, if any.
pub open spec fn close_index(body: Seq<char>, delim: char, esc: char) -> Option<int> {
    if exists|k: int|
        0 <= k < body.len() && closes_at(body, delim, esc, k) && forall|q: int|
            0 <= q < k ==> !closes_at(body, delim, esc, q) {
        Some(
            choose|k: int|
                0 <= k < body.len() && closes_at(body, delim, esc, k) && forall|q: int|
                    0 <= q < k ==> !closes_at(body, delim, esc, q),
        )
    } else {
        None
    }
}

/// The first closing position is `k`.
proof fn lemma_close_index_some(body: Seq<char>, delim: char, esc: char, k: int)
    requires
        0 <= k < body.len(),
        closes_at(body, delim, esc, k),
        forall|q: int| 0 <= q < k ==> !closes_at(body, delim, esc, q),
    ensures
        close_index(body, delim, esc) == Some(k),
{
    let k2 = choose|k: int|
        0 <= k < body.len() && closes_at(body, delim, esc, k) && forall|q: int|
            0 <= q < k ==> !closes_at(body, delim, esc, q);
    assert(0 <= k2 < body.len() && closes_at(body, delim, esc, k2));
    if k2 < k {
        assert(!closes_at(body, delim, esc, k2));
    }
    if k < k2 {
        assert(!closes_at(body, delim, esc, k));
    }
}

/// The first closing position is `k`.
proof fn lemma_close_index_none(body: Seq<char>, delim: char, esc: char)
    requires
        forall|q: int| 0 <= q < body.len() ==> !closes_at(body, delim, esc, q),
    ensures
        close_index(body, delim, esc) is None,
{
}

/// Some character that follows the delimiter differs from the rest of the
/// postfix at the same place.
pub open spec fn postfix_mismatch(tail: Seq<char>, rest: Seq<char>) -> bool {
    exists|j: int| 0 <= j < tail.len() && j < rest.len() && tail[j] != rest[j]
}

/// What the string-like matcher finds at the start of `source`: `None` when
/// `source` does not start with `prefix`; the postfix error when the
/// characters after the closing delimiter differ from the rest of the postfix;
/// else the value (the characters up to the closing delimiter, or all but the
/// last one when the string is not closed) and the token's length in bytes
/// (prefix, value and postfix).
pub open spec fn strlike_scan(source: Seq<char>, prefix: Seq<char>, postfix: Seq<char>, esc: char) -> Option<
    Result<(Seq<char>, int), TokenizeErrorReason>,
> {
    if !starts_with(source, prefix) {
        None
    } else {
        let body = source.subrange(prefix.len() as int, source.len() as int);
        let len_of = |v: Seq<char>|
            (bytes_of(prefix).len() + bytes_of(v).len() + bytes_of(postfix).len()) as int;
        match close_index(body, postfix[0], esc) {
            Some(k) => {
                if postfix_mismatch(body.subrange(k + 1, body.len() as int), postfix.drop_first()) {
                    Some(Err(TokenizeErrorReason::UnexpectedPostfix))
                } else {
                    let v = body.subrange(0, k);
                    Some(Ok((v, len_of(v))))
                }
            },
            None => {
                let v = body.drop_last();
                Some(Ok((v, len_of(v))))
            },
        }
    }
}

proof fn lemma_escaped_shift(body: Seq<char>, esc: char, c: char, i: int)
    requires
        0 <= i <= body.len(),
    ensures
        escaped(seq![esc, c] + body, esc, i + 2) == escaped(body, esc, i),
    decreases i,
{
    let b2 = seq![esc, c] + body;
    if i > 0 {
        lemma_escaped_shift(body, esc, c, i - 1);
        assert(b2[i + 1] == body[i - 1]);
    } else {
        assert(b2[0] == esc);
        assert(!escaped(b2, esc, 0));
        assert(escaped(b2, esc, 1));
    }
}

/// An escape character and the character after it belong to a string-like
/// value whatever that character is: putting them in front of the body adds
/// them in front of the value and the token grows by their bytes.
pub proof fn lemma_escape_keeps_next(source: Seq<char>, prefix: Seq<char>, postfix: Seq<char>, esc: char, c: char)
    requires
        postfix.len() > 0,
        starts_with(source, prefix),
        source.len() > prefix.len(),
    ensures
        ({
            let body = source.subrange(prefix.len() as int, source.len() as int);
            let source2 = prefix + seq![esc, c] + body;
            match (strlike_scan(source, prefix, postfix, esc), strlike_scan(source2, prefix, postfix, esc)) {
                (Some(Ok((v, n))), Some(Ok((v2, n2)))) => v2 == seq![esc, c] + v && n2 == n + bytes_of(
                    seq![esc, c],
                ).len(),
                (Some(Err(e)), Some(Err(e2))) => e == e2,
                _ => false,
            }
        }),
{
    let body = source.subrange(prefix.len() as int, source.len() as int);
    let b2 = seq![esc, c] + body;
    let source2 = prefix + b2;
    assert(source2 =~= prefix + seq![esc, c] + body);
    assert(source2.subrange(0, prefix.len() as int) =~= prefix);
    assert(source.subrange(0, prefix.len() as int) =~= prefix);
    assert(source2.subrange(prefix.len() as int, source2.len() as int) =~= b2);
    let d = postfix[0];
    assert forall|i: int| 0 <= i < body.len() implies closes_at(b2, d, esc, i + 2) == closes_at(body, d, esc, i) by {
        lemma_escaped_shift(body, esc, c, i);
        assert(b2[i + 2] == body[i]);
    }
    assert(b2[0] == esc);
    assert(!escaped(b2, esc, 0));
    assert(!closes_at(b2, d, esc, 0));
    assert(escaped(b2, esc, 1));
    assert(!closes_at(b2, d, esc, 1));
    match close_index(body, d, esc) {
        Some(k) => {
            assert(0 <= k < body.len() && closes_at(body, d, esc, k) && forall|q: int|
                0 <= q < k ==> !closes_at(body, d, esc, q));
            assert forall|q: int| 0 <= q < k + 2 implies !closes_at(b2, d, esc, q) by {
                if q >= 2 {
                    assert(!closes_at(body, d, esc, q - 2));
                }
            }
            lemma_close_index_some(b2, d, esc, k + 2);
            assert(b2.subrange(k + 3, b2.len() as int) =~= body.subrange(k + 1, body.len() as int));
            assert(b2.subrange(0, k + 2) =~= seq![esc, c] + body.subrange(0, k));
            super::text::lemma_bytes_concat(seq![esc, c], body.subrange(0, k));
        },
        None => {
            assert forall|q: int| 0 <= q < b2.len() implies !closes_at(b2, d, esc, q) by {
                if q >= 2 {
                    if closes_at(body, d, esc, q - 2) {
                        let k0 = q - 2;
                        lemma_first_close(body, d, esc, k0);
                    }
                }
            }
            lemma_close_index_none(b2, d, esc);
            assert(b2.drop_last() =~= seq![esc, c] + body.drop_last());
            super::text::lemma_bytes_concat(seq![esc, c], body.drop_last());
        },
    }
}

/// Where some position closes, a first one does.
proof fn lemma_first_close(body: Seq<char>, d: char, esc: char, k: int)
    requires
        0 <= k < body.len(),
        closes_at(body, d, esc, k),
    ensures
        close_index(body, d, esc) is Some,
    decreases k,
{
    if exists|q: int| 0 <= q < k && closes_at(body, d, esc, q) {
        let q = choose|q: int| 0 <= q < k && closes_at(body, d, esc, q);
        lemma_first_close(body, d, esc, q);
    } else {
        lemma_close_index_some(body, d, esc, k);
    }
}

/// The name that string-like tokens carry before they are renamed.
pub open spec fn aux_name() -> Seq<char> {
    seq!['_', '_', 'a', 'u', 'x', '_', 't', 'm', 'p']
}

/// Matches a string-like token at the start of `source`: `prefix`, then any
/// characters up to the first unescaped first character of `postfix` (an
/// escape character escapes the character after it), then the rest of
/// `postfix`. The token is named `__aux_tmp` and its value is what lies
/// between prefix and postfix, escape characters included. Where the
/// interner is full and a string to intern is new to it, `UnrecognizedToken`.
pub fn aux_strlike_m(
    interner: &mut Interner,
    source: &str,
    from: usize,
    prefix: &str,
    postfix: &str,
    escape_char: char,
) -> (r: Option<Result<Token, TokenizeErrorReason>>)
    requires
        old(interner).wf(),
        prefix@.len() > 0,
        postfix@.len() > 0,
        source@ != prefix@,
        strlike_scan(source@, prefix@, postfix@, escape_char) matches Some(Ok((v, n))) ==> from + n
            <= usize::MAX,
    ensures
        final(interner).wf(),
        old(interner)@.is_prefix_of(final(interner)@),
        final(interner)@.len() <= old(interner)@.len() + 2,
        r is None <==> strlike_scan(source@, prefix@, postfix@, escape_char) is None,
        r is None ==> final(interner)@ == old(interner)@,
        r matches Some(Ok(t)) ==> t.valid_in(final(interner)@),
        r matches Some(Err(e)) ==> strlike_scan(source@, prefix@, postfix@, escape_char) == Some(
            Err::<(Seq<char>, int), TokenizeErrorReason>(e),
        ) || (e == TokenizeErrorReason::UnrecognizedToken && full(final(interner)@)),
        !full(final(interner)@) ==> (r matches Some(Err(e)) ==> strlike_scan(source@, prefix@, postfix@, escape_char)
            == Some(Err::<(Seq<char>, int), TokenizeErrorReason>(e))),
        !full(final(interner)@) ==> (r matches Some(Ok(t)) <==> strlike_scan(source@, prefix@, postfix@, escape_char) is Some
            && strlike_scan(source@, prefix@, postfix@, escape_char)->0 is Ok),
        r matches Some(Ok(t)) ==> strlike_scan(source@, prefix@, postfix@, escape_char) matches Some(
            Ok((v, n)),
        ) && t.value_in(final(interner)@) == v && t.name_in(final(interner)@) == aux_name() && t.span.from
            == from && t.span.end == from + n,
{
    let ghost spec_r = strlike_scan(source@, prefix@, postfix@, escape_char);
    if !str_starts_with(source, prefix) {
        proof {
            lemma_prefix_refl(interner@);
        }
        return None;
    }
    let ghost src = source@;
    let ghost body = src.subrange(prefix@.len() as int, src.len() as int);
    let pb = prefix.as_bytes();
    let _n = pb.len();
    proof {
        assert(pb@ == bytes_of(prefix@));
        assert(source.spec_bytes() == bytes_of(src));
    }
    let rest = substr_from(source, prefix.len());
    proof {
        assert(rest@ == body);
        assert(body.len() > 0) by {
            if body.len() == 0 {
                assert(src =~= prefix@);
            }
        }
    }
    let delimiter = postfix.get_char(0);
    let post_len = postfix.unicode_len();
    let mut j: usize = 1;
    let mut val = String::new();
    let mut st: u8 = 0;
    let ghost mut k: int = 0;
    let ghost pf = postfix@.drop_first();
    for c in it: rest.chars()
        invariant_except_break
            st == 2 ==> j == it.index() - k,
        invariant
            it.seq() == body,
            starts_with(source@, prefix@),
            body == source@.subrange(prefix@.len() as int, source@.len() as int),
            spec_r == strlike_scan(source@, prefix@, postfix@, escape_char),
            interner.wf(),
            interner@ == old(interner)@,
            post_len >= 1,
            body.len() > 0,
            delimiter == postfix@[0],
            post_len == postfix@.len(),
            pf == postfix@.drop_first(),
            st <= 2,
            st < 2 ==> j == 1 && val@ == body.subrange(0, it.index() as int) && escaped(
                body,
                escape_char,
                it.index() as int,
            ) == (st == 1) && forall|q: int|
                0 <= q < it.index() ==> !closes_at(body, delimiter, escape_char, q),
            st == 2 ==> 0 <= k < it.index() && closes_at(body, delimiter, escape_char, k) && (forall|
                q: int,
            | 0 <= q < k ==> !closes_at(body, delimiter, escape_char, q)) && val@ == body.subrange(
                0,
                k + 1,
            ) && j <= it.index() - k && j <= post_len && forall|q: int|
                0 <= q < j - 1 ==> body[k + 1 + q] == pf[q],
        ensures
            st < 2 ==> it.index() == body.len(),
            st == 2 ==> j == post_len || (it.index() == body.len() && j == it.index() - k),
    {
        let ghost i = it.index();
        if st == 0 {
            if c == escape_char {
                st = 1;
            } else if c == delimiter {
                st = 2;
                proof {
                    k = i;
                }
            }
            string_push(&mut val, c);
        } else if st == 1 {
            st = 0;
            string_push(&mut val, c);
        } else {
            if j < post_len {
                let mat = postfix.get_char(j);
                j += 1;
                if c != mat {
                    proof {
                        assert(body.subrange(k + 1, body.len() as int)[j - 2] != pf[j - 2]);
                        assert(postfix_mismatch(body.subrange(k + 1, body.len() as int), pf));
                        lemma_close_index_some(body, delimiter, escape_char, k);
                        lemma_prefix_refl(interner@);
                    }
                    return Some(Err(TokenizeErrorReason::UnexpectedPostfix));
                }
            } else {
                break;
            }
        }
        proof {
            if st < 2 {
                assert(val@ == body.subrange(0, i + 1));
            }
        }
    }
    proof {
        if st < 2 {
            lemma_close_index_none(body, delimiter, escape_char);
        } else {
            lemma_close_index_some(body, delimiter, escape_char, k);
            let tail = body.subrange(k + 1, body.len() as int);
            assert forall|q: int| 0 <= q < tail.len() && q < pf.len() implies tail[q] == pf[q] by {
                assert(tail[q] == body[k + 1 + q]);
            }
        }
    }
    let _ = string_pop(&mut val);
    let ghost v = val@;
    proof {
        if st < 2 {
            assert(body.subrange(0, body.len() as int) =~= body);
        } else {
            assert(v =~= body.subrange(0, k));
        }
        assert(spec_r == Some(Ok::<(Seq<char>, int), TokenizeErrorReason>((v, (bytes_of(prefix@).len() + bytes_of(v).len() + bytes_of(postfix@).len()) as int))));
    }
    let vb = val.as_str().as_bytes();
    let vlen = vb.len();
    let qb = postfix.as_bytes();
    let qlen = qb.len();
    proof {
        assert(vb@ == bytes_of(v));
        assert(qb@ == bytes_of(postfix@));
    }
    let span_len = prefix.len() + vlen + qlen;
    let span = Span { from, end: from + span_len };
    let ghost s0 = interner@;
    let value = match try_str2sym(interner, val.as_str()) {
        Some(x) => x,
        None => {
            return Some(Err(TokenizeErrorReason::UnrecognizedToken));
        },
    };
    let ghost s1 = interner@;
    let name = match try_str2sym(interner, "__aux_tmp") {
        Some(x) => x,
        None => {
            proof {
                lemma_prefix_trans(s0, s1, interner@);
            }
            return Some(Err(TokenizeErrorReason::UnrecognizedToken));
        },
    };
    proof {
        reveal_strlit("__aux_tmp");
        assert("__aux_tmp"@ == aux_name());
        lemma_prefix_trans(s0, s1, interner@);
        assert(value.0 < s1.len());
        assert(s1[value.0 as int] == interner@[value.0 as int]);
    }
    Some(Ok(Token { name, value, span }))
}


} // verus!

verus! {

/// What a quoted-string matcher finds: the string-like scan with the quote
/// `q` as prefix and postfix and `\` as escape character.
pub open spec fn quoted_scan(source: Seq<char>, q: char) -> Option<Result<(Seq<char>, int), TokenizeErrorReason>> {
    strlike_scan(source, seq![q], seq![q], '\\')
}

/// The quoted-string token that `aux_strlike_m` finds, renamed to `name`.
fn quoted_m(interner: &mut Interner, source: &str, from: usize, quote: &str, name: &str) -> (r: Option<TokenMatchResult>)
    requires
        old(interner).wf(),
        quote@.len() == 1,
        source@ != quote@,
        strlike_scan(source@, quote@, quote@, '\\') matches Some(Ok((v, n))) ==> from + n <= usize::MAX,
    ensures
        final(interner).wf(),
        old(interner)@.is_prefix_of(final(interner)@),
        final(interner)@.len() <= old(interner)@.len() + 3,
        r matches Some(Ok(t)) ==> t.valid_in(final(interner)@),
        !full(final(interner)@) ==> quoted_result(r, strlike_scan(source@, quote@, quote@, '\\'), final(interner)@, name@, from),
{
    let ghost s0 = interner@;
    match aux_strlike_m(interner, source, from, quote, quote, '\\') {
        None => None,
        Some(Err(e)) => Some(Err(e)),
        Some(Ok(tok)) => {
            let ghost s1 = interner@;
            match try_str2sym(interner, name) {
                None => {
                    proof {
                        lemma_prefix_trans(s0, s1, interner@);
                    }
                    Some(Err(TokenizeErrorReason::UnrecognizedToken))
                },
                Some(sym) => {
                    proof {
                        lemma_prefix_trans(s0, s1, interner@);
                        assert(s1[tok.value.0 as int] == interner@[tok.value.0 as int]);
                    }
                    Some(Ok(Token { name: sym, value: tok.value, span: tok.span }))
                },
            }
        },
    }
}

/// What a quoted-string matcher gives for the scan `scan`, its token named
/// `name` at `from` among the interned strings `strs`.
pub open spec fn quoted_result(
    r: Option<TokenMatchResult>,
    scan: Option<Result<(Seq<char>, int), TokenizeErrorReason>>,
    strs: Seq<Seq<char>>,
    name: Seq<char>,
    from: usize,
) -> bool {
    match scan {
        None => r is None,
        Some(Err(e)) => r == Some(Err::<Token, TokenizeErrorReason>(e)),
        Some(Ok((v, n))) => r matches Some(Ok(t)) && t.value_in(strs) == v && t.name_in(strs) == name
            && t.span.from == from && t.span.end == from + n,
    }
}

/// A double-quoted string, named `dqstr` (`UnrecognizedToken` where the
/// interner is full and a string is new to it).
pub fn dqstr_m(interner: &mut Interner, source: &str, from: usize) -> (r: Option<TokenMatchResult>)
    requires
        old(interner).wf(),
        source@ != seq!['"'],
        quoted_scan(source@, '"') matches Some(Ok((v, n))) ==> from + n <= usize::MAX,
    ensures
        final(interner).wf(),
        old(interner)@.is_prefix_of(final(interner)@),
        final(interner)@.len() <= old(interner)@.len() + 3,
        r matches Some(Ok(t)) ==> t.valid_in(final(interner)@),
        !full(final(interner)@) ==> quoted_result(r, quoted_scan(source@, '"'), final(interner)@, seq!['d', 'q', 's', 't', 'r'], from),
{
    proof {
        reveal_strlit("\"");
        reveal_strlit("dqstr");
        assert("\""@ =~= seq!['"']);
        assert("dqstr"@ =~= seq!['d', 'q', 's', 't', 'r']);
    }
    quoted_m(interner, source, from, "\"", "dqstr")
}

/// A double-quoted string, named `aqstr` (`UnrecognizedToken` where the
/// interner is full and a string is new to it).
pub fn aqstr_m(interner: &mut Interner, source: &str, from: usize) -> (r: Option<TokenMatchResult>)
    requires
        old(interner).wf(),
        source@ != seq!['"'],
        quoted_scan(source@, '"') matches Some(Ok((v, n))) ==> from + n <= usize::MAX,
    ensures
        final(interner).wf(),
        old(interner)@.is_prefix_of(final(interner)@),
        final(interner)@.len() <= old(interner)@.len() + 3,
        r matches Some(Ok(t)) ==> t.valid_in(final(interner)@),
        !full(final(interner)@) ==> quoted_result(r, quoted_scan(source@, '"'), final(interner)@, seq!['a', 'q', 's', 't', 'r'], from),
{
    proof {
        reveal_strlit("\"");
        reveal_strlit("aqstr");
        assert("\""@ =~= seq!['"']);
        assert("aqstr"@ =~= seq!['a', 'q', 's', 't', 'r']);
    }
    quoted_m(interner, source, from, "\"", "aqstr")
}

/// A single-quoted string, named `sqstr` (`UnrecognizedToken` where the
/// interner is full and a string is new to it).
pub fn sqstr_m(interner: &mut Interner, source: &str, from: usize) -> (r: Option<TokenMatchResult>)
    requires
        old(interner).wf(),
        source@ != seq!['\''],
        quoted_scan(source@, '\'') matches Some(Ok((v, n))) ==> from + n <= usize::MAX,
    ensures
        final(interner).wf(),
        old(interner)@.is_prefix_of(final(interner)@),
        final(interner)@.len() <= old(interner)@.len() + 3,
        r matches Some(Ok(t)) ==> t.valid_in(final(interner)@),
        !full(final(interner)@) ==> quoted_result(r, quoted_scan(source@, '\''), final(interner)@, seq!['s', 'q', 's', 't', 'r'], from),
{
    proof {
        reveal_strlit("'");
        reveal_strlit("sqstr");
        assert("'"@ =~= seq!['\'']);
        assert("sqstr"@ =~= seq!['s', 'q', 's', 't', 'r']);
    }
    quoted_m(interner, source, from, "'", "sqstr")
}

} // verus!

verus! {

/// An ASCII letter.
pub open spec fn is_ascii_alpha(c: char) -> bool {
    ('a' <= c <= 'z') || ('A' <= c <= 'Z')
}

/// What the regex-literal matcher finds: a `/`-delimited string-like token
/// with a non-empty body, its value re-wrapped in slashes, followed by one
/// ASCII letter (a flag) when one comes next; its value and length in bytes.
pub open spec fn lit_regex_scan(source: Seq<char>) -> Option<(Seq<char>, int)> {
    match strlike_scan(source, seq!['/'], seq!['/'], '\\') {
        Some(Ok((v, n))) => {
            if v.len() == 0 {
                None
            } else {
                let tokv = seq!['/'] + v + seq!['/'];
                let after = super::text::chars_between(source, n, bytes_of(source).len() as int);
                if after.len() > 0 && is_ascii_alpha(after[0]) {
                    Some((tokv.push(after[0]), n + 1))
                } else {
                    Some((tokv, n))
                }
            }
        },
        _ => None,
    }
}

/// The first character of `s`, if any.
fn first_char(s: &str) -> (r: Option<char>)
    ensures
        s@.len() == 0 ==> r is None,
        s@.len() > 0 ==> r == Some(s@[0]),
{
    broadcast use vstd::string::group_string_axioms;

    let mut it = s.chars();
    it.next()
}

/// A regex literal such as `/ab+c/i`, named `lit_regex` (`UnrecognizedToken`
/// where the interner is full and a string is new to it).
pub fn lit_regex_m(interner: &mut Interner, source: &str, from: usize) -> (r: Option<TokenMatchResult>)
    requires
        old(interner).wf(),
        source@ != seq!['/'],
        strlike_scan(source@, seq!['/'], seq!['/'], '\\') matches Some(Ok((v, n))) ==> from + n
            <= usize::MAX && (v.len() > 0 ==> super::text::is_boundary(source@, n)),
        lit_regex_scan(source@) matches Some((w, m)) ==> from + m <= usize::MAX,
    ensures
        final(interner).wf(),
        old(interner)@.is_prefix_of(final(interner)@),
        final(interner)@.len() <= old(interner)@.len() + 4,
        r is None ==> lit_regex_scan(source@) is None,
        !full(final(interner)@) ==> (r is None <==> lit_regex_scan(source@) is None),
        r matches Some(Err(e)) ==> e == TokenizeErrorReason::UnrecognizedToken && full(final(interner)@),
        r matches Some(Ok(t)) ==> lit_regex_scan(source@) matches Some((w, m)) && t.valid_in(
            final(interner)@,
        ) && t.value_in(final(interner)@) == w && t.name_in(final(interner)@) == seq![
            'l',
            'i',
            't',
            '_',
            'r',
            'e',
            'g',
            'e',
            'x',
        ] && t.span.from == from && t.span.end == from + m,
{
    proof {
        reveal_strlit("/");
        reveal_strlit("lit_regex");
        assert("/"@ =~= seq!['/']);
        assert("lit_regex"@ =~= seq!['l', 'i', 't', '_', 'r', 'e', 'g', 'e', 'x']);
    }
    let ghost s0 = interner@;
    match aux_strlike_m(interner, source, from, "/", "/", '\\') {
        None => None,
        Some(Err(e)) => Some(Err(e)),
        Some(Ok(tok)) => {
            let ghost s1 = interner@;
            let v = tok.value_string(interner);
            if v.as_str().is_empty() {
                return None;
            }
            let mut w = String::new();
            string_push(&mut w, '/');
            w.append(v.as_str());
            string_push(&mut w, '/');
            let n = tok.span.len();
            let after = substr_from(source, n);
            let nx = first_char(after);
            let mut t = tok;
            proof {
                assert(w@ =~= seq!['/'] + v@ + seq!['/']);
                assert(source.spec_bytes() == bytes_of(source@));
            }
            if let Some(c) = nx {
                if ('a' <= c && c <= 'z') || ('A' <= c && c <= 'Z') {
                    string_push(&mut w, c);
                    t.span = Span { from, end: from + n + 1 };
                }
            }
            t.value = match try_str2sym(interner, w.as_str()) {
                Some(x) => x,
                None => {
                    proof {
                        lemma_prefix_trans(s0, s1, interner@);
                    }
                    return Some(Err(TokenizeErrorReason::UnrecognizedToken));
                },
            };
            let ghost s2 = interner@;
            let name = match try_str2sym(interner, "lit_regex") {
                Some(x) => x,
                None => {
                    proof {
                        lemma_prefix_trans(s0, s1, s2);
                        lemma_prefix_trans(s0, s2, interner@);
                    }
                    return Some(Err(TokenizeErrorReason::UnrecognizedToken));
                },
            };
            proof {
                lemma_prefix_trans(s0, s1, s2);
                lemma_prefix_trans(s0, s2, interner@);
                assert(s2[t.value.0 as int] == interner@[t.value.0 as int]);
            }
            Some(Ok(Token { name, value: t.value, span: t.span }))
        },
    }
}

} // verus!

verus! {

/// The first match of the `fancy_regex` expression `pat` in `text`
/// (`fancy_regex::Regex::captures`): `None` when `pat` does not compile or the
/// matcher fails (its backtracking limit), `Some(None)` when nothing matches,
/// else the byte length of the whole match and the text of group `group`, if
/// it took part.
pub uninterp spec fn fancy_captures(pat: Seq<char>, text: Seq<char>, group: usize) -> Option<
    Option<(usize, Option<Seq<char>>)>,
>;

/// `fancy_regex::Regex::new(pat)` followed by `captures(text)`: the byte length
/// of the whole match (group 0, always present in a match) and group `group`.
/// The match is a part of `text`, so its length is at most that of `text`.
#[verifier::external_body]
fn fancy_group(pat: &str, text: &str, group: usize) -> (r: Option<Option<(usize, Option<String>)>>)
    ensures
        r.deep_view() == fancy_captures(pat@, text@, group),
        r matches Some(Some((n, g))) ==> n <= bytes_of(text@).len(),
{
    fancy_regex::Regex::new(pat).ok().and_then(|re| re.captures(text).ok()).map(
        |caps| caps.map(|cap| (cap.get(0).map_or(0, |m| m.as_str().len()), cap.get(group).map(|m| m.as_str().to_owned())))
    )
}

/// The heredoc pattern: an opening marker (`<<<`, `<<-`, `<<` or `<-`), a
/// delimiter word, the rest of the line, the body (group 4), and the delimiter
/// again at the start of a line.
pub const HEREDOC_PATTERN: &'static str = "^(<<<|<<-|<<|<-)[[:blank:]]*(.+)([[:blank:]]+.*\\n|\\n)([\\s|\\S]*?)\\n\\2";

/// The heredoc matcher can run on `source`: the pattern engine does not fail
/// on it, and a match has a body.
pub open spec fn heredoc_runs(source: Seq<char>) -> bool {
    match fancy_captures(HEREDOC_PATTERN@, source, 4) {
        None => false,
        Some(None) => true,
        Some(Some((n, g))) => g is Some,
    }
}

/// A heredoc: its value is the body between the opening line and the closing
/// delimiter; the token is named `__aux_tmp`. `None` when the text is no
/// heredoc; `UnrecognizedToken` where the interner is full and a string is
/// new to it. The pattern engine must run on the text.
pub fn heredoc_m(interner: &mut Interner, source: &str, from: usize) -> (r: Option<Result<Token, TokenizeErrorReason>>)
    requires
        old(interner).wf(),
        from + bytes_of(source@).len() <= usize::MAX,
        heredoc_runs(source@),
    ensures
        final(interner).wf(),
        old(interner)@.is_prefix_of(final(interner)@),
        final(interner)@.len() <= old(interner)@.len() + 2,
        r matches Some(Err(e)) ==> e == TokenizeErrorReason::UnrecognizedToken && full(final(interner)@),
        (r is Some) <==> (fancy_captures(HEREDOC_PATTERN@, source@, 4) is Some && fancy_captures(
            HEREDOC_PATTERN@,
            source@,
            4,
        )->0 is Some),
        r matches Some(Ok(t)) ==> fancy_captures(HEREDOC_PATTERN@, source@, 4) matches Some(Some((n, g)))
            && t.valid_in(final(interner)@) && t.value_in(final(interner)@) == g->0 && t.name_in(
            final(interner)@,
        ) == aux_name() && t.span.from == from && t.span.end == from + n,
{
    proof {
        lemma_prefix_refl(interner@);
    }
    match fancy_group(HEREDOC_PATTERN, source, 4) {
        Some(Some((n, Some(body)))) => {
            let span = Span { from, end: from + n };
            let ghost s0 = interner@;
            let value = match try_str2sym(interner, body.as_str()) {
                Some(x) => x,
                None => {
                    return Some(Err(TokenizeErrorReason::UnrecognizedToken));
                },
            };
            let ghost s1 = interner@;
            let name = match try_str2sym(interner, "__aux_tmp") {
                Some(x) => x,
                None => {
                    proof {
                        lemma_prefix_trans(s0, s1, interner@);
                    }
                    return Some(Err(TokenizeErrorReason::UnrecognizedToken));
                },
            };
            proof {
                reveal_strlit("__aux_tmp");
                assert("__aux_tmp"@ == aux_name());
                lemma_prefix_trans(s0, s1, interner@);
                assert(s1[value.0 as int] == interner@[value.0 as int]);
            }
            Some(Ok(Token { name, value, span }))
        },
        _ => None,
    }
}

/// `heredoc_m`, or `None` where the pattern engine fails on the text or a
/// match has no body.
pub fn try_heredoc_m(interner: &mut Interner, source: &str, from: usize) -> (r: Option<
    Option<Result<Token, TokenizeErrorReason>>,
>)
    requires
        old(interner).wf(),
        from + bytes_of(source@).len() <= usize::MAX,
    ensures
        final(interner).wf(),
        old(interner)@.is_prefix_of(final(interner)@),
        final(interner)@.len() <= old(interner)@.len() + 2,
        heredoc_runs(source@) <==> r is Some,
        r matches Some(Some(Err(e))) ==> e == TokenizeErrorReason::UnrecognizedToken && full(final(interner)@),
        r matches Some(x) ==> ((x is Some) <==> fancy_captures(HEREDOC_PATTERN@, source@, 4)->0 is Some),
        r matches Some(Some(Ok(t))) ==> fancy_captures(HEREDOC_PATTERN@, source@, 4) matches Some(Some((n, g)))
            && t.valid_in(final(interner)@) && t.value_in(final(interner)@) == g->0 && t.name_in(
            final(interner)@,
        ) == aux_name() && t.span.from == from && t.span.end == from + n,
{
    match fancy_group(HEREDOC_PATTERN, source, 4) {
        None => {
            proof {
                lemma_prefix_refl(interner@);
            }
            None
        },
        Some(Some((_, None))) => {
            proof {
                lemma_prefix_refl(interner@);
            }
            None
        },
        _ => Some(heredoc_m(interner, source, from)),
    }
}

/// The names of layout tokens: line breaks, blanks and line comments.
pub open spec fn is_layout(name: Seq<char>) -> bool {
    name == "newline"@ || name == "sp"@ || name == "sharp_line_comment"@ || name == "slash_line_comment"@
}

/// The tokens of `toks` that are not layout tokens, in order.
pub open spec fn trimmed(toks: Seq<Token>, strs: Seq<Seq<char>>) -> Seq<Token> {
    toks.filter(|t: Token| !is_layout(t.name_in(strs)))
}

/// The layout tokens that trimming drops are exactly those named `newline`,
/// `sp`, `sharp_line_comment` or `slash_line_comment`: what is left is the
/// input without them, in order, and none of them is left.
pub proof fn lemma_trim_drops_layout(toks: Seq<Token>, strs: Seq<Seq<char>>)
    ensures
        trimmed(toks, strs) == toks.filter(
            |t: Token|
                !seq!["newline"@, "sp"@, "sharp_line_comment"@, "slash_line_comment"@].contains(t.name_in(strs)),
        ),
        forall|k: int|
            0 <= k < trimmed(toks, strs).len() ==> {
                let n = (#[trigger] trimmed(toks, strs)[k]).name_in(strs);
                &&& n != "newline"@
                &&& n != "sp"@
                &&& n != "sharp_line_comment"@
                &&& n != "slash_line_comment"@
            },
{
    let names = seq!["newline"@, "sp"@, "sharp_line_comment"@, "slash_line_comment"@];
    let p1 = |t: Token| !is_layout(t.name_in(strs));
    let p2 = |t: Token| !names.contains(t.name_in(strs));
    assert forall|n: Seq<char>| names.contains(n) <==> is_layout(n) by {
        if is_layout(n) {
            if n == "newline"@ { assert(names[0] == n); }
            if n == "sp"@ { assert(names[1] == n); }
            if n == "sharp_line_comment"@ { assert(names[2] == n); }
            if n == "slash_line_comment"@ { assert(names[3] == n); }
        }
    }
    assert(p1 =~= p2);
    assert forall|k: int| 0 <= k < trimmed(toks, strs).len() implies !is_layout(
        (#[trigger] trimmed(toks, strs)[k]).name_in(strs),
    ) by {
        toks.lemma_filter_pred(p1, k);
    }
}

/// Trimming is idempotent: a trimmed token list holds no layout token, so
/// trimming it again changes nothing.
pub proof fn lemma_trim_idempotent(toks: Seq<Token>, strs: Seq<Seq<char>>)
    ensures
        trimmed(trimmed(toks, strs), strs) == trimmed(toks, strs),
    decreases toks.len(),
{
    reveal_with_fuel(Seq::<_>::filter, 1);
    let p = |t: Token| !is_layout(t.name_in(strs));
    if toks.len() == 0 {
        assert(trimmed(toks, strs) =~= Seq::<Token>::empty());
        assert(trimmed(Seq::<Token>::empty(), strs) =~= Seq::<Token>::empty());
    } else {
        let d = toks.drop_last();
        lemma_trim_idempotent(d, strs);
        let td = trimmed(d, strs);
        if p(toks.last()) {
            assert(trimmed(toks, strs) == td.push(toks.last()));
            assert(td.push(toks.last()).drop_last() =~= td);
            assert(trimmed(td.push(toks.last()), strs) == trimmed(td, strs).push(toks.last()));
        } else {
            assert(trimmed(toks, strs) == td);
        }
    }
}

/// Drops the layout tokens (`newline`, `sp`, `sharp_line_comment`,
/// `slash_line_comment`) from a successful tokenizing; an error passes through.
pub fn trim(interner: &Interner, res: TokenizeResult) -> (r: TokenizeResult)
    requires
        interner.wf(),
        res matches Ok(toks) ==> super::tokenize::all_valid_in(toks@, interner@),
    ensures
        res is Err ==> r == res,
        res matches Ok(toks) ==> (r matches Ok(out) && out@ == trimmed(toks@, interner@)
            && super::tokenize::all_valid_in(out@, interner@)),
{
    match res {
        Err(e) => Err(e),
        Ok(toks) => {
            let targets: [&str; 4] = ["newline", "sp", "sharp_line_comment", "slash_line_comment"];
            let ts = vstd::array::array_as_slice(&targets);
            let ghost pred = |t: Token| !is_layout(t.name_in(interner@));
            let mut out: Vec<Token> = Vec::new();
            let mut i: usize = 0;
            while i < toks.len()
                invariant
                    i <= toks@.len(),
                    interner.wf(),
                    super::tokenize::all_valid_in(toks@, interner@),
                    ts@ == seq!["newline", "sp", "sharp_line_comment", "slash_line_comment"],
                    pred == (|t: Token| !is_layout(t.name_in(interner@))),
                    out@ == toks@.take(i as int).filter(pred),
                    super::tokenize::all_valid_in(out@, interner@),
                decreases toks@.len() - i,
            {
                reveal_with_fuel(Seq::<_>::filter, 1);
                let t = toks[i];
                assert(toks@.take(i + 1).drop_last() =~= toks@.take(i as int));
                let layout = t.check_names_in(interner, ts);
                proof {
                    let n = t.name_in(interner@);
                    if is_layout(n) {
                        if n == "newline"@ { assert(ts@[0]@ == n); }
                        if n == "sp"@ { assert(ts@[1]@ == n); }
                        if n == "sharp_line_comment"@ { assert(ts@[2]@ == n); }
                        if n == "slash_line_comment"@ { assert(ts@[3]@ == n); }
                    }
                }
                if !layout {
                    out.push(t);
                }
                i += 1;
            }
            proof {
                assert(toks@.take(toks@.len() as int) =~= toks@);
            }
            Ok(out)
        },
    }
}

} // verus!

verus! {

/// A string-like token is no longer than the text plus its postfix.
proof fn lemma_strlike_len(source: Seq<char>, prefix: Seq<char>, postfix: Seq<char>, esc: char)
    requires
        source != prefix,
        strlike_scan(source, prefix, postfix, esc) is Some,
        strlike_scan(source, prefix, postfix, esc)->0 is Ok,
    ensures
        strlike_scan(source, prefix, postfix, esc) matches Some(Ok((v, n))) && n <= bytes_of(source).len()
            + bytes_of(postfix).len(),
        postfix.len() == 1 && (postfix[0] as u32) <= 0x7f ==> bytes_of(postfix).len() == 1,
{
    if postfix.len() == 1 && (postfix[0] as u32) <= 0x7f {
        assert(postfix.drop_first() =~= Seq::<char>::empty());
        assert(bytes_of(postfix.drop_first()) =~= Seq::<u8>::empty());
        assert(encode_scalar(postfix[0] as u32).len() == 1);
    }
    let body = source.subrange(prefix.len() as int, source.len() as int);
    assert(source =~= prefix + body);
    let (v, n) = strlike_scan(source, prefix, postfix, esc)->0->Ok_0;
    let w = body.subrange(v.len() as int, body.len() as int);
    match close_index(body, postfix[0], esc) {
        Some(k) => {
            assert(v =~= body.subrange(0, k));
        },
        None => {},
    }
    assert(body =~= v + w);
    super::text::lemma_bytes_concat(prefix, body);
    super::text::lemma_bytes_concat(v, w);
}

/// The ready-made matchers: a regular-expression rule, the quoted strings,
/// regex literals and heredocs.
pub enum StdMatcher {
    Pattern(super::pattern::TokenMatcher),
    DqStr,
    AqStr,
    SqStr,
    LitRegex,
    Heredoc,
}

/// What a quoted-string matcher gives for the quote `q`, the token named
/// `name`: the lone quote is refused.
pub open spec fn quoted_fetch(source: Seq<char>, q: char, name: Seq<char>, from: usize) -> Option<
    Result<TokTriple, TokenizeErrorReason>,
> {
    if source == seq![q] {
        Some(Err(TokenizeErrorReason::UnrecognizedToken))
    } else {
        match quoted_scan(source, q) {
            None => None,
            Some(Err(e)) => Some(Err(e)),
            Some(Ok((v, n))) => Some(Ok((name, v, Span { from, end: (from + n) as usize }))),
        }
    }
}

/// What the regex-literal matcher gives: the lone `/` is refused, and so is a
/// literal whose end does not fall on a character boundary.
pub open spec fn lit_fetch(source: Seq<char>, from: usize) -> Option<Result<TokTriple, TokenizeErrorReason>> {
    if source == seq!['/'] {
        Some(Err(TokenizeErrorReason::UnrecognizedToken))
    } else {
        match strlike_scan(source, seq!['/'], seq!['/'], '\\') {
            None => None,
            Some(Err(e)) => Some(Err(e)),
            Some(Ok((v, n))) => if v.len() == 0 {
                None
            } else if n > bytes_of(source).len() || !super::text::is_boundary(source, n) {
                Some(Err(TokenizeErrorReason::UnrecognizedToken))
            } else {
                match lit_regex_scan(source) {
                    Some((w, m)) => Some(
                        Ok((seq!['l', 'i', 't', '_', 'r', 'e', 'g', 'e', 'x'], w, Span { from, end: (from + m) as usize })),
                    ),
                    None => None,
                }
            },
        }
    }
}

impl super::tokenize::FnMatcher for StdMatcher {
    open spec fn spec_ready(&self, strs: Seq<Seq<char>>) -> bool {
        match self {
            StdMatcher::Pattern(m) => m.name().0 < strs.len(),
            _ => true,
        }
    }

    /// What each matcher gives. Where a matcher cannot run on the text it
    /// gives the error `UnrecognizedToken`: a text whose end, or a token's,
    /// would pass `usize::MAX`, a rule whose name the interner does not hold,
    /// a lone opening quote or slash, a regex literal that ends inside a
    /// character, a text on which the heredoc pattern engine fails.
    open spec fn spec_fetch(&self, strs: Seq<Seq<char>>, source: Seq<char>, from: usize) -> Option<
        Result<TokTriple, TokenizeErrorReason>,
    > {
        let slen = bytes_of(source).len();
        if slen >= usize::MAX || from > usize::MAX - slen - 1 {
            Some(Err(TokenizeErrorReason::UnrecognizedToken))
        } else {
            match self {
                StdMatcher::Pattern(m) => if m.name().0 >= strs.len() {
                    Some(Err(TokenizeErrorReason::UnrecognizedToken))
                } else {
                    match super::pattern::regex_captures(m.pattern(), source, 1) {
                        Some(Some((n, g))) => match g {
                            None => Some(Err(TokenizeErrorReason::UnrecognizedToken)),
                            Some(v) => Some(Ok((strs[m.name().0 as int], v, Span { from, end: (from + n) as usize }))),
                        },
                        _ => None,
                    }
                },
                StdMatcher::DqStr => quoted_fetch(source, '"', seq!['d', 'q', 's', 't', 'r'], from),
                StdMatcher::AqStr => quoted_fetch(source, '"', seq!['a', 'q', 's', 't', 'r'], from),
                StdMatcher::SqStr => quoted_fetch(source, '\'', seq!['s', 'q', 's', 't', 'r'], from),
                StdMatcher::LitRegex => lit_fetch(source, from),
                StdMatcher::Heredoc => match fancy_captures(HEREDOC_PATTERN@, source, 4) {
                    Some(None) => None,
                    Some(Some((n, Some(g)))) => Some(Ok((aux_name(), g, Span { from, end: (from + n) as usize }))),
                    _ => Some(Err(TokenizeErrorReason::UnrecognizedToken)),
                },
            }
        }
    }

    proof fn lemma_fetch_stable(&self, s0: Seq<Seq<char>>, s1: Seq<Seq<char>>, source: Seq<char>, from: usize) {
        match self {
            StdMatcher::Pattern(m) => {
                assert(s1[m.name().0 as int] == s0[m.name().0 as int]);
            },
            _ => {},
        }
    }

    fn fetch(&self, interner: &mut Interner, source: &str, from: usize) -> (r: Option<TokenMatchResult>) {
        let ghost s0 = interner@;
        proof {
            lemma_prefix_refl(interner@);
            super::text::lemma_bytes_len_ge(source@);
        }
        let sb = source.as_bytes();
        let slen = sb.len();
        proof {
            assert(source.spec_bytes() == bytes_of(source@));
            reveal_strlit("\"");
            reveal_strlit("`");
            reveal_strlit("'");
            reveal_strlit("/");
            assert("\""@ =~= seq!['"']);
            assert("`"@ =~= seq!['`']);
            assert("'"@ =~= seq!['\'']);
            assert("/"@ =~= seq!['/']);
        }
        if slen == usize::MAX || from > usize::MAX - slen - 1 {
            return Some(Err(TokenizeErrorReason::UnrecognizedToken));
        }
        match self {
            StdMatcher::Pattern(m) => {
                if m.tok_name().0 >= interner.len() {
                    return Some(Err(TokenizeErrorReason::UnrecognizedToken));
                }
                let r = match m.try_fetch_tok(interner, source, from) {
                    Some(r) => r,
                    None => Some(Err(TokenizeErrorReason::UnrecognizedToken)),
                };
                proof {
                    if r matches Some(Ok(t)) {
                        assert(s0[m.name().0 as int] == interner@[m.name().0 as int]);
                    }
                }
                r
            },
            StdMatcher::DqStr => {
                if super::text::str_eq(source, "\"") {
                    return Some(Err(TokenizeErrorReason::UnrecognizedToken));
                }
                proof {
                    if quoted_scan(source@, '"') matches Some(Ok(_)) {
                        lemma_strlike_len(source@, seq!['"'], seq!['"'], '\\');
                        reveal_strlit("\"");
                    }
                }
                dqstr_m(interner, source, from)
            },
            StdMatcher::AqStr => {
                if super::text::str_eq(source, "\"") {
                    return Some(Err(TokenizeErrorReason::UnrecognizedToken));
                }
                proof {
                    if quoted_scan(source@, '"') matches Some(Ok(_)) {
                        lemma_strlike_len(source@, seq!['"'], seq!['"'], '\\');
                    }
                }
                aqstr_m(interner, source, from)
            },
            StdMatcher::SqStr => {
                if super::text::str_eq(source, "'") {
                    return Some(Err(TokenizeErrorReason::UnrecognizedToken));
                }
                proof {
                    if quoted_scan(source@, '\'') matches Some(Ok(_)) {
                        lemma_strlike_len(source@, seq!['\''], seq!['\''], '\\');
                    }
                }
                sqstr_m(interner, source, from)
            },
            StdMatcher::LitRegex => {
                if super::text::str_eq(source, "/") {
                    return Some(Err(TokenizeErrorReason::UnrecognizedToken));
                }
                proof {
                    if strlike_scan(source@, seq!['/'], seq!['/'], '\\') matches Some(Ok(_)) {
                        lemma_strlike_len(source@, seq!['/'], seq!['/'], '\\');
                    }
                }
                match aux_strlike_m(interner, source, from, "/", "/", '\\') {
                    None => None,
                    Some(Err(e)) => Some(Err(e)),
                    Some(Ok(tok)) => {
                        if tok.value_string(interner).as_str().is_empty() {
                            return None;
                        }
                        let n = tok.span.len();
                        if n > slen || !source.is_char_boundary(n) {
                            return Some(Err(TokenizeErrorReason::UnrecognizedToken));
                        }
                        let ghost s2 = interner@;
                        let r = lit_regex_m(interner, source, from);
                        proof {
                            lemma_prefix_trans(s0, s2, interner@);
                        }
                        r
                    },
                }
            },
            StdMatcher::Heredoc => match try_heredoc_m(interner, source, from) {
                Some(r) => r,
                None => Some(Err(TokenizeErrorReason::UnrecognizedToken)),
            },
        }
    }
}

/// The token name of the `k`-th rule of the ready-made token matchers.
pub open spec fn prelude_name(k: int) -> Seq<char> {
    if k == 0 {
        "sharp_line_comment"@
    } else if k == 1 {
        "sp"@
    } else if k == 2 {
        "newline"@
    } else if k == 3 {
        "lparen"@
    } else if k == 4 {
        "rparen"@
    } else if k == 5 {
        "lbracket"@
    } else if k == 6 {
        "rbracket"@
    } else if k == 7 {
        "lbrace"@
    } else if k == 8 {
        "rbrace"@
    } else if k == 9 {
        "colon"@
    } else if k == 10 {
        "question"@
    } else if k == 11 {
        "rarrow"@
    } else if k == 12 {
        "rdarrow"@
    } else if k == 13 {
        "semi"@
    } else if k == 14 {
        "comma"@
    } else if k == 15 {
        "assign"@
    } else if k == 16 {
        "inc"@
    } else if k == 17 {
        "dec"@
    } else if k == 18 {
        "not"@
    } else if k == 19 {
        "sub"@
    } else if k == 20 {
        "add"@
    } else if k == 21 {
        "mul"@
    } else if k == 22 {
        "div"@
    } else if k == 23 {
        "dot"@
    } else if k == 24 {
        "ge"@
    } else if k == 25 {
        "le"@
    } else if k == 26 {
        "lt"@
    } else if k == 27 {
        "gt"@
    } else if k == 28 {
        "neq"@
    } else if k == 29 {
        "eq"@
    } else if k == 30 {
        "percent"@
    } else if k == 31 {
        "and"@
    } else {
        "or"@
    }
}

/// The pattern of the `k`-th rule of the ready-made token matchers, before it
/// is anchored.
pub open spec fn prelude_pattern(k: int) -> Seq<char> {
    if k == 0 {
        "#.*"@
    } else if k == 1 {
        "[[:blank:]]+"@
    } else if k == 2 {
        "\\n\\r?"@
    } else if k == 3 {
        "\\("@
    } else if k == 4 {
        "\\)"@
    } else if k == 5 {
        "\\["@
    } else if k == 6 {
        "\\]"@
    } else if k == 7 {
        "\\{"@
    } else if k == 8 {
        "\\}"@
    } else if k == 9 {
        ":"@
    } else if k == 10 {
        "\\?"@
    } else if k == 11 {
        "->"@
    } else if k == 12 {
        "=>"@
    } else if k == 13 {
        ";"@
    } else if k == 14 {
        ","@
    } else if k == 15 {
        "="@
    } else if k == 16 {
        "\\+\\+"@
    } else if k == 17 {
        "--"@
    } else if k == 18 {
        "!"@
    } else if k == 19 {
        "-"@
    } else if k == 20 {
        "\\+[^\\+]"@
    } else if k == 21 {
        "\\*"@
    } else if k == 22 {
        "\\\\"@
    } else if k == 23 {
        "\\."@
    } else if k == 24 {
        ">="@
    } else if k == 25 {
        "<="@
    } else if k == 26 {
        "<"@
    } else if k == 27 {
        ">"@
    } else if k == 28 {
        "!="@
    } else if k == 29 {
        "=="@
    } else if k == 30 {
        "%"@
    } else if k == 31 {
        "&&"@
    } else {
        "\\|\\|"@
    }
}

/// The number of ready-made token matcher rules.
pub open spec fn prelude_rules() -> int {
    33
}

/// The `i`-th ready-made token rule: its token name and its pattern.
fn prelude_rule(i: usize) -> (r: (&'static str, &'static str))
    requires
        i < 33,
    ensures
        r.0@ == prelude_name(i as int),
        r.1@ == prelude_pattern(i as int),
{
    if i == 0 {
        ("sharp_line_comment", "#.*")
    } else if i == 1 {
        ("sp", "[[:blank:]]+")
    } else if i == 2 {
        ("newline", "\\n\\r?")
    } else if i == 3 {
        ("lparen", "\\(")
    } else if i == 4 {
        ("rparen", "\\)")
    } else if i == 5 {
        ("lbracket", "\\[")
    } else if i == 6 {
        ("rbracket", "\\]")
    } else if i == 7 {
        ("lbrace", "\\{")
    } else if i == 8 {
        ("rbrace", "\\}")
    } else if i == 9 {
        ("colon", ":")
    } else if i == 10 {
        ("question", "\\?")
    } else if i == 11 {
        ("rarrow", "->")
    } else if i == 12 {
        ("rdarrow", "=>")
    } else if i == 13 {
        ("semi", ";")
    } else if i == 14 {
        ("comma", ",")
    } else if i == 15 {
        ("assign", "=")
    } else if i == 16 {
        ("inc", "\\+\\+")
    } else if i == 17 {
        ("dec", "--")
    } else if i == 18 {
        ("not", "!")
    } else if i == 19 {
        ("sub", "-")
    } else if i == 20 {
        ("add", "\\+[^\\+]")
    } else if i == 21 {
        ("mul", "\\*")
    } else if i == 22 {
        ("div", "\\\\")
    } else if i == 23 {
        ("dot", "\\.")
    } else if i == 24 {
        ("ge", ">=")
    } else if i == 25 {
        ("le", "<=")
    } else if i == 26 {
        ("lt", "<")
    } else if i == 27 {
        ("gt", ">")
    } else if i == 28 {
        ("neq", "!=")
    } else if i == 29 {
        ("eq", "==")
    } else if i == 30 {
        ("percent", "%")
    } else if i == 31 {
        ("and", "&&")
    } else {
        ("or", "\\|\\|")
    }
}

/// The ready-made token matchers, in order: comments, blanks and newlines,
/// brackets, delimiters, assignment and the unary and binary operators. Each
/// is `TokenMatcher::try_rule` of its rule. `None` when a pattern does not
/// compile or the interner has no room for the names.
pub fn prelude_matchers(interner: &mut Interner) -> (r: Option<Vec<StdMatcher>>)
    requires
        old(interner).wf(),
    ensures
        final(interner).wf(),
        old(interner)@.is_prefix_of(final(interner)@),
        r matches Some(ms) ==> ms@.len() == prelude_rules() && forall|k: int|
            0 <= k < ms@.len() ==> {
                &&& (#[trigger] ms@[k]) is Pattern
                &&& ms@[k]->Pattern_0.pattern() == anchored(prelude_pattern(k))
                &&& final(interner).holds(ms@[k]->Pattern_0.name())
                &&& final(interner).str_of(ms@[k]->Pattern_0.name()) == prelude_name(k)
            },
        r is Some ==> forall|k: int| 0 <= k < prelude_rules() ==> regex_valid(anchored(#[trigger] prelude_pattern(k))),
        r is None ==> (exists|k: int| 0 <= k < prelude_rules() && !regex_valid(anchored(#[trigger] prelude_pattern(k))))
            || final(interner)@.len() >= u32::MAX,
{
    proof {
        lemma_prefix_refl(interner@);
    }
    let ghost s0 = interner@;
    let mut ms: Vec<StdMatcher> = Vec::new();
    let mut i: usize = 0;
    while i < 33
        invariant
            interner.wf(),
            s0 == old(interner)@,
            s0.is_prefix_of(interner@),
            i <= 33,
            ms@.len() == i,
            forall|k: int| 0 <= k < i ==> regex_valid(anchored(#[trigger] prelude_pattern(k))),
            forall|k: int|
                0 <= k < i ==> {
                    &&& (#[trigger] ms@[k]) is Pattern
                    &&& ms@[k]->Pattern_0.pattern() == anchored(prelude_pattern(k))
                    &&& interner.holds(ms@[k]->Pattern_0.name())
                    &&& interner.str_of(ms@[k]->Pattern_0.name()) == prelude_name(k)
                },
        decreases 33 - i,
    {
        if interner.len() >= u32::MAX as usize {
            return None;
        }
        let (name, pat) = prelude_rule(i);
        let ghost s1 = interner@;
        match TokenMatcher::try_rule(interner, name, pat) {
            Some(m) => {
                let ghost mb = ms@;
                ms.push(StdMatcher::Pattern(m));
                proof {
                    assert forall|k: int| 0 <= k < i + 1 implies {
                        &&& (#[trigger] ms@[k]) is Pattern
                        &&& ms@[k]->Pattern_0.pattern() == anchored(prelude_pattern(k))
                        &&& interner.holds(ms@[k]->Pattern_0.name())
                        &&& interner.str_of(ms@[k]->Pattern_0.name()) == prelude_name(k)
                    } by {
                        if k < i {
                            assert(ms@[k] == mb[k]);
                            assert(s1[mb[k]->Pattern_0.name().0 as int] == interner@[mb[k]->Pattern_0.name().0 as int]);
                        }
                    }
                }
            },
            None => {
                proof {
                    lemma_prefix_trans(s0, s1, interner@);
                    assert(!regex_valid(anchored(prelude_pattern(i as int))));
                }
                return None;
            },
        }
        proof {
            lemma_prefix_trans(s0, s1, interner@);
        }
        i += 1;
    }
    Some(ms)
}

} // verus!
