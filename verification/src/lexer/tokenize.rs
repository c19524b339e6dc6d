//! Matcher-driven tokenizing of a source file.
use super::interner::{full, lemma_prefix_refl, lemma_prefix_trans, Interner};
use super::srcfile::{byte_srcloc, char_srcloc, line_end, line_starts, Span, SrcFileInfo};
use super::text::{bytes_of, chars_between, decimal, is_boundary, lemma_bytes_len_ge, push_decimal, string_push, substr_from};
use super::token::{in_strs, Token};
use vstd::prelude::*;
use vstd::string::StringSliceAdditionalSpecFns;
use vstd::utf8::*;

verus! {

broadcast use vstd::utf8::encode_utf8_valid_utf8, vstd::utf8::encode_utf8_decode_utf8;

/// Why tokenizing stopped.
#[derive(Clone, Copy, PartialEq, Eq, Structural, Debug)]
pub enum TokenizeErrorReason {
    UnrecognizedToken,
    UnrecognizedEscaped(char),
    UnexpectedPostfix,
    ZeroLenToken,
}

/// A tokenizing failure: the reason, the character offset at which it
/// happened, and the source file.
#[derive(Debug)]
pub struct TokenizeError {
    reason: TokenizeErrorReason,
    start: usize,
    src: SrcFileInfo,
}

impl TokenizeError {
    /// The reason of the failure.
    pub closed spec fn spec_reason(&self) -> TokenizeErrorReason {
        self.reason
    }

    /// The character offset of the failure.
    pub closed spec fn spec_start(&self) -> usize {
        self.start
    }

    /// The text of the source file.
    pub closed spec fn spec_src(&self) -> Seq<char> {
        self.src.src()
    }

    /// The path of the source file.
    pub closed spec fn spec_path(&self) -> Seq<char> {
        self.src.path()
    }

    /// The reason of the failure.
    pub fn reason(&self) -> (r: TokenizeErrorReason)
        ensures
            r == self.spec_reason(),
    {
        self.reason
    }

    /// The character offset of the failure.
    pub fn start(&self) -> (r: usize)
        ensures
            r == self.spec_start(),
    {
        self.start
    }

    /// The source file in which tokenizing failed.
    pub fn src(&self) -> (r: &SrcFileInfo)
        ensures
            r.src() == self.spec_src(),
    {
        &self.src
    }
}

/// How `{:?}` writes the character `c`: quoted, with escapes.
pub uninterp spec fn char_debug(c: char) -> Seq<char>;

/// `format!("{:?}", c)` for a character, a function of the character alone.
#[verifier::external_body]
pub(crate) fn std_char_debug(c: char) -> (r: String)
    ensures
        r@ == char_debug(c),
{
    format!("{:?}", c)
}

/// The name of a reason as `{:?}` writes it.
pub open spec fn reason_text(r: TokenizeErrorReason) -> Seq<char> {
    match r {
        TokenizeErrorReason::UnrecognizedToken => "UnrecognizedToken"@,
        TokenizeErrorReason::UnrecognizedEscaped(c) => "UnrecognizedEscaped("@ + char_debug(c) + ")"@,
        TokenizeErrorReason::UnexpectedPostfix => "UnexpectedPostfix"@,
        TokenizeErrorReason::ZeroLenToken => "ZeroLenToken"@,
    }
}

/// `n` copies of `c`.
pub open spec fn repeat_char(c: char, n: nat) -> Seq<char> {
    Seq::new(n, |i: int| c)
}

/// The line of `src` that holds the byte offset `cur`, with its line break.
pub open spec fn line_at(src: Seq<char>, cur: int) -> Seq<char> {
    let starts = line_starts(bytes_of(src), 10u8);
    let ln = byte_srcloc(src, cur).0;
    chars_between(src, starts[ln - 1] as int, line_end(starts, ln, bytes_of(src).len() as int))
}

/// The report of a failure for `reason` at offset `start` of the text `src`
/// of the file `path`: the reason, the line that holds `start` (read as a
/// byte offset), a caret under the column of `start` (read as a character
/// offset) followed by dashes to the end of the line, and the place as
/// `path:line:column`. `None` where `start` does not fall on a character
/// boundary or the line is shorter in bytes than the column, and at the
/// offset `usize::MAX`, whose column would not fit.
pub open spec fn error_report(reason: TokenizeErrorReason, src: Seq<char>, path: Seq<char>, start: int) -> Option<
    Seq<char>,
> {
    if !is_boundary(src, start) || start >= usize::MAX {
        None
    } else {
        let line = line_at(src, start);
        let ln = char_srcloc(src, start).0;
        let col = char_srcloc(src, start).1;
        let n = bytes_of(line).len() as int;
        if n < col {
            None
        } else {
            Some(
                "\n\n"@ + reason_text(reason) + ":\n\n"@ + line + "\n"@ + repeat_char(' ', (col - 1) as nat) + "^"@
                    + repeat_char('-', (n - col) as nat) + "\n--> "@ + path + ":"@ + decimal(ln as nat) + ":"@
                    + decimal(col as nat) + "\n\n"@,
            )
        }
    }
}

/// Appends `n` copies of `c` to `s`.
fn push_repeat(s: &mut String, c: char, n: usize)
    ensures
        final(s)@ == old(s)@ + repeat_char(c, n as nat),
{
    let mut i: usize = 0;
    while i < n
        invariant
            i <= n,
            s@ == old(s)@ + repeat_char(c, i as nat),
        decreases n - i,
    {
        string_push(s, c);
        i += 1;
        proof {
            assert(s@ =~= old(s)@ + repeat_char(c, i as nat));
        }
    }
}

impl TokenizeError {
    /// The report of the failure, as the error displays it; `None` where the
    /// offset does not fall on a character boundary or the line is shorter in
    /// bytes than the column.
    pub fn message(&self) -> (r: Option<String>)
        ensures
            match error_report(self.spec_reason(), self.spec_src(), self.spec_path(), self.spec_start() as int) {
                None => r is None,
                Some(text) => r matches Some(m) && m@ == text,
            },
    {
        let src = self.src.get_srcstr();
        proof {
            lemma_bytes_len_ge(src@);
            vstd::utf8::encode_utf8_valid_utf8(src@);
        }
        let n = src.as_bytes().len();
        if self.start > n || self.start == usize::MAX || !src.is_char_boundary(self.start) {
            return None;
        }
        let line = match self.src.linestr(self.start) {
            Some(l) => l,
            None => {
                return None;
            },
        };
        let loc = self.src.offset2srcloc(self.start);
        let ll = line.as_bytes().len();
        if ll < loc.col {
            return None;
        }
        let mut m = String::new();
        m.append("\n\n");
        match self.reason {
            TokenizeErrorReason::UnrecognizedToken => m.append("UnrecognizedToken"),
            TokenizeErrorReason::UnrecognizedEscaped(c) => {
                m.append("UnrecognizedEscaped(");
                let d = std_char_debug(c);
                m.append(d.as_str());
                m.append(")");
            },
            TokenizeErrorReason::UnexpectedPostfix => m.append("UnexpectedPostfix"),
            TokenizeErrorReason::ZeroLenToken => m.append("ZeroLenToken"),
        }
        m.append(":\n\n");
        m.append(line);
        m.append("\n");
        push_repeat(&mut m, ' ', loc.col - 1);
        m.append("^");
        push_repeat(&mut m, '-', ll - loc.col);
        m.append("\n--> ");
        m.append(self.src.get_path());
        m.append(":");
        push_decimal(&mut m, loc.ln);
        m.append(":");
        push_decimal(&mut m, loc.col);
        m.append("\n\n");
        proof {
            assert(m@ =~= error_report(self.spec_reason(), self.spec_src(), self.spec_path(), self.spec_start() as int)->0);
        }
        Some(m)
    }
}

pub type TokenizeResult = Result<Vec<Token>, TokenizeError>;

pub type TokenMatchResult = Result<Token, TokenizeErrorReason>;

/// A recognized token as its name, its value and its span.
pub type TokTriple = (Seq<char>, Seq<char>, Span);

/// A matcher tries to recognize a token at the start of `source`, which sits
/// at byte offset `from` of the whole text: `None` when it does not apply,
/// `Some(Err(..))` when it applies but the text is malformed.
pub trait FnMatcher {
    /// Whether the matcher can run against an interner that holds `strs`.
    spec fn spec_ready(&self, strs: Seq<Seq<char>>) -> bool;

    /// What the matcher gives on `source` at `from` against an interner that
    /// holds `strs`: the token's name, value and span, or the error.
    spec fn spec_fetch(&self, strs: Seq<Seq<char>>, source: Seq<char>, from: usize) -> Option<
        Result<TokTriple, TokenizeErrorReason>,
    >;

    /// A ready matcher stays ready, and gives the same, as the interner grows.
    proof fn lemma_fetch_stable(&self, s0: Seq<Seq<char>>, s1: Seq<Seq<char>>, source: Seq<char>, from: usize)
        requires
            self.spec_ready(s0),
            s0.is_prefix_of(s1),
        ensures
            self.spec_ready(s1),
            self.spec_fetch(s0, source, from) == self.spec_fetch(s1, source, from),
    ;

    fn fetch(&self, interner: &mut Interner, source: &str, from: usize) -> (r: Option<TokenMatchResult>)
        requires
            old(interner).wf(),
        ensures
            final(interner).wf(),
            old(interner)@.is_prefix_of(final(interner)@),
            r matches Some(Ok(t)) ==> t.valid_in(final(interner)@),
            self.spec_ready(old(interner)@) && !full(final(interner)@) ==> match self.spec_fetch(old(interner)@, source@, from) {
                None => r is None,
                Some(Err(e)) => r == Some(Err::<Token, TokenizeErrorReason>(e)),
                Some(Ok((n, v, sp))) => r matches Some(Ok(t)) && t.name_in(final(interner)@) == n && t.value_in(
                    final(interner)@,
                ) == v && t.span == sp,
            },
    ;
}

/// The spans of `ts` cover the bytes `0..end` one after the other, each at
/// least one byte long.
pub open spec fn tiles(ts: Seq<TokTriple>, end: int) -> bool {
    &&& ts.len() == 0 ==> end == 0
    &&& ts.len() > 0 ==> ts[0].2.from == 0 && ts.last().2.end == end
    &&& forall|i: int| 0 <= i < ts.len() ==> #[trigger] ts[i].2.from < ts[i].2.end
    &&& forall|i: int| 0 <= i < ts.len() - 1 ==> #[trigger] ts[i].2.end == ts[i + 1].2.from
}

/// Every token of `toks` is held by the interned strings `strs`.
pub open spec fn all_valid_in(toks: Seq<Token>, strs: Seq<Seq<char>>) -> bool {
    forall|i: int| 0 <= i < toks.len() ==> #[trigger] toks[i].valid_in(strs)
}

/// Valid symbols stay valid when the interner grows.
pub proof fn lemma_valid_grow(toks: Seq<Token>, s0: Seq<Seq<char>>, s1: Seq<Seq<char>>)
    requires
        all_valid_in(toks, s0),
        s0.is_prefix_of(s1),
    ensures
        all_valid_in(toks, s1),
{
    assert(s0.len() <= s1.len());
    assert forall|i: int| 0 <= i < toks.len() implies #[trigger] toks[i].valid_in(s1) by {
        assert(toks[i].valid_in(s0));
    }
}

/// The characters of `s` in the bytes `0..p` and `p..q` make up those in `0..q`.
pub proof fn lemma_chars_split(s: Seq<char>, p: int, q: int)
    requires
        0 <= p <= q <= bytes_of(s).len(),
        is_boundary(s, p),
        is_boundary(s, q),
    ensures
        chars_between(s, 0, p).len() + chars_between(s, p, q).len() == chars_between(s, 0, q).len(),
        chars_between(s, 0, q).len() <= q,
{
    let b = bytes_of(s);
    let head = b.subrange(0, q);
    valid_utf8_split(b, q);
    super::text::lemma_boundary_local(b, p);
    super::text::lemma_boundary_local(head, p);
    if p < q {
        assert(head[p] == b[p]);
    }
    decode_utf8_split(head, p);
    assert(head.subrange(0, p) == b.subrange(0, p));
    assert(head.subrange(p, head.len() as int) == b.subrange(p, q));
    decode_utf8_encode_utf8(head);
    lemma_bytes_len_ge(decode_utf8(head));
}

/// The error `reason` at character offset `start` of `srcfile`.
fn tokenize_error(srcfile: &SrcFileInfo, reason: TokenizeErrorReason, start: usize) -> (r: TokenizeError)
    ensures
        r.spec_reason() == reason,
        r.spec_start() == start,
        r.spec_src() == srcfile.src(),
        r.spec_path() == srcfile.path(),
{
    TokenizeError { reason, start, src: srcfile.clone() }
}

/// What the first of the matchers `ms[i..]` that applies gives on `rest` at
/// `from`; `None` when none applies.
pub open spec fn first_fetch<M: FnMatcher>(
    ms: Seq<M>,
    strs: Seq<Seq<char>>,
    rest: Seq<char>,
    from: usize,
    i: int,
) -> Option<Result<TokTriple, TokenizeErrorReason>>
    decreases ms.len() - i,
{
    if i < 0 || i >= ms.len() {
        None
    } else {
        match ms[i].spec_fetch(strs, rest, from) {
            None => first_fetch(ms, strs, rest, from, i + 1),
            Some(x) => Some(x),
        }
    }
}

/// The matchers are tried in order: what `first_fetch` gives is what the
/// first matcher from `i` on that applies gives, every one before it giving
/// nothing.
pub proof fn lemma_first_fetch_first<M: FnMatcher>(
    ms: Seq<M>,
    strs: Seq<Seq<char>>,
    rest: Seq<char>,
    from: usize,
    i: int,
)
    requires
        0 <= i,
    ensures
        first_fetch(ms, strs, rest, from, i) matches Some(x) ==> exists|k: int|
            i <= k < ms.len() && #[trigger] ms[k].spec_fetch(strs, rest, from) == Some(x) && forall|m: int|
                i <= m < k ==> (#[trigger] ms[m].spec_fetch(strs, rest, from)) is None,
        first_fetch(ms, strs, rest, from, i) is None ==> forall|m: int|
            i <= m < ms.len() ==> (#[trigger] ms[m].spec_fetch(strs, rest, from)) is None,
    decreases ms.len() - i,
{
    if i < ms.len() {
        lemma_first_fetch_first(ms, strs, rest, from, i + 1);
        if let Some(x) = first_fetch(ms, strs, rest, from, i) {
            if ms[i].spec_fetch(strs, rest, from) is None {
                let k = choose|k: int|
                    i + 1 <= k < ms.len() && #[trigger] ms[k].spec_fetch(strs, rest, from) == Some(x) && forall|
                        m: int,
                    |
                        i + 1 <= m < k ==> (#[trigger] ms[m].spec_fetch(strs, rest, from)) is None;
                assert(forall|m: int| i <= m < k ==> (#[trigger] ms[m].spec_fetch(strs, rest, from)) is None);
            }
        }
    }
}

/// Tokenizing `src` from byte offset `pos` on, `cpos` characters having been
/// counted so far and the tokens `acc` found: at each position the first
/// matcher that applies gives the next token; the position then moves on by
/// the token's span length and the count by the characters of its span. A
/// position inside a character, a span that ends before it starts, lies
/// outside the text or off character boundaries, or a count that overflows,
/// gives `UnrecognizedToken`; an empty span gives `ZeroLenToken`. An error
/// comes with the character count at which it happened.
pub open spec fn tokenize_from<M: FnMatcher>(
    ms: Seq<M>,
    strs: Seq<Seq<char>>,
    src: Seq<char>,
    pos: int,
    cpos: int,
    acc: Seq<TokTriple>,
) -> Result<Seq<TokTriple>, (TokenizeErrorReason, int)>
    decreases bytes_of(src).len() - pos,
{
    let blen = bytes_of(src).len() as int;
    if pos < 0 || pos >= blen {
        Ok(acc)
    } else if !is_boundary(src, pos) {
        Err((TokenizeErrorReason::UnrecognizedToken, cpos))
    } else {
        match first_fetch(ms, strs, chars_between(src, pos, blen), pos as usize, 0) {
            None => Err((TokenizeErrorReason::UnrecognizedToken, cpos)),
            Some(Err(e)) => Err((e, cpos)),
            Some(Ok((n, v, sp))) => if sp.end < sp.from {
                Err((TokenizeErrorReason::UnrecognizedToken, cpos))
            } else if sp.end == sp.from {
                Err((TokenizeErrorReason::ZeroLenToken, cpos))
            } else if sp.end > blen || !is_boundary(src, sp.from as int) || !is_boundary(src, sp.end as int) {
                Err((TokenizeErrorReason::UnrecognizedToken, cpos))
            } else {
                let np = pos + (sp.end - sp.from);
                let nc = cpos + chars_between(src, sp.from as int, sp.end as int).len();
                if np > usize::MAX || nc > usize::MAX {
                    Err((TokenizeErrorReason::UnrecognizedToken, cpos))
                } else if np >= blen {
                    Ok(acc.push((n, v, sp)))
                } else {
                    tokenize_from(ms, strs, src, np, nc, acc.push((n, v, sp)))
                }
            },
        }
    }
}

/// Every token that the matchers give at a character boundary of `src`
/// starts there.
pub open spec fn in_place<M: FnMatcher>(ms: Seq<M>, strs: Seq<Seq<char>>, src: Seq<char>) -> bool {
    forall|p: int|
        0 <= p < bytes_of(src).len() && is_boundary(src, p) ==> (#[trigger] first_fetch(
            ms,
            strs,
            chars_between(src, p, bytes_of(src).len() as int),
            p as usize,
            0,
        ) matches Some(Ok((n, v, sp))) ==> sp.from == p)
}

proof fn lemma_tokenize_from_tiles<M: FnMatcher>(
    ms: Seq<M>,
    strs: Seq<Seq<char>>,
    src: Seq<char>,
    pos: int,
    cpos: int,
    acc: Seq<TokTriple>,
    ts: Seq<TokTriple>,
)
    requires
        tokenize_from(ms, strs, src, pos, cpos, acc) == Ok::<Seq<TokTriple>, (TokenizeErrorReason, int)>(ts),
        in_place(ms, strs, src),
        0 <= pos <= bytes_of(src).len(),
        tiles(acc, pos),
    ensures
        tiles(ts, bytes_of(src).len() as int),
    decreases bytes_of(src).len() - pos,
{
    let blen = bytes_of(src).len() as int;
    if pos < blen {
        let ff = first_fetch(ms, strs, chars_between(src, pos, blen), pos as usize, 0);
        assert(is_boundary(src, pos));
        if let Some(Ok((n, v, sp))) = ff {
            assert(sp.from == pos);
            let acc2 = acc.push((n, v, sp));
            assert(tiles(acc2, sp.end as int)) by {
                if acc.len() > 0 {
                    assert(acc2[acc.len() - 1] == acc[acc.len() - 1]);
                }
                assert forall|i: int| 0 <= i < acc2.len() implies #[trigger] acc2[i].2.from < acc2[i].2.end by {
                    if i < acc.len() {
                        assert(acc2[i] == acc[i]);
                    }
                }
                assert forall|i: int| 0 <= i < acc2.len() - 1 implies #[trigger] acc2[i].2.end == acc2[i
                    + 1].2.from by {
                    assert(acc2[i] == acc[i]);
                    if i + 1 < acc.len() {
                        assert(acc2[i + 1] == acc[i + 1]);
                    }
                }
            }
            let np = pos + (sp.end - sp.from);
            if np < blen {
                let nc = cpos + chars_between(src, sp.from as int, sp.end as int).len();
                lemma_tokenize_from_tiles(ms, strs, src, np, nc, acc2, ts);
            }
        }
    }
}

/// When every token the matchers give starts where it was asked for, the
/// tokens of a successful tokenizing cover the whole text one after the
/// other, each at least one byte long.
pub proof fn lemma_tokenize_tiles<M: FnMatcher>(ms: Seq<M>, strs: Seq<Seq<char>>, src: Seq<char>, ts: Seq<TokTriple>)
    requires
        tokenize_from(ms, strs, src, 0, 0, Seq::empty()) == Ok::<Seq<TokTriple>, (TokenizeErrorReason, int)>(ts),
        in_place(ms, strs, src),
    ensures
        tiles(ts, bytes_of(src).len() as int),
{
    lemma_tokenize_from_tiles(ms, strs, src, 0, 0, Seq::empty(), ts);
}

proof fn lemma_tokenize_from_error_at<M: FnMatcher>(
    ms: Seq<M>,
    strs: Seq<Seq<char>>,
    src: Seq<char>,
    pos: int,
    cpos: int,
    acc: Seq<TokTriple>,
    reason: TokenizeErrorReason,
    c: int,
)
    requires
        tokenize_from(ms, strs, src, pos, cpos, acc) == Err::<Seq<TokTriple>, (TokenizeErrorReason, int)>(
            (reason, c),
        ),
        in_place(ms, strs, src),
        bytes_of(src).len() <= usize::MAX,
        0 <= pos <= bytes_of(src).len(),
        is_boundary(src, pos),
        cpos == chars_between(src, 0, pos).len(),
    ensures
        exists|b: int|
            0 <= b < bytes_of(src).len() && is_boundary(src, b) && c == #[trigger] chars_between(src, 0, b).len(),
    decreases bytes_of(src).len() - pos,
{
    let blen = bytes_of(src).len() as int;
    let ff = first_fetch(ms, strs, chars_between(src, pos, blen), pos as usize, 0);
    if let Some(Ok((n, v, sp))) = ff {
        assert(sp.from == pos);
        if sp.end > sp.from && sp.end <= blen && is_boundary(src, sp.end as int) {
            lemma_chars_split(src, pos, sp.end as int);
            let nc = cpos + chars_between(src, sp.from as int, sp.end as int).len();
            if sp.end < blen {
                lemma_tokenize_from_error_at(ms, strs, src, sp.end as int, nc, acc.push((n, v, sp)), reason, c);
            }
        }
    }
    if c == cpos {
        assert(0 <= pos < blen && is_boundary(src, pos) && c == chars_between(src, 0, pos).len());
    }
}

/// When every token the matchers give starts where it was asked for, an
/// error comes at a character boundary of the text before its end, and its
/// offset counts the characters before that boundary.
pub proof fn lemma_tokenize_error_offset<M: FnMatcher>(
    ms: Seq<M>,
    strs: Seq<Seq<char>>,
    src: Seq<char>,
    reason: TokenizeErrorReason,
    c: int,
)
    requires
        tokenize_from(ms, strs, src, 0, 0, Seq::empty()) == Err::<Seq<TokTriple>, (TokenizeErrorReason, int)>(
            (reason, c),
        ),
        in_place(ms, strs, src),
        bytes_of(src).len() <= usize::MAX,
    ensures
        exists|b: int|
            0 <= b < bytes_of(src).len() && is_boundary(src, b) && c == #[trigger] chars_between(src, 0, b).len(),
{
    vstd::utf8::is_char_boundary_start_end_of_seq(bytes_of(src));
    assert(bytes_of(src).subrange(0, 0) =~= Seq::<u8>::empty());
    lemma_tokenize_from_error_at(ms, strs, src, 0, 0, Seq::empty(), reason, c);
}

/// The names, values and spans of `toks` among the interned strings `strs`.
pub open spec fn triples_of(toks: Seq<Token>, strs: Seq<Seq<char>>) -> Seq<TokTriple> {
    toks.map_values(|t: Token| (t.name_in(strs), t.value_in(strs), t.span))
}

/// Every matcher of `ms` is ready for an interner holding `strs`.
pub open spec fn all_ready<M: FnMatcher>(ms: Seq<M>, strs: Seq<Seq<char>>) -> bool {
    forall|k: int| 0 <= k < ms.len() ==> #[trigger] ms[k].spec_ready(strs)
}

/// Matchers stay ready as the interner grows.
proof fn lemma_all_ready_grow<M: FnMatcher>(ms: Seq<M>, s0: Seq<Seq<char>>, s1: Seq<Seq<char>>)
    requires
        all_ready(ms, s0),
        s0.is_prefix_of(s1),
    ensures
        all_ready(ms, s1),
{
    assert forall|k: int| 0 <= k < ms.len() implies #[trigger] ms[k].spec_ready(s1) by {
        ms[k].lemma_fetch_stable(s0, s1, Seq::empty(), 0);
    }
}

/// The triples of valid tokens stay the same as the interner grows.
proof fn lemma_triples_grow(toks: Seq<Token>, s0: Seq<Seq<char>>, s1: Seq<Seq<char>>)
    requires
        all_valid_in(toks, s0),
        s0.is_prefix_of(s1),
    ensures
        triples_of(toks, s0) == triples_of(toks, s1),
{
    assert forall|k: int| 0 <= k < toks.len() implies triples_of(toks, s0)[k] == triples_of(toks, s1)[k] by {
        assert(toks[k].valid_in(s0));
    }
    assert(triples_of(toks, s0) =~= triples_of(toks, s1));
}

/// Splits the text of `srcfile` into tokens: at each position the matchers
/// are tried in order and the first that applies gives the next token; the
/// position then moves on by the token's span length.
///
/// Fails with `ZeroLenToken` on an empty token, with the matcher's reason when
/// a matcher reports one, and with `UnrecognizedToken` when no matcher
/// applies, when the position falls inside a character, when a token's span
/// ends before it starts or lies outside the text or off its character
/// boundaries; the error's offset is the number of characters of the tokens
/// before. When the matchers are ready for the interner and the interner
/// never filled up (no string had to be refused), the result is
/// `tokenize_from` exactly.
pub fn tokenize<M: FnMatcher>(srcfile: &SrcFileInfo, interner: &mut Interner, fn_matchers: &[M]) -> (r: TokenizeResult)
    requires
        old(interner).wf(),
    ensures
        final(interner).wf(),
        old(interner)@.is_prefix_of(final(interner)@),
        r matches Ok(toks) ==> all_valid_in(toks@, final(interner)@) && toks@.len() <= bytes_of(srcfile.src()).len()
            && forall|k: int|
            0 <= k < toks@.len() ==> #[trigger] toks@[k].span.from < toks@[k].span.end && toks@[k].span.end
                <= bytes_of(srcfile.src()).len(),
        r matches Err(e) ==> e.spec_src() == srcfile.src() && e.spec_path() == srcfile.path(),
        bytes_of(srcfile.src()).len() == 0 ==> (r matches Ok(toks) && toks@.len() == 0),
        all_ready(fn_matchers@, old(interner)@) && !full(final(interner)@) ==> match tokenize_from(
            fn_matchers@,
            old(interner)@,
            srcfile.src(),
            0,
            0,
            Seq::empty(),
        ) {
            Ok(ts) => r matches Ok(toks) && triples_of(toks@, final(interner)@) == ts,
            Err((reason, c)) => r matches Err(e) && e.spec_reason() == reason && e.spec_start() == c,
        },
{
    let source = srcfile.get_srcstr();
    let mut tokens: Vec<Token> = Vec::new();
    let ghost src = srcfile.src();
    let ghost b = bytes_of(src);
    let ghost s0 = interner@;
    let ghost ms = fn_matchers@;
    let ghost ready = all_ready(ms, s0);
    let ghost top = tokenize_from(ms, s0, src, 0, 0, Seq::empty());
    let ghost mut acc: Seq<TokTriple> = Seq::empty();
    let bytes = source.as_bytes();
    let len = bytes.len();
    proof {
        lemma_prefix_refl(s0);
        assert(source.spec_bytes() == b);
        assert(triples_of(tokens@, interner@) =~= acc);
    }
    if len == 0 {
        return Ok(tokens);
    }
    let mut bytes_pos: usize = 0;
    let mut chars_pos: usize = 0;
    loop
        invariant
            source@ == src,
            source.spec_bytes() == b,
            b == bytes_of(src),
            len == b.len(),
            bytes_pos < len,
            tokens@.len() <= bytes_pos,
            forall|k: int|
                0 <= k < tokens@.len() ==> #[trigger] tokens@[k].span.from < tokens@[k].span.end
                    && tokens@[k].span.end <= len,
            interner.wf(),
            s0.is_prefix_of(interner@),
            s0 == old(interner)@,
            all_valid_in(tokens@, interner@),
            srcfile.src() == src,
            ms == fn_matchers@,
            ready == all_ready(ms, s0),
            top == tokenize_from(ms, s0, src, 0, 0, Seq::empty()),
            triples_of(tokens@, interner@) == acc,
            ready && !full(interner@) ==> top == tokenize_from(ms, s0, src, bytes_pos as int, chars_pos as int, acc),
        decreases len - bytes_pos,
    {
        if !source.is_char_boundary(bytes_pos) {
            return Err(tokenize_error(srcfile, TokenizeErrorReason::UnrecognizedToken, chars_pos));
        }
        let rest = substr_from(source, bytes_pos);
        let ghost rest_v = chars_between(src, bytes_pos as int, len as int);
        let ghost ff = first_fetch(ms, s0, rest_v, bytes_pos, 0);
        proof {
            assert(rest@ == rest_v);
        }
        let mut i: usize = 0;
        let mut found: Option<Token> = None;
        while i < fn_matchers.len()
            invariant_except_break
                found is None,
            invariant
                source@ == src,
                source.spec_bytes() == b,
                b == bytes_of(src),
                len == b.len(),
                bytes_pos < len,
                is_boundary(src, bytes_pos as int),
                interner.wf(),
                s0.is_prefix_of(interner@),
                s0 == old(interner)@,
                all_valid_in(tokens@, interner@),
                triples_of(tokens@, interner@) == acc,
                srcfile.src() == src,
                i <= fn_matchers@.len(),
                ms == fn_matchers@,
                ready == all_ready(ms, s0),
                top == tokenize_from(ms, s0, src, 0, 0, Seq::empty()),
                rest@ == rest_v,
                rest_v == chars_between(src, bytes_pos as int, len as int),
                ff == first_fetch(ms, s0, rest_v, bytes_pos, 0),
                ready && !full(interner@) ==> top == tokenize_from(ms, s0, src, bytes_pos as int, chars_pos as int, acc),
                found is None ==> (ready && !full(interner@) ==> ff == first_fetch(ms, s0, rest_v, bytes_pos, i as int)),
                found matches Some(tok) ==> tok.valid_in(interner@) && (ready && !full(interner@) ==> ff == Some(
                    Ok::<TokTriple, TokenizeErrorReason>((tok.name_in(interner@), tok.value_in(interner@), tok.span)),
                )),
            ensures
                found is None ==> (ready && !full(interner@) ==> ff is None),
            decreases fn_matchers@.len() - i,
        {
            let ghost before = interner@;
            proof {
                if ready {
                    ms[i as int].lemma_fetch_stable(s0, before, rest_v, bytes_pos);
                    lemma_all_ready_grow(ms, s0, before);
                }
            }
            let res = fn_matchers[i].fetch(interner, rest, bytes_pos);
            proof {
                lemma_prefix_trans(s0, before, interner@);
                lemma_valid_grow(tokens@, before, interner@);
                lemma_triples_grow(tokens@, before, interner@);
            }
            match res {
                Some(Ok(tok)) => {
                    found = Some(tok);
                    break;
                },
                Some(Err(reason)) => {
                    return Err(tokenize_error(srcfile, reason, chars_pos));
                },
                None => {},
            }
            i += 1;
        }
        let tok = match found {
            None => {
                return Err(tokenize_error(srcfile, TokenizeErrorReason::UnrecognizedToken, chars_pos));
            },
            Some(t) => t,
        };
        if tok.span.end < tok.span.from {
            return Err(tokenize_error(srcfile, TokenizeErrorReason::UnrecognizedToken, chars_pos));
        }
        if tok.span.end == tok.span.from {
            return Err(tokenize_error(srcfile, TokenizeErrorReason::ZeroLenToken, chars_pos));
        }
        if tok.span.end > len || !source.is_char_boundary(tok.span.from) || !source.is_char_boundary(tok.span.end) {
            return Err(tokenize_error(srcfile, TokenizeErrorReason::UnrecognizedToken, chars_pos));
        }
        let n = tok.span.len();
        let c = tok.span_chars_count(source);
        if n > usize::MAX - bytes_pos || c > usize::MAX - chars_pos {
            return Err(tokenize_error(srcfile, TokenizeErrorReason::UnrecognizedToken, chars_pos));
        }
        let ghost tb = tokens@;
        tokens.push(tok);
        proof {
            let trip = (tok.name_in(interner@), tok.value_in(interner@), tok.span);
            assert(triples_of(tokens@, interner@) =~= triples_of(tb, interner@).push(trip));
            acc = acc.push(trip);
            assert(all_valid_in(tokens@, interner@));
        }
        bytes_pos = bytes_pos + n;
        chars_pos = chars_pos + c;
        if bytes_pos >= len {
            return Ok(tokens);
        }
    }
}

} // verus!
