//! Byte and character views of strings, and the facts about UTF-8 that the
//! lexer relies on.
use vstd::prelude::*;
use vstd::string::StringSliceAdditionalSpecFns;
use vstd::utf8::*;

verus! {

broadcast use vstd::utf8::encode_utf8_valid_utf8, vstd::utf8::encode_utf8_decode_utf8;

/// The UTF-8 bytes of a character sequence.
pub open spec fn bytes_of(s: Seq<char>) -> Seq<u8> {
    encode_utf8(s)
}

/// The characters encoded by the bytes `from..to` of `s`.
pub open spec fn chars_between(s: Seq<char>, from: int, to: int) -> Seq<char> {
    decode_utf8(bytes_of(s).subrange(from, to))
}

/// `i` is a character boundary of the UTF-8 encoding of `s`.
pub open spec fn is_boundary(s: Seq<char>, i: int) -> bool {
    is_char_boundary(bytes_of(s), i)
}

/// Each character takes at least one byte.
pub proof fn lemma_bytes_len_ge(s: Seq<char>)
    ensures
        bytes_of(s).len() >= s.len(),
    decreases s.len(),
{
    if s.len() > 0 {
        lemma_bytes_len_ge(s.drop_first());
        assert(encode_scalar(s[0] as u32).len() >= 1);
    }
}

/// In valid UTF-8 a position is a boundary exactly when it is the end or
/// does not hold a continuation byte.
pub proof fn lemma_boundary_local(b: Seq<u8>, i: int)
    requires
        valid_utf8(b),
    ensures
        is_char_boundary(b, i) <==> (0 <= i <= b.len() && (i == b.len() || !is_continuation_byte(b[i]))),
{
    is_char_boundary_start_end_of_seq(b);
    if 0 <= i < b.len() {
        is_char_boundary_iff_not_is_continuation_byte(b, i);
    } else if i != b.len() {
        reveal_with_fuel(is_char_boundary, 1);
    }
}

/// The position after an ASCII byte is a boundary.
pub proof fn lemma_boundary_after_ascii(b: Seq<u8>, i: int)
    requires
        valid_utf8(b),
        0 <= i < b.len(),
        b[i] <= 0x7f,
    ensures
        is_char_boundary(b, i + 1),
{
    lemma_boundary_local(b, i + 1);
    if i + 1 < b.len() {
        lemma_no_continuation_after_ascii(b, i);
    }
}

/// In valid UTF-8 the byte after an ASCII byte is no continuation byte.
pub proof fn lemma_no_continuation_after_ascii(b: Seq<u8>, i: int)
    requires
        valid_utf8(b),
        0 <= i,
        i + 1 < b.len(),
        b[i] <= 0x7f,
    ensures
        !is_continuation_byte(b[i + 1]),
    decreases b.len(),
{
    let l = length_of_first_scalar(b);
    let rest = pop_first_scalar(b);
    assert(rest.len() == b.len() - l);
    if i + 1 < l {
        // the first scalar spans i and i + 1, so b[i] is a leading multi-byte or continuation byte
        assert(false);
    } else if i + 1 == l {
        // b[i + 1] starts the next scalar
        assert(rest[0] == b[i + 1]);
        reveal_with_fuel(valid_utf8, 2);
        assert(valid_first_scalar(rest));
    } else {
        assert(rest[i - l] == b[i]);
        assert(rest[i + 1 - l] == b[i + 1]);
        lemma_no_continuation_after_ascii(rest, i - l);
    }
}

/// Boundaries of the encoding of `s` past `from` are boundaries of the bytes
/// that follow `from`.
pub proof fn lemma_boundary_shift(b: Seq<u8>, from: int, to: int)
    requires
        valid_utf8(b),
        is_char_boundary(b, from),
        is_char_boundary(b, to),
        from <= to,
    ensures
        valid_utf8(b.subrange(from, b.len() as int)),
        is_char_boundary(b.subrange(from, b.len() as int), to - from),
        valid_utf8(b.subrange(0, to)),
        is_char_boundary(b.subrange(0, to), from),
{
    lemma_boundary_local(b, from);
    lemma_boundary_local(b, to);
    valid_utf8_split(b, from);
    valid_utf8_split(b, to);
    let tail = b.subrange(from, b.len() as int);
    let head = b.subrange(0, to);
    lemma_boundary_local(tail, to - from);
    lemma_boundary_local(head, from);
    if to < b.len() {
        assert(tail[to - from] == b[to]);
    }
    if from < to {
        assert(head[from] == b[from]);
    }
}

/// The bytes `from..to` of `s`, both boundaries.
pub fn substr(s: &str, from: usize, to: usize) -> (r: &str)
    requires
        from <= to,
        is_char_boundary(s.spec_bytes(), from as int),
        is_char_boundary(s.spec_bytes(), to as int),
    ensures
        r.spec_bytes() == s.spec_bytes().subrange(from as int, to as int),
        r@ == decode_utf8(s.spec_bytes().subrange(from as int, to as int)),
{
    proof {
        lemma_boundary_shift(s.spec_bytes(), from as int, to as int);
    }
    let (_, tail) = s.split_at(from);
    proof {
        assert(tail.spec_bytes() == s.spec_bytes().subrange(from as int, s.spec_bytes().len() as int));
    }
    let (mid, _) = tail.split_at(to - from);
    proof {
        assert(mid.spec_bytes() =~= s.spec_bytes().subrange(from as int, to as int));
        assert(decode_utf8(encode_utf8(mid@)) == mid@);
    }
    mid
}

/// The bytes of `s` from `from` to its end.
pub fn substr_from(s: &str, from: usize) -> (r: &str)
    requires
        is_char_boundary(s.spec_bytes(), from as int),
    ensures
        r.spec_bytes() == s.spec_bytes().subrange(from as int, s.spec_bytes().len() as int),
        r@ == decode_utf8(s.spec_bytes().subrange(from as int, s.spec_bytes().len() as int)),
{
    let (_, tail) = s.split_at(from);
    proof {
        assert(decode_utf8(encode_utf8(tail@)) == tail@);
    }
    tail
}

} // verus!

verus! {

/// Whether the two strings are equal, compared byte by byte.
pub fn str_eq(a: &str, b: &str) -> (r: bool)
    ensures
        r == (a@ == b@),
{
    let x = a.as_bytes();
    let y = b.as_bytes();
    proof {
        assert(decode_utf8(encode_utf8(a@)) == a@);
        assert(decode_utf8(encode_utf8(b@)) == b@);
        assert(x@ == encode_utf8(a@));
        assert(y@ == encode_utf8(b@));
    }
    if x.len() != y.len() {
        return false;
    }
    let mut i: usize = 0;
    while i < x.len()
        invariant
            x@.len() == y@.len(),
            x@ == encode_utf8(a@),
            y@ == encode_utf8(b@),
            i <= x@.len(),
            forall|j: int| 0 <= j < i ==> x@[j] == y@[j],
        decreases x@.len() - i,
    {
        if x[i] != y[i] {
            proof {
                assert(x@[i as int] != y@[i as int]);
                assert(x@ != y@);
            }
            return false;
        }
        i += 1;
    }
    proof {
        assert(x@ =~= y@);
    }
    true
}

} // verus!

verus! {

/// `String::push`: appends the character `c`.
#[verifier::external_body]
pub fn string_push(s: &mut String, c: char)
    ensures
        final(s)@ == old(s)@.push(c),
{
    s.push(c);
}

/// `String::pop`: removes the last character, if any, and returns it.
#[verifier::external_body]
pub fn string_pop(s: &mut String) -> (r: Option<char>)
    ensures
        old(s)@.len() == 0 ==> r is None && final(s)@ == old(s)@,
        old(s)@.len() > 0 ==> r == Some(old(s)@.last()) && final(s)@ == old(s)@.drop_last(),
{
    s.pop()
}

/// `s` starts with `p`.
pub open spec fn starts_with(s: Seq<char>, p: Seq<char>) -> bool {
    p.len() <= s.len() && s.subrange(0, p.len() as int) == p
}

/// Encoding distributes over concatenation.
pub proof fn lemma_bytes_concat(a: Seq<char>, b: Seq<char>)
    ensures
        bytes_of(a + b) == bytes_of(a) + bytes_of(b),
    decreases a.len(),
{
    if a.len() > 0 {
        lemma_bytes_concat(a.drop_first(), b);
        assert((a + b).drop_first() =~= a.drop_first() + b);
        assert((a + b)[0] == a[0]);
        assert(bytes_of(a + b) =~= bytes_of(a) + bytes_of(b));
    } else {
        assert(a + b =~= b);
        assert(bytes_of(a) =~= Seq::<u8>::empty());
        assert(bytes_of(a) + bytes_of(b) =~= bytes_of(b));
    }
}

/// The end of the encoding of `a` is a boundary of the encoding of `a + b`,
/// and the bytes on either side decode to `a` and `b`.
pub proof fn lemma_boundary_concat(a: Seq<char>, b: Seq<char>)
    ensures
        is_boundary(a + b, bytes_of(a).len() as int),
        chars_between(a + b, 0, bytes_of(a).len() as int) == a,
        chars_between(a + b, bytes_of(a).len() as int, bytes_of(a + b).len() as int) == b,
{
    lemma_bytes_concat(a, b);
    let ab = bytes_of(a + b);
    let m = bytes_of(a).len() as int;
    lemma_boundary_local(ab, m);
    if b.len() > 0 {
        let bb = bytes_of(b);
        lemma_bytes_len_ge(b);
        is_char_boundary_start_end_of_seq(bb);
        lemma_boundary_local(bb, 0);
        assert(ab[m] == bb[0]);
    } else {
        assert(b =~= Seq::<char>::empty());
        assert(bytes_of(b) =~= Seq::<u8>::empty());
    }
    assert(ab.subrange(0, m) =~= bytes_of(a));
    assert(ab.subrange(m, ab.len() as int) =~= bytes_of(b));
}

/// Whether `s` starts with `p`, and where the rest of `s` begins.
pub fn str_starts_with(s: &str, p: &str) -> (r: bool)
    ensures
        r == starts_with(s@, p@),
        r ==> is_boundary(s@, bytes_of(p@).len() as int) && chars_between(
            s@,
            bytes_of(p@).len() as int,
            bytes_of(s@).len() as int,
        ) == s@.subrange(p@.len() as int, s@.len() as int),
{
    let m = p.len();
    let sb = s.as_bytes();
    let _n = sb.len();
    proof {
        assert(p.spec_bytes() == bytes_of(p@));
        assert(s.spec_bytes() == bytes_of(s@));
        if starts_with(s@, p@) {
            let rest = s@.subrange(p@.len() as int, s@.len() as int);
            assert(s@ =~= p@ + rest);
            lemma_boundary_concat(p@, rest);
            lemma_bytes_concat(p@, rest);
        }
    }
    if m > s.len() || !s.is_char_boundary(m) {
        return false;
    }
    let head = substr(s, 0, m);
    let r = str_eq(head, p);
    proof {
        let b = bytes_of(s@);
        decode_utf8_split(b, m as int);
        assert(b.subrange(0, b.len() as int) =~= b);
        assert(b.subrange(0, m as int).subrange(0, m as int) =~= b.subrange(0, m as int));
        if r {
            assert(s@ =~= p@ + decode_utf8(b.subrange(m as int, b.len() as int)));
            assert(s@.subrange(0, p@.len() as int) =~= p@);
            assert(s@.subrange(p@.len() as int, s@.len() as int) =~= decode_utf8(
                b.subrange(m as int, b.len() as int),
            ));
        }
    }
    r
}

/// The digit `d`.
pub open spec fn digit_char(d: nat) -> char {
    if d == 0 { '0' } else if d == 1 { '1' } else if d == 2 { '2' } else if d == 3 { '3' } else if d == 4 {
        '4'
    } else if d == 5 { '5' } else if d == 6 { '6' } else if d == 7 { '7' } else if d == 8 { '8' } else { '9' }
}

/// The decimal digits of `n`.
pub open spec fn decimal(n: nat) -> Seq<char>
    decreases n,
{
    if n < 10 {
        seq![digit_char(n)]
    } else {
        decimal(n / 10).push(digit_char(n % 10))
    }
}

/// Appends the decimal digits of `n` to `s`.
pub fn push_decimal(s: &mut String, n: usize)
    ensures
        final(s)@ == old(s)@ + decimal(n as nat),
    decreases n,
{
    if n >= 10 {
        push_decimal(s, n / 10);
    }
    let d = n % 10;
    let c = if d == 0 { '0' } else if d == 1 { '1' } else if d == 2 { '2' } else if d == 3 { '3' } else if d == 4 {
        '4'
    } else if d == 5 { '5' } else if d == 6 { '6' } else if d == 7 { '7' } else if d == 8 { '8' } else { '9' };
    string_push(s, c);
    proof {
        if n >= 10 {
            assert(final(s)@ =~= old(s)@ + decimal(n as nat));
        } else {
            assert(final(s)@ =~= old(s)@ + decimal(n as nat));
        }
    }
}

/// Appends the decimal digits of the wide number `n` to `s`.
pub fn push_decimal_wide(s: &mut String, n: u128)
    ensures
        final(s)@ == old(s)@ + decimal(n as nat),
    decreases n,
{
    if n >= 10 {
        push_decimal_wide(s, n / 10);
    }
    let d = n % 10;
    let c = if d == 0 { '0' } else if d == 1 { '1' } else if d == 2 { '2' } else if d == 3 { '3' } else if d == 4 {
        '4'
    } else if d == 5 { '5' } else if d == 6 { '6' } else if d == 7 { '7' } else if d == 8 { '8' } else { '9' };
    string_push(s, c);
    proof {
        assert(final(s)@ =~= old(s)@ + decimal(n as nat));
    }
}

} // verus!
