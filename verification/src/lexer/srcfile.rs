//! Source files with their line tables, source locations and byte spans.
use super::text::{bytes_of, chars_between, decimal, is_boundary, lemma_boundary_after_ascii, lemma_bytes_len_ge, push_decimal, substr};
use vstd::prelude::*;
use vstd::string::StringSliceAdditionalSpecFns;
use vstd::string::StrSliceExecFns;
use vstd::utf8::*;

verus! {

broadcast use vstd::utf8::encode_utf8_valid_utf8, vstd::utf8::encode_utf8_decode_utf8;

/// The offsets at which the lines of `s` start: `0`, and the offset after each
/// occurrence of `nl`.
pub open spec fn line_starts<A>(s: Seq<A>, nl: A) -> Seq<usize>
    decreases s.len(),
{
    if s.len() == 0 {
        seq![0usize]
    } else {
        let p = line_starts(s.drop_last(), nl);
        if s.last() == nl {
            p.push(s.len() as usize)
        } else {
            p
        }
    }
}

/// The number of entries of `v` that are at most `x`.
pub open spec fn count_le(v: Seq<usize>, x: int) -> int
    decreases v.len(),
{
    if v.len() == 0 {
        0
    } else {
        count_le(v.drop_last(), x) + if v.last() <= x { 1int } else { 0int }
    }
}

/// `v` is strictly increasing.
pub open spec fn strictly_increasing(v: Seq<usize>) -> bool {
    forall|i: int, j: int| 0 <= i < j < v.len() ==> v[i] < v[j]
}

/// Facts about the line starts of a sequence whose length fits `usize`.
pub proof fn lemma_line_starts<A>(s: Seq<A>, nl: A)
    requires
        s.len() <= usize::MAX,
    ensures
        line_starts(s, nl).len() >= 1,
        line_starts(s, nl)[0] == 0,
        strictly_increasing(line_starts(s, nl)),
        forall|i: int| 0 <= i < line_starts(s, nl).len() ==> #[trigger] line_starts(s, nl)[i] <= s.len(),
        forall|i: int| 1 <= i < line_starts(s, nl).len() ==> #[trigger] line_starts(s, nl)[i] >= 1
            && s[line_starts(s, nl)[i] - 1] == nl,
    decreases s.len(),
{
    if s.len() > 0 {
        lemma_line_starts(s.drop_last(), nl);
    }
}

/// When the first `k` entries of `v` are at most `x` and the others exceed
/// it, `k` of them are at most `x`.
pub proof fn lemma_count_le(v: Seq<usize>, x: int, k: int)
    requires
        0 <= k <= v.len(),
        forall|i: int| 0 <= i < k ==> v[i] <= x,
        forall|i: int| k <= i < v.len() ==> v[i] > x,
    ensures
        count_le(v, x) == k,
    decreases v.len(),
{
    if v.len() > 0 {
        if k == v.len() {
            lemma_count_le(v.drop_last(), x, k - 1);
        } else {
            lemma_count_le(v.drop_last(), x, k);
        }
    }
}

/// The number of occurrences of `a` in `s`.
pub open spec fn count_of<A>(s: Seq<A>, a: A) -> nat
    decreases s.len(),
{
    if s.len() == 0 {
        0
    } else {
        count_of(s.drop_last(), a) + if s.last() == a { 1nat } else { 0nat }
    }
}

/// When every entry of `v` is at most `x`, all of them count.
proof fn lemma_count_le_all(v: Seq<usize>, x: int)
    requires
        forall|i: int| 0 <= i < v.len() ==> #[trigger] v[i] <= x,
    ensures
        count_le(v, x) == v.len(),
    decreases v.len(),
{
    if v.len() > 0 {
        let d = v.drop_last();
        assert forall|i: int| 0 <= i < d.len() implies #[trigger] d[i] <= x by {
            assert(d[i] == v[i]);
        }
        lemma_count_le_all(d, x);
    }
}

/// The lines that have started by position `x` are one more than the line
/// breaks before `x`.
pub proof fn lemma_line_count<A>(s: Seq<A>, nl: A, x: int)
    requires
        0 <= x <= s.len(),
        s.len() <= usize::MAX,
    ensures
        count_le(line_starts(s, nl), x) == 1 + count_of(s.take(x), nl),
    decreases s.len(),
{
    if s.len() == 0 {
        assert(s.take(x) =~= Seq::<A>::empty());
        assert(seq![0usize].drop_last() =~= Seq::<usize>::empty());
        assert(count_le(Seq::<usize>::empty(), x) == 0);
        assert(seq![0usize].last() == 0);
        assert(count_le(seq![0usize], x) == 1);
    } else {
        let d = s.drop_last();
        lemma_line_starts(d, nl);
        let ld = line_starts(d, nl);
        if x <= d.len() {
            lemma_line_count(d, nl, x);
            assert(s.take(x) =~= d.take(x));
            if s.last() == nl {
                assert(line_starts(s, nl) == ld.push(s.len() as usize));
                assert(ld.push(s.len() as usize).drop_last() =~= ld);
                assert(count_le(ld.push(s.len() as usize), x) == count_le(ld, x));
            } else {
                assert(line_starts(s, nl) == ld);
            }
        } else {
            lemma_line_count(d, nl, d.len() as int);
            lemma_count_le_all(ld, d.len() as int);
            lemma_count_le_all(ld, x);
            assert(s.take(x) =~= s);
            assert(d.take(d.len() as int) =~= d);
            assert(count_of(s, nl) == count_of(d, nl) + if s.last() == nl { 1nat } else { 0nat });
            if s.last() == nl {
                assert(line_starts(s, nl) == ld.push(s.len() as usize));
                assert(ld.push(s.len() as usize).drop_last() =~= ld);
                assert(count_le(ld.push(s.len() as usize), x) == count_le(ld, x) + 1);
            } else {
                assert(line_starts(s, nl) == ld);
            }
        }
    }
}

/// A location's line is one more than the line breaks before its offset, and
/// its column counts from the start of the text or from just after a line
/// break: for character offsets and for byte offsets alike.
pub proof fn lemma_srcloc_lines(src: Seq<char>, offset: int)
    requires
        bytes_of(src).len() <= usize::MAX,
    ensures
        0 <= offset <= src.len() ==> {
            let (ln, col) = char_srcloc(src, offset);
            &&& ln == 1 + count_of(src.take(offset), '\n')
            &&& 1 <= col <= offset + 1
            &&& col == offset + 1 || src[offset - col] == '\n'
        },
        0 <= offset <= bytes_of(src).len() ==> {
            let (ln, col) = byte_srcloc(src, offset);
            ln == 1 + count_of(bytes_of(src).take(offset), 10u8)
        },
{
    super::text::lemma_bytes_len_ge(src);
    if 0 <= offset <= src.len() {
        let starts = line_starts(src, '\n');
        lemma_line_starts(src, '\n');
        lemma_line_count(src, '\n', offset);
        let ln = count_le(starts, offset);
        lemma_count_le_split(starts, offset);
        assert(starts[ln - 1] <= offset);
    }
    if 0 <= offset <= bytes_of(src).len() {
        lemma_line_count(bytes_of(src), 10u8, offset);
    }
}

/// The number of entries of the increasing `v` that are at most `x`.
fn search_le(v: &Vec<usize>, x: usize) -> (k: usize)
    requires
        strictly_increasing(v@),
    ensures
        k <= v@.len(),
        k == count_le(v@, x as int),
        forall|i: int| 0 <= i < k ==> v@[i] <= x,
        forall|i: int| k <= i < v@.len() ==> v@[i] > x,
{
    let mut lo: usize = 0;
    let mut hi: usize = v.len();
    while lo < hi
        invariant
            lo <= hi <= v@.len(),
            strictly_increasing(v@),
            forall|i: int| 0 <= i < lo ==> v@[i] <= x,
            forall|i: int| hi <= i < v@.len() ==> v@[i] > x,
        decreases hi - lo,
    {
        let mid = lo + (hi - lo) / 2;
        if v[mid] <= x {
            lo = mid + 1;
        } else {
            hi = mid;
        }
    }
    proof {
        lemma_count_le(v@, x as int, lo as int);
    }
    lo
}

/// The code of a character is 10 exactly for the line break.
proof fn lemma_newline_code(x: char)
    ensures
        (x as u32 == 10u32) <==> x == '\n',
{
}

/// Every character of `s` is ASCII.
pub open spec fn is_ascii_text(s: Seq<char>) -> bool {
    forall|i: int| 0 <= i < s.len() ==> (#[trigger] s[i] as u32) <= 0x7f
}

/// ASCII text takes one byte per character, each the character's code.
proof fn lemma_ascii_bytes(s: Seq<char>)
    requires
        is_ascii_text(s),
    ensures
        bytes_of(s).len() == s.len(),
        forall|i: int| 0 <= i < s.len() ==> #[trigger] bytes_of(s)[i] == (s[i] as u32) as u8,
    decreases s.len(),
{
    if s.len() > 0 {
        let d = s.drop_first();
        assert forall|i: int| 0 <= i < d.len() implies (#[trigger] d[i] as u32) <= 0x7f by {
            assert(d[i] == s[i + 1]);
        }
        lemma_ascii_bytes(d);
        let c = s[0] as u32;
        assert(c <= 0x7f);
        assert((c & 0x7f) == c) by (bit_vector)
            requires
                c <= 0x7f,
        ;
        assert(encode_scalar(c) =~= seq![c as u8]);
        assert forall|i: int| 0 <= i < s.len() implies #[trigger] bytes_of(s)[i] == (s[i] as u32) as u8 by {
            if i > 0 {
                assert(bytes_of(s)[i] == bytes_of(d)[i - 1]);
                assert(d[i - 1] == s[i]);
            }
        }
    }
}

/// On ASCII text the line starts counted in bytes are those counted in
/// characters.
proof fn lemma_ascii_line_starts(s: Seq<char>)
    requires
        is_ascii_text(s),
    ensures
        line_starts(bytes_of(s), 10u8) == line_starts(s, '\n'),
    decreases s.len(),
{
    let b = bytes_of(s);
    lemma_ascii_bytes(s);
    if s.len() > 0 {
        let d = s.drop_last();
        assert forall|i: int| 0 <= i < d.len() implies (#[trigger] d[i] as u32) <= 0x7f by {
            assert(d[i] == s[i]);
        }
        lemma_ascii_line_starts(d);
        lemma_ascii_bytes(d);
        assert(b.drop_last() =~= bytes_of(d)) by {
            assert forall|i: int| 0 <= i < d.len() implies b.drop_last()[i] == bytes_of(d)[i] by {
                assert(d[i] == s[i]);
            }
        }
        let c = s.last() as u32;
        assert(c <= 0x7f);
        assert((c as u8 == 10u8) <==> (c == 10u32)) by (bit_vector)
            requires
                c <= 0x7f,
        ;
        lemma_newline_code(s.last());
    } else {
        assert(b =~= Seq::<u8>::empty());
    }
}

/// The entries of an increasing `v` that are at most `x` come first.
proof fn lemma_count_le_split(v: Seq<usize>, x: int)
    requires
        strictly_increasing(v),
    ensures
        0 <= count_le(v, x) <= v.len(),
        forall|i: int| 0 <= i < count_le(v, x) ==> v[i] <= x,
        forall|i: int| count_le(v, x) <= i < v.len() ==> v[i] > x,
    decreases v.len(),
{
    if v.len() > 0 {
        let d = v.drop_last();
        assert(strictly_increasing(d));
        lemma_count_le_split(d, x);
        if v.last() <= x {
            if count_le(d, x) < d.len() {
                assert(d[count_le(d, x)] > x);
                assert(d[count_le(d, x)] < v.last());
            }
        }
        assert forall|i: int| 0 <= i < count_le(v, x) implies v[i] <= x by {
            if i < d.len() {
                assert(v[i] == d[i]);
            }
        }
        assert forall|i: int| count_le(v, x) <= i < v.len() implies v[i] > x by {
            if i < d.len() {
                assert(v[i] == d[i]);
            }
        }
    }
}

/// On ASCII text, a character offset and the same byte offset have the same
/// line and column: `offset2srcloc` and `boffset2srcloc` agree.
pub proof fn lemma_ascii_srcloc(src: Seq<char>, offset: int)
    requires
        is_ascii_text(src),
        0 <= offset <= src.len(),
        src.len() <= usize::MAX,
    ensures
        char_srcloc(src, offset) == byte_srcloc(src, offset),
{
    lemma_ascii_line_starts(src);
    lemma_ascii_bytes(src);
    let starts = line_starts(src, '\n');
    lemma_line_starts(src, '\n');
    lemma_count_le_split(starts, offset);
    let ln = count_le(starts, offset);
    assert(starts[0] <= offset);
    assert(ln >= 1);
    let a = starts[ln - 1] as int;
    assert(a <= offset);
    let b = bytes_of(src);
    let part = src.subrange(a, offset);
    assert forall|i: int| 0 <= i < part.len() implies (#[trigger] part[i] as u32) <= 0x7f by {
        assert(part[i] == src[a + i]);
    }
    lemma_ascii_bytes(part);
    assert(b.subrange(a, offset) =~= bytes_of(part)) by {
        assert forall|i: int| 0 <= i < offset - a implies b.subrange(a, offset)[i] == bytes_of(part)[i] by {
            assert(part[i] == src[a + i]);
        }
    }
    assert(chars_between(src, a, offset) == part);
}

/// A line and column, both counted from 1.
#[derive(Clone, Copy, PartialEq, Eq, Structural, PartialOrd, Ord, Debug)]
pub struct SrcLoc {
    pub ln: usize,
    pub col: usize,
}

impl SrcLoc {
    /// The location `(ln, col)`.
    pub fn new(loc_tuple: (usize, usize)) -> (r: SrcLoc)
        ensures
            r.ln == loc_tuple.0,
            r.col == loc_tuple.1,
    {
        SrcLoc { ln: loc_tuple.0, col: loc_tuple.1 }
    }

    /// How two locations are ordered: by line, then by column.
    pub fn cmp(&self, other: &SrcLoc) -> (r: std::cmp::Ordering)
        ensures
            r == std::cmp::Ordering::Less <==> self.ln < other.ln || (self.ln == other.ln && self.col < other.col),
            r == std::cmp::Ordering::Equal <==> self.ln == other.ln && self.col == other.col,
            r == std::cmp::Ordering::Greater <==> self.ln > other.ln || (self.ln == other.ln && self.col > other.col),
    {
        if self.ln == other.ln {
            if self.col < other.col {
                std::cmp::Ordering::Less
            } else if self.col == other.col {
                std::cmp::Ordering::Equal
            } else {
                std::cmp::Ordering::Greater
            }
        } else if self.ln < other.ln {
            std::cmp::Ordering::Less
        } else {
            std::cmp::Ordering::Greater
        }
    }

    /// The location as it displays: `(ln, col)`.
    pub fn display(&self) -> (r: String)
        ensures
            r@ == "("@ + decimal(self.ln as nat) + ", "@ + decimal(self.col as nat) + ")"@,
    {
        let mut s = String::new();
        s.append("(");
        push_decimal(&mut s, self.ln);
        s.append(", ");
        push_decimal(&mut s, self.col);
        s.append(")");
        proof {
            assert(s@ =~= "("@ + decimal(self.ln as nat) + ", "@ + decimal(self.col as nat) + ")"@);
        }
        s
    }
}

/// A range of byte offsets into a source text, from `from` up to `end`.
#[derive(Clone, Copy, PartialEq, Eq, Structural, PartialOrd, Ord, Hash, Debug)]
pub struct Span {
    pub from: usize,
    pub end: usize,
}

impl Default for Span {
    fn default() -> (r: Span)
        ensures
            r.from == 0,
            r.end == 0,
    {
        Span { from: 0, end: 0 }
    }
}

impl Span {
    /// The number of bytes in the span.
    pub fn len(&self) -> (r: usize)
        requires
            self.from <= self.end,
        ensures
            r == self.end - self.from,
    {
        self.end - self.from
    }

    /// The number of characters of `source` in the span.
    pub fn chars_count(&self, source: &str) -> (r: usize)
        requires
            self.from <= self.end,
            is_boundary(source@, self.from as int),
            is_boundary(source@, self.end as int),
        ensures
            r == chars_between(source@, self.from as int, self.end as int).len(),
    {
        substr(source, self.from, self.end).unicode_len()
    }
}

/// A source text with its path and the offsets at which its lines start,
/// counted in characters and in bytes.
#[derive(Debug)]
pub struct SrcFileInfo {
    path: String,
    lines: Vec<usize>,
    blines: Vec<usize>,
    srcstr: String,
}

impl Clone for SrcFileInfo {
    fn clone(&self) -> (r: SrcFileInfo)
        ensures
            r.src() == self.src(),
            r.path() == self.path(),
    {
        proof {
            use_type_invariant(self);
        }
        let lines = self.lines.clone();
        let blines = self.blines.clone();
        proof {
            assert(lines@ =~= self.lines@);
            assert(blines@ =~= self.blines@);
        }
        SrcFileInfo { path: self.path.clone(), lines, blines, srcstr: self.srcstr.clone() }
    }
}

/// The final component of the path `p` as `std::path::Path::file_name` gives
/// it, if any.
pub uninterp spec fn path_file_name(p: Seq<char>) -> Option<Seq<char>>;

/// The path `p` without its final component, as `std::path::Path::parent`
/// gives it, if any.
pub uninterp spec fn path_parent(p: Seq<char>) -> Option<Seq<char>>;

/// `std::path::Path::file_name` of the path `p`, a function of `p` alone,
/// converted back to a string (lossless: it is part of a `str`).
#[verifier::external_body]
fn std_path_file_name(p: &str) -> (r: Option<String>)
    ensures
        r is Some <==> path_file_name(p@) is Some,
        r is Some ==> r->0@ == path_file_name(p@)->0,
{
    std::path::Path::new(p).file_name().map(|s| s.to_string_lossy().to_string())
}

/// `std::path::Path::parent` of the path `p`, a function of `p` alone,
/// converted back to a string (lossless: it is part of a `str`).
#[verifier::external_body]
fn std_path_parent(p: &str) -> (r: Option<String>)
    ensures
        r is Some <==> path_parent(p@) is Some,
        r is Some ==> r->0@ == path_parent(p@)->0,
{
    std::path::Path::new(p).parent().map(|s| s.to_string_lossy().to_string())
}

/// The byte offset at which line `ln` (counted from 1) of a text of `total`
/// bytes ends: the start of the next line, or the end of the text.
pub open spec fn line_end(starts: Seq<usize>, ln: int, total: int) -> int {
    if ln >= starts.len() {
        total
    } else {
        starts[ln] as int
    }
}

/// The 1-based line of the character offset `offset` of `src`, and its 1-based column.
pub open spec fn char_srcloc(src: Seq<char>, offset: int) -> (int, int) {
    let starts = line_starts(src, '\n');
    let ln = count_le(starts, offset);
    (ln, offset - starts[ln - 1] + 1)
}

/// The 1-based line of the byte offset `offset` of `src`, and its 1-based
/// column counted in characters.
pub open spec fn byte_srcloc(src: Seq<char>, offset: int) -> (int, int) {
    let starts = line_starts(bytes_of(src), 10u8);
    let ln = count_le(starts, offset);
    (ln, chars_between(src, starts[ln - 1] as int, offset).len() + 1int)
}

impl SrcFileInfo {
    #[verifier::type_invariant]
    spec fn inv(self) -> bool {
        &&& self.lines@ == line_starts(self.srcstr@, '\n')
        &&& self.blines@ == line_starts(bytes_of(self.srcstr@), 10u8)
        &&& bytes_of(self.srcstr@).len() <= usize::MAX
    }

    /// The source text.
    pub closed spec fn src(&self) -> Seq<char> {
        self.srcstr@
    }

    /// The path of the source file.
    pub closed spec fn path(&self) -> Seq<char> {
        self.path@
    }

    /// A source file with no path.
    pub fn from_str(srcstr: String) -> (r: SrcFileInfo)
        ensures
            r.src() == srcstr@,
            r.path() == Seq::<char>::empty(),
    {
        SrcFileInfo::with_path(String::new(), srcstr)
    }

    /// A source file read from `path`, whose text is `srcstr`.
    pub fn with_path(path: String, srcstr: String) -> (r: SrcFileInfo)
        ensures
            r.src() == srcstr@,
            r.path() == path@,
    {
        let lines = Self::build_lines(srcstr.as_str());
        let blines = Self::build_blines(srcstr.as_str());
        SrcFileInfo { path, lines, blines, srcstr }
    }

    fn build_lines(srcstr: &str) -> (r: Vec<usize>)
        ensures
            r@ == line_starts(srcstr@, '\n'),
            bytes_of(srcstr@).len() <= usize::MAX,
    {
        let bytes = srcstr.as_bytes();
        let _n = bytes.len();
        proof {
            lemma_bytes_len_ge(srcstr@);
        }
        let mut lines: Vec<usize> = Vec::new();
        lines.push(0);
        let mut total: usize = 0;
        for c in it: srcstr.chars()
            invariant
                total == it.index(),
                it.seq() == srcstr@,
                srcstr@.len() <= usize::MAX,
                lines@ == line_starts(srcstr@.take(total as int), '\n'),
        {
            let ghost prev = srcstr@.take(total as int);
            total += 1;
            proof {
                assert(srcstr@.take(total as int).drop_last() == prev);
            }
            if c == '\n' {
                lines.push(total);
            }
        }
        proof {
            assert(srcstr@.take(total as int) == srcstr@);
        }
        lines
    }

    fn build_blines(srcstr: &str) -> (r: Vec<usize>)
        ensures
            r@ == line_starts(bytes_of(srcstr@), 10u8),
    {
        let bytes = srcstr.as_bytes();
        let n = bytes.len();
        let mut lines: Vec<usize> = Vec::new();
        lines.push(0);
        let mut total: usize = 0;
        while total < n
            invariant
                total <= n,
                n == bytes@.len(),
                bytes@ == bytes_of(srcstr@),
                lines@ == line_starts(bytes@.take(total as int), 10u8),
            decreases n - total,
        {
            let c = bytes[total];
            let ghost prev = bytes@.take(total as int);
            total += 1;
            proof {
                assert(bytes@.take(total as int).drop_last() == prev);
            }
            if c == 10u8 {
                lines.push(total);
            }
        }
        proof {
            assert(bytes@.take(total as int) == bytes@);
        }
        lines
    }

    /// The source text.
    pub fn get_srcstr(&self) -> (r: &str)
        ensures
            r@ == self.src(),
    {
        self.srcstr.as_str()
    }

    /// The path of the source file.
    pub fn get_path(&self) -> (r: &str)
        ensures
            r@ == self.path(),
    {
        self.path.as_str()
    }

    /// The line and column of the character offset `offset`.
    pub fn offset2srcloc(&self, offset: usize) -> (r: SrcLoc)
        requires
            char_srcloc(self.src(), offset as int).1 <= usize::MAX,
        ensures
            r.ln == char_srcloc(self.src(), offset as int).0,
            r.col == char_srcloc(self.src(), offset as int).1,
            1 <= r.ln <= line_starts(self.src(), '\n').len(),
            r.col >= 1,
    {
        proof {
            use_type_invariant(self);
            lemma_bytes_len_ge(self.srcstr@);
            lemma_line_starts(self.srcstr@, '\n');
        }
        let idx = search_le(&self.lines, offset);
        SrcLoc { ln: idx, col: offset - self.lines[idx - 1] + 1 }
    }

    /// The line and column (counted in characters) of the byte offset `offset`.
    pub fn boffset2srcloc(&self, offset: usize) -> (r: SrcLoc)
        requires
            is_boundary(self.src(), offset as int),
            byte_srcloc(self.src(), offset as int).1 <= usize::MAX,
        ensures
            r.ln == byte_srcloc(self.src(), offset as int).0,
            r.col == byte_srcloc(self.src(), offset as int).1,
            1 <= r.ln <= line_starts(bytes_of(self.src()), 10u8).len(),
    {
        proof {
            use_type_invariant(self);
            lemma_line_starts(bytes_of(self.srcstr@), 10u8);
        }
        let idx = search_le(&self.blines, offset);
        let start = self.blines[idx - 1];
        proof {
            let b = bytes_of(self.srcstr@);
            if idx - 1 >= 1 {
                lemma_boundary_after_ascii(b, start - 1);
            }
        }
        let src = self.srcstr.as_str();
        let n = substr(src, start, offset).unicode_len();
        SrcLoc { ln: idx, col: n + 1 }
    }

    /// The line that holds the byte offset `cur`, with its line break.
    pub fn linestr(&self, cur: usize) -> (r: Option<&str>)
        requires
            is_boundary(self.src(), cur as int),
        ensures
            r is Some,
            ({
                let starts = line_starts(bytes_of(self.src()), 10u8);
                let ln = byte_srcloc(self.src(), cur as int).0;
                r->0@ == chars_between(
                    self.src(),
                    starts[ln - 1] as int,
                    line_end(starts, ln, bytes_of(self.src()).len() as int),
                )
            }),
    {
        proof {
            use_type_invariant(self);
            lemma_line_starts(bytes_of(self.srcstr@), 10u8);
        }
        let ln = search_le(&self.blines, cur);
        if ln == 0 || ln - 1 >= self.blines.len() {
            None
        } else {
            let start = self.blines[ln - 1];
            let src = self.srcstr.as_str();
            let ghost b = bytes_of(self.srcstr@);
            proof {
                if ln - 1 >= 1 {
                    lemma_boundary_after_ascii(b, start - 1);
                }
                is_char_boundary_start_end_of_seq(b);
            }
            if ln == self.blines.len() {
                Some(substr(src, start, src.len()))
            } else {
                let end = self.blines[ln];
                proof {
                    lemma_boundary_after_ascii(b, end - 1);
                }
                Some(substr(src, start, end))
            }
        }
    }

    /// The final component of the path; the path must have one.
    pub fn filename(&self) -> (r: String)
        requires
            path_file_name(self.path()) is Some,
        ensures
            r@ == path_file_name(self.path())->0,
    {
        match std_path_file_name(self.path.as_str()) {
            Some(s) => s,
            None => {
                proof { assert(false); }
                String::new()
            }
        }
    }

    /// The final component of the path, or `None` when it has none.
    pub fn try_filename(&self) -> (r: Option<String>)
        ensures
            r is Some <==> path_file_name(self.path()) is Some,
            r is Some ==> r->0@ == path_file_name(self.path())->0,
    {
        if std_path_file_name(self.path.as_str()).is_some() {
            Some(self.filename())
        } else {
            None
        }
    }

    /// The path without its final component; the path must have a parent.
    pub fn dirname(&self) -> (r: String)
        requires
            path_parent(self.path()) is Some,
        ensures
            r@ == path_parent(self.path())->0,
    {
        match std_path_parent(self.path.as_str()) {
            Some(s) => s,
            None => {
                proof { assert(false); }
                String::new()
            }
        }
    }

    /// The path without its final component, or `None` when it has no parent.
    pub fn try_dirname(&self) -> (r: Option<String>)
        ensures
            r is Some <==> path_parent(self.path()) is Some,
            r is Some ==> r->0@ == path_parent(self.path())->0,
    {
        if std_path_parent(self.path.as_str()).is_some() {
            Some(self.dirname())
        } else {
            None
        }
    }
}

} // verus!
