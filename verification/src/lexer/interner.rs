use string_interner::backend::StringBackend;
use string_interner::symbol::{Symbol as _, SymbolU32};
use string_interner::StringInterner;
use vstd::prelude::*;

verus! {

/// The interner of token names and values: a `string_interner::StringInterner`
/// with its string backend and 32-bit symbols, held opaquely. Its contents are
/// `interned_strings`, the name that the functions below speak of.
#[verifier::external_body]
pub struct Interner {
    inner: StringInterner<StringBackend<SymbolU32>>,
}

/// The strings held by an interner, in the order in which they were first
/// interned; the symbol of a string is its index in this sequence.
pub uninterp spec fn interned_strings(i: Interner) -> Seq<Seq<char>>;

impl View for Interner {
    type V = Seq<Seq<char>>;

    open spec fn view(&self) -> Seq<Seq<char>> {
        interned_strings(*self)
    }
}

/// No string occurs twice in `strs`.
pub open spec fn no_duplicates(strs: Seq<Seq<char>>) -> bool {
    forall|a: int, b: int| 0 <= a < strs.len() && 0 <= b < strs.len() && a != b ==> strs[a] != strs[b]
}

/// `StringInterner::new`: an interner that holds no string.
#[verifier::external_body]
fn interner_new() -> (r: Interner)
    ensures
        interned_strings(r) == Seq::<Seq<char>>::empty(),
{
    Interner { inner: StringInterner::new() }
}

/// `StringInterner::get_or_intern` with the symbol as its index
/// (`Symbol::to_usize`).
///
/// A string already held is found by its contents (the deduplicating hash map
/// compares the strings) and its index is returned, with the interner
/// unchanged; a new string is appended and gets the next index.
/// The index of a new string must fit a `SymbolU32`, else the call panics.
#[verifier::external_body]
fn interner_get_or_intern(i: &mut Interner, s: &str) -> (sym: usize)
    requires
        old(i)@.contains(s@) || old(i)@.len() < u32::MAX,
    ensures
        interned_strings(*old(i)).contains(s@) ==> interned_strings(*final(i)) == interned_strings(*old(i))
            && sym < interned_strings(*old(i)).len() && interned_strings(*old(i))[sym as int] == s@,
        !interned_strings(*old(i)).contains(s@) ==> interned_strings(*final(i)) == interned_strings(*old(i)).push(s@)
            && sym == interned_strings(*old(i)).len(),
{
    i.inner.get_or_intern(s).to_usize()
}

/// `StringInterner::resolve` of the symbol with index `sym`
/// (`Symbol::try_from_usize`, exact below `u32::MAX`): the string at that index,
/// or `None` past the end.
#[verifier::external_body]
fn interner_resolve(i: &Interner, sym: usize) -> (r: Option<String>)
    requires
        sym < u32::MAX,
    ensures
        sym < interned_strings(*i).len() ==> r is Some && r->0@ == interned_strings(*i)[sym as int],
        sym >= interned_strings(*i).len() ==> r is None,
{
    SymbolU32::try_from_usize(sym).and_then(|s| i.inner.resolve(s)).map(|s| s.to_owned())
}

/// `StringInterner::get`: the index of `s` (`Symbol::to_usize`) when it is
/// held, looked up by its contents; `None` when it is not.
#[verifier::external_body]
fn interner_get(i: &Interner, s: &str) -> (r: Option<usize>)
    ensures
        r is Some <==> interned_strings(*i).contains(s@),
        r matches Some(k) ==> k < interned_strings(*i).len() && interned_strings(*i)[k as int] == s@,
{
    i.inner.get(s).map(|sym| sym.to_usize())
}

/// `StringInterner::len`: the number of strings held (the size of its
/// deduplicating map, one entry per interned string).
#[verifier::external_body]
fn interner_len(i: &Interner) -> (r: usize)
    ensures
        r == interned_strings(*i).len(),
{
    i.inner.len()
}

/// Being a prefix is transitive.
pub proof fn lemma_prefix_trans(a: Seq<Seq<char>>, b: Seq<Seq<char>>, c: Seq<Seq<char>>)
    requires
        a.is_prefix_of(b),
        b.is_prefix_of(c),
    ensures
        a.is_prefix_of(c),
{
    assert forall|k: int| 0 <= k < a.len() implies a[k] == c[k] by {
        assert(a[k] == b.subrange(0, a.len() as int)[k]);
        assert(b[k] == c.subrange(0, b.len() as int)[k]);
    }
    assert(a =~= c.subrange(0, a.len() as int));
}

/// A sequence is a prefix of itself.
pub proof fn lemma_prefix_refl(a: Seq<Seq<char>>)
    ensures
        a.is_prefix_of(a),
{
    assert(a =~= a.subrange(0, a.len() as int));
}

/// An interned string, given by its index in the interner.
#[derive(Clone, Copy, PartialEq, Eq, Structural, PartialOrd, Ord, Hash, Debug)]
pub struct Symbol(pub usize);

impl Interner {
    /// An interner is well formed when it holds no string twice and its size
    /// fits the symbol type.
    pub open spec fn wf(&self) -> bool {
        &&& no_duplicates(self@)
        &&& self@.len() <= u32::MAX
    }

    /// Whether interning `s` stays within the symbol type.
    pub open spec fn can_intern(&self, s: Seq<char>) -> bool {
        self@.contains(s) || self@.len() < u32::MAX
    }

    /// `sym` names a string held by this interner.
    pub open spec fn holds(&self, sym: Symbol) -> bool {
        sym.0 < self@.len()
    }

    /// The string that `sym` names.
    pub open spec fn str_of(&self, sym: Symbol) -> Seq<char> {
        self@[sym.0 as int]
    }

    /// The number of strings held.
    pub fn len(&self) -> (r: usize)
        ensures
            r == self@.len(),
    {
        interner_len(self)
    }

    /// An empty interner.
    pub fn new() -> (r: Interner)
        ensures
            r@ == Seq::<Seq<char>>::empty(),
            r.wf(),
    {
        interner_new()
    }
}

/// The strings held after interning `s` into `strs`: `s` is added at the end
/// when it was not held yet.
pub open spec fn intern_strs(strs: Seq<Seq<char>>, s: Seq<char>) -> Seq<Seq<char>> {
    if strs.contains(s) {
        strs
    } else {
        strs.push(s)
    }
}

/// The symbol that `s` gets when interned into `strs`.
pub open spec fn intern_sym(strs: Seq<Seq<char>>, s: Seq<char>) -> Symbol {
    if strs.contains(s) {
        Symbol(strs.index_of(s) as usize)
    } else {
        Symbol(strs.len() as usize)
    }
}

/// Interns `s`: the symbol of `s`, added at the end when it was not held yet.
pub fn str2sym(interner: &mut Interner, s: &str) -> (sym: Symbol)
    requires
        old(interner).wf(),
        old(interner).can_intern(s@),
    ensures
        final(interner).wf(),
        final(interner).holds(sym),
        final(interner).str_of(sym) == s@,
        old(interner)@.contains(s@) ==> final(interner)@ == old(interner)@,
        !old(interner)@.contains(s@) ==> final(interner)@ == old(interner)@.push(s@),
        final(interner)@ == intern_strs(old(interner)@, s@),
        sym == intern_sym(old(interner)@, s@),
{
    let ghost before = interner@;
    let idx = interner_get_or_intern(interner, s);
    proof {
        if before.contains(s@) {
            let j = before.index_of(s@);
            assert(before[j] == s@);
            assert(before[idx as int] == s@);
        }
        if !before.contains(s@) {
            let after = interner@;
            assert forall|a: int, b: int| 0 <= a < after.len() && 0 <= b < after.len() && a != b
                implies after[a] != after[b] by {
                if a == before.len() as int {
                    if after[a] == after[b] {
                        assert(before[b] == s@);
                    }
                } else if b == before.len() as int {
                    if after[a] == after[b] {
                        assert(before[a] == s@);
                    }
                }
            }
        }
    }
    Symbol(idx)
}

/// Interning keeps what was held in front.
proof fn lemma_intern_prefix(strs: Seq<Seq<char>>, s: Seq<char>)
    ensures
        strs.is_prefix_of(intern_strs(strs, s)),
        intern_strs(strs, s).len() <= strs.len() + 1,
{
    lemma_prefix_refl(strs);
    if !strs.contains(s) {
        assert(strs.push(s).subrange(0, strs.len() as int) =~= strs);
    }
}

/// The interner holds as many strings as its symbols can number: a new
/// string cannot be interned.
pub open spec fn full(strs: Seq<Seq<char>>) -> bool {
    strs.len() >= u32::MAX
}

/// Interns `s` where the interner has room for it: as `str2sym`, or `None`,
/// the interner unchanged, when `s` is new and the interner holds as many
/// strings as its symbols can number.
pub fn try_str2sym(interner: &mut Interner, s: &str) -> (r: Option<Symbol>)
    requires
        old(interner).wf(),
    ensures
        final(interner).wf(),
        r is None <==> !old(interner).can_intern(s@),
        r is None ==> final(interner)@ == old(interner)@,
        r matches Some(sym) ==> final(interner).holds(sym) && final(interner).str_of(sym) == s@
            && final(interner)@ == intern_strs(old(interner)@, s@) && sym == intern_sym(old(interner)@, s@),
        old(interner)@.is_prefix_of(final(interner)@),
        final(interner)@.len() <= old(interner)@.len() + 1,
{
    if interner.len() < u32::MAX as usize {
        let ghost before = interner@;
        let sym = str2sym(interner, s);
        proof {
            lemma_intern_prefix(before, s@);
        }
        Some(sym)
    } else {
        match interner_get(interner, s) {
            Some(_) => {
                let ghost before = interner@;
                let sym = str2sym(interner, s);
                proof {
                    lemma_intern_prefix(before, s@);
                }
                Some(sym)
            },
            None => {
                proof {
                    lemma_prefix_refl(interner@);
                }
                None
            },
        }
    }
}

/// The string that `sym` names.
pub fn sym2str(interner: &Interner, sym: Symbol) -> (r: String)
    requires
        interner.wf(),
        interner.holds(sym),
    ensures
        r@ == interner.str_of(sym),
{
    match interner_resolve(interner, sym.0) {
        Some(s) => s,
        None => {
            proof { assert(false); }
            String::new()
        }
    }
}


/// Two symbols held by a well-formed interner are equal exactly when the
/// strings they name are equal: comparing symbols compares strings.
pub proof fn lemma_symbol_eq_iff_str_eq(interner: Interner, a: Symbol, b: Symbol)
    requires
        interner.wf(),
        interner.holds(a),
        interner.holds(b),
    ensures
        (a == b) <==> (interner.str_of(a) == interner.str_of(b)),
{
}


/// Interning a string and then resolving its symbol gives the string back.
pub proof fn lemma_intern_resolve(strs: Seq<Seq<char>>, s: Seq<char>)
    requires
        no_duplicates(strs),
        strs.len() <= u32::MAX,
    ensures
        0 <= intern_sym(strs, s).0 < intern_strs(strs, s).len(),
        intern_strs(strs, s)[intern_sym(strs, s).0 as int] == s,
        strs.is_prefix_of(intern_strs(strs, s)),
{
    if strs.contains(s) {
        let j = strs.index_of(s);
        assert(strs[j] == s);
    }
    assert(strs.is_prefix_of(intern_strs(strs, s)));
}

/// Interning a string twice gives the same symbol and holds it once.
pub proof fn lemma_intern_idempotent(strs: Seq<Seq<char>>, s: Seq<char>)
    requires
        no_duplicates(strs),
        strs.len() <= u32::MAX,
    ensures
        intern_strs(intern_strs(strs, s), s) == intern_strs(strs, s),
        intern_sym(intern_strs(strs, s), s) == intern_sym(strs, s),
{
    let t = intern_strs(strs, s);
    if strs.contains(s) {
        let j = strs.index_of(s);
        assert(strs[j] == s);
    } else {
        assert(t[strs.len() as int] == s);
        assert(t.contains(s));
        let k = t.index_of(s);
        assert(t[k] == s);
        if k < strs.len() {
            assert(strs[k] == s);
        }
    }
}

} // verus!
