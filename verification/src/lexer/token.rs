//! Tokens: a name and a value, both interned, and the byte span they cover.
use super::interner::{str2sym, sym2str, Interner, Symbol};
use super::srcfile::Span;
use super::text::{bytes_of, chars_between, decimal, is_boundary, push_decimal, str_eq};
use vstd::prelude::*;
use vstd::string::StrSliceExecFns;
use vstd::string::StringSliceAdditionalSpecFns;

verus! {

/// A token: its kind (`name`), its text (`value`) and the bytes it covers.
#[derive(Clone, Copy, PartialEq, Eq, Structural, Debug)]
pub struct Token {
    pub name: Symbol,
    pub value: Symbol,
    pub span: Span,
}

/// Whether `x` is one of the strings of `targets`.
pub open spec fn in_strs(targets: Seq<&str>, x: Seq<char>) -> bool {
    exists|i: int| 0 <= i < targets.len() && targets[i]@ == x
}

impl Token {
    /// Both symbols of the token are held by an interner with contents `strs`.
    pub open spec fn valid_in(self, strs: Seq<Seq<char>>) -> bool {
        &&& self.name.0 < strs.len()
        &&& self.value.0 < strs.len()
    }

    /// The token's name among the interned strings `strs`.
    pub open spec fn name_in(self, strs: Seq<Seq<char>>) -> Seq<char> {
        strs[self.name.0 as int]
    }

    /// The token's value among the interned strings `strs`.
    pub open spec fn value_in(self, strs: Seq<Seq<char>>) -> Seq<char> {
        strs[self.value.0 as int]
    }

    /// The end-of-input token: name `eof`, empty value, empty span at 0.
    pub fn eof(interner: &mut Interner) -> (r: Token)
        requires
            old(interner).wf(),
            old(interner)@.len() + 2 <= u32::MAX,
        ensures
            final(interner).wf(),
            old(interner)@.is_prefix_of(final(interner)@),
            r.valid_in(final(interner)@),
            r.name_in(final(interner)@) == "eof"@,
            r.value_in(final(interner)@) == ""@,
            r.span.from == 0 && r.span.end == 0,
    {
        let ghost s0 = interner@;
        let name = str2sym(interner, "eof");
        let ghost s1 = interner@;
        let value = str2sym(interner, "");
        proof {
            assert(s0.is_prefix_of(s1));
            assert(s1.is_prefix_of(interner@));
        }
        Token { name, value, span: Span::default() }
    }

    /// The token's name.
    pub fn name_string(&self, interner: &Interner) -> (r: String)
        requires
            interner.wf(),
            self.valid_in(interner@),
        ensures
            r@ == self.name_in(interner@),
    {
        sym2str(interner, self.name)
    }

    /// The token's value.
    pub fn value_string(&self, interner: &Interner) -> (r: String)
        requires
            interner.wf(),
            self.valid_in(interner@),
        ensures
            r@ == self.value_in(interner@),
    {
        sym2str(interner, self.value)
    }

    /// The token as it displays: its name in angle brackets, its value and
    /// the number of characters of its value, one per line.
    pub fn display(&self, interner: &Interner) -> (r: String)
        requires
            interner.wf(),
            self.valid_in(interner@),
        ensures
            r@ == "name: <"@ + self.name_in(interner@) + ">\nvalue: "@ + self.value_in(interner@) + "\nlen: "@
                + decimal(self.value_in(interner@).len()) + "\n"@,
    {
        let mut s = String::new();
        s.append("name: <");
        let n = self.name_string(interner);
        s.append(n.as_str());
        s.append(">\nvalue: ");
        let v = self.value_string(interner);
        s.append(v.as_str());
        s.append("\nlen: ");
        push_decimal(&mut s, self.chars_len(interner));
        s.append("\n");
        proof {
            assert(s@ =~= "name: <"@ + self.name_in(interner@) + ">\nvalue: "@ + self.value_in(interner@) + "\nlen: "@
                + decimal(self.value_in(interner@).len()) + "\n"@);
        }
        s
    }

    /// The number of characters of the token's value.
    pub fn chars_len(&self, interner: &Interner) -> (r: usize)
        requires
            interner.wf(),
            self.valid_in(interner@),
        ensures
            r == self.value_in(interner@).len(),
    {
        let v = sym2str(interner, self.value);
        v.as_str().unicode_len()
    }

    /// The bytes the token covers.
    pub fn span(&self) -> (r: Span)
        ensures
            r == self.span,
    {
        self.span
    }

    /// The number of bytes of the token's value.
    pub fn span_len(&self, interner: &Interner) -> (r: usize)
        requires
            interner.wf(),
            self.valid_in(interner@),
        ensures
            r == bytes_of(self.value_in(interner@)).len(),
    {
        let v = sym2str(interner, self.value);
        let vs = v.as_str();
        let b = vs.as_bytes();
        proof {
            assert(vs.spec_bytes() == bytes_of(vs@));
        }
        b.len()
    }

    /// The number of characters of `source` the token covers.
    pub fn span_chars_count(&self, source: &str) -> (r: usize)
        requires
            self.span.from <= self.span.end,
            is_boundary(source@, self.span.from as int),
            is_boundary(source@, self.span.end as int),
        ensures
            r == chars_between(source@, self.span.from as int, self.span.end as int).len(),
    {
        self.span().chars_count(source)
    }

    /// The same token under the name `name`.
    pub fn rename(self, interner: &mut Interner, name: &str) -> (r: Token)
        requires
            old(interner).wf(),
            old(interner).can_intern(name@),
        ensures
            final(interner).wf(),
            old(interner)@.is_prefix_of(final(interner)@),
            final(interner)@.len() <= old(interner)@.len() + 1,
            r.name.0 < final(interner)@.len(),
            r.name_in(final(interner)@) == name@,
            r.value == self.value,
            r.span == self.span,
    {
        let ghost s0 = interner@;
        let name = str2sym(interner, name);
        proof {
            assert(s0.is_prefix_of(interner@));
        }
        Token { name, value: self.value, span: self.span }
    }

    /// The same token with the value `val`.
    pub fn mapval(self, interner: &mut Interner, val: &str) -> (r: Token)
        requires
            old(interner).wf(),
            old(interner).can_intern(val@),
        ensures
            final(interner).wf(),
            old(interner)@.is_prefix_of(final(interner)@),
            final(interner)@.len() <= old(interner)@.len() + 1,
            r.value.0 < final(interner)@.len(),
            r.value_in(final(interner)@) == val@,
            r.name == self.name,
            r.span == self.span,
    {
        let ghost s0 = interner@;
        let value = str2sym(interner, val);
        proof {
            assert(s0.is_prefix_of(interner@));
        }
        Token { name: self.name, value, span: self.span }
    }

    /// Whether the token's value is `value`.
    pub fn check_value(&self, interner: &Interner, value: &str) -> (r: bool)
        requires
            interner.wf(),
            self.valid_in(interner@),
        ensures
            r == (self.value_in(interner@) == value@),
    {
        let v = sym2str(interner, self.value);
        str_eq(v.as_str(), value)
    }

    /// Whether the token's name is `name`.
    pub fn check_name(&self, interner: &Interner, name: &str) -> (r: bool)
        requires
            interner.wf(),
            self.valid_in(interner@),
        ensures
            r == (self.name_in(interner@) == name@),
    {
        let v = sym2str(interner, self.name);
        str_eq(v.as_str(), name)
    }

    /// Whether the token's name is one of `targets`.
    pub fn check_names_in(&self, interner: &Interner, targets: &[&str]) -> (r: bool)
        requires
            interner.wf(),
            self.valid_in(interner@),
        ensures
            r == in_strs(targets@, self.name_in(interner@)),
    {
        let name = sym2str(interner, self.name);
        find_str(targets, name.as_str())
    }

    /// Whether the token's value is one of `targets`.
    pub fn check_values_in(&self, interner: &Interner, targets: &[&str]) -> (r: bool)
        requires
            interner.wf(),
            self.valid_in(interner@),
        ensures
            r == in_strs(targets@, self.value_in(interner@)),
    {
        let value = sym2str(interner, self.value);
        find_str(targets, value.as_str())
    }

    /// The token renamed to the first of `values` that equals its value, or the
    /// token unchanged when none does.
    pub fn rename_by_value(self, interner: &mut Interner, values: &[&str]) -> (r: Token)
        requires
            old(interner).wf(),
            self.valid_in(old(interner)@),
            old(interner)@.len() < u32::MAX,
        ensures
            final(interner).wf(),
            old(interner)@.is_prefix_of(final(interner)@),
            r.valid_in(final(interner)@),
            r.value == self.value,
            r.span == self.span,
            in_strs(values@, self.value_in(old(interner)@)) ==> r.name_in(final(interner)@)
                == self.value_in(old(interner)@),
            !in_strs(values@, self.value_in(old(interner)@)) ==> r == self && final(interner)@
                == old(interner)@,
    {
        let mut i: usize = 0;
        while i < values.len()
            invariant
                interner.wf(),
                interner@ == old(interner)@,
                self.valid_in(interner@),
                interner@.len() < u32::MAX,
                i <= values@.len(),
                forall|j: int| 0 <= j < i ==> values@[j]@ != self.value_in(interner@),
            decreases values@.len() - i,
        {
            if self.check_value(interner, values[i]) {
                let ghost s0 = interner@;
                let r = self.rename(interner, values[i]);
                proof {
                    assert(r.name_in(interner@) == values@[i as int]@);
                    assert(s0.is_prefix_of(interner@));
                    assert(r.value.0 < s0.len());
                }
                return r;
            }
            i += 1;
        }
        proof {
            assert(interner@.is_prefix_of(interner@));
        }
        self
    }
}

/// Whether `x` is one of `targets`.
pub fn find_str(targets: &[&str], x: &str) -> (r: bool)
    ensures
        r == in_strs(targets@, x@),
{
    let mut i: usize = 0;
    while i < targets.len()
        invariant
            i <= targets@.len(),
            forall|j: int| 0 <= j < i ==> targets@[j]@ != x@,
        decreases targets@.len() - i,
    {
        if str_eq(targets[i], x) {
            return true;
        }
        i += 1;
    }
    false
}

} // verus!
