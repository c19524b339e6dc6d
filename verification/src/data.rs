//! Token trees: the syntax trees that a parser builds and that a BNF grammar validates.
use crate::lexer::interner::Interner;
use crate::lexer::srcfile::Span;
use crate::lexer::token::Token;
use vstd::prelude::*;

verus! {

/// A node of a token tree: a subtree, or a token.
#[derive(Debug)]
pub enum SyntaxNode<T> {
    T(TokenTree<T>),
    E(Token),
}

/// A token tree: its children, each labelled with its syntax kind.
#[derive(Debug)]
pub struct TokenTree<T> {
    pub subs: Vec<(T, SyntaxNode<T>)>,
}

impl<T> SyntaxNode<T> {
    /// The first token in the node, if any.
    pub open spec fn first_tok(self) -> Option<Token>
        decreases self,
    {
        match self {
            SyntaxNode::E(t) => Some(t),
            SyntaxNode::T(tt) => first_tok_in(tt.subs@),
        }
    }

    /// The last token in the node, if any.
    pub open spec fn last_tok(self) -> Option<Token>
        decreases self,
    {
        match self {
            SyntaxNode::E(t) => Some(t),
            SyntaxNode::T(tt) => last_tok_in(tt.subs@),
        }
    }
}

/// The first token in the children `subs`, if any.
pub open spec fn first_tok_in<T>(subs: Seq<(T, SyntaxNode<T>)>) -> Option<Token>
    decreases subs,
{
    if subs.len() == 0 {
        None
    } else {
        match subs[0].1.first_tok() {
            Some(t) => Some(t),
            None => first_tok_in(subs.drop_first()),
        }
    }
}

/// The last token in the children `subs`, if any.
pub open spec fn last_tok_in<T>(subs: Seq<(T, SyntaxNode<T>)>) -> Option<Token>
    decreases subs,
{
    if subs.len() == 0 {
        None
    } else {
        match subs.last().1.last_tok() {
            Some(t) => Some(t),
            None => last_tok_in(subs.drop_last()),
        }
    }
}

/// The span from the first token's start to the last token's end, or the
/// empty span at 0 when there is no token.
pub open spec fn span_of(first: Option<Token>, last: Option<Token>) -> Span {
    match (first, last) {
        (Some(f), Some(l)) => Span { from: f.span.from, end: l.span.end },
        _ => Span { from: 0, end: 0 },
    }
}

/// `first_tok_in` skips the children that hold no token.
proof fn lemma_first_tok_skip<T>(subs: Seq<(T, SyntaxNode<T>)>, i: int)
    requires
        0 <= i < subs.len(),
        forall|j: int| 0 <= j < i ==> (#[trigger] subs[j]).1.first_tok() is None,
    ensures
        first_tok_in(subs) == first_tok_in(subs.subrange(i, subs.len() as int)),
    decreases i,
{
    if i > 0 {
        let d = subs.drop_first();
        assert forall|j: int| 0 <= j < i - 1 implies (#[trigger] d[j]).1.first_tok() is None by {
            assert(d[j] == subs[j + 1]);
        }
        lemma_first_tok_skip(d, i - 1);
        assert(d.subrange(i - 1, d.len() as int) =~= subs.subrange(i, subs.len() as int));
        assert(subs[0].1.first_tok() is None);
    } else {
        assert(subs.subrange(0, subs.len() as int) =~= subs);
    }
}

/// `last_tok_in` skips the children at the end that hold no token.
proof fn lemma_last_tok_skip<T>(subs: Seq<(T, SyntaxNode<T>)>, i: int)
    requires
        0 <= i <= subs.len(),
        forall|j: int| i <= j < subs.len() ==> (#[trigger] subs[j]).1.last_tok() is None,
    ensures
        last_tok_in(subs) == last_tok_in(subs.subrange(0, i)),
    decreases subs.len() - i,
{
    if i < subs.len() {
        let d = subs.drop_last();
        assert forall|j: int| i <= j < d.len() implies (#[trigger] d[j]).1.last_tok() is None by {
            assert(d[j] == subs[j]);
        }
        lemma_last_tok_skip(d, i);
        assert(d.subrange(0, i) =~= subs.subrange(0, i));
    } else {
        assert(subs.subrange(0, i) =~= subs);
    }
}

impl<T> SyntaxNode<T> {
    /// The subtree of a tree node; the node must be a tree.
    pub fn as_tt(&self) -> (r: &TokenTree<T>)
        requires
            self is T,
        ensures
            *r == self->T_0,
    {
        match self {
            SyntaxNode::T(tt) => tt,
            SyntaxNode::E(_) => {
                proof {
                    assert(false);
                }
                vstd::pervasive::unreached()
            },
        }
    }

    /// The subtree of a tree node; the node must be a tree.
    pub fn into_tt(self) -> (r: TokenTree<T>)
        requires
            self is T,
        ensures
            r == self->T_0,
    {
        match self {
            SyntaxNode::T(tt) => tt,
            SyntaxNode::E(_) => {
                proof {
                    assert(false);
                }
                TokenTree { subs: Vec::new() }
            },
        }
    }

    /// The token of a token node; the node must be a token.
    pub fn as_tok(&self) -> (r: &Token)
        requires
            self is E,
        ensures
            *r == self->E_0,
    {
        match self {
            SyntaxNode::E(tok) => tok,
            SyntaxNode::T(_) => {
                proof {
                    assert(false);
                }
                vstd::pervasive::unreached()
            },
        }
    }

    /// The first token in the node, if any.
    pub fn tok_1st(&self) -> (r: Option<&Token>)
        ensures
            r matches Some(t) ==> self.first_tok() == Some(*t),
            r is None ==> self.first_tok() is None,
        decreases self,
    {
        match self {
            SyntaxNode::T(tt) => tt.tok_1st(),
            SyntaxNode::E(tok) => Some(tok),
        }
    }

    /// The last token in the node, if any.
    pub fn tok_last(&self) -> (r: Option<&Token>)
        ensures
            r matches Some(t) ==> self.last_tok() == Some(*t),
            r is None ==> self.last_tok() is None,
        decreases self,
    {
        match self {
            SyntaxNode::T(tt) => tt.tok_last(),
            SyntaxNode::E(tok) => Some(tok),
        }
    }

    /// The span of the node: that of its token, or from its first token to
    /// its last.
    pub fn span(&self) -> (r: Span)
        ensures
            r == (match self {
                SyntaxNode::E(t) => t.span,
                SyntaxNode::T(tt) => span_of(first_tok_in(tt.subs@), last_tok_in(tt.subs@)),
            }),
    {
        match self {
            SyntaxNode::T(tt) => tt.span(),
            SyntaxNode::E(tok) => tok.span,
        }
    }
}

impl<T> TokenTree<T> {
    /// A tree with the children `subs`.
    pub fn new(subs: Vec<(T, SyntaxNode<T>)>) -> (r: TokenTree<T>)
        ensures
            r.subs == subs,
    {
        TokenTree { subs }
    }

    /// The number of children.
    pub fn len(&self) -> (r: usize)
        ensures
            r == self.subs@.len(),
    {
        self.subs.len()
    }

    /// The child at position `i`, which must be below `len()`.
    pub fn index(&self, i: usize) -> (r: &(T, SyntaxNode<T>))
        requires
            i < self.subs@.len(),
        ensures
            *r == self.subs@[i as int],
    {
        &self.subs[i]
    }

    /// The child at position `i`, to change in place; `i` must be below
    /// `len()`.
    pub fn index_mut(&mut self, i: usize) -> (r: &mut (T, SyntaxNode<T>))
        requires
            i < old(self).subs@.len(),
        ensures
            *r == old(self).subs@[i as int],
            final(self).subs@ == old(self).subs@.update(i as int, *final(r)),
    {
        &mut self.subs[i]
    }

    /// The children, in order.
    pub fn iter(&self) -> (r: &[(T, SyntaxNode<T>)])
        ensures
            r@ == self.subs@,
    {
        self.subs.as_slice()
    }

    /// The first token in the tree, if any.
    pub fn tok_1st(&self) -> (r: Option<&Token>)
        ensures
            r matches Some(t) ==> first_tok_in(self.subs@) == Some(*t),
            r is None ==> first_tok_in(self.subs@) is None,
        decreases self,
    {
        let mut i: usize = 0;
        while i < self.subs.len()
            invariant
                i <= self.subs@.len(),
                forall|j: int| 0 <= j < i ==> (#[trigger] self.subs@[j]).1.first_tok() is None,
            decreases self.subs@.len() - i,
        {
            proof {
                assert(decreases_to!(self => self.subs));
                assert(decreases_to!(self.subs => self.subs@));
                assert(decreases_to!(self.subs@ => self.subs@[i as int]));
                assert(decreases_to!(self.subs@[i as int] => self.subs@[i as int].1));
            }
            if let Some(tok) = self.subs[i].1.tok_1st() {
                proof {
                    lemma_first_tok_skip(self.subs@, i as int);
                }
                return Some(tok);
            }
            i += 1;
        }
        proof {
            if self.subs@.len() > 0 {
                assert forall|k: int| 0 <= k <= self.subs@.len() implies #[trigger] first_tok_in(self.subs@.subrange(k, self.subs@.len() as int)) is None by {
                    lemma_first_tok_none_suffix(self.subs@, k);
                }
                assert(self.subs@.subrange(0, self.subs@.len() as int) =~= self.subs@);
            }
        }
        None
    }

    /// The last token in the tree, if any.
    pub fn tok_last(&self) -> (r: Option<&Token>)
        ensures
            r matches Some(t) ==> last_tok_in(self.subs@) == Some(*t),
            r is None ==> last_tok_in(self.subs@) is None,
        decreases self,
    {
        let mut i: usize = self.subs.len();
        while i > 0
            invariant
                i <= self.subs@.len(),
                forall|j: int| i <= j < self.subs@.len() ==> (#[trigger] self.subs@[j]).1.last_tok() is None,
            decreases i,
        {
            proof {
                assert(decreases_to!(self => self.subs));
                assert(decreases_to!(self.subs => self.subs@));
                assert(decreases_to!(self.subs@ => self.subs@[i - 1]));
                assert(decreases_to!(self.subs@[i - 1] => self.subs@[i - 1].1));
            }
            if let Some(tok) = self.subs[i - 1].1.tok_last() {
                proof {
                    lemma_last_tok_skip(self.subs@, i as int);
                    let pre = self.subs@.subrange(0, i as int);
                    assert(pre.last() == self.subs@[i - 1]);
                }
                return Some(tok);
            }
            i -= 1;
        }
        proof {
            lemma_last_tok_skip(self.subs@, 0);
            assert(self.subs@.subrange(0, 0) =~= Seq::<(T, SyntaxNode<T>)>::empty());
        }
        None
    }

    /// The span from the first token to the last, or the empty span at 0
    /// when the tree holds no token.
    pub fn span(&self) -> (r: Span)
        ensures
            r == span_of(first_tok_in(self.subs@), last_tok_in(self.subs@)),
    {
        match (self.tok_1st(), self.tok_last()) {
            (Some(f), Some(l)) => Span { from: f.span.from, end: l.span.end },
            _ => Span::default(),
        }
    }

    /// Takes out child `i`, leaving in its place the default kind and the
    /// end-of-input token.
    pub fn move_elem(&mut self, interner: &mut Interner, i: usize) -> (r: (T, SyntaxNode<T>))
        where
            T: Default,
        requires
            i < old(self).subs@.len(),
            old(interner).wf(),
            old(interner)@.len() + 2 <= u32::MAX,
        ensures
            r == old(self).subs@[i as int],
            final(self).subs@.len() == old(self).subs@.len(),
            forall|j: int| 0 <= j < old(self).subs@.len() && j != i ==> final(self).subs@[j] == old(self).subs@[j],
            final(self).subs@[i as int].1 matches SyntaxNode::E(t) && t.valid_in(final(interner)@) && t.name_in(
                final(interner)@,
            ) == "eof"@ && t.value_in(final(interner)@) == ""@,
            final(interner).wf(),
            old(interner)@.is_prefix_of(final(interner)@),
    {
        let eof = Token::eof(interner);
        let filler = (T::default(), SyntaxNode::E(eof));
        let mut v: Vec<(T, SyntaxNode<T>)> = Vec::new();
        std::mem::swap(&mut v, &mut self.subs);
        let mut out = filler;
        vec_swap_elem(&mut v, i, &mut out);
        self.subs = v;
        out
    }
}

/// A first-token search that finds nothing in a sequence finds nothing in
/// any of its suffixes.
proof fn lemma_first_tok_none_suffix<T>(subs: Seq<(T, SyntaxNode<T>)>, k: int)
    requires
        0 <= k <= subs.len(),
        forall|j: int| 0 <= j < subs.len() ==> (#[trigger] subs[j]).1.first_tok() is None,
    ensures
        first_tok_in(subs.subrange(k, subs.len() as int)) is None,
    decreases subs.len() - k,
{
    let s = subs.subrange(k, subs.len() as int);
    if k < subs.len() {
        lemma_first_tok_none_suffix(subs, k + 1);
        assert(s.drop_first() =~= subs.subrange(k + 1, subs.len() as int));
        assert(s[0] == subs[k]);
    }
}

/// Swaps element `i` of `v` with `x`.
fn vec_swap_elem<A>(v: &mut Vec<A>, i: usize, x: &mut A)
    requires
        i < old(v)@.len(),
    ensures
        final(v)@ == old(v)@.update(i as int, *old(x)),
        *final(x) == old(v)@[i as int],
{
    let mut tail = v.split_off(i);
    let mut elem = tail.remove(0);
    std::mem::swap(x, &mut elem);
    v.push(elem);
    v.append(&mut tail);
    proof {
        assert(v@ =~= old(v)@.update(i as int, *old(x)));
    }
}

/// A position in a sequence of `end` items.
#[derive(Clone, Copy)]
pub struct Cursor {
    p: usize,
    end: usize,
}

impl Cursor {
    /// The position.
    pub closed spec fn pos(self) -> usize {
        self.p
    }

    /// The number of items.
    pub closed spec fn end(self) -> usize {
        self.end
    }

    /// A cursor at the start of `len` items.
    pub fn new(len: usize) -> (r: Cursor)
        ensures
            r.pos() == 0,
            r.end() == len,
    {
        Cursor { p: 0, end: len }
    }

    /// Moves to the next position.
    pub fn inc(&mut self)
        requires
            old(self).pos() < usize::MAX,
        ensures
            final(self).pos() == old(self).pos() + 1,
            final(self).end() == old(self).end(),
    {
        self.p += 1;
    }

    /// The position, or `None` at or past the end.
    pub fn get(&self) -> (r: Option<usize>)
        ensures
            self.pos() < self.end() ==> r == Some(self.pos()),
            self.pos() >= self.end() ==> r is None,
    {
        if !self.reach_end() {
            Some(self.p)
        } else {
            None
        }
    }

    /// Whether the cursor is at or past the end.
    pub fn reach_end(&self) -> (r: bool)
        ensures
            r == (self.pos() >= self.end()),
    {
        self.p >= self.end
    }
}

impl std::ops::Deref for Cursor {
    type Target = usize;

    fn deref(&self) -> (r: &usize)
        ensures
            *r == self.pos(),
    {
        &self.p
    }
}

} // verus!
