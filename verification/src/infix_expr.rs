//! Building the tree of an infix expression from its operands and binary
//! operators, by operator precedence, operators of equal precedence
//! associating to the left.
use vstd::prelude::*;

verus! {

/// A binary operator with a precedence; a higher precedence binds tighter.
pub trait Bop {
    spec fn spec_precedence(&self) -> int;

    fn precedence(&self) -> (r: i32)
        ensures
            r == self.spec_precedence(),
    ;
}

/// A value with the precedence it gets as a binary operator.
#[derive(Debug)]
pub struct BopWrapper<T> {
    value: Box<T>,
    prec: i32,
}

impl<T> BopWrapper<T> {
    /// The wrapped value.
    pub closed spec fn spec_value(&self) -> T {
        *self.value
    }

    /// The precedence.
    pub closed spec fn spec_prec(&self) -> i32 {
        self.prec
    }

    /// Wraps `value` with precedence `prec`.
    pub fn new(value: T, prec: i32) -> (r: BopWrapper<T>)
        ensures
            r.spec_value() == value,
            r.spec_prec() == prec,
    {
        BopWrapper { value: Box::new(value), prec }
    }

    /// The wrapped value.
    pub fn unwrap(self) -> (r: T)
        ensures
            r == self.spec_value(),
    {
        *self.value
    }
}

impl<T> Bop for BopWrapper<T> {
    open spec fn spec_precedence(&self) -> int {
        self.spec_prec() as int
    }

    fn precedence(&self) -> (r: i32) {
        self.prec
    }
}

/// An infix expression: an operand, or an operator applied to two expressions.
pub enum InfixExpr<O, T> {
    E(T),
    T { bop: O, pri1: Box<InfixExpr<O, T>>, pri2: Box<InfixExpr<O, T>> },
}

impl<O, T> InfixExpr<O, T> {
    /// The operands, left to right.
    pub open spec fn leaves(self) -> Seq<T>
        decreases self,
    {
        match self {
            InfixExpr::E(t) => seq![t],
            InfixExpr::T { bop, pri1, pri2 } => pri1.leaves() + pri2.leaves(),
        }
    }

    /// The operators, left to right.
    pub open spec fn ops(self) -> Seq<O>
        decreases self,
    {
        match self {
            InfixExpr::E(_) => Seq::empty(),
            InfixExpr::T { bop, pri1, pri2 } => pri1.ops() + seq![bop] + pri2.ops(),
        }
    }

    /// `self bop pri2`.
    pub fn combine(self, bop: O, pri2: InfixExpr<O, T>) -> (r: InfixExpr<O, T>)
        ensures
            r == (InfixExpr::T { bop, pri1: Box::new(self), pri2: Box::new(pri2) }),
    {
        InfixExpr::T { bop, pri1: Box::new(self), pri2: Box::new(pri2) }
    }
}

/// Every operator of `ops` has precedence at least `p`.
pub open spec fn all_ge<O: Bop>(ops: Seq<O>, p: int) -> bool {
    forall|i: int| 0 <= i < ops.len() ==> #[trigger] ops[i].spec_precedence() >= p
}

/// Every operator of `ops` has precedence above `p`.
pub open spec fn all_gt<O: Bop>(ops: Seq<O>, p: int) -> bool {
    forall|i: int| 0 <= i < ops.len() ==> #[trigger] ops[i].spec_precedence() > p
}

/// The tree respects precedence and left associativity: below an operator,
/// the left operand holds only operators of at least its precedence and the
/// right operand only operators of higher precedence.
pub open spec fn well_ordered<O: Bop, T>(e: InfixExpr<O, T>) -> bool
    decreases e,
{
    match e {
        InfixExpr::E(_) => true,
        InfixExpr::T { bop, pri1, pri2 } => {
            &&& well_ordered(*pri1)
            &&& well_ordered(*pri2)
            &&& all_ge(pri1.ops(), bop.spec_precedence())
            &&& all_gt(pri2.ops(), bop.spec_precedence())
        },
    }
}

/// The operands of the expressions `es`, left to right.
pub open spec fn flat_leaves<O, T>(es: Seq<InfixExpr<O, T>>) -> Seq<T>
    decreases es.len(),
{
    if es.len() == 0 {
        Seq::empty()
    } else {
        flat_leaves(es.drop_last()) + es.last().leaves()
    }
}

/// The operators of the expressions `es` with those of `ss` between them:
/// `es[0] ss[0] es[1] ... ss[k-1] es[k]`, for `k` the length of `ss`.
pub open spec fn flat_ops<O, T>(es: Seq<InfixExpr<O, T>>, ss: Seq<O>) -> Seq<O>
    decreases ss.len(),
{
    if ss.len() == 0 {
        es[0].ops()
    } else {
        flat_ops(es.drop_last(), ss.drop_last()) + seq![ss.last()] + es.last().ops()
    }
}

/// The invariant of the operator-precedence loop.
spec fn shunting_inv<O: Bop, T>(es: Seq<InfixExpr<O, T>>, ss: Seq<O>, next: Option<O>) -> bool {
    &&& es.len() == ss.len() + 1
    &&& forall|i: int| 0 <= i < es.len() ==> well_ordered(#[trigger] es[i])
    &&& forall|i: int, j: int| 0 <= i < j < ss.len() ==> ss[i].spec_precedence() < ss[j].spec_precedence()
    &&& forall|i: int| 1 <= i < es.len() ==> all_gt(#[trigger] es[i].ops(), ss[i - 1].spec_precedence())
    &&& forall|i: int| 0 <= i < ss.len() ==> all_ge(#[trigger] es[i].ops(), ss[i].spec_precedence())
    &&& next matches Some(o) ==> all_ge(es.last().ops(), o.spec_precedence())
}

/// Builds the tree of the infix expression `pris[0] bops[0] pris[1] ... pris[n]`
/// by the precedence of its operators; operators of equal precedence
/// associate to the left.
pub fn parse_infix_expr<O: Bop, T>(bops: Vec<O>, pris: Vec<T>) -> (r: InfixExpr<O, T>)
    requires
        bops@.len() + 1 == pris@.len(),
        bops@.len() > 0,
    ensures
        r.leaves() == pris@,
        r.ops() == bops@,
        well_ordered(r),
{
    let ghost b0 = bops@;
    let ghost p0 = pris@;
    let ghost n: int = b0.len() as int;
    let mut bops = bops;
    let mut pris = pris;
    // the operators and operands still to read, the next one last
    let mut out_bops: Vec<O> = Vec::new();
    while bops.len() > 0
        invariant
            bops@ + out_bops@.reverse() == b0,
        decreases bops@.len(),
    {
        let b = bops.pop().unwrap();
        let ghost before = out_bops@;
        out_bops.push(b);
        proof {
            assert(out_bops@.reverse() =~= seq![b] + before.reverse());
        }
    }
    let mut out_pris: Vec<T> = Vec::new();
    while pris.len() > 0
        invariant
            pris@ + out_pris@.reverse() == p0,
        decreases pris@.len(),
    {
        let p = pris.pop().unwrap();
        let ghost before = out_pris@;
        out_pris.push(p);
        proof {
            assert(out_pris@.reverse() =~= seq![p] + before.reverse());
        }
    }
    proof {
        assert(out_bops@.reverse() =~= b0);
        assert(out_pris@.reverse() =~= p0);
    }
    let mut staging: Vec<O> = Vec::new();
    let first = out_pris.pop().unwrap();
    let mut exprs: Vec<InfixExpr<O, T>> = Vec::new();
    exprs.push(InfixExpr::E(first));
    proof {
        assert(flat_leaves(exprs@.drop_last()) =~= Seq::<T>::empty());
        assert(flat_leaves(exprs@) =~= p0.subrange(0, 1));
        assert(flat_ops(exprs@, staging@) =~= b0.subrange(0, 0));
    }
    while !(out_bops.len() == 0 && staging.len() == 0)
        invariant
            out_bops@.len() == out_pris@.len(),
            out_bops@.len() <= n,
            n == b0.len(),
            p0.len() == n + 1,
            out_bops@.reverse() == b0.subrange(n - out_bops@.len(), n),
            out_pris@.reverse() == p0.subrange(n - out_bops@.len() + 1, n + 1),
            flat_leaves(exprs@) == p0.subrange(0, n - out_bops@.len() + 1),
            flat_ops(exprs@, staging@) == b0.subrange(0, n - out_bops@.len()),
            shunting_inv(exprs@, staging@, if out_bops@.len() > 0 { Some(out_bops@.last()) } else { None }),
        decreases 2 * out_bops@.len() + staging@.len(),
    {
        let reduce = if out_bops.len() == 0 {
            true
        } else if staging.len() > 0 {
            staging[staging.len() - 1].precedence() >= out_bops[out_bops.len() - 1].precedence()
        } else {
            false
        };
        if reduce {
            let ghost es = exprs@;
            let ghost ss = staging@;
            let bop = staging.pop().unwrap();
            let rh = exprs.pop().unwrap();
            let lf = exprs.pop().unwrap();
            let e = lf.combine(bop, rh);
            exprs.push(e);
            proof {
                lemma_reduce(es, ss, if out_bops@.len() > 0 { Some(out_bops@.last()) } else { None });
                assert(exprs@ == es.drop_last().drop_last().push(e));
                assert(staging@ == ss.drop_last());
            }
        } else {
            let ghost es = exprs@;
            let ghost ss = staging@;
            let ghost ob = out_bops@;
            let ghost op = out_pris@;
            let o = out_bops.pop().unwrap();
            let p = out_pris.pop().unwrap();
            staging.push(o);
            exprs.push(InfixExpr::E(p));
            proof {
                let c = n - ob.len();
                assert(ob.reverse()[0] == o);
                assert(op.reverse()[0] == p);
                assert(out_bops@.reverse() =~= ob.reverse().drop_first());
                assert(out_pris@.reverse() =~= op.reverse().drop_first());
                assert(b0.subrange(c, n)[0] == b0[c]);
                assert(p0.subrange(c + 1, n + 1)[0] == p0[c + 1]);
                assert(exprs@.drop_last() == es);
                assert(staging@.drop_last() == ss);
                assert(flat_leaves(exprs@) =~= p0.subrange(0, c + 2));
                assert(flat_ops(exprs@, staging@) =~= b0.subrange(0, c + 1));
                assert(shunting_inv(exprs@, staging@, if out_bops@.len() > 0 { Some(out_bops@.last()) } else { None })) by {
                    assert forall|i: int| 1 <= i < exprs@.len() implies all_gt(#[trigger] exprs@[i].ops(), staging@[i - 1].spec_precedence()) by {
                        if i < exprs@.len() - 1 {
                            assert(exprs@[i] == es[i]);
                        }
                    }
                    assert forall|i: int| 0 <= i < staging@.len() implies all_ge(#[trigger] exprs@[i].ops(), staging@[i].spec_precedence()) by {
                        if i < staging@.len() - 1 {
                            assert(exprs@[i] == es[i]);
                        }
                    }
                }
            }
        }
    }
    proof {
        assert(b0.subrange(0, n) =~= b0);
        assert(p0.subrange(0, n + 1) =~= p0);
        assert(flat_leaves(exprs@.drop_last()) =~= Seq::<T>::empty());
    }
    let r = exprs.pop().unwrap();
    proof {
        assert(flat_leaves(exprs@) =~= Seq::<T>::empty());
    }
    r
}

/// One reduction keeps the invariant and the flattened operands and operators.
proof fn lemma_reduce<O: Bop, T>(es: Seq<InfixExpr<O, T>>, ss: Seq<O>, next: Option<O>)
    requires
        ss.len() > 0,
        shunting_inv(es, ss, next),
        next matches Some(o) ==> ss.last().spec_precedence() >= o.spec_precedence(),
    ensures
        ({
            let k = ss.len() as int;
            let e = InfixExpr::T { bop: ss.last(), pri1: Box::new(es[k - 1]), pri2: Box::new(es[k]) };
            let es2 = es.drop_last().drop_last().push(e);
            let ss2 = ss.drop_last();
            &&& shunting_inv(es2, ss2, next)
            &&& flat_leaves(es2) == flat_leaves(es)
            &&& flat_ops(es2, ss2) == flat_ops(es, ss)
        }),
{
    let k = ss.len() as int;
    let bop = ss.last();
    let lf = es[k - 1];
    let rh = es[k];
    let e = InfixExpr::T { bop, pri1: Box::new(lf), pri2: Box::new(rh) };
    let es2 = es.drop_last().drop_last().push(e);
    let ss2 = ss.drop_last();
    assert(e.ops() == lf.ops() + seq![bop] + rh.ops());
    assert(e.leaves() == lf.leaves() + rh.leaves());
    assert(es2.drop_last() == es.drop_last().drop_last());
    assert(es.drop_last().last() == lf);
    // operands
    assert(flat_leaves(es2) =~= flat_leaves(es.drop_last().drop_last()) + lf.leaves() + rh.leaves());
    assert(flat_leaves(es) == flat_leaves(es.drop_last()) + rh.leaves());
    assert(flat_leaves(es.drop_last()) == flat_leaves(es.drop_last().drop_last()) + lf.leaves());
    assert(flat_leaves(es) =~= flat_leaves(es.drop_last().drop_last()) + lf.leaves() + rh.leaves());
    // operators
    if k == 1 {
        assert(flat_ops(es2, ss2) == es2[0].ops());
        assert(flat_ops(es.drop_last(), ss.drop_last()) == es[0].ops());
        assert(flat_ops(es2, ss2) =~= flat_ops(es, ss));
    } else {
        assert(flat_ops(es2, ss2) == flat_ops(es2.drop_last(), ss2.drop_last()) + seq![ss2.last()] + e.ops());
        assert(flat_ops(es.drop_last(), ss.drop_last()) == flat_ops(
            es.drop_last().drop_last(),
            ss.drop_last().drop_last(),
        ) + seq![ss.drop_last().last()] + lf.ops());
        assert(flat_ops(es2, ss2) =~= flat_ops(es, ss));
    }
    // the invariant
    assert(well_ordered(e)) by {
        assert(well_ordered(lf));
        assert(well_ordered(rh));
    }
    assert forall|i: int| 1 <= i < es2.len() implies all_gt(#[trigger] es2[i].ops(), ss2[i - 1].spec_precedence()) by {
        if i < es2.len() - 1 {
            assert(es2[i] == es[i]);
        } else {
            let p = ss2[i - 1].spec_precedence();
            assert(all_gt(lf.ops(), p));
            assert(p < bop.spec_precedence());
            assert forall|j: int| 0 <= j < e.ops().len() implies #[trigger] e.ops()[j].spec_precedence() > p by {
                if j < lf.ops().len() {
                    assert(e.ops()[j] == lf.ops()[j]);
                } else if j == lf.ops().len() {
                } else {
                    assert(e.ops()[j] == rh.ops()[j - lf.ops().len() - 1]);
                }
            }
        }
    }
    assert forall|i: int| 0 <= i < ss2.len() implies all_ge(#[trigger] es2[i].ops(), ss2[i].spec_precedence()) by {
        assert(es2[i] == es[i]);
    }
    assert forall|i: int| 0 <= i < es2.len() implies well_ordered(#[trigger] es2[i]) by {
        if i < es2.len() - 1 {
            assert(es2[i] == es[i]);
        }
    }
    if let Some(o) = next {
        let p = o.spec_precedence();
        assert forall|j: int| 0 <= j < e.ops().len() implies #[trigger] e.ops()[j].spec_precedence() >= p by {
            if j < lf.ops().len() {
                assert(e.ops()[j] == lf.ops()[j]);
            } else if j == lf.ops().len() {
            } else {
                assert(e.ops()[j] == rh.ops()[j - lf.ops().len() - 1]);
            }
        }
    }
}

/// An expression has one operand more than it has operators.
pub proof fn lemma_leaves_len<O, T>(e: InfixExpr<O, T>)
    ensures
        e.leaves().len() == e.ops().len() + 1,
    decreases e,
{
    match e {
        InfixExpr::E(_) => {},
        InfixExpr::T { bop, pri1, pri2 } => {
            lemma_leaves_len(*pri1);
            lemma_leaves_len(*pri2);
        },
    }
}

/// An infix expression is determined by its operands, its operators and the
/// precedence rule: two well-ordered trees with the same operands and the same
/// operators, in the same order, are the same tree. So the tree that
/// `parse_infix_expr` builds is the only one that respects precedence and left
/// associativity.
pub proof fn lemma_infix_unique<O: Bop, T>(e1: InfixExpr<O, T>, e2: InfixExpr<O, T>)
    requires
        well_ordered(e1),
        well_ordered(e2),
        e1.leaves() == e2.leaves(),
        e1.ops() == e2.ops(),
    ensures
        e1 == e2,
    decreases e1,
{
    match e1 {
        InfixExpr::E(t1) => {
            match e2 {
                InfixExpr::E(t2) => {
                    assert(e1.leaves()[0] == t1);
                    assert(e2.leaves()[0] == t2);
                },
                InfixExpr::T { bop, pri1, pri2 } => {
                    assert(e2.ops().len() >= 1);
                },
            }
        },
        InfixExpr::T { bop: b1, pri1: l1, pri2: r1 } => {
            match e2 {
                InfixExpr::E(_) => {
                    assert(e1.ops().len() >= 1);
                },
                InfixExpr::T { bop: b2, pri1: l2, pri2: r2 } => {
                    let s = e1.ops();
                    let p1 = l1.ops().len() as int;
                    let p2 = l2.ops().len() as int;
                    assert(s[p1] == b1);
                    assert(e2.ops()[p2] == b2);
                    assert(s == l1.ops() + seq![b1] + r1.ops());
                    assert(s == l2.ops() + seq![b2] + r2.ops());
                    if p1 < p2 {
                        assert(s[p1] == l2.ops()[p1]);
                        assert(p2 < s.len());
                        assert((l1.ops() + seq![b1]).len() == p1 + 1);
                        assert(s[p2] == r1.ops()[p2 - p1 - 1]);
                        assert(b2.spec_precedence() > b1.spec_precedence());
                        assert(b1.spec_precedence() >= b2.spec_precedence());
                        assert(false);
                    }
                    if p2 < p1 {
                        assert(s[p2] == l1.ops()[p2]);
                        assert(s[p1] == r2.ops()[p1 - p2 - 1]);
                        assert(false);
                    }
                    assert(l1.ops() =~= s.subrange(0, p1));
                    assert(l2.ops() =~= s.subrange(0, p1));
                    assert(r1.ops() =~= s.subrange(p1 + 1, s.len() as int));
                    assert(r2.ops() =~= s.subrange(p1 + 1, s.len() as int));
                    lemma_leaves_len(*l1);
                    lemma_leaves_len(*l2);
                    let lv = e1.leaves();
                    assert(l1.leaves() =~= lv.subrange(0, p1 + 1));
                    assert(l2.leaves() =~= lv.subrange(0, p1 + 1));
                    assert(r1.leaves() =~= lv.subrange(p1 + 1, lv.len() as int));
                    assert(r2.leaves() =~= lv.subrange(p1 + 1, lv.len() as int));
                    lemma_infix_unique(*l1, *l2);
                    lemma_infix_unique(*r1, *r2);
                },
            }
        },
    }
}

} // verus!
