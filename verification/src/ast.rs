//! The tree compiler: statements and expressions to flat bytecode,
//! through a linear register allocator.
//!
//! Allocation follows one monotone cursor per function: declaring a
//! variable reserves the next register for good; sub-expressions borrow
//! scratch registers above the cursor and release them last-reserved
//! first.  The meaning of compilation is the spec functions [`sc_expr`]
//! and [`sc_stmt`]; they yield `None` exactly where compilation is not
//! defined (an unknown name, an expression form with no opcode, or a
//! machine limit such as a 256th register), and the executable compiler
//! is proved to produce exactly what they say.

use vstd::prelude::*;

use crate::bytecode::{val_ieee_eq, val_m, Instr, Val, ValM};

verus! {

/// A unary operator of the source tree.  No opcode implements these, so
/// the compiler does not accept them.
#[derive(Debug, Clone, Copy, PartialEq, Eq)]
pub enum Unop {
    Negate,
    Not,
}

/// A binary operator of the source tree.
#[derive(Debug, Clone, Copy, PartialEq, Eq)]
pub enum Binop {
    Add,
    Sub,
    Mul,
    Div,
    Rem,
    And,
    Orr,
    Xor,
    Gt,
    Lt,
    Geq,
    Leq,
    Eq,
    Neq,
}

/// A resolved variable name.
#[derive(Debug, PartialEq, Eq, Hash, Clone, Copy)]
pub struct Name {
    pub id: usize,
}

/// An expression tree.
#[derive(Debug)]
pub enum Expr<N> {
    Lit(Val),
    Var(N),
    Unop(Unop, Box<Expr<N>>),
    Binop(Binop, Box<Expr<N>>, Box<Expr<N>>),
    Call(Box<Expr<N>>, Vec<Expr<N>>),
    Index(Box<Expr<N>>, Box<Expr<N>>),
    Mktup(Vec<Expr<N>>),
}

/// A statement tree.
#[derive(Debug)]
pub enum Stmt<N> {
    Declare(N),
    RawExpr(Expr<N>),
    Assign(N, Expr<N>),
    If(Expr<N>, Vec<Stmt<N>>, Vec<Stmt<N>>),
    While(Expr<N>, Vec<Stmt<N>>),
    Continue,
    Break,
    Return(Expr<N>),
    Defn(Vec<N>, Vec<Stmt<N>>),
}

/// The per-function compilation state: declared variables (the register
/// of a variable is its position here), the constant pool under
/// construction, the next free scratch register, and the highest
/// register ever reserved.
#[derive(Debug, PartialEq)]
pub struct FunctionCtx {
    pub vars: Vec<Name>,
    pub consts: Vec<Val>,
    pub free_reg: u8,
    pub max_reg: u8,
}

/// The model of a [`FunctionCtx`].
#[verifier::ext_equal]
pub struct CtxM {
    pub vars: Seq<Name>,
    pub consts: Seq<ValM>,
    pub free_reg: int,
    pub max_reg: int,
}

impl DeepView for FunctionCtx {
    type V = CtxM;

    open spec fn deep_view(&self) -> CtxM {
        CtxM {
            vars: self.vars@,
            consts: self.consts.deep_view(),
            free_reg: self.free_reg as int,
            max_reg: self.max_reg as int,
        }
    }
}

impl View for FunctionCtx {
    type V = CtxM;

    open spec fn view(&self) -> CtxM {
        self.deep_view()
    }
}

/// The first position of a value equal to `v` in the pool, or -1
/// (equality per [`val_ieee_eq`], as the original pool compares values).
pub open spec fn idx_of_val(ks: Seq<ValM>, v: ValM) -> int
    decreases ks.len(),
{
    if ks.len() == 0 {
        -1
    } else if val_ieee_eq(ks[0], v) {
        0
    } else {
        let r = idx_of_val(ks.skip(1), v);
        if r == -1 {
            -1
        } else {
            r + 1
        }
    }
}

/// The register of `n` among the declared variables, or -1.  Declaring
/// a name again rebinds it, so the newest (last) occurrence wins.
pub open spec fn idx_of_name(vars: Seq<Name>, n: Name) -> int
    decreases vars.len(),
{
    if vars.len() == 0 {
        -1
    } else if vars.last() == n {
        vars.len() - 1
    } else {
        idx_of_name(vars.drop_last(), n)
    }
}

/// Reserving the next scratch register; `None` once the 8-bit register
/// space is exhausted.
pub open spec fn spush(c: CtxM) -> Option<CtxM> {
    if c.free_reg >= 255 {
        None
    } else {
        Some(
            CtxM {
                free_reg: c.free_reg + 1,
                max_reg: if c.free_reg + 1 > c.max_reg {
                    c.free_reg + 1
                } else {
                    c.max_reg
                },
                ..c
            },
        )
    }
}

/// Releasing register `a`: a declared variable's register is never
/// scratch, so releasing it changes nothing; otherwise the cursor drops
/// back to `a`.
pub open spec fn spop(c: CtxM, a: int) -> CtxM {
    if a < c.vars.len() {
        c
    } else {
        CtxM { free_reg: a, ..c }
    }
}

/// Releasing a list of operand registers, last first.
pub open spec fn spop_list(c: CtxM, addrs: Seq<int>) -> CtxM
    decreases addrs.len(),
{
    if addrs.len() == 0 {
        c
    } else {
        spop_list(spop(c, addrs.last()), addrs.drop_last())
    }
}

/// The pool position of `v`, deduplicated by value equality
/// ([`val_ieee_eq`]) in first-seen order; `None` once an index would not
/// fit 8 bits.
pub open spec fn sget(ks: Seq<ValM>, v: ValM) -> Option<(Seq<ValM>, int)> {
    let i = idx_of_val(ks, v);
    if i >= 0 {
        Some((ks, i))
    } else if ks.len() >= 256 {
        None
    } else {
        Some((ks.push(v), ks.len() as int))
    }
}

/// The opcode of a binary operator.
pub open spec fn op_of(op: Binop, a: int, b: int, c: int) -> Instr {
    match op {
        Binop::Add => Instr::Add(a as u8, b as u8, c as u8),
        Binop::Sub => Instr::Sub(a as u8, b as u8, c as u8),
        Binop::Mul => Instr::Mul(a as u8, b as u8, c as u8),
        Binop::Div => Instr::Div(a as u8, b as u8, c as u8),
        Binop::Rem => Instr::Rem(a as u8, b as u8, c as u8),
        Binop::And => Instr::And(a as u8, b as u8, c as u8),
        Binop::Orr => Instr::Orr(a as u8, b as u8, c as u8),
        Binop::Xor => Instr::Xor(a as u8, b as u8, c as u8),
        Binop::Gt => Instr::Gt(a as u8, b as u8, c as u8),
        Binop::Lt => Instr::Lt(a as u8, b as u8, c as u8),
        Binop::Geq => Instr::Geq(a as u8, b as u8, c as u8),
        Binop::Leq => Instr::Leq(a as u8, b as u8, c as u8),
        Binop::Eq => Instr::Eq(a as u8, b as u8, c as u8),
        Binop::Neq => Instr::Neq(a as u8, b as u8, c as u8),
    }
}

/// What compiling an expression means: the state afterwards, the
/// register holding the result, and the emitted instructions.  `None`
/// where compilation is undefined: a unary operator or call (no opcode
/// implements them), an undeclared variable, or a machine limit.
pub open spec fn sc_expr(c: CtxM, e: Expr<Name>) -> Option<(CtxM, int, Seq<Instr>)>
    decreases e,
{
    match e {
        Expr::Lit(v) => match spush(c) {
            None => None,
            Some(c1) => match sget(c1.consts, val_m(v)) {
                None => None,
                Some((ks, ki)) => Some(
                    (
                        CtxM { consts: ks, ..c1 },
                        c.free_reg,
                        seq![Instr::Const(c.free_reg as u8, ki as u8)],
                    ),
                ),
            },
        },
        Expr::Var(n) => {
            let i = idx_of_name(c.vars, n);
            if i == -1 {
                None
            } else {
                Some((c, i, Seq::empty()))
            }
        },
        Expr::Unop(_, _) => None,
        Expr::Call(_, _) => None,
        Expr::Binop(op, l, r) => match spush(c) {
            None => None,
            Some(c1) => match sc_expr(c1, *l) {
                None => None,
                Some((c2, ld, lc)) => match sc_expr(c2, *r) {
                    None => None,
                    Some((c3, rd, rc)) => Some(
                        (
                            spop(spop(c3, rd), ld),
                            c.free_reg,
                            lc + rc + seq![op_of(op, c.free_reg, ld, rd)],
                        ),
                    ),
                },
            },
        },
        Expr::Index(t, ix) => match spush(c) {
            None => None,
            Some(c1) => match sc_expr(c1, *t) {
                None => None,
                Some((c2, td, tc)) => match sc_expr(c2, *ix) {
                    None => None,
                    Some((c3, id, ic)) => Some(
                        (
                            spop(spop(c3, id), td),
                            c.free_reg,
                            tc + ic + seq![
                                Instr::IdxTup(c.free_reg as u8, td as u8, id as u8),
                            ],
                        ),
                    ),
                },
            },
        },
        Expr::Mktup(parts) => match spush(c) {
            None => None,
            Some(c1) => if parts@.len() > 255 {
                None
            } else {
                match sc_exprs(c1, parts@) {
                    None => None,
                    Some((c2, addrs, code)) => {
                        let start: int = if addrs.len() == 0 {
                            0
                        } else {
                            addrs[0]
                        };
                        Some(
                            (
                                spop_list(c2, addrs),
                                c.free_reg,
                                code.push(
                                    Instr::MkTup(
                                        c.free_reg as u8,
                                        start as u8,
                                        parts@.len() as u8,
                                    ),
                                ),
                            ),
                        )
                    },
                }
            },
        },
    }
}

/// Compiling a list of expressions left to right, collecting their
/// result registers and code.
pub open spec fn sc_exprs(c: CtxM, es: Seq<Expr<Name>>) -> Option<(CtxM, Seq<int>, Seq<Instr>)>
    decreases es,
{
    if es.len() == 0 {
        Some((c, Seq::empty(), Seq::empty()))
    } else {
        match sc_expr(c, es[0]) {
            None => None,
            Some((c1, d, code)) => match sc_exprs(c1, es.skip(1)) {
                None => None,
                Some((c2, ds, rest)) => Some((c2, seq![d] + ds, code + rest)),
            },
        }
    }
}

/// What compiling one statement means.  `None` where compilation is
/// undefined: declaring over scratch space, an undeclared assignment
/// target, a loop / flow / nested-function form the compiler does not
/// implement, or a jump offset beyond its width.
pub open spec fn sc_stmt(c: CtxM, s: Stmt<Name>) -> Option<(CtxM, Seq<Instr>)>
    decreases s,
{
    match s {
        Stmt::Declare(n) => {
            if c.free_reg != c.vars.len() {
                None
            } else {
                match spush(c) {
                    None => None,
                    Some(c1) => Some((CtxM { vars: c.vars.push(n), ..c1 }, Seq::empty())),
                }
            }
        },
        Stmt::RawExpr(e) => match sc_expr(c, e) {
            None => None,
            Some((c1, d, code)) => Some((spop(c1, d), code)),
        },
        Stmt::Assign(n, e) => {
            let i = idx_of_name(c.vars, n);
            if i == -1 {
                None
            } else {
                match sc_expr(c, e) {
                    None => None,
                    Some((c1, d, code)) => Some(
                        (spop(c1, d), code.push(Instr::Copy(i as u8, d as u8))),
                    ),
                }
            }
        },
        Stmt::If(cond, t, f) => match sc_expr(c, cond) {
            None => None,
            Some((c1, cd, cc)) => {
                let c2 = spop(c1, cd);
                match sc_stmts(c2, t@) {
                    None => None,
                    Some((c3, tc)) => match sc_stmts(c3, f@) {
                        None => None,
                        Some((c4, fc)) => if tc.len() + 2 <= i16::MAX && fc.len() + 1
                            <= i16::MAX {
                            Some(
                                (
                                    c4,
                                    cc.push(Instr::CondJump(cd as u8, 2, 1)).push(
                                        Instr::Jump((tc.len() + 2) as i16),
                                    ) + tc + seq![Instr::Jump((fc.len() + 1) as i16)] + fc,
                                ),
                            )
                        } else {
                            None
                        },
                    },
                }
            },
        },
        Stmt::While(_, _) => None,
        Stmt::Continue => None,
        Stmt::Break => None,
        Stmt::Return(_) => None,
        Stmt::Defn(_, _) => None,
    }
}

/// Compiling a statement list in order, concatenating the code.
pub open spec fn sc_stmts(c: CtxM, ss: Seq<Stmt<Name>>) -> Option<(CtxM, Seq<Instr>)>
    decreases ss,
{
    if ss.len() == 0 {
        Some((c, Seq::empty()))
    } else {
        match sc_stmt(c, ss[0]) {
            None => None,
            Some((c1, code)) => match sc_stmts(c1, ss.skip(1)) {
                None => None,
                Some((c2, rest)) => Some((c2, code + rest)),
            },
        }
    }
}

/// `e` compiles to a fresh scratch register (everything but a variable
/// reference).
pub open spec fn is_var(e: Expr<Name>) -> bool {
    e is Var
}

/// Popping a leading register after the rest.
proof fn lemma_spop_list_cons(c: CtxM, d: int, ds: Seq<int>)
    ensures
        spop_list(c, seq![d] + ds) == spop(spop_list(c, ds), d),
    decreases ds.len(),
{
    let all = seq![d] + ds;
    if ds.len() == 0 {
        assert(all.last() == d);
        assert(all.drop_last() =~= Seq::<int>::empty());
        assert(spop_list(c, all) == spop_list(spop(c, d), all.drop_last()));
        assert(spop_list(spop(c, d), all.drop_last()) == spop(c, d));
        assert(spop_list(c, ds) == c);
    } else {
        assert(all.last() == ds.last());
        assert(all.drop_last() =~= seq![d] + ds.drop_last());
        lemma_spop_list_cons(spop(c, ds.last()), d, ds.drop_last());
        assert(spop_list(c, all) == spop_list(spop(c, ds.last()), seq![d] + ds.drop_last()));
        assert(spop_list(c, ds) == spop_list(spop(c, ds.last()), ds.drop_last()));
    }
}

/// The shape of a successful expression compilation: the variables are
/// untouched, the cursor advances by exactly one for a non-variable (its
/// fresh destination) and not at all for a variable, and the recorded
/// maximum never falls.
pub proof fn lemma_sc_expr_shape(c: CtxM, e: Expr<Name>)
    requires
        sc_expr(c, e) is Some,
        c.free_reg >= c.vars.len(),
    ensures
        ({
            let (c1, d, code) = sc_expr(c, e)->Some_0;
            &&& c1.vars == c.vars
            &&& c1.max_reg >= c.max_reg
            &&& c1.free_reg >= c1.vars.len()
            &&& c.consts.len() <= 256 ==> c1.consts.len() <= 256
            &&& if is_var(e) {
                c1 == c && 0 <= d < c.vars.len()
            } else {
                d == c.free_reg && c1.free_reg == c.free_reg + 1 && c.free_reg < 255
            }
        }),
    decreases e,
{
    match e {
        Expr::Lit(v) => {},
        Expr::Var(n) => {
            lemma_idx_of_name_range(c.vars, n);
        },
        Expr::Unop(_, _) => {},
        Expr::Call(_, _) => {},
        Expr::Binop(op, l, r) => {
            let c1 = spush(c)->Some_0;
            lemma_sc_expr_shape(c1, *l);
            let (c2, ld, lc) = sc_expr(c1, *l)->Some_0;
            lemma_sc_expr_shape(c2, *r);
        },
        Expr::Index(t, ix) => {
            let c1 = spush(c)->Some_0;
            lemma_sc_expr_shape(c1, *t);
            let (c2, td, tc) = sc_expr(c1, *t)->Some_0;
            lemma_sc_expr_shape(c2, *ix);
        },
        Expr::Mktup(parts) => {
            let c1 = spush(c)->Some_0;
            lemma_sc_exprs_shape(c1, parts@);
            let (c2, ds, code) = sc_exprs(c1, parts@)->Some_0;
            assert(spop_list(c2, ds) == (CtxM { free_reg: c1.free_reg, ..c2 }));
        },
    }
}

/// The shape of compiling an expression list: variables untouched, and
/// releasing the collected result registers in reverse restores the
/// cursor to where the list began.
pub proof fn lemma_sc_exprs_shape(c: CtxM, es: Seq<Expr<Name>>)
    requires
        sc_exprs(c, es) is Some,
        c.free_reg >= c.vars.len(),
    ensures
        ({
            let (c1, ds, code) = sc_exprs(c, es)->Some_0;
            &&& c1.vars == c.vars
            &&& c1.max_reg >= c.max_reg
            &&& c1.free_reg >= c1.vars.len()
            &&& c.consts.len() <= 256 ==> c1.consts.len() <= 256
            &&& ds.len() == es.len()
            &&& spop_list(c1, ds) == (CtxM { free_reg: c.free_reg, ..c1 })
        }),
    decreases es,
{
    if es.len() == 0 {
        let (c1, ds, code) = sc_exprs(c, es)->Some_0;
        assert(spop_list(c1, ds) =~= (CtxM { free_reg: c.free_reg, ..c1 }));
    } else {
        lemma_sc_expr_shape(c, es[0]);
        let (ca, d, code0) = sc_expr(c, es[0])->Some_0;
        lemma_sc_exprs_shape(ca, es.skip(1));
        let (c1, ds1, rest) = sc_exprs(ca, es.skip(1))->Some_0;
        lemma_spop_list_cons(c1, d, ds1);
        let inner = spop_list(c1, ds1);
        assert(inner == (CtxM { free_reg: ca.free_reg, ..c1 }));
        if is_var(es[0]) {
            assert(spop(inner, d) =~= (CtxM { free_reg: c.free_reg, ..c1 }));
        } else {
            assert(d == c.free_reg && d >= c.vars.len());
            assert(spop(inner, d) =~= (CtxM { free_reg: c.free_reg, ..c1 }));
        }
    }
}

/// [`idx_of_name`] is -1 or a position.

pub proof fn lemma_idx_of_name_range(vars: Seq<Name>, n: Name)
    ensures
        idx_of_name(vars, n) == -1 || 0 <= idx_of_name(vars, n) < vars.len(),
    decreases vars.len(),
{
    if vars.len() > 0 && vars.last() != n {
        lemma_idx_of_name_range(vars.drop_last(), n);
    }
}

/// [`idx_of_val`] is -1 or a position.
pub proof fn lemma_idx_of_val_range(ks: Seq<ValM>, v: ValM)
    ensures
        idx_of_val(ks, v) == -1 || 0 <= idx_of_val(ks, v) < ks.len(),
    decreases ks.len(),
{
    if ks.len() > 0 && !val_ieee_eq(ks[0], v) {
        lemma_idx_of_val_range(ks.skip(1), v);
    }
}

/// A scan that reached `i` decides [`idx_of_val`].
proof fn lemma_idx_of_val_at(ks: Seq<ValM>, v: ValM, i: int)
    requires
        0 <= i <= ks.len(),
        forall|j: int| 0 <= j < i ==> !#[trigger] val_ieee_eq(ks[j], v),
        i == ks.len() || val_ieee_eq(ks[i], v),
    ensures
        idx_of_val(ks, v) == (if i == ks.len() {
            -1
        } else {
            i
        }),
    decreases i,
{
    if i > 0 {
        lemma_idx_of_val_at(ks.skip(1), v, i - 1);
    }
}

/// A backwards scan that reached `i` decides [`idx_of_name`].
proof fn lemma_idx_of_name_at(vars: Seq<Name>, n: Name, i: int)
    requires
        -1 <= i < vars.len(),
        forall|j: int| i < j < vars.len() ==> #[trigger] vars[j] != n,
        i >= 0 ==> vars[i] == n,
    ensures
        idx_of_name(vars, n) == i,
    decreases vars.len(),
{
    if vars.len() == 0 {
        assert(i == -1);
        assert(idx_of_name(vars, n) == -1);
    } else if vars.last() == n {
        if i < vars.len() - 1 {
            assert(vars[vars.len() - 1] != n);
            assert(false);
        }
        assert(i == vars.len() - 1);
        assert(idx_of_name(vars, n) == vars.len() - 1);
    } else {
        if i == vars.len() - 1 {
            assert(vars[i] == n);
            assert(false);
        }
        assert forall|j: int| i < j < vars.drop_last().len() implies vars.drop_last()[j]
            != n by {
            assert(vars.drop_last()[j] == vars[j]);
        }
        if i >= 0 {
            assert(vars.drop_last()[i] == vars[i]);
        }
        lemma_idx_of_name_at(vars.drop_last(), n, i);
        assert(idx_of_name(vars, n) == idx_of_name(vars.drop_last(), n));
    }
}

impl FunctionCtx {
    /// A fresh per-function state: no variables, no constants, register
    /// 0 free.
    pub fn new() -> (r: FunctionCtx)
        ensures
            r.deep_view() == (CtxM {
                vars: Seq::<Name>::empty(),
                consts: Seq::<ValM>::empty(),
                free_reg: 0,
                max_reg: 0,
            }),
    {
        let r = FunctionCtx { vars: Vec::new(), consts: Vec::new(), free_reg: 0, max_reg: 0 };
        proof {
            assert(r.consts.deep_view() =~= Seq::<ValM>::empty());
            assert(r.deep_view() =~= (CtxM {
                vars: Seq::<Name>::empty(),
                consts: Seq::<ValM>::empty(),
                free_reg: 0,
                max_reg: 0,
            }));
        }
        r
    }

    /// Reserves the next scratch register.
    fn push_tmp(&mut self) -> (r: u8)
        requires
            spush(old(self).deep_view()) is Some,
        ensures
            final(self).deep_view() == spush(old(self).deep_view())->Some_0,
            r as int == old(self).free_reg as int,
    {
        let reg = self.free_reg;
        self.free_reg = self.free_reg + 1;
        if self.free_reg > self.max_reg {
            self.max_reg = self.free_reg;
        }
        proof {
            assert(self.deep_view() =~= spush(old(self).deep_view())->Some_0);
        }
        reg
    }

    /// Releases register `addr`; a declared variable's register is left
    /// alone.  Only the register at the top of the cursor may be
    /// released.
    fn pop_tmp(&mut self, addr: u8)
        requires
            (addr as int) < old(self).vars@.len() || old(self).free_reg as int == addr as int + 1,
        ensures
            final(self).deep_view() == spop(old(self).deep_view(), addr as int),
    {
        if (addr as usize) < self.vars.len() {
            proof {
                assert(self.deep_view() =~= spop(self.deep_view(), addr as int));
            }
            return ;
        }
        self.free_reg = addr;
        proof {
            assert(self.deep_view() =~= spop(old(self).deep_view(), addr as int));
        }
    }

    /// The pool index of `val`, deduplicated by value equality
    /// ([`val_ieee_eq`]); first-seen order fixes each index.
    #[verifier::loop_isolation(false)]
    fn get_const(&mut self, val: &Val) -> (r: u8)
        requires
            sget(old(self).deep_view().consts, val.deep_view()) is Some,
            old(self).consts@.len() <= 256,
        ensures
            ({
                let (ks, ki) = sget(old(self).deep_view().consts, val.deep_view())->Some_0;
                &&& final(self).deep_view() == (CtxM { consts: ks, ..old(self).deep_view() })
                &&& r as int == ki
            }),
    {
        let ghost ks0 = self.deep_view().consts;
        let n = self.consts.len();
        let mut i: usize = 0;
        while i < n
            invariant
                0 <= i <= n,
                n == self.consts@.len(),
                forall|j: int|
                    0 <= j < i ==> !#[trigger] val_ieee_eq(
                        self.consts.deep_view()[j],
                        val.deep_view(),
                    ),
                ks0 == self.deep_view().consts,
                *self == *old(self),
            decreases n - i,
        {
            if self.consts[i].equals(val) {
                proof {
                    lemma_idx_of_val_at(ks0, val.deep_view(), i as int);
                    assert(self.deep_view() =~= (CtxM { consts: ks0, ..old(self).deep_view() }));
                    assert(i < 256);
                }
                return i as u8;
            }
            i += 1;
        }
        proof {
            lemma_idx_of_val_at(ks0, val.deep_view(), n as int);
        }
        let ghost pre = self.consts.deep_view();
        let copy = val.duplicate();
        self.consts.push(copy);
        proof {
            assert(self.consts.deep_view() =~= pre.push(val.deep_view()));
            assert(self.deep_view() =~= (CtxM {
                consts: pre.push(val.deep_view()),
                ..old(self).deep_view()
            }));
        }
        (self.consts.len() - 1) as u8
    }

    /// The register of a declared name, if any: the newest declaration
    /// of the name wins.
    #[verifier::loop_isolation(false)]
    fn find_name(&self, n: &Name) -> (r: Option<u8>)
        requires
            self.vars@.len() <= 256,
        ensures
            (match r {
                Some(i) => idx_of_name(self.vars@, *n) == i as int,
                None => idx_of_name(self.vars@, *n) == -1,
            }),
    {
        let count = self.vars.len();
        let mut k: usize = count;
        while k > 0
            invariant
                0 <= k <= count,
                count == self.vars@.len(),
                forall|j: int| k <= j < count ==> #[trigger] self.vars@[j] != *n,
            decreases k,
        {
            k -= 1;
            if self.vars[k].id == n.id {
                proof {
                    assert(self.vars@[k as int] == *n);
                    lemma_idx_of_name_at(self.vars@, *n, k as int);
                    assert(k < 256);
                }
                return Some(k as u8);
            }
        }
        proof {
            lemma_idx_of_name_at(self.vars@, *n, -1);
        }
        None
    }
}


/// The release discipline holds for popping `addrs` last-first from `c`:
/// each released register is either a variable's (a no-op) or exactly
/// the top of the cursor.
pub open spec fn pop_ok(c: CtxM, addrs: Seq<int>) -> bool
    decreases addrs.len(),
{
    addrs.len() == 0 || {
        &&& (addrs.last() < c.vars.len() || c.free_reg == addrs.last() + 1)
        &&& pop_ok(spop(c, addrs.last()), addrs.drop_last())
    }
}

/// Prepending a register keeps the discipline if it is legal once the
/// rest have been released.
proof fn lemma_pop_ok_cons(c: CtxM, d: int, ds: Seq<int>)
    requires
        pop_ok(c, ds),
        d < c.vars.len() || spop_list(c, ds).free_reg == d + 1,
        spop_list(c, ds).vars == c.vars,
    ensures
        pop_ok(c, seq![d] + ds),
    decreases ds.len(),
{
    let all = seq![d] + ds;
    if ds.len() == 0 {
        assert(all.last() == d);
        assert(all.drop_last() =~= Seq::<int>::empty());
        assert(spop_list(c, ds) == c);
        assert(pop_ok(spop(c, d), all.drop_last()));
        assert(pop_ok(c, all));
    } else {
        assert(all.last() == ds.last());
        assert(all.drop_last() =~= seq![d] + ds.drop_last());
        assert(spop_list(c, ds) == spop_list(spop(c, ds.last()), ds.drop_last()));
        lemma_spop_list_vars(spop(c, ds.last()), ds.drop_last());
        lemma_pop_ok_cons(spop(c, ds.last()), d, ds.drop_last());
        assert(pop_ok(spop(c, ds.last()), all.drop_last()));
        assert(pop_ok(c, all));
    }
}

/// [`spop`] and [`spop_list`] never touch the variable list.
proof fn lemma_spop_list_vars(c: CtxM, ds: Seq<int>)
    ensures
        spop_list(c, ds).vars == c.vars,
        spop_list(c, ds).consts == c.consts,
        spop_list(c, ds).max_reg == c.max_reg,
    decreases ds.len(),
{
    if ds.len() > 0 {
        lemma_spop_list_vars(spop(c, ds.last()), ds.drop_last());
    }
}

/// The released registers of a compiled expression list obey the
/// discipline.
pub proof fn lemma_sc_exprs_pop_ok(c: CtxM, es: Seq<Expr<Name>>)
    requires
        sc_exprs(c, es) is Some,
        c.free_reg >= c.vars.len(),
    ensures
        pop_ok(sc_exprs(c, es)->Some_0.0, sc_exprs(c, es)->Some_0.1),
    decreases es,
{
    if es.len() > 0 {
        lemma_sc_expr_shape(c, es[0]);
        let (ca, d, code0) = sc_expr(c, es[0])->Some_0;
        lemma_sc_exprs_shape(ca, es.skip(1));
        lemma_sc_exprs_pop_ok(ca, es.skip(1));
        let (c1, ds1, rest) = sc_exprs(ca, es.skip(1))->Some_0;
        lemma_spop_list_vars(c1, ds1);
        lemma_pop_ok_cons(c1, d, ds1);
    }
}

impl FunctionCtx {
    /// Compiles an expression: returns the register that will hold its
    /// value and the instructions that compute it, exactly as
    /// [`sc_expr`] says.
    #[verifier::loop_isolation(false)]
    #[verifier::rlimit(100)]
    pub fn compile_expr(&mut self, expr: &Expr<Name>) -> (r: (u8, Vec<Instr>))
        requires
            sc_expr(old(self).deep_view(), *expr) is Some,
            old(self).free_reg as int >= old(self).vars@.len(),
            old(self).consts@.len() <= 256,
        ensures
            ({
                let (c1, d, code) = sc_expr(old(self).deep_view(), *expr)->Some_0;
                &&& final(self).deep_view() == c1
                &&& r.0 as int == d
                &&& r.1@ == code
            }),
        decreases *expr,
    {
        let ghost c0 = self.deep_view();
        proof {
            lemma_sc_expr_shape(c0, *expr);
        }
        match expr {
            Expr::Lit(v) => {
                let reg = self.push_tmp();
                let ki = self.get_const(v);
                let mut code: Vec<Instr> = Vec::new();
                code.push(Instr::Const(reg, ki));
                proof {
                    assert(code@ =~= seq![Instr::Const(reg, ki)]);
                    assert(self.deep_view() =~= sc_expr(c0, *expr)->Some_0.0);
                }
                (reg, code)
            },
            Expr::Var(n) => {
                match self.find_name(n) {
                    Some(i) => {
                        let code: Vec<Instr> = Vec::new();
                        proof {
                            assert(code@ =~= Seq::<Instr>::empty());
                        }
                        (i, code)
                    },
                    None => {
                        proof {
                            assert(false);
                        }
                        unreached()
                    },
                }
            },
            Expr::Unop(_, _) => {
                proof {
                    assert(false);
                }
                unreached()
            },
            Expr::Call(_, _) => {
                proof {
                    assert(false);
                }
                unreached()
            },
            Expr::Binop(op, l, r) => {
                let reg = self.push_tmp();
                let ghost c1 = self.deep_view();
                proof {
                    lemma_sc_expr_shape(c1, **l);
                }
                let (ld, mut lc) = self.compile_expr(l);
                let ghost c2 = self.deep_view();
                proof {
                    lemma_sc_expr_shape(c2, **r);
                }
                let (rd, mut rc) = self.compile_expr(r);
                let ins = match op {
                    Binop::Add => Instr::Add(reg, ld, rd),
                    Binop::Sub => Instr::Sub(reg, ld, rd),
                    Binop::Mul => Instr::Mul(reg, ld, rd),
                    Binop::Div => Instr::Div(reg, ld, rd),
                    Binop::Rem => Instr::Rem(reg, ld, rd),
                    Binop::And => Instr::And(reg, ld, rd),
                    Binop::Orr => Instr::Orr(reg, ld, rd),
                    Binop::Xor => Instr::Xor(reg, ld, rd),
                    Binop::Gt => Instr::Gt(reg, ld, rd),
                    Binop::Lt => Instr::Lt(reg, ld, rd),
                    Binop::Geq => Instr::Geq(reg, ld, rd),
                    Binop::Leq => Instr::Leq(reg, ld, rd),
                    Binop::Eq => Instr::Eq(reg, ld, rd),
                    Binop::Neq => Instr::Neq(reg, ld, rd),
                };
                self.pop_tmp(rd);
                self.pop_tmp(ld);
                lc.append(&mut rc);
                lc.push(ins);
                proof {
                    let (cf, d, code) = sc_expr(c0, *expr)->Some_0;
                    assert(ins == op_of(*op, reg as int, ld as int, rd as int));
                    assert(lc@ =~= code);
                    assert(self.deep_view() =~= cf);
                }
                (reg, lc)
            },
            Expr::Index(t, ix) => {
                let reg = self.push_tmp();
                let ghost c1 = self.deep_view();
                proof {
                    lemma_sc_expr_shape(c1, **t);
                }
                let (td, mut tc) = self.compile_expr(t);
                let ghost c2 = self.deep_view();
                proof {
                    lemma_sc_expr_shape(c2, **ix);
                }
                let (id, mut ic) = self.compile_expr(ix);
                tc.append(&mut ic);
                tc.push(Instr::IdxTup(reg, td, id));
                self.pop_tmp(id);
                self.pop_tmp(td);
                proof {
                    let (cf, d, code) = sc_expr(c0, *expr)->Some_0;
                    assert(tc@ =~= code);
                    assert(self.deep_view() =~= cf);
                }
                (reg, tc)
            },
            Expr::Mktup(parts) => {
                let reg = self.push_tmp();
                let ghost c1 = self.deep_view();
                let ghost target = sc_exprs(c1, parts@)->Some_0;
                proof {
                    lemma_sc_exprs_shape(c1, parts@);
                    lemma_sc_exprs_pop_ok(c1, parts@);
                }
                let mut code: Vec<Instr> = Vec::new();
                let mut part_addrs: Vec<u8> = Vec::new();
                let n = parts.len();
                let ghost ds = target.1;
                proof {
                    assert(parts@.skip(0) =~= parts@);
                    assert(ds.skip(0) =~= ds);
                    assert(sc_exprs(c1, parts@) == Some(target));
                    assert(code@ + target.2 =~= target.2);
                }
                for i in 0..n
                    invariant
                        n == parts@.len(),
                        sc_exprs(self.deep_view(), parts@.skip(i as int)) is Some,
                        sc_exprs(self.deep_view(), parts@.skip(i as int))->Some_0.0 == target.0,
                        sc_exprs(self.deep_view(), parts@.skip(i as int))->Some_0.1 == ds.skip(
                            i as int,
                        ),
                        code@ + sc_exprs(self.deep_view(), parts@.skip(i as int))->Some_0.2
                            == target.2,
                        part_addrs@.len() == i,
                        forall|q: int| 0 <= q < i ==> part_addrs@[q] as int == ds[q],
                        self.deep_view().free_reg >= self.deep_view().vars.len(),
                        self.deep_view().consts.len() <= 256,
                    decreases n - i,
                {
                    let ghost cc = self.deep_view();
                    let ghost rem = parts@.skip(i as int);
                    proof {
                        assert(rem[0] == parts@[i as int]);
                        lemma_sc_expr_shape(cc, parts@[i as int]);
                    }
                    let e = &parts[i];
                    proof {
                        let vv = *expr;
                        assert(decreases_to!(vv => vv->Mktup_0));
                        assert(decreases_to!(vv->Mktup_0 => vv->Mktup_0@));
                        assert(decreases_to!(vv->Mktup_0@ => vv->Mktup_0@[i as int]));
                        assert(*e == vv->Mktup_0@[i as int]);
                        assert(decreases_to!(*expr => *e));
                    }
                    let ghost step = sc_expr(cc, parts@[i as int])->Some_0;
                    let ghost tail = sc_exprs(step.0, rem.skip(1))->Some_0;
                    proof {
                        assert(sc_exprs(cc, rem)->Some_0 == (tail.0, seq![step.1] + tail.1,
                            step.2 + tail.2));
                    }
                    let (d, mut pc) = self.compile_expr(e);
                    let ghost pre_code = code@;
                    code.append(&mut pc);
                    part_addrs.push(d);
                    proof {
                        assert(rem.skip(1) =~= parts@.skip(i + 1));
                        assert(ds.skip(i as int) == seq![step.1] + tail.1);
                        assert(ds.skip(i as int)[0] == ds[i as int]);
                        assert(d as int == ds[i as int]);
                        assert(tail.1 =~= ds.skip(i as int).skip(1));
                        assert(ds.skip(i as int).skip(1) =~= ds.skip(i + 1));
                        assert(code@ =~= pre_code + step.2);
                        assert(code@ + tail.2 =~= pre_code + (step.2 + tail.2));
                    }
                }
                proof {
                    assert(parts@.skip(n as int) =~= Seq::<Expr<Name>>::empty());
                    assert(self.deep_view() == target.0);
                    assert(ds.skip(n as int) =~= Seq::<int>::empty());
                    assert(ds.len() == n);
                    assert(code@ + Seq::<Instr>::empty() =~= code@);
                    assert(code@ =~= target.2);
                }
                let start: u8 = if n == 0 {
                    0
                } else {
                    part_addrs[0]
                };
                // Release the element temporaries, highest first.
                let mut j: usize = 0;
                while j < n
                    invariant
                        n == parts@.len() && n == part_addrs@.len() && n == ds.len(),
                        0 <= j <= n,
                        forall|q: int| 0 <= q < n ==> part_addrs@[q] as int == ds[q],
                        pop_ok(self.deep_view(), ds.take((n - j) as int)),
                        spop_list(self.deep_view(), ds.take((n - j) as int)) == spop_list(
                            target.0,
                            ds,
                        ),
                        self.deep_view().vars == target.0.vars,
                        self.deep_view().consts == target.0.consts,
                        self.deep_view().max_reg == target.0.max_reg,
                    decreases n - j,
                {
                    let ghost cur = self.deep_view();
                    let ghost kept = ds.take((n - j) as int);
                    proof {
                        assert(kept.last() == ds[n - j - 1]);
                        assert(kept.drop_last() =~= ds.take((n - j - 1) as int));
                    }
                    let a = part_addrs[n - 1 - j];
                    self.pop_tmp(a);
                    j += 1;
                }
                proof {
                    assert(ds.take(0) =~= Seq::<int>::empty());
                    assert(self.deep_view() == spop_list(target.0, ds));
                }
                code.push(Instr::MkTup(reg, start, n as u8));
                proof {
                    let (cf, d, fcode) = sc_expr(c0, *expr)->Some_0;
                    if n > 0 {
                        assert(ds[0] == target.1[0]);
                    }
                    assert(code@ =~= fcode);
                    assert(self.deep_view() =~= cf);
                }
                (reg, code)
            },
        }
    }
}


/// The statement declares no new variable, not even inside a branch.
pub open spec fn no_declare_stmt(s: Stmt<Name>) -> bool
    decreases s,
{
    match s {
        Stmt::Declare(_) => false,
        Stmt::If(_, t, f) => no_declare_stmts(t@) && no_declare_stmts(f@),
        _ => true,
    }
}

/// No statement of the list declares a variable.
pub open spec fn no_declare_stmts(ss: Seq<Stmt<Name>>) -> bool
    decreases ss,
{
    ss.len() == 0 || (no_declare_stmt(ss[0]) && no_declare_stmts(ss.skip(1)))
}

/// The shape of a successful statement compilation: the cursor stays at
/// or above the variables, the pool stays bounded, the maximum never
/// falls, and a statement that declares nothing returns the cursor to
/// its pre-statement value with the variables untouched.
pub proof fn lemma_sc_stmt_shape(c: CtxM, s: Stmt<Name>)
    requires
        sc_stmt(c, s) is Some,
        c.free_reg >= c.vars.len(),
    ensures
        ({
            let (c1, code) = sc_stmt(c, s)->Some_0;
            &&& c1.free_reg >= c1.vars.len()
            &&& c1.max_reg >= c.max_reg
            &&& c.consts.len() <= 256 ==> c1.consts.len() <= 256
            &&& (s is Declare ==> c1.vars == c.vars.push(s->Declare_0) && c1.free_reg
                == c.free_reg + 1)
            &&& (no_declare_stmt(s) ==> c1.vars == c.vars && c1.free_reg == c.free_reg)
        }),
    decreases s,
{
    match s {
        Stmt::Declare(n) => {},
        Stmt::RawExpr(e) => {
            lemma_sc_expr_shape(c, e);
        },
        Stmt::Assign(n, e) => {
            lemma_sc_expr_shape(c, e);
        },
        Stmt::If(cond, t, f) => {
            lemma_sc_expr_shape(c, cond);
            let (ca, cd, cc) = sc_expr(c, cond)->Some_0;
            let c2 = spop(ca, cd);
            lemma_sc_stmts_shape(c2, t@);
            let (c3, tc) = sc_stmts(c2, t@)->Some_0;
            lemma_sc_stmts_shape(c3, f@);
        },
        Stmt::While(_, _) => {},
        Stmt::Continue => {},
        Stmt::Break => {},
        Stmt::Return(_) => {},
        Stmt::Defn(_, _) => {},
    }
}

/// The shape of a successful statement-list compilation.
pub proof fn lemma_sc_stmts_shape(c: CtxM, ss: Seq<Stmt<Name>>)
    requires
        sc_stmts(c, ss) is Some,
        c.free_reg >= c.vars.len(),
    ensures
        ({
            let (c1, code) = sc_stmts(c, ss)->Some_0;
            &&& c1.free_reg >= c1.vars.len()
            &&& c1.max_reg >= c.max_reg
            &&& c.consts.len() <= 256 ==> c1.consts.len() <= 256
            &&& (no_declare_stmts(ss) ==> c1.vars == c.vars && c1.free_reg == c.free_reg)
        }),
    decreases ss,
{
    if ss.len() > 0 {
        lemma_sc_stmt_shape(c, ss[0]);
        let (ca, code0) = sc_stmt(c, ss[0])->Some_0;
        lemma_sc_stmts_shape(ca, ss.skip(1));
    }
}

impl FunctionCtx {
    /// Compiles one statement to the instructions that perform it,
    /// exactly as [`sc_stmt`] says.
    #[verifier::rlimit(100)]
    pub fn compile_stmt(&mut self, stmt: &Stmt<Name>) -> (r: Vec<Instr>)
        requires
            sc_stmt(old(self).deep_view(), *stmt) is Some,
            old(self).free_reg as int >= old(self).vars@.len(),
            old(self).consts@.len() <= 256,
        ensures
            ({
                let (c1, code) = sc_stmt(old(self).deep_view(), *stmt)->Some_0;
                &&& final(self).deep_view() == c1
                &&& r@ == code
            }),
        decreases *stmt,
    {
        let ghost c0 = self.deep_view();
        proof {
            lemma_sc_stmt_shape(c0, *stmt);
        }
        match stmt {
            Stmt::Declare(n) => {
                let reg = self.push_tmp();
                self.vars.push(Name { id: n.id });
                proof {
                    assert(self.vars@ =~= c0.vars.push(*n));
                    assert(self.deep_view() =~= sc_stmt(c0, *stmt)->Some_0.0);
                    assert(Seq::<Instr>::empty() =~= sc_stmt(c0, *stmt)->Some_0.1);
                }
                let code: Vec<Instr> = Vec::new();
                proof {
                    assert(code@ =~= Seq::<Instr>::empty());
                }
                code
            },
            Stmt::RawExpr(e) => {
                proof {
                    lemma_sc_expr_shape(c0, *e);
                }
                let (reg, code) = self.compile_expr(e);
                self.pop_tmp(reg);
                proof {
                    assert(self.deep_view() =~= sc_stmt(c0, *stmt)->Some_0.0);
                }
                code
            },
            Stmt::Assign(n, e) => {
                let dst = match self.find_name(n) {
                    Some(i) => i,
                    None => {
                        proof {
                            assert(false);
                        }
                        unreached()
                    },
                };
                proof {
                    lemma_sc_expr_shape(c0, *e);
                }
                let (reg, mut code) = self.compile_expr(e);
                code.push(Instr::Copy(dst, reg));
                self.pop_tmp(reg);
                proof {
                    assert(self.deep_view() =~= sc_stmt(c0, *stmt)->Some_0.0);
                    assert(code@ =~= sc_stmt(c0, *stmt)->Some_0.1);
                }
                code
            },
            Stmt::If(cond, t, f) => {
                proof {
                    lemma_sc_expr_shape(c0, *cond);
                }
                let (cd, mut code) = self.compile_expr(cond);
                code.push(Instr::CondJump(cd, 2, 1));
                self.pop_tmp(cd);
                let ghost c2 = self.deep_view();
                proof {
                    lemma_sc_stmts_shape(c2, t@);
                    let vv = *stmt;
                    assert(decreases_to!(vv => vv->If_1));
                    assert(decreases_to!(vv->If_1 => vv->If_1@));
                }
                let mut true_code = self.compile(t.as_slice());
                let ghost c3 = self.deep_view();
                proof {
                    lemma_sc_stmts_shape(c3, f@);
                }
                let mut false_code = self.compile(f.as_slice());
                code.push(Instr::Jump((true_code.len() + 2) as i16));
                code.append(&mut true_code);
                let mut over: Vec<Instr> = Vec::new();
                over.push(Instr::Jump((false_code.len() + 1) as i16));
                code.append(&mut over);
                code.append(&mut false_code);
                proof {
                    assert(self.deep_view() =~= sc_stmt(c0, *stmt)->Some_0.0);
                    assert(code@ =~= sc_stmt(c0, *stmt)->Some_0.1);
                }
                code
            },
            Stmt::While(_, _) => {
                proof {
                    assert(false);
                }
                unreached()
            },
            Stmt::Continue => {
                proof {
                    assert(false);
                }
                unreached()
            },
            Stmt::Break => {
                proof {
                    assert(false);
                }
                unreached()
            },
            Stmt::Return(_) => {
                proof {
                    assert(false);
                }
                unreached()
            },
            Stmt::Defn(_, _) => {
                proof {
                    assert(false);
                }
                unreached()
            },
        }
    }

    /// Compiles a statement list in order, concatenating the emitted
    /// instructions, exactly as [`sc_stmts`] says.
    #[verifier::loop_isolation(false)]
    pub fn compile(&mut self, code: &[Stmt<Name>]) -> (r: Vec<Instr>)
        requires
            sc_stmts(old(self).deep_view(), code@) is Some,
            old(self).free_reg as int >= old(self).vars@.len(),
            old(self).consts@.len() <= 256,
        ensures
            ({
                let (c1, out) = sc_stmts(old(self).deep_view(), code@)->Some_0;
                &&& final(self).deep_view() == c1
                &&& r@ == out
            }),
        decreases code@,
    {
        let ghost c0 = self.deep_view();
        let ghost target = sc_stmts(c0, code@)->Some_0;
        let mut out: Vec<Instr> = Vec::new();
        let n = code.len();
        proof {
            assert(code@.skip(0) =~= code@);
            assert(sc_stmts(c0, code@) == Some(target));
            assert(out@ + target.1 =~= target.1);
        }
        for i in 0..n
            invariant
                n == code@.len(),
                sc_stmts(self.deep_view(), code@.skip(i as int)) is Some,
                sc_stmts(self.deep_view(), code@.skip(i as int))->Some_0.0 == target.0,
                out@ + sc_stmts(self.deep_view(), code@.skip(i as int))->Some_0.1 == target.1,
                self.deep_view().free_reg >= self.deep_view().vars.len(),
                self.deep_view().consts.len() <= 256,
            decreases n - i,
        {
            let ghost cc = self.deep_view();
            let ghost rem = code@.skip(i as int);
            proof {
                assert(rem[0] == code@[i as int]);
                lemma_sc_stmt_shape(cc, code@[i as int]);
            }
            let s = &code[i];
            proof {
                assert(decreases_to!(code@ => code@[i as int]));
                assert(*s == code@[i as int]);
            }
            let ghost step = sc_stmt(cc, code@[i as int])->Some_0;
            let ghost tail = sc_stmts(step.0, rem.skip(1))->Some_0;
            proof {
                assert(sc_stmts(cc, rem)->Some_0 == (tail.0, step.1 + tail.1));
            }
            let mut piece = self.compile_stmt(s);
            let ghost pre = out@;
            out.append(&mut piece);
            proof {
                assert(rem.skip(1) =~= code@.skip(i + 1));
                assert(out@ =~= pre + step.1);
                assert(out@ + tail.1 =~= pre + (step.1 + tail.1));
            }
        }
        proof {
            assert(code@.skip(n as int) =~= Seq::<Stmt<Name>>::empty());
            assert(self.deep_view() == target.0);
            assert(out@ + Seq::<Instr>::empty() =~= out@);
        }
        out
    }
}


/// Every register operand of the instruction lies below `m`.
pub open spec fn instr_regs_lt(i: Instr, m: int) -> bool {
    match i {
        Instr::Const(a, _) => (a as int) < m,
        Instr::Copy(a, b) => (a as int) < m && (b as int) < m,
        Instr::Add(a, b, c) => (a as int) < m && (b as int) < m && (c as int) < m,
        Instr::Sub(a, b, c) => (a as int) < m && (b as int) < m && (c as int) < m,
        Instr::Mul(a, b, c) => (a as int) < m && (b as int) < m && (c as int) < m,
        Instr::Div(a, b, c) => (a as int) < m && (b as int) < m && (c as int) < m,
        Instr::Rem(a, b, c) => (a as int) < m && (b as int) < m && (c as int) < m,
        Instr::And(a, b, c) => (a as int) < m && (b as int) < m && (c as int) < m,
        Instr::Orr(a, b, c) => (a as int) < m && (b as int) < m && (c as int) < m,
        Instr::Xor(a, b, c) => (a as int) < m && (b as int) < m && (c as int) < m,
        Instr::Eq(a, b, c) => (a as int) < m && (b as int) < m && (c as int) < m,
        Instr::Neq(a, b, c) => (a as int) < m && (b as int) < m && (c as int) < m,
        Instr::Lt(a, b, c) => (a as int) < m && (b as int) < m && (c as int) < m,
        Instr::Gt(a, b, c) => (a as int) < m && (b as int) < m && (c as int) < m,
        Instr::Leq(a, b, c) => (a as int) < m && (b as int) < m && (c as int) < m,
        Instr::Geq(a, b, c) => (a as int) < m && (b as int) < m && (c as int) < m,
        Instr::Jump(_) => true,
        Instr::CondJump(a, _, _) => (a as int) < m,
        Instr::MkTup(a, b, _) => (a as int) < m && (b as int) < m,
        Instr::IdxTup(a, b, c) => (a as int) < m && (b as int) < m && (c as int) < m,
        Instr::Call(a, b, c) => (a as int) < m && (b as int) < m && (c as int) < m,
        Instr::Return(a) => (match a {
            Some(r) => (r as int) < m,
            None => true,
        }),
        Instr::Read(a) => (a as int) < m,
        Instr::Write(a) => (a as int) < m,
    }
}

/// The bound is monotone.
proof fn lemma_instr_regs_lt_mono(code: Seq<Instr>, m1: int, m2: int)
    requires
        m1 <= m2,
        forall|k: int| 0 <= k < code.len() ==> instr_regs_lt(#[trigger] code[k], m1),
    ensures
        forall|k: int| 0 <= k < code.len() ==> instr_regs_lt(#[trigger] code[k], m2),
{
}

/// Allocator invariant, register-bound half: every register address in
/// the code a compiled expression emits lies below the recorded maximum,
/// and its destination does too.
#[verifier::rlimit(100)]
pub proof fn lemma_sc_expr_regs(c: CtxM, e: Expr<Name>)
    requires
        c.max_reg <= 255,
        sc_expr(c, e) is Some,
        c.vars.len() <= c.free_reg <= c.max_reg,
    ensures
        ({
            let (c1, d, code) = sc_expr(c, e)->Some_0;
            &&& c1.free_reg <= c1.max_reg
            &&& c1.max_reg <= 255
            &&& 0 <= d < c1.max_reg
            &&& forall|k: int| 0 <= k < code.len() ==> instr_regs_lt(#[trigger] code[k], c1.max_reg)
        }),
    decreases e,
{
    lemma_sc_expr_shape(c, e);
    match e {
        Expr::Lit(v) => {},
        Expr::Var(n) => {
            lemma_idx_of_name_range(c.vars, n);
        },
        Expr::Unop(_, _) => {},
        Expr::Call(_, _) => {},
        Expr::Binop(op, l, r) => {
            let c1 = spush(c)->Some_0;
            lemma_sc_expr_shape(c1, *l);
            lemma_sc_expr_regs(c1, *l);
            let (c2, ld, lc) = sc_expr(c1, *l)->Some_0;
            lemma_sc_expr_shape(c2, *r);
            lemma_sc_expr_regs(c2, *r);
            let (c3, rd, rc) = sc_expr(c2, *r)->Some_0;
            lemma_instr_regs_lt_mono(lc, c2.max_reg, c3.max_reg);
            let whole = lc + rc + seq![op_of(op, c.free_reg, ld, rd)];
            assert forall|k: int| 0 <= k < whole.len() implies instr_regs_lt(
                #[trigger] whole[k],
                c3.max_reg,
            ) by {
                if k < lc.len() {
                    assert(whole[k] == lc[k]);
                } else if k < lc.len() + rc.len() {
                    assert(whole[k] == rc[k - lc.len()]);
                } else {
                    assert(whole[k] == op_of(op, c.free_reg, ld, rd));
                }
            }
        },
        Expr::Index(t, ix) => {
            let c1 = spush(c)->Some_0;
            lemma_sc_expr_shape(c1, *t);
            lemma_sc_expr_regs(c1, *t);
            let (c2, td, tc) = sc_expr(c1, *t)->Some_0;
            lemma_sc_expr_shape(c2, *ix);
            lemma_sc_expr_regs(c2, *ix);
            let (c3, id, ic) = sc_expr(c2, *ix)->Some_0;
            lemma_instr_regs_lt_mono(tc, c2.max_reg, c3.max_reg);
            let ins = Instr::IdxTup(c.free_reg as u8, td as u8, id as u8);
            let whole = tc + ic + seq![ins];
            assert forall|k: int| 0 <= k < whole.len() implies instr_regs_lt(
                #[trigger] whole[k],
                c3.max_reg,
            ) by {
                if k < tc.len() {
                    assert(whole[k] == tc[k]);
                } else if k < tc.len() + ic.len() {
                    assert(whole[k] == ic[k - tc.len()]);
                } else {
                    assert(whole[k] == ins);
                }
            }
        },
        Expr::Mktup(parts) => {
            let c1 = spush(c)->Some_0;
            lemma_sc_exprs_shape(c1, parts@);
            lemma_sc_exprs_regs(c1, parts@);
            let (c2, ds, code) = sc_exprs(c1, parts@)->Some_0;
            lemma_spop_list_vars(c2, ds);
            let start: int = if ds.len() == 0 {
                0
            } else {
                ds[0]
            };
            let ins = Instr::MkTup(c.free_reg as u8, start as u8, parts@.len() as u8);
            let whole = code.push(ins);
            assert(instr_regs_lt(ins, c2.max_reg));
            assert forall|k: int| 0 <= k < whole.len() implies instr_regs_lt(
                #[trigger] whole[k],
                c2.max_reg,
            ) by {
                if k < code.len() {
                    assert(whole[k] == code[k]);
                } else {
                    assert(whole[k] == ins);
                }
            }
        },
    }
}

/// Register bounds for a compiled expression list.
pub proof fn lemma_sc_exprs_regs(c: CtxM, es: Seq<Expr<Name>>)
    requires
        c.max_reg <= 255,
        sc_exprs(c, es) is Some,
        c.vars.len() <= c.free_reg <= c.max_reg,
    ensures
        ({
            let (c1, ds, code) = sc_exprs(c, es)->Some_0;
            &&& c1.free_reg <= c1.max_reg
            &&& c1.max_reg <= 255
            &&& forall|q: int| 0 <= q < ds.len() ==> 0 <= #[trigger] ds[q] < c1.max_reg
            &&& forall|k: int| 0 <= k < code.len() ==> instr_regs_lt(#[trigger] code[k], c1.max_reg)
        }),
    decreases es,
{
    if es.len() > 0 {
        lemma_sc_expr_shape(c, es[0]);
        lemma_sc_expr_regs(c, es[0]);
        let (ca, d, code0) = sc_expr(c, es[0])->Some_0;
        lemma_sc_exprs_shape(ca, es.skip(1));
        lemma_sc_exprs_regs(ca, es.skip(1));
        let (c1, ds1, rest) = sc_exprs(ca, es.skip(1))->Some_0;
        lemma_instr_regs_lt_mono(code0, ca.max_reg, c1.max_reg);
    }
}

/// Allocator invariant, register-bound half, for one statement.
pub proof fn lemma_sc_stmt_regs(c: CtxM, s: Stmt<Name>)
    requires
        c.max_reg <= 255,
        sc_stmt(c, s) is Some,
        c.vars.len() <= c.free_reg <= c.max_reg,
    ensures
        ({
            let (c1, code) = sc_stmt(c, s)->Some_0;
            &&& c1.free_reg <= c1.max_reg
            &&& c1.max_reg <= 255
            &&& forall|k: int| 0 <= k < code.len() ==> instr_regs_lt(#[trigger] code[k], c1.max_reg)
        }),
    decreases s,
{
    lemma_sc_stmt_shape(c, s);
    match s {
        Stmt::Declare(n) => {},
        Stmt::RawExpr(e) => {
            lemma_sc_expr_shape(c, e);
            lemma_sc_expr_regs(c, e);
        },
        Stmt::Assign(n, e) => {
            lemma_idx_of_name_range(c.vars, n);
            lemma_sc_expr_shape(c, e);
            lemma_sc_expr_regs(c, e);
        },
        Stmt::If(cond, t, f) => {
            lemma_sc_expr_shape(c, cond);
            lemma_sc_expr_regs(c, cond);
            let (ca, cd, cc) = sc_expr(c, cond)->Some_0;
            let c2 = spop(ca, cd);
            lemma_sc_stmts_shape(c2, t@);
            lemma_sc_stmts_regs(c2, t@);
            let (c3, tc) = sc_stmts(c2, t@)->Some_0;
            lemma_sc_stmts_shape(c3, f@);
            lemma_sc_stmts_regs(c3, f@);
            let (c4, fc) = sc_stmts(c3, f@)->Some_0;
            lemma_instr_regs_lt_mono(cc, ca.max_reg, c4.max_reg);
            lemma_instr_regs_lt_mono(tc, c3.max_reg, c4.max_reg);
        },
        Stmt::While(_, _) => {},
        Stmt::Continue => {},
        Stmt::Break => {},
        Stmt::Return(_) => {},
        Stmt::Defn(_, _) => {},
    }
}

/// Allocator invariant, register-bound half, for a whole statement list:
/// after compiling a function's statements, every register address in
/// the emitted code lies below the recorded local-register count.
pub proof fn lemma_sc_stmts_regs(c: CtxM, ss: Seq<Stmt<Name>>)
    requires
        c.max_reg <= 255,
        sc_stmts(c, ss) is Some,
        c.vars.len() <= c.free_reg <= c.max_reg,
    ensures
        ({
            let (c1, code) = sc_stmts(c, ss)->Some_0;
            &&& c1.free_reg <= c1.max_reg
            &&& c1.max_reg <= 255
            &&& forall|k: int| 0 <= k < code.len() ==> instr_regs_lt(#[trigger] code[k], c1.max_reg)
        }),
    decreases ss,
{
    if ss.len() > 0 {
        lemma_sc_stmt_shape(c, ss[0]);
        lemma_sc_stmt_regs(c, ss[0]);
        let (ca, code0) = sc_stmt(c, ss[0])->Some_0;
        lemma_sc_stmts_shape(ca, ss.skip(1));
        lemma_sc_stmts_regs(ca, ss.skip(1));
        let (c1, rest) = sc_stmts(ca, ss.skip(1))->Some_0;
        lemma_instr_regs_lt_mono(code0, ca.max_reg, c1.max_reg);
    }
}


/// Allocator invariant, cursor half: compiling any statement that
/// declares no new variable (not even inside a branch) returns the
/// free-register cursor to its pre-statement value and leaves the
/// variables untouched.
pub proof fn lemma_cursor_restored(c: CtxM, s: Stmt<Name>)
    requires
        sc_stmt(c, s) is Some,
        no_declare_stmt(s),
        c.free_reg >= c.vars.len(),
    ensures
        sc_stmt(c, s)->Some_0.0.free_reg == c.free_reg,
        sc_stmt(c, s)->Some_0.0.vars == c.vars,
{
    lemma_sc_stmt_shape(c, s);
}

/// Allocator invariant, register half, at the function level: compiling
/// a function's statements from a fresh state leaves every register
/// address in the emitted instructions strictly below the recorded
/// local-register count.
pub proof fn lemma_function_registers_bounded(ss: Seq<Stmt<Name>>)
    requires
        sc_stmts(fresh_ctx(), ss) is Some,
    ensures
        ({
            let (c1, code) = sc_stmts(fresh_ctx(), ss)->Some_0;
            forall|k: int| 0 <= k < code.len() ==> instr_regs_lt(#[trigger] code[k], c1.max_reg)
        }),
{
    lemma_sc_stmts_regs(fresh_ctx(), ss);
}

/// The state `FunctionCtx::new` starts from.
pub open spec fn fresh_ctx() -> CtxM {
    CtxM { vars: Seq::empty(), consts: Seq::empty(), free_reg: 0, max_reg: 0 }
}


/// The larger of two integers.
pub open spec fn imax(a: int, b: int) -> int {
    if a >= b {
        a
    } else {
        b
    }
}

/// One past the highest register operand the instruction names (0 where
/// it names none).  Pool indices, jump offsets and tuple lengths are not
/// registers.
pub open spec fn instr_sup(i: Instr) -> int {
    match i {
        Instr::Const(a, _) => a + 1,
        Instr::Copy(a, b) => imax(a + 1, b + 1),
        Instr::Add(a, b, c) => imax(imax(a + 1, b + 1), c + 1),
        Instr::Sub(a, b, c) => imax(imax(a + 1, b + 1), c + 1),
        Instr::Mul(a, b, c) => imax(imax(a + 1, b + 1), c + 1),
        Instr::Div(a, b, c) => imax(imax(a + 1, b + 1), c + 1),
        Instr::Rem(a, b, c) => imax(imax(a + 1, b + 1), c + 1),
        Instr::And(a, b, c) => imax(imax(a + 1, b + 1), c + 1),
        Instr::Orr(a, b, c) => imax(imax(a + 1, b + 1), c + 1),
        Instr::Xor(a, b, c) => imax(imax(a + 1, b + 1), c + 1),
        Instr::Eq(a, b, c) => imax(imax(a + 1, b + 1), c + 1),
        Instr::Neq(a, b, c) => imax(imax(a + 1, b + 1), c + 1),
        Instr::Lt(a, b, c) => imax(imax(a + 1, b + 1), c + 1),
        Instr::Gt(a, b, c) => imax(imax(a + 1, b + 1), c + 1),
        Instr::Leq(a, b, c) => imax(imax(a + 1, b + 1), c + 1),
        Instr::Geq(a, b, c) => imax(imax(a + 1, b + 1), c + 1),
        Instr::Jump(_) => 0,
        Instr::CondJump(a, _, _) => a + 1,
        Instr::MkTup(a, b, _) => imax(a + 1, b + 1),
        Instr::IdxTup(a, b, c) => imax(imax(a + 1, b + 1), c + 1),
        Instr::Call(a, b, c) => imax(imax(a + 1, b + 1), c + 1),
        Instr::Return(a) => (match a {
            Some(r) => r + 1,
            None => 0,
        }),
        Instr::Read(a) => a + 1,
        Instr::Write(a) => a + 1,
    }
}

/// One past the highest register address occurring anywhere in the code
/// (0 for empty code).
pub open spec fn code_sup(code: Seq<Instr>) -> int
    decreases code.len(),
{
    if code.len() == 0 {
        0
    } else {
        imax(code_sup(code.drop_last()), instr_sup(code.last()))
    }
}

/// [`code_sup`] distributes over concatenation.
proof fn lemma_code_sup_concat(a: Seq<Instr>, b: Seq<Instr>)
    ensures
        code_sup(a + b) == imax(code_sup(a), code_sup(b)),
    decreases b.len(),
{
    if b.len() == 0 {
        assert(a + b =~= a);
    } else {
        assert((a + b).drop_last() =~= a + b.drop_last());
        assert((a + b).last() == b.last());
        lemma_code_sup_concat(a, b.drop_last());
    }
}

/// [`code_sup`] of a push.
proof fn lemma_code_sup_push(a: Seq<Instr>, i: Instr)
    ensures
        code_sup(a.push(i)) == imax(code_sup(a), instr_sup(i)),
{
    assert(a.push(i).drop_last() =~= a);
    assert(a.push(i).last() == i);
}

/// [`code_sup`] never drops below zero.
proof fn lemma_code_sup_nonneg(code: Seq<Instr>)
    ensures
        code_sup(code) >= 0,
    decreases code.len(),
{
    if code.len() > 0 {
        lemma_code_sup_nonneg(code.drop_last());
    }
}

/// Allocator invariant, attainment half, for expressions: the maximum
/// after compiling an expression is exactly the old maximum or one past
/// the highest register the emitted code names.
#[verifier::rlimit(100)]
#[verifier::spinoff_prover]
pub proof fn lemma_sc_expr_sup(c: CtxM, e: Expr<Name>)
    requires
        sc_expr(c, e) is Some,
        c.vars.len() <= c.free_reg <= c.max_reg <= 255,
    ensures
        ({
            let (c1, d, code) = sc_expr(c, e)->Some_0;
            c1.max_reg == imax(c.max_reg, code_sup(code))
        }),
    decreases e,
{
    lemma_sc_expr_shape(c, e);
    lemma_sc_expr_regs(c, e);
    match e {
        Expr::Lit(v) => {
            let (c1, d, code) = sc_expr(c, e)->Some_0;
            assert(code.drop_last() =~= Seq::<Instr>::empty());
            assert(code_sup(Seq::<Instr>::empty()) == 0);
            assert(code.last() == Instr::Const(c.free_reg as u8, sget(
                spush(c)->Some_0.consts,
                val_m(v),
            )->Some_0.1 as u8));
        },
        Expr::Var(n) => {},
        Expr::Unop(_, _) => {},
        Expr::Call(_, _) => {},
        Expr::Binop(op, l, r) => {
            let ca = spush(c)->Some_0;
            lemma_sc_expr_shape(ca, *l);
            lemma_sc_expr_regs(ca, *l);
            lemma_sc_expr_sup(ca, *l);
            let (c2, ld, lc) = sc_expr(ca, *l)->Some_0;
            lemma_sc_expr_shape(c2, *r);
            lemma_sc_expr_regs(c2, *r);
            lemma_sc_expr_sup(c2, *r);
            let (c3, rd, rc) = sc_expr(c2, *r)->Some_0;
            let ins = op_of(op, c.free_reg, ld, rd);
            lemma_code_sup_concat(lc, rc);
            lemma_code_sup_concat(lc + rc, seq![ins]);
            assert(code_sup(seq![ins]) == instr_sup(ins)) by {
                assert(seq![ins].drop_last() =~= Seq::<Instr>::empty());
                assert(code_sup(Seq::<Instr>::empty()) == 0);
                assert(seq![ins].last() == ins);
            }
            assert(instr_sup(ins) == imax(imax(c.free_reg + 1, ld + 1), rd + 1));
        },
        Expr::Index(t, ix) => {
            let ca = spush(c)->Some_0;
            lemma_sc_expr_shape(ca, *t);
            lemma_sc_expr_regs(ca, *t);
            lemma_sc_expr_sup(ca, *t);
            let (c2, td, tc) = sc_expr(ca, *t)->Some_0;
            lemma_sc_expr_shape(c2, *ix);
            lemma_sc_expr_regs(c2, *ix);
            lemma_sc_expr_sup(c2, *ix);
            let (c3, id, ic) = sc_expr(c2, *ix)->Some_0;
            let ins = Instr::IdxTup(c.free_reg as u8, td as u8, id as u8);
            lemma_code_sup_concat(tc, ic);
            lemma_code_sup_concat(tc + ic, seq![ins]);
            assert(code_sup(seq![ins]) == instr_sup(ins)) by {
                assert(seq![ins].drop_last() =~= Seq::<Instr>::empty());
                assert(code_sup(Seq::<Instr>::empty()) == 0);
                assert(seq![ins].last() == ins);
            }
        },
        Expr::Mktup(parts) => {
            let ca = spush(c)->Some_0;
            lemma_sc_exprs_shape(ca, parts@);
            lemma_sc_exprs_regs(ca, parts@);
            lemma_sc_exprs_sup(ca, parts@);
            let (c2, ds, pcode) = sc_exprs(ca, parts@)->Some_0;
            lemma_spop_list_vars(c2, ds);
            let start: int = if ds.len() == 0 {
                0
            } else {
                ds[0]
            };
            let ins = Instr::MkTup(c.free_reg as u8, start as u8, parts@.len() as u8);
            lemma_code_sup_push(pcode, ins);
            if ds.len() > 0 {
                assert(0 <= ds[0] < c2.max_reg);
            }
        },
    }
}

/// Attainment half for expression lists.
pub proof fn lemma_sc_exprs_sup(c: CtxM, es: Seq<Expr<Name>>)
    requires
        sc_exprs(c, es) is Some,
        c.vars.len() <= c.free_reg <= c.max_reg <= 255,
    ensures
        ({
            let (c1, ds, code) = sc_exprs(c, es)->Some_0;
            c1.max_reg == imax(c.max_reg, code_sup(code))
        }),
    decreases es,
{
    if es.len() == 0 {
    } else {
        lemma_sc_expr_shape(c, es[0]);
        lemma_sc_expr_regs(c, es[0]);
        lemma_sc_expr_sup(c, es[0]);
        let (ca, d, code0) = sc_expr(c, es[0])->Some_0;
        lemma_sc_exprs_sup(ca, es.skip(1));
        let (c1, ds1, rest) = sc_exprs(ca, es.skip(1))->Some_0;
        lemma_code_sup_concat(code0, rest);
    }
}

/// Allocator invariant, attainment half, for statements: the maximum is
/// exactly the largest of the old maximum, one past the highest register
/// the emitted code names, and the number of declared variables.
#[verifier::rlimit(100)]
#[verifier::spinoff_prover]
pub proof fn lemma_sc_stmt_sup(c: CtxM, s: Stmt<Name>)
    requires
        sc_stmt(c, s) is Some,
        c.vars.len() <= c.free_reg <= c.max_reg <= 255,
    ensures
        ({
            let (c1, code) = sc_stmt(c, s)->Some_0;
            &&& c1.max_reg == imax(imax(c.max_reg, code_sup(code)), c1.vars.len() as int)
            &&& c1.vars.len() >= c.vars.len()
        }),
    decreases s,
{
    lemma_sc_stmt_shape(c, s);
    match s {
        Stmt::Declare(n) => {},
        Stmt::RawExpr(e) => {
            lemma_sc_expr_shape(c, e);
            lemma_sc_expr_sup(c, e);
        },
        Stmt::Assign(n, e) => {
            lemma_idx_of_name_range(c.vars, n);
            lemma_sc_expr_shape(c, e);
            lemma_sc_expr_regs(c, e);
            lemma_sc_expr_sup(c, e);
            let (ca, d, ecode) = sc_expr(c, e)->Some_0;
            let i = idx_of_name(c.vars, n);
            let ins = Instr::Copy(i as u8, d as u8);
            lemma_code_sup_push(ecode, ins);
        },
        Stmt::If(cond, t, f) => {
            lemma_sc_expr_shape(c, cond);
            lemma_sc_expr_regs(c, cond);
            lemma_sc_expr_sup(c, cond);
            let (ca, cd, cc) = sc_expr(c, cond)->Some_0;
            let c2 = spop(ca, cd);
            lemma_sc_stmts_shape(c2, t@);
            lemma_sc_stmts_regs(c2, t@);
            lemma_sc_stmts_sup(c2, t@);
            let (c3, tc) = sc_stmts(c2, t@)->Some_0;
            lemma_sc_stmts_shape(c3, f@);
            lemma_sc_stmts_regs(c3, f@);
            lemma_sc_stmts_sup(c3, f@);
            let (c4, fc) = sc_stmts(c3, f@)->Some_0;
            let cj = Instr::CondJump(cd as u8, 2, 1);
            let j1 = Instr::Jump((tc.len() + 2) as i16);
            let j2 = Instr::Jump((fc.len() + 1) as i16);
            let head = cc.push(cj).push(j1);
            lemma_code_sup_push(cc, cj);
            lemma_code_sup_push(cc.push(cj), j1);
            lemma_code_sup_concat(head, tc);
            lemma_code_sup_concat(head + tc, seq![j2]);
            lemma_code_sup_concat(head + tc + seq![j2], fc);
            assert(code_sup(seq![j2]) == 0) by {
                assert(seq![j2].drop_last() =~= Seq::<Instr>::empty());
                assert(code_sup(Seq::<Instr>::empty()) == 0);
                assert(seq![j2].last() == j2);
            }
            lemma_code_sup_nonneg(tc);
            lemma_code_sup_nonneg(fc);
        },
        Stmt::While(_, _) => {},
        Stmt::Continue => {},
        Stmt::Break => {},
        Stmt::Return(_) => {},
        Stmt::Defn(_, _) => {},
    }
}

/// Attainment half for statement lists.
pub proof fn lemma_sc_stmts_sup(c: CtxM, ss: Seq<Stmt<Name>>)
    requires
        sc_stmts(c, ss) is Some,
        c.vars.len() <= c.free_reg <= c.max_reg <= 255,
    ensures
        ({
            let (c1, code) = sc_stmts(c, ss)->Some_0;
            &&& c1.max_reg == imax(imax(c.max_reg, code_sup(code)), c1.vars.len() as int)
            &&& c1.vars.len() >= c.vars.len()
        }),
    decreases ss,
{
    if ss.len() == 0 {
    } else {
        lemma_sc_stmt_shape(c, ss[0]);
        lemma_sc_stmt_regs(c, ss[0]);
        lemma_sc_stmt_sup(c, ss[0]);
        let (ca, code0) = sc_stmt(c, ss[0])->Some_0;
        lemma_sc_stmts_sup(ca, ss.skip(1));
        let (c1, rest) = sc_stmts(ca, ss.skip(1))->Some_0;
        lemma_code_sup_concat(code0, rest);
        lemma_code_sup_nonneg(rest);
    }
}

/// Allocator invariant, attainment half, at the function level: starting
/// from a fresh state, the recorded local-register count is exactly the
/// larger of one past the highest register address the emitted code
/// names and the number of declared variables.  In particular, whenever
/// every declared variable's register is named by some instruction, the
/// count is exactly one past the highest register used.
pub proof fn lemma_function_register_count(ss: Seq<Stmt<Name>>)
    requires
        sc_stmts(fresh_ctx(), ss) is Some,
    ensures
        ({
            let (c1, code) = sc_stmts(fresh_ctx(), ss)->Some_0;
            &&& c1.max_reg == imax(code_sup(code), c1.vars.len() as int)
            &&& c1.vars.len() as int <= code_sup(code) ==> c1.max_reg == code_sup(code)
        }),
{
    lemma_sc_stmts_sup(fresh_ctx(), ss);
    let (c1, code) = sc_stmts(fresh_ctx(), ss)->Some_0;
    lemma_code_sup_nonneg(code);
}

} // verus!
