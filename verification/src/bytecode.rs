//! The value and instruction model shared by the parser, the compiler and
//! the execution engine.
//!
//! A [`Val`] is one of the closed set of runtime value kinds; floats are
//! carried as their IEEE-754 binary64 bit patterns (see [`crate::float_ops`]).
//! The mathematical model of a value is [`ValM`], reached through
//! `deep_view`; tuples become `Seq`s there.  [`Instr`] is plain data and is
//! its own model.

use vstd::prelude::*;

use crate::float_ops::{
    float_add_bits, float_div_bits, float_mul_bits, float_rem_bits, float_sub_bits, fp64_bits_add,
    fp64_bits_div, fp64_bits_eq, fp64_bits_le, fp64_bits_lt, fp64_bits_mul, fp64_bits_rem,
    fp64_bits_sub, fp64_ieee_eq, fp64_le, fp64_lt,
};

verus! {

/// A register address: an 8-bit index into a frame's locals.
pub type Addr = u8;

/// The declared local-register count of a function.
pub type AddrSize = u8;

/// An index into a program's list of function definitions.
pub type FnId = u16;

/// One fixed-width instruction.  Operands are register addresses unless a
/// comment says otherwise.
#[derive(Clone, Copy, Debug, PartialEq, Eq)]
pub enum Instr {
    /// Loads a constant, `a = k[b]` (`b` is a constant-pool index).
    Const(Addr, Addr),
    /// Copies `a = b`.
    Copy(Addr, Addr),
    /// `a = b + c`.
    Add(Addr, Addr, Addr),
    /// `a = b - c`.
    Sub(Addr, Addr, Addr),
    /// `a = b * c`.
    Mul(Addr, Addr, Addr),
    /// `a = b / c`.
    Div(Addr, Addr, Addr),
    /// `a = b % c`.
    Rem(Addr, Addr, Addr),
    /// `a = b & c`: boolean and as well as bitwise and.
    And(Addr, Addr, Addr),
    /// `a = b | c`: boolean or as well as bitwise or.
    Orr(Addr, Addr, Addr),
    /// `a = b ^ c`: boolean exclusive or as well as bitwise xor.
    Xor(Addr, Addr, Addr),
    /// `a = b == c`: equality of any two values; differing kinds are
    /// unequal, and floats compare as IEEE-754 values.
    Eq(Addr, Addr, Addr),
    /// `a = b != c`.
    Neq(Addr, Addr, Addr),
    /// `a = b < c`.
    Lt(Addr, Addr, Addr),
    /// `a = b > c`.
    Gt(Addr, Addr, Addr),
    /// `a = b <= c`.
    Leq(Addr, Addr, Addr),
    /// `a = b >= c`.
    Geq(Addr, Addr, Addr),
    /// Jumps program execution by `n` instructions (a signed relative
    /// offset from the current instruction index).
    Jump(i16),
    /// Jumps by the first offset if `a` holds true, by the second if it
    /// holds false; `a` must hold a boolean.
    CondJump(Addr, i8, i8),
    /// Constructs a tuple from a contiguous range of registers: the second
    /// operand is the first register, the third the length.  Length 0
    /// builds the empty tuple whatever the start register holds.
    MkTup(Addr, Addr, u8),
    /// Indexes a tuple, `a = b[c]`.
    IdxTup(Addr, Addr, Addr),
    /// Calls a function, `a = b(c)`: `b` must hold a function reference,
    /// the value in `c` is passed as register 0 of the callee's frame, and
    /// the result lands in `a`.
    Call(Addr, Addr, Addr),
    /// Returns the value stored in the register, or an empty tuple when no
    /// register is named.
    Return(Option<Addr>),
    /// Reads one byte from the input stream into `a` as an integer 0..=255.
    Read(Addr),
    /// Writes the low 8 bits of the integer in `a` to the output stream.
    Write(Addr),
}

/// A runtime value.  Floats are IEEE-754 binary64 bit patterns; tuples are
/// immutable and copied by value; a `C` value names a function by index.
#[derive(Debug, PartialEq)]
pub enum Val {
    B(bool),
    I(i64),
    F(u64),
    T(Vec<Val>),
    C(FnId),
}

/// The mathematical model of a [`Val`]: integers widen to `int` and tuples
/// become sequences.
#[verifier::ext_equal]
pub enum ValM {
    B(bool),
    I(int),
    F(u64),
    T(Seq<ValM>),
    C(int),
}

/// The model of one value.
pub open spec fn val_m(v: Val) -> ValM
    decreases v,
{
    match v {
        Val::B(b) => ValM::B(b),
        Val::I(i) => ValM::I(i as int),
        Val::F(bits) => ValM::F(bits),
        Val::T(ts) => ValM::T(vals_m(ts@)),
        Val::C(f) => ValM::C(f as int),
    }
}

/// The models of a sequence of values, element by element.
pub open spec fn vals_m(s: Seq<Val>) -> Seq<ValM>
    decreases s,
{
    if s.len() == 0 {
        Seq::empty()
    } else {
        vals_m(s.subrange(0, s.len() - 1)).push(val_m(s[s.len() - 1]))
    }
}

/// [`vals_m`] maps [`val_m`] over the sequence.
pub proof fn lemma_vals_m(s: Seq<Val>)
    ensures
        vals_m(s).len() == s.len(),
        forall|i: int| 0 <= i < s.len() ==> vals_m(s)[i] == val_m(s[i]),
    decreases s.len(),
{
    if s.len() > 0 {
        lemma_vals_m(s.subrange(0, s.len() - 1));
    }
}

impl DeepView for Val {
    type V = ValM;

    open spec fn deep_view(&self) -> ValM {
        val_m(*self)
    }
}

/// Equality as the `Eq`/`Neq` instructions and the constant pool decide
/// it: kind by kind, tuples element by element, and floats as IEEE-754
/// values (the two zeroes are equal; a NaN equals nothing, itself
/// included).  Values of differing kinds are unequal, never an error.
pub open spec fn val_ieee_eq(a: ValM, b: ValM) -> bool
    decreases a,
{
    match (a, b) {
        (ValM::B(x), ValM::B(y)) => x == y,
        (ValM::I(x), ValM::I(y)) => x == y,
        (ValM::F(x), ValM::F(y)) => fp64_ieee_eq(x, y),
        (ValM::C(x), ValM::C(y)) => x == y,
        (ValM::T(s1), ValM::T(s2)) => vals_ieee_eq(s1, s2),
        _ => false,
    }
}

/// [`val_ieee_eq`] over two sequences, element by element.
pub open spec fn vals_ieee_eq(s1: Seq<ValM>, s2: Seq<ValM>) -> bool
    decreases s1,
{
    if s1.len() == 0 {
        s2.len() == 0
    } else {
        &&& s2.len() == s1.len()
        &&& val_ieee_eq(s1.last(), s2.last())
        &&& vals_ieee_eq(s1.drop_last(), s2.drop_last())
    }
}

/// [`vals_ieee_eq`] holds exactly on equal-length, element-wise equal
/// sequences.
pub proof fn lemma_vals_ieee_eq(s1: Seq<ValM>, s2: Seq<ValM>)
    ensures
        vals_ieee_eq(s1, s2) == (s1.len() == s2.len() && (forall|i: int|
            0 <= i < s1.len() ==> #[trigger] val_ieee_eq(s1[i], s2[i]))),
    decreases s1.len(),
{
    if s1.len() == 0 {
    } else if s1.len() == s2.len() {
        lemma_vals_ieee_eq(s1.drop_last(), s2.drop_last());
        if val_ieee_eq(s1.last(), s2.last()) && vals_ieee_eq(s1.drop_last(), s2.drop_last()) {
            assert forall|i: int| 0 <= i < s1.len() implies #[trigger] val_ieee_eq(
                s1[i],
                s2[i],
            ) by {
                if i < s1.len() - 1 {
                    assert(s1.drop_last()[i] == s1[i]);
                    assert(s2.drop_last()[i] == s2[i]);
                    assert(val_ieee_eq(s1.drop_last()[i], s2.drop_last()[i]));
                } else {
                    assert(s1[i] == s1.last());
                    assert(s2[i] == s2.last());
                }
            }
        } else {
            if forall|i: int| 0 <= i < s1.len() ==> #[trigger] val_ieee_eq(s1[i], s2[i]) {
                assert(val_ieee_eq(s1[s1.len() - 1], s2[s1.len() - 1]));
                assert(val_ieee_eq(s1.last(), s2.last()));
                assert forall|i: int|
                    0 <= i < s1.drop_last().len() implies #[trigger] val_ieee_eq(
                    s1.drop_last()[i],
                    s2.drop_last()[i],
                ) by {
                    assert(s1.drop_last()[i] == s1[i]);
                    assert(s2.drop_last()[i] == s2[i]);
                    assert(val_ieee_eq(s1[i], s2[i]));
                }
                assert(vals_ieee_eq(s1.drop_last(), s2.drop_last()));
                assert(false);
            }
        }
    }
}

impl View for Val {
    type V = ValM;

    open spec fn view(&self) -> ValM {
        self.deep_view()
    }
}

/// Why an evaluation failed.  Exactly one error aborts an evaluation; bytes
/// already written to the output stay written.
#[derive(Clone, Copy, Debug, PartialEq, Eq, Structural)]
pub enum EvalError {
    /// An operand had a kind the instruction does not accept.
    TypeMismatch,
    /// Integer arithmetic left the representable range.
    Overflow,
    /// An integer division or remainder by zero.
    DivideByZero,
    /// A register, constant-pool, tuple or instruction index out of range.
    OutOfRange,
    /// A callee or entry point that is not a valid function reference.
    InvalidFunction,
    /// A byte could not be read from the input (including end of input).
    IoFailure,
}

/// One compiled function: its constant pool, its instruction sequence, and
/// its declared local-register count.
#[derive(Debug, PartialEq)]
pub struct Defn {
    pub consts: Vec<Val>,
    pub code: Vec<Instr>,
    pub local_count: AddrSize,
}

/// The model of a [`Defn`].
pub struct DefnM {
    pub consts: Seq<ValM>,
    pub code: Seq<Instr>,
    pub local_count: u8,
}

impl DeepView for Defn {
    type V = DefnM;

    open spec fn deep_view(&self) -> DefnM {
        DefnM { consts: self.consts.deep_view(), code: self.code@, local_count: self.local_count }
    }
}

impl View for Defn {
    type V = DefnM;

    open spec fn view(&self) -> DefnM {
        self.deep_view()
    }
}

/// A piece of compiled code that's ready to be evaluated: the ordered list
/// of function definitions and the entry-point index.
#[derive(Debug, PartialEq)]
pub struct Program {
    pub defns: Vec<Defn>,
    pub entry_point: FnId,
}

/// The model of a [`Program`].
pub struct ProgramM {
    pub defns: Seq<DefnM>,
    pub entry_point: int,
}

impl DeepView for Program {
    type V = ProgramM;

    open spec fn deep_view(&self) -> ProgramM {
        ProgramM { defns: self.defns.deep_view(), entry_point: self.entry_point as int }
    }
}

impl View for Program {
    type V = ProgramM;

    open spec fn view(&self) -> ProgramM {
        self.deep_view()
    }
}

impl Val {
    /// A structurally equal copy of this value.
    #[verifier::loop_isolation(false)]
    pub fn duplicate(&self) -> (r: Val)
        ensures
            r.deep_view() == self.deep_view(),
        decreases *self,
    {
        match self {
            Val::B(b) => Val::B(*b),
            Val::I(i) => Val::I(*i),
            Val::F(bits) => Val::F(*bits),
            Val::C(f) => Val::C(*f),
            Val::T(ts) => {
                let mut out: Vec<Val> = Vec::new();
                let n = ts.len();
                for k in 0..n
                    invariant
                        out.len() == k,
                        n == ts.len(),
                        forall|j: int| 0 <= j < k ==> out.deep_view()[j] == ts.deep_view()[j],
                    decreases n - k,
                {
                    let e = &ts[k];
                    proof {
                        let vv = *self;
                        assert(decreases_to!(vv => vv->T_0));
                        assert(decreases_to!(vv->T_0 => vv->T_0@));
                        assert(decreases_to!(vv->T_0@ => vv->T_0@[k as int]));
                        assert(*e == vv->T_0@[k as int]);
                        assert(decreases_to!(*self => *e));
                    }
                    out.push(e.duplicate());
                }
                proof {
                    lemma_vals_m(out@);
                    lemma_vals_m(ts@);
                    assert forall|j: int| 0 <= j < n implies vals_m(out@)[j] == vals_m(
                        ts@,
                    )[j] by {
                        assert(out.deep_view()[j] == ts.deep_view()[j]);
                    }
                    assert(vals_m(out@) =~= vals_m(ts@));
                }
                Val::T(out)
            },
        }
    }

    /// Equality as the `Eq`/`Neq` instructions decide it
    /// ([`val_ieee_eq`]): kind by kind, tuples element by element, floats
    /// as IEEE-754 values.  Values of differing kinds are unequal, never
    /// an error.
    #[verifier::loop_isolation(false)]
    pub fn equals(&self, other: &Val) -> (r: bool)
        ensures
            r == val_ieee_eq(self.deep_view(), other.deep_view()),
        decreases *self,
    {
        match (self, other) {
            (Val::B(a), Val::B(b)) => *a == *b,
            (Val::I(a), Val::I(b)) => *a == *b,
            (Val::F(a), Val::F(b)) => fp64_bits_eq(*a, *b),
            (Val::C(a), Val::C(b)) => *a == *b,
            (Val::T(ta), Val::T(tb)) => {
                if ta.len() != tb.len() {
                    proof {
                        lemma_vals_m(ta@);
                        lemma_vals_m(tb@);
                        lemma_vals_ieee_eq(vals_m(ta@), vals_m(tb@));
                    }
                    false
                } else {
                    let n = ta.len();
                    let mut k: usize = 0;
                    let mut same = true;
                    while k < n
                        invariant
                            0 <= k <= n,
                            n == ta.len() && n == tb.len(),
                            same == forall|j: int|
                                0 <= j < k ==> #[trigger] val_ieee_eq(
                                    ta.deep_view()[j],
                                    tb.deep_view()[j],
                                ),
                        decreases n - k,
                    {
                        let e = &ta[k];
                        proof {
                            let vv = *self;
                            assert(decreases_to!(vv => vv->T_0));
                            assert(decreases_to!(vv->T_0 => vv->T_0@));
                            assert(decreases_to!(vv->T_0@ => vv->T_0@[k as int]));
                            assert(*e == vv->T_0@[k as int]);
                            assert(decreases_to!(*self => *e));
                        }
                        let elems_eq = e.equals(&tb[k]);
                        proof {
                            assert(ta.deep_view()[k as int] == val_m(ta@[k as int]));
                            assert(tb.deep_view()[k as int] == val_m(tb@[k as int]));
                        }
                        if !elems_eq {
                            same = false;
                        }
                        k += 1;
                    }
                    proof {
                        lemma_vals_m(ta@);
                        lemma_vals_m(tb@);
                        lemma_vals_ieee_eq(vals_m(ta@), vals_m(tb@));
                        if same {
                            assert forall|j: int| 0 <= j < n implies #[trigger] val_ieee_eq(
                                vals_m(ta@)[j],
                                vals_m(tb@)[j],
                            ) by {
                                assert(val_ieee_eq(ta.deep_view()[j], tb.deep_view()[j]));
                                assert(ta.deep_view()[j] == val_m(ta@[j]));
                                assert(tb.deep_view()[j] == val_m(tb@[j]));
                            }
                        } else {
                            let j = choose|j: int|
                                0 <= j < n && !val_ieee_eq(ta.deep_view()[j], tb.deep_view()[j]);
                            assert(ta.deep_view()[j] == val_m(ta@[j]));
                            assert(tb.deep_view()[j] == val_m(tb@[j]));
                            assert(!val_ieee_eq(vals_m(ta@)[j], vals_m(tb@)[j]));
                        }
                    }
                    same
                }
            },
            _ => {
                proof {
                    assert(!val_ieee_eq(self.deep_view(), other.deep_view()));
                }
                false
            },
        }
    }
}

/// What `Add` yields on two value models: checked on integers, IEEE-754 on
/// floats, a kind mismatch otherwise.
pub open spec fn add_vals(a: ValM, b: ValM) -> Result<ValM, EvalError> {
    match (a, b) {
        (ValM::I(x), ValM::I(y)) => if i64::MIN <= x + y <= i64::MAX {
            Ok(ValM::I(x + y))
        } else {
            Err(EvalError::Overflow)
        },
        (ValM::F(x), ValM::F(y)) => Ok(ValM::F(float_add_bits(x, y))),
        _ => Err(EvalError::TypeMismatch),
    }
}

/// What `Sub` yields on two value models.
pub open spec fn sub_vals(a: ValM, b: ValM) -> Result<ValM, EvalError> {
    match (a, b) {
        (ValM::I(x), ValM::I(y)) => if i64::MIN <= x - y <= i64::MAX {
            Ok(ValM::I(x - y))
        } else {
            Err(EvalError::Overflow)
        },
        (ValM::F(x), ValM::F(y)) => Ok(ValM::F(float_sub_bits(x, y))),
        _ => Err(EvalError::TypeMismatch),
    }
}

/// What `Mul` yields on two value models.
pub open spec fn mul_vals(a: ValM, b: ValM) -> Result<ValM, EvalError> {
    match (a, b) {
        (ValM::I(x), ValM::I(y)) => if i64::MIN <= x * y <= i64::MAX {
            Ok(ValM::I(x * y))
        } else {
            Err(EvalError::Overflow)
        },
        (ValM::F(x), ValM::F(y)) => Ok(ValM::F(float_mul_bits(x, y))),
        _ => Err(EvalError::TypeMismatch),
    }
}

/// Truncating (round towards zero) quotient of two integers, as machine
/// division computes it.
pub open spec fn quot_trunc(a: int, b: int) -> int {
    let q = abs_int(a) / abs_int(b);
    if (a < 0) != (b < 0) {
        -q
    } else {
        q
    }
}

/// Remainder matching [`quot_trunc`]: `a - b * quot_trunc(a, b)`.
pub open spec fn rem_trunc(a: int, b: int) -> int {
    a - b * quot_trunc(a, b)
}

/// The absolute value of an integer.
pub open spec fn abs_int(a: int) -> int {
    if a < 0 {
        -a
    } else {
        a
    }
}

/// What `Div` yields on two value models: a zero integer divisor is a
/// failure; float division never fails.
pub open spec fn div_vals(a: ValM, b: ValM) -> Result<ValM, EvalError> {
    match (a, b) {
        (ValM::I(x), ValM::I(y)) => if y == 0 {
            Err(EvalError::DivideByZero)
        } else if i64::MIN <= quot_trunc(x, y) <= i64::MAX {
            Ok(ValM::I(quot_trunc(x, y)))
        } else {
            Err(EvalError::Overflow)
        },
        (ValM::F(x), ValM::F(y)) => Ok(ValM::F(float_div_bits(x, y))),
        _ => Err(EvalError::TypeMismatch),
    }
}

/// What `Rem` yields on two value models.
pub open spec fn rem_vals(a: ValM, b: ValM) -> Result<ValM, EvalError> {
    match (a, b) {
        (ValM::I(x), ValM::I(y)) => if y == 0 {
            Err(EvalError::DivideByZero)
        } else if i64::MIN <= quot_trunc(x, y) <= i64::MAX {
            Ok(ValM::I(rem_trunc(x, y)))
        } else {
            Err(EvalError::Overflow)
        },
        (ValM::F(x), ValM::F(y)) => Ok(ValM::F(float_rem_bits(x, y))),
        _ => Err(EvalError::TypeMismatch),
    }
}

/// What `And` yields: bitwise on integers, boolean on booleans.
pub open spec fn and_vals(a: ValM, b: ValM) -> Result<ValM, EvalError> {
    match (a, b) {
        (ValM::I(x), ValM::I(y)) => Ok(ValM::I(((x as i64) & (y as i64)) as int)),
        (ValM::B(x), ValM::B(y)) => Ok(ValM::B(x && y)),
        _ => Err(EvalError::TypeMismatch),
    }
}

/// What `Orr` yields: bitwise on integers, boolean on booleans.
pub open spec fn orr_vals(a: ValM, b: ValM) -> Result<ValM, EvalError> {
    match (a, b) {
        (ValM::I(x), ValM::I(y)) => Ok(ValM::I(((x as i64) | (y as i64)) as int)),
        (ValM::B(x), ValM::B(y)) => Ok(ValM::B(x || y)),
        _ => Err(EvalError::TypeMismatch),
    }
}

/// What `Xor` yields: bitwise on integers, exclusive or on booleans.
pub open spec fn xor_vals(a: ValM, b: ValM) -> Result<ValM, EvalError> {
    match (a, b) {
        (ValM::I(x), ValM::I(y)) => Ok(ValM::I(((x as i64) ^ (y as i64)) as int)),
        (ValM::B(x), ValM::B(y)) => Ok(ValM::B(x != y)),
        _ => Err(EvalError::TypeMismatch),
    }
}

/// What `Lt` yields: defined between two integers, two floats, or two
/// booleans; any other pairing fails.
pub open spec fn lt_vals(a: ValM, b: ValM) -> Result<ValM, EvalError> {
    match (a, b) {
        (ValM::I(x), ValM::I(y)) => Ok(ValM::B(x < y)),
        (ValM::F(x), ValM::F(y)) => Ok(ValM::B(fp64_lt(x, y))),
        (ValM::B(x), ValM::B(y)) => Ok(ValM::B(!x && y)),
        _ => Err(EvalError::TypeMismatch),
    }
}

/// What `Leq` yields.
pub open spec fn leq_vals(a: ValM, b: ValM) -> Result<ValM, EvalError> {
    match (a, b) {
        (ValM::I(x), ValM::I(y)) => Ok(ValM::B(x <= y)),
        (ValM::F(x), ValM::F(y)) => Ok(ValM::B(fp64_le(x, y))),
        (ValM::B(x), ValM::B(y)) => Ok(ValM::B(!x || y)),
        _ => Err(EvalError::TypeMismatch),
    }
}

impl Val {
    /// Checked addition as the `Add` instruction performs it.
    pub fn add(&self, rhs: &Val) -> (r: Result<Val, EvalError>)
        ensures
            res_view(r) == add_vals(self.deep_view(), rhs.deep_view()),
    {
        match (self, rhs) {
            (Val::I(x), Val::I(y)) => {
                let s: i128 = *x as i128 + *y as i128;
                if i64::MIN as i128 <= s && s <= i64::MAX as i128 {
                    Ok(Val::I(s as i64))
                } else {
                    Err(EvalError::Overflow)
                }
            },
            (Val::F(x), Val::F(y)) => Ok(Val::F(fp64_bits_add(*x, *y))),
            _ => Err(EvalError::TypeMismatch),
        }
    }

    /// Checked subtraction as the `Sub` instruction performs it.
    pub fn sub(&self, rhs: &Val) -> (r: Result<Val, EvalError>)
        ensures
            res_view(r) == sub_vals(self.deep_view(), rhs.deep_view()),
    {
        match (self, rhs) {
            (Val::I(x), Val::I(y)) => {
                let s: i128 = *x as i128 - *y as i128;
                if i64::MIN as i128 <= s && s <= i64::MAX as i128 {
                    Ok(Val::I(s as i64))
                } else {
                    Err(EvalError::Overflow)
                }
            },
            (Val::F(x), Val::F(y)) => Ok(Val::F(fp64_bits_sub(*x, *y))),
            _ => Err(EvalError::TypeMismatch),
        }
    }

    /// Checked multiplication as the `Mul` instruction performs it.
    pub fn mul(&self, rhs: &Val) -> (r: Result<Val, EvalError>)
        ensures
            res_view(r) == mul_vals(self.deep_view(), rhs.deep_view()),
    {
        match (self, rhs) {
            (Val::I(x), Val::I(y)) => {
                let xi: i128 = *x as i128;
                let yi: i128 = *y as i128;
                proof {
                    assert(-0x4000_0000_0000_0000_0000_0000_0000_0000 <= xi * yi
                        <= 0x4000_0000_0000_0000_0000_0000_0000_0000) by (nonlinear_arith)
                        requires
                            -0x8000_0000_0000_0000 <= xi <= 0x7fff_ffff_ffff_ffff,
                            -0x8000_0000_0000_0000 <= yi <= 0x7fff_ffff_ffff_ffff,
                    ;
                }
                let s: i128 = xi * yi;
                if i64::MIN as i128 <= s && s <= i64::MAX as i128 {
                    Ok(Val::I(s as i64))
                } else {
                    Err(EvalError::Overflow)
                }
            },
            (Val::F(x), Val::F(y)) => Ok(Val::F(fp64_bits_mul(*x, *y))),
            _ => Err(EvalError::TypeMismatch),
        }
    }

    /// Checked division as the `Div` instruction performs it: a zero
    /// integer divisor fails, float division never does.
    pub fn div(&self, rhs: &Val) -> (r: Result<Val, EvalError>)
        ensures
            res_view(r) == div_vals(self.deep_view(), rhs.deep_view()),
    {
        match (self, rhs) {
            (Val::I(x), Val::I(y)) => {
                if *y == 0 {
                    Err(EvalError::DivideByZero)
                } else {
                    match div_trunc_i64(*x, *y) {
                        Some(q) => Ok(Val::I(q)),
                        None => Err(EvalError::Overflow),
                    }
                }
            },
            (Val::F(x), Val::F(y)) => Ok(Val::F(fp64_bits_div(*x, *y))),
            _ => Err(EvalError::TypeMismatch),
        }
    }

    /// Checked remainder as the `Rem` instruction performs it.
    pub fn rem(&self, rhs: &Val) -> (r: Result<Val, EvalError>)
        ensures
            res_view(r) == rem_vals(self.deep_view(), rhs.deep_view()),
    {
        match (self, rhs) {
            (Val::I(x), Val::I(y)) => {
                if *y == 0 {
                    Err(EvalError::DivideByZero)
                } else {
                    match rem_trunc_i64(*x, *y) {
                        Some(q) => Ok(Val::I(q)),
                        None => Err(EvalError::Overflow),
                    }
                }
            },
            (Val::F(x), Val::F(y)) => Ok(Val::F(fp64_bits_rem(*x, *y))),
            _ => Err(EvalError::TypeMismatch),
        }
    }

    /// `And` as the instruction performs it.
    pub fn bitand(&self, rhs: &Val) -> (r: Result<Val, EvalError>)
        ensures
            res_view(r) == and_vals(self.deep_view(), rhs.deep_view()),
    {
        match (self, rhs) {
            (Val::I(x), Val::I(y)) => Ok(Val::I(*x & *y)),
            (Val::B(x), Val::B(y)) => Ok(Val::B(*x && *y)),
            _ => Err(EvalError::TypeMismatch),
        }
    }

    /// `Orr` as the instruction performs it.
    pub fn bitor(&self, rhs: &Val) -> (r: Result<Val, EvalError>)
        ensures
            res_view(r) == orr_vals(self.deep_view(), rhs.deep_view()),
    {
        match (self, rhs) {
            (Val::I(x), Val::I(y)) => Ok(Val::I(*x | *y)),
            (Val::B(x), Val::B(y)) => Ok(Val::B(*x || *y)),
            _ => Err(EvalError::TypeMismatch),
        }
    }

    /// `Xor` as the instruction performs it.
    pub fn bitxor(&self, rhs: &Val) -> (r: Result<Val, EvalError>)
        ensures
            res_view(r) == xor_vals(self.deep_view(), rhs.deep_view()),
    {
        match (self, rhs) {
            (Val::I(x), Val::I(y)) => Ok(Val::I(*x ^ *y)),
            (Val::B(x), Val::B(y)) => Ok(Val::B(*x != *y)),
            _ => Err(EvalError::TypeMismatch),
        }
    }

    /// `Lt` as the instruction performs it.
    pub fn lt(&self, rhs: &Val) -> (r: Result<Val, EvalError>)
        ensures
            res_view(r) == lt_vals(self.deep_view(), rhs.deep_view()),
    {
        match (self, rhs) {
            (Val::I(x), Val::I(y)) => Ok(Val::B(*x < *y)),
            (Val::F(x), Val::F(y)) => Ok(Val::B(fp64_bits_lt(*x, *y))),
            (Val::B(x), Val::B(y)) => Ok(Val::B(!*x && *y)),
            _ => Err(EvalError::TypeMismatch),
        }
    }

    /// `Leq` as the instruction performs it.
    pub fn leq(&self, rhs: &Val) -> (r: Result<Val, EvalError>)
        ensures
            res_view(r) == leq_vals(self.deep_view(), rhs.deep_view()),
    {
        match (self, rhs) {
            (Val::I(x), Val::I(y)) => Ok(Val::B(*x <= *y)),
            (Val::F(x), Val::F(y)) => Ok(Val::B(fp64_bits_le(*x, *y))),
            (Val::B(x), Val::B(y)) => Ok(Val::B(!*x || *y)),
            _ => Err(EvalError::TypeMismatch),
        }
    }
}

/// The model of an evaluation step's value-or-error result.
pub open spec fn res_view(r: Result<Val, EvalError>) -> Result<ValM, EvalError> {
    match r {
        Ok(v) => Ok(v.deep_view()),
        Err(e) => Err(e),
    }
}

/// Characterises the truncating quotient and remainder through the
/// magnitudes of the operands.
proof fn lemma_trunc_div_mag(a: int, b: int)
    requires
        b != 0,
    ensures
        quot_trunc(a, b) == (if (a < 0) != (b < 0) {
            -(abs_int(a) / abs_int(b))
        } else {
            abs_int(a) / abs_int(b)
        }),
        rem_trunc(a, b) == (if a < 0 {
            -(abs_int(a) % abs_int(b))
        } else {
            abs_int(a) % abs_int(b)
        }),
        0 <= abs_int(a) / abs_int(b) <= abs_int(a),
        0 <= abs_int(a) % abs_int(b) < abs_int(b),
{
    let ua = abs_int(a);
    let ub = abs_int(b);
    let q = ua / ub;
    let m = ua % ub;
    assert(ua == ub * q + m && 0 <= m < ub && 0 <= q <= ua) by (nonlinear_arith)
        requires
            ua >= 0 && ub > 0 && q == ua / ub && m == ua % ub,
    ;
    if a >= 0 && b > 0 {
        assert(a - b * q == m);
    } else if a >= 0 && b < 0 {
        assert(b * -q == ub * q) by (nonlinear_arith)
            requires
                ub == -b,
        ;
        assert(a - b * -q == m);
    } else if a < 0 && b > 0 {
        assert(b * -q == -(ub * q)) by (nonlinear_arith)
            requires
                ub == b,
        ;
        assert(a - b * -q == -m);
    } else {
        assert(b * q == -(ub * q)) by (nonlinear_arith)
            requires
                ub == -b,
        ;
        assert(a - b * q == -m);
    }
}

/// The magnitude of a machine integer, in a machine word.
fn abs_u64(a: i64) -> (r: u64)
    ensures
        r as int == abs_int(a as int),
{
    if a >= 0 {
        a as u64
    } else if a == i64::MIN {
        0x8000_0000_0000_0000u64
    } else {
        (-a) as u64
    }
}

/// Truncating division on machine integers; `None` exactly on the one
/// overflowing case (the minimum value divided by minus one).
fn div_trunc_i64(a: i64, b: i64) -> (r: Option<i64>)
    requires
        b != 0,
    ensures
        (match r {
            Some(q) => i64::MIN <= quot_trunc(a as int, b as int) <= i64::MAX && q as int
                == quot_trunc(a as int, b as int),
            None => !(i64::MIN <= quot_trunc(a as int, b as int) <= i64::MAX),
        }),
{
    proof {
        lemma_trunc_div_mag(a as int, b as int);
    }
    let ua = abs_u64(a);
    let ub = abs_u64(b);
    let uq: u64 = ua / ub;
    if (a < 0) == (b < 0) {
        if uq <= i64::MAX as u64 {
            Some(uq as i64)
        } else {
            None
        }
    } else {
        if uq <= i64::MAX as u64 {
            Some(-(uq as i64))
        } else {
            Some(i64::MIN)
        }
    }
}

/// Truncating remainder on machine integers, `a - b * quot_trunc(a, b)`;
/// `None` exactly where the quotient overflows.
fn rem_trunc_i64(a: i64, b: i64) -> (r: Option<i64>)
    requires
        b != 0,
    ensures
        (match r {
            Some(m) => i64::MIN <= quot_trunc(a as int, b as int) <= i64::MAX && m as int
                == rem_trunc(a as int, b as int),
            None => !(i64::MIN <= quot_trunc(a as int, b as int) <= i64::MAX),
        }),
{
    proof {
        lemma_trunc_div_mag(a as int, b as int);
    }
    let ua = abs_u64(a);
    let ub = abs_u64(b);
    let uq: u64 = ua / ub;
    if (a < 0) == (b < 0) && uq > i64::MAX as u64 {
        None
    } else {
        let um: u64 = ua % ub;
        if a < 0 {
            Some(-(um as i64))
        } else {
            Some(um as i64)
        }
    }
}

} // verus!
