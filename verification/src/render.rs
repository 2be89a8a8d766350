//! The pretty-printer: renders a program back to the textual assembly
//! format, one instruction per line, grouped by function with each
//! function's constants on its header line.
//!
//! The rendered text of a value, instruction or program is given by the
//! spec functions here; the executable renderers are proved to produce
//! exactly those bytes.

use vstd::prelude::*;

use crate::bytecode::{vals_m, DefnM, Instr, Program, ProgramM, Val, ValM};
use crate::dec::{dec_of_int, dec_of_nat};
use crate::float_ops::{float_text_bits, fp64_bits_text};
use crate::parse::has_dot;
use crate::parse_util::BufM;

verus! {

/// The bytes of `' '`.
pub open spec fn r_sp() -> Seq<u8> {
    seq![32u8]
}

/// The bytes of `' := '`.
pub open spec fn r_assign_op() -> Seq<u8> {
    seq![32u8, 58u8, 61u8, 32u8]
}

/// The bytes of `'x'`.
pub open spec fn r_x() -> Seq<u8> {
    seq![120u8]
}

/// The bytes of `'k'`.
pub open spec fn r_k() -> Seq<u8> {
    seq![107u8]
}

/// The bytes of `'f'`.
pub open spec fn r_f() -> Seq<u8> {
    seq![102u8]
}

/// The bytes of `'jump '`.
pub open spec fn r_jump_sp() -> Seq<u8> {
    seq![106u8, 117u8, 109u8, 112u8, 32u8]
}

/// The bytes of `'cond '`.
pub open spec fn r_cond_sp() -> Seq<u8> {
    seq![99u8, 111u8, 110u8, 100u8, 32u8]
}

/// The bytes of `'return'`.
pub open spec fn r_return_w() -> Seq<u8> {
    seq![114u8, 101u8, 116u8, 117u8, 114u8, 110u8]
}

/// The bytes of `'return x'`.
pub open spec fn r_return_sp() -> Seq<u8> {
    seq![114u8, 101u8, 116u8, 117u8, 114u8, 110u8, 32u8, 120u8]
}

/// The bytes of `' := read'`.
pub open spec fn r_read_rhs() -> Seq<u8> {
    seq![32u8, 58u8, 61u8, 32u8, 114u8, 101u8, 97u8, 100u8]
}

/// The bytes of `'write x'`.
pub open spec fn r_write_sp() -> Seq<u8> {
    seq![119u8, 114u8, 105u8, 116u8, 101u8, 32u8, 120u8]
}

/// The bytes of `'('`.
pub open spec fn r_lparen() -> Seq<u8> {
    seq![40u8]
}

/// The bytes of `')'`.
pub open spec fn r_rparen() -> Seq<u8> {
    seq![41u8]
}

/// The bytes of `'..'`.
pub open spec fn r_dotdot() -> Seq<u8> {
    seq![46u8, 46u8]
}

/// The bytes of `'['`.
pub open spec fn r_lbrack() -> Seq<u8> {
    seq![91u8]
}

/// The bytes of `']'`.
pub open spec fn r_rbrack() -> Seq<u8> {
    seq![93u8]
}

/// The bytes of `', '`.
pub open spec fn r_comma_sp() -> Seq<u8> {
    seq![44u8, 32u8]
}

/// The bytes of `'true'`.
pub open spec fn r_true_w() -> Seq<u8> {
    seq![116u8, 114u8, 117u8, 101u8]
}

/// The bytes of `'false'`.
pub open spec fn r_false_w() -> Seq<u8> {
    seq![102u8, 97u8, 108u8, 115u8, 101u8]
}

/// The bytes of `'.0'`.
pub open spec fn r_dot_zero() -> Seq<u8> {
    seq![46u8, 48u8]
}

/// The bytes of `'defn f'`.
pub open spec fn r_defn_sp() -> Seq<u8> {
    seq![100u8, 101u8, 102u8, 110u8, 32u8, 102u8]
}

/// The bytes of `' :'`.
pub open spec fn r_colon_sp() -> Seq<u8> {
    seq![32u8, 58u8]
}

/// The bytes of `'\n    '`.
pub open spec fn r_nl_indent() -> Seq<u8> {
    seq![10u8, 32u8, 32u8, 32u8, 32u8]
}

/// The bytes of `'\n\n'`.
pub open spec fn r_nl_nl() -> Seq<u8> {
    seq![10u8, 10u8]
}


/// A register reference `x<N>`.
pub open spec fn r_reg(n: int) -> Seq<u8> {
    r_x() + dec_of_nat(n)
}

/// The text of one instruction, as one line of assembly.
pub open spec fn render_instr(i: Instr) -> Seq<u8> {
    match i {
        Instr::Const(a, b) => r_reg(a as int) + r_assign_op() + r_k() + dec_of_nat(b as int),
        Instr::Copy(a, b) => r_reg(a as int) + r_assign_op() + r_reg(b as int),
        Instr::Add(a, b, c) => r_binop(a as int, b as int, c as int, seq![43u8]),
        Instr::Sub(a, b, c) => r_binop(a as int, b as int, c as int, seq![45u8]),
        Instr::Mul(a, b, c) => r_binop(a as int, b as int, c as int, seq![42u8]),
        Instr::Div(a, b, c) => r_binop(a as int, b as int, c as int, seq![47u8]),
        Instr::Rem(a, b, c) => r_binop(a as int, b as int, c as int, seq![37u8]),
        Instr::And(a, b, c) => r_binop(a as int, b as int, c as int, seq![38u8]),
        Instr::Orr(a, b, c) => r_binop(a as int, b as int, c as int, seq![124u8]),
        Instr::Xor(a, b, c) => r_binop(a as int, b as int, c as int, seq![94u8]),
        Instr::Eq(a, b, c) => r_binop(a as int, b as int, c as int, seq![61u8, 61u8]),
        Instr::Neq(a, b, c) => r_binop(a as int, b as int, c as int, seq![33u8, 61u8]),
        Instr::Lt(a, b, c) => r_binop(a as int, b as int, c as int, seq![60u8]),
        Instr::Gt(a, b, c) => r_binop(a as int, b as int, c as int, seq![62u8]),
        Instr::Leq(a, b, c) => r_binop(a as int, b as int, c as int, seq![60u8, 61u8]),
        Instr::Geq(a, b, c) => r_binop(a as int, b as int, c as int, seq![62u8, 61u8]),
        Instr::Jump(off) => r_jump_sp() + dec_of_int(off as int),
        Instr::CondJump(a, t, f) => r_cond_sp() + r_reg(a as int) + r_sp() + dec_of_int(t as int)
            + r_sp() + dec_of_int(f as int),
        Instr::MkTup(a, b, len) => r_reg(a as int) + r_assign_op() + r_lparen() + r_reg(b as int)
            + r_dotdot() + r_reg(len as int) + r_rparen(),
        Instr::IdxTup(a, b, c) => r_reg(a as int) + r_assign_op() + r_reg(b as int) + r_lbrack()
            + r_reg(c as int) + r_rbrack(),
        Instr::Call(a, b, c) => r_reg(a as int) + r_assign_op() + r_reg(b as int) + r_lparen()
            + r_reg(c as int) + r_rparen(),
        Instr::Return(None) => r_return_w(),
        Instr::Return(Some(a)) => r_return_sp() + dec_of_nat(a as int),
        Instr::Read(a) => r_reg(a as int) + r_read_rhs(),
        Instr::Write(a) => r_write_sp() + dec_of_nat(a as int),
    }
}

/// The text of a binary-operator instruction.
pub open spec fn r_binop(a: int, b: int, c: int, op: Seq<u8>) -> Seq<u8> {
    r_reg(a) + r_assign_op() + r_reg(b) + r_sp() + op + r_sp() + r_reg(c)
}

/// The text of a float constant: the formatter's text, with `.0` added
/// when it shows no dot (so the token re-parses as a float).
pub open spec fn render_float(bits: u64) -> Seq<u8> {
    let t = float_text_bits(bits);
    if has_dot(t) {
        t
    } else {
        t + r_dot_zero()
    }
}

/// The text of one value.
pub open spec fn render_val(v: ValM) -> Seq<u8>
    decreases v,
{
    match v {
        ValM::B(b) => if b {
            r_true_w()
        } else {
            r_false_w()
        },
        ValM::I(i) => dec_of_int(i),
        ValM::F(bits) => render_float(bits),
        ValM::C(f) => r_f() + dec_of_nat(f),
        ValM::T(ts) => r_lparen() + render_vals(ts) + r_rparen(),
    }
}

/// Tuple elements, comma-separated.
pub open spec fn render_vals(vs: Seq<ValM>) -> Seq<u8>
    decreases vs,
{
    if vs.len() == 0 {
        Seq::empty()
    } else if vs.len() == 1 {
        render_val(vs[0])
    } else {
        render_val(vs[0]) + r_comma_sp() + render_vals(vs.skip(1))
    }
}

/// Appending an element appends a separator and its text.
proof fn lemma_render_vals_push(vs: Seq<ValM>, v: ValM)
    requires
        vs.len() > 0,
    ensures
        render_vals(vs.push(v)) == render_vals(vs) + r_comma_sp() + render_val(v),
    decreases vs.len(),
{
    let p = vs.push(v);
    assert(p[0] == vs[0]);
    if vs.len() == 1 {
        assert(p.skip(1) =~= seq![v]);
        assert(render_vals(seq![v]) == render_val(v)) by {
            assert(seq![v][0] == v);
        }
        assert(render_vals(p) =~= render_vals(vs) + r_comma_sp() + render_val(v));
    } else {
        assert(p.skip(1) =~= vs.skip(1).push(v));
        lemma_render_vals_push(vs.skip(1), v);
        assert(render_vals(p) == render_val(p[0]) + r_comma_sp() + render_vals(p.skip(1)));
        assert(render_val(vs[0]) + r_comma_sp() + (render_vals(vs.skip(1)) + r_comma_sp()
            + render_val(v)) =~= (render_val(vs[0]) + r_comma_sp() + render_vals(vs.skip(1)))
            + r_comma_sp() + render_val(v));
        assert(render_vals(p) =~= render_vals(vs) + r_comma_sp() + render_val(v));
    }
}

/// The header line of function `idx` with its constants.
pub open spec fn render_header(d: DefnM, idx: int) -> Seq<u8> {
    r_defn_sp() + dec_of_nat(idx) + r_sp() + dec_of_nat(d.local_count as int) + r_colon_sp()
        + render_consts(d.consts)
}

/// The constants of a header, each preceded by one space.
pub open spec fn render_consts(ks: Seq<ValM>) -> Seq<u8>
    decreases ks,
{
    if ks.len() == 0 {
        Seq::empty()
    } else {
        render_consts(ks.drop_last()) + r_sp() + render_val(ks.last())
    }
}

/// One function: its header, then each instruction indented on its own
/// line.
pub open spec fn render_defn(d: DefnM, idx: int) -> Seq<u8> {
    render_header(d, idx) + render_code(d.code)
}

/// The instruction lines of a function.
pub open spec fn render_code(code: Seq<Instr>) -> Seq<u8>
    decreases code,
{
    if code.len() == 0 {
        Seq::empty()
    } else {
        render_code(code.drop_last()) + r_nl_indent() + render_instr(code.last())
    }
}

/// The whole program: its functions in order, separated by blank lines.
pub open spec fn render_program(p: ProgramM) -> Seq<u8> {
    render_defns(p.defns)
}

/// The functions up to `n`, separated by blank lines.
pub open spec fn render_defns(ds: Seq<DefnM>) -> Seq<u8>
    decreases ds,
{
    if ds.len() == 0 {
        Seq::empty()
    } else if ds.len() == 1 {
        render_defn(ds[0], 0)
    } else {
        render_defns(ds.drop_last()) + r_nl_nl() + render_defn(ds.last(), ds.len() - 1)
    }
}

/// Builds [`r_sp`].
fn rmk_sp() -> (r: Vec<u8>)
    ensures
        r@ == r_sp(),
{
    let mut v: Vec<u8> = Vec::new();
    v.push(32);
    proof {
        assert(v@ =~= r_sp());
    }
    v
}

/// Builds [`r_assign_op`].
fn rmk_assign_op() -> (r: Vec<u8>)
    ensures
        r@ == r_assign_op(),
{
    let mut v: Vec<u8> = Vec::new();
    v.push(32);
    v.push(58);
    v.push(61);
    v.push(32);
    proof {
        assert(v@ =~= r_assign_op());
    }
    v
}

/// Builds [`r_x`].
fn rmk_x() -> (r: Vec<u8>)
    ensures
        r@ == r_x(),
{
    let mut v: Vec<u8> = Vec::new();
    v.push(120);
    proof {
        assert(v@ =~= r_x());
    }
    v
}

/// Builds [`r_k`].
fn rmk_k() -> (r: Vec<u8>)
    ensures
        r@ == r_k(),
{
    let mut v: Vec<u8> = Vec::new();
    v.push(107);
    proof {
        assert(v@ =~= r_k());
    }
    v
}

/// Builds [`r_f`].
fn rmk_f() -> (r: Vec<u8>)
    ensures
        r@ == r_f(),
{
    let mut v: Vec<u8> = Vec::new();
    v.push(102);
    proof {
        assert(v@ =~= r_f());
    }
    v
}

/// Builds [`r_jump_sp`].
fn rmk_jump_sp() -> (r: Vec<u8>)
    ensures
        r@ == r_jump_sp(),
{
    let mut v: Vec<u8> = Vec::new();
    v.push(106);
    v.push(117);
    v.push(109);
    v.push(112);
    v.push(32);
    proof {
        assert(v@ =~= r_jump_sp());
    }
    v
}

/// Builds [`r_cond_sp`].
fn rmk_cond_sp() -> (r: Vec<u8>)
    ensures
        r@ == r_cond_sp(),
{
    let mut v: Vec<u8> = Vec::new();
    v.push(99);
    v.push(111);
    v.push(110);
    v.push(100);
    v.push(32);
    proof {
        assert(v@ =~= r_cond_sp());
    }
    v
}

/// Builds [`r_return_w`].
fn rmk_return_w() -> (r: Vec<u8>)
    ensures
        r@ == r_return_w(),
{
    let mut v: Vec<u8> = Vec::new();
    v.push(114);
    v.push(101);
    v.push(116);
    v.push(117);
    v.push(114);
    v.push(110);
    proof {
        assert(v@ =~= r_return_w());
    }
    v
}

/// Builds [`r_return_sp`].
fn rmk_return_sp() -> (r: Vec<u8>)
    ensures
        r@ == r_return_sp(),
{
    let mut v: Vec<u8> = Vec::new();
    v.push(114);
    v.push(101);
    v.push(116);
    v.push(117);
    v.push(114);
    v.push(110);
    v.push(32);
    v.push(120);
    proof {
        assert(v@ =~= r_return_sp());
    }
    v
}

/// Builds [`r_read_rhs`].
fn rmk_read_rhs() -> (r: Vec<u8>)
    ensures
        r@ == r_read_rhs(),
{
    let mut v: Vec<u8> = Vec::new();
    v.push(32);
    v.push(58);
    v.push(61);
    v.push(32);
    v.push(114);
    v.push(101);
    v.push(97);
    v.push(100);
    proof {
        assert(v@ =~= r_read_rhs());
    }
    v
}

/// Builds [`r_write_sp`].
fn rmk_write_sp() -> (r: Vec<u8>)
    ensures
        r@ == r_write_sp(),
{
    let mut v: Vec<u8> = Vec::new();
    v.push(119);
    v.push(114);
    v.push(105);
    v.push(116);
    v.push(101);
    v.push(32);
    v.push(120);
    proof {
        assert(v@ =~= r_write_sp());
    }
    v
}

/// Builds [`r_lparen`].
fn rmk_lparen() -> (r: Vec<u8>)
    ensures
        r@ == r_lparen(),
{
    let mut v: Vec<u8> = Vec::new();
    v.push(40);
    proof {
        assert(v@ =~= r_lparen());
    }
    v
}

/// Builds [`r_rparen`].
fn rmk_rparen() -> (r: Vec<u8>)
    ensures
        r@ == r_rparen(),
{
    let mut v: Vec<u8> = Vec::new();
    v.push(41);
    proof {
        assert(v@ =~= r_rparen());
    }
    v
}

/// Builds [`r_dotdot`].
fn rmk_dotdot() -> (r: Vec<u8>)
    ensures
        r@ == r_dotdot(),
{
    let mut v: Vec<u8> = Vec::new();
    v.push(46);
    v.push(46);
    proof {
        assert(v@ =~= r_dotdot());
    }
    v
}

/// Builds [`r_lbrack`].
fn rmk_lbrack() -> (r: Vec<u8>)
    ensures
        r@ == r_lbrack(),
{
    let mut v: Vec<u8> = Vec::new();
    v.push(91);
    proof {
        assert(v@ =~= r_lbrack());
    }
    v
}

/// Builds [`r_rbrack`].
fn rmk_rbrack() -> (r: Vec<u8>)
    ensures
        r@ == r_rbrack(),
{
    let mut v: Vec<u8> = Vec::new();
    v.push(93);
    proof {
        assert(v@ =~= r_rbrack());
    }
    v
}

/// Builds [`r_comma_sp`].
fn rmk_comma_sp() -> (r: Vec<u8>)
    ensures
        r@ == r_comma_sp(),
{
    let mut v: Vec<u8> = Vec::new();
    v.push(44);
    v.push(32);
    proof {
        assert(v@ =~= r_comma_sp());
    }
    v
}

/// Builds [`r_true_w`].
fn rmk_true_w() -> (r: Vec<u8>)
    ensures
        r@ == r_true_w(),
{
    let mut v: Vec<u8> = Vec::new();
    v.push(116);
    v.push(114);
    v.push(117);
    v.push(101);
    proof {
        assert(v@ =~= r_true_w());
    }
    v
}

/// Builds [`r_false_w`].
fn rmk_false_w() -> (r: Vec<u8>)
    ensures
        r@ == r_false_w(),
{
    let mut v: Vec<u8> = Vec::new();
    v.push(102);
    v.push(97);
    v.push(108);
    v.push(115);
    v.push(101);
    proof {
        assert(v@ =~= r_false_w());
    }
    v
}

/// Builds [`r_dot_zero`].
fn rmk_dot_zero() -> (r: Vec<u8>)
    ensures
        r@ == r_dot_zero(),
{
    let mut v: Vec<u8> = Vec::new();
    v.push(46);
    v.push(48);
    proof {
        assert(v@ =~= r_dot_zero());
    }
    v
}

/// Builds [`r_defn_sp`].
fn rmk_defn_sp() -> (r: Vec<u8>)
    ensures
        r@ == r_defn_sp(),
{
    let mut v: Vec<u8> = Vec::new();
    v.push(100);
    v.push(101);
    v.push(102);
    v.push(110);
    v.push(32);
    v.push(102);
    proof {
        assert(v@ =~= r_defn_sp());
    }
    v
}

/// Builds [`r_colon_sp`].
fn rmk_colon_sp() -> (r: Vec<u8>)
    ensures
        r@ == r_colon_sp(),
{
    let mut v: Vec<u8> = Vec::new();
    v.push(32);
    v.push(58);
    proof {
        assert(v@ =~= r_colon_sp());
    }
    v
}

/// Builds [`r_nl_indent`].
fn rmk_nl_indent() -> (r: Vec<u8>)
    ensures
        r@ == r_nl_indent(),
{
    let mut v: Vec<u8> = Vec::new();
    v.push(10);
    v.push(32);
    v.push(32);
    v.push(32);
    v.push(32);
    proof {
        assert(v@ =~= r_nl_indent());
    }
    v
}

/// Builds [`r_nl_nl`].
fn rmk_nl_nl() -> (r: Vec<u8>)
    ensures
        r@ == r_nl_nl(),
{
    let mut v: Vec<u8> = Vec::new();
    v.push(10);
    v.push(10);
    proof {
        assert(v@ =~= r_nl_nl());
    }
    v
}


/// Appends `tail`'s bytes to `out`.
fn put(out: &mut Vec<u8>, tail: Vec<u8>)
    ensures
        final(out)@ == old(out)@ + tail@,
{
    let mut t = tail;
    out.append(&mut t);
}

/// Appends the register reference `x<N>`.
fn put_reg(out: &mut Vec<u8>, n: u8)
    ensures
        final(out)@ == old(out)@ + r_reg(n as int),
{
    put(out, rmk_x());
    put(out, crate::dec::u64_to_dec(n as u64));
    proof {
        assert(old(out)@ + r_x() + dec_of_nat(n as int) =~= old(out)@ + (r_x() + dec_of_nat(
            n as int,
        )));
    }
}

/// Appends a signed offset.
fn put_int(out: &mut Vec<u8>, n: i64)
    ensures
        final(out)@ == old(out)@ + dec_of_int(n as int),
{
    put(out, crate::dec::i64_to_dec(n));
}

impl Instr {
    /// This instruction as one line of assembly text.
    #[verifier::rlimit(60)]
    pub fn render(&self) -> (r: Vec<u8>)
        ensures
            r@ == render_instr(*self),
    {
        let mut out: Vec<u8> = Vec::new();
        match *self {
            Instr::Const(a, b) => {
                put_reg(&mut out, a);
                put(&mut out, rmk_assign_op());
                put(&mut out, rmk_k());
                put(&mut out, crate::dec::u64_to_dec(b as u64));
            },
            Instr::Copy(a, b) => {
                put_reg(&mut out, a);
                put(&mut out, rmk_assign_op());
                put_reg(&mut out, b);
            },
            Instr::Add(a, b, c) => put_binop(&mut out, a, b, c, 43, 0),
            Instr::Sub(a, b, c) => put_binop(&mut out, a, b, c, 45, 0),
            Instr::Mul(a, b, c) => put_binop(&mut out, a, b, c, 42, 0),
            Instr::Div(a, b, c) => put_binop(&mut out, a, b, c, 47, 0),
            Instr::Rem(a, b, c) => put_binop(&mut out, a, b, c, 37, 0),
            Instr::And(a, b, c) => put_binop(&mut out, a, b, c, 38, 0),
            Instr::Orr(a, b, c) => put_binop(&mut out, a, b, c, 124, 0),
            Instr::Xor(a, b, c) => put_binop(&mut out, a, b, c, 94, 0),
            Instr::Eq(a, b, c) => put_binop(&mut out, a, b, c, 61, 61),
            Instr::Neq(a, b, c) => put_binop(&mut out, a, b, c, 33, 61),
            Instr::Lt(a, b, c) => put_binop(&mut out, a, b, c, 60, 0),
            Instr::Gt(a, b, c) => put_binop(&mut out, a, b, c, 62, 0),
            Instr::Leq(a, b, c) => put_binop(&mut out, a, b, c, 60, 61),
            Instr::Geq(a, b, c) => put_binop(&mut out, a, b, c, 62, 61),
            Instr::Jump(off) => {
                put(&mut out, rmk_jump_sp());
                put_int(&mut out, off as i64);
            },
            Instr::CondJump(a, t, f) => {
                put(&mut out, rmk_cond_sp());
                put_reg(&mut out, a);
                put(&mut out, rmk_sp());
                put_int(&mut out, t as i64);
                put(&mut out, rmk_sp());
                put_int(&mut out, f as i64);
            },
            Instr::MkTup(a, b, len) => {
                put_reg(&mut out, a);
                put(&mut out, rmk_assign_op());
                put(&mut out, rmk_lparen());
                put_reg(&mut out, b);
                put(&mut out, rmk_dotdot());
                put_reg(&mut out, len);
                put(&mut out, rmk_rparen());
            },
            Instr::IdxTup(a, b, c) => {
                put_reg(&mut out, a);
                put(&mut out, rmk_assign_op());
                put_reg(&mut out, b);
                put(&mut out, rmk_lbrack());
                put_reg(&mut out, c);
                put(&mut out, rmk_rbrack());
            },
            Instr::Call(a, b, c) => {
                put_reg(&mut out, a);
                put(&mut out, rmk_assign_op());
                put_reg(&mut out, b);
                put(&mut out, rmk_lparen());
                put_reg(&mut out, c);
                put(&mut out, rmk_rparen());
            },
            Instr::Return(None) => {
                put(&mut out, rmk_return_w());
            },
            Instr::Return(Some(a)) => {
                put(&mut out, rmk_return_sp());
                put(&mut out, crate::dec::u64_to_dec(a as u64));
            },
            Instr::Read(a) => {
                put_reg(&mut out, a);
                put(&mut out, rmk_read_rhs());
            },
            Instr::Write(a) => {
                put(&mut out, rmk_write_sp());
                put(&mut out, crate::dec::u64_to_dec(a as u64));
            },
        }
        proof {
            assert(out@ =~= render_instr(*self));
        }
        out
    }
}

/// Appends a binary-operator line; `op2 == 0` means a one-byte operator.
fn put_binop(out: &mut Vec<u8>, a: u8, b: u8, c: u8, op1: u8, op2: u8)
    ensures
        final(out)@ == old(out)@ + r_binop(
            a as int,
            b as int,
            c as int,
            if op2 == 0 {
                seq![op1]
            } else {
                seq![op1, op2]
            },
        ),
{
    put_reg(out, a);
    put(out, rmk_assign_op());
    put_reg(out, b);
    put(out, rmk_sp());
    out.push(op1);
    if op2 != 0 {
        out.push(op2);
    }
    put(out, rmk_sp());
    put_reg(out, c);
    proof {
        let op = if op2 == 0 {
            seq![op1]
        } else {
            seq![op1, op2]
        };
        assert(out@ =~= old(out)@ + r_binop(a as int, b as int, c as int, op));
    }
}

impl Val {
    /// This value as a constant token (tuples in parenthesised,
    /// comma-separated form).
    #[verifier::loop_isolation(false)]
    pub fn render(&self) -> (r: Vec<u8>)
        ensures
            r@ == render_val(self.deep_view()),
        decreases *self,
    {
        let mut out: Vec<u8> = Vec::new();
        match self {
            Val::B(b) => {
                if *b {
                    put(&mut out, rmk_true_w());
                } else {
                    put(&mut out, rmk_false_w());
                }
            },
            Val::I(i) => {
                put_int(&mut out, *i);
            },
            Val::F(bits) => {
                let t = fp64_bits_text(*bits);
                let dotted = crate::parse::find_dot(t.as_slice());
                put(&mut out, t);
                if !dotted {
                    put(&mut out, rmk_dot_zero());
                }
            },
            Val::C(f) => {
                put(&mut out, rmk_f());
                put(&mut out, crate::dec::u64_to_dec(*f as u64));
            },
            Val::T(ts) => {
                put(&mut out, rmk_lparen());
                let n = ts.len();
                for i in 0..n
                    invariant
                        n == ts.len(),
                        out@ == r_lparen() + render_vals(ts.deep_view().take(i as int)),
                    decreases n - i,
                {
                    let e = &ts[i];
                    proof {
                        let vv = *self;
                        assert(decreases_to!(vv => vv->T_0));
                        assert(decreases_to!(vv->T_0 => vv->T_0@));
                        assert(decreases_to!(vv->T_0@ => vv->T_0@[i as int]));
                        assert(*e == vv->T_0@[i as int]);
                        assert(decreases_to!(*self => *e));
                    }
                    if i > 0 {
                        put(&mut out, rmk_comma_sp());
                    }
                    let rendered = e.render();
                    put(&mut out, rendered);
                    proof {
                        let dv = ts.deep_view();
                        assert(dv.take(i as int).push(dv[i as int]) =~= dv.take(i + 1));
                        if i == 0 {
                            assert(render_vals(dv.take(1)) == render_val(dv[0])) by {
                                assert(dv.take(1)[0] == dv[0]);
                            }
                            assert(out@ =~= r_lparen() + render_vals(dv.take(1)));
                        } else {
                            lemma_render_vals_push(dv.take(i as int), dv[i as int]);
                            assert(out@ =~= r_lparen() + render_vals(dv.take(i + 1)));
                        }
                    }
                }
                put(&mut out, rmk_rparen());
                proof {
                    assert(ts.deep_view().take(n as int) =~= ts.deep_view());
                    crate::bytecode::lemma_vals_m(ts@);
                    assert(vals_m(ts@) =~= ts.deep_view());
                    assert(self.deep_view() == ValM::T(vals_m(ts@)));
                    assert(out@ =~= r_lparen() + render_vals(vals_m(ts@)) + r_rparen());
                }
            },
        }
        proof {
            assert(out@ =~= render_val(self.deep_view()));
        }
        out
    }
}

impl Program {
    /// The whole program in the textual assembly format: one line per
    /// instruction, grouped by function, constants on the header lines.
    #[verifier::loop_isolation(false)]
    #[verifier::rlimit(60)]
    pub fn render(&self) -> (r: Vec<u8>)
        ensures
            r@ == render_program(self.deep_view()),
    {
        let mut out: Vec<u8> = Vec::new();
        let nd = self.defns.len();
        for di in 0..nd
            invariant
                nd == self.defns.len(),
                out@ == render_defns(self.deep_view().defns.take(di as int)),
            decreases nd - di,
        {
            let ghost dvs = self.deep_view().defns;
            if di > 0 {
                put(&mut out, rmk_nl_nl());
            }
            let d = &self.defns[di];
            // Header: defn f<i> <locals> : <constants...>
            put(&mut out, rmk_defn_sp());
            put(&mut out, crate::dec::u64_to_dec(di as u64));
            put(&mut out, rmk_sp());
            put(&mut out, crate::dec::u64_to_dec(d.local_count as u64));
            put(&mut out, rmk_colon_sp());
            let ghost header_base = out@;
            let nk = d.consts.len();
            for ki in 0..nk
                invariant
                    nk == d.consts.len(),
                    out@ == header_base + render_consts(d.consts.deep_view().take(ki as int)),
                decreases nk - ki,
            {
                put(&mut out, rmk_sp());
                let rendered = d.consts[ki].render();
                put(&mut out, rendered);
                proof {
                    let ks = d.consts.deep_view();
                    assert(ks.take(ki + 1).drop_last() =~= ks.take(ki as int));
                    assert(ks.take(ki + 1).last() == ks[ki as int]);
                    assert(out@ =~= header_base + render_consts(ks.take(ki + 1)));
                }
            }
            proof {
                assert(d.consts.deep_view().take(nk as int) =~= d.consts.deep_view());
            }
            let ghost code_base = out@;
            let ni = d.code.len();
            for ii in 0..ni
                invariant
                    ni == d.code.len(),
                    out@ == code_base + render_code(d.code@.take(ii as int)),
                decreases ni - ii,
            {
                put(&mut out, rmk_nl_indent());
                let rendered = d.code[ii].render();
                put(&mut out, rendered);
                proof {
                    let cs = d.code@;
                    assert(cs.take(ii + 1).drop_last() =~= cs.take(ii as int));
                    assert(cs.take(ii + 1).last() == cs[ii as int]);
                    assert(out@ =~= code_base + render_code(cs.take(ii + 1)));
                }
            }
            proof {
                assert(d.code@.take(ni as int) =~= d.code@);
                assert(dvs[di as int] == self.defns@[di as int].deep_view());
                assert(out@ =~= code_base + render_code(dvs[di as int].code));
                assert(dvs.take(di + 1).drop_last() =~= dvs.take(di as int));
                assert(dvs.take(di + 1).last() == dvs[di as int]);
                if di == 0 {
                    assert(render_defns(dvs.take(1)) == render_defn(dvs.take(1)[0], 0));
                    assert(dvs.take(1)[0] == dvs[0]);
                    assert(out@ =~= render_defns(dvs.take(1)));
                } else {
                    assert(out@ =~= render_defns(dvs.take(di + 1)));
                }
            }
        }
        proof {
            assert(self.deep_view().defns.take(nd as int) =~= self.deep_view().defns);
        }
        out
    }
}


/// Round-trip at the constant level: parsing the rendered form of a
/// boolean, integer or function-reference constant yields that constant
/// again.  (Floats round-trip only as far as the formatter and parser
/// wrappers agree, and tuple constants have no source form, so neither
/// is covered here.)
pub proof fn lemma_const_roundtrip(v: ValM)
    requires
        (match v {
            ValM::B(_) => true,
            ValM::I(i) => i64::MIN <= i <= i64::MAX,
            ValM::C(f) => 0 <= f <= u16::MAX,
            _ => false,
        }),
    ensures
        crate::parse::sconst(render_val(v)) == Some(v),
{
    match v {
        ValM::B(b) => {
            if b {
                assert(r_true_w() =~= crate::parse::tok_true());
            } else {
                assert(r_false_w() =~= crate::parse::tok_false());
                assert(r_false_w() != crate::parse::tok_true()) by {
                    assert(r_false_w().len() != crate::parse::tok_true().len());
                }
            }
        },
        ValM::I(i) => {
            let text = dec_of_int(i);
            if i < 0 {
                crate::dec::lemma_dec_of_nat_val(-i);
                assert(text[0] == 45);
                assert forall|k: int| 0 <= k < text.len() implies text[k] != 46 && (k == 0
                    || crate::dec::is_digit(text[k])) by {
                    if k > 0 {
                        assert(text[k] == dec_of_nat(-i)[k - 1]);
                        assert(crate::dec::is_digit(dec_of_nat(-i)[k - 1]));
                    }
                }
            } else {
                crate::dec::lemma_dec_of_nat_val(i);
                assert(crate::dec::is_digit(text[0]));
                assert forall|k: int| 0 <= k < text.len() implies text[k] != 46 by {
                    assert(crate::dec::is_digit(text[k]));
                }
            }
            assert(text != crate::parse::tok_true()) by {
                assert(text[0] == 45 || crate::dec::is_digit(text[0]));
                assert(crate::parse::tok_true()[0] == 116);
            }
            assert(text != crate::parse::tok_false()) by {
                assert(crate::parse::tok_false()[0] == 102);
            }
            assert(!crate::parse::has_dot(text));
            assert(text[0] != 102);
            crate::dec::lemma_dec_roundtrip(i);
        },
        ValM::C(f) => {
            let text = r_f() + dec_of_nat(f);
            crate::dec::lemma_dec_of_nat_val(f);
            assert(text[0] == 102);
            assert(text.len() >= 2);
            assert forall|k: int| 0 <= k < text.len() implies text[k] != 46 by {
                if k > 0 {
                    assert(text[k] == dec_of_nat(f)[k - 1]);
                    assert(crate::dec::is_digit(dec_of_nat(f)[k - 1]));
                }
            }
            assert(text != crate::parse::tok_true()) by {
                assert(crate::parse::tok_true()[0] == 116);
            }
            assert(text != crate::parse::tok_false()) by {
                assert(text[1] == dec_of_nat(f)[0]);
                assert(crate::dec::is_digit(text[1]));
                assert(crate::parse::tok_false()[1] == 97);
            }
            assert(!crate::parse::has_dot(text));
            assert(text.skip(1) =~= dec_of_nat(f));
            crate::dec::lemma_dec_roundtrip(f);
        },
        _ => {},
    }
}


/// A buffer whose text starts with a non-blank byte is already trimmed
/// on the left.
proof fn lemma_trim_left_id(b: BufM)
    requires
        b.text.len() > 0,
        !crate::parse_util::is_ws(b.text[0]),
    ensures
        crate::parse_util::btrim_left(b) == b,
{
    assert(crate::parse_util::ws_len(b.text) == 0);
    assert(crate::parse_util::btrim_left(b) =~= b);
}

/// A buffer whose text ends with a non-blank byte is already trimmed on
/// the right.
proof fn lemma_trim_right_id(b: BufM)
    requires
        b.text.len() == 0 || !crate::parse_util::is_ws(b.text.last()),
    ensures
        crate::parse_util::btrim_right(b) == b,
{
    assert(crate::parse_util::kept_len(b.text) == b.text.len());
    assert(crate::parse_util::btrim_right(b) =~= b);
}

/// Reading a prefixed register-like number (`x<N>`, `k<N>`) from its
/// canonical rendering: the number comes back, and the cursor stops
/// exactly at `rest`.
proof fn lemma_reg_parse(b: BufM, prefix: Seq<u8>, n: int, rest: Seq<u8>)
    requires
        b.text == prefix + dec_of_nat(n) + rest,
        prefix.len() > 0,
        !crate::parse_util::is_ws(prefix[0]),
        0 <= n <= 255,
        rest.len() == 0 || !crate::dec::is_digit(rest[0]),
    ensures
        crate::parse::saddr(b, prefix) == Ok::<(BufM, int), crate::parse_util::ParseErrorM>(
            (
                BufM {
                    text: rest,
                    row: b.row,
                    col: b.col + prefix.len() + dec_of_nat(n).len(),
                },
                n,
            ),
        ),
{
    let dec = dec_of_nat(n);
    crate::dec::lemma_dec_of_nat_val(n);
    assert(b.text[0] == prefix[0]);
    lemma_trim_left_id(b);
    assert(crate::parse_util::is_prefix(prefix, b.text)) by {
        assert(b.text.take(prefix.len() as int) =~= prefix);
    }
    let b1 = crate::parse_util::badvance(b, prefix.len() as int);
    assert(b1.text =~= dec + rest);
    // The digit token ends exactly where `rest` begins.
    assert forall|j: int| 0 <= j < dec.len() implies !<crate::parse_util::NonDigitPat as crate::parse_util::BytePred>::holds(
        #[trigger] b1.text[j],
    ) by {
        assert(b1.text[j] == dec[j]);
        assert(crate::dec::is_digit(dec[j]));
    }
    if rest.len() > 0 {
        assert(b1.text[dec.len() as int] == rest[0]);
    }
    crate::parse_util::lemma_scan_len_at::<crate::parse_util::NonDigitPat>(b1.text, dec.len() as int);
    assert(b1.text.take(dec.len() as int) =~= dec);
    crate::dec::lemma_dec_roundtrip(n);
    assert(crate::dec::int_of_dec(dec, false) == Some(n));
    let b2 = crate::parse_util::badvance(b1, dec.len() as int);
    assert(b2.text =~= rest);
    assert(b2 =~= (BufM {
        text: rest,
        row: b.row,
        col: b.col + prefix.len() + dec.len(),
    }));
}

/// Reading a signed offset from its canonical rendering: the offset
/// comes back and the cursor stops exactly at `rest`.
proof fn lemma_int_parse_til(b: BufM, v: int, lo: int, hi: int, rest: Seq<u8>)
    requires
        b.text == dec_of_int(v) + rest,
        lo <= v <= hi,
        i64::MIN <= lo && hi <= i64::MAX,
        rest.len() == 0 || !(crate::dec::is_digit(rest[0]) || rest[0] == 45),
    ensures
        crate::parse_util::bparse_til::<crate::parse_util::NonNumberPat>(b, true, lo, hi) == Ok::<
            (BufM, int),
            crate::parse_util::ParseErrorM,
        >((BufM { text: rest, row: b.row, col: b.col + dec_of_int(v).len() }, v)),
{
    let dec = dec_of_int(v);
    crate::dec::lemma_dec_of_nat_val(if v < 0 { -v } else { v });
    assert forall|j: int| 0 <= j < dec.len() implies !<crate::parse_util::NonNumberPat as crate::parse_util::BytePred>::holds(
        #[trigger] b.text[j],
    ) by {
        assert(b.text[j] == dec[j]);
        if v < 0 {
            if j == 0 {
                assert(dec[0] == 45);
            } else {
                assert(dec[j] == dec_of_nat(-v)[j - 1]);
                assert(crate::dec::is_digit(dec_of_nat(-v)[j - 1]));
            }
        } else {
            assert(crate::dec::is_digit(dec[j]));
        }
    }
    if rest.len() > 0 {
        assert(b.text[dec.len() as int] == rest[0]);
    }
    crate::parse_util::lemma_scan_len_at::<crate::parse_util::NonNumberPat>(
        b.text,
        dec.len() as int,
    );
    assert(b.text.take(dec.len() as int) =~= dec);
    crate::dec::lemma_dec_roundtrip(v);
    let b1 = crate::parse_util::badvance(b, dec.len() as int);
    assert(b1.text =~= rest);
    assert(b1 =~= (BufM { text: rest, row: b.row, col: b.col + dec.len() }));
}

/// A line that starts with a register reference begins no keyword form.
proof fn lemma_not_kw_prefix(line: Seq<u8>)
    requires
        line.len() > 0,
        line[0] == 120,
    ensures
        !crate::parse_util::is_prefix(seq![35u8], line),
        !crate::parse_util::is_prefix(crate::parse::tok_defn(), line),
        !crate::parse_util::is_prefix(crate::parse::tok_return(), line),
        !crate::parse_util::is_prefix(crate::parse::tok_write(), line),
        !crate::parse_util::is_prefix(crate::parse::tok_jump(), line),
        !crate::parse_util::is_prefix(crate::parse::tok_cond(), line),
{
    if crate::parse_util::is_prefix(seq![35u8], line) {
        assert(line.take(1)[0] == line[0]);
    }
    if crate::parse_util::is_prefix(crate::parse::tok_defn(), line) {
        assert(line.take(4)[0] == line[0]);
    }
    if crate::parse_util::is_prefix(crate::parse::tok_return(), line) {
        assert(line.take(6)[0] == line[0]);
    }
    if crate::parse_util::is_prefix(crate::parse::tok_write(), line) {
        assert(line.take(5)[0] == line[0]);
    }
    if crate::parse_util::is_prefix(crate::parse::tok_jump(), line) {
        assert(line.take(4)[0] == line[0]);
    }
    if crate::parse_util::is_prefix(crate::parse::tok_cond(), line) {
        assert(line.take(4)[0] == line[0]);
    }
}

/// Reading the `x<A> := ` head of an assignment line: the destination
/// register comes back and the cursor stops at the right-hand side.
proof fn lemma_assign_head(b: BufM, a: u8, tail: Seq<u8>)
    requires
        b.text == r_reg(a as int) + r_assign_op() + tail,
        tail.len() > 0,
        !crate::parse_util::is_ws(tail[0]),
    ensures
        ({
            let mid = BufM {
                text: r_assign_op() + tail,
                row: b.row,
                col: b.col + 1 + dec_of_nat(a as int).len(),
            };
            let after = BufM { text: tail, row: b.row, col: mid.col + 4 };
            &&& crate::parse::saddr(b, crate::parse::tok_x()) == Ok::<
                (BufM, int),
                crate::parse_util::ParseErrorM,
            >((mid, a as int))
            &&& crate::parse_util::btoken(
                crate::parse_util::btrim_left(mid),
                crate::parse::tok_assign(),
            ) is Ok
            &&& crate::parse_util::btrim_left(
                crate::parse_util::btoken(
                    crate::parse_util::btrim_left(mid),
                    crate::parse::tok_assign(),
                )->Ok_0,
            ) == after
        }),
{
    let op = r_assign_op() + tail;
    assert((r_reg(a as int) + r_assign_op() + tail) =~= r_reg(a as int) + op);
    assert(op[0] == 32 && !crate::dec::is_digit(op[0]));
    lemma_reg_parse(b, crate::parse::tok_x(), a as int, op);
    let mid = BufM {
        text: op,
        row: b.row,
        col: b.col + 1 + dec_of_nat(a as int).len(),
    };
    assert(crate::parse_util::ws_len(mid.text) == 1) by {
        assert(mid.text.skip(1)[0] == 58);
        assert(crate::parse_util::ws_len(mid.text.skip(1)) == 0);
    }
    let m1 = crate::parse_util::btrim_left(mid);
    assert(m1.text =~= crate::parse::tok_assign() + (seq![32u8] + tail));
    assert(crate::parse_util::is_prefix(crate::parse::tok_assign(), m1.text)) by {
        assert(m1.text.take(2) =~= crate::parse::tok_assign());
    }
    let m2 = crate::parse_util::badvance(m1, 2);
    assert(m2.text =~= seq![32u8] + tail);
    assert(crate::parse_util::ws_len(m2.text) == 1) by {
        assert(m2.text.skip(1)[0] == tail[0]);
        assert(crate::parse_util::ws_len(m2.text.skip(1)) == 0);
    }
    let m3 = crate::parse_util::btrim_left(m2);
    assert(m3.text =~= tail);
    assert(m3 =~= (BufM { text: tail, row: b.row, col: mid.col + 4 }));
}

/// One case of [`lemma_instr_line_roundtrip`].
#[verifier::rlimit(100)]
#[verifier::spinoff_prover]
proof fn lemma_rt_return_none(defns: Seq<DefnM>, i: Instr, row: int)
    requires
        defns.len() > 0,
        i matches Instr::Return(None),
    ensures
        crate::parse::sline(defns, render_instr(i), row) == Ok::<
            Seq<DefnM>,
            crate::parse_util::ParseErrorM,
        >(crate::parse::push_ins(defns, i)),
{
    let line = render_instr(i);
    let b0 = BufM { text: line, row, col: 0 };
    match i {
        Instr::Return(None) => {
            assert(line == r_return_w());
            lemma_trim_left_id(b0);
            lemma_trim_right_id(b0);
            assert(!crate::parse_util::is_prefix(seq![35u8], line)) by {
                if crate::parse_util::is_prefix(seq![35u8], line) {
                    assert(line.take(1)[0] == line[0]);
                }
            }
            assert(!crate::parse_util::is_prefix(crate::parse::tok_defn(), line)) by {
                if crate::parse_util::is_prefix(crate::parse::tok_defn(), line) {
                    assert(line.take(4)[0] == line[0]);
                }
            }
            assert(crate::parse_util::is_prefix(crate::parse::tok_return(), line)) by {
                assert(line.take(6) =~= crate::parse::tok_return());
            }
            let b1 = crate::parse_util::badvance(b0, 6);
            assert(b1.text =~= Seq::<u8>::empty());
        },        _ => {},
    }
}

/// One case of [`lemma_instr_line_roundtrip`].
#[verifier::rlimit(100)]
#[verifier::spinoff_prover]
proof fn lemma_rt_return_some(defns: Seq<DefnM>, i: Instr, row: int)
    requires
        defns.len() > 0,
        i matches Instr::Return(Some(_)),
    ensures
        crate::parse::sline(defns, render_instr(i), row) == Ok::<
            Seq<DefnM>,
            crate::parse_util::ParseErrorM,
        >(crate::parse::push_ins(defns, i)),
{
    let line = render_instr(i);
    let b0 = BufM { text: line, row, col: 0 };
    match i {
        Instr::Return(Some(a)) => {
            let dec = dec_of_nat(a as int);
            crate::dec::lemma_dec_of_nat_val(a as int);
            assert(line == r_return_sp() + dec);
            assert(line[0] == 114);
            assert(line.last() == dec.last() && crate::dec::is_digit(dec.last())) by {
                assert(line.len() == 8 + dec.len());
                assert(line[line.len() - 1] == dec[dec.len() - 1]);
            }
            lemma_trim_left_id(b0);
            lemma_trim_right_id(b0);
            assert(!crate::parse_util::is_prefix(seq![35u8], line)) by {
                if crate::parse_util::is_prefix(seq![35u8], line) {
                    assert(line.take(1)[0] == line[0]);
                }
            }
            assert(!crate::parse_util::is_prefix(crate::parse::tok_defn(), line)) by {
                if crate::parse_util::is_prefix(crate::parse::tok_defn(), line) {
                    assert(line.take(4)[0] == line[0]);
                }
            }
            assert(crate::parse_util::is_prefix(crate::parse::tok_return(), line)) by {
                assert(line.take(6) =~= crate::parse::tok_return());
            }
            let b1 = crate::parse_util::badvance(b0, 6);
            assert(b1.text =~= seq![32u8, 120u8] + dec);
            assert(crate::parse_util::is_ws(b1.text[0]));
            assert(crate::parse_util::ws_len(b1.text) == 1) by {
                assert(b1.text.skip(1)[0] == 120);
                assert(crate::parse_util::ws_len(b1.text.skip(1)) == 0);
            }
            let b2 = crate::parse_util::btrim_left(b1);
            assert(b2.text =~= r_reg(a as int) + Seq::<u8>::empty());
            lemma_reg_parse(b2, crate::parse::tok_x(), a as int, Seq::empty());
        },        _ => {},
    }
}

/// One case of [`lemma_instr_line_roundtrip`].
#[verifier::rlimit(100)]
#[verifier::spinoff_prover]
proof fn lemma_rt_write(defns: Seq<DefnM>, i: Instr, row: int)
    requires
        defns.len() > 0,
        i matches Instr::Write(_),
    ensures
        crate::parse::sline(defns, render_instr(i), row) == Ok::<
            Seq<DefnM>,
            crate::parse_util::ParseErrorM,
        >(crate::parse::push_ins(defns, i)),
{
    let line = render_instr(i);
    let b0 = BufM { text: line, row, col: 0 };
    match i {
        Instr::Write(a) => {
            let dec = dec_of_nat(a as int);
            crate::dec::lemma_dec_of_nat_val(a as int);
            assert(line == r_write_sp() + dec);
            assert(line[0] == 119);
            assert(line.last() == dec.last() && crate::dec::is_digit(dec.last())) by {
                assert(line.len() == 7 + dec.len());
                assert(line[line.len() - 1] == dec[dec.len() - 1]);
            }
            lemma_trim_left_id(b0);
            lemma_trim_right_id(b0);
            assert(!crate::parse_util::is_prefix(seq![35u8], line)) by {
                if crate::parse_util::is_prefix(seq![35u8], line) {
                    assert(line.take(1)[0] == line[0]);
                }
            }
            assert(!crate::parse_util::is_prefix(crate::parse::tok_defn(), line)) by {
                if crate::parse_util::is_prefix(crate::parse::tok_defn(), line) {
                    assert(line.take(4)[0] == line[0]);
                }
            }
            assert(!crate::parse_util::is_prefix(crate::parse::tok_return(), line)) by {
                if crate::parse_util::is_prefix(crate::parse::tok_return(), line) {
                    assert(line.take(6)[0] == line[0]);
                }
            }
            assert(crate::parse_util::is_prefix(crate::parse::tok_write(), line)) by {
                assert(line.take(5) =~= crate::parse::tok_write());
            }
            let b1 = crate::parse_util::badvance(b0, 5);
            assert(b1.text =~= seq![32u8, 120u8] + dec);
            assert(crate::parse_util::ws_len(b1.text) == 1) by {
                assert(b1.text.skip(1)[0] == 120);
                assert(crate::parse_util::ws_len(b1.text.skip(1)) == 0);
            }
            let b2 = crate::parse_util::btrim_left(b1);
            assert(b2.text =~= r_reg(a as int) + Seq::<u8>::empty());
            lemma_reg_parse(b2, crate::parse::tok_x(), a as int, Seq::empty());
        },        _ => {},
    }
}

/// One case of [`lemma_instr_line_roundtrip`].
#[verifier::rlimit(100)]
#[verifier::spinoff_prover]
proof fn lemma_rt_jump(defns: Seq<DefnM>, i: Instr, row: int)
    requires
        defns.len() > 0,
        i matches Instr::Jump(_),
    ensures
        crate::parse::sline(defns, render_instr(i), row) == Ok::<
            Seq<DefnM>,
            crate::parse_util::ParseErrorM,
        >(crate::parse::push_ins(defns, i)),
{
    let line = render_instr(i);
    let b0 = BufM { text: line, row, col: 0 };
    match i {
        Instr::Jump(off) => {
            let dec = dec_of_int(off as int);
            crate::dec::lemma_dec_of_nat_val(if off < 0 {
                -(off as int)
            } else {
                off as int
            });
            assert(line == r_jump_sp() + dec);
            assert(line[0] == 106);
            assert(line.last() == dec.last()) by {
                assert(line.len() == 5 + dec.len());
                assert(line[line.len() - 1] == dec[dec.len() - 1]);
            }
            assert(!crate::parse_util::is_ws(dec.last())) by {
                if off < 0 {
                    if dec.len() == 1 {
                    } else {
                        assert(dec.last() == dec_of_nat(-(off as int)).last());
                        assert(crate::dec::is_digit(dec_of_nat(-(off as int)).last()));
                    }
                } else {
                    assert(crate::dec::is_digit(dec.last()));
                }
            }
            lemma_trim_left_id(b0);
            lemma_trim_right_id(b0);
            assert(!crate::parse_util::is_prefix(seq![35u8], line)) by {
                if crate::parse_util::is_prefix(seq![35u8], line) {
                    assert(line.take(1)[0] == line[0]);
                }
            }
            assert(!crate::parse_util::is_prefix(crate::parse::tok_defn(), line)) by {
                if crate::parse_util::is_prefix(crate::parse::tok_defn(), line) {
                    assert(line.take(4)[0] == line[0]);
                }
            }
            assert(!crate::parse_util::is_prefix(crate::parse::tok_return(), line)) by {
                if crate::parse_util::is_prefix(crate::parse::tok_return(), line) {
                    assert(line.take(6)[0] == line[0]);
                }
            }
            assert(!crate::parse_util::is_prefix(crate::parse::tok_write(), line)) by {
                if crate::parse_util::is_prefix(crate::parse::tok_write(), line) {
                    assert(line.take(5)[0] == line[0]);
                }
            }
            assert(crate::parse_util::is_prefix(crate::parse::tok_jump(), line)) by {
                assert(line.take(4) =~= crate::parse::tok_jump());
            }
            let b1 = crate::parse_util::badvance(b0, 4);
            assert(b1.text =~= seq![32u8] + dec);
            assert(crate::parse_util::ws_len(b1.text) == 1) by {
                assert(b1.text.skip(1)[0] == dec[0]);
                assert(dec[0] == 45 || crate::dec::is_digit(dec[0])) by {
                    if off >= 0 {
                        assert(crate::dec::is_digit(dec[0]));
                    }
                }
                assert(crate::parse_util::ws_len(b1.text.skip(1)) == 0);
            }
            let b2 = crate::parse_util::btrim_left(b1);
            assert(b2.text =~= dec);
            assert(b2.text =~= dec_of_int(off as int) + Seq::<u8>::empty());
            lemma_int_parse_til(
                b2,
                off as int,
                i16::MIN as int,
                i16::MAX as int,
                Seq::empty(),
            );
        },        _ => {},
    }
}

/// One case of [`lemma_instr_line_roundtrip`].
#[verifier::rlimit(100)]
#[verifier::spinoff_prover]
proof fn lemma_rt_read(defns: Seq<DefnM>, i: Instr, row: int)
    requires
        defns.len() > 0,
        i matches Instr::Read(_),
    ensures
        crate::parse::sline(defns, render_instr(i), row) == Ok::<
            Seq<DefnM>,
            crate::parse_util::ParseErrorM,
        >(crate::parse::push_ins(defns, i)),
{
    let line = render_instr(i);
    let b0 = BufM { text: line, row, col: 0 };
    match i {
        Instr::Read(a) => {
            let dec = dec_of_nat(a as int);
            crate::dec::lemma_dec_of_nat_val(a as int);
            assert(line =~= r_reg(a as int) + r_assign_op() + crate::parse::tok_read()) by {
                assert(r_read_rhs() =~= r_assign_op() + crate::parse::tok_read());
            }
            assert(line[0] == 120);
            assert(line.last() == 100) by {
                assert(line.len() == 1 + dec.len() + 8);
                assert(line[line.len() - 1] == crate::parse::tok_read()[3]);
            }
            lemma_trim_left_id(b0);
            lemma_trim_right_id(b0);
            lemma_not_kw_prefix(line);
            lemma_assign_head(
                BufM { text: line, row, col: 0 },
                a,
                crate::parse::tok_read(),
            );
            let b3 = BufM {
                text: crate::parse::tok_read(),
                row,
                col: 1 + dec.len() as int + 4,
            };
            assert(!crate::parse_util::is_prefix(crate::parse::tok_k(), b3.text)) by {
                if crate::parse_util::is_prefix(crate::parse::tok_k(), b3.text) {
                    assert(b3.text.take(1)[0] == b3.text[0]);
                }
            }
            assert(!crate::parse_util::is_prefix(crate::parse::tok_lparen(), b3.text)) by {
                if crate::parse_util::is_prefix(crate::parse::tok_lparen(), b3.text) {
                    assert(b3.text.take(1)[0] == b3.text[0]);
                }
            }
            assert(crate::parse_util::is_prefix(crate::parse::tok_read(), b3.text)) by {
                assert(b3.text.take(4) =~= crate::parse::tok_read());
            }
            let b4 = crate::parse_util::badvance(b3, 4);
            assert(b4.text =~= Seq::<u8>::empty());
        },        _ => {},
    }
}

/// One case of [`lemma_instr_line_roundtrip`].
#[verifier::rlimit(100)]
#[verifier::spinoff_prover]
proof fn lemma_rt_const(defns: Seq<DefnM>, i: Instr, row: int)
    requires
        defns.len() > 0,
        i matches Instr::Const(_, _),
    ensures
        crate::parse::sline(defns, render_instr(i), row) == Ok::<
            Seq<DefnM>,
            crate::parse_util::ParseErrorM,
        >(crate::parse::push_ins(defns, i)),
{
    let line = render_instr(i);
    let b0 = BufM { text: line, row, col: 0 };
    match i {
        Instr::Const(a, k) => {
            let dec = dec_of_nat(a as int);
            let deck = dec_of_nat(k as int);
            crate::dec::lemma_dec_of_nat_val(a as int);
            crate::dec::lemma_dec_of_nat_val(k as int);
            let tail = r_k() + deck;
            assert(line =~= r_reg(a as int) + r_assign_op() + tail);
            assert(line[0] == 120);
            assert(line.last() == deck.last() && crate::dec::is_digit(deck.last())) by {
                assert(line.len() == 1 + dec.len() + 4 + 1 + deck.len());
                assert(line[line.len() - 1] == deck[deck.len() - 1]);
            }
            lemma_trim_left_id(b0);
            lemma_trim_right_id(b0);
            lemma_not_kw_prefix(line);
            assert(tail[0] == 107 && !crate::parse_util::is_ws(tail[0]));
            lemma_assign_head(BufM { text: line, row, col: 0 }, a, tail);
            let b3 = BufM { text: tail, row, col: 1 + dec.len() as int + 4 };
            assert(crate::parse_util::is_prefix(crate::parse::tok_k(), b3.text)) by {
                assert(b3.text.take(1) =~= crate::parse::tok_k());
            }
            assert(b3.text =~= crate::parse::tok_k() + deck + Seq::<u8>::empty());
            lemma_reg_parse(b3, crate::parse::tok_k(), k as int, Seq::empty());
        },        _ => {},
    }
}

/// One case of [`lemma_instr_line_roundtrip`].
#[verifier::rlimit(100)]
#[verifier::spinoff_prover]
proof fn lemma_rt_copy(defns: Seq<DefnM>, i: Instr, row: int)
    requires
        defns.len() > 0,
        i matches Instr::Copy(_, _),
    ensures
        crate::parse::sline(defns, render_instr(i), row) == Ok::<
            Seq<DefnM>,
            crate::parse_util::ParseErrorM,
        >(crate::parse::push_ins(defns, i)),
{
    let line = render_instr(i);
    let b0 = BufM { text: line, row, col: 0 };
    match i {
        Instr::Copy(a, src) => {
            let dec = dec_of_nat(a as int);
            let decs = dec_of_nat(src as int);
            crate::dec::lemma_dec_of_nat_val(a as int);
            crate::dec::lemma_dec_of_nat_val(src as int);
            let tail = r_reg(src as int);
            assert(line =~= r_reg(a as int) + r_assign_op() + tail);
            assert(line[0] == 120);
            assert(line.last() == decs.last() && crate::dec::is_digit(decs.last())) by {
                assert(line.len() == 1 + dec.len() + 4 + 1 + decs.len());
                assert(line[line.len() - 1] == decs[decs.len() - 1]);
            }
            lemma_trim_left_id(b0);
            lemma_trim_right_id(b0);
            lemma_not_kw_prefix(line);
            assert(tail[0] == 120 && !crate::parse_util::is_ws(tail[0]));
            lemma_assign_head(BufM { text: line, row, col: 0 }, a, tail);
            let b3 = BufM { text: tail, row, col: 1 + dec.len() as int + 4 };
            assert(!crate::parse_util::is_prefix(crate::parse::tok_k(), b3.text)) by {
                if crate::parse_util::is_prefix(crate::parse::tok_k(), b3.text) {
                    assert(b3.text.take(1)[0] == b3.text[0]);
                }
            }
            assert(!crate::parse_util::is_prefix(crate::parse::tok_lparen(), b3.text)) by {
                if crate::parse_util::is_prefix(crate::parse::tok_lparen(), b3.text) {
                    assert(b3.text.take(1)[0] == b3.text[0]);
                }
            }
            assert(!crate::parse_util::is_prefix(crate::parse::tok_read(), b3.text)) by {
                if crate::parse_util::is_prefix(crate::parse::tok_read(), b3.text) {
                    assert(b3.text.take(4)[0] == b3.text[0]);
                }
            }
            assert(b3.text =~= r_reg(src as int) + Seq::<u8>::empty());
            lemma_reg_parse(b3, crate::parse::tok_x(), src as int, Seq::empty());
            let b4 = BufM { text: Seq::empty(), row, col: b3.col + 1 + decs.len() as int };
            assert(crate::parse_util::ws_len(b4.text) == 0);
            assert(crate::parse_util::btrim_left(b4) =~= b4);
        },
        _ => {},
    }
}

/// One case of [`lemma_instr_line_roundtrip`].
#[verifier::rlimit(100)]
#[verifier::spinoff_prover]
proof fn lemma_rt_cond_jump(defns: Seq<DefnM>, i: Instr, row: int)
    requires
        defns.len() > 0,
        i matches Instr::CondJump(_, _, _),
    ensures
        crate::parse::sline(defns, render_instr(i), row) == Ok::<
            Seq<DefnM>,
            crate::parse_util::ParseErrorM,
        >(crate::parse::push_ins(defns, i)),
{
    let line = render_instr(i);
    let b0 = BufM { text: line, row, col: 0 };
    match i {
        Instr::CondJump(a, t, f) => {
            let deca = dec_of_nat(a as int);
            let dect = dec_of_int(t as int);
            let decf = dec_of_int(f as int);
            crate::dec::lemma_dec_of_nat_val(a as int);
            crate::dec::lemma_dec_of_nat_val(if t < 0 { -(t as int) } else { t as int });
            crate::dec::lemma_dec_of_nat_val(if f < 0 { -(f as int) } else { f as int });
            assert(line[0] == 99);
            assert(line.last() == decf.last()) by {
                assert(line.len() == 5 + 1 + deca.len() + 1 + dect.len() + 1 + decf.len());
                assert(line[line.len() - 1] == decf[decf.len() - 1]);
            }
            assert(!crate::parse_util::is_ws(decf.last())) by {
                if f < 0 {
                    if decf.len() == 1 {
                    } else {
                        assert(decf.last() == dec_of_nat(-(f as int)).last());
                        assert(crate::dec::is_digit(dec_of_nat(-(f as int)).last()));
                    }
                } else {
                    assert(crate::dec::is_digit(decf.last()));
                }
            }
            lemma_trim_left_id(b0);
            lemma_trim_right_id(b0);
            assert(!crate::parse_util::is_prefix(seq![35u8], line)) by {
                if crate::parse_util::is_prefix(seq![35u8], line) {
                    assert(line.take(1)[0] == line[0]);
                }
            }
            assert(!crate::parse_util::is_prefix(crate::parse::tok_defn(), line)) by {
                if crate::parse_util::is_prefix(crate::parse::tok_defn(), line) {
                    assert(line.take(4)[0] == line[0]);
                }
            }
            assert(!crate::parse_util::is_prefix(crate::parse::tok_return(), line)) by {
                if crate::parse_util::is_prefix(crate::parse::tok_return(), line) {
                    assert(line.take(6)[0] == line[0]);
                }
            }
            assert(!crate::parse_util::is_prefix(crate::parse::tok_write(), line)) by {
                if crate::parse_util::is_prefix(crate::parse::tok_write(), line) {
                    assert(line.take(5)[0] == line[0]);
                }
            }
            assert(!crate::parse_util::is_prefix(crate::parse::tok_jump(), line)) by {
                if crate::parse_util::is_prefix(crate::parse::tok_jump(), line) {
                    assert(line.take(4)[0] == line[0]);
                }
            }
            assert(crate::parse_util::is_prefix(crate::parse::tok_cond(), line)) by {
                assert(line.take(4) =~= crate::parse::tok_cond());
            }
            let b1 = crate::parse_util::badvance(b0, 4);
            let after_cond = seq![32u8] + (r_reg(a as int) + r_sp() + dect + r_sp() + decf);
            assert(b1.text =~= after_cond);
            assert(crate::parse_util::ws_len(b1.text) == 1) by {
                assert(b1.text.skip(1)[0] == 120);
                assert(crate::parse_util::ws_len(b1.text.skip(1)) == 0);
            }
            let b2 = crate::parse_util::btrim_left(b1);
            let rest_a = seq![32u8] + dect + (seq![32u8] + decf);
            assert(b2.text =~= r_reg(a as int) + rest_a);
            assert(!crate::dec::is_digit(rest_a[0]));
            lemma_reg_parse(b2, crate::parse::tok_x(), a as int, rest_a);
            let b3 = BufM { text: rest_a, row, col: b2.col + 1 + deca.len() as int };
            assert(crate::parse_util::ws_len(b3.text) == 1) by {
                assert(b3.text.skip(1)[0] == dect[0]);
                assert(dect[0] == 45 || crate::dec::is_digit(dect[0])) by {
                    if t >= 0 {
                        assert(crate::dec::is_digit(dect[0]));
                    }
                }
                assert(crate::parse_util::ws_len(b3.text.skip(1)) == 0);
            }
            let b4 = crate::parse_util::btrim_left(b3);
            assert(b4.text =~= dect + (seq![32u8] + decf));
            assert(!(crate::dec::is_digit((seq![32u8] + decf)[0]) || (seq![32u8] + decf)[0]
                == 45));
            lemma_int_parse_til(
                b4,
                t as int,
                i8::MIN as int,
                i8::MAX as int,
                seq![32u8] + decf,
            );
            let b5 = BufM {
                text: seq![32u8] + decf,
                row,
                col: b4.col + dect.len() as int,
            };
            assert(crate::parse_util::ws_len(b5.text) == 1) by {
                assert(b5.text.skip(1)[0] == decf[0]);
                assert(decf[0] == 45 || crate::dec::is_digit(decf[0])) by {
                    if f >= 0 {
                        assert(crate::dec::is_digit(decf[0]));
                    }
                }
                assert(crate::parse_util::ws_len(b5.text.skip(1)) == 0);
            }
            let b6 = crate::parse_util::btrim_left(b5);
            assert(b6.text =~= decf + Seq::<u8>::empty());
            lemma_int_parse_til(b6, f as int, i8::MIN as int, i8::MAX as int, Seq::empty());
        },
        _ => {},
    }
}

/// The right-hand-side walk of [`lemma_rt_mk_tup`].
#[verifier::rlimit(100)]
#[verifier::spinoff_prover]
proof fn lemma_rt_mk_tup_assign(defns: Seq<DefnM>, i: Instr, row: int)
    requires
        defns.len() > 0,
        i matches Instr::MkTup(_, _, _),
    ensures
        crate::parse::sassign(defns, BufM { text: render_instr(i), row, col: 0 }) == Ok::<
            Seq<DefnM>,
            crate::parse_util::ParseErrorM,
        >(crate::parse::push_ins(defns, i)),
{
    let line = render_instr(i);
    let b0 = BufM { text: line, row, col: 0 };
    match i {
        Instr::MkTup(a, start, len) => {
            let deca = dec_of_nat(a as int);
            let decs = dec_of_nat(start as int);
            let decl = dec_of_nat(len as int);
            crate::dec::lemma_dec_of_nat_val(a as int);
            crate::dec::lemma_dec_of_nat_val(start as int);
            crate::dec::lemma_dec_of_nat_val(len as int);
            let tail = r_lparen() + r_reg(start as int) + r_dotdot() + r_reg(len as int)
                + r_rparen();
            assert(line =~= r_reg(a as int) + r_assign_op() + tail);
            assert(tail[0] == 40 && !crate::parse_util::is_ws(tail[0]));
            lemma_assign_head(b0, a, tail);
            let b3 = BufM { text: tail, row, col: 1 + deca.len() as int + 4 };
            assert(!crate::parse_util::is_prefix(crate::parse::tok_k(), b3.text)) by {
                if crate::parse_util::is_prefix(crate::parse::tok_k(), b3.text) {
                    assert(b3.text.take(1)[0] == b3.text[0]);
                }
            }
            assert(crate::parse_util::is_prefix(crate::parse::tok_lparen(), b3.text)) by {
                assert(b3.text.take(1) =~= crate::parse::tok_lparen());
            }
            lemma_trim_left_id(b3);
            let b4 = crate::parse_util::badvance(b3, 1);
            let rest_s = r_dotdot() + (r_reg(len as int) + r_rparen());
            assert(b4.text =~= r_reg(start as int) + rest_s);
            assert(!crate::dec::is_digit(rest_s[0]));
            lemma_reg_parse(b4, crate::parse::tok_x(), start as int, rest_s);
            let b5 = BufM { text: rest_s, row, col: b4.col + 1 + decs.len() as int };
            lemma_trim_left_id(b5);
            assert(crate::parse_util::is_prefix(crate::parse::tok_dotdot(), b5.text)) by {
                assert(b5.text.take(2) =~= crate::parse::tok_dotdot());
            }
            let b6 = crate::parse_util::badvance(b5, 2);
            assert(b6.text =~= r_reg(len as int) + r_rparen());
            assert(!crate::dec::is_digit(r_rparen()[0]));
            lemma_reg_parse(b6, crate::parse::tok_x(), len as int, r_rparen());
            let b7 = BufM { text: r_rparen(), row, col: b6.col + 1 + decl.len() as int };
            lemma_trim_left_id(b7);
            assert(crate::parse_util::is_prefix(crate::parse::tok_rparen(), b7.text)) by {
                assert(b7.text.take(1) =~= crate::parse::tok_rparen());
            }
            let b8 = crate::parse_util::badvance(b7, 1);
            assert(b8.text =~= Seq::<u8>::empty());
        },
        _ => {},
    }
}

/// One case of [`lemma_instr_line_roundtrip`].
#[verifier::rlimit(100)]
#[verifier::spinoff_prover]
proof fn lemma_rt_mk_tup(defns: Seq<DefnM>, i: Instr, row: int)
    requires
        defns.len() > 0,
        i matches Instr::MkTup(_, _, _),
    ensures
        crate::parse::sline(defns, render_instr(i), row) == Ok::<
            Seq<DefnM>,
            crate::parse_util::ParseErrorM,
        >(crate::parse::push_ins(defns, i)),
{
    let line = render_instr(i);
    let b0 = BufM { text: line, row, col: 0 };
    match i {
        Instr::MkTup(a, start, len) => {
            let deca = dec_of_nat(a as int);
            let decs = dec_of_nat(start as int);
            let decl = dec_of_nat(len as int);
            crate::dec::lemma_dec_of_nat_val(a as int);
            crate::dec::lemma_dec_of_nat_val(start as int);
            crate::dec::lemma_dec_of_nat_val(len as int);
            assert(line[0] == 120);
            assert(line.last() == 41) by {
                assert(line.len() == 1 + deca.len() + 4 + 1 + 1 + decs.len() + 2 + 1
                    + decl.len() + 1);
                assert(line[line.len() - 1] == r_rparen()[0]);
            }
            lemma_trim_left_id(b0);
            lemma_trim_right_id(b0);
            lemma_not_kw_prefix(line);
            lemma_rt_mk_tup_assign(defns, i, row);
        },
        _ => {},
    }
}


/// Lifts an assignment-line walk to the whole line: a line that starts
/// with a register reference and ends on a non-blank byte is trimmed to
/// itself and dispatches to the assignment grammar.
proof fn lemma_rt_from_assign(defns: Seq<DefnM>, i: Instr, row: int)
    requires
        defns.len() > 0,
        render_instr(i).len() > 0,
        render_instr(i)[0] == 120,
        !crate::parse_util::is_ws(render_instr(i).last()),
        crate::parse::sassign(defns, BufM { text: render_instr(i), row, col: 0 }) == Ok::<
            Seq<DefnM>,
            crate::parse_util::ParseErrorM,
        >(crate::parse::push_ins(defns, i)),
    ensures
        crate::parse::sline(defns, render_instr(i), row) == Ok::<
            Seq<DefnM>,
            crate::parse_util::ParseErrorM,
        >(crate::parse::push_ins(defns, i)),
{
    let line = render_instr(i);
    let b0 = BufM { text: line, row, col: 0 };
    lemma_trim_left_id(b0);
    lemma_trim_right_id(b0);
    lemma_not_kw_prefix(line);
}

/// The right-hand-side walk of one binary-operator line.
#[verifier::rlimit(100)]
#[verifier::spinoff_prover]
proof fn lemma_rt_op_add_assign(defns: Seq<DefnM>, i: Instr, row: int)
    requires
        defns.len() > 0,
        i matches Instr::Add(_, _, _),
    ensures
        crate::parse::sassign(defns, BufM { text: render_instr(i), row, col: 0 }) == Ok::<
            Seq<DefnM>,
            crate::parse_util::ParseErrorM,
        >(crate::parse::push_ins(defns, i)),
{
    let line = render_instr(i);
    let b0 = BufM { text: line, row, col: 0 };
    match i {
        Instr::Add(a, l, c) => {
            let deca = dec_of_nat(a as int);
            let decl = dec_of_nat(l as int);
            let decc = dec_of_nat(c as int);
            crate::dec::lemma_dec_of_nat_val(a as int);
            crate::dec::lemma_dec_of_nat_val(l as int);
            crate::dec::lemma_dec_of_nat_val(c as int);
            let op = seq![43u8];
            let tail = r_reg(l as int) + r_sp() + op + r_sp() + r_reg(c as int);
            assert(line =~= r_reg(a as int) + r_assign_op() + tail);
            assert(tail[0] == 120 && !crate::parse_util::is_ws(tail[0]));
            lemma_assign_head(b0, a, tail);
            let b3 = BufM { text: tail, row, col: 1 + deca.len() as int + 4 };
            assert(!crate::parse_util::is_prefix(crate::parse::tok_k(), b3.text)) by {
                if crate::parse_util::is_prefix(crate::parse::tok_k(), b3.text) {
                    assert(b3.text.take(1)[0] == b3.text[0]);
                }
            }
            assert(!crate::parse_util::is_prefix(crate::parse::tok_lparen(), b3.text)) by {
                if crate::parse_util::is_prefix(crate::parse::tok_lparen(), b3.text) {
                    assert(b3.text.take(1)[0] == b3.text[0]);
                }
            }
            assert(!crate::parse_util::is_prefix(crate::parse::tok_read(), b3.text)) by {
                if crate::parse_util::is_prefix(crate::parse::tok_read(), b3.text) {
                    assert(b3.text.take(4)[0] == b3.text[0]);
                }
            }
            let rest1 = r_sp() + op + r_sp() + r_reg(c as int);
            assert(b3.text =~= r_reg(l as int) + rest1);
            assert(!crate::dec::is_digit(rest1[0]));
            lemma_reg_parse(b3, crate::parse::tok_x(), l as int, rest1);
            let b4 = BufM { text: rest1, row, col: b3.col + 1 + decl.len() as int };
            assert(crate::parse_util::ws_len(b4.text) == 1) by {
                assert(b4.text.skip(1)[0] == op[0]);
                assert(crate::parse_util::ws_len(b4.text.skip(1)) == 0);
            }
            let b5 = crate::parse_util::btrim_left(b4);
            let rest2 = seq![32u8] + r_reg(c as int);
            assert(b5.text =~= op + rest2);
            assert(b5.text.len() > 0);
            assert(b5.text[0] == 43);
            // operator dispatch: the first matching token is this operator
            assert(crate::parse_util::is_prefix(crate::parse::op_tokens()[0], b5.text)) by {
                assert(b5.text.take(1) =~= seq![43u8]);
            }
            crate::parse_util::lemma_first_tok_at(b5.text, crate::parse::op_tokens(), 0);
            let b6 = crate::parse_util::badvance(b5, 1);
            assert(b6.text =~= rest2);
            // the matched token is a binary operator, not a call or index
            assert(!(seq![43u8] =~= seq![40u8]));
            assert(!(seq![43u8] =~= seq![91u8]));
            // right operand
            assert(crate::parse_util::ws_len(b6.text) == 1) by {
                assert(b6.text.skip(1)[0] == 120);
                assert(crate::parse_util::ws_len(b6.text.skip(1)) == 0);
            }
            let b6t = crate::parse_util::btrim_left(b6);
            assert(b6t.text =~= r_reg(c as int) + Seq::<u8>::empty());
            lemma_trim_left_id(b6t);
            lemma_reg_parse(b6t, crate::parse::tok_x(), c as int, Seq::empty());
            assert(crate::parse::saddr(b6, crate::parse::tok_x()) == crate::parse::saddr(
                b6t,
                crate::parse::tok_x(),
            ));
        },
        _ => {},
    }
}

/// The right-hand-side walk of one binary-operator line.
#[verifier::rlimit(100)]
#[verifier::spinoff_prover]
proof fn lemma_rt_op_sub_assign(defns: Seq<DefnM>, i: Instr, row: int)
    requires
        defns.len() > 0,
        i matches Instr::Sub(_, _, _),
    ensures
        crate::parse::sassign(defns, BufM { text: render_instr(i), row, col: 0 }) == Ok::<
            Seq<DefnM>,
            crate::parse_util::ParseErrorM,
        >(crate::parse::push_ins(defns, i)),
{
    let line = render_instr(i);
    let b0 = BufM { text: line, row, col: 0 };
    match i {
        Instr::Sub(a, l, c) => {
            let deca = dec_of_nat(a as int);
            let decl = dec_of_nat(l as int);
            let decc = dec_of_nat(c as int);
            crate::dec::lemma_dec_of_nat_val(a as int);
            crate::dec::lemma_dec_of_nat_val(l as int);
            crate::dec::lemma_dec_of_nat_val(c as int);
            let op = seq![45u8];
            let tail = r_reg(l as int) + r_sp() + op + r_sp() + r_reg(c as int);
            assert(line =~= r_reg(a as int) + r_assign_op() + tail);
            assert(tail[0] == 120 && !crate::parse_util::is_ws(tail[0]));
            lemma_assign_head(b0, a, tail);
            let b3 = BufM { text: tail, row, col: 1 + deca.len() as int + 4 };
            assert(!crate::parse_util::is_prefix(crate::parse::tok_k(), b3.text)) by {
                if crate::parse_util::is_prefix(crate::parse::tok_k(), b3.text) {
                    assert(b3.text.take(1)[0] == b3.text[0]);
                }
            }
            assert(!crate::parse_util::is_prefix(crate::parse::tok_lparen(), b3.text)) by {
                if crate::parse_util::is_prefix(crate::parse::tok_lparen(), b3.text) {
                    assert(b3.text.take(1)[0] == b3.text[0]);
                }
            }
            assert(!crate::parse_util::is_prefix(crate::parse::tok_read(), b3.text)) by {
                if crate::parse_util::is_prefix(crate::parse::tok_read(), b3.text) {
                    assert(b3.text.take(4)[0] == b3.text[0]);
                }
            }
            let rest1 = r_sp() + op + r_sp() + r_reg(c as int);
            assert(b3.text =~= r_reg(l as int) + rest1);
            assert(!crate::dec::is_digit(rest1[0]));
            lemma_reg_parse(b3, crate::parse::tok_x(), l as int, rest1);
            let b4 = BufM { text: rest1, row, col: b3.col + 1 + decl.len() as int };
            assert(crate::parse_util::ws_len(b4.text) == 1) by {
                assert(b4.text.skip(1)[0] == op[0]);
                assert(crate::parse_util::ws_len(b4.text.skip(1)) == 0);
            }
            let b5 = crate::parse_util::btrim_left(b4);
            let rest2 = seq![32u8] + r_reg(c as int);
            assert(b5.text =~= op + rest2);
            assert(b5.text.len() > 0);
            assert(b5.text[0] == 45);
            assert(!crate::parse_util::is_prefix(crate::parse::op_tokens()[0], b5.text)) by {
                assert(crate::parse::op_tokens()[0] =~= seq![43u8]);
                if crate::parse_util::is_prefix(seq![43u8], b5.text) {
                    assert(b5.text.take(1)[0] == b5.text[0]);
                }
            }
            assert forall|j: int| 0 <= j < 1 implies !crate::parse_util::is_prefix(
                #[trigger] crate::parse::op_tokens()[j],
                b5.text,
            ) by {
                if j == 0 {
                }
            }
            assert(crate::parse_util::is_prefix(crate::parse::op_tokens()[1], b5.text)) by {
                assert(crate::parse::op_tokens()[1] =~= seq![45u8]);
                assert(b5.text.take(1) =~= seq![45u8]);
            }
            crate::parse_util::lemma_first_tok_at(b5.text, crate::parse::op_tokens(), 1);
            let b6 = crate::parse_util::badvance(b5, 1);
            assert(b6.text =~= rest2);
            assert(!(seq![45u8] =~= seq![40u8]));
            assert(!(seq![45u8] =~= seq![91u8]));
            assert(crate::parse_util::ws_len(b6.text) == 1) by {
                assert(b6.text.skip(1)[0] == 120);
                assert(crate::parse_util::ws_len(b6.text.skip(1)) == 0);
            }
            let b6t = crate::parse_util::btrim_left(b6);
            assert(b6t.text =~= r_reg(c as int) + Seq::<u8>::empty());
            lemma_trim_left_id(b6t);
            lemma_reg_parse(b6t, crate::parse::tok_x(), c as int, Seq::empty());
            assert(crate::parse::saddr(b6, crate::parse::tok_x()) == crate::parse::saddr(
                b6t,
                crate::parse::tok_x(),
            ));
        },
        _ => {},
    }
}

/// One case of [`lemma_instr_line_roundtrip`].
#[verifier::rlimit(100)]
#[verifier::spinoff_prover]
proof fn lemma_rt_op_sub(defns: Seq<DefnM>, i: Instr, row: int)
    requires
        defns.len() > 0,
        i matches Instr::Sub(_, _, _),
    ensures
        crate::parse::sline(defns, render_instr(i), row) == Ok::<
            Seq<DefnM>,
            crate::parse_util::ParseErrorM,
        >(crate::parse::push_ins(defns, i)),
{
    let line = render_instr(i);
    match i {
        Instr::Sub(a, l, c) => {
            let deca = dec_of_nat(a as int);
            let decl = dec_of_nat(l as int);
            let decc = dec_of_nat(c as int);
            crate::dec::lemma_dec_of_nat_val(a as int);
            crate::dec::lemma_dec_of_nat_val(l as int);
            crate::dec::lemma_dec_of_nat_val(c as int);
            assert(line[0] == 120);
            assert(line.last() == decc.last() && crate::dec::is_digit(decc.last())) by {
                assert(line.len() == 1 + deca.len() + 4 + 1 + decl.len() + 1 + 1 + 1
                    + 1 + decc.len());
                assert(line[line.len() - 1] == decc[decc.len() - 1]);
            }
            lemma_rt_op_sub_assign(defns, i, row);
            lemma_rt_from_assign(defns, i, row);
        },
        _ => {},
    }
}

/// The right-hand-side walk of one binary-operator line.
#[verifier::rlimit(100)]
#[verifier::spinoff_prover]
proof fn lemma_rt_op_mul_assign(defns: Seq<DefnM>, i: Instr, row: int)
    requires
        defns.len() > 0,
        i matches Instr::Mul(_, _, _),
    ensures
        crate::parse::sassign(defns, BufM { text: render_instr(i), row, col: 0 }) == Ok::<
            Seq<DefnM>,
            crate::parse_util::ParseErrorM,
        >(crate::parse::push_ins(defns, i)),
{
    let line = render_instr(i);
    let b0 = BufM { text: line, row, col: 0 };
    match i {
        Instr::Mul(a, l, c) => {
            let deca = dec_of_nat(a as int);
            let decl = dec_of_nat(l as int);
            let decc = dec_of_nat(c as int);
            crate::dec::lemma_dec_of_nat_val(a as int);
            crate::dec::lemma_dec_of_nat_val(l as int);
            crate::dec::lemma_dec_of_nat_val(c as int);
            let op = seq![42u8];
            let tail = r_reg(l as int) + r_sp() + op + r_sp() + r_reg(c as int);
            assert(line =~= r_reg(a as int) + r_assign_op() + tail);
            assert(tail[0] == 120 && !crate::parse_util::is_ws(tail[0]));
            lemma_assign_head(b0, a, tail);
            let b3 = BufM { text: tail, row, col: 1 + deca.len() as int + 4 };
            assert(!crate::parse_util::is_prefix(crate::parse::tok_k(), b3.text)) by {
                if crate::parse_util::is_prefix(crate::parse::tok_k(), b3.text) {
                    assert(b3.text.take(1)[0] == b3.text[0]);
                }
            }
            assert(!crate::parse_util::is_prefix(crate::parse::tok_lparen(), b3.text)) by {
                if crate::parse_util::is_prefix(crate::parse::tok_lparen(), b3.text) {
                    assert(b3.text.take(1)[0] == b3.text[0]);
                }
            }
            assert(!crate::parse_util::is_prefix(crate::parse::tok_read(), b3.text)) by {
                if crate::parse_util::is_prefix(crate::parse::tok_read(), b3.text) {
                    assert(b3.text.take(4)[0] == b3.text[0]);
                }
            }
            let rest1 = r_sp() + op + r_sp() + r_reg(c as int);
            assert(b3.text =~= r_reg(l as int) + rest1);
            assert(!crate::dec::is_digit(rest1[0]));
            lemma_reg_parse(b3, crate::parse::tok_x(), l as int, rest1);
            let b4 = BufM { text: rest1, row, col: b3.col + 1 + decl.len() as int };
            assert(crate::parse_util::ws_len(b4.text) == 1) by {
                assert(b4.text.skip(1)[0] == op[0]);
                assert(crate::parse_util::ws_len(b4.text.skip(1)) == 0);
            }
            let b5 = crate::parse_util::btrim_left(b4);
            let rest2 = seq![32u8] + r_reg(c as int);
            assert(b5.text =~= op + rest2);
            assert(b5.text.len() > 0);
            assert(b5.text[0] == 42);
            assert(!crate::parse_util::is_prefix(crate::parse::op_tokens()[0], b5.text)) by {
                assert(crate::parse::op_tokens()[0] =~= seq![43u8]);
                if crate::parse_util::is_prefix(seq![43u8], b5.text) {
                    assert(b5.text.take(1)[0] == b5.text[0]);
                }
            }
            assert(!crate::parse_util::is_prefix(crate::parse::op_tokens()[1], b5.text)) by {
                assert(crate::parse::op_tokens()[1] =~= seq![45u8]);
                if crate::parse_util::is_prefix(seq![45u8], b5.text) {
                    assert(b5.text.take(1)[0] == b5.text[0]);
                }
            }
            assert forall|j: int| 0 <= j < 2 implies !crate::parse_util::is_prefix(
                #[trigger] crate::parse::op_tokens()[j],
                b5.text,
            ) by {
                if j == 0 {
                }
                else if j == 1 {
                }
            }
            assert(crate::parse_util::is_prefix(crate::parse::op_tokens()[2], b5.text)) by {
                assert(crate::parse::op_tokens()[2] =~= seq![42u8]);
                assert(b5.text.take(1) =~= seq![42u8]);
            }
            crate::parse_util::lemma_first_tok_at(b5.text, crate::parse::op_tokens(), 2);
            let b6 = crate::parse_util::badvance(b5, 1);
            assert(b6.text =~= rest2);
            assert(!(seq![42u8] =~= seq![40u8]));
            assert(!(seq![42u8] =~= seq![91u8]));
            assert(crate::parse_util::ws_len(b6.text) == 1) by {
                assert(b6.text.skip(1)[0] == 120);
                assert(crate::parse_util::ws_len(b6.text.skip(1)) == 0);
            }
            let b6t = crate::parse_util::btrim_left(b6);
            assert(b6t.text =~= r_reg(c as int) + Seq::<u8>::empty());
            lemma_trim_left_id(b6t);
            lemma_reg_parse(b6t, crate::parse::tok_x(), c as int, Seq::empty());
            assert(crate::parse::saddr(b6, crate::parse::tok_x()) == crate::parse::saddr(
                b6t,
                crate::parse::tok_x(),
            ));
        },
        _ => {},
    }
}

/// One case of [`lemma_instr_line_roundtrip`].
#[verifier::rlimit(100)]
#[verifier::spinoff_prover]
proof fn lemma_rt_op_mul(defns: Seq<DefnM>, i: Instr, row: int)
    requires
        defns.len() > 0,
        i matches Instr::Mul(_, _, _),
    ensures
        crate::parse::sline(defns, render_instr(i), row) == Ok::<
            Seq<DefnM>,
            crate::parse_util::ParseErrorM,
        >(crate::parse::push_ins(defns, i)),
{
    let line = render_instr(i);
    match i {
        Instr::Mul(a, l, c) => {
            let deca = dec_of_nat(a as int);
            let decl = dec_of_nat(l as int);
            let decc = dec_of_nat(c as int);
            crate::dec::lemma_dec_of_nat_val(a as int);
            crate::dec::lemma_dec_of_nat_val(l as int);
            crate::dec::lemma_dec_of_nat_val(c as int);
            assert(line[0] == 120);
            assert(line.last() == decc.last() && crate::dec::is_digit(decc.last())) by {
                assert(line.len() == 1 + deca.len() + 4 + 1 + decl.len() + 1 + 1 + 1
                    + 1 + decc.len());
                assert(line[line.len() - 1] == decc[decc.len() - 1]);
            }
            lemma_rt_op_mul_assign(defns, i, row);
            lemma_rt_from_assign(defns, i, row);
        },
        _ => {},
    }
}

/// The right-hand-side walk of one binary-operator line.
#[verifier::rlimit(100)]
#[verifier::spinoff_prover]
proof fn lemma_rt_op_div_assign(defns: Seq<DefnM>, i: Instr, row: int)
    requires
        defns.len() > 0,
        i matches Instr::Div(_, _, _),
    ensures
        crate::parse::sassign(defns, BufM { text: render_instr(i), row, col: 0 }) == Ok::<
            Seq<DefnM>,
            crate::parse_util::ParseErrorM,
        >(crate::parse::push_ins(defns, i)),
{
    let line = render_instr(i);
    let b0 = BufM { text: line, row, col: 0 };
    match i {
        Instr::Div(a, l, c) => {
            let deca = dec_of_nat(a as int);
            let decl = dec_of_nat(l as int);
            let decc = dec_of_nat(c as int);
            crate::dec::lemma_dec_of_nat_val(a as int);
            crate::dec::lemma_dec_of_nat_val(l as int);
            crate::dec::lemma_dec_of_nat_val(c as int);
            let op = seq![47u8];
            let tail = r_reg(l as int) + r_sp() + op + r_sp() + r_reg(c as int);
            assert(line =~= r_reg(a as int) + r_assign_op() + tail);
            assert(tail[0] == 120 && !crate::parse_util::is_ws(tail[0]));
            lemma_assign_head(b0, a, tail);
            let b3 = BufM { text: tail, row, col: 1 + deca.len() as int + 4 };
            assert(!crate::parse_util::is_prefix(crate::parse::tok_k(), b3.text)) by {
                if crate::parse_util::is_prefix(crate::parse::tok_k(), b3.text) {
                    assert(b3.text.take(1)[0] == b3.text[0]);
                }
            }
            assert(!crate::parse_util::is_prefix(crate::parse::tok_lparen(), b3.text)) by {
                if crate::parse_util::is_prefix(crate::parse::tok_lparen(), b3.text) {
                    assert(b3.text.take(1)[0] == b3.text[0]);
                }
            }
            assert(!crate::parse_util::is_prefix(crate::parse::tok_read(), b3.text)) by {
                if crate::parse_util::is_prefix(crate::parse::tok_read(), b3.text) {
                    assert(b3.text.take(4)[0] == b3.text[0]);
                }
            }
            let rest1 = r_sp() + op + r_sp() + r_reg(c as int);
            assert(b3.text =~= r_reg(l as int) + rest1);
            assert(!crate::dec::is_digit(rest1[0]));
            lemma_reg_parse(b3, crate::parse::tok_x(), l as int, rest1);
            let b4 = BufM { text: rest1, row, col: b3.col + 1 + decl.len() as int };
            assert(crate::parse_util::ws_len(b4.text) == 1) by {
                assert(b4.text.skip(1)[0] == op[0]);
                assert(crate::parse_util::ws_len(b4.text.skip(1)) == 0);
            }
            let b5 = crate::parse_util::btrim_left(b4);
            let rest2 = seq![32u8] + r_reg(c as int);
            assert(b5.text =~= op + rest2);
            assert(b5.text.len() > 0);
            assert(b5.text[0] == 47);
            assert(!crate::parse_util::is_prefix(crate::parse::op_tokens()[0], b5.text)) by {
                assert(crate::parse::op_tokens()[0] =~= seq![43u8]);
                if crate::parse_util::is_prefix(seq![43u8], b5.text) {
                    assert(b5.text.take(1)[0] == b5.text[0]);
                }
            }
            assert(!crate::parse_util::is_prefix(crate::parse::op_tokens()[1], b5.text)) by {
                assert(crate::parse::op_tokens()[1] =~= seq![45u8]);
                if crate::parse_util::is_prefix(seq![45u8], b5.text) {
                    assert(b5.text.take(1)[0] == b5.text[0]);
                }
            }
            assert(!crate::parse_util::is_prefix(crate::parse::op_tokens()[2], b5.text)) by {
                assert(crate::parse::op_tokens()[2] =~= seq![42u8]);
                if crate::parse_util::is_prefix(seq![42u8], b5.text) {
                    assert(b5.text.take(1)[0] == b5.text[0]);
                }
            }
            assert forall|j: int| 0 <= j < 3 implies !crate::parse_util::is_prefix(
                #[trigger] crate::parse::op_tokens()[j],
                b5.text,
            ) by {
                if j == 0 {
                }
                else if j == 1 {
                }
                else if j == 2 {
                }
            }
            assert(crate::parse_util::is_prefix(crate::parse::op_tokens()[3], b5.text)) by {
                assert(crate::parse::op_tokens()[3] =~= seq![47u8]);
                assert(b5.text.take(1) =~= seq![47u8]);
            }
            crate::parse_util::lemma_first_tok_at(b5.text, crate::parse::op_tokens(), 3);
            let b6 = crate::parse_util::badvance(b5, 1);
            assert(b6.text =~= rest2);
            assert(!(seq![47u8] =~= seq![40u8]));
            assert(!(seq![47u8] =~= seq![91u8]));
            assert(crate::parse_util::ws_len(b6.text) == 1) by {
                assert(b6.text.skip(1)[0] == 120);
                assert(crate::parse_util::ws_len(b6.text.skip(1)) == 0);
            }
            let b6t = crate::parse_util::btrim_left(b6);
            assert(b6t.text =~= r_reg(c as int) + Seq::<u8>::empty());
            lemma_trim_left_id(b6t);
            lemma_reg_parse(b6t, crate::parse::tok_x(), c as int, Seq::empty());
            assert(crate::parse::saddr(b6, crate::parse::tok_x()) == crate::parse::saddr(
                b6t,
                crate::parse::tok_x(),
            ));
        },
        _ => {},
    }
}

/// One case of [`lemma_instr_line_roundtrip`].
#[verifier::rlimit(100)]
#[verifier::spinoff_prover]
proof fn lemma_rt_op_div(defns: Seq<DefnM>, i: Instr, row: int)
    requires
        defns.len() > 0,
        i matches Instr::Div(_, _, _),
    ensures
        crate::parse::sline(defns, render_instr(i), row) == Ok::<
            Seq<DefnM>,
            crate::parse_util::ParseErrorM,
        >(crate::parse::push_ins(defns, i)),
{
    let line = render_instr(i);
    match i {
        Instr::Div(a, l, c) => {
            let deca = dec_of_nat(a as int);
            let decl = dec_of_nat(l as int);
            let decc = dec_of_nat(c as int);
            crate::dec::lemma_dec_of_nat_val(a as int);
            crate::dec::lemma_dec_of_nat_val(l as int);
            crate::dec::lemma_dec_of_nat_val(c as int);
            assert(line[0] == 120);
            assert(line.last() == decc.last() && crate::dec::is_digit(decc.last())) by {
                assert(line.len() == 1 + deca.len() + 4 + 1 + decl.len() + 1 + 1 + 1
                    + 1 + decc.len());
                assert(line[line.len() - 1] == decc[decc.len() - 1]);
            }
            lemma_rt_op_div_assign(defns, i, row);
            lemma_rt_from_assign(defns, i, row);
        },
        _ => {},
    }
}

/// The right-hand-side walk of one binary-operator line.
#[verifier::rlimit(100)]
#[verifier::spinoff_prover]
proof fn lemma_rt_op_rem_assign(defns: Seq<DefnM>, i: Instr, row: int)
    requires
        defns.len() > 0,
        i matches Instr::Rem(_, _, _),
    ensures
        crate::parse::sassign(defns, BufM { text: render_instr(i), row, col: 0 }) == Ok::<
            Seq<DefnM>,
            crate::parse_util::ParseErrorM,
        >(crate::parse::push_ins(defns, i)),
{
    let line = render_instr(i);
    let b0 = BufM { text: line, row, col: 0 };
    match i {
        Instr::Rem(a, l, c) => {
            let deca = dec_of_nat(a as int);
            let decl = dec_of_nat(l as int);
            let decc = dec_of_nat(c as int);
            crate::dec::lemma_dec_of_nat_val(a as int);
            crate::dec::lemma_dec_of_nat_val(l as int);
            crate::dec::lemma_dec_of_nat_val(c as int);
            let op = seq![37u8];
            let tail = r_reg(l as int) + r_sp() + op + r_sp() + r_reg(c as int);
            assert(line =~= r_reg(a as int) + r_assign_op() + tail);
            assert(tail[0] == 120 && !crate::parse_util::is_ws(tail[0]));
            lemma_assign_head(b0, a, tail);
            let b3 = BufM { text: tail, row, col: 1 + deca.len() as int + 4 };
            assert(!crate::parse_util::is_prefix(crate::parse::tok_k(), b3.text)) by {
                if crate::parse_util::is_prefix(crate::parse::tok_k(), b3.text) {
                    assert(b3.text.take(1)[0] == b3.text[0]);
                }
            }
            assert(!crate::parse_util::is_prefix(crate::parse::tok_lparen(), b3.text)) by {
                if crate::parse_util::is_prefix(crate::parse::tok_lparen(), b3.text) {
                    assert(b3.text.take(1)[0] == b3.text[0]);
                }
            }
            assert(!crate::parse_util::is_prefix(crate::parse::tok_read(), b3.text)) by {
                if crate::parse_util::is_prefix(crate::parse::tok_read(), b3.text) {
                    assert(b3.text.take(4)[0] == b3.text[0]);
                }
            }
            let rest1 = r_sp() + op + r_sp() + r_reg(c as int);
            assert(b3.text =~= r_reg(l as int) + rest1);
            assert(!crate::dec::is_digit(rest1[0]));
            lemma_reg_parse(b3, crate::parse::tok_x(), l as int, rest1);
            let b4 = BufM { text: rest1, row, col: b3.col + 1 + decl.len() as int };
            assert(crate::parse_util::ws_len(b4.text) == 1) by {
                assert(b4.text.skip(1)[0] == op[0]);
                assert(crate::parse_util::ws_len(b4.text.skip(1)) == 0);
            }
            let b5 = crate::parse_util::btrim_left(b4);
            let rest2 = seq![32u8] + r_reg(c as int);
            assert(b5.text =~= op + rest2);
            assert(b5.text.len() > 0);
            assert(b5.text[0] == 37);
            assert(!crate::parse_util::is_prefix(crate::parse::op_tokens()[0], b5.text)) by {
                assert(crate::parse::op_tokens()[0] =~= seq![43u8]);
                if crate::parse_util::is_prefix(seq![43u8], b5.text) {
                    assert(b5.text.take(1)[0] == b5.text[0]);
                }
            }
            assert(!crate::parse_util::is_prefix(crate::parse::op_tokens()[1], b5.text)) by {
                assert(crate::parse::op_tokens()[1] =~= seq![45u8]);
                if crate::parse_util::is_prefix(seq![45u8], b5.text) {
                    assert(b5.text.take(1)[0] == b5.text[0]);
                }
            }
            assert(!crate::parse_util::is_prefix(crate::parse::op_tokens()[2], b5.text)) by {
                assert(crate::parse::op_tokens()[2] =~= seq![42u8]);
                if crate::parse_util::is_prefix(seq![42u8], b5.text) {
                    assert(b5.text.take(1)[0] == b5.text[0]);
                }
            }
            assert(!crate::parse_util::is_prefix(crate::parse::op_tokens()[3], b5.text)) by {
                assert(crate::parse::op_tokens()[3] =~= seq![47u8]);
                if crate::parse_util::is_prefix(seq![47u8], b5.text) {
                    assert(b5.text.take(1)[0] == b5.text[0]);
                }
            }
            assert forall|j: int| 0 <= j < 4 implies !crate::parse_util::is_prefix(
                #[trigger] crate::parse::op_tokens()[j],
                b5.text,
            ) by {
                if j == 0 {
                }
                else if j == 1 {
                }
                else if j == 2 {
                }
                else if j == 3 {
                }
            }
            assert(crate::parse_util::is_prefix(crate::parse::op_tokens()[4], b5.text)) by {
                assert(crate::parse::op_tokens()[4] =~= seq![37u8]);
                assert(b5.text.take(1) =~= seq![37u8]);
            }
            crate::parse_util::lemma_first_tok_at(b5.text, crate::parse::op_tokens(), 4);
            let b6 = crate::parse_util::badvance(b5, 1);
            assert(b6.text =~= rest2);
            assert(!(seq![37u8] =~= seq![40u8]));
            assert(!(seq![37u8] =~= seq![91u8]));
            assert(crate::parse_util::ws_len(b6.text) == 1) by {
                assert(b6.text.skip(1)[0] == 120);
                assert(crate::parse_util::ws_len(b6.text.skip(1)) == 0);
            }
            let b6t = crate::parse_util::btrim_left(b6);
            assert(b6t.text =~= r_reg(c as int) + Seq::<u8>::empty());
            lemma_trim_left_id(b6t);
            lemma_reg_parse(b6t, crate::parse::tok_x(), c as int, Seq::empty());
            assert(crate::parse::saddr(b6, crate::parse::tok_x()) == crate::parse::saddr(
                b6t,
                crate::parse::tok_x(),
            ));
        },
        _ => {},
    }
}

/// One case of [`lemma_instr_line_roundtrip`].
#[verifier::rlimit(100)]
#[verifier::spinoff_prover]
proof fn lemma_rt_op_rem(defns: Seq<DefnM>, i: Instr, row: int)
    requires
        defns.len() > 0,
        i matches Instr::Rem(_, _, _),
    ensures
        crate::parse::sline(defns, render_instr(i), row) == Ok::<
            Seq<DefnM>,
            crate::parse_util::ParseErrorM,
        >(crate::parse::push_ins(defns, i)),
{
    let line = render_instr(i);
    match i {
        Instr::Rem(a, l, c) => {
            let deca = dec_of_nat(a as int);
            let decl = dec_of_nat(l as int);
            let decc = dec_of_nat(c as int);
            crate::dec::lemma_dec_of_nat_val(a as int);
            crate::dec::lemma_dec_of_nat_val(l as int);
            crate::dec::lemma_dec_of_nat_val(c as int);
            assert(line[0] == 120);
            assert(line.last() == decc.last() && crate::dec::is_digit(decc.last())) by {
                assert(line.len() == 1 + deca.len() + 4 + 1 + decl.len() + 1 + 1 + 1
                    + 1 + decc.len());
                assert(line[line.len() - 1] == decc[decc.len() - 1]);
            }
            lemma_rt_op_rem_assign(defns, i, row);
            lemma_rt_from_assign(defns, i, row);
        },
        _ => {},
    }
}

/// The right-hand-side walk of one binary-operator line.
#[verifier::rlimit(100)]
#[verifier::spinoff_prover]
proof fn lemma_rt_op_and_assign(defns: Seq<DefnM>, i: Instr, row: int)
    requires
        defns.len() > 0,
        i matches Instr::And(_, _, _),
    ensures
        crate::parse::sassign(defns, BufM { text: render_instr(i), row, col: 0 }) == Ok::<
            Seq<DefnM>,
            crate::parse_util::ParseErrorM,
        >(crate::parse::push_ins(defns, i)),
{
    let line = render_instr(i);
    let b0 = BufM { text: line, row, col: 0 };
    match i {
        Instr::And(a, l, c) => {
            let deca = dec_of_nat(a as int);
            let decl = dec_of_nat(l as int);
            let decc = dec_of_nat(c as int);
            crate::dec::lemma_dec_of_nat_val(a as int);
            crate::dec::lemma_dec_of_nat_val(l as int);
            crate::dec::lemma_dec_of_nat_val(c as int);
            let op = seq![38u8];
            let tail = r_reg(l as int) + r_sp() + op + r_sp() + r_reg(c as int);
            assert(line =~= r_reg(a as int) + r_assign_op() + tail);
            assert(tail[0] == 120 && !crate::parse_util::is_ws(tail[0]));
            lemma_assign_head(b0, a, tail);
            let b3 = BufM { text: tail, row, col: 1 + deca.len() as int + 4 };
            assert(!crate::parse_util::is_prefix(crate::parse::tok_k(), b3.text)) by {
                if crate::parse_util::is_prefix(crate::parse::tok_k(), b3.text) {
                    assert(b3.text.take(1)[0] == b3.text[0]);
                }
            }
            assert(!crate::parse_util::is_prefix(crate::parse::tok_lparen(), b3.text)) by {
                if crate::parse_util::is_prefix(crate::parse::tok_lparen(), b3.text) {
                    assert(b3.text.take(1)[0] == b3.text[0]);
                }
            }
            assert(!crate::parse_util::is_prefix(crate::parse::tok_read(), b3.text)) by {
                if crate::parse_util::is_prefix(crate::parse::tok_read(), b3.text) {
                    assert(b3.text.take(4)[0] == b3.text[0]);
                }
            }
            let rest1 = r_sp() + op + r_sp() + r_reg(c as int);
            assert(b3.text =~= r_reg(l as int) + rest1);
            assert(!crate::dec::is_digit(rest1[0]));
            lemma_reg_parse(b3, crate::parse::tok_x(), l as int, rest1);
            let b4 = BufM { text: rest1, row, col: b3.col + 1 + decl.len() as int };
            assert(crate::parse_util::ws_len(b4.text) == 1) by {
                assert(b4.text.skip(1)[0] == op[0]);
                assert(crate::parse_util::ws_len(b4.text.skip(1)) == 0);
            }
            let b5 = crate::parse_util::btrim_left(b4);
            let rest2 = seq![32u8] + r_reg(c as int);
            assert(b5.text =~= op + rest2);
            assert(b5.text.len() > 0);
            assert(b5.text[0] == 38);
            assert(!crate::parse_util::is_prefix(crate::parse::op_tokens()[0], b5.text)) by {
                assert(crate::parse::op_tokens()[0] =~= seq![43u8]);
                if crate::parse_util::is_prefix(seq![43u8], b5.text) {
                    assert(b5.text.take(1)[0] == b5.text[0]);
                }
            }
            assert(!crate::parse_util::is_prefix(crate::parse::op_tokens()[1], b5.text)) by {
                assert(crate::parse::op_tokens()[1] =~= seq![45u8]);
                if crate::parse_util::is_prefix(seq![45u8], b5.text) {
                    assert(b5.text.take(1)[0] == b5.text[0]);
                }
            }
            assert(!crate::parse_util::is_prefix(crate::parse::op_tokens()[2], b5.text)) by {
                assert(crate::parse::op_tokens()[2] =~= seq![42u8]);
                if crate::parse_util::is_prefix(seq![42u8], b5.text) {
                    assert(b5.text.take(1)[0] == b5.text[0]);
                }
            }
            assert(!crate::parse_util::is_prefix(crate::parse::op_tokens()[3], b5.text)) by {
                assert(crate::parse::op_tokens()[3] =~= seq![47u8]);
                if crate::parse_util::is_prefix(seq![47u8], b5.text) {
                    assert(b5.text.take(1)[0] == b5.text[0]);
                }
            }
            assert(!crate::parse_util::is_prefix(crate::parse::op_tokens()[4], b5.text)) by {
                assert(crate::parse::op_tokens()[4] =~= seq![37u8]);
                if crate::parse_util::is_prefix(seq![37u8], b5.text) {
                    assert(b5.text.take(1)[0] == b5.text[0]);
                }
            }
            assert forall|j: int| 0 <= j < 5 implies !crate::parse_util::is_prefix(
                #[trigger] crate::parse::op_tokens()[j],
                b5.text,
            ) by {
                if j == 0 {
                }
                else if j == 1 {
                }
                else if j == 2 {
                }
                else if j == 3 {
                }
                else if j == 4 {
                }
            }
            assert(crate::parse_util::is_prefix(crate::parse::op_tokens()[5], b5.text)) by {
                assert(crate::parse::op_tokens()[5] =~= seq![38u8]);
                assert(b5.text.take(1) =~= seq![38u8]);
            }
            crate::parse_util::lemma_first_tok_at(b5.text, crate::parse::op_tokens(), 5);
            let b6 = crate::parse_util::badvance(b5, 1);
            assert(b6.text =~= rest2);
            assert(!(seq![38u8] =~= seq![40u8]));
            assert(!(seq![38u8] =~= seq![91u8]));
            assert(crate::parse_util::ws_len(b6.text) == 1) by {
                assert(b6.text.skip(1)[0] == 120);
                assert(crate::parse_util::ws_len(b6.text.skip(1)) == 0);
            }
            let b6t = crate::parse_util::btrim_left(b6);
            assert(b6t.text =~= r_reg(c as int) + Seq::<u8>::empty());
            lemma_trim_left_id(b6t);
            lemma_reg_parse(b6t, crate::parse::tok_x(), c as int, Seq::empty());
            assert(crate::parse::saddr(b6, crate::parse::tok_x()) == crate::parse::saddr(
                b6t,
                crate::parse::tok_x(),
            ));
        },
        _ => {},
    }
}

/// One case of [`lemma_instr_line_roundtrip`].
#[verifier::rlimit(100)]
#[verifier::spinoff_prover]
proof fn lemma_rt_op_and(defns: Seq<DefnM>, i: Instr, row: int)
    requires
        defns.len() > 0,
        i matches Instr::And(_, _, _),
    ensures
        crate::parse::sline(defns, render_instr(i), row) == Ok::<
            Seq<DefnM>,
            crate::parse_util::ParseErrorM,
        >(crate::parse::push_ins(defns, i)),
{
    let line = render_instr(i);
    match i {
        Instr::And(a, l, c) => {
            let deca = dec_of_nat(a as int);
            let decl = dec_of_nat(l as int);
            let decc = dec_of_nat(c as int);
            crate::dec::lemma_dec_of_nat_val(a as int);
            crate::dec::lemma_dec_of_nat_val(l as int);
            crate::dec::lemma_dec_of_nat_val(c as int);
            assert(line[0] == 120);
            assert(line.last() == decc.last() && crate::dec::is_digit(decc.last())) by {
                assert(line.len() == 1 + deca.len() + 4 + 1 + decl.len() + 1 + 1 + 1
                    + 1 + decc.len());
                assert(line[line.len() - 1] == decc[decc.len() - 1]);
            }
            lemma_rt_op_and_assign(defns, i, row);
            lemma_rt_from_assign(defns, i, row);
        },
        _ => {},
    }
}

/// The right-hand-side walk of one binary-operator line.
#[verifier::rlimit(100)]
#[verifier::spinoff_prover]
proof fn lemma_rt_op_orr_assign(defns: Seq<DefnM>, i: Instr, row: int)
    requires
        defns.len() > 0,
        i matches Instr::Orr(_, _, _),
    ensures
        crate::parse::sassign(defns, BufM { text: render_instr(i), row, col: 0 }) == Ok::<
            Seq<DefnM>,
            crate::parse_util::ParseErrorM,
        >(crate::parse::push_ins(defns, i)),
{
    let line = render_instr(i);
    let b0 = BufM { text: line, row, col: 0 };
    match i {
        Instr::Orr(a, l, c) => {
            let deca = dec_of_nat(a as int);
            let decl = dec_of_nat(l as int);
            let decc = dec_of_nat(c as int);
            crate::dec::lemma_dec_of_nat_val(a as int);
            crate::dec::lemma_dec_of_nat_val(l as int);
            crate::dec::lemma_dec_of_nat_val(c as int);
            let op = seq![124u8];
            let tail = r_reg(l as int) + r_sp() + op + r_sp() + r_reg(c as int);
            assert(line =~= r_reg(a as int) + r_assign_op() + tail);
            assert(tail[0] == 120 && !crate::parse_util::is_ws(tail[0]));
            lemma_assign_head(b0, a, tail);
            let b3 = BufM { text: tail, row, col: 1 + deca.len() as int + 4 };
            assert(!crate::parse_util::is_prefix(crate::parse::tok_k(), b3.text)) by {
                if crate::parse_util::is_prefix(crate::parse::tok_k(), b3.text) {
                    assert(b3.text.take(1)[0] == b3.text[0]);
                }
            }
            assert(!crate::parse_util::is_prefix(crate::parse::tok_lparen(), b3.text)) by {
                if crate::parse_util::is_prefix(crate::parse::tok_lparen(), b3.text) {
                    assert(b3.text.take(1)[0] == b3.text[0]);
                }
            }
            assert(!crate::parse_util::is_prefix(crate::parse::tok_read(), b3.text)) by {
                if crate::parse_util::is_prefix(crate::parse::tok_read(), b3.text) {
                    assert(b3.text.take(4)[0] == b3.text[0]);
                }
            }
            let rest1 = r_sp() + op + r_sp() + r_reg(c as int);
            assert(b3.text =~= r_reg(l as int) + rest1);
            assert(!crate::dec::is_digit(rest1[0]));
            lemma_reg_parse(b3, crate::parse::tok_x(), l as int, rest1);
            let b4 = BufM { text: rest1, row, col: b3.col + 1 + decl.len() as int };
            assert(crate::parse_util::ws_len(b4.text) == 1) by {
                assert(b4.text.skip(1)[0] == op[0]);
                assert(crate::parse_util::ws_len(b4.text.skip(1)) == 0);
            }
            let b5 = crate::parse_util::btrim_left(b4);
            let rest2 = seq![32u8] + r_reg(c as int);
            assert(b5.text =~= op + rest2);
            assert(b5.text.len() > 0);
            assert(b5.text[0] == 124);
            assert(!crate::parse_util::is_prefix(crate::parse::op_tokens()[0], b5.text)) by {
                assert(crate::parse::op_tokens()[0] =~= seq![43u8]);
                if crate::parse_util::is_prefix(seq![43u8], b5.text) {
                    assert(b5.text.take(1)[0] == b5.text[0]);
                }
            }
            assert(!crate::parse_util::is_prefix(crate::parse::op_tokens()[1], b5.text)) by {
                assert(crate::parse::op_tokens()[1] =~= seq![45u8]);
                if crate::parse_util::is_prefix(seq![45u8], b5.text) {
                    assert(b5.text.take(1)[0] == b5.text[0]);
                }
            }
            assert(!crate::parse_util::is_prefix(crate::parse::op_tokens()[2], b5.text)) by {
                assert(crate::parse::op_tokens()[2] =~= seq![42u8]);
                if crate::parse_util::is_prefix(seq![42u8], b5.text) {
                    assert(b5.text.take(1)[0] == b5.text[0]);
                }
            }
            assert(!crate::parse_util::is_prefix(crate::parse::op_tokens()[3], b5.text)) by {
                assert(crate::parse::op_tokens()[3] =~= seq![47u8]);
                if crate::parse_util::is_prefix(seq![47u8], b5.text) {
                    assert(b5.text.take(1)[0] == b5.text[0]);
                }
            }
            assert(!crate::parse_util::is_prefix(crate::parse::op_tokens()[4], b5.text)) by {
                assert(crate::parse::op_tokens()[4] =~= seq![37u8]);
                if crate::parse_util::is_prefix(seq![37u8], b5.text) {
                    assert(b5.text.take(1)[0] == b5.text[0]);
                }
            }
            assert(!crate::parse_util::is_prefix(crate::parse::op_tokens()[5], b5.text)) by {
                assert(crate::parse::op_tokens()[5] =~= seq![38u8]);
                if crate::parse_util::is_prefix(seq![38u8], b5.text) {
                    assert(b5.text.take(1)[0] == b5.text[0]);
                }
            }
            assert forall|j: int| 0 <= j < 6 implies !crate::parse_util::is_prefix(
                #[trigger] crate::parse::op_tokens()[j],
                b5.text,
            ) by {
                if j == 0 {
                }
                else if j == 1 {
                }
                else if j == 2 {
                }
                else if j == 3 {
                }
                else if j == 4 {
                }
                else if j == 5 {
                }
            }
            assert(crate::parse_util::is_prefix(crate::parse::op_tokens()[6], b5.text)) by {
                assert(crate::parse::op_tokens()[6] =~= seq![124u8]);
                assert(b5.text.take(1) =~= seq![124u8]);
            }
            crate::parse_util::lemma_first_tok_at(b5.text, crate::parse::op_tokens(), 6);
            let b6 = crate::parse_util::badvance(b5, 1);
            assert(b6.text =~= rest2);
            assert(!(seq![124u8] =~= seq![40u8]));
            assert(!(seq![124u8] =~= seq![91u8]));
            assert(crate::parse_util::ws_len(b6.text) == 1) by {
                assert(b6.text.skip(1)[0] == 120);
                assert(crate::parse_util::ws_len(b6.text.skip(1)) == 0);
            }
            let b6t = crate::parse_util::btrim_left(b6);
            assert(b6t.text =~= r_reg(c as int) + Seq::<u8>::empty());
            lemma_trim_left_id(b6t);
            lemma_reg_parse(b6t, crate::parse::tok_x(), c as int, Seq::empty());
            assert(crate::parse::saddr(b6, crate::parse::tok_x()) == crate::parse::saddr(
                b6t,
                crate::parse::tok_x(),
            ));
        },
        _ => {},
    }
}

/// One case of [`lemma_instr_line_roundtrip`].
#[verifier::rlimit(100)]
#[verifier::spinoff_prover]
proof fn lemma_rt_op_orr(defns: Seq<DefnM>, i: Instr, row: int)
    requires
        defns.len() > 0,
        i matches Instr::Orr(_, _, _),
    ensures
        crate::parse::sline(defns, render_instr(i), row) == Ok::<
            Seq<DefnM>,
            crate::parse_util::ParseErrorM,
        >(crate::parse::push_ins(defns, i)),
{
    let line = render_instr(i);
    match i {
        Instr::Orr(a, l, c) => {
            let deca = dec_of_nat(a as int);
            let decl = dec_of_nat(l as int);
            let decc = dec_of_nat(c as int);
            crate::dec::lemma_dec_of_nat_val(a as int);
            crate::dec::lemma_dec_of_nat_val(l as int);
            crate::dec::lemma_dec_of_nat_val(c as int);
            assert(line[0] == 120);
            assert(line.last() == decc.last() && crate::dec::is_digit(decc.last())) by {
                assert(line.len() == 1 + deca.len() + 4 + 1 + decl.len() + 1 + 1 + 1
                    + 1 + decc.len());
                assert(line[line.len() - 1] == decc[decc.len() - 1]);
            }
            lemma_rt_op_orr_assign(defns, i, row);
            lemma_rt_from_assign(defns, i, row);
        },
        _ => {},
    }
}

/// The right-hand-side walk of one binary-operator line.
#[verifier::rlimit(100)]
#[verifier::spinoff_prover]
proof fn lemma_rt_op_xor_assign(defns: Seq<DefnM>, i: Instr, row: int)
    requires
        defns.len() > 0,
        i matches Instr::Xor(_, _, _),
    ensures
        crate::parse::sassign(defns, BufM { text: render_instr(i), row, col: 0 }) == Ok::<
            Seq<DefnM>,
            crate::parse_util::ParseErrorM,
        >(crate::parse::push_ins(defns, i)),
{
    let line = render_instr(i);
    let b0 = BufM { text: line, row, col: 0 };
    match i {
        Instr::Xor(a, l, c) => {
            let deca = dec_of_nat(a as int);
            let decl = dec_of_nat(l as int);
            let decc = dec_of_nat(c as int);
            crate::dec::lemma_dec_of_nat_val(a as int);
            crate::dec::lemma_dec_of_nat_val(l as int);
            crate::dec::lemma_dec_of_nat_val(c as int);
            let op = seq![94u8];
            let tail = r_reg(l as int) + r_sp() + op + r_sp() + r_reg(c as int);
            assert(line =~= r_reg(a as int) + r_assign_op() + tail);
            assert(tail[0] == 120 && !crate::parse_util::is_ws(tail[0]));
            lemma_assign_head(b0, a, tail);
            let b3 = BufM { text: tail, row, col: 1 + deca.len() as int + 4 };
            assert(!crate::parse_util::is_prefix(crate::parse::tok_k(), b3.text)) by {
                if crate::parse_util::is_prefix(crate::parse::tok_k(), b3.text) {
                    assert(b3.text.take(1)[0] == b3.text[0]);
                }
            }
            assert(!crate::parse_util::is_prefix(crate::parse::tok_lparen(), b3.text)) by {
                if crate::parse_util::is_prefix(crate::parse::tok_lparen(), b3.text) {
                    assert(b3.text.take(1)[0] == b3.text[0]);
                }
            }
            assert(!crate::parse_util::is_prefix(crate::parse::tok_read(), b3.text)) by {
                if crate::parse_util::is_prefix(crate::parse::tok_read(), b3.text) {
                    assert(b3.text.take(4)[0] == b3.text[0]);
                }
            }
            let rest1 = r_sp() + op + r_sp() + r_reg(c as int);
            assert(b3.text =~= r_reg(l as int) + rest1);
            assert(!crate::dec::is_digit(rest1[0]));
            lemma_reg_parse(b3, crate::parse::tok_x(), l as int, rest1);
            let b4 = BufM { text: rest1, row, col: b3.col + 1 + decl.len() as int };
            assert(crate::parse_util::ws_len(b4.text) == 1) by {
                assert(b4.text.skip(1)[0] == op[0]);
                assert(crate::parse_util::ws_len(b4.text.skip(1)) == 0);
            }
            let b5 = crate::parse_util::btrim_left(b4);
            let rest2 = seq![32u8] + r_reg(c as int);
            assert(b5.text =~= op + rest2);
            assert(b5.text.len() > 0);
            assert(b5.text[0] == 94);
            assert(!crate::parse_util::is_prefix(crate::parse::op_tokens()[0], b5.text)) by {
                assert(crate::parse::op_tokens()[0] =~= seq![43u8]);
                if crate::parse_util::is_prefix(seq![43u8], b5.text) {
                    assert(b5.text.take(1)[0] == b5.text[0]);
                }
            }
            assert(!crate::parse_util::is_prefix(crate::parse::op_tokens()[1], b5.text)) by {
                assert(crate::parse::op_tokens()[1] =~= seq![45u8]);
                if crate::parse_util::is_prefix(seq![45u8], b5.text) {
                    assert(b5.text.take(1)[0] == b5.text[0]);
                }
            }
            assert(!crate::parse_util::is_prefix(crate::parse::op_tokens()[2], b5.text)) by {
                assert(crate::parse::op_tokens()[2] =~= seq![42u8]);
                if crate::parse_util::is_prefix(seq![42u8], b5.text) {
                    assert(b5.text.take(1)[0] == b5.text[0]);
                }
            }
            assert(!crate::parse_util::is_prefix(crate::parse::op_tokens()[3], b5.text)) by {
                assert(crate::parse::op_tokens()[3] =~= seq![47u8]);
                if crate::parse_util::is_prefix(seq![47u8], b5.text) {
                    assert(b5.text.take(1)[0] == b5.text[0]);
                }
            }
            assert(!crate::parse_util::is_prefix(crate::parse::op_tokens()[4], b5.text)) by {
                assert(crate::parse::op_tokens()[4] =~= seq![37u8]);
                if crate::parse_util::is_prefix(seq![37u8], b5.text) {
                    assert(b5.text.take(1)[0] == b5.text[0]);
                }
            }
            assert(!crate::parse_util::is_prefix(crate::parse::op_tokens()[5], b5.text)) by {
                assert(crate::parse::op_tokens()[5] =~= seq![38u8]);
                if crate::parse_util::is_prefix(seq![38u8], b5.text) {
                    assert(b5.text.take(1)[0] == b5.text[0]);
                }
            }
            assert(!crate::parse_util::is_prefix(crate::parse::op_tokens()[6], b5.text)) by {
                assert(crate::parse::op_tokens()[6] =~= seq![124u8]);
                if crate::parse_util::is_prefix(seq![124u8], b5.text) {
                    assert(b5.text.take(1)[0] == b5.text[0]);
                }
            }
            assert forall|j: int| 0 <= j < 7 implies !crate::parse_util::is_prefix(
                #[trigger] crate::parse::op_tokens()[j],
                b5.text,
            ) by {
                if j == 0 {
                }
                else if j == 1 {
                }
                else if j == 2 {
                }
                else if j == 3 {
                }
                else if j == 4 {
                }
                else if j == 5 {
                }
                else if j == 6 {
                }
            }
            assert(crate::parse_util::is_prefix(crate::parse::op_tokens()[7], b5.text)) by {
                assert(crate::parse::op_tokens()[7] =~= seq![94u8]);
                assert(b5.text.take(1) =~= seq![94u8]);
            }
            crate::parse_util::lemma_first_tok_at(b5.text, crate::parse::op_tokens(), 7);
            let b6 = crate::parse_util::badvance(b5, 1);
            assert(b6.text =~= rest2);
            assert(!(seq![94u8] =~= seq![40u8]));
            assert(!(seq![94u8] =~= seq![91u8]));
            assert(crate::parse_util::ws_len(b6.text) == 1) by {
                assert(b6.text.skip(1)[0] == 120);
                assert(crate::parse_util::ws_len(b6.text.skip(1)) == 0);
            }
            let b6t = crate::parse_util::btrim_left(b6);
            assert(b6t.text =~= r_reg(c as int) + Seq::<u8>::empty());
            lemma_trim_left_id(b6t);
            lemma_reg_parse(b6t, crate::parse::tok_x(), c as int, Seq::empty());
            assert(crate::parse::saddr(b6, crate::parse::tok_x()) == crate::parse::saddr(
                b6t,
                crate::parse::tok_x(),
            ));
        },
        _ => {},
    }
}

/// One case of [`lemma_instr_line_roundtrip`].
#[verifier::rlimit(100)]
#[verifier::spinoff_prover]
proof fn lemma_rt_op_xor(defns: Seq<DefnM>, i: Instr, row: int)
    requires
        defns.len() > 0,
        i matches Instr::Xor(_, _, _),
    ensures
        crate::parse::sline(defns, render_instr(i), row) == Ok::<
            Seq<DefnM>,
            crate::parse_util::ParseErrorM,
        >(crate::parse::push_ins(defns, i)),
{
    let line = render_instr(i);
    match i {
        Instr::Xor(a, l, c) => {
            let deca = dec_of_nat(a as int);
            let decl = dec_of_nat(l as int);
            let decc = dec_of_nat(c as int);
            crate::dec::lemma_dec_of_nat_val(a as int);
            crate::dec::lemma_dec_of_nat_val(l as int);
            crate::dec::lemma_dec_of_nat_val(c as int);
            assert(line[0] == 120);
            assert(line.last() == decc.last() && crate::dec::is_digit(decc.last())) by {
                assert(line.len() == 1 + deca.len() + 4 + 1 + decl.len() + 1 + 1 + 1
                    + 1 + decc.len());
                assert(line[line.len() - 1] == decc[decc.len() - 1]);
            }
            lemma_rt_op_xor_assign(defns, i, row);
            lemma_rt_from_assign(defns, i, row);
        },
        _ => {},
    }
}

/// The right-hand-side walk of one binary-operator line.
#[verifier::rlimit(100)]
#[verifier::spinoff_prover]
proof fn lemma_rt_op_eq_assign(defns: Seq<DefnM>, i: Instr, row: int)
    requires
        defns.len() > 0,
        i matches Instr::Eq(_, _, _),
    ensures
        crate::parse::sassign(defns, BufM { text: render_instr(i), row, col: 0 }) == Ok::<
            Seq<DefnM>,
            crate::parse_util::ParseErrorM,
        >(crate::parse::push_ins(defns, i)),
{
    let line = render_instr(i);
    let b0 = BufM { text: line, row, col: 0 };
    match i {
        Instr::Eq(a, l, c) => {
            let deca = dec_of_nat(a as int);
            let decl = dec_of_nat(l as int);
            let decc = dec_of_nat(c as int);
            crate::dec::lemma_dec_of_nat_val(a as int);
            crate::dec::lemma_dec_of_nat_val(l as int);
            crate::dec::lemma_dec_of_nat_val(c as int);
            let op = seq![61u8, 61u8];
            let tail = r_reg(l as int) + r_sp() + op + r_sp() + r_reg(c as int);
            assert(line =~= r_reg(a as int) + r_assign_op() + tail);
            assert(tail[0] == 120 && !crate::parse_util::is_ws(tail[0]));
            lemma_assign_head(b0, a, tail);
            let b3 = BufM { text: tail, row, col: 1 + deca.len() as int + 4 };
            assert(!crate::parse_util::is_prefix(crate::parse::tok_k(), b3.text)) by {
                if crate::parse_util::is_prefix(crate::parse::tok_k(), b3.text) {
                    assert(b3.text.take(1)[0] == b3.text[0]);
                }
            }
            assert(!crate::parse_util::is_prefix(crate::parse::tok_lparen(), b3.text)) by {
                if crate::parse_util::is_prefix(crate::parse::tok_lparen(), b3.text) {
                    assert(b3.text.take(1)[0] == b3.text[0]);
                }
            }
            assert(!crate::parse_util::is_prefix(crate::parse::tok_read(), b3.text)) by {
                if crate::parse_util::is_prefix(crate::parse::tok_read(), b3.text) {
                    assert(b3.text.take(4)[0] == b3.text[0]);
                }
            }
            let rest1 = r_sp() + op + r_sp() + r_reg(c as int);
            assert(b3.text =~= r_reg(l as int) + rest1);
            assert(!crate::dec::is_digit(rest1[0]));
            lemma_reg_parse(b3, crate::parse::tok_x(), l as int, rest1);
            let b4 = BufM { text: rest1, row, col: b3.col + 1 + decl.len() as int };
            assert(crate::parse_util::ws_len(b4.text) == 1) by {
                assert(b4.text.skip(1)[0] == op[0]);
                assert(crate::parse_util::ws_len(b4.text.skip(1)) == 0);
            }
            let b5 = crate::parse_util::btrim_left(b4);
            let rest2 = seq![32u8] + r_reg(c as int);
            assert(b5.text =~= op + rest2);
            assert(b5.text.len() > 0);
            assert(b5.text[0] == 61);
            assert(!crate::parse_util::is_prefix(crate::parse::op_tokens()[0], b5.text)) by {
                assert(crate::parse::op_tokens()[0] =~= seq![43u8]);
                if crate::parse_util::is_prefix(seq![43u8], b5.text) {
                    assert(b5.text.take(1)[0] == b5.text[0]);
                }
            }
            assert(!crate::parse_util::is_prefix(crate::parse::op_tokens()[1], b5.text)) by {
                assert(crate::parse::op_tokens()[1] =~= seq![45u8]);
                if crate::parse_util::is_prefix(seq![45u8], b5.text) {
                    assert(b5.text.take(1)[0] == b5.text[0]);
                }
            }
            assert(!crate::parse_util::is_prefix(crate::parse::op_tokens()[2], b5.text)) by {
                assert(crate::parse::op_tokens()[2] =~= seq![42u8]);
                if crate::parse_util::is_prefix(seq![42u8], b5.text) {
                    assert(b5.text.take(1)[0] == b5.text[0]);
                }
            }
            assert(!crate::parse_util::is_prefix(crate::parse::op_tokens()[3], b5.text)) by {
                assert(crate::parse::op_tokens()[3] =~= seq![47u8]);
                if crate::parse_util::is_prefix(seq![47u8], b5.text) {
                    assert(b5.text.take(1)[0] == b5.text[0]);
                }
            }
            assert(!crate::parse_util::is_prefix(crate::parse::op_tokens()[4], b5.text)) by {
                assert(crate::parse::op_tokens()[4] =~= seq![37u8]);
                if crate::parse_util::is_prefix(seq![37u8], b5.text) {
                    assert(b5.text.take(1)[0] == b5.text[0]);
                }
            }
            assert(!crate::parse_util::is_prefix(crate::parse::op_tokens()[5], b5.text)) by {
                assert(crate::parse::op_tokens()[5] =~= seq![38u8]);
                if crate::parse_util::is_prefix(seq![38u8], b5.text) {
                    assert(b5.text.take(1)[0] == b5.text[0]);
                }
            }
            assert(!crate::parse_util::is_prefix(crate::parse::op_tokens()[6], b5.text)) by {
                assert(crate::parse::op_tokens()[6] =~= seq![124u8]);
                if crate::parse_util::is_prefix(seq![124u8], b5.text) {
                    assert(b5.text.take(1)[0] == b5.text[0]);
                }
            }
            assert(!crate::parse_util::is_prefix(crate::parse::op_tokens()[7], b5.text)) by {
                assert(crate::parse::op_tokens()[7] =~= seq![94u8]);
                if crate::parse_util::is_prefix(seq![94u8], b5.text) {
                    assert(b5.text.take(1)[0] == b5.text[0]);
                }
            }
            assert forall|j: int| 0 <= j < 8 implies !crate::parse_util::is_prefix(
                #[trigger] crate::parse::op_tokens()[j],
                b5.text,
            ) by {
                if j == 0 {
                }
                else if j == 1 {
                }
                else if j == 2 {
                }
                else if j == 3 {
                }
                else if j == 4 {
                }
                else if j == 5 {
                }
                else if j == 6 {
                }
                else if j == 7 {
                }
            }
            assert(crate::parse_util::is_prefix(crate::parse::op_tokens()[8], b5.text)) by {
                assert(crate::parse::op_tokens()[8] =~= seq![61u8, 61u8]);
                assert(b5.text.take(2) =~= seq![61u8, 61u8]);
            }
            crate::parse_util::lemma_first_tok_at(b5.text, crate::parse::op_tokens(), 8);
            let b6 = crate::parse_util::badvance(b5, 2);
            assert(b6.text =~= rest2);
            assert(!(seq![61u8, 61u8] =~= seq![40u8]));
            assert(!(seq![61u8, 61u8] =~= seq![91u8]));
            assert(crate::parse_util::ws_len(b6.text) == 1) by {
                assert(b6.text.skip(1)[0] == 120);
                assert(crate::parse_util::ws_len(b6.text.skip(1)) == 0);
            }
            let b6t = crate::parse_util::btrim_left(b6);
            assert(b6t.text =~= r_reg(c as int) + Seq::<u8>::empty());
            lemma_trim_left_id(b6t);
            lemma_reg_parse(b6t, crate::parse::tok_x(), c as int, Seq::empty());
            assert(crate::parse::saddr(b6, crate::parse::tok_x()) == crate::parse::saddr(
                b6t,
                crate::parse::tok_x(),
            ));
        },
        _ => {},
    }
}

/// One case of [`lemma_instr_line_roundtrip`].
#[verifier::rlimit(100)]
#[verifier::spinoff_prover]
proof fn lemma_rt_op_eq(defns: Seq<DefnM>, i: Instr, row: int)
    requires
        defns.len() > 0,
        i matches Instr::Eq(_, _, _),
    ensures
        crate::parse::sline(defns, render_instr(i), row) == Ok::<
            Seq<DefnM>,
            crate::parse_util::ParseErrorM,
        >(crate::parse::push_ins(defns, i)),
{
    let line = render_instr(i);
    match i {
        Instr::Eq(a, l, c) => {
            let deca = dec_of_nat(a as int);
            let decl = dec_of_nat(l as int);
            let decc = dec_of_nat(c as int);
            crate::dec::lemma_dec_of_nat_val(a as int);
            crate::dec::lemma_dec_of_nat_val(l as int);
            crate::dec::lemma_dec_of_nat_val(c as int);
            assert(line[0] == 120);
            assert(line.last() == decc.last() && crate::dec::is_digit(decc.last())) by {
                assert(line.len() == 1 + deca.len() + 4 + 1 + decl.len() + 1 + 2 + 1
                    + 1 + decc.len());
                assert(line[line.len() - 1] == decc[decc.len() - 1]);
            }
            lemma_rt_op_eq_assign(defns, i, row);
            lemma_rt_from_assign(defns, i, row);
        },
        _ => {},
    }
}

/// The right-hand-side walk of one binary-operator line.
#[verifier::rlimit(100)]
#[verifier::spinoff_prover]
proof fn lemma_rt_op_neq_assign(defns: Seq<DefnM>, i: Instr, row: int)
    requires
        defns.len() > 0,
        i matches Instr::Neq(_, _, _),
    ensures
        crate::parse::sassign(defns, BufM { text: render_instr(i), row, col: 0 }) == Ok::<
            Seq<DefnM>,
            crate::parse_util::ParseErrorM,
        >(crate::parse::push_ins(defns, i)),
{
    let line = render_instr(i);
    let b0 = BufM { text: line, row, col: 0 };
    match i {
        Instr::Neq(a, l, c) => {
            let deca = dec_of_nat(a as int);
            let decl = dec_of_nat(l as int);
            let decc = dec_of_nat(c as int);
            crate::dec::lemma_dec_of_nat_val(a as int);
            crate::dec::lemma_dec_of_nat_val(l as int);
            crate::dec::lemma_dec_of_nat_val(c as int);
            let op = seq![33u8, 61u8];
            let tail = r_reg(l as int) + r_sp() + op + r_sp() + r_reg(c as int);
            assert(line =~= r_reg(a as int) + r_assign_op() + tail);
            assert(tail[0] == 120 && !crate::parse_util::is_ws(tail[0]));
            lemma_assign_head(b0, a, tail);
            let b3 = BufM { text: tail, row, col: 1 + deca.len() as int + 4 };
            assert(!crate::parse_util::is_prefix(crate::parse::tok_k(), b3.text)) by {
                if crate::parse_util::is_prefix(crate::parse::tok_k(), b3.text) {
                    assert(b3.text.take(1)[0] == b3.text[0]);
                }
            }
            assert(!crate::parse_util::is_prefix(crate::parse::tok_lparen(), b3.text)) by {
                if crate::parse_util::is_prefix(crate::parse::tok_lparen(), b3.text) {
                    assert(b3.text.take(1)[0] == b3.text[0]);
                }
            }
            assert(!crate::parse_util::is_prefix(crate::parse::tok_read(), b3.text)) by {
                if crate::parse_util::is_prefix(crate::parse::tok_read(), b3.text) {
                    assert(b3.text.take(4)[0] == b3.text[0]);
                }
            }
            let rest1 = r_sp() + op + r_sp() + r_reg(c as int);
            assert(b3.text =~= r_reg(l as int) + rest1);
            assert(!crate::dec::is_digit(rest1[0]));
            lemma_reg_parse(b3, crate::parse::tok_x(), l as int, rest1);
            let b4 = BufM { text: rest1, row, col: b3.col + 1 + decl.len() as int };
            assert(crate::parse_util::ws_len(b4.text) == 1) by {
                assert(b4.text.skip(1)[0] == op[0]);
                assert(crate::parse_util::ws_len(b4.text.skip(1)) == 0);
            }
            let b5 = crate::parse_util::btrim_left(b4);
            let rest2 = seq![32u8] + r_reg(c as int);
            assert(b5.text =~= op + rest2);
            assert(b5.text.len() > 0);
            assert(b5.text[0] == 33);
            assert(!crate::parse_util::is_prefix(crate::parse::op_tokens()[0], b5.text)) by {
                assert(crate::parse::op_tokens()[0] =~= seq![43u8]);
                if crate::parse_util::is_prefix(seq![43u8], b5.text) {
                    assert(b5.text.take(1)[0] == b5.text[0]);
                }
            }
            assert(!crate::parse_util::is_prefix(crate::parse::op_tokens()[1], b5.text)) by {
                assert(crate::parse::op_tokens()[1] =~= seq![45u8]);
                if crate::parse_util::is_prefix(seq![45u8], b5.text) {
                    assert(b5.text.take(1)[0] == b5.text[0]);
                }
            }
            assert(!crate::parse_util::is_prefix(crate::parse::op_tokens()[2], b5.text)) by {
                assert(crate::parse::op_tokens()[2] =~= seq![42u8]);
                if crate::parse_util::is_prefix(seq![42u8], b5.text) {
                    assert(b5.text.take(1)[0] == b5.text[0]);
                }
            }
            assert(!crate::parse_util::is_prefix(crate::parse::op_tokens()[3], b5.text)) by {
                assert(crate::parse::op_tokens()[3] =~= seq![47u8]);
                if crate::parse_util::is_prefix(seq![47u8], b5.text) {
                    assert(b5.text.take(1)[0] == b5.text[0]);
                }
            }
            assert(!crate::parse_util::is_prefix(crate::parse::op_tokens()[4], b5.text)) by {
                assert(crate::parse::op_tokens()[4] =~= seq![37u8]);
                if crate::parse_util::is_prefix(seq![37u8], b5.text) {
                    assert(b5.text.take(1)[0] == b5.text[0]);
                }
            }
            assert(!crate::parse_util::is_prefix(crate::parse::op_tokens()[5], b5.text)) by {
                assert(crate::parse::op_tokens()[5] =~= seq![38u8]);
                if crate::parse_util::is_prefix(seq![38u8], b5.text) {
                    assert(b5.text.take(1)[0] == b5.text[0]);
                }
            }
            assert(!crate::parse_util::is_prefix(crate::parse::op_tokens()[6], b5.text)) by {
                assert(crate::parse::op_tokens()[6] =~= seq![124u8]);
                if crate::parse_util::is_prefix(seq![124u8], b5.text) {
                    assert(b5.text.take(1)[0] == b5.text[0]);
                }
            }
            assert(!crate::parse_util::is_prefix(crate::parse::op_tokens()[7], b5.text)) by {
                assert(crate::parse::op_tokens()[7] =~= seq![94u8]);
                if crate::parse_util::is_prefix(seq![94u8], b5.text) {
                    assert(b5.text.take(1)[0] == b5.text[0]);
                }
            }
            assert(!crate::parse_util::is_prefix(crate::parse::op_tokens()[8], b5.text)) by {
                assert(crate::parse::op_tokens()[8] =~= seq![61u8, 61u8]);
                if crate::parse_util::is_prefix(seq![61u8, 61u8], b5.text) {
                    assert(b5.text.take(2)[0] == b5.text[0]);
                }
            }
            assert forall|j: int| 0 <= j < 9 implies !crate::parse_util::is_prefix(
                #[trigger] crate::parse::op_tokens()[j],
                b5.text,
            ) by {
                if j == 0 {
                }
                else if j == 1 {
                }
                else if j == 2 {
                }
                else if j == 3 {
                }
                else if j == 4 {
                }
                else if j == 5 {
                }
                else if j == 6 {
                }
                else if j == 7 {
                }
                else if j == 8 {
                }
            }
            assert(crate::parse_util::is_prefix(crate::parse::op_tokens()[9], b5.text)) by {
                assert(crate::parse::op_tokens()[9] =~= seq![33u8, 61u8]);
                assert(b5.text.take(2) =~= seq![33u8, 61u8]);
            }
            crate::parse_util::lemma_first_tok_at(b5.text, crate::parse::op_tokens(), 9);
            let b6 = crate::parse_util::badvance(b5, 2);
            assert(b6.text =~= rest2);
            assert(!(seq![33u8, 61u8] =~= seq![40u8]));
            assert(!(seq![33u8, 61u8] =~= seq![91u8]));
            assert(crate::parse_util::ws_len(b6.text) == 1) by {
                assert(b6.text.skip(1)[0] == 120);
                assert(crate::parse_util::ws_len(b6.text.skip(1)) == 0);
            }
            let b6t = crate::parse_util::btrim_left(b6);
            assert(b6t.text =~= r_reg(c as int) + Seq::<u8>::empty());
            lemma_trim_left_id(b6t);
            lemma_reg_parse(b6t, crate::parse::tok_x(), c as int, Seq::empty());
            assert(crate::parse::saddr(b6, crate::parse::tok_x()) == crate::parse::saddr(
                b6t,
                crate::parse::tok_x(),
            ));
        },
        _ => {},
    }
}

/// One case of [`lemma_instr_line_roundtrip`].
#[verifier::rlimit(100)]
#[verifier::spinoff_prover]
proof fn lemma_rt_op_neq(defns: Seq<DefnM>, i: Instr, row: int)
    requires
        defns.len() > 0,
        i matches Instr::Neq(_, _, _),
    ensures
        crate::parse::sline(defns, render_instr(i), row) == Ok::<
            Seq<DefnM>,
            crate::parse_util::ParseErrorM,
        >(crate::parse::push_ins(defns, i)),
{
    let line = render_instr(i);
    match i {
        Instr::Neq(a, l, c) => {
            let deca = dec_of_nat(a as int);
            let decl = dec_of_nat(l as int);
            let decc = dec_of_nat(c as int);
            crate::dec::lemma_dec_of_nat_val(a as int);
            crate::dec::lemma_dec_of_nat_val(l as int);
            crate::dec::lemma_dec_of_nat_val(c as int);
            assert(line[0] == 120);
            assert(line.last() == decc.last() && crate::dec::is_digit(decc.last())) by {
                assert(line.len() == 1 + deca.len() + 4 + 1 + decl.len() + 1 + 2 + 1
                    + 1 + decc.len());
                assert(line[line.len() - 1] == decc[decc.len() - 1]);
            }
            lemma_rt_op_neq_assign(defns, i, row);
            lemma_rt_from_assign(defns, i, row);
        },
        _ => {},
    }
}

/// The right-hand-side walk of one binary-operator line.
#[verifier::rlimit(100)]
#[verifier::spinoff_prover]
proof fn lemma_rt_op_leq_assign(defns: Seq<DefnM>, i: Instr, row: int)
    requires
        defns.len() > 0,
        i matches Instr::Leq(_, _, _),
    ensures
        crate::parse::sassign(defns, BufM { text: render_instr(i), row, col: 0 }) == Ok::<
            Seq<DefnM>,
            crate::parse_util::ParseErrorM,
        >(crate::parse::push_ins(defns, i)),
{
    let line = render_instr(i);
    let b0 = BufM { text: line, row, col: 0 };
    match i {
        Instr::Leq(a, l, c) => {
            let deca = dec_of_nat(a as int);
            let decl = dec_of_nat(l as int);
            let decc = dec_of_nat(c as int);
            crate::dec::lemma_dec_of_nat_val(a as int);
            crate::dec::lemma_dec_of_nat_val(l as int);
            crate::dec::lemma_dec_of_nat_val(c as int);
            let op = seq![60u8, 61u8];
            let tail = r_reg(l as int) + r_sp() + op + r_sp() + r_reg(c as int);
            assert(line =~= r_reg(a as int) + r_assign_op() + tail);
            assert(tail[0] == 120 && !crate::parse_util::is_ws(tail[0]));
            lemma_assign_head(b0, a, tail);
            let b3 = BufM { text: tail, row, col: 1 + deca.len() as int + 4 };
            assert(!crate::parse_util::is_prefix(crate::parse::tok_k(), b3.text)) by {
                if crate::parse_util::is_prefix(crate::parse::tok_k(), b3.text) {
                    assert(b3.text.take(1)[0] == b3.text[0]);
                }
            }
            assert(!crate::parse_util::is_prefix(crate::parse::tok_lparen(), b3.text)) by {
                if crate::parse_util::is_prefix(crate::parse::tok_lparen(), b3.text) {
                    assert(b3.text.take(1)[0] == b3.text[0]);
                }
            }
            assert(!crate::parse_util::is_prefix(crate::parse::tok_read(), b3.text)) by {
                if crate::parse_util::is_prefix(crate::parse::tok_read(), b3.text) {
                    assert(b3.text.take(4)[0] == b3.text[0]);
                }
            }
            let rest1 = r_sp() + op + r_sp() + r_reg(c as int);
            assert(b3.text =~= r_reg(l as int) + rest1);
            assert(!crate::dec::is_digit(rest1[0]));
            lemma_reg_parse(b3, crate::parse::tok_x(), l as int, rest1);
            let b4 = BufM { text: rest1, row, col: b3.col + 1 + decl.len() as int };
            assert(crate::parse_util::ws_len(b4.text) == 1) by {
                assert(b4.text.skip(1)[0] == op[0]);
                assert(crate::parse_util::ws_len(b4.text.skip(1)) == 0);
            }
            let b5 = crate::parse_util::btrim_left(b4);
            let rest2 = seq![32u8] + r_reg(c as int);
            assert(b5.text =~= op + rest2);
            assert(b5.text.len() > 0);
            assert(b5.text[0] == 60);
            assert(!crate::parse_util::is_prefix(crate::parse::op_tokens()[0], b5.text)) by {
                assert(crate::parse::op_tokens()[0] =~= seq![43u8]);
                if crate::parse_util::is_prefix(seq![43u8], b5.text) {
                    assert(b5.text.take(1)[0] == b5.text[0]);
                }
            }
            assert(!crate::parse_util::is_prefix(crate::parse::op_tokens()[1], b5.text)) by {
                assert(crate::parse::op_tokens()[1] =~= seq![45u8]);
                if crate::parse_util::is_prefix(seq![45u8], b5.text) {
                    assert(b5.text.take(1)[0] == b5.text[0]);
                }
            }
            assert(!crate::parse_util::is_prefix(crate::parse::op_tokens()[2], b5.text)) by {
                assert(crate::parse::op_tokens()[2] =~= seq![42u8]);
                if crate::parse_util::is_prefix(seq![42u8], b5.text) {
                    assert(b5.text.take(1)[0] == b5.text[0]);
                }
            }
            assert(!crate::parse_util::is_prefix(crate::parse::op_tokens()[3], b5.text)) by {
                assert(crate::parse::op_tokens()[3] =~= seq![47u8]);
                if crate::parse_util::is_prefix(seq![47u8], b5.text) {
                    assert(b5.text.take(1)[0] == b5.text[0]);
                }
            }
            assert(!crate::parse_util::is_prefix(crate::parse::op_tokens()[4], b5.text)) by {
                assert(crate::parse::op_tokens()[4] =~= seq![37u8]);
                if crate::parse_util::is_prefix(seq![37u8], b5.text) {
                    assert(b5.text.take(1)[0] == b5.text[0]);
                }
            }
            assert(!crate::parse_util::is_prefix(crate::parse::op_tokens()[5], b5.text)) by {
                assert(crate::parse::op_tokens()[5] =~= seq![38u8]);
                if crate::parse_util::is_prefix(seq![38u8], b5.text) {
                    assert(b5.text.take(1)[0] == b5.text[0]);
                }
            }
            assert(!crate::parse_util::is_prefix(crate::parse::op_tokens()[6], b5.text)) by {
                assert(crate::parse::op_tokens()[6] =~= seq![124u8]);
                if crate::parse_util::is_prefix(seq![124u8], b5.text) {
                    assert(b5.text.take(1)[0] == b5.text[0]);
                }
            }
            assert(!crate::parse_util::is_prefix(crate::parse::op_tokens()[7], b5.text)) by {
                assert(crate::parse::op_tokens()[7] =~= seq![94u8]);
                if crate::parse_util::is_prefix(seq![94u8], b5.text) {
                    assert(b5.text.take(1)[0] == b5.text[0]);
                }
            }
            assert(!crate::parse_util::is_prefix(crate::parse::op_tokens()[8], b5.text)) by {
                assert(crate::parse::op_tokens()[8] =~= seq![61u8, 61u8]);
                if crate::parse_util::is_prefix(seq![61u8, 61u8], b5.text) {
                    assert(b5.text.take(2)[0] == b5.text[0]);
                }
            }
            assert(!crate::parse_util::is_prefix(crate::parse::op_tokens()[9], b5.text)) by {
                assert(crate::parse::op_tokens()[9] =~= seq![33u8, 61u8]);
                if crate::parse_util::is_prefix(seq![33u8, 61u8], b5.text) {
                    assert(b5.text.take(2)[0] == b5.text[0]);
                }
            }
            assert forall|j: int| 0 <= j < 10 implies !crate::parse_util::is_prefix(
                #[trigger] crate::parse::op_tokens()[j],
                b5.text,
            ) by {
                if j == 0 {
                }
                else if j == 1 {
                }
                else if j == 2 {
                }
                else if j == 3 {
                }
                else if j == 4 {
                }
                else if j == 5 {
                }
                else if j == 6 {
                }
                else if j == 7 {
                }
                else if j == 8 {
                }
                else if j == 9 {
                }
            }
            assert(crate::parse_util::is_prefix(crate::parse::op_tokens()[10], b5.text)) by {
                assert(crate::parse::op_tokens()[10] =~= seq![60u8, 61u8]);
                assert(b5.text.take(2) =~= seq![60u8, 61u8]);
            }
            crate::parse_util::lemma_first_tok_at(b5.text, crate::parse::op_tokens(), 10);
            let b6 = crate::parse_util::badvance(b5, 2);
            assert(b6.text =~= rest2);
            assert(!(seq![60u8, 61u8] =~= seq![40u8]));
            assert(!(seq![60u8, 61u8] =~= seq![91u8]));
            assert(crate::parse_util::ws_len(b6.text) == 1) by {
                assert(b6.text.skip(1)[0] == 120);
                assert(crate::parse_util::ws_len(b6.text.skip(1)) == 0);
            }
            let b6t = crate::parse_util::btrim_left(b6);
            assert(b6t.text =~= r_reg(c as int) + Seq::<u8>::empty());
            lemma_trim_left_id(b6t);
            lemma_reg_parse(b6t, crate::parse::tok_x(), c as int, Seq::empty());
            assert(crate::parse::saddr(b6, crate::parse::tok_x()) == crate::parse::saddr(
                b6t,
                crate::parse::tok_x(),
            ));
        },
        _ => {},
    }
}

/// One case of [`lemma_instr_line_roundtrip`].
#[verifier::rlimit(100)]
#[verifier::spinoff_prover]
proof fn lemma_rt_op_leq(defns: Seq<DefnM>, i: Instr, row: int)
    requires
        defns.len() > 0,
        i matches Instr::Leq(_, _, _),
    ensures
        crate::parse::sline(defns, render_instr(i), row) == Ok::<
            Seq<DefnM>,
            crate::parse_util::ParseErrorM,
        >(crate::parse::push_ins(defns, i)),
{
    let line = render_instr(i);
    match i {
        Instr::Leq(a, l, c) => {
            let deca = dec_of_nat(a as int);
            let decl = dec_of_nat(l as int);
            let decc = dec_of_nat(c as int);
            crate::dec::lemma_dec_of_nat_val(a as int);
            crate::dec::lemma_dec_of_nat_val(l as int);
            crate::dec::lemma_dec_of_nat_val(c as int);
            assert(line[0] == 120);
            assert(line.last() == decc.last() && crate::dec::is_digit(decc.last())) by {
                assert(line.len() == 1 + deca.len() + 4 + 1 + decl.len() + 1 + 2 + 1
                    + 1 + decc.len());
                assert(line[line.len() - 1] == decc[decc.len() - 1]);
            }
            lemma_rt_op_leq_assign(defns, i, row);
            lemma_rt_from_assign(defns, i, row);
        },
        _ => {},
    }
}

/// The right-hand-side walk of one binary-operator line.
#[verifier::rlimit(100)]
#[verifier::spinoff_prover]
proof fn lemma_rt_op_geq_assign(defns: Seq<DefnM>, i: Instr, row: int)
    requires
        defns.len() > 0,
        i matches Instr::Geq(_, _, _),
    ensures
        crate::parse::sassign(defns, BufM { text: render_instr(i), row, col: 0 }) == Ok::<
            Seq<DefnM>,
            crate::parse_util::ParseErrorM,
        >(crate::parse::push_ins(defns, i)),
{
    let line = render_instr(i);
    let b0 = BufM { text: line, row, col: 0 };
    match i {
        Instr::Geq(a, l, c) => {
            let deca = dec_of_nat(a as int);
            let decl = dec_of_nat(l as int);
            let decc = dec_of_nat(c as int);
            crate::dec::lemma_dec_of_nat_val(a as int);
            crate::dec::lemma_dec_of_nat_val(l as int);
            crate::dec::lemma_dec_of_nat_val(c as int);
            let op = seq![62u8, 61u8];
            let tail = r_reg(l as int) + r_sp() + op + r_sp() + r_reg(c as int);
            assert(line =~= r_reg(a as int) + r_assign_op() + tail);
            assert(tail[0] == 120 && !crate::parse_util::is_ws(tail[0]));
            lemma_assign_head(b0, a, tail);
            let b3 = BufM { text: tail, row, col: 1 + deca.len() as int + 4 };
            assert(!crate::parse_util::is_prefix(crate::parse::tok_k(), b3.text)) by {
                if crate::parse_util::is_prefix(crate::parse::tok_k(), b3.text) {
                    assert(b3.text.take(1)[0] == b3.text[0]);
                }
            }
            assert(!crate::parse_util::is_prefix(crate::parse::tok_lparen(), b3.text)) by {
                if crate::parse_util::is_prefix(crate::parse::tok_lparen(), b3.text) {
                    assert(b3.text.take(1)[0] == b3.text[0]);
                }
            }
            assert(!crate::parse_util::is_prefix(crate::parse::tok_read(), b3.text)) by {
                if crate::parse_util::is_prefix(crate::parse::tok_read(), b3.text) {
                    assert(b3.text.take(4)[0] == b3.text[0]);
                }
            }
            let rest1 = r_sp() + op + r_sp() + r_reg(c as int);
            assert(b3.text =~= r_reg(l as int) + rest1);
            assert(!crate::dec::is_digit(rest1[0]));
            lemma_reg_parse(b3, crate::parse::tok_x(), l as int, rest1);
            let b4 = BufM { text: rest1, row, col: b3.col + 1 + decl.len() as int };
            assert(crate::parse_util::ws_len(b4.text) == 1) by {
                assert(b4.text.skip(1)[0] == op[0]);
                assert(crate::parse_util::ws_len(b4.text.skip(1)) == 0);
            }
            let b5 = crate::parse_util::btrim_left(b4);
            let rest2 = seq![32u8] + r_reg(c as int);
            assert(b5.text =~= op + rest2);
            assert(b5.text.len() > 0);
            assert(b5.text[0] == 62);
            assert(!crate::parse_util::is_prefix(crate::parse::op_tokens()[0], b5.text)) by {
                assert(crate::parse::op_tokens()[0] =~= seq![43u8]);
                if crate::parse_util::is_prefix(seq![43u8], b5.text) {
                    assert(b5.text.take(1)[0] == b5.text[0]);
                }
            }
            assert(!crate::parse_util::is_prefix(crate::parse::op_tokens()[1], b5.text)) by {
                assert(crate::parse::op_tokens()[1] =~= seq![45u8]);
                if crate::parse_util::is_prefix(seq![45u8], b5.text) {
                    assert(b5.text.take(1)[0] == b5.text[0]);
                }
            }
            assert(!crate::parse_util::is_prefix(crate::parse::op_tokens()[2], b5.text)) by {
                assert(crate::parse::op_tokens()[2] =~= seq![42u8]);
                if crate::parse_util::is_prefix(seq![42u8], b5.text) {
                    assert(b5.text.take(1)[0] == b5.text[0]);
                }
            }
            assert(!crate::parse_util::is_prefix(crate::parse::op_tokens()[3], b5.text)) by {
                assert(crate::parse::op_tokens()[3] =~= seq![47u8]);
                if crate::parse_util::is_prefix(seq![47u8], b5.text) {
                    assert(b5.text.take(1)[0] == b5.text[0]);
                }
            }
            assert(!crate::parse_util::is_prefix(crate::parse::op_tokens()[4], b5.text)) by {
                assert(crate::parse::op_tokens()[4] =~= seq![37u8]);
                if crate::parse_util::is_prefix(seq![37u8], b5.text) {
                    assert(b5.text.take(1)[0] == b5.text[0]);
                }
            }
            assert(!crate::parse_util::is_prefix(crate::parse::op_tokens()[5], b5.text)) by {
                assert(crate::parse::op_tokens()[5] =~= seq![38u8]);
                if crate::parse_util::is_prefix(seq![38u8], b5.text) {
                    assert(b5.text.take(1)[0] == b5.text[0]);
                }
            }
            assert(!crate::parse_util::is_prefix(crate::parse::op_tokens()[6], b5.text)) by {
                assert(crate::parse::op_tokens()[6] =~= seq![124u8]);
                if crate::parse_util::is_prefix(seq![124u8], b5.text) {
                    assert(b5.text.take(1)[0] == b5.text[0]);
                }
            }
            assert(!crate::parse_util::is_prefix(crate::parse::op_tokens()[7], b5.text)) by {
                assert(crate::parse::op_tokens()[7] =~= seq![94u8]);
                if crate::parse_util::is_prefix(seq![94u8], b5.text) {
                    assert(b5.text.take(1)[0] == b5.text[0]);
                }
            }
            assert(!crate::parse_util::is_prefix(crate::parse::op_tokens()[8], b5.text)) by {
                assert(crate::parse::op_tokens()[8] =~= seq![61u8, 61u8]);
                if crate::parse_util::is_prefix(seq![61u8, 61u8], b5.text) {
                    assert(b5.text.take(2)[0] == b5.text[0]);
                }
            }
            assert(!crate::parse_util::is_prefix(crate::parse::op_tokens()[9], b5.text)) by {
                assert(crate::parse::op_tokens()[9] =~= seq![33u8, 61u8]);
                if crate::parse_util::is_prefix(seq![33u8, 61u8], b5.text) {
                    assert(b5.text.take(2)[0] == b5.text[0]);
                }
            }
            assert(!crate::parse_util::is_prefix(crate::parse::op_tokens()[10], b5.text)) by {
                assert(crate::parse::op_tokens()[10] =~= seq![60u8, 61u8]);
                if crate::parse_util::is_prefix(seq![60u8, 61u8], b5.text) {
                    assert(b5.text.take(2)[0] == b5.text[0]);
                }
            }
            assert forall|j: int| 0 <= j < 11 implies !crate::parse_util::is_prefix(
                #[trigger] crate::parse::op_tokens()[j],
                b5.text,
            ) by {
                if j == 0 {
                }
                else if j == 1 {
                }
                else if j == 2 {
                }
                else if j == 3 {
                }
                else if j == 4 {
                }
                else if j == 5 {
                }
                else if j == 6 {
                }
                else if j == 7 {
                }
                else if j == 8 {
                }
                else if j == 9 {
                }
                else if j == 10 {
                }
            }
            assert(crate::parse_util::is_prefix(crate::parse::op_tokens()[11], b5.text)) by {
                assert(crate::parse::op_tokens()[11] =~= seq![62u8, 61u8]);
                assert(b5.text.take(2) =~= seq![62u8, 61u8]);
            }
            crate::parse_util::lemma_first_tok_at(b5.text, crate::parse::op_tokens(), 11);
            let b6 = crate::parse_util::badvance(b5, 2);
            assert(b6.text =~= rest2);
            assert(!(seq![62u8, 61u8] =~= seq![40u8]));
            assert(!(seq![62u8, 61u8] =~= seq![91u8]));
            assert(crate::parse_util::ws_len(b6.text) == 1) by {
                assert(b6.text.skip(1)[0] == 120);
                assert(crate::parse_util::ws_len(b6.text.skip(1)) == 0);
            }
            let b6t = crate::parse_util::btrim_left(b6);
            assert(b6t.text =~= r_reg(c as int) + Seq::<u8>::empty());
            lemma_trim_left_id(b6t);
            lemma_reg_parse(b6t, crate::parse::tok_x(), c as int, Seq::empty());
            assert(crate::parse::saddr(b6, crate::parse::tok_x()) == crate::parse::saddr(
                b6t,
                crate::parse::tok_x(),
            ));
        },
        _ => {},
    }
}

/// One case of [`lemma_instr_line_roundtrip`].
#[verifier::rlimit(100)]
#[verifier::spinoff_prover]
proof fn lemma_rt_op_geq(defns: Seq<DefnM>, i: Instr, row: int)
    requires
        defns.len() > 0,
        i matches Instr::Geq(_, _, _),
    ensures
        crate::parse::sline(defns, render_instr(i), row) == Ok::<
            Seq<DefnM>,
            crate::parse_util::ParseErrorM,
        >(crate::parse::push_ins(defns, i)),
{
    let line = render_instr(i);
    match i {
        Instr::Geq(a, l, c) => {
            let deca = dec_of_nat(a as int);
            let decl = dec_of_nat(l as int);
            let decc = dec_of_nat(c as int);
            crate::dec::lemma_dec_of_nat_val(a as int);
            crate::dec::lemma_dec_of_nat_val(l as int);
            crate::dec::lemma_dec_of_nat_val(c as int);
            assert(line[0] == 120);
            assert(line.last() == decc.last() && crate::dec::is_digit(decc.last())) by {
                assert(line.len() == 1 + deca.len() + 4 + 1 + decl.len() + 1 + 2 + 1
                    + 1 + decc.len());
                assert(line[line.len() - 1] == decc[decc.len() - 1]);
            }
            lemma_rt_op_geq_assign(defns, i, row);
            lemma_rt_from_assign(defns, i, row);
        },
        _ => {},
    }
}

/// The right-hand-side walk of one binary-operator line.
#[verifier::rlimit(100)]
#[verifier::spinoff_prover]
proof fn lemma_rt_op_lt_assign(defns: Seq<DefnM>, i: Instr, row: int)
    requires
        defns.len() > 0,
        i matches Instr::Lt(_, _, _),
    ensures
        crate::parse::sassign(defns, BufM { text: render_instr(i), row, col: 0 }) == Ok::<
            Seq<DefnM>,
            crate::parse_util::ParseErrorM,
        >(crate::parse::push_ins(defns, i)),
{
    let line = render_instr(i);
    let b0 = BufM { text: line, row, col: 0 };
    match i {
        Instr::Lt(a, l, c) => {
            let deca = dec_of_nat(a as int);
            let decl = dec_of_nat(l as int);
            let decc = dec_of_nat(c as int);
            crate::dec::lemma_dec_of_nat_val(a as int);
            crate::dec::lemma_dec_of_nat_val(l as int);
            crate::dec::lemma_dec_of_nat_val(c as int);
            let op = seq![60u8];
            let tail = r_reg(l as int) + r_sp() + op + r_sp() + r_reg(c as int);
            assert(line =~= r_reg(a as int) + r_assign_op() + tail);
            assert(tail[0] == 120 && !crate::parse_util::is_ws(tail[0]));
            lemma_assign_head(b0, a, tail);
            let b3 = BufM { text: tail, row, col: 1 + deca.len() as int + 4 };
            assert(!crate::parse_util::is_prefix(crate::parse::tok_k(), b3.text)) by {
                if crate::parse_util::is_prefix(crate::parse::tok_k(), b3.text) {
                    assert(b3.text.take(1)[0] == b3.text[0]);
                }
            }
            assert(!crate::parse_util::is_prefix(crate::parse::tok_lparen(), b3.text)) by {
                if crate::parse_util::is_prefix(crate::parse::tok_lparen(), b3.text) {
                    assert(b3.text.take(1)[0] == b3.text[0]);
                }
            }
            assert(!crate::parse_util::is_prefix(crate::parse::tok_read(), b3.text)) by {
                if crate::parse_util::is_prefix(crate::parse::tok_read(), b3.text) {
                    assert(b3.text.take(4)[0] == b3.text[0]);
                }
            }
            let rest1 = r_sp() + op + r_sp() + r_reg(c as int);
            assert(b3.text =~= r_reg(l as int) + rest1);
            assert(!crate::dec::is_digit(rest1[0]));
            lemma_reg_parse(b3, crate::parse::tok_x(), l as int, rest1);
            let b4 = BufM { text: rest1, row, col: b3.col + 1 + decl.len() as int };
            assert(crate::parse_util::ws_len(b4.text) == 1) by {
                assert(b4.text.skip(1)[0] == op[0]);
                assert(crate::parse_util::ws_len(b4.text.skip(1)) == 0);
            }
            let b5 = crate::parse_util::btrim_left(b4);
            let rest2 = seq![32u8] + r_reg(c as int);
            assert(b5.text =~= op + rest2);
            assert(b5.text.len() > 0);
            assert(b5.text[0] == 60);
            assert(b5.text[1] == 32);
            assert(!crate::parse_util::is_prefix(crate::parse::op_tokens()[0], b5.text)) by {
                assert(crate::parse::op_tokens()[0] =~= seq![43u8]);
                if crate::parse_util::is_prefix(seq![43u8], b5.text) {
                    assert(b5.text.take(1)[0] == b5.text[0]);
                }
            }
            assert(!crate::parse_util::is_prefix(crate::parse::op_tokens()[1], b5.text)) by {
                assert(crate::parse::op_tokens()[1] =~= seq![45u8]);
                if crate::parse_util::is_prefix(seq![45u8], b5.text) {
                    assert(b5.text.take(1)[0] == b5.text[0]);
                }
            }
            assert(!crate::parse_util::is_prefix(crate::parse::op_tokens()[2], b5.text)) by {
                assert(crate::parse::op_tokens()[2] =~= seq![42u8]);
                if crate::parse_util::is_prefix(seq![42u8], b5.text) {
                    assert(b5.text.take(1)[0] == b5.text[0]);
                }
            }
            assert(!crate::parse_util::is_prefix(crate::parse::op_tokens()[3], b5.text)) by {
                assert(crate::parse::op_tokens()[3] =~= seq![47u8]);
                if crate::parse_util::is_prefix(seq![47u8], b5.text) {
                    assert(b5.text.take(1)[0] == b5.text[0]);
                }
            }
            assert(!crate::parse_util::is_prefix(crate::parse::op_tokens()[4], b5.text)) by {
                assert(crate::parse::op_tokens()[4] =~= seq![37u8]);
                if crate::parse_util::is_prefix(seq![37u8], b5.text) {
                    assert(b5.text.take(1)[0] == b5.text[0]);
                }
            }
            assert(!crate::parse_util::is_prefix(crate::parse::op_tokens()[5], b5.text)) by {
                assert(crate::parse::op_tokens()[5] =~= seq![38u8]);
                if crate::parse_util::is_prefix(seq![38u8], b5.text) {
                    assert(b5.text.take(1)[0] == b5.text[0]);
                }
            }
            assert(!crate::parse_util::is_prefix(crate::parse::op_tokens()[6], b5.text)) by {
                assert(crate::parse::op_tokens()[6] =~= seq![124u8]);
                if crate::parse_util::is_prefix(seq![124u8], b5.text) {
                    assert(b5.text.take(1)[0] == b5.text[0]);
                }
            }
            assert(!crate::parse_util::is_prefix(crate::parse::op_tokens()[7], b5.text)) by {
                assert(crate::parse::op_tokens()[7] =~= seq![94u8]);
                if crate::parse_util::is_prefix(seq![94u8], b5.text) {
                    assert(b5.text.take(1)[0] == b5.text[0]);
                }
            }
            assert(!crate::parse_util::is_prefix(crate::parse::op_tokens()[8], b5.text)) by {
                assert(crate::parse::op_tokens()[8] =~= seq![61u8, 61u8]);
                if crate::parse_util::is_prefix(seq![61u8, 61u8], b5.text) {
                    assert(b5.text.take(2)[0] == b5.text[0]);
                }
            }
            assert(!crate::parse_util::is_prefix(crate::parse::op_tokens()[9], b5.text)) by {
                assert(crate::parse::op_tokens()[9] =~= seq![33u8, 61u8]);
                if crate::parse_util::is_prefix(seq![33u8, 61u8], b5.text) {
                    assert(b5.text.take(2)[0] == b5.text[0]);
                }
            }
            assert(!crate::parse_util::is_prefix(crate::parse::op_tokens()[10], b5.text)) by {
                assert(crate::parse::op_tokens()[10] =~= seq![60u8, 61u8]);
                if crate::parse_util::is_prefix(seq![60u8, 61u8], b5.text) {
                    assert(b5.text.take(2)[0] == b5.text[0]);
                    assert(b5.text.take(2)[1] == b5.text[1]);
                }
            }
            assert(!crate::parse_util::is_prefix(crate::parse::op_tokens()[11], b5.text)) by {
                assert(crate::parse::op_tokens()[11] =~= seq![62u8, 61u8]);
                if crate::parse_util::is_prefix(seq![62u8, 61u8], b5.text) {
                    assert(b5.text.take(2)[0] == b5.text[0]);
                }
            }
            assert forall|j: int| 0 <= j < 12 implies !crate::parse_util::is_prefix(
                #[trigger] crate::parse::op_tokens()[j],
                b5.text,
            ) by {
                if j == 0 {
                }
                else if j == 1 {
                }
                else if j == 2 {
                }
                else if j == 3 {
                }
                else if j == 4 {
                }
                else if j == 5 {
                }
                else if j == 6 {
                }
                else if j == 7 {
                }
                else if j == 8 {
                }
                else if j == 9 {
                }
                else if j == 10 {
                }
                else if j == 11 {
                }
            }
            assert(crate::parse_util::is_prefix(crate::parse::op_tokens()[12], b5.text)) by {
                assert(crate::parse::op_tokens()[12] =~= seq![60u8]);
                assert(b5.text.take(1) =~= seq![60u8]);
            }
            crate::parse_util::lemma_first_tok_at(b5.text, crate::parse::op_tokens(), 12);
            let b6 = crate::parse_util::badvance(b5, 1);
            assert(b6.text =~= rest2);
            assert(!(seq![60u8] =~= seq![40u8]));
            assert(!(seq![60u8] =~= seq![91u8]));
            assert(crate::parse_util::ws_len(b6.text) == 1) by {
                assert(b6.text.skip(1)[0] == 120);
                assert(crate::parse_util::ws_len(b6.text.skip(1)) == 0);
            }
            let b6t = crate::parse_util::btrim_left(b6);
            assert(b6t.text =~= r_reg(c as int) + Seq::<u8>::empty());
            lemma_trim_left_id(b6t);
            lemma_reg_parse(b6t, crate::parse::tok_x(), c as int, Seq::empty());
            assert(crate::parse::saddr(b6, crate::parse::tok_x()) == crate::parse::saddr(
                b6t,
                crate::parse::tok_x(),
            ));
        },
        _ => {},
    }
}

/// One case of [`lemma_instr_line_roundtrip`].
#[verifier::rlimit(100)]
#[verifier::spinoff_prover]
proof fn lemma_rt_op_lt(defns: Seq<DefnM>, i: Instr, row: int)
    requires
        defns.len() > 0,
        i matches Instr::Lt(_, _, _),
    ensures
        crate::parse::sline(defns, render_instr(i), row) == Ok::<
            Seq<DefnM>,
            crate::parse_util::ParseErrorM,
        >(crate::parse::push_ins(defns, i)),
{
    let line = render_instr(i);
    match i {
        Instr::Lt(a, l, c) => {
            let deca = dec_of_nat(a as int);
            let decl = dec_of_nat(l as int);
            let decc = dec_of_nat(c as int);
            crate::dec::lemma_dec_of_nat_val(a as int);
            crate::dec::lemma_dec_of_nat_val(l as int);
            crate::dec::lemma_dec_of_nat_val(c as int);
            assert(line[0] == 120);
            assert(line.last() == decc.last() && crate::dec::is_digit(decc.last())) by {
                assert(line.len() == 1 + deca.len() + 4 + 1 + decl.len() + 1 + 1 + 1
                    + 1 + decc.len());
                assert(line[line.len() - 1] == decc[decc.len() - 1]);
            }
            lemma_rt_op_lt_assign(defns, i, row);
            lemma_rt_from_assign(defns, i, row);
        },
        _ => {},
    }
}

/// The right-hand-side walk of one binary-operator line.
#[verifier::rlimit(100)]
#[verifier::spinoff_prover]
proof fn lemma_rt_op_gt_assign(defns: Seq<DefnM>, i: Instr, row: int)
    requires
        defns.len() > 0,
        i matches Instr::Gt(_, _, _),
    ensures
        crate::parse::sassign(defns, BufM { text: render_instr(i), row, col: 0 }) == Ok::<
            Seq<DefnM>,
            crate::parse_util::ParseErrorM,
        >(crate::parse::push_ins(defns, i)),
{
    let line = render_instr(i);
    let b0 = BufM { text: line, row, col: 0 };
    match i {
        Instr::Gt(a, l, c) => {
            let deca = dec_of_nat(a as int);
            let decl = dec_of_nat(l as int);
            let decc = dec_of_nat(c as int);
            crate::dec::lemma_dec_of_nat_val(a as int);
            crate::dec::lemma_dec_of_nat_val(l as int);
            crate::dec::lemma_dec_of_nat_val(c as int);
            let op = seq![62u8];
            let tail = r_reg(l as int) + r_sp() + op + r_sp() + r_reg(c as int);
            assert(line =~= r_reg(a as int) + r_assign_op() + tail);
            assert(tail[0] == 120 && !crate::parse_util::is_ws(tail[0]));
            lemma_assign_head(b0, a, tail);
            let b3 = BufM { text: tail, row, col: 1 + deca.len() as int + 4 };
            assert(!crate::parse_util::is_prefix(crate::parse::tok_k(), b3.text)) by {
                if crate::parse_util::is_prefix(crate::parse::tok_k(), b3.text) {
                    assert(b3.text.take(1)[0] == b3.text[0]);
                }
            }
            assert(!crate::parse_util::is_prefix(crate::parse::tok_lparen(), b3.text)) by {
                if crate::parse_util::is_prefix(crate::parse::tok_lparen(), b3.text) {
                    assert(b3.text.take(1)[0] == b3.text[0]);
                }
            }
            assert(!crate::parse_util::is_prefix(crate::parse::tok_read(), b3.text)) by {
                if crate::parse_util::is_prefix(crate::parse::tok_read(), b3.text) {
                    assert(b3.text.take(4)[0] == b3.text[0]);
                }
            }
            let rest1 = r_sp() + op + r_sp() + r_reg(c as int);
            assert(b3.text =~= r_reg(l as int) + rest1);
            assert(!crate::dec::is_digit(rest1[0]));
            lemma_reg_parse(b3, crate::parse::tok_x(), l as int, rest1);
            let b4 = BufM { text: rest1, row, col: b3.col + 1 + decl.len() as int };
            assert(crate::parse_util::ws_len(b4.text) == 1) by {
                assert(b4.text.skip(1)[0] == op[0]);
                assert(crate::parse_util::ws_len(b4.text.skip(1)) == 0);
            }
            let b5 = crate::parse_util::btrim_left(b4);
            let rest2 = seq![32u8] + r_reg(c as int);
            assert(b5.text =~= op + rest2);
            assert(b5.text.len() > 0);
            assert(b5.text[0] == 62);
            assert(b5.text[1] == 32);
            assert(!crate::parse_util::is_prefix(crate::parse::op_tokens()[0], b5.text)) by {
                assert(crate::parse::op_tokens()[0] =~= seq![43u8]);
                if crate::parse_util::is_prefix(seq![43u8], b5.text) {
                    assert(b5.text.take(1)[0] == b5.text[0]);
                }
            }
            assert(!crate::parse_util::is_prefix(crate::parse::op_tokens()[1], b5.text)) by {
                assert(crate::parse::op_tokens()[1] =~= seq![45u8]);
                if crate::parse_util::is_prefix(seq![45u8], b5.text) {
                    assert(b5.text.take(1)[0] == b5.text[0]);
                }
            }
            assert(!crate::parse_util::is_prefix(crate::parse::op_tokens()[2], b5.text)) by {
                assert(crate::parse::op_tokens()[2] =~= seq![42u8]);
                if crate::parse_util::is_prefix(seq![42u8], b5.text) {
                    assert(b5.text.take(1)[0] == b5.text[0]);
                }
            }
            assert(!crate::parse_util::is_prefix(crate::parse::op_tokens()[3], b5.text)) by {
                assert(crate::parse::op_tokens()[3] =~= seq![47u8]);
                if crate::parse_util::is_prefix(seq![47u8], b5.text) {
                    assert(b5.text.take(1)[0] == b5.text[0]);
                }
            }
            assert(!crate::parse_util::is_prefix(crate::parse::op_tokens()[4], b5.text)) by {
                assert(crate::parse::op_tokens()[4] =~= seq![37u8]);
                if crate::parse_util::is_prefix(seq![37u8], b5.text) {
                    assert(b5.text.take(1)[0] == b5.text[0]);
                }
            }
            assert(!crate::parse_util::is_prefix(crate::parse::op_tokens()[5], b5.text)) by {
                assert(crate::parse::op_tokens()[5] =~= seq![38u8]);
                if crate::parse_util::is_prefix(seq![38u8], b5.text) {
                    assert(b5.text.take(1)[0] == b5.text[0]);
                }
            }
            assert(!crate::parse_util::is_prefix(crate::parse::op_tokens()[6], b5.text)) by {
                assert(crate::parse::op_tokens()[6] =~= seq![124u8]);
                if crate::parse_util::is_prefix(seq![124u8], b5.text) {
                    assert(b5.text.take(1)[0] == b5.text[0]);
                }
            }
            assert(!crate::parse_util::is_prefix(crate::parse::op_tokens()[7], b5.text)) by {
                assert(crate::parse::op_tokens()[7] =~= seq![94u8]);
                if crate::parse_util::is_prefix(seq![94u8], b5.text) {
                    assert(b5.text.take(1)[0] == b5.text[0]);
                }
            }
            assert(!crate::parse_util::is_prefix(crate::parse::op_tokens()[8], b5.text)) by {
                assert(crate::parse::op_tokens()[8] =~= seq![61u8, 61u8]);
                if crate::parse_util::is_prefix(seq![61u8, 61u8], b5.text) {
                    assert(b5.text.take(2)[0] == b5.text[0]);
                }
            }
            assert(!crate::parse_util::is_prefix(crate::parse::op_tokens()[9], b5.text)) by {
                assert(crate::parse::op_tokens()[9] =~= seq![33u8, 61u8]);
                if crate::parse_util::is_prefix(seq![33u8, 61u8], b5.text) {
                    assert(b5.text.take(2)[0] == b5.text[0]);
                }
            }
            assert(!crate::parse_util::is_prefix(crate::parse::op_tokens()[10], b5.text)) by {
                assert(crate::parse::op_tokens()[10] =~= seq![60u8, 61u8]);
                if crate::parse_util::is_prefix(seq![60u8, 61u8], b5.text) {
                    assert(b5.text.take(2)[0] == b5.text[0]);
                }
            }
            assert(!crate::parse_util::is_prefix(crate::parse::op_tokens()[11], b5.text)) by {
                assert(crate::parse::op_tokens()[11] =~= seq![62u8, 61u8]);
                if crate::parse_util::is_prefix(seq![62u8, 61u8], b5.text) {
                    assert(b5.text.take(2)[0] == b5.text[0]);
                    assert(b5.text.take(2)[1] == b5.text[1]);
                }
            }
            assert(!crate::parse_util::is_prefix(crate::parse::op_tokens()[12], b5.text)) by {
                assert(crate::parse::op_tokens()[12] =~= seq![60u8]);
                if crate::parse_util::is_prefix(seq![60u8], b5.text) {
                    assert(b5.text.take(1)[0] == b5.text[0]);
                }
            }
            assert forall|j: int| 0 <= j < 13 implies !crate::parse_util::is_prefix(
                #[trigger] crate::parse::op_tokens()[j],
                b5.text,
            ) by {
                if j == 0 {
                }
                else if j == 1 {
                }
                else if j == 2 {
                }
                else if j == 3 {
                }
                else if j == 4 {
                }
                else if j == 5 {
                }
                else if j == 6 {
                }
                else if j == 7 {
                }
                else if j == 8 {
                }
                else if j == 9 {
                }
                else if j == 10 {
                }
                else if j == 11 {
                }
                else if j == 12 {
                }
            }
            assert(crate::parse_util::is_prefix(crate::parse::op_tokens()[13], b5.text)) by {
                assert(crate::parse::op_tokens()[13] =~= seq![62u8]);
                assert(b5.text.take(1) =~= seq![62u8]);
            }
            crate::parse_util::lemma_first_tok_at(b5.text, crate::parse::op_tokens(), 13);
            let b6 = crate::parse_util::badvance(b5, 1);
            assert(b6.text =~= rest2);
            assert(!(seq![62u8] =~= seq![40u8]));
            assert(!(seq![62u8] =~= seq![91u8]));
            assert(crate::parse_util::ws_len(b6.text) == 1) by {
                assert(b6.text.skip(1)[0] == 120);
                assert(crate::parse_util::ws_len(b6.text.skip(1)) == 0);
            }
            let b6t = crate::parse_util::btrim_left(b6);
            assert(b6t.text =~= r_reg(c as int) + Seq::<u8>::empty());
            lemma_trim_left_id(b6t);
            lemma_reg_parse(b6t, crate::parse::tok_x(), c as int, Seq::empty());
            assert(crate::parse::saddr(b6, crate::parse::tok_x()) == crate::parse::saddr(
                b6t,
                crate::parse::tok_x(),
            ));
        },
        _ => {},
    }
}

/// One case of [`lemma_instr_line_roundtrip`].
#[verifier::rlimit(100)]
#[verifier::spinoff_prover]
proof fn lemma_rt_op_gt(defns: Seq<DefnM>, i: Instr, row: int)
    requires
        defns.len() > 0,
        i matches Instr::Gt(_, _, _),
    ensures
        crate::parse::sline(defns, render_instr(i), row) == Ok::<
            Seq<DefnM>,
            crate::parse_util::ParseErrorM,
        >(crate::parse::push_ins(defns, i)),
{
    let line = render_instr(i);
    match i {
        Instr::Gt(a, l, c) => {
            let deca = dec_of_nat(a as int);
            let decl = dec_of_nat(l as int);
            let decc = dec_of_nat(c as int);
            crate::dec::lemma_dec_of_nat_val(a as int);
            crate::dec::lemma_dec_of_nat_val(l as int);
            crate::dec::lemma_dec_of_nat_val(c as int);
            assert(line[0] == 120);
            assert(line.last() == decc.last() && crate::dec::is_digit(decc.last())) by {
                assert(line.len() == 1 + deca.len() + 4 + 1 + decl.len() + 1 + 1 + 1
                    + 1 + decc.len());
                assert(line[line.len() - 1] == decc[decc.len() - 1]);
            }
            lemma_rt_op_gt_assign(defns, i, row);
            lemma_rt_from_assign(defns, i, row);
        },
        _ => {},
    }
}

/// The right-hand-side walk of one call line.
#[verifier::rlimit(100)]
#[verifier::spinoff_prover]
proof fn lemma_rt_op_call_assign(defns: Seq<DefnM>, i: Instr, row: int)
    requires
        defns.len() > 0,
        i matches Instr::Call(_, _, _),
    ensures
        crate::parse::sassign(defns, BufM { text: render_instr(i), row, col: 0 }) == Ok::<
            Seq<DefnM>,
            crate::parse_util::ParseErrorM,
        >(crate::parse::push_ins(defns, i)),
{
    let line = render_instr(i);
    let b0 = BufM { text: line, row, col: 0 };
    match i {
        Instr::Call(a, l, c) => {
            let deca = dec_of_nat(a as int);
            let decl = dec_of_nat(l as int);
            let decc = dec_of_nat(c as int);
            crate::dec::lemma_dec_of_nat_val(a as int);
            crate::dec::lemma_dec_of_nat_val(l as int);
            crate::dec::lemma_dec_of_nat_val(c as int);
            let closing = seq![41u8];
            let tail = r_reg(l as int) + seq![40u8] + r_reg(c as int) + closing;
            assert(line =~= r_reg(a as int) + r_assign_op() + tail);
            assert(tail[0] == 120 && !crate::parse_util::is_ws(tail[0]));
            lemma_assign_head(b0, a, tail);
            let b3 = BufM { text: tail, row, col: 1 + deca.len() as int + 4 };
            assert(!crate::parse_util::is_prefix(crate::parse::tok_k(), b3.text)) by {
                if crate::parse_util::is_prefix(crate::parse::tok_k(), b3.text) {
                    assert(b3.text.take(1)[0] == b3.text[0]);
                }
            }
            assert(!crate::parse_util::is_prefix(crate::parse::tok_lparen(), b3.text)) by {
                if crate::parse_util::is_prefix(crate::parse::tok_lparen(), b3.text) {
                    assert(b3.text.take(1)[0] == b3.text[0]);
                }
            }
            assert(!crate::parse_util::is_prefix(crate::parse::tok_read(), b3.text)) by {
                if crate::parse_util::is_prefix(crate::parse::tok_read(), b3.text) {
                    assert(b3.text.take(4)[0] == b3.text[0]);
                }
            }
            let rest1 = seq![40u8] + (r_reg(c as int) + closing);
            assert(b3.text =~= r_reg(l as int) + rest1);
            assert(!crate::dec::is_digit(rest1[0]));
            lemma_reg_parse(b3, crate::parse::tok_x(), l as int, rest1);
            let b4 = BufM { text: rest1, row, col: b3.col + 1 + decl.len() as int };
            lemma_trim_left_id(b4);
            let b5 = b4;
            assert(b5.text[0] == 40);
            assert(!crate::parse_util::is_prefix(crate::parse::op_tokens()[0], b5.text)) by {
                assert(crate::parse::op_tokens()[0] =~= seq![43u8]);
                if crate::parse_util::is_prefix(seq![43u8], b5.text) {
                    assert(b5.text.take(1)[0] == b5.text[0]);
                }
            }
            assert(!crate::parse_util::is_prefix(crate::parse::op_tokens()[1], b5.text)) by {
                assert(crate::parse::op_tokens()[1] =~= seq![45u8]);
                if crate::parse_util::is_prefix(seq![45u8], b5.text) {
                    assert(b5.text.take(1)[0] == b5.text[0]);
                }
            }
            assert(!crate::parse_util::is_prefix(crate::parse::op_tokens()[2], b5.text)) by {
                assert(crate::parse::op_tokens()[2] =~= seq![42u8]);
                if crate::parse_util::is_prefix(seq![42u8], b5.text) {
                    assert(b5.text.take(1)[0] == b5.text[0]);
                }
            }
            assert(!crate::parse_util::is_prefix(crate::parse::op_tokens()[3], b5.text)) by {
                assert(crate::parse::op_tokens()[3] =~= seq![47u8]);
                if crate::parse_util::is_prefix(seq![47u8], b5.text) {
                    assert(b5.text.take(1)[0] == b5.text[0]);
                }
            }
            assert(!crate::parse_util::is_prefix(crate::parse::op_tokens()[4], b5.text)) by {
                assert(crate::parse::op_tokens()[4] =~= seq![37u8]);
                if crate::parse_util::is_prefix(seq![37u8], b5.text) {
                    assert(b5.text.take(1)[0] == b5.text[0]);
                }
            }
            assert(!crate::parse_util::is_prefix(crate::parse::op_tokens()[5], b5.text)) by {
                assert(crate::parse::op_tokens()[5] =~= seq![38u8]);
                if crate::parse_util::is_prefix(seq![38u8], b5.text) {
                    assert(b5.text.take(1)[0] == b5.text[0]);
                }
            }
            assert(!crate::parse_util::is_prefix(crate::parse::op_tokens()[6], b5.text)) by {
                assert(crate::parse::op_tokens()[6] =~= seq![124u8]);
                if crate::parse_util::is_prefix(seq![124u8], b5.text) {
                    assert(b5.text.take(1)[0] == b5.text[0]);
                }
            }
            assert(!crate::parse_util::is_prefix(crate::parse::op_tokens()[7], b5.text)) by {
                assert(crate::parse::op_tokens()[7] =~= seq![94u8]);
                if crate::parse_util::is_prefix(seq![94u8], b5.text) {
                    assert(b5.text.take(1)[0] == b5.text[0]);
                }
            }
            assert(!crate::parse_util::is_prefix(crate::parse::op_tokens()[8], b5.text)) by {
                assert(crate::parse::op_tokens()[8] =~= seq![61u8, 61u8]);
                if crate::parse_util::is_prefix(seq![61u8, 61u8], b5.text) {
                    assert(b5.text.take(2)[0] == b5.text[0]);
                }
            }
            assert(!crate::parse_util::is_prefix(crate::parse::op_tokens()[9], b5.text)) by {
                assert(crate::parse::op_tokens()[9] =~= seq![33u8, 61u8]);
                if crate::parse_util::is_prefix(seq![33u8, 61u8], b5.text) {
                    assert(b5.text.take(2)[0] == b5.text[0]);
                }
            }
            assert(!crate::parse_util::is_prefix(crate::parse::op_tokens()[10], b5.text)) by {
                assert(crate::parse::op_tokens()[10] =~= seq![60u8, 61u8]);
                if crate::parse_util::is_prefix(seq![60u8, 61u8], b5.text) {
                    assert(b5.text.take(2)[0] == b5.text[0]);
                }
            }
            assert(!crate::parse_util::is_prefix(crate::parse::op_tokens()[11], b5.text)) by {
                assert(crate::parse::op_tokens()[11] =~= seq![62u8, 61u8]);
                if crate::parse_util::is_prefix(seq![62u8, 61u8], b5.text) {
                    assert(b5.text.take(2)[0] == b5.text[0]);
                }
            }
            assert(!crate::parse_util::is_prefix(crate::parse::op_tokens()[12], b5.text)) by {
                assert(crate::parse::op_tokens()[12] =~= seq![60u8]);
                if crate::parse_util::is_prefix(seq![60u8], b5.text) {
                    assert(b5.text.take(1)[0] == b5.text[0]);
                }
            }
            assert(!crate::parse_util::is_prefix(crate::parse::op_tokens()[13], b5.text)) by {
                assert(crate::parse::op_tokens()[13] =~= seq![62u8]);
                if crate::parse_util::is_prefix(seq![62u8], b5.text) {
                    assert(b5.text.take(1)[0] == b5.text[0]);
                }
            }
            assert forall|j: int| 0 <= j < 14 implies !crate::parse_util::is_prefix(
                #[trigger] crate::parse::op_tokens()[j],
                b5.text,
            ) by {
                if j == 0 {
                }
                else if j == 1 {
                }
                else if j == 2 {
                }
                else if j == 3 {
                }
                else if j == 4 {
                }
                else if j == 5 {
                }
                else if j == 6 {
                }
                else if j == 7 {
                }
                else if j == 8 {
                }
                else if j == 9 {
                }
                else if j == 10 {
                }
                else if j == 11 {
                }
                else if j == 12 {
                }
                else if j == 13 {
                }
            }
            assert(crate::parse_util::is_prefix(crate::parse::op_tokens()[14], b5.text)) by {
                assert(crate::parse::op_tokens()[14] =~= seq![40u8]);
                assert(b5.text.take(1) =~= seq![40u8]);
            }
            crate::parse_util::lemma_first_tok_at(b5.text, crate::parse::op_tokens(), 14);
            let b6 = crate::parse_util::badvance(b5, 1);
            assert(b6.text =~= r_reg(c as int) + closing);
            assert(!crate::dec::is_digit(closing[0]));
            lemma_trim_left_id(b6);
            lemma_reg_parse(b6, crate::parse::tok_x(), c as int, closing);
            let b7 = BufM { text: closing, row, col: b6.col + 1 + decc.len() as int };
            lemma_trim_left_id(b7);
            assert(crate::parse_util::is_prefix(
                crate::parse::tok_rparen(),
                b7.text,
            )) by {
                assert(b7.text.take(1) =~= seq![41u8]);
            }
            let b8 = crate::parse_util::badvance(b7, 1);
            assert(b8.text =~= Seq::<u8>::empty());
        },
        _ => {},
    }
}

/// One case of [`lemma_instr_line_roundtrip`].
#[verifier::rlimit(100)]
#[verifier::spinoff_prover]
proof fn lemma_rt_op_call(defns: Seq<DefnM>, i: Instr, row: int)
    requires
        defns.len() > 0,
        i matches Instr::Call(_, _, _),
    ensures
        crate::parse::sline(defns, render_instr(i), row) == Ok::<
            Seq<DefnM>,
            crate::parse_util::ParseErrorM,
        >(crate::parse::push_ins(defns, i)),
{
    let line = render_instr(i);
    match i {
        Instr::Call(a, l, c) => {
            let deca = dec_of_nat(a as int);
            let decl = dec_of_nat(l as int);
            let decc = dec_of_nat(c as int);
            crate::dec::lemma_dec_of_nat_val(a as int);
            crate::dec::lemma_dec_of_nat_val(l as int);
            crate::dec::lemma_dec_of_nat_val(c as int);
            assert(line[0] == 120);
            assert(line.last() == 41) by {
                assert(line.len() == 1 + deca.len() + 4 + 1 + decl.len() + 1 + 1
                    + decc.len() + 1);
                assert(line[line.len() - 1] == seq![41u8][0]);
            }
            lemma_rt_op_call_assign(defns, i, row);
            lemma_rt_from_assign(defns, i, row);
        },
        _ => {},
    }
}

/// The right-hand-side walk of one tuple-index line.
#[verifier::rlimit(100)]
#[verifier::spinoff_prover]
proof fn lemma_rt_op_idx_tup_assign(defns: Seq<DefnM>, i: Instr, row: int)
    requires
        defns.len() > 0,
        i matches Instr::IdxTup(_, _, _),
    ensures
        crate::parse::sassign(defns, BufM { text: render_instr(i), row, col: 0 }) == Ok::<
            Seq<DefnM>,
            crate::parse_util::ParseErrorM,
        >(crate::parse::push_ins(defns, i)),
{
    let line = render_instr(i);
    let b0 = BufM { text: line, row, col: 0 };
    match i {
        Instr::IdxTup(a, l, c) => {
            let deca = dec_of_nat(a as int);
            let decl = dec_of_nat(l as int);
            let decc = dec_of_nat(c as int);
            crate::dec::lemma_dec_of_nat_val(a as int);
            crate::dec::lemma_dec_of_nat_val(l as int);
            crate::dec::lemma_dec_of_nat_val(c as int);
            let closing = seq![93u8];
            let tail = r_reg(l as int) + seq![91u8] + r_reg(c as int) + closing;
            assert(line =~= r_reg(a as int) + r_assign_op() + tail);
            assert(tail[0] == 120 && !crate::parse_util::is_ws(tail[0]));
            lemma_assign_head(b0, a, tail);
            let b3 = BufM { text: tail, row, col: 1 + deca.len() as int + 4 };
            assert(!crate::parse_util::is_prefix(crate::parse::tok_k(), b3.text)) by {
                if crate::parse_util::is_prefix(crate::parse::tok_k(), b3.text) {
                    assert(b3.text.take(1)[0] == b3.text[0]);
                }
            }
            assert(!crate::parse_util::is_prefix(crate::parse::tok_lparen(), b3.text)) by {
                if crate::parse_util::is_prefix(crate::parse::tok_lparen(), b3.text) {
                    assert(b3.text.take(1)[0] == b3.text[0]);
                }
            }
            assert(!crate::parse_util::is_prefix(crate::parse::tok_read(), b3.text)) by {
                if crate::parse_util::is_prefix(crate::parse::tok_read(), b3.text) {
                    assert(b3.text.take(4)[0] == b3.text[0]);
                }
            }
            let rest1 = seq![91u8] + (r_reg(c as int) + closing);
            assert(b3.text =~= r_reg(l as int) + rest1);
            assert(!crate::dec::is_digit(rest1[0]));
            lemma_reg_parse(b3, crate::parse::tok_x(), l as int, rest1);
            let b4 = BufM { text: rest1, row, col: b3.col + 1 + decl.len() as int };
            lemma_trim_left_id(b4);
            let b5 = b4;
            assert(b5.text[0] == 91);
            assert(!crate::parse_util::is_prefix(crate::parse::op_tokens()[0], b5.text)) by {
                assert(crate::parse::op_tokens()[0] =~= seq![43u8]);
                if crate::parse_util::is_prefix(seq![43u8], b5.text) {
                    assert(b5.text.take(1)[0] == b5.text[0]);
                }
            }
            assert(!crate::parse_util::is_prefix(crate::parse::op_tokens()[1], b5.text)) by {
                assert(crate::parse::op_tokens()[1] =~= seq![45u8]);
                if crate::parse_util::is_prefix(seq![45u8], b5.text) {
                    assert(b5.text.take(1)[0] == b5.text[0]);
                }
            }
            assert(!crate::parse_util::is_prefix(crate::parse::op_tokens()[2], b5.text)) by {
                assert(crate::parse::op_tokens()[2] =~= seq![42u8]);
                if crate::parse_util::is_prefix(seq![42u8], b5.text) {
                    assert(b5.text.take(1)[0] == b5.text[0]);
                }
            }
            assert(!crate::parse_util::is_prefix(crate::parse::op_tokens()[3], b5.text)) by {
                assert(crate::parse::op_tokens()[3] =~= seq![47u8]);
                if crate::parse_util::is_prefix(seq![47u8], b5.text) {
                    assert(b5.text.take(1)[0] == b5.text[0]);
                }
            }
            assert(!crate::parse_util::is_prefix(crate::parse::op_tokens()[4], b5.text)) by {
                assert(crate::parse::op_tokens()[4] =~= seq![37u8]);
                if crate::parse_util::is_prefix(seq![37u8], b5.text) {
                    assert(b5.text.take(1)[0] == b5.text[0]);
                }
            }
            assert(!crate::parse_util::is_prefix(crate::parse::op_tokens()[5], b5.text)) by {
                assert(crate::parse::op_tokens()[5] =~= seq![38u8]);
                if crate::parse_util::is_prefix(seq![38u8], b5.text) {
                    assert(b5.text.take(1)[0] == b5.text[0]);
                }
            }
            assert(!crate::parse_util::is_prefix(crate::parse::op_tokens()[6], b5.text)) by {
                assert(crate::parse::op_tokens()[6] =~= seq![124u8]);
                if crate::parse_util::is_prefix(seq![124u8], b5.text) {
                    assert(b5.text.take(1)[0] == b5.text[0]);
                }
            }
            assert(!crate::parse_util::is_prefix(crate::parse::op_tokens()[7], b5.text)) by {
                assert(crate::parse::op_tokens()[7] =~= seq![94u8]);
                if crate::parse_util::is_prefix(seq![94u8], b5.text) {
                    assert(b5.text.take(1)[0] == b5.text[0]);
                }
            }
            assert(!crate::parse_util::is_prefix(crate::parse::op_tokens()[8], b5.text)) by {
                assert(crate::parse::op_tokens()[8] =~= seq![61u8, 61u8]);
                if crate::parse_util::is_prefix(seq![61u8, 61u8], b5.text) {
                    assert(b5.text.take(2)[0] == b5.text[0]);
                }
            }
            assert(!crate::parse_util::is_prefix(crate::parse::op_tokens()[9], b5.text)) by {
                assert(crate::parse::op_tokens()[9] =~= seq![33u8, 61u8]);
                if crate::parse_util::is_prefix(seq![33u8, 61u8], b5.text) {
                    assert(b5.text.take(2)[0] == b5.text[0]);
                }
            }
            assert(!crate::parse_util::is_prefix(crate::parse::op_tokens()[10], b5.text)) by {
                assert(crate::parse::op_tokens()[10] =~= seq![60u8, 61u8]);
                if crate::parse_util::is_prefix(seq![60u8, 61u8], b5.text) {
                    assert(b5.text.take(2)[0] == b5.text[0]);
                }
            }
            assert(!crate::parse_util::is_prefix(crate::parse::op_tokens()[11], b5.text)) by {
                assert(crate::parse::op_tokens()[11] =~= seq![62u8, 61u8]);
                if crate::parse_util::is_prefix(seq![62u8, 61u8], b5.text) {
                    assert(b5.text.take(2)[0] == b5.text[0]);
                }
            }
            assert(!crate::parse_util::is_prefix(crate::parse::op_tokens()[12], b5.text)) by {
                assert(crate::parse::op_tokens()[12] =~= seq![60u8]);
                if crate::parse_util::is_prefix(seq![60u8], b5.text) {
                    assert(b5.text.take(1)[0] == b5.text[0]);
                }
            }
            assert(!crate::parse_util::is_prefix(crate::parse::op_tokens()[13], b5.text)) by {
                assert(crate::parse::op_tokens()[13] =~= seq![62u8]);
                if crate::parse_util::is_prefix(seq![62u8], b5.text) {
                    assert(b5.text.take(1)[0] == b5.text[0]);
                }
            }
            assert(!crate::parse_util::is_prefix(crate::parse::op_tokens()[14], b5.text)) by {
                assert(crate::parse::op_tokens()[14] =~= seq![40u8]);
                if crate::parse_util::is_prefix(seq![40u8], b5.text) {
                    assert(b5.text.take(1)[0] == b5.text[0]);
                }
            }
            assert forall|j: int| 0 <= j < 15 implies !crate::parse_util::is_prefix(
                #[trigger] crate::parse::op_tokens()[j],
                b5.text,
            ) by {
                if j == 0 {
                }
                else if j == 1 {
                }
                else if j == 2 {
                }
                else if j == 3 {
                }
                else if j == 4 {
                }
                else if j == 5 {
                }
                else if j == 6 {
                }
                else if j == 7 {
                }
                else if j == 8 {
                }
                else if j == 9 {
                }
                else if j == 10 {
                }
                else if j == 11 {
                }
                else if j == 12 {
                }
                else if j == 13 {
                }
                else if j == 14 {
                }
            }
            assert(crate::parse_util::is_prefix(crate::parse::op_tokens()[15], b5.text)) by {
                assert(crate::parse::op_tokens()[15] =~= seq![91u8]);
                assert(b5.text.take(1) =~= seq![91u8]);
            }
            crate::parse_util::lemma_first_tok_at(b5.text, crate::parse::op_tokens(), 15);
            let b6 = crate::parse_util::badvance(b5, 1);
            assert(b6.text =~= r_reg(c as int) + closing);
            assert(!crate::dec::is_digit(closing[0]));
            lemma_trim_left_id(b6);
            lemma_reg_parse(b6, crate::parse::tok_x(), c as int, closing);
            let b7 = BufM { text: closing, row, col: b6.col + 1 + decc.len() as int };
            lemma_trim_left_id(b7);
            assert(crate::parse_util::is_prefix(
                crate::parse::tok_rbrack(),
                b7.text,
            )) by {
                assert(b7.text.take(1) =~= seq![93u8]);
            }
            let b8 = crate::parse_util::badvance(b7, 1);
            assert(b8.text =~= Seq::<u8>::empty());
        },
        _ => {},
    }
}

/// One case of [`lemma_instr_line_roundtrip`].
#[verifier::rlimit(100)]
#[verifier::spinoff_prover]
proof fn lemma_rt_op_idx_tup(defns: Seq<DefnM>, i: Instr, row: int)
    requires
        defns.len() > 0,
        i matches Instr::IdxTup(_, _, _),
    ensures
        crate::parse::sline(defns, render_instr(i), row) == Ok::<
            Seq<DefnM>,
            crate::parse_util::ParseErrorM,
        >(crate::parse::push_ins(defns, i)),
{
    let line = render_instr(i);
    match i {
        Instr::IdxTup(a, l, c) => {
            let deca = dec_of_nat(a as int);
            let decl = dec_of_nat(l as int);
            let decc = dec_of_nat(c as int);
            crate::dec::lemma_dec_of_nat_val(a as int);
            crate::dec::lemma_dec_of_nat_val(l as int);
            crate::dec::lemma_dec_of_nat_val(c as int);
            assert(line[0] == 120);
            assert(line.last() == 93) by {
                assert(line.len() == 1 + deca.len() + 4 + 1 + decl.len() + 1 + 1
                    + decc.len() + 1);
                assert(line[line.len() - 1] == seq![93u8][0]);
            }
            lemma_rt_op_idx_tup_assign(defns, i, row);
            lemma_rt_from_assign(defns, i, row);
        },
        _ => {},
    }
}

/// One case of [`lemma_instr_line_roundtrip`].
#[verifier::rlimit(100)]
#[verifier::spinoff_prover]
proof fn lemma_rt_op_add(defns: Seq<DefnM>, i: Instr, row: int)
    requires
        defns.len() > 0,
        i matches Instr::Add(_, _, _),
    ensures
        crate::parse::sline(defns, render_instr(i), row) == Ok::<
            Seq<DefnM>,
            crate::parse_util::ParseErrorM,
        >(crate::parse::push_ins(defns, i)),
{
    let line = render_instr(i);
    match i {
        Instr::Add(a, l, c) => {
            let deca = dec_of_nat(a as int);
            let decl = dec_of_nat(l as int);
            let decc = dec_of_nat(c as int);
            crate::dec::lemma_dec_of_nat_val(a as int);
            crate::dec::lemma_dec_of_nat_val(l as int);
            crate::dec::lemma_dec_of_nat_val(c as int);
            assert(line[0] == 120);
            assert(line.last() == decc.last() && crate::dec::is_digit(decc.last())) by {
                assert(line.len() == 1 + deca.len() + 4 + 1 + decl.len() + 1 + 1 + 1
                    + 1 + decc.len());
                assert(line[line.len() - 1] == decc[decc.len() - 1]);
            }
            lemma_rt_op_add_assign(defns, i, row);
            lemma_rt_from_assign(defns, i, row);
        },
        _ => {},
    }
}

/// Round-trip at the instruction level: every rendered instruction line
/// parses back to exactly the instruction it was rendered from, appended
/// to the last function.
pub proof fn lemma_instr_line_roundtrip(defns: Seq<DefnM>, i: Instr, row: int)
    requires
        defns.len() > 0,
    ensures
        crate::parse::sline(defns, render_instr(i), row) == Ok::<
            Seq<DefnM>,
            crate::parse_util::ParseErrorM,
        >(crate::parse::push_ins(defns, i)),
{
    match i {
        Instr::Return(None) => lemma_rt_return_none(defns, i, row),
        Instr::Return(Some(_)) => lemma_rt_return_some(defns, i, row),
        Instr::Write(_) => lemma_rt_write(defns, i, row),
        Instr::Jump(_) => lemma_rt_jump(defns, i, row),
        Instr::CondJump(_, _, _) => lemma_rt_cond_jump(defns, i, row),
        Instr::MkTup(_, _, _) => lemma_rt_mk_tup(defns, i, row),
        Instr::Read(_) => lemma_rt_read(defns, i, row),
        Instr::Const(_, _) => lemma_rt_const(defns, i, row),
        Instr::Copy(_, _) => lemma_rt_copy(defns, i, row),
        Instr::Add(_, _, _) => lemma_rt_op_add(defns, i, row),
        Instr::Sub(_, _, _) => lemma_rt_op_sub(defns, i, row),
        Instr::Mul(_, _, _) => lemma_rt_op_mul(defns, i, row),
        Instr::Div(_, _, _) => lemma_rt_op_div(defns, i, row),
        Instr::Rem(_, _, _) => lemma_rt_op_rem(defns, i, row),
        Instr::And(_, _, _) => lemma_rt_op_and(defns, i, row),
        Instr::Orr(_, _, _) => lemma_rt_op_orr(defns, i, row),
        Instr::Xor(_, _, _) => lemma_rt_op_xor(defns, i, row),
        Instr::Eq(_, _, _) => lemma_rt_op_eq(defns, i, row),
        Instr::Neq(_, _, _) => lemma_rt_op_neq(defns, i, row),
        Instr::Lt(_, _, _) => lemma_rt_op_lt(defns, i, row),
        Instr::Gt(_, _, _) => lemma_rt_op_gt(defns, i, row),
        Instr::Leq(_, _, _) => lemma_rt_op_leq(defns, i, row),
        Instr::Geq(_, _, _) => lemma_rt_op_geq(defns, i, row),
        Instr::Call(_, _, _) => lemma_rt_op_call(defns, i, row),
        Instr::IdxTup(_, _, _) => lemma_rt_op_idx_tup(defns, i, row),
    }
}

} // verus!
