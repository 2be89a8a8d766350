//! The textual assembly parser: line-oriented, one statement per line,
//! `#` comments and blank lines skipped.
//!
//! The grammar's meaning is the spec function [`parse_spec`]: it splits
//! the text into lines ([`split_lines`]) and folds [`sline`] over them,
//! which is written with the same cursor combinators that specify
//! [`crate::parse_util::Buffer`].  The executable [`parse`] is proved to
//! return exactly what [`parse_spec`] says, errors included.

use vstd::prelude::*;
use vstd::slice::slice_subrange;

use crate::bytecode::{Defn, DefnM, Instr, Program, ProgramM, Val, ValM};
use crate::dec::{dec_of_nat, int_of_dec, parse_dec_i64, parse_dec_u64};
use crate::float_ops::{float_parse_bits, fp64_bits_parse};
use crate::parse_util::{
    badvance, bend, berr, bfirst_token_of, bparse_til, bspace, bspace_or_end, btoken, btrim_left,
    btrim_right, buf_wf, is_prefix, lemma_scan_len_at, scan_len, toks_m, BufM, Buffer, BytePred,
    NonDigitPat, NonNumberPat, ParseError, ParseErrorM, WsPat,
};

verus! {

/// Matches a line feed.
pub struct NlPat;

impl BytePred for NlPat {
    open spec fn holds(b: u8) -> bool {
        b == 10
    }

    fn test(b: u8) -> (r: bool) {
        b == 10
    }
}

/// Matches a decimal exponent marker.
pub struct ExpMarkPat;

impl BytePred for ExpMarkPat {
    open spec fn holds(b: u8) -> bool {
        b == 101 || b == 69
    }

    fn test(b: u8) -> (r: bool) {
        b == 101 || b == 69
    }
}

/// Matches a dot.
pub struct DotPat;

impl BytePred for DotPat {
    open spec fn holds(b: u8) -> bool {
        b == 46
    }

    fn test(b: u8) -> (r: bool) {
        b == 46
    }
}

/// The bytes of `"defn"`.
pub open spec fn tok_defn() -> Seq<u8> {
    seq![100u8, 101u8, 102u8, 110u8]
}

/// The bytes of `"f"`.
pub open spec fn tok_f() -> Seq<u8> {
    seq![102u8]
}

/// The bytes of `":"`.
pub open spec fn tok_colon() -> Seq<u8> {
    seq![58u8]
}

/// The bytes of `"#"`.
pub open spec fn tok_hash() -> Seq<u8> {
    seq![35u8]
}

/// The bytes of `"return"`.
pub open spec fn tok_return() -> Seq<u8> {
    seq![114u8, 101u8, 116u8, 117u8, 114u8, 110u8]
}

/// The bytes of `"write"`.
pub open spec fn tok_write() -> Seq<u8> {
    seq![119u8, 114u8, 105u8, 116u8, 101u8]
}

/// The bytes of `"jump"`.
pub open spec fn tok_jump() -> Seq<u8> {
    seq![106u8, 117u8, 109u8, 112u8]
}

/// The bytes of `"cond"`.
pub open spec fn tok_cond() -> Seq<u8> {
    seq![99u8, 111u8, 110u8, 100u8]
}

/// The bytes of `"x"`.
pub open spec fn tok_x() -> Seq<u8> {
    seq![120u8]
}

/// The bytes of `":="`.
pub open spec fn tok_assign() -> Seq<u8> {
    seq![58u8, 61u8]
}

/// The bytes of `"k"`.
pub open spec fn tok_k() -> Seq<u8> {
    seq![107u8]
}

/// The bytes of `"("`.
pub open spec fn tok_lparen() -> Seq<u8> {
    seq![40u8]
}

/// The bytes of `".."`.
pub open spec fn tok_dotdot() -> Seq<u8> {
    seq![46u8, 46u8]
}

/// The bytes of `"read"`.
pub open spec fn tok_read() -> Seq<u8> {
    seq![114u8, 101u8, 97u8, 100u8]
}

/// The bytes of `")"`.
pub open spec fn tok_rparen() -> Seq<u8> {
    seq![41u8]
}

/// The bytes of `"["`.
pub open spec fn tok_lbrack() -> Seq<u8> {
    seq![91u8]
}

/// The bytes of `"]"`.
pub open spec fn tok_rbrack() -> Seq<u8> {
    seq![93u8]
}

/// The bytes of `"true"`.
pub open spec fn tok_true() -> Seq<u8> {
    seq![116u8, 114u8, 117u8, 101u8]
}

/// The bytes of `"false"`.
pub open spec fn tok_false() -> Seq<u8> {
    seq![102u8, 97u8, 108u8, 115u8, 101u8]
}

/// The bytes of `"a constant"`.
pub open spec fn pmsg_a_constant() -> Seq<u8> {
    seq![97u8, 32u8, 99u8, 111u8, 110u8, 115u8, 116u8, 97u8, 110u8, 116u8]
}

/// The bytes of `"to be inside a definition"`.
pub open spec fn pmsg_inside_defn() -> Seq<u8> {
    seq![116u8, 111u8, 32u8, 98u8, 101u8, 32u8, 105u8, 110u8, 115u8, 105u8, 100u8, 101u8, 32u8, 97u8, 32u8, 100u8, 101u8, 102u8, 105u8, 110u8, 105u8, 116u8, 105u8, 111u8, 110u8]
}

/// The bytes of `"function id f"`.
pub open spec fn pmsg_fn_id() -> Seq<u8> {
    seq![102u8, 117u8, 110u8, 99u8, 116u8, 105u8, 111u8, 110u8, 32u8, 105u8, 100u8, 32u8, 102u8]
}

/// The bytes of `", got f"`.
pub open spec fn pmsg_got_f() -> Seq<u8> {
    seq![44u8, 32u8, 103u8, 111u8, 116u8, 32u8, 102u8]
}


/// Any byte of `s` is a dot.
pub open spec fn has_dot(s: Seq<u8>) -> bool {
    exists|i: int| 0 <= i < s.len() && #[trigger] s[i] == 46
}

/// A decimal exponent after its marker: an optional sign, then one or
/// more digits.
pub open spec fn exp_digits_ok(e: Seq<u8>) -> bool {
    if e.len() > 0 && (e[0] == 43 || e[0] == 45) {
        e.len() > 1 && crate::dec::all_digits(e.skip(1))
    } else {
        e.len() > 0 && crate::dec::all_digits(e)
    }
}

/// A decimal mantissa: digits with at most one dot, and at least one
/// digit somewhere.
pub open spec fn mantissa_ok(m: Seq<u8>) -> bool {
    let di = scan_len::<DotPat>(m);
    if di >= m.len() {
        m.len() > 0 && crate::dec::all_digits(m)
    } else {
        let before = m.take(di);
        let after = m.skip(di + 1);
        crate::dec::all_digits(before) && crate::dec::all_digits(after) && (before.len() > 0
            || after.len() > 0)
    }
}

/// The decimal float grammar: an optional sign, a mantissa, and an
/// optional exponent.  This is the shape the standard library's float
/// parser accepts for finite decimal literals; in particular it shuts out
/// hex-float forms and exponents without digits, which the outside parser
/// would otherwise take.
pub open spec fn float_token_shape(s: Seq<u8>) -> bool {
    if s.len() == 0 {
        false
    } else {
        let t = if s[0] == 43 || s[0] == 45 {
            s.skip(1)
        } else {
            s
        };
        let ei = scan_len::<ExpMarkPat>(t);
        mantissa_ok(t.take(ei)) && (ei >= t.len() || exp_digits_ok(t.skip(ei + 1)))
    }
}

/// The meaning of one constant token: `true`, `false`, a float (dot
/// mandatory, decimal shape, shorter than the parser's 31-bit limit), a
/// function number such as `f0`, or an integer; anything else means
/// nothing.
pub open spec fn sconst(text: Seq<u8>) -> Option<ValM> {
    if text == tok_true() {
        Some(ValM::B(true))
    } else if text == tok_false() {
        Some(ValM::B(false))
    } else if has_dot(text) {
        if text.len() < 0x8000_0000 && float_token_shape(text) {
            match float_parse_bits(text) {
                Some(bits) => Some(ValM::F(bits)),
                None => None,
            }
        } else {
            None
        }
    } else if text.len() > 0 && text[0] == 102 {
        match int_of_dec(text.skip(1), false) {
            Some(v) => if v <= u16::MAX {
                Some(ValM::C(v))
            } else {
                None
            },
            None => None,
        }
    } else {
        match int_of_dec(text, true) {
            Some(v) => if i64::MIN <= v <= i64::MAX {
                Some(ValM::I(v))
            } else {
                None
            },
            None => None,
        }
    }
}

/// [`scan_len`] stays within the text.
pub proof fn lemma_scan_len_bounds<P: BytePred>(s: Seq<u8>)
    ensures
        0 <= scan_len::<P>(s) <= s.len(),
    decreases s.len(),
{
    if s.len() > 0 && !P::holds(s[0]) {
        lemma_scan_len_bounds::<P>(s.skip(1));
    }
}

/// The meaning of a constant list: whitespace-separated constant tokens
/// up to the end of the line, appended to `acc`.  A token that is not a
/// constant fails at the position just past it.
pub open spec fn sconsts(b: BufM, acc: Seq<ValM>) -> Result<(BufM, Seq<ValM>), ParseErrorM>
    decreases b.text.len(),
    via sconsts_dec
{
    if b.text.len() == 0 {
        Ok((b, acc))
    } else {
        let t = btrim_left(b);
        let k = scan_len::<WsPat>(t.text);
        let tok = t.text.take(k);
        let nb = badvance(t, k);
        match sconst(tok) {
            None => Err(berr(nb, pmsg_a_constant())),
            Some(v) => if nb.text.len() < b.text.len() {
                sconsts(nb, acc.push(v))
            } else {
                // Unreachable: a non-empty trimmed line yields a non-empty
                // token, so the cursor always advances.
                Err(berr(nb, pmsg_a_constant()))
            },
        }
    }
}

#[via_fn]
proof fn sconsts_dec(b: BufM, acc: Seq<ValM>) {
    if b.text.len() > 0 {
        lemma_scan_len_bounds::<WsPat>(btrim_left(b).text);
    }
}

/// The register (or pool-index) form `x<N>`: optional whitespace, the
/// prefix, then digits.
pub open spec fn saddr(b: BufM, prefix: Seq<u8>) -> Result<(BufM, int), ParseErrorM> {
    match btoken(btrim_left(b), prefix) {
        Ok(b2) => bparse_til::<NonDigitPat>(b2, false, 0, u8::MAX as int),
        Err(e) => Err(e),
    }
}

/// The instruction named by a binary-operator token.
pub open spec fn op_instr(m: Seq<u8>, a: u8, b: u8, c: u8) -> Instr {
    if m.len() == 2 {
        if m[0] == 61 {
            Instr::Eq(a, b, c)
        } else if m[0] == 33 {
            Instr::Neq(a, b, c)
        } else if m[0] == 60 {
            Instr::Leq(a, b, c)
        } else {
            Instr::Geq(a, b, c)
        }
    } else {
        if m[0] == 43 {
            Instr::Add(a, b, c)
        } else if m[0] == 45 {
            Instr::Sub(a, b, c)
        } else if m[0] == 42 {
            Instr::Mul(a, b, c)
        } else if m[0] == 47 {
            Instr::Div(a, b, c)
        } else if m[0] == 37 {
            Instr::Rem(a, b, c)
        } else if m[0] == 38 {
            Instr::And(a, b, c)
        } else if m[0] == 124 {
            Instr::Orr(a, b, c)
        } else if m[0] == 94 {
            Instr::Xor(a, b, c)
        } else if m[0] == 60 {
            Instr::Lt(a, b, c)
        } else {
            Instr::Gt(a, b, c)
        }
    }
}

/// The operator tokens tried, in priority order, on the right-hand side
/// of an assignment line.
pub open spec fn op_tokens() -> Seq<Seq<u8>> {
    seq![
        seq![43u8],
        seq![45u8],
        seq![42u8],
        seq![47u8],
        seq![37u8],
        seq![38u8],
        seq![124u8],
        seq![94u8],
        seq![61u8, 61u8],
        seq![33u8, 61u8],
        seq![60u8, 61u8],
        seq![62u8, 61u8],
        seq![60u8],
        seq![62u8],
        seq![40u8],
        seq![91u8],
    ]
}

/// Appends `ins` to the last function's code.
pub open spec fn push_ins(defns: Seq<DefnM>, ins: Instr) -> Seq<DefnM> {
    let li = defns.len() - 1;
    let d = defns[li];
    defns.update(li, DefnM { code: d.code.push(ins), ..d })
}

/// The error for a header whose function number is not the next index.
pub open spec fn msg_fn_id(expect: int, got: int) -> Seq<u8> {
    pmsg_fn_id() + dec_of_nat(expect) + pmsg_got_f() + dec_of_nat(got)
}

/// Builds [`tok_defn`].
fn mk_defn() -> (r: Vec<u8>)
    ensures
        r@ == tok_defn(),
{
    let mut v: Vec<u8> = Vec::new();
    v.push(100);
    v.push(101);
    v.push(102);
    v.push(110);
    proof {
        assert(v@ =~= tok_defn());
    }
    v
}

/// Builds [`tok_f`].
fn mk_f() -> (r: Vec<u8>)
    ensures
        r@ == tok_f(),
{
    let mut v: Vec<u8> = Vec::new();
    v.push(102);
    proof {
        assert(v@ =~= tok_f());
    }
    v
}

/// Builds [`tok_colon`].
fn mk_colon() -> (r: Vec<u8>)
    ensures
        r@ == tok_colon(),
{
    let mut v: Vec<u8> = Vec::new();
    v.push(58);
    proof {
        assert(v@ =~= tok_colon());
    }
    v
}

/// Builds [`tok_hash`].
fn mk_hash() -> (r: Vec<u8>)
    ensures
        r@ == tok_hash(),
{
    let mut v: Vec<u8> = Vec::new();
    v.push(35);
    proof {
        assert(v@ =~= tok_hash());
    }
    v
}

/// Builds [`tok_return`].
fn mk_return() -> (r: Vec<u8>)
    ensures
        r@ == tok_return(),
{
    let mut v: Vec<u8> = Vec::new();
    v.push(114);
    v.push(101);
    v.push(116);
    v.push(117);
    v.push(114);
    v.push(110);
    proof {
        assert(v@ =~= tok_return());
    }
    v
}

/// Builds [`tok_write`].
fn mk_write() -> (r: Vec<u8>)
    ensures
        r@ == tok_write(),
{
    let mut v: Vec<u8> = Vec::new();
    v.push(119);
    v.push(114);
    v.push(105);
    v.push(116);
    v.push(101);
    proof {
        assert(v@ =~= tok_write());
    }
    v
}

/// Builds [`tok_jump`].
fn mk_jump() -> (r: Vec<u8>)
    ensures
        r@ == tok_jump(),
{
    let mut v: Vec<u8> = Vec::new();
    v.push(106);
    v.push(117);
    v.push(109);
    v.push(112);
    proof {
        assert(v@ =~= tok_jump());
    }
    v
}

/// Builds [`tok_cond`].
fn mk_cond() -> (r: Vec<u8>)
    ensures
        r@ == tok_cond(),
{
    let mut v: Vec<u8> = Vec::new();
    v.push(99);
    v.push(111);
    v.push(110);
    v.push(100);
    proof {
        assert(v@ =~= tok_cond());
    }
    v
}

/// Builds [`tok_x`].
fn mk_x() -> (r: Vec<u8>)
    ensures
        r@ == tok_x(),
{
    let mut v: Vec<u8> = Vec::new();
    v.push(120);
    proof {
        assert(v@ =~= tok_x());
    }
    v
}

/// Builds [`tok_assign`].
fn mk_assign() -> (r: Vec<u8>)
    ensures
        r@ == tok_assign(),
{
    let mut v: Vec<u8> = Vec::new();
    v.push(58);
    v.push(61);
    proof {
        assert(v@ =~= tok_assign());
    }
    v
}

/// Builds [`tok_k`].
fn mk_k() -> (r: Vec<u8>)
    ensures
        r@ == tok_k(),
{
    let mut v: Vec<u8> = Vec::new();
    v.push(107);
    proof {
        assert(v@ =~= tok_k());
    }
    v
}

/// Builds [`tok_lparen`].
fn mk_lparen() -> (r: Vec<u8>)
    ensures
        r@ == tok_lparen(),
{
    let mut v: Vec<u8> = Vec::new();
    v.push(40);
    proof {
        assert(v@ =~= tok_lparen());
    }
    v
}

/// Builds [`tok_dotdot`].
fn mk_dotdot() -> (r: Vec<u8>)
    ensures
        r@ == tok_dotdot(),
{
    let mut v: Vec<u8> = Vec::new();
    v.push(46);
    v.push(46);
    proof {
        assert(v@ =~= tok_dotdot());
    }
    v
}

/// Builds [`tok_read`].
fn mk_read() -> (r: Vec<u8>)
    ensures
        r@ == tok_read(),
{
    let mut v: Vec<u8> = Vec::new();
    v.push(114);
    v.push(101);
    v.push(97);
    v.push(100);
    proof {
        assert(v@ =~= tok_read());
    }
    v
}

/// Builds [`tok_rparen`].
fn mk_rparen() -> (r: Vec<u8>)
    ensures
        r@ == tok_rparen(),
{
    let mut v: Vec<u8> = Vec::new();
    v.push(41);
    proof {
        assert(v@ =~= tok_rparen());
    }
    v
}

/// Builds [`tok_lbrack`].
fn mk_lbrack() -> (r: Vec<u8>)
    ensures
        r@ == tok_lbrack(),
{
    let mut v: Vec<u8> = Vec::new();
    v.push(91);
    proof {
        assert(v@ =~= tok_lbrack());
    }
    v
}

/// Builds [`tok_rbrack`].
fn mk_rbrack() -> (r: Vec<u8>)
    ensures
        r@ == tok_rbrack(),
{
    let mut v: Vec<u8> = Vec::new();
    v.push(93);
    proof {
        assert(v@ =~= tok_rbrack());
    }
    v
}

/// Builds [`tok_true`].
fn mk_true() -> (r: Vec<u8>)
    ensures
        r@ == tok_true(),
{
    let mut v: Vec<u8> = Vec::new();
    v.push(116);
    v.push(114);
    v.push(117);
    v.push(101);
    proof {
        assert(v@ =~= tok_true());
    }
    v
}

/// Builds [`tok_false`].
fn mk_false() -> (r: Vec<u8>)
    ensures
        r@ == tok_false(),
{
    let mut v: Vec<u8> = Vec::new();
    v.push(102);
    v.push(97);
    v.push(108);
    v.push(115);
    v.push(101);
    proof {
        assert(v@ =~= tok_false());
    }
    v
}

/// Builds [`pmsg_a_constant`].
fn mk_a_constant() -> (r: Vec<u8>)
    ensures
        r@ == pmsg_a_constant(),
{
    let mut v: Vec<u8> = Vec::new();
    v.push(97);
    v.push(32);
    v.push(99);
    v.push(111);
    v.push(110);
    v.push(115);
    v.push(116);
    v.push(97);
    v.push(110);
    v.push(116);
    proof {
        assert(v@ =~= pmsg_a_constant());
    }
    v
}

/// Builds [`pmsg_inside_defn`].
fn mk_inside_defn() -> (r: Vec<u8>)
    ensures
        r@ == pmsg_inside_defn(),
{
    let mut v: Vec<u8> = Vec::new();
    v.push(116);
    v.push(111);
    v.push(32);
    v.push(98);
    v.push(101);
    v.push(32);
    v.push(105);
    v.push(110);
    v.push(115);
    v.push(105);
    v.push(100);
    v.push(101);
    v.push(32);
    v.push(97);
    v.push(32);
    v.push(100);
    v.push(101);
    v.push(102);
    v.push(105);
    v.push(110);
    v.push(105);
    v.push(116);
    v.push(105);
    v.push(111);
    v.push(110);
    proof {
        assert(v@ =~= pmsg_inside_defn());
    }
    v
}

/// Builds [`pmsg_fn_id`].
fn mk_fn_id() -> (r: Vec<u8>)
    ensures
        r@ == pmsg_fn_id(),
{
    let mut v: Vec<u8> = Vec::new();
    v.push(102);
    v.push(117);
    v.push(110);
    v.push(99);
    v.push(116);
    v.push(105);
    v.push(111);
    v.push(110);
    v.push(32);
    v.push(105);
    v.push(100);
    v.push(32);
    v.push(102);
    proof {
        assert(v@ =~= pmsg_fn_id());
    }
    v
}

/// Builds [`pmsg_got_f`].
fn mk_got_f() -> (r: Vec<u8>)
    ensures
        r@ == pmsg_got_f(),
{
    let mut v: Vec<u8> = Vec::new();
    v.push(44);
    v.push(32);
    v.push(103);
    v.push(111);
    v.push(116);
    v.push(32);
    v.push(102);
    proof {
        assert(v@ =~= pmsg_got_f());
    }
    v
}


/// Builds the operator token `"+"`.
fn mk_op_plus() -> (r: Vec<u8>)
    ensures
        r@ == seq![43u8],
{
    let mut v: Vec<u8> = Vec::new();
    v.push(43);
    proof {
        assert(v@ =~= seq![43u8]);
    }
    v
}

/// Builds the operator token `"-"`.
fn mk_op_minus() -> (r: Vec<u8>)
    ensures
        r@ == seq![45u8],
{
    let mut v: Vec<u8> = Vec::new();
    v.push(45);
    proof {
        assert(v@ =~= seq![45u8]);
    }
    v
}

/// Builds the operator token `"*"`.
fn mk_op_star() -> (r: Vec<u8>)
    ensures
        r@ == seq![42u8],
{
    let mut v: Vec<u8> = Vec::new();
    v.push(42);
    proof {
        assert(v@ =~= seq![42u8]);
    }
    v
}

/// Builds the operator token `"/"`.
fn mk_op_slash() -> (r: Vec<u8>)
    ensures
        r@ == seq![47u8],
{
    let mut v: Vec<u8> = Vec::new();
    v.push(47);
    proof {
        assert(v@ =~= seq![47u8]);
    }
    v
}

/// Builds the operator token `"%"`.
fn mk_op_percent() -> (r: Vec<u8>)
    ensures
        r@ == seq![37u8],
{
    let mut v: Vec<u8> = Vec::new();
    v.push(37);
    proof {
        assert(v@ =~= seq![37u8]);
    }
    v
}

/// Builds the operator token `"&"`.
fn mk_op_amp() -> (r: Vec<u8>)
    ensures
        r@ == seq![38u8],
{
    let mut v: Vec<u8> = Vec::new();
    v.push(38);
    proof {
        assert(v@ =~= seq![38u8]);
    }
    v
}

/// Builds the operator token `"|"`.
fn mk_op_pipe() -> (r: Vec<u8>)
    ensures
        r@ == seq![124u8],
{
    let mut v: Vec<u8> = Vec::new();
    v.push(124);
    proof {
        assert(v@ =~= seq![124u8]);
    }
    v
}

/// Builds the operator token `"^"`.
fn mk_op_caret() -> (r: Vec<u8>)
    ensures
        r@ == seq![94u8],
{
    let mut v: Vec<u8> = Vec::new();
    v.push(94);
    proof {
        assert(v@ =~= seq![94u8]);
    }
    v
}

/// Builds the operator token `"=="`.
fn mk_op_eqeq() -> (r: Vec<u8>)
    ensures
        r@ == seq![61u8, 61u8],
{
    let mut v: Vec<u8> = Vec::new();
    v.push(61);
    v.push(61);
    proof {
        assert(v@ =~= seq![61u8, 61u8]);
    }
    v
}

/// Builds the operator token `"!="`.
fn mk_op_noteq() -> (r: Vec<u8>)
    ensures
        r@ == seq![33u8, 61u8],
{
    let mut v: Vec<u8> = Vec::new();
    v.push(33);
    v.push(61);
    proof {
        assert(v@ =~= seq![33u8, 61u8]);
    }
    v
}

/// Builds the operator token `"<="`.
fn mk_op_leq() -> (r: Vec<u8>)
    ensures
        r@ == seq![60u8, 61u8],
{
    let mut v: Vec<u8> = Vec::new();
    v.push(60);
    v.push(61);
    proof {
        assert(v@ =~= seq![60u8, 61u8]);
    }
    v
}

/// Builds the operator token `">="`.
fn mk_op_geq() -> (r: Vec<u8>)
    ensures
        r@ == seq![62u8, 61u8],
{
    let mut v: Vec<u8> = Vec::new();
    v.push(62);
    v.push(61);
    proof {
        assert(v@ =~= seq![62u8, 61u8]);
    }
    v
}

/// Builds the operator token `"<"`.
fn mk_op_lt() -> (r: Vec<u8>)
    ensures
        r@ == seq![60u8],
{
    let mut v: Vec<u8> = Vec::new();
    v.push(60);
    proof {
        assert(v@ =~= seq![60u8]);
    }
    v
}

/// Builds the operator token `">"`.
fn mk_op_gt() -> (r: Vec<u8>)
    ensures
        r@ == seq![62u8],
{
    let mut v: Vec<u8> = Vec::new();
    v.push(62);
    proof {
        assert(v@ =~= seq![62u8]);
    }
    v
}

/// Whether two byte strings are equal.
fn bytes_eq(a: &[u8], b: &[u8]) -> (r: bool)
    ensures
        r == (a@ == b@),
{
    let n = a.len();
    if n != b.len() {
        proof {
            assert(a@ != b@);
        }
        return false;
    }
    let mut i: usize = 0;
    while i < n
        invariant
            0 <= i <= n,
            n == a@.len() && n == b@.len(),
            forall|j: int| 0 <= j < i ==> a@[j] == b@[j],
        decreases n - i,
    {
        if a[i] != b[i] {
            return false;
        }
        i += 1;
    }
    proof {
        assert(a@ =~= b@);
    }
    true
}

/// Whether the text holds a dot.
pub fn find_dot(s: &[u8]) -> (r: bool)
    ensures
        r == has_dot(s@),
{
    let n = s.len();
    let mut i: usize = 0;
    while i < n
        invariant
            0 <= i <= n,
            n == s@.len(),
            forall|j: int| 0 <= j < i ==> s@[j] != 46,
        decreases n - i,
    {
        if s[i] == 46 {
            return true;
        }
        i += 1;
    }
    false
}

/// Whether `s[lo..hi]` is all digits.
fn all_digits_range(s: &[u8], lo: usize, hi: usize) -> (r: bool)
    requires
        lo <= hi <= s@.len(),
    ensures
        r == crate::dec::all_digits(s@.subrange(lo as int, hi as int)),
{
    let ghost sub = s@.subrange(lo as int, hi as int);
    let mut i = lo;
    while i < hi
        invariant
            lo <= i <= hi <= s@.len(),
            sub == s@.subrange(lo as int, hi as int),
            forall|j: int| lo <= j < i ==> crate::dec::is_digit(#[trigger] s@[j]),
        decreases hi - i,
    {
        if s[i] < 48 || s[i] > 57 {
            proof {
                assert(sub[i - lo] == s@[i as int]);
            }
            return false;
        }
        i += 1;
    }
    proof {
        assert forall|j: int| 0 <= j < sub.len() implies crate::dec::is_digit(
            #[trigger] sub[j],
        ) by {
            assert(sub[j] == s@[lo + j]);
        }
    }
    true
}

/// Decides [`float_token_shape`].
#[verifier::loop_isolation(false)]
#[verifier::rlimit(60)]
fn check_float_token(s: &[u8]) -> (r: bool)
    ensures
        r == float_token_shape(s@),
{
    let n = s.len();
    if n == 0 {
        return false;
    }
    let start: usize = if s[0] == 43 || s[0] == 45 {
        1
    } else {
        0
    };
    let ghost t = s@.skip(start as int);
    proof {
        if start == 0 {
            assert(t =~= s@);
        }
    }
    let mut ei = start;
    while ei < n && !(s[ei] == 101 || s[ei] == 69)
        invariant
            start <= ei <= n,
            forall|j: int| start <= j < ei ==> !(s@[j] == 101 || #[trigger] s@[j] == 69),
        decreases n - ei,
    {
        ei += 1;
    }
    proof {
        assert forall|q: int| 0 <= q < ei - start implies !ExpMarkPat::holds(
            #[trigger] t[q],
        ) by {
            assert(t[q] == s@[start + q]);
        }
        if ei < n {
            assert(ExpMarkPat::holds(t[ei - start]));
        }
        lemma_scan_len_at::<ExpMarkPat>(t, (ei - start) as int);
    }
    let ghost mant = t.take((ei - start) as int);
    let mut di = start;
    while di < ei && s[di] != 46
        invariant
            start <= di <= ei,
            forall|j: int| start <= j < di ==> #[trigger] s@[j] != 46,
        decreases ei - di,
    {
        di += 1;
    }
    proof {
        assert(mant.len() == ei - start);
        assert forall|q: int| 0 <= q < di - start implies !DotPat::holds(#[trigger] mant[q]) by {
            assert(mant[q] == s@[start + q]);
        }
        if di < ei {
            assert(mant[di - start] == s@[di as int]);
            assert(DotPat::holds(mant[di - start]));
        }
        lemma_scan_len_at::<DotPat>(mant, (di - start) as int);
    }
    let mant_ok: bool = if di >= ei {
        proof {
            assert(mant =~= s@.subrange(start as int, ei as int));
        }
        ei > start && all_digits_range(s, start, ei)
    } else {
        proof {
            assert(mant.take((di - start) as int) =~= s@.subrange(start as int, di as int));
            assert(mant.skip((di - start) as int + 1) =~= s@.subrange(di + 1 as int, ei as int));
        }
        let before_ok = all_digits_range(s, start, di);
        let after_ok = all_digits_range(s, di + 1, ei);
        before_ok && after_ok && (di > start || di + 1 < ei)
    };
    let exp_ok: bool = if ei >= n {
        true
    } else {
        let ghost e = t.skip((ei - start) as int + 1);
        proof {
            assert(e =~= s@.subrange(ei + 1 as int, n as int));
        }
        let es = ei + 1;
        let es2: usize = if es < n && (s[es] == 43 || s[es] == 45) {
            es + 1
        } else {
            es
        };
        proof {
            if es < n {
                assert(e[0] == s@[es as int]);
                assert(e.skip(1) =~= s@.subrange(es + 1 as int, n as int));
            }
        }
        if es2 < n {
            all_digits_range(s, es2, n)
        } else {
            false
        }
    };
    mant_ok && exp_ok
}

/// Parses one constant token: booleans, floats (`.` mandatory), function
/// numbers such as `f0`, and integers.
pub fn parse_const(text: &[u8]) -> (r: Result<Val, ()>)
    ensures
        (match r {
            Ok(v) => sconst(text@) == Some(v.deep_view()),
            Err(()) => sconst(text@) is None,
        }),
{
    let t_true = mk_true();
    let t_false = mk_false();
    if bytes_eq(text, t_true.as_slice()) {
        Ok(Val::B(true))
    } else if bytes_eq(text, t_false.as_slice()) {
        Ok(Val::B(false))
    } else if find_dot(text) {
        if text.len() < 0x8000_0000 && check_float_token(text) {
            match fp64_bits_parse(text) {
                Some(bits) => Ok(Val::F(bits)),
                None => Err(()),
            }
        } else {
            Err(())
        }
    } else if text.len() > 0 && text[0] == 102 {
        let rest = slice_subrange(text, 1, text.len());
        proof {
            assert(rest@ =~= text@.skip(1));
        }
        match parse_dec_u64(rest) {
            Some(v) if v <= u16::MAX as u64 => Ok(Val::C(v as u16)),
            _ => Err(()),
        }
    } else {
        match parse_dec_i64(text) {
            Some(v) => Ok(Val::I(v)),
            None => Err(()),
        }
    }
}

/// Parses the whitespace-separated constants of a `defn` header, to the
/// end of the line.
#[verifier::loop_isolation(false)]
pub fn parse_constants<'a>(buf: Buffer<'a>) -> (r: Result<(Buffer<'a>, Vec<Val>), ParseError>)
    requires
        buf_wf(buf@),
    ensures
        (match r {
            Ok((b, ks)) => sconsts(buf@, Seq::empty()) == Ok::<(BufM, Seq<ValM>), ParseErrorM>(
                (b@, ks.deep_view()),
            ) && buf_wf(b@),
            Err(e) => sconsts(buf@, Seq::empty()) == Err::<(BufM, Seq<ValM>), ParseErrorM>(
                e.deep_view(),
            ),
        }),
{
    let mut cur = buf;
    let mut consts: Vec<Val> = Vec::new();
    let ghost target = sconsts(buf@, Seq::empty());
    proof {
        assert(consts.deep_view() =~= Seq::<ValM>::empty());
    }
    loop
        invariant
            buf_wf(cur@),
            sconsts(cur@, consts.deep_view()) == target,
        decreases cur@.text.len(),
    {
        if cur.text.len() == 0 {
            proof {
                assert(sconsts(cur@, consts.deep_view()) == Ok::<(BufM, Seq<ValM>), ParseErrorM>(
                    (cur@, consts.deep_view()),
                ));
            }
            return Ok((cur, consts));
        }
        let trimmed = cur.trim_left();
        let (nb, tok) = match trimmed.til(WsPat) {
            Ok(x) => x,
            Err(_) => {
                proof {
                    assert(false);
                }
                unreached()
            },
        };
        proof {
            lemma_scan_len_bounds::<WsPat>(trimmed@.text);
        }
        match parse_const(tok) {
            Ok(v) => {
                let ghost pre = consts.deep_view();
                consts.push(v);
                proof {
                    assert(consts.deep_view() =~= pre.push(v.deep_view()));
                    crate::parse_util::lemma_ws_len_bounds(cur@.text);
                    if tok@.len() == 0 {
                        assert(tok@.len() != tok_true().len());
                        assert(tok@.len() != tok_false().len());
                        assert(!has_dot(tok@));
                        assert(sconst(tok@) is None);
                        assert(false);
                    }
                    assert(scan_len::<WsPat>(trimmed@.text) >= 1);
                    assert(nb@.text.len() < cur@.text.len());
                }
                cur = nb;
            },
            Err(()) => {
                proof {
                    assert(sconsts(cur@, consts.deep_view()) == Err::<
                        (BufM, Seq<ValM>),
                        ParseErrorM,
                    >(berr(nb@, pmsg_a_constant())));
                }
                return Err(nb.expected(mk_a_constant()));
            },
        }
    }
}


/// A line's bytes with one trailing carriage return removed.
pub open spec fn strip_cr(t: Seq<u8>) -> Seq<u8> {
    if t.len() > 0 && t.last() == 13 {
        t.drop_last()
    } else {
        t
    }
}

/// The lines of the text: split at each line feed, one trailing carriage
/// return stripped per line.  Text without a final line feed still ends a
/// line; a final line feed yields one last empty line (which the grammar
/// skips).
pub open spec fn split_lines(s: Seq<u8>) -> Seq<Seq<u8>>
    decreases s.len(),
    via split_lines_dec
{
    let i = scan_len::<NlPat>(s);
    let line = strip_cr(s.take(i));
    if i >= s.len() {
        seq![line]
    } else {
        seq![line] + split_lines(s.skip(i + 1))
    }
}

#[via_fn]
proof fn split_lines_dec(s: Seq<u8>) {
    lemma_scan_len_bounds::<NlPat>(s);
}

/// The `defn` header line: the function number must be the next index;
/// then the local count, a colon, and the constant pool.
pub open spec fn sheader(defns: Seq<DefnM>, b: BufM) -> Result<Seq<DefnM>, ParseErrorM> {
    match btoken(b, tok_defn()) {
        Err(e) => Err(e),
        Ok(b1) => match bspace(b1) {
            Err(e) => Err(e),
            Ok(b2) => match btoken(b2, tok_f()) {
                Err(e) => Err(e),
                Ok(b3) => match bparse_til::<WsPat>(b3, false, 0, usize::MAX as int) {
                    Err(e) => Err(e),
                    Ok((b4, fnum)) => if fnum != defns.len() {
                        Err(berr(b4, msg_fn_id(defns.len() as int, fnum)))
                    } else {
                        match bparse_til::<WsPat>(btrim_left(b4), false, 0, u8::MAX as int) {
                            Err(e) => Err(e),
                            Ok((b5, lc)) => match btoken(btrim_left(b5), tok_colon()) {
                                Err(e) => Err(e),
                                Ok(b6) => match sconsts(btrim_left(b6), Seq::empty()) {
                                    Err(e) => Err(e),
                                    Ok((b7, ks)) => match bend(b7) {
                                        Err(e) => Err(e),
                                        Ok(_) => Ok(
                                            defns.push(
                                                DefnM {
                                                    consts: ks,
                                                    code: Seq::empty(),
                                                    local_count: lc as u8,
                                                },
                                            ),
                                        ),
                                    },
                                },
                            },
                        }
                    },
                },
            },
        },
    }
}

/// The right-hand side of an assignment after the operator token `m`.
pub open spec fn srhs_op(
    defns: Seq<DefnM>,
    b: BufM,
    m: Seq<u8>,
    dest: u8,
    left: u8,
) -> Result<Seq<DefnM>, ParseErrorM> {
    if m =~= seq![40u8] {
        match saddr(b, tok_x()) {
            Err(e) => Err(e),
            Ok((b1, c)) => match btoken(btrim_left(b1), tok_rparen()) {
                Err(e) => Err(e),
                Ok(b2) => match bend(b2) {
                    Err(e) => Err(e),
                    Ok(_) => Ok(push_ins(defns, Instr::Call(dest, left, c as u8))),
                },
            },
        }
    } else if m =~= seq![91u8] {
        match saddr(b, tok_x()) {
            Err(e) => Err(e),
            Ok((b1, c)) => match btoken(btrim_left(b1), tok_rbrack()) {
                Err(e) => Err(e),
                Ok(b2) => match bend(b2) {
                    Err(e) => Err(e),
                    Ok(_) => Ok(push_ins(defns, Instr::IdxTup(dest, left, c as u8))),
                },
            },
        }
    } else {
        match saddr(b, tok_x()) {
            Err(e) => Err(e),
            Ok((b1, c)) => match bend(b1) {
                Err(e) => Err(e),
                Ok(_) => Ok(push_ins(defns, op_instr(m, dest, left, c as u8))),
            },
        }
    }
}

/// An assignment line `x<N> := rhs`.
pub open spec fn sassign(defns: Seq<DefnM>, b: BufM) -> Result<Seq<DefnM>, ParseErrorM> {
    match saddr(b, tok_x()) {
        Err(e) => Err(e),
        Ok((b1, dest)) => match btoken(btrim_left(b1), tok_assign()) {
            Err(e) => Err(e),
            Ok(b2) => {
                let b3 = btrim_left(b2);
                if is_prefix(tok_k(), b3.text) {
                    match saddr(b3, tok_k()) {
                        Err(e) => Err(e),
                        Ok((b4, k)) => match bend(b4) {
                            Err(e) => Err(e),
                            Ok(_) => Ok(push_ins(defns, Instr::Const(dest as u8, k as u8))),
                        },
                    }
                } else if is_prefix(tok_lparen(), b3.text) {
                    match btoken(btrim_left(b3), tok_lparen()) {
                        Err(e) => Err(e),
                        Ok(b4) => match saddr(b4, tok_x()) {
                            Err(e) => Err(e),
                            Ok((b5, s)) => match btoken(btrim_left(b5), tok_dotdot()) {
                                Err(e) => Err(e),
                                Ok(b6) => match saddr(b6, tok_x()) {
                                    Err(e) => Err(e),
                                    Ok((b7, l)) => match btoken(btrim_left(b7), tok_rparen()) {
                                        Err(e) => Err(e),
                                        Ok(b8) => match bend(b8) {
                                            Err(e) => Err(e),
                                            Ok(_) => Ok(
                                                push_ins(
                                                    defns,
                                                    Instr::MkTup(dest as u8, s as u8, l as u8),
                                                ),
                                            ),
                                        },
                                    },
                                },
                            },
                        },
                    }
                } else if is_prefix(tok_read(), b3.text) {
                    match btoken(b3, tok_read()) {
                        Err(e) => Err(e),
                        Ok(b4) => match bend(b4) {
                            Err(e) => Err(e),
                            Ok(_) => Ok(push_ins(defns, Instr::Read(dest as u8))),
                        },
                    }
                } else {
                    match saddr(b3, tok_x()) {
                        Err(e) => Err(e),
                        Ok((b4, left)) => {
                            let b5 = btrim_left(b4);
                            if b5.text.len() == 0 {
                                Ok(push_ins(defns, Instr::Copy(dest as u8, left as u8)))
                            } else {
                                match bfirst_token_of(b5, op_tokens()) {
                                    Err(e) => Err(e),
                                    Ok((b6, m)) => srhs_op(defns, b6, m, dest as u8, left as u8),
                                }
                            }
                        },
                    }
                }
            },
        },
    }
}

/// A non-header, non-comment line: one instruction appended to the last
/// function; outside any function it is an error.
pub open spec fn sinstr_line(defns: Seq<DefnM>, b: BufM) -> Result<Seq<DefnM>, ParseErrorM> {
    if defns.len() == 0 {
        Err(berr(b, pmsg_inside_defn()))
    } else if is_prefix(tok_return(), b.text) {
        match btoken(b, tok_return()) {
            Err(e) => Err(e),
            Ok(b1) => match bspace_or_end(b1) {
                Err(e) => Err(e),
                Ok(b2) => if b2.text.len() == 0 {
                    match bend(b2) {
                        Err(e) => Err(e),
                        Ok(_) => Ok(push_ins(defns, Instr::Return(None))),
                    }
                } else {
                    match saddr(b2, tok_x()) {
                        Err(e) => Err(e),
                        Ok((b3, a)) => match bend(b3) {
                            Err(e) => Err(e),
                            Ok(_) => Ok(push_ins(defns, Instr::Return(Some(a as u8)))),
                        },
                    }
                },
            },
        }
    } else if is_prefix(tok_write(), b.text) {
        match btoken(b, tok_write()) {
            Err(e) => Err(e),
            Ok(b1) => match bspace(b1) {
                Err(e) => Err(e),
                Ok(b2) => match saddr(b2, tok_x()) {
                    Err(e) => Err(e),
                    Ok((b3, a)) => match bend(b3) {
                        Err(e) => Err(e),
                        Ok(_) => Ok(push_ins(defns, Instr::Write(a as u8))),
                    },
                },
            },
        }
    } else if is_prefix(tok_jump(), b.text) {
        match btoken(b, tok_jump()) {
            Err(e) => Err(e),
            Ok(b1) => match bspace(b1) {
                Err(e) => Err(e),
                Ok(b2) => match bparse_til::<NonNumberPat>(b2, true, i16::MIN as int, i16::MAX as int) {
                    Err(e) => Err(e),
                    Ok((b3, off)) => match bend(b3) {
                        Err(e) => Err(e),
                        Ok(_) => Ok(push_ins(defns, Instr::Jump(off as i16))),
                    },
                },
            },
        }
    } else if is_prefix(tok_cond(), b.text) {
        match btoken(b, tok_cond()) {
            Err(e) => Err(e),
            Ok(b1) => match bspace(b1) {
                Err(e) => Err(e),
                Ok(b2) => match saddr(b2, tok_x()) {
                    Err(e) => Err(e),
                    Ok((b3, a)) => match bspace(b3) {
                        Err(e) => Err(e),
                        Ok(b4) => match bparse_til::<NonNumberPat>(b4, true, i8::MIN as int, i8::MAX as int) {
                            Err(e) => Err(e),
                            Ok((b5, t)) => match bspace(b5) {
                                Err(e) => Err(e),
                                Ok(b6) => match bparse_til::<NonNumberPat>(b6, true, i8::MIN as int, i8::MAX as int) {
                                    Err(e) => Err(e),
                                    Ok((b7, f)) => match bend(b7) {
                                        Err(e) => Err(e),
                                        Ok(_) => Ok(
                                            push_ins(
                                                defns,
                                                Instr::CondJump(a as u8, t as i8, f as i8),
                                            ),
                                        ),
                                    },
                                },
                            },
                        },
                    },
                },
            },
        }
    } else {
        sassign(defns, b)
    }
}

/// One line of the program text: comments and blank lines change
/// nothing; a `defn` header opens the next function; anything else is an
/// instruction of the last function.
pub open spec fn sline(defns: Seq<DefnM>, line: Seq<u8>, row: int) -> Result<
    Seq<DefnM>,
    ParseErrorM,
> {
    let b = btrim_right(btrim_left(BufM { text: line, row, col: 0 }));
    if is_prefix(seq![35u8], b.text) || b.text.len() == 0 {
        Ok(defns)
    } else if is_prefix(tok_defn(), b.text) {
        sheader(defns, b)
    } else {
        sinstr_line(defns, b)
    }
}

/// The lines folded in order, rows counted from `row`.
pub open spec fn slines(defns: Seq<DefnM>, lines: Seq<Seq<u8>>, row: int) -> Result<
    Seq<DefnM>,
    ParseErrorM,
>
    decreases lines.len(),
{
    if lines.len() == 0 {
        Ok(defns)
    } else {
        match sline(defns, lines[0], row) {
            Err(e) => Err(e),
            Ok(ds) => slines(ds, lines.skip(1), row + 1),
        }
    }
}

/// What parsing the whole text means: the lines folded from an empty
/// program; the entry point is always function 0.
pub open spec fn parse_spec(text: Seq<u8>) -> Result<ProgramM, ParseErrorM> {
    match slines(Seq::empty(), split_lines(text), 1) {
        Ok(ds) => Ok(ProgramM { defns: ds, entry_point: 0 }),
        Err(e) => Err(e),
    }
}

/// Reads the register-like form `x<N>`: optional whitespace, the prefix,
/// then digits.
fn addr<'a>(buf: Buffer<'a>, prefix: &[u8]) -> (r: Result<(Buffer<'a>, u8), ParseError>)
    requires
        buf_wf(buf@),
    ensures
        (match r {
            Ok((b, v)) => saddr(buf@, prefix@) == Ok::<(BufM, int), ParseErrorM>((b@, v as int))
                && buf_wf(b@),
            Err(e) => saddr(buf@, prefix@) == Err::<(BufM, int), ParseErrorM>(e.deep_view()),
        }),
{
    let t = buf.trim_left();
    match t.token(prefix) {
        Err(e) => Err(e),
        Ok(b2) => match b2.parse_til_u8(NonDigitPat) {
            Err(e) => Err(e),
            Ok((b3, v)) => Ok((b3, v)),
        },
    }
}

/// Appends `ins` to the last function's code.
fn append_ins(defns: &mut Vec<Defn>, ins: Instr)
    requires
        old(defns)@.len() > 0,
    ensures
        final(defns).deep_view() == push_ins(old(defns).deep_view(), ins),
{
    let mut d = match defns.pop() {
        Some(d) => d,
        None => {
            proof {
                assert(false);
            }
            unreached()
        },
    };
    d.code.push(ins);
    defns.push(d);
    proof {
        let odv = old(defns).deep_view();
        let li = odv.len() - 1;
        assert forall|j: int| 0 <= j < odv.len() implies defns.deep_view()[j] == push_ins(
            odv,
            ins,
        )[j] by {
            if j < li {
                assert(defns@[j] == old(defns)@[j]);
            } else {
                assert(defns@[j] == d);
                assert(d.code@ =~= old(defns)@[li].code@.push(ins));
                assert(d.consts.deep_view() =~= old(defns)@[li].consts.deep_view());
            }
        }
        assert(defns.deep_view() =~= push_ins(odv, ins));
    }
}

/// Parses one line, growing the program; `Some` is the line's error.
fn parse_line(defns: &mut Vec<Defn>, line: &[u8], row: usize) -> (r: Option<ParseError>)
    requires
        line@.len() < usize::MAX,
    ensures
        (match r {
            None => sline(old(defns).deep_view(), line@, row as int) == Ok::<
                Seq<DefnM>,
                ParseErrorM,
            >(final(defns).deep_view()),
            Some(e) => sline(old(defns).deep_view(), line@, row as int) == Err::<
                Seq<DefnM>,
                ParseErrorM,
            >(e.deep_view()),
        }),
{
    let raw = Buffer { text: line, row, col: 0 };
    let buf = raw.trim();
    let t_hash = mk_hash();
    if buf.starts_with(t_hash.as_slice()) || buf.text.len() == 0 {
        return None;
    }
    let t_defn = mk_defn();
    if buf.starts_with(t_defn.as_slice()) {
        parse_header(defns, buf)
    } else {
        parse_instr_line(defns, buf)
    }
}

/// Parses a `defn` header line: `defn f<N> <local_count> : <constants>`.
#[verifier::rlimit(60)]
fn parse_header<'a>(defns: &mut Vec<Defn>, buf: Buffer<'a>) -> (r: Option<ParseError>)
    requires
        buf_wf(buf@),
    ensures
        (match r {
            None => sheader(old(defns).deep_view(), buf@) == Ok::<Seq<DefnM>, ParseErrorM>(
                final(defns).deep_view(),
            ),
            Some(e) => sheader(old(defns).deep_view(), buf@) == Err::<Seq<DefnM>, ParseErrorM>(
                e.deep_view(),
            ),
        }),
{
    let t_defn = mk_defn();
    // defn f<N> <local_count> : <constants...>
    let b1 = match buf.token(t_defn.as_slice()) {
        Ok(b) => b,
        Err(e) => return Some(e),
    };
    let b2 = match b1.space() {
        Ok(b) => b,
        Err(e) => return Some(e),
    };
    let t_f = mk_f();
    let b3 = match b2.token(t_f.as_slice()) {
        Ok(b) => b,
        Err(e) => return Some(e),
    };
    let (b4, fnum) = match b3.parse_til(WsPat) {
        Ok(x) => x,
        Err(e) => return Some(e),
    };
    if fnum != defns.len() {
        let mut msg = mk_fn_id();
        let mut exp = crate::dec::u64_to_dec(defns.len() as u64);
        msg.append(&mut exp);
        let mut mid = mk_got_f();
        msg.append(&mut mid);
        let mut got = crate::dec::u64_to_dec(fnum as u64);
        msg.append(&mut got);
        proof {
            assert(msg@ =~= msg_fn_id(defns@.len() as int, fnum as int));
        }
        return Some(b4.expected(msg));
    }
    let (b5, lc) = match b4.trim_left().parse_til_u8(WsPat) {
        Ok(x) => x,
        Err(e) => return Some(e),
    };
    let t_colon = mk_colon();
    let b6 = match b5.trim_left().token(t_colon.as_slice()) {
        Ok(b) => b,
        Err(e) => return Some(e),
    };
    let (b7, consts) = match parse_constants(b6.trim_left()) {
        Ok(x) => x,
        Err(e) => return Some(e),
    };
    match b7.end() {
        Ok(_) => {},
        Err(e) => return Some(e),
    }
    let d = Defn { consts, code: Vec::new(), local_count: lc };
    let ghost odv = defns.deep_view();
    defns.push(d);
    proof {
        assert(d.code@ =~= Seq::<Instr>::empty());
        assert(defns.deep_view() =~= odv.push(d.deep_view()));
    }
    None
}

/// Parses an instruction line and appends it to the last function.
#[verifier::rlimit(60)]
fn parse_instr_line<'a>(defns: &mut Vec<Defn>, buf: Buffer<'a>) -> (r: Option<ParseError>)
    requires
        buf_wf(buf@),
    ensures
        (match r {
            None => sinstr_line(old(defns).deep_view(), buf@) == Ok::<Seq<DefnM>, ParseErrorM>(
                final(defns).deep_view(),
            ),
            Some(e) => sinstr_line(old(defns).deep_view(), buf@) == Err::<Seq<DefnM>, ParseErrorM>(
                e.deep_view(),
            ),
        }),
{
    if defns.len() == 0 {
        return Some(buf.expected(mk_inside_defn()));
    }
    let t_return = mk_return();
    if buf.starts_with(t_return.as_slice()) {
        let b1 = match buf.token(t_return.as_slice()) {
            Ok(b) => b,
            Err(e) => return Some(e),
        };
        let b2 = match b1.space_or_end() {
            Ok(b) => b,
            Err(e) => return Some(e),
        };
        if b2.text.len() == 0 {
            match b2.end() {
                Ok(_) => {},
                Err(e) => return Some(e),
            }
            append_ins(defns, Instr::Return(None));
            return None;
        }
        let t_x = mk_x();
        let (b3, a) = match addr(b2, t_x.as_slice()) {
            Ok(x) => x,
            Err(e) => return Some(e),
        };
        match b3.end() {
            Ok(_) => {},
            Err(e) => return Some(e),
        }
        append_ins(defns, Instr::Return(Some(a)));
        return None;
    }
    let t_write = mk_write();
    if buf.starts_with(t_write.as_slice()) {
        let b1 = match buf.token(t_write.as_slice()) {
            Ok(b) => b,
            Err(e) => return Some(e),
        };
        let b2 = match b1.space() {
            Ok(b) => b,
            Err(e) => return Some(e),
        };
        let t_x = mk_x();
        let (b3, a) = match addr(b2, t_x.as_slice()) {
            Ok(x) => x,
            Err(e) => return Some(e),
        };
        match b3.end() {
            Ok(_) => {},
            Err(e) => return Some(e),
        }
        append_ins(defns, Instr::Write(a));
        return None;
    }
    let t_jump = mk_jump();
    if buf.starts_with(t_jump.as_slice()) {
        let b1 = match buf.token(t_jump.as_slice()) {
            Ok(b) => b,
            Err(e) => return Some(e),
        };
        let b2 = match b1.space() {
            Ok(b) => b,
            Err(e) => return Some(e),
        };
        let (b3, off) = match b2.parse_til_i16(NonNumberPat) {
            Ok(x) => x,
            Err(e) => return Some(e),
        };
        match b3.end() {
            Ok(_) => {},
            Err(e) => return Some(e),
        }
        append_ins(defns, Instr::Jump(off));
        return None;
    }
    let t_cond = mk_cond();
    if buf.starts_with(t_cond.as_slice()) {
        let b1 = match buf.token(t_cond.as_slice()) {
            Ok(b) => b,
            Err(e) => return Some(e),
        };
        let b2 = match b1.space() {
            Ok(b) => b,
            Err(e) => return Some(e),
        };
        let t_x = mk_x();
        let (b3, a) = match addr(b2, t_x.as_slice()) {
            Ok(x) => x,
            Err(e) => return Some(e),
        };
        let b4 = match b3.space() {
            Ok(b) => b,
            Err(e) => return Some(e),
        };
        let (b5, t_off) = match b4.parse_til_i8(NonNumberPat) {
            Ok(x) => x,
            Err(e) => return Some(e),
        };
        let b6 = match b5.space() {
            Ok(b) => b,
            Err(e) => return Some(e),
        };
        let (b7, f_off) = match b6.parse_til_i8(NonNumberPat) {
            Ok(x) => x,
            Err(e) => return Some(e),
        };
        match b7.end() {
            Ok(_) => {},
            Err(e) => return Some(e),
        }
        append_ins(defns, Instr::CondJump(a, t_off, f_off));
        return None;
    }

    parse_assign(defns, buf)
}

/// Parses an assignment line `x<N> := rhs`.
#[verifier::rlimit(80)]
fn parse_assign<'a>(defns: &mut Vec<Defn>, buf: Buffer<'a>) -> (r: Option<ParseError>)
    requires
        buf_wf(buf@),
        old(defns)@.len() > 0,
    ensures
        (match r {
            None => sassign(old(defns).deep_view(), buf@) == Ok::<Seq<DefnM>, ParseErrorM>(
                final(defns).deep_view(),
            ),
            Some(e) => sassign(old(defns).deep_view(), buf@) == Err::<Seq<DefnM>, ParseErrorM>(
                e.deep_view(),
            ),
        }),
{
    // x<N> := rhs
    let t_x = mk_x();
    let (b1, dest) = match addr(buf, t_x.as_slice()) {
        Ok(x) => x,
        Err(e) => return Some(e),
    };
    let t_assign = mk_assign();
    let b2 = match b1.trim_left().token(t_assign.as_slice()) {
        Ok(b) => b,
        Err(e) => return Some(e),
    };
    let b3 = b2.trim_left();
    let t_k = mk_k();
    if b3.starts_with(t_k.as_slice()) {
        let (b4, k) = match addr(b3, t_k.as_slice()) {
            Ok(x) => x,
            Err(e) => return Some(e),
        };
        match b4.end() {
            Ok(_) => {},
            Err(e) => return Some(e),
        }
        append_ins(defns, Instr::Const(dest, k));
        return None;
    }
    let t_lparen = mk_lparen();
    if b3.starts_with(t_lparen.as_slice()) {
        let b4 = match b3.trim_left().token(t_lparen.as_slice()) {
            Ok(b) => b,
            Err(e) => return Some(e),
        };
        let (b5, s) = match addr(b4, t_x.as_slice()) {
            Ok(x) => x,
            Err(e) => return Some(e),
        };
        let t_dotdot = mk_dotdot();
        let b6 = match b5.trim_left().token(t_dotdot.as_slice()) {
            Ok(b) => b,
            Err(e) => return Some(e),
        };
        let (b7, l) = match addr(b6, t_x.as_slice()) {
            Ok(x) => x,
            Err(e) => return Some(e),
        };
        let t_rparen = mk_rparen();
        let b8 = match b7.trim_left().token(t_rparen.as_slice()) {
            Ok(b) => b,
            Err(e) => return Some(e),
        };
        match b8.end() {
            Ok(_) => {},
            Err(e) => return Some(e),
        }
        append_ins(defns, Instr::MkTup(dest, s, l));
        return None;
    }
    let t_read = mk_read();
    if b3.starts_with(t_read.as_slice()) {
        let b4 = match b3.token(t_read.as_slice()) {
            Ok(b) => b,
            Err(e) => return Some(e),
        };
        match b4.end() {
            Ok(_) => {},
            Err(e) => return Some(e),
        }
        append_ins(defns, Instr::Read(dest));
        return None;
    }
    let (b4, left) = match addr(b3, t_x.as_slice()) {
        Ok(x) => x,
        Err(e) => return Some(e),
    };
    let b5 = b4.trim_left();
    if b5.text.len() == 0 {
        append_ins(defns, Instr::Copy(dest, left));
        return None;
    }
    let t_plus = mk_op_plus();
    let t_minus = mk_op_minus();
    let t_star = mk_op_star();
    let t_slash = mk_op_slash();
    let t_percent = mk_op_percent();
    let t_amp = mk_op_amp();
    let t_pipe = mk_op_pipe();
    let t_caret = mk_op_caret();
    let t_eqeq = mk_op_eqeq();
    let t_noteq = mk_op_noteq();
    let t_leq = mk_op_leq();
    let t_geq = mk_op_geq();
    let t_lt = mk_op_lt();
    let t_gt = mk_op_gt();
    let t_rparen2 = mk_rparen();
    let t_lbrack = mk_lbrack();
    let mut ops: Vec<&[u8]> = Vec::new();
    ops.push(t_plus.as_slice());
    ops.push(t_minus.as_slice());
    ops.push(t_star.as_slice());
    ops.push(t_slash.as_slice());
    ops.push(t_percent.as_slice());
    ops.push(t_amp.as_slice());
    ops.push(t_pipe.as_slice());
    ops.push(t_caret.as_slice());
    ops.push(t_eqeq.as_slice());
    ops.push(t_noteq.as_slice());
    ops.push(t_leq.as_slice());
    ops.push(t_geq.as_slice());
    ops.push(t_lt.as_slice());
    ops.push(t_gt.as_slice());
    ops.push(t_lparen.as_slice());
    ops.push(t_lbrack.as_slice());
    proof {
        assert(toks_m(ops@) =~= op_tokens());
    }
    let (b6, m) = match b5.first_token_of(ops.as_slice()) {
        Ok(x) => x,
        Err(e) => return Some(e),
    };
    proof {
        crate::parse_util::lemma_first_tok_range(b5@.text, op_tokens());
        assert forall|q: int| 0 <= q < op_tokens().len() implies #[trigger] op_tokens()[
            q
        ].len() >= 1 by {}
        assert(m@.len() >= 1);
    }
    // Dispatch on the matched operator.
    if m.len() == 1 && m[0] == 40 {
        proof {
            assert(m@ =~= seq![40u8]);
        }
        let (b7, c) = match addr(b6, t_x.as_slice()) {
            Ok(x) => x,
            Err(e) => return Some(e),
        };
        let b8 = match b7.trim_left().token(t_rparen2.as_slice()) {
            Ok(b) => b,
            Err(e) => return Some(e),
        };
        match b8.end() {
            Ok(_) => {},
            Err(e) => return Some(e),
        }
        append_ins(defns, Instr::Call(dest, left, c));
        return None;
    }
    if m.len() == 1 && m[0] == 91 {
        proof {
            assert(m@ =~= seq![91u8]);
        }
        let t_rbrack = mk_rbrack();
        let (b7, c) = match addr(b6, t_x.as_slice()) {
            Ok(x) => x,
            Err(e) => return Some(e),
        };
        let b8 = match b7.trim_left().token(t_rbrack.as_slice()) {
            Ok(b) => b,
            Err(e) => return Some(e),
        };
        match b8.end() {
            Ok(_) => {},
            Err(e) => return Some(e),
        }
        append_ins(defns, Instr::IdxTup(dest, left, c));
        return None;
    }
    proof {
        assert(!(m@ =~= seq![40u8]) && !(m@ =~= seq![91u8]));
    }
    let (b7, c) = match addr(b6, t_x.as_slice()) {
        Ok(x) => x,
        Err(e) => return Some(e),
    };
    match b7.end() {
        Ok(_) => {},
        Err(e) => return Some(e),
    }
    let ins = if m.len() == 2 {
        if m[0] == 61 {
            Instr::Eq(dest, left, c)
        } else if m[0] == 33 {
            Instr::Neq(dest, left, c)
        } else if m[0] == 60 {
            Instr::Leq(dest, left, c)
        } else {
            Instr::Geq(dest, left, c)
        }
    } else {
        if m[0] == 43 {
            Instr::Add(dest, left, c)
        } else if m[0] == 45 {
            Instr::Sub(dest, left, c)
        } else if m[0] == 42 {
            Instr::Mul(dest, left, c)
        } else if m[0] == 47 {
            Instr::Div(dest, left, c)
        } else if m[0] == 37 {
            Instr::Rem(dest, left, c)
        } else if m[0] == 38 {
            Instr::And(dest, left, c)
        } else if m[0] == 124 {
            Instr::Orr(dest, left, c)
        } else if m[0] == 94 {
            Instr::Xor(dest, left, c)
        } else if m[0] == 60 {
            Instr::Lt(dest, left, c)
        } else {
            Instr::Gt(dest, left, c)
        }
    };
    proof {
        assert(ins == op_instr(m@, dest, left, c));
    }
    append_ins(defns, ins);
    None


}

/// Parses the program text: each line a statement, `defn` headers with
/// contiguous function numbers from 0, entry point always function 0.
/// Exactly [`parse_spec`], errors included.
#[verifier::loop_isolation(false)]
#[verifier::rlimit(100)]
pub fn parse(text: &[u8]) -> (r: Result<Program, ParseError>)
    requires
        text@.len() < usize::MAX,
    ensures
        (match r {
            Ok(p) => parse_spec(text@) == Ok::<ProgramM, ParseErrorM>(p.deep_view()),
            Err(e) => parse_spec(text@) == Err::<ProgramM, ParseErrorM>(e.deep_view()),
        }),
{
    let mut defns: Vec<Defn> = Vec::new();
    let ghost target = slines(Seq::empty(), split_lines(text@), 1);
    let n = text.len();
    let mut pos: usize = 0;
    let mut row: usize = 1;
    proof {
        assert(defns.deep_view() =~= Seq::<DefnM>::empty());
        assert(text@.skip(0) =~= text@);
    }
    loop
        invariant
            pos <= n,
            row as int - 1 <= pos,
            slines(defns.deep_view(), split_lines(text@.skip(pos as int)), row as int) == target,
        decreases n - pos,
    {
        let ghost rem = text@.skip(pos as int);
        let mut j = pos;
        while j < n && text[j] != 10
            invariant
                pos <= j <= n,
                forall|q: int| pos <= q < j ==> text@[q] != 10,
            decreases n - j,
        {
            j += 1;
        }
        proof {
            assert forall|q: int| 0 <= q < j - pos implies !NlPat::holds(#[trigger] rem[q]) by {
                assert(rem[q] == text@[pos + q]);
            }
            if j < n {
                assert(NlPat::holds(rem[j - pos]));
            }
            lemma_scan_len_at::<NlPat>(rem, (j - pos) as int);
            lemma_scan_len_bounds::<NlPat>(rem);
        }
        let line_end = if j > pos && text[j - 1] == 13 {
            j - 1
        } else {
            j
        };
        let line = slice_subrange(text, pos, line_end);
        proof {
            assert(rem.take(j - pos) =~= text@.subrange(pos as int, j as int));
            if j > pos && text@[j - 1] == 13 {
                assert(line@ =~= strip_cr(rem.take(j - pos)));
            } else {
                assert(line@ =~= strip_cr(rem.take(j - pos)));
            }
        }
        let ghost odv = defns.deep_view();
        match parse_line(&mut defns, line, row) {
            Some(e) => {
                proof {
                    assert(split_lines(rem)[0] == line@);
                    assert(slines(odv, split_lines(rem), row as int) == Err::<
                        Seq<DefnM>,
                        ParseErrorM,
                    >(e.deep_view()));
                }
                return Err(e);
            },
            None => {},
        }
        proof {
            assert(split_lines(rem)[0] == line@);
        }
        if j < n {
            proof {
                assert(split_lines(rem) == seq![line@] + split_lines(rem.skip(j - pos + 1)));
                assert(split_lines(rem).skip(1) =~= split_lines(rem.skip(j - pos + 1)));
                assert(rem.skip(j - pos + 1) =~= text@.skip(j + 1));
            }
            pos = j + 1;
            row = row + 1;
        } else {
            proof {
                assert(split_lines(rem) =~= seq![line@]);
                assert(split_lines(rem).skip(1) =~= Seq::<Seq<u8>>::empty());
                assert(slines(defns.deep_view(), split_lines(rem).skip(1), row as int + 1)
                    == Ok::<Seq<DefnM>, ParseErrorM>(defns.deep_view()));
            }
            let p = Program { defns, entry_point: 0 };
            proof {
                assert(p.deep_view() =~= (ProgramM { defns: p.defns.deep_view(), entry_point: 0 }));
            }
            return Ok(p);
        }
    }
}

} // verus!
