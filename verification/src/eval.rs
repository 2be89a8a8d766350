//! The execution engine: a small-step machine semantics and the
//! interpreter that is proved to follow it.
//!
//! The machine state is modelled by [`StateM`]; one fetch-execute step is
//! the spec function [`step`]; running a bounded number of steps is
//! [`run_n`].  `Program::eval` interprets a program against in-memory byte
//! streams and is proved to return exactly what [`run_n`] says, for the
//! fuel it was given.  Because [`run_n`] is a function of the program and
//! the input alone, evaluation is deterministic.

use vstd::prelude::*;

use crate::bytecode::{
    add_vals, and_vals, div_vals, leq_vals, lt_vals, mul_vals, orr_vals, rem_vals, res_view,
    sub_vals, val_ieee_eq, val_m, vals_m, xor_vals, EvalError, Instr, Program, ProgramM, Val,
    ValM,
};
use crate::bytecode::lemma_vals_m;

verus! {

/// One saved activation record: the register awaiting the callee's result,
/// the caller's function index, its locals, and the instruction index of
/// the `Call` itself.
pub struct Frame {
    pub ret: u8,
    pub fun: usize,
    pub locals: Vec<Val>,
    pub iptr: usize,
}

/// The model of a [`Frame`].
pub struct FrameM {
    pub ret: u8,
    pub fun: int,
    pub locals: Seq<ValM>,
    pub iptr: int,
}

impl DeepView for Frame {
    type V = FrameM;

    open spec fn deep_view(&self) -> FrameM {
        FrameM {
            ret: self.ret,
            fun: self.fun as int,
            locals: self.locals.deep_view(),
            iptr: self.iptr as int,
        }
    }
}

/// The whole machine state between two steps: the call stack, the active
/// function, its locals and instruction pointer, the input bytes not yet
/// read, and the output bytes written so far.
#[verifier::ext_equal]
pub struct StateM {
    pub stack: Seq<FrameM>,
    pub fun: int,
    pub locals: Seq<ValM>,
    pub iptr: int,
    pub input: Seq<u8>,
    pub output: Seq<u8>,
}

/// What one fetch-execute step does: continue in a new state, or stop with
/// a result or an error, carrying the output produced so far.
pub enum StepRes {
    Next(StateM),
    Stop(Result<ValM, EvalError>, Seq<u8>),
}

/// A frame of zero-initialised locals.
pub open spec fn zero_locals(n: int) -> Seq<ValM> {
    Seq::new(n as nat, |i: int| ValM::I(0))
}

/// The state in which evaluation of `p` against `input` begins: an empty
/// call stack, the entry function's zeroed frame, instruction 0.  (With an
/// invalid entry index the locals are empty; the first step then stops.)
pub open spec fn init_state(p: ProgramM, input: Seq<u8>) -> StateM {
    let n = if 0 <= p.entry_point < p.defns.len() {
        p.defns[p.entry_point].local_count as int
    } else {
        0
    };
    StateM {
        stack: Seq::empty(),
        fun: p.entry_point,
        locals: zero_locals(n),
        iptr: 0,
        input,
        output: Seq::empty(),
    }
}

/// Stop with an error, keeping the output already produced.
pub open spec fn stop_err(s: StateM, e: EvalError) -> StepRes {
    StepRes::Stop(Err(e), s.output)
}

/// Write `v` into register `a` and advance to the next instruction; an
/// out-of-range register stops with an error.
pub open spec fn wr_step(s: StateM, a: u8, v: ValM) -> StepRes {
    if (a as int) < s.locals.len() {
        StepRes::Next(StateM { locals: s.locals.update(a as int, v), iptr: s.iptr + 1, ..s })
    } else {
        stop_err(s, EvalError::OutOfRange)
    }
}

/// Land an operation's value in `a`, or stop with the operation's error.
pub open spec fn apply_binop(s: StateM, a: u8, r: Result<ValM, EvalError>) -> StepRes {
    match r {
        Ok(v) => wr_step(s, a, v),
        Err(e) => stop_err(s, e),
    }
}

/// Both operand registers are in range.
pub open spec fn regs_ok(s: StateM, b: u8, c: u8) -> bool {
    (b as int) < s.locals.len() && (c as int) < s.locals.len()
}

/// A relative jump: the new instruction pointer is the current index plus
/// the offset.  A negative target stops with an error; a target past the
/// end is clamped to the code length, where fetching synthesises the
/// implicit return.
pub open spec fn jump_step(s: StateM, code_len: int, off: int) -> StepRes {
    let t = s.iptr + off;
    if t < 0 {
        stop_err(s, EvalError::OutOfRange)
    } else if t > code_len {
        StepRes::Next(StateM { iptr: code_len, ..s })
    } else {
        StepRes::Next(StateM { iptr: t, ..s })
    }
}

/// A `Return`, explicit or implicit: take the named register's value (an
/// empty tuple when none is named), then either finish the whole
/// evaluation (empty call stack) or resume the caller with the value
/// landed in its recorded destination register.
pub open spec fn return_step(s: StateM, a: Option<u8>) -> StepRes {
    let ok = match a {
        Some(r) => (r as int) < s.locals.len(),
        None => true,
    };
    if !ok {
        stop_err(s, EvalError::OutOfRange)
    } else {
        let v = match a {
            Some(r) => s.locals[r as int],
            None => ValM::T(Seq::empty()),
        };
        if s.stack.len() == 0 {
            StepRes::Stop(Ok(v), s.output)
        } else {
            let fr = s.stack.last();
            if (fr.ret as int) < fr.locals.len() {
                StepRes::Next(
                    StateM {
                        stack: s.stack.drop_last(),
                        fun: fr.fun,
                        locals: fr.locals.update(fr.ret as int, v),
                        iptr: fr.iptr + 1,
                        ..s
                    },
                )
            } else {
                stop_err(s, EvalError::OutOfRange)
            }
        }
    }
}

/// One fetch-execute step of the machine: fetch the instruction at the
/// active frame's instruction pointer (or the implicit `Return` past the
/// end) and apply its effect.  Every register, constant-pool, tuple and
/// function index is checked before use.
pub open spec fn step(p: ProgramM, s: StateM) -> StepRes {
    if !(0 <= s.fun < p.defns.len()) {
        stop_err(s, EvalError::InvalidFunction)
    } else {
        let d = p.defns[s.fun];
        if s.iptr >= d.code.len() {
            return_step(s, None)
        } else {
            match d.code[s.iptr] {
                Instr::Const(a, k) => if (k as int) < d.consts.len() {
                    wr_step(s, a, d.consts[k as int])
                } else {
                    stop_err(s, EvalError::OutOfRange)
                },
                Instr::Copy(a, b) => if (b as int) < s.locals.len() {
                    wr_step(s, a, s.locals[b as int])
                } else {
                    stop_err(s, EvalError::OutOfRange)
                },
                Instr::Add(a, b, c) => if regs_ok(s, b, c) {
                    apply_binop(s, a, add_vals(s.locals[b as int], s.locals[c as int]))
                } else {
                    stop_err(s, EvalError::OutOfRange)
                },
                Instr::Sub(a, b, c) => if regs_ok(s, b, c) {
                    apply_binop(s, a, sub_vals(s.locals[b as int], s.locals[c as int]))
                } else {
                    stop_err(s, EvalError::OutOfRange)
                },
                Instr::Mul(a, b, c) => if regs_ok(s, b, c) {
                    apply_binop(s, a, mul_vals(s.locals[b as int], s.locals[c as int]))
                } else {
                    stop_err(s, EvalError::OutOfRange)
                },
                Instr::Div(a, b, c) => if regs_ok(s, b, c) {
                    apply_binop(s, a, div_vals(s.locals[b as int], s.locals[c as int]))
                } else {
                    stop_err(s, EvalError::OutOfRange)
                },
                Instr::Rem(a, b, c) => if regs_ok(s, b, c) {
                    apply_binop(s, a, rem_vals(s.locals[b as int], s.locals[c as int]))
                } else {
                    stop_err(s, EvalError::OutOfRange)
                },
                Instr::And(a, b, c) => if regs_ok(s, b, c) {
                    apply_binop(s, a, and_vals(s.locals[b as int], s.locals[c as int]))
                } else {
                    stop_err(s, EvalError::OutOfRange)
                },
                Instr::Orr(a, b, c) => if regs_ok(s, b, c) {
                    apply_binop(s, a, orr_vals(s.locals[b as int], s.locals[c as int]))
                } else {
                    stop_err(s, EvalError::OutOfRange)
                },
                Instr::Xor(a, b, c) => if regs_ok(s, b, c) {
                    apply_binop(s, a, xor_vals(s.locals[b as int], s.locals[c as int]))
                } else {
                    stop_err(s, EvalError::OutOfRange)
                },
                Instr::Eq(a, b, c) => if regs_ok(s, b, c) {
                    wr_step(s, a, ValM::B(val_ieee_eq(s.locals[b as int], s.locals[c as int])))
                } else {
                    stop_err(s, EvalError::OutOfRange)
                },
                Instr::Neq(a, b, c) => if regs_ok(s, b, c) {
                    wr_step(s, a, ValM::B(!val_ieee_eq(s.locals[b as int], s.locals[c as int])))
                } else {
                    stop_err(s, EvalError::OutOfRange)
                },
                Instr::Lt(a, b, c) => if regs_ok(s, b, c) {
                    apply_binop(s, a, lt_vals(s.locals[b as int], s.locals[c as int]))
                } else {
                    stop_err(s, EvalError::OutOfRange)
                },
                Instr::Gt(a, b, c) => if regs_ok(s, b, c) {
                    apply_binop(s, a, lt_vals(s.locals[c as int], s.locals[b as int]))
                } else {
                    stop_err(s, EvalError::OutOfRange)
                },
                Instr::Leq(a, b, c) => if regs_ok(s, b, c) {
                    apply_binop(s, a, leq_vals(s.locals[b as int], s.locals[c as int]))
                } else {
                    stop_err(s, EvalError::OutOfRange)
                },
                Instr::Geq(a, b, c) => if regs_ok(s, b, c) {
                    apply_binop(s, a, leq_vals(s.locals[c as int], s.locals[b as int]))
                } else {
                    stop_err(s, EvalError::OutOfRange)
                },
                Instr::Jump(off) => jump_step(s, d.code.len() as int, off as int),
                Instr::CondJump(a, t, f) => if (a as int) < s.locals.len() {
                    match s.locals[a as int] {
                        ValM::B(cond) => jump_step(
                            s,
                            d.code.len() as int,
                            if cond {
                                t as int
                            } else {
                                f as int
                            },
                        ),
                        _ => stop_err(s, EvalError::TypeMismatch),
                    }
                } else {
                    stop_err(s, EvalError::OutOfRange)
                },
                Instr::MkTup(a, b, len) => if len == 0 {
                    wr_step(s, a, ValM::T(Seq::empty()))
                } else if b as int + len as int <= s.locals.len() {
                    wr_step(s, a, ValM::T(s.locals.subrange(b as int, b as int + len as int)))
                } else {
                    stop_err(s, EvalError::OutOfRange)
                },
                Instr::IdxTup(a, t, i) => if regs_ok(s, t, i) {
                    match (s.locals[t as int], s.locals[i as int]) {
                        (ValM::T(ts), ValM::I(ix)) => if 0 <= ix < ts.len() {
                            wr_step(s, a, ts[ix])
                        } else {
                            stop_err(s, EvalError::OutOfRange)
                        },
                        _ => stop_err(s, EvalError::TypeMismatch),
                    }
                } else {
                    stop_err(s, EvalError::OutOfRange)
                },
                Instr::Call(a, f, c) => if regs_ok(s, f, c) {
                    match s.locals[f as int] {
                        ValM::C(fid) => if 0 <= fid < p.defns.len() {
                            let callee = p.defns[fid];
                            if callee.local_count == 0 {
                                stop_err(s, EvalError::OutOfRange)
                            } else {
                                StepRes::Next(
                                    StateM {
                                        stack: s.stack.push(
                                            FrameM {
                                                ret: a,
                                                fun: s.fun,
                                                locals: s.locals,
                                                iptr: s.iptr,
                                            },
                                        ),
                                        fun: fid,
                                        locals: zero_locals(callee.local_count as int).update(
                                            0,
                                            s.locals[c as int],
                                        ),
                                        iptr: 0,
                                        ..s
                                    },
                                )
                            }
                        } else {
                            stop_err(s, EvalError::InvalidFunction)
                        },
                        _ => stop_err(s, EvalError::InvalidFunction),
                    }
                } else {
                    stop_err(s, EvalError::OutOfRange)
                },
                Instr::Return(a) => return_step(s, a),
                Instr::Read(a) => if s.input.len() == 0 {
                    stop_err(s, EvalError::IoFailure)
                } else if (a as int) < s.locals.len() {
                    StepRes::Next(
                        StateM {
                            locals: s.locals.update(a as int, ValM::I(s.input[0] as int)),
                            iptr: s.iptr + 1,
                            input: s.input.skip(1),
                            ..s
                        },
                    )
                } else {
                    stop_err(s, EvalError::OutOfRange)
                },
                Instr::Write(a) => if (a as int) < s.locals.len() {
                    match s.locals[a as int] {
                        ValM::I(x) => StepRes::Next(
                            StateM {
                                output: s.output.push(((x as i64) & 0xff) as u8),
                                iptr: s.iptr + 1,
                                ..s
                            },
                        ),
                        _ => stop_err(s, EvalError::TypeMismatch),
                    }
                } else {
                    stop_err(s, EvalError::OutOfRange)
                },
            }
        }
    }
}

/// The machine after `n` steps from `s`: still going, or stopped with its
/// result and the output it had produced.
pub enum RunRes {
    Going(StateM),
    Stopped(Result<ValM, EvalError>, Seq<u8>),
}

/// Run `n` steps of `p` from `s`.  Once the machine stops, the outcome is
/// the same for every larger `n` (see [`lemma_run_absorb`]).
pub open spec fn run_n(p: ProgramM, s: StateM, n: nat) -> RunRes
    decreases n,
{
    if n == 0 {
        RunRes::Going(s)
    } else {
        match step(p, s) {
            StepRes::Next(s2) => run_n(p, s2, (n - 1) as nat),
            StepRes::Stop(res, out) => RunRes::Stopped(res, out),
        }
    }
}

/// Extending a still-going run by one step applies [`step`] to its state.
pub proof fn lemma_run_snoc(p: ProgramM, s: StateM, n: nat)
    requires
        run_n(p, s, n) is Going,
    ensures
        run_n(p, s, n + 1) == (match step(p, run_n(p, s, n)->Going_0) {
            StepRes::Next(s2) => RunRes::Going(s2),
            StepRes::Stop(res, out) => RunRes::Stopped(res, out),
        }),
    decreases n,
{
    if n > 0 {
        match step(p, s) {
            StepRes::Next(s2) => {
                lemma_run_snoc(p, s2, (n - 1) as nat);
                assert(run_n(p, s, n) == run_n(p, s2, (n - 1) as nat));
                assert(run_n(p, s, n + 1) == run_n(p, s2, ((n + 1) - 1) as nat));
                assert(((n + 1) - 1) as nat == ((n - 1) as nat) + 1);
            },
            StepRes::Stop(res, out) => {},
        }
    } else {
        assert(run_n(p, s, 0) == RunRes::Going(s));
        assert(run_n(p, s, 1) == (match step(p, s) {
            StepRes::Next(s2) => run_n(p, s2, 0),
            StepRes::Stop(res, out) => RunRes::Stopped(res, out),
        }));
    }
}

/// A stopped run keeps its outcome under any additional fuel.
pub proof fn lemma_run_absorb(p: ProgramM, s: StateM, n: nat, m: nat)
    requires
        n <= m,
        run_n(p, s, n) is Stopped,
    ensures
        run_n(p, s, m) == run_n(p, s, n),
    decreases n,
{
    if n > 0 {
        match step(p, s) {
            StepRes::Next(s2) => {
                lemma_run_absorb(p, s2, (n - 1) as nat, (m - 1) as nat);
            },
            StepRes::Stop(res, out) => {},
        }
    }
}

/// Determinism: evaluating one program against one input can stop with
/// only one result and one output, whatever fuel bounds witnessed the two
/// runs.  This holds because [`run_n`] is a function of the program, the
/// start state and the fuel, and a stopped run never changes again.
pub proof fn lemma_eval_deterministic(p: ProgramM, s: StateM, n1: nat, n2: nat)
    requires
        run_n(p, s, n1) is Stopped,
        run_n(p, s, n2) is Stopped,
    ensures
        run_n(p, s, n1) == run_n(p, s, n2),
{
    if n1 <= n2 {
        lemma_run_absorb(p, s, n1, n2);
    } else {
        lemma_run_absorb(p, s, n2, n1);
    }
}


/// Assemble a machine-state model from the interpreter's pieces: `pos`
/// bytes of the input are already consumed, `outd` is the output produced
/// so far.
pub open spec fn mach_view(
    stack: Seq<FrameM>,
    fun: int,
    locals: Seq<ValM>,
    iptr: int,
    input: Seq<u8>,
    pos: int,
    outd: Seq<u8>,
) -> StateM {
    StateM { stack, fun, locals, iptr, input: input.skip(pos), output: outd }
}

/// Write `v` into register `a` if it is in range; reports whether it was.
fn set_local(locals: &mut Vec<Val>, a: u8, v: Val) -> (ok: bool)
    ensures
        ok == ((a as int) < old(locals)@.len()),
        ok ==> final(locals).deep_view() == old(locals).deep_view().update(
            a as int,
            v.deep_view(),
        ),
        !ok ==> *final(locals) == *old(locals),
{
    let ai = a as usize;
    if ai < locals.len() {
        locals[ai] = v;
        proof {
            assert(locals.deep_view() =~= old(locals).deep_view().update(
                a as int,
                v.deep_view(),
            ));
        }
        true
    } else {
        false
    }
}

/// A frame of `n` zero-initialised locals.
fn zero_frame(n: u8) -> (r: Vec<Val>)
    ensures
        r.deep_view() == zero_locals(n as int),
        r@.len() == n as int,
{
    let mut v: Vec<Val> = Vec::new();
    let count = n as usize;
    for i in 0..count
        invariant
            v@.len() == i,
            forall|j: int| 0 <= j < i ==> v.deep_view()[j] == ValM::I(0),
    {
        let ghost pre = v@;
        let ghost pre_dv = v.deep_view();
        v.push(Val::I(0));
        proof {
            assert forall|j: int| 0 <= j < i + 1 implies v.deep_view()[j] == ValM::I(0) by {
                assert(v.deep_view()[j] == val_m(v@[j]));
                if j < i {
                    assert(pre_dv[j] == ValM::I(0));
                    assert(v@[j] == pre[j]);
                    assert(pre_dv[j] == val_m(pre[j]));
                }
            }
        }
    }
    proof {
        assert(v.deep_view() =~= zero_locals(n as int));
    }
    v
}

/// Copies of the registers `b .. b + len`.
fn copy_range(locals: &Vec<Val>, b: u8, len: u8) -> (r: Vec<Val>)
    requires
        b as int + len as int <= locals@.len(),
    ensures
        r.deep_view() == locals.deep_view().subrange(b as int, b as int + len as int),
{
    let mut out: Vec<Val> = Vec::new();
    let bi = b as usize;
    let n = len as usize;
    for i in 0..n
        invariant
            out@.len() == i,
            bi + n <= locals@.len(),
            bi == b as int && n == len as int,
            forall|j: int| 0 <= j < i ==> out.deep_view()[j] == locals.deep_view()[bi + j],
    {
        let ghost pre = out@;
        let ghost pre_dv = out.deep_view();
        out.push(locals[bi + i].duplicate());
        proof {
            let ghost lv = locals.deep_view();
            assert forall|j: int| 0 <= j < i + 1 implies out.deep_view()[j] == lv[bi + j] by {
                assert(out.deep_view()[j] == val_m(out@[j]));
                if j < i {
                    assert(pre_dv[j] == lv[bi + j]);
                    assert(out@[j] == pre[j]);
                    assert(pre_dv[j] == val_m(pre[j]));
                } else {
                    assert(lv[bi + j] == val_m(locals@[bi + j]));
                }
            }
        }
    }
    proof {
        assert(out.deep_view() =~= locals.deep_view().subrange(b as int, b as int + len as int));
    }
    out
}

/// The clamped target of a relative jump, or `None` where it would be
/// negative (matching [`jump_step`]).
fn jump_target(ip: usize, code_len: usize, off: i16) -> (r: Option<usize>)
    requires
        ip <= code_len,
    ensures
        (match r {
            Some(t) => ip + off >= 0 && t <= code_len && (t as int == if ip + off > code_len {
                code_len as int
            } else {
                ip + off
            }),
            None => ip + off < 0,
        }),
{
    if off >= 0 {
        let o = off as usize;
        if o >= code_len - ip {
            Some(code_len)
        } else {
            Some(ip + o)
        }
    } else {
        let o = (-(off as i32)) as usize;
        if o > ip {
            None
        } else {
            Some(ip - o)
        }
    }
}

impl Program {
    /// Performs one fetch-execute step, mirroring [`step`] exactly:
    /// `None` means the machine continues in the updated state; `Some`
    /// carries the final result or error the machine stopped with.
    #[verifier::loop_isolation(false)]
    #[verifier::rlimit(100)]
    fn step_exec(
        &self,
        stack: &mut Vec<Frame>,
        fun: &mut usize,
        locals: &mut Vec<Val>,
        iptr: &mut usize,
        input: &Vec<u8>,
        pos: &mut usize,
        output: &mut Vec<u8>,
        Ghost(outd): Ghost<Seq<u8>>,
    ) -> (r: Option<Result<Val, EvalError>>)
    requires
        *old(pos) <= input@.len(),
        forall|i: int| 0 <= i < old(stack)@.len() ==> #[trigger] old(stack)@[i].iptr
            < usize::MAX,
    ensures
        ({
            let s0 = mach_view(
                old(stack).deep_view(),
                *old(fun) as int,
                old(locals).deep_view(),
                *old(iptr) as int,
                input@,
                *old(pos) as int,
                outd,
            );
            match r {
                None => {
                    &&& step(self.deep_view(), s0) == StepRes::Next(
                        mach_view(
                            final(stack).deep_view(),
                            *final(fun) as int,
                            final(locals).deep_view(),
                            *final(iptr) as int,
                            input@,
                            *final(pos) as int,
                            outd + final(output)@.skip(old(output)@.len() as int),
                        ),
                    )
                    &&& *final(pos) <= input@.len()
                    &&& forall|i: int|
                        0 <= i < final(stack)@.len() ==> #[trigger] final(stack)@[i].iptr
                            < usize::MAX
                    &&& final(output)@.len() >= old(output)@.len()
                    &&& final(output)@.subrange(0, old(output)@.len() as int) == old(output)@
                },
                Some(res) => {
                    &&& step(self.deep_view(), s0) == StepRes::Stop(res_view(res), outd)
                    &&& *final(output) == *old(output)
                },
            }
        }),
    {
        let ghost pm = self.deep_view();
        let ghost s0 = mach_view(
            stack.deep_view(),
            *fun as int,
            locals.deep_view(),
            *iptr as int,
            input@,
            *pos as int,
            outd,
        );
        if *fun >= self.defns.len() {
            return Some(Err(EvalError::InvalidFunction));
        }
        let d = &self.defns[*fun];
        proof {
            assert(pm.defns[*fun as int] == d.deep_view());
        }
        let code_len = d.code.len();
        if *iptr >= code_len {
            // Implicit return past the end of the instruction sequence.
            return self.return_exec(stack, fun, locals, iptr, None, Ghost(s0));
        }
        let ins = d.code[*iptr];
        match ins {
            Instr::Const(a, k) => {
                if (k as usize) < d.consts.len() {
                    let v = d.consts[k as usize].duplicate();
                    if set_local(locals, a, v) {
                        *iptr += 1;
                        None
                    } else {
                        Some(Err(EvalError::OutOfRange))
                    }
                } else {
                    Some(Err(EvalError::OutOfRange))
                }
            },
            Instr::Copy(a, b) => {
                if (b as usize) < locals.len() {
                    let v = locals[b as usize].duplicate();
                    if set_local(locals, a, v) {
                        *iptr += 1;
                        None
                    } else {
                        Some(Err(EvalError::OutOfRange))
                    }
                } else {
                    Some(Err(EvalError::OutOfRange))
                }
            },
            Instr::Add(a, b, c) | Instr::Sub(a, b, c) | Instr::Mul(a, b, c) | Instr::Div(
                a,
                b,
                c,
            ) | Instr::Rem(a, b, c) | Instr::And(a, b, c) | Instr::Orr(a, b, c) | Instr::Xor(
                a,
                b,
                c,
            ) | Instr::Lt(a, b, c) | Instr::Gt(a, b, c) | Instr::Leq(a, b, c) | Instr::Geq(
                a,
                b,
                c,
            ) => {
                if (b as usize) < locals.len() && (c as usize) < locals.len() {
                    let bv = &locals[b as usize];
                    let cv = &locals[c as usize];
                    let res = match ins {
                        Instr::Add(_, _, _) => bv.add(cv),
                        Instr::Sub(_, _, _) => bv.sub(cv),
                        Instr::Mul(_, _, _) => bv.mul(cv),
                        Instr::Div(_, _, _) => bv.div(cv),
                        Instr::Rem(_, _, _) => bv.rem(cv),
                        Instr::And(_, _, _) => bv.bitand(cv),
                        Instr::Orr(_, _, _) => bv.bitor(cv),
                        Instr::Xor(_, _, _) => bv.bitxor(cv),
                        Instr::Lt(_, _, _) => bv.lt(cv),
                        Instr::Gt(_, _, _) => cv.lt(bv),
                        Instr::Leq(_, _, _) => bv.leq(cv),
                        _ => cv.leq(bv),
                    };
                    match res {
                        Ok(v) => {
                            if set_local(locals, a, v) {
                                *iptr += 1;
                                None
                            } else {
                                Some(Err(EvalError::OutOfRange))
                            }
                        },
                        Err(e) => Some(Err(e)),
                    }
                } else {
                    Some(Err(EvalError::OutOfRange))
                }
            },
            Instr::Eq(a, b, c) | Instr::Neq(a, b, c) => {
                if (b as usize) < locals.len() && (c as usize) < locals.len() {
                    let same = locals[b as usize].equals(&locals[c as usize]);
                    let v = Val::B(
                        match ins {
                            Instr::Eq(_, _, _) => same,
                            _ => !same,
                        },
                    );
                    if set_local(locals, a, v) {
                        *iptr += 1;
                        None
                    } else {
                        Some(Err(EvalError::OutOfRange))
                    }
                } else {
                    Some(Err(EvalError::OutOfRange))
                }
            },
            Instr::Jump(off) => {
                match jump_target(*iptr, code_len, off) {
                    Some(t) => {
                        *iptr = t;
                        None
                    },
                    None => Some(Err(EvalError::OutOfRange)),
                }
            },
            Instr::CondJump(a, t_off, f_off) => {
                if (a as usize) < locals.len() {
                    let cond = match &locals[a as usize] {
                        Val::B(x) => Some(*x),
                        _ => None,
                    };
                    match cond {
                        Some(x) => {
                            let off: i16 = if x {
                                t_off as i16
                            } else {
                                f_off as i16
                            };
                            match jump_target(*iptr, code_len, off) {
                                Some(t) => {
                                    *iptr = t;
                                    None
                                },
                                None => Some(Err(EvalError::OutOfRange)),
                            }
                        },
                        None => Some(Err(EvalError::TypeMismatch)),
                    }
                } else {
                    Some(Err(EvalError::OutOfRange))
                }
            },
            Instr::MkTup(a, b, len) => {
                if len == 0 {
                    let v = Val::T(Vec::new());
                    proof {
                        lemma_vals_m(Seq::<Val>::empty());
                        assert(v.deep_view() =~= ValM::T(Seq::empty()));
                    }
                    if set_local(locals, a, v) {
                        *iptr += 1;
                        None
                    } else {
                        Some(Err(EvalError::OutOfRange))
                    }
                } else if b as usize + len as usize <= locals.len() {
                    let parts = copy_range(locals, b, len);
                    proof {
                        lemma_vals_m(parts@);
                        assert(vals_m(parts@) =~= parts.deep_view());
                    }
                    let v = Val::T(parts);
                    if set_local(locals, a, v) {
                        *iptr += 1;
                        None
                    } else {
                        Some(Err(EvalError::OutOfRange))
                    }
                } else {
                    Some(Err(EvalError::OutOfRange))
                }
            },
            Instr::IdxTup(a, t, i) => {
                if (t as usize) < locals.len() && (i as usize) < locals.len() {
                    let res: Result<Val, EvalError> = match (
                        &locals[t as usize],
                        &locals[i as usize],
                    ) {
                        (Val::T(ts), Val::I(ix)) => {
                            if *ix >= 0 && (*ix as u128) < (ts.len() as u128) {
                                proof {
                                    lemma_vals_m(ts@);
                                }
                                Ok(ts[*ix as usize].duplicate())
                            } else {
                                proof {
                                    lemma_vals_m(ts@);
                                }
                                Err(EvalError::OutOfRange)
                            }
                        },
                        _ => Err(EvalError::TypeMismatch),
                    };
                    match res {
                        Ok(v) => {
                            if set_local(locals, a, v) {
                                *iptr += 1;
                                None
                            } else {
                                Some(Err(EvalError::OutOfRange))
                            }
                        },
                        Err(e) => Some(Err(e)),
                    }
                } else {
                    Some(Err(EvalError::OutOfRange))
                }
            },
            Instr::Call(a, f, c) => {
                if (f as usize) < locals.len() && (c as usize) < locals.len() {
                    let fid: Option<u16> = match &locals[f as usize] {
                        Val::C(x) => Some(*x),
                        _ => None,
                    };
                    match fid {
                        Some(x) => {
                            let fi = x as usize;
                            if fi < self.defns.len() {
                                let lc = self.defns[fi].local_count;
                                proof {
                                    assert(pm.defns[fi as int] == self.defns@[fi as int].deep_view());
                                }
                                if lc == 0 {
                                    Some(Err(EvalError::OutOfRange))
                                } else {
                                    let arg = locals[c as usize].duplicate();
                                    let mut fresh = zero_frame(lc);
                                    fresh[0] = arg;
                                    proof {
                                        assert(fresh.deep_view() =~= zero_locals(lc as int)
                                            .update(0, old(locals).deep_view()[c as int]));
                                    }
                                    let mut prev: Vec<Val> = fresh;
                                    core::mem::swap(locals, &mut prev);
                                    let frame = Frame { ret: a, fun: *fun, locals: prev, iptr: *iptr };
                                    let ghost old_stack_dv = stack.deep_view();
                                    stack.push(frame);
                                    proof {
                                        assert(stack.deep_view() =~= old_stack_dv.push(
                                            frame.deep_view(),
                                        ));
                                    }
                                    *fun = fi;
                                    *iptr = 0;
                                    None
                                }
                            } else {
                                Some(Err(EvalError::InvalidFunction))
                            }
                        },
                        None => Some(Err(EvalError::InvalidFunction)),
                    }
                } else {
                    Some(Err(EvalError::OutOfRange))
                }
            },
            Instr::Return(a) => self.return_exec(stack, fun, locals, iptr, a, Ghost(s0)),
            Instr::Read(a) => {
                if *pos >= input.len() {
                    Some(Err(EvalError::IoFailure))
                } else {
                    let byte = input[*pos];
                    if set_local(locals, a, Val::I(byte as i64)) {
                        *pos += 1;
                        *iptr += 1;
                        proof {
                            assert(input@.skip(*pos as int) =~= input@.skip(
                                (*pos - 1) as int,
                            ).skip(1));
                        }
                        None
                    } else {
                        Some(Err(EvalError::OutOfRange))
                    }
                }
            },
            Instr::Write(a) => {
                if (a as usize) < locals.len() {
                    let x: Option<i64> = match &locals[a as usize] {
                        Val::I(v) => Some(*v),
                        _ => None,
                    };
                    match x {
                        Some(v) => {
                            proof {
                                assert(v & 0xff >= 0 && v & 0xff <= 0xff) by (bit_vector);
                            }
                            let byte = (v & 0xff) as u8;
                            let ghost old_out = output@;
                            output.push(byte);
                            proof {
                                assert(output@.subrange(0, old_out.len() as int) =~= old_out);
                                assert(output@.skip(old_out.len() as int) =~= seq![byte]);
                                assert(outd + output@.skip(old_out.len() as int) =~= outd.push(
                                    byte,
                                ));
                            }
                            *iptr += 1;
                            None
                        },
                        None => Some(Err(EvalError::TypeMismatch)),
                    }
                } else {
                    Some(Err(EvalError::OutOfRange))
                }
            },
        }
    }

    /// Performs a `Return` (explicit or the implicit one past the end),
    /// mirroring [`return_step`].
    fn return_exec(
        &self,
        stack: &mut Vec<Frame>,
        fun: &mut usize,
        locals: &mut Vec<Val>,
        iptr: &mut usize,
        a: Option<u8>,
        Ghost(s0): Ghost<StateM>,
    ) -> (r: Option<Result<Val, EvalError>>)
    requires
        old(stack).deep_view() == s0.stack,
        old(locals).deep_view() == s0.locals,
        forall|i: int| 0 <= i < old(stack)@.len() ==> #[trigger] old(stack)@[i].iptr
            < usize::MAX,
    ensures
        (match r {
            None => {
                &&& return_step(s0, a) == StepRes::Next(
                    StateM {
                        stack: final(stack).deep_view(),
                        fun: *final(fun) as int,
                        locals: final(locals).deep_view(),
                        iptr: *final(iptr) as int,
                        ..s0
                    },
                )
                &&& forall|i: int|
                    0 <= i < final(stack)@.len() ==> #[trigger] final(stack)@[i].iptr
                        < usize::MAX
            },
            Some(res) => return_step(s0, a) == StepRes::Stop(res_view(res), s0.output),
        }),
    {
        let v: Val = match a {
            Some(reg) => {
                if (reg as usize) < locals.len() {
                    locals[reg as usize].duplicate()
                } else {
                    return Some(Err(EvalError::OutOfRange));
                }
            },
            None => {
                let empty = Val::T(Vec::new());
                proof {
                    assert(empty.deep_view() =~= ValM::T(Seq::empty()));
                }
                empty
            },
        };
        let ghost old_stack_dv = stack.deep_view();
        match stack.pop() {
            Some(frame) => {
                proof {
                    assert(stack.deep_view() =~= old_stack_dv.drop_last());
                    assert(frame.deep_view() == old_stack_dv.last());
                }
                if (frame.ret as usize) < frame.locals.len() {
                    let Frame { ret, fun: caller, locals: caller_locals, iptr: caller_iptr } =
                        frame;
                    *locals = caller_locals;
                    let wrote = set_local(locals, ret, v);
                    proof {
                        assert(wrote);
                    }
                    *fun = caller;
                    *iptr = caller_iptr + 1;
                    None
                } else {
                    Some(Err(EvalError::OutOfRange))
                }
            },
            None => Some(Ok(v)),
        }
    }

    /// Evaluate the program against the given input bytes for at most
    /// `fuel` instruction steps, appending whatever the program writes to
    /// `output`.  Returns `None` when the fuel ran out first, otherwise
    /// the machine's result or error — exactly the outcome that [`run_n`]
    /// ascribes to this program, input and fuel.  Bytes written before a
    /// failure stay written.
    #[verifier::loop_isolation(false)]
    pub fn eval(&self, input: &Vec<u8>, output: &mut Vec<u8>, fuel: u64) -> (r: Option<
        Result<Val, EvalError>,
    >)
        ensures
            ({
                let o = run_n(self.deep_view(), init_state(self.deep_view(), input@), fuel as nat);
                match r {
                    None => o is Going && final(output)@ == old(output)@ + o->Going_0.output,
                    Some(res) => o is Stopped && res_view(res) == o->Stopped_0
                        && final(output)@ == old(output)@ + o->Stopped_1,
                }
            }),
    {
        let ghost pm = self.deep_view();
        let ghost s0 = init_state(pm, input@);
        let ghost base = output@;
        let mut stack: Vec<Frame> = Vec::new();
        let mut fun: usize = self.entry_point as usize;
        let mut locals: Vec<Val> = if fun < self.defns.len() {
            zero_frame(self.defns[fun].local_count)
        } else {
            Vec::new()
        };
        let mut iptr: usize = 0;
        let mut pos: usize = 0;
        let mut used: u64 = 0;
        proof {
            assert(stack.deep_view() =~= Seq::<FrameM>::empty());
            assert(input@.skip(0) =~= input@);
            assert(output@.skip(base.len() as int) =~= Seq::<u8>::empty());
            if fun < self.defns.len() {
                assert(pm.defns[fun as int] == self.defns@[fun as int].deep_view());
            } else {
                assert(locals.deep_view() =~= zero_locals(0));
            }
            assert(mach_view(
                stack.deep_view(),
                fun as int,
                locals.deep_view(),
                iptr as int,
                input@,
                pos as int,
                output@.skip(base.len() as int),
            ) =~= s0);
        }
        while used < fuel
            invariant
                used <= fuel,
                pos <= input@.len(),
                forall|i: int| 0 <= i < stack@.len() ==> #[trigger] stack@[i].iptr < usize::MAX,
                output@.len() >= base.len(),
                output@.subrange(0, base.len() as int) == base,
                run_n(pm, s0, used as nat) == RunRes::Going(
                    mach_view(
                        stack.deep_view(),
                        fun as int,
                        locals.deep_view(),
                        iptr as int,
                        input@,
                        pos as int,
                        output@.skip(base.len() as int),
                    ),
                ),
            decreases fuel - used,
        {
            let ghost outd = output@.skip(base.len() as int);
            let ghost prev_out = output@;
            let res = self.step_exec(
                &mut stack,
                &mut fun,
                &mut locals,
                &mut iptr,
                input,
                &mut pos,
                output,
                Ghost(outd),
            );
            proof {
                lemma_run_snoc(pm, s0, used as nat);
            }
            match res {
                None => {
                    proof {
                        assert(output@.skip(base.len() as int) =~= outd + output@.skip(
                            prev_out.len() as int,
                        ));
                        assert(output@.subrange(0, base.len() as int) =~= base);
                    }
                    used += 1;
                },
                Some(res) => {
                    proof {
                        lemma_run_absorb(pm, s0, (used + 1) as nat, fuel as nat);
                        assert(output@ =~= base + outd);
                    }
                    return Some(res);
                },
            }
        }
        None
    }
}


/// Integer overflow fails: `Add` on two integers whose sum leaves the
/// representable range is a failure, never a silent wraparound.
pub proof fn lemma_int_add_overflow_fails(x: int, y: int)
    requires
        i64::MIN <= x <= i64::MAX,
        i64::MIN <= y <= i64::MAX,
        x + y > i64::MAX || x + y < i64::MIN,
    ensures
        add_vals(ValM::I(x), ValM::I(y)) == Err::<ValM, EvalError>(EvalError::Overflow),
{
}

/// The analogous float addition never fails.
pub proof fn lemma_float_add_never_fails(x: u64, y: u64)
    ensures
        add_vals(ValM::F(x), ValM::F(y)) is Ok,
{
}

/// Integer division and remainder by zero are failures.
pub proof fn lemma_int_div_by_zero_fails(x: int)
    ensures
        div_vals(ValM::I(x), ValM::I(0)) == Err::<ValM, EvalError>(EvalError::DivideByZero),
        rem_vals(ValM::I(x), ValM::I(0)) == Err::<ValM, EvalError>(EvalError::DivideByZero),
{
}

/// Float division never fails, a zero divisor included (the quotient is
/// then an infinity or a NaN, as the division wrapper's contract states).
pub proof fn lemma_float_div_never_fails(x: u64, y: u64)
    ensures
        div_vals(ValM::F(x), ValM::F(y)) is Ok,
{
}

/// Constructing a tuple of length 0 yields the empty tuple whatever the
/// unused start register holds: the step's effect does not mention it.
pub proof fn lemma_mktup_zero_ignores_start(p: ProgramM, s: StateM, a: u8, b: u8)
    requires
        0 <= s.fun < p.defns.len(),
        0 <= s.iptr < p.defns[s.fun].code.len(),
        p.defns[s.fun].code[s.iptr] == Instr::MkTup(a, b, 0),
    ensures
        step(p, s) == wr_step(s, a, ValM::T(Seq::empty())),
{
}

/// Indexing a tuple at or past its length is a failure; in particular a
/// 3-element tuple has no index 3.
pub proof fn lemma_idxtup_out_of_range(ts: Seq<ValM>, ix: int, p: ProgramM, s: StateM, a: u8, t: u8, i: u8)
    requires
        0 <= s.fun < p.defns.len(),
        0 <= s.iptr < p.defns[s.fun].code.len(),
        p.defns[s.fun].code[s.iptr] == Instr::IdxTup(a, t, i),
        regs_ok(s, t, i),
        s.locals[t as int] == ValM::T(ts),
        s.locals[i as int] == ValM::I(ix),
        !(0 <= ix < ts.len()),
    ensures
        step(p, s) == stop_err(s, EvalError::OutOfRange),
{
}

/// Jump arithmetic: a relative jump lands exactly on the current index
/// plus the offset, whenever that target lies within the code (a forward
/// jump of offset 1 thus skips exactly one instruction); only the
/// instruction pointer changes.
pub proof fn lemma_jump_lands_exactly(p: ProgramM, s: StateM, off: i16)
    requires
        0 <= s.fun < p.defns.len(),
        0 <= s.iptr < p.defns[s.fun].code.len(),
        p.defns[s.fun].code[s.iptr] == Instr::Jump(off),
        0 <= s.iptr + off <= p.defns[s.fun].code.len(),
    ensures
        step(p, s) == StepRes::Next(StateM { iptr: s.iptr + off, ..s }),
{
}

} // verus!
