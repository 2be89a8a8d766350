use tic_tac::bytecode::EvalError;
use tic_tac::bytecode::Instr::{Add, Call, Const, CondJump, Div, IdxTup, Jump, Leq, Lt, MkTup, Mul, Orr, Read, Rem, Return, Sub, Write, Xor, And, Neq, Gt, Geq};
use tic_tac::bytecode::Instr;
use tic_tac::bytecode::Val::{self, B, C, F, I, T};
use tic_tac::bytecode::{Defn, Program};
use tic_tac::parse::parse;

const FUEL: u64 = 1_000_000;

/// Runs a program against the given input bytes, collecting its output.
fn run(program: &Program, input: &[u8]) -> (Result<Val, EvalError>, Vec<u8>) {
    let mut output = Vec::new();
    let result = program
        .eval(&input.to_vec(), &mut output, FUEL)
        .expect("program should finish within the test fuel");
    (result, output)
}

fn cond_jump_program(cond: Val) -> Program {
    Program {
        defns: vec![Defn {
            code: vec![
                Const(0, 0),
                Const(1, 1),
                Const(2, 2),
                CondJump(0, 1, 2),
                Return(Some(1)),
                Return(Some(2)),
            ],
            consts: vec![cond, I(3), I(5)],
            local_count: 3,
        }],
        entry_point: 0,
    }
}

#[test]
fn test_cond_jump_false() {
    let program = cond_jump_program(B(false));
    assert_eq!(run(&program, &[]).0, Ok(I(5)));
    assert_eq!(
        parse(
            b"
defn f0 3 : false 3 5
x0 := k0
x1 := k1
x2 := k2
cond x0 1 2
return x1
return x2
"
        ),
        Ok(program)
    );
}

#[test]
fn test_cond_jump_true() {
    let program = cond_jump_program(B(true));
    assert_eq!(run(&program, &[]).0, Ok(I(3)));
    assert_eq!(
        parse(
            b"
defn f0 3 : true 3 5
x0 := k0
x1 := k1
x2 := k2
cond x0 1 2
return x1
return x2
"
        ),
        Ok(program)
    );
}

#[test]
fn test_cond_jump_err() {
    let program = cond_jump_program(I(0));
    assert_eq!(run(&program, &[]).0, Err(EvalError::TypeMismatch));
}

#[test]
fn test_jump() {
    let program = Program {
        defns: vec![Defn {
            code: vec![Jump(1), Const(0, 0), Const(0, 1), Return(Some(0))],
            consts: vec![I(3), I(5)],
            local_count: 2,
        }],
        entry_point: 0,
    };
    assert_eq!(run(&program, &[]).0, Ok(I(5)));
    assert_eq!(
        parse(
            b"
defn f0 2 : 3 5
jump 1
x0 := k0
x0 := k1
return x0
"
        ),
        Ok(program)
    );
}

#[test]
fn test_backwards_jump() {
    let program = Program {
        defns: vec![Defn {
            code: vec![
                Jump(3),
                Const(0, 0),
                Jump(3),
                Const(0, 1),
                Jump(-3),
                Return(Some(0)),
            ],
            consts: vec![I(3), I(5)],
            local_count: 2,
        }],
        entry_point: 0,
    };
    assert_eq!(run(&program, &[]).0, Ok(I(3)));
}

#[test]
fn test_bitwise() {
    let (result, _) = run(
        &parse(
            b"
defn f0 5 : 1 2 4 -1 -8
x0 := k0
x1 := k1
# 3
x0 := x0 | x1
x2 := k2
# 7
x1 := x0 | x2
# 3
x2 := x0 & x1
x0 := x2 == x0
x4 := k3
x3 := x1 ^ x4
x4 := k4
x1 := x3 == x4
x0 := x0 & x1
return x0
",
        )
        .expect("program should parse"),
        &[],
    );
    assert_eq!(result, Ok(B(true)));
}

#[test]
fn call_return() {
    let program = Program {
        defns: vec![
            Defn {
                code: vec![
                    Const(0, 0),
                    Const(1, 1),
                    MkTup(0, 0, 2),
                    Const(1, 2),
                    Call(0, 1, 0),
                    Return(Some(0)),
                ],
                consts: vec![I(42), I(69), C(1)],
                local_count: 2,
            },
            Defn {
                code: vec![
                    Const(1, 0),
                    IdxTup(1, 0, 1),
                    Const(2, 1),
                    IdxTup(2, 0, 2),
                    Add(0, 1, 2),
                    Return(Some(0)),
                ],
                consts: vec![I(0), I(1)],
                local_count: 3,
            },
        ],
        entry_point: 0,
    };

    assert_eq!(run(&program, &[]).0, Ok(I(111)));
    assert_eq!(
        parse(
            b"
defn f0 2 : 42 69 f1
x0 := k0
x1 := k1
x0 := (x0..x2)
x1 := k2
x0 := x1(x0)
return x0

defn f1 3 : 0 1
x1 := k0
x1 := x0[x1]
x2 := k1
x2 := x0[x2]
x0 := x1 + x2
return x0
"
        ),
        Ok(program)
    );
}

#[test]
fn arith() {
    let program = Program {
        defns: vec![Defn {
            code: vec![
                Const(0, 0),
                Const(1, 1),
                Add(0, 0, 1),
                Mul(0, 0, 0),
                Const(1, 2),
                Rem(0, 0, 1),
                Const(1, 3),
                Div(0, 1, 0),
                Return(Some(0)),
            ],
            consts: vec![I(1), I(2), I(7), I(15)],
            local_count: 3,
        }],
        entry_point: 0,
    };
    assert_eq!(run(&program, &[]).0, Ok(I(15 / (((1 + 2) * (1 + 2)) % 7))));
}

#[test]
fn lib_io() {
    let program = Program {
        defns: vec![Defn {
            code: vec![Read(0), Read(1), Add(1, 1, 1), Write(1), Write(0)],
            consts: vec![],
            local_count: 2,
        }],
        entry_point: 0,
    };

    let (result, output) = run(&program, &[13, 2]);
    assert_eq!(result, Ok(T(Vec::new())));
    assert_eq!(output, vec![4, 13]);
}

#[test]
fn tests_io() {
    let program = Program {
        defns: vec![Defn {
            code: vec![Read(0), Read(1), Add(1, 1, 1), Write(1), Write(0)],
            consts: vec![],
            local_count: 2,
        }],
        entry_point: 0,
    };

    let (result, output) = run(&program, &[13, 2]);
    assert_eq!(result, Ok(T(Vec::new())));
    assert_eq!(output, vec![4, 13]);

    assert_eq!(
        parse(
            b"
defn f0 2 :
x0 :=read
x1 := read
x1 := x1 + x1
write x1
write x0
",
        ),
        Ok(Program {
            defns: vec![Defn {
                code: vec![Read(0), Read(1), Add(1, 1, 1), Write(1), Write(0)],
                consts: vec![],
                local_count: 2,
            }],
            entry_point: 0,
        })
    );
}

#[test]
fn determinism_same_result_twice() {
    let text = b"
defn f0 2 :
x0 := read
x1 := read
x1 := x1 + x1
write x1
write x0
";
    let program = parse(text).expect("program should parse");
    let first = run(&program, &[9, 4]);
    let second = run(&program, &[9, 4]);
    assert_eq!(first, second);
    assert_eq!(first.1, vec![8, 9]);
}

#[test]
fn value_equality_follows_kinds_and_ieee_floats() {
    let a = T(vec![I(1), T(vec![B(true), F((1.5f64).to_bits())])]);
    let b = T(vec![I(1), T(vec![B(true), F((1.5f64).to_bits())])]);
    let c = T(vec![I(1), T(vec![B(false), F((1.5f64).to_bits())])]);
    assert!(a.equals(&b));
    assert!(!a.equals(&c));
    assert!(a.duplicate().equals(&a));

    // Floats compare as IEEE values, inside tuples too: the zeroes are
    // equal, and NaN is not equal even to itself.
    assert!(F((0.0f64).to_bits()).equals(&F((-0.0f64).to_bits())));
    let nan = || F(f64::NAN.to_bits());
    assert!(!nan().equals(&nan()));
    assert!(!T(vec![nan()]).equals(&T(vec![nan()])));
}
