use tic_tac::bytecode::Instr::{Add, Call, Const, CondJump, Div, IdxTup, Jump, Leq, Lt, MkTup, Mul, Orr, Read, Rem, Return, Sub, Write, Xor, And, Neq, Gt, Geq};
use tic_tac::bytecode::Instr;
use tic_tac::bytecode::Val::{C, I, T};
use tic_tac::bytecode::{Defn, Program, Val};
use tic_tac::parse::parse;

fn two_function_program() -> Program {
    Program {
        defns: vec![
            Defn {
                code: vec![
                    Const(0, 0),
                    Const(1, 1),
                    MkTup(0, 0, 2),
                    Const(1, 2),
                    Call(0, 1, 0),
                    Return(Some(0)),
                ],
                consts: vec![I(42), I(69), C(1)],
                local_count: 2,
            },
            Defn {
                code: vec![
                    Const(1, 0),
                    IdxTup(1, 0, 1),
                    Const(2, 1),
                    IdxTup(2, 0, 2),
                    Add(0, 1, 2),
                    Return(Some(0)),
                ],
                consts: vec![I(0), I(1)],
                local_count: 3,
            },
        ],
        entry_point: 0,
    }
}

#[test]
fn test_format() {
    let expected = "defn f0 2 : 42 69 f1
    x0 := k0
    x1 := k1
    x0 := (x0..x2)
    x1 := k2
    x0 := x1(x0)
    return x0

defn f1 3 : 0 1
    x1 := k0
    x1 := x0[x1]
    x2 := k1
    x2 := x0[x2]
    x0 := x1 + x2
    return x0";
    assert_eq!(two_function_program().render(), expected.as_bytes().to_vec());
}

#[test]
fn round_trip_two_function_program() {
    // Parsing the rendered form of the program yields an equal program,
    // and the program computes 42 + 69.
    let program = two_function_program();
    let rendered = program.render();
    let reparsed = parse(&rendered).expect("the rendered form should parse");
    assert_eq!(reparsed, program);

    let mut output = Vec::new();
    let result = reparsed.eval(&Vec::new(), &mut output, 1_000_000).unwrap();
    assert_eq!(result, Ok(I(111)));
    assert_eq!(output, Vec::<u8>::new());
}

#[test]
fn render_instruction_lines() {
    assert_eq!(Jump(-3).render(), b"jump -3".to_vec());
    assert_eq!(CondJump(7, 2, -1).render(), b"cond x7 2 -1".to_vec());
    assert_eq!(Return(None).render(), b"return".to_vec());
    assert_eq!(Read(4).render(), b"x4 := read".to_vec());
    assert_eq!(Write(9).render(), b"write x9".to_vec());
    assert_eq!(Leq(1, 2, 3).render(), b"x1 := x2 <= x3".to_vec());
}

#[test]
fn render_values() {
    assert_eq!(Val::B(true).render(), b"true".to_vec());
    assert_eq!(Val::I(-170).render(), b"-170".to_vec());
    assert_eq!(Val::I(i64::MIN).render(), b"-9223372036854775808".to_vec());
    assert_eq!(Val::C(12).render(), b"f12".to_vec());
    assert_eq!(
        T(vec![I(1), T(vec![]), Val::B(false)]).render(),
        b"(1, (), false)".to_vec()
    );
}

#[test]
fn round_trip_extreme_integer_constants() {
    let program = Program {
        defns: vec![Defn {
            code: vec![Return(Some(0))],
            consts: vec![I(i64::MIN), I(i64::MAX), I(0)],
            local_count: 1,
        }],
        entry_point: 0,
    };
    let reparsed = parse(&program.render()).expect("the rendered form should parse");
    assert_eq!(reparsed, program);
}

#[test]
fn every_instruction_form_round_trips() {
    let program = Program {
        defns: vec![Defn {
            code: vec![
                Const(1, 2),
                Instr::Copy(3, 4),
                Add(0, 1, 2),
                Sub(0, 1, 2),
                Mul(0, 1, 2),
                Div(0, 1, 2),
                Rem(0, 1, 2),
                And(0, 1, 2),
                Orr(0, 1, 2),
                Xor(0, 1, 2),
                Instr::Eq(0, 1, 2),
                Neq(0, 1, 2),
                Lt(0, 1, 2),
                Gt(0, 1, 2),
                Leq(0, 1, 2),
                Geq(0, 1, 2),
                Jump(-7),
                CondJump(5, -3, 4),
                MkTup(1, 2, 3),
                IdxTup(0, 1, 2),
                Call(0, 1, 2),
                Return(None),
                Return(Some(9)),
                Read(200),
                Write(255),
            ],
            consts: vec![],
            local_count: 255,
        }],
        entry_point: 0,
    };
    assert_eq!(parse(&program.render()), Ok(program));
}
