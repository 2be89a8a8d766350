use tic_tac::bytecode::EvalError;
use tic_tac::bytecode::Instr::{Add, Call, Const, CondJump, Div, IdxTup, Jump, Leq, Lt, MkTup, Mul, Orr, Read, Rem, Return, Sub, Write, Xor, And, Neq, Gt, Geq};
use tic_tac::bytecode::Instr;
use tic_tac::bytecode::Val::{B, F, I, T};
use tic_tac::bytecode::{Defn, Program, Val};
use tic_tac::parse::parse;
use tic_tac::parse_util::ParseError;
use tic_tac::ast::{Binop, Expr, FunctionCtx, Name, Stmt};

const FUEL: u64 = 1_000_000;

fn run(program: &Program, input: &[u8]) -> (Result<Val, EvalError>, Vec<u8>) {
    let mut output = Vec::new();
    let result = program
        .eval(&input.to_vec(), &mut output, FUEL)
        .expect("program should finish within the test fuel");
    (result, output)
}

fn one_op(op: tic_tac::bytecode::Instr, consts: Vec<Val>) -> Program {
    Program {
        defns: vec![Defn {
            code: vec![Const(0, 0), Const(1, 1), op, Return(Some(2))],
            consts,
            local_count: 3,
        }],
        entry_point: 0,
    }
}

#[test]
fn int_add_overflow_fails() {
    let program = one_op(Add(2, 0, 1), vec![I(i64::MAX), I(1)]);
    assert_eq!(run(&program, &[]).0, Err(EvalError::Overflow));
}

#[test]
fn float_add_of_max_never_fails() {
    let program = one_op(
        Add(2, 0, 1),
        vec![F(f64::MAX.to_bits()), F((1.0f64).to_bits())],
    );
    assert_eq!(run(&program, &[]).0, Ok(F((f64::MAX + 1.0).to_bits())));
}

#[test]
fn float_arithmetic_matches_hardware() {
    let program = one_op(
        Add(2, 0, 1),
        vec![F((1.5f64).to_bits()), F((2.25f64).to_bits())],
    );
    assert_eq!(run(&program, &[]).0, Ok(F((3.75f64).to_bits())));

    let program = one_op(
        Mul(2, 0, 1),
        vec![F((1.5f64).to_bits()), F((-2.0f64).to_bits())],
    );
    assert_eq!(run(&program, &[]).0, Ok(F((-3.0f64).to_bits())));
}

#[test]
fn int_division_by_zero_fails() {
    let program = one_op(Div(2, 0, 1), vec![I(7), I(0)]);
    assert_eq!(run(&program, &[]).0, Err(EvalError::DivideByZero));
    let program = one_op(Rem(2, 0, 1), vec![I(7), I(0)]);
    assert_eq!(run(&program, &[]).0, Err(EvalError::DivideByZero));
}

#[test]
fn int_division_truncates_and_min_overflow_fails() {
    let program = one_op(Div(2, 0, 1), vec![I(-7), I(2)]);
    assert_eq!(run(&program, &[]).0, Ok(I(-3)));
    let program = one_op(Rem(2, 0, 1), vec![I(-7), I(2)]);
    assert_eq!(run(&program, &[]).0, Ok(I(-1)));
    let program = one_op(Div(2, 0, 1), vec![I(i64::MIN), I(-1)]);
    assert_eq!(run(&program, &[]).0, Err(EvalError::Overflow));
}

#[test]
fn float_division_by_zero_is_not_a_failure() {
    let program = one_op(
        Div(2, 0, 1),
        vec![F((1.0f64).to_bits()), F((0.0f64).to_bits())],
    );
    assert_eq!(run(&program, &[]).0, Ok(F(f64::INFINITY.to_bits())));

    let program = one_op(
        Div(2, 0, 1),
        vec![F((0.0f64).to_bits()), F((0.0f64).to_bits())],
    );
    let result = run(&program, &[]).0.expect("zero over zero must not fail");
    match result {
        F(bits) => assert!(f64::from_bits(bits).is_nan()),
        other => panic!("expected a float, got {:?}", other),
    }
}

#[test]
fn float_comparisons_follow_ieee() {
    let lt = |a: f64, b: f64| {
        let program = one_op(Lt(2, 0, 1), vec![F(a.to_bits()), F(b.to_bits())]);
        run(&program, &[]).0
    };
    assert_eq!(lt(1.0, 2.0), Ok(B(true)));
    assert_eq!(lt(2.0, 1.0), Ok(B(false)));
    assert_eq!(lt(-0.0, 0.0), Ok(B(false)));
    assert_eq!(lt(f64::NAN, 1.0), Ok(B(false)));
    assert_eq!(lt(1.0, f64::NAN), Ok(B(false)));
    assert_eq!(lt(f64::NEG_INFINITY, f64::MIN), Ok(B(true)));
}

#[test]
fn empty_tuple_ignores_start_register() {
    // Two different (unused) start registers give equal empty tuples.
    let with_start = |start: u8| {
        let program = Program {
            defns: vec![Defn {
                code: vec![MkTup(0, start, 0), Return(Some(0))],
                consts: vec![],
                local_count: 1,
            }],
            entry_point: 0,
        };
        run(&program, &[]).0
    };
    assert_eq!(with_start(0), Ok(T(Vec::new())));
    assert_eq!(with_start(200), Ok(T(Vec::new())));
    assert_eq!(with_start(0), with_start(200));
}

#[test]
fn indexing_three_tuple_at_three_fails() {
    let program = Program {
        defns: vec![Defn {
            code: vec![
                Const(0, 0),
                Const(1, 0),
                Const(2, 0),
                MkTup(0, 0, 3),
                Const(1, 1),
                IdxTup(2, 0, 1),
                Return(Some(2)),
            ],
            consts: vec![I(7), I(3)],
            local_count: 3,
        }],
        entry_point: 0,
    };
    assert_eq!(run(&program, &[]).0, Err(EvalError::OutOfRange));
}

#[test]
fn register_out_of_range_fails() {
    let program = Program {
        defns: vec![Defn {
            code: vec![Const(5, 0)],
            consts: vec![I(1)],
            local_count: 1,
        }],
        entry_point: 0,
    };
    assert_eq!(run(&program, &[]).0, Err(EvalError::OutOfRange));
}

#[test]
fn invalid_entry_point_fails() {
    let program = Program { defns: vec![], entry_point: 0 };
    assert_eq!(run(&program, &[]).0, Err(EvalError::InvalidFunction));
}

#[test]
fn call_of_non_function_fails() {
    let program = Program {
        defns: vec![Defn {
            code: vec![Const(0, 0), Call(0, 0, 0)],
            consts: vec![I(1)],
            local_count: 1,
        }],
        entry_point: 0,
    };
    assert_eq!(run(&program, &[]).0, Err(EvalError::InvalidFunction));
}

#[test]
fn read_past_end_of_input_fails() {
    let program = Program {
        defns: vec![Defn {
            code: vec![Read(0), Read(0)],
            consts: vec![],
            local_count: 1,
        }],
        entry_point: 0,
    };
    let (result, output) = run(&program, &[65]);
    assert_eq!(result, Err(EvalError::IoFailure));
    assert_eq!(output, Vec::<u8>::new());
}

#[test]
fn write_keeps_bytes_before_a_failure() {
    let program = Program {
        defns: vec![Defn {
            code: vec![Const(0, 0), Write(0), Const(0, 1), Write(0)],
            consts: vec![I(300), B(true)],
            local_count: 1,
        }],
        entry_point: 0,
    };
    let (result, output) = run(&program, &[]);
    // 300 & 0xff == 44; the boolean write then fails, but the byte stays.
    assert_eq!(result, Err(EvalError::TypeMismatch));
    assert_eq!(output, vec![44]);
}

#[test]
fn fuel_exhaustion_returns_none() {
    let program = parse(b"\ndefn f0 1 :\njump 0\n").expect("program should parse");
    let mut output = Vec::new();
    assert_eq!(program.eval(&Vec::new(), &mut output, 10_000), None);
}

#[test]
fn implicit_return_past_end() {
    let program = Program {
        defns: vec![Defn {
            code: vec![Const(0, 0)],
            consts: vec![I(5)],
            local_count: 1,
        }],
        entry_point: 0,
    };
    assert_eq!(run(&program, &[]).0, Ok(T(Vec::new())));
}

#[test]
fn float_constants_parse() {
    let program = parse(b"\ndefn f0 1 : 1.5 -2.25\nx0 := k0\nreturn x0\n")
        .expect("program should parse");
    assert_eq!(
        program.defns[0].consts,
        vec![F((1.5f64).to_bits()), F((-2.25f64).to_bits())]
    );
    assert_eq!(run(&program, &[]).0, Ok(F((1.5f64).to_bits())));
}

#[test]
fn parse_errors_carry_position() {
    // An instruction outside any definition.
    match parse(b"\nx0 := k0\n") {
        Err(ParseError::Expected { msg, row, span }) => {
            assert_eq!(msg, b"to be inside a definition".to_vec());
            assert_eq!(row, 2);
            assert_eq!(span, Some((0, 0)));
        }
        other => panic!("expected a parse error, got {:?}", other),
    }

    // A header with the wrong function number.
    match parse(b"defn f1 2 :") {
        Err(ParseError::Expected { msg, row, .. }) => {
            assert_eq!(msg, b"function id f0, got f1".to_vec());
            assert_eq!(row, 1);
        }
        other => panic!("expected a parse error, got {:?}", other),
    }

    // Trailing text after a complete instruction.
    match parse(b"defn f0 1 :\nreturn x0 extra") {
        Err(ParseError::Expected { msg, row, .. }) => {
            assert_eq!(msg, b"end of input".to_vec());
            assert_eq!(row, 2);
        }
        other => panic!("expected a parse error, got {:?}", other),
    }

    // A bad constant is reported just past the token.
    match parse(b"defn f0 1 : zebra") {
        Err(ParseError::Expected { msg, row, .. }) => {
            assert_eq!(msg, b"a constant".to_vec());
            assert_eq!(row, 1);
        }
        other => panic!("expected a parse error, got {:?}", other),
    }
}

#[test]
fn plus_signed_integer_constants_parse() {
    let program = parse(b"defn f0 1 : +5 -6\nx0 := k0\nreturn x0").expect("program should parse");
    assert_eq!(program.defns[0].consts, vec![I(5), I(-6)]);
}

#[test]
fn comparisons_on_integers_and_booleans() {
    let gt = one_op(Gt(2, 0, 1), vec![I(5), I(3)]);
    assert_eq!(run(&gt, &[]).0, Ok(B(true)));
    let geq = one_op(Geq(2, 0, 1), vec![I(3), I(3)]);
    assert_eq!(run(&geq, &[]).0, Ok(B(true)));
    let neq = one_op(Neq(2, 0, 1), vec![I(3), B(true)]);
    assert_eq!(run(&neq, &[]).0, Ok(B(true)));
    let lt_bool = one_op(Lt(2, 0, 1), vec![B(false), B(true)]);
    assert_eq!(run(&lt_bool, &[]).0, Ok(B(true)));
    let lt_mixed = one_op(Lt(2, 0, 1), vec![I(1), B(true)]);
    assert_eq!(run(&lt_mixed, &[]).0, Err(EvalError::TypeMismatch));
}

#[test]
fn compiled_code_runs_on_the_engine() {
    let x = Name { id: 0 };
    let stmts = vec![
        Stmt::Declare(x),
        Stmt::Assign(
            x,
            Expr::Binop(Binop::Add, Box::new(Expr::Lit(I(6))), Box::new(Expr::Lit(I(7)))),
        ),
    ];
    let mut ctx = FunctionCtx::new();
    let mut code = ctx.compile(&stmts);
    code.push(Return(Some(0)));
    let program = Program {
        defns: vec![Defn { code, consts: ctx.consts, local_count: ctx.max_reg }],
        entry_point: 0,
    };
    assert_eq!(run(&program, &[]).0, Ok(I(13)));
}

#[test]
fn float_remainder_matches_hardware() {
    let program = one_op(
        Rem(2, 0, 1),
        vec![F((5.5f64).to_bits()), F((2.0f64).to_bits())],
    );
    assert_eq!(run(&program, &[]).0, Ok(F((5.5f64 % 2.0f64).to_bits())));

    let program = one_op(
        Sub(2, 0, 1),
        vec![F((1.0f64).to_bits()), F((0.75f64).to_bits())],
    );
    assert_eq!(run(&program, &[]).0, Ok(F((0.25f64).to_bits())));
}

#[test]
fn carriage_return_line_endings_parse() {
    let unix = parse(b"defn f0 1 : 7\nx0 := k0\nreturn x0\n").expect("should parse");
    let dos = parse(b"defn f0 1 : 7\r\nx0 := k0\r\nreturn x0\r\n").expect("should parse");
    assert_eq!(unix, dos);
}

#[test]
fn float_token_grammar_is_decimal_only() {
    // Exponent forms and bare-dot fringes of the decimal grammar parse.
    let program = parse(b"defn f0 1 : 1.5e3 2.5E-1 .5 1. +0.5")
        .expect("decimal float forms should parse");
    assert_eq!(
        program.defns[0].consts,
        vec![
            F((1.5e3f64).to_bits()),
            F((2.5e-1f64).to_bits()),
            F((0.5f64).to_bits()),
            F((1.0f64).to_bits()),
            F((0.5f64).to_bits()),
        ]
    );

    // Hex-float literals, dotted exponents without digits and doubled
    // dots are not constants.
    for bad in [
        b"defn f0 1 : 0x1.8p3".as_slice(),
        b"defn f0 1 : 1.5e".as_slice(),
        b"defn f0 1 : 1.2.3".as_slice(),
        b"defn f0 1 : 1.5e+".as_slice(),
    ] {
        match parse(bad) {
            Err(ParseError::Expected { msg, .. }) => {
                assert_eq!(msg, b"a constant".to_vec());
            }
            other => panic!("expected a constant error, got {:?}", other),
        }
    }
}

#[test]
fn boolean_xor_works() {
    // Xor overloads boolean logic like And and Orr.
    let program = one_op(Xor(2, 0, 1), vec![B(true), B(false)]);
    assert_eq!(run(&program, &[]).0, Ok(B(true)));
    let program = one_op(Xor(2, 0, 1), vec![B(true), B(true)]);
    assert_eq!(run(&program, &[]).0, Ok(B(false)));
    let program = one_op(Xor(2, 0, 1), vec![B(true), I(1)]);
    assert_eq!(run(&program, &[]).0, Err(EvalError::TypeMismatch));

    let program = parse(
        b"\ndefn f0 2 : true false\nx0 := k0\nx1 := k1\nx0 := x0 ^ x1\nreturn x0\n",
    )
    .expect("program should parse");
    assert_eq!(run(&program, &[]).0, Ok(B(true)));
}

#[test]
fn float_equality_is_ieee() {
    // The two zeroes are equal; NaN is not equal even to itself.
    let program = one_op(
        Instr::Eq(2, 0, 1),
        vec![F((0.0f64).to_bits()), F((-0.0f64).to_bits())],
    );
    assert_eq!(run(&program, &[]).0, Ok(B(true)));
    let program = one_op(
        Instr::Eq(2, 0, 1),
        vec![F(f64::NAN.to_bits()), F(f64::NAN.to_bits())],
    );
    assert_eq!(run(&program, &[]).0, Ok(B(false)));
    let program = one_op(
        Neq(2, 0, 1),
        vec![F(f64::NAN.to_bits()), F(f64::NAN.to_bits())],
    );
    assert_eq!(run(&program, &[]).0, Ok(B(true)));
}
