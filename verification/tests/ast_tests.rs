use tic_tac::ast::{Binop, Expr, FunctionCtx, Name, Stmt};
use tic_tac::bytecode::Instr::{Add, Call, Const, CondJump, Div, IdxTup, Jump, Leq, Lt, MkTup, Mul, Orr, Read, Rem, Return, Sub, Write, Xor, And, Neq, Gt, Geq};
use tic_tac::bytecode::Instr;
use tic_tac::bytecode::Val::{B, F, I};

#[test]
fn test_compile_lit() {
    let expr = Expr::Lit(I(42));
    let mut ctx = FunctionCtx::new();

    let result = (0, vec![Const(0, 0)]);
    assert_eq!(ctx.compile_expr(&expr), result);
    assert_eq!(
        ctx,
        FunctionCtx { vars: vec![], consts: vec![I(42)], free_reg: 1, max_reg: 1 }
    );
}

#[test]
fn test_compile_raw_lit() {
    let stmt = Stmt::RawExpr(Expr::Lit(I(42)));
    let mut ctx = FunctionCtx::new();

    let result = vec![Const(0, 0)];
    assert_eq!(ctx.compile_stmt(&stmt), result);
    assert_eq!(
        ctx,
        FunctionCtx { vars: vec![], consts: vec![I(42)], free_reg: 0, max_reg: 1 }
    );
}

#[test]
fn test_compile_var() {
    let name = Name { id: 0 };
    let mut ctx = FunctionCtx::new();
    let code = vec![Stmt::Declare(name.clone()), Stmt::RawExpr(Expr::Var(name.clone()))];

    let result = vec![];
    assert_eq!(ctx.compile(&code), result);
    assert_eq!(
        ctx,
        FunctionCtx { vars: vec![name], consts: vec![], free_reg: 1, max_reg: 1 }
    );
}

#[test]
fn test_compile_binop() {
    let name = Name { id: 0 };
    let code = vec![
        Stmt::Declare(name),
        Stmt::Assign(
            name,
            Expr::Binop(Binop::Add, Box::new(Expr::Var(name)), Box::new(Expr::Lit(I(69)))),
        ),
    ];
    let mut ctx = FunctionCtx::new();

    // decl x0
    // x2 := k0
    // x1 := x0 + x2
    // x0 := x1
    let result = vec![Const(2, 0), Add(1, 0, 2), Instr::Copy(0, 1)];
    assert_eq!(ctx.compile(&code), result);
    assert_eq!(
        ctx,
        FunctionCtx { vars: vec![name], consts: vec![I(69)], free_reg: 1, max_reg: 3 }
    );
}

#[test]
fn test_compile_mktup() {
    let name = Name { id: 0 };
    let code = vec![
        Stmt::Declare(name),
        Stmt::Assign(
            name,
            Expr::Mktup(vec![
                Expr::Lit(I(42)),
                Expr::Lit(B(true)),
                Expr::Binop(Binop::Add, Box::new(Expr::Lit(I(6))), Box::new(Expr::Lit(I(7)))),
            ]),
        ),
    ];
    let mut ctx = FunctionCtx::new();

    let result = vec![
        // register 0 reserved by x
        // register 1 reserved due to assignment (inefficient!)
        Const(2, 0), // 42
        Const(3, 1), // true
        // result of 6 + 7 stored in register 4
        Const(5, 2), // 6
        Const(6, 3), // 7
        Add(4, 5, 6),
        MkTup(1, 2, 3),
        Instr::Copy(0, 1), // x0 := x1
    ];
    assert_eq!(ctx.compile(&code), result);
    assert_eq!(
        ctx,
        FunctionCtx {
            vars: vec![name],
            consts: vec![I(42), B(true), I(6), I(7)],
            free_reg: 1,
            max_reg: 7,
        }
    );
}

#[test]
fn test_compile_empty_tuple() {
    let name = Name { id: 0 };
    let code = vec![Stmt::Declare(name), Stmt::Assign(name, Expr::Mktup(vec![]))];
    let mut ctx = FunctionCtx::new();

    let result = vec![
        // register 0 reserved by x
        // register 1 reserved due to assignment (inefficient!)
        MkTup(1, 0, 0),
        Instr::Copy(0, 1), // x0 := x1
    ];

    assert_eq!(ctx.compile(&code), result);
    assert_eq!(
        ctx,
        FunctionCtx { vars: vec![name], consts: vec![], free_reg: 1, max_reg: 2 }
    );
}

#[test]
fn test_compile_declare() {
    let name = Name { id: 0 };
    let stmt = Stmt::Declare(name);
    let mut ctx = FunctionCtx::new();

    let result = vec![];
    assert_eq!(ctx.compile_stmt(&stmt), result);
    assert_eq!(
        ctx,
        FunctionCtx { vars: vec![name], consts: vec![], free_reg: 1, max_reg: 1 }
    );
}

#[test]
fn test_compile_assign() {
    let name = Name { id: 0 };

    let code = vec![Stmt::Declare(name), Stmt::Assign(name, Expr::Lit(I(69)))];
    let mut ctx = FunctionCtx::new();

    let result = vec![Const(1, 0), Instr::Copy(0, 1)];
    assert_eq!(ctx.compile(&code), result);
    assert_eq!(
        ctx,
        FunctionCtx { vars: vec![name], consts: vec![I(69)], free_reg: 1, max_reg: 2 }
    );
}

#[test]
fn test_compile_if() {
    let name = Name { id: 0 };
    let code = vec![
        Stmt::Declare(name),
        Stmt::Assign(name, Expr::Lit(I(42))),
        Stmt::If(
            Expr::Binop(Binop::Eq, Box::new(Expr::Var(name)), Box::new(Expr::Lit(I(69)))),
            vec![Stmt::RawExpr(Expr::Lit(I(42)))],
            vec![Stmt::RawExpr(Expr::Lit(I(13)))],
        ),
    ];
    let mut ctx = FunctionCtx::new();

    let result = vec![
        Const(1, 0),     // k0 (42)
        Instr::Copy(0, 1),      // x0 = k0 (42)
        Const(2, 1),     // k1 (69)
        Instr::Eq(1, 0, 2),     // x1 = x0 == 69
        CondJump(1, 2, 1),
        Jump(3),         // jump to false
        Const(1, 0),     // true block
        Jump(2),         // jump over false
        Const(1, 2),     // false block
    ];

    assert_eq!(ctx.compile(&code), result);
    assert_eq!(
        ctx,
        FunctionCtx { vars: vec![name], consts: vec![I(42), I(69), I(13)], free_reg: 1, max_reg: 3 }
    );
}

#[test]
fn test_const_pool_dedup() {
    // The same literal twice lands on one pool slot; a new literal gets
    // the next first-seen index.
    let code = vec![
        Stmt::RawExpr(Expr::Binop(
            Binop::Add,
            Box::new(Expr::Lit(I(7))),
            Box::new(Expr::Lit(I(7))),
        )),
        Stmt::RawExpr(Expr::Lit(I(9))),
    ];
    let mut ctx = FunctionCtx::new();
    let result = vec![Const(1, 0), Const(2, 0), Add(0, 1, 2), Const(0, 1)];
    assert_eq!(ctx.compile(&code), result);
    assert_eq!(ctx.consts, vec![I(7), I(9)]);
    assert_eq!(ctx.free_reg, 0);
    assert_eq!(ctx.max_reg, 3);
}

#[test]
fn redeclared_name_rebinds_to_newest_register() {
    // A second declaration of the same name reserves a new register and
    // rebinds the name to it; references resolve to the newest register.
    let x = Name { id: 0 };
    let code = vec![
        Stmt::Declare(x),
        Stmt::Declare(x),
        Stmt::Assign(x, Expr::Lit(I(5))),
    ];
    let mut ctx = FunctionCtx::new();
    let result = vec![Const(2, 0), Instr::Copy(1, 2)];
    assert_eq!(ctx.compile(&code), result);
    assert_eq!(ctx.vars, vec![x, x]);
    assert_eq!(ctx.free_reg, 2);
    assert_eq!(ctx.max_reg, 3);
}

#[test]
fn const_pool_dedup_uses_ieee_float_equality() {
    // Negative zero reuses positive zero's slot; each NaN literal gets a
    // fresh slot, since a NaN equals nothing.
    let code = vec![
        Stmt::RawExpr(Expr::Lit(F((0.0f64).to_bits()))),
        Stmt::RawExpr(Expr::Lit(F((-0.0f64).to_bits()))),
        Stmt::RawExpr(Expr::Lit(F(f64::NAN.to_bits()))),
        Stmt::RawExpr(Expr::Lit(F(f64::NAN.to_bits()))),
    ];
    let mut ctx = FunctionCtx::new();
    let result = vec![Const(0, 0), Const(0, 0), Const(0, 1), Const(0, 2)];
    assert_eq!(ctx.compile(&code), result);
    assert_eq!(
        ctx.consts,
        vec![F((0.0f64).to_bits()), F(f64::NAN.to_bits()), F(f64::NAN.to_bits())]
    );
}
