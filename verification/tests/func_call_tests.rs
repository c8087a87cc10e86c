use felix_flow::env::Env;
use felix_flow::interp::expr::func_call::FuncCall;
use felix_flow::interp::expr::{BindingUsage, Expr, Number, Op};
use felix_flow::interp::stmt::Stmt;
use felix_flow::val::Val;

#[test]
fn parse_func_call_one_params() {
    assert_eq!(
        FuncCall::new("factorial 10"),
        Ok((
            "",
            FuncCall { callee: "factorial".to_string(), params: vec![Expr::Number(Number(10))] },
        )),
    );
}

#[test]
fn eval_func_call() {
    let mut env = Env::default();

    env.store_func(
        "id".to_string(),
        vec!["x".to_string()],
        Stmt::Expr(Expr::BindingUsage(BindingUsage { name: "x".to_string() })),
    );

    assert_eq!(
        FuncCall { callee: "id".to_string(), params: vec![Expr::Number(Number(10))] }.eval(&env),
        Ok(Val::Number(10)),
    );
}

#[test]
fn eval_non_existing_func_call() {
    let env = Env::default();
    assert_eq!(
        FuncCall { callee: "i_dont_exist".to_string(), params: vec![Expr::Number(Number(1))] }
            .eval(&env),
        Err("function with name 'i_dont_exist' does not exist".to_string()),
    );
}

#[test]
fn eval_func_call_with_too_few_params() {
    let mut env = Env::default();

    env.store_func(
        "mul".to_string(),
        vec!["a".to_string(), "b".to_string()],
        Stmt::Expr(Expr::Operation {
            lhs: Box::new(Expr::BindingUsage(BindingUsage { name: "a".to_string() })),
            rhs: Box::new(Expr::BindingUsage(BindingUsage { name: "b".to_string() })),
            op: Op::Mul,
        }),
    );

    assert_eq!(
        FuncCall { callee: "mul".to_string(), params: vec![Expr::Number(Number(100))] }.eval(&env),
        Err("expected 2 parameters, got 1".to_string()),
    );
}

#[test]
fn eval_func_with_too_many_params() {
    let mut env = Env::default();

    env.store_func(
        "mul".to_string(),
        vec!["a".to_string(), "b".to_string()],
        Stmt::Expr(Expr::Operation {
            lhs: Box::new(Expr::BindingUsage(BindingUsage { name: "a".to_string() })),
            rhs: Box::new(Expr::BindingUsage(BindingUsage { name: "b".to_string() })),
            op: Op::Mul,
        }),
    );

    assert_eq!(
        FuncCall {
            callee: "mul".to_string(),
            params: vec![
                Expr::Number(Number(100)),
                Expr::Number(Number(100)),
                Expr::Number(Number(100)),
            ],
        }
        .eval(&env),
        Err("expected 2 parameters, got 3".to_string()),
    );
}
