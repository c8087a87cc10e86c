use felix_flow::binding_def::BindingDef;
use felix_flow::block::Block;
use felix_flow::env::Env;
use felix_flow::expr::block::Block as ExprBlock;
use felix_flow::expr::{Expr, Number, Op};
use felix_flow::stmt::Stmt;
use felix_flow::val::Val;

#[test]
fn block_parse_empty_block() {
    assert_eq!(Block::new("{}"), Ok(("", Block { stmts: Vec::new() })));
    assert_eq!(ExprBlock::new("{}"), Ok(("", ExprBlock { stmts: Vec::new() })));
}

#[test]
fn block_parse_empty_block_with_whitespace() {
    assert_eq!(Block::new("{   }"), Ok(("", Block { stmts: Vec::new() })));
    assert_eq!(ExprBlock::new("{   }"), Ok(("", ExprBlock { stmts: Vec::new() })));
}

#[test]
fn block_parse_block_with_one_statements() {
    assert_eq!(
        Block::new("{ 5 }"),
        Ok(("", Block { stmts: vec![Stmt::Expr(Expr::Number(Number(5)))] })),
    );
    assert_eq!(
        ExprBlock::new("{ 5 }"),
        Ok(("", ExprBlock { stmts: vec![Stmt::Expr(Expr::Number(Number(5)))] })),
    );
}

#[test]
fn parse_block_with_multiple_statements() {
    assert_eq!(
        ExprBlock::new(
            "{
    let a = 10
    let b = a
    b
}",
        ),
        Ok((
            "",
            ExprBlock {
                stmts: vec![
                    Stmt::BindingDef(BindingDef {
                        name: "a".to_string(),
                        val: Expr::Number(Number(10)),
                    }),
                    Stmt::BindingDef(BindingDef {
                        name: "b".to_string(),
                        val: Expr::BindingUsage(felix_flow::expr::BindingUsage {
                            name: "a".to_string(),
                        }),
                    }),
                    Stmt::Expr(Expr::BindingUsage(felix_flow::expr::BindingUsage {
                        name: "b".to_string(),
                    })),
                ],
            },
        )),
    );
}

#[test]
fn eval_empty_block() {
    assert_eq!(ExprBlock { stmts: Vec::new() }.eval(&Env::default()), Ok(Val::Unit));
}

#[test]
fn eval_block_with_one_expr() {
    assert_eq!(
        ExprBlock { stmts: vec![Stmt::Expr(Expr::Number(Number(25)))] }.eval(&Env::default()),
        Ok(Val::Number(25)),
    );
}

#[test]
fn parse_binding_def() {
    assert_eq!(
        Stmt::new("let a = 10"),
        Ok((
            "",
            Stmt::BindingDef(BindingDef { name: "a".to_string(), val: Expr::Number(Number(10)) }),
        )),
    );
}

#[test]
fn eval_division_by_zero_is_refused() {
    let e = Expr::Operation { lhs: Number(1), rhs: Number(0), op: Op::Div };
    assert_eq!(e.eval(&Env::default()), Err("division by zero".to_string()));
}

#[test]
fn numbers_beyond_the_machine_range_are_refused() {
    assert_eq!(
        Number::new("99999999999"),
        Err("number too large".to_string()),
    );
    assert_eq!(Number::new("2147483647"), Ok(("", Number(2147483647))));
}

#[test]
fn eval_wraps_around_on_overflow() {
    let e = Expr::Operation { lhs: Number(2147483647), rhs: Number(1), op: Op::Add };
    assert_eq!(e.eval(&Env::default()), Ok(Val::Number(-2147483648)));
}

#[test]
fn missing_binding_reports_its_name() {
    let env = Env::default();
    assert_eq!(
        env.get_binding("ghost_town"),
        Err("binding with name 'ghost_town' does not exist".to_string()),
    );
}

#[test]
fn parse_expr() {
    assert_eq!(
        Stmt::new("5+5"),
        Ok(("", Stmt::Expr(Expr::Operation { lhs: Number(5), rhs: Number(5), op: Op::Add }))),
    );
}
