use crate::env::Env;
use crate::interp::expr::{eval_spec, matches_eval, Expr};
use crate::val::Val;
use vstd::prelude::*;

verus! {

/// One statement handed to the evaluator.
pub enum Stmt {
    Expr(Expr),
}

/// What evaluating a statement yields.
pub open spec fn stmt_eval_spec(st: Stmt, bindings: Seq<(String, Val)>) -> Result<Val, Seq<char>> {
    match st {
        Stmt::Expr(e) => eval_spec(e, bindings),
    }
}

impl Stmt {
    /// Evaluates the statement in the given environment: exactly what
    /// `stmt_eval_spec` says, value and error text alike.
    pub fn eval(&self, env: &Env) -> (r: Result<Val, String>)
        ensures
            matches_eval(r, stmt_eval_spec(*self, env.bindings@)),
    {
        match self {
            Stmt::Expr(e) => e.eval(env),
        }
    }
}

} // verus!
