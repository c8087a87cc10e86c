use crate::binding_def::BindingDef;
use crate::expr::{
    bd_head_ok, bd_tail, expr_visibly_impossible, expr_visibly_ok, let_prefix, parses_stmt, Expr,
};
use vstd::prelude::*;

verus! {

/// One statement of the little language: a binding definition, or an
/// expression evaluated for its value.
#[derive(Debug, PartialEq)]
pub enum Stmt {
    BindingDef(BindingDef),
    Expr(Expr),
}

impl Stmt {
    /// Reads a statement: a binding definition is tried first, and only on
    /// its refusal is the input read as an expression. Success yields
    /// exactly the related statement, and is owed whenever either reader
    /// visibly accepts.
    pub fn new(s: &str) -> (r: Result<(&str, Stmt), String>)
        ensures
            match r {
                Ok(p) => parses_stmt(s@, p.0@, p.1) && p.0@.len() < s@.len(),
                Err(_) => true,
            },
            (!let_prefix(s@) && expr_visibly_ok(s@)) ==> (r is Ok && r->Ok_0.1 is Expr),
            (bd_head_ok(s@) && expr_visibly_ok(bd_tail(s@))) ==> (r is Ok && r->Ok_0.1
                is BindingDef),
            (!let_prefix(s@) && expr_visibly_impossible(s@)) ==> r is Err,
        decreases s@.len(), 5int,
    {
        match BindingDef::new(s) {
            Ok((rest, bd)) => Ok((rest, Stmt::BindingDef(bd))),
            Err(_) => match Expr::new(s) {
                Ok((rest, e)) => Ok((rest, Stmt::Expr(e))),
                Err(m) => Err(m),
            },
        }
    }
}

} // verus!
