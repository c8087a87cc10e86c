use crate::expr::{
    bd_head_ok, bd_name, bd_tail, expr_visibly_ok, let_prefix, parses_binding_def, Expr,
};
use crate::interp::utils;
use crate::lexer::{is_whitespace_char, run_len};
use vstd::prelude::*;
use vstd::string::*;

verus! {

/// A `let` statement: a name bound to the value of an expression.
#[derive(Debug, PartialEq)]
pub struct BindingDef {
    pub name: String,
    pub val: Expr,
}

impl BindingDef {
    /// Reads `let <name> = <expression>`: the result is exactly the related
    /// definition; without the `let` keyword it refuses, and with a readable
    /// head and a visibly readable value it is owed.
    pub fn new(s: &str) -> (r: Result<(&str, BindingDef), String>)
        ensures
            match r {
                Ok(p) => parses_binding_def(s@, p.0@, p.1) && p.0@.len() < s@.len(),
                Err(_) => true,
            },
            !let_prefix(s@) ==> r is Err,
            (bd_head_ok(s@) && expr_visibly_ok(bd_tail(s@))) ==> r is Ok,
        decreases s@.len(), 4int,
    {
        let s1 = match utils::tag("let", s) {
            Ok(rest) => rest,
            Err(m) => {
                proof {
                    reveal_strlit("let");
                    assert("let"@ =~= seq!['l', 'e', 't']);
                    if let_prefix(s@) {
                        assert(s@.take(3) =~= seq!['l', 'e', 't']);
                    }
                }
                return Err(m);
            },
        };
        proof {
            reveal_strlit("let");
            assert("let"@ =~= seq!['l', 'e', 't']);
            assert(s@.take(3)[0] == s@[0] && s@.take(3)[1] == s@[1] && s@.take(3)[2] == s@[2]);
        }
        let (s2, _) = match utils::extract_whitespace1(s1) {
            Ok(p) => p,
            Err(m) => {
                return Err(m);
            },
        };
        proof {
            crate::lexer::lemma_run_len_bounds(s1@, |c: char| is_whitespace_char(c));
        }
        let (s3, name) = match utils::extract_ident(s2) {
            Ok(p) => p,
            Err(m) => {
                return Err(m);
            },
        };
        proof {
            crate::lexer::lemma_run_len_bounds(s2@, |c: char| crate::lexer::is_alnum_char(c));
        }
        let (s4, _) = utils::extract_whitespace(s3);
        proof {
            crate::lexer::lemma_run_len_bounds(s3@, |c: char| is_whitespace_char(c));
        }
        let s5 = match utils::tag("=", s4) {
            Ok(rest) => rest,
            Err(m) => {
                proof {
                    reveal_strlit("=");
                    assert("="@ =~= seq!['=']);
                    if s4@.len() > 0 && s4@[0] == '=' {
                        assert(s4@.take(1) =~= seq!['=']);
                    }
                }
                return Err(m);
            },
        };
        proof {
            reveal_strlit("=");
            assert("="@ =~= seq!['=']);
            assert(s4@.take(1)[0] == s4@[0]);
        }
        let (s6, _) = utils::extract_whitespace(s5);
        proof {
            crate::lexer::lemma_run_len_bounds(s5@, |c: char| is_whitespace_char(c));
            assert(s6@ == bd_tail(s@));
        }
        let (s7, val) = match Expr::new(s6) {
            Ok(p) => p,
            Err(m) => {
                return Err(m);
            },
        };
        Ok((s7, BindingDef { name: String::from_str(name), val }))
    }
}

} // verus!
