use crate::env::Env;
use crate::expr::{
    block_closes, block_ok, eval_block_spec, expr_visibly_impossible, lemma_no_stmt_here,
    lemma_skip_ws_idem, lemma_stmts_prefix_snoc, let_prefix, parses_block_body, stmts_prefix,
};
use crate::interp::expr::{matches_eval, skip_ws};
use crate::interp::utils;
use crate::lexer::is_whitespace_char;
use crate::stmt::Stmt;
use crate::val::Val;
use vstd::prelude::*;
use vstd::string::*;

verus! {

/// A block: statements between braces, whose value is its last
/// expression's, or unit when it is empty.
#[derive(Debug, PartialEq)]
pub struct Block {
    pub stmts: Vec<Stmt>,
}

impl Block {
    /// Reads `{ <statements> }`: on success the statement list and the
    /// remainder are exactly the related ones; an input not opening with a
    /// brace is refused with `expected {`, anything else that fails with
    /// `expected }`; a braced input whose inside closes at once is owed an
    /// empty block.
    pub fn new(s: &str) -> (r: Result<(&str, Block), String>)
        ensures
            match r {
                Ok(p) => {
                    &&& s@.len() >= 1
                    &&& s@[0] == '{'
                    &&& parses_block_body(skip_ws(s@.skip(1)), p.0@, p.1.stmts@)
                    &&& p.0@.len() < s@.len()
                },
                Err(m) => m@ == "expected {"@ || m@ == "expected }"@,
            },
            (s@.len() == 0 || s@[0] != '{') ==> (r is Err && r->Err_0@ == "expected {"@),
            ({
                let inner = skip_ws(s@.skip(1));
                (s@.len() >= 1 && s@[0] == '{' && inner.len() > 0 && inner[0] == '}'
                    && !let_prefix(inner) && expr_visibly_impossible(inner)) ==> (match r {
                    Ok(p) => p.1.stmts@.len() == 0 && p.0@ == inner.skip(1),
                    Err(_) => false,
                })
            }),
        decreases s@.len(), 1int,
    {
        let s1 = match utils::tag("{", s) {
            Ok(rest) => rest,
            Err(m) => {
                proof {
                    reveal_strlit("{");
                    reveal_strlit("expected ");
                    reveal_strlit("expected {");
                    assert("{"@ =~= seq!['{']);
                    assert("expected "@ + "{"@ =~= "expected {"@);
                    if s@.len() >= 1 && s@[0] == '{' {
                        assert(s@.take(1) =~= seq!['{']);
                    }
                }
                return Err(m);
            },
        };
        proof {
            reveal_strlit("{");
            assert("{"@ =~= seq!['{']);
            assert(s@.take(1)[0] == s@[0]);
        }
        let (s2, _) = utils::extract_whitespace(s1);
        proof {
            crate::lexer::lemma_run_len_bounds(s1@, |c: char| is_whitespace_char(c));
            assert(s2@ == skip_ws(s@.skip(1)));
        }
        let mut cur: &str = s2;
        let mut stmts: Vec<Stmt> = Vec::new();
        let mut stopped = false;
        proof {
            assert(stmts_prefix(s2@, cur@, stmts@));
        }
        while !stopped
            invariant
                cur@.len() <= s2@.len(),
                s2@.len() < s@.len(),
                stmts_prefix(s2@, cur@, stmts@),
            decreases 2 * cur@.len() + (if stopped {
                0int
            } else {
                1
            }),
        {
            let ghost stmts0 = stmts@;
            let ghost cur0 = cur@;
            match Stmt::new(cur) {
                Ok((new_s, stmt)) => {
                    let ghost st0 = stmt;
                    stmts.push(stmt);
                    let (after_ws, _) = utils::extract_whitespace(new_s);
                    proof {
                        crate::lexer::lemma_run_len_bounds(
                            new_s@,
                            |c: char| is_whitespace_char(c),
                        );
                        lemma_stmts_prefix_snoc(s2@, cur0, stmts0, new_s@, st0);
                        assert(after_ws@ == skip_ws(new_s@));
                    }
                    cur = after_ws;
                },
                Err(_) => {
                    stopped = true;
                },
            }
        }
        let (s3, _) = utils::extract_whitespace(cur);
        proof {
            crate::lexer::lemma_run_len_bounds(cur@, |c: char| is_whitespace_char(c));
            assert(s3@ == skip_ws(cur@));
        }
        let s4 = match utils::tag("}", s3) {
            Ok(rest) => rest,
            Err(m) => {
                proof {
                    reveal_strlit("}");
                    reveal_strlit("expected ");
                    reveal_strlit("expected }");
                    assert("}"@ =~= seq!['}']);
                    assert("expected "@ + "}"@ =~= "expected }"@);
                    let inner = skip_ws(s@.skip(1));
                    if inner.len() > 0 && inner[0] == '}' && !let_prefix(inner)
                        && expr_visibly_impossible(inner) {
                        assert(stmts@.len() == 0) by {
                            if stmts@.len() > 0 {
                                let m0 = choose|m0: Seq<char>|
                                    #[trigger] crate::expr::parses_stmt(s2@, m0, stmts@[0])
                                        && stmts_prefix(
                                        skip_ws(m0),
                                        cur@,
                                        stmts@.subrange(1, stmts@.len() as int),
                                    );
                                lemma_no_stmt_here(s2@, m0, stmts@[0]);
                            }
                        }
                        assert(cur@ == s2@);
                        lemma_skip_ws_idem(s@.skip(1));
                        assert(s3@ == inner);
                        assert(s3@.take(1) =~= seq!['}']);
                        assert(false);
                    }
                }
                return Err(m);
            },
        };
        proof {
            reveal_strlit("}");
            assert("}"@ =~= seq!['}']);
            assert(s3@.take(1)[0] == s3@[0]);
            assert(block_closes(cur@, s4@));
            assert(stmts_prefix(skip_ws(s@.skip(1)), cur@, stmts@));
            assert(parses_block_body(skip_ws(s@.skip(1)), s4@, stmts@)) by {
                assert(stmts_prefix(skip_ws(s@.skip(1)), cur@, stmts@) && block_closes(cur@, s4@));
            }
            let inner = skip_ws(s@.skip(1));
            if inner.len() > 0 && inner[0] == '}' && !let_prefix(inner)
                && expr_visibly_impossible(inner) {
                assert(stmts@.len() == 0) by {
                    if stmts@.len() > 0 {
                        let m0 = choose|m0: Seq<char>|
                            #[trigger] crate::expr::parses_stmt(s2@, m0, stmts@[0])
                                && stmts_prefix(
                                skip_ws(m0),
                                cur@,
                                stmts@.subrange(1, stmts@.len() as int),
                            );
                        lemma_no_stmt_here(s2@, m0, stmts@[0]);
                    }
                }
                assert(cur@ == s2@);
                lemma_skip_ws_idem(s@.skip(1));
                assert(s4@ == inner.skip(1));
            }
        }
        Ok((s4, Block { stmts }))
    }

    /// Evaluates the block: exactly what `eval_block_spec` says — the empty
    /// block is unit, otherwise the value of the last statement, which must
    /// be an expression.
    pub fn eval(&self, env: &Env) -> (r: Result<Val, String>)
        requires
            block_ok(*self),
        ensures
            matches_eval(r, eval_block_spec(*self, env.bindings@)),
            self.stmts@.len() == 0 ==> r == Ok::<Val, String>(Val::Unit),
        decreases *self,
    {
        if self.stmts.len() == 0 {
            Ok(Val::Unit)
        } else {
            let last = &self.stmts[self.stmts.len() - 1];
            proof {
                assert(*last == self.stmts@.last());
                assert(decreases_to!(*self => self.stmts));
                assert(decreases_to!(self.stmts => self.stmts@));
                assert(decreases_to!(self.stmts@ => self.stmts@.last()));
            }
            match last {
                Stmt::BindingDef(_) => {
                    proof {
                        assert(false);
                    }
                    Ok(Val::Unit)
                },
                Stmt::Expr(e) => e.eval(env),
            }
        }
    }
}

} // verus!
