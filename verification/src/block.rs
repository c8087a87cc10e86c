use crate::expr::{
    block_closes, expr_visibly_impossible, lemma_no_stmt_here, lemma_skip_ws_idem, let_prefix,
    parses_stmt,
};
use crate::interp::expr::skip_ws;
use crate::interp::utils;
use crate::lexer::is_whitespace_char;
use crate::stmt::Stmt;
use vstd::prelude::*;
use vstd::string::*;

verus! {

/// A block holding at most one statement between braces: the earliest form
/// of the construct, kept alongside the richer one.
#[derive(Debug, PartialEq)]
pub struct Block {
    pub stmts: Vec<Stmt>,
}

impl Block {
    /// Reads `{ }` or `{ <statement> }`: on success the statement (if any)
    /// and the remainder are exactly the related ones; an input not opening
    /// with a brace is refused with `expected {`, anything else that fails
    /// with `expected }`; a braced input whose inside closes at once is owed
    /// an empty block.
    pub fn new(s: &str) -> (r: Result<(&str, Block), String>)
        ensures
            match r {
                Ok(p) => {
                    &&& s@.len() >= 1
                    &&& s@[0] == '{'
                    &&& p.0@.len() < s@.len()
                    &&& p.1.stmts@.len() <= 1
                    &&& (p.1.stmts@.len() == 1 ==> exists|mid: Seq<char>|
                        #[trigger] parses_stmt(skip_ws(s@.skip(1)), mid, p.1.stmts@[0])
                            && block_closes(mid, p.0@))
                    &&& (p.1.stmts@.len() == 0 ==> block_closes(skip_ws(s@.skip(1)), p.0@))
                },
                Err(m) => m@ == "expected {"@ || m@ == "expected }"@,
            },
            (s@.len() == 0 || s@[0] != '{') ==> (r is Err && r->Err_0@ == "expected {"@),
            ({
                let inner = skip_ws(s@.skip(1));
                (s@.len() >= 1 && s@[0] == '{' && inner.len() > 0 && inner[0] == '}'
                    && !let_prefix(inner) && expr_visibly_impossible(inner)) ==> (match r {
                    Ok(p) => p.1.stmts@.len() == 0 && p.0@ == inner.skip(1),
                    Err(_) => false,
                })
            }),
        decreases s@.len(), 1int,
    {
        let s1 = match utils::tag("{", s) {
            Ok(rest) => rest,
            Err(m) => {
                proof {
                    reveal_strlit("{");
                    reveal_strlit("expected ");
                    reveal_strlit("expected {");
                    assert("{"@ =~= seq!['{']);
                    assert("expected "@ + "{"@ =~= "expected {"@);
                    if s@.len() >= 1 && s@[0] == '{' {
                        assert(s@.take(1) =~= seq!['{']);
                    }
                }
                return Err(m);
            },
        };
        proof {
            reveal_strlit("{");
            assert("{"@ =~= seq!['{']);
            assert(s@.take(1)[0] == s@[0]);
        }
        let (s2, _) = utils::extract_whitespace(s1);
        proof {
            crate::lexer::lemma_run_len_bounds(s1@, |c: char| is_whitespace_char(c));
            assert(s2@ == skip_ws(s@.skip(1)));
        }
        let mut stmts: Vec<Stmt> = Vec::new();
        let mut cur: &str = s2;
        match Stmt::new(s2) {
            Ok((new_s, stmt)) => {
                stmts.push(stmt);
                cur = new_s;
            },
            Err(_) => {},
        }
        proof {
            assert((stmts@.len() == 0 && cur@ == s2@) || (stmts@.len() == 1 && parses_stmt(
                s2@,
                cur@,
                stmts@[0],
            )));
        }
        let (s3, _) = utils::extract_whitespace(cur);
        proof {
            crate::lexer::lemma_run_len_bounds(cur@, |c: char| is_whitespace_char(c));
            assert(s3@ == skip_ws(cur@));
        }
        let s4 = match utils::tag("}", s3) {
            Ok(rest) => rest,
            Err(m) => {
                proof {
                    reveal_strlit("}");
                    reveal_strlit("expected ");
                    reveal_strlit("expected }");
                    assert("}"@ =~= seq!['}']);
                    assert("expected "@ + "}"@ =~= "expected }"@);
                    let inner = skip_ws(s@.skip(1));
                    if inner.len() > 0 && inner[0] == '}' && !let_prefix(inner)
                        && expr_visibly_impossible(inner) {
                        if stmts@.len() > 0 {
                            lemma_no_stmt_here(s2@, cur@, stmts@[0]);
                            assert(false);
                        }
                        assert(cur@ == s2@);
                        lemma_skip_ws_idem(s@.skip(1));
                        assert(s3@ == inner);
                        assert(s3@.take(1) =~= seq!['}']);
                        assert(false);
                    }
                }
                return Err(m);
            },
        };
        proof {
            reveal_strlit("}");
            assert("}"@ =~= seq!['}']);
            assert(s3@.take(1)[0] == s3@[0]);
            assert(block_closes(cur@, s4@));
            let inner = skip_ws(s@.skip(1));
            if inner.len() > 0 && inner[0] == '}' && !let_prefix(inner)
                && expr_visibly_impossible(inner) {
                if stmts@.len() > 0 {
                    lemma_no_stmt_here(s2@, cur@, stmts@[0]);
                    assert(false);
                }
                assert(cur@ == s2@);
                lemma_skip_ws_idem(s@.skip(1));
                assert(s4@ == inner.skip(1));
            }
        }
        Ok((s4, Block { stmts }))
    }
}

} // verus!
