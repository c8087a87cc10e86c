use crate::env::{lookup_func, Env};
use crate::interp::expr::{eval_spec, matches_eval};
use crate::interp::stmt::{stmt_eval_spec, Stmt};
use crate::interp::expr::{expr_input_ok, ident_name, ident_ok, ident_rest, Expr};
use crate::interp::utils;
use crate::interp::utils::is_seq_prefix;
use crate::lexer::run_len;
use crate::tree::{dec_spec, push_dec};
use crate::val::Val;
use vstd::prelude::*;
use vstd::string::*;

verus! {

/// A call of a stored function: the callee's name and the argument
/// expressions, written one after another.
#[derive(Debug, PartialEq)]
pub struct FuncCall {
    pub callee: String,
    pub params: Vec<Expr>,
}

/// The input after its leading spaces (line breaks not included): the gap
/// between the callee and its first argument.
pub open spec fn skip_spaces(s: Seq<char>) -> Seq<char> {
    s.skip(run_len(s, |c: char| c == ' ') as int)
}

/// A call is readable: a name, then (after spaces) at least one expression.
pub open spec fn func_call_ok(s: Seq<char>) -> bool {
    ident_ok(s) && expr_input_ok(skip_spaces(ident_rest(s)))
}

/// The bindings after evaluating and binding the arguments one by one, each
/// in the scope the earlier ones already extended; or the first argument's
/// failure.
pub open spec fn bind_args(
    base: Seq<(String, Val)>,
    names: Seq<String>,
    params: Seq<Expr>,
    i: int,
) -> Result<Seq<(String, Val)>, Seq<char>>
    recommends
        names.len() == params.len(),
    decreases params.len() - i,
{
    if i < 0 || i >= params.len() {
        Ok(base)
    } else {
        match eval_spec(params[i], base) {
            Err(m) => Err(m),
            Ok(v) => bind_args(base.push((names[i], v)), names, params, i + 1),
        }
    }
}

impl FuncCall {
    /// Reads a call: an identifier, then spaces, then as many argument
    /// expressions as the input offers, of which there must be at least one.
    pub fn new(s: &str) -> (r: Result<(&str, FuncCall), String>)
        ensures
            r is Ok <==> func_call_ok(s@),
            match r {
                Ok(p) => {
                    &&& p.1.callee@ == ident_name(s@)
                    &&& is_seq_prefix(skip_spaces(ident_rest(s@)), p.0@, p.1.params@)
                    &&& !expr_input_ok(p.0@)
                    &&& p.1.params@.len() >= 1
                },
                Err(m) => {
                    &&& !ident_ok(s@) ==> m@ == "expected identifier"@
                    &&& ident_ok(s@) ==> m@ == "expected a sequence with more than one item"@
                },
            },
    {
        let (s1, callee) = match utils::extract_ident(s) {
            Ok(p) => p,
            Err(m) => {
                return Err(m);
            },
        };
        let space = |c: char| -> (b: bool)
            ensures
                b == (c == ' '),
            {
                c == ' '
            };
        let (s2, _) = utils::take_while(space, s1);
        proof {
            let k = choose|k: int|
                {
                    &&& 0 <= k <= s1@.len()
                    &&& s2@ == s1@.skip(k)
                    &&& (forall|i: int|
                        0 <= i < k ==> call_ensures(space, (#[trigger] s1@[i],), true))
                    &&& (k < s1@.len() ==> call_ensures(space, (s1@[k as int],), false))
                };
            assert forall|i: int| 0 <= i < k implies s1@[i] == ' ' by {
                assert(call_ensures(space, (s1@[i],), true));
            }
            crate::lexer::lemma_run_len_is(s1@, |c: char| c == ' ', k);
            assert(s2@ == skip_spaces(s1@));
        }
        let (s3, params) = match utils::sequence1(s2) {
            Ok(p) => p,
            Err(m) => {
                return Err(m);
            },
        };
        Ok((s3, FuncCall { callee: String::from_str(callee), params }))
    }

    /// Evaluates the call: the callee must be a stored function and the
    /// argument count must match its parameters; the arguments are bound in
    /// a child scope and the body is evaluated there.
    pub fn eval(&self, env: &Env) -> (r: Result<Val, String>)
        ensures
            match lookup_func(env.funcs@, self.callee@) {
                None => r is Err && r->Err_0@ == "function with name '"@ + self.callee@
                    + "' does not exist"@,
                Some(f) => if f.0@.len() != self.params@.len() {
                    r is Err && r->Err_0@ == "expected "@ + dec_spec(f.0@.len())
                        + " parameters, got "@ + dec_spec(self.params@.len())
                } else {
                    match bind_args(env.bindings@, f.0@, self.params@, 0) {
                        Err(m) => r is Err && r->Err_0@ == m,
                        Ok(finalb) => matches_eval(r, stmt_eval_spec(f.1, finalb)),
                    }
                },
            },
    {
        let mut child_env = env.create_child();
        let (param_names, body) = match env.get_func(self.callee.as_str()) {
            Ok(p) => p,
            Err(m) => {
                return Err(m);
            },
        };
        let num_expected_params = param_names.len();
        let num_actual_params = self.params.len();
        if num_expected_params != num_actual_params {
            let mut msg = String::from_str("expected ");
            push_dec(&mut msg, num_expected_params);
            msg.append(" parameters, got ");
            push_dec(&mut msg, num_actual_params);
            proof {
                reveal_strlit("expected ");
                reveal_strlit(" parameters, got ");
            }
            return Err(msg);
        }
        let ghost f = lookup_func(env.funcs@, self.callee@)->Some_0;
        let mut i: usize = 0;
        while i < num_actual_params
            invariant
                num_actual_params == self.params@.len(),
                num_expected_params == param_names@.len(),
                num_actual_params == num_expected_params,
                i <= num_actual_params,
                match lookup_func(env.funcs@, self.callee@) {
                    Some(g) => g == f && g.0@.len() == self.params@.len(),
                    None => false,
                },
                param_names@ == f.0@,
                *body == f.1,
                bind_args(env.bindings@, f.0@, self.params@, 0) == bind_args(
                    child_env.bindings@,
                    f.0@,
                    self.params@,
                    i as int,
                ),
            decreases num_actual_params - i,
        {
            let param_val = match self.params[i].eval(&child_env) {
                Ok(v) => v,
                Err(m) => {
                    return Err(m);
                },
            };
            let name = param_names[i].clone();
            child_env.store_binding(name, param_val);
            i = i + 1;
        }
        body.eval(&child_env)
    }
}

} // verus!
