pub mod block;

use crate::env::Env;
use crate::expr::block::Block;
use crate::interp::expr::{
    apply_op, apply_op_exec, eval_binding, ident_name, ident_ok, ident_rest, matches_eval,
    number_ok, number_rest, number_value, op_of_char, skip_ws,
};
use crate::interp::utils;
use crate::lexer::{is_digit_char, is_whitespace_char, run_len};
use crate::utils::digits_to_i32;
use crate::val::Val;
use vstd::prelude::*;
use vstd::string::*;

verus! {

// ---------------------------------------------------------------------------
// What this family of readers accepts and yields, as mathematics. The
// relations walk the parsed value, so a successful result is pinned exactly
// against the input; the visible acceptance conditions say when success is
// owed.
// ---------------------------------------------------------------------------

/// A two-literal operation is readable: number, operator, number.
pub open spec fn operation2_ok(s: Seq<char>) -> bool {
    number_ok(s) && {
        let s2 = skip_ws(number_rest(s));
        s2.len() > 0 && op_of_char(s2[0]) is Some && number_ok(skip_ws(s2.skip(1)))
    }
}

pub open spec fn operation2_rest(s: Seq<char>) -> Seq<char> {
    number_rest(skip_ws(skip_ws(number_rest(s)).skip(1)))
}

/// The statement-or-expression readers try their alternatives in a fixed
/// order; `parses_expr` fixes the parsed value and remainder accordingly.
pub open spec fn parses_expr(s: Seq<char>, rest: Seq<char>, e: Expr) -> bool
    decreases e,
{
    match e {
        Expr::Operation { lhs, rhs, op } => {
            let s2 = skip_ws(number_rest(s));
            &&& operation2_ok(s)
            &&& lhs.0 == number_value(s)
            &&& Some(op_bridge(op)) == op_of_char(s2[0])
            &&& rhs.0 == number_value(skip_ws(s2.skip(1)))
            &&& rest == operation2_rest(s)
        },
        Expr::Number(n) => {
            &&& !operation2_ok(s)
            &&& number_ok(s)
            &&& n.0 == number_value(s)
            &&& rest == number_rest(s)
        },
        Expr::BindingUsage(b) => {
            &&& !operation2_ok(s)
            &&& !number_ok(s)
            &&& ident_ok(s)
            &&& b.name@ == ident_name(s)
            &&& rest == ident_rest(s)
        },
        Expr::Block(_) => {
            &&& !operation2_ok(s)
            &&& !number_ok(s)
            &&& !ident_ok(s)
            &&& s.len() > 0
            &&& s[0] == '{'
        },
    }
}

/// After the statements of a block, whitespace and the closing brace.
pub open spec fn block_closes(s: Seq<char>, rest: Seq<char>) -> bool {
    let t = skip_ws(s);
    t.len() > 0 && t[0] == '}' && rest == t.skip(1)
}

pub open spec fn parses_stmt(s: Seq<char>, rest: Seq<char>, st: crate::stmt::Stmt) -> bool
    decreases st,
{
    match st {
        crate::stmt::Stmt::BindingDef(bd) => parses_binding_def(s, rest, bd),
        crate::stmt::Stmt::Expr(e) => parses_expr(s, rest, e),
    }
}

/// The input begins with the `let` keyword's characters.
pub open spec fn let_prefix(s: Seq<char>) -> bool {
    s.len() >= 3 && s[0] == 'l' && s[1] == 'e' && s[2] == 't'
}

/// The head of a binding definition is readable: `let`, whitespace, a name,
/// then an equals sign.
pub open spec fn bd_head_ok(s: Seq<char>) -> bool {
    let_prefix(s) && {
        let t1 = s.skip(3);
        run_len(t1, |c: char| is_whitespace_char(c)) >= 1 && {
            let t2 = skip_ws(t1);
            ident_ok(t2) && {
                let t3 = skip_ws(ident_rest(t2));
                t3.len() > 0 && t3[0] == '='
            }
        }
    }
}

/// The bound name.
pub open spec fn bd_name(s: Seq<char>) -> Seq<char> {
    ident_name(skip_ws(s.skip(3)))
}

/// What follows the equals sign and its whitespace: the definition's value.
pub open spec fn bd_tail(s: Seq<char>) -> Seq<char> {
    skip_ws(skip_ws(ident_rest(skip_ws(s.skip(3)))).skip(1))
}

pub open spec fn parses_binding_def(s: Seq<char>, rest: Seq<char>, bd: crate::binding_def::BindingDef) -> bool
    decreases bd,
{
    bd_head_ok(s) && bd.name@ == bd_name(s) && parses_expr(bd_tail(s), rest, bd.val)
}

/// The statements read so far, from `s` down to `mid`, whitespace between
/// them.
pub open spec fn stmts_prefix(s: Seq<char>, mid: Seq<char>, stmts: Seq<crate::stmt::Stmt>) -> bool
    decreases stmts,
{
    if stmts.len() == 0 {
        mid == s
    } else {
        exists|m: Seq<char>|
            #![trigger parses_stmt(s, m, stmts[0])]
            parses_stmt(s, m, stmts[0]) && stmts_prefix(
                skip_ws(m),
                mid,
                stmts.subrange(1, stmts.len() as int),
            )
    }
}

/// A block body: statements, then whitespace and the closing brace.
pub open spec fn parses_block_body(s: Seq<char>, rest: Seq<char>, stmts: Seq<crate::stmt::Stmt>) -> bool {
    exists|mid: Seq<char>|
        #![trigger stmts_prefix(s, mid, stmts)]
        stmts_prefix(s, mid, stmts) && block_closes(mid, rest)
}

/// Appending the next read statement extends the prefix.
pub proof fn lemma_stmts_prefix_snoc(
    s: Seq<char>,
    mid: Seq<char>,
    stmts: Seq<crate::stmt::Stmt>,
    m2: Seq<char>,
    st: crate::stmt::Stmt,
)
    requires
        stmts_prefix(s, mid, stmts),
        parses_stmt(mid, m2, st),
    ensures
        stmts_prefix(s, skip_ws(m2), stmts.push(st)),
    decreases stmts.len(),
{
    let s2 = stmts.push(st);
    if stmts.len() == 0 {
        assert(s2[0] == st);
        assert(s2.subrange(1, 1) =~= Seq::<crate::stmt::Stmt>::empty());
        assert(stmts_prefix(skip_ws(m2), skip_ws(m2), Seq::<crate::stmt::Stmt>::empty()));
        assert(parses_stmt(s, m2, s2[0]) && stmts_prefix(
            skip_ws(m2),
            skip_ws(m2),
            s2.subrange(1, s2.len() as int),
        ));
        assert(stmts_prefix(s, skip_ws(m2), s2));
    } else {
        let m = choose|m: Seq<char>|
            #![trigger parses_stmt(s, m, stmts[0])]
            parses_stmt(s, m, stmts[0]) && stmts_prefix(
                skip_ws(m),
                mid,
                stmts.subrange(1, stmts.len() as int),
            );
        lemma_stmts_prefix_snoc(skip_ws(m), mid, stmts.subrange(1, stmts.len() as int), m2, st);
        assert(s2[0] == stmts[0]);
        assert(s2.subrange(1, s2.len() as int) =~= stmts.subrange(1, stmts.len() as int).push(st));
        assert(parses_stmt(s, m, s2[0]) && stmts_prefix(
            skip_ws(m),
            skip_ws(m2),
            s2.subrange(1, s2.len() as int),
        ));
        assert(stmts_prefix(s, skip_ws(m2), s2));
    }
}

/// Skipping whitespace twice is skipping it once.
pub proof fn lemma_skip_ws_idem(x: Seq<char>)
    ensures
        skip_ws(skip_ws(x)) == skip_ws(x),
{
    let k = run_len(x, |c: char| is_whitespace_char(c));
    crate::lexer::lemma_run_len_bounds(x, |c: char| is_whitespace_char(c));
    let y = skip_ws(x);
    if k < x.len() {
        assert(y[0] == x[k as int]);
        crate::lexer::lemma_run_len_is(y, |c: char| is_whitespace_char(c), 0);
    } else {
        assert(y =~= Seq::<char>::empty());
        crate::lexer::lemma_run_len_is(y, |c: char| is_whitespace_char(c), 0);
    }
    assert(y.skip(0) =~= y);
}

/// No statement can start at a closing brace (or anything else no reader
/// accepts).
pub proof fn lemma_no_stmt_here(s: Seq<char>, m: Seq<char>, st: crate::stmt::Stmt)
    requires
        !let_prefix(s),
        expr_visibly_impossible(s),
    ensures
        !parses_stmt(s, m, st),
{
    match st {
        crate::stmt::Stmt::BindingDef(_) => {},
        crate::stmt::Stmt::Expr(e) => {
            match e {
                Expr::Operation { .. } => {},
                Expr::Number(_) => {},
                Expr::BindingUsage(_) => {},
                Expr::Block(_) => {},
            }
        },
    }
}

/// The acceptance conditions a reader can see without reading a nested
/// block: enough to owe success.
pub open spec fn expr_visibly_ok(s: Seq<char>) -> bool {
    operation2_ok(s) || number_ok(s) || ident_ok(s)
}

/// No alternative of the expression reader can start here.
pub open spec fn expr_visibly_impossible(s: Seq<char>) -> bool {
    !operation2_ok(s) && !number_ok(s) && !ident_ok(s) && !(s.len() > 0 && s[0] == '{')
}

// ---------------------------------------------------------------------------
// What evaluation yields, as mathematics.
// ---------------------------------------------------------------------------

/// What evaluating an expression yields, within `expr_ok`: a block whose
/// last statement defines a binding has no value and stays outside.
/// The same operator, in the evaluator-side vocabulary the arithmetic spec
/// speaks.
pub open spec fn op_bridge(op: Op) -> crate::interp::expr::Op {
    match op {
        Op::Add => crate::interp::expr::Op::Add,
        Op::Sub => crate::interp::expr::Op::Sub,
        Op::Mul => crate::interp::expr::Op::Mul,
        Op::Div => crate::interp::expr::Op::Div,
    }
}

pub open spec fn eval_expr_spec(e: Expr, bindings: Seq<(String, Val)>) -> Result<Val, Seq<char>>
    decreases e,
{
    match e {
        Expr::Number(n) => Ok(Val::Number(n.0)),
        Expr::Operation { lhs, rhs, op } => apply_op(op_bridge(op), lhs.0 as int, rhs.0 as int),
        Expr::BindingUsage(b) => eval_binding(bindings, b.name@),
        Expr::Block(b) => eval_block_spec(b, bindings),
    }
}

pub open spec fn eval_block_spec(b: Block, bindings: Seq<(String, Val)>) -> Result<Val, Seq<char>>
    decreases b,
{
    if b.stmts@.len() == 0 {
        Ok(Val::Unit)
    } else {
        match b.stmts@.last() {
            crate::stmt::Stmt::BindingDef(_) => Err(Seq::empty()),
            crate::stmt::Stmt::Expr(e) => eval_expr_spec(e, bindings),
        }
    }
}

/// A numeric literal.
#[derive(Debug, PartialEq, Eq, Structural, Clone, Copy)]
pub struct Number(pub i32);

/// An arithmetic operator.
#[derive(Debug, PartialEq, Eq, Structural, Clone, Copy)]
pub enum Op {
    Add,
    Sub,
    Mul,
    Div,
}

/// The use of a bound name.
#[derive(Debug, PartialEq)]
pub struct BindingUsage {
    pub name: String,
}

/// An expression: a literal, an operation of two literals, the use of a
/// bound name, or a block of statements.
#[derive(Debug, PartialEq)]
pub enum Expr {
    Number(Number),
    Operation { lhs: Number, rhs: Number, op: Op },
    BindingUsage(BindingUsage),
    Block(Block),
}

/// Whether evaluating the expression stays inside what the evaluator
/// handles: a block whose last statement is a binding definition has no
/// value.
pub open spec fn expr_ok(e: Expr) -> bool
    decreases e,
{
    match e {
        Expr::Block(b) => block_ok(b),
        _ => true,
    }
}

pub open spec fn block_ok(b: Block) -> bool
    decreases b,
{
    b.stmts@.len() == 0 || (match b.stmts@.last() {
        crate::stmt::Stmt::BindingDef(_) => false,
        crate::stmt::Stmt::Expr(e) => expr_ok(e),
    })
}

impl Number {
    /// Reads a numeric literal; a value beyond the machine range is
    /// refused rather than wrapped.
    pub fn new(s: &str) -> (r: Result<(&str, Number), String>)
        ensures
            r is Ok <==> number_ok(s@),
            match r {
                Ok(p) => {
                    &&& p.0@ == number_rest(s@)
                    &&& p.0@.len() < s@.len()
                    &&& p.1.0 == number_value(s@)
                },
                Err(m) => m@ == (if run_len(s@, |c: char| is_digit_char(c)) == 0 {
                    "expected digits"@
                } else {
                    "number too large"@
                }),
            },
    {
        match utils::extract_digits(s) {
            Ok((rest, digits)) => {
                proof {
                    crate::lexer::lemma_run_len_bounds(s@, |c: char| is_digit_char(c));
                }
                match digits_to_i32(digits) {
                    Some(v) => Ok((rest, Number(v))),
                    None => Err(String::from_str("number too large")),
                }
            },
            Err(m) => Err(m),
        }
    }
}

impl BindingUsage {
    /// Reads the use of a bound name.
    pub fn new(s: &str) -> (r: Result<(&str, BindingUsage), String>)
        ensures
            r is Ok <==> ident_ok(s@),
            match r {
                Ok(p) => {
                    &&& p.0@ == ident_rest(s@)
                    &&& p.0@.len() < s@.len()
                    &&& p.1.name@ == ident_name(s@)
                },
                Err(m) => m@ == "expected identifier"@,
            },
    {
        match utils::extract_ident(s) {
            Ok((rest, name)) => {
                proof {
                    crate::lexer::lemma_run_len_bounds(s@, |c: char| crate::lexer::is_alnum_char(c));
                }
                Ok((rest, BindingUsage { name: String::from_str(name) }))
            },
            Err(m) => Err(m),
        }
    }
}

impl Expr {
    /// Reads an expression: an operation where one is written, otherwise a
    /// literal, a name, or a block.
    pub fn new(s: &str) -> (r: Result<(&str, Expr), String>)
        ensures
            expr_visibly_ok(s@) ==> r is Ok,
            expr_visibly_impossible(s@) ==> r is Err,
            match r {
                Ok(p) => parses_expr(s@, p.0@, p.1) && p.0@.len() < s@.len(),
                Err(_) => true,
            },
        decreases s@.len(), 3int,
    {
        match Self::new_operation(s) {
            Ok(p) => Ok(p),
            Err(_) => Self::new_non_operation(s),
        }
    }

    /// Reads `<number> <op> <number>`.
    fn new_operation(s: &str) -> (r: Result<(&str, Expr), String>)
        ensures
            r is Ok <==> operation2_ok(s@),
            match r {
                Ok(p) => parses_expr(s@, p.0@, p.1) && p.1 is Operation && p.0@.len() < s@.len(),
                Err(_) => true,
            },
        decreases s@.len(), 2int,
    {
        let (s1, lhs) = match Number::new(s) {
            Ok(p) => p,
            Err(m) => {
                return Err(m);
            },
        };
        let (s2, _) = utils::extract_whitespace(s1);
        proof {
            crate::lexer::lemma_run_len_bounds(s1@, |c: char| is_whitespace_char(c));
        }
        let n2 = s2.unicode_len();
        if n2 == 0 {
            return Err(String::from_str("expected operator"));
        }
        let c = s2.get_char(0);
        let op = if c == '+' {
            Op::Add
        } else if c == '-' {
            Op::Sub
        } else if c == '*' {
            Op::Mul
        } else if c == '/' {
            Op::Div
        } else {
            return Err(String::from_str("expected operator"));
        };
        let (s3, _) = utils::extract_op(s2);
        let (s4, _) = utils::extract_whitespace(s3);
        proof {
            crate::lexer::lemma_run_len_bounds(s3@, |c2: char| is_whitespace_char(c2));
        }
        let (s5, rhs) = match Number::new(s4) {
            Ok(p) => p,
            Err(m) => {
                return Err(m);
            },
        };
        Ok((s5, Expr::Operation { lhs, rhs, op }))
    }

    /// Reads a single operand: a literal, a name, or a block.
    fn new_non_operation(s: &str) -> (r: Result<(&str, Expr), String>)
        requires
            !operation2_ok(s@),
        ensures
            (number_ok(s@) || ident_ok(s@)) ==> r is Ok,
            expr_visibly_impossible(s@) ==> r is Err,
            match r {
                Ok(p) => parses_expr(s@, p.0@, p.1) && p.0@.len() < s@.len(),
                Err(_) => true,
            },
        decreases s@.len(), 2int,
    {
        match Number::new(s) {
            Ok((rest, n)) => Ok((rest, Expr::Number(n))),
            Err(_) => match BindingUsage::new(s) {
                Ok((rest, b)) => Ok((rest, Expr::BindingUsage(b))),
                Err(_) => match Block::new(s) {
                    Ok((rest, b)) => Ok((rest, Expr::Block(b))),
                    Err(m) => Err(m),
                },
            },
        }
    }

    /// Evaluates the expression: exactly what `eval_expr_spec` says, value
    /// and error text alike.
    pub fn eval(&self, env: &Env) -> (r: Result<Val, String>)
        requires
            expr_ok(*self),
        ensures
            matches_eval(r, eval_expr_spec(*self, env.bindings@)),
        decreases *self,
    {
        match self {
            Expr::Number(n) => Ok(Val::Number(n.0)),
            Expr::Operation { lhs, rhs, op } => {
                let interp_op = match op {
                    Op::Add => crate::interp::expr::Op::Add,
                    Op::Sub => crate::interp::expr::Op::Sub,
                    Op::Mul => crate::interp::expr::Op::Mul,
                    Op::Div => crate::interp::expr::Op::Div,
                };
                apply_op_exec(interp_op, lhs.0, rhs.0)
            },
            Expr::BindingUsage(b) => env.get_binding(b.name.as_str()),
            Expr::Block(b) => b.eval(env),
        }
    }
}

} // verus!
