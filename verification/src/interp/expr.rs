pub mod func_call;

use crate::env::{lookup_val, Env};
use crate::interp::utils;
use crate::lexer::{is_digit_char, run_len};
use crate::utils::{digits_to_i32, digits_value};
use crate::val::Val;
use vstd::prelude::*;
use vstd::string::*;

verus! {

/// A numeric literal.
#[derive(Debug, PartialEq, Eq, Structural, Clone, Copy)]
pub struct Number(pub i32);

/// The use of a bound name.
#[derive(Debug, PartialEq)]
pub struct BindingUsage {
    pub name: String,
}

/// An arithmetic operator.
#[derive(Debug, PartialEq, Eq, Structural, Clone, Copy)]
pub enum Op {
    Add,
    Sub,
    Mul,
    Div,
}

/// An expression of the tree-walking evaluator.
#[derive(Debug, PartialEq)]
pub enum Expr {
    Number(Number),
    BindingUsage(BindingUsage),
    Operation { lhs: Box<Expr>, rhs: Box<Expr>, op: Op },
}


// ---------------------------------------------------------------------------
// What each reader accepts and yields, as mathematics: the contracts below
// say exactly when parsing succeeds and fix the parsed value and remainder.
// ---------------------------------------------------------------------------

/// A numeric literal is readable: leading digits exist and their value fits.
pub open spec fn number_ok(s: Seq<char>) -> bool {
    run_len(s, |c: char| is_digit_char(c)) >= 1 && digits_value(
        s.take(run_len(s, |c: char| is_digit_char(c)) as int),
    ) <= i32::MAX
}

pub open spec fn number_rest(s: Seq<char>) -> Seq<char> {
    s.skip(run_len(s, |c: char| is_digit_char(c)) as int)
}

pub open spec fn number_value(s: Seq<char>) -> int {
    digits_value(s.take(run_len(s, |c: char| is_digit_char(c)) as int))
}

/// A name is readable: the input begins with a letter.
pub open spec fn ident_ok(s: Seq<char>) -> bool {
    s.len() > 0 && crate::lexer::is_alpha_char(s[0])
}

pub open spec fn ident_rest(s: Seq<char>) -> Seq<char> {
    s.skip(run_len(s, |c: char| crate::lexer::is_alnum_char(c)) as int)
}

pub open spec fn ident_name(s: Seq<char>) -> Seq<char> {
    s.take(run_len(s, |c: char| crate::lexer::is_alnum_char(c)) as int)
}

/// The input after its leading whitespace.
pub open spec fn skip_ws(s: Seq<char>) -> Seq<char> {
    s.skip(run_len(s, |c: char| crate::lexer::is_whitespace_char(c)) as int)
}

/// A single operand: a number, or otherwise a name.
pub open spec fn operand_ok(s: Seq<char>) -> bool {
    number_ok(s) || ident_ok(s)
}

pub open spec fn operand_rest(s: Seq<char>) -> Seq<char> {
    if number_ok(s) {
        number_rest(s)
    } else {
        ident_rest(s)
    }
}

/// The operand an input yields: a number wins over a name.
pub open spec fn is_operand(s: Seq<char>, rest: Seq<char>, e: Expr) -> bool {
    if number_ok(s) {
        match e {
            Expr::Number(n) => n.0 == number_value(s) && rest == number_rest(s),
            _ => false,
        }
    } else if ident_ok(s) {
        match e {
            Expr::BindingUsage(b) => b.name@ == ident_name(s) && rest == ident_rest(s),
            _ => false,
        }
    } else {
        false
    }
}

pub open spec fn op_of_char(c: char) -> Option<Op> {
    if c == '+' {
        Some(Op::Add)
    } else if c == '-' {
        Some(Op::Sub)
    } else if c == '*' {
        Some(Op::Mul)
    } else if c == '/' {
        Some(Op::Div)
    } else {
        None
    }
}

/// An operation is readable: operand, then (after whitespace) an operator
/// character, then (after whitespace) another operand.
pub open spec fn operation_ok(s: Seq<char>) -> bool {
    operand_ok(s) && {
        let s2 = skip_ws(operand_rest(s));
        s2.len() > 0 && op_of_char(s2[0]) is Some && operand_ok(skip_ws(s2.skip(1)))
    }
}

pub open spec fn operation_rest(s: Seq<char>) -> Seq<char> {
    operand_rest(skip_ws(skip_ws(operand_rest(s)).skip(1)))
}

pub open spec fn is_operation(s: Seq<char>, rest: Seq<char>, e: Expr) -> bool {
    match e {
        Expr::Operation { lhs, rhs, op } => {
            let s2 = skip_ws(operand_rest(s));
            &&& is_operand(s, operand_rest(s), *lhs)
            &&& Some(op) == op_of_char(s2[0])
            &&& is_operand(skip_ws(s2.skip(1)), rest, *rhs)
        },
        _ => false,
    }
}

/// An expression is readable when an operation or a single operand is.
pub open spec fn expr_input_ok(s: Seq<char>) -> bool {
    operation_ok(s) || operand_ok(s)
}

pub open spec fn expr_rest(s: Seq<char>) -> Seq<char> {
    if operation_ok(s) {
        operation_rest(s)
    } else {
        operand_rest(s)
    }
}

/// The expression an input yields: an operation where one is written,
/// otherwise the single operand.
pub open spec fn is_expr_parsed(s: Seq<char>, rest: Seq<char>, e: Expr) -> bool {
    if operation_ok(s) {
        is_operation(s, rest, e)
    } else {
        is_operand(s, rest, e)
    }
}

// ---------------------------------------------------------------------------
// What evaluation yields, as mathematics.
// ---------------------------------------------------------------------------

/// Two's-complement wrap-around: the unique value congruent to `x` in the
/// machine range.
pub open spec fn wrap32(x: int) -> int {
    let r = x % 0x1_0000_0000;
    if r >= 0x8000_0000 {
        r - 0x1_0000_0000
    } else {
        r
    }
}

/// Division truncated toward zero, as the machine divides.
pub open spec fn div_trunc(a: int, b: int) -> int
    recommends
        b != 0,
{
    let q = abs_int(a) / abs_int(b);
    if (a < 0) != (b < 0) {
        -q
    } else {
        q
    }
}

pub open spec fn abs_int(x: int) -> int {
    if x < 0 {
        -x
    } else {
        x
    }
}

/// What an operation yields on two numbers: the wrapped sum, difference or
/// product, the wrapped truncated quotient, and a refusal to divide by zero.
pub open spec fn apply_op(op: Op, a: int, b: int) -> Result<Val, Seq<char>>
    recommends
        i32::MIN <= a <= i32::MAX,
        i32::MIN <= b <= i32::MAX,
{
    match op {
        Op::Add => Ok(Val::Number(wrap32(a + b) as i32)),
        Op::Sub => Ok(Val::Number(wrap32(a - b) as i32)),
        Op::Mul => Ok(Val::Number(wrap32(a * b) as i32)),
        Op::Div => if b == 0 {
            Err("division by zero"@)
        } else {
            Ok(Val::Number(wrap32(div_trunc(a, b)) as i32))
        },
    }
}

/// Whether an executable outcome is exactly a mathematical one.
pub open spec fn matches_eval(r: Result<Val, String>, m: Result<Val, Seq<char>>) -> bool {
    match (r, m) {
        (Ok(a), Ok(b)) => a == b,
        (Err(e), Err(t)) => e@ == t,
        _ => false,
    }
}

/// What looking a name up yields.
pub open spec fn eval_binding(bindings: Seq<(String, Val)>, name: Seq<char>) -> Result<
    Val,
    Seq<char>,
> {
    match lookup_val(bindings, name) {
        Some(v) => Ok(v),
        None => Err("binding with name '"@ + name + "' does not exist"@),
    }
}

/// What evaluating an expression yields: numbers are themselves, names are
/// looked up, operations combine two numbers with wrap-around arithmetic.
pub open spec fn eval_spec(e: Expr, bindings: Seq<(String, Val)>) -> Result<Val, Seq<char>>
    decreases e,
{
    match e {
        Expr::Number(n) => Ok(Val::Number(n.0)),
        Expr::BindingUsage(b) => eval_binding(bindings, b.name@),
        Expr::Operation { lhs, rhs, op } => match eval_spec(*lhs, bindings) {
            Err(m) => Err(m),
            Ok(lv) => match eval_spec(*rhs, bindings) {
                Err(m) => Err(m),
                Ok(rv) => match (lv, rv) {
                    (Val::Number(a), Val::Number(b)) => apply_op(op, a as int, b as int),
                    _ => Err("cannot evaluate operation whose operands are not numbers"@),
                },
            },
        },
    }
}

/// Wraps a machine-wide intermediate into the narrow range, exactly as the
/// mathematical wrap does.
pub(crate) fn wrap_to_i32(x: i64) -> (v: i32)
    requires
        -0x4000_0000_0000_0000 <= x <= 0x4000_0000_0000_0000,
    ensures
        v as int == wrap32(x as int),
{
    let y: u64 = if x >= 0 {
        x as u64
    } else {
        ((x + 0x4000_0000_0000_0000) as u64) + 0x4000_0000_0000_0000
    };
    proof {
        if x >= 0 {
            assert(y as int == x as int);
            assert(y as int % 0x1_0000_0000 == x as int % 0x1_0000_0000);
        } else {
            assert(y as int == x as int + 0x8000_0000_0000_0000);
            vstd::arithmetic::div_mod::lemma_mod_multiples_vanish(
                0x8000_0000,
                x as int,
                0x1_0000_0000,
            );
            assert(y as int % 0x1_0000_0000 == x as int % 0x1_0000_0000);
        }
    }
    let r: u64 = y % 0x1_0000_0000;
    proof {
        assert(r as int == y as int % 0x1_0000_0000);
        vstd::arithmetic::div_mod::lemma_mod_division_less_than_divisor(
            y as int,
            0x1_0000_0000,
        );
    }
    if r >= 0x8000_0000 {
        ((r as i64) - 0x1_0000_0000) as i32
    } else {
        r as i32
    }
}


/// Applies one operator with wrap-around arithmetic, exactly as `apply_op`
/// says.
pub(crate) fn apply_op_exec(op: Op, a: i32, b: i32) -> (r: Result<Val, String>)
    ensures
        matches_eval(r, apply_op(op, a as int, b as int)),
{
    match op {
        Op::Add => Ok(Val::Number(wrap_to_i32(a as i64 + b as i64))),
        Op::Sub => Ok(Val::Number(wrap_to_i32(a as i64 - b as i64))),
        Op::Mul => {
            proof {
                let aa = a as int;
                let bb = b as int;
                assert(-0x4000_0000_0000_0000 <= aa * bb <= 0x4000_0000_0000_0000)
                    by (nonlinear_arith)
                    requires
                        -0x8000_0000 <= aa <= 0x7FFF_FFFF,
                        -0x8000_0000 <= bb <= 0x7FFF_FFFF,
                {}
            }
            Ok(Val::Number(wrap_to_i32(a as i64 * b as i64)))
        },
        Op::Div => {
            if b == 0 {
                Err(String::from_str("division by zero"))
            } else {
                let au: u64 = if a >= 0 {
                    a as u64
                } else {
                    (-(a as i64)) as u64
                };
                let bu: u64 = if b >= 0 {
                    b as u64
                } else {
                    (-(b as i64)) as u64
                };
                let q: u64 = au / bu;
                proof {
                    assert(au as int == abs_int(a as int));
                    assert(bu as int == abs_int(b as int));
                    assert(q as int == abs_int(a as int) / abs_int(b as int));
                    assert(au / bu <= au) by (nonlinear_arith)
                        requires
                            bu >= 1,
                    {}
                }
                let neg = (a < 0) != (b < 0);
                let qs: i64 = if neg {
                    -(q as i64)
                } else {
                    q as i64
                };
                proof {
                    assert(qs as int == div_trunc(a as int, b as int));
                }
                Ok(Val::Number(wrap_to_i32(qs)))
            }
        },
    }
}

impl Number {
    /// Reads a numeric literal. A value beyond the machine range is
    /// refused rather than wrapped.
    pub fn new(s: &str) -> (r: Result<(&str, Number), String>)
        ensures
            r is Ok <==> number_ok(s@),
            match r {
                Ok(p) => {
                    &&& p.0@ == number_rest(s@)
                    &&& p.0@.len() < s@.len()
                    &&& p.1.0 == number_value(s@)
                },
                Err(m) => m@ == (if run_len(s@, |c: char| is_digit_char(c)) == 0 {
                    "expected digits"@
                } else {
                    "number too large"@
                }),
            },
    {
        match utils::extract_digits(s) {
            Ok((rest, digits)) => {
                proof {
                    crate::lexer::lemma_run_len_bounds(s@, |c: char| is_digit_char(c));
                }
                match digits_to_i32(digits) {
                    Some(v) => Ok((rest, Number(v))),
                    None => Err(String::from_str("number too large")),
                }
            },
            Err(m) => Err(m),
        }
    }
}

impl BindingUsage {
    /// Reads the use of a bound name.
    pub fn new(s: &str) -> (r: Result<(&str, BindingUsage), String>)
        ensures
            r is Ok <==> ident_ok(s@),
            match r {
                Ok(p) => {
                    &&& p.0@ == ident_rest(s@)
                    &&& p.0@.len() < s@.len()
                    &&& p.1.name@ == ident_name(s@)
                },
                Err(m) => m@ == "expected identifier"@,
            },
    {
        match utils::extract_ident(s) {
            Ok((rest, name)) => {
                proof {
                    crate::lexer::lemma_run_len_bounds(s@, |c: char| crate::lexer::is_alnum_char(c));
                }
                Ok((rest, BindingUsage { name: String::from_str(name) }))
            },
            Err(m) => Err(m),
        }
    }

    /// Looks the name up.
    pub fn eval(&self, env: &Env) -> (r: Result<Val, String>)
        ensures
            matches_eval(r, eval_binding(env.bindings@, self.name@)),
    {
        env.get_binding(self.name.as_str())
    }
}

impl Expr {
    /// Reads an expression: an operation of two operands where one is
    /// written, otherwise a single operand.
    pub fn new(s: &str) -> (r: Result<(&str, Expr), String>)
        ensures
            r is Ok <==> expr_input_ok(s@),
            match r {
                Ok(p) => is_expr_parsed(s@, p.0@, p.1) && p.0@.len() < s@.len(),
                Err(_) => true,
            },
    {
        match Self::new_operation(s) {
            Ok(p) => Ok(p),
            Err(_) => Self::new_non_operation(s),
        }
    }

    /// Reads a two-operand operation: operand, operator, operand.
    fn new_operation(s: &str) -> (r: Result<(&str, Expr), String>)
        ensures
            r is Ok <==> operation_ok(s@),
            match r {
                Ok(p) => is_operation(s@, p.0@, p.1) && p.0@.len() < s@.len(),
                Err(_) => true,
            },
    {
        let (s1, lhs) = match Self::new_non_operation(s) {
            Ok(p) => p,
            Err(m) => {
                return Err(m);
            },
        };
        let (s2, _) = utils::extract_whitespace(s1);
        proof {
            crate::lexer::lemma_run_len_bounds(s1@, |c: char| crate::lexer::is_whitespace_char(c));
        }
        let n2 = s2.unicode_len();
        if n2 == 0 {
            return Err(String::from_str("expected operator"));
        }
        let c = s2.get_char(0);
        let op = if c == '+' {
            Op::Add
        } else if c == '-' {
            Op::Sub
        } else if c == '*' {
            Op::Mul
        } else if c == '/' {
            Op::Div
        } else {
            return Err(String::from_str("expected operator"));
        };
        let (s3, _) = utils::extract_op(s2);
        let (s4, _) = utils::extract_whitespace(s3);
        proof {
            crate::lexer::lemma_run_len_bounds(s3@, |c2: char| crate::lexer::is_whitespace_char(c2));
        }
        let (s5, rhs) = match Self::new_non_operation(s4) {
            Ok(p) => p,
            Err(m) => {
                return Err(m);
            },
        };
        Ok((s5, Expr::Operation { lhs: Box::new(lhs), rhs: Box::new(rhs), op }))
    }

    /// Reads a single operand: a number or a bound name.
    fn new_non_operation(s: &str) -> (r: Result<(&str, Expr), String>)
        ensures
            r is Ok <==> operand_ok(s@),
            match r {
                Ok(p) => is_operand(s@, p.0@, p.1) && p.0@.len() < s@.len(),
                Err(_) => true,
            },
    {
        match Number::new(s) {
            Ok((rest, n)) => Ok((rest, Expr::Number(n))),
            Err(_) => match BindingUsage::new(s) {
                Ok((rest, b)) => Ok((rest, Expr::BindingUsage(b))),
                Err(m) => Err(m),
            },
        }
    }

    /// Evaluates the expression: exactly what `eval_spec` says, value and
    /// error text alike.
    pub fn eval(&self, env: &Env) -> (r: Result<Val, String>)
        ensures
            matches_eval(r, eval_spec(*self, env.bindings@)),
        decreases *self,
    {
        match self {
            Expr::Number(n) => Ok(Val::Number(n.0)),
            Expr::BindingUsage(b) => b.eval(env),
            Expr::Operation { lhs, rhs, op } => {
                let lv = match (&**lhs).eval(env) {
                    Ok(v) => v,
                    Err(m) => {
                        return Err(m);
                    },
                };
                let rv = match (&**rhs).eval(env) {
                    Ok(v) => v,
                    Err(m) => {
                        return Err(m);
                    },
                };
                let (a, b) = match (lv, rv) {
                    (Val::Number(a), Val::Number(b)) => (a, b),
                    _ => {
                        return Err(
                            String::from_str("cannot evaluate operation whose operands are not numbers"),
                        );
                    },
                };
                apply_op_exec(*op, a, b)
            },
        }
    }
}

} // verus!
