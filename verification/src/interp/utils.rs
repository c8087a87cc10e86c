use crate::interp::expr::{
    expr_input_ok, expr_rest, is_expr_parsed, skip_ws, Expr,
};
use crate::lexer::{
    is_alnum_char, is_alpha_char, is_digit_char, is_whitespace_char, lemma_run_len_bounds,
    lemma_run_len_is, run_len,
};
use vstd::prelude::*;
use vstd::string::*;

verus! {

/// Splits off the longest prefix the given test accepts: the remainder
/// first, the accepted run second.
pub fn take_while<F: Fn(char) -> bool>(accept: F, s: &str) -> (r: (&str, &str))
    requires
        forall|c: char| #[trigger] call_requires(accept, (c,)),
    ensures
        exists|k: int|
            {
                &&& 0 <= k <= s@.len()
                &&& r.0@ == s@.skip(k)
                &&& r.1@ == s@.take(k)
                &&& (forall|i: int| 0 <= i < k ==> call_ensures(accept, (#[trigger] s@[i],), true))
                &&& (k < s@.len() ==> call_ensures(accept, (s@[k as int],), false))
            },
{
    let n = s.unicode_len();
    let mut j: usize = 0;
    let mut stopped = false;
    while j < n && !stopped
        invariant
            j <= n,
            n == s@.len(),
            forall|c: char| #[trigger] call_requires(accept, (c,)),
            forall|i: int| 0 <= i < j ==> call_ensures(accept, (#[trigger] s@[i],), true),
            stopped ==> j < n && call_ensures(accept, (s@[j as int],), false),
        decreases n - j, (if stopped {
            0int
        } else {
            1
        }),
    {
        let c = s.get_char(j);
        if accept(c) {
            j = j + 1;
        } else {
            stopped = true;
        }
    }
    let r = (s.substring_char(j, n), s.substring_char(0, j));
    proof {
        let ghost kk = j as int;
        assert({
            &&& 0 <= kk <= s@.len()
            &&& r.0@ == s@.skip(kk)
            &&& r.1@ == s@.take(kk)
            &&& (forall|i: int| 0 <= i < kk ==> call_ensures(accept, (#[trigger] s@[i],), true))
            &&& (kk < s@.len() ==> call_ensures(accept, (s@[kk],), false))
        });
    }
    r
}

/// Like `take_while`, but an empty run is refused with the given message.
pub fn take_while1<F: Fn(char) -> bool>(accept: F, s: &str, error_message: String) -> (r: Result<
    (&str, &str),
    String,
>)
    requires
        forall|c: char| #[trigger] call_requires(accept, (c,)),
    ensures
        match r {
            Ok(p) => exists|k: int|
                {
                    &&& 1 <= k <= s@.len()
                    &&& p.0@ == s@.skip(k)
                    &&& p.1@ == s@.take(k)
                    &&& (forall|i: int|
                        0 <= i < k ==> call_ensures(accept, (#[trigger] s@[i],), true))
                    &&& (k < s@.len() ==> call_ensures(accept, (s@[k as int],), false))
                },
            Err(m) => m@ == error_message@ && (s@.len() == 0 || call_ensures(
                accept,
                (s@[0],),
                false,
            )),
        },
{
    let (remainder, extracted) = take_while(accept, s);
    if extracted.unicode_len() == 0 {
        proof {
            let k = choose|k: int|
                {
                    &&& 0 <= k <= s@.len()
                    &&& remainder@ == s@.skip(k)
                    &&& extracted@ == s@.take(k)
                    &&& (forall|i: int|
                        0 <= i < k ==> call_ensures(accept, (#[trigger] s@[i],), true))
                    &&& (k < s@.len() ==> call_ensures(accept, (s@[k as int],), false))
                };
            assert(k == 0);
        }
        Err(error_message)
    } else {
        Ok((remainder, extracted))
    }
}

/// Splits off the leading digits, or reports that none are there.
pub fn extract_digits(s: &str) -> (r: Result<(&str, &str), String>)
    ensures
        ({
            let k = run_len(s@, |c: char| is_digit_char(c)) as int;
            match r {
                Ok(p) => k >= 1 && p.0@ == s@.skip(k) && p.1@ == s@.take(k),
                Err(m) => k == 0 && m@ == "expected digits"@,
            }
        }),
{
    let accept = |c: char| -> (b: bool)
        ensures
            b == is_digit_char(c),
        {
            let u = c as u32;
            48 <= u && u <= 57
        };
    let r = take_while1(accept, s, String::from_str("expected digits"));
    proof {
        lemma_run_len_bounds(s@, |c: char| is_digit_char(c));
        match r {
            Ok(p) => {
                let k = choose|k: int|
                    {
                        &&& 1 <= k <= s@.len()
                        &&& p.0@ == s@.skip(k)
                        &&& p.1@ == s@.take(k)
                        &&& (forall|i: int|
                            0 <= i < k ==> call_ensures(accept, (#[trigger] s@[i],), true))
                        &&& (k < s@.len() ==> call_ensures(accept, (s@[k as int],), false))
                    };
                assert forall|i: int| 0 <= i < k implies is_digit_char(s@[i]) by {
                    assert(call_ensures(accept, (s@[i],), true));
                }
                lemma_run_len_is(s@, |c: char| is_digit_char(c), k);
            },
            Err(_) => {
                if s@.len() > 0 {
                    assert(!is_digit_char(s@[0]));
                }
                lemma_run_len_is(s@, |c: char| is_digit_char(c), 0);
            },
        }
    }
    r
}

/// Splits off one arithmetic operator character. Any other input is a
/// caller's mistake and stays outside this function's contract.
pub fn extract_op(s: &str) -> (r: (&str, &str))
    requires
        s@.len() >= 1,
        s@[0] == '+' || s@[0] == '-' || s@[0] == '*' || s@[0] == '/',
    ensures
        r.0@ == s@.skip(1),
        r.1@ == s@.take(1),
{
    let n = s.unicode_len();
    (s.substring_char(1, n), s.substring_char(0, 1))
}

/// Splits off the leading spaces and line breaks.
pub fn extract_whitespace(s: &str) -> (r: (&str, &str))
    ensures
        ({
            let k = run_len(s@, |c: char| is_whitespace_char(c)) as int;
            r.0@ == s@.skip(k) && r.1@ == s@.take(k)
        }),
{
    let accept = |c: char| -> (b: bool)
        ensures
            b == is_whitespace_char(c),
        {
            c == ' ' || c == '\n'
        };
    let r = take_while(accept, s);
    proof {
        let k = choose|k: int|
            {
                &&& 0 <= k <= s@.len()
                &&& r.0@ == s@.skip(k)
                &&& r.1@ == s@.take(k)
                &&& (forall|i: int| 0 <= i < k ==> call_ensures(accept, (#[trigger] s@[i],), true))
                &&& (k < s@.len() ==> call_ensures(accept, (s@[k as int],), false))
            };
        assert forall|i: int| 0 <= i < k implies is_whitespace_char(s@[i]) by {
            assert(call_ensures(accept, (s@[i],), true));
        }
        lemma_run_len_is(s@, |c: char| is_whitespace_char(c), k);
    }
    r
}

/// Splits off the leading whitespace, which must not be empty.
pub fn extract_whitespace1(s: &str) -> (r: Result<(&str, &str), String>)
    ensures
        ({
            let k = run_len(s@, |c: char| is_whitespace_char(c)) as int;
            match r {
                Ok(p) => k >= 1 && p.0@ == s@.skip(k) && p.1@ == s@.take(k),
                Err(m) => k == 0 && m@ == "expected a space"@,
            }
        }),
{
    let accept = |c: char| -> (b: bool)
        ensures
            b == is_whitespace_char(c),
        {
            c == ' ' || c == '\n'
        };
    let r = take_while1(accept, s, String::from_str("expected a space"));
    proof {
        lemma_run_len_bounds(s@, |c: char| is_whitespace_char(c));
        match r {
            Ok(p) => {
                let k = choose|k: int|
                    {
                        &&& 1 <= k <= s@.len()
                        &&& p.0@ == s@.skip(k)
                        &&& p.1@ == s@.take(k)
                        &&& (forall|i: int|
                            0 <= i < k ==> call_ensures(accept, (#[trigger] s@[i],), true))
                        &&& (k < s@.len() ==> call_ensures(accept, (s@[k as int],), false))
                    };
                assert forall|i: int| 0 <= i < k implies is_whitespace_char(s@[i]) by {
                    assert(call_ensures(accept, (s@[i],), true));
                }
                lemma_run_len_is(s@, |c: char| is_whitespace_char(c), k);
            },
            Err(_) => {
                if s@.len() > 0 {
                    assert(!is_whitespace_char(s@[0]));
                }
                lemma_run_len_is(s@, |c: char| is_whitespace_char(c), 0);
            },
        }
    }
    r
}

/// Splits off an identifier: a letter followed by letters and digits.
/// Input that does not begin with a letter is refused.
pub fn extract_ident(s: &str) -> (r: Result<(&str, &str), String>)
    ensures
        ({
            let k = run_len(s@, |c: char| is_alnum_char(c)) as int;
            if s@.len() > 0 && is_alpha_char(s@[0]) {
                match r {
                    Ok(p) => k >= 1 && p.0@ == s@.skip(k) && p.1@ == s@.take(k),
                    Err(_) => false,
                }
            } else {
                match r {
                    Ok(_) => false,
                    Err(m) => m@ == "expected identifier"@,
                }
            }
        }),
{
    let n = s.unicode_len();
    let starts_alpha = if n > 0 {
        let u = s.get_char(0) as u32;
        (65 <= u && u <= 90) || (97 <= u && u <= 122)
    } else {
        false
    };
    if !starts_alpha {
        return Err(String::from_str("expected identifier"));
    }
    let accept = |c: char| -> (b: bool)
        ensures
            b == is_alnum_char(c),
        {
            let u = c as u32;
            (65 <= u && u <= 90) || (97 <= u && u <= 122) || (48 <= u && u <= 57)
        };
    let r = take_while(accept, s);
    proof {
        let k = choose|k: int|
            {
                &&& 0 <= k <= s@.len()
                &&& r.0@ == s@.skip(k)
                &&& r.1@ == s@.take(k)
                &&& (forall|i: int| 0 <= i < k ==> call_ensures(accept, (#[trigger] s@[i],), true))
                &&& (k < s@.len() ==> call_ensures(accept, (s@[k as int],), false))
            };
        assert forall|i: int| 0 <= i < k implies is_alnum_char(s@[i]) by {
            assert(call_ensures(accept, (s@[i],), true));
        }
        lemma_run_len_is(s@, |c: char| is_alnum_char(c), k);
        assert(run_len(s@, |c: char| is_alnum_char(c)) >= 1) by {
            if k == 0 {
                assert(call_ensures(accept, (s@[0],), false));
            }
        }
    }
    Ok(r)
}

/// Strips an expected leading text, or reports which text was expected.
pub fn tag<'a, 'b>(starting_text: &'a str, s: &'b str) -> (r: Result<&'b str, String>)
    ensures
        ({
            let t = starting_text@;
            if t.len() <= s@.len() && s@.take(t.len() as int) == t {
                match r {
                    Ok(rest) => rest@ == s@.skip(t.len() as int),
                    Err(_) => false,
                }
            } else {
                match r {
                    Ok(_) => false,
                    Err(m) => m@ == "expected "@ + t,
                }
            }
        }),
{
    let tn = starting_text.unicode_len();
    let n = s.unicode_len();
    let mut matches = tn <= n;
    let mut i: usize = 0;
    while matches && i < tn
        invariant
            i <= tn,
            tn == starting_text@.len(),
            n == s@.len(),
            matches ==> tn <= n && (forall|k: int| 0 <= k < i ==> s@[k] == starting_text@[k]),
            !matches ==> !(starting_text@.len() <= s@.len() && s@.take(
                starting_text@.len() as int,
            ) == starting_text@),
        decreases tn - i, (if matches {
            1int
        } else {
            0
        }),
    {
        if s.get_char(i) != starting_text.get_char(i) {
            proof {
                assert(s@.take(tn as int)[i as int] != starting_text@[i as int]);
            }
            matches = false;
        } else {
            i = i + 1;
        }
    }
    if matches {
        proof {
            assert(s@.take(tn as int) =~= starting_text@);
        }
        Ok(s.substring_char(tn, n))
    } else {
        let mut msg = String::from_str("expected ");
        msg.append(starting_text);
        proof {
            reveal_strlit("expected ");
        }
        Err(msg)
    }
}

/// The items parse one after another, whitespace between them, from `s`
/// down to the remainder `mid`.
pub open spec fn is_seq_prefix(s: Seq<char>, mid: Seq<char>, items: Seq<Expr>) -> bool
    decreases items.len(),
{
    if items.len() == 0 {
        mid == s
    } else {
        &&& expr_input_ok(s)
        &&& is_expr_parsed(s, expr_rest(s), items[0])
        &&& is_seq_prefix(skip_ws(expr_rest(s)), mid, items.subrange(1, items.len() as int))
    }
}

/// A parsed item pins the remainder.
pub proof fn lemma_expr_parsed_rest(s: Seq<char>, rest: Seq<char>, e: Expr)
    requires
        is_expr_parsed(s, rest, e),
    ensures
        rest == expr_rest(s),
{
}

/// Appending the next parsed item extends the run.
pub proof fn lemma_seq_prefix_snoc(s: Seq<char>, mid: Seq<char>, items: Seq<Expr>, e: Expr)
    requires
        is_seq_prefix(s, mid, items),
        expr_input_ok(mid),
        is_expr_parsed(mid, expr_rest(mid), e),
    ensures
        is_seq_prefix(s, skip_ws(expr_rest(mid)), items.push(e)),
    decreases items.len(),
{
    let s2 = items.push(e);
    if items.len() == 0 {
        assert(s2[0] == e);
        assert(s2.subrange(1, 1) =~= Seq::<Expr>::empty());
        assert(mid == s);
        assert(is_seq_prefix(
            skip_ws(expr_rest(mid)),
            skip_ws(expr_rest(mid)),
            Seq::<Expr>::empty(),
        ));
        assert(is_seq_prefix(s, skip_ws(expr_rest(mid)), s2));
    } else {
        assert(s2[0] == items[0]);
        assert(s2.subrange(1, s2.len() as int) =~= items.subrange(1, items.len() as int).push(e));
        lemma_seq_prefix_snoc(
            skip_ws(expr_rest(s)),
            mid,
            items.subrange(1, items.len() as int),
            e,
        );
        assert(is_seq_prefix(s, skip_ws(expr_rest(mid)), s2));
    }
}

/// Reads as many expressions as the input offers, separated by whitespace:
/// the items in order of success, and the remainder at the first refusal.
/// It never fails: an input without a leading expression gives the empty
/// list and the input back.
pub fn sequence(s: &str) -> (r: (&str, Vec<Expr>))
    ensures
        is_seq_prefix(s@, r.0@, r.1@),
        !expr_input_ok(r.0@),
        r.0@.len() <= s@.len(),
{
    let mut items: Vec<Expr> = Vec::new();
    let mut cur: &str = s;
    let mut stopped = false;
    proof {
        assert(is_seq_prefix(s@, cur@, items@));
    }
    while !stopped
        invariant
            cur@.len() <= s@.len(),
            is_seq_prefix(s@, cur@, items@),
            stopped ==> !expr_input_ok(cur@),
        decreases 2 * cur@.len() + (if stopped {
            0int
        } else {
            1
        }),
    {
        match Expr::new(cur) {
            Ok((new_s, item)) => {
                proof {
                    lemma_expr_parsed_rest(cur@, new_s@, item);
                }
                let ghost items0 = items@;
                let ghost cur0 = cur@;
                let ghost item0 = item;
                items.push(item);
                let (after_ws, _) = extract_whitespace(new_s);
                proof {
                    crate::lexer::lemma_run_len_bounds(
                        new_s@,
                        |c: char| is_whitespace_char(c),
                    );
                    lemma_seq_prefix_snoc(s@, cur0, items0, item0);
                    assert(after_ws@ == skip_ws(expr_rest(cur0)));
                }
                cur = after_ws;
            },
            Err(_) => {
                stopped = true;
            },
        }
    }
    (cur, items)
}

/// Like `sequence`, but at least one expression must be there: it succeeds
/// exactly when one is.
pub fn sequence1(s: &str) -> (r: Result<(&str, Vec<Expr>), String>)
    ensures
        r is Ok <==> expr_input_ok(s@),
        match r {
            Ok(p) => {
                &&& is_seq_prefix(s@, p.0@, p.1@)
                &&& !expr_input_ok(p.0@)
                &&& p.0@.len() <= s@.len()
                &&& p.1@.len() >= 1
            },
            Err(m) => m@ == "expected a sequence with more than one item"@,
        },
{
    let (rest, items) = sequence(s);
    if items.len() == 0 {
        Err(String::from_str("expected a sequence with more than one item"))
    } else {
        Ok((rest, items))
    }
}

} // verus!
