use crate::lexer::{
    is_digit_char, lemma_run_len_bounds, lemma_run_len_is, run_len,
};
use vstd::prelude::*;
use vstd::string::*;

verus! {

fn is_space_exec(c: char) -> (r: bool)
    ensures
        r == (c == ' '),
{
    c == ' '
}

fn is_digit_exec(c: char) -> (r: bool)
    ensures
        r == is_digit_char(c),
{
    let u = c as u32;
    48 <= u && u <= 57
}

/// Splits off the leading digits: the remainder first, the digits second.
/// An input without leading digits gives empty digits and itself back.
pub fn extract_digits(s: &str) -> (r: (&str, &str))
    ensures
        r.0@ == s@.skip(run_len(s@, |c: char| is_digit_char(c)) as int),
        r.1@ == s@.take(run_len(s@, |c: char| is_digit_char(c)) as int),
{
    let n = s.unicode_len();
    let mut j: usize = 0;
    while j < n && is_digit_exec(s.get_char(j))
        invariant
            j <= n,
            n == s@.len(),
            forall|k: int| 0 <= k < j ==> is_digit_char(s@[k]),
        decreases n - j,
    {
        j = j + 1;
    }
    proof {
        lemma_run_len_is(s@, |c: char| is_digit_char(c), j as int);
        lemma_run_len_bounds(s@, |c: char| is_digit_char(c));
    }
    (s.substring_char(j, n), s.substring_char(0, j))
}

/// Splits off one arithmetic operator character. Any other input is a
/// caller's mistake and stays outside this function's contract.
pub fn extract_op(s: &str) -> (r: (&str, &str))
    requires
        s@.len() >= 1,
        s@[0] == '+' || s@[0] == '-' || s@[0] == '*' || s@[0] == '/',
    ensures
        r.0@ == s@.skip(1),
        r.1@ == s@.take(1),
{
    let n = s.unicode_len();
    (s.substring_char(1, n), s.substring_char(0, 1))
}

/// Splits off the leading spaces: the remainder first, the spaces second.
pub fn extract_whitespace(s: &str) -> (r: (&str, &str))
    ensures
        r.0@ == s@.skip(run_len(s@, |c: char| c == ' ') as int),
        r.1@ == s@.take(run_len(s@, |c: char| c == ' ') as int),
{
    let n = s.unicode_len();
    let mut j: usize = 0;
    while j < n && is_space_exec(s.get_char(j))
        invariant
            j <= n,
            n == s@.len(),
            forall|k: int| 0 <= k < j ==> s@[k] == ' ',
        decreases n - j,
    {
        j = j + 1;
    }
    proof {
        lemma_run_len_is(s@, |c: char| c == ' ', j as int);
        lemma_run_len_bounds(s@, |c: char| c == ' ');
    }
    (s.substring_char(j, n), s.substring_char(0, j))
}

/// The numeric value of a digit string, read left to right.
pub open spec fn digits_value(t: Seq<char>) -> int
    decreases t.len(),
{
    if t.len() == 0 {
        0
    } else {
        digits_value(t.drop_last()) * 10 + ((t.last() as u32) as int - 48)
    }
}

/// Reads the value of a digit string, refusing values beyond the machine
/// range rather than failing.
pub fn digits_to_i32(t: &str) -> (r: Option<i32>)
    requires
        forall|k: int| 0 <= k < t@.len() ==> is_digit_char(t@[k]),
    ensures
        match r {
            Some(v) => v == digits_value(t@),
            None => digits_value(t@) > i32::MAX,
        },
{
    let n = t.unicode_len();
    let mut acc: i32 = 0;
    let mut i: usize = 0;
    proof {
        assert(t@.take(0) =~= Seq::<char>::empty());
    }
    while i < n
        invariant
            i <= n,
            n == t@.len(),
            forall|k: int| 0 <= k < t@.len() ==> is_digit_char(t@[k]),
            acc == digits_value(t@.take(i as int)),
            0 <= acc,
        decreases n - i,
    {
        let c = t.get_char(i);
        let d = (c as u32) - 48;
        proof {
            assert(is_digit_char(t@[i as int]));
            assert(t@.take(i + 1).drop_last() =~= t@.take(i as int));
            assert(t@.take(i + 1).last() == t@[i as int]);
        }
        if acc > (i32::MAX - (d as i32)) / 10 {
            proof {
                lemma_digits_value_grows(t@, i + 1);
            }
            return None;
        }
        acc = acc * 10 + (d as i32);
        i = i + 1;
    }
    proof {
        assert(t@.take(n as int) =~= t@);
    }
    Some(acc)
}

/// A longer digit prefix never has a smaller value.
proof fn lemma_digits_value_grows(t: Seq<char>, i: int)
    requires
        0 <= i <= t.len(),
        forall|k: int| 0 <= k < t.len() ==> is_digit_char(t[k]),
    ensures
        digits_value(t) >= digits_value(t.take(i)),
        digits_value(t.take(i)) >= 0,
    decreases t.len() - i,
{
    if i == t.len() {
        assert(t.take(i) =~= t);
        lemma_digits_value_nonneg(t);
    } else {
        lemma_digits_value_grows(t, i + 1);
        assert(t.take(i + 1).drop_last() =~= t.take(i));
        assert(t.take(i + 1).last() == t[i]);
        lemma_digits_value_nonneg(t.take(i));
        assert(is_digit_char(t[i]));
    }
}

proof fn lemma_digits_value_nonneg(t: Seq<char>)
    requires
        forall|k: int| 0 <= k < t.len() ==> is_digit_char(t[k]),
    ensures
        digits_value(t) >= 0,
    decreases t.len(),
{
    if t.len() > 0 {
        assert(forall|k: int| 0 <= k < t.len() - 1 ==> is_digit_char(t.drop_last()[k]));
        lemma_digits_value_nonneg(t.drop_last());
        assert(is_digit_char(t.last()));
    }
}

} // verus!
