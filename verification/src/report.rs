//! How a run ends.

use vstd::prelude::*;
use vstd::string::StringExecFns;

verus! {

/// The character that stands for a digit.
pub open spec fn digit_char(d: nat) -> char {
    if d == 0 {
        '0'
    } else if d == 1 {
        '1'
    } else if d == 2 {
        '2'
    } else if d == 3 {
        '3'
    } else if d == 4 {
        '4'
    } else if d == 5 {
        '5'
    } else if d == 6 {
        '6'
    } else if d == 7 {
        '7'
    } else if d == 8 {
        '8'
    } else {
        '9'
    }
}

/// A number in decimal notation, without leading zeros.
pub open spec fn decimal(n: nat) -> Seq<char>
    decreases n,
{
    if n < 10 {
        seq![digit_char(n)]
    } else {
        decimal(n / 10).push(digit_char(n % 10))
    }
}

/// The line that a run with `n` violations ends with.
pub open spec fn summary_line(n: nat) -> Seq<char> {
    decimal(n) + " dep lint violation(s)"@
}

/// The text of one digit.
fn digit(d: usize) -> (r: &'static str)
    requires
        d < 10,
    ensures
        r@ == seq![digit_char(d as nat)],
{
    proof {
        reveal_strlit("0");
        reveal_strlit("1");
        reveal_strlit("2");
        reveal_strlit("3");
        reveal_strlit("4");
        reveal_strlit("5");
        reveal_strlit("6");
        reveal_strlit("7");
        reveal_strlit("8");
        reveal_strlit("9");
    }
    let r = if d == 0 {
        "0"
    } else if d == 1 {
        "1"
    } else if d == 2 {
        "2"
    } else if d == 3 {
        "3"
    } else if d == 4 {
        "4"
    } else if d == 5 {
        "5"
    } else if d == 6 {
        "6"
    } else if d == 7 {
        "7"
    } else if d == 8 {
        "8"
    } else {
        "9"
    };
    assert(r@ =~= seq![digit_char(d as nat)]);
    r
}

/// The text of a number in decimal notation.
fn to_decimal(n: usize) -> (r: String)
    ensures
        r@ == decimal(n as nat),
    decreases n,
{
    if n < 10 {
        String::from_str(digit(n))
    } else {
        let mut r = to_decimal(n / 10);
        r.append(digit(n % 10));
        assert(r@ =~= decimal(n as nat));
        r
    }
}

/// How a run ends: well where no rule was broken, and else with the line
/// that says how many violations there are.
pub fn summary(violations: &Vec<String>) -> (r: Result<(), String>)
    ensures
        match r {
            Ok(_) => violations@.len() == 0,
            Err(line) => violations@.len() > 0 && line@ == summary_line(violations@.len()),
        },
{
    if violations.len() == 0 {
        Ok(())
    } else {
        let mut line = to_decimal(violations.len());
        line.append(" dep lint violation(s)");
        Err(line)
    }
}

} // verus!
