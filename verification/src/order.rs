//! The wire form of a move: the line of text that orders it.

use crate::state::Action;
use vstd::prelude::*;
use vstd::string::StringExecFns;

verus! {

/// The character that writes the digit `d`.
pub open spec fn digit_char(d: int) -> char {
    if d == 0 {
        '0'
    } else if d == 1 {
        '1'
    } else if d == 2 {
        '2'
    } else if d == 3 {
        '3'
    } else if d == 4 {
        '4'
    } else if d == 5 {
        '5'
    } else if d == 6 {
        '6'
    } else if d == 7 {
        '7'
    } else if d == 8 {
        '8'
    } else {
        '9'
    }
}

/// The decimal digits of a natural number, without leading zeros.
pub open spec fn decimal_nat(n: nat) -> Seq<char>
    decreases n,
{
    if n < 10 {
        seq![digit_char(n as int)]
    } else {
        decimal_nat(n / 10).push(digit_char((n % 10) as int))
    }
}

/// The decimal form of an integer: a minus sign if it is negative, then
/// the digits of its absolute value.
pub open spec fn decimal(n: int) -> Seq<char> {
    if n < 0 {
        seq!['-'] + decimal_nat((-n) as nat)
    } else {
        decimal_nat(n as nat)
    }
}

/// The text that orders `action`: `WAIT`, `GROW <cell>`,
/// `SEED <source> <target>` or `COMPLETE <cell>`, the cells in decimal.
pub open spec fn order_text(action: Action) -> Seq<char> {
    match action {
        Action::Wait => "WAIT"@,
        Action::Grow(target) => "GROW "@ + decimal(target as int),
        Action::Seed(source, target) => "SEED "@ + decimal(source as int) + " "@ + decimal(
            target as int,
        ),
        Action::Complete(target) => "COMPLETE "@ + decimal(target as int),
    }
}

/// The text of one digit.
fn digit_text(d: u64) -> (text: &'static str)
    requires
        d < 10,
    ensures
        text@ == seq![digit_char(d as int)],
{
    proof {
        reveal_strlit("0");
        reveal_strlit("1");
        reveal_strlit("2");
        reveal_strlit("3");
        reveal_strlit("4");
        reveal_strlit("5");
        reveal_strlit("6");
        reveal_strlit("7");
        reveal_strlit("8");
        reveal_strlit("9");
    }
    let text: &'static str = if d == 0 {
        "0"
    } else if d == 1 {
        "1"
    } else if d == 2 {
        "2"
    } else if d == 3 {
        "3"
    } else if d == 4 {
        "4"
    } else if d == 5 {
        "5"
    } else if d == 6 {
        "6"
    } else if d == 7 {
        "7"
    } else if d == 8 {
        "8"
    } else {
        "9"
    };
    assert(text@ =~= seq![digit_char(d as int)]);
    text
}

/// Appends the decimal digits of `n` to `out`.
fn push_digits(out: &mut String, n: u64)
    ensures
        final(out)@ == old(out)@ + decimal_nat(n as nat),
    decreases n,
{
    if n >= 10 {
        push_digits(out, n / 10);
    }
    let ghost before = out@;
    out.append(digit_text(n % 10));
    proof {
        if n >= 10 {
            assert(out@ =~= old(out)@ + decimal_nat((n / 10) as nat).push(
                digit_char((n % 10) as int),
            ));
        } else {
            assert(out@ =~= old(out)@ + seq![digit_char(n as int)]);
        }
    }
}

/// Appends the decimal form of `n` to `out`.
fn push_decimal(out: &mut String, n: i32)
    ensures
        final(out)@ == old(out)@ + decimal(n as int),
{
    if n < 0 {
        proof {
            reveal_strlit("-");
        }
        out.append("-");
        let ghost signed = out@;
        push_digits(out, (-(n as i64)) as u64);
        assert(out@ =~= old(out)@ + (seq!['-'] + decimal_nat((-n) as nat))) by {
            assert(signed =~= old(out)@ + seq!['-']);
        }
    } else {
        push_digits(out, n as u64);
    }
}

/// The line of text that orders `action`.
pub fn action_to_order(action: Action) -> (order: String)
    ensures
        order@ == order_text(action),
{
    match action {
        Action::Wait => String::from_str("WAIT"),
        Action::Grow(target) => {
            let mut order: String = String::from_str("GROW ");
            push_decimal(&mut order, target);
            order
        },
        Action::Seed(source, target) => {
            let mut order: String = String::from_str("SEED ");
            push_decimal(&mut order, source);
            order.append(" ");
            push_decimal(&mut order, target);
            order
        },
        Action::Complete(target) => {
            let mut order: String = String::from_str("COMPLETE ");
            push_decimal(&mut order, target);
            order
        },
    }
}

} // verus!
