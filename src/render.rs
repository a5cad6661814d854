use vstd::prelude::*;
use vstd::string::StringExecFns;

use crate::pattern::Op;

verus! {

/// The character of the decimal digit `d`.
pub open spec fn digit(d: int) -> char {
    if d == 0 {
        '0'
    } else if d == 1 {
        '1'
    } else if d == 2 {
        '2'
    } else if d == 3 {
        '3'
    } else if d == 4 {
        '4'
    } else if d == 5 {
        '5'
    } else if d == 6 {
        '6'
    } else if d == 7 {
        '7'
    } else if d == 8 {
        '8'
    } else {
        '9'
    }
}

/// The decimal digits of `n`, most significant first.
pub open spec fn decimal(n: nat) -> Seq<char>
    decreases n,
{
    if n < 10 {
        seq![digit(n as int)]
    } else {
        decimal(n / 10).push(digit((n % 10) as int))
    }
}

/// `i` in decimal, with a leading `-` when it is negative.
pub open spec fn signed_decimal(i: int) -> Seq<char> {
    if i < 0 {
        seq!['-'] + decimal((-i) as nat)
    } else {
        decimal(i as nat)
    }
}

/// The text of an operation.
pub open spec fn op_text<R>(op: Op<R>) -> Seq<char>
    decreases op,
{
    match op {
        Op::Const(i) => seq!['='] + signed_decimal(i as int),
        Op::Cube => seq!['^', '3'],
        Op::CubeRoot => seq!['r', 'o', 'o', 't', ' ', '3'],
        Op::Custom(_, label) => label,
        Op::Div(i) => seq!['/'] + signed_decimal(i as int),
        Op::Meta(s) => seq!['['] + ops_text(s) + seq![']'],
        Op::Mod(i) => seq!['%'] + signed_decimal(i as int),
        Op::Mult(i) => seq!['*'] + signed_decimal(i as int),
        Op::Plus(i) => if i < 0 {
            seq!['-'] + decimal((-i) as nat)
        } else {
            seq!['+'] + decimal(i as nat)
        },
        Op::Square => seq!['^', '2'],
        Op::SquareRoot => seq!['r', 'o', 'o', 't', ' ', '2'],
    }
}

/// The texts of the operations of `s`, separated by `", "`.
pub open spec fn ops_text<R>(s: Seq<Op<R>>) -> Seq<char>
    decreases s,
{
    if s.len() == 0 {
        Seq::empty()
    } else if s.len() == 1 {
        op_text(s[0])
    } else {
        ops_text(s.subrange(0, s.len() - 1)) + seq![',', ' '] + op_text(s[s.len() - 1])
    }
}

fn digit_text(d: u64) -> (r: &'static str)
    requires
        d < 10,
    ensures
        r@ == seq![digit(d as int)],
{
    if d == 0 {
        proof { reveal_strlit("0"); }
        "0"
    } else if d == 1 {
        proof { reveal_strlit("1"); }
        "1"
    } else if d == 2 {
        proof { reveal_strlit("2"); }
        "2"
    } else if d == 3 {
        proof { reveal_strlit("3"); }
        "3"
    } else if d == 4 {
        proof { reveal_strlit("4"); }
        "4"
    } else if d == 5 {
        proof { reveal_strlit("5"); }
        "5"
    } else if d == 6 {
        proof { reveal_strlit("6"); }
        "6"
    } else if d == 7 {
        proof { reveal_strlit("7"); }
        "7"
    } else if d == 8 {
        proof { reveal_strlit("8"); }
        "8"
    } else {
        proof { reveal_strlit("9"); }
        "9"
    }
}

/// Appends the decimal digits of `n` to `s`.
pub fn push_decimal(s: &mut String, n: u64)
    ensures
        final(s)@ == old(s)@ + decimal(n as nat),
    decreases n,
{
    if n >= 10 {
        push_decimal(s, n / 10);
    }
    let ghost before = s@;
    s.append(digit_text(n % 10));
    proof {
        if n >= 10 {
            assert(s@ =~= old(s)@ + decimal(n as nat));
        } else {
            assert(s@ =~= old(s)@ + decimal(n as nat));
        }
    }
}

/// Appends `i` in decimal to `s`, with a leading `-` when it is negative.
pub fn push_signed(s: &mut String, i: i32)
    ensures
        final(s)@ == old(s)@ + signed_decimal(i as int),
{
    if i < 0 {
        proof { reveal_strlit("-"); }
        s.append("-");
        let m: i64 = -(i as i64);
        push_decimal(s, m as u64);
        assert(s@ =~= old(s)@ + signed_decimal(i as int));
    } else {
        push_decimal(s, i as u64);
    }
}

} // verus!
