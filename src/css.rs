//! CSS text for lengths and keyframes.
use vstd::prelude::*;
use vstd::string::StringExecFns;

verus! {

/// The character of a decimal digit.
pub open spec fn digit_char(d: nat) -> char {
    if d == 0 { '0' }
    else if d == 1 { '1' }
    else if d == 2 { '2' }
    else if d == 3 { '3' }
    else if d == 4 { '4' }
    else if d == 5 { '5' }
    else if d == 6 { '6' }
    else if d == 7 { '7' }
    else if d == 8 { '8' }
    else { '9' }
}

/// Decimal text of a natural number, without leading zeros.
pub open spec fn decimal(n: nat) -> Seq<char>
    decreases n,
{
    if n < 10 {
        seq![digit_char(n)]
    } else {
        decimal(n / 10).push(digit_char(n % 10))
    }
}

/// CSS text of a length in hundredths of a pixel: an optional minus sign, the
/// whole pixels, two decimals where the length is not a whole number of
/// pixels, and the unit, as in `-12.05px` or `40px`.
pub open spec fn px_text(v: int) -> Seq<char> {
    let a = if v < 0 { -v } else { v };
    let sign = if v < 0 { seq!['-'] } else { Seq::<char>::empty() };
    let frac = if a % 100 == 0 {
        Seq::<char>::empty()
    } else {
        seq!['.', digit_char(((a % 100) / 10) as nat), digit_char((a % 10) as nat)]
    };
    sign + decimal((a / 100) as nat) + frac + seq!['p', 'x']
}

fn digit_str(d: u128) -> (r: &'static str)
    requires
        d < 10,
    ensures
        r@ == seq![digit_char(d as nat)],
{
    proof {
        reveal_strlit("0");
        reveal_strlit("1");
        reveal_strlit("2");
        reveal_strlit("3");
        reveal_strlit("4");
        reveal_strlit("5");
        reveal_strlit("6");
        reveal_strlit("7");
        reveal_strlit("8");
        reveal_strlit("9");
    }
    if d == 0 {
        "0"
    } else if d == 1 {
        "1"
    } else if d == 2 {
        "2"
    } else if d == 3 {
        "3"
    } else if d == 4 {
        "4"
    } else if d == 5 {
        "5"
    } else if d == 6 {
        "6"
    } else if d == 7 {
        "7"
    } else if d == 8 {
        "8"
    } else {
        "9"
    }
}

fn push_decimal(s: &mut String, n: u128)
    ensures
        final(s)@ == old(s)@ + decimal(n as nat),
    decreases n,
{
    if n >= 10 {
        push_decimal(s, n / 10);
    }
    s.append(digit_str(n % 10));
    proof {
        if n >= 10 {
            assert(decimal(n as nat) == decimal((n / 10) as nat).push(digit_char((n % 10) as nat)));
        }
    }
    assert(s@ =~= old(s)@ + decimal(n as nat));
}

/// CSS text of a length in hundredths of a pixel.
pub fn px(v: i128) -> (r: String)
    requires
        -0x7fff_ffff_ffff_ffff_ffff_ffff_ffff_ffff <= v,
    ensures
        r@ == px_text(v as int),
{
    let a: u128 = if v < 0 { (-v) as u128 } else { v as u128 };
    let mut s = String::new();
    if v < 0 {
        proof {
            reveal_strlit("-");
        }
        s.append("-");
    }
    push_decimal(&mut s, a / 100);
    if a % 100 != 0 {
        proof {
            reveal_strlit(".");
        }
        s.append(".");
        s.append(digit_str((a % 100) / 10));
        s.append(digit_str(a % 10));
    }
    proof {
        reveal_strlit("px");
    }
    s.append("px");
    assert(s@ =~= px_text(v as int));
    s
}

} // verus!
