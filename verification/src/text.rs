use vstd::prelude::*;

use vstd::string::StringExecFns;

verus! {

/// The decimal digit characters.
pub open spec fn spec_digit(d: int) -> char {
    if d == 0 {
        '0'
    } else if d == 1 {
        '1'
    } else if d == 2 {
        '2'
    } else if d == 3 {
        '3'
    } else if d == 4 {
        '4'
    } else if d == 5 {
        '5'
    } else if d == 6 {
        '6'
    } else if d == 7 {
        '7'
    } else if d == 8 {
        '8'
    } else {
        '9'
    }
}

/// The decimal digits of a non-negative number, most significant first.
pub open spec fn spec_udigits(n: nat) -> Seq<char>
    decreases n,
{
    if n < 10 {
        seq![spec_digit(n as int)]
    } else {
        spec_udigits(n / 10).push(spec_digit((n % 10) as int))
    }
}

/// The decimal rendering of a signed number.
pub open spec fn spec_int_digits(n: int) -> Seq<char> {
    if n < 0 {
        seq!['-'] + spec_udigits((-n) as nat)
    } else {
        spec_udigits(n as nat)
    }
}

/// The status line's text: the turn counter, marked when the level is
/// complete.
pub open spec fn spec_turn_text(turn: int, complete: bool) -> Seq<char> {
    "Turn: "@ + spec_int_digits(turn) + (if complete {
        " ✓"@
    } else {
        "   "@
    })
}

fn digit_str(d: u64) -> (r: &'static str)
    requires
        d < 10,
    ensures
        r@ =~= seq![spec_digit(d as int)],
{
    let r: &'static str = match d {
        0 => "0",
        1 => "1",
        2 => "2",
        3 => "3",
        4 => "4",
        5 => "5",
        6 => "6",
        7 => "7",
        8 => "8",
        _ => "9",
    };
    proof {
        reveal_strlit("0");
        reveal_strlit("1");
        reveal_strlit("2");
        reveal_strlit("3");
        reveal_strlit("4");
        reveal_strlit("5");
        reveal_strlit("6");
        reveal_strlit("7");
        reveal_strlit("8");
        reveal_strlit("9");
    }
    r
}

fn push_udigits(n: u64, out: &mut String)
    ensures
        final(out)@ == old(out)@ + spec_udigits(n as nat),
    decreases n,
{
    if n >= 10 {
        push_udigits(n / 10, out);
    }
    out.append(digit_str(n % 10));
    proof {
        assert(out@ =~= old(out)@ + spec_udigits(n as nat));
    }
}

/// The decimal rendering of a signed number, exactly as
/// [`spec_int_digits`] lays it out.
pub fn int_to_string(n: i32) -> (r: String)
    ensures
        r@ == spec_int_digits(n as int),
{
    let mut out = String::new();
    if n < 0 {
        out.append("-");
        proof {
            reveal_strlit("-");
            assert(out@ =~= seq!['-']);
        }
        let mag = (-(n as i64)) as u64;
        push_udigits(mag, &mut out);
        proof {
            assert(out@ =~= spec_int_digits(n as int));
        }
    } else {
        push_udigits(n as u64, &mut out);
        proof {
            assert(out@ =~= spec_int_digits(n as int));
        }
    }
    out
}

/// The status line's text, exactly as [`spec_turn_text`] lays it out.
pub fn turn_text(turn: i32, complete: bool) -> (r: String)
    ensures
        r@ == spec_turn_text(turn as int, complete),
{
    let mut out = String::from_str("Turn: ");
    let digits = int_to_string(turn);
    out.append(digits.as_str());
    if complete {
        out.append(" ✓");
        proof {
            assert(out@ =~= spec_turn_text(turn as int, complete));
        }
    } else {
        out.append("   ");
        proof {
            assert(out@ =~= spec_turn_text(turn as int, complete));
        }
    }
    out
}

} // verus!
