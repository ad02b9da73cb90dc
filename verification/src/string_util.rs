//! Decimal rendering of counters for the display log.

use vstd::prelude::*;

verus! {

/// The character of one decimal digit.
pub open spec fn digit_char(d: nat) -> char {
    if d == 0 {
        '0'
    } else if d == 1 {
        '1'
    } else if d == 2 {
        '2'
    } else if d == 3 {
        '3'
    } else if d == 4 {
        '4'
    } else if d == 5 {
        '5'
    } else if d == 6 {
        '6'
    } else if d == 7 {
        '7'
    } else if d == 8 {
        '8'
    } else {
        '9'
    }
}

/// The decimal digit string of a number.
pub open spec fn dec_chars(v: nat) -> Seq<char>
    decreases v,
{
    if v < 10 {
        seq![digit_char(v)]
    } else {
        dec_chars(v / 10).push(digit_char(v % 10))
    }
}

/// A labelled count line.
pub open spec fn line_chars(prefix: Seq<char>, v: nat) -> Seq<char> {
    prefix + dec_chars(v)
}

fn digit_str(d: usize) -> (r: &'static str)
    requires
        d < 10,
    ensures
        r@ == seq![digit_char(d as nat)],
{
    proof {
        reveal_strlit("0");
        reveal_strlit("1");
        reveal_strlit("2");
        reveal_strlit("3");
        reveal_strlit("4");
        reveal_strlit("5");
        reveal_strlit("6");
        reveal_strlit("7");
        reveal_strlit("8");
        reveal_strlit("9");
    }
    if d == 0 {
        "0"
    } else if d == 1 {
        "1"
    } else if d == 2 {
        "2"
    } else if d == 3 {
        "3"
    } else if d == 4 {
        "4"
    } else if d == 5 {
        "5"
    } else if d == 6 {
        "6"
    } else if d == 7 {
        "7"
    } else if d == 8 {
        "8"
    } else {
        "9"
    }
}

/// The decimal rendering of a number.
pub fn usize_to_string(x: usize) -> (r: String)
    ensures
        r@ == dec_chars(x as nat),
    decreases x,
{
    if x < 10 {
        String::from_str(digit_str(x))
    } else {
        let mut s = usize_to_string(x / 10);
        s.append(digit_str(x % 10));
        proof {
            assert(dec_chars(x as nat) == dec_chars(x as nat / 10).push(
                digit_char(x as nat % 10),
            ));
            assert(dec_chars(x as nat / 10).push(digit_char(x as nat % 10)) =~= dec_chars(
                x as nat / 10,
            ) + seq![digit_char(x as nat % 10)]);
        }
        s
    }
}

/// A label followed by a decimal count.
pub fn label_line(prefix: &'static str, value: usize) -> (r: String)
    ensures
        r@ == line_chars(prefix@, value as nat),
{
    let mut s = String::from_str(prefix);
    let num = usize_to_string(value);
    s.append(num.as_str());
    s
}

} // verus!
