//! Building strings: joining, and writing values as text.

use vstd::prelude::*;
use vstd::string::*;

use crate::cell::{Cell, Value};

verus! {

/// The characters of `a` followed by those of `b`.
pub(crate) fn concat(a: &String, b: &str) -> (r: String)
    ensures
        r@ == a@ + b@,
{
    let mut r = a.clone();
    r.append(b);
    r
}

/// The character of a decimal digit.
pub open spec fn digit_char(d: int) -> char {
    seq!['0', '1', '2', '3', '4', '5', '6', '7', '8', '9'][d]
}

/// The decimal digits of `n`, most significant first, without leading zeros.
pub open spec fn decimal_nat(n: nat) -> Seq<char>
    decreases n,
{
    if n < 10 {
        seq![digit_char(n as int)]
    } else {
        decimal_nat(n / 10) + seq![digit_char((n % 10) as int)]
    }
}

/// An integer written in decimal, with a leading `-` when negative.
pub open spec fn decimal(x: int) -> Seq<char> {
    if x < 0 {
        seq!['-'] + decimal_nat((-x) as nat)
    } else {
        decimal_nat(x as nat)
    }
}

/// A value written as text: strings as they are, integers in decimal,
/// booleans as `true` or `false`, null as `null`.
pub open spec fn value_name(v: Value) -> Seq<char> {
    match v {
        Value::Str(s) => s,
        Value::Int(x) => decimal(x as int),
        Value::Bool(b) => if b {
            seq!['t', 'r', 'u', 'e']
        } else {
            seq!['f', 'a', 'l', 's', 'e']
        },
        Value::Null => seq!['n', 'u', 'l', 'l'],
    }
}

fn digit_str(d: u64) -> (r: &'static str)
    requires
        d < 10,
    ensures
        r@ == seq![digit_char(d as int)],
{
    proof {
        reveal_strlit("0");
        reveal_strlit("1");
        reveal_strlit("2");
        reveal_strlit("3");
        reveal_strlit("4");
        reveal_strlit("5");
        reveal_strlit("6");
        reveal_strlit("7");
        reveal_strlit("8");
        reveal_strlit("9");
    }
    let r = match d {
        0 => "0",
        1 => "1",
        2 => "2",
        3 => "3",
        4 => "4",
        5 => "5",
        6 => "6",
        7 => "7",
        8 => "8",
        _ => "9",
    };
    assert(r@ =~= seq![digit_char(d as int)]);
    r
}

fn write_decimal(s: &mut String, n: u64)
    ensures
        final(s)@ == old(s)@ + decimal_nat(n as nat),
    decreases n,
{
    if n >= 10 {
        write_decimal(s, n / 10);
    }
    s.append(digit_str(n % 10));
    proof {
        if n >= 10 {
            assert(old(s)@ + decimal_nat((n / 10) as nat) + seq![digit_char((n % 10) as int)]
                =~= old(s)@ + decimal_nat(n as nat));
        } else {
            assert(old(s)@ + seq![digit_char((n % 10) as int)] =~= old(s)@ + decimal_nat(n as nat));
        }
    }
}

/// An integer written in decimal.
pub fn int_text(x: i64) -> (r: String)
    ensures
        r@ == decimal(x as int),
{
    let mut s = String::new();
    if x < 0 {
        proof { reveal_strlit("-"); }
        s.append("-");
        let m: u64 = (-(x as i128)) as u64;
        write_decimal(&mut s, m);
        assert(s@ =~= seq!['-'] + decimal_nat((-x) as nat));
    } else {
        write_decimal(&mut s, x as u64);
        assert(s@ =~= decimal_nat(x as nat));
    }
    s
}

/// A cell's value written as text.
pub fn cell_text(c: &Cell) -> (r: String)
    ensures
        r@ == value_name(c@),
{
    match c {
        Cell::Str(s) => s.clone(),
        Cell::Int(x) => int_text(*x),
        Cell::Bool(b) => {
            proof {
                reveal_strlit("true");
                reveal_strlit("false");
            }
            if *b {
                let r = String::from_str("true");
                assert(r@ =~= seq!['t', 'r', 'u', 'e']);
                r
            } else {
                let r = String::from_str("false");
                assert(r@ =~= seq!['f', 'a', 'l', 's', 'e']);
                r
            }
        },
        Cell::Null => {
            proof { reveal_strlit("null"); }
            let r = String::from_str("null");
            assert(r@ =~= seq!['n', 'u', 'l', 'l']);
            r
        },
    }
}

/// A cell's value as text, null staying null.
pub fn text_cell(c: &Cell) -> (r: Cell)
    ensures
        r@ == crate::reshape::as_text(c@),
{
    match c {
        Cell::Null => Cell::Null,
        _ => Cell::Str(cell_text(c)),
    }
}

} // verus!
