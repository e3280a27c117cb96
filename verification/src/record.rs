//! The text of an output record: a value, a blank, a zero and a line feed.
use vstd::prelude::*;

verus! {

/// The character that writes the digit `d`.
pub open spec fn digit_char(d: nat) -> char {
    if d == 0 {
        '0'
    } else if d == 1 {
        '1'
    } else if d == 2 {
        '2'
    } else if d == 3 {
        '3'
    } else if d == 4 {
        '4'
    } else if d == 5 {
        '5'
    } else if d == 6 {
        '6'
    } else if d == 7 {
        '7'
    } else if d == 8 {
        '8'
    } else {
        '9'
    }
}

/// `n` in decimal, without leading zeros.
pub open spec fn decimal(n: nat) -> Seq<char>
    decreases n,
{
    if n < 10 {
        seq![digit_char(n)]
    } else {
        decimal(n / 10).push(digit_char(n % 10))
    }
}

/// The record of a value: the value, then a blank, a zero and a line feed.
pub open spec fn record(value: Seq<char>) -> Seq<char> {
    value + seq![' ', '0', '\n']
}

fn digit(d: u64) -> (c: char)
    requires
        d < 10,
    ensures
        c == digit_char(d as nat),
{
    if d == 0 {
        '0'
    } else if d == 1 {
        '1'
    } else if d == 2 {
        '2'
    } else if d == 3 {
        '3'
    } else if d == 4 {
        '4'
    } else if d == 5 {
        '5'
    } else if d == 6 {
        '6'
    } else if d == 7 {
        '7'
    } else if d == 8 {
        '8'
    } else {
        '9'
    }
}

/// Writes `n` in decimal.
pub fn write_decimal(n: u64) -> (s: String)
    ensures
        s@ == decimal(n as nat),
{
    let mut low: Vec<char> = Vec::new();
    let mut m: u64 = n;
    while m >= 10
        invariant
            decimal(n as nat) == decimal(m as nat) + low@.reverse(),
        decreases m,
    {
        let c = digit(m % 10);
        proof {
            assert(low@.push(c).reverse() =~= seq![c] + low@.reverse());
            assert(decimal(m as nat) + low@.reverse() =~= decimal((m / 10) as nat) + (seq![c]
                + low@.reverse()));
        }
        low.push(c);
        m = m / 10;
    }
    let mut s = String::new();
    s.push(digit(m));
    let mut i: usize = low.len();
    while i > 0
        invariant
            i <= low.len(),
            s@ == decimal(m as nat) + low@.reverse().take(low.len() - i),
            m < 10,
        decreases i,
    {
        i -= 1;
        s.push(low[i]);
        proof {
            let r = low@.reverse();
            assert(r[low.len() - 1 - i] == low@[i as int]);
            assert(r.take(low.len() - i) =~= r.take(low.len() - 1 - i).push(low@[i as int]));
            assert(s@ =~= decimal(m as nat) + r.take(low.len() - i));
        }
    }
    proof {
        assert(low@.reverse().take(low.len() as int) =~= low@.reverse());
    }
    s
}

/// Writes the record of a value that is given as text.
pub fn write_record(value: &str) -> (s: String)
    ensures
        s@ == record(value@),
{
    let mut s = value.to_owned();
    s.push(' ');
    s.push('0');
    s.push('\n');
    proof {
        assert(s@ =~= record(value@));
    }
    s
}

} // verus!
