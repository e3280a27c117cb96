//! Decimal number literals: an optional sign, then digits with at most one
//! point before, among or behind them. A literal holds at least one digit.
use vstd::prelude::*;
use crate::text::string_of;
use crate::text::chars_of;

verus! {

pub open spec fn is_digit(c: char) -> bool {
    '0' <= c && c <= '9'
}

pub open spec fn is_sign(c: char) -> bool {
    c == '+' || c == '-'
}

/// The first position at or after `i` that holds no digit.
pub open spec fn digits_end(s: Seq<char>, i: int) -> int
    decreases s.len() - i,
{
    if 0 <= i < s.len() && is_digit(s[i]) {
        digits_end(s, i + 1)
    } else {
        i
    }
}

/// The position after a sign at `i`, or `i` where there is none.
pub open spec fn sign_end(s: Seq<char>, i: int) -> int {
    if 0 <= i < s.len() && is_sign(s[i]) {
        i + 1
    } else {
        i
    }
}

/// The end of the longest number literal that starts at `i`, or `i` itself
/// where no literal starts there.
pub open spec fn number_end(s: Seq<char>, i: int) -> int {
    let a = sign_end(s, i);
    let b = digits_end(s, a);
    if 0 <= b < s.len() && s[b] == '.' {
        let d = digits_end(s, b + 1);
        if b > a || d > b + 1 {
            d
        } else {
            i
        }
    } else if b > a {
        b
    } else {
        i
    }
}

/// `t` is a number literal, the whole of it.
pub open spec fn is_number(t: Seq<char>) -> bool {
    t.len() > 0 && number_end(t, 0) == t.len()
}

pub proof fn lemma_digits_end_bounds(s: Seq<char>, i: int)
    requires
        0 <= i <= s.len(),
    ensures
        i <= digits_end(s, i) <= s.len(),
        forall|k: int| i <= k < digits_end(s, i) ==> is_digit(#[trigger] s[k]),
        digits_end(s, i) < s.len() ==> !is_digit(s[digits_end(s, i)]),
    decreases s.len() - i,
{
    if i < s.len() && is_digit(s[i]) {
        lemma_digits_end_bounds(s, i + 1);
    }
}

pub proof fn lemma_number_end_bounds(s: Seq<char>, i: int)
    requires
        0 <= i <= s.len(),
    ensures
        i <= number_end(s, i) <= s.len(),
{
    let a = sign_end(s, i);
    lemma_digits_end_bounds(s, a);
    let b = digits_end(s, a);
    if b < s.len() {
        lemma_digits_end_bounds(s, b + 1);
    }
}

/// Within a stretch `s[i..e]`, the digits end where they end in `s`, or at
/// the end of the stretch.
pub proof fn lemma_digits_end_subrange(s: Seq<char>, i: int, e: int, k: int)
    requires
        0 <= i <= i + k <= e <= s.len(),
    ensures
        digits_end(s.subrange(i, e), k) == if digits_end(s, i + k) <= e {
            digits_end(s, i + k) - i
        } else {
            e - i
        },
    decreases e - i - k,
{
    let t = s.subrange(i, e);
    lemma_digits_end_bounds(s, i + k);
    if i + k < e {
        assert(t[k] == s[i + k]);
        if is_digit(s[i + k]) {
            lemma_digits_end_subrange(s, i, e, k + 1);
        }
    }
}

/// The literal that `number_end` delimits is a number.
pub proof fn lemma_number_end_is_number(s: Seq<char>, i: int)
    requires
        0 <= i <= s.len(),
        number_end(s, i) > i,
    ensures
        number_end(s, i) <= s.len(),
        is_number(s.subrange(i, number_end(s, i))),
{
    lemma_number_end_bounds(s, i);
    let e = number_end(s, i);
    let t = s.subrange(i, e);
    let a = sign_end(s, i);
    lemma_digits_end_bounds(s, a);
    let b = digits_end(s, a);
    assert(t[0] == s[i]);
    assert(sign_end(t, 0) == a - i);
    lemma_digits_end_subrange(s, i, e, a - i);
    if b < s.len() && s[b] == '.' {
        lemma_digits_end_bounds(s, b + 1);
        assert(t[b - i] == s[b]);
        lemma_digits_end_subrange(s, i, e, b + 1 - i);
    }
}

/// `t` is empty or begins with a character that no literal holds, so that
/// a literal that ends just before `t` is not continued by it.
pub open spec fn ends_literal(t: Seq<char>) -> bool {
    t.len() == 0 || (!is_digit(t[0]) && !is_sign(t[0]) && t[0] != '.')
}

/// What follows `a` does not move the end of the digits in `a`, unless it
/// begins with a digit.
pub proof fn lemma_digits_end_append(a: Seq<char>, t: Seq<char>, k: int)
    requires
        0 <= k <= a.len(),
        t.len() == 0 || !is_digit(t[0]),
    ensures
        digits_end(a + t, k) == digits_end(a, k),
    decreases a.len() - k,
{
    if k < a.len() {
        assert((a + t)[k] == a[k]);
        if is_digit(a[k]) {
            lemma_digits_end_append(a, t, k + 1);
        }
    } else if t.len() > 0 {
        assert((a + t)[k] == t[0]);
    }
}

/// What follows `a` does not move the end of a literal in `a`, unless it
/// begins with a character of literals.
pub proof fn lemma_number_end_append(a: Seq<char>, t: Seq<char>, i: int)
    requires
        0 <= i <= a.len(),
        ends_literal(t),
    ensures
        number_end(a + t, i) == number_end(a, i),
{
    let s = a + t;
    if i < a.len() {
        assert(s[i] == a[i]);
    } else if t.len() > 0 {
        assert(s[i] == t[0]);
    }
    let x = sign_end(a, i);
    assert(sign_end(s, i) == x);
    lemma_digits_end_bounds(a, x);
    lemma_digits_end_append(a, t, x);
    let b = digits_end(a, x);
    if b < a.len() {
        assert(s[b] == a[b]);
        lemma_digits_end_append(a, t, b + 1);
    } else if t.len() > 0 {
        assert(s[b] == t[0]);
    }
}

/// Behind a prefix the digits end where they end without it.
pub proof fn lemma_digits_end_prefix(p: Seq<char>, n: Seq<char>, k: int)
    requires
        0 <= k <= n.len(),
    ensures
        digits_end(p + n, p.len() + k) == p.len() + digits_end(n, k),
    decreases n.len() - k,
{
    if k < n.len() {
        assert((p + n)[p.len() + k] == n[k]);
        if is_digit(n[k]) {
            lemma_digits_end_prefix(p, n, k + 1);
        }
    }
}

/// A number behind a prefix is a literal that reaches the end.
pub proof fn lemma_number_end_prefix(p: Seq<char>, n: Seq<char>)
    requires
        is_number(n),
    ensures
        number_end(p + n, p.len() as int) == p.len() + n.len(),
{
    let s = p + n;
    let i = p.len() as int;
    assert(s[i] == n[0]);
    let x = sign_end(n, 0);
    assert(sign_end(s, i) == i + x);
    lemma_digits_end_bounds(n, x);
    lemma_digits_end_prefix(p, n, x);
    let b = digits_end(n, x);
    if b < n.len() {
        assert(s[i + b] == n[b]);
        lemma_digits_end_bounds(n, b + 1);
        lemma_digits_end_prefix(p, n, b + 1);
    }
}

fn is_digit_char(c: char) -> (r: bool)
    ensures
        r == is_digit(c),
{
    '0' <= c && c <= '9'
}

/// Skips the digits that start at `i`.
fn skip_digits(s: &Vec<char>, i: usize) -> (end: usize)
    requires
        i <= s.len(),
    ensures
        end == digits_end(s@, i as int),
        i <= end <= s.len(),
{
    let mut j: usize = i;
    while j < s.len() && is_digit_char(s[j])
        invariant
            i <= j <= s.len(),
            digits_end(s@, i as int) == digits_end(s@, j as int),
        decreases s.len() - j,
    {
        j += 1;
    }
    j
}

/// Finds the end of the number literal that starts at `i`.
pub(crate) fn scan_number(s: &Vec<char>, i: usize) -> (end: usize)
    requires
        i <= s.len(),
    ensures
        end == number_end(s@, i as int),
        i <= end <= s.len(),
{
    let a: usize = if i < s.len() && (s[i] == '+' || s[i] == '-') {
        i + 1
    } else {
        i
    };
    let b: usize = skip_digits(s, a);
    if b < s.len() && s[b] == '.' {
        let d: usize = skip_digits(s, b + 1);
        if b > a || d > b + 1 {
            d
        } else {
            i
        }
    } else if b > a {
        b
    } else {
        i
    }
}

/// A decimal number, kept as the literal that denotes it.
#[derive(Debug, PartialEq, Eq)]
pub struct Decimal {
    text: String,
}

impl Clone for Decimal {
    fn clone(&self) -> (d: Decimal)
        ensures
            d@ == self@,
    {
        proof {
            use_type_invariant(self);
        }
        Decimal { text: self.text.clone() }
    }
}

impl View for Decimal {
    type V = Seq<char>;

    closed spec fn view(&self) -> Seq<char> {
        self.text@
    }
}

impl Decimal {
    #[verifier::type_invariant]
    spec fn well_formed(self) -> bool {
        is_number(self.text@)
    }

    /// The number zero, written `0`.
    pub fn zero() -> (d: Decimal)
        ensures
            d@ == seq!['0'],
    {
        let mut text = String::new();
        text.push('0');
        proof {
            assert(text@ =~= seq!['0']);
            reveal_with_fuel(digits_end, 3);
        }
        Decimal { text }
    }

    /// The number one, written `1`.
    pub fn one() -> (d: Decimal)
        ensures
            d@ == seq!['1'],
    {
        let mut text = String::new();
        text.push('1');
        proof {
            assert(text@ =~= seq!['1']);
            reveal_with_fuel(digits_end, 3);
        }
        Decimal { text }
    }

    /// The number that the characters `s[from..to]` denote.
    pub(crate) fn from_chars(s: &Vec<char>, from: usize, to: usize) -> (d: Decimal)
        requires
            from <= to <= s.len(),
            is_number(s@.subrange(from as int, to as int)),
        ensures
            d@ == s@.subrange(from as int, to as int),
    {
        Decimal { text: string_of(s, from, to) }
    }

    /// Reads a number from `s`, which must hold one literal and nothing else.
    pub fn new(s: &str) -> (r: Option<Decimal>)
        ensures
            r is Some <==> is_number(s@),
            r matches Some(d) ==> d@ == s@,
    {
        let v = chars_of(s);
        let end = scan_number(&v, 0);
        if v.len() > 0 && end == v.len() {
            proof {
                assert(v@.subrange(0, v.len() as int) =~= v@);
            }
            Some(Decimal::from_chars(&v, 0, end))
        } else {
            None
        }
    }

    /// The literal.
    pub fn as_str(&self) -> (r: &str)
        ensures
            r@ == self@,
            is_number(r@),
    {
        proof {
            use_type_invariant(self);
        }
        self.text.as_str()
    }
}

} // verus!
