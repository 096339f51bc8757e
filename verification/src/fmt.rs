//! Writing numbers as decimal text.

use vstd::prelude::*;

verus! {

/// The decimal digit for `d < 10`.
pub open spec fn digit_char(d: nat) -> char {
    ((d + 48) as u8) as char
}

/// The decimal representation of `n`, without leading zeros.
pub open spec fn decimal(n: nat) -> Seq<char>
    decreases n,
{
    if n < 10 {
        seq![digit_char(n)]
    } else {
        decimal(n / 10).push(digit_char(n % 10))
    }
}

/// A decimal digit character.
pub open spec fn is_digit(c: char) -> bool {
    '0' <= c && c <= '9'
}

/// The number that the decimal digits `s` spell, read in base 10.
pub open spec fn digits_value(s: Seq<char>) -> int
    decreases s.len(),
{
    if s.len() == 0 {
        0
    } else {
        digits_value(s.drop_last()) * 10 + (s.last() as int - '0' as int)
    }
}

/// `decimal(n)` is the decimal numeral of `n`: one or more digits, the
/// first not `0` unless `n` is 0, that read back as `n`.
pub proof fn lemma_decimal_is_numeral(n: nat)
    ensures
        decimal(n).len() >= 1,
        forall|i: int| 0 <= i < decimal(n).len() ==> is_digit(#[trigger] decimal(n)[i]),
        decimal(n)[0] != '0' || n == 0,
        digits_value(decimal(n)) == n,
    decreases n,
{
    if n < 10 {
        let c = digit_char(n);
        assert(c as int == n + 48);
        assert(decimal(n) =~= seq![c]);
        assert(seq![c].drop_last() =~= Seq::<char>::empty());
        assert(digits_value(Seq::<char>::empty()) == 0);
        assert(seq![c].last() == c);
        assert('0' as int == 48);
        assert(c as int - '0' as int == n);
        assert(digits_value(seq![c]) == digits_value(seq![c].drop_last()) * 10 + (c as int - '0' as int));
        assert(digits_value(seq![c]) == n);
    } else {
        let q = n / 10;
        let r = n % 10;
        lemma_decimal_is_numeral(q);
        let c = digit_char(r);
        assert(c as int == r + 48);
        let d = decimal(n);
        assert(d == decimal(q).push(c));
        assert(d.drop_last() =~= decimal(q));
        assert(d.last() == c);
        assert(q * 10 + r == n);
        assert forall|i: int| 0 <= i < d.len() implies is_digit(#[trigger] d[i]) by {
            if i < decimal(q).len() {
                assert(d[i] == decimal(q)[i]);
            }
        }
        assert(d[0] == decimal(q)[0]);
    }
}

/// Writes `n` in decimal, as `n.to_string()` does.
pub fn decimal_string(n: u64) -> (res: String)
    ensures
        res@ == decimal(n as nat),
    decreases n,
{
    if n < 10 {
        let mut s = String::new();
        s.push(((n as u8) + 48) as char);
        assert(s@ =~= decimal(n as nat));
        s
    } else {
        let mut s = decimal_string(n / 10);
        s.push((((n % 10) as u8) + 48) as char);
        assert(s@ =~= decimal(n as nat));
        s
    }
}

/// `a` followed by `b`.
pub fn concat2(a: &str, b: &str) -> (res: String)
    ensures
        res@ == a@ + b@,
{
    let mut s = String::new();
    s.append(a);
    s.append(b);
    assert(s@ =~= a@ + b@);
    s
}

/// `a` followed by `b` followed by `c`.
pub fn concat3(a: &str, b: &str, c: &str) -> (res: String)
    ensures
        res@ == a@ + b@ + c@,
{
    let mut s = String::new();
    s.append(a);
    s.append(b);
    s.append(c);
    assert(s@ =~= a@ + b@ + c@);
    s
}

} // verus!
