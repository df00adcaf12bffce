//! Numbers in decimal notation.
use vstd::prelude::*;

verus! {

/// The character of a digit.
pub open spec fn digit_char(d: nat) -> char {
    if d == 0 {
        '0'
    } else if d == 1 {
        '1'
    } else if d == 2 {
        '2'
    } else if d == 3 {
        '3'
    } else if d == 4 {
        '4'
    } else if d == 5 {
        '5'
    } else if d == 6 {
        '6'
    } else if d == 7 {
        '7'
    } else if d == 8 {
        '8'
    } else {
        '9'
    }
}

/// `n` in decimal notation.
pub open spec fn digits(n: nat) -> Seq<char>
    decreases n,
{
    if n < 10 {
        seq![digit_char(n)]
    } else {
        digits(n / 10).push(digit_char(n % 10))
    }
}

fn digit_str(d: u64) -> (r: &'static str)
    requires
        d < 10,
    ensures
        r@ == seq![digit_char(d as nat)],
{
    proof {
        reveal_strlit("0");
        reveal_strlit("1");
        reveal_strlit("2");
        reveal_strlit("3");
        reveal_strlit("4");
        reveal_strlit("5");
        reveal_strlit("6");
        reveal_strlit("7");
        reveal_strlit("8");
        reveal_strlit("9");
    }
    let r = match d {
        0 => "0",
        1 => "1",
        2 => "2",
        3 => "3",
        4 => "4",
        5 => "5",
        6 => "6",
        7 => "7",
        8 => "8",
        _ => "9",
    };
    proof {
        assert(r@ =~= seq![digit_char(d as nat)]);
    }
    r
}

/// `n` in decimal notation.
pub fn decimal(n: u64) -> (r: String)
    ensures
        r@ == digits(n as nat),
    decreases n,
{
    if n < 10 {
        digit_str(n).to_owned()
    } else {
        let mut r = decimal(n / 10);
        r.append(digit_str(n % 10));
        proof {
            assert(r@ =~= digits(n as nat / 10).push(digit_char(n as nat % 10)));
        }
        r
    }
}

/// `x / d`, rounded to the nearest integer, ties to even.
pub open spec fn round_div(x: nat, d: nat) -> nat {
    let q = x / d;
    let r = x % d;
    if 2 * r > d || (2 * r == d && q % 2 == 1) {
        q + 1
    } else {
        q
    }
}

pub fn rounded_quotient(x: u128, d: u128) -> (r: u128)
    requires
        d > 0,
        x < 0x8000_0000_0000_0000_0000_0000_0000_0000,
    ensures
        r == round_div(x as nat, d as nat),
        r <= x,
{
    let q: u128 = x / d;
    let m: u128 = x % d;
    proof {
        let a = x as int;
        let b = d as int;
        vstd::arithmetic::div_mod::lemma_fundamental_div_mod(a, b);
        vstd::arithmetic::div_mod::lemma_mod_bound(a, b);
        assert(a / b <= b * (a / b)) by (nonlinear_arith)
            requires
                b >= 1,
                a / b >= 0,
        ;
        if 2 * (a % b) > b {
            assert(a % b >= 1);
        }
    }
    if m > d - m || (m == d - m && q % 2 == 1) {
        q + 1
    } else {
        q
    }
}

/// `n` tenths in decimal notation.
pub open spec fn tenths(n: nat) -> Seq<char> {
    digits(n / 10) + seq!['.'] + digits(n % 10)
}

/// `n` hundredths in decimal notation.
pub open spec fn hundredths(n: nat) -> Seq<char> {
    digits(n / 100) + seq!['.'] + digits(n / 10 % 10) + digits(n % 10)
}

pub fn format_tenths(n: u64) -> (r: String)
    ensures
        r@ == tenths(n as nat),
{
    proof {
        reveal_strlit(".");
    }
    let mut r = decimal(n / 10);
    r.append(".");
    r.append(decimal(n % 10).as_str());
    proof {
        assert(r@ =~= tenths(n as nat));
    }
    r
}

pub fn format_hundredths(n: u64) -> (r: String)
    ensures
        r@ == hundredths(n as nat),
{
    proof {
        reveal_strlit(".");
    }
    let mut r = decimal(n / 100);
    r.append(".");
    r.append(decimal(n / 10 % 10).as_str());
    r.append(decimal(n % 10).as_str());
    proof {
        assert(r@ =~= hundredths(n as nat));
    }
    r
}

/// The number that some digits spell.
pub open spec fn spelled_number(text: Seq<char>) -> int {
    text.fold_left(0int, |a: int, c: char| 10 * a + (c as int - '0' as int))
}

/// Digits read back as the number, and none leads with a zero but zero itself.
pub proof fn law_digits_read_back(n: nat)
    ensures
        spelled_number(digits(n)) == n,
        digits(n).len() > 0,
        forall|i: int| 0 <= i < digits(n).len() ==> '0' <= #[trigger] digits(n)[i] <= '9',
        n > 0 ==> digits(n)[0] != '0',
        n == 0 ==> digits(n) == seq!['0'],
        n < 10 ==> digits(n).len() == 1,
    decreases n,
{
    let f = |a: int, c: char| 10 * a + (c as int - '0' as int);
    let s = digits(n);
    if n < 10 {
        assert(s.drop_last() =~= Seq::<char>::empty());
        assert(Seq::<char>::empty().fold_left(0int, f) == 0);
        assert(s.last() as int - '0' as int == n);
        assert(s.fold_left(0int, f) == f(s.drop_last().fold_left(0int, f), s.last()));
    } else {
        law_digits_read_back(n / 10);
        let d = n % 10;
        assert(s.drop_last() =~= digits(n / 10));
        assert(s.last() as int - '0' as int == d);
        assert(s.fold_left(0int, f) == f(s.drop_last().fold_left(0int, f), s.last()));
        assert(s[0] == digits(n / 10)[0]);
    }
}

/// Tenths have one digit behind the point, and both parts read back as the
/// number of tenths. The result is the place of the point.
pub proof fn law_tenths_read_back(n: nat) -> (point: int)
    ensures
        0 < point,
        point + 2 == tenths(n).len(),
        tenths(n)[point] == '.',
        10 * spelled_number(tenths(n).take(point)) + spelled_number(tenths(n).skip(point + 1))
            == n,
{
    law_digits_read_back(n / 10);
    law_digits_read_back(n % 10);
    let point = digits(n / 10).len() as int;
    assert(tenths(n).take(point) =~= digits(n / 10));
    assert(tenths(n).skip(point + 1) =~= digits(n % 10));
    point
}

/// Hundredths have two digits behind the point, and both parts read back as the
/// number of hundredths. The result is the place of the point.
pub proof fn law_hundredths_read_back(n: nat) -> (point: int)
    ensures
        0 < point,
        point + 3 == hundredths(n).len(),
        hundredths(n)[point] == '.',
        100 * spelled_number(hundredths(n).take(point)) + spelled_number(
            hundredths(n).skip(point + 1),
        ) == n,
{
    law_digits_read_back(n / 100);
    law_digits_read_back(n / 10 % 10);
    law_digits_read_back(n % 10);
    let f = |a: int, c: char| 10 * a + (c as int - '0' as int);
    let point = digits(n / 100).len() as int;
    let s = hundredths(n).skip(point + 1);
    assert(hundredths(n).take(point) =~= digits(n / 100));
    assert(s.len() == 2);
    assert(s.drop_last() =~= digits(n / 10 % 10));
    let one = digits(n % 10);
    assert(s.last() == one.last());
    assert(one.drop_last() =~= Seq::<char>::empty());
    assert(Seq::<char>::empty().fold_left(0int, f) == 0);
    assert(one.fold_left(0int, f) == f(one.drop_last().fold_left(0int, f), one.last()));
    assert(s.fold_left(0int, f) == f(s.drop_last().fold_left(0int, f), s.last()));
    assert(n == 100 * (n / 100) + 10 * (n / 10 % 10) + n % 10);
    point
}

/// A rounded quotient is the nearest integer to the quotient, and the even one
/// of two that are as near.
pub proof fn law_rounded_quotient_is_nearest(x: nat, d: nat)
    requires
        d > 0,
    ensures
        -d <= 2 * (x - round_div(x, d) * d) <= d,
        2 * (x - round_div(x, d) * d) == d || 2 * (x - round_div(x, d) * d) == -d ==> round_div(
            x,
            d,
        ) % 2 == 0,
{
    let q = x / d;
    let r = x % d;
    vstd::arithmetic::div_mod::lemma_fundamental_div_mod(x as int, d as int);
    vstd::arithmetic::div_mod::lemma_mod_bound(x as int, d as int);
    assert(d * q == q * d) by (nonlinear_arith);
    assert((q + 1) * d == q * d + d) by (nonlinear_arith);
}

} // verus!
