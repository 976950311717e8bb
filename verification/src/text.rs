//! Texts that are put together from parts.

use vstd::prelude::*;
use vstd::string::StringExecFns;

verus! {

/// One digit, decimal or hexadecimal, in lower case.
pub open spec fn digit(n: nat) -> char {
    if n == 0 {
        '0'
    } else if n == 1 {
        '1'
    } else if n == 2 {
        '2'
    } else if n == 3 {
        '3'
    } else if n == 4 {
        '4'
    } else if n == 5 {
        '5'
    } else if n == 6 {
        '6'
    } else if n == 7 {
        '7'
    } else if n == 8 {
        '8'
    } else if n == 9 {
        '9'
    } else if n == 10 {
        'a'
    } else if n == 11 {
        'b'
    } else if n == 12 {
        'c'
    } else if n == 13 {
        'd'
    } else if n == 14 {
        'e'
    } else {
        'f'
    }
}

/// The decimal digits of a number, without leading zeros.
pub open spec fn decimal(n: nat) -> Seq<char>
    decreases n,
{
    if n < 10 {
        seq![digit(n)]
    } else {
        decimal(n / 10).push(digit(n % 10))
    }
}

/// The last hexadecimal digits of a number, with leading zeros.
pub open spec fn hex(n: nat, width: nat) -> Seq<char>
    decreases width,
{
    if width == 0 {
        Seq::empty()
    } else {
        hex(n / 16, (width - 1) as nat).push(digit(n % 16))
    }
}

fn digit_text(n: u8) -> (r: &'static str)
    requires
        n < 16,
    ensures
        r@ == seq![digit(n as nat)],
{
    proof {
        reveal_strlit("0");
        reveal_strlit("1");
        reveal_strlit("2");
        reveal_strlit("3");
        reveal_strlit("4");
        reveal_strlit("5");
        reveal_strlit("6");
        reveal_strlit("7");
        reveal_strlit("8");
        reveal_strlit("9");
        reveal_strlit("a");
        reveal_strlit("b");
        reveal_strlit("c");
        reveal_strlit("d");
        reveal_strlit("e");
        reveal_strlit("f");
    }
    let r = match n {
        0 => "0",
        1 => "1",
        2 => "2",
        3 => "3",
        4 => "4",
        5 => "5",
        6 => "6",
        7 => "7",
        8 => "8",
        9 => "9",
        10 => "a",
        11 => "b",
        12 => "c",
        13 => "d",
        14 => "e",
        _ => "f",
    };
    assert(r@ =~= seq![digit(n as nat)]);
    r
}

/// Two texts, one after the other.
pub fn join_text(a: &str, b: &str) -> (r: String)
    ensures
        r@ == a@ + b@,
{
    a.to_owned().concat(b)
}

/// A number in decimal digits.
pub fn decimal_text(n: u64) -> (r: String)
    ensures
        r@ == decimal(n as nat),
    decreases n,
{
    if n < 10 {
        digit_text(n as u8).to_owned()
    } else {
        let head = decimal_text(n / 10);
        let r = head.concat(digit_text((n % 10) as u8));
        assert(r@ =~= decimal((n / 10) as nat).push(digit((n % 10) as nat)));
        r
    }
}

/// The last hexadecimal digits of a number.
pub fn hex_text(n: u128, width: u32) -> (r: String)
    ensures
        r@ == hex(n as nat, width as nat),
    decreases width,
{
    if width == 0 {
        String::new()
    } else {
        let head = hex_text(n / 16, width - 1);
        let r = head.concat(digit_text((n % 16) as u8));
        assert(r@ =~= hex((n / 16) as nat, (width - 1) as nat).push(digit((n % 16) as nat)));
        r
    }
}

/// A text of hexadecimal digits has as many as were asked for.
pub proof fn hex_is_as_wide_as_asked(n: nat, width: nat)
    ensures
        hex(n, width).len() == width,
    decreases width,
{
    if width > 0 {
        hex_is_as_wide_as_asked(n / 16, (width - 1) as nat);
    }
}

/// The number that a digit stands for.
pub open spec fn worth(c: char) -> nat {
    if '0' <= c && c <= '9' {
        (c as nat - '0' as nat) as nat
    } else {
        (c as nat - 'a' as nat + 10) as nat
    }
}

/// The number that a run of digits stands for.
pub open spec fn read_digits(q: Seq<char>, base: nat) -> nat
    decreases q.len(),
{
    if q.len() == 0 {
        0
    } else {
        read_digits(q.drop_last(), base) * base + worth(q.last())
    }
}

/// The decimal digits of a number give the number back, and only zero starts with a
/// zero.
pub proof fn decimal_digits_give_the_number_back(n: nat)
    ensures
        read_digits(decimal(n), 10) == n,
        decimal(n).len() > 0,
        n > 0 ==> decimal(n)[0] != '0',
        forall|i: int| 0 <= i < decimal(n).len() ==> '0' <= #[trigger] decimal(n)[i] && decimal(n)[i] <= '9',
    decreases n,
{
    if n < 10 {
        let q = decimal(n);
        assert(q.drop_last() =~= Seq::<char>::empty());
        assert(read_digits(q.drop_last(), 10) == 0);
    } else {
        decimal_digits_give_the_number_back(n / 10);
        let q = decimal(n);
        assert(q.drop_last() =~= decimal(n / 10));
        assert(q[0] == decimal(n / 10)[0]);
        assert(n == (n / 10) * 10 + n % 10);
    }
}

/// The hexadecimal digits of a number, from the lowest up, are those of the number, and
/// as many as asked for; they give back what of it fits.
pub proof fn hex_digits_give_the_number_back(n: nat, width: nat)
    ensures
        width > 0 ==> hex(n, width).last() == digit(n % 16),
        width > 0 ==> hex(n, width).drop_last() == hex(n / 16, (width - 1) as nat),
        forall|d: nat| d < 16 ==> worth(#[trigger] digit(d)) == d,
        n < vstd::arithmetic::power::pow(16, width) ==> read_digits(hex(n, width), 16) == n,
    decreases width,
{
    if width > 0 {
        let rest = (width - 1) as nat;
        hex_digits_give_the_number_back(n / 16, rest);
        assert(hex(n, width).drop_last() =~= hex(n / 16, rest));
        vstd::arithmetic::power::lemma_pow_positive(16, rest);
        if n < vstd::arithmetic::power::pow(16, width) {
            reveal(vstd::arithmetic::power::pow);
            assert(vstd::arithmetic::power::pow(16, width) == 16 * vstd::arithmetic::power::pow(16, rest));
            assert(n / 16 < vstd::arithmetic::power::pow(16, rest)) by (nonlinear_arith)
                requires
                    n < 16 * vstd::arithmetic::power::pow(16, rest),
            ;
            assert(n == (n / 16) * 16 + n % 16);
        }
    } else {
        reveal(vstd::arithmetic::power::pow);
    }
}

} // verus!
