//! Decimal digits of numbers, for messages and displays.

use vstd::prelude::*;

verus! {

/// The character of the decimal digit `d`.
pub open spec fn digit_char(d: int) -> char {
    if d == 0 {
        '0'
    } else if d == 1 {
        '1'
    } else if d == 2 {
        '2'
    } else if d == 3 {
        '3'
    } else if d == 4 {
        '4'
    } else if d == 5 {
        '5'
    } else if d == 6 {
        '6'
    } else if d == 7 {
        '7'
    } else if d == 8 {
        '8'
    } else {
        '9'
    }
}

/// The decimal digits of `n`, most significant first, without leading zeros
/// (`0` is one digit).
pub open spec fn decimal_digits(n: nat) -> Seq<int>
    decreases n,
{
    if n < 10 {
        seq![n as int]
    } else {
        decimal_digits(n / 10).push((n % 10) as int)
    }
}

/// The characters of the digits `ds`.
pub open spec fn digit_chars(ds: Seq<int>) -> Seq<char> {
    ds.map_values(|d: int| digit_char(d))
}

/// `n` written in decimal.
pub open spec fn decimal(n: nat) -> Seq<char> {
    digit_chars(decimal_digits(n))
}

/// `n` written in decimal, with a minus sign when it is negative.
pub open spec fn signed_decimal(n: int) -> Seq<char> {
    if n < 0 {
        seq!['-'] + decimal((-n) as nat)
    } else {
        decimal(n as nat)
    }
}

/// The digits of `n`, padded on the left with zeros to `width` digits.
pub open spec fn padded_digits(n: nat, width: nat) -> Seq<int> {
    let ds = decimal_digits(n);
    if ds.len() < width {
        Seq::new((width - ds.len()) as nat, |i: int| 0int) + ds
    } else {
        ds
    }
}

/// `ds` without its trailing zeros.
pub open spec fn trim_zeros(ds: Seq<int>) -> Seq<int>
    decreases ds.len(),
{
    if ds.len() > 0 && ds.last() == 0 {
        trim_zeros(ds.drop_last())
    } else {
        ds
    }
}

proof fn lemma_digits_bounded(n: nat)
    ensures
        forall|i: int|
            0 <= i < decimal_digits(n).len() ==> 0 <= #[trigger] decimal_digits(n)[i] < 10,
        decimal_digits(n).len() > 0,
    decreases n,
{
    if n >= 10 {
        lemma_digits_bounded(n / 10);
    }
}

/// The digits of `n`, most significant first.
pub fn digits_of(n: u128) -> (r: Vec<u8>)
    ensures
        r@.len() == decimal_digits(n as nat).len(),
        forall|i: int| 0 <= i < r@.len() ==> #[trigger] r@[i] as int == decimal_digits(n as nat)[i],
    decreases n,
{
    if n < 10 {
        let mut r: Vec<u8> = Vec::new();
        r.push(n as u8);
        r
    } else {
        let mut r = digits_of(n / 10);
        r.push((n % 10) as u8);
        r
    }
}

/// Appends the character of the digit `d`.
pub fn push_digit(s: &mut String, d: u8)
    requires
        d < 10,
    ensures
        final(s)@ == old(s)@.push(digit_char(d as int)),
{
    if d == 0 {
        s.append("0");
        proof {
            reveal_strlit("0");
        }
    } else if d == 1 {
        s.append("1");
        proof {
            reveal_strlit("1");
        }
    } else if d == 2 {
        s.append("2");
        proof {
            reveal_strlit("2");
        }
    } else if d == 3 {
        s.append("3");
        proof {
            reveal_strlit("3");
        }
    } else if d == 4 {
        s.append("4");
        proof {
            reveal_strlit("4");
        }
    } else if d == 5 {
        s.append("5");
        proof {
            reveal_strlit("5");
        }
    } else if d == 6 {
        s.append("6");
        proof {
            reveal_strlit("6");
        }
    } else if d == 7 {
        s.append("7");
        proof {
            reveal_strlit("7");
        }
    } else if d == 8 {
        s.append("8");
        proof {
            reveal_strlit("8");
        }
    } else {
        s.append("9");
        proof {
            reveal_strlit("9");
        }
    }
}

/// Appends the characters of the digits `ds`.
pub fn push_digits(s: &mut String, ds: &Vec<u8>)
    requires
        forall|i: int| 0 <= i < ds@.len() ==> #[trigger] ds@[i] < 10,
    ensures
        final(s)@ == old(s)@ + digit_chars(ds@.map_values(|d: u8| d as int)),
{
    let ghost start = s@;
    let ghost dv = ds@.map_values(|d: u8| d as int);
    let mut k: usize = 0;
    while k < ds.len()
        invariant
            k <= ds@.len(),
            forall|i: int| 0 <= i < ds@.len() ==> #[trigger] ds@[i] < 10,
            dv == ds@.map_values(|d: u8| d as int),
            start == old(s)@,
            s@ == start + digit_chars(dv.take(k as int)),
        decreases ds@.len() - k,
    {
        push_digit(s, ds[k]);
        proof {
            assert(digit_chars(dv.take(k + 1)) =~= digit_chars(dv.take(k as int)).push(
                digit_char(ds@[k as int] as int),
            ));
        }
        k = k + 1;
    }
    proof {
        assert(dv.take(k as int) =~= dv);
    }
}

/// Appends `n` in decimal.
pub fn push_decimal(s: &mut String, n: u128)
    ensures
        final(s)@ == old(s)@ + decimal(n as nat),
{
    let ds = digits_of(n);
    proof {
        lemma_digits_bounded(n as nat);
        assert(ds@.map_values(|d: u8| d as int) =~= decimal_digits(n as nat));
    }
    push_digits(s, &ds);
}

/// Appends `n` in decimal, with a minus sign when it is negative.
pub fn push_signed_decimal(s: &mut String, n: i64)
    ensures
        final(s)@ == old(s)@ + signed_decimal(n as int),
{
    if n < 0 {
        s.append("-");
        proof {
            reveal_strlit("-");
        }
        let m: u128 = (0i128 - n as i128) as u128;
        push_decimal(s, m);
        proof {
            assert(old(s)@ + signed_decimal(n as int) =~= old(s)@ + seq!['-'] + decimal(m as nat));
        }
    } else {
        push_decimal(s, n as u128);
    }
}

/// The digits of `n` padded on the left with zeros to `width` digits.
pub fn padded(n: u128, width: usize) -> (r: Vec<u8>)
    ensures
        r@.map_values(|d: u8| d as int) == padded_digits(n as nat, width as nat),
        forall|i: int| 0 <= i < r@.len() ==> #[trigger] r@[i] < 10,
{
    let ds = digits_of(n);
    proof {
        lemma_digits_bounded(n as nat);
    }
    let mut r: Vec<u8> = Vec::new();
    if ds.len() < width {
        let zeros = width - ds.len();
        let mut k: usize = 0;
        while k < zeros
            invariant
                k <= zeros,
                r@.len() == k,
                forall|i: int| 0 <= i < k ==> #[trigger] r@[i] == 0,
            decreases zeros - k,
        {
            r.push(0);
            k = k + 1;
        }
    }
    let ghost prefix = r@;
    let mut k: usize = 0;
    while k < ds.len()
        invariant
            k <= ds@.len(),
            r@ == prefix + ds@.take(k as int),
            forall|i: int| 0 <= i < prefix.len() ==> #[trigger] prefix[i] == 0,
            forall|i: int|
                0 <= i < ds@.len() ==> #[trigger] ds@[i] as int == decimal_digits(n as nat)[i],
            ds@.len() == decimal_digits(n as nat).len(),
            forall|i: int|
                0 <= i < decimal_digits(n as nat).len() ==> 0 <= #[trigger] decimal_digits(
                    n as nat,
                )[i] < 10,
        decreases ds@.len() - k,
    {
        r.push(ds[k]);
        k = k + 1;
    }
    proof {
        assert(ds@.take(k as int) =~= ds@);
        assert(r@.map_values(|d: u8| d as int) =~= padded_digits(n as nat, width as nat));
    }
    r
}

/// `ds` without its trailing zeros.
pub fn trim_trailing_zeros(ds: &mut Vec<u8>)
    ensures
        final(ds)@.map_values(|d: u8| d as int) == trim_zeros(old(ds)@.map_values(|d: u8| d as int)),
        final(ds)@.len() <= old(ds)@.len(),
        final(ds)@ == old(ds)@.take(final(ds)@.len() as int),
{
    while ds.len() > 0 && ds[ds.len() - 1] == 0
        invariant
            trim_zeros(ds@.map_values(|d: u8| d as int)) == trim_zeros(
                old(ds)@.map_values(|d: u8| d as int),
            ),
            ds@.len() <= old(ds)@.len(),
            ds@ == old(ds)@.take(ds@.len() as int),
        decreases ds@.len(),
    {
        let ghost before = ds@;
        ds.pop();
        proof {
            assert(before.map_values(|d: u8| d as int).drop_last() =~= ds@.map_values(
                |d: u8| d as int,
            ));
            assert(ds@ =~= before.drop_last());
            assert(ds@ =~= old(ds)@.take(ds@.len() as int));
        }
    }
}

} // verus!
