//! Canonical decimal text for numbers, as bytes and as characters, with the
//! two directions of the decimal round trip proved.

use vstd::prelude::*;

verus! {

/// An ASCII decimal digit.
pub open spec fn is_digit(b: u8) -> bool {
    48 <= b <= 57
}

/// The canonical decimal digits of `n` (no leading zeros), as ASCII bytes.
pub open spec fn dec_digits(n: nat) -> Seq<u8>
    decreases n,
{
    if n < 10 {
        seq![(48 + n) as u8]
    } else {
        dec_digits(n / 10).push((48 + n % 10) as u8)
    }
}

/// The canonical decimal form of an integer: a minus sign for negatives.
pub open spec fn dec_int(v: int) -> Seq<u8> {
    if v < 0 {
        seq![45u8] + dec_digits((-v) as nat)
    } else {
        dec_digits(v as nat)
    }
}

/// The number a sequence of digit bytes denotes.
pub open spec fn digits_value(ds: Seq<u8>) -> nat
    decreases ds.len(),
{
    if ds.len() == 0 {
        0
    } else {
        digits_value(ds.drop_last()) * 10 + (if ds.last() >= 48 {
            (ds.last() - 48) as nat
        } else {
            0
        })
    }
}

/// Every byte of the canonical form is a digit; the first is `0` only for
/// the number 0 itself; and the length grows only as the number does.
pub proof fn lemma_dec_digits_shape(n: nat)
    ensures
        dec_digits(n).len() >= 1,
        forall|i: int| 0 <= i < dec_digits(n).len() ==> is_digit(#[trigger] dec_digits(n)[i]),
        dec_digits(n)[0] == 48 ==> n == 0,
    decreases n,
{
    if n >= 10 {
        lemma_dec_digits_shape(n / 10);
        vstd::arithmetic::div_mod::lemma_mod_pos_bound(n as int, 10);
        vstd::arithmetic::div_mod::lemma_div_pos_is_pos(n as int, 10);
        assert(n / 10 >= 1) by (nonlinear_arith)
            requires
                n >= 10,
        ;
    }
}

/// Ten to the `k`.
pub open spec fn pow10(k: nat) -> nat
    decreases k,
{
    if k == 0 {
        1
    } else {
        10 * pow10((k - 1) as nat)
    }
}

/// A number below ten to the `k` needs at most `k` digits.
pub proof fn lemma_dec_digits_len(n: nat, k: nat)
    requires
        k >= 1,
        n < pow10(k),
    ensures
        dec_digits(n).len() <= k,
    decreases n,
{
    if n < 10 {
    } else {
        vstd::arithmetic::div_mod::lemma_fundamental_div_mod(n as int, 10);
        vstd::arithmetic::div_mod::lemma_mod_pos_bound(n as int, 10);
        assert(k >= 2) by {
            if k == 1 {
                assert(pow10(1) == 10 * pow10(0));
                assert(pow10(0) == 1);
            }
        };
        assert(pow10(k) == 10 * pow10((k - 1) as nat));
        assert(n / 10 < pow10((k - 1) as nat)) by (nonlinear_arith)
            requires
                n < 10 * pow10((k - 1) as nat),
                n == 10 * (n / 10) + n % 10,
                0 <= n % 10 < 10,
        ;
        lemma_dec_digits_len(n / 10, (k - 1) as nat);
    }
}

/// Reading the canonical digits of `n` back gives `n`.
pub proof fn lemma_value_of_dec_digits(n: nat)
    ensures
        digits_value(dec_digits(n)) == n,
    decreases n,
{
    if n < 10 {
        assert(dec_digits(n) == seq![(48 + n) as u8]);
        assert(dec_digits(n).drop_last() =~= Seq::<u8>::empty());
        assert(digits_value(Seq::<u8>::empty()) == 0);
        assert(digits_value(dec_digits(n)) == digits_value(dec_digits(n).drop_last()) * 10 + (
        n as int));
    } else {
        lemma_value_of_dec_digits(n / 10);
        vstd::arithmetic::div_mod::lemma_mod_pos_bound(n as int, 10);
        vstd::arithmetic::div_mod::lemma_fundamental_div_mod(n as int, 10);
        let ds = dec_digits(n);
        assert(ds == dec_digits(n / 10).push((48 + n % 10) as u8));
        assert(ds.drop_last() =~= dec_digits(n / 10));
        assert(ds.last() == (48 + n % 10) as u8);
    }
}

/// A digit string without a leading zero (unless it is just `0`) is the
/// canonical form of the number it denotes.
pub proof fn lemma_dec_digits_of_value(ds: Seq<u8>)
    requires
        ds.len() >= 1,
        forall|i: int| 0 <= i < ds.len() ==> is_digit(#[trigger] ds[i]),
        ds[0] == 48 ==> ds.len() == 1,
    ensures
        dec_digits(digits_value(ds)) == ds,
    decreases ds.len(),
{
    let v = digits_value(ds);
    if ds.len() == 1 {
        assert(ds.drop_last() =~= Seq::<u8>::empty());
        assert(digits_value(Seq::<u8>::empty()) == 0);
        assert(ds.last() == ds[0]);
        assert(v == (ds[0] - 48) as nat);
        assert(dec_digits(v) == seq![(48 + v) as u8]);
        assert(dec_digits(v) =~= ds);
    } else {
        let prefix = ds.drop_last();
        lemma_dec_digits_of_value(prefix);
        let pv = digits_value(prefix);
        let last = (ds.last() - 48) as nat;
        assert(v == pv * 10 + last);
        assert(pv >= 1) by {
            if pv == 0 {
                lemma_digits_value_zero(prefix);
            }
        };
        assert(v >= 10) by (nonlinear_arith)
            requires
                pv >= 1,
                v == pv * 10 + last,
                last >= 0,
        ;
        vstd::arithmetic::div_mod::lemma_fundamental_div_mod_converse(
            v as int,
            10,
            pv as int,
            last as int,
        );
        assert(v / 10 == pv && v % 10 == last);
        assert(dec_digits(v) == dec_digits(pv).push((48 + last) as u8));
        assert(dec_digits(v) =~= ds);
    }
}

/// A multi-digit string valuing to zero must start with `0`.
proof fn lemma_digits_value_zero(ds: Seq<u8>)
    requires
        ds.len() >= 1,
        forall|i: int| 0 <= i < ds.len() ==> is_digit(#[trigger] ds[i]),
        digits_value(ds) == 0,
    ensures
        ds[0] == 48,
    decreases ds.len(),
{
    if ds.len() == 1 {
        assert(ds.drop_last() =~= Seq::<u8>::empty());
    } else {
        assert(digits_value(ds.drop_last()) * 10 <= digits_value(ds)) by (nonlinear_arith)
            requires
                digits_value(ds) == digits_value(ds.drop_last()) * 10 + (if ds.last() >= 48 {
                    (ds.last() - 48) as nat
                } else {
                    0
                }),
        ;
        lemma_digits_value_zero(ds.drop_last());
        assert(ds.drop_last()[0] == ds[0]);
    }
}

/// Ground values of small powers of ten.
pub proof fn lemma_pow10_vals()
    ensures
        pow10(7) == 10_000_000,
        pow10(8) == 100_000_000,
{
    assert(pow10(0) == 1);
    assert(pow10(1) == 10);
    assert(pow10(2) == 100);
    assert(pow10(3) == 1000);
    assert(pow10(4) == 10000);
    assert(pow10(5) == 100000);
    assert(pow10(6) == 1000000);
    assert(pow10(7) == 10000000);
    assert(pow10(8) == 100000000);
}

/// Append the canonical decimal digits of `n` to `out`.
pub fn push_dec_u64(out: &mut Vec<u8>, n: u64)
    ensures
        final(out)@ == old(out)@ + dec_digits(n as nat),
    decreases n,
{
    if n < 10 {
        out.push(48 + (n as u8));
        proof {
            assert(out@ =~= old(out)@ + dec_digits(n as nat));
        }
    } else {
        push_dec_u64(out, n / 10);
        out.push(48 + ((n % 10) as u8));
        proof {
            assert((old(out)@ + dec_digits((n / 10) as nat)).push((48 + (n % 10)) as u8) =~= old(
                out,
            )@ + dec_digits(n as nat));
        }
    }
}

/// The canonical decimal digits of `n`, as characters.
pub open spec fn dec_chars(n: nat) -> Seq<char>
    decreases n,
{
    if n == 0 {
        seq!['0']
    } else if n == 1 {
        seq!['1']
    } else if n == 2 {
        seq!['2']
    } else if n == 3 {
        seq!['3']
    } else if n == 4 {
        seq!['4']
    } else if n == 5 {
        seq!['5']
    } else if n == 6 {
        seq!['6']
    } else if n == 7 {
        seq!['7']
    } else if n == 8 {
        seq!['8']
    } else if n == 9 {
        seq!['9']
    } else {
        dec_chars(n / 10) + dec_chars(n % 10)
    }
}

/// Append the canonical decimal digits of `n` to the string.
pub fn push_dec_chars(out: &mut String, n: u64)
    ensures
        final(out)@ == old(out)@ + dec_chars(n as nat),
    decreases n,
{
    if n < 10 {
        let d: &str = match n {
            0 => "0",
            1 => "1",
            2 => "2",
            3 => "3",
            4 => "4",
            5 => "5",
            6 => "6",
            7 => "7",
            8 => "8",
            _ => "9",
        };
        proof {
            reveal_strlit("0");
            reveal_strlit("1");
            reveal_strlit("2");
            reveal_strlit("3");
            reveal_strlit("4");
            reveal_strlit("5");
            reveal_strlit("6");
            reveal_strlit("7");
            reveal_strlit("8");
            reveal_strlit("9");
            assert(d@ =~= dec_chars(n as nat));
        }
        out.append(d);
    } else {
        push_dec_chars(out, n / 10);
        proof {
            vstd::arithmetic::div_mod::lemma_mod_pos_bound(n as int, 10);
        }
        push_dec_chars(out, n % 10);
        proof {
            assert((old(out)@ + dec_chars((n / 10) as nat)) + dec_chars((n % 10) as nat) =~= old(
                out,
            )@ + dec_chars(n as nat));
        }
    }
}

} // verus!
