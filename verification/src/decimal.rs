//! Decimal notation.
use vstd::prelude::*;

verus! {

/// The character of a decimal digit.
pub open spec fn digit(d: nat) -> char {
    if d == 0 {
        '0'
    } else if d == 1 {
        '1'
    } else if d == 2 {
        '2'
    } else if d == 3 {
        '3'
    } else if d == 4 {
        '4'
    } else if d == 5 {
        '5'
    } else if d == 6 {
        '6'
    } else if d == 7 {
        '7'
    } else if d == 8 {
        '8'
    } else {
        '9'
    }
}

/// A natural in decimal notation.
pub open spec fn decimal(n: nat) -> Seq<char>
    decreases n,
{
    if n < 10 {
        seq![digit(n)]
    } else {
        decimal(n / 10).push(digit(n % 10))
    }
}

/// An integer in decimal notation.
pub open spec fn signed_decimal(n: int) -> Seq<char> {
    if n < 0 {
        seq!['-'] + decimal((-n) as nat)
    } else {
        decimal(n as nat)
    }
}

/// The number that digits, the least significant first, make up.
pub open spec fn number(digits: Seq<u8>) -> nat
    decreases digits.len(),
{
    if digits.len() == 0 {
        0
    } else {
        digits[0] as nat + 10 * number(digits.skip(1))
    }
}

/// Decimal digits, of which the most significant is not zero.
pub open spec fn are_digits(digits: Seq<u8>) -> bool {
    &&& forall|i: int| 0 <= i < digits.len() ==> #[trigger] digits[i] < 10
    &&& digits.len() > 0 ==> digits.last() != 0
}

/// The digits of twice a number and a carry.
spec fn doubled(digits: Seq<u8>, carry: u8) -> Seq<u8>
    decreases digits.len(),
{
    if digits.len() == 0 {
        if carry == 0 {
            Seq::empty()
        } else {
            seq![carry]
        }
    } else {
        seq![((2 * digits[0]) % 10 + carry) as u8] + doubled(
            digits.skip(1),
            if digits[0] >= 5 {
                1
            } else {
                0
            },
        )
    }
}

proof fn lemma_number_of_prepended(d: u8, rest: Seq<u8>)
    ensures
        number(seq![d] + rest) == d as nat + 10 * number(rest),
{
    assert((seq![d] + rest).skip(1) =~= rest);
}

proof fn lemma_doubled(digits: Seq<u8>, carry: u8)
    requires
        carry <= 1,
        forall|i: int| 0 <= i < digits.len() ==> #[trigger] digits[i] < 10,
    ensures
        number(doubled(digits, carry)) == 2 * number(digits) + carry,
    decreases digits.len(),
{
    if digits.len() == 0 {
        if carry == 1 {
            assert(seq![carry] =~= seq![carry] + Seq::<u8>::empty());
            lemma_number_of_prepended(carry, Seq::empty());
        }
    } else {
        let next: u8 = if digits[0] >= 5 {
            1
        } else {
            0
        };
        lemma_doubled(digits.skip(1), next);
        lemma_number_of_prepended(
            ((2 * digits[0]) % 10 + carry) as u8,
            doubled(digits.skip(1), next),
        );
    }
}

proof fn lemma_number_positive(digits: Seq<u8>)
    requires
        digits.len() > 0,
        digits.last() != 0,
    ensures
        number(digits) > 0,
    decreases digits.len(),
{
    if digits.len() > 1 {
        lemma_number_positive(digits.skip(1));
    }
}

/// The digits of twice a number.
fn double(digits: &Vec<u8>) -> (r: Vec<u8>)
    requires
        are_digits(digits@),
    ensures
        are_digits(r@),
        number(r@) == 2 * number(digits@),
        digits@.len() > 0 ==> r@.len() > 0,
{
    let mut r: Vec<u8> = Vec::new();
    let mut carry: u8 = 0;
    let mut i: usize = 0;
    proof {
        assert(digits@.skip(0) =~= digits@);
        lemma_doubled(digits@, 0);
    }
    while i < digits.len()
        invariant
            are_digits(digits@),
            i <= digits.len(),
            carry <= 1,
            r@.len() == i,
            forall|j: int| 0 <= j < r@.len() ==> #[trigger] r@[j] < 10,
            r@ + doubled(digits@.skip(i as int), carry) == doubled(digits@, 0),
            i > 0 && i == digits.len() && carry == 0 ==> r@.last() != 0,
        decreases digits.len() - i,
    {
        let d = digits[i];
        let ghost before = r@;
        let ghost tail = digits@.skip(i as int);
        let next: u8 = if d >= 5 {
            1
        } else {
            0
        };
        let e: u8 = (2 * d) % 10 + carry;
        r.push(e);
        proof {
            assert(tail.skip(1) =~= digits@.skip(i + 1));
            assert(before + (seq![e] + doubled(digits@.skip(i + 1), next)) =~= r@ + doubled(
                digits@.skip(i + 1),
                next,
            ));
        }
        carry = next;
        i = i + 1;
    }
    proof {
        assert(r@ + Seq::<u8>::empty() =~= r@);
        assert(r@ + seq![carry] =~= r@.push(carry));
    }
    if carry > 0 {
        r.push(carry);
    }
    r
}

/// The digits of a number.
fn digits_of(n: u64) -> (r: Vec<u8>)
    ensures
        are_digits(r@),
        number(r@) == n,
    decreases n,
{
    let mut r: Vec<u8> = Vec::new();
    if n == 0 {
        return r;
    }
    r.push((n % 10) as u8);
    let mut high: Vec<u8> = digits_of(n / 10);
    let ghost tail = high@;
    r.append(&mut high);
    proof {
        assert(r@ =~= seq![(n % 10) as u8] + tail);
        lemma_number_of_prepended((n % 10) as u8, tail);
        if tail.len() == 0 {
            assert(r@.last() == n % 10);
        }
    }
    r
}

fn digit_text(d: u8) -> (text: &'static str)
    requires
        d < 10,
    ensures
        text@ == seq![digit(d as nat)],
{
    proof {
        reveal_strlit("0");
        reveal_strlit("1");
        reveal_strlit("2");
        reveal_strlit("3");
        reveal_strlit("4");
        reveal_strlit("5");
        reveal_strlit("6");
        reveal_strlit("7");
        reveal_strlit("8");
        reveal_strlit("9");
    }
    if d == 0 {
        "0"
    } else if d == 1 {
        "1"
    } else if d == 2 {
        "2"
    } else if d == 3 {
        "3"
    } else if d == 4 {
        "4"
    } else if d == 5 {
        "5"
    } else if d == 6 {
        "6"
    } else if d == 7 {
        "7"
    } else if d == 8 {
        "8"
    } else {
        "9"
    }
}

/// Appends a number to `text`.
fn append_digits(text: &mut String, digits: &Vec<u8>)
    requires
        are_digits(digits@),
    ensures
        final(text)@ == old(text)@ + decimal(number(digits@)),
{
    if digits.len() == 0 {
        text.append(digit_text(0));
        return ;
    }
    let mut i: usize = digits.len();
    proof {
        assert(digits@.skip(digits@.len() as int) =~= Seq::<u8>::empty());
    }
    while i > 0
        invariant
            are_digits(digits@),
            digits.len() > 0,
            i <= digits.len(),
            text@ == old(text)@ + (if i == digits.len() {
                Seq::empty()
            } else {
                decimal(number(digits@.skip(i as int)))
            }),
        decreases i,
    {
        i = i - 1;
        let ghost before = text@;
        text.append(digit_text(digits[i]));
        proof {
            let tail = digits@.skip(i as int);
            let rest = digits@.skip(i + 1);
            assert(tail =~= seq![digits@[i as int]] + rest);
            lemma_number_of_prepended(digits@[i as int], rest);
            if i + 1 < digits.len() {
                lemma_number_positive(rest);
                let n = number(tail);
                assert(n / 10 == number(rest));
                assert(n % 10 == digits@[i as int]);
            }
            assert(text@ =~= old(text)@ + decimal(number(tail)));
        }
    }
    proof {
        assert(digits@.skip(0) =~= digits@);
    }
}

/// Appends `n` in decimal notation to `text`.
pub fn append_decimal(text: &mut String, n: u64)
    ensures
        final(text)@ == old(text)@ + decimal(n as nat),
{
    let digits = digits_of(n);
    append_digits(text, &digits);
}

/// Appends `n` in decimal notation to `text`.
pub fn append_signed_decimal(text: &mut String, n: i32)
    ensures
        final(text)@ == old(text)@ + signed_decimal(n as int),
{
    if n < 0 {
        proof {
            reveal_strlit("-");
        }
        text.append("-");
        append_decimal(text, (-(n as i64)) as u64);
        proof {
            assert(text@ =~= old(text)@ + (seq!['-'] + decimal((-n) as nat)));
        }
    } else {
        append_decimal(text, n as u64);
    }
}

/// Appends `m` times two to the power of `e`, in decimal notation, to `text`.
pub fn append_scaled(text: &mut String, m: u64, e: u32)
    ensures
        final(text)@ == old(text)@ + decimal(m as nat * vstd::arithmetic::power2::pow2(e as nat)),
{
    let mut digits = digits_of(m);
    let mut i: u32 = 0;
    proof {
        vstd::arithmetic::power2::lemma2_to64();
    }
    while i < e
        invariant
            i <= e,
            are_digits(digits@),
            number(digits@) == m as nat * vstd::arithmetic::power2::pow2(i as nat),
        decreases e - i,
    {
        digits = double(&digits);
        proof {
            vstd::arithmetic::power2::lemma_pow2_unfold((i + 1) as nat);
            let p = vstd::arithmetic::power2::pow2(i as nat);
            assert(2 * (m as nat * p) == m as nat * (2 * p)) by (nonlinear_arith);
        }
        i = i + 1;
    }
    append_digits(text, &digits);
}

/// The number that digits, the most significant first, stand for.
pub open spec fn reading(text: Seq<char>) -> int
    decreases text.len(),
{
    if text.len() == 0 {
        0
    } else {
        10 * reading(text.drop_last()) + (text.last() as int - '0' as int)
    }
}

/// Law: the decimal notation of a natural is made of digits, stands for the number
/// and begins with a zero only where it is zero.
pub proof fn law_decimals_read_back(n: nat)
    ensures
        decimal(n).len() > 0,
        forall|i: int| 0 <= i < decimal(n).len() ==> '0' <= #[trigger] decimal(n)[i] <= '9',
        reading(decimal(n)) == n,
        decimal(n)[0] == '0' <==> n == 0,
    decreases n,
{
    let text = decimal(n);
    if n < 10 {
        assert(text.drop_last() =~= Seq::empty());
        assert(reading(text.drop_last()) == 0);
    } else {
        law_decimals_read_back(n / 10);
        assert(text.drop_last() =~= decimal(n / 10));
    }
}

/// Law: an integer is written as its magnitude, after a minus sign where it is
/// negative.
pub proof fn law_signed_decimals_read_back(n: int)
    ensures
        n >= 0 ==> reading(signed_decimal(n)) == n && '0' <= signed_decimal(n)[0] <= '9',
        n < 0 ==> signed_decimal(n)[0] == '-' && reading(signed_decimal(n).skip(1)) == -n,
        signed_decimal(n).len() > 0,
{
    if n < 0 {
        law_decimals_read_back((-n) as nat);
        assert(signed_decimal(n).skip(1) =~= decimal((-n) as nat));
    } else {
        law_decimals_read_back(n as nat);
    }
}

} // verus!
