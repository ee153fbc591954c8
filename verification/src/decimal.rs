//! Decimal numbers.
use vstd::prelude::*;

verus! {

/// The digits of a number.
pub open spec fn digits(n: nat) -> Seq<u8>
    decreases n,
{
    if n < 10 {
        seq![(48 + n) as u8]
    } else {
        digits(n / 10).push((48 + n % 10) as u8)
    }
}

/// Returns the digits of a number.
pub fn decimal(n: u64) -> (res: Vec<u8>)
    ensures
        res@ == digits(n as nat),
    decreases n,
{
    if n < 10 {
        let mut res: Vec<u8> = Vec::new();
        res.push(48 + n as u8);
        assert(res@ =~= digits(n as nat));
        res
    } else {
        let mut res: Vec<u8> = decimal(n / 10);
        res.push(48 + (n % 10) as u8);
        res
    }
}

/// Whether a byte is a digit.
pub open spec fn is_digit(byte: u8) -> bool {
    48 <= byte <= 57
}

/// Whether all bytes are digits.
pub open spec fn all_digits(bytes: Seq<u8>) -> bool {
    forall|i: int| 0 <= i < bytes.len() ==> is_digit(#[trigger] bytes[i])
}

/// The number that digits stand for. There may be leading zeros.
pub open spec fn value(bytes: Seq<u8>) -> nat
    decreases bytes.len(),
{
    if bytes.len() == 0 {
        0
    } else {
        10 * value(bytes.drop_last()) + (bytes.last() - 48) as nat
    }
}

/// The digits of a number stand for the number.
pub proof fn law_digits_have_value(n: nat)
    ensures
        value(digits(n)) == n,
        all_digits(digits(n)),
        digits(n).len() > 0,
    decreases n,
{
    if n >= 10 {
        law_digits_have_value(n / 10);
        assert(digits(n).drop_last() =~= digits(n / 10));
    } else {
        assert(digits(n).drop_last() =~= Seq::<u8>::empty());
        assert(value(Seq::<u8>::empty()) == 0);
    }
}

/// The last digit is the remainder of a division by ten, and the other digits are those of the
/// quotient. There are no leading zeros.
pub proof fn law_digits(n: nat)
    ensures
        digits(n).last() == 48 + n % 10,
        n < 10 ==> digits(n).len() == 1,
        n >= 10 ==> digits(n).drop_last() == digits(n / 10),
        n > 0 ==> digits(n)[0] != 48,
    decreases n,
{
    if n >= 10 {
        law_digits(n / 10);
        assert(digits(n).drop_last() =~= digits(n / 10));
        assert(digits(n)[0] == digits(n / 10)[0]);
    }
}

/// Another digit makes a number ten times as large and adds the value of the digit.
pub proof fn law_value_of_digits(bytes: Seq<u8>, digit: u8)
    requires
        48 <= digit <= 57,
    ensures
        value(Seq::<u8>::empty()) == 0,
        value(bytes.push(digit)) == 10 * value(bytes) + (digit - 48),
        all_digits(bytes.push(digit)) == all_digits(bytes),
{
    let new = bytes.push(digit);
    assert(new.drop_last() =~= bytes);
    if all_digits(new) {
        assert forall|i: int| 0 <= i < bytes.len() implies is_digit(#[trigger] bytes[i]) by {
            assert(is_digit(new[i]));
        }
    }
}

} // verus!
