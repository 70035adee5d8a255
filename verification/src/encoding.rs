//! Byte strings: appending, and the decimal digits of a number.

use vstd::prelude::*;

verus! {

/// The ASCII code of the digit `0`.
pub const ASCII_ZERO: u8 = 48;

/// The decimal digits of `n` in ASCII, most significant first, without
/// leading zeros; `0` is the single digit `0`.
pub open spec fn decimal(n: nat) -> Seq<u8>
    decreases n,
{
    if n < 10 {
        seq![(ASCII_ZERO + n) as u8]
    } else {
        decimal(n / 10).push((ASCII_ZERO + n % 10) as u8)
    }
}

/// A number has at least one digit, and every digit is an ASCII digit.
pub proof fn lemma_decimal_digits(n: nat)
    ensures
        decimal(n).len() >= 1,
        forall|i: int|
            0 <= i < decimal(n).len() ==> ASCII_ZERO <= #[trigger] decimal(n)[i] <= ASCII_ZERO + 9,
    decreases n,
{
    if n >= 10 {
        lemma_decimal_digits(n / 10);
    }
}

/// Appends `bytes` to `out`.
pub fn push_bytes(out: &mut Vec<u8>, bytes: &[u8])
    ensures
        final(out)@ == old(out)@ + bytes@,
{
    let mut i: usize = 0;
    while i < bytes.len()
        invariant
            i <= bytes@.len(),
            out@ == old(out)@ + bytes@.subrange(0, i as int),
        decreases bytes@.len() - i,
    {
        out.push(bytes[i]);
        assert(bytes@.subrange(0, i + 1) =~= bytes@.subrange(0, i as int).push(bytes@[i as int]));
        i += 1;
    }
    assert(bytes@.subrange(0, i as int) =~= bytes@);
}

/// Appends the decimal digits of `value` to `out`.
pub fn push_decimal(out: &mut Vec<u8>, value: u64)
    ensures
        final(out)@ == old(out)@ + decimal(value as nat),
{
    // The digits below the leading one, least significant first.
    let mut low: Vec<u8> = Vec::new();
    let mut rest: u64 = value;
    while rest >= 10
        invariant
            decimal(value as nat) == decimal(rest as nat) + low@.reverse(),
        decreases rest,
    {
        let digit: u8 = ASCII_ZERO + (rest % 10) as u8;
        proof {
            let grown = low@.push(digit);
            assert(grown.reverse() =~= seq![digit] + low@.reverse());
            assert(decimal(rest as nat) == decimal((rest / 10) as nat).push(digit));
            assert(decimal((rest / 10) as nat).push(digit) + low@.reverse() =~= decimal(
                (rest / 10) as nat,
            ) + grown.reverse());
        }
        low.push(digit);
        rest = rest / 10;
    }
    out.push(ASCII_ZERO + rest as u8);
    let ghost head = old(out)@ + decimal(rest as nat);
    assert(out@ =~= head);
    let mut left: usize = low.len();
    while left > 0
        invariant
            left <= low@.len(),
            out@ == head + low@.reverse().subrange(0, low@.len() - left),
        decreases left,
    {
        left -= 1;
        out.push(low[left]);
        assert(low@.reverse().subrange(0, low@.len() - left) =~= low@.reverse().subrange(
            0,
            low@.len() - left - 1,
        ).push(low@[left as int]));
    }
    assert(low@.reverse().subrange(0, low@.len() as int) =~= low@.reverse());
    assert(head + low@.reverse() =~= old(out)@ + (decimal(rest as nat) + low@.reverse()));
}

} // verus!
