//! Checks of climate readings in a JSON payload.
//!
//! Here stands the check of the one reading that is a whole number, the UV
//! index. What JSON parsing returns is not restated: an uninterpreted
//! function names the reading, and the check is specified over it.

use crate::encoding::{decimal, lemma_decimal_digits, push_decimal, ASCII_ZERO};
use serde_json::Value;
use vstd::prelude::*;
use vstd::string::StringExecFns;

verus! {

/// The highest UV index that is accepted.
pub const MAX_UV_INDEX: u64 = 15;

/// What the JSON document `payload` holds under the key `field`, read as an
/// unsigned integer of 64 bits: an error if `payload` is no JSON
/// (`serde_json::from_str`), and nothing if the document holds no such key
/// (`Value::get`) or no such integer there (`Value::as_u64`).
pub uninterp spec fn json_u64(payload: Seq<char>, field: Seq<char>) -> Result<Option<u64>, ()>;

/// Trusted: `serde_json::from_str::<Value>(payload)`, then `get(field)` and
/// `as_u64()` on what was parsed.
///
/// Claimed of it: only that the result is a function of the two arguments.
#[verifier::external_body]
pub(crate) fn read_u64(payload: &str, field: &str) -> (reading: Result<Option<u64>, ()>)
    ensures
        reading == json_u64(payload@, field@),
{
    match serde_json::from_str::<Value>(payload) {
        Ok(data) => match data.get(field) {
            Some(value) => Ok(value.as_u64()),
            None => Ok(None),
        },
        Err(_) => Err(()),
    }
}

/// The decimal digits of `n` as text.
pub open spec fn decimal_text(n: nat) -> Seq<char> {
    decimal(n).map_values(|digit: u8| digit as char)
}

/// What is reported of a UV index that may have been read: `invalidJson`
/// where the payload could not be read, `uvIndexTooHigh:` and the index
/// where it is above `MAX_UV_INDEX`, and else success, also where the
/// payload holds no index.
pub open spec fn uv_index_check(reading: Result<Option<u64>, ()>) -> Result<(), Seq<char>> {
    match reading {
        Err(_) => Err("invalidJson"@),
        Ok(Some(uv_index)) => if uv_index > MAX_UV_INDEX {
            Err("uvIndexTooHigh:"@ + decimal_text(uv_index as nat))
        } else {
            Ok(())
        },
        Ok(None) => Ok(()),
    }
}

/// A result with its message as a sequence of characters.
pub open spec fn reported(result: Result<(), String>) -> Result<(), Seq<char>> {
    match result {
        Ok(()) => Ok(()),
        Err(message) => Err(message@),
    }
}

/// An ASCII digit as text.
fn digit_text(digit: u8) -> (text: &'static str)
    requires
        ASCII_ZERO <= digit <= ASCII_ZERO + 9,
    ensures
        text@ == seq![digit as char],
{
    proof {
        reveal_strlit("0");
        reveal_strlit("1");
        reveal_strlit("2");
        reveal_strlit("3");
        reveal_strlit("4");
        reveal_strlit("5");
        reveal_strlit("6");
        reveal_strlit("7");
        reveal_strlit("8");
        reveal_strlit("9");
    }
    let text = if digit == 48 {
        "0"
    } else if digit == 49 {
        "1"
    } else if digit == 50 {
        "2"
    } else if digit == 51 {
        "3"
    } else if digit == 52 {
        "4"
    } else if digit == 53 {
        "5"
    } else if digit == 54 {
        "6"
    } else if digit == 55 {
        "7"
    } else if digit == 56 {
        "8"
    } else {
        "9"
    };
    assert(text@ =~= seq![digit as char]);
    text
}

/// Appends the decimal digits of `value` to `text`.
pub fn push_decimal_text(text: &mut String, value: u64)
    ensures
        final(text)@ == old(text)@ + decimal_text(value as nat),
{
    let mut digits: Vec<u8> = Vec::new();
    push_decimal(&mut digits, value);
    proof {
        lemma_decimal_digits(value as nat);
    }
    assert(digits@ =~= decimal(value as nat));
    let ghost all = decimal_text(value as nat);
    let mut i: usize = 0;
    while i < digits.len()
        invariant
            i <= digits@.len(),
            digits@ == decimal(value as nat),
            all == decimal_text(value as nat),
            forall|j: int|
                0 <= j < digits@.len() ==> ASCII_ZERO <= #[trigger] digits@[j] <= ASCII_ZERO + 9,
            text@ == old(text)@ + all.take(i as int),
        decreases digits@.len() - i,
    {
        let digit = digit_text(digits[i]);
        text.append(digit);
        assert(all.take(i + 1) =~= all.take(i as int) + seq![digits@[i as int] as char]);
        assert(old(text)@ + all.take(i as int) + seq![digits@[i as int] as char] =~= old(text)@
            + all.take(i + 1));
        i += 1;
    }
    assert(all.take(i as int) =~= all);
}

/// Checks a UV index that may have been read from a payload.
pub fn check_uv_index(reading: Result<Option<u64>, ()>) -> (result: Result<(), String>)
    ensures
        reported(result) == uv_index_check(reading),
{
    match reading {
        Err(_) => Err("invalidJson".to_owned()),
        Ok(None) => Ok(()),
        Ok(Some(uv_index)) => {
            if uv_index > MAX_UV_INDEX {
                let mut message = "uvIndexTooHigh:".to_owned();
                push_decimal_text(&mut message, uv_index);
                Err(message)
            } else {
                Ok(())
            }
        },
    }
}

/// Checks the UV index in a JSON payload: it fails for a payload that is no
/// JSON, and for an index above `MAX_UV_INDEX`.
pub fn validate_uv_index(payload: &str) -> (result: Result<(), String>)
    ensures
        reported(result) == uv_index_check(json_u64(payload@, "uv_index"@)),
{
    check_uv_index(read_u64(payload, "uv_index"))
}

} // verus!
