//! Transactions: creation, validation, the bytes that are signed, and the
//! signature over them.

use crate::clock::unix_millis;
use crate::encoding::{decimal, push_bytes, push_decimal};
use crate::entropy::random_u64;
use crate::error::ErrorKind;
use crate::keys::{
    ed25519_accepts, ed25519_public_key, ed25519_signature, sign_message, verify_message,
};
use vstd::prelude::*;
use vstd::utf8::encode_utf8;

verus! {

/// The largest payload that is accepted, in bytes of UTF-8.
pub const MAX_PAYLOAD_SIZE: usize = 256;

/// The byte that separates the fields of the signed representation (`:`).
pub const FIELD_SEPARATOR: u8 = 58;

/// Whether Unicode counts `c` as alphabetic or numeric
/// (`char::is_alphanumeric`).
pub uninterp spec fn unicode_alphanumeric(c: char) -> bool;

/// An ASCII letter or digit.
pub open spec fn ascii_alphanumeric(c: char) -> bool {
    ('a' <= c && c <= 'z') || ('A' <= c && c <= 'Z') || ('0' <= c && c <= '9')
}

/// Trusted: `char::is_alphanumeric`.
///
/// Claimed of it: the answer is a function of the character, and the ASCII
/// letters and digits are among the characters it accepts.
pub assume_specification[ char::is_alphanumeric ](c: char) -> (yes: bool)
    ensures
        yes == unicode_alphanumeric(c),
        ascii_alphanumeric(c) ==> yes,
;

/// A character that may stand in an id: alphanumeric, or a dash.
pub open spec fn id_char(c: char) -> bool {
    unicode_alphanumeric(c) || c == '-'
}

/// Every character of `id` may stand in an id. Holds of the empty string.
pub open spec fn id_chars(id: Seq<char>) -> bool {
    forall|i: int| 0 <= i < id.len() ==> id_char(#[trigger] id[i])
}

/// A valid id: not empty, and made of alphanumeric characters and dashes.
pub open spec fn valid_id(id: Seq<char>) -> bool {
    id.len() > 0 && id_chars(id)
}

/// An id made of ASCII letters, ASCII digits and dashes, at least one of
/// them.
pub open spec fn plain_id(id: Seq<char>) -> bool {
    id.len() > 0 && forall|i: int|
        0 <= i < id.len() ==> ascii_alphanumeric(#[trigger] id[i]) || id[i] == '-'
}

/// A valid payload: not empty, and at most `MAX_PAYLOAD_SIZE` bytes of UTF-8.
pub open spec fn valid_payload(payload: Seq<char>) -> bool {
    payload.len() > 0 && encode_utf8(payload).len() <= MAX_PAYLOAD_SIZE
}

/// What is checked of an id and a payload, in this order: the first rule that
/// is broken gives the error.
pub open spec fn content_check(id: Seq<char>, payload: Seq<char>) -> Result<(), ErrorKind> {
    if !valid_id(id) {
        Err(ErrorKind::InvalidId)
    } else if !valid_payload(payload) {
        Err(ErrorKind::InvalidPayload)
    } else {
        Ok(())
    }
}

/// A transaction as a mathematical value.
pub struct TransactionView {
    pub id: Seq<char>,
    pub payload: Seq<char>,
    pub timestamp: u64,
    pub nonce: u64,
    pub signature: Option<Seq<u8>>,
    pub weight: u32,
    pub confirmed: bool,
}

impl TransactionView {
    /// A transaction as it is created: unsigned, of weight 0, unconfirmed.
    pub open spec fn fresh(id: Seq<char>, payload: Seq<char>, timestamp: u64, nonce: u64) -> Self {
        TransactionView {
            id,
            payload,
            timestamp,
            nonce,
            signature: None,
            weight: 0,
            confirmed: false,
        }
    }

    /// The bytes that are signed: id, payload, timestamp and nonce, the two
    /// strings in UTF-8 and the two numbers in decimal, joined by `:`.
    pub open spec fn signing_bytes(self) -> Seq<u8> {
        encode_utf8(self.id) + seq![FIELD_SEPARATOR] + encode_utf8(self.payload) + seq![
            FIELD_SEPARATOR,
        ] + decimal(self.timestamp as nat) + seq![FIELD_SEPARATOR] + decimal(self.nonce as nat)
    }

    /// Validation at the time `now`: the id, then the payload, then the
    /// timestamp, which must not lie after `now`.
    pub open spec fn validation(self, now: u64) -> Result<(), ErrorKind> {
        if content_check(self.id, self.payload) is Err {
            content_check(self.id, self.payload)
        } else if self.timestamp > now {
            Err(ErrorKind::TimestampInFuture)
        } else {
            Ok(())
        }
    }

    /// The check of the signature against the public key `key`.
    pub open spec fn signature_check(self, key: Seq<u8>) -> Result<(), ErrorKind> {
        match self.signature {
            None => Err(ErrorKind::Unsigned),
            Some(signature) => if ed25519_accepts(key, self.signing_bytes(), signature) {
                Ok(())
            } else {
                Err(ErrorKind::InvalidSignature)
            },
        }
    }

    /// The transaction with the signature that the secret key `secret` gives
    /// its signing bytes.
    pub open spec fn signed_by(self, secret: Seq<u8>) -> Self {
        TransactionView {
            signature: Some(ed25519_signature(secret, self.signing_bytes())),
            ..self
        }
    }

    /// The transaction marked as confirmed.
    pub open spec fn confirm(self) -> Self {
        TransactionView { confirmed: true, ..self }
    }
}

/// A transaction that was created with valid contents validates at every
/// time from its timestamp on.
pub proof fn lemma_created_validates(
    id: Seq<char>,
    payload: Seq<char>,
    timestamp: u64,
    nonce: u64,
    now: u64,
)
    requires
        content_check(id, payload) is Ok,
        timestamp <= now,
    ensures
        TransactionView::fresh(id, payload, timestamp, nonce).validation(now) is Ok,
{
}

/// A payload above the maximum size is turned down as an invalid payload,
/// on creation and on validation at any time, wherever the id is valid (an
/// invalid id is reported first).
pub proof fn lemma_oversized_payload(transaction: TransactionView, now: u64)
    requires
        valid_id(transaction.id),
        encode_utf8(transaction.payload).len() > MAX_PAYLOAD_SIZE,
    ensures
        content_check(transaction.id, transaction.payload) == Err::<(), ErrorKind>(
            ErrorKind::InvalidPayload,
        ),
        transaction.validation(now) == Err::<(), ErrorKind>(ErrorKind::InvalidPayload),
{
}

/// The weight that a number of approvals gives: the number itself, reduced
/// to 32 bits, and at least 1.
pub open spec fn weight_of(approvals: usize) -> u32 {
    if approvals as int % 0x1_0000_0000 == 0 {
        1u32
    } else {
        (approvals as int % 0x1_0000_0000) as u32
    }
}

/// A record that an identity of the ledger issues: once created, only its
/// signature, its weight and its confirmation change.
#[derive(Debug, PartialEq, Eq)]
pub struct Transaction {
    /// The id, which is also the id of the node that issues the transaction.
    pub id: String,
    /// The content, at most `MAX_PAYLOAD_SIZE` bytes.
    pub payload: String,
    /// The time of creation, in milliseconds since the Unix epoch.
    pub timestamp: u64,
    /// A random number that is signed along with the rest, so that two
    /// transactions of equal id, payload and timestamp differ in their
    /// signatures.
    pub nonce: u64,
    /// The Ed25519 signature over the signing bytes; none until the
    /// transaction is signed.
    pub signature: Option<[u8; 64]>,
    /// The weight that attracts a random walk; 0 until it is set.
    pub weight: u32,
    /// Whether the transaction was confirmed.
    pub confirmed: bool,
}

impl View for Transaction {
    type V = TransactionView;

    open spec fn view(&self) -> TransactionView {
        TransactionView {
            id: self.id@,
            payload: self.payload@,
            timestamp: self.timestamp,
            nonce: self.nonce,
            signature: match self.signature {
                Some(signature) => Some(signature@),
                None => None,
            },
            weight: self.weight,
            confirmed: self.confirmed,
        }
    }
}

impl Clone for Transaction {
    fn clone(&self) -> (copy: Self)
        ensures
            copy@ == self@,
    {
        Transaction {
            id: self.id.clone(),
            payload: self.payload.clone(),
            timestamp: self.timestamp,
            nonce: self.nonce,
            signature: self.signature,
            weight: self.weight,
            confirmed: self.confirmed,
        }
    }
}

/// Whether every character of `id` is alphanumeric or a dash.
pub fn is_valid_id(id: &str) -> (ok: bool)
    ensures
        ok == id_chars(id@),
        plain_id(id@) ==> ok,
{
    let mut ok = true;
    for c in it: id.chars()
        invariant
            it.seq() == id@,
            ok == (forall|i: int| 0 <= i < it.index() ==> id_char(#[trigger] id@[i])),
            (forall|i: int|
                0 <= i < it.index() ==> ascii_alphanumeric(#[trigger] id@[i]) || id@[i] == '-')
                ==> ok,
    {
        if !(c.is_alphanumeric() || c == '-') {
            ok = false;
        }
    }
    ok
}

/// Checks an id and a payload as `content_check` says.
fn check_content(id: &str, payload: &str) -> (result: Result<(), ErrorKind>)
    ensures
        result == content_check(id@, payload@),
        plain_id(id@) && valid_payload(payload@) ==> result is Ok,
{
    if id.is_empty() || !is_valid_id(id) {
        return Err(ErrorKind::InvalidId);
    }
    if payload.is_empty() || payload.as_bytes().len() > MAX_PAYLOAD_SIZE {
        return Err(ErrorKind::InvalidPayload);
    }
    Ok(())
}

impl Transaction {
    /// Creates a transaction with the given timestamp and nonce, if id and
    /// payload pass `content_check`.
    pub fn new_at(id: &str, payload: &str, timestamp: u64, nonce: u64) -> (result: Result<
        Transaction,
        ErrorKind,
    >)
        ensures
            match result {
                Ok(transaction) => content_check(id@, payload@) is Ok && transaction@
                    == TransactionView::fresh(id@, payload@, timestamp, nonce),
                Err(error) => content_check(id@, payload@) == Err::<(), ErrorKind>(error),
            },
            plain_id(id@) && valid_payload(payload@) ==> (result matches Ok(transaction)
                && forall|later: u64|
                timestamp <= later ==> #[trigger] transaction@.validation(later) is Ok),
    {
        match check_content(id, payload) {
            Err(error) => Err(error),
            Ok(()) => Ok(
                Transaction {
                    id: id.to_owned(),
                    payload: payload.to_owned(),
                    timestamp,
                    nonce,
                    signature: None,
                    weight: 0,
                    confirmed: false,
                },
            ),
        }
    }

    /// Creates a transaction stamped with the current time and a random
    /// nonce, if id and payload pass `content_check`.
    pub fn new(id: &str, payload: &str) -> (result: Result<Transaction, ErrorKind>)
        ensures
            match result {
                Ok(transaction) => content_check(id@, payload@) is Ok && exists|
                    timestamp: u64,
                    nonce: u64,
                |
                    transaction@ == TransactionView::fresh(id@, payload@, timestamp, nonce),
                Err(error) => content_check(id@, payload@) == Err::<(), ErrorKind>(error),
            },
            plain_id(id@) && valid_payload(payload@) ==> (result matches Ok(transaction)
                && forall|later: u64|
                transaction@.timestamp <= later ==> #[trigger] transaction@.validation(later)
                    is Ok),
    {
        Transaction::new_at(id, payload, unix_millis(), random_u64())
    }

    /// Validates the transaction at the time `now`.
    pub fn validate_at(&self, now: u64) -> (result: Result<(), ErrorKind>)
        ensures
            result == self@.validation(now),
            plain_id(self@.id) && valid_payload(self@.payload) && self@.timestamp <= now
                ==> result is Ok,
    {
        match check_content(self.id.as_str(), self.payload.as_str()) {
            Err(error) => Err(error),
            Ok(()) => if self.timestamp > now {
                Err(ErrorKind::TimestampInFuture)
            } else {
                Ok(())
            },
        }
    }

    /// Validates the transaction at the current time.
    pub fn validate(&self) -> (result: Result<(), ErrorKind>)
        ensures
            exists|now: u64| result == self@.validation(now),
    {
        self.validate_at(unix_millis())
    }

    /// The weight that a number of approvals gives.
    pub fn calculate_weight(&self, approvals: usize) -> (weight: u32)
        ensures
            weight == weight_of(approvals),
            weight >= 1,
    {
        let low: u32 = ((approvals as u128) % 0x1_0000_0000) as u32;
        if low == 0 {
            1
        } else {
            low
        }
    }

    /// The bytes that are signed.
    pub fn signing_bytes(&self) -> (bytes: Vec<u8>)
        ensures
            bytes@ == self@.signing_bytes(),
    {
        let mut bytes: Vec<u8> = Vec::new();
        push_bytes(&mut bytes, self.id.as_str().as_bytes());
        bytes.push(FIELD_SEPARATOR);
        push_bytes(&mut bytes, self.payload.as_str().as_bytes());
        bytes.push(FIELD_SEPARATOR);
        push_decimal(&mut bytes, self.timestamp);
        bytes.push(FIELD_SEPARATOR);
        push_decimal(&mut bytes, self.nonce);
        assert(bytes@ =~= self@.signing_bytes());
        bytes
    }

    /// Signs the transaction, replacing any signature it carried.
    pub fn sign(&mut self, signing_key: &[u8; 32])
        ensures
            final(self)@ == old(self)@.signed_by(signing_key@),
            final(self)@.signature_check(ed25519_public_key(signing_key@)) is Ok,
    {
        let message = self.signing_bytes();
        let signature = sign_message(signing_key, message.as_slice());
        self.signature = Some(signature);
    }

    /// Checks the signature against a verifying key.
    pub fn validate_signature(&self, verifying_key: &[u8; 32]) -> (result: Result<(), ErrorKind>)
        ensures
            result == self@.signature_check(verifying_key@),
    {
        match &self.signature {
            None => Err(ErrorKind::Unsigned),
            Some(signature) => {
                let message = self.signing_bytes();
                if verify_message(verifying_key, message.as_slice(), signature) {
                    Ok(())
                } else {
                    Err(ErrorKind::InvalidSignature)
                }
            },
        }
    }

    /// Marks the transaction as confirmed.
    pub fn confirm(&mut self)
        ensures
            final(self)@ == old(self)@.confirm(),
    {
        self.confirmed = true;
    }
}

} // verus!
