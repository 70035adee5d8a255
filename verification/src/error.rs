use vstd::prelude::*;

verus! {

/// Why a transaction was turned down, by its own checks or on admission to
/// the ledger.
///
/// The operations on the graph report no kind: `add_node` answers `false`
/// for an id that is taken, and `connect_nodes` for an edge that cannot be
/// made.
#[derive(Debug, Clone, Copy, PartialEq, Eq, Structural)]
pub enum ErrorKind {
    /// The id is empty, or holds a character that is neither alphanumeric nor
    /// a dash.
    InvalidId,
    /// The payload is empty, or longer than the maximum size.
    InvalidPayload,
    /// The timestamp lies after the time of validation.
    TimestampInFuture,
    /// The transaction carries no signature.
    Unsigned,
    /// The signature does not verify under the key it was checked against.
    InvalidSignature,
    /// No node is registered under the transaction's id.
    NodeNotFound,
    /// A transaction with this id has been admitted already.
    DuplicateTransaction,
}

} // verus!
