//! A single-process model of a tangle: a graph of peer nodes, a pool of signed
//! transactions, weighted tip selection and flooding of transactions over the
//! graph.
//!
//! Every function of the library carries a contract over the mathematical
//! views of its data (`Seq`, `Set`, `Map`, and the ghost types of [`ledger`]); the few
//! calls that leave the library (Ed25519, the random generator, the system
//! clock, JSON parsing) sit behind small trusted declarations in [`keys`],
//! [`entropy`], [`clock`] and [`validation::climate`].

pub mod clock;
pub mod encoding;
pub mod entropy;
pub mod error;
pub mod keys;
pub mod ledger;
pub mod network;
pub mod node;
pub mod propagation;
pub mod resilience;
pub mod tangle;
pub mod transaction;
pub mod validation;
pub mod walk;

pub use error::ErrorKind;
pub use node::Node;
pub use tangle::Tangle;
pub use transaction::Transaction;
