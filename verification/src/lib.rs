//! Watch-only wallet core.
//!
//! Given a public-key-only spending descriptor and a chain identifier, this
//! library derives output scripts, reconciles a local cache of addresses,
//! unspent outputs and transactions against an abstract chain-data source,
//! recomputes balances, selects coins to satisfy a spend, and optionally
//! layers a secondary protocol overlay atop the base unspent-output set.
//! It never touches private keys and never constructs transactions.

pub mod data;
pub mod util;
pub mod codec;
pub mod descriptors;
pub mod wallet;
pub mod layer2;
pub mod coinselect;
pub mod runtime;
