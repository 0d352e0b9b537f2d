//! Base data model: chain identifiers, keychains, transaction identifiers,
//! addresses, unspent outputs and transaction records tracked by the wallet.

use vstd::prelude::*;

verus! {

/// Network identifier; governs address encoding and validation.
#[derive(Clone, Copy, PartialEq, Eq, Structural, Debug)]
pub enum Chain {
    Mainnet,
    Testnet3,
    Signet,
    Regtest,
}

/// A named derivation branch within a descriptor (e.g. receiving vs change).
#[derive(Clone, Copy, PartialEq, Eq, Structural, Debug)]
pub struct Keychain {
    pub number: u8,
}

/// Height of a block in the chain.
pub type BlockHeight = u32;

/// Transaction identifier.
#[derive(Clone, Copy, PartialEq, Eq, Structural, Debug)]
pub struct Txid {
    pub num: u64,
}

/// Reference to one output of a transaction.
#[derive(Clone, Copy, PartialEq, Eq, Structural, Debug)]
pub struct Outpoint {
    pub txid: Txid,
    pub vout: u32,
}

/// Confirmation status of a transaction. A confirmed transaction may be
/// re-confirmed at a different height after a chain reorganization.
#[derive(Clone, Copy, PartialEq, Eq, Structural, Debug)]
pub enum TxStatus {
    Unconfirmed,
    Confirmed(BlockHeight),
}

/// Lifecycle of a derived address. Unexplored addresses are absent from the
/// cache; once an address is recorded Funded it remains so permanently, for
/// history purposes, even after all funds are spent.
#[derive(Clone, Copy, PartialEq, Eq, Structural, Debug)]
pub enum AddrStatus {
    Probed,
    Funded,
}

/// Whether an unspent output is still spendable. An output newly reported
/// spent is marked with the spending transaction id, never deleted.
#[derive(Clone, Copy, PartialEq, Eq, Structural, Debug)]
pub enum UtxoStatus {
    Unspent,
    Spent(Txid),
}

/// Classifies the other side of a value movement: the wallet itself
/// (an internal transfer) or an external party.
#[derive(Clone, Copy, PartialEq, Eq, Structural, Debug)]
pub enum Party {
    Internal,
    External,
}

/// A value movement into the wallet, recorded against one derived address.
#[derive(Clone, Copy, PartialEq, Eq, Structural, Debug)]
pub struct TxCredit {
    pub keychain: Keychain,
    pub index: u32,
    pub value: u64,
    pub party: Party,
}

/// A value movement out of the wallet, recorded against one derived address.
#[derive(Clone, Copy, PartialEq, Eq, Structural, Debug)]
pub struct TxDebit {
    pub keychain: Keychain,
    pub index: u32,
    pub value: u64,
    pub party: Party,
}

/// A derived address tracked by the cache, with its derivation coordinates,
/// its output script and its lifecycle status.
#[derive(Clone, PartialEq, Eq, Debug)]
pub struct WalletAddr {
    pub keychain: Keychain,
    pub index: u32,
    pub script: Vec<u8>,
    pub status: AddrStatus,
}

/// An output owned by the wallet, unique by outpoint within the cache.
#[derive(Clone, Copy, PartialEq, Eq, Debug)]
pub struct WalletUtxo {
    pub outpoint: Outpoint,
    pub value: u64,
    pub keychain: Keychain,
    pub index: u32,
    pub status: UtxoStatus,
    /// Optional overlay tag: an output carrying a non-native asset.
    pub tag: Option<u64>,
}

/// A transaction relevant to the wallet, with its per-address ledger rows.
#[derive(Clone, PartialEq, Eq, Debug)]
pub struct WalletTx {
    pub txid: Txid,
    pub status: TxStatus,
    pub fee: u64,
    pub credits: Vec<TxCredit>,
    pub debits: Vec<TxDebit>,
}

impl WalletUtxo {
    /// True while the output is spendable.
    pub open spec fn spec_is_unspent(self) -> bool {
        self.status == UtxoStatus::Unspent
    }

    /// True while the output is spendable.
    pub fn is_unspent(&self) -> (r: bool)
        ensures
            r == self.spec_is_unspent(),
    {
        match self.status {
            UtxoStatus::Unspent => true,
            UtxoStatus::Spent(_) => false,
        }
    }
}

} // verus!
