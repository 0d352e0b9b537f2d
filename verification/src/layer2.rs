//! Layer2 overlay: an optional secondary cache keyed by the same outpoint
//! space as the base cache, carrying protocol-specific coin semantics. It
//! references base outpoints, never owns them, and can never hold a coin at
//! an outpoint the base cache has not observed.

use vstd::prelude::*;
use crate::data::Outpoint;
use crate::data::TxStatus;
use crate::data::Txid;
use crate::wallet::WalletCache;
use crate::wallet::has_utxo;

verus! {

/// An overlay coin: a protocol asset riding on one base outpoint.
#[derive(Clone, Copy, PartialEq, Eq, Structural, Debug)]
pub struct Layer2Coin {
    pub outpoint: Outpoint,
    pub amount: u64,
    pub asset: u64,
}

/// An overlay transaction reference.
#[derive(Clone, Copy, PartialEq, Eq, Structural, Debug)]
pub struct Layer2Tx {
    pub txid: Txid,
    pub status: TxStatus,
}

/// The overlay's own mirror of protocol state.
#[derive(Clone, PartialEq, Eq, Debug)]
pub struct Layer2Cache {
    pub coins: Vec<Layer2Coin>,
    pub txs: Vec<Layer2Tx>,
}

/// Every overlay coin references an outpoint the base cache knows.
pub open spec fn layer2_wf(coins: Seq<Layer2Coin>, base: &WalletCache) -> bool {
    forall|k: int| 0 <= k < coins.len() ==> has_utxo(base@.utxos, #[trigger] coins[k].outpoint)
}

/// The reported overlay coins restricted to outpoints the base cache knows,
/// in report order.
pub open spec fn spec_known_coins(base: &WalletCache, rs: Seq<Layer2Coin>) -> Seq<Layer2Coin>
    decreases rs.len(),
{
    if rs.len() == 0 {
        Seq::<Layer2Coin>::empty()
    } else {
        let pre = spec_known_coins(base, rs.drop_last());
        if has_utxo(base@.utxos, rs.last().outpoint) {
            pre.push(rs.last())
        } else {
            pre
        }
    }
}

/// Sum of overlay coin amounts.
pub open spec fn spec_layer2_balance(coins: Seq<Layer2Coin>) -> int
    decreases coins.len(),
{
    if coins.len() == 0 {
        0
    } else {
        spec_layer2_balance(coins.drop_last()) + coins.last().amount
    }
}

impl Layer2Cache {
    /// The empty overlay state.
    pub fn new() -> (r: Layer2Cache)
        ensures
            r.coins@.len() == 0,
            r.txs@.len() == 0,
    {
        Layer2Cache { coins: Vec::new(), txs: Vec::new() }
    }

    /// Refreshes the overlay from an external report, restricted to
    /// outpoints the base cache already knows about: exactly the known
    /// reported coins remain, in report order. Runs strictly after base
    /// sync; it can never introduce a coin the base has not observed.
    pub fn refresh(&mut self, base: &WalletCache, reported: Vec<Layer2Coin>)
        ensures
            final(self).coins@ == spec_known_coins(base, reported@),
            final(self).txs@ == old(self).txs@,
            layer2_wf(final(self).coins@, base),
    {
        let n = reported.len();
        let mut kept: Vec<Layer2Coin> = Vec::new();
        let mut i: usize = 0;
        while i < n
            invariant
                n == reported@.len(),
                0 <= i <= n,
                kept@ == spec_known_coins(base, reported@.take(i as int)),
                layer2_wf(kept@, base),
            decreases n - i,
        {
            proof {
                assert(reported@.take(i + 1 as int).drop_last() =~= reported@.take(i as int));
                assert(reported@.take(i + 1 as int).last() == reported@[i as int]);
            }
            let c = reported[i];
            if base.knows_outpoint(c.outpoint) {
                kept.push(c);
            }
            i += 1;
        }
        proof {
            assert(reported@.take(n as int) =~= reported@);
        }
        self.coins = kept;
    }

    /// How many overlay coins are held.
    pub fn coin_count(&self) -> (r: usize)
        ensures
            r == self.coins@.len(),
    {
        self.coins.len()
    }

    /// The overlay balance: the sum of all overlay coin amounts, distinct
    /// from the native balance.
    pub fn balance(&self) -> (r: u128)
        ensures
            r == spec_layer2_balance(self.coins@),
    {
        let n = self.coins.len();
        let mut acc: u128 = 0;
        let mut i: usize = 0;
        while i < n
            invariant
                n == self.coins@.len(),
                0 <= i <= n,
                acc == spec_layer2_balance(self.coins@.take(i as int)),
                acc <= i * (u64::MAX as int),
            decreases n - i,
        {
            proof {
                assert(self.coins@.take(i + 1 as int).drop_last() =~= self.coins@.take(i as int));
                assert(self.coins@.take(i + 1 as int).last() == self.coins@[i as int]);
                assert((i + 1) * (u64::MAX as int) == i * (u64::MAX as int) + (u64::MAX as int))
                    by (nonlinear_arith);
                assert((i + 1) * (u64::MAX as int) <= u128::MAX) by (nonlinear_arith)
                    requires
                        0 <= i < usize::MAX as int,
                ;
            }
            acc = acc + self.coins[i].amount as u128;
            i += 1;
        }
        proof {
            assert(self.coins@.take(n as int) =~= self.coins@);
        }
        acc
    }
}

/// Law: overlay validity survives synchronization. A sync pass never deletes
/// a tracked outpoint, so every overlay coin that referenced a known base
/// outpoint still does after the base cache is reconciled.
pub proof fn lemma_layer2_wf_preserved(
    coins: Seq<Layer2Coin>,
    old_base: &WalletCache,
    new_base: &WalletCache,
)
    requires
        layer2_wf(coins, old_base),
        crate::wallet::cache_monotone(old_base@, new_base@),
    ensures
        layer2_wf(coins, new_base),
{
    assert forall|k: int| 0 <= k < coins.len() implies has_utxo(
        new_base@.utxos,
        #[trigger] coins[k].outpoint,
    ) by {
        let j = choose|j: int|
            0 <= j < old_base@.utxos.len() && #[trigger] old_base@.utxos[j].outpoint
                == coins[k].outpoint;
        assert(has_utxo(new_base@.utxos, old_base@.utxos[j].outpoint));
    }
}

/// The disabled overlay: the default. It is not an error state — it always
/// reports zero coins and zero balance.
#[derive(Clone, Copy, PartialEq, Eq, Structural, Debug)]
pub struct NoLayer2;

impl NoLayer2 {
    /// The null overlay holds no coins.
    pub fn coin_count(&self) -> (r: usize)
        ensures
            r == 0,
    {
        0
    }

    /// The null overlay's balance is zero.
    pub fn balance(&self) -> (r: u128)
        ensures
            r == 0,
    {
        0
    }
}

} // verus!
