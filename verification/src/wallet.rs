//! Wallet cache and its synchronization-reconciliation engine: the local
//! mirror of chain state (addresses, unspent outputs, transactions) and the
//! merge rules that reconcile it against what a data source reports.

use vstd::prelude::*;
use crate::data::AddrStatus;
use crate::data::Chain;
use crate::data::Keychain;
use crate::data::Outpoint;
use crate::data::TxCredit;
use crate::data::TxDebit;
use crate::data::TxStatus;
use crate::data::Txid;
use crate::data::UtxoStatus;
use crate::data::WalletAddr;
use crate::data::WalletTx;
use crate::data::WalletUtxo;

verus! {

/// One unspent (or newly spent) output reported by the data source for a
/// probed script.
#[derive(Clone, Copy, PartialEq, Eq, Debug)]
pub struct UtxoReport {
    pub outpoint: Outpoint,
    pub value: u64,
    pub spent_by: Option<Txid>,
}

/// One transaction reported by the data source for a probed script.
#[derive(Clone, PartialEq, Eq, Debug)]
pub struct TxReport {
    pub txid: Txid,
    pub height: Option<u32>,
    pub fee: u64,
    pub credits: Vec<TxCredit>,
    pub debits: Vec<TxDebit>,
}

/// Mathematical form of a tracked address.
pub struct AddrV {
    pub keychain: Keychain,
    pub index: u32,
    pub script: Seq<u8>,
    pub status: AddrStatus,
}

/// Mathematical form of a tracked transaction.
pub struct TxV {
    pub txid: Txid,
    pub status: TxStatus,
    pub fee: u64,
    pub credits: Seq<TxCredit>,
    pub debits: Seq<TxDebit>,
}

/// Mathematical form of a reported transaction.
pub struct TxRepV {
    pub txid: Txid,
    pub height: Option<u32>,
    pub fee: u64,
    pub credits: Seq<TxCredit>,
    pub debits: Seq<TxDebit>,
}

impl View for WalletAddr {
    type V = AddrV;

    open spec fn view(&self) -> AddrV {
        AddrV { keychain: self.keychain, index: self.index, script: self.script@, status: self.status }
    }
}

impl View for WalletTx {
    type V = TxV;

    open spec fn view(&self) -> TxV {
        TxV {
            txid: self.txid,
            status: self.status,
            fee: self.fee,
            credits: self.credits@,
            debits: self.debits@,
        }
    }
}

impl View for TxReport {
    type V = TxRepV;

    open spec fn view(&self) -> TxRepV {
        TxRepV {
            txid: self.txid,
            height: self.height,
            fee: self.fee,
            credits: self.credits@,
            debits: self.debits@,
        }
    }
}

/// Local mirror of chain state. Its sole mutator is the sync engine; wallet
/// data, coin selection and the overlay only read it.
#[derive(Clone, PartialEq, Eq, Debug)]
pub struct WalletCache {
    pub addrs: Vec<WalletAddr>,
    pub utxos: Vec<WalletUtxo>,
    pub txs: Vec<WalletTx>,
    pub tip: u32,
}

/// Mathematical form of the cache.
pub struct CacheV {
    pub addrs: Seq<AddrV>,
    pub utxos: Seq<WalletUtxo>,
    pub txs: Seq<TxV>,
    pub tip: u32,
}

impl View for WalletCache {
    type V = CacheV;

    open spec fn view(&self) -> CacheV {
        CacheV {
            addrs: self.addrs@.map_values(|a: WalletAddr| a@),
            utxos: self.utxos@,
            txs: self.txs@.map_values(|t: WalletTx| t@),
            tip: self.tip,
        }
    }
}

// ---- address bookkeeping ----

/// Whether an address (keychain, index) is tracked.
pub open spec fn has_addr(addrs: Seq<AddrV>, kc: Keychain, idx: u32) -> bool {
    exists|j: int|
        0 <= j < addrs.len() && #[trigger] addrs[j].keychain == kc && addrs[j].index == idx
}

/// Position of a tracked address (meaningful under uniqueness).
pub open spec fn addr_where(addrs: Seq<AddrV>, kc: Keychain, idx: u32) -> int {
    choose|j: int|
        0 <= j < addrs.len() && #[trigger] addrs[j].keychain == kc && addrs[j].index == idx
}

/// No (keychain, index) coordinate is tracked twice.
pub open spec fn addrs_unique(addrs: Seq<AddrV>) -> bool {
    forall|j1: int, j2: int|
        0 <= j1 < j2 < addrs.len() ==> !(#[trigger] addrs[j1].keychain == #[trigger] addrs[j2].keychain
            && addrs[j1].index == addrs[j2].index)
}

/// How many addresses a keychain has probed.
pub open spec fn addr_count(addrs: Seq<AddrV>, kc: Keychain) -> int
    decreases addrs.len(),
{
    if addrs.len() == 0 {
        0
    } else {
        addr_count(addrs.drop_last(), kc) + if addrs.last().keychain == kc {
            1int
        } else {
            0int
        }
    }
}

/// Highest index recorded Funded under a keychain, if any.
pub open spec fn max_funded(addrs: Seq<AddrV>, kc: Keychain) -> Option<u32>
    decreases addrs.len(),
{
    if addrs.len() == 0 {
        Option::<u32>::None
    } else {
        let m = max_funded(addrs.drop_last(), kc);
        if addrs.last().keychain == kc && addrs.last().status == AddrStatus::Funded {
            match m {
                Some(f) => if addrs.last().index > f {
                    Some(addrs.last().index)
                } else {
                    Some(f)
                },
                None => Some(addrs.last().index),
            }
        } else {
            m
        }
    }
}

/// Per-keychain probing is contiguous from zero: every keychain's tracked
/// indices are exactly `0 .. addr_count`.
pub open spec fn addrs_contiguous(addrs: Seq<AddrV>) -> bool {
    &&& (forall|j: int|
        0 <= j < addrs.len() ==> #[trigger] addrs[j].index < addr_count(addrs, addrs[j].keychain))
    &&& (forall|kc: Keychain, i: u32|
        0 <= i < addr_count(addrs, kc) ==> #[trigger] has_addr(addrs, kc, i))
}

/// The merged state of one tracked address after a probe: Funded is sticky,
/// activity promotes to Funded, the stored script stays.
pub open spec fn merged_addr(a: AddrV, active: bool) -> AddrV {
    AddrV {
        keychain: a.keychain,
        index: a.index,
        script: a.script,
        status: if active || a.status == AddrStatus::Funded {
            AddrStatus::Funded
        } else {
            AddrStatus::Probed
        },
    }
}

/// The tracked-address set after probing (keychain, index): an update of the
/// existing entry, or a new entry at the end.
pub open spec fn spec_upsert_addr(
    addrs: Seq<AddrV>,
    kc: Keychain,
    idx: u32,
    script: Seq<u8>,
    active: bool,
) -> Seq<AddrV> {
    if has_addr(addrs, kc, idx) {
        let j = addr_where(addrs, kc, idx);
        addrs.update(j, merged_addr(addrs[j], active))
    } else {
        addrs.push(
            AddrV {
                keychain: kc,
                index: idx,
                script,
                status: if active {
                    AddrStatus::Funded
                } else {
                    AddrStatus::Probed
                },
            },
        )
    }
}

// ---- unspent outputs ----

/// Whether an outpoint is tracked.
pub open spec fn has_utxo(utxos: Seq<WalletUtxo>, o: Outpoint) -> bool {
    exists|j: int| 0 <= j < utxos.len() && #[trigger] utxos[j].outpoint == o
}

/// No outpoint is tracked twice.
pub open spec fn utxos_unique(utxos: Seq<WalletUtxo>) -> bool {
    forall|j1: int, j2: int|
        0 <= j1 < j2 < utxos.len() ==> #[trigger] utxos[j1].outpoint != #[trigger] utxos[j2].outpoint
}

/// Whether a batch reports an outpoint.
pub open spec fn has_ureport(rs: Seq<UtxoReport>, o: Outpoint) -> bool {
    exists|j: int| 0 <= j < rs.len() && #[trigger] rs[j].outpoint == o
}

/// The first report on an outpoint.
pub open spec fn ureport_for(rs: Seq<UtxoReport>, o: Outpoint) -> UtxoReport
    decreases rs.len(),
{
    if rs.len() == 0 {
        UtxoReport { outpoint: o, value: 0, spent_by: None }
    } else if rs[0].outpoint == o {
        rs[0]
    } else {
        ureport_for(rs.drop_first(), o)
    }
}

/// No outpoint is reported twice within a batch.
pub open spec fn ureports_unique(rs: Seq<UtxoReport>) -> bool {
    forall|j1: int, j2: int|
        0 <= j1 < j2 < rs.len() ==> #[trigger] rs[j1].outpoint != #[trigger] rs[j2].outpoint
}

/// A tracked output reconciled with a report on its outpoint: the value is
/// refreshed, a reported spend marks it Spent (never deleted), and a Spent
/// mark is never undone.
pub open spec fn merge_utxo_val(old: WalletUtxo, r: UtxoReport) -> WalletUtxo {
    WalletUtxo {
        outpoint: old.outpoint,
        value: r.value,
        keychain: old.keychain,
        index: old.index,
        status: match r.spent_by {
            Some(t) => UtxoStatus::Spent(t),
            None => match old.status {
                UtxoStatus::Spent(t0) => UtxoStatus::Spent(t0),
                UtxoStatus::Unspent => UtxoStatus::Unspent,
            },
        },
        tag: old.tag,
    }
}

/// A newly discovered output, owned by the probed (keychain, index).
pub open spec fn fresh_utxo(r: UtxoReport, kc: Keychain, idx: u32) -> WalletUtxo {
    WalletUtxo {
        outpoint: r.outpoint,
        value: r.value,
        keychain: kc,
        index: idx,
        status: match r.spent_by {
            Some(t) => UtxoStatus::Spent(t),
            None => UtxoStatus::Unspent,
        },
        tag: None,
    }
}

/// The reports whose outpoints the cache does not know yet, in report order.
pub open spec fn new_ureports(utxos: Seq<WalletUtxo>, rs: Seq<UtxoReport>) -> Seq<UtxoReport>
    decreases rs.len(),
{
    if rs.len() == 0 {
        Seq::<UtxoReport>::empty()
    } else {
        let pre = new_ureports(utxos, rs.drop_last());
        if has_utxo(utxos, rs.last().outpoint) {
            pre
        } else {
            pre.push(rs.last())
        }
    }
}

/// The tracked outputs after reconciling one report batch: every tracked
/// output with a report is merged with it, every unknown reported outpoint
/// is inserted, nothing is deleted.
pub open spec fn spec_merge_utxos(
    utxos: Seq<WalletUtxo>,
    rs: Seq<UtxoReport>,
    kc: Keychain,
    idx: u32,
) -> Seq<WalletUtxo> {
    Seq::new(
        utxos.len(),
        |j: int|
            if has_ureport(rs, utxos[j].outpoint) {
                merge_utxo_val(utxos[j], ureport_for(rs, utxos[j].outpoint))
            } else {
                utxos[j]
            },
    ) + new_ureports(utxos, rs).map_values(|r: UtxoReport| fresh_utxo(r, kc, idx))
}

// ---- transactions ----

/// Whether a transaction is tracked.
pub open spec fn has_tx(txs: Seq<TxV>, t: Txid) -> bool {
    exists|j: int| 0 <= j < txs.len() && #[trigger] txs[j].txid == t
}

/// No transaction is tracked twice.
pub open spec fn txs_unique(txs: Seq<TxV>) -> bool {
    forall|j1: int, j2: int|
        0 <= j1 < j2 < txs.len() ==> #[trigger] txs[j1].txid != #[trigger] txs[j2].txid
}

/// Whether a batch reports a transaction.
pub open spec fn has_treport(rs: Seq<TxRepV>, t: Txid) -> bool {
    exists|j: int| 0 <= j < rs.len() && #[trigger] rs[j].txid == t
}

/// The first report on a transaction.
pub open spec fn treport_for(rs: Seq<TxRepV>, t: Txid) -> TxRepV
    decreases rs.len(),
{
    if rs.len() == 0 {
        TxRepV { txid: t, height: None, fee: 0, credits: Seq::empty(), debits: Seq::empty() }
    } else if rs[0].txid == t {
        rs[0]
    } else {
        treport_for(rs.drop_first(), t)
    }
}

/// No transaction is reported twice within a batch.
pub open spec fn treports_unique(rs: Seq<TxRepV>) -> bool {
    forall|j1: int, j2: int|
        0 <= j1 < j2 < rs.len() ==> #[trigger] rs[j1].txid != #[trigger] rs[j2].txid
}

/// A tracked transaction reconciled with a report: a reported height
/// confirms it (and a differing height — a reorg — overwrites), while a
/// report without a height never demotes a confirmed transaction.
pub open spec fn merge_tx_val(old: TxV, r: TxRepV) -> TxV {
    TxV {
        txid: old.txid,
        status: match r.height {
            Some(h) => TxStatus::Confirmed(h),
            None => match old.status {
                TxStatus::Confirmed(h0) => TxStatus::Confirmed(h0),
                TxStatus::Unconfirmed => TxStatus::Unconfirmed,
            },
        },
        fee: r.fee,
        credits: r.credits,
        debits: r.debits,
    }
}

/// A newly discovered transaction.
pub open spec fn fresh_tx(r: TxRepV) -> TxV {
    TxV {
        txid: r.txid,
        status: match r.height {
            Some(h) => TxStatus::Confirmed(h),
            None => TxStatus::Unconfirmed,
        },
        fee: r.fee,
        credits: r.credits,
        debits: r.debits,
    }
}

/// The reports on transactions the cache does not know yet, in report order.
pub open spec fn new_treports(txs: Seq<TxV>, rs: Seq<TxRepV>) -> Seq<TxRepV>
    decreases rs.len(),
{
    if rs.len() == 0 {
        Seq::<TxRepV>::empty()
    } else {
        let pre = new_treports(txs, rs.drop_last());
        if has_tx(txs, rs.last().txid) {
            pre
        } else {
            pre.push(rs.last())
        }
    }
}

/// The tracked transactions after reconciling one report batch.
pub open spec fn spec_merge_txs(txs: Seq<TxV>, rs: Seq<TxRepV>) -> Seq<TxV> {
    Seq::new(
        txs.len(),
        |j: int|
            if has_treport(rs, txs[j].txid) {
                merge_tx_val(txs[j], treport_for(rs, txs[j].txid))
            } else {
                txs[j]
            },
    ) + new_treports(txs, rs).map_values(|r: TxRepV| fresh_tx(r))
}

// ---- cache well-formedness and the merged cache ----

impl CacheV {
    /// Invariants of the mirror: outpoints, transaction ids and address
    /// coordinates are unique; probing is contiguous per keychain; every
    /// output's owning address is tracked.
    pub open spec fn wf(self) -> bool {
        &&& addrs_unique(self.addrs)
        &&& addrs_contiguous(self.addrs)
        &&& utxos_unique(self.utxos)
        &&& txs_unique(self.txs)
        &&& (forall|j: int|
            0 <= j < self.utxos.len() ==> has_addr(
                self.addrs,
                #[trigger] self.utxos[j].keychain,
                self.utxos[j].index,
            ))
    }
}

/// The whole cache after reconciling what one probed script reported.
pub open spec fn spec_merge_cache(
    c: CacheV,
    kc: Keychain,
    idx: u32,
    script: Seq<u8>,
    active: bool,
    ureps: Seq<UtxoReport>,
    treps: Seq<TxRepV>,
) -> CacheV {
    CacheV {
        addrs: spec_upsert_addr(c.addrs, kc, idx, script, active),
        utxos: spec_merge_utxos(c.utxos, ureps, kc, idx),
        txs: spec_merge_txs(c.txs, treps),
        tip: c.tip,
    }
}


/// The probed count a keychain settles at after one sync pass: one full gap
/// window past the highest funded index, never fewer than before, capped by
/// the index space.
pub open spec fn window_target(old_count: int, mf: Option<u32>, gap_limit: u32) -> int {
    let b = probe_bound(mf, gap_limit);
    let capped = if b < 0x1_0000_0000 {
        b
    } else {
        0x1_0000_0000int
    };
    if old_count > capped {
        old_count
    } else {
        capped
    }
}

/// Nothing the cache tracked is ever deleted, and permanent marks stay:
/// every tracked outpoint, transaction and address coordinate survives, a
/// Funded address stays Funded, a Spent output stays Spent.
pub open spec fn cache_monotone(old_c: CacheV, new_c: CacheV) -> bool {
    &&& (forall|j: int|
        0 <= j < old_c.utxos.len() ==> has_utxo(new_c.utxos, #[trigger] old_c.utxos[j].outpoint))
    &&& (forall|j: int|
        0 <= j < old_c.utxos.len() && #[trigger] old_c.utxos[j].status is Spent ==> exists|m: int|
            0 <= m < new_c.utxos.len() && (#[trigger] new_c.utxos[m]).outpoint
                == old_c.utxos[j].outpoint && new_c.utxos[m].status is Spent)
    &&& (forall|j: int|
        0 <= j < old_c.txs.len() ==> has_tx(new_c.txs, #[trigger] old_c.txs[j].txid))
    &&& (forall|j: int|
        0 <= j < old_c.addrs.len() ==> has_addr(
            new_c.addrs,
            #[trigger] old_c.addrs[j].keychain,
            old_c.addrs[j].index,
        ))
    &&& (forall|j: int|
        0 <= j < old_c.addrs.len() && #[trigger] old_c.addrs[j].status == AddrStatus::Funded
            ==> exists|m: int|
            0 <= m < new_c.addrs.len() && (#[trigger] new_c.addrs[m]).keychain
                == old_c.addrs[j].keychain && new_c.addrs[m].index == old_c.addrs[j].index
                && new_c.addrs[m].status == AddrStatus::Funded)
}

/// A cache is monotone over itself.
pub proof fn lemma_cache_monotone_refl(c: CacheV)
    ensures
        cache_monotone(c, c),
{
    assert forall|j: int| 0 <= j < c.utxos.len() implies has_utxo(
        c.utxos,
        #[trigger] c.utxos[j].outpoint,
    ) by {
        assert(c.utxos[j].outpoint == c.utxos[j].outpoint);
    }
    assert forall|j: int| 0 <= j < c.addrs.len() implies has_addr(
        c.addrs,
        #[trigger] c.addrs[j].keychain,
        c.addrs[j].index,
    ) by {
        assert(c.addrs[j].keychain == c.addrs[j].keychain);
    }
    assert forall|j: int| 0 <= j < c.txs.len() implies has_tx(c.txs, #[trigger] c.txs[j].txid) by {
        assert(c.txs[j].txid == c.txs[j].txid);
    }
}

/// Monotonicity composes across successive reconciliations.
pub proof fn lemma_cache_monotone_trans(a: CacheV, b: CacheV, c: CacheV)
    requires
        cache_monotone(a, b),
        cache_monotone(b, c),
    ensures
        cache_monotone(a, c),
{
    assert forall|j: int| 0 <= j < a.utxos.len() implies has_utxo(
        c.utxos,
        #[trigger] a.utxos[j].outpoint,
    ) by {
        let m = choose|m: int|
            0 <= m < b.utxos.len() && #[trigger] b.utxos[m].outpoint == a.utxos[j].outpoint;
        assert(has_utxo(c.utxos, b.utxos[m].outpoint));
    }
    assert forall|j: int|
        0 <= j < a.utxos.len() && #[trigger] a.utxos[j].status is Spent implies exists|m: int|
        0 <= m < c.utxos.len() && (#[trigger] c.utxos[m]).outpoint == a.utxos[j].outpoint
            && c.utxos[m].status is Spent by {
        let m1 = choose|m1: int|
            0 <= m1 < b.utxos.len() && (#[trigger] b.utxos[m1]).outpoint == a.utxos[j].outpoint
                && b.utxos[m1].status is Spent;
        let m2 = choose|m2: int|
            0 <= m2 < c.utxos.len() && (#[trigger] c.utxos[m2]).outpoint == b.utxos[m1].outpoint
                && c.utxos[m2].status is Spent;
        assert(0 <= m2 < c.utxos.len() && c.utxos[m2].outpoint == a.utxos[j].outpoint
            && c.utxos[m2].status is Spent);
    }
    assert forall|j: int| 0 <= j < a.txs.len() implies has_tx(
        c.txs,
        #[trigger] a.txs[j].txid,
    ) by {
        let m = choose|m: int| 0 <= m < b.txs.len() && #[trigger] b.txs[m].txid == a.txs[j].txid;
        assert(has_tx(c.txs, b.txs[m].txid));
    }
    assert forall|j: int| 0 <= j < a.addrs.len() implies has_addr(
        c.addrs,
        #[trigger] a.addrs[j].keychain,
        a.addrs[j].index,
    ) by {
        let m = choose|m: int|
            0 <= m < b.addrs.len() && #[trigger] b.addrs[m].keychain == a.addrs[j].keychain
                && b.addrs[m].index == a.addrs[j].index;
        assert(has_addr(c.addrs, b.addrs[m].keychain, b.addrs[m].index));
    }
    assert forall|j: int|
        0 <= j < a.addrs.len() && #[trigger] a.addrs[j].status == AddrStatus::Funded implies exists|
        m: int,
    |
        0 <= m < c.addrs.len() && (#[trigger] c.addrs[m]).keychain == a.addrs[j].keychain
            && c.addrs[m].index == a.addrs[j].index && c.addrs[m].status == AddrStatus::Funded by {
        let m1 = choose|m1: int|
            0 <= m1 < b.addrs.len() && (#[trigger] b.addrs[m1]).keychain == a.addrs[j].keychain
                && b.addrs[m1].index == a.addrs[j].index && b.addrs[m1].status
                == AddrStatus::Funded;
        let m2 = choose|m2: int|
            0 <= m2 < c.addrs.len() && (#[trigger] c.addrs[m2]).keychain == b.addrs[m1].keychain
                && c.addrs[m2].index == b.addrs[m1].index && c.addrs[m2].status
                == AddrStatus::Funded;
        assert(0 <= m2 < c.addrs.len() && c.addrs[m2].keychain == a.addrs[j].keychain
            && c.addrs[m2].index == a.addrs[j].index && c.addrs[m2].status == AddrStatus::Funded);
    }
}

/// Law: one reconciliation never deletes — every tracked outpoint,
/// transaction and address survives the merge, Funded and Spent marks stay.
pub proof fn lemma_merge_cache_monotone(
    c: CacheV,
    kc: Keychain,
    idx: u32,
    script: Seq<u8>,
    active: bool,
    ureps: Seq<UtxoReport>,
    treps: Seq<TxRepV>,
)
    ensures
        cache_monotone(c, spec_merge_cache(c, kc, idx, script, active, ureps, treps)),
{
    let mc = spec_merge_cache(c, kc, idx, script, active, ureps, treps);
    assert forall|j: int| 0 <= j < c.utxos.len() implies has_utxo(
        mc.utxos,
        #[trigger] c.utxos[j].outpoint,
    ) by {
        assert(mc.utxos[j].outpoint == c.utxos[j].outpoint);
    }
    assert forall|j: int|
        0 <= j < c.utxos.len() && #[trigger] c.utxos[j].status is Spent implies exists|m: int|
        0 <= m < mc.utxos.len() && (#[trigger] mc.utxos[m]).outpoint == c.utxos[j].outpoint
            && mc.utxos[m].status is Spent by {
        assert(mc.utxos[j].outpoint == c.utxos[j].outpoint);
        assert(mc.utxos[j].status is Spent);
    }
    assert forall|j: int| 0 <= j < c.txs.len() implies has_tx(
        mc.txs,
        #[trigger] c.txs[j].txid,
    ) by {
        assert(mc.txs[j].txid == c.txs[j].txid);
    }
    if has_addr(c.addrs, kc, idx) {
        let jw = addr_where(c.addrs, kc, idx);
        assert forall|j: int| 0 <= j < c.addrs.len() implies has_addr(
            mc.addrs,
            #[trigger] c.addrs[j].keychain,
            c.addrs[j].index,
        ) by {
            assert(mc.addrs[j].keychain == c.addrs[j].keychain && mc.addrs[j].index
                == c.addrs[j].index);
        }
        assert forall|j: int|
            0 <= j < c.addrs.len() && #[trigger] c.addrs[j].status == AddrStatus::Funded implies
            exists|m: int|
            0 <= m < mc.addrs.len() && (#[trigger] mc.addrs[m]).keychain == c.addrs[j].keychain
                && mc.addrs[m].index == c.addrs[j].index && mc.addrs[m].status
                == AddrStatus::Funded by {
            assert(mc.addrs[j].keychain == c.addrs[j].keychain && mc.addrs[j].index
                == c.addrs[j].index && mc.addrs[j].status == AddrStatus::Funded);
        }
    } else {
        assert forall|j: int| 0 <= j < c.addrs.len() implies has_addr(
            mc.addrs,
            #[trigger] c.addrs[j].keychain,
            c.addrs[j].index,
        ) by {
            assert(mc.addrs[j] == c.addrs[j]);
        }
        assert forall|j: int|
            0 <= j < c.addrs.len() && #[trigger] c.addrs[j].status == AddrStatus::Funded implies
            exists|m: int|
            0 <= m < mc.addrs.len() && (#[trigger] mc.addrs[m]).keychain == c.addrs[j].keychain
                && mc.addrs[m].index == c.addrs[j].index && mc.addrs[m].status
                == AddrStatus::Funded by {
            assert(mc.addrs[j] == c.addrs[j]);
        }
    }
}

// ---- idempotence of reconciliation ----

proof fn lemma_ureport_for_at(rs: Seq<UtxoReport>, i: int)
    requires
        ureports_unique(rs),
        0 <= i < rs.len(),
    ensures
        ureport_for(rs, rs[i].outpoint) == rs[i],
    decreases i,
{
    if i == 0 {
    } else {
        assert(rs[0].outpoint != rs[i].outpoint);
        let tail = rs.drop_first();
        assert(forall|j: int| 0 <= j < tail.len() ==> #[trigger] tail[j] == rs[j + 1]);
        lemma_ureport_for_at(tail, i - 1);
    }
}

proof fn lemma_new_ureports_props(utxos: Seq<WalletUtxo>, rs: Seq<UtxoReport>)
    requires
        ureports_unique(rs),
    ensures
        forall|k: int|
            0 <= k < new_ureports(utxos, rs).len() ==> rs.contains(
                #[trigger] new_ureports(utxos, rs)[k],
            ) && !has_utxo(utxos, new_ureports(utxos, rs)[k].outpoint),
        ureports_unique(new_ureports(utxos, rs)),
        forall|i: int|
            0 <= i < rs.len() && !has_utxo(utxos, #[trigger] rs[i].outpoint) ==> new_ureports(
                utxos,
                rs,
            ).contains(rs[i]),
    decreases rs.len(),
{
    if rs.len() == 0 {
    } else {
        let dl = rs.drop_last();
        assert(ureports_unique(dl)) by {
            assert(forall|j: int| 0 <= j < dl.len() ==> #[trigger] dl[j] == rs[j]);
        }
        lemma_new_ureports_props(utxos, dl);
        let pre = new_ureports(utxos, dl);
        assert(forall|k: int| 0 <= k < pre.len() && rs.drop_last().contains(#[trigger] pre[k])
            ==> rs.contains(pre[k])) by {
            assert(forall|j: int| 0 <= j < dl.len() ==> #[trigger] dl[j] == rs[j]);
        }
        if !has_utxo(utxos, rs.last().outpoint) {
            let cur = pre.push(rs.last());
            assert(rs.contains(rs.last())) by {
                assert(rs[rs.len() - 1] == rs.last());
            }
            assert(ureports_unique(cur)) by {
                assert forall|j1: int, j2: int| 0 <= j1 < j2 < cur.len() implies #[trigger] cur[j1].outpoint
                    != #[trigger] cur[j2].outpoint by {
                    if j2 == cur.len() - 1 {
                        let w = choose|i: int| 0 <= i < dl.len() && dl[i] == cur[j1];
                        assert(rs[w].outpoint != rs[rs.len() - 1].outpoint);
                    }
                }
            }
            assert forall|i: int|
                0 <= i < rs.len() && !has_utxo(utxos, #[trigger] rs[i].outpoint) implies cur.contains(
                rs[i],
            ) by {
                if i < rs.len() - 1 {
                    assert(dl[i] == rs[i]);
                    assert(pre.contains(rs[i]));
                    let w = choose|k: int| 0 <= k < pre.len() && pre[k] == rs[i];
                    assert(cur[w] == rs[i]);
                } else {
                    assert(cur[cur.len() - 1] == rs[i]);
                }
            }
        } else {
            assert forall|i: int|
                0 <= i < rs.len() && !has_utxo(utxos, #[trigger] rs[i].outpoint) implies pre.contains(
                rs[i],
            ) by {
                assert(i < rs.len() - 1);
                assert(dl[i] == rs[i]);
            }
        }
    }
}

proof fn lemma_new_ureports_empty(utxos: Seq<WalletUtxo>, rs: Seq<UtxoReport>)
    requires
        forall|i: int| 0 <= i < rs.len() ==> has_utxo(utxos, #[trigger] rs[i].outpoint),
    ensures
        new_ureports(utxos, rs).len() == 0,
    decreases rs.len(),
{
    if rs.len() > 0 {
        let dl = rs.drop_last();
        assert(forall|j: int| 0 <= j < dl.len() ==> #[trigger] dl[j] == rs[j]);
        lemma_new_ureports_empty(utxos, dl);
        assert(has_utxo(utxos, rs[rs.len() - 1].outpoint));
    }
}

/// Law: reconciling the tracked outputs with one report batch twice leaves
/// exactly the outputs of reconciling once — no duplicates, no value drift.
pub proof fn lemma_merge_utxos_idempotent(
    utxos: Seq<WalletUtxo>,
    rs: Seq<UtxoReport>,
    kc: Keychain,
    idx: u32,
)
    requires
        utxos_unique(utxos),
        ureports_unique(rs),
    ensures
        spec_merge_utxos(spec_merge_utxos(utxos, rs, kc, idx), rs, kc, idx) == spec_merge_utxos(
            utxos,
            rs,
            kc,
            idx,
        ),
{
    let m1 = spec_merge_utxos(utxos, rs, kc, idx);
    let nr = new_ureports(utxos, rs);
    lemma_new_ureports_props(utxos, rs);
    assert(forall|j: int| 0 <= j < utxos.len() ==> #[trigger] m1[j].outpoint == utxos[j].outpoint);
    assert(forall|k: int|
        0 <= k < nr.len() ==> #[trigger] m1[utxos.len() + k].outpoint == nr[k].outpoint);
    assert forall|i: int| 0 <= i < rs.len() implies has_utxo(m1, #[trigger] rs[i].outpoint) by {
        if has_utxo(utxos, rs[i].outpoint) {
            let j = choose|j: int| 0 <= j < utxos.len() && #[trigger] utxos[j].outpoint == rs[i].outpoint;
            assert(m1[j].outpoint == rs[i].outpoint);
        } else {
            assert(nr.contains(rs[i]));
            let k = choose|k: int| 0 <= k < nr.len() && nr[k] == rs[i];
            assert(m1[utxos.len() + k].outpoint == rs[i].outpoint);
        }
    }
    lemma_new_ureports_empty(m1, rs);
    let m2 = spec_merge_utxos(m1, rs, kc, idx);
    assert forall|j: int| 0 <= j < m1.len() implies #[trigger] m2[j] == m1[j] by {
        if j < utxos.len() {
            let o = utxos[j].outpoint;
            if has_ureport(rs, o) {
                let r = ureport_for(rs, o);
                assert(m1[j] == merge_utxo_val(utxos[j], r));
                assert(m2[j] == merge_utxo_val(m1[j], r));
            } else {
                assert(m1[j] == utxos[j]);
                assert(m2[j] == m1[j]);
            }
        } else {
            let k = j - utxos.len();
            let r = nr[k];
            assert(m1[j] == fresh_utxo(r, kc, idx));
            assert(rs.contains(r));
            let i = choose|i: int| 0 <= i < rs.len() && rs[i] == r;
            lemma_ureport_for_at(rs, i);
            assert(ureport_for(rs, r.outpoint) == r);
            assert(m2[j] == merge_utxo_val(fresh_utxo(r, kc, idx), r));
        }
    }
    assert(m2 =~= m1);
}

proof fn lemma_treport_for_at(rs: Seq<TxRepV>, i: int)
    requires
        treports_unique(rs),
        0 <= i < rs.len(),
    ensures
        treport_for(rs, rs[i].txid) == rs[i],
    decreases i,
{
    if i == 0 {
    } else {
        assert(rs[0].txid != rs[i].txid);
        let tail = rs.drop_first();
        assert(forall|j: int| 0 <= j < tail.len() ==> #[trigger] tail[j] == rs[j + 1]);
        lemma_treport_for_at(tail, i - 1);
    }
}

proof fn lemma_new_treports_props(txs: Seq<TxV>, rs: Seq<TxRepV>)
    requires
        treports_unique(rs),
    ensures
        forall|k: int|
            0 <= k < new_treports(txs, rs).len() ==> rs.contains(#[trigger] new_treports(txs, rs)[k])
                && !has_tx(txs, new_treports(txs, rs)[k].txid),
        treports_unique(new_treports(txs, rs)),
        forall|i: int|
            0 <= i < rs.len() && !has_tx(txs, #[trigger] rs[i].txid) ==> new_treports(
                txs,
                rs,
            ).contains(rs[i]),
    decreases rs.len(),
{
    if rs.len() == 0 {
    } else {
        let dl = rs.drop_last();
        assert(treports_unique(dl)) by {
            assert(forall|j: int| 0 <= j < dl.len() ==> #[trigger] dl[j] == rs[j]);
        }
        lemma_new_treports_props(txs, dl);
        let pre = new_treports(txs, dl);
        assert(forall|k: int| 0 <= k < pre.len() && rs.drop_last().contains(#[trigger] pre[k])
            ==> rs.contains(pre[k])) by {
            assert(forall|j: int| 0 <= j < dl.len() ==> #[trigger] dl[j] == rs[j]);
        }
        if !has_tx(txs, rs.last().txid) {
            let cur = pre.push(rs.last());
            assert(rs.contains(rs.last())) by {
                assert(rs[rs.len() - 1] == rs.last());
            }
            assert(treports_unique(cur)) by {
                assert forall|j1: int, j2: int| 0 <= j1 < j2 < cur.len() implies #[trigger] cur[j1].txid
                    != #[trigger] cur[j2].txid by {
                    if j2 == cur.len() - 1 {
                        let w = choose|i: int| 0 <= i < dl.len() && dl[i] == cur[j1];
                        assert(rs[w].txid != rs[rs.len() - 1].txid);
                    }
                }
            }
            assert forall|i: int|
                0 <= i < rs.len() && !has_tx(txs, #[trigger] rs[i].txid) implies cur.contains(
                rs[i],
            ) by {
                if i < rs.len() - 1 {
                    assert(dl[i] == rs[i]);
                    assert(pre.contains(rs[i]));
                    let w = choose|k: int| 0 <= k < pre.len() && pre[k] == rs[i];
                    assert(cur[w] == rs[i]);
                } else {
                    assert(cur[cur.len() - 1] == rs[i]);
                }
            }
        } else {
            assert forall|i: int|
                0 <= i < rs.len() && !has_tx(txs, #[trigger] rs[i].txid) implies pre.contains(
                rs[i],
            ) by {
                assert(i < rs.len() - 1);
                assert(dl[i] == rs[i]);
            }
        }
    }
}

proof fn lemma_new_treports_empty(txs: Seq<TxV>, rs: Seq<TxRepV>)
    requires
        forall|i: int| 0 <= i < rs.len() ==> has_tx(txs, #[trigger] rs[i].txid),
    ensures
        new_treports(txs, rs).len() == 0,
    decreases rs.len(),
{
    if rs.len() > 0 {
        let dl = rs.drop_last();
        assert(forall|j: int| 0 <= j < dl.len() ==> #[trigger] dl[j] == rs[j]);
        lemma_new_treports_empty(txs, dl);
        assert(has_tx(txs, rs[rs.len() - 1].txid));
    }
}

/// Law: reconciling the tracked transactions with one report batch twice
/// leaves exactly the transactions of reconciling once.
pub proof fn lemma_merge_txs_idempotent(txs: Seq<TxV>, rs: Seq<TxRepV>)
    requires
        txs_unique(txs),
        treports_unique(rs),
    ensures
        spec_merge_txs(spec_merge_txs(txs, rs), rs) == spec_merge_txs(txs, rs),
{
    let m1 = spec_merge_txs(txs, rs);
    let nr = new_treports(txs, rs);
    lemma_new_treports_props(txs, rs);
    assert(forall|j: int| 0 <= j < txs.len() ==> #[trigger] m1[j].txid == txs[j].txid);
    assert(forall|k: int| 0 <= k < nr.len() ==> #[trigger] m1[txs.len() + k].txid == nr[k].txid);
    assert forall|i: int| 0 <= i < rs.len() implies has_tx(m1, #[trigger] rs[i].txid) by {
        if has_tx(txs, rs[i].txid) {
            let j = choose|j: int| 0 <= j < txs.len() && #[trigger] txs[j].txid == rs[i].txid;
            assert(m1[j].txid == rs[i].txid);
        } else {
            assert(nr.contains(rs[i]));
            let k = choose|k: int| 0 <= k < nr.len() && nr[k] == rs[i];
            assert(m1[txs.len() + k].txid == rs[i].txid);
        }
    }
    lemma_new_treports_empty(m1, rs);
    let m2 = spec_merge_txs(m1, rs);
    assert forall|j: int| 0 <= j < m1.len() implies #[trigger] m2[j] == m1[j] by {
        if j < txs.len() {
            let t = txs[j].txid;
            if has_treport(rs, t) {
                let r = treport_for(rs, t);
                assert(m1[j] == merge_tx_val(txs[j], r));
                assert(m2[j] == merge_tx_val(m1[j], r));
            } else {
                assert(m1[j] == txs[j]);
                assert(m2[j] == m1[j]);
            }
        } else {
            let k = j - txs.len();
            let r = nr[k];
            assert(m1[j] == fresh_tx(r));
            assert(rs.contains(r));
            let i = choose|i: int| 0 <= i < rs.len() && rs[i] == r;
            lemma_treport_for_at(rs, i);
            assert(m2[j] == merge_tx_val(fresh_tx(r), r));
        }
    }
    assert(m2 =~= m1);
}

/// The upsert keeps address coordinates unique.
pub proof fn lemma_upsert_addr_unique(
    addrs: Seq<AddrV>,
    kc: Keychain,
    idx: u32,
    script: Seq<u8>,
    active: bool,
)
    requires
        addrs_unique(addrs),
    ensures
        addrs_unique(spec_upsert_addr(addrs, kc, idx, script, active)),
        has_addr(spec_upsert_addr(addrs, kc, idx, script, active), kc, idx),
{
    let m = spec_upsert_addr(addrs, kc, idx, script, active);
    if has_addr(addrs, kc, idx) {
        let j = addr_where(addrs, kc, idx);
        assert(m[j].keychain == kc && m[j].index == idx);
        assert(forall|j2: int| 0 <= j2 < m.len() && j2 != j ==> m[j2] == addrs[j2]);
    } else {
        assert(m[m.len() - 1].keychain == kc && m[m.len() - 1].index == idx);
    }
}

/// Law: probing the same script with the same activity twice leaves the
/// tracked addresses exactly as probing once.
pub proof fn lemma_upsert_addr_idempotent(
    addrs: Seq<AddrV>,
    kc: Keychain,
    idx: u32,
    script: Seq<u8>,
    active: bool,
)
    requires
        addrs_unique(addrs),
    ensures
        spec_upsert_addr(spec_upsert_addr(addrs, kc, idx, script, active), kc, idx, script, active)
            == spec_upsert_addr(addrs, kc, idx, script, active),
{
    let m1 = spec_upsert_addr(addrs, kc, idx, script, active);
    lemma_upsert_addr_unique(addrs, kc, idx, script, active);
    let j1 = if has_addr(addrs, kc, idx) {
        addr_where(addrs, kc, idx)
    } else {
        addrs.len() as int
    };
    assert(m1[j1].keychain == kc && m1[j1].index == idx);
    let j2 = addr_where(m1, kc, idx);
    assert(0 <= j2 < m1.len() && m1[j2].keychain == kc && m1[j2].index == idx);
    assert(j2 == j1);
    assert(merged_addr(m1[j1], active) == m1[j1]);
    assert(m1.update(j1, m1[j1]) =~= m1);
}

/// Law: synchronization against an unchanged remote state is idempotent.
/// Reconciling the cache with the same reported state twice leaves it
/// exactly as reconciling once: no duplicate outputs or transactions, no
/// status or balance drift.
pub proof fn lemma_merge_cache_idempotent(
    c: CacheV,
    kc: Keychain,
    idx: u32,
    script: Seq<u8>,
    active: bool,
    ureps: Seq<UtxoReport>,
    treps: Seq<TxRepV>,
)
    requires
        c.wf(),
        ureports_unique(ureps),
        treports_unique(treps),
    ensures
        spec_merge_cache(
            spec_merge_cache(c, kc, idx, script, active, ureps, treps),
            kc,
            idx,
            script,
            active,
            ureps,
            treps,
        ) == spec_merge_cache(c, kc, idx, script, active, ureps, treps),
{
    lemma_upsert_addr_idempotent(c.addrs, kc, idx, script, active);
    lemma_merge_utxos_idempotent(c.utxos, ureps, kc, idx);
    lemma_merge_txs_idempotent(c.txs, treps);
}


// ---- executable reconciliation ----

/// The reported-transaction views of a batch.
pub open spec fn treps_view(s: Seq<TxReport>) -> Seq<TxRepV> {
    s.map_values(|t: TxReport| t@)
}

/// The tracked-transaction views of a list.
pub open spec fn txs_views(s: Seq<WalletTx>) -> Seq<TxV> {
    s.map_values(|t: WalletTx| t@)
}

fn clone_credits(v: &Vec<TxCredit>) -> (r: Vec<TxCredit>)
    ensures
        r@ == v@,
{
    let r = v.clone();
    proof {
        assert forall|i: int| 0 <= i < v@.len() implies r@[i] == v@[i] by {
            assert(cloned::<TxCredit>(v@[i], r@[i]));
        }
        assert(r@ =~= v@);
    }
    r
}

fn clone_debits(v: &Vec<TxDebit>) -> (r: Vec<TxDebit>)
    ensures
        r@ == v@,
{
    let r = v.clone();
    proof {
        assert forall|i: int| 0 <= i < v@.len() implies r@[i] == v@[i] by {
            assert(cloned::<TxDebit>(v@[i], r@[i]));
        }
        assert(r@ =~= v@);
    }
    r
}

/// Looks a reported outpoint up in a batch.
fn find_ureport(rs: &Vec<UtxoReport>, o: Outpoint) -> (r: Option<usize>)
    ensures
        r matches Some(k) ==> 0 <= k < rs@.len() && rs@[k as int].outpoint == o,
        r is None ==> !has_ureport(rs@, o),
{
    let n = rs.len();
    let mut k: usize = 0;
    while k < n
        invariant
            n == rs@.len(),
            0 <= k <= n,
            forall|j: int| 0 <= j < k ==> #[trigger] rs@[j].outpoint != o,
        decreases n - k,
    {
        if rs[k].outpoint.txid.num == o.txid.num && rs[k].outpoint.vout == o.vout {
            assert(rs@[k as int].outpoint == o);
            return Some(k);
        }
        k += 1;
    }
    None
}

/// Looks a reported transaction up in a batch.
fn find_treport(rs: &Vec<TxReport>, t: Txid) -> (r: Option<usize>)
    ensures
        r matches Some(k) ==> 0 <= k < rs@.len() && rs@[k as int].txid == t && has_treport(
            treps_view(rs@),
            t,
        ),
        r is None ==> !has_treport(treps_view(rs@), t),
{
    let n = rs.len();
    let mut k: usize = 0;
    while k < n
        invariant
            n == rs@.len(),
            0 <= k <= n,
            forall|j: int| 0 <= j < k ==> #[trigger] rs@[j].txid != t,
        decreases n - k,
    {
        if rs[k].txid.num == t.num {
            proof {
                assert(treps_view(rs@)[k as int].txid == t);
            }
            return Some(k);
        }
        k += 1;
    }
    proof {
        assert forall|j: int| 0 <= j < treps_view(rs@).len() implies #[trigger] treps_view(
            rs@,
        )[j].txid != t by {
            assert(rs@[j].txid != t);
        }
    }
    None
}

/// Drops all but the first report on each outpoint.
pub open spec fn spec_dedup_ureports(rs: Seq<UtxoReport>) -> Seq<UtxoReport>
    decreases rs.len(),
{
    if rs.len() == 0 {
        Seq::<UtxoReport>::empty()
    } else {
        let pre = spec_dedup_ureports(rs.drop_last());
        if has_ureport(pre, rs.last().outpoint) {
            pre
        } else {
            pre.push(rs.last())
        }
    }
}

/// Drops all but the first report on each transaction.
pub open spec fn spec_dedup_treports(rs: Seq<TxRepV>) -> Seq<TxRepV>
    decreases rs.len(),
{
    if rs.len() == 0 {
        Seq::<TxRepV>::empty()
    } else {
        let pre = spec_dedup_treports(rs.drop_last());
        if has_treport(pre, rs.last().txid) {
            pre
        } else {
            pre.push(rs.last())
        }
    }
}

/// Sanitizes a reported batch: keeps the first report on each outpoint.
pub fn dedup_ureports(rs: Vec<UtxoReport>) -> (r: Vec<UtxoReport>)
    ensures
        r@ == spec_dedup_ureports(rs@),
        ureports_unique(r@),
{
    let n = rs.len();
    let mut out: Vec<UtxoReport> = Vec::new();
    let mut i: usize = 0;
    while i < n
        invariant
            n == rs@.len(),
            0 <= i <= n,
            out@ == spec_dedup_ureports(rs@.take(i as int)),
            ureports_unique(out@),
        decreases n - i,
    {
        proof {
            assert(rs@.take(i + 1 as int).drop_last() =~= rs@.take(i as int));
        }
        match find_ureport(&out, rs[i].outpoint) {
            Some(_) => {
                proof {
                    assert(has_ureport(out@, rs@[i as int].outpoint));
                }
            },
            None => {
                out.push(rs[i]);
            },
        }
        i += 1;
    }
    proof {
        assert(rs@.take(n as int) =~= rs@);
    }
    out
}

/// Sanitizes a reported batch: keeps the first report on each transaction.
pub fn dedup_treports(rs: Vec<TxReport>) -> (r: Vec<TxReport>)
    ensures
        treps_view(r@) == spec_dedup_treports(treps_view(rs@)),
        treports_unique(treps_view(r@)),
{
    let n = rs.len();
    let mut out: Vec<TxReport> = Vec::new();
    let ghost rv = treps_view(rs@);
    let mut rem = rs;
    let mut taken: usize = 0;
    proof {
        assert(treps_view(rem@) =~= rv);
    }
    while taken < n
        invariant
            n == rv.len(),
            0 <= taken <= n,
            rem@.len() == n - taken,
            forall|j: int| 0 <= j < rem@.len() ==> #[trigger] rem@[j]@ == rv[taken + j],
            treps_view(out@) == spec_dedup_treports(rv.take(taken as int)),
            treports_unique(treps_view(out@)),
        decreases n - taken,
    {
        proof {
            assert(rv.take(taken + 1 as int).drop_last() =~= rv.take(taken as int));
            assert(rv.take(taken + 1 as int).last() == rv[taken as int]);
        }
        let next = rem.remove(0);
        proof {
            assert(next@ == rv[taken as int]);
            assert(forall|j: int|
                0 <= j < rem@.len() ==> #[trigger] rem@[j]@ == rv[taken + 1 + j]);
        }
        match find_treport(&out, next.txid) {
            Some(_) => {
                proof {
                    assert(has_treport(treps_view(out@), next@.txid));
                }
            },
            None => {
                let ghost oldv = treps_view(out@);
                out.push(next);
                proof {
                    assert(treps_view(out@) =~= oldv.push(next@));
                    assert forall|j1: int, j2: int|
                        0 <= j1 < j2 < treps_view(out@).len() implies #[trigger] treps_view(
                        out@,
                    )[j1].txid != #[trigger] treps_view(out@)[j2].txid by {
                        if j2 == treps_view(out@).len() - 1 {
                            assert(treps_view(out@)[j1] == oldv[j1]);
                            assert(!has_treport(oldv, next@.txid));
                        }
                    }
                }
            },
        }
        taken += 1;
    }
    proof {
        assert(rv.take(n as int) =~= rv);
    }
    out
}

impl WalletCache {
    /// A fresh, empty mirror.
    pub fn empty() -> (r: WalletCache)
        ensures
            r@.wf(),
            r@.addrs.len() == 0,
            r@.utxos.len() == 0,
            r@.txs.len() == 0,
            r@.tip == 0,
    {
        let r = WalletCache { addrs: Vec::new(), utxos: Vec::new(), txs: Vec::new(), tip: 0 };
        proof {
            assert(r@.addrs =~= Seq::<AddrV>::empty());
            assert(r@.txs =~= Seq::<TxV>::empty());
        }
        r
    }

    /// Position of a tracked address.
    fn find_addr(&self, kc: Keychain, idx: u32) -> (r: Option<usize>)
        ensures
            r matches Some(j) ==> 0 <= j < self@.addrs.len() && self@.addrs[j as int].keychain == kc
                && self@.addrs[j as int].index == idx,
            r is None ==> !has_addr(self@.addrs, kc, idx),
    {
        let n = self.addrs.len();
        let mut j: usize = 0;
        while j < n
            invariant
                n == self.addrs@.len(),
                0 <= j <= n,
                forall|k: int|
                    0 <= k < j ==> !(#[trigger] self@.addrs[k].keychain == kc && self@.addrs[k].index
                        == idx),
            decreases n - j,
        {
            if self.addrs[j].keychain.number == kc.number && self.addrs[j].index == idx {
                assert(self@.addrs[j as int].keychain == kc);
                return Some(j);
            }
            assert(!(self@.addrs[j as int].keychain == kc && self@.addrs[j as int].index == idx));
            j += 1;
        }
        None
    }

    /// Whether a tracked address is recorded Funded.
    fn addr_funded(&self, kc: Keychain, idx: u32) -> (r: bool)
        requires
            addrs_unique(self@.addrs),
        ensures
            r == (has_addr(self@.addrs, kc, idx) && self@.addrs[addr_where(
                self@.addrs,
                kc,
                idx,
            )].status == AddrStatus::Funded),
    {
        match self.find_addr(kc, idx) {
            Some(j) => {
                proof {
                    assert(addr_where(self@.addrs, kc, idx) == j as int);
                }
                match self.addrs[j].status {
                    AddrStatus::Funded => true,
                    AddrStatus::Probed => false,
                }
            },
            None => false,
        }
    }

    /// Position of a tracked outpoint.
    fn find_utxo(&self, o: Outpoint) -> (r: Option<usize>)
        ensures
            r matches Some(j) ==> 0 <= j < self@.utxos.len() && self@.utxos[j as int].outpoint == o,
            r is None ==> !has_utxo(self@.utxos, o),
    {
        let n = self.utxos.len();
        let mut j: usize = 0;
        while j < n
            invariant
                n == self.utxos@.len(),
                0 <= j <= n,
                forall|k: int| 0 <= k < j ==> #[trigger] self@.utxos[k].outpoint != o,
            decreases n - j,
        {
            if self.utxos[j].outpoint.txid.num == o.txid.num && self.utxos[j].outpoint.vout == o.vout {
                assert(self@.utxos[j as int].outpoint == o);
                return Some(j);
            }
            j += 1;
        }
        None
    }

    /// Position of a tracked transaction.
    fn find_tx(&self, t: Txid) -> (r: Option<usize>)
        ensures
            r matches Some(j) ==> 0 <= j < self@.txs.len() && self@.txs[j as int].txid == t,
            r is None ==> !has_tx(self@.txs, t),
    {
        let n = self.txs.len();
        let mut j: usize = 0;
        while j < n
            invariant
                n == self.txs@.len(),
                0 <= j <= n,
                forall|k: int| 0 <= k < j ==> #[trigger] self@.txs[k].txid != t,
            decreases n - j,
        {
            if self.txs[j].txid.num == t.num {
                assert(self@.txs[j as int].txid == t);
                return Some(j);
            }
            assert(self@.txs[j as int].txid != t);
            j += 1;
        }
        None
    }
}


impl WalletCache {
    /// Reconciles the cache with what the data source reported for one
    /// probed script: the address record is inserted or promoted, reported
    /// outputs are merged or inserted, reported transactions are merged or
    /// inserted; nothing is ever deleted. Atomic per probe: the cache moves
    /// to exactly the merged state.
    #[verifier::rlimit(100)]
    #[verifier::spinoff_prover]
    pub fn merge_script_state(
        &mut self,
        kc: Keychain,
        idx: u32,
        script: Vec<u8>,
        ureps: &Vec<UtxoReport>,
        treps: &Vec<TxReport>,
    )
        requires
            old(self)@.wf(),
            ureports_unique(ureps@),
            treports_unique(treps_view(treps@)),
            has_addr(old(self)@.addrs, kc, idx) || idx == addr_count(old(self)@.addrs, kc),
        ensures
            final(self)@ == spec_merge_cache(
                old(self)@,
                kc,
                idx,
                script@,
                ureps@.len() > 0 || treps@.len() > 0,
                ureps@,
                treps_view(treps@),
            ),
            final(self)@.wf(),
    {
        let ghost c0 = self@;
        let active = ureps.len() > 0 || treps.len() > 0;
        // address upsert
        match self.find_addr(kc, idx) {
            Some(j) => {
                proof {
                    assert(addr_where(c0.addrs, kc, idx) == j as int);
                }
                let st: AddrStatus = match self.addrs[j].status {
                    AddrStatus::Funded => AddrStatus::Funded,
                    AddrStatus::Probed => if active {
                        AddrStatus::Funded
                    } else {
                        AddrStatus::Probed
                    },
                };
                self.addrs[j].status = st;
                proof {
                    assert(self@.addrs =~= spec_upsert_addr(c0.addrs, kc, idx, script@, active));
                }
            },
            None => {
                let status = if active {
                    AddrStatus::Funded
                } else {
                    AddrStatus::Probed
                };
                self.addrs.push(WalletAddr { keychain: kc, index: idx, script, status });
                proof {
                    assert(self@.addrs =~= spec_upsert_addr(c0.addrs, kc, idx, script@, active));
                }
            },
        }
        proof {
            lemma_upsert_addr_unique(c0.addrs, kc, idx, script@, active);
        }
        // unspent outputs
        let n = self.utxos.len();
        let mut merged: Vec<WalletUtxo> = Vec::new();
        let mut j: usize = 0;
        while j < n
            invariant
                n == self.utxos@.len(),
                0 <= j <= n,
                merged@.len() == j,
                ureports_unique(ureps@),
                forall|m: int|
                    0 <= m < j ==> #[trigger] merged@[m] == if has_ureport(
                        ureps@,
                        self@.utxos[m].outpoint,
                    ) {
                        merge_utxo_val(self@.utxos[m], ureport_for(ureps@, self@.utxos[m].outpoint))
                    } else {
                        self@.utxos[m]
                    },
            decreases n - j,
        {
            match find_ureport(ureps, self.utxos[j].outpoint) {
                Some(k) => {
                    proof {
                        lemma_ureport_for_at(ureps@, k as int);
                    }
                    let old_u = self.utxos[j];
                    let r = ureps[k];
                    let status: UtxoStatus = match r.spent_by {
                        Some(t) => UtxoStatus::Spent(t),
                        None => match old_u.status {
                            UtxoStatus::Spent(t0) => UtxoStatus::Spent(t0),
                            UtxoStatus::Unspent => UtxoStatus::Unspent,
                        },
                    };
                    merged.push(
                        WalletUtxo {
                            outpoint: old_u.outpoint,
                            value: r.value,
                            keychain: old_u.keychain,
                            index: old_u.index,
                            status,
                            tag: old_u.tag,
                        },
                    );
                },
                None => {
                    merged.push(self.utxos[j]);
                },
            }
            j += 1;
        }
        let m = ureps.len();
        let mut t: usize = 0;
        while t < m
            invariant
                m == ureps@.len(),
                0 <= t <= m,
                n == self.utxos@.len(),
                merged@ == Seq::new(
                    self@.utxos.len(),
                    |j: int|
                        if has_ureport(ureps@, self@.utxos[j].outpoint) {
                            merge_utxo_val(
                                self@.utxos[j],
                                ureport_for(ureps@, self@.utxos[j].outpoint),
                            )
                        } else {
                            self@.utxos[j]
                        },
                ) + new_ureports(self@.utxos, ureps@.take(t as int)).map_values(
                    |r: UtxoReport| fresh_utxo(r, kc, idx),
                ),
            decreases m - t,
        {
            proof {
                assert(ureps@.take(t + 1 as int).drop_last() =~= ureps@.take(t as int));
            }
            let r = ureps[t];
            match self.find_utxo(r.outpoint) {
                Some(_) => {
                    proof {
                        assert(new_ureports(self@.utxos, ureps@.take(t + 1 as int))
                            =~= new_ureports(self@.utxos, ureps@.take(t as int)));
                    }
                },
                None => {
                    let status: UtxoStatus = match r.spent_by {
                        Some(tt) => UtxoStatus::Spent(tt),
                        None => UtxoStatus::Unspent,
                    };
                    merged.push(
                        WalletUtxo {
                            outpoint: r.outpoint,
                            value: r.value,
                            keychain: kc,
                            index: idx,
                            status,
                            tag: None,
                        },
                    );
                    proof {
                        assert(merged@.last() == fresh_utxo(r, kc, idx));
                        assert(new_ureports(self@.utxos, ureps@.take(t + 1 as int))
                            =~= new_ureports(self@.utxos, ureps@.take(t as int)).push(r));
                        assert(merged@ =~= Seq::new(
                            self@.utxos.len(),
                            |j: int|
                                if has_ureport(ureps@, self@.utxos[j].outpoint) {
                                    merge_utxo_val(
                                        self@.utxos[j],
                                        ureport_for(ureps@, self@.utxos[j].outpoint),
                                    )
                                } else {
                                    self@.utxos[j]
                                },
                        ) + new_ureports(self@.utxos, ureps@.take(t + 1 as int)).map_values(
                            |r2: UtxoReport| fresh_utxo(r2, kc, idx),
                        ));
                    }
                },
            }
            t += 1;
        }
        proof {
            assert(ureps@.take(m as int) =~= ureps@);
        }
        self.utxos = merged;
        // transactions
        let ghost txs0 = self@.txs;
        let ghost trv = treps_view(treps@);
        let tn = self.txs.len();
        let mut tmerged: Vec<WalletTx> = Vec::new();
        let mut j2: usize = 0;
        while j2 < tn
            invariant
                tn == self.txs@.len(),
                txs0 == self@.txs,
                trv == treps_view(treps@),
                treps@.len() == trv.len(),
                forall|k: int| 0 <= k < trv.len() ==> #[trigger] trv[k] == treps@[k]@,
                0 <= j2 <= tn,
                tmerged@.len() == j2,
                treports_unique(trv),
                forall|mm: int|
                    0 <= mm < j2 ==> #[trigger] tmerged@[mm]@ == if has_treport(
                        trv,
                        txs0[mm].txid,
                    ) {
                        merge_tx_val(txs0[mm], treport_for(trv, txs0[mm].txid))
                    } else {
                        txs0[mm]
                    },
            decreases tn - j2,
        {
            match find_treport(treps, self.txs[j2].txid) {
                Some(k) => {
                    proof {
                        lemma_treport_for_at(trv, k as int);
                        assert(trv[k as int] == treps@[k as int]@);
                    }
                    let old_status = self.txs[j2].status;
                    let status: TxStatus = match treps[k].height {
                        Some(h) => TxStatus::Confirmed(h),
                        None => match old_status {
                            TxStatus::Confirmed(h0) => TxStatus::Confirmed(h0),
                            TxStatus::Unconfirmed => TxStatus::Unconfirmed,
                        },
                    };
                    let row = WalletTx {
                        txid: self.txs[j2].txid,
                        status,
                        fee: treps[k].fee,
                        credits: clone_credits(&treps[k].credits),
                        debits: clone_debits(&treps[k].debits),
                    };
                    tmerged.push(row);
                    proof {
                        assert(tmerged@.last()@ == merge_tx_val(
                            txs0[j2 as int],
                            treport_for(trv, txs0[j2 as int].txid),
                        ));
                    }
                },
                None => {
                    let row = WalletTx {
                        txid: self.txs[j2].txid,
                        status: self.txs[j2].status,
                        fee: self.txs[j2].fee,
                        credits: clone_credits(&self.txs[j2].credits),
                        debits: clone_debits(&self.txs[j2].debits),
                    };
                    tmerged.push(row);
                    proof {
                        assert(tmerged@.last()@ == txs0[j2 as int]);
                    }
                },
            }
            j2 += 1;
        }
        let tm = treps.len();
        let mut t2: usize = 0;
        while t2 < tm
            invariant
                tm == treps@.len(),
                txs0 == self@.txs,
                trv == treps_view(treps@),
                trv.len() == tm,
                forall|k: int| 0 <= k < trv.len() ==> #[trigger] trv[k] == treps@[k]@,
                0 <= t2 <= tm,
                tn == self.txs@.len(),
                txs_views(tmerged@) == Seq::new(
                    txs0.len(),
                    |j: int|
                        if has_treport(trv, txs0[j].txid) {
                            merge_tx_val(txs0[j], treport_for(trv, txs0[j].txid))
                        } else {
                            txs0[j]
                        },
                ) + new_treports(txs0, trv.take(t2 as int)).map_values(|r: TxRepV| fresh_tx(r)),
            decreases tm - t2,
        {
            proof {
                assert(trv.take(t2 + 1 as int).drop_last() =~= trv.take(t2 as int));
                assert(trv.take(t2 + 1 as int).last() == trv[t2 as int]);
            }
            match self.find_tx(treps[t2].txid) {
                Some(_) => {
                    proof {
                        assert(has_tx(txs0, trv[t2 as int].txid));
                        assert(new_treports(txs0, trv.take(t2 + 1 as int)) =~= new_treports(
                            txs0,
                            trv.take(t2 as int),
                        ));
                    }
                },
                None => {
                    let status: TxStatus = match treps[t2].height {
                        Some(h) => TxStatus::Confirmed(h),
                        None => TxStatus::Unconfirmed,
                    };
                    let row = WalletTx {
                        txid: treps[t2].txid,
                        status,
                        fee: treps[t2].fee,
                        credits: clone_credits(&treps[t2].credits),
                        debits: clone_debits(&treps[t2].debits),
                    };
                    let ghost pre = txs_views(tmerged@);
                    let ghost base = Seq::new(
                        txs0.len(),
                        |j: int|
                            if has_treport(trv, txs0[j].txid) {
                                merge_tx_val(txs0[j], treport_for(trv, txs0[j].txid))
                            } else {
                                txs0[j]
                            },
                    );
                    tmerged.push(row);
                    proof {
                        assert(!has_tx(txs0, trv[t2 as int].txid));
                        assert(row@ == fresh_tx(trv[t2 as int]));
                        assert(new_treports(txs0, trv.take(t2 + 1 as int)) =~= new_treports(
                            txs0,
                            trv.take(t2 as int),
                        ).push(trv[t2 as int]));
                        assert(txs_views(tmerged@) =~= pre.push(row@));
                        assert(new_treports(txs0, trv.take(t2 + 1 as int)).map_values(
                            |r: TxRepV| fresh_tx(r),
                        ) =~= new_treports(txs0, trv.take(t2 as int)).map_values(
                            |r: TxRepV| fresh_tx(r),
                        ).push(fresh_tx(trv[t2 as int])));
                        assert(pre.push(row@) =~= base + new_treports(
                            txs0,
                            trv.take(t2 + 1 as int),
                        ).map_values(|r: TxRepV| fresh_tx(r)));
                    }
                },
            }
            t2 += 1;
        }
        proof {
            assert(trv.take(tm as int) =~= trv);
        }
        self.txs = tmerged;
        proof {
            assert(self@.utxos =~= spec_merge_utxos(c0.utxos, ureps@, kc, idx));
            assert(self@.txs =~= spec_merge_txs(c0.txs, trv));
            assert(self@ == spec_merge_cache(c0, kc, idx, script@, active, ureps@, trv));
            lemma_merged_cache_wf(c0, kc, idx, script@, active, ureps@, trv);
        }
    }
}

/// The merged cache keeps every invariant of the mirror.
pub proof fn lemma_merged_cache_wf(
    c: CacheV,
    kc: Keychain,
    idx: u32,
    script: Seq<u8>,
    active: bool,
    ureps: Seq<UtxoReport>,
    treps: Seq<TxRepV>,
)
    requires
        c.wf(),
        ureports_unique(ureps),
        treports_unique(treps),
        has_addr(c.addrs, kc, idx) || idx == addr_count(c.addrs, kc),
    ensures
        spec_merge_cache(c, kc, idx, script, active, ureps, treps).wf(),
{
    let mc = spec_merge_cache(c, kc, idx, script, active, ureps, treps);
    lemma_upsert_addr_unique(c.addrs, kc, idx, script, active);
    // contiguity of addresses
    assert forall|kc2: Keychain| true implies addr_count(mc.addrs, kc2) == addr_count(c.addrs, kc2)
        + if !has_addr(c.addrs, kc, idx) && kc2 == kc {
        1int
    } else {
        0int
    } by {
        if has_addr(c.addrs, kc, idx) {
            let j = addr_where(c.addrs, kc, idx);
            lemma_addr_count_update(c.addrs, j, merged_addr(c.addrs[j], active), kc2);
        } else {
            assert(mc.addrs.drop_last() =~= c.addrs);
        }
    }
    assert forall|j: int| 0 <= j < mc.addrs.len() implies #[trigger] mc.addrs[j].index
        < addr_count(mc.addrs, mc.addrs[j].keychain) by {
        if has_addr(c.addrs, kc, idx) {
            let jw = addr_where(c.addrs, kc, idx);
            assert(mc.addrs[j].keychain == c.addrs[j].keychain);
            assert(mc.addrs[j].index == c.addrs[j].index);
        } else {
            if j < c.addrs.len() {
                assert(mc.addrs[j] == c.addrs[j]);
            } else {
                assert(mc.addrs[j].index == idx && mc.addrs[j].keychain == kc);
            }
        }
    }
    assert forall|kc2: Keychain, i: u32| 0 <= i < addr_count(mc.addrs, kc2) implies #[trigger]
        has_addr(mc.addrs, kc2, i) by {
        if !has_addr(c.addrs, kc, idx) && kc2 == kc && i == idx {
            assert(mc.addrs[mc.addrs.len() - 1].keychain == kc && mc.addrs[mc.addrs.len()
                - 1].index == idx);
        } else {
            assert(has_addr(c.addrs, kc2, i));
            let w = choose|w: int|
                0 <= w < c.addrs.len() && #[trigger] c.addrs[w].keychain == kc2 && c.addrs[w].index
                    == i;
            assert(mc.addrs[w].keychain == kc2 && mc.addrs[w].index == i);
        }
    }
    // outputs: unique outpoints, owners tracked
    let upd = Seq::new(
        c.utxos.len(),
        |j: int|
            if has_ureport(ureps, c.utxos[j].outpoint) {
                merge_utxo_val(c.utxos[j], ureport_for(ureps, c.utxos[j].outpoint))
            } else {
                c.utxos[j]
            },
    );
    let nr = new_ureports(c.utxos, ureps);
    lemma_new_ureports_props(c.utxos, ureps);
    assert(forall|j: int| 0 <= j < c.utxos.len() ==> #[trigger] mc.utxos[j].outpoint
        == c.utxos[j].outpoint && mc.utxos[j].keychain == c.utxos[j].keychain && mc.utxos[j].index
        == c.utxos[j].index);
    assert(forall|k: int| 0 <= k < nr.len() ==> #[trigger] mc.utxos[c.utxos.len() + k].outpoint
        == nr[k].outpoint && mc.utxos[c.utxos.len() + k].keychain == kc && mc.utxos[c.utxos.len()
        + k].index == idx);
    assert forall|j1: int, j2: int| 0 <= j1 < j2 < mc.utxos.len() implies #[trigger]
        mc.utxos[j1].outpoint != #[trigger] mc.utxos[j2].outpoint by {
        if j1 < c.utxos.len() && j2 >= c.utxos.len() {
            assert(!has_utxo(c.utxos, nr[j2 - c.utxos.len()].outpoint));
        }
        if j1 >= c.utxos.len() {
            assert(ureports_unique(nr));
        }
    }
    assert(has_addr(mc.addrs, kc, idx));
    assert forall|j: int| 0 <= j < mc.utxos.len() implies has_addr(
        mc.addrs,
        #[trigger] mc.utxos[j].keychain,
        mc.utxos[j].index,
    ) by {
        if j < c.utxos.len() {
            assert(has_addr(c.addrs, c.utxos[j].keychain, c.utxos[j].index));
            let w = choose|w: int|
                0 <= w < c.addrs.len() && #[trigger] c.addrs[w].keychain == c.utxos[j].keychain
                    && c.addrs[w].index == c.utxos[j].index;
            assert(mc.addrs[w].keychain == c.utxos[j].keychain && mc.addrs[w].index
                == c.utxos[j].index);
        }
    }
    // transactions: unique ids
    let ntr = new_treports(c.txs, treps);
    lemma_new_treports_props(c.txs, treps);
    assert(forall|j: int| 0 <= j < c.txs.len() ==> #[trigger] mc.txs[j].txid == c.txs[j].txid);
    assert(forall|k: int| 0 <= k < ntr.len() ==> #[trigger] mc.txs[c.txs.len() + k].txid
        == ntr[k].txid);
    assert forall|j1: int, j2: int| 0 <= j1 < j2 < mc.txs.len() implies #[trigger] mc.txs[j1].txid
        != #[trigger] mc.txs[j2].txid by {
        if j1 < c.txs.len() && j2 >= c.txs.len() {
            assert(!has_tx(c.txs, ntr[j2 - c.txs.len()].txid));
        }
        if j1 >= c.txs.len() {
            assert(treports_unique(ntr));
        }
    }
}

/// An address count is never negative.
pub proof fn lemma_addr_count_nonneg(addrs: Seq<AddrV>, kc: Keychain)
    ensures
        addr_count(addrs, kc) >= 0,
    decreases addrs.len(),
{
    if addrs.len() > 0 {
        lemma_addr_count_nonneg(addrs.drop_last(), kc);
    }
}

/// One probe leaves every other keychain's address count unchanged, and the
/// probed keychain's count grows exactly when the probed index was new.
pub proof fn lemma_addr_count_update(addrs: Seq<AddrV>, j: int, a: AddrV, kc: Keychain)
    requires
        0 <= j < addrs.len(),
        a.keychain == addrs[j].keychain,
    ensures
        addr_count(addrs.update(j, a), kc) == addr_count(addrs, kc),
    decreases addrs.len(),
{
    if j == addrs.len() - 1 {
        assert(addrs.update(j, a).drop_last() =~= addrs.drop_last());
    } else {
        assert(addrs.update(j, a).drop_last() =~= addrs.drop_last().update(j, a));
        lemma_addr_count_update(addrs.drop_last(), j, a, kc);
    }
}


// ---- sync engine ----

/// Failure of one data-source call, collected during sync, never raised.
#[derive(Clone, Copy, PartialEq, Eq, Structural, Debug)]
pub struct IndexerError {
    pub code: u64,
}

/// The abstract chain-data source the sync engine consumes. Every operation
/// may fail independently; sync treats each failure as non-fatal but
/// recorded. Implementations live outside the library.
pub trait Indexer {
    /// Unspent (and newly spent) outputs paying the given script.
    fn fetch_utxos(&self, script: &Vec<u8>) -> Result<Vec<UtxoReport>, IndexerError>;

    /// Transaction history touching the given script.
    fn fetch_history(&self, script: &Vec<u8>) -> Result<Vec<TxReport>, IndexerError>;

    /// One transaction by id.
    fn fetch_tx(&self, txid: Txid) -> Result<TxReport, IndexerError>;

    /// Current fee estimate per input.
    fn estimate_fee(&self) -> Result<u64, IndexerError>;

    /// Hands a serialized transaction to the network.
    fn broadcast(&self, tx: &Vec<u8>) -> Result<(), IndexerError>;
}

/// The larger of a recorded maximum and a new index.
pub open spec fn opt_max(m: Option<u32>, i: u32) -> Option<u32> {
    match m {
        None => Some(i),
        Some(f) => if i > f {
            Some(i)
        } else {
            Some(f)
        },
    }
}

/// How far a keychain is probed: one full gap window past the highest
/// funded index.
pub open spec fn probe_bound(lf: Option<u32>, gap_limit: u32) -> int {
    match lf {
        None => gap_limit as int,
        Some(f) => f as int + 1 + gap_limit as int,
    }
}

proof fn lemma_max_funded_update(addrs: Seq<AddrV>, j: int, a: AddrV, kc: Keychain)
    requires
        0 <= j < addrs.len(),
        a.keychain == addrs[j].keychain,
        a.index == addrs[j].index,
        addrs[j].status == AddrStatus::Funded ==> a.status == AddrStatus::Funded,
    ensures
        a.status == addrs[j].status ==> max_funded(addrs.update(j, a), kc) == max_funded(addrs, kc),
        a.status == AddrStatus::Funded && addrs[j].status == AddrStatus::Probed && a.keychain == kc
            ==> max_funded(addrs.update(j, a), kc) == opt_max(max_funded(addrs, kc), a.index),
        a.status == AddrStatus::Funded && addrs[j].status == AddrStatus::Probed && a.keychain != kc
            ==> max_funded(addrs.update(j, a), kc) == max_funded(addrs, kc),
    decreases addrs.len(),
{
    if j == addrs.len() - 1 {
        assert(addrs.update(j, a).drop_last() =~= addrs.drop_last());
    } else {
        assert(addrs.update(j, a).drop_last() =~= addrs.drop_last().update(j, a));
        lemma_max_funded_update(addrs.drop_last(), j, a, kc);
    }
}

/// After one probe, the highest funded index of the probed keychain is the
/// old one joined with the probed index when the probe ends Funded, and is
/// unchanged otherwise; other keychains keep theirs.
pub proof fn lemma_upsert_max_funded(
    addrs: Seq<AddrV>,
    kc: Keychain,
    idx: u32,
    script: Seq<u8>,
    active: bool,
    kc2: Keychain,
)
    requires
        addrs_unique(addrs),
        has_addr(addrs, kc, idx) || idx == addr_count(addrs, kc),
    ensures
        ({
            let was = has_addr(addrs, kc, idx) && addrs[addr_where(addrs, kc, idx)].status
                == AddrStatus::Funded;
            let m2 = max_funded(spec_upsert_addr(addrs, kc, idx, script, active), kc2);
            if kc2 == kc && (active || was) {
                m2 == opt_max(max_funded(addrs, kc2), idx)
            } else {
                m2 == max_funded(addrs, kc2)
            }
        }),
{
    if has_addr(addrs, kc, idx) {
        let j = addr_where(addrs, kc, idx);
        let a = merged_addr(addrs[j], active);
        lemma_max_funded_update(addrs, j, a, kc2);
        if addrs[j].status == AddrStatus::Funded && kc2 == kc {
            lemma_max_funded_at(addrs, j, kc2);
        }
    } else {
        let m = spec_upsert_addr(addrs, kc, idx, script, active);
        assert(m.drop_last() =~= addrs);
    }
}

/// A funded entry bounds the recorded maximum from below.
proof fn lemma_max_funded_at(addrs: Seq<AddrV>, j: int, kc: Keychain)
    requires
        0 <= j < addrs.len(),
        addrs[j].keychain == kc,
        addrs[j].status == AddrStatus::Funded,
    ensures
        max_funded(addrs, kc) matches Some(f) && f >= addrs[j].index,
    decreases addrs.len(),
{
    if j == addrs.len() - 1 {
    } else {
        lemma_max_funded_at(addrs.drop_last(), j, kc);
    }
}

impl WalletCache {
    /// The highest index recorded Funded under a keychain.
    pub fn highest_funded(&self, kc: Keychain) -> (r: Option<u32>)
        ensures
            r == max_funded(self@.addrs, kc),
    {
        let n = self.addrs.len();
        let mut r: Option<u32> = None;
        let mut j: usize = 0;
        while j < n
            invariant
                n == self.addrs@.len(),
                0 <= j <= n,
                r == max_funded(self@.addrs.take(j as int), kc),
            decreases n - j,
        {
            proof {
                assert(self@.addrs.take(j + 1 as int).drop_last() =~= self@.addrs.take(j as int));
                assert(self@.addrs.take(j + 1 as int).last() == self@.addrs[j as int]);
            }
            let funded = match self.addrs[j].status {
                AddrStatus::Funded => true,
                AddrStatus::Probed => false,
            };
            if funded && self.addrs[j].keychain.number == kc.number {
                assert(self@.addrs[j as int].keychain == kc);
                let i = self.addrs[j].index;
                r = match r {
                    None => Some(i),
                    Some(f) => if i > f {
                        Some(i)
                    } else {
                        Some(f)
                    },
                };
            }
            j += 1;
        }
        proof {
            assert(self@.addrs.take(n as int) =~= self@.addrs);
        }
        r
    }

    /// How many addresses a keychain has probed.
    pub fn keychain_addr_count(&self, kc: Keychain) -> (r: usize)
        ensures
            r == addr_count(self@.addrs, kc),
    {
        let n = self.addrs.len();
        let mut c: usize = 0;
        let mut j: usize = 0;
        while j < n
            invariant
                n == self.addrs@.len(),
                0 <= j <= n,
                c <= j,
                c == addr_count(self@.addrs.take(j as int), kc),
            decreases n - j,
        {
            proof {
                assert(self@.addrs.take(j + 1 as int).drop_last() =~= self@.addrs.take(j as int));
                assert(self@.addrs.take(j + 1 as int).last() == self@.addrs[j as int]);
            }
            if self.addrs[j].keychain.number == kc.number {
                assert(self@.addrs[j as int].keychain == kc);
                c += 1;
            }
            j += 1;
        }
        proof {
            assert(self@.addrs.take(n as int) =~= self@.addrs);
        }
        c
    }
}

/// Synchronizes one keychain: probes addresses from index zero upward,
/// keeping a sliding window of `gap_limit` unprobed-beyond-funded addresses,
/// merging each probe's reported state, and recording (never raising) every
/// data-source failure. Already-merged probes stay committed whatever later
/// probes report.
#[verifier::rlimit(100)]
#[verifier::spinoff_prover]
pub fn sync_keychain<I: Indexer>(
    cache: &mut WalletCache,
    descr: &crate::descriptors::WalletDescr,
    kc: Keychain,
    gap_limit: u32,
    indexer: &I,
    errors: &mut Vec<IndexerError>,
)
    requires
        old(cache)@.wf(),
        descr.wf(),
        descr.spec_has_keychain(kc),
        gap_limit >= 1,
    ensures
        final(cache)@.wf(),
        final(cache)@.tip == old(cache)@.tip,
        cache_monotone(old(cache)@, final(cache)@),
        final(errors)@.len() >= old(errors)@.len(),
        forall|k: int|
            0 <= k < old(errors)@.len() ==> #[trigger] final(errors)@[k] == old(errors)@[k],
        forall|kc2: Keychain|
            kc2 != kc ==> addr_count(final(cache)@.addrs, kc2) == addr_count(
                old(cache)@.addrs,
                kc2,
            ) && max_funded(final(cache)@.addrs, kc2) == max_funded(old(cache)@.addrs, kc2),
        addr_count(final(cache)@.addrs, kc) == window_target(
            addr_count(old(cache)@.addrs, kc),
            max_funded(final(cache)@.addrs, kc),
            gap_limit,
        ),
{
    let ghost oc = addr_count(old(cache)@.addrs, kc);
    proof {
        lemma_addr_count_nonneg(old(cache)@.addrs, kc);
        lemma_cache_monotone_refl(old(cache)@);
    }
    let mut lf: Option<u32> = cache.highest_funded(kc);
    let mut i: u64 = 0;
    loop
        invariant
            cache@.wf(),
            cache@.tip == old(cache)@.tip,
            descr.wf(),
            descr.spec_has_keychain(kc),
            gap_limit >= 1,
            lf == max_funded(cache@.addrs, kc),
            0 <= i <= 0x1_0000_0000,
            i <= probe_bound(lf, gap_limit),
            addr_count(cache@.addrs, kc) == if oc > i as int {
                oc
            } else {
                i as int
            },
            cache_monotone(old(cache)@, cache@),
            errors@.len() >= old(errors)@.len(),
            forall|k: int|
                0 <= k < old(errors)@.len() ==> #[trigger] errors@[k] == old(errors)@[k],
            forall|kc2: Keychain|
                kc2 != kc ==> addr_count(cache@.addrs, kc2) == addr_count(old(cache)@.addrs, kc2)
                    && max_funded(cache@.addrs, kc2) == max_funded(old(cache)@.addrs, kc2),
        ensures
            cache@.wf(),
            cache@.tip == old(cache)@.tip,
            lf == max_funded(cache@.addrs, kc),
            addr_count(cache@.addrs, kc) == if oc > i as int {
                oc
            } else {
                i as int
            },
            cache_monotone(old(cache)@, cache@),
            errors@.len() >= old(errors)@.len(),
            forall|k: int|
                0 <= k < old(errors)@.len() ==> #[trigger] errors@[k] == old(errors)@[k],
            forall|kc2: Keychain|
                kc2 != kc ==> addr_count(cache@.addrs, kc2) == addr_count(old(cache)@.addrs, kc2)
                    && max_funded(cache@.addrs, kc2) == max_funded(old(cache)@.addrs, kc2),
            i == probe_bound(lf, gap_limit) || (i == 0x1_0000_0000 && probe_bound(lf, gap_limit)
                >= 0x1_0000_0000),
        decreases 0x1_0000_0000 - i,
    {
        let bound: u64 = match lf {
            None => gap_limit as u64,
            Some(f) => f as u64 + 1 + gap_limit as u64,
        };
        if !(i < bound && i < 0x1_0000_0000) {
            proof {
                assert(i == probe_bound(lf, gap_limit) || i == 0x1_0000_0000);
            }
            break;
        }
        let idx = i as u32;
        let script = descr.derive(kc, idx);
        let ureps = match indexer.fetch_utxos(&script) {
            Ok(v) => dedup_ureports(v),
            Err(e) => {
                errors.push(e);
                Vec::new()
            },
        };
        let treps = match indexer.fetch_history(&script) {
            Ok(v) => dedup_treports(v),
            Err(e) => {
                errors.push(e);
                Vec::new()
            },
        };
        proof {
            assert(ureports_unique(ureps@)) by {
                assert(ureps@.len() == 0 || ureports_unique(ureps@));
            }
            assert(treports_unique(treps_view(treps@))) by {
                if treps@.len() == 0 {
                    assert(treps_view(treps@) =~= Seq::<TxRepV>::empty());
                }
            }
            if (i as int) < addr_count(cache@.addrs, kc) {
                assert(has_addr(cache@.addrs, kc, idx));
            } else {
                assert((i as int) == addr_count(cache@.addrs, kc));
            }
        }
        let was_funded = cache.addr_funded(kc, idx);
        let ghost pre = cache@;
        let active = ureps.len() > 0 || treps.len() > 0;
        cache.merge_script_state(kc, idx, script, &ureps, &treps);
        proof {
            lemma_merge_cache_monotone(
                pre,
                kc,
                idx,
                script@,
                active,
                ureps@,
                treps_view(treps@),
            );
            lemma_cache_monotone_trans(old(cache)@, pre, cache@);
            lemma_upsert_addr_unique(pre.addrs, kc, idx, script@, active);
            assert forall|kc2: Keychain| true implies addr_count(cache@.addrs, kc2) == addr_count(
                pre.addrs,
                kc2,
            ) + if !has_addr(pre.addrs, kc, idx) && kc2 == kc {
                1int
            } else {
                0int
            } by {
                if has_addr(pre.addrs, kc, idx) {
                    let j = addr_where(pre.addrs, kc, idx);
                    lemma_addr_count_update(pre.addrs, j, merged_addr(pre.addrs[j], active), kc2);
                } else {
                    assert(cache@.addrs.drop_last() =~= pre.addrs);
                }
            }
            assert forall|kc2: Keychain| true implies (if kc2 == kc && (active || was_funded) {
                max_funded(cache@.addrs, kc2) == opt_max(max_funded(pre.addrs, kc2), idx)
            } else {
                max_funded(cache@.addrs, kc2) == max_funded(pre.addrs, kc2)
            }) by {
                lemma_upsert_max_funded(pre.addrs, kc, idx, script@, active, kc2);
            }
        }
        if active || was_funded {
            lf = match lf {
                None => Some(idx),
                Some(f) => if idx > f {
                    Some(idx)
                } else {
                    Some(f)
                },
            };
        }
        i = i + 1;
    }
}


impl WalletCache {
    /// Whether the base cache tracks an outpoint (unspent, or historically
    /// present).
    pub fn knows_outpoint(&self, o: Outpoint) -> (r: bool)
        ensures
            r == has_utxo(self@.utxos, o),
    {
        match self.find_utxo(o) {
            Some(_) => true,
            None => false,
        }
    }
}

// ---- derived wallet data ----

/// One ordered-history row: a tracked transaction's identity, status and fee.
#[derive(Clone, Copy, PartialEq, Eq, Structural, Debug)]
pub struct TxRow {
    pub txid: Txid,
    pub status: TxStatus,
    pub fee: u64,
}

/// Native balance of one keychain: the sum of its unspent output values.
pub open spec fn balance_of(utxos: Seq<WalletUtxo>, kc: Keychain) -> int
    decreases utxos.len(),
{
    if utxos.len() == 0 {
        0
    } else {
        balance_of(utxos.drop_last(), kc) + if utxos.last().keychain == kc
            && utxos.last().status == UtxoStatus::Unspent {
            utxos.last().value as int
        } else {
            0
        }
    }
}

/// The history row of a tracked transaction.
pub open spec fn row_of(t: TxV) -> TxRow {
    TxRow { txid: t.txid, status: t.status, fee: t.fee }
}

/// Sort key of a history row: confirmed rows first by height, unconfirmed
/// rows last, ties broken by transaction id.
pub open spec fn row_key(r: TxRow) -> (int, int) {
    (
        match r.status {
            TxStatus::Confirmed(h) => h as int,
            TxStatus::Unconfirmed => 0x1_0000_0000int,
        },
        r.txid.num as int,
    )
}

/// Lexicographic order on row keys.
pub open spec fn row_le(a: TxRow, b: TxRow) -> bool {
    row_key(a).0 < row_key(b).0 || (row_key(a).0 == row_key(b).0 && row_key(a).1 <= row_key(b).1)
}

/// The history is ordered: confirmed rows ascending by height, unconfirmed
/// rows at the end.
pub open spec fn rows_sorted(rows: Seq<TxRow>) -> bool {
    forall|i: int, j: int| 0 <= i < j < rows.len() ==> row_le(#[trigger] rows[i], #[trigger] rows[j])
}

/// Whether `rows` holds exactly one row per transaction of `txs`.
pub open spec fn rows_match(rows: Seq<TxRow>, txs: Seq<TxV>) -> bool {
    &&& rows.len() == txs.len()
    &&& (forall|k: int| 0 <= k < txs.len() ==> rows.contains(row_of(#[trigger] txs[k])))
    &&& (forall|k: int| 0 <= k < rows.len() ==> exists|m: int|
        0 <= m < txs.len() && #[trigger] rows[k] == row_of(txs[m]))
}

/// Inserts a row at its ordered position.
fn insert_row(rows: &mut Vec<TxRow>, row: TxRow)
    requires
        rows_sorted(old(rows)@),
    ensures
        rows_sorted(final(rows)@),
        final(rows)@.len() == old(rows)@.len() + 1,
        final(rows)@.contains(row),
        forall|k: int|
            0 <= k < old(rows)@.len() ==> final(rows)@.contains(#[trigger] old(rows)@[k]),
        forall|k: int|
            0 <= k < final(rows)@.len() ==> #[trigger] final(rows)@[k] == row || old(
                rows,
            )@.contains(final(rows)@[k]),
{
    let n = rows.len();
    let mut pos: usize = 0;
    loop
        invariant
            n == rows@.len(),
            0 <= pos <= n,
            forall|k: int| 0 <= k < pos ==> row_le(#[trigger] rows@[k], row),
        ensures
            0 <= pos <= n,
            forall|k: int| 0 <= k < pos ==> row_le(#[trigger] rows@[k], row),
            pos < n ==> row_le(row, rows@[pos as int]),
        decreases n - pos,
    {
        if pos >= n {
            break;
        }
        let cur = rows[pos];
        let ck0: u64 = match cur.status {
            TxStatus::Confirmed(h) => h as u64,
            TxStatus::Unconfirmed => 0x1_0000_0000u64,
        };
        let rk0: u64 = match row.status {
            TxStatus::Confirmed(h) => h as u64,
            TxStatus::Unconfirmed => 0x1_0000_0000u64,
        };
        if ck0 > rk0 || (ck0 == rk0 && cur.txid.num > row.txid.num) {
            proof {
                assert(row_le(row, rows@[pos as int]));
            }
            break;
        }
        proof {
            assert(row_le(rows@[pos as int], row));
        }
        pos += 1;
    }
    let ghost pre = rows@;
    let ghost p = pos as int;
    rows.insert(pos, row);
    proof {
        assert(rows@ == pre.insert(p, row));
        assert(rows@[p] == row);
        assert(forall|k: int| 0 <= k < p ==> #[trigger] rows@[k] == pre[k]);
        assert(forall|k: int| p < k < rows@.len() ==> #[trigger] rows@[k] == pre[k - 1]);
        assert forall|i: int, j: int| 0 <= i < j < rows@.len() implies row_le(
            #[trigger] rows@[i],
            #[trigger] rows@[j],
        ) by {
            if i == p {
                assert(rows@[j] == pre[j - 1] && p <= j - 1 < pre.len());
                assert(row_le(row, pre[p]) || p == pre.len());
                if j - 1 > p {
                    assert(row_le(pre[p], pre[j - 1]));
                }
            } else if j == p {
                assert(rows@[i] == pre[i] && row_le(pre[i], row));
            } else if i < p && j > p {
                assert(rows@[i] == pre[i] && rows@[j] == pre[j - 1]);
                if i == j - 1 {
                    assert(row_le(pre[i], row) && (row_le(row, pre[p]) || p == pre.len()));
                    assert(p <= j - 1);
                    assert(row_le(row, pre[j - 1]));
                }
            }
        }
        assert forall|k: int| 0 <= k < pre.len() implies rows@.contains(#[trigger] pre[k]) by {
            if k < p {
                assert(rows@[k] == pre[k]);
            } else {
                assert(rows@[k + 1] == pre[k]);
            }
        }
        assert forall|k: int|
            0 <= k < rows@.len() implies #[trigger] rows@[k] == row || pre.contains(rows@[k]) by {
            if k < p {
                assert(rows@[k] == pre[k]);
            } else if k > p {
                assert(rows@[k] == pre[k - 1]);
            }
        }
    }
}

/// Derived aggregate over the cache: per-keychain balances and the history
/// rows, recomputed from the cache and never independently authoritative.
#[derive(Clone, PartialEq, Eq, Debug)]
pub struct WalletData {
    pub balances: Vec<(Keychain, u128)>,
    pub history: Vec<TxRow>,
}

/// Sums the unspent output values of one keychain.
pub fn keychain_balance(cache: &WalletCache, kc: Keychain) -> (r: u128)
    ensures
        r == balance_of(cache@.utxos, kc),
{
    let n = cache.utxos.len();
    let mut acc: u128 = 0;
    let mut j: usize = 0;
    while j < n
        invariant
            n == cache.utxos@.len(),
            0 <= j <= n,
            acc == balance_of(cache@.utxos.take(j as int), kc),
            acc <= j * (u64::MAX as int),
        decreases n - j,
    {
        proof {
            assert(cache@.utxos.take(j + 1 as int).drop_last() =~= cache@.utxos.take(j as int));
            assert(cache@.utxos.take(j + 1 as int).last() == cache@.utxos[j as int]);
            assert((j + 1) * (u64::MAX as int) == j * (u64::MAX as int) + (u64::MAX as int))
                by (nonlinear_arith);
            assert((j + 1) * (u64::MAX as int) <= u128::MAX) by (nonlinear_arith)
                requires
                    0 <= j < usize::MAX as int,
            ;
        }
        let u = cache.utxos[j];
        let unspent = u.is_unspent();
        if unspent && u.keychain.number == kc.number {
            assert(cache@.utxos[j as int].keychain == kc);
            acc = acc + u.value as u128;
        }
        j += 1;
    }
    proof {
        assert(cache@.utxos.take(n as int) =~= cache@.utxos);
    }
    acc
}

impl WalletData {
    /// Recomputes the derived view: for every keychain of the descriptor its
    /// balance (the sum of its unspent outputs — the cache invariant), and
    /// one history row per tracked transaction, in discovery order.
    pub fn compute(cache: &WalletCache, descr: &crate::descriptors::WalletDescr) -> (r: WalletData)
        ensures
            r.balances@.len() == descr.keychains@.len(),
            forall|k: int|
                0 <= k < r.balances@.len() ==> #[trigger] r.balances@[k] == (
                    descr.keychains@[k],
                    balance_of(cache@.utxos, descr.keychains@[k]) as u128,
                ),
            rows_sorted(r.history@),
            rows_match(r.history@, cache@.txs),
    {
        let kn = descr.keychains.len();
        let mut balances: Vec<(Keychain, u128)> = Vec::new();
        let mut k: usize = 0;
        while k < kn
            invariant
                kn == descr.keychains@.len(),
                0 <= k <= kn,
                balances@.len() == k,
                forall|m: int|
                    0 <= m < k ==> #[trigger] balances@[m] == (
                        descr.keychains@[m],
                        balance_of(cache@.utxos, descr.keychains@[m]) as u128,
                    ),
            decreases kn - k,
        {
            let kc = descr.keychains[k];
            let b = keychain_balance(cache, kc);
            balances.push((kc, b));
            k += 1;
        }
        let tn = cache.txs.len();
        let mut history: Vec<TxRow> = Vec::new();
        let mut t: usize = 0;
        while t < tn
            invariant
                tn == cache.txs@.len(),
                0 <= t <= tn,
                history@.len() == t,
                rows_sorted(history@),
                forall|m: int| 0 <= m < t ==> history@.contains(row_of(#[trigger] cache@.txs[m])),
                forall|m: int|
                    0 <= m < history@.len() ==> exists|w: int|
                        0 <= w < t && #[trigger] history@[m] == row_of(cache@.txs[w]),
            decreases tn - t,
        {
            let ghost pre = history@;
            let row = TxRow {
                txid: cache.txs[t].txid,
                status: cache.txs[t].status,
                fee: cache.txs[t].fee,
            };
            insert_row(&mut history, row);
            proof {
                assert(row == row_of(cache@.txs[t as int]));
                assert forall|m: int|
                    0 <= m < history@.len() implies exists|w: int|
                        0 <= w < t + 1 && #[trigger] history@[m] == row_of(cache@.txs[w]) by {
                    if history@[m] == row {
                        assert(history@[m] == row_of(cache@.txs[t as int]));
                    } else {
                        assert(pre.contains(history@[m]));
                        let k0 = choose|k0: int| 0 <= k0 < pre.len() && pre[k0] == history@[m];
                        let w0 = choose|w0: int| 0 <= w0 < t && pre[k0] == row_of(cache@.txs[w0]);
                        assert(history@[m] == row_of(cache@.txs[w0]));
                    }
                }
            }
            t += 1;
        }
        WalletData { balances, history }
    }
}

/// The default sliding-window width: how many consecutive unused addresses
/// are probed past the highest funded one.
pub const DEFAULT_GAP_LIMIT: u32 = 20;

/// Orchestrating aggregate: the descriptor, the cache, the derived data and
/// an optional overlay. Created from (descriptor, chain); mutated only via
/// sync; read by selection and data consumers.
#[derive(Clone, PartialEq, Eq, Debug)]
pub struct Wallet {
    pub descr: crate::descriptors::WalletDescr,
    pub cache: WalletCache,
    pub data: WalletData,
    pub layer2: Option<crate::layer2::Layer2Cache>,
}

impl Wallet {
    /// An ephemeral in-memory wallet over the two standard keychains, with
    /// an empty cache and the overlay disabled.
    pub fn new(descr: crate::descriptors::StdDescr, network: Chain) -> (r: Wallet)
        ensures
            r.descr.wf(),
            r.descr.script_pubkey == descr,
            r.descr.chain == network,
            r.cache@.wf(),
            r.cache@.addrs.len() == 0,
            r.cache@.utxos.len() == 0,
            r.cache@.txs.len() == 0,
            r.layer2 is None,
            r.data.balances@.len() == r.descr.keychains@.len(),
            forall|k: int|
                0 <= k < r.data.balances@.len() ==> #[trigger] r.data.balances@[k] == (
                    r.descr.keychains@[k],
                    0u128,
                ),
            r.data.history@.len() == 0,
    {
        let wd = crate::descriptors::WalletDescr::new(descr, network);
        let cache = WalletCache::empty();
        let data = WalletData::compute(&cache, &wd);
        Wallet { descr: wd, cache, data, layer2: None }
    }

    /// A wallet from an already-built descriptor.
    pub fn with_descr(descr: crate::descriptors::WalletDescr) -> (r: Wallet)
        requires
            descr.wf(),
        ensures
            r.descr == descr,
            r.cache@.wf(),
            r.cache@.addrs.len() == 0,
            r.cache@.utxos.len() == 0,
            r.cache@.txs.len() == 0,
            r.layer2 is None,
            r.data.balances@.len() == r.descr.keychains@.len(),
            forall|k: int|
                0 <= k < r.data.balances@.len() ==> #[trigger] r.data.balances@[k] == (
                    r.descr.keychains@[k],
                    0u128,
                ),
            r.data.history@.len() == 0,
    {
        let cache = WalletCache::empty();
        let data = WalletData::compute(&cache, &descr);
        Wallet { descr, cache, data, layer2: None }
    }

    /// Synchronizes every keychain against the data source and recomputes
    /// the derived data. Per-call failures are collected, never raised:
    /// already-merged keychains keep their results, and the call returns
    /// full success or success-with-errors, never a rollback.
    pub fn update<I: Indexer>(&mut self, indexer: &I) -> (r: crate::util::MayError<
        (),
        Vec<IndexerError>,
    >)
        requires
            old(self).descr.wf(),
            old(self).cache@.wf(),
        ensures
            final(self).cache@.wf(),
            final(self).descr == old(self).descr,
            final(self).layer2 == old(self).layer2,
            cache_monotone(old(self).cache@, final(self).cache@),
            final(self).data.balances@.len() == final(self).descr.keychains@.len(),
            forall|k: int|
                0 <= k < final(self).data.balances@.len()
                    ==> #[trigger] final(self).data.balances@[k] == (
                    final(self).descr.keychains@[k],
                    balance_of(final(self).cache@.utxos, final(self).descr.keychains@[k]) as u128,
                ),
            rows_sorted(final(self).data.history@),
            rows_match(final(self).data.history@, final(self).cache@.txs),
            forall|k: int|
                0 <= k < final(self).descr.keychains@.len() ==> addr_count(
                    final(self).cache@.addrs,
                    #[trigger] final(self).descr.keychains@[k],
                ) == window_target(
                    addr_count(old(self).cache@.addrs, final(self).descr.keychains@[k]),
                    max_funded(final(self).cache@.addrs, final(self).descr.keychains@[k]),
                    DEFAULT_GAP_LIMIT,
                ),
            r.err matches Some(es) ==> es@.len() > 0,
    {
        let mut errors: Vec<IndexerError> = Vec::new();
        let kn = self.descr.keychains.len();
        let mut k: usize = 0;
        proof {
            lemma_cache_monotone_refl(old(self).cache@);
        }
        while k < kn
            invariant
                kn == self.descr.keychains@.len(),
                0 <= k <= kn,
                self.descr == old(self).descr,
                self.descr.wf(),
                self.layer2 == old(self).layer2,
                self.data == old(self).data,
                self.cache@.wf(),
                cache_monotone(old(self).cache@, self.cache@),
                forall|m: int|
                    0 <= m < k ==> addr_count(
                        self.cache@.addrs,
                        #[trigger] self.descr.keychains@[m],
                    ) == window_target(
                        addr_count(old(self).cache@.addrs, self.descr.keychains@[m]),
                        max_funded(self.cache@.addrs, self.descr.keychains@[m]),
                        DEFAULT_GAP_LIMIT,
                    ),
                forall|m: int|
                    k <= m < kn ==> addr_count(
                        self.cache@.addrs,
                        #[trigger] self.descr.keychains@[m],
                    ) == addr_count(old(self).cache@.addrs, self.descr.keychains@[m]) && max_funded(
                        self.cache@.addrs,
                        self.descr.keychains@[m],
                    ) == max_funded(old(self).cache@.addrs, self.descr.keychains@[m]),
            decreases kn - k,
        {
            let kc = self.descr.keychains[k];
            proof {
                assert(self.descr.keychains@.contains(self.descr.keychains@[k as int]));
            }
            let ghost pre = self.cache@;
            sync_keychain(&mut self.cache, &self.descr, kc, DEFAULT_GAP_LIMIT, indexer, &mut errors);
            proof {
                lemma_cache_monotone_trans(old(self).cache@, pre, self.cache@);
                assert forall|m: int| 0 <= m < kn && m != k as int implies #[trigger] self.descr.keychains@[m]
                    != kc by {
                    assert(crate::descriptors::keychains_unique(self.descr.keychains@));
                }
            }
            k += 1;
        }
        self.data = WalletData::compute(&self.cache, &self.descr);
        if errors.len() > 0 {
            crate::util::MayError::with_error((), errors)
        } else {
            crate::util::MayError::ok(())
        }
    }
}

} // verus!
