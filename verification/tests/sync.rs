use bpwallet::data::{Chain, Keychain, Outpoint, TxStatus, Txid, UtxoStatus};
use bpwallet::descriptors::{DescrKind, StdDescr, Xpub};
use bpwallet::wallet::{Indexer, IndexerError, TxReport, UtxoReport, Wallet, DEFAULT_GAP_LIMIT};

fn sample_descr() -> StdDescr {
    StdDescr { kind: DescrKind::Wpkh, keys: vec![Xpub { key: 7 }] }
}

fn op(txn: u64, vout: u32) -> Outpoint {
    Outpoint { txid: Txid { num: txn }, vout }
}

/// A fixed remote state: scripts mapped to their reports.
struct MockIndexer {
    utxos: Vec<(Vec<u8>, Vec<UtxoReport>)>,
    txs: Vec<(Vec<u8>, Vec<TxReport>)>,
    fail_all: bool,
}

impl Indexer for MockIndexer {
    fn fetch_utxos(&self, script: &Vec<u8>) -> Result<Vec<UtxoReport>, IndexerError> {
        if self.fail_all {
            return Err(IndexerError { code: 9 });
        }
        for (s, r) in &self.utxos {
            if s == script {
                return Ok(r.clone());
            }
        }
        Ok(Vec::new())
    }

    fn fetch_history(&self, script: &Vec<u8>) -> Result<Vec<TxReport>, IndexerError> {
        if self.fail_all {
            return Err(IndexerError { code: 9 });
        }
        for (s, r) in &self.txs {
            if s == script {
                return Ok(r.clone());
            }
        }
        Ok(Vec::new())
    }

    fn fetch_tx(&self, _txid: Txid) -> Result<TxReport, IndexerError> {
        Err(IndexerError { code: 1 })
    }

    fn estimate_fee(&self) -> Result<u64, IndexerError> {
        Ok(1)
    }

    fn broadcast(&self, _tx: &Vec<u8>) -> Result<(), IndexerError> {
        Ok(())
    }
}

fn funded_indexer(wallet: &Wallet, funded_index: u32, value: u64) -> MockIndexer {
    let kc = Keychain { number: 0 };
    let script = wallet.descr.derive(kc, funded_index);
    MockIndexer {
        utxos: vec![(
            script.clone(),
            vec![UtxoReport { outpoint: op(500, 0), value, spent_by: None }],
        )],
        txs: vec![(
            script,
            vec![TxReport {
                txid: Txid { num: 500 },
                height: Some(90),
                fee: 10,
                credits: vec![],
                debits: vec![],
            }],
        )],
        fail_all: false,
    }
}

#[test]
fn sync_twice_is_idempotent() {
    let mut wallet = Wallet::new(sample_descr(), Chain::Regtest);
    let indexer = funded_indexer(&wallet, 2, 30_000);
    wallet.update(&indexer).into_result().unwrap();
    let after_first = wallet.cache.clone();
    let first_data = wallet.data.clone();
    wallet.update(&indexer).into_result().unwrap();
    assert_eq!(wallet.cache, after_first);
    assert_eq!(wallet.data, first_data);
}

#[test]
fn gap_limit_window_counts() {
    let mut wallet = Wallet::new(sample_descr(), Chain::Regtest);
    let indexer = funded_indexer(&wallet, 2, 30_000);
    wallet.update(&indexer).into_result().unwrap();
    let kc0 = Keychain { number: 0 };
    let kc1 = Keychain { number: 1 };
    // highest funded index 2: probed count = 2 + 1 + gap_limit
    assert_eq!(
        wallet.cache.keychain_addr_count(kc0),
        (2 + 1 + DEFAULT_GAP_LIMIT) as usize
    );
    // nothing funded on the change keychain: a bare window
    assert_eq!(wallet.cache.keychain_addr_count(kc1), DEFAULT_GAP_LIMIT as usize);
}

#[test]
fn sync_records_utxos_txs_and_balance() {
    let mut wallet = Wallet::new(sample_descr(), Chain::Regtest);
    let indexer = funded_indexer(&wallet, 2, 30_000);
    wallet.update(&indexer).into_result().unwrap();
    assert_eq!(wallet.cache.utxos.len(), 1);
    assert_eq!(wallet.cache.utxos[0].value, 30_000);
    assert_eq!(wallet.cache.utxos[0].status, UtxoStatus::Unspent);
    assert_eq!(wallet.cache.txs.len(), 1);
    assert_eq!(wallet.cache.txs[0].status, TxStatus::Confirmed(90));
    let bal0 = wallet
        .data
        .balances
        .iter()
        .find(|(kc, _)| kc.number == 0)
        .map(|(_, b)| *b)
        .unwrap();
    assert_eq!(bal0, 30_000u128);
    let bal1 = wallet
        .data
        .balances
        .iter()
        .find(|(kc, _)| kc.number == 1)
        .map(|(_, b)| *b)
        .unwrap();
    assert_eq!(bal1, 0u128);
}

#[test]
fn spend_is_marked_never_deleted() {
    let mut wallet = Wallet::new(sample_descr(), Chain::Regtest);
    let indexer = funded_indexer(&wallet, 0, 7_000);
    wallet.update(&indexer).into_result().unwrap();
    // the remote now reports the same outpoint spent
    let kc = Keychain { number: 0 };
    let script = wallet.descr.derive(kc, 0);
    let spent = MockIndexer {
        utxos: vec![(
            script,
            vec![UtxoReport {
                outpoint: op(500, 0),
                value: 7_000,
                spent_by: Some(Txid { num: 777 }),
            }],
        )],
        txs: vec![],
        fail_all: false,
    };
    wallet.update(&spent).into_result().unwrap();
    assert_eq!(wallet.cache.utxos.len(), 1);
    assert_eq!(wallet.cache.utxos[0].status, UtxoStatus::Spent(Txid { num: 777 }));
    // and the spent value leaves the balance
    let bal0 = wallet
        .data
        .balances
        .iter()
        .find(|(kc, _)| kc.number == 0)
        .map(|(_, b)| *b)
        .unwrap();
    assert_eq!(bal0, 0u128);
}

#[test]
fn reorg_overwrites_confirmation_height() {
    let mut wallet = Wallet::new(sample_descr(), Chain::Regtest);
    let indexer = funded_indexer(&wallet, 0, 7_000);
    wallet.update(&indexer).into_result().unwrap();
    assert_eq!(wallet.cache.txs[0].status, TxStatus::Confirmed(90));
    let kc = Keychain { number: 0 };
    let script = wallet.descr.derive(kc, 0);
    let reorged = MockIndexer {
        utxos: vec![(
            script.clone(),
            vec![UtxoReport { outpoint: op(500, 0), value: 7_000, spent_by: None }],
        )],
        txs: vec![(
            script,
            vec![TxReport {
                txid: Txid { num: 500 },
                height: Some(95),
                fee: 10,
                credits: vec![],
                debits: vec![],
            }],
        )],
        fail_all: false,
    };
    wallet.update(&reorged).into_result().unwrap();
    assert_eq!(wallet.cache.txs.len(), 1);
    assert_eq!(wallet.cache.txs[0].status, TxStatus::Confirmed(95));
}

#[test]
fn history_rows_are_ordered_by_height() {
    let mut wallet = Wallet::new(sample_descr(), Chain::Regtest);
    let kc = Keychain { number: 0 };
    let s0 = wallet.descr.derive(kc, 0);
    let s1 = wallet.descr.derive(kc, 1);
    let indexer = MockIndexer {
        utxos: vec![
            (s0.clone(), vec![UtxoReport { outpoint: op(601, 0), value: 10, spent_by: None }]),
            (s1.clone(), vec![UtxoReport { outpoint: op(602, 0), value: 20, spent_by: None }]),
        ],
        txs: vec![
            (
                s0,
                vec![TxReport {
                    txid: Txid { num: 601 },
                    height: Some(120),
                    fee: 1,
                    credits: vec![],
                    debits: vec![],
                }],
            ),
            (
                s1,
                vec![
                    TxReport {
                        txid: Txid { num: 602 },
                        height: Some(80),
                        fee: 1,
                        credits: vec![],
                        debits: vec![],
                    },
                    TxReport {
                        txid: Txid { num: 603 },
                        height: None,
                        fee: 1,
                        credits: vec![],
                        debits: vec![],
                    },
                ],
            ),
        ],
        fail_all: false,
    };
    wallet.update(&indexer).into_result().unwrap();
    let rows = &wallet.data.history;
    assert_eq!(rows.len(), 3);
    assert_eq!(rows[0].txid, Txid { num: 602 }); // confirmed at 80
    assert_eq!(rows[1].txid, Txid { num: 601 }); // confirmed at 120
    assert_eq!(rows[2].txid, Txid { num: 603 }); // unconfirmed last
    assert_eq!(rows[0].status, TxStatus::Confirmed(80));
}

#[test]
fn data_source_failures_are_collected_not_raised() {
    let mut wallet = Wallet::new(sample_descr(), Chain::Regtest);
    let broken = MockIndexer { utxos: vec![], txs: vec![], fail_all: true };
    let errs = wallet.update(&broken).into_result().unwrap_err();
    assert!(!errs.is_empty());
    assert_eq!(errs[0].code, 9);
    // the pass still probed a full window per keychain
    assert_eq!(
        wallet.cache.keychain_addr_count(Keychain { number: 0 }),
        DEFAULT_GAP_LIMIT as usize
    );
}
