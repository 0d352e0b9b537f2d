use bpwallet::coinselect::{
    candidate_coins, select_bnb, select_largest_first, select_shuffled, select_smallest_first,
    SelectionError,
};
use bpwallet::data::{AddrStatus, Keychain, Outpoint, Txid, UtxoStatus, WalletAddr, WalletUtxo};
use bpwallet::wallet::WalletCache;

fn coin(txn: u64, value: u64) -> WalletUtxo {
    WalletUtxo {
        outpoint: Outpoint { txid: Txid { num: txn }, vout: 0 },
        value,
        keychain: Keychain { number: 0 },
        index: 0,
        status: UtxoStatus::Unspent,
        tag: None,
    }
}

fn three_coins() -> Vec<WalletUtxo> {
    // outpoints A, B, C with values 20000, 5000, 50000
    vec![coin(1, 20_000), coin(2, 5_000), coin(3, 50_000)]
}

#[test]
fn largest_first_selects_single_largest() {
    // target 22000, negligible fee: largest-first must pick C alone
    let candidates = three_coins();
    let sel = select_largest_first(&candidates, 22_000, 0, 0).unwrap();
    assert_eq!(sel.coins.len(), 1);
    assert_eq!(sel.coins[0].outpoint, Outpoint { txid: Txid { num: 3 }, vout: 0 });
    assert_eq!(sel.total, 50_000);
    assert_eq!(sel.fee, 0);
    assert_eq!(sel.change, Some(28_000));
}

#[test]
fn smallest_first_consolidates() {
    let candidates = three_coins();
    let sel = select_smallest_first(&candidates, 22_000, 0, 0).unwrap();
    assert_eq!(sel.coins.len(), 2);
    assert_eq!(sel.total, 25_000);
    assert_eq!(sel.change, Some(3_000));
}

#[test]
fn selection_covers_target_plus_fee() {
    let candidates = three_coins();
    let fee_rate = 1_000u64;
    let sel = select_largest_first(&candidates, 60_000, fee_rate, 0).unwrap();
    assert!(sel.total >= 60_000u128 + sel.fee);
    assert_eq!(sel.fee, fee_rate as u128 * sel.coins.len() as u128);
}

#[test]
fn insufficiency_is_an_error_never_partial() {
    let candidates = three_coins();
    match select_largest_first(&candidates, 100_000, 0, 0) {
        Err(SelectionError::Insufficient) => {},
        Ok(_) => panic!("75000 total cannot cover 100000"),
    }
}

#[test]
fn selection_never_mutates_candidates() {
    let candidates = three_coins();
    let before = candidates.clone();
    let _ = select_largest_first(&candidates, 22_000, 0, 0).unwrap();
    let _ = select_smallest_first(&candidates, 22_000, 0, 0).unwrap();
    assert_eq!(candidates, before);
    for c in &candidates {
        assert_eq!(c.status, UtxoStatus::Unspent);
    }
}

#[test]
fn shuffled_is_deterministic_per_seed() {
    let candidates = three_coins();
    let a = select_shuffled(&candidates, 22_000, 0, 0, 11).unwrap();
    let b = select_shuffled(&candidates, 22_000, 0, 0, 11).unwrap();
    assert_eq!(a, b);
    assert!(a.total >= 22_000);
}

#[test]
fn change_below_dust_is_not_reported() {
    let candidates = vec![coin(1, 22_500)];
    let sel = select_largest_first(&candidates, 22_000, 0, 1_000).unwrap();
    assert_eq!(sel.change, None);
}

#[test]
fn candidates_exclude_spent_and_tagged() {
    let kc = Keychain { number: 0 };
    let addr = |index: u32| WalletAddr {
        keychain: kc,
        index,
        script: vec![index as u8],
        status: AddrStatus::Funded,
    };
    let a = coin(1, 10);
    let mut b = coin(2, 20);
    b.index = 1;
    b.status = UtxoStatus::Spent(Txid { num: 9 });
    let mut c = coin(3, 30);
    c.index = 2;
    c.tag = Some(4);
    let cache = WalletCache {
        addrs: vec![addr(0), addr(1), addr(2)],
        utxos: vec![a, b, c],
        txs: vec![],
        tip: 0,
    };
    // native spends: the spent output and the tagged output are excluded
    let cands = candidate_coins(&cache, false);
    assert_eq!(cands.len(), 1);
    assert_eq!(cands[0].outpoint, a.outpoint);
    // asked to include tagged outputs: the tagged one joins, spent stays out
    let all = candidate_coins(&cache, true);
    assert_eq!(all.len(), 2);
    assert_eq!(all[0].outpoint, a.outpoint);
    assert_eq!(all[1].outpoint, c.outpoint);
}

#[test]
fn bnb_minimizes_waste() {
    // target 22000: {A,B} = 25000 wastes 3000, {C} alone wastes 28000;
    // branch-and-bound must prefer {A,B}
    let candidates = three_coins();
    let sel = select_bnb(&candidates, 22_000, 0, 0).unwrap();
    assert_eq!(sel.coins.len(), 2);
    assert_eq!(sel.total, 25_000);
    assert_eq!(sel.change, Some(3_000));
    let outs: Vec<Outpoint> = sel.coins.iter().map(|c| c.outpoint).collect();
    assert!(outs.contains(&Outpoint { txid: Txid { num: 1 }, vout: 0 }));
    assert!(outs.contains(&Outpoint { txid: Txid { num: 2 }, vout: 0 }));
}

#[test]
fn bnb_exact_match_reports_no_change() {
    let candidates = three_coins();
    let sel = select_bnb(&candidates, 25_000, 0, 0).unwrap();
    assert_eq!(sel.total, 25_000);
    assert_eq!(sel.change, None);
}

#[test]
fn bnb_insufficiency_is_an_error() {
    let candidates = three_coins();
    match select_bnb(&candidates, 100_000, 0, 0) {
        Err(SelectionError::Insufficient) => {},
        Ok(_) => panic!("75000 total cannot cover 100000"),
    }
}

#[test]
fn largest_first_never_takes_a_coin_too_many() {
    // with C selected the target is covered; A and B must not be added
    let candidates = three_coins();
    let sel = select_largest_first(&candidates, 50_000, 0, 0).unwrap();
    assert_eq!(sel.coins.len(), 1);
    assert_eq!(sel.total, 50_000);
}
