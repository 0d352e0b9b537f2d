use bpwallet::codec::encode;
use bpwallet::data::{Chain, Keychain, Outpoint, Txid};
use bpwallet::descriptors::{DescrKind, DescriptorCoder, ScriptTemplate, StdDescr, Xpub};
use bpwallet::layer2::{Layer2Cache, Layer2Coin, NoLayer2};
use bpwallet::runtime::{Config, LoadError, Runtime};
use bpwallet::util::MayError;
use bpwallet::wallet::{UtxoReport, WalletCache};

fn sample_descr() -> StdDescr {
    StdDescr { kind: DescrKind::Wpkh, keys: vec![Xpub { key: 3 }] }
}

#[test]
fn load_missing_location_is_an_error_not_a_crash() {
    let r = Runtime::load(b"/nowhere/wallet".to_vec(), None);
    assert_eq!(r.unwrap_err(), LoadError::Io);
}

#[test]
fn load_or_init_falls_back_to_initializer() {
    let rt = Runtime::load_or_init(
        b"/nowhere/wallet".to_vec(),
        None,
        Chain::Signet,
        |_err| Ok(sample_descr()),
    )
    .unwrap();
    assert!(rt.path.is_none());
    assert_eq!(rt.wallet.descr.chain, Chain::Signet);
    assert_eq!(rt.wallet.descr.script_pubkey, sample_descr());
    assert_eq!(rt.wallet().cache.addrs.len(), 0);
}

#[test]
fn load_or_init_propagates_initializer_failure() {
    let r = Runtime::load_or_init(
        b"/nowhere/wallet".to_vec(),
        None,
        Chain::Signet,
        |err| Err::<StdDescr, LoadError>(err),
    );
    assert_eq!(r.unwrap_err(), LoadError::Io);
}

#[test]
fn load_reconstructs_from_persisted_representation() {
    let coder = DescriptorCoder {
        signers: vec![(b"main".to_vec(), Xpub { key: 15 })],
        script_pubkey: ScriptTemplate { kind: DescrKind::Wpkh, keys: vec![b"main".to_vec()] },
        keychains: vec![Keychain { number: 0 }, Keychain { number: 1 }],
        chain: Chain::Mainnet,
    };
    let bytes = encode(&coder);
    let rt = Runtime::load(b"wallets/main".to_vec(), Some(bytes)).unwrap();
    assert_eq!(rt.path, Some(b"wallets/main".to_vec()));
    assert_eq!(rt.wallet.descr.chain, Chain::Mainnet);
    assert_eq!(rt.wallet.descr.script_pubkey.keys, vec![Xpub { key: 15 }]);
}

#[test]
fn load_rejects_unresolved_signer_as_custom_error() {
    let coder = DescriptorCoder {
        signers: vec![],
        script_pubkey: ScriptTemplate { kind: DescrKind::Wpkh, keys: vec![b"main".to_vec()] },
        keychains: vec![Keychain { number: 0 }],
        chain: Chain::Mainnet,
    };
    let bytes = encode(&coder);
    let r = Runtime::load(b"p".to_vec(), Some(bytes));
    assert_eq!(r.unwrap_err(), LoadError::Custom);
}

#[test]
fn load_rejects_garbage_as_custom_error() {
    let r = Runtime::load(b"p".to_vec(), Some(vec![1, 2, 3]));
    assert_eq!(r.unwrap_err(), LoadError::Custom);
}

#[test]
fn config_round_trips() {
    let c = Config { default_wallet: b"savings".to_vec() };
    let text = c.store();
    assert_eq!(text, b"default_wallet=savings\n".to_vec());
    let back = Config::parse(&text).unwrap();
    assert_eq!(back.default_wallet, b"savings".to_vec());
}

#[test]
fn config_defaults_silently_on_missing_or_bad_input() {
    let (c, needs_store) = Config::load(None);
    assert_eq!(c.default_wallet, b"default".to_vec());
    assert!(needs_store);
    let garbage = b"nonsense".to_vec();
    let (c2, needs_store2) = Config::load(Some(&garbage));
    assert_eq!(c2.default_wallet, b"default".to_vec());
    assert!(needs_store2);
    let good = b"default_wallet=main\n".to_vec();
    let (c3, needs_store3) = Config::load(Some(&good));
    assert_eq!(c3.default_wallet, b"main".to_vec());
    assert!(!needs_store3);
}

#[test]
fn overlay_refresh_keeps_only_known_outpoints() {
    let mut cache = WalletCache::empty();
    let known = Outpoint { txid: Txid { num: 8 }, vout: 0 };
    let reps = vec![UtxoReport { outpoint: known, value: 100, spent_by: None }];
    cache.merge_script_state(Keychain { number: 0 }, 0, vec![9], &reps, &Vec::new());
    let mut overlay = Layer2Cache::new();
    let unknown = Outpoint { txid: Txid { num: 77 }, vout: 1 };
    overlay.refresh(
        &cache,
        vec![
            Layer2Coin { outpoint: known, amount: 4, asset: 1 },
            Layer2Coin { outpoint: unknown, amount: 6, asset: 1 },
        ],
    );
    assert_eq!(overlay.coin_count(), 1);
    assert_eq!(overlay.coins[0].outpoint, known);
    assert_eq!(overlay.balance(), 4u128);
}

#[test]
fn null_overlay_reports_zero() {
    let null = NoLayer2;
    assert_eq!(null.coin_count(), 0);
    assert_eq!(null.balance(), 0u128);
}

#[test]
fn may_error_into_result() {
    let ok: MayError<u32, u32> = MayError::ok(5);
    assert_eq!(ok.into_result(), Ok(5));
    let bad: MayError<u32, u32> = MayError::with_error(5, 9);
    assert_eq!(bad.into_result(), Err(9));
}
