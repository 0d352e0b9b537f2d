use bpwallet::data::{Chain, Keychain};
use bpwallet::descriptors::{
    translate, DescrKind, DescriptorCoder, ScriptTemplate, StdDescr, TranslateError, WalletDescr,
    Xpub,
};

fn sample_descr() -> StdDescr {
    StdDescr { kind: DescrKind::Wpkh, keys: vec![Xpub { key: 77 }, Xpub { key: 900 }] }
}

#[test]
fn derive_repeatable() {
    let d = WalletDescr::new(sample_descr(), Chain::Testnet3);
    let kc = Keychain { number: 0 };
    let a = d.derive(kc, 5);
    let b = d.derive(kc, 5);
    assert_eq!(a, b);
}

#[test]
fn derive_distinguishes_coordinates() {
    let d = WalletDescr::new(sample_descr(), Chain::Testnet3);
    let a = d.derive(Keychain { number: 0 }, 5);
    let b = d.derive(Keychain { number: 0 }, 6);
    let c = d.derive(Keychain { number: 1 }, 5);
    assert_ne!(a, b);
    assert_ne!(a, c);
}

#[test]
fn translate_resolves_all_names() {
    let template = ScriptTemplate {
        kind: DescrKind::Wpkh,
        keys: vec![b"alice".to_vec(), b"bob".to_vec()],
    };
    let signers = vec![
        (b"alice".to_vec(), Xpub { key: 11 }),
        (b"bob".to_vec(), Xpub { key: 22 }),
    ];
    let d = translate(&template, &signers).unwrap();
    assert_eq!(d.kind, DescrKind::Wpkh);
    assert_eq!(d.keys, vec![Xpub { key: 11 }, Xpub { key: 22 }]);
}

#[test]
fn translate_fails_on_missing_signer() {
    let template = ScriptTemplate {
        kind: DescrKind::TrKey,
        keys: vec![b"alice".to_vec(), b"carol".to_vec()],
    };
    let signers = vec![(b"alice".to_vec(), Xpub { key: 11 })];
    match translate(&template, &signers) {
        Err(TranslateError::UnresolvedSigner(name)) => assert_eq!(name, b"carol".to_vec()),
        Ok(_) => panic!("translation must fail on an unresolved placeholder"),
    }
}

#[test]
fn from_coder_translates_once_and_keeps_fields() {
    let coder = DescriptorCoder {
        signers: vec![(b"k".to_vec(), Xpub { key: 5 })],
        script_pubkey: ScriptTemplate { kind: DescrKind::Wpkh, keys: vec![b"k".to_vec()] },
        keychains: vec![Keychain { number: 0 }, Keychain { number: 1 }],
        chain: Chain::Signet,
    };
    let w = WalletDescr::from_coder(&coder).unwrap();
    assert_eq!(w.chain, Chain::Signet);
    assert_eq!(w.keychains.len(), 2);
    assert_eq!(w.script_pubkey.keys, vec![Xpub { key: 5 }]);
}

#[test]
fn from_coder_fails_without_descriptor_on_missing_signer() {
    let coder = DescriptorCoder {
        signers: vec![],
        script_pubkey: ScriptTemplate { kind: DescrKind::Wpkh, keys: vec![b"k".to_vec()] },
        keychains: vec![Keychain { number: 0 }],
        chain: Chain::Mainnet,
    };
    assert!(WalletDescr::from_coder(&coder).is_err());
}
