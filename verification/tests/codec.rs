use bpwallet::codec::{decode, encode};
use bpwallet::data::{Chain, Keychain};
use bpwallet::descriptors::{DescrKind, DescriptorCoder, ScriptTemplate, WalletDescr, Xpub};

fn sample_coder() -> DescriptorCoder {
    DescriptorCoder {
        signers: vec![
            (b"alice".to_vec(), Xpub { key: 0xdead_beef }),
            (b"bob".to_vec(), Xpub { key: 42 }),
        ],
        script_pubkey: ScriptTemplate {
            kind: DescrKind::TrKey,
            keys: vec![b"alice".to_vec(), b"bob".to_vec()],
        },
        keychains: vec![Keychain { number: 0 }, Keychain { number: 1 }],
        chain: Chain::Regtest,
    }
}

#[test]
fn encode_decode_round_trip() {
    let coder = sample_coder();
    let bytes = encode(&coder);
    let back = decode(&bytes).unwrap();
    assert_eq!(back, coder);
}

#[test]
fn round_trip_preserves_derived_scripts() {
    let coder = sample_coder();
    let bytes = encode(&coder);
    let back = decode(&bytes).unwrap();
    let w1 = WalletDescr::from_coder(&coder).unwrap();
    let w2 = WalletDescr::from_coder(&back).unwrap();
    assert_eq!(w1.chain, w2.chain);
    assert_eq!(w1.keychains, w2.keychains);
    for idx in 0..4u32 {
        assert_eq!(
            w1.derive(Keychain { number: 0 }, idx),
            w2.derive(Keychain { number: 0 }, idx)
        );
        assert_eq!(
            w1.derive(Keychain { number: 1 }, idx),
            w2.derive(Keychain { number: 1 }, idx)
        );
    }
}

#[test]
fn decode_rejects_truncated_input() {
    let coder = sample_coder();
    let mut bytes = encode(&coder);
    bytes.pop();
    assert!(decode(&bytes).is_err());
}

#[test]
fn decode_rejects_trailing_garbage() {
    let coder = sample_coder();
    let mut bytes = encode(&coder);
    bytes.push(0);
    assert!(decode(&bytes).is_err());
}

#[test]
fn decode_rejects_duplicate_keychains() {
    let mut coder = sample_coder();
    coder.keychains = vec![Keychain { number: 3 }, Keychain { number: 3 }];
    let bytes = encode(&coder);
    assert!(decode(&bytes).is_err());
}

#[test]
fn decode_rejects_empty_input() {
    assert!(decode(&Vec::new()).is_err());
}
