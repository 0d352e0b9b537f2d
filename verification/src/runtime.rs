//! Runtime orchestrator: owns one wallet and an optional storage path, and
//! exposes construction, loading from a persisted descriptor representation,
//! and synchronization. Reading and writing the storage itself stays with
//! the caller; the runtime works on the bytes.

use vstd::prelude::*;
use crate::codec::CoderView;
use crate::codec::spec_decode;
use crate::data::Chain;
use crate::descriptors::StdDescr;
use crate::descriptors::WalletDescr;
use crate::descriptors::signer_get_v;
use crate::descriptors::signer_has_v;
use crate::descriptors::lemma_signer_view_agree;
use crate::wallet::Indexer;
use crate::wallet::IndexerError;
use crate::wallet::Wallet;

verus! {

/// Failure of loading a wallet from storage: the storage was unreadable or
/// absent, or its content was not one well-formed, fully translatable
/// descriptor representation.
#[derive(Clone, Copy, PartialEq, Eq, Structural, Debug)]
pub enum LoadError {
    Io,
    Custom,
}

/// Owns an optional storage path and one wallet.
#[derive(Clone, PartialEq, Eq, Debug)]
pub struct Runtime {
    pub path: Option<Vec<u8>>,
    pub wallet: Wallet,
}

/// Every placeholder of a persisted representation has a signer entry.
pub open spec fn translatable(v: CoderView) -> bool {
    forall|j: int|
        0 <= j < v.template_keys.len() ==> signer_has_v(v.signers, #[trigger] v.template_keys[j])
}

/// What loading a stored representation yields: the path kept, the wallet
/// fresh over the translated descriptor, the cache empty (state is
/// re-derived by a fresh sync), the overlay disabled.
pub open spec fn loaded_runtime(rt: Runtime, path: Seq<u8>, v: CoderView) -> bool {
    &&& rt.wf()
    &&& (rt.path matches Some(p) && p@ == path)
    &&& rt.wallet.descr.chain == v.chain
    &&& rt.wallet.descr.keychains@.map_values(|k: crate::data::Keychain| k.number) == v.keychains
    &&& rt.wallet.descr.script_pubkey.kind == v.kind
    &&& rt.wallet.descr.script_pubkey.keys@.len() == v.template_keys.len()
    &&& (forall|j: int|
        0 <= j < v.template_keys.len() ==> #[trigger] rt.wallet.descr.script_pubkey.keys@[j].key
            == signer_get_v(v.signers, v.template_keys[j]))
    &&& rt.wallet.cache@.addrs.len() == 0
    &&& rt.wallet.cache@.utxos.len() == 0
    &&& rt.wallet.cache@.txs.len() == 0
    &&& rt.wallet.layer2 is None
}

/// A fresh in-memory runtime over a given descriptor: no path, empty cache,
/// overlay disabled.
pub open spec fn fresh_runtime(rt: Runtime, d: StdDescr, network: Chain) -> bool {
    &&& rt.wf()
    &&& rt.path is None
    &&& rt.wallet.descr.script_pubkey == d
    &&& rt.wallet.descr.chain == network
    &&& rt.wallet.cache@.addrs.len() == 0
    &&& rt.wallet.cache@.utxos.len() == 0
    &&& rt.wallet.cache@.txs.len() == 0
    &&& rt.wallet.layer2 is None
}

/// What `load_or_init` owes once loading has failed with exactly `err`: an
/// Ok result is a fresh in-memory wallet over a descriptor the initializer
/// returned for that error, and an Err result is the initializer's own
/// failure, propagated.
pub open spec fn fell_back_to_init<F: FnOnce(LoadError) -> Result<StdDescr, LoadError>>(
    r: Result<Runtime, LoadError>,
    init: F,
    err: LoadError,
    network: Chain,
) -> bool {
    &&& (r matches Ok(rt) ==> exists|d: StdDescr|
        call_ensures(init, (err,), Ok(d)) && fresh_runtime(rt, d, network))
    &&& (r matches Err(e2) ==> call_ensures(init, (err,), Result::<StdDescr, LoadError>::Err(e2)))
}

impl Runtime {
    /// Invariants carried through every runtime operation.
    pub open spec fn wf(self) -> bool {
        &&& self.wallet.descr.wf()
        &&& self.wallet.cache@.wf()
    }

    /// Constructs an ephemeral in-memory wallet: no path, empty cache.
    pub fn new(descr: StdDescr, network: Chain) -> (r: Runtime)
        ensures
            r.wf(),
            r.path is None,
            r.wallet.descr.script_pubkey == descr,
            r.wallet.descr.chain == network,
            r.wallet.cache@.addrs.len() == 0,
            r.wallet.cache@.utxos.len() == 0,
            r.wallet.cache@.txs.len() == 0,
            r.wallet.layer2 is None,
            fresh_runtime(r, descr, network),
            r.wallet.data.balances@.len() == r.wallet.descr.keychains@.len(),
            forall|k: int|
                0 <= k < r.wallet.data.balances@.len() ==> #[trigger] r.wallet.data.balances@[k]
                    == (r.wallet.descr.keychains@[k], 0u128),
            r.wallet.data.history@.len() == 0,
    {
        Runtime { path: None, wallet: Wallet::new(descr, network) }
    }

    /// The designated persistence entry point: reconstructs a wallet from
    /// the bytes read at `path`. Absent storage is an I/O load failure; a
    /// malformed representation, or one with an unresolved signer name, is a
    /// custom load failure. On success the wallet starts with an empty cache
    /// (state is re-derived by a fresh sync) and the path is kept.
    pub fn load(path: Vec<u8>, contents: Option<Vec<u8>>) -> (r: Result<Runtime, LoadError>)
        ensures
            contents is None ==> r == Err::<Runtime, LoadError>(LoadError::Io),
            contents matches Some(b) ==> match spec_decode(b@) {
                None => r == Err::<Runtime, LoadError>(LoadError::Custom),
                Some(v) => if translatable(v) {
                    r matches Ok(rt) && loaded_runtime(rt, path@, v)
                } else {
                    r == Err::<Runtime, LoadError>(LoadError::Custom)
                },
            },
    {
        let bytes = match contents {
            Some(b) => b,
            None => {
                return Err(LoadError::Io);
            },
        };
        let coder = match crate::codec::decode(&bytes) {
            Ok(c) => c,
            Err(_) => {
                return Err(LoadError::Custom);
            },
        };
        proof {
            assert forall|j: int| 0 <= j < coder.script_pubkey.keys@.len() implies (signer_has_v(
                coder@.signers,
                #[trigger] coder@.template_keys[j],
            ) == crate::descriptors::signer_has(coder.signers@, coder.script_pubkey.keys@[j]@)) by {
                lemma_signer_view_agree(coder.signers@, coder.script_pubkey.keys@[j]@);
            }
        }
        let descr = match WalletDescr::from_coder(&coder) {
            Ok(d) => d,
            Err(_) => {
                proof {
                    let j0 = choose|j: int|
                        0 <= j < coder.script_pubkey.keys@.len() && !crate::descriptors::signer_has(
                            coder.signers@,
                            #[trigger] coder.script_pubkey.keys@[j]@,
                        );
                    assert(!signer_has_v(coder@.signers, coder@.template_keys[j0]));
                }
                return Err(LoadError::Custom);
            },
        };
        proof {
            assert forall|j: int| 0 <= j < coder.script_pubkey.keys@.len() implies #[trigger] descr.script_pubkey.keys@[j].key
                == signer_get_v(coder@.signers, coder@.template_keys[j]) by {
                lemma_signer_view_agree(coder.signers@, coder.script_pubkey.keys@[j]@);
            }
        }
        let wallet = Wallet::with_descr(descr);
        Ok(Runtime { path: Some(path), wallet })
    }

    /// Attempts `load`; on failure, hands the load error to the supplied
    /// initializer and, if it yields a descriptor, constructs a fresh
    /// in-memory wallet from it. A failure of the initializer itself
    /// propagates as the load error.
    pub fn load_or_init<F: FnOnce(LoadError) -> Result<StdDescr, LoadError>>(
        path: Vec<u8>,
        contents: Option<Vec<u8>>,
        network: Chain,
        init: F,
    ) -> (r: Result<Runtime, LoadError>)
        requires
            forall|e: LoadError| #[trigger] call_requires(init, (e,)),
        ensures
            r matches Ok(rt) ==> rt.wf(),
            contents is None ==> fell_back_to_init(r, init, LoadError::Io, network),
            contents matches Some(b) ==> match spec_decode(b@) {
                None => fell_back_to_init(r, init, LoadError::Custom, network),
                Some(v) => if translatable(v) {
                    r matches Ok(rt) && loaded_runtime(rt, path@, v)
                } else {
                    fell_back_to_init(r, init, LoadError::Custom, network)
                },
            },
    {
        match Self::load(path, contents) {
            Ok(rt) => Ok(rt),
            Err(err) => match init(err) {
                Ok(descr) => Ok(Self::new(descr, network)),
                Err(e2) => Err(e2),
            },
        }
    }

    /// Delegates to the sync engine and surfaces its aggregated error list
    /// alongside success: full success, or the collected per-call errors
    /// with every already-merged keychain kept.
    pub fn sync<I: Indexer>(&mut self, indexer: &I) -> (r: Result<(), Vec<IndexerError>>)
        requires
            old(self).wf(),
        ensures
            final(self).wf(),
            final(self).path == old(self).path,
            final(self).wallet.descr == old(self).wallet.descr,
            final(self).wallet.layer2 == old(self).wallet.layer2,
            crate::wallet::cache_monotone(old(self).wallet.cache@, final(self).wallet.cache@),
            final(self).wallet.data.balances@.len()
                == final(self).wallet.descr.keychains@.len(),
            forall|k: int|
                0 <= k < final(self).wallet.data.balances@.len()
                    ==> #[trigger] final(self).wallet.data.balances@[k] == (
                    final(self).wallet.descr.keychains@[k],
                    crate::wallet::balance_of(
                        final(self).wallet.cache@.utxos,
                        final(self).wallet.descr.keychains@[k],
                    ) as u128,
                ),
            forall|k: int|
                0 <= k < final(self).wallet.descr.keychains@.len() ==> crate::wallet::addr_count(
                    final(self).wallet.cache@.addrs,
                    #[trigger] final(self).wallet.descr.keychains@[k],
                ) == crate::wallet::window_target(
                    crate::wallet::addr_count(
                        old(self).wallet.cache@.addrs,
                        final(self).wallet.descr.keychains@[k],
                    ),
                    crate::wallet::max_funded(
                        final(self).wallet.cache@.addrs,
                        final(self).wallet.descr.keychains@[k],
                    ),
                    crate::wallet::DEFAULT_GAP_LIMIT,
                ),
            r matches Err(es) ==> es@.len() > 0,
    {
        self.wallet.update(indexer).into_result()
    }

    /// Read access to the owned wallet.
    pub fn wallet(&self) -> (r: &Wallet)
        ensures
            *r == self.wallet,
    {
        &self.wallet
    }

    /// Exclusive access to the owned wallet.
    pub fn wallet_mut(&mut self) -> (r: &mut Wallet)
        ensures
            *r == old(self).wallet,
            final(self).wallet == *final(r),
            final(self).path == old(self).path,
    {
        &mut self.wallet
    }
}

/// The key under which the default wallet name is persisted.
pub open spec fn config_prefix() -> Seq<u8> {
    seq![100u8, 101u8, 102u8, 97u8, 117u8, 108u8, 116u8, 95u8, 119u8, 97u8, 108u8, 108u8, 101u8, 116u8, 61u8]
}

/// The built-in default wallet name.
pub open spec fn default_wallet_name() -> Seq<u8> {
    seq![100u8, 101u8, 102u8, 97u8, 117u8, 108u8, 116u8]
}

/// A wallet name the key-value document can carry: no line break.
pub open spec fn config_name_ok(name: Seq<u8>) -> bool {
    forall|i: int| 0 <= i < name.len() ==> name[i] != 10u8
}

/// Configuration: the single named default-wallet setting, persisted as a
/// simple one-line key-value document.
#[derive(Clone, PartialEq, Eq, Debug)]
pub struct Config {
    pub default_wallet: Vec<u8>,
}

/// The document a configuration is written as: `default_wallet=` then the
/// name, closed by one line break.
pub open spec fn spec_config_text(name: Seq<u8>) -> Seq<u8> {
    config_prefix() + name + seq![10u8]
}

/// The wallet name read back from a document, if it is exactly one
/// well-formed line.
pub open spec fn spec_parse_config(s: Seq<u8>) -> Option<Seq<u8>> {
    if s.len() >= 16 && s.subrange(0, 15) == config_prefix() && s.last() == 10u8 && (forall|i: int|
        15 <= i < s.len() - 1 ==> s[i] != 10u8) {
        Some(s.subrange(15, s.len() - 1))
    } else {
        None
    }
}

/// Law: the configuration document round-trips — parsing the rendering of
/// any carryable wallet name yields that name again.
pub proof fn lemma_config_round_trip(name: Seq<u8>)
    requires
        config_name_ok(name),
    ensures
        spec_parse_config(spec_config_text(name)) == Some(name),
{
    let s = spec_config_text(name);
    assert(s.subrange(0, 15) =~= config_prefix());
    assert(s.last() == 10u8);
    assert(forall|i: int| 15 <= i < s.len() - 1 ==> s[i] == name[i - 15]);
    assert(s.subrange(15, s.len() - 1) =~= name);
}

impl Default for Config {
    /// The built-in default: wallet name `default`.
    fn default() -> (r: Config)
        ensures
            r.default_wallet@ == default_wallet_name(),
    {
        let name = vec![100u8, 101u8, 102u8, 97u8, 117u8, 108u8, 116u8];
        proof {
            assert(name@ =~= default_wallet_name());
        }
        Config { default_wallet: name }
    }
}

impl Config {
    /// Parses a configuration document.
    pub fn parse(text: &Vec<u8>) -> (r: Option<Config>)
        ensures
            r matches Some(c) ==> spec_parse_config(text@) == Some(c.default_wallet@),
            r is None ==> spec_parse_config(text@) is None,
    {
        let n = text.len();
        if n < 16 {
            return None;
        }
        let prefix: Vec<u8> = vec![
            100u8, 101u8, 102u8, 97u8, 117u8, 108u8, 116u8, 95u8, 119u8, 97u8, 108u8, 108u8, 101u8,
            116u8, 61u8,
        ];
        proof {
            assert(prefix@ =~= config_prefix());
        }
        let mut i: usize = 0;
        while i < 15
            invariant
                prefix@ == config_prefix(),
                text@.len() >= 16,
                0 <= i <= 15,
                forall|k: int| 0 <= k < i ==> #[trigger] text@[k] == config_prefix()[k],
            decreases 15 - i,
        {
            if text[i] != prefix[i] {
                proof {
                    assert(text@.subrange(0, 15)[i as int] != config_prefix()[i as int]);
                }
                return None;
            }
            i += 1;
        }
        proof {
            assert(text@.subrange(0, 15) =~= config_prefix());
        }
        if text[n - 1] != 10 {
            return None;
        }
        let mut j: usize = 15;
        while j < n - 1
            invariant
                text@.len() == n,
                n >= 16,
                15 <= j <= n - 1,
                forall|k: int| 15 <= k < j ==> #[trigger] text@[k] != 10u8,
            decreases n - 1 - j,
        {
            if text[j] == 10 {
                return None;
            }
            j += 1;
        }
        let name = crate::codec::read_bytes(text, 15, n - 16);
        proof {
            assert(name@ =~= text@.subrange(15, text@.len() - 1));
        }
        Some(Config { default_wallet: name })
    }

    /// The load policy: a readable, parsable document yields its
    /// configuration; absent or unparsable input is replaced silently by the
    /// built-in default, with a flag telling the caller to persist it.
    pub fn load(contents: Option<&Vec<u8>>) -> (r: (Config, bool))
        ensures
            contents matches Some(t) ==> match spec_parse_config(t@) {
                Some(name) => r.0.default_wallet@ == name && r.1 == false,
                None => r.0.default_wallet@ == default_wallet_name() && r.1 == true,
            },
            contents is None ==> r.0.default_wallet@ == default_wallet_name() && r.1 == true,
    {
        match contents {
            Some(text) => match Config::parse(text) {
                Some(c) => (c, false),
                None => (Config::default(), true),
            },
            None => (Config::default(), true),
        }
    }

    /// Renders the configuration document to be persisted.
    pub fn store(&self) -> (r: Vec<u8>)
        ensures
            r@ == spec_config_text(self.default_wallet@),
    {
        let mut out: Vec<u8> = vec![
            100u8, 101u8, 102u8, 97u8, 117u8, 108u8, 116u8, 95u8, 119u8, 97u8, 108u8, 108u8, 101u8,
            116u8, 61u8,
        ];
        proof {
            assert(out@ =~= config_prefix());
        }
        crate::codec::push_bytes(&mut out, &self.default_wallet);
        out.push(10);
        proof {
            assert(out@ =~= spec_config_text(self.default_wallet@));
        }
        out
    }
}

} // verus!
