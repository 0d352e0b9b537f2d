//! Descriptor and keychain resolver: deterministic derivation of an output
//! script from (descriptor, keychain, index), and total translation of named
//! placeholder keys into a concrete key-bearing descriptor.

use vstd::prelude::*;
use crate::codec::u64_be;
use crate::codec::push_u64_be;
use crate::data::Chain;
use crate::data::Keychain;
use crate::util::bytes_eq;

verus! {

/// Extended public key, held by the key material the resolver reads.
/// Carries no private material.
#[derive(Clone, Copy, PartialEq, Eq, Structural, Debug)]
pub struct Xpub {
    pub key: u64,
}

/// Kind of standard output script a descriptor produces.
#[derive(Clone, Copy, PartialEq, Eq, Structural, Debug)]
pub enum DescrKind {
    Wpkh,
    TrKey,
}

/// Script template whose keys are named placeholders, as persisted.
#[derive(Clone, PartialEq, Eq, Debug)]
pub struct ScriptTemplate {
    pub kind: DescrKind,
    pub keys: Vec<Vec<u8>>,
}

/// Concrete key-bearing descriptor: every placeholder resolved to an xpub.
#[derive(Clone, PartialEq, Eq, Debug)]
pub struct StdDescr {
    pub kind: DescrKind,
    pub keys: Vec<Xpub>,
}

/// Byte tag of a descriptor kind, leading every derived script.
pub open spec fn kind_tag(kind: DescrKind) -> u8 {
    match kind {
        DescrKind::Wpkh => 0u8,
        DescrKind::TrKey => 1u8,
    }
}

/// Key material of a descriptor's keys, in order.
pub open spec fn enc_xpubs(keys: Seq<Xpub>) -> Seq<u8>
    decreases keys.len(),
{
    if keys.len() == 0 {
        Seq::<u8>::empty()
    } else {
        enc_xpubs(keys.drop_last()) + u64_be(keys.last().key)
    }
}

/// The output script derived from a descriptor for one (keychain, index)
/// coordinate: a pure value, fixed by the three inputs alone.
pub open spec fn spec_derive(d: StdDescr, keychain: Keychain, index: u32) -> Seq<u8> {
    seq![kind_tag(d.kind)] + enc_xpubs(d.keys@) + seq![keychain.number] + u64_be(index as u64)
}

/// Law: derivation is deterministic. The script for a (descriptor, keychain,
/// index) triple is one fixed value; deriving repeatedly yields it again.
pub proof fn lemma_derive_deterministic(d1: StdDescr, d2: StdDescr, keychain: Keychain, index: u32)
    requires
        d1 == d2,
    ensures
        spec_derive(d1, keychain, index) == spec_derive(d2, keychain, index),
{
}

impl StdDescr {
    /// Derives the output script for one (keychain, index) coordinate.
    /// Deterministic and side-effect-free.
    pub fn derive(&self, keychain: Keychain, index: u32) -> (r: Vec<u8>)
        ensures
            r@ == spec_derive(*self, keychain, index),
    {
        let mut out: Vec<u8> = Vec::new();
        let tag: u8 = match self.kind {
            DescrKind::Wpkh => 0,
            DescrKind::TrKey => 1,
        };
        out.push(tag);
        let n = self.keys.len();
        let mut i: usize = 0;
        while i < n
            invariant
                n == self.keys@.len(),
                0 <= i <= n,
                out@ == seq![kind_tag(self.kind)] + enc_xpubs(self.keys@.take(i as int)),
            decreases n - i,
        {
            push_u64_be(&mut out, self.keys[i].key);
            proof {
                assert(self.keys@.take(i + 1 as int).drop_last() =~= self.keys@.take(i as int));
                assert(self.keys@.take(i + 1 as int).last() == self.keys@[i as int]);
            }
            i += 1;
        }
        proof {
            assert(self.keys@.take(n as int) =~= self.keys@);
        }
        out.push(keychain.number);
        push_u64_be(&mut out, index as u64);
        proof {
            assert(out@ =~= spec_derive(*self, keychain, index));
        }
        out
    }
}

/// Whether the signer map holds an entry under `name`.
pub open spec fn signer_has(signers: Seq<(Vec<u8>, Xpub)>, name: Seq<u8>) -> bool {
    exists|i: int| 0 <= i < signers.len() && #[trigger] signers[i].0@ == name
}

/// The key recorded under `name`: the first matching entry.
pub open spec fn signer_get(signers: Seq<(Vec<u8>, Xpub)>, name: Seq<u8>) -> Xpub
    decreases signers.len(),
{
    if signers.len() == 0 {
        Xpub { key: 0 }
    } else if signers[0].0@ == name {
        signers[0].1
    } else {
        signer_get(signers.drop_first(), name)
    }
}

proof fn lemma_signer_get_at(signers: Seq<(Vec<u8>, Xpub)>, name: Seq<u8>, i: int)
    requires
        0 <= i < signers.len(),
        signers[i].0@ == name,
        forall|j: int| 0 <= j < i ==> #[trigger] signers[j].0@ != name,
    ensures
        signer_get(signers, name) == signers[i].1,
    decreases i,
{
    if i == 0 {
    } else {
        assert(signers.drop_first()[i - 1] == signers[i]);
        assert(forall|j: int| 0 <= j < i - 1 ==> #[trigger] signers.drop_first()[j].0@ != name);
        lemma_signer_get_at(signers.drop_first(), name, i - 1);
    }
}

/// Looks a signer name up in the map; first matching entry wins.
pub fn signer_lookup(signers: &Vec<(Vec<u8>, Xpub)>, name: &Vec<u8>) -> (r: Option<Xpub>)
    ensures
        r is Some <==> signer_has(signers@, name@),
        r matches Some(x) ==> x == signer_get(signers@, name@),
{
    let n = signers.len();
    let mut i: usize = 0;
    while i < n
        invariant
            n == signers@.len(),
            0 <= i <= n,
            forall|j: int| 0 <= j < i ==> #[trigger] signers@[j].0@ != name@,
        decreases n - i,
    {
        if bytes_eq(&signers[i].0, name) {
            proof {
                lemma_signer_get_at(signers@, name@, i as int);
            }
            return Some(signers[i].1);
        }
        i += 1;
    }
    None
}

/// Whether the signer map view holds an entry under `name`.
pub open spec fn signer_has_v(sg: Seq<(Seq<u8>, u64)>, name: Seq<u8>) -> bool {
    exists|i: int| 0 <= i < sg.len() && #[trigger] sg[i].0 == name
}

/// The key material recorded under `name` in a signer map view.
pub open spec fn signer_get_v(sg: Seq<(Seq<u8>, u64)>, name: Seq<u8>) -> u64
    decreases sg.len(),
{
    if sg.len() == 0 {
        0
    } else if sg[0].0 == name {
        sg[0].1
    } else {
        signer_get_v(sg.drop_first(), name)
    }
}

/// The signer lookups agree with their view-level form.
pub proof fn lemma_signer_view_agree(signers: Seq<(Vec<u8>, Xpub)>, name: Seq<u8>)
    ensures
        signer_has(signers, name) == signer_has_v(
            signers.map_values(|p: (Vec<u8>, Xpub)| (p.0@, p.1.key)),
            name,
        ),
        signer_has(signers, name) ==> signer_get(signers, name).key == signer_get_v(
            signers.map_values(|p: (Vec<u8>, Xpub)| (p.0@, p.1.key)),
            name,
        ),
    decreases signers.len(),
{
    let sg = signers.map_values(|p: (Vec<u8>, Xpub)| (p.0@, p.1.key));
    if signers.len() == 0 {
    } else {
        lemma_signer_view_agree(signers.drop_first(), name);
        assert(signers.drop_first().map_values(|p: (Vec<u8>, Xpub)| (p.0@, p.1.key))
            =~= sg.drop_first());
        if signer_has(signers, name) {
            let i = choose|i: int|
                0 <= i < signers.len() && #[trigger] signers[i].0@ == name;
            assert(sg[i].0 == name);
        }
        if signer_has_v(sg, name) {
            let i = choose|i: int| 0 <= i < sg.len() && #[trigger] sg[i].0 == name;
            assert(signers[i].0@ == name);
        }
        if signers[0].0@ == name {
        } else {
            if signer_has(signers, name) {
                let i = choose|i: int|
                    0 <= i < signers.len() && #[trigger] signers[i].0@ == name;
                assert(signers.drop_first()[i - 1].0@ == name);
                assert(signer_has(signers.drop_first(), name));
            }
        }
    }
}

/// Failure of descriptor translation: a placeholder that the signer map
/// does not resolve. Carries the unresolved name.
#[derive(Clone, PartialEq, Eq, Debug)]
pub enum TranslateError {
    UnresolvedSigner(Vec<u8>),
}

/// Translates every named placeholder of a template into a concrete key.
/// Total and eager: fails with the first unresolved name, producing no
/// partial descriptor; succeeds exactly when every placeholder resolves.
pub fn translate(template: &ScriptTemplate, signers: &Vec<(Vec<u8>, Xpub)>) -> (r: Result<
    StdDescr,
    TranslateError,
>)
    ensures
        (r is Ok) <==> (forall|j: int|
            0 <= j < template.keys@.len() ==> signer_has(signers@, #[trigger] template.keys@[j]@)),
        r matches Ok(d) ==> {
            &&& d.kind == template.kind
            &&& d.keys@.len() == template.keys@.len()
            &&& forall|j: int|
                0 <= j < d.keys@.len() ==> #[trigger] d.keys@[j] == signer_get(
                    signers@,
                    template.keys@[j]@,
                )
        },
        r matches Err(e) ==> exists|j: int|
            {
                &&& 0 <= j < template.keys@.len()
                &&& !signer_has(signers@, #[trigger] template.keys@[j]@)
                &&& (e matches TranslateError::UnresolvedSigner(n) && n@ == template.keys@[j]@)
            },
{
    let n = template.keys.len();
    let mut keys: Vec<Xpub> = Vec::new();
    let mut i: usize = 0;
    while i < n
        invariant
            n == template.keys@.len(),
            0 <= i <= n,
            keys@.len() == i,
            forall|j: int| 0 <= j < i ==> signer_has(signers@, #[trigger] template.keys@[j]@),
            forall|j: int|
                0 <= j < i ==> #[trigger] keys@[j] == signer_get(signers@, template.keys@[j]@),
        decreases n - i,
    {
        match signer_lookup(signers, &template.keys[i]) {
            Some(x) => {
                keys.push(x);
            },
            None => {
                return Err(TranslateError::UnresolvedSigner(crate::util::clone_bytes(&template.keys[i])));
            },
        }
        i += 1;
    }
    Ok(StdDescr { kind: template.kind, keys })
}

/// Whether a keychain sequence holds no keychain twice.
pub open spec fn keychains_unique(s: Seq<Keychain>) -> bool {
    forall|i: int, j: int| 0 <= i < j < s.len() ==> #[trigger] s[i] != #[trigger] s[j]
}

/// Immutable wallet descriptor: concrete script descriptor, the set of
/// keychains it is derived under, and the chain. Contains no private keys.
#[derive(Clone, PartialEq, Eq, Debug)]
pub struct WalletDescr {
    pub script_pubkey: StdDescr,
    pub keychains: Vec<Keychain>,
    pub chain: Chain,
}

impl WalletDescr {
    /// Well-formedness: at least one keychain, each listed once.
    pub open spec fn wf(self) -> bool {
        &&& self.keychains@.len() > 0
        &&& keychains_unique(self.keychains@)
    }

    /// Whether derivation under `keychain` is part of this wallet.
    pub open spec fn spec_has_keychain(self, keychain: Keychain) -> bool {
        self.keychains@.contains(keychain)
    }

    /// Builds a descriptor over the two standard keychains: receiving
    /// (number 0) and change (number 1).
    pub fn new(script_pubkey: StdDescr, chain: Chain) -> (r: WalletDescr)
        ensures
            r.wf(),
            r.script_pubkey == script_pubkey,
            r.chain == chain,
            r.keychains@ =~= seq![Keychain { number: 0u8 }, Keychain { number: 1u8 }],
    {
        let keychains = vec![Keychain { number: 0 }, Keychain { number: 1 }];
        WalletDescr { script_pubkey, keychains, chain }
    }

    /// Whether derivation under `keychain` is part of this wallet.
    pub fn has_keychain(&self, keychain: Keychain) -> (r: bool)
        ensures
            r == self.spec_has_keychain(keychain),
    {
        let n = self.keychains.len();
        let mut i: usize = 0;
        while i < n
            invariant
                n == self.keychains@.len(),
                0 <= i <= n,
                forall|j: int| 0 <= j < i ==> #[trigger] self.keychains@[j] != keychain,
            decreases n - i,
        {
            if self.keychains[i].number == keychain.number {
                assert(self.keychains@[i as int] == keychain);
                return true;
            }
            i += 1;
        }
        assert(!self.keychains@.contains(keychain));
        false
    }

    /// Derives the output script for (keychain, index). Deterministic:
    /// repeated calls with identical inputs return the identical script.
    pub fn derive(&self, keychain: Keychain, index: u32) -> (r: Vec<u8>)
        requires
            self.wf(),
            self.spec_has_keychain(keychain),
        ensures
            r@ == spec_derive(self.script_pubkey, keychain, index),
    {
        self.script_pubkey.derive(keychain, index)
    }
}

/// Persisted descriptor representation: a signer-name-to-key map, a script
/// template referencing those names, the keychain set and the chain.
#[derive(Clone, PartialEq, Eq, Debug)]
pub struct DescriptorCoder {
    pub signers: Vec<(Vec<u8>, Xpub)>,
    pub script_pubkey: ScriptTemplate,
    pub keychains: Vec<Keychain>,
    pub chain: Chain,
}

impl DescriptorCoder {
    /// Well-formedness: a valid keychain set, as a wallet descriptor needs.
    pub open spec fn wf(self) -> bool {
        &&& self.keychains@.len() > 0
        &&& keychains_unique(self.keychains@)
    }
}

impl WalletDescr {
    /// The only supported construction path from a persisted representation:
    /// translates every placeholder exactly once. Fails with a
    /// signer-resolution error — and produces no partial descriptor — exactly
    /// when some placeholder lacks a signer-map entry.
    pub fn from_coder(coder: &DescriptorCoder) -> (r: Result<WalletDescr, TranslateError>)
        requires
            coder.wf(),
        ensures
            (r is Ok) <==> (forall|j: int|
                0 <= j < coder.script_pubkey.keys@.len() ==> signer_has(
                    coder.signers@,
                    #[trigger] coder.script_pubkey.keys@[j]@,
                )),
            r matches Ok(w) ==> {
                &&& w.wf()
                &&& w.keychains@ == coder.keychains@
                &&& w.chain == coder.chain
                &&& w.script_pubkey.kind == coder.script_pubkey.kind
                &&& w.script_pubkey.keys@.len() == coder.script_pubkey.keys@.len()
                &&& forall|j: int|
                    0 <= j < w.script_pubkey.keys@.len()
                        ==> #[trigger] w.script_pubkey.keys@[j] == signer_get(
                        coder.signers@,
                        coder.script_pubkey.keys@[j]@,
                    )
            },
            r matches Err(e) ==> exists|j: int|
                {
                    &&& 0 <= j < coder.script_pubkey.keys@.len()
                    &&& !signer_has(coder.signers@, #[trigger] coder.script_pubkey.keys@[j]@)
                    &&& (e matches TranslateError::UnresolvedSigner(n) && n@
                        == coder.script_pubkey.keys@[j]@)
                },
    {
        let script_pubkey = match translate(&coder.script_pubkey, &coder.signers) {
            Ok(d) => d,
            Err(e) => {
                return Err(e);
            },
        };
        Ok(WalletDescr {
            script_pubkey,
            keychains: crate::util::clone_keychains(&coder.keychains),
            chain: coder.chain,
        })
    }
}

} // verus!
