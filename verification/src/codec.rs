//! Byte-level encoding primitives shared by the descriptor resolver and the
//! persistence codec: big-endian integers and length-prefixed byte strings.

use vstd::prelude::*;
use crate::data::Chain;
use crate::data::Keychain;
use crate::descriptors::DescrKind;
use crate::descriptors::DescriptorCoder;
use crate::descriptors::Xpub;
use crate::descriptors::ScriptTemplate;
use crate::descriptors::keychains_unique;
use crate::descriptors::kind_tag;

verus! {

/// Big-endian bytes of a 64-bit integer.
#[verifier::opaque]
pub open spec fn u64_be(x: u64) -> Seq<u8> {
    seq![
        (x >> 56) as u8,
        (x >> 48) as u8,
        (x >> 40) as u8,
        (x >> 32) as u8,
        (x >> 24) as u8,
        (x >> 16) as u8,
        (x >> 8) as u8,
        x as u8,
    ]
}

/// The big-endian bytes of an integer are eight.
pub broadcast proof fn lemma_u64_be_len(x: u64)
    ensures
        (#[trigger] u64_be(x)).len() == 8,
{
    reveal(u64_be);
}

/// The integer read back from eight big-endian bytes.
pub open spec fn u64_from_be(b0: u8, b1: u8, b2: u8, b3: u8, b4: u8, b5: u8, b6: u8, b7: u8) -> u64 {
    ((b0 as u64) << 56) | ((b1 as u64) << 48) | ((b2 as u64) << 40) | ((b3 as u64) << 32)
        | ((b4 as u64) << 24) | ((b5 as u64) << 16) | ((b6 as u64) << 8) | (b7 as u64)
}

/// Reading back the big-endian bytes of an integer yields the integer.
pub proof fn lemma_u64_be_round_trip(x: u64)
    ensures
        u64_from_be(
            (x >> 56) as u8,
            (x >> 48) as u8,
            (x >> 40) as u8,
            (x >> 32) as u8,
            (x >> 24) as u8,
            (x >> 16) as u8,
            (x >> 8) as u8,
            x as u8,
        ) == x,
{
    assert((((x >> 56) as u8 as u64) << 56) | (((x >> 48) as u8 as u64) << 48)
        | (((x >> 40) as u8 as u64) << 40) | (((x >> 32) as u8 as u64) << 32)
        | (((x >> 24) as u8 as u64) << 24) | (((x >> 16) as u8 as u64) << 16)
        | (((x >> 8) as u8 as u64) << 8) | (x as u8 as u64) == x) by (bit_vector);
}

/// Appends the big-endian bytes of `x`.
pub fn push_u64_be(out: &mut Vec<u8>, x: u64)
    ensures
        final(out)@ == old(out)@ + u64_be(x),
{
    out.push((x >> 56) as u8);
    out.push((x >> 48) as u8);
    out.push((x >> 40) as u8);
    out.push((x >> 32) as u8);
    out.push((x >> 24) as u8);
    out.push((x >> 16) as u8);
    out.push((x >> 8) as u8);
    out.push(x as u8);
    proof {
        reveal(u64_be);
        assert(out@ =~= old(out)@ + u64_be(x));
    }
}

/// Reads eight big-endian bytes starting at `pos`.
pub fn read_u64_be(bytes: &Vec<u8>, pos: usize) -> (r: u64)
    requires
        pos + 8 <= bytes@.len(),
    ensures
        r == u64_from_be(
            bytes@[pos as int],
            bytes@[pos as int + 1],
            bytes@[pos as int + 2],
            bytes@[pos as int + 3],
            bytes@[pos as int + 4],
            bytes@[pos as int + 5],
            bytes@[pos as int + 6],
            bytes@[pos as int + 7],
        ),
{
    let n = bytes.len();
    ((bytes[pos] as u64) << 56) | ((bytes[pos + 1] as u64) << 48) | ((bytes[pos + 2] as u64) << 40)
        | ((bytes[pos + 3] as u64) << 32) | ((bytes[pos + 4] as u64) << 24)
        | ((bytes[pos + 5] as u64) << 16) | ((bytes[pos + 6] as u64) << 8)
        | (bytes[pos + 7] as u64)
}

/// Mathematical form of a persisted descriptor representation: what the
/// byte codec encodes and decodes.
pub struct CoderView {
    pub signers: Seq<(Seq<u8>, u64)>,
    pub kind: DescrKind,
    pub template_keys: Seq<Seq<u8>>,
    pub keychains: Seq<u8>,
    pub chain: Chain,
}

impl View for DescriptorCoder {
    type V = CoderView;

    open spec fn view(&self) -> CoderView {
        CoderView {
            signers: self.signers@.map_values(|p: (Vec<u8>, Xpub)| (p.0@, p.1.key)),
            kind: self.script_pubkey.kind,
            template_keys: self.script_pubkey.keys@.map_values(|k: Vec<u8>| k@),
            keychains: self.keychains@.map_values(|k: Keychain| k.number),
            chain: self.chain,
        }
    }
}

/// Byte tag under which a chain identifier is persisted.
pub open spec fn chain_tag(c: Chain) -> u8 {
    match c {
        Chain::Mainnet => 0u8,
        Chain::Testnet3 => 1u8,
        Chain::Signet => 2u8,
        Chain::Regtest => 3u8,
    }
}

/// Whether a byte sequence holds no byte twice.
pub open spec fn bytes_unique(s: Seq<u8>) -> bool {
    forall|i: int, j: int| 0 <= i < j < s.len() ==> #[trigger] s[i] != #[trigger] s[j]
}

/// Views the codec can represent: every count and length fits its prefix,
/// and the keychain set is valid (nonempty, no duplicates).
pub open spec fn wf_view(v: CoderView) -> bool {
    &&& v.signers.len() <= u64::MAX
    &&& (forall|i: int| 0 <= i < v.signers.len() ==> #[trigger] v.signers[i].0.len() <= u64::MAX)
    &&& v.template_keys.len() <= u64::MAX
    &&& (forall|i: int|
        0 <= i < v.template_keys.len() ==> #[trigger] v.template_keys[i].len() <= u64::MAX)
    &&& v.keychains.len() <= u64::MAX
    &&& v.keychains.len() > 0
    &&& bytes_unique(v.keychains)
}

/// A length-prefixed byte string.
pub open spec fn enc_name(n: Seq<u8>) -> Seq<u8> {
    u64_be(n.len() as u64) + n
}

/// Signer entries in order: length-prefixed name, then the key material.
pub open spec fn enc_signers(s: Seq<(Seq<u8>, u64)>) -> Seq<u8>
    decreases s.len(),
{
    if s.len() == 0 {
        Seq::<u8>::empty()
    } else {
        enc_signers(s.drop_last()) + enc_name(s.last().0) + u64_be(s.last().1)
    }
}

/// Placeholder names in order, each length-prefixed.
pub open spec fn enc_names(s: Seq<Seq<u8>>) -> Seq<u8>
    decreases s.len(),
{
    if s.len() == 0 {
        Seq::<u8>::empty()
    } else {
        enc_names(s.drop_last()) + enc_name(s.last())
    }
}

/// The bytes a persisted descriptor representation is written as: signer
/// count and entries, script kind, placeholder count and names, keychain
/// count and numbers, chain tag.
pub open spec fn spec_encode(v: CoderView) -> Seq<u8> {
    u64_be(v.signers.len() as u64) + enc_signers(v.signers) + seq![kind_tag(v.kind)] + u64_be(
        v.template_keys.len() as u64,
    ) + enc_names(v.template_keys) + u64_be(v.keychains.len() as u64) + v.keychains + seq![
        chain_tag(v.chain),
    ]
}

/// Reads one byte at `i`.
pub open spec fn parse_u8p(s: Seq<u8>, i: int) -> Option<(u8, int)> {
    if 0 <= i && i + 1 <= s.len() {
        Some((s[i], i + 1))
    } else {
        None
    }
}

/// Reads a big-endian 64-bit integer at `i`.
pub open spec fn parse_u64p(s: Seq<u8>, i: int) -> Option<(u64, int)> {
    if 0 <= i && i + 8 <= s.len() {
        Some(
            (
                u64_from_be(s[i], s[i + 1], s[i + 2], s[i + 3], s[i + 4], s[i + 5], s[i + 6], s[i + 7]),
                i + 8,
            ),
        )
    } else {
        None
    }
}

/// Reads a length-prefixed byte string at `i`.
pub open spec fn parse_name(s: Seq<u8>, i: int) -> Option<(Seq<u8>, int)> {
    match parse_u64p(s, i) {
        Some((len, j)) => if j + len <= s.len() {
            Some((s.subrange(j, j + len), j + len))
        } else {
            None
        },
        None => None,
    }
}

/// Reads `n` signer entries at `i`.
pub open spec fn parse_signers(s: Seq<u8>, i: int, n: nat) -> Option<(Seq<(Seq<u8>, u64)>, int)>
    decreases n,
{
    if n == 0 {
        Some((Seq::<(Seq<u8>, u64)>::empty(), i))
    } else {
        match parse_signers(s, i, (n - 1) as nat) {
            Some((pre, j)) => match parse_name(s, j) {
                Some((nm, k)) => match parse_u64p(s, k) {
                    Some((x, l)) => Some((pre.push((nm, x)), l)),
                    None => None,
                },
                None => None,
            },
            None => None,
        }
    }
}

/// Reads `n` length-prefixed names at `i`.
pub open spec fn parse_names(s: Seq<u8>, i: int, n: nat) -> Option<(Seq<Seq<u8>>, int)>
    decreases n,
{
    if n == 0 {
        Some((Seq::<Seq<u8>>::empty(), i))
    } else {
        match parse_names(s, i, (n - 1) as nat) {
            Some((pre, j)) => match parse_name(s, j) {
                Some((nm, k)) => Some((pre.push(nm), k)),
                None => None,
            },
            None => None,
        }
    }
}

/// The view read back from a byte string, if it is exactly one well-formed
/// encoding; `None` on any truncated, malformed or over-long input.
pub open spec fn spec_decode(s: Seq<u8>) -> Option<CoderView> {
    match parse_u64p(s, 0) {
        Some((ns, i1)) => match parse_signers(s, i1, ns as nat) {
            Some((sg, i2)) => match parse_u8p(s, i2) {
                Some((kt, i3)) => if kt <= 1 {
                    let kind = if kt == 0 {
                        DescrKind::Wpkh
                    } else {
                        DescrKind::TrKey
                    };
                    match parse_u64p(s, i3) {
                        Some((nt, i4)) => match parse_names(s, i4, nt as nat) {
                            Some((tk, i5)) => match parse_u64p(s, i5) {
                                Some((nk, i6)) => if i6 + nk <= s.len() && nk > 0 {
                                    let kcs = s.subrange(i6, i6 + nk);
                                    let i7 = i6 + nk;
                                    match parse_u8p(s, i7) {
                                        Some((ct, i8)) => if ct <= 3 && i8 == s.len()
                                            && bytes_unique(kcs) {
                                            let chain = if ct == 0 {
                                                Chain::Mainnet
                                            } else if ct == 1 {
                                                Chain::Testnet3
                                            } else if ct == 2 {
                                                Chain::Signet
                                            } else {
                                                Chain::Regtest
                                            };
                                            Some(
                                                CoderView {
                                                    signers: sg,
                                                    kind,
                                                    template_keys: tk,
                                                    keychains: kcs,
                                                    chain,
                                                },
                                            )
                                        } else {
                                            None
                                        },
                                        None => None,
                                    }
                                } else {
                                    None
                                },
                                None => None,
                            },
                            None => None,
                        },
                        None => None,
                    }
                } else {
                    None
                },
                None => None,
            },
            None => None,
        },
        None => None,
    }
}

proof fn lemma_subrange_split(s: Seq<u8>, i: int, a: Seq<u8>, b: Seq<u8>)
    requires
        0 <= i,
        i + a.len() + b.len() <= s.len(),
        s.subrange(i, i + a.len() + b.len()) == a + b,
    ensures
        s.subrange(i, i + a.len()) == a,
        s.subrange(i + a.len(), i + a.len() + b.len()) == b,
{
    assert(s.subrange(i, i + a.len()) =~= a) by {
        assert forall|k: int| 0 <= k < a.len() implies s.subrange(i, i + a.len())[k] == a[k] by {
            assert(s.subrange(i, i + a.len() + b.len())[k] == (a + b)[k]);
        }
    }
    assert(s.subrange(i + a.len(), i + a.len() + b.len()) =~= b) by {
        assert forall|k: int| 0 <= k < b.len() implies s.subrange(
            i + a.len(),
            i + a.len() + b.len(),
        )[k] == b[k] by {
            assert(s.subrange(i + a.len(), i + a.len() + b.len())[k] == s[i + a.len() + k]);
            assert(s.subrange(i, i + a.len() + b.len())[a.len() + k] == s[i + a.len() + k]);
            assert((a + b)[a.len() + k] == b[k]);
        }
    }
}

proof fn lemma_parse_u64_at(s: Seq<u8>, i: int, x: u64)
    requires
        0 <= i,
        i + 8 <= s.len(),
        s.subrange(i, i + 8) == u64_be(x),
    ensures
        parse_u64p(s, i) == Some((x, i + 8)),
{
    reveal(u64_be);
    assert forall|k: int| 0 <= k < 8 implies s[i + k] == u64_be(x)[k] by {
        assert(s.subrange(i, i + 8)[k] == s[i + k]);
    }
    assert(s[i + 0] == u64_be(x)[0]);
    assert(s[i + 1] == u64_be(x)[1]);
    assert(s[i + 2] == u64_be(x)[2]);
    assert(s[i + 3] == u64_be(x)[3]);
    assert(s[i + 4] == u64_be(x)[4]);
    assert(s[i + 5] == u64_be(x)[5]);
    assert(s[i + 6] == u64_be(x)[6]);
    assert(s[i + 7] == u64_be(x)[7]);
    lemma_u64_be_round_trip(x);
}

proof fn lemma_parse_u8_at(s: Seq<u8>, i: int, x: u8)
    requires
        0 <= i,
        i + 1 <= s.len(),
        s.subrange(i, i + 1) == seq![x],
    ensures
        parse_u8p(s, i) == Some((x, i + 1)),
{
    assert(s.subrange(i, i + 1)[0] == s[i]);
}

proof fn lemma_parse_name_at(s: Seq<u8>, i: int, nm: Seq<u8>)
    requires
        0 <= i,
        nm.len() <= u64::MAX,
        i + enc_name(nm).len() <= s.len(),
        s.subrange(i, i + enc_name(nm).len()) == enc_name(nm),
    ensures
        parse_name(s, i) == Some((nm, i + 8 + nm.len())),
{
    broadcast use lemma_u64_be_len;

    lemma_subrange_split(s, i, u64_be(nm.len() as u64), nm);
    lemma_parse_u64_at(s, i, nm.len() as u64);
    assert((nm.len() as u64) as int == nm.len());
}

/// Bounds every signer name length so its prefix can carry it.
pub open spec fn signers_bounded(sg: Seq<(Seq<u8>, u64)>) -> bool {
    forall|i: int| 0 <= i < sg.len() ==> #[trigger] sg[i].0.len() <= u64::MAX
}

/// Bounds every placeholder name length so its prefix can carry it.
pub open spec fn names_bounded(tk: Seq<Seq<u8>>) -> bool {
    forall|i: int| 0 <= i < tk.len() ==> #[trigger] tk[i].len() <= u64::MAX
}

proof fn lemma_parse_signers_at(s: Seq<u8>, i: int, sg: Seq<(Seq<u8>, u64)>)
    requires
        0 <= i,
        signers_bounded(sg),
        i + enc_signers(sg).len() <= s.len(),
        s.subrange(i, i + enc_signers(sg).len()) == enc_signers(sg),
    ensures
        parse_signers(s, i, sg.len()) == Some((sg, i + enc_signers(sg).len())),
    decreases sg.len(),
{
    broadcast use lemma_u64_be_len;

    if sg.len() == 0 {
    } else {
        let dl = sg.drop_last();
        let nm = sg.last().0;
        let x = sg.last().1;
        assert(signers_bounded(dl)) by {
            assert(forall|k: int| 0 <= k < dl.len() ==> dl[k] == sg[k]);
        }
        let tail = enc_name(nm) + u64_be(x);
        assert(enc_signers(sg) =~= enc_signers(dl) + tail);
        lemma_subrange_split(s, i, enc_signers(dl), tail);
        lemma_parse_signers_at(s, i, dl);
        let j = i + enc_signers(dl).len();
        lemma_subrange_split(s, j, enc_name(nm), u64_be(x));
        lemma_parse_name_at(s, j, nm);
        let k = j + enc_name(nm).len();
        lemma_parse_u64_at(s, k, x);
        assert(dl.push(sg.last()) =~= sg);
    }
}

proof fn lemma_parse_names_at(s: Seq<u8>, i: int, tk: Seq<Seq<u8>>)
    requires
        0 <= i,
        names_bounded(tk),
        i + enc_names(tk).len() <= s.len(),
        s.subrange(i, i + enc_names(tk).len()) == enc_names(tk),
    ensures
        parse_names(s, i, tk.len()) == Some((tk, i + enc_names(tk).len())),
    decreases tk.len(),
{
    broadcast use lemma_u64_be_len;

    if tk.len() == 0 {
    } else {
        let dl = tk.drop_last();
        let nm = tk.last();
        assert(names_bounded(dl)) by {
            assert(forall|k: int| 0 <= k < dl.len() ==> dl[k] == tk[k]);
        }
        lemma_subrange_split(s, i, enc_names(dl), enc_name(nm));
        lemma_parse_names_at(s, i, dl);
        let j = i + enc_names(dl).len();
        lemma_parse_name_at(s, j, nm);
        assert(dl.push(nm) =~= tk);
    }
}

/// Law: the codec round-trips. Decoding the encoding of any representable
/// view yields that view again — same signer map, script template, keychain
/// set and chain, hence the same derived scripts after translation.
#[verifier::rlimit(100)]
#[verifier::spinoff_prover]
pub proof fn lemma_codec_round_trip(v: CoderView)
    requires
        wf_view(v),
        signers_bounded(v.signers),
        names_bounded(v.template_keys),
    ensures
        spec_decode(spec_encode(v)) == Some(v),
{
    broadcast use lemma_u64_be_len;

    let s = spec_encode(v);
    let p1 = u64_be(v.signers.len() as u64);
    let p2 = enc_signers(v.signers);
    let p3 = seq![kind_tag(v.kind)];
    let p4 = u64_be(v.template_keys.len() as u64);
    let p5 = enc_names(v.template_keys);
    let p6 = u64_be(v.keychains.len() as u64);
    let p7 = v.keychains;
    let p8 = seq![chain_tag(v.chain)];
    let i1 = p1.len() as int;
    let i2 = i1 + p2.len();
    let i3 = i2 + p3.len();
    let i4 = i3 + p4.len();
    let i5 = i4 + p5.len();
    let i6 = i5 + p6.len();
    let i7 = i6 + p7.len();
    let i8 = i7 + p8.len();
    let e1 = p1 + p2;
    let e2 = e1 + p3;
    let e3 = e2 + p4;
    let e4 = e3 + p5;
    let e5 = e4 + p6;
    let e6 = e5 + p7;
    assert(s == e6 + p8);
    assert(s.subrange(0, s.len() as int) =~= s);
    lemma_subrange_split(s, 0, e6, p8);
    lemma_subrange_split(s, 0, e5, p7);
    lemma_subrange_split(s, 0, e4, p6);
    lemma_subrange_split(s, 0, e3, p5);
    lemma_subrange_split(s, 0, e2, p4);
    lemma_subrange_split(s, 0, e1, p3);
    lemma_subrange_split(s, 0, p1, p2);
    lemma_parse_u64_at(s, 0, v.signers.len() as u64);
    assert(parse_u64p(s, 0) == Some(((v.signers.len() as u64), i1)));
    assert((v.signers.len() as u64) as nat == v.signers.len());
    lemma_parse_signers_at(s, i1, v.signers);
    assert(parse_signers(s, i1, v.signers.len()) == Some((v.signers, i2)));
    lemma_parse_u8_at(s, i2, kind_tag(v.kind));
    assert(kind_tag(v.kind) <= 1);
    lemma_parse_u64_at(s, i3, v.template_keys.len() as u64);
    assert((v.template_keys.len() as u64) as nat == v.template_keys.len());
    lemma_parse_names_at(s, i4, v.template_keys);
    assert(parse_names(s, i4, v.template_keys.len()) == Some((v.template_keys, i5)));
    lemma_parse_u64_at(s, i5, v.keychains.len() as u64);
    assert((v.keychains.len() as u64) as int == v.keychains.len() as int);
    assert(s.subrange(i6, i6 + v.keychains.len()) == v.keychains);
    lemma_parse_u8_at(s, i7, chain_tag(v.chain));
    assert(chain_tag(v.chain) <= 3);
    assert(i8 == s.len());
    assert(spec_decode(s) == Some(v));
}

/// Failure of decoding a persisted descriptor representation: truncated,
/// malformed or over-long input.
#[derive(Clone, Copy, PartialEq, Eq, Structural, Debug)]
pub enum DecodeError {
    Malformed,
}

/// Appends a copy of `data`.
pub fn push_bytes(out: &mut Vec<u8>, data: &Vec<u8>)
    ensures
        final(out)@ == old(out)@ + data@,
{
    let n = data.len();
    let mut i: usize = 0;
    while i < n
        invariant
            n == data@.len(),
            0 <= i <= n,
            out@ == old(out)@ + data@.take(i as int),
        decreases n - i,
    {
        out.push(data[i]);
        proof {
            assert(data@.take(i + 1 as int) =~= data@.take(i as int).push(data@[i as int]));
            assert(out@ =~= old(out)@ + data@.take(i + 1 as int));
        }
        i += 1;
    }
    proof {
        assert(data@.take(n as int) =~= data@);
    }
}

/// Copies `len` bytes starting at `pos`.
pub fn read_bytes(bytes: &Vec<u8>, pos: usize, len: usize) -> (r: Vec<u8>)
    requires
        pos + len <= bytes@.len(),
    ensures
        r@ == bytes@.subrange(pos as int, pos as int + len as int),
{
    let total = bytes.len();
    let mut out: Vec<u8> = Vec::new();
    let mut i: usize = 0;
    while i < len
        invariant
            total == bytes@.len(),
            pos + len <= bytes@.len(),
            0 <= i <= len,
            out@ == bytes@.subrange(pos as int, pos as int + i as int),
        decreases len - i,
    {
        out.push(bytes[pos + i]);
        proof {
            assert(out@ =~= bytes@.subrange(pos as int, pos as int + (i + 1) as int));
        }
        i += 1;
    }
    out
}

/// The signer entries of the map, as the codec sees them.
pub open spec fn signers_view(s: Seq<(Vec<u8>, Xpub)>) -> Seq<(Seq<u8>, u64)> {
    s.map_values(|p: (Vec<u8>, Xpub)| (p.0@, p.1.key))
}

/// The placeholder names of a template, as the codec sees them.
pub open spec fn names_view(s: Seq<Vec<u8>>) -> Seq<Seq<u8>> {
    s.map_values(|k: Vec<u8>| k@)
}

/// The keychain numbers, as the codec sees them.
pub open spec fn keychains_view(s: Seq<Keychain>) -> Seq<u8> {
    s.map_values(|k: Keychain| k.number)
}

/// Writes a persisted descriptor representation as bytes, exactly the
/// encoding the codec's decoder reads back.
pub fn encode(coder: &DescriptorCoder) -> (r: Vec<u8>)
    ensures
        r@ == spec_encode(coder@),
{
    let mut out: Vec<u8> = Vec::new();
    let ghost sgv = coder@.signers;
    push_u64_be(&mut out, coder.signers.len() as u64);
    let n = coder.signers.len();
    let mut i: usize = 0;
    while i < n
        invariant
            n == coder.signers@.len(),
            sgv == coder@.signers,
            sgv.len() == n,
            0 <= i <= n,
            forall|j: int| 0 <= j < n ==> #[trigger] sgv[j] == (coder.signers@[j].0@, coder.signers@[j].1.key),
            out@ == u64_be(n as u64) + enc_signers(sgv.take(i as int)),
        decreases n - i,
    {
        push_u64_be(&mut out, coder.signers[i].0.len() as u64);
        push_bytes(&mut out, &coder.signers[i].0);
        push_u64_be(&mut out, coder.signers[i].1.key);
        proof {
            assert(sgv.take(i + 1 as int).drop_last() =~= sgv.take(i as int));
            assert(out@ =~= u64_be(n as u64) + enc_signers(sgv.take(i + 1 as int)));
        }
        i += 1;
    }
    proof {
        assert(sgv.take(n as int) =~= sgv);
    }
    let tag: u8 = match coder.script_pubkey.kind {
        DescrKind::Wpkh => 0,
        DescrKind::TrKey => 1,
    };
    out.push(tag);
    let ghost tkv = coder@.template_keys;
    push_u64_be(&mut out, coder.script_pubkey.keys.len() as u64);
    let ghost mid = out@;
    let m = coder.script_pubkey.keys.len();
    let mut i: usize = 0;
    while i < m
        invariant
            m == coder.script_pubkey.keys@.len(),
            tkv == coder@.template_keys,
            tkv.len() == m,
            0 <= i <= m,
            forall|j: int| 0 <= j < m ==> #[trigger] tkv[j] == coder.script_pubkey.keys@[j]@,
            out@ == mid + enc_names(tkv.take(i as int)),
        decreases m - i,
    {
        push_u64_be(&mut out, coder.script_pubkey.keys[i].len() as u64);
        push_bytes(&mut out, &coder.script_pubkey.keys[i]);
        proof {
            assert(tkv.take(i + 1 as int).drop_last() =~= tkv.take(i as int));
            assert(out@ =~= mid + enc_names(tkv.take(i + 1 as int)));
        }
        i += 1;
    }
    proof {
        assert(tkv.take(m as int) =~= tkv);
    }
    let ghost kcv = coder@.keychains;
    push_u64_be(&mut out, coder.keychains.len() as u64);
    let ghost mid2 = out@;
    let k = coder.keychains.len();
    let mut i: usize = 0;
    while i < k
        invariant
            k == coder.keychains@.len(),
            kcv == coder@.keychains,
            kcv.len() == k,
            0 <= i <= k,
            forall|j: int| 0 <= j < k ==> #[trigger] kcv[j] == coder.keychains@[j].number,
            out@ == mid2 + kcv.take(i as int),
        decreases k - i,
    {
        out.push(coder.keychains[i].number);
        proof {
            assert(out@ =~= mid2 + kcv.take(i + 1 as int));
        }
        i += 1;
    }
    proof {
        assert(kcv.take(k as int) =~= kcv);
    }
    let ctag: u8 = match coder.chain {
        Chain::Mainnet => 0,
        Chain::Testnet3 => 1,
        Chain::Signet => 2,
        Chain::Regtest => 3,
    };
    out.push(ctag);
    proof {
        assert(out@ =~= spec_encode(coder@));
    }
    out
}

/// Reads one byte, mirroring the specification parser.
fn take_u8(bytes: &Vec<u8>, pos: usize) -> (r: Option<(u8, usize)>)
    ensures
        r matches Some(v) ==> parse_u8p(bytes@, pos as int) == Some((v.0, v.1 as int)),
        r is None ==> parse_u8p(bytes@, pos as int) is None,
{
    if pos < bytes.len() {
        Some((bytes[pos], pos + 1))
    } else {
        None
    }
}

/// Reads a big-endian 64-bit integer, mirroring the specification parser.
fn take_u64(bytes: &Vec<u8>, pos: usize) -> (r: Option<(u64, usize)>)
    ensures
        r matches Some(v) ==> parse_u64p(bytes@, pos as int) == Some((v.0, v.1 as int)),
        r is None ==> parse_u64p(bytes@, pos as int) is None,
{
    if pos <= bytes.len() && bytes.len() - pos >= 8 {
        Some((read_u64_be(bytes, pos), pos + 8))
    } else {
        None
    }
}

/// Reads a length-prefixed byte string, mirroring the specification parser.
fn take_name(bytes: &Vec<u8>, pos: usize) -> (r: Option<(Vec<u8>, usize)>)
    ensures
        r matches Some(v) ==> parse_name(bytes@, pos as int) == Some((v.0@, v.1 as int)),
        r is None ==> parse_name(bytes@, pos as int) is None,
{
    match take_u64(bytes, pos) {
        None => None,
        Some((len64, p)) => {
            if len64 <= (bytes.len() - p) as u64 {
                let len = len64 as usize;
                let nm = read_bytes(bytes, p, len);
                Some((nm, p + len))
            } else {
                None
            }
        },
    }
}

proof fn lemma_parse_signers_none_mono(s: Seq<u8>, i: int, m: nat, n: nat)
    requires
        m <= n,
        parse_signers(s, i, m) is None,
    ensures
        parse_signers(s, i, n) is None,
    decreases n,
{
    if n > m {
        lemma_parse_signers_none_mono(s, i, m, (n - 1) as nat);
    }
}

proof fn lemma_parse_names_none_mono(s: Seq<u8>, i: int, m: nat, n: nat)
    requires
        m <= n,
        parse_names(s, i, m) is None,
    ensures
        parse_names(s, i, n) is None,
    decreases n,
{
    if n > m {
        lemma_parse_names_none_mono(s, i, m, (n - 1) as nat);
    }
}

/// Reads `n` signer entries, mirroring the specification parser.
fn take_signers(bytes: &Vec<u8>, pos: usize, n: u64) -> (r: Option<(Vec<(Vec<u8>, Xpub)>, usize)>)
    ensures
        r matches Some(v) ==> parse_signers(bytes@, pos as int, n as nat) == Some(
            (signers_view(v.0@), v.1 as int),
        ),
        r is None ==> parse_signers(bytes@, pos as int, n as nat) is None,
{
    let mut out: Vec<(Vec<u8>, Xpub)> = Vec::new();
    let mut cur: usize = pos;
    let mut idx: u64 = 0;
    while idx < n
        invariant
            0 <= idx <= n,
            parse_signers(bytes@, pos as int, idx as nat) == Some(
                (signers_view(out@), cur as int),
            ),
        decreases n - idx,
    {
        let (nm, p2) = match take_name(bytes, cur) {
            Some(v) => v,
            None => {
                proof {
                    assert(parse_signers(bytes@, pos as int, (idx + 1) as nat) is None);
                    lemma_parse_signers_none_mono(bytes@, pos as int, (idx + 1) as nat, n as nat);
                }
                return None;
            },
        };
        let (x, p3) = match take_u64(bytes, p2) {
            Some(v) => v,
            None => {
                proof {
                    assert(parse_signers(bytes@, pos as int, (idx + 1) as nat) is None);
                    lemma_parse_signers_none_mono(bytes@, pos as int, (idx + 1) as nat, n as nat);
                }
                return None;
            },
        };
        out.push((nm, Xpub { key: x }));
        proof {
            assert(signers_view(out@) =~= signers_view(out@.drop_last()).push(
                (out@.last().0@, out@.last().1.key),
            ));
        }
        cur = p3;
        idx = idx + 1;
    }
    Some((out, cur))
}

/// Reads `n` placeholder names, mirroring the specification parser.
fn take_names(bytes: &Vec<u8>, pos: usize, n: u64) -> (r: Option<(Vec<Vec<u8>>, usize)>)
    ensures
        r matches Some(v) ==> parse_names(bytes@, pos as int, n as nat) == Some(
            (names_view(v.0@), v.1 as int),
        ),
        r is None ==> parse_names(bytes@, pos as int, n as nat) is None,
{
    let mut out: Vec<Vec<u8>> = Vec::new();
    let mut cur: usize = pos;
    let mut idx: u64 = 0;
    while idx < n
        invariant
            0 <= idx <= n,
            parse_names(bytes@, pos as int, idx as nat) == Some((names_view(out@), cur as int)),
        decreases n - idx,
    {
        let (nm, p2) = match take_name(bytes, cur) {
            Some(v) => v,
            None => {
                proof {
                    assert(parse_names(bytes@, pos as int, (idx + 1) as nat) is None);
                    lemma_parse_names_none_mono(bytes@, pos as int, (idx + 1) as nat, n as nat);
                }
                return None;
            },
        };
        out.push(nm);
        proof {
            assert(names_view(out@) =~= names_view(out@.drop_last()).push(out@.last()@));
        }
        cur = p2;
        idx = idx + 1;
    }
    Some((out, cur))
}

/// Reads `n` keychain numbers.
fn take_keychains(bytes: &Vec<u8>, pos: usize, n: usize) -> (r: Vec<Keychain>)
    requires
        pos + n <= bytes@.len(),
    ensures
        keychains_view(r@) == bytes@.subrange(pos as int, pos as int + n as int),
        r@.len() == n,
{
    let total = bytes.len();
    let mut out: Vec<Keychain> = Vec::new();
    let mut i: usize = 0;
    while i < n
        invariant
            total == bytes@.len(),
            pos + n <= bytes@.len(),
            0 <= i <= n,
            out@.len() == i,
            keychains_view(out@) =~= bytes@.subrange(pos as int, pos as int + i as int),
        decreases n - i,
    {
        out.push(Keychain { number: bytes[pos + i] });
        proof {
            assert(keychains_view(out@) =~= keychains_view(out@.drop_last()).push(
                out@.last().number,
            ));
            assert(bytes@.subrange(pos as int, pos as int + (i + 1) as int) =~= bytes@.subrange(
                pos as int,
                pos as int + i as int,
            ).push(bytes@[pos as int + i as int]));
        }
        i += 1;
    }
    out
}

/// Whether no keychain number repeats.
fn keychain_numbers_unique(v: &Vec<Keychain>) -> (r: bool)
    ensures
        r == bytes_unique(keychains_view(v@)),
{
    let n = v.len();
    let mut a: usize = 0;
    while a < n
        invariant
            n == v@.len(),
            0 <= a <= n,
            forall|i: int, j: int|
                0 <= i < j < n && i < a ==> #[trigger] v@[i].number != #[trigger] v@[j].number,
        decreases n - a,
    {
        let mut b: usize = a + 1;
        while b < n
            invariant
                n == v@.len(),
                0 <= a < b <= n,
                forall|j: int| a < j < b ==> #[trigger] v@[j].number != v@[a as int].number,
            decreases n - b,
        {
            if v[b].number == v[a].number {
                proof {
                    assert(keychains_view(v@)[a as int] == keychains_view(v@)[b as int]);
                }
                return false;
            }
            b = b + 1;
        }
        a = a + 1;
    }
    proof {
        assert forall|i: int, j: int|
            0 <= i < j < keychains_view(v@).len() implies #[trigger] keychains_view(v@)[i]
            != #[trigger] keychains_view(v@)[j] by {
            assert(v@[i].number != v@[j].number);
        }
    }
    true
}

/// Reads a persisted descriptor representation back from bytes. Returns the
/// representation exactly when the input is one well-formed encoding, and a
/// decoding error otherwise.
#[verifier::rlimit(100)]
#[verifier::spinoff_prover]
pub fn decode(bytes: &Vec<u8>) -> (r: Result<DescriptorCoder, DecodeError>)
    ensures
        r matches Ok(c) ==> c.wf() && spec_decode(bytes@) == Some(c@),
        r is Err ==> spec_decode(bytes@) is None,
{
    let (ns, p1) = match take_u64(bytes, 0) {
        Some(v) => v,
        None => {
            return Err(DecodeError::Malformed);
        },
    };
    let (signers, p2) = match take_signers(bytes, p1, ns) {
        Some(v) => v,
        None => {
            return Err(DecodeError::Malformed);
        },
    };
    let (kt, p3) = match take_u8(bytes, p2) {
        Some(v) => v,
        None => {
            return Err(DecodeError::Malformed);
        },
    };
    if kt > 1 {
        return Err(DecodeError::Malformed);
    }
    let kind = if kt == 0 {
        DescrKind::Wpkh
    } else {
        DescrKind::TrKey
    };
    let (nt, p4) = match take_u64(bytes, p3) {
        Some(v) => v,
        None => {
            return Err(DecodeError::Malformed);
        },
    };
    let (tkeys, p5) = match take_names(bytes, p4, nt) {
        Some(v) => v,
        None => {
            return Err(DecodeError::Malformed);
        },
    };
    let (nk, p6) = match take_u64(bytes, p5) {
        Some(v) => v,
        None => {
            return Err(DecodeError::Malformed);
        },
    };
    if nk == 0 || nk > (bytes.len() - p6) as u64 {
        return Err(DecodeError::Malformed);
    }
    let klen = nk as usize;
    let kcs = take_keychains(bytes, p6, klen);
    let p7 = p6 + klen;
    if !keychain_numbers_unique(&kcs) {
        return Err(DecodeError::Malformed);
    }
    let (ct, p8) = match take_u8(bytes, p7) {
        Some(v) => v,
        None => {
            return Err(DecodeError::Malformed);
        },
    };
    if ct > 3 {
        return Err(DecodeError::Malformed);
    }
    let chain = if ct == 0 {
        Chain::Mainnet
    } else if ct == 1 {
        Chain::Testnet3
    } else if ct == 2 {
        Chain::Signet
    } else {
        Chain::Regtest
    };
    if p8 != bytes.len() {
        return Err(DecodeError::Malformed);
    }
    let coder = DescriptorCoder {
        signers,
        script_pubkey: ScriptTemplate { kind, keys: tkeys },
        keychains: kcs,
        chain,
    };
    proof {
        assert(keychains_unique(coder.keychains@)) by {
            assert forall|i: int, j: int|
                0 <= i < j < coder.keychains@.len() implies #[trigger] coder.keychains@[i]
                != #[trigger] coder.keychains@[j] by {
                assert(keychains_view(coder.keychains@)[i] != keychains_view(coder.keychains@)[j]);
            }
        }
        assert(coder@.signers == signers_view(signers@));
        assert(coder@.template_keys == names_view(tkeys@));
        assert(coder@.keychains == keychains_view(kcs@));
        assert(spec_decode(bytes@) == Some(coder@));
    }
    Ok(coder)
}

} // verus!
