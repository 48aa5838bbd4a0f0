//! Payloads: what a block carries, and the bytes that stand for it when it is
//! hashed or signed.

use crate::hash::{sha256, sha256_of, zero_id, ByteHash, Hashable};
use vstd::bytes::{
    lemma_auto_spec_u64_to_from_le_bytes, spec_u64_from_le_bytes, spec_u64_to_le_bytes,
    u64_to_le_bytes,
};
use vstd::prelude::*;
use vstd::utf8::{encode_utf8, encode_utf8_decode_utf8};

verus! {

/// The currency in which a new wallet is funded.
pub const BOOTSTRAP_CURRENCY: u64 = 1;

/// The amount with which a new wallet is funded.
pub const BOOTSTRAP_AMOUNT: u64 = 100;

/// Registration of a wallet: its public key as PEM text.
#[derive(Debug)]
pub struct WalletData {
    pub pubkey: String,
}

/// A transfer between two wallets, each named by its identifier in
/// hexadecimal.
#[derive(Debug)]
pub struct TransactionData {
    pub from: String,
    pub to: String,
    pub currency: u64,
    pub amount: u64,
}

/// What a block carries.
#[derive(Debug)]
pub enum BlockData {
    Empty,
    Wallet(WalletData),
    Transaction(TransactionData),
}

/// The model of a transfer.
pub struct Transfer {
    pub from: Seq<char>,
    pub to: Seq<char>,
    pub currency: u64,
    pub amount: u64,
}

/// The model of a payload.
pub enum Payload {
    Empty,
    Wallet { pubkey: Seq<char> },
    Transfer(Transfer),
}

/// The identifier of the wallet that a public key registers: the hash of the
/// key's text.
pub open spec fn wallet_id(pubkey: Seq<char>) -> Seq<u8> {
    sha256_of(encode_utf8(pubkey))
}

/// A text field on the wire: the length of its UTF-8 form in eight bytes,
/// least significant first, then the UTF-8 form.
pub open spec fn text_field(text: Seq<char>) -> Seq<u8> {
    spec_u64_to_le_bytes(encode_utf8(text).len() as u64) + encode_utf8(text)
}

/// The wire form of a transfer's fields, in the order in which they are
/// declared.
pub open spec fn transfer_bytes(t: Transfer) -> Seq<u8> {
    text_field(t.from) + text_field(t.to) + spec_u64_to_le_bytes(t.currency)
        + spec_u64_to_le_bytes(t.amount)
}

/// The wire form of a payload: one byte for the variant, then its fields.
/// These are the bytes that are hashed into a block's identifier and that a
/// transfer's signature covers.
pub open spec fn payload_bytes(p: Payload) -> Seq<u8> {
    match p {
        Payload::Empty => seq![0u8],
        Payload::Wallet { pubkey } => seq![1u8] + text_field(pubkey),
        Payload::Transfer(t) => seq![2u8] + transfer_bytes(t),
    }
}

/// The content hash of a transfer: the hash of its two names, its currency and
/// its amount, one after the other.
pub open spec fn transfer_digest(t: Transfer) -> Seq<u8> {
    sha256_of(
        encode_utf8(t.from) + encode_utf8(t.to) + spec_u64_to_le_bytes(t.currency)
            + spec_u64_to_le_bytes(t.amount),
    )
}

/// The content hash of a payload; the empty payload has the zero identifier.
pub open spec fn payload_digest(p: Payload) -> Seq<u8> {
    match p {
        Payload::Empty => zero_id(),
        Payload::Wallet { pubkey } => wallet_id(pubkey),
        Payload::Transfer(t) => transfer_digest(t),
    }
}

impl View for WalletData {
    type V = Seq<char>;

    open spec fn view(&self) -> Seq<char> {
        self.pubkey@
    }
}

impl View for TransactionData {
    type V = Transfer;

    open spec fn view(&self) -> Transfer {
        Transfer {
            from: self.from@,
            to: self.to@,
            currency: self.currency,
            amount: self.amount,
        }
    }
}

impl View for BlockData {
    type V = Payload;

    open spec fn view(&self) -> Payload {
        match self {
            BlockData::Empty => Payload::Empty,
            BlockData::Wallet(w) => Payload::Wallet { pubkey: w@ },
            BlockData::Transaction(t) => Payload::Transfer(t@),
        }
    }
}

impl Clone for WalletData {
    fn clone(&self) -> (r: WalletData)
        ensures
            r == *self,
    {
        WalletData { pubkey: self.pubkey.clone() }
    }
}

impl Clone for TransactionData {
    fn clone(&self) -> (r: TransactionData)
        ensures
            r == *self,
    {
        TransactionData {
            from: self.from.clone(),
            to: self.to.clone(),
            currency: self.currency,
            amount: self.amount,
        }
    }
}

impl Clone for BlockData {
    fn clone(&self) -> (r: BlockData)
        ensures
            r == *self,
    {
        match self {
            BlockData::Empty => BlockData::Empty,
            BlockData::Wallet(w) => BlockData::Wallet(w.clone()),
            BlockData::Transaction(t) => BlockData::Transaction(t.clone()),
        }
    }
}

/// Appends a number to a buffer, least significant byte first.
pub(crate) fn put_u64(out: &mut Vec<u8>, value: u64)
    ensures
        final(out)@ == old(out)@ + spec_u64_to_le_bytes(value),
{
    let mut bytes = u64_to_le_bytes(value);
    out.append(&mut bytes);
}

/// Appends bytes to a buffer.
pub(crate) fn put_bytes(out: &mut Vec<u8>, bytes: &[u8])
    ensures
        final(out)@ == old(out)@ + bytes@,
{
    let mut i: usize = 0;
    while i < bytes.len()
        invariant
            i <= bytes.len(),
            out@ == old(out)@ + bytes@.take(i as int),
        decreases bytes.len() - i,
    {
        out.push(bytes[i]);
        assert(bytes@.take(i + 1) == bytes@.take(i as int).push(bytes@[i as int]));
        i += 1;
    }
    assert(bytes@.take(i as int) == bytes@);
}

/// Appends a text field to a buffer.
fn put_text(out: &mut Vec<u8>, text: &str)
    ensures
        final(out)@ == old(out)@ + text_field(text@),
{
    let bytes = text.as_bytes();
    put_u64(out, bytes.len() as u64);
    put_bytes(out, bytes);
}

impl BlockData {
    /// The wire form of the payload.
    pub fn to_bytes(&self) -> (out: Vec<u8>)
        ensures
            out@ == payload_bytes(self@),
    {
        let mut out: Vec<u8> = Vec::new();
        match self {
            BlockData::Empty => {
                out.push(0u8);
            },
            BlockData::Wallet(w) => {
                out.push(1u8);
                put_text(&mut out, w.pubkey.as_str());
            },
            BlockData::Transaction(t) => {
                out.push(2u8);
                put_text(&mut out, t.from.as_str());
                put_text(&mut out, t.to.as_str());
                put_u64(&mut out, t.currency);
                put_u64(&mut out, t.amount);
            },
        }
        assert(out@ =~= payload_bytes(self@));
        out
    }
}

impl Hashable for WalletData {
    open spec fn digest(&self) -> Seq<u8> {
        wallet_id(self@)
    }

    /// The identifier of the wallet that this key registers.
    fn hash(&self) -> (h: ByteHash) {
        sha256(self.pubkey.as_str().as_bytes())
    }
}

impl Hashable for TransactionData {
    open spec fn digest(&self) -> Seq<u8> {
        transfer_digest(self@)
    }

    fn hash(&self) -> (h: ByteHash) {
        let mut buf: Vec<u8> = Vec::new();
        put_bytes(&mut buf, self.from.as_str().as_bytes());
        put_bytes(&mut buf, self.to.as_str().as_bytes());
        put_u64(&mut buf, self.currency);
        put_u64(&mut buf, self.amount);
        assert(buf@ =~= encode_utf8(self.from@) + encode_utf8(self.to@) + spec_u64_to_le_bytes(
            self.currency,
        ) + spec_u64_to_le_bytes(self.amount));
        sha256(buf.as_slice())
    }
}

impl Hashable for BlockData {
    open spec fn digest(&self) -> Seq<u8> {
        payload_digest(self@)
    }

    fn hash(&self) -> (h: ByteHash) {
        match self {
            BlockData::Empty => ByteHash::new(),
            BlockData::Wallet(w) => w.hash(),
            BlockData::Transaction(t) => t.hash(),
        }
    }
}

/// The texts of a payload are short enough for their lengths to be written
/// down; this holds of every payload that a program can hold.
pub open spec fn fits(p: Payload) -> bool {
    match p {
        Payload::Empty => true,
        Payload::Wallet { pubkey } => encode_utf8(pubkey).len() <= u64::MAX,
        Payload::Transfer(t) => encode_utf8(t.from).len() <= u64::MAX && encode_utf8(t.to).len()
            <= u64::MAX,
    }
}

/// A text field says where it ends and which text it holds: two byte strings
/// that each begin with a text field, and that are equal, hold the same text
/// and go on in the same way.
proof fn lemma_text_field(a: Seq<char>, rest_a: Seq<u8>, b: Seq<char>, rest_b: Seq<u8>)
    requires
        encode_utf8(a).len() <= u64::MAX,
        encode_utf8(b).len() <= u64::MAX,
        text_field(a) + rest_a == text_field(b) + rest_b,
    ensures
        a == b,
        rest_a == rest_b,
{
    lemma_auto_spec_u64_to_from_le_bytes();
    let ua = encode_utf8(a);
    let ub = encode_utf8(b);
    let la = spec_u64_to_le_bytes(ua.len() as u64);
    let lb = spec_u64_to_le_bytes(ub.len() as u64);
    let whole_a = text_field(a) + rest_a;
    let whole_b = text_field(b) + rest_b;
    assert(whole_a.subrange(0, 8) =~= la);
    assert(whole_b.subrange(0, 8) =~= lb);
    assert(spec_u64_from_le_bytes(la) == ua.len() as u64);
    assert(spec_u64_from_le_bytes(lb) == ub.len() as u64);
    assert(ua.len() == ub.len());
    assert(whole_a.subrange(8, 8 + ua.len() as int) =~= ua);
    assert(whole_b.subrange(8, 8 + ub.len() as int) =~= ub);
    assert(whole_a.subrange(8 + ua.len() as int, whole_a.len() as int) =~= rest_a);
    assert(whole_b.subrange(8 + ub.len() as int, whole_b.len() as int) =~= rest_b);
    encode_utf8_decode_utf8(a);
    encode_utf8_decode_utf8(b);
}

/// The first byte of a wire form tells the variant.
proof fn lemma_variant_byte(p: Payload)
    ensures
        payload_bytes(p).len() > 0,
        payload_bytes(p)[0] == match p {
            Payload::Empty => 0u8,
            Payload::Wallet { .. } => 1u8,
            Payload::Transfer(_) => 2u8,
        },
{
    match p {
        Payload::Empty => {},
        Payload::Wallet { pubkey } => {
            assert((seq![1u8] + text_field(pubkey))[0] == 1u8);
        },
        Payload::Transfer(t) => {
            assert((seq![2u8] + transfer_bytes(t))[0] == 2u8);
        },
    }
}

/// Payloads with the same wire form are the same payload: what is hashed and
/// what is signed stands for one payload only.
pub proof fn lemma_payload_bytes_injective(p: Payload, q: Payload)
    requires
        fits(p),
        fits(q),
        payload_bytes(p) == payload_bytes(q),
    ensures
        p == q,
{
    lemma_auto_spec_u64_to_from_le_bytes();
    let none = Seq::<u8>::empty();
    lemma_variant_byte(p);
    lemma_variant_byte(q);
    match (p, q) {
        (Payload::Wallet { pubkey: a }, Payload::Wallet { pubkey: b }) => {
            assert(payload_bytes(p).subrange(1, payload_bytes(p).len() as int) =~= text_field(a)
                + none);
            assert(payload_bytes(q).subrange(1, payload_bytes(q).len() as int) =~= text_field(b)
                + none);
            lemma_text_field(a, none, b, none);
        },
        (Payload::Transfer(s), Payload::Transfer(t)) => {
            let tail_s = spec_u64_to_le_bytes(s.currency) + spec_u64_to_le_bytes(s.amount);
            let tail_t = spec_u64_to_le_bytes(t.currency) + spec_u64_to_le_bytes(t.amount);
            assert(payload_bytes(p).subrange(1, payload_bytes(p).len() as int) =~= text_field(
                s.from,
            ) + (text_field(s.to) + tail_s));
            assert(payload_bytes(q).subrange(1, payload_bytes(q).len() as int) =~= text_field(
                t.from,
            ) + (text_field(t.to) + tail_t));
            lemma_text_field(s.from, text_field(s.to) + tail_s, t.from, text_field(t.to) + tail_t);
            lemma_text_field(s.to, tail_s, t.to, tail_t);
            assert(tail_s.subrange(0, 8) =~= spec_u64_to_le_bytes(s.currency));
            assert(tail_t.subrange(0, 8) =~= spec_u64_to_le_bytes(t.currency));
            assert(tail_s.subrange(8, 16) =~= spec_u64_to_le_bytes(s.amount));
            assert(tail_t.subrange(8, 16) =~= spec_u64_to_le_bytes(t.amount));
            assert(spec_u64_from_le_bytes(spec_u64_to_le_bytes(s.currency)) == s.currency);
            assert(spec_u64_from_le_bytes(spec_u64_to_le_bytes(t.currency)) == t.currency);
            assert(spec_u64_from_le_bytes(spec_u64_to_le_bytes(s.amount)) == s.amount);
            assert(spec_u64_from_le_bytes(spec_u64_to_le_bytes(t.amount)) == t.amount);
        },
        _ => {},
    }
}

} // verus!
