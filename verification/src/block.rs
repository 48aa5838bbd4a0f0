//! Blocks: a payload, the identifier of the block before it, and the nonce
//! that was found for it.

use crate::block_data::{payload_bytes, put_bytes, put_u64, BlockData, Payload};
use crate::hash::{sha256, sha256_of, ByteHash, Hashable};
use vstd::bytes::spec_u64_to_le_bytes;
use vstd::prelude::*;

verus! {

pub type Nonce = u64;

/// A block. `signature` holds the signature over the payload's wire form in
/// hexadecimal, or nothing.
#[derive(Debug)]
pub struct Block {
    pub hash: ByteHash,
    pub previous_hash: ByteHash,
    pub nonce: Nonce,
    pub signature: String,
    pub data: BlockData,
}

/// The model of a block.
pub struct BlockView {
    pub id: Seq<u8>,
    pub previous_id: Seq<u8>,
    pub nonce: u64,
    pub signature: Seq<char>,
    pub payload: Payload,
}

/// The identifier that a block has by its content: the hash of the previous
/// identifier, the nonce in eight bytes, least significant first, and the
/// payload's wire form.
pub open spec fn block_id(previous_id: Seq<u8>, nonce: u64, payload: Payload) -> Seq<u8> {
    sha256_of(previous_id + spec_u64_to_le_bytes(nonce) + payload_bytes(payload))
}

impl BlockView {
    /// The block carries the identifier that its content gives it.
    pub open spec fn sealed(self) -> bool {
        self.id == block_id(self.previous_id, self.nonce, self.payload)
    }
}

impl View for Block {
    type V = BlockView;

    open spec fn view(&self) -> BlockView {
        BlockView {
            id: self.hash@,
            previous_id: self.previous_hash@,
            nonce: self.nonce,
            signature: self.signature@,
            payload: self.data@,
        }
    }
}

impl Clone for Block {
    fn clone(&self) -> (r: Block)
        ensures
            r == *self,
    {
        Block {
            hash: self.hash,
            previous_hash: self.previous_hash,
            nonce: self.nonce,
            signature: self.signature.clone(),
            data: self.data.clone(),
        }
    }
}

impl Block {
    /// A block that follows `previous_hash` and carries `data`: nonce zero, no
    /// signature, and the identifier that this content gives it.
    pub fn new(previous_hash: ByteHash, data: BlockData) -> (b: Block)
        ensures
            b@ == (BlockView {
                id: block_id(previous_hash@, 0, data@),
                previous_id: previous_hash@,
                nonce: 0,
                signature: Seq::<char>::empty(),
                payload: data@,
            }),
            b@.sealed(),
    {
        let mut block = Block {
            hash: ByteHash::new(),
            nonce: 0,
            previous_hash,
            data,
            signature: String::new(),
        };
        block.hash = block.hash();
        block
    }

    /// Sets the nonce and gives the block the identifier that follows from it.
    pub fn update_nonce(&mut self, nonce: Nonce)
        ensures
            final(self)@ == (BlockView {
                id: block_id(old(self)@.previous_id, nonce, old(self)@.payload),
                nonce: nonce,
                ..old(self)@
            }),
            final(self)@.sealed(),
    {
        self.nonce = nonce;
        self.hash = self.hash();
    }
}

impl Hashable for Block {
    open spec fn digest(&self) -> Seq<u8> {
        block_id(self@.previous_id, self@.nonce, self@.payload)
    }

    fn hash(&self) -> (h: ByteHash) {
        let mut buf: Vec<u8> = Vec::new();
        put_bytes(&mut buf, self.previous_hash.to_ne_bytes().as_slice());
        put_u64(&mut buf, self.nonce);
        let payload = self.data.to_bytes();
        put_bytes(&mut buf, payload.as_slice());
        assert(buf@ =~= self.previous_hash@ + spec_u64_to_le_bytes(self.nonce) + payload_bytes(
            self.data@,
        ));
        sha256(buf.as_slice())
    }
}

} // verus!
