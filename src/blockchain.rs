//! The canonical chain: a list of blocks, each linked to the one before it.

use vstd::prelude::*;
use crate::block::{
    Block, BlockError, BlockV, DIFFICULTY, block_check, block_id_of, block_input_keys, no_duplicate_keys,
    txs_merkle_root,
};
use crate::hash::{Hash32, has_leading_zero_bits, hash_eq};

verus! {

/// Why a block cannot extend the chain, or why a chain is not valid.
#[derive(Debug, Clone, Copy, PartialEq, Eq)]
pub enum ChainError {
    PrevHashMismatch,
    GenesisPrevNotZero,
    InvalidBlock(BlockError),
}

pub open spec fn blocks_view(s: Seq<Block>) -> Seq<BlockV> {
    s.map_values(|b: Block| b@)
}

pub open spec fn zero_hash() -> Seq<u8> {
    Seq::new(32, |i: int| 0u8)
}

/// The first block points at the zero hash and every later block at the id
/// of the block before it.
pub open spec fn chain_linked(s: Seq<BlockV>) -> bool {
    &&& s.len() > 0 ==> s[0].header.prev_block_hash == zero_hash()
    &&& forall|h: int|
        0 < h < s.len() ==> (#[trigger] s[h]).header.prev_block_hash == block_id_of(s[h - 1])
}

/// Linked, and every block passes static validation.
pub open spec fn chain_valid(s: Seq<BlockV>) -> bool {
    &&& chain_linked(s)
    &&& forall|h: int| 0 <= h < s.len() ==> (#[trigger] block_check(s[h])) is Ok
}

/// What the chain check accepts: the genesis block points at the zero hash;
/// every later block is valid and points at the id of the block before it.
pub open spec fn chain_accepted(s: Seq<BlockV>) -> bool {
    &&& s.len() > 0 ==> s[0].header.prev_block_hash == zero_hash()
    &&& forall|h: int|
        0 < h < s.len() ==> (#[trigger] block_check(s[h])) is Ok && s[h].header.prev_block_hash
            == block_id_of(s[h - 1])
}

/// The id that a new block must point at: the tip's, or zero for an empty chain.
pub open spec fn tip_hash(s: Seq<BlockV>) -> Seq<u8> {
    if s.len() == 0 {
        zero_hash()
    } else {
        block_id_of(s.last())
    }
}

/// In a valid chain, every block above the first points at the id of the
/// block below it, has an id with `DIFFICULTY` leading zero bits, commits
/// to its transaction ids through its merkle root, and spends no input key
/// twice.
pub proof fn lemma_valid_chain_blocks(s: Seq<BlockV>, h: int)
    requires
        chain_valid(s),
        0 <= h < s.len(),
    ensures
        h > 0 ==> s[h].header.prev_block_hash == block_id_of(s[h - 1]),
        has_leading_zero_bits(block_id_of(s[h]), DIFFICULTY as nat),
        s[h].header.merkle_root == txs_merkle_root(s[h].transactions),
        no_duplicate_keys(block_input_keys(s[h].transactions)),
{
    assert(block_check(s[h]) is Ok);
}

#[derive(Debug)]
pub struct Blockchain {
    pub chain: Vec<Block>,
}

impl Blockchain {
    pub open spec fn blocks(&self) -> Seq<BlockV> {
        blocks_view(self.chain@)
    }

    /// An empty chain.
    pub fn new() -> (r: Blockchain)
        ensures
            r.blocks().len() == 0,
    {
        Blockchain { chain: Vec::new() }
    }

    /// The tip's id, or the zero hash for an empty chain.
    pub fn get_last_block_hash(&self) -> (r: Hash32)
        ensures
            r@ == tip_hash(self.blocks()),
    {
        if self.chain.len() == 0 {
            let z: Hash32 = [0u8; 32];
            assert(z@ =~= zero_hash());
            z
        } else {
            let r = self.chain[self.chain.len() - 1].header_hash();
            assert(self.blocks().last() == self.chain@[self.chain@.len() - 1]@);
            r
        }
    }

    pub fn is_empty(&self) -> (r: bool)
        ensures
            r == (self.blocks().len() == 0),
    {
        self.chain.len() == 0
    }

    /// Appends `block` if it points at the tip and passes static validation;
    /// otherwise the chain is unchanged.
    pub fn add_block(&mut self, block: Block) -> (r: Result<(), ChainError>)
        ensures
            block@.header.prev_block_hash != tip_hash(old(self).blocks()) ==> r == Err::<(), ChainError>(
                ChainError::PrevHashMismatch,
            ),
            block@.header.prev_block_hash == tip_hash(old(self).blocks()) ==> match block_check(block@) {
                Ok(_) => r is Ok,
                Err(e) => r == Err::<(), ChainError>(ChainError::InvalidBlock(e)),
            },
            r is Ok ==> final(self).blocks() == old(self).blocks().push(block@),
            r is Err ==> final(self).blocks() == old(self).blocks(),
            r is Ok && chain_valid(old(self).blocks()) ==> chain_valid(final(self).blocks()),
    {
        let last = self.get_last_block_hash();
        if !hash_eq(&block.header.prev_block_hash, &last) {
            return Err(ChainError::PrevHashMismatch);
        }
        match block.validate() {
            Ok(()) => {},
            Err(e) => {
                return Err(ChainError::InvalidBlock(e));
            },
        }
        let ghost before = self.blocks();
        self.chain.push(block);
        assert(self.blocks() =~= before.push(block@));
        proof {
            let s = self.blocks();
            if chain_valid(before) {
                assert forall|h: int| 0 < h < s.len() implies (#[trigger] s[h]).header.prev_block_hash
                    == block_id_of(s[h - 1]) by {
                    if h < s.len() - 1 {
                        assert(s[h] == before[h]);
                    }
                }
                assert forall|h: int| 0 <= h < s.len() implies (#[trigger] block_check(s[h])) is Ok by {
                    if h < s.len() - 1 {
                        assert(s[h] == before[h]);
                    }
                }
            }
        }
        Ok(())
    }

    /// Checks the whole chain: genesis points at zero; every later block is
    /// valid and points at its predecessor's id.
    pub fn validate_chain(&self) -> (r: Result<(), ChainError>)
        ensures
            r is Ok <==> chain_accepted(self.blocks()),
    {
        let n = self.chain.len();
        if n == 0 {
            return Ok(());
        }
        let z: Hash32 = [0u8; 32];
        assert(z@ =~= zero_hash());
        if !hash_eq(&self.chain[0].header.prev_block_hash, &z) {
            return Err(ChainError::GenesisPrevNotZero);
        }
        let mut i: usize = 1;
        while i < n
            invariant
                n == self.chain@.len(),
                1 <= i <= n,
                self.blocks()[0].header.prev_block_hash == zero_hash(),
                forall|h: int|
                    0 < h < i ==> (#[trigger] block_check(self.blocks()[h])) is Ok
                        && self.blocks()[h].header.prev_block_hash == block_id_of(self.blocks()[h - 1]),
            decreases n - i,
        {
            let block = &self.chain[i];
            assert(self.blocks()[i as int] == block@);
            assert(self.blocks()[i - 1] == self.chain@[i - 1]@);
            match block.validate() {
                Ok(()) => {},
                Err(e) => {
                    return Err(ChainError::InvalidBlock(e));
                },
            }
            let prev_id = self.chain[i - 1].header_hash();
            if !hash_eq(&block.header.prev_block_hash, &prev_id) {
                return Err(ChainError::PrevHashMismatch);
            }
            i += 1;
        }
        Ok(())
    }
}

} // verus!
