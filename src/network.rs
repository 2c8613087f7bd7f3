//! The peer protocol: its messages, and what a node answers to each.

use vstd::prelude::*;
use crate::block::{Block, BlockV, block_id_of, no_duplicate_keys};
use crate::blockchain::{blocks_view, tip_hash};
use crate::hash::Hash32;
use crate::node::{Node, chain_has_block, mempool_has_id};
use crate::ledger::is_zero;
use crate::transaction::{Transaction, tx_id_of};

verus! {

/// What an inventory item or a data request names.
#[derive(Debug, Clone, Copy, PartialEq, Eq)]
pub enum InventoryType {
    Block,
    Tx,
}

/// A message of the peer protocol.
#[derive(Debug)]
pub enum NetworkMessage {
    Version { version: u32, height: u64, top_hash: Hash32 },
    VerAck,
    Ping(u64),
    Pong(u64),
    Inv { items: Vec<(InventoryType, Hash32)> },
    GetData { item_type: InventoryType, item_id: Hash32 },
    Block(Block),
    Tx(Transaction),
    GetBlocks { last_known_hash: Hash32 },
}

/// The request for the block with id `block_hash`.
pub fn ask_for_block(block_hash: Hash32) -> (r: NetworkMessage)
    ensures
        r matches NetworkMessage::GetData { item_type, item_id } && item_type == InventoryType::Block
            && item_id == block_hash,
{
    NetworkMessage::GetData { item_type: InventoryType::Block, item_id: block_hash }
}

/// The request for the transaction with id `tx_hash`.
pub fn ask_for_tx(tx_hash: Hash32) -> (r: NetworkMessage)
    ensures
        r matches NetworkMessage::GetData { item_type, item_id } && item_type == InventoryType::Tx
            && item_id == tx_hash,
{
    NetworkMessage::GetData { item_type: InventoryType::Tx, item_id: tx_hash }
}

/// The request for every block after `last_known_hash`.
pub fn ask_for_blocks(last_known_hash: Hash32) -> (r: NetworkMessage)
    ensures
        r matches NetworkMessage::GetBlocks { last_known_hash: h } && h == last_known_hash,
{
    NetworkMessage::GetBlocks { last_known_hash }
}

/// The announcement of one item.
pub fn announce(item_type: InventoryType, id: Hash32) -> (r: NetworkMessage)
    ensures
        r matches NetworkMessage::Inv { items } && items@ == seq![(item_type, id)],
{
    let mut items: Vec<(InventoryType, Hash32)> = Vec::new();
    items.push((item_type, id));
    assert(items@ =~= seq![(item_type, id)]);
    NetworkMessage::Inv { items }
}

/// The node knows the item: a block of its chain, or a transaction of its
/// mempool or of its ledger.
pub open spec fn knows_item(n: Node, item_type: InventoryType, id: Seq<u8>) -> bool {
    match item_type {
        InventoryType::Block => chain_has_block(n.chain(), id),
        InventoryType::Tx => mempool_has_id(n.pool(), id) || n.index().is_confirmed(id),
    }
}

impl Node {
    /// Whether the node knows the item.
    pub fn knows(&self, item_type: InventoryType, id: &Hash32) -> (r: bool)
        ensures
            r == knows_item(*self, item_type, id@),
    {
        match item_type {
            InventoryType::Block => self.has_block(id),
            InventoryType::Tx => self.has_transaction_anywhere(id),
        }
    }

    /// The answer to an inventory announcement: a data request for each
    /// announced item the node does not know, in announcement order.
    pub fn inventory_requests(&self, items: &Vec<(InventoryType, Hash32)>) -> (r: Vec<(InventoryType, Hash32)>)
        ensures
            r@ == items@.filter(|it: (InventoryType, Hash32)| !knows_item(*self, it.0, it.1@)),
    {
        let mut out: Vec<(InventoryType, Hash32)> = Vec::new();
        let mut i: usize = 0;
        while i < items.len()
            invariant
                i <= items@.len(),
                out@ == items@.subrange(0, i as int).filter(|it: (InventoryType, Hash32)| !knows_item(*self, it.0, it.1@)),
            decreases items@.len() - i,
        {
            let ghost pre = items@.subrange(0, i as int);
            assert(items@.subrange(0, i + 1 as int).drop_last() =~= pre);
            let (t, id) = items[i];
            if !self.knows(t, &id) {
                out.push((t, id));
            }
            i += 1;
            proof {
                let cur = items@.subrange(0, i as int);
                assert(cur.last() == items@[i - 1]);
                reveal(Seq::filter);
                assert(cur.drop_last() =~= pre);
            }
        }
        assert(items@.subrange(0, items@.len() as int) =~= items@);
        out
    }

    /// The answer to a `Version` message: an acknowledgement, and a request
    /// for the blocks after our tip when the peer's chain is longer.
    pub fn on_version(&self, remote_height: u64) -> (r: (NetworkMessage, Option<NetworkMessage>))
        ensures
            r.0 is VerAck,
            (remote_height > self.chain().len()) == r.1 is Some,
            r.1 matches Some(m) ==> (m matches NetworkMessage::GetBlocks { last_known_hash: h } && h@ == tip_hash(self.chain())),
    {
        let ours = self.height();
        if (remote_height as u128) > (ours as u128) {
            let tip = self.tip();
            (NetworkMessage::VerAck, Some(ask_for_blocks(tip)))
        } else {
            (NetworkMessage::VerAck, None)
        }
    }
}


/// The blocks that a list of `Block` replies carries.
pub open spec fn reply_blocks(rs: Seq<NetworkMessage>) -> Seq<BlockV> {
    rs.map_values(
        |m: NetworkMessage|
            match m {
                NetworkMessage::Block(b) => b@,
                _ => vstd::pervasive::arbitrary(),
            },
    )
}

/// What handling one message produced: replies for the peer that sent it,
/// and announcements for every other peer.
#[derive(Debug)]
pub struct Reaction {
    pub replies: Vec<NetworkMessage>,
    pub announce: Vec<NetworkMessage>,
}

impl Node {
    /// The reply to a data request: the block or transaction, when known.
    pub fn answer_get_data(&self, item_type: InventoryType, id: &Hash32) -> (r: Option<NetworkMessage>)
        ensures
            item_type == InventoryType::Block ==> (r is Some <==> chain_has_block(self.chain(), id@)),
            item_type == InventoryType::Tx && mempool_has_id(self.pool(), id@) ==> r is Some,
            r matches Some(m) ==> match m {
                NetworkMessage::Block(b) => item_type == InventoryType::Block && block_id_of(b@) == id@,
                NetworkMessage::Tx(t) => item_type == InventoryType::Tx && tx_id_of(t@) == id@,
                _ => false,
            },
    {
        match item_type {
            InventoryType::Block => match self.find_block(id) {
                Some(b) => Some(NetworkMessage::Block(b)),
                None => None,
            },
            InventoryType::Tx => match self.find_transaction(id) {
                Some(t) => Some(NetworkMessage::Tx(t)),
                None => None,
            },
        }
    }

    /// Handles one message of a peer: answers the handshake, pings,
    /// inventories, data and block requests; passes blocks and transactions
    /// to submission and admission and announces them once taken in.
    pub fn respond(&mut self, msg: NetworkMessage) -> (r: Reaction)
        requires
            old(self).wf(),
        ensures
            final(self).wf(),
            !(msg is Block || msg is Tx) ==> final(self).chain() == old(self).chain() && final(self).pool()
                == old(self).pool() && final(self).index() == old(self).index() && r.announce@.len() == 0,
            msg is Version ==> r.replies@.len() >= 1 && r.replies@[0] is VerAck,
            msg matches NetworkMessage::Version { version, height, top_hash } ==> ((r.replies@.len() == 2)
                <==> height > old(self).chain().len()),
            msg matches NetworkMessage::GetData { item_type, item_id } ==> (item_type == InventoryType::Block ==> (
            r.replies@.len() == 1 <==> chain_has_block(old(self).chain(), item_id@))),
            msg matches NetworkMessage::GetData { item_type, item_id } ==> (item_type == InventoryType::Tx
                && mempool_has_id(old(self).pool(), item_id@) ==> r.replies@.len() == 1),
            msg matches NetworkMessage::Block(b) ==> ((r.announce@.len() == 1) <==> final(self).chain() == old(
                self,
            ).chain().push(b@)),
            msg matches NetworkMessage::Block(b) ==> (!chain_has_block(old(self).chain(), block_id_of(b@))
                && b@.header.prev_block_hash == tip_hash(old(self).chain()) && crate::block::block_check(b@) is Ok
                && crate::node::block_inputs_known(old(self).index(), b@) && crate::node::ledger_accepts(
                old(self).index(),
                b@,
            ) ==> r.announce@.len() == 1),
            msg matches NetworkMessage::Tx(t) ==> ((r.announce@.len() == 1) <==> (crate::transaction::signatures_valid(t@)
                && !mempool_has_id(old(self).pool(), tx_id_of(t@)) && !old(self).index().is_confirmed(tx_id_of(t@))
                && crate::node::inputs_available(old(self).index(), old(self).pool(), t@) && no_duplicate_keys(
                crate::miner::tx_keys(t@),
            ) && crate::mempool::entry_fee(
                crate::node::resolved_inputs_of(old(self).index(), t@),
                t@.outputs,
            ) is Some)),
            msg matches NetworkMessage::Ping(n) ==> r.replies@.len() == 1 && (r.replies@[0] matches NetworkMessage::Pong(m) && m == n),
            msg matches NetworkMessage::Inv { items } ==> r.replies@.len() == items@.filter(
                |it: (InventoryType, Hash32)| !knows_item(*old(self), it.0, it.1@),
            ).len(),
            msg matches NetworkMessage::GetData { item_type, item_id } ==> r.replies@.len() <= 1,
            msg matches NetworkMessage::Inv { items } ==> forall|k: int|
                0 <= k < r.replies@.len() ==> (#[trigger] r.replies@[k] matches NetworkMessage::GetData { item_type, item_id }
                    && (item_type, item_id) == items@.filter(
                    |it: (InventoryType, Hash32)| !knows_item(*old(self), it.0, it.1@),
                )[k]),
            msg is Version && r.replies@.len() == 2 ==> (r.replies@[1] matches NetworkMessage::GetBlocks { last_known_hash: h }
                && h@ == tip_hash(old(self).chain())),
            msg matches NetworkMessage::GetBlocks { last_known_hash } ==> (forall|k: int|
                0 <= k < r.replies@.len() ==> #[trigger] r.replies@[k] is Block) && (is_zero(last_known_hash@)
                ==> reply_blocks(r.replies@) == old(self).chain()) && (!is_zero(last_known_hash@) && !chain_has_block(
                old(self).chain(),
                last_known_hash@,
            ) ==> r.replies@.len() == 0) && (!is_zero(last_known_hash@) && chain_has_block(old(self).chain(), last_known_hash@)
                ==> exists|h: int|
                0 <= h < old(self).chain().len() && block_id_of(#[trigger] old(self).chain()[h]) == last_known_hash@
                    && reply_blocks(r.replies@) == old(self).chain().subrange(h + 1, old(self).chain().len() as int)),
            msg matches NetworkMessage::Block(b) ==> (r.announce@.len() == 1 ==> (r.announce@[0] matches NetworkMessage::Inv {
                items } && items@.len() == 1 && items@[0].0 == InventoryType::Block && items@[0].1@ == block_id_of(b@))),
            msg matches NetworkMessage::Tx(t) ==> (r.announce@.len() == 1 ==> (r.announce@[0] matches NetworkMessage::Inv {
                items } && items@.len() == 1 && items@[0].0 == InventoryType::Tx && items@[0].1@ == tx_id_of(t@))),
            msg matches NetworkMessage::Block(b) ==> r.replies@.len() == 0 && (r.announce@.len() == 1 ==> final(self).chain()
                == old(self).chain().push(b@)),
            msg matches NetworkMessage::Tx(t) ==> r.replies@.len() == 0 && (r.announce@.len() == 1 ==> final(self).pool().len()
                == old(self).pool().len() + 1),
            msg matches NetworkMessage::GetBlocks { last_known_hash } ==> (is_zero(last_known_hash@) ==> r.replies@.len() == old(self).chain().len()),
    {
        let mut replies: Vec<NetworkMessage> = Vec::new();
        let mut announcements: Vec<NetworkMessage> = Vec::new();
        match msg {
            NetworkMessage::Version { version: _, height, top_hash: _ } => {
                let (ack, ask) = self.on_version(height);
                replies.push(ack);
                match ask {
                    Some(m) => replies.push(m),
                    None => {},
                }
            },
            NetworkMessage::VerAck => {},
            NetworkMessage::Ping(n) => {
                replies.push(NetworkMessage::Pong(n));
            },
            NetworkMessage::Pong(_) => {},
            NetworkMessage::Inv { items } => {
                let wanted = self.inventory_requests(&items);
                let mut i: usize = 0;
                while i < wanted.len()
                    invariant
                        i <= wanted@.len(),
                        replies@.len() == i,
                        forall|k: int|
                            0 <= k < i ==> (#[trigger] replies@[k] matches NetworkMessage::GetData { item_type, item_id }
                                && (item_type, item_id) == wanted@[k]),
                    decreases wanted@.len() - i,
                {
                    replies.push(NetworkMessage::GetData { item_type: wanted[i].0, item_id: wanted[i].1 });
                    i += 1;
                }
            },
            NetworkMessage::GetData { item_type, item_id } => {
                match self.answer_get_data(item_type, &item_id) {
                    Some(m) => replies.push(m),
                    None => {},
                }
            },
            NetworkMessage::Block(b) => {
                let id = b.header_hash();
                let ghost bv = b@;
                match self.handle_received_block(b) {
                    Ok(true) => announcements.push(announce(InventoryType::Block, id)),
                    _ => {
                        assert(old(self).chain().push(bv).len() != old(self).chain().len());
                    },
                }
            },
            NetworkMessage::Tx(t) => {
                let id = t.id();
                match self.receive_transaction(t) {
                    Ok(()) => announcements.push(announce(InventoryType::Tx, id)),
                    Err(_) => {},
                }
            },
            NetworkMessage::GetBlocks { last_known_hash } => {
                let blocks = self.blocks_after(&last_known_hash);
                let mut blocks = blocks;
                let ghost orig = blocks@;
                let ghost n = blocks@.len();
                while blocks.len() > 0
                    invariant
                        replies@.len() + blocks@.len() == n,
                        n == orig.len(),
                        blocks@ == orig.subrange(replies@.len() as int, n as int),
                        forall|k: int| 0 <= k < replies@.len() ==> #[trigger] replies@[k] is Block,
                        forall|k: int| 0 <= k < replies@.len() ==> reply_blocks(replies@)[k] == orig[k]@,
                    decreases blocks@.len(),
                {
                    let ghost before = replies@;
                    let b = blocks.remove(0);
                    replies.push(NetworkMessage::Block(b));
                    assert forall|k: int| 0 <= k < replies@.len() implies reply_blocks(replies@)[k] == orig[k]@ by {
                        if k < before.len() {
                            assert(replies@[k] == before[k]);
                            assert(reply_blocks(before)[k] == orig[k]@);
                        }
                    }
                    assert(blocks@ =~= orig.subrange(replies@.len() as int, n as int));
                }
            },
        }
        Reaction { replies, announce: announcements }
    }
}

} // verus!
