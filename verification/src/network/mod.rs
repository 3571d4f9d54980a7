//! What two nodes say to each other to converge on one chain: the frames on
//! the byte stream, and what a node answers to each command.

pub mod command;

use crate::blockchain::{lookup, Blockchain};
use crate::hexcode::{hex_decode, hex_decoding, hex_encoding};
use crate::network::command::{
    frame_message, frame_of, Cmd, GetDataCmd, GetblocksCmd, HeightCmd, InvType, Message, MessageView,
    SendBlockCmd, SendInvCmd, HEADER_LEN,
};
use crate::octets::{append_bytes, be_bytes, be_number, copy_range, lemma_be_round_trip, texts};
use crate::text::{decimal, push_decimal};
use vstd::prelude::*;

verus! {

/// The address of the node that every other node knows.
pub open spec fn central_node() -> Seq<char> {
    "localhost:3000"@
}

/// The address a node listens on.
pub open spec fn node_address_of(node_id: u32) -> Seq<char> {
    "localhost:"@ + decimal(node_id as nat)
}

/// The number of payload bytes that a frame's header declares.
pub open spec fn declared_len(src: Seq<u8>) -> nat {
    be_number(src.subrange(1, 5)) as nat
}

/// Whether a buffer starts with a whole frame: the five bytes that hold the
/// length, then the code and as many payload bytes as declared.
pub open spec fn has_frame(src: Seq<u8>) -> bool {
    src.len() >= 5 && src.len() >= HEADER_LEN + declared_len(src)
}

/// Cuts a byte stream into frames by the length in each header.
#[derive(Debug, PartialEq, Eq)]
pub struct LengthHeaderDelimiter;

impl LengthHeaderDelimiter {
    /// Takes the first frame off the buffer once all of it has arrived;
    /// until then the buffer is left as it is.
    pub fn decode(&mut self, src: &mut Vec<u8>) -> (frame: Option<Vec<u8>>)
        ensures
            match frame {
                Some(f) => {
                    let cut = HEADER_LEN + declared_len(old(src)@);
                    &&& has_frame(old(src)@)
                    &&& f@ == old(src)@.subrange(0, cut as int)
                    &&& final(src)@ == old(src)@.subrange(cut as int, old(src)@.len() as int)
                },
                None => !has_frame(old(src)@) && final(src)@ == old(src)@,
            },
    {
        if src.len() < 5 {
            return None;
        }
        let declared: u64 = src[1] as u64 * 0x100_0000 + src[2] as u64 * 0x1_0000 + src[3] as u64 * 0x100
            + src[4] as u64;
        assert(declared == declared_len(src@));
        let cut: u64 = declared + HEADER_LEN as u64;
        if (src.len() as u64) < cut {
            return None;
        }
        let cut: usize = cut as usize;
        let frame = copy_range(src.as_slice(), 0, cut);
        let rest = copy_range(src.as_slice(), cut, src.len());
        *src = rest;
        Some(frame)
    }

    /// Puts a frame on the outgoing buffer.
    pub fn encode(&mut self, item: Vec<u8>, dst: &mut Vec<u8>)
        ensures
            final(dst)@ == old(dst)@ + item@,
    {
        append_bytes(dst, item.as_slice());
    }
}

/// A frame followed by anything is cut off whole: the decoder gives back
/// exactly the frame and leaves what follows.
pub proof fn law_frame_is_cut_whole(code: Cmd, payload: Seq<u8>, rest: Seq<u8>)
    requires
        payload.len() <= u32::MAX,
    ensures
        has_frame(frame_of(code, payload) + rest),
        HEADER_LEN + declared_len(frame_of(code, payload) + rest) == frame_of(code, payload).len(),
        (frame_of(code, payload) + rest).subrange(0, frame_of(code, payload).len() as int) == frame_of(
            code,
            payload,
        ),
        (frame_of(code, payload) + rest).subrange(
            frame_of(code, payload).len() as int,
            (frame_of(code, payload) + rest).len() as int,
        ) == rest,
{
    let framed = frame_of(code, payload);
    let stream = framed + rest;
    lemma_be_round_trip(payload.len() as u32);
    assert(stream.subrange(1, 5) =~= be_bytes(payload.len() as u32));
    assert(stream.subrange(0, framed.len() as int) =~= framed);
    assert(stream.subrange(framed.len() as int, stream.len() as int) =~= rest);
}

/// What a node sends in answer: a command and the address it goes to.
#[derive(Debug, PartialEq, Eq)]
pub struct Outgoing {
    pub addr: String,
    pub message: Message,
}

/// A node of the network: who it is, whom it knows, and which blocks it has
/// yet to fetch from each peer.
#[derive(Debug, PartialEq, Eq)]
pub struct Server {
    pub node_id: u32,
    pub node_address: String,
    pub miner_address: String,
    pub known_hosts: Vec<String>,
    pub blocks_in_transimission: Vec<(String, Vec<String>)>,
}

/// The views of the queues of ids still to fetch, one per peer.
pub open spec fn queue_views(queues: Seq<(String, Vec<String>)>) -> Seq<(Seq<char>, Seq<Seq<char>>)> {
    Seq::new(queues.len(), |i: int| (queues[i].0@, texts(queues[i].1@)))
}

/// Whether no two queues are kept for the same peer.
pub open spec fn peers_distinct(queues: Seq<(Seq<char>, Seq<Seq<char>>)>) -> bool {
    forall|i: int, j: int| 0 <= i < j < queues.len() ==> (#[trigger] queues[i]).0 != (#[trigger] queues[j]).0
}

/// The ids still to fetch from `peer`: the first queue kept for it, or
/// nothing.
pub open spec fn pending(queues: Seq<(Seq<char>, Seq<Seq<char>>)>, peer: Seq<char>) -> Seq<Seq<char>>
    decreases queues.len(),
{
    if queues.len() == 0 {
        Seq::empty()
    } else if queues[0].0 == peer {
        queues[0].1
    } else {
        pending(queues.drop_first(), peer)
    }
}

/// The queues after the one of `peer` is replaced by `ids`: in place when
/// the peer has one, at the end when not.
pub open spec fn with_pending(
    queues: Seq<(Seq<char>, Seq<Seq<char>>)>,
    peer: Seq<char>,
    ids: Seq<Seq<char>>,
) -> Seq<(Seq<char>, Seq<Seq<char>>)>
    decreases queues.len(),
{
    if queues.len() == 0 {
        seq![(peer, ids)]
    } else if queues[0].0 == peer {
        seq![(peer, ids)] + queues.drop_first()
    } else {
        seq![queues[0]] + with_pending(queues.drop_first(), peer, ids)
    }
}

/// The answer to `Height`: the own height when it is the greater, else a
/// request for the peer's blocks.
pub open spec fn height_answer(own: Seq<char>, local_height: u128, remote_height: u128) -> MessageView {
    if local_height > remote_height {
        MessageView::Height { node_addr: own, height: local_height }
    } else {
        MessageView::Getblocks { node_addr: own }
    }
}

/// The hashes of a run of blocks.
pub open spec fn hashes_of(chain: Seq<crate::block::BlockView>) -> Seq<Seq<char>> {
    Seq::new(chain.len(), |i: int| chain[i].hash)
}

/// The block that an id names: the id is read as hexadecimal, and the block
/// is looked up under the lower-case text of the bytes read.
pub open spec fn requested_block(blocks: Seq<crate::block::BlockView>, id: Seq<char>) -> Option<
    crate::block::BlockView,
> {
    match hex_decoding(id) {
        None => None,
        Some(bytes) => lookup(blocks, hex_encoding(bytes)),
    }
}

/// An answer, as the address it goes to and what it says.
pub open spec fn answer_view(answer: Option<Outgoing>) -> Option<(Seq<char>, MessageView)> {
    match answer {
        Some(out) => Some((out.addr@, out.message@)),
        None => None,
    }
}

/// The ledger after a block came from outside: a block whose hash is there
/// already changes nothing; any other is added, and becomes the tip when it
/// stands higher than the tip does.
pub open spec fn ledger_with(
    blocks: Seq<crate::block::BlockView>,
    latest_hash: Seq<char>,
    block: crate::block::BlockView,
) -> (Seq<crate::block::BlockView>, Seq<char>) {
    if lookup(blocks, block.hash).is_some() {
        (blocks, latest_hash)
    } else if block.height > lookup(blocks, latest_hash).unwrap().height {
        (blocks.push(block), block.hash)
    } else {
        (blocks.push(block), latest_hash)
    }
}

/// What a node with the address `own`, the queues `queues` and the ledger
/// `blocks`, `latest_hash` answers to a command.
pub open spec fn answer_to(
    own: Seq<char>,
    queues: Seq<(Seq<char>, Seq<Seq<char>>)>,
    blocks: Seq<crate::block::BlockView>,
    latest_hash: Seq<char>,
    message: MessageView,
) -> Option<(Seq<char>, MessageView)> {
    match message {
        MessageView::Height { node_addr, height } => Some(
            (node_addr, height_answer(own, lookup(blocks, latest_hash).unwrap().height, height)),
        ),
        MessageView::Getblocks { node_addr } => Some(
            (
                node_addr,
                MessageView::SendInv {
                    node_addr: own,
                    inv_type: InvType::Block,
                    items: hashes_of(crate::blockchain::walk(blocks, latest_hash, blocks.len())),
                },
            ),
        ),
        MessageView::SendInv { node_addr, inv_type, items } => if items.len() == 0 {
            None
        } else {
            Some((node_addr, MessageView::GetData { node_addr: own, inv_type, id: items[0] }))
        },
        MessageView::GetData { node_addr, inv_type, id } => if inv_type == InvType::Block {
            match requested_block(blocks, id) {
                Some(block) => Some((node_addr, MessageView::SendBlock { node_addr: own, block })),
                None => None,
            }
        } else {
            None
        },
        MessageView::SendBlock { node_addr, block } => if pending(queues, node_addr).len() == 0 {
            None
        } else {
            Some(
                (
                    node_addr,
                    MessageView::GetData { node_addr: own, inv_type: InvType::Block, id: pending(queues, node_addr)[0] },
                ),
            )
        },
        MessageView::SendTx { .. } => None,
    }
}

/// The queues of a node after a command: an inventory replaces the peer's
/// queue by all but its first id, a block takes the first id off the peer's
/// queue, nothing else touches them.
pub open spec fn queues_after(queues: Seq<(Seq<char>, Seq<Seq<char>>)>, message: MessageView) -> Seq<
    (Seq<char>, Seq<Seq<char>>),
> {
    match message {
        MessageView::SendInv { node_addr, inv_type, items } => if items.len() == 0 {
            queues
        } else {
            with_pending(queues, node_addr, items.drop_first())
        },
        MessageView::SendBlock { node_addr, block } => if pending(queues, node_addr).len() == 0 {
            queues
        } else {
            with_pending(queues, node_addr, pending(queues, node_addr).drop_first())
        },
        _ => queues,
    }
}

/// The ledger of a node after a command: only a block changes it.
pub open spec fn ledger_after(
    blocks: Seq<crate::block::BlockView>,
    latest_hash: Seq<char>,
    message: MessageView,
) -> (Seq<crate::block::BlockView>, Seq<char>) {
    match message {
        MessageView::SendBlock { node_addr, block } => ledger_with(blocks, latest_hash, block),
        _ => (blocks, latest_hash),
    }
}

impl Server {
    /// The queues of ids still to fetch.
    pub open spec fn queues(&self) -> Seq<(Seq<char>, Seq<Seq<char>>)> {
        queue_views(self.blocks_in_transimission@)
    }

    /// A node is well formed when it keeps no two queues for one peer.
    pub open spec fn wf(&self) -> bool {
        peers_distinct(self.queues())
    }

    /// A node that listens on `localhost` at the port `node_id`, knows the
    /// central node, and has nothing to fetch.
    pub fn new(node_id: u32, miner_address: String) -> (server: Self)
        ensures
            server.node_id == node_id,
            server.node_address@ == node_address_of(node_id),
            server.miner_address == miner_address,
            texts(server.known_hosts@) == seq![central_node()],
            server.blocks_in_transimission@.len() == 0,
            server.wf(),
    {
        let mut node_address = "localhost:".to_owned();
        push_decimal(&mut node_address, node_id as u128);
        let known_hosts: Vec<String> = vec!["localhost:3000".to_owned()];
        assert(texts(known_hosts@) =~= seq![central_node()]);
        Server { node_id, node_address, miner_address, known_hosts, blocks_in_transimission: Vec::new() }
    }

    /// The position of the queue kept for `peer`.
    fn queue_of(&self, peer: &String) -> (at: Option<usize>)
        ensures
            match at {
                Some(i) => {
                    &&& i < self.blocks_in_transimission@.len()
                    &&& self.blocks_in_transimission@[i as int].0@ == peer@
                    &&& forall|k: int| 0 <= k < i ==> (#[trigger] self.blocks_in_transimission@[k]).0@ != peer@
                },
                None => forall|k: int|
                    0 <= k < self.blocks_in_transimission@.len() ==> (#[trigger] self.blocks_in_transimission@[k]).0@
                        != peer@,
            },
    {
        let mut i: usize = 0;
        while i < self.blocks_in_transimission.len()
            invariant
                i <= self.blocks_in_transimission@.len(),
                forall|k: int| 0 <= k < i ==> (#[trigger] self.blocks_in_transimission@[k]).0@ != peer@,
            decreases self.blocks_in_transimission@.len() - i,
        {
            if self.blocks_in_transimission[i].0 == *peer {
                return Some(i);
            }
            i = i + 1;
        }
        None
    }

    /// Replaces the queue kept for `peer`.
    fn set_pending(&mut self, peer: String, ids: Vec<String>)
        ensures
            final(self).queues() == with_pending(old(self).queues(), peer@, texts(ids@)),
            old(self).wf() ==> final(self).wf(),
            final(self).node_id == old(self).node_id,
            final(self).node_address == old(self).node_address,
            final(self).miner_address == old(self).miner_address,
            final(self).known_hosts == old(self).known_hosts,
    {
        let ghost before = self.queues();
        let ghost entry = (peer@, texts(ids@));
        match self.queue_of(&peer) {
            Some(i) => {
                self.blocks_in_transimission.set(i, (peer, ids));
                proof {
                    assert(self.queues() =~= before.update(i as int, entry));
                    assert forall|k: int| 0 <= k < i implies (#[trigger] before[k]).0 != entry.0 by {
                        assert(before[k].0 == old(self).blocks_in_transimission@[k].0@);
                    }
                    lemma_with_pending_at(before, entry.0, entry.1, i as int);
                    if peers_distinct(before) {
                        let after = self.queues();
                        assert(before[i as int].0 == entry.0);
                        assert forall|a: int, b: int| 0 <= a < b < after.len() implies (#[trigger] after[a]).0 != (
                        #[trigger] after[b]).0 by {
                            assert(after[a].0 == before[a].0);
                            assert(after[b].0 == before[b].0);
                        }
                    }
                }
            },
            None => {
                self.blocks_in_transimission.push((peer, ids));
                proof {
                    assert(self.queues() =~= before.push(entry));
                    assert forall|k: int| 0 <= k < before.len() implies (#[trigger] before[k]).0 != entry.0 by {
                        assert(before[k].0 == old(self).blocks_in_transimission@[k].0@);
                    }
                    lemma_with_pending_last(before, entry.0, entry.1);
                    if peers_distinct(before) {
                        let after = self.queues();
                        assert forall|a: int, b: int| 0 <= a < b < after.len() implies (#[trigger] after[a]).0 != (
                        #[trigger] after[b]).0 by {
                            assert(after[a] == before[a]);
                            if b < before.len() {
                                assert(after[b] == before[b]);
                            }
                        }
                    }
                }
            },
        }
    }

    /// Answers `Height`: a node that stands higher says so, any other asks
    /// for the peer's blocks.
    pub fn handle_height(&self, command: &HeightCmd, blockchain: &Blockchain) -> (answer: Outgoing)
        requires
            blockchain.wf(),
        ensures
            answer.addr@ == command.node_addr@,
            answer.message@ == height_answer(self.node_address@, blockchain.tip().height, command.height),
    {
        let local_height: u128 = blockchain.get_height();
        let message = if local_height > command.height {
            Message::Height(HeightCmd::new(self.node_address.clone(), local_height))
        } else {
            Message::Getblocks(GetblocksCmd::new(self.node_address.clone()))
        };
        Outgoing { addr: command.node_addr.clone(), message }
    }

    /// Answers `Getblocks` with the hashes of the chain, newest first.
    pub fn handle_getblocks(&self, command: &GetblocksCmd, blockchain: &Blockchain) -> (answer: Outgoing)
        ensures
            answer.addr@ == command.node_addr@,
            answer.message@ == (MessageView::SendInv {
                node_addr: self.node_address@,
                inv_type: InvType::Block,
                items: hashes_of(blockchain.chain()),
            }),
    {
        let hashes = blockchain.get_block_hashes();
        assert(texts(hashes@) =~= hashes_of(blockchain.chain()));
        Outgoing {
            addr: command.node_addr.clone(),
            message: Message::SendInv(SendInvCmd::new(self.node_address.clone(), InvType::Block, hashes)),
        }
    }

    /// Answers an inventory: the first id is asked for at once, the others
    /// wait in the peer's queue, which they replace. An empty inventory
    /// changes nothing and has no answer.
    pub fn handle_sendinvcmd(&mut self, command: SendInvCmd) -> (answer: Option<Outgoing>)
        ensures
            final(self).node_address == old(self).node_address,
            old(self).wf() ==> final(self).wf(),
            command.items@.len() == 0 ==> answer.is_none() && *final(self) == *old(self),
            command.items@.len() > 0 ==> {
                &&& answer matches Some(out)
                &&& out.addr@ == command.node_addr@
                &&& out.message@ == (MessageView::GetData {
                    node_addr: old(self).node_address@,
                    inv_type: command.inv_type,
                    id: command.items@[0]@,
                })
                &&& final(self).queues() == with_pending(
                    old(self).queues(),
                    command.node_addr@,
                    texts(command.items@).drop_first(),
                )
            },
    {
        let SendInvCmd { node_addr, inv_type, items } = command;
        let mut items = items;
        if items.len() == 0 {
            return None;
        }
        let ghost listed = texts(items@);
        let first = items.remove(0);
        assert(texts(items@) =~= listed.drop_first());
        let addr = node_addr.clone();
        self.set_pending(node_addr, items);
        Some(
            Outgoing {
                addr,
                message: Message::GetData(GetDataCmd { node_addr: self.node_address.clone(), inv_type, id: first }),
            },
        )
    }

    /// Answers a request for a block with the block, when the ledger holds
    /// it. A request for anything else, or for a block that is not there,
    /// has no answer.
    pub fn handle_getdatacmd(&self, command: &GetDataCmd, blockchain: &Blockchain) -> (answer: Option<Outgoing>)
        ensures
            match answer {
                Some(out) => {
                    &&& command.inv_type == InvType::Block
                    &&& requested_block(blockchain.block_views(), command.id@) matches Some(block)
                    &&& out.addr@ == command.node_addr@
                    &&& out.message@ == (MessageView::SendBlock { node_addr: self.node_address@, block })
                },
                None => command.inv_type == InvType::Block ==> requested_block(
                    blockchain.block_views(),
                    command.id@,
                ).is_none(),
            },
    {
        match command.inv_type {
            InvType::Tx => None,
            InvType::Block => match hex_decode(command.id.as_str()) {
                None => None,
                Some(id_bytes) => match blockchain.get_block(id_bytes.as_slice()) {
                    None => None,
                    Some(block) => Some(
                        Outgoing {
                            addr: command.node_addr.clone(),
                            message: Message::SendBlock(SendBlockCmd::new(self.node_address.clone(), block)),
                        },
                    ),
                },
            },
        }
    }

    /// Takes a block from a peer into the ledger, and asks the same peer for
    /// the next block of its queue, if it has one waiting.
    pub fn handle_sendblockcmd(&mut self, command: SendBlockCmd, blockchain: &mut Blockchain) -> (answer: Option<
        Outgoing,
    >)
        requires
            old(blockchain).wf(),
        ensures
            final(blockchain).wf(),
            final(self).node_address == old(self).node_address,
            old(self).wf() ==> final(self).wf(),
            lookup(old(blockchain).block_views(), command.block@.hash).is_some() ==> *final(blockchain) == *old(
                blockchain,
            ),
            lookup(old(blockchain).block_views(), command.block@.hash).is_none() ==> {
                &&& final(blockchain).blocks@ == old(blockchain).blocks@.push(command.block)
                &&& final(blockchain).latest_hash@ == if command.block.height > old(blockchain).tip().height {
                    command.block@.hash
                } else {
                    old(blockchain).latest_hash@
                }
            },
            ({
                let waiting = pending(old(self).queues(), command.node_addr@);
                if waiting.len() == 0 {
                    answer.is_none() && *final(self) == *old(self)
                } else {
                    &&& answer matches Some(out)
                    &&& out.addr@ == command.node_addr@
                    &&& out.message@ == (MessageView::GetData {
                        node_addr: old(self).node_address@,
                        inv_type: InvType::Block,
                        id: waiting[0],
                    })
                    &&& final(self).queues() == with_pending(
                        old(self).queues(),
                        command.node_addr@,
                        waiting.drop_first(),
                    )
                }
            }),
    {
        let SendBlockCmd { node_addr, block } = command;
        blockchain.add_block(block);
        let ghost before = self.queues();
        match self.queue_of(&node_addr) {
            None => {
                proof {
                    assert forall|k: int| 0 <= k < before.len() implies (#[trigger] before[k]).0 != node_addr@ by {
                        assert(before[k].0 == self.blocks_in_transimission@[k].0@);
                    }
                    lemma_pending_absent(before, node_addr@);
                }
                None
            },
            Some(i) => {
                proof {
                    assert forall|k: int| 0 <= k < i implies (#[trigger] before[k]).0 != node_addr@ by {
                        assert(before[k].0 == self.blocks_in_transimission@[k].0@);
                    }
                    assert(before[i as int] == (
                        self.blocks_in_transimission@[i as int].0@,
                        texts(self.blocks_in_transimission@[i as int].1@),
                    ));
                    lemma_pending_at(before, node_addr@, i as int);
                }
                if self.blocks_in_transimission[i].1.len() == 0 {
                    return None;
                }
                let mut waiting: Vec<String> = Vec::new();
                let mut k: usize = 1;
                let first = self.blocks_in_transimission[i].1[0].clone();
                while k < self.blocks_in_transimission[i].1.len()
                    invariant
                        1 <= k <= self.blocks_in_transimission@[i as int].1@.len(),
                        i < self.blocks_in_transimission@.len(),
                        waiting@.len() == k - 1,
                        forall|m: int|
                            0 <= m < waiting@.len() ==> (#[trigger] waiting@[m])@
                                == self.blocks_in_transimission@[i as int].1@[m + 1]@,
                    decreases self.blocks_in_transimission@[i as int].1@.len() - k,
                {
                    waiting.push(self.blocks_in_transimission[i].1[k].clone());
                    k = k + 1;
                }
                assert(texts(waiting@) =~= pending(before, node_addr@).drop_first());
                let addr = node_addr.clone();
                self.set_pending(node_addr, waiting);
                Some(
                    Outgoing {
                        addr,
                        message: Message::GetData(
                            GetDataCmd { node_addr: self.node_address.clone(), inv_type: InvType::Block, id: first },
                        ),
                    },
                )
            },
        }
    }

    /// Answers one command, whatever it is: the ledger and the queues change
    /// as the command asks, and the answer, if there is one, says where it
    /// goes.
    pub fn handle(&mut self, message: Message, blockchain: &mut Blockchain) -> (answer: Option<Outgoing>)
        requires
            old(blockchain).wf(),
        ensures
            final(blockchain).wf(),
            final(self).node_address == old(self).node_address,
            old(self).wf() ==> final(self).wf(),
            answer_view(answer) == answer_to(
                old(self).node_address@,
                old(self).queues(),
                old(blockchain).block_views(),
                old(blockchain).latest_hash@,
                message@,
            ),
            final(self).queues() == queues_after(old(self).queues(), message@),
            (final(blockchain).block_views(), final(blockchain).latest_hash@) == ledger_after(
                old(blockchain).block_views(),
                old(blockchain).latest_hash@,
                message@,
            ),
    {
        match message {
            Message::Height(command) => Some(self.handle_height(&command, blockchain)),
            Message::Getblocks(command) => Some(self.handle_getblocks(&command, blockchain)),
            Message::SendInv(command) => self.handle_sendinvcmd(command),
            Message::GetData(command) => self.handle_getdatacmd(&command, blockchain),
            Message::SendBlock(command) => {
                let ghost added = command.block@;
                let ghost before = blockchain.block_views();
                let answer = self.handle_sendblockcmd(command, blockchain);
                proof {
                    if lookup(before, added.hash).is_none() {
                        assert(blockchain.block_views() =~= before.push(added));
                    }
                }
                answer
            },
            Message::SendTx(_) => None,
        }
    }

    /// Takes one frame off the wire: reads the command in it and answers it.
    /// A frame that holds no command changes nothing and has no answer.
    pub fn process(&mut self, package: &[u8], blockchain: &mut Blockchain) -> (answer: Option<Outgoing>)
        requires
            old(blockchain).wf(),
        ensures
            final(blockchain).wf(),
            final(self).node_address == old(self).node_address,
            old(self).wf() ==> final(self).wf(),
            match frame_message(package@) {
                None => answer.is_none() && *final(self) == *old(self) && *final(blockchain) == *old(blockchain),
                Some(message) => {
                    &&& answer_view(answer) == answer_to(
                        old(self).node_address@,
                        old(self).queues(),
                        old(blockchain).block_views(),
                        old(blockchain).latest_hash@,
                        message,
                    )
                    &&& final(self).queues() == queues_after(old(self).queues(), message)
                    &&& (final(blockchain).block_views(), final(blockchain).latest_hash@) == ledger_after(
                        old(blockchain).block_views(),
                        old(blockchain).latest_hash@,
                        message,
                    )
                },
            },
    {
        match Message::decode(package) {
            None => None,
            Some(message) => self.handle(message, blockchain),
        }
    }
}

/// A peer without a queue has nothing pending.
pub proof fn lemma_pending_absent(queues: Seq<(Seq<char>, Seq<Seq<char>>)>, peer: Seq<char>)
    requires
        forall|k: int| 0 <= k < queues.len() ==> (#[trigger] queues[k]).0 != peer,
    ensures
        pending(queues, peer).len() == 0,
    decreases queues.len(),
{
    if queues.len() > 0 {
        assert(queues[0].0 != peer);
        assert forall|k: int| 0 <= k < queues.drop_first().len() implies (#[trigger] queues.drop_first()[k]).0
            != peer by {
            assert(queues.drop_first()[k] == queues[k + 1]);
        }
        lemma_pending_absent(queues.drop_first(), peer);
    }
}

/// What is pending for a peer is its first queue.
pub proof fn lemma_pending_at(queues: Seq<(Seq<char>, Seq<Seq<char>>)>, peer: Seq<char>, at: int)
    requires
        0 <= at < queues.len(),
        queues[at].0 == peer,
        forall|k: int| 0 <= k < at ==> (#[trigger] queues[k]).0 != peer,
    ensures
        pending(queues, peer) == queues[at].1,
    decreases queues.len(),
{
    if at > 0 {
        assert(queues[0].0 != peer);
        assert forall|k: int| 0 <= k < at - 1 implies (#[trigger] queues.drop_first()[k]).0 != peer by {
            assert(queues.drop_first()[k] == queues[k + 1]);
        }
        lemma_pending_at(queues.drop_first(), peer, at - 1);
    }
}

/// Replacing the queue of a peer that has one changes it in place.
pub proof fn lemma_with_pending_at(
    queues: Seq<(Seq<char>, Seq<Seq<char>>)>,
    peer: Seq<char>,
    ids: Seq<Seq<char>>,
    at: int,
)
    requires
        0 <= at < queues.len(),
        queues[at].0 == peer,
        forall|k: int| 0 <= k < at ==> (#[trigger] queues[k]).0 != peer,
    ensures
        with_pending(queues, peer, ids) == queues.update(at, (peer, ids)),
    decreases queues.len(),
{
    if at == 0 {
        assert(seq![(peer, ids)] + queues.drop_first() =~= queues.update(0, (peer, ids)));
    } else {
        assert(queues[0].0 != peer);
        assert forall|k: int| 0 <= k < at - 1 implies (#[trigger] queues.drop_first()[k]).0 != peer by {
            assert(queues.drop_first()[k] == queues[k + 1]);
        }
        lemma_with_pending_at(queues.drop_first(), peer, ids, at - 1);
        assert(seq![queues[0]] + queues.drop_first().update(at - 1, (peer, ids)) =~= queues.update(
            at,
            (peer, ids),
        ));
    }
}

/// Replacing the queue of a peer that has none adds one at the end.
pub proof fn lemma_with_pending_last(queues: Seq<(Seq<char>, Seq<Seq<char>>)>, peer: Seq<char>, ids: Seq<Seq<char>>)
    requires
        forall|k: int| 0 <= k < queues.len() ==> (#[trigger] queues[k]).0 != peer,
    ensures
        with_pending(queues, peer, ids) == queues.push((peer, ids)),
    decreases queues.len(),
{
    if queues.len() == 0 {
        assert(seq![(peer, ids)] =~= queues.push((peer, ids)));
    } else {
        assert(queues[0].0 != peer);
        assert forall|k: int| 0 <= k < queues.drop_first().len() implies (#[trigger] queues.drop_first()[k]).0
            != peer by {
            assert(queues.drop_first()[k] == queues[k + 1]);
        }
        lemma_with_pending_last(queues.drop_first(), peer, ids);
        assert(seq![queues[0]] + queues.drop_first().push((peer, ids)) =~= queues.push((peer, ids)));
    }
}

} // verus!
