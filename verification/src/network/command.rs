//! The commands of the wire protocol and their frames: one version byte, the
//! payload's length in four bytes, the command's code in two, the payload.

use crate::block::{
    block_encoding, block_fits, lemma_block_reads_back, put_block, read_block, take_block, Block, BlockView,
};
use crate::error::LedgerError;
use crate::octets::{append_bytes, be_bytes, push_be_bytes, texts};
use crate::transaction::{
    lemma_transaction_reads_back, put_transaction, read_transaction, take_transaction, transaction_encoding,
    transaction_fits, Transaction, TransactionView,
};
use crate::wire::{
    lemma_concat_assoc, lemma_skip_past, lemma_text_reads_back, lemma_u128_reads_back, lemma_u32_reads_back,
    lemma_usize_reads_back, put_text, put_u128, put_u32, put_usize, read_text, read_u128, read_u32,
    read_usize, take_text, take_u128, take_u32, take_usize, text_bytes, text_fits, u128_bytes, u32_bytes,
    usize_bytes,
};
use vstd::prelude::*;

verus! {

/// The protocol version every frame starts with.
pub const PROTOCOL_VERSION: u8 = 1;

/// Number of bytes before the payload: version, length and code.
pub const HEADER_LEN: usize = 7;

/// The commands, as the code of a frame tells them.
#[derive(Clone, Copy, Debug, PartialEq, Eq, Structural)]
pub enum Cmd {
    Height,
    Getblocks,
    SendInv,
    GetData,
    SendBlock,
    SendTx,
    Unknown,
}

/// What an inventory lists.
#[derive(Clone, Copy, Debug, PartialEq, Eq, Structural)]
pub enum InvType {
    Block,
    Tx,
}

/// The two code bytes of a command.
pub open spec fn code_bytes(code: Cmd) -> Seq<u8> {
    match code {
        Cmd::Height => seq![0u8, 1u8],
        Cmd::Getblocks => seq![0u8, 2u8],
        Cmd::SendInv => seq![0u8, 3u8],
        Cmd::GetData => seq![0u8, 4u8],
        Cmd::SendBlock => seq![0u8, 5u8],
        Cmd::SendTx => seq![0u8, 6u8],
        Cmd::Unknown => seq![255u8, 255u8],
    }
}

/// The command that two code bytes name; any pair that names none is
/// `Unknown`.
pub open spec fn code_of(bytes: Seq<u8>) -> Cmd {
    if bytes[0] != 0 {
        Cmd::Unknown
    } else if bytes[1] == 1 {
        Cmd::Height
    } else if bytes[1] == 2 {
        Cmd::Getblocks
    } else if bytes[1] == 3 {
        Cmd::SendInv
    } else if bytes[1] == 4 {
        Cmd::GetData
    } else if bytes[1] == 5 {
        Cmd::SendBlock
    } else if bytes[1] == 6 {
        Cmd::SendTx
    } else {
        Cmd::Unknown
    }
}

/// The frame of a payload: version, length, code, payload.
pub open spec fn frame_of(code: Cmd, payload: Seq<u8>) -> Seq<u8> {
    seq![PROTOCOL_VERSION] + be_bytes(payload.len() as u32) + code_bytes(code) + payload
}

impl Cmd {
    /// The two code bytes of this command.
    pub fn encode(&self) -> (bytes: [u8; 2])
        ensures
            bytes@ == code_bytes(*self),
    {
        let bytes: [u8; 2] = match self {
            Cmd::Height => [0u8, 1u8],
            Cmd::Getblocks => [0u8, 2u8],
            Cmd::SendInv => [0u8, 3u8],
            Cmd::GetData => [0u8, 4u8],
            Cmd::SendBlock => [0u8, 5u8],
            Cmd::SendTx => [0u8, 6u8],
            Cmd::Unknown => [255u8, 255u8],
        };
        assert(bytes@ =~= code_bytes(*self));
        bytes
    }

    /// The command that two code bytes name.
    pub fn decode(bytes: [u8; 2]) -> (code: Cmd)
        ensures
            code == code_of(bytes@),
    {
        if bytes[0] != 0 {
            Cmd::Unknown
        } else if bytes[1] == 1 {
            Cmd::Height
        } else if bytes[1] == 2 {
            Cmd::Getblocks
        } else if bytes[1] == 3 {
            Cmd::SendInv
        } else if bytes[1] == 4 {
            Cmd::GetData
        } else if bytes[1] == 5 {
            Cmd::SendBlock
        } else if bytes[1] == 6 {
            Cmd::SendTx
        } else {
            Cmd::Unknown
        }
    }
}

/// Decoding the code of a command gives the command back.
pub proof fn law_code_round_trip(code: Cmd)
    ensures
        code_of(code_bytes(code)) == code,
{
}

/// Puts a payload in its frame. Fails with `Overflow` when the payload's
/// length does not fit the four bytes of the header.
pub fn frame(code: Cmd, payload: &[u8]) -> (framed: Result<Vec<u8>, LedgerError>)
    ensures
        match framed {
            Ok(f) => payload@.len() <= u32::MAX && f@ == frame_of(code, payload@),
            Err(e) => payload@.len() > u32::MAX && e == LedgerError::Overflow,
        },
{
    if payload.len() > u32::MAX as usize {
        return Err(LedgerError::Overflow);
    }
    let mut framed: Vec<u8> = Vec::new();
    framed.push(PROTOCOL_VERSION);
    push_be_bytes(&mut framed, payload.len() as u32);
    let code_pair = code.encode();
    framed.push(code_pair[0]);
    framed.push(code_pair[1]);
    assert(framed@ =~= seq![PROTOCOL_VERSION] + be_bytes(payload@.len() as u32) + code_bytes(code));
    append_bytes(&mut framed, payload);
    Ok(framed)
}

/// A node tells its height.
#[derive(Debug, PartialEq, Eq)]
pub struct HeightCmd {
    pub node_addr: String,
    pub height: u128,
}

/// A node asks for the hashes of the other's blocks.
#[derive(Debug, PartialEq, Eq)]
pub struct GetblocksCmd {
    pub node_addr: String,
}

/// A node lists what it has.
#[derive(Debug, PartialEq, Eq)]
pub struct SendInvCmd {
    pub node_addr: String,
    pub inv_type: InvType,
    pub items: Vec<String>,
}

/// A node asks for one item.
#[derive(Debug, PartialEq, Eq)]
pub struct GetDataCmd {
    pub node_addr: String,
    pub inv_type: InvType,
    pub id: String,
}

/// A node hands a block over.
#[derive(Debug, PartialEq, Eq)]
pub struct SendBlockCmd {
    pub node_addr: String,
    pub block: Block,
}

/// A node hands a transaction over.
#[derive(Debug, PartialEq, Eq)]
pub struct SendTxCmd {
    pub node_addr: String,
    pub tx: Transaction,
}

/// What a command says, as mathematics.
#[verifier::ext_equal]
pub enum MessageView {
    Height { node_addr: Seq<char>, height: u128 },
    Getblocks { node_addr: Seq<char> },
    SendInv { node_addr: Seq<char>, inv_type: InvType, items: Seq<Seq<char>> },
    GetData { node_addr: Seq<char>, inv_type: InvType, id: Seq<char> },
    SendBlock { node_addr: Seq<char>, block: BlockView },
    SendTx { node_addr: Seq<char>, tx: TransactionView },
}

impl View for HeightCmd {
    type V = MessageView;

    open spec fn view(&self) -> MessageView {
        MessageView::Height { node_addr: self.node_addr@, height: self.height }
    }
}

impl View for GetblocksCmd {
    type V = MessageView;

    open spec fn view(&self) -> MessageView {
        MessageView::Getblocks { node_addr: self.node_addr@ }
    }
}

impl View for SendInvCmd {
    type V = MessageView;

    open spec fn view(&self) -> MessageView {
        MessageView::SendInv { node_addr: self.node_addr@, inv_type: self.inv_type, items: texts(self.items@) }
    }
}

impl View for GetDataCmd {
    type V = MessageView;

    open spec fn view(&self) -> MessageView {
        MessageView::GetData { node_addr: self.node_addr@, inv_type: self.inv_type, id: self.id@ }
    }
}

impl View for SendBlockCmd {
    type V = MessageView;

    open spec fn view(&self) -> MessageView {
        MessageView::SendBlock { node_addr: self.node_addr@, block: self.block@ }
    }
}

impl View for SendTxCmd {
    type V = MessageView;

    open spec fn view(&self) -> MessageView {
        MessageView::SendTx { node_addr: self.node_addr@, tx: self.tx@ }
    }
}

/// The number that stands for a kind on the wire.
pub open spec fn kind_number(inv_type: InvType) -> u32 {
    match inv_type {
        InvType::Block => 0,
        InvType::Tx => 1,
    }
}

/// The kind that a number on the wire names.
pub open spec fn inv_type_of(kind: u32) -> Option<InvType> {
    if kind == 0 {
        Some(InvType::Block)
    } else if kind == 1 {
        Some(InvType::Tx)
    } else {
        None
    }
}

/// The encodings of texts, one after the other.
pub open spec fn text_run_encoding(items: Seq<Seq<char>>) -> Seq<u8>
    decreases items.len(),
{
    if items.len() == 0 {
        Seq::empty()
    } else {
        text_run_encoding(items.drop_last()) + text_bytes(items.last())
    }
}

/// A list of texts as it is encoded: its length, then its items.
pub open spec fn texts_encoding(items: Seq<Seq<char>>) -> Seq<u8> {
    usize_bytes(items.len() as usize) + text_run_encoding(items)
}

/// The `count` texts that stand one after the other from `at` on, with
/// the position after them.
pub open spec fn read_text_run(bytes: Seq<u8>, at: nat, count: nat) -> Option<(Seq<Seq<char>>, nat)>
    decreases count,
{
    if count == 0 {
        Some((Seq::empty(), at))
    } else {
        match read_text_run(bytes, at, (count - 1) as nat) {
            None => None,
            Some((head, next)) => match read_text(bytes, next) {
                None => None,
                Some((last, after)) => Some((head.push(last), after)),
            },
        }
    }
}

/// The list of texts that stands at `at`, with the position after it.
pub open spec fn read_texts(bytes: Seq<u8>, at: nat) -> Option<(Seq<Seq<char>>, nat)> {
    match read_usize(bytes, at) {
        None => None,
        Some((count, next)) => read_text_run(bytes, next, count as nat),
    }
}

/// Where fewer texts cannot be read, more cannot either.
pub proof fn lemma_read_text_run_stops(bytes: Seq<u8>, at: nat, fewer: nat, more: nat)
    requires
        fewer <= more,
        read_text_run(bytes, at, fewer).is_none(),
    ensures
        read_text_run(bytes, at, more).is_none(),
    decreases more - fewer,
{
    if fewer < more {
        lemma_read_text_run_stops(bytes, at, fewer, (more - 1) as nat);
    }
}

/// Appends the encoding of a list of texts.
pub fn put_texts(out: &mut Vec<u8>, items: &Vec<String>)
    ensures
        final(out)@ == old(out)@ + texts_encoding(texts(items@)),
{
    let ghost before = out@;
    let ghost all = texts(items@);
    put_usize(out, items.len());
    let ghost head = out@;
    let mut i: usize = 0;
    assert(all.take(0) =~= Seq::<Seq<char>>::empty());
    assert(out@ =~= head + text_run_encoding(all.take(0)));
    while i < items.len()
        invariant
            i <= items@.len(),
            all == texts(items@),
            out@ == head + text_run_encoding(all.take(i as int)),
        decreases items@.len() - i,
    {
        assert(all.take(i + 1).drop_last() =~= all.take(i as int));
        assert(all.take(i + 1).last() == items@[i as int]@);
        put_text(out, &items[i]);
        assert(out@ =~= head + text_run_encoding(all.take(i + 1)));
        i = i + 1;
    }
    assert(all.take(items@.len() as int) =~= all);
    assert(out@ =~= before + texts_encoding(all));
}

/// Reads the list of texts that stands at `at`.
pub fn take_texts(src: &[u8], at: usize) -> (found: Option<(Vec<String>, usize)>)
    ensures
        match found {
            Some((items, next)) => read_texts(src@, at as nat) == Some((texts(items@), next as nat)) && at
                <= next <= src@.len(),
            None => read_texts(src@, at as nat).is_none(),
        },
{
    let (count, start) = match take_usize(src, at) {
        None => {
            return None;
        },
        Some(read) => read,
    };
    let mut items: Vec<String> = Vec::new();
    let mut next: usize = start;
    let mut i: usize = 0;
    assert(texts(items@) =~= Seq::<Seq<char>>::empty());
    while i < count
        invariant
            i <= count,
            at <= start <= next <= src@.len(),
            read_usize(src@, at as nat) == Some((count, start as nat)),
            read_text_run(src@, start as nat, i as nat) == Some((texts(items@), next as nat)),
        decreases count - i,
    {
        let ghost so_far = texts(items@);
        match take_text(src, next) {
            None => {
                proof {
                    assert(read_text_run(src@, start as nat, (i + 1) as nat).is_none());
                    lemma_read_text_run_stops(src@, start as nat, (i + 1) as nat, count as nat);
                }
                return None;
            },
            Some((item, after)) => {
                items.push(item);
                assert(texts(items@) =~= so_far.push(item@));
                next = after;
            },
        }
        i = i + 1;
    }
    Some((items, next))
}

/// The payload of a command: the sender's address first, then what the
/// command carries, each field in its encoding.
pub open spec fn payload_of(message: MessageView) -> Seq<u8> {
    match message {
        MessageView::Height { node_addr, height } => text_bytes(node_addr) + u128_bytes(height),
        MessageView::Getblocks { node_addr } => text_bytes(node_addr),
        MessageView::SendInv { node_addr, inv_type, items } => text_bytes(node_addr) + u32_bytes(
            kind_number(inv_type),
        ) + texts_encoding(items),
        MessageView::GetData { node_addr, inv_type, id } => text_bytes(node_addr) + u32_bytes(kind_number(inv_type))
            + text_bytes(id),
        MessageView::SendBlock { node_addr, block } => text_bytes(node_addr) + block_encoding(block),
        MessageView::SendTx { node_addr, tx } => text_bytes(node_addr) + transaction_encoding(tx),
    }
}

/// The code of a command.
pub open spec fn command_code(message: MessageView) -> Cmd {
    match message {
        MessageView::Height { .. } => Cmd::Height,
        MessageView::Getblocks { .. } => Cmd::Getblocks,
        MessageView::SendInv { .. } => Cmd::SendInv,
        MessageView::GetData { .. } => Cmd::GetData,
        MessageView::SendBlock { .. } => Cmd::SendBlock,
        MessageView::SendTx { .. } => Cmd::SendTx,
    }
}

/// The kind that stands at `at`: a number that names one, with the position
/// after it.
pub open spec fn read_kind(bytes: Seq<u8>, at: nat) -> Option<(InvType, nat)> {
    match read_u32(bytes, at) {
        None => None,
        Some((kind, next)) => match inv_type_of(kind) {
            None => None,
            Some(inv_type) => Some((inv_type, next)),
        },
    }
}

/// The command in a payload, read as its code tells: the fields are read
/// one after the other from the start; what follows them is not looked at.
pub open spec fn payload_message(code: Cmd, payload: Seq<u8>) -> Option<MessageView> {
    match read_text(payload, 0) {
        None => None,
        Some((node_addr, a)) => match code {
            Cmd::Height => match read_u128(payload, a) {
                None => None,
                Some((height, b)) => Some(MessageView::Height { node_addr, height }),
            },
            Cmd::Getblocks => Some(MessageView::Getblocks { node_addr }),
            Cmd::SendInv => match read_kind(payload, a) {
                None => None,
                Some((inv_type, b)) => match read_texts(payload, b) {
                    None => None,
                    Some((items, c)) => Some(MessageView::SendInv { node_addr, inv_type, items }),
                },
            },
            Cmd::GetData => match read_kind(payload, a) {
                None => None,
                Some((inv_type, b)) => match read_text(payload, b) {
                    None => None,
                    Some((id, c)) => Some(MessageView::GetData { node_addr, inv_type, id }),
                },
            },
            Cmd::SendBlock => match read_block(payload, a) {
                None => None,
                Some((block, b)) => Some(MessageView::SendBlock { node_addr, block }),
            },
            Cmd::SendTx => match read_transaction(payload, a) {
                None => None,
                Some((tx, b)) => Some(MessageView::SendTx { node_addr, tx }),
            },
            Cmd::Unknown => None,
        },
    }
}

/// The command in a frame: the code stands in bytes 5 and 6, the payload
/// after them. A frame that is too short, has an unknown code, or a payload
/// that does not decode holds none.
pub open spec fn frame_message(package: Seq<u8>) -> Option<MessageView> {
    if package.len() < HEADER_LEN {
        None
    } else {
        payload_message(code_of(package.subrange(5, 7)), package.subrange(HEADER_LEN as int, package.len() as int))
    }
}

impl InvType {
    /// The number that stands for this kind on the wire.
    pub fn number(&self) -> (kind: u32)
        ensures
            kind == kind_number(*self),
    {
        match self {
            InvType::Block => 0,
            InvType::Tx => 1,
        }
    }
}

/// The kind that a number on the wire names.
pub fn inv_type_from(kind: u32) -> (inv_type: Option<InvType>)
    ensures
        inv_type == inv_type_of(kind),
{
    if kind == 0 {
        Some(InvType::Block)
    } else if kind == 1 {
        Some(InvType::Tx)
    } else {
        None
    }
}

/// Reads the kind that stands at `at`.
pub fn take_kind(src: &[u8], at: usize) -> (found: Option<(InvType, usize)>)
    ensures
        match found {
            Some((inv_type, next)) => read_kind(src@, at as nat) == Some((inv_type, next as nat)) && at <= next
                <= src@.len(),
            None => read_kind(src@, at as nat).is_none(),
        },
{
    match take_u32(src, at) {
        None => None,
        Some((kind, next)) => match inv_type_from(kind) {
            None => None,
            Some(inv_type) => Some((inv_type, next)),
        },
    }
}

/// What every command can do: tell its version and put itself in a frame.
pub trait Command {
    /// What the command says.
    spec fn message(&self) -> MessageView;

    fn version(&self) -> (version: u8)
        ensures
            version == PROTOCOL_VERSION,
    ;

    /// The frame of this command. Fails with `Overflow` when the payload is
    /// too long for the header.
    fn serialize(&self) -> (framed: Result<Vec<u8>, LedgerError>)
        ensures
            match framed {
                Ok(f) => payload_of(self.message()).len() <= u32::MAX && f@ == frame_of(
                    command_code(self.message()),
                    payload_of(self.message()),
                ),
                Err(e) => payload_of(self.message()).len() > u32::MAX && e == LedgerError::Overflow,
            },
    ;
}

impl Command for HeightCmd {
    open spec fn message(&self) -> MessageView {
        self@
    }

    fn version(&self) -> (version: u8) {
        PROTOCOL_VERSION
    }

    fn serialize(&self) -> (framed: Result<Vec<u8>, LedgerError>) {
        let mut payload: Vec<u8> = Vec::new();
        put_text(&mut payload, &self.node_addr);
        put_u128(&mut payload, self.height);
        assert(payload@ =~= payload_of(self@));
        frame(Cmd::Height, payload.as_slice())
    }
}

impl HeightCmd {
    /// The command by which `node_addr` tells its height.
    pub fn new(node_addr: String, height: u128) -> (command: Self)
        ensures
            command.node_addr == node_addr,
            command.height == height,
    {
        Self { node_addr, height }
    }
}

impl Command for GetblocksCmd {
    open spec fn message(&self) -> MessageView {
        self@
    }

    fn version(&self) -> (version: u8) {
        PROTOCOL_VERSION
    }

    fn serialize(&self) -> (framed: Result<Vec<u8>, LedgerError>) {
        let mut payload: Vec<u8> = Vec::new();
        put_text(&mut payload, &self.node_addr);
        assert(payload@ =~= payload_of(self@));
        frame(Cmd::Getblocks, payload.as_slice())
    }
}

impl GetblocksCmd {
    /// The command by which `node_addr` asks for block hashes.
    pub fn new(node_addr: String) -> (command: Self)
        ensures
            command.node_addr == node_addr,
    {
        Self { node_addr }
    }
}

impl Command for SendInvCmd {
    open spec fn message(&self) -> MessageView {
        self@
    }

    fn version(&self) -> (version: u8) {
        PROTOCOL_VERSION
    }

    fn serialize(&self) -> (framed: Result<Vec<u8>, LedgerError>) {
        let mut payload: Vec<u8> = Vec::new();
        put_text(&mut payload, &self.node_addr);
        put_u32(&mut payload, self.inv_type.number());
        put_texts(&mut payload, &self.items);
        assert(payload@ =~= payload_of(self@));
        frame(Cmd::SendInv, payload.as_slice())
    }
}

impl SendInvCmd {
    /// The command by which `node_addr` lists what it has of one kind.
    pub fn new(node_addr: String, inv_type: InvType, items: Vec<String>) -> (command: Self)
        ensures
            command.node_addr == node_addr,
            command.inv_type == inv_type,
            command.items == items,
    {
        Self { node_addr, inv_type, items }
    }
}

impl Command for GetDataCmd {
    open spec fn message(&self) -> MessageView {
        self@
    }

    fn version(&self) -> (version: u8) {
        PROTOCOL_VERSION
    }

    fn serialize(&self) -> (framed: Result<Vec<u8>, LedgerError>) {
        let mut payload: Vec<u8> = Vec::new();
        put_text(&mut payload, &self.node_addr);
        put_u32(&mut payload, self.inv_type.number());
        put_text(&mut payload, &self.id);
        assert(payload@ =~= payload_of(self@));
        frame(Cmd::GetData, payload.as_slice())
    }
}

impl Command for SendBlockCmd {
    open spec fn message(&self) -> MessageView {
        self@
    }

    fn version(&self) -> (version: u8) {
        PROTOCOL_VERSION
    }

    fn serialize(&self) -> (framed: Result<Vec<u8>, LedgerError>) {
        let mut payload: Vec<u8> = Vec::new();
        put_text(&mut payload, &self.node_addr);
        put_block(&mut payload, &self.block);
        assert(payload@ =~= payload_of(self@));
        frame(Cmd::SendBlock, payload.as_slice())
    }
}

impl SendBlockCmd {
    /// The command by which `node_addr` hands a block over.
    pub fn new(node_addr: String, block: Block) -> (command: Self)
        ensures
            command.node_addr == node_addr,
            command.block == block,
    {
        Self { node_addr, block }
    }
}

impl Command for SendTxCmd {
    open spec fn message(&self) -> MessageView {
        self@
    }

    fn version(&self) -> (version: u8) {
        PROTOCOL_VERSION
    }

    fn serialize(&self) -> (framed: Result<Vec<u8>, LedgerError>) {
        let mut payload: Vec<u8> = Vec::new();
        put_text(&mut payload, &self.node_addr);
        put_transaction(&mut payload, &self.tx);
        assert(payload@ =~= payload_of(self@));
        frame(Cmd::SendTx, payload.as_slice())
    }
}

impl SendTxCmd {
    /// The command by which `node_addr` hands a transaction over.
    pub fn new(node_addr: String, tx: Transaction) -> (command: Self)
        ensures
            command.node_addr == node_addr,
            command.tx == tx,
    {
        Self { node_addr, tx }
    }
}

/// Any one command.
#[derive(Debug, PartialEq, Eq)]
pub enum Message {
    Height(HeightCmd),
    Getblocks(GetblocksCmd),
    SendInv(SendInvCmd),
    GetData(GetDataCmd),
    SendBlock(SendBlockCmd),
    SendTx(SendTxCmd),
}

impl View for Message {
    type V = MessageView;

    open spec fn view(&self) -> MessageView {
        match self {
            Message::Height(c) => c@,
            Message::Getblocks(c) => c@,
            Message::SendInv(c) => c@,
            Message::GetData(c) => c@,
            Message::SendBlock(c) => c@,
            Message::SendTx(c) => c@,
        }
    }
}

impl Message {
    /// Reads the command in a payload, as its code tells.
    pub fn from_payload(code: Cmd, payload: &[u8]) -> (message: Option<Message>)
        ensures
            match message {
                Some(m) => payload_message(code, payload@) == Some(m@),
                None => payload_message(code, payload@).is_none(),
            },
    {
        let (node_addr, a) = match take_text(payload, 0) {
            None => {
                return None;
            },
            Some(read) => read,
        };
        match code {
            Cmd::Height => match take_u128(payload, a) {
                None => None,
                Some((height, _)) => Some(Message::Height(HeightCmd { node_addr, height })),
            },
            Cmd::Getblocks => Some(Message::Getblocks(GetblocksCmd { node_addr })),
            Cmd::SendInv => match take_kind(payload, a) {
                None => None,
                Some((inv_type, b)) => match take_texts(payload, b) {
                    None => None,
                    Some((items, _)) => Some(Message::SendInv(SendInvCmd { node_addr, inv_type, items })),
                },
            },
            Cmd::GetData => match take_kind(payload, a) {
                None => None,
                Some((inv_type, b)) => match take_text(payload, b) {
                    None => None,
                    Some((id, _)) => Some(Message::GetData(GetDataCmd { node_addr, inv_type, id })),
                },
            },
            Cmd::SendBlock => match take_block(payload, a) {
                None => None,
                Some((block, _)) => Some(Message::SendBlock(SendBlockCmd { node_addr, block })),
            },
            Cmd::SendTx => match take_transaction(payload, a) {
                None => None,
                Some((tx, _)) => Some(Message::SendTx(SendTxCmd { node_addr, tx })),
            },
            Cmd::Unknown => None,
        }
    }

    /// Reads the command in a frame.
    pub fn decode(package: &[u8]) -> (message: Option<Message>)
        ensures
            match message {
                Some(m) => frame_message(package@) == Some(m@),
                None => frame_message(package@).is_none(),
            },
    {
        if package.len() < HEADER_LEN {
            return None;
        }
        let code_pair: [u8; 2] = [package[5], package[6]];
        assert(code_pair@ =~= package@.subrange(5, 7));
        let code = Cmd::decode(code_pair);
        let payload = &package[HEADER_LEN..package.len()];
        Message::from_payload(code, payload)
    }

    /// The frame of this command. Fails with `Overflow` when the payload is
    /// too long for the header.
    pub fn serialize(&self) -> (framed: Result<Vec<u8>, LedgerError>)
        ensures
            match framed {
                Ok(f) => payload_of(self@).len() <= u32::MAX && f@ == frame_of(command_code(self@), payload_of(self@)),
                Err(e) => payload_of(self@).len() > u32::MAX && e == LedgerError::Overflow,
            },
    {
        match self {
            Message::Height(c) => c.serialize(),
            Message::Getblocks(c) => c.serialize(),
            Message::SendInv(c) => c.serialize(),
            Message::GetData(c) => c.serialize(),
            Message::SendBlock(c) => c.serialize(),
            Message::SendTx(c) => c.serialize(),
        }
    }
}

/// Whether a list of texts can be encoded: its length and every item
/// fit.
pub open spec fn texts_fit(items: Seq<Seq<char>>) -> bool {
    &&& items.len() <= usize::MAX
    &&& forall|i: int| 0 <= i < items.len() ==> text_fits(#[trigger] items[i])
}

/// Encoded texts read back one after the other, wherever they stand.
pub proof fn lemma_text_run_reads_back(bytes: Seq<u8>, at: nat, items: Seq<Seq<char>>, rest: Seq<u8>)
    requires
        at <= bytes.len(),
        bytes.skip(at as int) == text_run_encoding(items) + rest,
        forall|i: int| 0 <= i < items.len() ==> text_fits(#[trigger] items[i]),
    ensures
        read_text_run(bytes, at, items.len()) == Some((items, (at + text_run_encoding(items).len()) as nat)),
    decreases items.len(),
{
    if items.len() == 0 {
        assert(items =~= Seq::<Seq<char>>::empty());
        assert(text_run_encoding(items) =~= Seq::<u8>::empty());
    } else {
        let head = items.drop_last();
        let last = items.last();
        assert forall|i: int| 0 <= i < head.len() implies text_fits(#[trigger] head[i]) by {
            assert(head[i] == items[i]);
        }
        assert(text_fits(items[items.len() - 1]));
        lemma_concat_assoc(text_run_encoding(head), text_bytes(last), rest);
        lemma_text_run_reads_back(bytes, at, head, text_bytes(last) + rest);
        lemma_skip_past(bytes, at, text_run_encoding(head), text_bytes(last) + rest);
        lemma_text_reads_back(bytes, (at + text_run_encoding(head).len()) as nat, last, rest);
        assert(head.push(last) =~= items);
    }
}

/// An encoded list of texts reads back, wherever it stands.
pub proof fn lemma_texts_read_back(bytes: Seq<u8>, at: nat, items: Seq<Seq<char>>, rest: Seq<u8>)
    requires
        at <= bytes.len(),
        bytes.skip(at as int) == texts_encoding(items) + rest,
        texts_fit(items),
    ensures
        read_texts(bytes, at) == Some((items, (at + texts_encoding(items).len()) as nat)),
{
    let count = items.len() as usize;
    lemma_concat_assoc(usize_bytes(count), text_run_encoding(items), rest);
    lemma_usize_reads_back(bytes, at, count, text_run_encoding(items) + rest);
    lemma_skip_past(bytes, at, usize_bytes(count), text_run_encoding(items) + rest);
    lemma_text_run_reads_back(bytes, (at + usize_bytes(count).len()) as nat, items, rest);
}

/// Whether a command can be encoded: the texts, the list, the block or the
/// transaction it carries fit.
pub open spec fn message_fits(message: MessageView) -> bool {
    match message {
        MessageView::Height { node_addr, height } => text_fits(node_addr),
        MessageView::Getblocks { node_addr } => text_fits(node_addr),
        MessageView::SendInv { node_addr, inv_type, items } => text_fits(node_addr) && texts_fit(items),
        MessageView::GetData { node_addr, inv_type, id } => text_fits(node_addr) && text_fits(id),
        MessageView::SendBlock { node_addr, block } => text_fits(node_addr) && block_fits(block),
        MessageView::SendTx { node_addr, tx } => text_fits(node_addr) && transaction_fits(tx),
    }
}

/// An encoded kind reads back, wherever it stands.
pub proof fn lemma_kind_reads_back(bytes: Seq<u8>, at: nat, inv_type: InvType, rest: Seq<u8>)
    requires
        at <= bytes.len(),
        bytes.skip(at as int) == u32_bytes(kind_number(inv_type)) + rest,
    ensures
        read_kind(bytes, at) == Some((inv_type, (at + u32_bytes(kind_number(inv_type)).len()) as nat)),
{
    lemma_u32_reads_back(bytes, at, kind_number(inv_type), rest);
}

/// The payload of a `Height` command reads back.
proof fn lemma_height_reads_back(node_addr: Seq<char>, height: u128, rest: Seq<u8>)
    requires
        text_fits(node_addr),
    ensures
        payload_message(Cmd::Height, payload_of(MessageView::Height { node_addr, height }) + rest) == Some(
            MessageView::Height { node_addr, height },
        ),
{
    let a = text_bytes(node_addr);
    let b = u128_bytes(height);
    let bytes = payload_of(MessageView::Height { node_addr, height }) + rest;
    assert(bytes.skip(0) =~= bytes);
    lemma_concat_assoc(a, b, rest);
    lemma_text_reads_back(bytes, 0, node_addr, b + rest);
    lemma_skip_past(bytes, 0, a, b + rest);
    lemma_u128_reads_back(bytes, a.len(), height, rest);
}

/// The payload of a `Getblocks` command reads back.
proof fn lemma_getblocks_reads_back(node_addr: Seq<char>, rest: Seq<u8>)
    requires
        text_fits(node_addr),
    ensures
        payload_message(Cmd::Getblocks, payload_of(MessageView::Getblocks { node_addr }) + rest) == Some(
            MessageView::Getblocks { node_addr },
        ),
{
    let bytes = payload_of(MessageView::Getblocks { node_addr }) + rest;
    assert(bytes.skip(0) =~= bytes);
    lemma_text_reads_back(bytes, 0, node_addr, rest);
}

/// The payload of a `SendInv` command reads back.
proof fn lemma_inv_reads_back(node_addr: Seq<char>, inv_type: InvType, items: Seq<Seq<char>>, rest: Seq<u8>)
    requires
        text_fits(node_addr),
        texts_fit(items),
    ensures
        payload_message(Cmd::SendInv, payload_of(MessageView::SendInv { node_addr, inv_type, items }) + rest)
            == Some(MessageView::SendInv { node_addr, inv_type, items }),
{
    let a = text_bytes(node_addr);
    let b = u32_bytes(kind_number(inv_type));
    let c = texts_encoding(items);
    let bytes = payload_of(MessageView::SendInv { node_addr, inv_type, items }) + rest;
    assert(bytes.skip(0) =~= bytes);
    lemma_concat_assoc(a + b, c, rest);
    lemma_concat_assoc(a, b, c + rest);
    lemma_text_reads_back(bytes, 0, node_addr, b + (c + rest));
    lemma_skip_past(bytes, 0, a, b + (c + rest));
    lemma_kind_reads_back(bytes, a.len(), inv_type, c + rest);
    lemma_skip_past(bytes, a.len(), b, c + rest);
    lemma_texts_read_back(bytes, (a.len() + b.len()) as nat, items, rest);
}

/// The payload of a `GetData` command reads back.
proof fn lemma_getdata_reads_back(node_addr: Seq<char>, inv_type: InvType, id: Seq<char>, rest: Seq<u8>)
    requires
        text_fits(node_addr),
        text_fits(id),
    ensures
        payload_message(Cmd::GetData, payload_of(MessageView::GetData { node_addr, inv_type, id }) + rest) == Some(
            MessageView::GetData { node_addr, inv_type, id },
        ),
{
    let a = text_bytes(node_addr);
    let b = u32_bytes(kind_number(inv_type));
    let c = text_bytes(id);
    let bytes = payload_of(MessageView::GetData { node_addr, inv_type, id }) + rest;
    assert(bytes.skip(0) =~= bytes);
    lemma_concat_assoc(a + b, c, rest);
    lemma_concat_assoc(a, b, c + rest);
    lemma_text_reads_back(bytes, 0, node_addr, b + (c + rest));
    lemma_skip_past(bytes, 0, a, b + (c + rest));
    lemma_kind_reads_back(bytes, a.len(), inv_type, c + rest);
    lemma_skip_past(bytes, a.len(), b, c + rest);
    lemma_text_reads_back(bytes, (a.len() + b.len()) as nat, id, rest);
}

/// The payload of a `SendBlock` command reads back.
proof fn lemma_sendblock_reads_back(node_addr: Seq<char>, block: BlockView, rest: Seq<u8>)
    requires
        text_fits(node_addr),
        block_fits(block),
    ensures
        payload_message(Cmd::SendBlock, payload_of(MessageView::SendBlock { node_addr, block }) + rest) == Some(
            MessageView::SendBlock { node_addr, block },
        ),
{
    let a = text_bytes(node_addr);
    let b = block_encoding(block);
    let bytes = payload_of(MessageView::SendBlock { node_addr, block }) + rest;
    assert(bytes.skip(0) =~= bytes);
    lemma_concat_assoc(a, b, rest);
    lemma_text_reads_back(bytes, 0, node_addr, b + rest);
    lemma_skip_past(bytes, 0, a, b + rest);
    lemma_block_reads_back(bytes, a.len(), block, rest);
}

/// The payload of a `SendTx` command reads back.
proof fn lemma_sendtx_reads_back(node_addr: Seq<char>, tx: TransactionView, rest: Seq<u8>)
    requires
        text_fits(node_addr),
        transaction_fits(tx),
    ensures
        payload_message(Cmd::SendTx, payload_of(MessageView::SendTx { node_addr, tx }) + rest) == Some(
            MessageView::SendTx { node_addr, tx },
        ),
{
    let a = text_bytes(node_addr);
    let b = transaction_encoding(tx);
    let bytes = payload_of(MessageView::SendTx { node_addr, tx }) + rest;
    assert(bytes.skip(0) =~= bytes);
    lemma_concat_assoc(a, b, rest);
    lemma_text_reads_back(bytes, 0, node_addr, b + rest);
    lemma_skip_past(bytes, 0, a, b + rest);
    lemma_transaction_reads_back(bytes, a.len(), tx, rest);
}

/// What is sent is what is read: the payload of a command, read under the
/// command's code, gives the command back, whatever follows the payload.
pub proof fn law_payload_reads_back(message: MessageView, rest: Seq<u8>)
    requires
        message_fits(message),
    ensures
        payload_message(command_code(message), payload_of(message) + rest) == Some(message),
{
    match message {
        MessageView::Height { node_addr, height } => {
            lemma_height_reads_back(node_addr, height, rest);
        },
        MessageView::Getblocks { node_addr } => {
            lemma_getblocks_reads_back(node_addr, rest);
        },
        MessageView::SendInv { node_addr, inv_type, items } => {
            lemma_inv_reads_back(node_addr, inv_type, items, rest);
        },
        MessageView::GetData { node_addr, inv_type, id } => {
            lemma_getdata_reads_back(node_addr, inv_type, id, rest);
        },
        MessageView::SendBlock { node_addr, block } => {
            lemma_sendblock_reads_back(node_addr, block, rest);
        },
        MessageView::SendTx { node_addr, tx } => {
            lemma_sendtx_reads_back(node_addr, tx, rest);
        },
    }
}

/// The frame of a command holds the command: reading the frame gives back
/// what was put in it.
pub proof fn law_frame_reads_back(message: MessageView)
    requires
        message_fits(message),
    ensures
        frame_message(frame_of(command_code(message), payload_of(message))) == Some(message),
{
    let code = command_code(message);
    let payload = payload_of(message);
    let framed = frame_of(code, payload);
    assert(be_bytes(payload.len() as u32).len() == 4);
    assert(code_bytes(code).len() == 2);
    assert(framed.subrange(5, 7) =~= code_bytes(code));
    assert(framed.subrange(HEADER_LEN as int, framed.len() as int) =~= payload);
    law_code_round_trip(code);
    law_payload_reads_back(message, Seq::empty());
    assert(payload + Seq::<u8>::empty() =~= payload);
}

} // verus!
