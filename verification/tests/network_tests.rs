use powchain::block::Block;
use powchain::blockchain::Blockchain;
use powchain::network::command::{
    frame, inv_type_from, put_texts, take_kind, take_texts, Cmd, Command, GetDataCmd, GetblocksCmd, HeightCmd,
    InvType, Message, SendBlockCmd, SendInvCmd, SendTxCmd, HEADER_LEN, PROTOCOL_VERSION,
};
use powchain::network::{LengthHeaderDelimiter, Outgoing, Server};
use powchain::text::push_decimal;
use powchain::transaction::Transaction;
use powchain::tx::{TxInput, TxOutput};
use powchain::utxo::UTXOSet;
use powchain::wallet::Wallet;

fn wallet(seed: u8) -> Wallet {
    Wallet::from_private_key(vec![seed; 32]).unwrap()
}

fn sample_tx() -> Transaction {
    Transaction {
        id: vec![1, 2, 3],
        inputs: vec![TxInput::new(vec![4, 5], 300, vec![6], vec![7, 8, 9])],
        outputs: vec![TxOutput { amount: 1 << 100, pub_key_hash: vec![10; 20] }, TxOutput { amount: 0, pub_key_hash: vec![] }],
    }
}

fn sample_block() -> Block {
    Block {
        prev_hash: "00ab".to_string(),
        transactions: vec![sample_tx(), Transaction { id: vec![], inputs: vec![], outputs: vec![] }],
        hash: "cdef".to_string(),
        nonce: 77,
        height: 5,
        timestamp: 1 << 40,
    }
}

type InputTuple = (Vec<u8>, usize, Vec<u8>, Vec<u8>);
type OutputTuple = (u128, Vec<u8>);
type TxTuple = (Vec<u8>, Vec<InputTuple>, Vec<OutputTuple>);
type BlockTuple = (String, Vec<TxTuple>, String, u32, u128, u128);

fn tx_tuple(tx: &Transaction) -> TxTuple {
    (
        tx.id.clone(),
        tx.inputs.iter().map(|i| (i.tx_id.clone(), i.out_idx, i.sig.clone(), i.pub_key.clone())).collect(),
        tx.outputs.iter().map(|o| (o.amount, o.pub_key_hash.clone())).collect(),
    )
}

fn block_tuple(block: &Block) -> BlockTuple {
    (
        block.prev_hash.clone(),
        block.transactions.iter().map(tx_tuple).collect(),
        block.hash.clone(),
        block.nonce,
        block.height,
        block.timestamp,
    )
}

fn framed(code: [u8; 2], payload: &[u8]) -> Vec<u8> {
    let mut bytes = vec![1u8];
    bytes.extend_from_slice(&(payload.len() as u32).to_be_bytes());
    bytes.extend_from_slice(&code);
    bytes.extend_from_slice(payload);
    bytes
}

fn standard() -> bincode::config::Configuration {
    bincode::config::standard()
}

#[test]
fn command_codes() {
    assert_eq!(Cmd::Height.encode(), [0, 1]);
    assert_eq!(Cmd::Getblocks.encode(), [0, 2]);
    assert_eq!(Cmd::SendInv.encode(), [0, 3]);
    assert_eq!(Cmd::GetData.encode(), [0, 4]);
    assert_eq!(Cmd::SendBlock.encode(), [0, 5]);
    assert_eq!(Cmd::SendTx.encode(), [0, 6]);
    assert_eq!(Cmd::Unknown.encode(), [255, 255]);
}

#[test]
fn command_codes_round_trip_and_unknown_codes_are_unknown() {
    for code in [Cmd::Height, Cmd::Getblocks, Cmd::SendInv, Cmd::GetData, Cmd::SendBlock, Cmd::SendTx, Cmd::Unknown] {
        assert_eq!(Cmd::decode(code.encode()), code);
    }
    assert_eq!(Cmd::decode([0, 0]), Cmd::Unknown);
    assert_eq!(Cmd::decode([0, 7]), Cmd::Unknown);
    assert_eq!(Cmd::decode([1, 1]), Cmd::Unknown);
    assert_eq!(Cmd::decode([255, 1]), Cmd::Unknown);
}

#[test]
fn frame_is_version_length_code_payload() {
    assert_eq!(PROTOCOL_VERSION, 1);
    assert_eq!(HEADER_LEN, 7);
    assert_eq!(frame(Cmd::SendInv, &[9, 8, 7]), Ok(vec![1, 0, 0, 0, 3, 0, 3, 9, 8, 7]));
    assert_eq!(frame(Cmd::Height, &[]), Ok(vec![1, 0, 0, 0, 0, 0, 1]));
    let long = vec![5u8; 0x01_02_03];
    let bytes = frame(Cmd::SendTx, &long).unwrap();
    assert_eq!(&bytes[..7], &[1, 0, 1, 2, 3, 0, 6]);
    assert_eq!(&bytes[7..], &long[..]);
}

#[test]
fn height_command_serializes_as_the_pair_of_its_fields() {
    let command = HeightCmd::new("localhost:3001".to_string(), 300);
    assert_eq!(command.version(), 1);
    let payload = bincode::encode_to_vec(("localhost:3001".to_string(), 300u128), standard()).unwrap();
    assert_eq!(command.serialize(), Ok(framed([0, 1], &payload)));
    let narrow = bincode::encode_to_vec(("localhost:3001".to_string(), 300u32), standard()).unwrap();
    assert_eq!(payload, narrow);
}

#[test]
fn getblocks_command_serializes_as_its_address() {
    let command = GetblocksCmd::new("peer".to_string());
    assert_eq!(command.version(), 1);
    let payload = bincode::encode_to_vec("peer".to_string(), standard()).unwrap();
    assert_eq!(command.serialize(), Ok(framed([0, 2], &payload)));
}

#[test]
fn inventory_command_serializes_with_the_kind_as_a_number() {
    let items = vec!["aa".to_string(), "bb".to_string()];
    let command = SendInvCmd::new("peer".to_string(), InvType::Tx, items.clone());
    assert_eq!(command.version(), 1);
    let payload = bincode::encode_to_vec(("peer".to_string(), 1u32, items.clone()), standard()).unwrap();
    assert_eq!(command.serialize(), Ok(framed([0, 3], &payload)));
    let blocks = SendInvCmd::new("peer".to_string(), InvType::Block, items.clone());
    let payload = bincode::encode_to_vec(("peer".to_string(), 0u32, items), standard()).unwrap();
    assert_eq!(blocks.serialize(), Ok(framed([0, 3], &payload)));
}

#[test]
fn getdata_command_serializes_with_the_kind_as_a_number() {
    let command = GetDataCmd { node_addr: "peer".to_string(), inv_type: InvType::Block, id: "abcd".to_string() };
    assert_eq!(command.version(), 1);
    let payload = bincode::encode_to_vec(("peer".to_string(), 0u32, "abcd".to_string()), standard()).unwrap();
    assert_eq!(command.serialize(), Ok(framed([0, 4], &payload)));
}

#[test]
fn block_command_serializes_the_fields_of_the_block_in_order() {
    let command = SendBlockCmd::new("peer".to_string(), sample_block());
    assert_eq!(command.version(), 1);
    let payload = bincode::encode_to_vec(("peer".to_string(), block_tuple(&sample_block())), standard()).unwrap();
    assert_eq!(command.serialize(), Ok(framed([0, 5], &payload)));
}

#[test]
fn tx_command_serializes_the_fields_of_the_transaction_in_order() {
    let command = SendTxCmd::new("peer".to_string(), sample_tx());
    assert_eq!(command.version(), 1);
    let payload = bincode::encode_to_vec(("peer".to_string(), tx_tuple(&sample_tx())), standard()).unwrap();
    assert_eq!(command.serialize(), Ok(framed([0, 6], &payload)));
}

#[test]
fn every_command_round_trips_through_its_frame() {
    let messages = vec![
        Message::Height(HeightCmd::new("a".to_string(), u128::MAX)),
        Message::Getblocks(GetblocksCmd::new("b".to_string())),
        Message::SendInv(SendInvCmd::new("c".to_string(), InvType::Block, vec!["x".to_string(), String::new()])),
        Message::SendInv(SendInvCmd::new("c".to_string(), InvType::Tx, vec![])),
        Message::GetData(GetDataCmd { node_addr: "d".to_string(), inv_type: InvType::Tx, id: "y".to_string() }),
        Message::SendBlock(SendBlockCmd::new("e".to_string(), sample_block())),
        Message::SendTx(SendTxCmd::new("f".to_string(), sample_tx())),
    ];
    for message in messages {
        let bytes = message.serialize().unwrap();
        assert_eq!(Message::decode(&bytes), Some(message));
    }
}

#[test]
fn frames_without_a_command_decode_to_nothing() {
    assert_eq!(Message::decode(&[]), None);
    assert_eq!(Message::decode(&[1, 0, 0, 0, 0, 0]), None);
    assert_eq!(Message::decode(&[1, 0, 0, 0, 0, 0, 1]), None);
    assert_eq!(Message::decode(&framed([0, 9], &[1, 2, 3])), None);
    assert_eq!(Message::decode(&framed([255, 255], &[])), None);
    let bad_kind = bincode::encode_to_vec(("peer".to_string(), 2u32, "abcd".to_string()), standard()).unwrap();
    assert_eq!(Message::decode(&framed([0, 4], &bad_kind)), None);
    let height = bincode::encode_to_vec(("peer".to_string(), 3u128), standard()).unwrap();
    assert_eq!(Message::from_payload(Cmd::Height, &height), Some(Message::Height(HeightCmd::new("peer".to_string(), 3))));
    assert_eq!(Message::from_payload(Cmd::SendBlock, &height), None);
    assert_eq!(Message::from_payload(Cmd::Unknown, &height), None);
}

#[test]
fn kinds_by_number() {
    assert_eq!(inv_type_from(0), Some(InvType::Block));
    assert_eq!(inv_type_from(1), Some(InvType::Tx));
    assert_eq!(inv_type_from(2), None);
    assert_eq!(InvType::Block.number(), 0);
    assert_eq!(InvType::Tx.number(), 1);
}

#[test]
fn lists_of_texts_are_length_and_items() {
    let items = vec!["aa".to_string(), String::new(), "b".to_string()];
    let mut out = vec![9u8];
    put_texts(&mut out, &items);
    let mut expected = vec![9u8];
    expected.extend_from_slice(&bincode::encode_to_vec(items.clone(), standard()).unwrap());
    assert_eq!(out, expected);
    assert_eq!(take_texts(&out, 1), Some((items, out.len())));
    assert_eq!(take_texts(&out, out.len() + 1), None);
    assert_eq!(take_texts(&out[..out.len() - 1], 1), None);
    assert_eq!(take_kind(&[1, 7], 0), Some((InvType::Tx, 1)));
    assert_eq!(take_kind(&[7], 0), None);
    assert_eq!(take_kind(&[], 0), None);
}

#[test]
fn delimiter_waits_for_the_whole_frame() {
    let mut delimiter = LengthHeaderDelimiter;
    let first = frame(Cmd::Height, &[1, 2, 3]).unwrap();
    let second = frame(Cmd::Getblocks, &[]).unwrap();
    let mut stream = Vec::new();
    for byte in first.iter().take(first.len() - 1) {
        stream.push(*byte);
        let before = stream.clone();
        assert_eq!(delimiter.decode(&mut stream), None);
        assert_eq!(stream, before);
    }
    stream.push(first[first.len() - 1]);
    stream.extend_from_slice(&second);
    stream.extend_from_slice(&[1, 0]);
    assert_eq!(delimiter.decode(&mut stream), Some(first));
    assert_eq!(delimiter.decode(&mut stream), Some(second));
    assert_eq!(stream, vec![1, 0]);
    assert_eq!(delimiter.decode(&mut stream), None);
    assert_eq!(stream, vec![1, 0]);
}

#[test]
fn delimiter_reads_the_length_big_endian() {
    let mut delimiter = LengthHeaderDelimiter;
    let payload = vec![9u8; 0x0102];
    let mut stream = vec![1, 0, 0, 1, 2, 0, 5];
    stream.extend_from_slice(&payload);
    let whole = stream.clone();
    stream.push(42);
    assert_eq!(delimiter.decode(&mut stream), Some(whole));
    assert_eq!(stream, vec![42]);
    let mut huge = vec![1, 255, 255, 255, 255, 0, 5, 1, 2, 3];
    assert_eq!(delimiter.decode(&mut huge), None);
}

#[test]
fn delimiter_encode_appends_the_frame() {
    let mut delimiter = LengthHeaderDelimiter;
    let mut out = vec![1, 2];
    delimiter.encode(vec![3, 4], &mut out);
    assert_eq!(out, vec![1, 2, 3, 4]);
}

#[test]
fn server_new_and_decimal() {
    let server = Server::new(3001, "miner".to_string());
    assert_eq!(server.node_id, 3001);
    assert_eq!(server.node_address, "localhost:3001");
    assert_eq!(server.miner_address, "miner");
    assert_eq!(server.known_hosts, vec!["localhost:3000".to_string()]);
    assert!(server.blocks_in_transimission.is_empty());
    assert_eq!(Server::new(0, String::new()).node_address, "localhost:0");
    assert_eq!(Server::new(u32::MAX, String::new()).node_address, "localhost:4294967295");
    let mut text = "n=".to_string();
    push_decimal(&mut text, 1090);
    assert_eq!(text, "n=1090");
    push_decimal(&mut text, u128::MAX);
    assert_eq!(text, "n=1090340282366920938463463374607431768211455");
    let mut zero = String::new();
    push_decimal(&mut zero, 0);
    assert_eq!(zero, "0");
}

#[test]
fn height_is_answered_by_height_or_getblocks() {
    let a = wallet(1);
    let mut ledger = Blockchain::init(a.address(), false).unwrap();
    let index = UTXOSet::new(&ledger);
    let tx = Transaction::new(&a, &wallet(2).address(), 1, &index, &ledger).unwrap();
    ledger.mine_block(vec![tx]).unwrap();
    let server = Server::new(3000, "miner".to_string());
    let lower = server.handle_height(&HeightCmd::new("peer".to_string(), 0), &ledger);
    assert_eq!(
        lower,
        Outgoing { addr: "peer".to_string(), message: Message::Height(HeightCmd::new("localhost:3000".to_string(), 1)) }
    );
    for remote in [1u128, 2] {
        let answer = server.handle_height(&HeightCmd::new("peer".to_string(), remote), &ledger);
        assert_eq!(
            answer,
            Outgoing {
                addr: "peer".to_string(),
                message: Message::Getblocks(GetblocksCmd::new("localhost:3000".to_string()))
            }
        );
    }
}

#[test]
fn getblocks_is_answered_by_the_inventory_of_all_block_hashes() {
    let a = wallet(1);
    let mut ledger = Blockchain::init(a.address(), false).unwrap();
    let index = UTXOSet::new(&ledger);
    let tx = Transaction::new(&a, &wallet(2).address(), 1, &index, &ledger).unwrap();
    let block = ledger.mine_block(vec![tx]).unwrap();
    let server = Server::new(3000, "miner".to_string());
    let answer = server.handle_getblocks(&GetblocksCmd::new("peer".to_string()), &ledger);
    assert_eq!(answer.addr, "peer");
    assert_eq!(
        answer.message,
        Message::SendInv(SendInvCmd::new(
            "localhost:3000".to_string(),
            InvType::Block,
            vec![block.hash, ledger.blocks[0].hash.clone()]
        ))
    );
}

#[test]
fn inventory_asks_for_the_first_and_queues_the_rest() {
    let mut server = Server::new(3001, "miner".to_string());
    let items = vec!["aa".to_string(), "bb".to_string(), "cc".to_string()];
    let answer = server.handle_sendinvcmd(SendInvCmd::new("peer".to_string(), InvType::Block, items));
    assert_eq!(
        answer,
        Some(Outgoing {
            addr: "peer".to_string(),
            message: Message::GetData(GetDataCmd {
                node_addr: "localhost:3001".to_string(),
                inv_type: InvType::Block,
                id: "aa".to_string()
            })
        })
    );
    assert_eq!(server.blocks_in_transimission, vec![("peer".to_string(), vec!["bb".to_string(), "cc".to_string()])]);
    let answer = server.handle_sendinvcmd(SendInvCmd::new("other".to_string(), InvType::Tx, vec!["dd".to_string()]));
    assert_eq!(
        answer.unwrap().message,
        Message::GetData(GetDataCmd {
            node_addr: "localhost:3001".to_string(),
            inv_type: InvType::Tx,
            id: "dd".to_string()
        })
    );
    server.handle_sendinvcmd(SendInvCmd::new("peer".to_string(), InvType::Block, vec!["ee".to_string(), "ff".to_string()]));
    assert_eq!(
        server.blocks_in_transimission,
        vec![("peer".to_string(), vec!["ff".to_string()]), ("other".to_string(), vec![])]
    );
    let before = server.blocks_in_transimission.clone();
    assert_eq!(server.handle_sendinvcmd(SendInvCmd::new("peer".to_string(), InvType::Block, vec![])), None);
    assert_eq!(server.blocks_in_transimission, before);
}

#[test]
fn getdata_is_answered_by_the_block_if_it_is_there() {
    let a = wallet(1);
    let ledger = Blockchain::init(a.address(), false).unwrap();
    let server = Server::new(3000, "miner".to_string());
    let hash = ledger.latest_hash.clone();
    let ask = |inv_type: InvType, id: &str| GetDataCmd { node_addr: "peer".to_string(), inv_type, id: id.to_string() };
    assert_eq!(
        server.handle_getdatacmd(&ask(InvType::Block, &hash), &ledger),
        Some(Outgoing {
            addr: "peer".to_string(),
            message: Message::SendBlock(SendBlockCmd::new("localhost:3000".to_string(), ledger.blocks[0].clone()))
        })
    );
    assert!(server.handle_getdatacmd(&ask(InvType::Block, &hash.to_uppercase()), &ledger).is_some());
    assert_eq!(server.handle_getdatacmd(&ask(InvType::Block, "abcd"), &ledger), None);
    assert_eq!(server.handle_getdatacmd(&ask(InvType::Block, "not hex"), &ledger), None);
    assert_eq!(server.handle_getdatacmd(&ask(InvType::Tx, &hash), &ledger), None);
}

#[test]
fn block_is_added_and_the_next_of_the_queue_asked_for() {
    let a = wallet(1);
    let mut ledger = Blockchain::init(a.address(), false).unwrap();
    let genesis_hash = ledger.latest_hash.clone();
    let mut server = Server::new(3001, "miner".to_string());
    server.handle_sendinvcmd(SendInvCmd::new(
        "peer".to_string(),
        InvType::Block,
        vec!["0a".to_string(), "0b".to_string()],
    ));
    let block = Block {
        prev_hash: genesis_hash,
        transactions: vec![],
        hash: "0a".to_string(),
        nonce: 0,
        height: 1,
        timestamp: 0,
    };
    let answer = server.handle_sendblockcmd(SendBlockCmd::new("peer".to_string(), block.clone()), &mut ledger);
    assert_eq!(
        answer,
        Some(Outgoing {
            addr: "peer".to_string(),
            message: Message::GetData(GetDataCmd {
                node_addr: "localhost:3001".to_string(),
                inv_type: InvType::Block,
                id: "0b".to_string()
            })
        })
    );
    assert_eq!(ledger.latest_hash, "0a");
    assert_eq!(ledger.get_height(), 1);
    assert_eq!(server.blocks_in_transimission, vec![("peer".to_string(), vec![])]);
    let again = server.handle_sendblockcmd(SendBlockCmd::new("peer".to_string(), block.clone()), &mut ledger);
    assert_eq!(again, None);
    assert_eq!(ledger.blocks.len(), 2);
    let stranger = server.handle_sendblockcmd(SendBlockCmd::new("nobody".to_string(), block), &mut ledger);
    assert_eq!(stranger, None);
}

#[test]
fn process_ignores_what_is_no_command_and_transactions() {
    let a = wallet(1);
    let mut ledger = Blockchain::init(a.address(), false).unwrap();
    let mut server = Server::new(3001, "miner".to_string());
    assert_eq!(server.process(&[1, 2, 3], &mut ledger), None);
    assert_eq!(server.process(&framed([0, 9], &[]), &mut ledger), None);
    let tx = SendTxCmd::new("peer".to_string(), sample_tx()).serialize().unwrap();
    assert_eq!(server.process(&tx, &mut ledger), None);
    assert_eq!(ledger.blocks.len(), 1);
    assert!(server.blocks_in_transimission.is_empty());
}

#[test]
fn second_node_converges_on_the_first_nodes_chain() {
    let a = wallet(1);
    let b = wallet(2);
    let mut first_ledger = Blockchain::init(a.address(), false).unwrap();
    let mut first_index = UTXOSet::new(&first_ledger);
    let tx = Transaction::new(&a, &b.address(), 40, &first_index, &first_ledger).unwrap();
    let block = first_ledger.mine_block(vec![tx]).unwrap();
    first_index.update(&block);
    assert_eq!(first_index.balance(&a.owner()), Ok(60));
    assert_eq!(first_index.balance(&b.owner()), Ok(40));
    assert_eq!(first_ledger.get_height(), 1);

    let mut second_ledger = Blockchain::init(a.address(), false).unwrap();
    assert_eq!(second_ledger.latest_hash, first_ledger.blocks[0].hash);
    let mut first = Server::new(3000, a.address());
    let mut second = Server::new(3001, b.address());

    let mut to_first = vec![Message::Height(HeightCmd::new(second.node_address.clone(), second_ledger.get_height()))
        .serialize()
        .unwrap()];
    let mut exchanged = Vec::new();
    loop {
        let mut to_second = Vec::new();
        for bytes in to_first.drain(..) {
            if let Some(out) = first.process(&bytes, &mut first_ledger) {
                assert_eq!(out.addr, "localhost:3001");
                exchanged.push(out.message.serialize().unwrap()[6]);
                to_second.push(out.message.serialize().unwrap());
            }
        }
        for bytes in to_second.drain(..) {
            if let Some(out) = second.process(&bytes, &mut second_ledger) {
                assert_eq!(out.addr, "localhost:3000");
                exchanged.push(out.message.serialize().unwrap()[6]);
                to_first.push(out.message.serialize().unwrap());
            }
        }
        if to_first.is_empty() {
            break;
        }
    }
    assert_eq!(exchanged, vec![1, 2, 3, 4, 5, 4, 5]);
    assert_eq!(second_ledger.latest_hash, first_ledger.latest_hash);
    assert_eq!(second_ledger.get_height(), 1);
    let second_index = UTXOSet::new(&second_ledger);
    assert_eq!(second_index, first_index);
    assert_eq!(second_index.balance(&a.owner()), Ok(60));
    assert_eq!(second_index.balance(&b.owner()), Ok(40));
}
