use powchain::blockchain::Blockchain;
use powchain::cli::{CliOperation, CliParam, CommandLine, Sent};
use powchain::error::LedgerError;
use powchain::network::command::Message;
use powchain::utxo::UTXOSet;
use powchain::wallets::Wallets;

fn param(operation: CliOperation) -> CliParam {
    CliParam {
        operation,
        address: None,
        from: None,
        to: None,
        amount: None,
        miner_address: None,
        node_id: 3001,
        mine: None,
    }
}

fn two_wallets() -> (Wallets, String, String) {
    let mut wallets = Wallets::new();
    let a = wallets.add_wallet();
    let b = wallets.add_wallet();
    (wallets, a, b)
}

fn sending(from: &str, to: &str, amount: u128, mine: Option<bool>) -> CommandLine {
    let mut cli_param = param(CliOperation::Send);
    cli_param.from = Some(from.to_string());
    cli_param.to = Some(to.to_string());
    cli_param.amount = Some(amount);
    cli_param.mine = mine;
    CommandLine::new(cli_param).unwrap()
}

fn asking(address: &str) -> CommandLine {
    let mut cli_param = param(CliOperation::GetBalance);
    cli_param.address = Some(address.to_string());
    CommandLine::new(cli_param).unwrap()
}

#[test]
fn send_needs_a_sender_and_a_receiver() {
    let mut cli_param = param(CliOperation::Send);
    assert_eq!(cli_param.validate_args(), Err(LedgerError::InvalidArguments));
    cli_param.from = Some("a".to_string());
    assert_eq!(cli_param.validate_args(), Err(LedgerError::InvalidArguments));
    cli_param.to = Some("b".to_string());
    assert_eq!(cli_param.validate_args(), Ok(()));
    cli_param.from = None;
    assert_eq!(cli_param.validate_args(), Err(LedgerError::InvalidArguments));
    assert_eq!(CommandLine::new(cli_param), Err(LedgerError::InvalidArguments));
}

#[test]
fn other_operations_need_neither() {
    for operation in [
        CliOperation::GetBalance,
        CliOperation::PrintChain,
        CliOperation::CreateChain,
        CliOperation::PrintUsage,
        CliOperation::CreateWallet,
        CliOperation::ListAddress,
        CliOperation::Rebuild,
        CliOperation::StartNode,
    ] {
        assert_eq!(param(operation).validate_args(), Ok(()));
        assert_eq!(CommandLine::new(param(operation)).unwrap().cli_param, param(operation));
    }
}

#[test]
fn create_chain_founds_ledger_and_index() {
    let (_, a, _) = two_wallets();
    let mut cli_param = param(CliOperation::CreateChain);
    assert_eq!(CommandLine::new(param(CliOperation::CreateChain)).unwrap().create_chain(false), Err(LedgerError::InvalidArguments));
    cli_param.address = Some("0OIl".to_string());
    assert_eq!(CommandLine { cli_param }.create_chain(false), Err(LedgerError::DecodeError));
    let mut cli_param = param(CliOperation::CreateChain);
    cli_param.address = Some(a.clone());
    let call = CommandLine::new(cli_param).unwrap();
    assert_eq!(call.create_chain(true), Err(LedgerError::StoreError));
    let (ledger, index) = call.create_chain(false).unwrap();
    assert_eq!(ledger.get_height(), 0);
    assert_eq!(index.entries.len(), 1);
    assert_eq!(asking(&a).get_balance(&index), Ok(100));
}

#[test]
fn get_balance_needs_a_valid_address() {
    let (_, a, b) = two_wallets();
    let ledger = Blockchain::init(a.clone(), false).unwrap();
    let index = UTXOSet::new(&ledger);
    assert_eq!(asking(&a).get_balance(&index), Ok(100));
    assert_eq!(asking(&b).get_balance(&index), Ok(0));
    assert_eq!(asking("0OIl").get_balance(&index), Err(LedgerError::DecodeError));
    assert_eq!(CommandLine::new(param(CliOperation::GetBalance)).unwrap().get_balance(&index), Err(LedgerError::InvalidArguments));
}

#[test]
fn send_and_mine_moves_the_coins() {
    let (wallets, a, b) = two_wallets();
    let mut ledger = Blockchain::init(a.clone(), false).unwrap();
    let mut index = UTXOSet::new(&ledger);
    let sent = sending(&a, &b, 40, Some(true)).send(&wallets, &mut ledger, &mut index).unwrap();
    let block = match sent {
        Sent::Mined(block) => block,
        Sent::Relay(_) => panic!("the transfer was to be mined here"),
    };
    assert_eq!(block.height, 1);
    assert_eq!(ledger.latest_hash, block.hash);
    assert_eq!(ledger.get_height(), 1);
    assert_eq!(asking(&a).get_balance(&index), Ok(60));
    assert_eq!(asking(&b).get_balance(&index), Ok(40));
    assert_eq!(index, UTXOSet::new(&ledger));
}

#[test]
fn send_without_mining_leaves_for_the_central_node() {
    let (wallets, a, b) = two_wallets();
    let mut ledger = Blockchain::init(a.clone(), false).unwrap();
    let mut index = UTXOSet::new(&ledger);
    for mine in [None, Some(false)] {
        let sent = sending(&a, &b, 40, mine).send(&wallets, &mut ledger, &mut index).unwrap();
        let out = match sent {
            Sent::Relay(out) => out,
            Sent::Mined(_) => panic!("the transfer was to leave for the central node"),
        };
        assert_eq!(out.addr, "localhost:3000");
        match out.message {
            Message::SendTx(command) => {
                assert_eq!(command.node_addr, "localhost:3000");
                assert_eq!(command.tx.outputs.len(), 2);
                assert_eq!(command.tx.outputs[0].amount, 40);
                assert_eq!(ledger.verify_transaction(&command.tx), Ok(true));
            }
            _ => panic!("a transaction was to be sent"),
        }
        assert_eq!(ledger.get_height(), 0);
        assert_eq!(asking(&a).get_balance(&index), Ok(100));
    }
}

#[test]
fn send_fails_with_its_cause_and_changes_nothing() {
    let (wallets, a, b) = two_wallets();
    let mut ledger = Blockchain::init(a.clone(), false).unwrap();
    let mut index = UTXOSet::new(&ledger);
    let stranger = Wallets::new().add_wallet();
    let mut incomplete = param(CliOperation::Send);
    incomplete.from = Some(a.clone());
    incomplete.to = Some(b.clone());
    let calls = vec![
        (CommandLine { cli_param: incomplete }, LedgerError::InvalidArguments),
        (sending("0OIl", &b, 1, Some(true)), LedgerError::DecodeError),
        (sending(&a, "0OIl", 1, Some(true)), LedgerError::DecodeError),
        (sending(&stranger, &b, 1, Some(true)), LedgerError::UnknownWallet),
        (sending(&a, &b, 101, Some(true)), LedgerError::InsufficientFunds),
        (sending(&b, &a, 1, None), LedgerError::InsufficientFunds),
    ];
    for (call, cause) in calls {
        assert_eq!(call.send(&wallets, &mut ledger, &mut index), Err(cause));
        assert_eq!(ledger.blocks.len(), 1);
        assert_eq!(index, UTXOSet::new(&ledger));
    }
}

#[test]
fn rebuild_replays_the_chain() {
    let (wallets, a, b) = two_wallets();
    let mut ledger = Blockchain::init(a.clone(), false).unwrap();
    let mut index = UTXOSet::new(&ledger);
    sending(&a, &b, 40, Some(true)).send(&wallets, &mut ledger, &mut index).unwrap();
    let mut fresh = UTXOSet { entries: Vec::new() };
    CommandLine::new(param(CliOperation::Rebuild)).unwrap().rebuild(&ledger, &mut fresh);
    assert_eq!(fresh, index);
}

#[test]
fn print_chain_lists_the_blocks_with_their_proof() {
    let (wallets, a, b) = two_wallets();
    let mut ledger = Blockchain::init(a.clone(), false).unwrap();
    let mut index = UTXOSet::new(&ledger);
    sending(&a, &b, 40, Some(true)).send(&wallets, &mut ledger, &mut index).unwrap();
    let call = CommandLine::new(param(CliOperation::PrintChain)).unwrap();
    let lines = call.print_chain(&ledger);
    assert_eq!(lines.len(), 2);
    assert_eq!(lines[0].height, 1);
    assert_eq!(lines[0].hash, ledger.latest_hash);
    assert_eq!(lines[0].prev_hash, lines[1].hash);
    assert_eq!(lines[1].height, 0);
    assert_eq!(lines[1].prev_hash, "");
    assert!(lines[0].pow && lines[1].pow);
    ledger.blocks[1].nonce = (0..1000u32)
        .find(|nonce| {
            let mut block = ledger.blocks[1].clone();
            block.nonce = *nonce;
            !powchain::proof_of_work::ProofOfWork::new(&block).unwrap().validate()
        })
        .unwrap();
    let lines = call.print_chain(&ledger);
    assert!(!lines[0].pow && lines[1].pow);
}

#[test]
fn start_node_needs_a_valid_miner_address() {
    let (_, a, _) = two_wallets();
    assert_eq!(CommandLine::new(param(CliOperation::StartNode)).unwrap().start_node(), Err(LedgerError::InvalidArguments));
    let mut cli_param = param(CliOperation::StartNode);
    cli_param.miner_address = Some("0OIl".to_string());
    assert_eq!(CommandLine { cli_param }.start_node(), Err(LedgerError::DecodeError));
    let mut cli_param = param(CliOperation::StartNode);
    cli_param.miner_address = Some(a.clone());
    let server = CommandLine { cli_param }.start_node().unwrap();
    assert_eq!(server.node_address, "localhost:3001");
    assert_eq!(server.miner_address, a);
}
