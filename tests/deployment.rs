use clarinet::deploy::{
    resolve_signer, transaction_fee, Account, Action, DeployError, Deployment, InitialContract, TxPlan,
};
use clarinet::deploy::{build_deployment, AnchorMode, PostConditionMode, TransactionVersion};
use clarinet::keys::{derive_keypair, keypair_from_seed};

fn account(name: &str) -> Account {
    Account {
        name: name.to_string(),
        address: format!("ST{}", name.to_uppercase()),
        mnemonic: String::new(),
        derivation: "m/44'/5757'/0'/0/0".to_string(),
        balance: 100_000,
    }
}

fn contract(name: &str, code: &str, deployer: Option<&str>) -> InitialContract {
    InitialContract {
        name: name.to_string(),
        code: code.to_string(),
        deployer: deployer.map(|d| d.to_string()),
    }
}

fn hex(bytes: &[u8]) -> String {
    bytes.iter().map(|b| format!("{:02x}", b)).collect()
}

#[test]
fn nonce_is_fetched_once_and_advanced_by_one() {
    let accounts = vec![account("deployer")];
    let contracts = vec![contract("a", "(ok 1)", None), contract("b", "(ok 2)", None)];
    let mut run = Deployment::new(accounts.len());

    assert_eq!(run.next_action(&contracts, &accounts), Action::FetchNonce { account: 0 });
    run.record_nonce(0, 5);
    let first = run.next_action(&contracts, &accounts);
    assert_eq!(first, Action::Broadcast(TxPlan { contract: 0, signer: 0, nonce: 5, fee: 206 }));
    run.record_success(&contracts, "0xaa".to_string());

    let second = run.next_action(&contracts, &accounts);
    assert_eq!(second, Action::Broadcast(TxPlan { contract: 1, signer: 0, nonce: 6, fee: 206 }));
    run.record_success(&contracts, "0xbb".to_string());

    assert_eq!(run.next_action(&contracts, &accounts), Action::Finished);
    assert_eq!(run.results.len(), 2);
    assert_eq!(run.results[0].name, "a");
    assert_eq!(run.results[0].txid, "0xaa");
    assert_eq!(run.results[0].nonce, 5);
    assert_eq!(run.results[1].name, "b");
    assert_eq!(run.results[1].nonce, 6);
    assert_eq!(run.nonces, vec![Some(7)]);
}

#[test]
fn known_nonce_is_not_replaced_by_a_later_report() {
    let mut run = Deployment::new(2);
    run.record_nonce(1, 3);
    run.record_nonce(1, 9);
    assert_eq!(run.nonces, vec![None, Some(3)]);
}

#[test]
fn contract_without_deployer_is_signed_by_the_deployer_account() {
    let accounts = vec![account("alice"), account("deployer")];
    let c = contract("token", "(ok true)", None);
    assert_eq!(resolve_signer(&c, &accounts).unwrap(), 1);

    let contracts = vec![c];
    let mut run = Deployment::new(accounts.len());
    assert_eq!(run.next_action(&contracts, &accounts), Action::FetchNonce { account: 1 });
}

#[test]
fn explicit_deployer_is_preferred() {
    let accounts = vec![account("deployer"), account("alice")];
    let c = contract("token", "", Some("alice"));
    assert_eq!(resolve_signer(&c, &accounts).unwrap(), 1);
    let unknown = contract("token", "", Some("bob"));
    match resolve_signer(&unknown, &accounts) {
        Err(DeployError::MissingDeployer { contract }) => assert_eq!(contract, "token"),
        other => panic!("expected a missing deployer, got {:?}", other),
    }
}

#[test]
fn missing_deployer_halts_the_run() {
    let accounts = vec![account("alice")];
    let contracts = vec![contract("token", "(ok true)", None)];
    match resolve_signer(&contracts[0], &accounts) {
        Err(DeployError::MissingDeployer { contract }) => assert_eq!(contract, "token"),
        other => panic!("expected a missing deployer, got {:?}", other),
    }
    let mut run = Deployment::new(accounts.len());
    assert_eq!(run.next_action(&contracts, &accounts), Action::Halted);
    match &run.failure {
        Some(DeployError::MissingDeployer { contract }) => assert_eq!(contract, "token"),
        other => panic!("expected a missing deployer, got {:?}", other),
    }
    assert!(run.results.is_empty());
    assert_eq!(run.next_action(&contracts, &accounts), Action::Halted);
}

#[test]
fn rejected_broadcast_halts_and_keeps_earlier_results() {
    let accounts = vec![account("deployer")];
    let contracts = vec![
        contract("one", "1", None),
        contract("two", "22", None),
        contract("three", "333", None),
    ];
    let mut run = Deployment::new(accounts.len());
    assert_eq!(run.next_action(&contracts, &accounts), Action::FetchNonce { account: 0 });
    run.record_nonce(0, 0);
    assert!(matches!(run.next_action(&contracts, &accounts), Action::Broadcast(_)));
    run.record_success(&contracts, "0x01".to_string());

    match run.next_action(&contracts, &accounts) {
        Action::Broadcast(plan) => {
            assert_eq!(plan.contract, 1);
            assert_eq!(plan.nonce, 1);
        }
        other => panic!("expected a broadcast, got {:?}", other),
    }
    run.record_failure(DeployError::Rejected { status: 400, body: "bad nonce".to_string() });

    assert_eq!(run.next_action(&contracts, &accounts), Action::Halted);
    assert_eq!(run.next_action(&contracts, &accounts), Action::Halted);
    assert_eq!(run.results.len(), 1);
    assert_eq!(run.results[0].name, "one");
    assert_eq!(run.results[0].txid, "0x01");
    assert_eq!(run.next, 1);
    assert!(run.pending.is_none());
    assert_eq!(run.nonces, vec![Some(1)]);
}

#[test]
fn exhausted_nonce_halts_the_run() {
    let accounts = vec![account("deployer")];
    let contracts = vec![contract("a", "", None)];
    let mut run = Deployment::new(1);
    run.record_nonce(0, u64::MAX);
    assert_eq!(run.next_action(&contracts, &accounts), Action::Halted);
    match &run.failure {
        Some(DeployError::NonceExhausted { account }) => assert_eq!(account, "deployer"),
        other => panic!("expected an exhausted nonce, got {:?}", other),
    }
}

#[test]
fn fee_is_base_plus_source_bytes() {
    assert_eq!(transaction_fee(0), 200);
    assert_eq!(transaction_fee(1234), 1434);
    assert_eq!(transaction_fee(usize::MAX), u64::MAX);
    let accounts = vec![account("deployer")];
    let contracts = vec![contract("u", "é€", None)];
    let mut run = Deployment::new(1);
    run.record_nonce(0, 0);
    match run.next_action(&contracts, &accounts) {
        Action::Broadcast(plan) => assert_eq!(plan.fee, 205),
        other => panic!("expected a broadcast, got {:?}", other),
    }
}

#[test]
fn keypair_follows_the_derivation_path() {
    let seed: Vec<u8> = (0u8..16).collect();
    let mut acct = account("deployer");
    acct.derivation = "m/0'".to_string();
    let kp = keypair_from_seed(&acct, &seed).unwrap();
    assert_eq!(kp.secret.len(), 32);
    assert_eq!(kp.public.len(), 33);
    assert_eq!(hex(&kp.public), "035a784662a4a20a65bf6aab9ae98a6c068a81c52e4b032c0fb5400c706cfccc56");
    assert_eq!(hex(&kp.secret), "edb2e14f9ee77d26dd93b4ecede8d16ed408ce149b6cd80b0715a2d911a0afea");
    let again = keypair_from_seed(&acct, &seed).unwrap();
    assert_eq!(kp.secret, again.secret);
    assert_eq!(kp.public, again.public);

    acct.derivation = "m/1'".to_string();
    let other = keypair_from_seed(&acct, &seed).unwrap();
    assert_ne!(kp.secret, other.secret);
}

#[test]
fn malformed_derivation_path_is_rejected() {
    let seed: Vec<u8> = (0u8..16).collect();
    let mut acct = account("deployer");
    acct.derivation = "not a path".to_string();
    match keypair_from_seed(&acct, &seed) {
        Err(DeployError::InvalidDerivationPath { account }) => assert_eq!(account, "deployer"),
        other => panic!("expected an invalid path, got {:?}", other),
    }
}

const ABANDON: &str = "abandon abandon abandon abandon abandon abandon abandon abandon abandon abandon abandon about";

fn unhex(s: &str) -> Vec<u8> {
    (0..s.len()).step_by(2).map(|i| u8::from_str_radix(&s[i..i + 2], 16).unwrap()).collect()
}

#[test]
fn mnemonic_gives_the_same_keys_as_its_seed() {
    let mut acct = account("deployer");
    acct.mnemonic = ABANDON.to_string();
    acct.derivation = "m/0'".to_string();
    let seed = unhex("5eb00bbddcf069084889a8ab9155568165f5c453ccb85e70811aaed6f6da5fc19a5ac40b389cd370d086206dec8aa6c43daea6690f20ad3d8d48b2d2ce9e38e4");
    let from_phrase = derive_keypair(&acct).unwrap();
    let from_seed = keypair_from_seed(&acct, &seed).unwrap();
    assert_eq!(from_phrase.secret, from_seed.secret);
    assert_eq!(from_phrase.public, from_seed.public);
    assert_eq!(from_phrase.public.len(), 33);
}

#[test]
fn invalid_mnemonic_is_rejected() {
    let mut acct = account("deployer");
    acct.mnemonic = "abandon abandon abandon".to_string();
    match derive_keypair(&acct) {
        Err(DeployError::InvalidMnemonic { account }) => assert_eq!(account, "deployer"),
        other => panic!("expected an invalid mnemonic, got {:?}", other),
    }
}

#[test]
fn deployment_transaction_carries_plan_and_contract() {
    let plan = TxPlan { contract: 0, signer: 0, nonce: 4, fee: 203 };
    let c = contract("counter", "(ok u1)", None);
    let key = vec![2u8; 33];
    let tx = build_deployment(&plan, &c, &key);
    assert_eq!(tx.version, TransactionVersion::Testnet);
    assert_eq!(tx.chain_id, 0x80000000);
    assert_eq!(tx.anchor_mode, AnchorMode::Any);
    assert_eq!(tx.post_condition_mode, PostConditionMode::Deny);
    assert_eq!(tx.signer_public_key, key);
    assert_eq!(tx.nonce, 4);
    assert_eq!(tx.fee, 203);
    assert_eq!(tx.contract_name, "counter");
    assert_eq!(tx.code, "(ok u1)");
}
