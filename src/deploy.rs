use vstd::prelude::*;
use vstd::utf8::encode_utf8;

verus! {

/// Fee paid for every deployment, before the charge per byte of source.
pub const BASE_FEE: u64 = 200;

/// Name of the account that signs contracts without a deployer of their own.
pub open spec fn fallback_signer_name() -> Seq<char> {
    "deployer"@
}

#[derive(Debug)]
pub struct Account {
    pub name: String,
    pub address: String,
    pub mnemonic: String,
    pub derivation: String,
    pub balance: u64,
}

/// A contract ready for deployment, with the account chosen to sign it, if any.
#[derive(Debug)]
pub struct InitialContract {
    pub name: String,
    pub code: String,
    pub deployer: Option<String>,
}

/// One contract that the network accepted.
#[derive(Debug)]
pub struct DeployedContract {
    pub name: String,
    pub txid: String,
    pub nonce: u64,
}

#[derive(Debug)]
pub enum DeployError {
    /// The account that should sign the contract does not exist.
    MissingDeployer { contract: String },
    /// The account's sequence number cannot be advanced any further.
    NonceExhausted { account: String },
    /// The account's mnemonic is not a valid phrase.
    InvalidMnemonic { account: String },
    /// The account's derivation path gives no key for its seed.
    InvalidDerivationPath { account: String },
    /// The derived private key is not a valid secp256k1 key.
    InvalidSecretKey { account: String },
    /// The network could not be reached.
    Network { message: String },
    /// The network answered with something that cannot be read.
    Protocol { message: String },
    /// The network refused the transaction.
    Rejected { status: u16, body: String },
}

/// The next transaction of a run: which contract, signed by which account, with which
/// sequence number and fee.
#[derive(Debug, Clone, Copy, PartialEq, Eq, Structural)]
pub struct TxPlan {
    pub contract: usize,
    pub signer: usize,
    pub nonce: u64,
    pub fee: u64,
}

/// What the caller has to do next.
#[derive(Debug, Clone, Copy, PartialEq, Eq, Structural)]
pub enum Action {
    /// Ask the network for the current sequence number of this account.
    FetchNonce { account: usize },
    /// Sign and broadcast this transaction.
    Broadcast(TxPlan),
    /// Every contract is deployed.
    Finished,
    /// The run stopped on `failure`.
    Halted,
}

/// State of one deployment run over a fixed list of contracts and accounts.
///
/// `nonces[a]` is the next unused sequence number of account `a`, once known;
/// `results` lists the contracts deployed so far, in order; `next` is the position of
/// the contract to deploy next; `pending` is the transaction handed out last.
#[derive(Debug)]
pub struct Deployment {
    pub nonces: Vec<Option<u64>>,
    pub results: Vec<DeployedContract>,
    pub next: usize,
    pub pending: Option<TxPlan>,
    pub failure: Option<DeployError>,
}

/// Chain id of the test network that deployments go to.
pub const TESTNET_CHAIN_ID: u32 = 0x80000000;

/// Network a transaction is meant for.
#[derive(Debug, Clone, Copy, PartialEq, Eq, Structural)]
pub enum TransactionVersion {
    Mainnet,
    Testnet,
}

/// Kinds of block a transaction may be anchored in.
#[derive(Debug, Clone, Copy, PartialEq, Eq, Structural)]
pub enum AnchorMode {
    OnChainOnly,
    OffChainOnly,
    Any,
}

/// What happens to effects that the transaction's post-conditions do not state.
#[derive(Debug, Clone, Copy, PartialEq, Eq, Structural)]
pub enum PostConditionMode {
    Allow,
    Deny,
}

/// An unsigned contract deployment: network and chain, anchoring, post-condition policy,
/// the signer's compressed public key with its sequence number and fee, and the
/// contract's name and source. It carries no post-condition of its own.
#[derive(Debug)]
pub struct UnsignedDeployment {
    pub version: TransactionVersion,
    pub chain_id: u32,
    pub anchor_mode: AnchorMode,
    pub post_condition_mode: PostConditionMode,
    pub signer_public_key: Vec<u8>,
    pub nonce: u64,
    pub fee: u64,
    pub contract_name: String,
    pub code: String,
}

/// The fee of a transaction carrying `len` bytes of source.
pub open spec fn fee_for(len: nat) -> u64 {
    if BASE_FEE + len > u64::MAX {
        u64::MAX
    } else {
        (BASE_FEE + len) as u64
    }
}

/// Whether some account is called `name`.
pub open spec fn has_account(accounts: Seq<Account>, name: Seq<char>) -> bool {
    exists|i: int| 0 <= i < accounts.len() && accounts[i].name@ == name
}

/// The position of the account called `name`.
pub open spec fn account_index(accounts: Seq<Account>, name: Seq<char>) -> int {
    choose|i: int| 0 <= i < accounts.len() && accounts[i].name@ == name
}

/// No two accounts share a name.
pub open spec fn unique_accounts(accounts: Seq<Account>) -> bool {
    forall|i: int, j: int|
        #![trigger accounts[i].name@, accounts[j].name@]
        0 <= i < accounts.len() && 0 <= j < accounts.len() && accounts[i].name@ == accounts[j].name@
            ==> i == j
}

/// The account that signs `c`: the account it names as deployer, if it names one;
/// else the fallback account. None when that account does not exist.
pub open spec fn signer_of(c: InitialContract, accounts: Seq<Account>) -> Option<int> {
    if c.deployer is Some {
        if has_account(accounts, c.deployer->Some_0@) {
            Some(account_index(accounts, c.deployer->Some_0@))
        } else {
            None
        }
    } else if has_account(accounts, fallback_signer_name()) {
        Some(account_index(accounts, fallback_signer_name()))
    } else {
        None
    }
}

/// Position of the account called `name`, if any.
fn find_account(accounts: &Vec<Account>, name: &String) -> (r: Option<usize>)
    requires
        unique_accounts(accounts@),
    ensures
        r matches Some(i) ==> i < accounts@.len() && has_account(accounts@, name@) && i == account_index(
            accounts@,
            name@,
        ),
        r is None ==> !has_account(accounts@, name@),
{
    let mut i: usize = 0;
    while i < accounts.len()
        invariant
            i <= accounts@.len(),
            unique_accounts(accounts@),
            forall|j: int| 0 <= j < i ==> accounts@[j].name@ != name@,
        decreases accounts.len() - i,
    {
        if accounts[i].name == *name {
            proof {
                assert(accounts@[i as int].name@ == name@);
                let j = account_index(accounts@, name@);
                assert(0 <= j < accounts@.len() && accounts@[j].name@ == name@);
                assert(accounts@[j].name@ == accounts@[i as int].name@);
                assert(j == i as int);
            }
            return Some(i);
        }
        i = i + 1;
    }
    None
}

/// The account that signs `contract`: the account it names as deployer, if it names one,
/// else the account called "deployer".
pub fn resolve_signer(contract: &InitialContract, accounts: &Vec<Account>) -> (r: Result<usize, DeployError>)
    requires
        unique_accounts(accounts@),
    ensures
        r matches Ok(i) ==> (signer_of(*contract, accounts@) == Some(i as int) && i < accounts@.len()),
        r matches Err(e) ==> (signer_of(*contract, accounts@) is None && e == (DeployError::MissingDeployer {
            contract: contract.name,
        })),
{
    if let Some(own) = &contract.deployer {
        return match find_account(accounts, own) {
            Some(i) => Ok(i),
            None => Err(DeployError::MissingDeployer { contract: contract.name.clone() }),
        };
    }
    let fallback = String::from_str("deployer");
    proof {
        reveal_strlit("deployer");
    }
    match find_account(accounts, &fallback) {
        Some(i) => Ok(i),
        None => Err(DeployError::MissingDeployer { contract: contract.name.clone() }),
    }
}

/// The fee of a transaction carrying `len` bytes of source: the base fee plus one per
/// byte.
pub fn transaction_fee(len: usize) -> (r: u64)
    ensures
        r == fee_for(len as nat),
{
    BASE_FEE.saturating_add(len as u64)
}

fn copy_bytes(b: &Vec<u8>) -> (r: Vec<u8>)
    ensures
        r@ == b@,
{
    let mut r: Vec<u8> = Vec::new();
    let mut i: usize = 0;
    while i < b.len()
        invariant
            i <= b@.len(),
            r@ == b@.subrange(0, i as int),
        decreases b.len() - i,
    {
        r.push(b[i]);
        i = i + 1;
        assert(r@ =~= b@.subrange(0, i as int));
    }
    assert(b@.subrange(0, b@.len() as int) =~= b@);
    r
}

/// The transaction that carries out `plan` for `contract`, signed later by the owner of
/// `public_key`.
pub fn build_deployment(plan: &TxPlan, contract: &InitialContract, public_key: &Vec<u8>) -> (t:
    UnsignedDeployment)
    ensures
        t.version == TransactionVersion::Testnet,
        t.chain_id == TESTNET_CHAIN_ID,
        t.anchor_mode == AnchorMode::Any,
        t.post_condition_mode == PostConditionMode::Deny,
        t.signer_public_key@ == public_key@,
        t.nonce == plan.nonce,
        t.fee == plan.fee,
        t.contract_name@ == contract.name@,
        t.code@ == contract.code@,
{
    UnsignedDeployment {
        version: TransactionVersion::Testnet,
        chain_id: TESTNET_CHAIN_ID,
        anchor_mode: AnchorMode::Any,
        post_condition_mode: PostConditionMode::Deny,
        signer_public_key: copy_bytes(public_key),
        nonce: plan.nonce,
        fee: plan.fee,
        contract_name: contract.name.clone(),
        code: contract.code.clone(),
    }
}

impl Deployment {
    /// The state is consistent with `n_accounts` accounts and `n_contracts` contracts.
    pub open spec fn wf(&self, n_accounts: nat, n_contracts: nat) -> bool {
        &&& self.nonces@.len() == n_accounts
        &&& self.next <= n_contracts
        &&& self.results@.len() == self.next
        &&& self.pending matches Some(p) ==> {
            &&& self.failure is None
            &&& p.contract == self.next
            &&& p.contract < n_contracts
            &&& p.signer < n_accounts
            &&& self.nonces@[p.signer as int] == Some(p.nonce)
            &&& p.nonce < u64::MAX
        }
    }

    /// A fresh run: no sequence number known, nothing deployed.
    pub fn new(n_accounts: usize) -> (r: Self)
        ensures
            r.nonces@ == Seq::new(n_accounts as nat, |i: int| None::<u64>),
            r.results@.len() == 0,
            r.next == 0,
            r.pending is None,
            r.failure is None,
    {
        let mut nonces: Vec<Option<u64>> = Vec::new();
        let mut i: usize = 0;
        while i < n_accounts
            invariant
                i <= n_accounts,
                nonces@ =~= Seq::new(i as nat, |j: int| None::<u64>),
            decreases n_accounts - i,
        {
            nonces.push(None);
            i = i + 1;
        }
        Deployment { nonces, results: Vec::new(), next: 0, pending: None, failure: None }
    }

    /// Decides the next step for the contract at `next`: stop after a failure or after the
    /// last contract; fail when it has no signer or its signer's sequence number is
    /// exhausted; fetch the signer's sequence number when it is not known yet; else hand out
    /// the transaction, with the known sequence number and the fee for its source.
    pub fn next_action(&mut self, contracts: &Vec<InitialContract>, accounts: &Vec<Account>) -> (r: Action)
        requires
            old(self).wf(accounts@.len(), contracts@.len()),
            unique_accounts(accounts@),
        ensures
            final(self).wf(accounts@.len(), contracts@.len()),
            final(self).nonces == old(self).nonces,
            final(self).results == old(self).results,
            final(self).next == old(self).next,
            old(self).failure is Some ==> r == Action::Halted && *final(self) == *old(self),
            old(self).failure is None && old(self).next >= contracts@.len() ==> r == Action::Finished
                && *final(self) == *old(self),
            old(self).failure is None && old(self).next < contracts@.len() ==> ({
                let c = contracts@[old(self).next as int];
                match signer_of(c, accounts@) {
                    None => r == Action::Halted && final(self).pending is None && final(self).failure
                        == Some((DeployError::MissingDeployer { contract: c.name })),
                    Some(s) => match old(self).nonces@[s] {
                        None => r == (Action::FetchNonce { account: s as usize }) && *final(self)
                            == *old(self),
                        Some(n) => if n == u64::MAX {
                            r == Action::Halted && final(self).pending is None && final(self).failure
                                == Some((DeployError::NonceExhausted { account: accounts@[s].name }))
                        } else {
                            let p = (TxPlan {
                                contract: old(self).next,
                                signer: s as usize,
                                nonce: n,
                                fee: fee_for(encode_utf8(c.code@).len()),
                            });
                            r == Action::Broadcast(p) && final(self).pending == Some(p)
                                && final(self).failure is None
                        },
                    },
                }
            }),
    {
        if self.failure.is_some() {
            return Action::Halted;
        }
        if self.next >= contracts.len() {
            return Action::Finished;
        }
        let contract = &contracts[self.next];
        assert(*contract == contracts@[self.next as int]);
        match resolve_signer(contract, accounts) {
            Err(e) => {
                self.pending = None;
                self.failure = Some(e);
                Action::Halted
            },
            Ok(signer) => match self.nonces[signer] {
                None => Action::FetchNonce { account: signer },
                Some(nonce) => {
                    if nonce == u64::MAX {
                        self.pending = None;
                        self.failure = Some(
                            DeployError::NonceExhausted { account: accounts[signer].name.clone() },
                        );
                        Action::Halted
                    } else {
                        let plan = TxPlan {
                            contract: self.next,
                            signer,
                            nonce,
                            fee: transaction_fee(contract.code.as_str().as_bytes().len()),
                        };
                        self.pending = Some(plan);
                        Action::Broadcast(plan)
                    }
                },
            },
        }
    }

    /// Records the sequence number that the network reported for `account`, unless one is
    /// known already.
    pub fn record_nonce(&mut self, account: usize, nonce: u64)
        requires
            account < old(self).nonces@.len(),
        ensures
            final(self).nonces@ == if old(self).nonces@[account as int] is None {
                old(self).nonces@.update(account as int, Some(nonce))
            } else {
                old(self).nonces@
            },
            final(self).results == old(self).results,
            final(self).next == old(self).next,
            final(self).pending == old(self).pending,
            final(self).failure == old(self).failure,
    {
        if self.nonces[account].is_none() {
            self.nonces.set(account, Some(nonce));
        }
    }

    /// Records that the pending transaction was accepted with id `txid`: the contract joins
    /// the results, its signer's sequence number advances by one, and the run moves on.
    pub fn record_success(&mut self, contracts: &Vec<InitialContract>, txid: String)
        requires
            old(self).wf(old(self).nonces@.len(), contracts@.len()),
            old(self).pending is Some,
        ensures
            ({
                let p = old(self).pending->Some_0;
                &&& final(self).results@ == old(self).results@.push(
                    (DeployedContract { name: contracts@[p.contract as int].name, txid, nonce: p.nonce }),
                )
                &&& final(self).nonces@ == old(self).nonces@.update(
                    p.signer as int,
                    Some((p.nonce + 1) as u64),
                )
                &&& final(self).next == old(self).next + 1
            }),
            final(self).pending is None,
            final(self).failure == old(self).failure,
            final(self).wf(old(self).nonces@.len(), contracts@.len()),
    {
        let plan = self.pending.unwrap();
        assert(plan.contract < contracts.len());
        self.results.push(
            DeployedContract { name: contracts[plan.contract].name.clone(), txid, nonce: plan.nonce },
        );
        self.nonces.set(plan.signer, Some(plan.nonce + 1));
        self.next = self.next + 1;
        self.pending = None;
    }

    /// Records that the pending step failed: the run stops, and what was deployed stays.
    pub fn record_failure(&mut self, error: DeployError)
        ensures
            final(self).failure == Some(error),
            final(self).pending is None,
            final(self).nonces == old(self).nonces,
            final(self).results == old(self).results,
            final(self).next == old(self).next,
    {
        self.pending = None;
        self.failure = Some(error);
    }
}

} // verus!
