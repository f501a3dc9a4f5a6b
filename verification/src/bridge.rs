//! The host bridge: every query and mutation the interpreter directs at
//! its host, answered against the substate stack, plus the call/create
//! entry points with their depth and collision rules.

use vstd::prelude::*;
use crate::addr::Address;
use crate::hashing::keccak256;
use crate::hashing::keccak_of;
use crate::hashing::zero_hash;
use crate::hashing::zero_hash_bytes;
use crate::hashing::create2_address;
use crate::hashing::create2_of;
use crate::hashing::legacy_address;
use crate::hashing::legacy_of;
use crate::substate::ExecutorState;
use crate::substate::others_kept;
use crate::substate::frame_kept;

verus! {

/// Error-class exit: the frame failed, its parent may continue.
#[derive(PartialEq, Eq, Structural, Clone, Copy, Debug)]
pub enum ExitError {
    CallTooDeep,
    CreateCollision,
    CreateContractLimit,
    OutOfFund,
    Other,
}

/// Fatal-class exit: the whole machine aborts.
#[derive(PartialEq, Eq, Structural, Clone, Copy, Debug)]
pub enum ExitFatal {
    NotSupported,
    Other,
}

/// Why a frame stopped. Succeed commits its region, Revert keeps only the
/// return buffer, Error and Fatal discard everything.
#[derive(PartialEq, Eq, Structural, Clone, Copy, Debug)]
pub enum ExitReason {
    Succeed,
    Revert,
    Error(ExitError),
    Fatal(ExitFatal),
}

/// The configured execution rules of one machine.
pub struct Config {
    /// Whether an account with empty state still counts as existing.
    pub empty_considered_exists: bool,
    /// Whether entering a created contract bumps the new account's nonce.
    pub create_increase_nonce: bool,
    /// How deep call/create activations may nest.
    pub call_stack_limit: u64,
    /// Largest accepted size of deployed code, if bounded.
    pub create_contract_limit: Option<u64>,
}

impl Config {
    /// The value `standard` returns.
    pub open spec fn standard_spec() -> Config {
        Config {
            empty_considered_exists: false,
            create_increase_nonce: true,
            call_stack_limit: 1024,
            create_contract_limit: Some(0x6000u64),
        }
    }

    /// The rule set the machine runs under: depth bound 1024, deployed
    /// code bounded by 0x6000 bytes, created accounts start at nonce one,
    /// empty accounts count as absent.
    pub fn standard() -> (c: Config)
        ensures
            c == Config::standard_spec(),
            !c.empty_considered_exists,
            c.create_increase_nonce,
            c.call_stack_limit == 1024,
            c.create_contract_limit == Some(0x6000u64),
    {
        Config {
            empty_considered_exists: false,
            create_increase_nonce: true,
            call_stack_limit: 1024,
            create_contract_limit: Some(0x6000),
        }
    }
}

/// The execution context a frame runs in.
#[verifier::ext_equal]
pub struct Context {
    pub address: Address,
    pub caller: Address,
    pub apparent_value: u64,
}

/// A request to open a nested call frame, consumed by the orchestrator.
#[verifier::ext_equal]
pub struct CallInterrupt {
    pub code_address: Address,
    pub input: Vec<u8>,
    pub context: Context,
}

/// A request to open a nested create frame, consumed by the orchestrator.
#[verifier::ext_equal]
pub struct CreateInterrupt {
    pub init_code: Vec<u8>,
    pub context: Context,
    pub address: Address,
}

/// How the target address of a creation is chosen.
pub enum CreateScheme {
    Legacy { caller: Address },
    Create2 { caller: Address, code_hash: Vec<u8>, salt: Vec<u8> },
    Fixed(Address),
}

/// What `create` hands back: an immediate exit or a trap for the
/// orchestrator.
pub enum CreateOutcome {
    Exit(ExitReason),
    Trap(CreateInterrupt),
}

/// What `call` hands back: an immediate exit with output or a trap.
pub enum CallOutcome {
    Exit(ExitReason, Vec<u8>),
    Trap(CallInterrupt),
}

/// Whether a create outcome is an immediate exit with the given reason.
pub open spec fn create_exits_with(r: CreateOutcome, e: ExitReason) -> bool {
    match r {
        CreateOutcome::Exit(x) => x == e,
        CreateOutcome::Trap(_) => false,
    }
}

/// Whether a call outcome is an immediate exit with the given reason and
/// empty output.
pub open spec fn call_exits_empty(r: CallOutcome, e: ExitReason) -> bool {
    match r {
        CallOutcome::Exit(x, out) => x == e && out@.len() == 0,
        CallOutcome::Trap(_) => false,
    }
}

/// The exit a call outcome carries, if it is one.
pub open spec fn call_exit_of(r: CallOutcome) -> Option<(ExitReason, Seq<u8>)> {
    match r {
        CallOutcome::Exit(x, out) => Some((x, out@)),
        CallOutcome::Trap(_) => None,
    }
}

/// The view of a built-in resolution the backend offered.
pub open spec fn builtin_view(b: Option<(ExitReason, Vec<u8>)>) -> Option<(ExitReason, Seq<u8>)> {
    match b {
        Some(p) => Some((p.0, p.1@)),
        None => None,
    }
}

/// The addresses a creation scheme must name as 20 bytes.
pub open spec fn scheme_wf(s: CreateScheme) -> bool {
    match s {
        CreateScheme::Legacy { caller } => caller.wf(),
        CreateScheme::Create2 { caller, code_hash, salt } => caller.wf(),
        CreateScheme::Fixed(a) => a.wf(),
    }
}

/// The target address a scheme derives, given the deriving account's
/// current nonce.
pub open spec fn scheme_target(s: CreateScheme, nonce: u64) -> Seq<u8> {
    match s {
        CreateScheme::Legacy { caller } => legacy_of(caller@, nonce),
        CreateScheme::Create2 { caller, code_hash, salt } => create2_of(
            caller@,
            salt@,
            code_hash@,
        ),
        CreateScheme::Fixed(a) => a@,
    }
}

/// The account whose nonce a legacy scheme reads.
pub open spec fn scheme_caller(s: CreateScheme) -> Seq<u8> {
    match s {
        CreateScheme::Legacy { caller } => caller@,
        CreateScheme::Create2 { caller, code_hash, salt } => caller@,
        CreateScheme::Fixed(a) => a@,
    }
}

/// The host bridge: the substate stack under the configured rules.
pub struct Executor {
    pub state: ExecutorState,
    pub config: Config,
}

impl Executor {
    pub open spec fn wf(&self) -> bool {
        self.state.wf()
    }

    /// Whether an address exists under the configured existence rule.
    pub open spec fn exists_spec(&self, a: Seq<u8>) -> bool {
        if self.config.empty_considered_exists {
            self.state.known(a)
        } else {
            self.state.known(a) && !self.state.is_empty_acct(a)
        }
    }

    /// The resolved balance of an address.
    pub fn balance(&self, a: &Address) -> (r: u64)
        requires
            self.wf(),
        ensures
            r == self.state.acct(a@).balance,
    {
        self.state.lookup(a).balance
    }

    /// The resolved nonce of an address.
    pub fn nonce(&self, a: &Address) -> (r: u64)
        requires
            self.wf(),
        ensures
            r == self.state.acct(a@).nonce,
    {
        self.state.lookup(a).nonce
    }

    /// The resolved code of an address.
    pub fn code(&self, a: &Address) -> (r: Vec<u8>)
        requires
            self.wf(),
        ensures
            r@ == self.state.acct(a@).code,
    {
        self.state.lookup(a).code
    }

    /// The size of the resolved code of an address.
    pub fn code_size(&self, a: &Address) -> (r: usize)
        requires
            self.wf(),
        ensures
            r == self.state.acct(a@).code.len(),
    {
        self.state.lookup(a).code.len()
    }

    /// The code hash of an address: the zero hash when the address does
    /// not exist under the configured rule, else the Keccak-256 digest of
    /// its code.
    pub fn code_hash(&self, a: &Address) -> (r: Vec<u8>)
        requires
            self.wf(),
        ensures
            !self.exists_spec(a@) ==> r@ == zero_hash_bytes(),
            self.exists_spec(a@) ==> r@ == keccak_of(self.state.acct(a@).code),
    {
        if !self.exists_acct(a) {
            return zero_hash();
        }
        let code = self.code(a);
        keccak256(&code)
    }

    /// One resolved storage slot.
    pub fn storage(&self, a: &Address, key: u64) -> (r: u64)
        requires
            self.wf(),
        ensures
            r == self.state.acct(a@).storage[key],
    {
        self.state.storage_at(a, key)
    }

    /// The pre-transaction value of a storage slot, below every pending
    /// change.
    pub fn original_storage(&self, a: &Address, key: u64) -> (r: u64)
        requires
            self.wf(),
        ensures
            r == crate::substate::base_view(self.state.backend, a@).storage[key],
    {
        self.state.original_slot(a, key)
    }

    /// Whether an address exists under the configured rule.
    pub fn exists_acct(&self, a: &Address) -> (r: bool)
        requires
            self.wf(),
        ensures
            r == self.exists_spec(a@),
    {
        let acct = self.state.lookup(a);
        if self.config.empty_considered_exists {
            acct.present
        } else {
            acct.present && !(acct.nonce == 0 && acct.balance == 0 && acct.code.len() == 0)
        }
    }

    /// Whether an address was marked deleted in this transaction.
    pub fn deleted(&self, a: &Address) -> (r: bool)
        requires
            self.wf(),
        ensures
            r == self.state.acct(a@).deleted,
    {
        self.state.lookup(a).deleted
    }

    /// Remaining gas: a placeholder constant, since nesting depth is the
    /// only resource this revision bounds.
    pub fn gas_left(&self) -> (r: u64)
        ensures
            r == 1u64,
    {
        1
    }

    /// The configured gas price of the invocation.
    pub fn gas_price(&self) -> (r: u64)
        ensures
            r == self.state.backend.gas_price,
    {
        self.state.backend.gas_price
    }

    /// The transaction origin address.
    pub fn origin(&self) -> (r: Address)
        requires
            self.wf(),
        ensures
            r@ == self.state.backend.origin@,
            r.wf(),
    {
        self.state.backend.origin.clone()
    }

    /// A historical block hash: the hosted backend keeps none, so the zero
    /// hash stands for every block.
    pub fn block_hash(&self, _number: u64) -> (r: Vec<u8>)
        ensures
            r@ == zero_hash_bytes(),
    {
        zero_hash()
    }

    pub fn block_number(&self) -> (r: u64)
        ensures
            r == self.state.backend.block_number,
    {
        self.state.backend.block_number
    }

    pub fn block_coinbase(&self) -> (r: Address)
        requires
            self.wf(),
        ensures
            r@ == self.state.backend.coinbase@,
            r.wf(),
    {
        self.state.backend.coinbase.clone()
    }

    pub fn block_timestamp(&self) -> (r: u64)
        ensures
            r == self.state.backend.block_timestamp,
    {
        self.state.backend.block_timestamp
    }

    pub fn block_difficulty(&self) -> (r: u64)
        ensures
            r == self.state.backend.block_difficulty,
    {
        self.state.backend.block_difficulty
    }

    pub fn block_gas_limit(&self) -> (r: u64)
        ensures
            r == self.state.backend.block_gas_limit,
    {
        self.state.backend.block_gas_limit
    }

    pub fn chain_id(&self) -> (r: u64)
        ensures
            r == self.state.backend.chain_id,
    {
        self.state.backend.chain_id
    }

    /// Writes one storage slot of an address.
    pub fn set_storage(&mut self, a: &Address, key: u64, val: u64) -> (r: Result<(), ExitError>)
        requires
            old(self).wf(),
            a.wf(),
        ensures
            final(self).wf(),
            final(self).config == old(self).config,
            r is Ok,
            frame_kept(old(self).state, final(self).state),
            others_kept(old(self).state, final(self).state, a@),
            final(self).state.acct(a@).storage == old(self).state.acct(a@).storage.insert(
                key,
                val,
            ),
            final(self).state.acct(a@).nonce == old(self).state.acct(a@).nonce,
            final(self).state.acct(a@).balance == old(self).state.acct(a@).balance,
            final(self).state.acct(a@).code == old(self).state.acct(a@).code,
            final(self).state.acct(a@).deleted == old(self).state.acct(a@).deleted,
    {
        self.state.set_storage(a, key, val);
        Ok(())
    }

    /// Records a log made by an address.
    pub fn log(&mut self, a: &Address, topics: Vec<Vec<u8>>, data: Vec<u8>) -> (r: Result<
        (),
        ExitError,
    >)
        requires
            old(self).wf(),
            a.wf(),
        ensures
            final(self).wf(),
            final(self).config == old(self).config,
            r is Ok,
            final(self).state.chain() == old(self).state.chain(),
            final(self).state.backend == old(self).state.backend,
            final(self).state.layers@.len() == old(self).state.layers@.len(),
            final(self).state.logs_view().len() == old(self).state.logs_view().len() + 1,
            final(self).state.logs_view().drop_last() == old(self).state.logs_view(),
            final(self).state.logs_view().last().address@ == a@,
            final(self).state.logs_view().last().topics == topics,
            final(self).state.logs_view().last().data == data,
    {
        self.state.log(a, topics, data);
        Ok(())
    }

    /// Self-destruct bookkeeping: moves the whole balance of `address` to
    /// `target`, zeroes it, and marks `address` deleted. Fails without any
    /// change only when the beneficiary's balance would not fit.
    pub fn mark_delete(&mut self, address: &Address, target: &Address) -> (r: Result<
        (),
        ExitError,
    >)
        requires
            old(self).wf(),
            address.wf(),
            target.wf(),
        ensures
            final(self).wf(),
            final(self).config == old(self).config,
            r is Ok <==> (address@ == target@ || old(self).state.acct(target@).balance + old(self).state.acct(address@).balance <= u64::MAX),
            r is Err ==> *final(self) == *old(self) && r == Result::<(), ExitError>::Err(
                ExitError::OutOfFund,
            ),
            r is Ok ==> final(self).state.acct(address@).balance == 0 && final(self).state.acct(address@).deleted,
            r is Ok && address@ != target@ ==> final(self).state.acct(target@).balance == old(self).state.acct(target@).balance + old(self).state.acct(address@).balance,
            r is Ok ==> forall|b: Seq<u8>|
                b != address@ && b != target@ ==> #[trigger] final(self).state.acct(b) == old(self).state.acct(b),
    {
        let balance = self.state.lookup(address).balance;
        let moved = self.state.transfer(address, target, balance);
        if !moved {
            return Err(ExitError::OutOfFund);
        }
        self.state.reset_balance(address);
        self.state.set_deleted(address);
        Ok(())
    }

    /// Gas accounting before an instruction: a stub in this revision.
    pub fn pre_validate(&self) -> (r: Result<(), ExitError>)
        ensures
            r is Ok,
    {
        Ok(())
    }

    /// The nonce of the scheme's deriving account after the caller's bump.
    pub open spec fn post_nonce(&self, bumped: Seq<u8>, a: Seq<u8>) -> u64 {
        if a == bumped {
            if self.state.acct(a).nonce < u64::MAX {
                (self.state.acct(a).nonce + 1) as u64
            } else {
                u64::MAX
            }
        } else {
            self.state.acct(a).nonce
        }
    }

    /// Whether creating at `a` collides, judged after the caller's nonce
    /// bump.
    pub open spec fn create_collides(pre: Executor, caller: Seq<u8>, a: Seq<u8>) -> bool {
        pre.state.acct(a).code.len() > 0 || pre.post_nonce(caller, a) > 0
    }

    /// Opens a contract creation. The depth rule comes first: when the
    /// current nesting plus one would pass the configured limit, the
    /// result is an immediate `CallTooDeep` exit and nothing changes.
    /// Otherwise the target address is derived by the scheme, the target
    /// is marked touched, the caller's nonce is incremented exactly once —
    /// also when the creation then collides — and a collision (code
    /// already present, or a nonce above zero) exits with
    /// `CreateCollision`; otherwise the trap carries the init code and
    /// context to the orchestrator.
    pub fn create(
        &mut self,
        caller: &Address,
        scheme: CreateScheme,
        value: u64,
        init_code: Vec<u8>,
        _target_gas: Option<u64>,
    ) -> (r: CreateOutcome)
        requires
            old(self).wf(),
            caller.wf(),
            scheme_wf(scheme),
        ensures
            final(self).wf(),
            final(self).config == old(self).config,
            final(self).state.backend == old(self).state.backend,
            final(self).state.layers@.len() == old(self).state.layers@.len(),
            final(self).state.logs_view() == old(self).state.logs_view(),
            old(self).state.depth() + 1 > old(self).config.call_stack_limit ==> create_exits_with(
                r,
                ExitReason::Error(ExitError::CallTooDeep),
            ) && *final(self) == *old(self),
            old(self).state.depth() + 1 <= old(self).config.call_stack_limit ==> {
                let a = scheme_target(
                    scheme,
                    old(self).state.acct(scheme_caller(scheme)).nonce,
                );
                &&& final(self).state.acct(caller@).nonce == old(self).post_nonce(caller@, caller@)
                &&& final(self).state.acct(caller@).balance == old(self).state.acct(
                    caller@,
                ).balance
                &&& final(self).state.acct(caller@).code == old(self).state.acct(caller@).code
                &&& final(self).state.acct(caller@).storage == old(self).state.acct(
                    caller@,
                ).storage
                &&& final(self).state.known(a) && final(self).state.known(caller@)
                &&& forall|b: Seq<u8>|
                    b != caller@ ==> #[trigger] final(self).state.acct(b) == old(self).state.acct(b)
                &&& forall|b: Seq<u8>|
                    b != caller@ && b != a ==> #[trigger] final(self).state.known(b) == old(self).state.known(b)
                &&& (Executor::create_collides(*old(self), caller@, a) ==> create_exits_with(
                    r,
                    ExitReason::Error(ExitError::CreateCollision),
                ))
                &&& (!Executor::create_collides(*old(self), caller@, a) ==> match r {
                    CreateOutcome::Trap(i) => {
                        &&& i.address@ == a
                        &&& i.address.wf()
                        &&& i.init_code == init_code
                        &&& i.context.address@ == a
                        &&& i.context.caller@ == caller@
                        &&& i.context.apparent_value == value
                    },
                    CreateOutcome::Exit(_) => false,
                })
            },
    {
        let ghost pre = *self;
        let depth_plus_one = self.state.layers.len() as u64;
        if depth_plus_one > self.config.call_stack_limit {
            return CreateOutcome::Exit(ExitReason::Error(ExitError::CallTooDeep));
        }
        let address = match &scheme {
            CreateScheme::Legacy { caller: c } => {
                let n = self.state.lookup(c).nonce;
                legacy_address(c, n)
            },
            CreateScheme::Create2 { caller: c, code_hash, salt } => create2_address(
                c,
                salt,
                code_hash,
            ),
            CreateScheme::Fixed(a) => a.clone(),
        };
        proof {
            assert(address@ == scheme_target(scheme, pre.state.acct(scheme_caller(scheme)).nonce));
        }
        self.state.touch(&address);
        self.state.inc_nonce(caller);
        proof {
            assert(self.state.acct(address@).code == pre.state.acct(address@).code);
            assert(self.state.acct(address@).nonce == pre.post_nonce(caller@, address@));
            assert(self.state.acct(caller@).nonce == pre.post_nonce(caller@, caller@));
            assert forall|b: Seq<u8>| b != caller@ implies #[trigger] self.state.acct(b)
                == pre.state.acct(b) by {}
            assert(self.state.known(address@));
            assert(self.state.known(caller@));
            assert forall|b: Seq<u8>| b != caller@ && b != address@ implies #[trigger] self.state.known(
                b,
            ) == pre.state.known(b) by {}
        }
        let existing = self.state.lookup(&address);
        if existing.code.len() > 0 {
            return CreateOutcome::Exit(ExitReason::Error(ExitError::CreateCollision));
        }
        if existing.nonce > 0 {
            return CreateOutcome::Exit(ExitReason::Error(ExitError::CreateCollision));
        }
        let context = Context {
            address: address.clone(),
            caller: caller.clone(),
            apparent_value: value,
        };
        CreateOutcome::Trap(CreateInterrupt { init_code, context, address })
    }

    /// Opens a nested call. The depth rule comes first, as for `create`.
    /// Within the depth bound the backend is first offered a chance to
    /// resolve the call synchronously as a built-in: its resolution, if
    /// it gave one for this target and input, arrives in `builtin` and is
    /// returned as an immediate exit without opening a frame; when the
    /// backend declined, the request traps to the orchestrator. The
    /// state is never changed here.
    pub fn call(
        &mut self,
        code_address: &Address,
        _transfer: Option<(Address, Address, u64)>,
        input: Vec<u8>,
        _target_gas: Option<u64>,
        _is_static: bool,
        context: Context,
        builtin: Option<(ExitReason, Vec<u8>)>,
    ) -> (r: CallOutcome)
        requires
            old(self).wf(),
            code_address.wf(),
        ensures
            final(self).wf(),
            *final(self) == *old(self),
            old(self).state.depth() + 1 > old(self).config.call_stack_limit ==> call_exits_empty(
                r,
                ExitReason::Error(ExitError::CallTooDeep),
            ),
            old(self).state.depth() + 1 <= old(self).config.call_stack_limit && builtin is Some
                ==> call_exit_of(r) == builtin_view(builtin),
            old(self).state.depth() + 1 <= old(self).config.call_stack_limit && builtin is None
                ==> match r {
                CallOutcome::Trap(i) => {
                    &&& i.code_address@ == code_address@
                    &&& i.code_address.wf()
                    &&& i.input == input
                    &&& i.context == context
                },
                CallOutcome::Exit(_, _) => false,
            },
    {
        let depth_plus_one = self.state.layers.len() as u64;
        if depth_plus_one > self.config.call_stack_limit {
            return CallOutcome::Exit(ExitReason::Error(ExitError::CallTooDeep), Vec::new());
        }
        match builtin {
            Some(resolved) => CallOutcome::Exit(resolved.0, resolved.1),
            None => CallOutcome::Trap(
                CallInterrupt { code_address: code_address.clone(), input, context },
            ),
        }
    }
}

} // verus!
