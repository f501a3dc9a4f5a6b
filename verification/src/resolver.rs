//! The address resolver: maps 160-bit account addresses to positional
//! backing accounts, and applies the final effect set to them.
//!
//! The backing accounts arrive as a positional list: the contract account,
//! its code account, the caller, then further program accounts — each
//! optionally followed by its code account — interleaved with exactly one
//! clock account. After ingestion the alias index is sorted by address
//! once and frozen; lookups run a binary search over it.

use vstd::prelude::*;
use crate::addr::Address;
use crate::addr::AddrOrder;
use crate::addr::addr_cmp;
use crate::addr::lex_le;
use crate::addr::lex_lt;
use crate::addr::lemma_lex_irreflexive;
use crate::addr::lemma_lex_transitive;
use crate::bytes::clone_bytes;
use crate::bytes::eq_bytes;
use crate::errors::HostError;
use crate::hashing::derive_from_signer_key;
use crate::substate::AccountDiff;
use crate::substate::ExecutorState;
use crate::substate::LayerEntry;
use crate::substate::entries_chain;
use crate::substate::apply_slots;
use crate::substate::zero_slots;

verus! {

/// Number of bytes in a backing account key.
pub const KEY_LEN: usize = 32;

/// The decoded payload of one backing account.
pub enum AccountData {
    /// An Ethereum-style account record: its address, the key of its code
    /// account (all zero when it has none), and its basic state.
    Account { ether: Address, code_key: Vec<u8>, nonce: u64, balance: u64 },
    /// A code account: deployed code and storage.
    Contract { code: Vec<u8>, storage: Vec<(u64, u64)> },
    /// The clock account: the live slot number and timestamp.
    Clock { slot: u64, unix_timestamp: u64 },
    /// Anything else.
    Other,
}

/// One backing account as the surrounding layer hands it over.
pub struct RawAccount {
    pub key: Vec<u8>,
    pub owner: Vec<u8>,
    pub is_signer: bool,
    pub lamports: u64,
    pub data: AccountData,
}

/// Who initiated the invocation.
pub enum Sender {
    /// A tracked Ethereum-style account.
    Ethereum(Address),
    /// A native signer, standing behind the digest of its raw key.
    Solana(Address),
}

/// One ingested account projection: an Ethereum account view over a
/// backing account at a fixed position.
pub struct Projection {
    pub address: Address,
    pub nonce: u64,
    pub balance: u64,
    pub code: Option<Vec<u8>>,
    pub storage: Vec<(u64, u64)>,
    pub position: usize,
}

/// One alias index record: an address and the projection it names.
pub struct AliasEntry {
    pub address: Address,
    pub position: usize,
}

/// An effect to commit: one recorded diff for one address.
pub struct Effect {
    pub address: Address,
    pub diff: AccountDiff,
}

/// The address resolver over one invocation's account list.
pub struct ProgramAccountStorage {
    pub accounts: Vec<Projection>,
    pub aliases: Vec<AliasEntry>,
    pub contract_id: Address,
    pub sender: Sender,
    pub clock_slot: u64,
    pub clock_timestamp: u64,
}

/// The reserved generic sink address: all bytes high.
pub open spec fn system_sink() -> Seq<u8> {
    Seq::new(20, |i: int| 0xffu8)
}

/// The reserved signature-recovery sink address: all bytes high but the
/// last.
pub open spec fn ecrecover_sink() -> Seq<u8> {
    Seq::new(20, |i: int| if i == 19 { 0xfeu8 } else { 0xffu8 })
}

/// The generic sink as a value.
pub fn system_sink_address() -> (r: Address)
    ensures
        r.wf(),
        r@ == system_sink(),
{
    let mut b: Vec<u8> = Vec::new();
    let mut i: usize = 0;
    while i < 20
        invariant
            i <= 20,
            b@.len() == i,
            forall|j: int| 0 <= j < i ==> b@[j] == 0xffu8,
        decreases 20 - i,
    {
        b.push(0xffu8);
        i += 1;
    }
    proof {
        assert(b@ =~= system_sink());
    }
    Address { bytes: b }
}

/// The signature-recovery sink as a value.
pub fn ecrecover_sink_address() -> (r: Address)
    ensures
        r.wf(),
        r@ == ecrecover_sink(),
{
    let mut b: Vec<u8> = Vec::new();
    let mut i: usize = 0;
    while i < 19
        invariant
            i <= 19,
            b@.len() == i,
            forall|j: int| 0 <= j < i ==> b@[j] == 0xffu8,
        decreases 19 - i,
    {
        b.push(0xffu8);
        i += 1;
    }
    b.push(0xfeu8);
    proof {
        assert(b@ =~= ecrecover_sink());
    }
    Address { bytes: b }
}

/// The address an account record carries.
pub open spec fn rec_ether(d: AccountData) -> Seq<u8> {
    match d {
        AccountData::Account { ether, code_key, nonce, balance } => ether@,
        _ => Seq::empty(),
    }
}

/// The code-account reference an account record carries.
pub open spec fn rec_code_key(d: AccountData) -> Seq<u8> {
    match d {
        AccountData::Account { ether, code_key, nonce, balance } => code_key@,
        _ => Seq::empty(),
    }
}

/// The nonce an account record carries.
pub open spec fn rec_nonce(d: AccountData) -> u64 {
    match d {
        AccountData::Account { ether, code_key, nonce, balance } => nonce,
        _ => 0,
    }
}

/// The balance an account record carries.
pub open spec fn rec_balance(d: AccountData) -> u64 {
    match d {
        AccountData::Account { ether, code_key, nonce, balance } => balance,
        _ => 0,
    }
}

/// The deployed code a contract record carries.
pub open spec fn con_code(d: AccountData) -> Seq<u8> {
    match d {
        AccountData::Contract { code, storage } => code@,
        _ => Seq::empty(),
    }
}

/// The storage a contract record carries.
pub open spec fn con_storage(d: AccountData) -> Seq<(u64, u64)> {
    match d {
        AccountData::Contract { code, storage } => storage@,
        _ => Seq::empty(),
    }
}

/// A code-account reference of all zero bytes: the record has no code
/// account.
pub open spec fn is_zero_key(k: Seq<u8>) -> bool {
    forall|i: int| 0 <= i < k.len() ==> k[i] == 0
}

/// The address an initiating identity stands behind.
pub open spec fn sender_addr(s: Sender) -> Seq<u8> {
    match s {
        Sender::Ethereum(a) => a@,
        Sender::Solana(a) => a@,
    }
}

/// The code view of a projection.
pub open spec fn proj_code(p: Projection) -> Option<Seq<u8>> {
    match p.code {
        Some(c) => Some(c@),
        None => None,
    }
}

/// The outcome of walking the account list from position `i` on: the
/// first wiring error, or whether a clock account was seen. A
/// program-owned account record is ingested — followed by its matching,
/// program-owned code account when its reference is set — any other
/// owned payload is skipped, and a foreign account is skipped unless it
/// is the clock.
pub open spec fn tail_scan(accs: Seq<RawAccount>, pid: Seq<u8>, i: int) -> Result<bool, HostError>
    decreases accs.len() + 2 - i,
{
    if i >= accs.len() {
        Ok(false)
    } else if accs[i].owner@ == pid {
        match accs[i].data {
            AccountData::Account { ether, code_key, nonce, balance } => {
                if ether@.len() != 20 {
                    Err(HostError::InvalidAccountData)
                } else if is_zero_key(code_key@) {
                    tail_scan(accs, pid, i + 1)
                } else if i + 1 >= accs.len() {
                    Err(HostError::NotEnoughAccountKeys)
                } else if accs[i + 1].owner@ != pid {
                    Err(HostError::InvalidArgument)
                } else if code_key@ != accs[i + 1].key@ {
                    Err(HostError::InvalidAccountData)
                } else if !(accs[i + 1].data is Contract) {
                    Err(HostError::InvalidAccountData)
                } else {
                    tail_scan(accs, pid, i + 2)
                }
            },
            _ => tail_scan(accs, pid, i + 1),
        }
    } else {
        match accs[i].data {
            AccountData::Clock { slot, unix_timestamp } => match tail_scan(accs, pid, i + 1) {
                Ok(b) => Ok(true),
                Err(e) => Err(e),
            },
            _ => tail_scan(accs, pid, i + 1),
        }
    }
}

/// Folds an already-found clock into a walk's outcome: construction
/// fails without a clock.
pub open spec fn finish_scan(found_clock: bool, t: Result<bool, HostError>) -> Option<HostError> {
    match t {
        Err(e) => Some(e),
        Ok(b) => if b || found_clock {
            None
        } else {
            Some(HostError::NotEnoughAccountKeys)
        },
    }
}

/// The positional convention of the account list, checked in order: the
/// error construction reports, or `None` when construction succeeds.
/// Positions 0 and 1 must be program-owned; position 0 an account record
/// with a real address whose code reference is position 1's key;
/// position 1 a contract record; position 2 either a program-owned
/// account record or a foreign signer; and the rest must walk cleanly
/// with a clock present.
pub open spec fn construct_check(accs: Seq<RawAccount>, pid: Seq<u8>) -> Option<HostError> {
    if accs.len() < 2 {
        Some(HostError::NotEnoughAccountKeys)
    } else if accs[0].owner@ != pid || accs[1].owner@ != pid {
        Some(HostError::InvalidArgument)
    } else if !(accs[0].data is Account) {
        Some(HostError::InvalidAccountData)
    } else if rec_ether(accs[0].data).len() != 20 {
        Some(HostError::InvalidAccountData)
    } else if rec_code_key(accs[0].data) != accs[1].key@ {
        Some(HostError::InvalidAccountData)
    } else if !(accs[1].data is Contract) {
        Some(HostError::InvalidAccountData)
    } else if accs.len() < 3 {
        Some(HostError::NotEnoughAccountKeys)
    } else if accs[2].owner@ == pid && !(accs[2].data is Account) {
        Some(HostError::InvalidAccountData)
    } else if accs[2].owner@ == pid && rec_ether(accs[2].data).len() != 20 {
        Some(HostError::InvalidAccountData)
    } else if accs[2].owner@ != pid && !accs[2].is_signer {
        Some(HostError::InvalidArgument)
    } else {
        finish_scan(false, tail_scan(accs, pid, 3))
    }
}

/// Whether some alias record names position `p`.
pub open spec fn alias_covers(st: &ProgramAccountStorage, p: int) -> bool {
    exists|i: int| 0 <= i < st.aliases@.len() && (#[trigger] st.aliases@[i]).position == p
}

impl ProgramAccountStorage {
    /// The alias index is sorted by address, and every record of it names
    /// a live projection with that address; every projection is named.
    pub open spec fn wf(&self) -> bool {
        &&& forall|i: int, j: int|
            0 <= i <= j < self.aliases@.len() ==> lex_le(
                (#[trigger] self.aliases@[i]).address@,
                (#[trigger] self.aliases@[j]).address@,
            )
        &&& forall|i: int|
            0 <= i < self.aliases@.len() ==> (#[trigger] self.aliases@[i]).position
                < self.accounts@.len() && self.accounts@[self.aliases@[i].position as int].address@
                == self.aliases@[i].address@
        &&& forall|p: int| 0 <= p < self.accounts@.len() ==> #[trigger] alias_covers(self, p)
        &&& self.aliases@.len() == self.accounts@.len()
        &&& forall|i: int| 0 <= i < self.accounts@.len() ==> (
        #[trigger] self.accounts@[i]).address.wf()
        &&& forall|i: int| 0 <= i < self.aliases@.len() ==> (
        #[trigger] self.aliases@[i]).address.wf()
        &&& self.contract_id.wf()
        &&& match self.sender {
            Sender::Ethereum(a) => a.wf() && self.has_account(a@),
            Sender::Solana(a) => a.wf(),
        }
    }

    /// Whether some projection carries the address.
    pub open spec fn has_account(&self, a: Seq<u8>) -> bool {
        exists|i: int| 0 <= i < self.accounts@.len() && (#[trigger] self.accounts@[i]).address@
            == a
    }

    /// Finds the position of the projection backing an address, by binary
    /// search over the frozen alias index: some position exactly when a
    /// projection carries the address.
    pub fn find_account(&self, address: &Address) -> (r: Option<usize>)
        requires
            self.wf(),
            address.wf(),
        ensures
            r matches Some(p) ==> p < self.accounts@.len() && self.accounts@[p as int].address@
                == address@,
            r is None ==> !self.has_account(address@),
    {
        if self.aliases.len() == 0 {
            proof {
                if self.has_account(address@) {
                    let i = choose|i: int|
                        0 <= i < self.accounts@.len() && self.accounts@[i].address@ == address@;
                    assert(alias_covers(self, i));
                }
            }
            return None;
        }
        let mut lo: usize = 0;
        let mut hi: usize = self.aliases.len();
        while lo < hi
            invariant
                self.wf(),
                address.wf(),
                lo <= hi <= self.aliases@.len(),
                forall|i: int|
                    0 <= i < lo ==> lex_lt((#[trigger] self.aliases@[i]).address@, address@),
                forall|i: int|
                    hi <= i < self.aliases@.len() ==> lex_lt(
                        address@,
                        (#[trigger] self.aliases@[i]).address@,
                    ),
            decreases hi - lo,
        {
            let mid = lo + (hi - lo) / 2;
            let probe = &self.aliases[mid];
            match addr_cmp(&probe.address, address) {
                AddrOrder::Less => {
                    proof {
                        assert forall|i: int| 0 <= i < mid + 1 implies lex_lt(
                            (#[trigger] self.aliases@[i]).address@,
                            address@,
                        ) by {
                            if i < mid {
                                if !lex_lt(self.aliases@[i].address@, address@) {
                                    assert(lex_le(
                                        self.aliases@[i].address@,
                                        self.aliases@[mid as int].address@,
                                    ));
                                    if lex_lt(
                                        self.aliases@[i].address@,
                                        self.aliases@[mid as int].address@,
                                    ) {
                                        lemma_lex_transitive(
                                            self.aliases@[i].address@,
                                            self.aliases@[mid as int].address@,
                                            address@,
                                        );
                                    }
                                }
                            }
                        }
                    }
                    lo = mid + 1;
                },
                AddrOrder::Greater => {
                    proof {
                        assert forall|i: int| mid <= i < self.aliases@.len() implies lex_lt(
                            address@,
                            (#[trigger] self.aliases@[i]).address@,
                        ) by {
                            if i > mid {
                                assert(lex_le(
                                    self.aliases@[mid as int].address@,
                                    self.aliases@[i].address@,
                                ));
                                if lex_lt(
                                    self.aliases@[mid as int].address@,
                                    self.aliases@[i].address@,
                                ) {
                                    lemma_lex_transitive(
                                        address@,
                                        self.aliases@[mid as int].address@,
                                        self.aliases@[i].address@,
                                    );
                                }
                            }
                        }
                    }
                    hi = mid;
                },
                AddrOrder::Equal => {
                    return Some(self.aliases[mid].position);
                },
            }
        }
        proof {
            if self.has_account(address@) {
                let p = choose|p: int|
                    0 <= p < self.accounts@.len() && self.accounts@[p].address@ == address@;
                assert(alias_covers(self, p));
                let i = choose|i: int|
                    0 <= i < self.aliases@.len() && (#[trigger] self.aliases@[i]).position == p;
                assert(self.aliases@[i].address@ == address@);
                if i < lo {
                    lemma_lex_irreflexive(address@);
                }
                if i >= hi {
                    lemma_lex_irreflexive(address@);
                }
            }
        }
        None
    }

    /// The projection backing an address, if one is present.
    pub fn get_account(&self, address: &Address) -> (r: Option<&Projection>)
        requires
            self.wf(),
            address.wf(),
        ensures
            r matches Some(p) ==> p.address@ == address@ && self.has_account(address@),
            r is None ==> !self.has_account(address@),
    {
        match self.find_account(address) {
            Some(pos) => Some(&self.accounts[pos]),
            None => None,
        }
    }

    /// Who initiated the invocation.
    pub fn get_sender(&self) -> (r: &Sender)
        ensures
            r == self.sender,
    {
        &self.sender
    }

    /// The contract's own projection, if its address resolves.
    pub fn get_contract_account(&self) -> (r: Option<&Projection>)
        requires
            self.wf(),
        ensures
            r matches Some(p) ==> p.address@ == self.contract_id@,
            r is None ==> !self.has_account(self.contract_id@),
    {
        let id = self.contract_id.clone();
        self.get_account(&id)
    }

    /// The caller's projection: present only for an Ethereum-originated
    /// sender whose address resolves.
    pub fn get_caller_account(&self) -> (r: Option<&Projection>)
        requires
            self.wf(),
        ensures
            self.sender is Solana ==> r is None,
            self.sender is Ethereum ==> r is Some,
            r matches Some(p) ==> self.sender matches Sender::Ethereum(a) && p.address@ == a@,
    {
        match &self.sender {
            Sender::Ethereum(addr) => {
                let a = addr.clone();
                self.get_account(&a)
            },
            Sender::Solana(_) => None,
        }
    }

    /// The contract's address.
    pub fn contract(&self) -> (r: Address)
        requires
            self.wf(),
        ensures
            r@ == self.contract_id@,
            r.wf(),
    {
        self.contract_id.clone()
    }

    /// The originating address, whichever identity stands behind it.
    pub fn origin(&self) -> (r: Address)
        requires
            self.wf(),
        ensures
            match self.sender {
                Sender::Ethereum(a) => r@ == a@,
                Sender::Solana(a) => r@ == a@,
            },
            r.wf(),
    {
        match &self.sender {
            Sender::Ethereum(a) => a.clone(),
            Sender::Solana(a) => a.clone(),
        }
    }

    /// The slot number the clock account showed when it was ingested.
    /// The invocation owns its accounts exclusively for its whole
    /// duration, so the clock account cannot change underneath it and the
    /// ingested value is indistinguishable from a live read, which this
    /// model cannot make without holding the account itself.
    pub fn block_number(&self) -> (r: u64)
        ensures
            r == self.clock_slot,
    {
        self.clock_slot
    }

    /// The timestamp the clock account showed when it was ingested; see
    /// `block_number` on why this equals a live read.
    pub fn block_timestamp(&self) -> (r: u64)
        ensures
            r == self.clock_timestamp,
    {
        self.clock_timestamp
    }
}

/// The Ethereum-account view a projection currently shows.
pub open spec fn proj_view(p: Projection) -> crate::substate::AcctView {
    crate::substate::AcctView {
        nonce: p.nonce,
        balance: p.balance,
        code: match p.code {
            Some(c) => c@,
            None => Seq::empty(),
        },
        storage: apply_slots(zero_slots(), p.storage@),
        deleted: false,
    }
}

/// Applies one committed diff to a view. A deletion marker applies no
/// mutation: whether self-destructed accounts are removed is left to a
/// separate collaborator.
pub open spec fn apply_effect_view(v: crate::substate::AcctView, d: AccountDiff) -> crate::substate::AcctView {
    crate::substate::AcctView {
        nonce: if d.nonce is Some {
            d.nonce.unwrap()
        } else {
            v.nonce
        },
        balance: if d.balance is Some {
            d.balance.unwrap()
        } else {
            v.balance
        },
        code: if d.code is Some {
            d.code.unwrap()@
        } else {
            v.code
        },
        storage: if d.reset_storage {
            apply_slots(zero_slots(), d.storage@)
        } else {
            apply_slots(v.storage, d.storage@)
        },
        deleted: v.deleted,
    }
}

/// Whether an effect is aimed at one of the reserved sink addresses,
/// which absorb effects without mutating anything.
pub open spec fn is_sink(a: Seq<u8>) -> bool {
    a == system_sink() || a == ecrecover_sink()
}

/// Folds a prefix of the effect list into the view of one address.
pub open spec fn apply_effects_to(v: crate::substate::AcctView, effs: Seq<Effect>, a: Seq<u8>) -> crate::substate::AcctView
    decreases effs.len(),
{
    if effs.len() == 0 {
        v
    } else {
        let prev = apply_effects_to(v, effs.drop_last(), a);
        if effs.last().address@ == a && !is_sink(a) {
            apply_effect_view(prev, effs.last().diff)
        } else {
            prev
        }
    }
}

/// A diff that records nothing but the deletion marker. Such an effect
/// is accepted without resolving its address and mutates nothing:
/// whether self-destructed accounts are removed is a separate
/// collaborator's concern.
pub open spec fn is_delete_marker(d: AccountDiff) -> bool {
    &&& d.deleted
    &&& d.nonce is None
    &&& d.balance is None
    &&& d.code is None
    &&& !d.reset_storage
    &&& d.storage@.len() == 0
}

/// Whether one effect can be committed against this resolver: a pure
/// deletion marker, a sink target, a resolvable address, or the
/// untracked identity of a native-signer sender.
pub open spec fn effect_ok(st: &ProgramAccountStorage, e: Effect) -> bool {
    ||| is_delete_marker(e.diff)
    ||| is_sink(e.address@)
    ||| st.has_account(e.address@)
    ||| (st.sender matches Sender::Solana(a) && a@ == e.address@)
}

/// The applied-prefix fact at a failing effect: everything before it
/// committed, nothing after.
pub open spec fn r_err_witness(
    pre: ProgramAccountStorage,
    post: ProgramAccountStorage,
    effs: Seq<Effect>,
    j: int,
) -> bool {
    &&& 0 <= j < effs.len()
    &&& !effect_ok(&pre, effs[j])
    &&& forall|kk: int| 0 <= kk < j ==> effect_ok(&pre, #[trigger] effs[kk])
    &&& (unique_addrs(pre.accounts@) ==> forall|i: int|
        0 <= i < pre.accounts@.len() ==> proj_view(#[trigger] post.accounts@[i])
            == apply_effects_to(proj_view(pre.accounts@[i]), effs.subrange(0, j), pre.accounts@[i].address@))
}

/// No two projections answer to one address.
pub open spec fn unique_addrs(projs: Seq<Projection>) -> bool {
    forall|i: int, j: int|
        0 <= i < j < projs.len() ==> (#[trigger] projs[i]).address@ != (
        #[trigger] projs[j]).address@
}

impl ProgramAccountStorage {
    /// Commits the final effect set. A pure deletion marker is accepted
    /// outright, without resolving its address, and mutates nothing.
    /// Every other effect resolves its target: the two reserved sinks
    /// absorb theirs, a resolvable target takes the diff exactly as
    /// recorded, an unresolved target equal to the native-signer
    /// sender's derived identity is a no-op, and any other unresolved
    /// target stops the walk with `NotEnoughAccountKeys`, leaving the
    /// effects before it applied.
    pub fn apply(&mut self, values: &Vec<Effect>, _delete_empty: bool) -> (r: Result<
        (),
        HostError,
    >)
        requires
            old(self).wf(),
            forall|k: int| 0 <= k < values@.len() ==> (#[trigger] values@[k]).address.wf(),
        ensures
            final(self).wf(),
            final(self).aliases == old(self).aliases,
            final(self).contract_id == old(self).contract_id,
            final(self).sender == old(self).sender,
            final(self).clock_slot == old(self).clock_slot,
            final(self).clock_timestamp == old(self).clock_timestamp,
            final(self).accounts@.len() == old(self).accounts@.len(),
            forall|i: int|
                0 <= i < old(self).accounts@.len() ==> (
                #[trigger] final(self).accounts@[i]).address@ == old(self).accounts@[i].address@
                    && final(self).accounts@[i].position == old(self).accounts@[i].position,
            (r is Ok) == (forall|k: int|
                0 <= k < values@.len() ==> effect_ok(old(self), #[trigger] values@[k])),
            r is Err ==> r == Result::<(), HostError>::Err(HostError::NotEnoughAccountKeys),
            r is Err ==> exists|j: int| #[trigger] r_err_witness(
                *old(self),
                *final(self),
                values@,
                j,
            ),
            r is Ok && unique_addrs(old(self).accounts@) ==> forall|i: int|
                0 <= i < old(self).accounts@.len() ==> proj_view(
                    #[trigger] final(self).accounts@[i],
                ) == apply_effects_to(
                    proj_view(old(self).accounts@[i]),
                    values@,
                    old(self).accounts@[i].address@,
                ),
    {
        let sink = system_sink_address();
        let sink_ec = ecrecover_sink_address();
        let n = values.len();
        let mut k: usize = 0;
        while k < n
            invariant
                self.wf(),
                n == values@.len(),
                k <= n,
                forall|kk: int| 0 <= kk < values@.len() ==> (#[trigger] values@[kk]).address.wf(),
                sink.wf(),
                sink@ == system_sink(),
                sink_ec.wf(),
                sink_ec@ == ecrecover_sink(),
                self.aliases == old(self).aliases,
                self.contract_id == old(self).contract_id,
                self.sender == old(self).sender,
                self.clock_slot == old(self).clock_slot,
                self.clock_timestamp == old(self).clock_timestamp,
                self.accounts@.len() == old(self).accounts@.len(),
                forall|i: int|
                    0 <= i < old(self).accounts@.len() ==> (
                    #[trigger] self.accounts@[i]).address@ == old(self).accounts@[i].address@
                        && self.accounts@[i].position == old(self).accounts@[i].position,
                forall|kk: int| 0 <= kk < k ==> effect_ok(old(self), #[trigger] values@[kk]),
                unique_addrs(old(self).accounts@) ==> forall|i: int|
                    0 <= i < old(self).accounts@.len() ==> proj_view(
                        #[trigger] self.accounts@[i],
                    ) == apply_effects_to(
                        proj_view(old(self).accounts@[i]),
                        values@.subrange(0, k as int),
                        old(self).accounts@[i].address@,
                    ),
            decreases n - k,
        {
            let e = &values[k];
            let ghost s0 = *self;
            proof {
                assert(values@.subrange(0, k as int + 1).drop_last() =~= values@.subrange(
                    0,
                    k as int,
                ));
                assert(values@.subrange(0, k as int + 1).last() == values@[k as int]);
            }
            let pure_deletion = e.diff.deleted && e.diff.nonce.is_none()
                && e.diff.balance.is_none() && e.diff.code.is_none() && !e.diff.reset_storage
                && e.diff.storage.len() == 0;
            if pure_deletion {
                proof {
                    assert forall|i: int|
                        0 <= i < old(self).accounts@.len() && unique_addrs(
                            old(self).accounts@,
                        ) implies proj_view(#[trigger] self.accounts@[i]) == apply_effects_to(
                        proj_view(old(self).accounts@[i]),
                        values@.subrange(0, k as int + 1),
                        old(self).accounts@[i].address@,
                    ) by {
                        let a = old(self).accounts@[i].address@;
                        let prev = apply_effects_to(
                            proj_view(old(self).accounts@[i]),
                            values@.subrange(0, k as int),
                            a,
                        );
                        if values@[k as int].address@ == a && !is_sink(a) {
                            assert(apply_slots(prev.storage, values@[k as int].diff.storage@)
                                == prev.storage);
                            assert(apply_effect_view(prev, values@[k as int].diff) == prev);
                        }
                    }
                }
                k += 1;
                continue;
            }
            if e.address.eq_addr(&sink) || e.address.eq_addr(&sink_ec) {
                k += 1;
                continue;
            }
            match self.find_account(&e.address) {
                Some(pos) => {
                    let ghost pre = self.accounts@;
                    let mut p = self.accounts.remove(pos);
                    let ghost p0 = p;
                    match e.diff.nonce {
                        Some(v) => {
                            p.nonce = v;
                        },
                        None => {},
                    }
                    match e.diff.balance {
                        Some(v) => {
                            p.balance = v;
                        },
                        None => {},
                    }
                    match &e.diff.code {
                        Some(c) => {
                            p.code = Some(clone_bytes(c));
                        },
                        None => {},
                    }
                    if e.diff.reset_storage {
                        let mut fresh: Vec<(u64, u64)> = Vec::new();
                        let mut si: usize = 0;
                        while si < e.diff.storage.len()
                            invariant
                                si <= e.diff.storage@.len(),
                                fresh@ == e.diff.storage@.subrange(0, si as int),
                                e == &values@[k as int],
                                k < values@.len(),
                            decreases e.diff.storage@.len() - si,
                        {
                            proof {
                                assert(e.diff.storage@.subrange(0, si as int + 1)
                                    =~= e.diff.storage@.subrange(0, si as int).push(
                                    e.diff.storage@[si as int],
                                ));
                            }
                            fresh.push(e.diff.storage[si]);
                            si += 1;
                        }
                        proof {
                            assert(e.diff.storage@.subrange(0, e.diff.storage@.len() as int)
                                =~= e.diff.storage@);
                        }
                        p.storage = fresh;
                    } else {
                        let mut si: usize = 0;
                        let ghost sto0 = p.storage@;
                        let ghost pmid = p;
                        while si < e.diff.storage.len()
                            invariant
                                si <= e.diff.storage@.len(),
                                p.storage@ == sto0 + e.diff.storage@.subrange(0, si as int),
                                p.nonce == pmid.nonce,
                                p.balance == pmid.balance,
                                p.code == pmid.code,
                                p.address == pmid.address,
                                p.position == pmid.position,
                                e == &values@[k as int],
                                k < values@.len(),
                            decreases e.diff.storage@.len() - si,
                        {
                            proof {
                                assert(sto0 + e.diff.storage@.subrange(0, si as int + 1) =~= (sto0
                                    + e.diff.storage@.subrange(0, si as int)).push(
                                    e.diff.storage@[si as int],
                                ));
                            }
                            p.storage.push(e.diff.storage[si]);
                            si += 1;
                        }
                        proof {
                            assert(sto0 + e.diff.storage@.subrange(
                                0,
                                e.diff.storage@.len() as int,
                            ) =~= sto0 + e.diff.storage@);
                        }
                    }
                    let ghost pf = p;
                    self.accounts.insert(pos, p);
                    proof {
                        assert(self.accounts@[pos as int] == pf);
                        assert(self.accounts@ =~= pre.update(pos as int, pf));
                        assert(pf.address@ == p0.address@);
                        assert forall|i: int| 0 <= i < self.aliases@.len() implies (
                        #[trigger] self.aliases@[i]).position < self.accounts@.len()
                            && self.accounts@[self.aliases@[i].position as int].address@
                            == self.aliases@[i].address@ by {
                            assert(s0.aliases@[i] == self.aliases@[i]);
                            assert(s0.accounts@[s0.aliases@[i].position as int].address@
                                == s0.aliases@[i].address@);
                        }
                        assert forall|q: int| 0 <= q < self.accounts@.len() implies #[trigger] alias_covers(
                            self,
                            q,
                        ) by {
                            assert(alias_covers(&s0, q));
                            let w = choose|i: int|
                                0 <= i < s0.aliases@.len() && (#[trigger] s0.aliases@[i]).position
                                    == q;
                            assert(self.aliases@[w].position == q);
                        }
                        if self.sender is Ethereum {
                            let sa = sender_addr(self.sender);
                            assert(s0.has_account(sa));
                            let w2 = choose|q: int|
                                0 <= q < s0.accounts@.len() && (#[trigger] s0.accounts@[q]).address@
                                    == sa;
                            assert(self.accounts@[w2].address@ == sa);
                            assert(self.has_account(sa));
                        }
                        crate::substate::lemma_apply_slots_concat(
                            zero_slots(),
                            p0.storage@,
                            e.diff.storage@,
                        );
                        let vnew = proj_view(self.accounts@[pos as int]);
                        let vexp = apply_effect_view(proj_view(p0), e.diff);
                        assert(vnew.nonce == vexp.nonce);
                        assert(vnew.balance == vexp.balance);
                        assert(vnew.code == vexp.code);
                        assert(vnew.storage == vexp.storage);
                        assert(vnew.deleted == vexp.deleted);
                        assert(vnew == vexp);
                        assert forall|i: int|
                            0 <= i < old(self).accounts@.len() && unique_addrs(
                                old(self).accounts@,
                            ) implies proj_view(#[trigger] self.accounts@[i])
                            == apply_effects_to(
                            proj_view(old(self).accounts@[i]),
                            values@.subrange(0, k as int + 1),
                            old(self).accounts@[i].address@,
                        ) by {
                            if i == pos {
                            } else {
                                assert(self.accounts@[i] == pre[i]);
                                assert(old(self).accounts@[i].address@ != old(
                                    self,
                                ).accounts@[pos as int].address@);
                            }
                        }
                    }
                },
                None => {
                    let skip_it = match &self.sender {
                        Sender::Solana(addr) => e.address.eq_addr(addr),
                        Sender::Ethereum(_) => false,
                    };
                    if !skip_it {
                        proof {
                            if old(self).has_account(e.address@) {
                                let w = choose|i: int|
                                    0 <= i < old(self).accounts@.len() && (#[trigger] old(
                                        self,
                                    ).accounts@[i]).address@ == e.address@;
                                assert(self.accounts@[w].address@ == e.address@);
                                assert(self.has_account(e.address@));
                            }
                            assert(!effect_ok(old(self), values@[k as int]));
                        }
                        assert(r_err_witness(*old(self), *self, values@, k as int)) by {
                            assert(!effect_ok(old(self), values@[k as int]));
                        }
                        return Err(HostError::NotEnoughAccountKeys);
                    }
                    proof {
                        assert forall|i: int|
                            0 <= i < old(self).accounts@.len() && unique_addrs(
                                old(self).accounts@,
                            ) implies proj_view(#[trigger] self.accounts@[i])
                            == apply_effects_to(
                            proj_view(old(self).accounts@[i]),
                            values@.subrange(0, k as int + 1),
                            old(self).accounts@[i].address@,
                        ) by {}
                    }
                },
            }
            k += 1;
        }
        proof {
            assert(values@.subrange(0, n as int) =~= values@);
        }
        Ok(())
    }
}

/// Whether some alias record in the list names position `p`.
pub open spec fn pos_named(als: Seq<AliasEntry>, p: int) -> bool {
    exists|i: int| 0 <= i < als.len() && (#[trigger] als[i]).position == p
}

/// Pushing one projection and its alias record keeps the index linked.
proof fn lemma_linked_push(
    projs0: Seq<Projection>,
    als0: Seq<AliasEntry>,
    projs1: Seq<Projection>,
    als1: Seq<AliasEntry>,
    a: Seq<u8>,
    p: usize,
)
    requires
        ProgramAccountStorage::linked(projs0, als0),
        p == projs0.len(),
        projs1.len() == projs0.len() + 1,
        forall|i: int| 0 <= i < projs0.len() ==> #[trigger] projs1[i] == projs0[i],
        projs1[p as int].address@ == a,
        projs1[p as int].address.wf(),
        als1.len() == als0.len() + 1,
        forall|i: int|
            0 <= i < als1.len() ==> (((#[trigger] als1[i]).address@ == a && als1[i].position == p)
                || exists|j: int| 0 <= j < als0.len() && als1[i] == als0[j]),
        exists|i: int|
            0 <= i < als1.len() && (#[trigger] als1[i]).address@ == a && als1[i].position == p,
        forall|j: int|
            0 <= j < als0.len() ==> exists|i: int|
                0 <= i < als1.len() && (#[trigger] als1[i]) == (#[trigger] als0[j]),
    ensures
        ProgramAccountStorage::linked(projs1, als1),
{
    assert forall|i: int| 0 <= i < als1.len() implies (#[trigger] als1[i]).position
        < projs1.len() && projs1[als1[i].position as int].address@ == als1[i].address@ by {
        if als1[i].address@ == a && als1[i].position == p {
        } else {
            let j = choose|j: int| 0 <= j < als0.len() && als1[i] == als0[j];
            assert(als0[j].position < projs0.len());
            assert(projs1[als0[j].position as int] == projs0[als0[j].position as int]);
        }
    }
    assert forall|q: int| 0 <= q < projs1.len() implies #[trigger] pos_named(als1, q) by {
        if q == p as int {
            let w = choose|i: int|
                0 <= i < als1.len() && (#[trigger] als1[i]).address@ == a && als1[i].position
                    == p;
            assert(als1[w].position == q);
        } else {
            assert(pos_named(als0, q));
            let j = choose|j: int| 0 <= j < als0.len() && (#[trigger] als0[j]).position == q;
            let w = choose|i: int|
                0 <= i < als1.len() && (#[trigger] als1[i]) == (#[trigger] als0[j]);
            assert(als1[w].position == q);
        }
    }
    assert forall|i: int| 0 <= i < projs1.len() implies (#[trigger] projs1[i]).address.wf() by {
        if i < projs0.len() {
            assert(projs1[i] == projs0[i]);
        }
    }
}

/// Inserts one alias record at its sorted position.

#[verifier::rlimit(100)]
#[verifier::spinoff_prover]
fn push_sorted(als: &mut Vec<AliasEntry>, a: Address, p: usize)
    requires
        a.wf(),
        forall|i: int| 0 <= i < old(als)@.len() ==> (#[trigger] old(als)@[i]).address.wf(),
        forall|i: int, j: int|
            0 <= i <= j < old(als)@.len() ==> lex_le(
                (#[trigger] old(als)@[i]).address@,
                (#[trigger] old(als)@[j]).address@,
            ),
    ensures
        final(als)@.len() == old(als)@.len() + 1,
        forall|i: int| 0 <= i < final(als)@.len() ==> (#[trigger] final(als)@[i]).address.wf(),
        forall|i: int, j: int|
            0 <= i <= j < final(als)@.len() ==> lex_le(
                (#[trigger] final(als)@[i]).address@,
                (#[trigger] final(als)@[j]).address@,
            ),
        forall|i: int|
            0 <= i < final(als)@.len() ==> ((#[trigger] final(als)@[i]).address@ == a@ && final(als)@[i].position == p) || exists|j: int|
                0 <= j < old(als)@.len() && final(als)@[i] == old(als)@[j],
        exists|i: int|
            0 <= i < final(als)@.len() && (#[trigger] final(als)@[i]).address@ == a@ && final(als)@[i].position == p,
        forall|j: int|
            0 <= j < old(als)@.len() ==> exists|i: int|
                0 <= i < final(als)@.len() && (#[trigger] final(als)@[i]) == (#[trigger] old(
                    als,
                )@[j]),
{
    let mut j: usize = 0;
    while j < als.len() && !matches!(addr_cmp(&als[j].address, &a), AddrOrder::Greater)
        invariant
            j <= als@.len(),
            a.wf(),
            als@ == old(als)@,
            forall|i: int| 0 <= i < als@.len() ==> (#[trigger] als@[i]).address.wf(),
            forall|i: int, j2: int|
                0 <= i <= j2 < als@.len() ==> lex_le(
                    (#[trigger] als@[i]).address@,
                    (#[trigger] als@[j2]).address@,
                ),
            forall|i: int| 0 <= i < j ==> lex_le((#[trigger] als@[i]).address@, a@),
        decreases als@.len() - j,
    {
        j += 1;
    }
    let ghost pre = als@;
    let ghost jj = j as int;
    let ghost newe = AliasEntry { address: a, position: p };
    proof {
        if jj < pre.len() {
            assert(lex_lt(a@, pre[jj].address@));
        }
    }
    als.insert(j, AliasEntry { address: a, position: p });
    proof {
        assert(als@ == pre.insert(jj, newe));
        assert(als@[jj] == newe);
        assert forall|i: int, j2: int| 0 <= i <= j2 < als@.len() implies lex_le(
            (#[trigger] als@[i]).address@,
            (#[trigger] als@[j2]).address@,
        ) by {
            let x1: AliasEntry = if i < jj {
                pre[i]
            } else if i == jj {
                newe
            } else {
                pre[i - 1]
            };
            let x2: AliasEntry = if j2 < jj {
                pre[j2]
            } else if j2 == jj {
                newe
            } else {
                pre[j2 - 1]
            };
            assert(als@[i] == x1);
            assert(als@[j2] == x2);
            if i == jj && j2 > jj {
                if jj < pre.len() {
                    if lex_lt(a@, pre[jj].address@) && jj <= j2 - 1 {
                        if jj < j2 - 1 {
                            assert(lex_le(pre[jj].address@, pre[j2 - 1].address@));
                            if lex_lt(pre[jj].address@, pre[j2 - 1].address@) {
                                crate::addr::lemma_lex_transitive(
                                    a@,
                                    pre[jj].address@,
                                    pre[j2 - 1].address@,
                                );
                            }
                        }
                    }
                }
            }
            if i < jj && j2 == jj {
                assert(lex_le(pre[i].address@, a@));
            }
        }
        assert forall|i: int| 0 <= i < als@.len() implies ((#[trigger] als@[i]).address@ == a@
            && als@[i].position == p) || exists|j2: int|
            0 <= j2 < pre.len() && als@[i] == pre[j2] by {
            if i < jj {
                assert(als@[i] == pre[i]);
            } else if i > jj {
                assert(als@[i] == pre[i - 1]);
            }
        }
        assert forall|j2: int| 0 <= j2 < pre.len() implies exists|i: int|
            0 <= i < als@.len() && (#[trigger] als@[i]) == (#[trigger] pre[j2]) by {
            if j2 < jj {
                assert(als@[j2] == pre[j2]);
            } else {
                assert(als@[j2 + 1] == pre[j2]);
            }
        }
    }
}

impl ProgramAccountStorage {
    /// Builds the resolver from the positional account list: position 0
    /// is the contract account, position 1 its code account, position 2
    /// the caller, and the remaining accounts — each owned one optionally
    /// followed by its code account — are interleaved with exactly one
    /// clock account. The alias index is frozen sorted by address.
    ///
    /// The contract mirrors the convention exactly through
    /// `construct_check`: construction succeeds precisely on lists the
    /// convention admits, and each malformed wiring yields its error —
    /// `InvalidArgument` for a wrongly-owned leading or companion account
    /// and for an unsigned foreign caller, `InvalidAccountData` for a
    /// payload contradicting its position or its companion's key,
    /// `NotEnoughAccountKeys` for a missing account or a missing clock.
    /// On success the contract and caller projections carry exactly the
    /// recorded data, and the sender is the ingested caller's address or
    /// the foreign signer's derived identity.
    pub fn new(program_id: &Vec<u8>, accounts: &Vec<RawAccount>) -> (r: Result<
        ProgramAccountStorage,
        HostError,
    >)
        ensures
            construct_check(accounts@, program_id@) matches Some(e) ==> r
                == Result::<ProgramAccountStorage, HostError>::Err(e),
            construct_check(accounts@, program_id@) is None ==> r is Ok,
            r matches Ok(st) ==> {
                &&& st.wf()
                &&& st.accounts@.len() >= 1
                &&& st.contract_id@ == rec_ether(accounts@[0].data)
                &&& st.accounts@[0].address@ == rec_ether(accounts@[0].data)
                &&& st.accounts@[0].nonce == rec_nonce(accounts@[0].data)
                &&& st.accounts@[0].balance == rec_balance(accounts@[0].data)
                &&& proj_code(st.accounts@[0]) == Some(con_code(accounts@[1].data))
                &&& st.accounts@[0].storage@ == con_storage(accounts@[1].data)
                &&& (accounts@[2].owner@ == program_id@ ==> {
                    &&& st.sender is Ethereum
                    &&& sender_addr(st.sender) == rec_ether(accounts@[2].data)
                    &&& st.has_account(rec_ether(accounts@[2].data))
                    &&& st.accounts@.len() >= 2
                    &&& st.accounts@[1].address@ == rec_ether(accounts@[2].data)
                    &&& st.accounts@[1].nonce == rec_nonce(accounts@[2].data)
                    &&& st.accounts@[1].balance == rec_balance(accounts@[2].data)
                    &&& proj_code(st.accounts@[1]) is None
                })
                &&& (accounts@[2].owner@ != program_id@ ==> {
                    &&& accounts@[2].is_signer
                    &&& st.sender is Solana
                    &&& sender_addr(st.sender) == crate::hashing::keccak_of(
                        accounts@[2].key@,
                    ).skip(12)
                })
                &&& exists|q: int|
                    3 <= q < accounts@.len() && (#[trigger] accounts@[q]).data is Clock
            },
    {
        if accounts.len() < 2 {
            return Err(HostError::NotEnoughAccountKeys);
        }
        let a0 = &accounts[0];
        let a1 = &accounts[1];
        if !eq_bytes(&a0.owner, program_id) || !eq_bytes(&a1.owner, program_id) {
            return Err(HostError::InvalidArgument);
        }
        let (ether0, code_key0, nonce0, balance0) = match &a0.data {
            AccountData::Account { ether, code_key, nonce, balance } => (
                ether.clone(),
                clone_bytes(code_key),
                *nonce,
                *balance,
            ),
            _ => {
                return Err(HostError::InvalidAccountData);
            },
        };
        if ether0.bytes.len() != crate::addr::ADDRESS_LEN {
            return Err(HostError::InvalidAccountData);
        }
        if !eq_bytes(&code_key0, &a1.key) {
            return Err(HostError::InvalidAccountData);
        }
        let (code0, storage0) = match &a1.data {
            AccountData::Contract { code, storage } => (clone_bytes(code), storage),
            _ => {
                return Err(HostError::InvalidAccountData);
            },
        };
        let mut sto0: Vec<(u64, u64)> = Vec::new();
        let mut sq: usize = 0;
        while sq < storage0.len()
            invariant
                sq <= storage0@.len(),
                sto0@ == storage0@.subrange(0, sq as int),
            decreases storage0@.len() - sq,
        {
            proof {
                assert(storage0@.subrange(0, sq as int + 1) =~= storage0@.subrange(
                    0,
                    sq as int,
                ).push(storage0@[sq as int]));
            }
            sto0.push(storage0[sq]);
            sq += 1;
        }
        proof {
            assert(sto0@ =~= storage0@);
        }
        let contract_id = ether0.clone();
        let mut projections: Vec<Projection> = Vec::new();
        let mut aliases: Vec<AliasEntry> = Vec::new();
        let ghost projs0 = projections@;
        let ghost als0 = aliases@;
        projections.push(
            Projection {
                address: ether0.clone(),
                nonce: nonce0,
                balance: balance0,
                code: Some(code0),
                storage: sto0,
                position: 0,
            },
        );
        let ghost av = ether0@;
        push_sorted(&mut aliases, ether0, 0);
        proof {
            assert(Self::linked(projs0, als0));
            lemma_linked_push(projs0, als0, projections@, aliases@, av, 0);
        }
        if accounts.len() < 3 {
            return Err(HostError::NotEnoughAccountKeys);
        }
        let caller = &accounts[2];
        let sender: Sender;
        if eq_bytes(&caller.owner, program_id) {
            let (ec, nc, bc) = match &caller.data {
                AccountData::Account { ether, code_key, nonce, balance } => (
                    ether.clone(),
                    *nonce,
                    *balance,
                ),
                _ => {
                    return Err(HostError::InvalidAccountData);
                },
            };
            if ec.bytes.len() != crate::addr::ADDRESS_LEN {
                return Err(HostError::InvalidAccountData);
            }
            let pos = projections.len();
            let ghost projs1 = projections@;
            let ghost als1 = aliases@;
            projections.push(
                Projection {
                    address: ec.clone(),
                    nonce: nc,
                    balance: bc,
                    code: None,
                    storage: Vec::new(),
                    position: pos,
                },
            );
            sender = Sender::Ethereum(ec.clone());
            let ghost ecv = ec@;
            push_sorted(&mut aliases, ec, pos);
            proof {
                lemma_linked_push(projs1, als1, projections@, aliases@, ecv, pos);
                assert(projections@[1].address@ == rec_ether(accounts@[2].data));
            }
        } else {
            if !caller.is_signer {
                return Err(HostError::InvalidArgument);
            }
            sender = Sender::Solana(derive_from_signer_key(&caller.key));
        }
        proof {
            assert(Self::linked(projections@, aliases@));
            assert(construct_check(accounts@, program_id@) == finish_scan(
                false,
                tail_scan(accounts@, program_id@, 3),
            ));
        }
        let mut clock: Option<(u64, u64)> = None;
        let ghost mut clock_at: int = 0;
        let mut i: usize = 3;
        while i < accounts.len()
            invariant
                3 <= i <= accounts@.len(),
                accounts@.len() >= 3,
                Self::linked(projections@, aliases@),
                contract_id.wf(),
                match sender {
                    Sender::Ethereum(sa) => sa.wf() && exists|q: int|
                        0 <= q < projections@.len() && (#[trigger] projections@[q]).address@
                            == sa@,
                    Sender::Solana(sa) => sa.wf(),
                },
                projections@.len() >= 1,
                projections@[0].address@ == contract_id@,
                contract_id@ == rec_ether(accounts@[0].data),
                projections@[0].nonce == rec_nonce(accounts@[0].data),
                projections@[0].balance == rec_balance(accounts@[0].data),
                proj_code(projections@[0]) == Some(con_code(accounts@[1].data)),
                projections@[0].storage@ == con_storage(accounts@[1].data),
                accounts@[2].owner@ == program_id@ ==> {
                    &&& sender is Ethereum
                    &&& sender_addr(sender) == rec_ether(accounts@[2].data)
                    &&& projections@.len() >= 2
                    &&& projections@[1].address@ == rec_ether(accounts@[2].data)
                    &&& projections@[1].nonce == rec_nonce(accounts@[2].data)
                    &&& projections@[1].balance == rec_balance(accounts@[2].data)
                    &&& proj_code(projections@[1]) is None
                },
                accounts@[2].owner@ != program_id@ ==> {
                    &&& accounts@[2].is_signer
                    &&& sender is Solana
                    &&& sender_addr(sender) == crate::hashing::keccak_of(
                        accounts@[2].key@,
                    ).skip(12)
                },
                clock is Some ==> 3 <= clock_at < accounts@.len() && accounts@[clock_at].data
                    is Clock,
                construct_check(accounts@, program_id@) == finish_scan(
                    clock is Some,
                    tail_scan(accounts@, program_id@, i as int),
                ),
                forall|q: int| 0 <= q < aliases@.len() ==> (#[trigger] aliases@[q]).address.wf(),
                forall|q: int, q2: int|
                    0 <= q <= q2 < aliases@.len() ==> lex_le(
                        (#[trigger] aliases@[q]).address@,
                        (#[trigger] aliases@[q2]).address@,
                    ),
            decreases accounts@.len() - i,
        {
            let acc = &accounts[i];
            if eq_bytes(&acc.owner, program_id) {
                match &acc.data {
                    AccountData::Account { ether, code_key, nonce, balance } => {
                        let ea = ether.clone();
                        if ea.bytes.len() != crate::addr::ADDRESS_LEN {
                            proof {
                                assert(tail_scan(accounts@, program_id@, i as int) == Result::<
                                    bool,
                                    HostError,
                                >::Err(HostError::InvalidAccountData));
                            }
                            return Err(HostError::InvalidAccountData);
                        }
                        let mut zero = true;
                        let mut zi: usize = 0;
                        while zi < code_key.len()
                            invariant
                                zi <= code_key@.len(),
                                zero == (forall|j: int|
                                    0 <= j < zi ==> (#[trigger] code_key@[j]) == 0),
                            decreases code_key@.len() - zi,
                        {
                            if code_key[zi] != 0 {
                                zero = false;
                            }
                            zi += 1;
                        }
                        proof {
                            assert(zero == is_zero_key(code_key@));
                        }
                        if zero {
                            let pos = projections.len();
                            let ghost projs1 = projections@;
                            let ghost als1 = aliases@;
                            projections.push(
                                Projection {
                                    address: ea.clone(),
                                    nonce: *nonce,
                                    balance: *balance,
                                    code: None,
                                    storage: Vec::new(),
                                    position: pos,
                                },
                            );
                            let ghost eav = ea@;
                            push_sorted(&mut aliases, ea, pos);
                            proof {
                                lemma_linked_push(projs1, als1, projections@, aliases@, eav, pos);
                                if sender is Ethereum {
                                    let sa = sender_addr(sender);
                                    let w = choose|q: int|
                                        0 <= q < projs1.len() && (#[trigger] projs1[q]).address@
                                            == sa;
                                    assert(projections@[w] == projs1[w]);
                                }
                                assert(tail_scan(accounts@, program_id@, i as int) == tail_scan(
                                    accounts@,
                                    program_id@,
                                    i as int + 1,
                                ));
                            }
                            i += 1;
                        } else {
                            if i + 1 >= accounts.len() {
                                proof {
                                    assert(tail_scan(accounts@, program_id@, i as int)
                                        == Result::<bool, HostError>::Err(
                                        HostError::NotEnoughAccountKeys,
                                    ));
                                }
                                return Err(HostError::NotEnoughAccountKeys);
                            }
                            let ci = &accounts[i + 1];
                            if !eq_bytes(&ci.owner, program_id) {
                                proof {
                                    assert(tail_scan(accounts@, program_id@, i as int)
                                        == Result::<bool, HostError>::Err(
                                        HostError::InvalidArgument,
                                    ));
                                }
                                return Err(HostError::InvalidArgument);
                            }
                            if !eq_bytes(code_key, &ci.key) {
                                proof {
                                    assert(tail_scan(accounts@, program_id@, i as int)
                                        == Result::<bool, HostError>::Err(
                                        HostError::InvalidAccountData,
                                    ));
                                }
                                return Err(HostError::InvalidAccountData);
                            }
                            let (cc, cs) = match &ci.data {
                                AccountData::Contract { code, storage } => (
                                    clone_bytes(code),
                                    storage,
                                ),
                                _ => {
                                    proof {
                                        assert(tail_scan(accounts@, program_id@, i as int)
                                            == Result::<bool, HostError>::Err(
                                            HostError::InvalidAccountData,
                                        ));
                                    }
                                    return Err(HostError::InvalidAccountData);
                                },
                            };
                            let mut sto: Vec<(u64, u64)> = Vec::new();
                            let mut sq2: usize = 0;
                            while sq2 < cs.len()
                                invariant
                                    sq2 <= cs@.len(),
                                decreases cs@.len() - sq2,
                            {
                                sto.push(cs[sq2]);
                                sq2 += 1;
                            }
                            let pos = projections.len();
                            let ghost projs1 = projections@;
                            let ghost als1 = aliases@;
                            projections.push(
                                Projection {
                                    address: ea.clone(),
                                    nonce: *nonce,
                                    balance: *balance,
                                    code: Some(cc),
                                    storage: sto,
                                    position: pos,
                                },
                            );
                            let ghost eav = ea@;
                            push_sorted(&mut aliases, ea, pos);
                            proof {
                                lemma_linked_push(projs1, als1, projections@, aliases@, eav, pos);
                                if sender is Ethereum {
                                    let sa = sender_addr(sender);
                                    let w = choose|q: int|
                                        0 <= q < projs1.len() && (#[trigger] projs1[q]).address@
                                            == sa;
                                    assert(projections@[w] == projs1[w]);
                                }
                                assert(tail_scan(accounts@, program_id@, i as int) == tail_scan(
                                    accounts@,
                                    program_id@,
                                    i as int + 2,
                                ));
                            }
                            i += 2;
                        }
                    },
                    _ => {
                        proof {
                            assert(tail_scan(accounts@, program_id@, i as int) == tail_scan(
                                accounts@,
                                program_id@,
                                i as int + 1,
                            ));
                        }
                        i += 1;
                    },
                }
            } else {
                match &acc.data {
                    AccountData::Clock { slot, unix_timestamp } => {
                        clock = Some((*slot, *unix_timestamp));
                        proof {
                            clock_at = i as int;
                            let t1 = tail_scan(accounts@, program_id@, i as int + 1);
                            match t1 {
                                Ok(b) => {
                                    assert(tail_scan(accounts@, program_id@, i as int)
                                        == Result::<bool, HostError>::Ok(true));
                                },
                                Err(e) => {
                                    assert(tail_scan(accounts@, program_id@, i as int)
                                        == Result::<bool, HostError>::Err(e));
                                },
                            }
                        }
                    },
                    _ => {
                        proof {
                            assert(tail_scan(accounts@, program_id@, i as int) == tail_scan(
                                accounts@,
                                program_id@,
                                i as int + 1,
                            ));
                        }
                    },
                }
                i += 1;
            }
        }
        proof {
            assert(tail_scan(accounts@, program_id@, i as int) == Result::<bool, HostError>::Ok(
                false,
            ));
        }
        let (clock_slot, clock_timestamp) = match clock {
            Some(c) => c,
            None => {
                return Err(HostError::NotEnoughAccountKeys);
            },
        };
        let st = ProgramAccountStorage {
            accounts: projections,
            aliases,
            contract_id,
            sender,
            clock_slot,
            clock_timestamp,
        };
        proof {
            assert forall|p: int| 0 <= p < st.accounts@.len() implies #[trigger] alias_covers(
                &st,
                p,
            ) by {
                assert(Self::linked(st.accounts@, st.aliases@));
                assert(pos_named(st.aliases@, p));
                let w = choose|i2: int|
                    0 <= i2 < st.aliases@.len() && (#[trigger] st.aliases@[i2]).position == p;
                assert(0 <= w < st.aliases@.len() && st.aliases@[w].position == p);
                assert(alias_covers(&st, p));
            }
            assert(accounts@[clock_at].data is Clock);
        }
        Ok(st)
    }

    /// The alias set names exactly the projection positions, each with
    /// its projection's address.
    pub open spec fn linked(projs: Seq<Projection>, als: Seq<AliasEntry>) -> bool {
        &&& als.len() == projs.len()
        &&& forall|i: int|
            0 <= i < als.len() ==> (#[trigger] als[i]).position < projs.len()
                && projs[als[i].position as int].address@ == als[i].address@
        &&& forall|p: int| 0 <= p < projs.len() ==> #[trigger] pos_named(als, p)
        &&& forall|i: int| 0 <= i < projs.len() ==> (#[trigger] projs[i]).address.wf()
    }
}

/// Turns a terminated substate — only its accumulator layer left — into
/// the final effect set: one effect per recorded entry, in order.
pub fn take_effects(state: ExecutorState) -> (r: Vec<Effect>)
    requires
        state.wf(),
        state.layers@.len() == 1,
    ensures
        r@.len() == state.chain().len(),
        forall|i: int|
            0 <= i < r@.len() ==> (#[trigger] r@[i]).address@ == state.chain()[i].address@
                && r@[i].diff == state.chain()[i].diff,
        forall|i: int| 0 <= i < r@.len() ==> (#[trigger] r@[i]).address.wf(),
{
    let mut layers = state.layers;
    let base = layers.pop().unwrap();
    let ghost chain0 = entries_chain(state.layers@);
    proof {
        assert(state.layers@.drop_last() =~= Seq::<crate::substate::Layer>::empty());
        assert(entries_chain(state.layers@.drop_last()) == Seq::<LayerEntry>::empty());
        assert(chain0 =~= base.entries@);
    }
    let mut entries = base.entries;
    let ghost es0 = entries@;
    let mut r: Vec<Effect> = Vec::new();
    while entries.len() > 0
        invariant
            r@.len() + entries@.len() == es0.len(),
            entries@ == es0.skip(r@.len() as int),
            forall|i: int|
                0 <= i < r@.len() ==> (#[trigger] r@[i]).address@ == es0[i].address@ && r@[i].diff
                    == es0[i].diff,
            forall|i: int| 0 <= i < es0.len() ==> (#[trigger] es0[i]).address.wf(),
        decreases entries@.len(),
    {
        let e = entries.remove(0);
        proof {
            assert(es0.skip(r@.len() as int)[0] == es0[r@.len() as int]);
            assert(es0.skip(r@.len() as int).remove(0) =~= es0.skip(r@.len() as int + 1));
        }
        r.push(Effect { address: e.address, diff: e.diff });
        proof {
            assert(entries@ =~= es0.skip(r@.len() as int));
        }
    }
    proof {
        assert(es0.skip(0) =~= es0);
    }
    r
}

} // verus!
