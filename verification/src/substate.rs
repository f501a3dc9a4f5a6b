//! Nested transactional substate: a stack of diff layers over a read-only
//! account backend.
//!
//! Each frame of the orchestrator owns one layer; a layer records pending
//! nonce/balance/code/storage/log/deletion changes. Reads resolve through
//! the layers, most recent write first, and fall back to the backend.
//! Exiting a region either commits (folds the layer into its parent),
//! reverts or discards (drops the layer): afterwards exactly the pre-entry
//! state is visible again.
//!
//! The specification view folds the concatenated entry chain of all layers
//! over the backend's view of an address (`acct_view`); committing appends
//! the child's entries to the parent's and therefore leaves the chain — and
//! with it every read — unchanged.

use vstd::prelude::*;
use crate::addr::Address;
use crate::bytes::clone_bytes;

verus! {

/// One backing account as the backend exposes it to the interpreter.
#[verifier::ext_equal]
pub struct BackendAccount {
    pub address: Address,
    pub nonce: u64,
    pub balance: u64,
    pub code: Vec<u8>,
    pub storage: Vec<(u64, u64)>,
}

/// The read-only world below the substate: initial account states and the
/// block-level metadata of the current invocation.
#[verifier::ext_equal]
pub struct Backend {
    pub accounts: Vec<BackendAccount>,
    pub origin: Address,
    pub coinbase: Address,
    pub block_number: u64,
    pub block_timestamp: u64,
    pub block_difficulty: u64,
    pub block_gas_limit: u64,
    pub chain_id: u64,
    pub gas_price: u64,
}

/// Pending changes of one entry for one address.
#[verifier::ext_equal]
pub struct AccountDiff {
    pub nonce: Option<u64>,
    pub balance: Option<u64>,
    pub code: Option<Vec<u8>>,
    pub storage: Vec<(u64, u64)>,
    pub reset_storage: bool,
    pub deleted: bool,
}

/// One recorded change set for one address inside a layer.
#[verifier::ext_equal]
pub struct LayerEntry {
    pub address: Address,
    pub diff: AccountDiff,
}

/// An emitted log record.
#[verifier::ext_equal]
pub struct LogEntry {
    pub address: Address,
    pub topics: Vec<Vec<u8>>,
    pub data: Vec<u8>,
}

/// One transactional region: entries in write order plus emitted logs.
#[verifier::ext_equal]
pub struct Layer {
    pub entries: Vec<LayerEntry>,
    pub logs: Vec<LogEntry>,
}

/// The substate stack over its backend. The bottom layer accumulates the
/// whole invocation's changes; each further layer belongs to one frame.
#[verifier::ext_equal]
pub struct ExecutorState {
    pub backend: Backend,
    pub layers: Vec<Layer>,
}

/// The resolved state of one address: what the interpreter observes.
pub struct AcctView {
    pub nonce: u64,
    pub balance: u64,
    pub code: Seq<u8>,
    pub storage: Map<u64, u64>,
    pub deleted: bool,
}

/// Storage with every slot zero.
pub open spec fn zero_slots() -> Map<u64, u64> {
    Map::new(|k: u64| true, |k: u64| 0u64)
}

/// Applies a sequence of slot writes, later writes winning.
pub open spec fn apply_slots(m: Map<u64, u64>, sto: Seq<(u64, u64)>) -> Map<u64, u64>
    decreases sto.len(),
{
    if sto.len() == 0 {
        m
    } else {
        apply_slots(m, sto.drop_last()).insert(sto.last().0, sto.last().1)
    }
}

/// Applies one recorded diff to a resolved view.
pub open spec fn apply_diff(v: AcctView, d: AccountDiff) -> AcctView {
    AcctView {
        nonce: if d.nonce is Some {
            d.nonce.unwrap()
        } else {
            v.nonce
        },
        balance: if d.balance is Some {
            d.balance.unwrap()
        } else {
            v.balance
        },
        code: if d.code is Some {
            d.code.unwrap()@
        } else {
            v.code
        },
        storage: if d.reset_storage {
            apply_slots(zero_slots(), d.storage@)
        } else {
            apply_slots(v.storage, d.storage@)
        },
        deleted: v.deleted || d.deleted,
    }
}

/// Folds a chain of entries over a base view, keeping only the entries of
/// the given address.
pub open spec fn acct_view(es: Seq<LayerEntry>, a: Seq<u8>, base: AcctView) -> AcctView
    decreases es.len(),
{
    if es.len() == 0 {
        base
    } else {
        let prev = acct_view(es.drop_last(), a, base);
        if es.last().address@ == a {
            apply_diff(prev, es.last().diff)
        } else {
            prev
        }
    }
}

/// Whether some entry of the chain concerns the address.
pub open spec fn chain_has(es: Seq<LayerEntry>, a: Seq<u8>) -> bool {
    exists|i: int| 0 <= i < es.len() && es[i].address@ == a
}

/// First backing account with the given address, if any.
pub open spec fn find_backend(accs: Seq<BackendAccount>, a: Seq<u8>) -> Option<BackendAccount>
    decreases accs.len(),
{
    if accs.len() == 0 {
        None
    } else if accs[0].address@ == a {
        Some(accs[0])
    } else {
        find_backend(accs.drop_first(), a)
    }
}

/// The view an address has before any pending change is applied.
pub open spec fn base_view(bk: Backend, a: Seq<u8>) -> AcctView {
    match find_backend(bk.accounts@, a) {
        Some(acc) => AcctView {
            nonce: acc.nonce,
            balance: acc.balance,
            code: acc.code@,
            storage: apply_slots(zero_slots(), acc.storage@),
            deleted: false,
        },
        None => AcctView {
            nonce: 0,
            balance: 0,
            code: Seq::empty(),
            storage: zero_slots(),
            deleted: false,
        },
    }
}

/// Entry chain of a layer stack, oldest layer first.
pub open spec fn entries_chain(layers: Seq<Layer>) -> Seq<LayerEntry>
    decreases layers.len(),
{
    if layers.len() == 0 {
        Seq::empty()
    } else {
        entries_chain(layers.drop_last()) + layers.last().entries@
    }
}

/// Log chain of a layer stack, oldest layer first.
pub open spec fn logs_chain(layers: Seq<Layer>) -> Seq<LogEntry>
    decreases layers.len(),
{
    if layers.len() == 0 {
        Seq::empty()
    } else {
        logs_chain(layers.drop_last()) + layers.last().logs@
    }
}

impl ExecutorState {
    /// Every address recorded anywhere is 20 bytes long.
    pub open spec fn wf(&self) -> bool {
        &&& self.layers@.len() >= 1
        &&& forall|i: int| 0 <= i < self.backend.accounts@.len() ==> (
        #[trigger] self.backend.accounts@[i]).address.wf()
        &&& self.backend.origin.wf()
        &&& self.backend.coinbase.wf()
        &&& forall|i: int, j: int|
            0 <= i < self.layers@.len() && 0 <= j < self.layers@[i].entries@.len() ==> (
            #[trigger] self.layers@[i].entries@[j]).address.wf()
        &&& forall|i: int, j: int|
            0 <= i < self.layers@.len() && 0 <= j < self.layers@[i].logs@.len() ==> (
            #[trigger] self.layers@[i].logs@[j]).address.wf()
    }

    /// The full entry chain of this state.
    pub open spec fn chain(&self) -> Seq<LayerEntry> {
        entries_chain(self.layers@)
    }

    /// The resolved view of one address.
    pub open spec fn acct(&self, a: Seq<u8>) -> AcctView {
        acct_view(self.chain(), a, base_view(self.backend, a))
    }

    /// Whether the address has any recorded state at all.
    pub open spec fn known(&self, a: Seq<u8>) -> bool {
        find_backend(self.backend.accounts@, a) is Some || chain_has(self.chain(), a)
    }

    /// Whether the address's resolved state is empty.
    pub open spec fn is_empty_acct(&self, a: Seq<u8>) -> bool {
        self.acct(a).nonce == 0 && self.acct(a).balance == 0 && self.acct(a).code.len() == 0
    }

    /// All logs emitted so far, oldest first.
    pub open spec fn logs_view(&self) -> Seq<LogEntry> {
        logs_chain(self.layers@)
    }

    /// Current nesting depth: regions entered above the accumulator layer.
    pub open spec fn depth(&self) -> int {
        self.layers@.len() - 1
    }

    /// A fresh substate over a backend, holding only the accumulator layer.
    pub fn new_state(backend: Backend) -> (r: ExecutorState)
        requires
            backend_wf(&backend),
        ensures
            r.wf(),
            r.backend == backend,
            r.layers@.len() == 1,
            r.chain() == Seq::<LayerEntry>::empty(),
            r.logs_view() == Seq::<LogEntry>::empty(),
    {
        let mut layers: Vec<Layer> = Vec::new();
        layers.push(Layer { entries: Vec::new(), logs: Vec::new() });
        let r = ExecutorState { backend, layers };
        proof {
            let l = r.layers@;
            assert(l.drop_last() =~= Seq::<Layer>::empty());
            assert(entries_chain(l.drop_last()) == Seq::<LayerEntry>::empty());
            assert(logs_chain(l.drop_last()) == Seq::<LogEntry>::empty());
            assert(entries_chain(l) =~= Seq::<LayerEntry>::empty());
            assert(logs_chain(l) =~= Seq::<LogEntry>::empty());
        }
        r
    }

    /// Opens a new region for a frame about to run.
    pub fn enter(&mut self)
        requires
            old(self).wf(),
        ensures
            final(self).wf(),
            final(self).backend == old(self).backend,
            final(self).layers@.len() == old(self).layers@.len() + 1,
            final(self).layers@.drop_last() == old(self).layers@,
            final(self).layers@.last().entries@.len() == 0,
            final(self).layers@.last().logs@.len() == 0,
            final(self).chain() == old(self).chain(),
            final(self).logs_view() == old(self).logs_view(),
            final(self).depth() == old(self).depth() + 1,
    {
        self.layers.push(Layer { entries: Vec::new(), logs: Vec::new() });
        proof {
            assert(self.layers@.drop_last() =~= old(self).layers@);
            assert(self.chain() =~= old(self).chain());
            assert(self.logs_view() =~= old(self).logs_view());
        }
    }

    /// Folds the top region into its parent: every resolved read, and the
    /// log sequence, stays exactly as it was.
    pub fn exit_commit(&mut self)
        requires
            old(self).wf(),
            old(self).layers@.len() >= 2,
        ensures
            final(self).wf(),
            final(self).backend == old(self).backend,
            final(self).layers@.len() == old(self).layers@.len() - 1,
            final(self).chain() == old(self).chain(),
            final(self).logs_view() == old(self).logs_view(),
            final(self).layers@.drop_last() == old(self).layers@.drop_last().drop_last(),
            final(self).depth() == old(self).depth() - 1,
    {
        let mut child = self.layers.pop().unwrap();
        let mut parent = self.layers.pop().unwrap();
        parent.entries.append(&mut child.entries);
        parent.logs.append(&mut child.logs);
        self.layers.push(parent);
        proof {
            let lo = old(self).layers@;
            let lf = self.layers@;
            assert(lf.drop_last() =~= lo.drop_last().drop_last());
            assert(entries_chain(lo) =~= entries_chain(lo.drop_last()) + lo.last().entries@);
            assert(entries_chain(lo.drop_last()) =~= entries_chain(lo.drop_last().drop_last())
                + lo.drop_last().last().entries@);
            assert(lf.last().entries@ =~= lo.drop_last().last().entries@ + lo.last().entries@);
            assert(entries_chain(lf) =~= entries_chain(lf.drop_last()) + lf.last().entries@);
            assert(entries_chain(lf) =~= entries_chain(lo));
            assert(logs_chain(lo) =~= logs_chain(lo.drop_last()) + lo.last().logs@);
            assert(logs_chain(lo.drop_last()) =~= logs_chain(lo.drop_last().drop_last())
                + lo.drop_last().last().logs@);
            assert(lf.last().logs@ =~= lo.drop_last().last().logs@ + lo.last().logs@);
            assert(logs_chain(lf) =~= logs_chain(lf.drop_last()) + lf.last().logs@);
            assert(logs_chain(lf) =~= logs_chain(lo));
        }
    }

    /// Drops the top region, restoring exactly the pre-entry visibility;
    /// used for a reverting frame, whose return buffer the orchestrator
    /// keeps separately.
    pub fn exit_revert(&mut self)
        requires
            old(self).wf(),
            old(self).layers@.len() >= 2,
        ensures
            final(self).wf(),
            final(self).backend == old(self).backend,
            final(self).layers@ == old(self).layers@.drop_last(),
            final(self).depth() == old(self).depth() - 1,
    {
        self.layers.pop().unwrap();
    }

    /// Drops the top region entirely, for an erroring frame.
    pub fn exit_discard(&mut self)
        requires
            old(self).wf(),
            old(self).layers@.len() >= 2,
        ensures
            final(self).wf(),
            final(self).backend == old(self).backend,
            final(self).layers@ == old(self).layers@.drop_last(),
            final(self).depth() == old(self).depth() - 1,
    {
        self.layers.pop().unwrap();
    }
}

/// The chain covered after `ej` entries of layer `li`, all earlier layers
/// whole.
pub open spec fn chain_prefix(layers: Seq<Layer>, li: int, ej: int) -> Seq<LayerEntry> {
    entries_chain(layers.subrange(0, li)) + layers[li].entries@.subrange(0, ej)
}

/// Appending one slot write inserts its pair into the slot map.
pub proof fn lemma_apply_slots_push(m: Map<u64, u64>, s: Seq<(u64, u64)>, p: (u64, u64))
    ensures
        apply_slots(m, s.push(p)) == apply_slots(m, s).insert(p.0, p.1),
{
    assert(s.push(p).drop_last() =~= s);
}

/// Applying concatenated slot writes applies the parts in order.
pub proof fn lemma_apply_slots_concat(m: Map<u64, u64>, s1: Seq<(u64, u64)>, s2: Seq<(u64, u64)>)
    ensures
        apply_slots(m, s1 + s2) == apply_slots(apply_slots(m, s1), s2),
    decreases s2.len(),
{
    if s2.len() == 0 {
        assert(s1 + s2 =~= s1);
    } else {
        lemma_apply_slots_concat(m, s1, s2.drop_last());
        assert((s1 + s2).drop_last() =~= s1 + s2.drop_last());
        assert((s1 + s2).last() == s2.last());
    }
}

/// The resolved basic state of one address, as executable values.
pub struct ResolvedAcct {
    pub nonce: u64,
    pub balance: u64,
    pub deleted: bool,
    pub code: Vec<u8>,
    pub present: bool,
}

impl ExecutorState {
    /// Reads the backing account fields below every pending change.
    fn backend_base(&self, a: &Address) -> (r: ResolvedAcct)
        requires
            self.wf(),
        ensures
            r.nonce == base_view(self.backend, a@).nonce,
            r.balance == base_view(self.backend, a@).balance,
            r.deleted == base_view(self.backend, a@).deleted,
            r.code@ == base_view(self.backend, a@).code,
            r.present == (find_backend(self.backend.accounts@, a@) is Some),
    {
        let accounts = &self.backend.accounts;
        let mut i: usize = 0;
        proof {
            assert(accounts@.skip(0) =~= accounts@);
        }
        while i < accounts.len()
            invariant
                i <= accounts@.len(),
                self.wf(),
                accounts@ == self.backend.accounts@,
                find_backend(accounts@.skip(i as int), a@) == find_backend(accounts@, a@),
            decreases accounts@.len() - i,
        {
            proof {
                assert(accounts@.skip(i as int).drop_first() =~= accounts@.skip(i as int + 1));
            }
            if accounts[i].address.eq_addr(a) {
                proof {
                    assert(accounts@.skip(i as int)[0] == accounts@[i as int]);
                    assert(find_backend(accounts@.skip(i as int), a@) == Some(
                        accounts@[i as int],
                    ));
                    assert(find_backend(self.backend.accounts@, a@) == Some(
                        accounts@[i as int],
                    ));
                    assert(base_view(self.backend, a@).nonce == accounts@[i as int].nonce);
                }
                return ResolvedAcct {
                    nonce: accounts[i].nonce,
                    balance: accounts[i].balance,
                    deleted: false,
                    code: clone_bytes(&accounts[i].code),
                    present: true,
                };
            }
            i += 1;
        }
        proof {
            assert(accounts@.skip(accounts@.len() as int) =~= Seq::<BackendAccount>::empty());
        }
        ResolvedAcct { nonce: 0, balance: 0, deleted: false, code: Vec::new(), present: false }
    }

    /// Reads one backing storage slot below every pending change.
    fn backend_slot(&self, a: &Address, key: u64) -> (r: u64)
        requires
            self.wf(),
        ensures
            r == base_view(self.backend, a@).storage[key],
    {
        let accounts = &self.backend.accounts;
        let mut i: usize = 0;
        proof {
            assert(accounts@.skip(0) =~= accounts@);
        }
        while i < accounts.len()
            invariant
                i <= accounts@.len(),
                self.wf(),
                accounts@ == self.backend.accounts@,
                find_backend(accounts@.skip(i as int), a@) == find_backend(accounts@, a@),
            decreases accounts@.len() - i,
        {
            proof {
                assert(accounts@.skip(i as int).drop_first() =~= accounts@.skip(i as int + 1));
            }
            if accounts[i].address.eq_addr(a) {
                proof {
                    assert(accounts@.skip(i as int)[0] == accounts@[i as int]);
                    assert(find_backend(accounts@.skip(i as int), a@) == Some(
                        accounts@[i as int],
                    ));
                    assert(zero_slots()[key] == 0);
                }
                return slot_scan(&accounts[i].storage, key, 0, Ghost(zero_slots()));
            }
            i += 1;
        }
        proof {
            assert(accounts@.skip(accounts@.len() as int) =~= Seq::<BackendAccount>::empty());
        }
        0
    }
}

impl ExecutorState {
    /// Resolves the basic state of one address through every pending layer.
    pub fn lookup(&self, a: &Address) -> (r: ResolvedAcct)
        requires
            self.wf(),
        ensures
            r.nonce == self.acct(a@).nonce,
            r.balance == self.acct(a@).balance,
            r.deleted == self.acct(a@).deleted,
            r.code@ == self.acct(a@).code,
            r.present == self.known(a@),
    {
        let base = self.backend_base(a);
        let mut nonce: u64 = base.nonce;
        let mut balance: u64 = base.balance;
        let mut deleted: bool = base.deleted;
        let mut code: Vec<u8> = base.code;
        let mut present: bool = base.present;
        let ghost bv = base_view(self.backend, a@);
        let mut li: usize = 0;
        proof {
            assert(self.layers@.subrange(0, 0) =~= Seq::<Layer>::empty());
        }
        while li < self.layers.len()
            invariant
                li <= self.layers@.len(),
                self.wf(),
                bv == base_view(self.backend, a@),
                nonce == acct_view(entries_chain(self.layers@.subrange(0, li as int)), a@, bv).nonce,
                balance == acct_view(
                    entries_chain(self.layers@.subrange(0, li as int)),
                    a@,
                    bv,
                ).balance,
                deleted == acct_view(
                    entries_chain(self.layers@.subrange(0, li as int)),
                    a@,
                    bv,
                ).deleted,
                code@ == acct_view(entries_chain(self.layers@.subrange(0, li as int)), a@, bv).code,
                present == (find_backend(self.backend.accounts@, a@) is Some || chain_has(
                    entries_chain(self.layers@.subrange(0, li as int)),
                    a@,
                )),
            decreases self.layers@.len() - li,
        {
            let layer = &self.layers[li];
            let mut ej: usize = 0;
            proof {
                assert(chain_prefix(self.layers@, li as int, 0) =~= entries_chain(
                    self.layers@.subrange(0, li as int),
                ));
            }
            while ej < layer.entries.len()
                invariant
                    ej <= layer.entries@.len(),
                    li < self.layers@.len(),
                    self.wf(),
                    layer == &self.layers[li as int],
                    bv == base_view(self.backend, a@),
                    nonce == acct_view(chain_prefix(self.layers@, li as int, ej as int), a@, bv).nonce,
                    balance == acct_view(
                        chain_prefix(self.layers@, li as int, ej as int),
                        a@,
                        bv,
                    ).balance,
                    deleted == acct_view(
                        chain_prefix(self.layers@, li as int, ej as int),
                        a@,
                        bv,
                    ).deleted,
                    code@ == acct_view(chain_prefix(self.layers@, li as int, ej as int), a@, bv).code,
                    present == (find_backend(self.backend.accounts@, a@) is Some || chain_has(
                        chain_prefix(self.layers@, li as int, ej as int),
                        a@,
                    )),
                decreases layer.entries@.len() - ej,
            {
                let e = &layer.entries[ej];
                proof {
                    let pfx = chain_prefix(self.layers@, li as int, ej as int);
                    let pfx1 = chain_prefix(self.layers@, li as int, ej as int + 1);
                    assert(layer.entries@.subrange(0, ej as int + 1) =~= layer.entries@.subrange(
                        0,
                        ej as int,
                    ).push(layer.entries@[ej as int]));
                    assert(pfx1 =~= pfx.push(layer.entries@[ej as int]));
                    assert(pfx1.drop_last() =~= pfx);
                    lemma_chain_has_push(pfx, layer.entries@[ej as int], a@);
                }
                if e.address.eq_addr(a) {
                    present = true;
                    match e.diff.nonce {
                        Some(n) => {
                            nonce = n;
                        },
                        None => {},
                    }
                    match e.diff.balance {
                        Some(b) => {
                            balance = b;
                        },
                        None => {},
                    }
                    match &e.diff.code {
                        Some(c) => {
                            code = clone_bytes(c);
                        },
                        None => {},
                    }
                    if e.diff.deleted {
                        deleted = true;
                    }
                }
                ej += 1;
            }
            proof {
                assert(self.layers@.subrange(0, li as int + 1).drop_last() =~= self.layers@.subrange(
                    0,
                    li as int,
                ));
                assert(layer.entries@.subrange(0, layer.entries@.len() as int) =~= layer.entries@);
                assert(entries_chain(self.layers@.subrange(0, li as int + 1)) =~= chain_prefix(
                    self.layers@,
                    li as int,
                    layer.entries@.len() as int,
                ));
            }
            li += 1;
        }
        proof {
            assert(self.layers@.subrange(0, self.layers@.len() as int) =~= self.layers@);
        }
        ResolvedAcct { nonce, balance, deleted, code, present }
    }

    /// Reads one storage slot as it was before the transaction: the
    /// backing value below every pending change.
    pub fn original_slot(&self, a: &Address, key: u64) -> (r: u64)
        requires
            self.wf(),
        ensures
            r == base_view(self.backend, a@).storage[key],
    {
        self.backend_slot(a, key)
    }

    /// Resolves one storage slot through every pending layer.
    pub fn storage_at(&self, a: &Address, key: u64) -> (r: u64)
        requires
            self.wf(),
        ensures
            r == self.acct(a@).storage[key],
    {
        let mut cur: u64 = self.backend_slot(a, key);
        let ghost bv = base_view(self.backend, a@);
        let mut li: usize = 0;
        proof {
            assert(self.layers@.subrange(0, 0) =~= Seq::<Layer>::empty());
        }
        while li < self.layers.len()
            invariant
                li <= self.layers@.len(),
                self.wf(),
                bv == base_view(self.backend, a@),
                cur == acct_view(
                    entries_chain(self.layers@.subrange(0, li as int)),
                    a@,
                    bv,
                ).storage[key],
            decreases self.layers@.len() - li,
        {
            let layer = &self.layers[li];
            let mut ej: usize = 0;
            proof {
                assert(chain_prefix(self.layers@, li as int, 0) =~= entries_chain(
                    self.layers@.subrange(0, li as int),
                ));
            }
            while ej < layer.entries.len()
                invariant
                    ej <= layer.entries@.len(),
                    li < self.layers@.len(),
                    self.wf(),
                    layer == &self.layers[li as int],
                    bv == base_view(self.backend, a@),
                    cur == acct_view(
                        chain_prefix(self.layers@, li as int, ej as int),
                        a@,
                        bv,
                    ).storage[key],
                decreases layer.entries@.len() - ej,
            {
                let e = &layer.entries[ej];
                proof {
                    let pfx = chain_prefix(self.layers@, li as int, ej as int);
                    let pfx1 = chain_prefix(self.layers@, li as int, ej as int + 1);
                    assert(layer.entries@.subrange(0, ej as int + 1) =~= layer.entries@.subrange(
                        0,
                        ej as int,
                    ).push(layer.entries@[ej as int]));
                    assert(pfx1 =~= pfx.push(layer.entries@[ej as int]));
                    assert(pfx1.drop_last() =~= pfx);
                }
                if e.address.eq_addr(a) {
                    if e.diff.reset_storage {
                        proof {
                            assert(zero_slots()[key] == 0);
                        }
                        cur = slot_scan(&e.diff.storage, key, 0, Ghost(zero_slots()));
                    } else {
                        let ghost m = acct_view(
                            chain_prefix(self.layers@, li as int, ej as int),
                            a@,
                            bv,
                        ).storage;
                        cur = slot_scan(&e.diff.storage, key, cur, Ghost(m));
                    }
                }
                ej += 1;
            }
            proof {
                assert(self.layers@.subrange(0, li as int + 1).drop_last() =~= self.layers@.subrange(
                    0,
                    li as int,
                ));
                assert(layer.entries@.subrange(0, layer.entries@.len() as int) =~= layer.entries@);
                assert(entries_chain(self.layers@.subrange(0, li as int + 1)) =~= chain_prefix(
                    self.layers@,
                    li as int,
                    layer.entries@.len() as int,
                ));
            }
            li += 1;
        }
        proof {
            assert(self.layers@.subrange(0, self.layers@.len() as int) =~= self.layers@);
        }
        cur
    }
}

/// Scans slot writes in order over a starting value.
fn slot_scan(sto: &Vec<(u64, u64)>, key: u64, start: u64, Ghost(m0): Ghost<Map<u64, u64>>) -> (r:
    u64)
    requires
        m0[key] == start,
    ensures
        r == apply_slots(m0, sto@)[key],
{
    let mut cur: u64 = start;
    let mut i: usize = 0;
    while i < sto.len()
        invariant
            i <= sto@.len(),
            cur == apply_slots(m0, sto@.subrange(0, i as int))[key],
        decreases sto@.len() - i,
    {
        proof {
            lemma_apply_slots_push(m0, sto@.subrange(0, i as int), sto@[i as int]);
            assert(sto@.subrange(0, i as int).push(sto@[i as int]) =~= sto@.subrange(
                0,
                i as int + 1,
            ));
        }
        if sto[i].0 == key {
            cur = sto[i].1;
        }
        i += 1;
    }
    proof {
        assert(sto@.subrange(0, sto@.len() as int) =~= sto@);
    }
    cur
}

/// Appending one entry extends the set of addresses the chain mentions by
/// exactly the entry's own.
pub proof fn lemma_chain_has_push(es: Seq<LayerEntry>, e: LayerEntry, a: Seq<u8>)
    ensures
        chain_has(es.push(e), a) == (chain_has(es, a) || e.address@ == a),
{
    if chain_has(es, a) {
        let i = choose|i: int| 0 <= i < es.len() && es[i].address@ == a;
        assert(es.push(e)[i].address@ == a);
    }
    if e.address@ == a {
        assert(es.push(e)[es.len() as int].address@ == a);
    }
    if chain_has(es.push(e), a) && e.address@ != a {
        let i = choose|i: int| 0 <= i < es.push(e).len() && es.push(e)[i].address@ == a;
        assert(i < es.len());
        assert(es[i].address@ == a);
    }
}

/// Equality of two resolved views on everything but the balance.
pub open spec fn all_but_balance_eq(v1: AcctView, v2: AcctView) -> bool {
    &&& v1.nonce == v2.nonce
    &&& v1.code == v2.code
    &&& v1.storage == v2.storage
    &&& v1.deleted == v2.deleted
}

/// The unchanged relation between two states around one recorded entry.
pub open spec fn frame_kept(pre: ExecutorState, post: ExecutorState) -> bool {
    &&& post.backend == pre.backend
    &&& post.layers@.len() == pre.layers@.len()
    &&& post.layers@.drop_last() == pre.layers@.drop_last()
    &&& post.logs_view() == pre.logs_view()
}

/// All addresses other than `a` read exactly as before, and nothing new is
/// known but `a`.
pub open spec fn others_kept(pre: ExecutorState, post: ExecutorState, a: Seq<u8>) -> bool {
    forall|b: Seq<u8>|
        #![trigger post.acct(b)]
        #![trigger post.known(b)]
        b != a ==> post.acct(b) == pre.acct(b) && post.known(b) == pre.known(b)
}

impl ExecutorState {
    /// Records one diff entry for an address in the top region.
    fn push_entry(&mut self, a: &Address, d: AccountDiff)
        requires
            old(self).wf(),
            a.wf(),
        ensures
            final(self).wf(),
            frame_kept(*old(self), *final(self)),
            final(self).chain().len() == old(self).chain().len() + 1,
            final(self).chain().drop_last() == old(self).chain(),
            final(self).chain().last().address@ == a@,
            final(self).chain().last().diff == d,
            others_kept(*old(self), *final(self), a@),
            final(self).known(a@),
            final(self).acct(a@) == apply_diff(old(self).acct(a@), d),
    {
        let ghost d0 = d;
        let mut top = self.layers.pop().unwrap();
        top.entries.push(LayerEntry { address: a.clone(), diff: d });
        self.layers.push(top);
        proof {
            let lo = old(self).layers@;
            let lf = self.layers@;
            let e = lf.last().entries@.last();
            assert(lf.drop_last() =~= lo.drop_last());
            assert(entries_chain(lo) =~= entries_chain(lo.drop_last()) + lo.last().entries@);
            assert(entries_chain(lf) =~= entries_chain(lf.drop_last()) + lf.last().entries@);
            assert(lf.last().entries@ =~= lo.last().entries@.push(e));
            assert(entries_chain(lf) =~= entries_chain(lo).push(e));
            assert(logs_chain(lo) =~= logs_chain(lo.drop_last()) + lo.last().logs@);
            assert(logs_chain(lf) =~= logs_chain(lf.drop_last()) + lf.last().logs@);
            assert(logs_chain(lf) =~= logs_chain(lo));
            assert(self.chain().drop_last() =~= old(self).chain());
            assert forall|b: Seq<u8>| b != a@ implies #[trigger] self.acct(b) == old(self).acct(b)
                && self.known(b) == old(self).known(b) by {
                assert(self.chain().last().address@ != b);
                assert(self.chain().drop_last() =~= old(self).chain());
                lemma_chain_has_push(old(self).chain(), e, b);
            }
            lemma_chain_has_push(old(self).chain(), e, a@);
            assert(self.acct(a@) == apply_diff(old(self).acct(a@), d0));
        }
    }

    /// An empty diff: recording it marks the address as touched without
    /// changing any resolved value.
    fn empty_diff() -> (d: AccountDiff)
        ensures
            d.nonce is None,
            d.balance is None,
            d.code is None,
            d.storage@.len() == 0,
            !d.reset_storage,
            !d.deleted,
    {
        AccountDiff {
            nonce: None,
            balance: None,
            code: None,
            storage: Vec::new(),
            reset_storage: false,
            deleted: false,
        }
    }

    /// Marks an address as touched: it counts as known afterwards, all its
    /// resolved values unchanged.
    pub fn touch(&mut self, a: &Address)
        requires
            old(self).wf(),
            a.wf(),
        ensures
            final(self).wf(),
            frame_kept(*old(self), *final(self)),
            others_kept(*old(self), *final(self), a@),
            final(self).known(a@),
            final(self).acct(a@) == old(self).acct(a@),
    {
        let d = Self::empty_diff();
        let ghost pre_acct = self.acct(a@);
        self.push_entry(a, d);
        proof {
            assert(apply_slots(pre_acct.storage, Seq::<(u64, u64)>::empty()) == pre_acct.storage);
            assert(self.acct(a@) =~= pre_acct);
        }
    }

    /// Sets one storage slot of an address in the active region.
    pub fn set_storage(&mut self, a: &Address, key: u64, val: u64)
        requires
            old(self).wf(),
            a.wf(),
        ensures
            final(self).wf(),
            frame_kept(*old(self), *final(self)),
            others_kept(*old(self), *final(self), a@),
            final(self).known(a@),
            final(self).acct(a@).storage == old(self).acct(a@).storage.insert(key, val),
            final(self).acct(a@).nonce == old(self).acct(a@).nonce,
            final(self).acct(a@).balance == old(self).acct(a@).balance,
            final(self).acct(a@).code == old(self).acct(a@).code,
            final(self).acct(a@).deleted == old(self).acct(a@).deleted,
    {
        let mut d = Self::empty_diff();
        let mut sto: Vec<(u64, u64)> = Vec::new();
        sto.push((key, val));
        d.storage = sto;
        let ghost dg = d;
        let ghost pre_acct = self.acct(a@);
        self.push_entry(a, d);
        proof {
            assert(dg.storage@ =~= Seq::<(u64, u64)>::empty().push((key, val)));
            lemma_apply_slots_push(pre_acct.storage, Seq::<(u64, u64)>::empty(), (key, val));
        }
    }

    /// Erases the whole storage of an address: every slot reads zero after.
    pub fn reset_storage(&mut self, a: &Address)
        requires
            old(self).wf(),
            a.wf(),
        ensures
            final(self).wf(),
            frame_kept(*old(self), *final(self)),
            others_kept(*old(self), *final(self), a@),
            final(self).known(a@),
            final(self).acct(a@).storage == zero_slots(),
            final(self).acct(a@).nonce == old(self).acct(a@).nonce,
            final(self).acct(a@).balance == old(self).acct(a@).balance,
            final(self).acct(a@).code == old(self).acct(a@).code,
            final(self).acct(a@).deleted == old(self).acct(a@).deleted,
    {
        let mut d = Self::empty_diff();
        d.reset_storage = true;
        self.push_entry(a, d);
    }

    /// Sets the resolved code of an address.
    pub fn set_code(&mut self, a: &Address, code: Vec<u8>)
        requires
            old(self).wf(),
            a.wf(),
        ensures
            final(self).wf(),
            frame_kept(*old(self), *final(self)),
            others_kept(*old(self), *final(self), a@),
            final(self).known(a@),
            final(self).acct(a@).code == code@,
            final(self).acct(a@).nonce == old(self).acct(a@).nonce,
            final(self).acct(a@).balance == old(self).acct(a@).balance,
            final(self).acct(a@).storage == old(self).acct(a@).storage,
            final(self).acct(a@).deleted == old(self).acct(a@).deleted,
    {
        let mut d = Self::empty_diff();
        d.code = Some(code);
        let ghost pre_sto = self.acct(a@).storage;
        self.push_entry(a, d);
        proof {
            assert(apply_slots(pre_sto, Seq::<(u64, u64)>::empty()) == pre_sto);
        }
    }

    /// Marks an address deleted.
    pub fn set_deleted(&mut self, a: &Address)
        requires
            old(self).wf(),
            a.wf(),
        ensures
            final(self).wf(),
            frame_kept(*old(self), *final(self)),
            others_kept(*old(self), *final(self), a@),
            final(self).known(a@),
            final(self).acct(a@).deleted,
            final(self).acct(a@).nonce == old(self).acct(a@).nonce,
            final(self).acct(a@).balance == old(self).acct(a@).balance,
            final(self).acct(a@).code == old(self).acct(a@).code,
            final(self).acct(a@).storage == old(self).acct(a@).storage,
    {
        let mut d = Self::empty_diff();
        d.deleted = true;
        let ghost pre_sto = self.acct(a@).storage;
        self.push_entry(a, d);
        proof {
            assert(apply_slots(pre_sto, Seq::<(u64, u64)>::empty()) == pre_sto);
        }
    }

    /// Sets the resolved balance of an address outright.
    fn set_balance(&mut self, a: &Address, val: u64)
        requires
            old(self).wf(),
            a.wf(),
        ensures
            final(self).wf(),
            frame_kept(*old(self), *final(self)),
            others_kept(*old(self), *final(self), a@),
            final(self).known(a@),
            final(self).acct(a@).balance == val,
            final(self).acct(a@).nonce == old(self).acct(a@).nonce,
            final(self).acct(a@).code == old(self).acct(a@).code,
            final(self).acct(a@).storage == old(self).acct(a@).storage,
            final(self).acct(a@).deleted == old(self).acct(a@).deleted,
    {
        let mut d = Self::empty_diff();
        d.balance = Some(val);
        let ghost pre_sto = self.acct(a@).storage;
        self.push_entry(a, d);
        proof {
            assert(apply_slots(pre_sto, Seq::<(u64, u64)>::empty()) == pre_sto);
        }
    }

    /// Zeroes the resolved balance of an address.
    pub fn reset_balance(&mut self, a: &Address)
        requires
            old(self).wf(),
            a.wf(),
        ensures
            final(self).wf(),
            frame_kept(*old(self), *final(self)),
            others_kept(*old(self), *final(self), a@),
            final(self).known(a@),
            final(self).acct(a@).balance == 0,
            final(self).acct(a@).nonce == old(self).acct(a@).nonce,
            final(self).acct(a@).code == old(self).acct(a@).code,
            final(self).acct(a@).storage == old(self).acct(a@).storage,
            final(self).acct(a@).deleted == old(self).acct(a@).deleted,
    {
        self.set_balance(a, 0);
    }

    /// Advances the nonce of an address by one. The nonce saturates at the
    /// largest representable value; a real account never reaches it.
    pub fn inc_nonce(&mut self, a: &Address)
        requires
            old(self).wf(),
            a.wf(),
        ensures
            final(self).wf(),
            frame_kept(*old(self), *final(self)),
            others_kept(*old(self), *final(self), a@),
            final(self).known(a@),
            old(self).acct(a@).nonce < u64::MAX ==> final(self).acct(a@).nonce == old(self).acct(a@).nonce + 1,
            old(self).acct(a@).nonce == u64::MAX ==> final(self).acct(a@).nonce == u64::MAX,
            final(self).acct(a@).balance == old(self).acct(a@).balance,
            final(self).acct(a@).code == old(self).acct(a@).code,
            final(self).acct(a@).storage == old(self).acct(a@).storage,
            final(self).acct(a@).deleted == old(self).acct(a@).deleted,
    {
        let cur = self.lookup(a);
        let next: u64 = if cur.nonce < u64::MAX {
            cur.nonce + 1
        } else {
            cur.nonce
        };
        let mut d = Self::empty_diff();
        d.nonce = Some(next);
        let ghost pre_sto = self.acct(a@).storage;
        self.push_entry(a, d);
        proof {
            assert(apply_slots(pre_sto, Seq::<(u64, u64)>::empty()) == pre_sto);
        }
    }

    /// Moves `value` from `source` to `target`. Fails, leaving the state
    /// unchanged, when the source balance is too small or the target
    /// balance would not fit; moving to oneself only checks the funds.
    pub fn transfer(&mut self, source: &Address, target: &Address, value: u64) -> (r: bool)
        requires
            old(self).wf(),
            source.wf(),
            target.wf(),
        ensures
            final(self).wf(),
            final(self).backend == old(self).backend,
            final(self).layers@.len() == old(self).layers@.len(),
            final(self).layers@.drop_last() == old(self).layers@.drop_last(),
            final(self).logs_view() == old(self).logs_view(),
            r == (old(self).acct(source@).balance >= value && (source@ == target@ || old(self).acct(target@).balance + value <= u64::MAX)),
            !r ==> *final(self) == *old(self),
            r && source@ == target@ ==> others_kept(*old(self), *final(self), source@) && final(self).acct(source@) == old(self).acct(source@),
            r && source@ != target@ ==> final(self).acct(source@).balance == old(self).acct(
                source@,
            ).balance - value,
            r && source@ != target@ ==> final(self).acct(target@).balance == old(self).acct(
                target@,
            ).balance + value,
            r && source@ != target@ ==> forall|b: Seq<u8>|
                b != source@ && b != target@ ==> #[trigger] final(self).acct(b) == old(self).acct(
                    b,
                ) && final(self).known(b) == old(self).known(b),
            r && source@ != target@ ==> all_but_balance_eq(
                final(self).acct(source@),
                old(self).acct(source@),
            ),
            r && source@ != target@ ==> all_but_balance_eq(
                final(self).acct(target@),
                old(self).acct(target@),
            ),
    {
        let src = self.lookup(source);
        if src.balance < value {
            return false;
        }
        if source.eq_addr(target) {
            return true;
        }
        let tgt = self.lookup(target);
        if value > u64::MAX - tgt.balance {
            return false;
        }
        self.set_balance(source, src.balance - value);
        self.set_balance(target, tgt.balance + value);
        true
    }

    /// Appends a log record to the active region.
    pub fn log(&mut self, a: &Address, topics: Vec<Vec<u8>>, data: Vec<u8>)
        requires
            old(self).wf(),
            a.wf(),
        ensures
            final(self).wf(),
            final(self).backend == old(self).backend,
            final(self).layers@.len() == old(self).layers@.len(),
            final(self).layers@.drop_last() == old(self).layers@.drop_last(),
            final(self).chain() == old(self).chain(),
            final(self).logs_view().len() == old(self).logs_view().len() + 1,
            final(self).logs_view().drop_last() == old(self).logs_view(),
            final(self).logs_view().last().address@ == a@,
            final(self).logs_view().last().topics == topics,
            final(self).logs_view().last().data == data,
            forall|b: Seq<u8>| final(self).acct(b) == old(self).acct(b) && final(self).known(b)
                == old(self).known(b),
    {
        let mut top = self.layers.pop().unwrap();
        top.logs.push(LogEntry { address: a.clone(), topics, data });
        self.layers.push(top);
        proof {
            let lo = old(self).layers@;
            let lf = self.layers@;
            assert(lf.drop_last() =~= lo.drop_last());
            assert(entries_chain(lo) =~= entries_chain(lo.drop_last()) + lo.last().entries@);
            assert(entries_chain(lf) =~= entries_chain(lf.drop_last()) + lf.last().entries@);
            assert(entries_chain(lf) =~= entries_chain(lo));
            assert(logs_chain(lo) =~= logs_chain(lo.drop_last()) + lo.last().logs@);
            assert(logs_chain(lf) =~= logs_chain(lf.drop_last()) + lf.last().logs@);
            assert(lf.last().logs@ =~= lo.last().logs@.push(lf.last().logs@.last()));
            assert(logs_chain(lf) =~= logs_chain(lo).push(lf.last().logs@.last()));
            assert(logs_chain(lf).drop_last() =~= logs_chain(lo));
        }
    }
}

/// Well-formedness of a backend alone.
pub open spec fn backend_wf(bk: &Backend) -> bool {
    &&& forall|i: int| 0 <= i < bk.accounts@.len() ==> (#[trigger] bk.accounts@[i]).address.wf()
    &&& bk.origin.wf()
    &&& bk.coinbase.wf()
}

/// The revert-isolation law: however a frame mutated its own region, any
/// two states sharing the same backend and the same lower layers read
/// identically for every address once the top region is dropped — a
/// reverted frame's storage, balance and code changes are invisible to
/// its parent.
pub proof fn lemma_revert_isolation(s1: ExecutorState, s2: ExecutorState, a: Seq<u8>)
    requires
        s1.backend == s2.backend,
        s1.layers@.len() >= 1,
        s2.layers@.len() >= 1,
        s1.layers@.drop_last() == s2.layers@.drop_last(),
    ensures
        acct_view(entries_chain(s1.layers@.drop_last()), a, base_view(s1.backend, a))
            == acct_view(entries_chain(s2.layers@.drop_last()), a, base_view(s2.backend, a)),
{
}

} // verus!
