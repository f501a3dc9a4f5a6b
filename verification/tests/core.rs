use evm_loader::addr::Address;
use evm_loader::bridge::{CallInterrupt, Context, CreateOutcome, CreateScheme, CallOutcome};
use evm_loader::machine::{CreateReason, Frame, StepEvent, StepResult};
use evm_loader::resolver::{take_effects, AccountData, Effect, ProgramAccountStorage, RawAccount};
use evm_loader::substate::{Backend, BackendAccount, ExecutorState};
use evm_loader::{ExitError, ExitReason, HostError, Machine, Sender};

fn addr_n(n: u8) -> Address {
    let mut b = vec![0u8; 20];
    b[19] = n;
    Address { bytes: b }
}

fn backend_with(accounts: Vec<BackendAccount>) -> Backend {
    Backend {
        accounts,
        origin: addr_n(9),
        coinbase: addr_n(8),
        block_number: 11,
        block_timestamp: 1_700_000_000,
        block_difficulty: 0,
        block_gas_limit: 30_000_000,
        chain_id: 245_022_934,
        gas_price: 1,
    }
}

fn fresh_machine(accounts: Vec<BackendAccount>) -> Machine {
    let state = ExecutorState::new_state(backend_with(accounts));
    Machine::new(state)
}

fn acct(n: u8, nonce: u64, balance: u64, code: Vec<u8>) -> BackendAccount {
    BackendAccount {
        address: addr_n(n),
        nonce,
        balance,
        code,
        storage: Vec::new(),
    }
}

fn call_interrupt(target: u8, input: Vec<u8>) -> CallInterrupt {
    CallInterrupt {
        code_address: addr_n(target),
        input,
        context: Context {
            address: addr_n(target),
            caller: addr_n(2),
            apparent_value: 0,
        },
    }
}

#[test]
fn deploy_with_empty_constructor_succeeds() {
    // Scenario: a creation whose init code returns nothing deploys empty
    // code, and the new account's nonce was advanced per configuration.
    let mut m = fresh_machine(vec![acct(2, 0, 100, Vec::new())]);
    let caller = addr_n(2);
    m.create_begin(&caller, Vec::new(), 1_000_000).unwrap();
    assert_eq!(m.frames.len(), 1);
    let created = match &m.frames[0].kind {
        CreateReason::Create(a) => a.clone(),
        CreateReason::Call => panic!("expected a creation frame"),
    };
    let r = m.step(StepEvent::Exit {
        reason: ExitReason::Succeed,
        return_value: Vec::new(),
    });
    assert!(matches!(r, StepResult::Done(ExitReason::Succeed)));
    assert_eq!(m.return_value(), Vec::<u8>::new());
    // deployed code is empty, nonce of the created account is one
    assert_eq!(m.executor.code(&created), Vec::<u8>::new());
    assert_eq!(m.executor.nonce(&created), 1);
    // caller nonce advanced exactly once
    assert_eq!(m.executor.nonce(&caller), 1);
}

#[test]
fn create_collision_keeps_nonce_bump() {
    // Scenario: creating at an address that already carries code fails
    // with a collision, pushes no frame, and still advances the caller's
    // nonce exactly once.
    let caller = addr_n(2);
    // the legacy target for nonce 0 collides: precompute it by deriving
    let target = evm_loader::hashing::legacy_address(&caller, 0);
    let mut m = fresh_machine(vec![
        acct(2, 0, 100, Vec::new()),
        BackendAccount {
            address: target,
            nonce: 0,
            balance: 0,
            code: vec![0x60],
            storage: Vec::new(),
        },
    ]);
    let r = m.create_begin(&caller, Vec::new(), 1_000_000);
    assert_eq!(r, Err(HostError::InvalidInstructionData));
    assert_eq!(m.frames.len(), 0);
    assert_eq!(m.executor.nonce(&caller), 1);
}

#[test]
fn call_too_deep_at_limit_plus_one() {
    // Scenario: with the stack limit at 1024, the 1025th nested entry is
    // refused with CallTooDeep while every outer frame stays in place.
    let mut m = fresh_machine(vec![acct(2, 0, 100, Vec::new())]);
    assert_eq!(m.executor.config.call_stack_limit, 1024);
    m.call_begin(&addr_n(2), &addr_n(3), Vec::new(), 1_000_000);
    for _ in 1..1024 {
        let r = m.step(StepEvent::CallRequest {
            interrupt: call_interrupt(3, Vec::new()),
            micro: Vec::new(),
        });
        assert!(matches!(r, StepResult::Continue));
    }
    assert_eq!(m.frames.len(), 1024);
    // the bridge refuses the next nested call and the next creation
    let out = m.executor.call(
        &addr_n(3),
        None,
        Vec::new(),
        None,
        false,
        Context {
            address: addr_n(3),
            caller: addr_n(2),
            apparent_value: 0,
        },
        None,
    );
    match out {
        CallOutcome::Exit(reason, data) => {
            assert_eq!(reason, ExitReason::Error(ExitError::CallTooDeep));
            assert!(data.is_empty());
        }
        CallOutcome::Trap(_) => panic!("expected CallTooDeep"),
    }
    let out = m.executor.create(
        &addr_n(2),
        CreateScheme::Legacy { caller: addr_n(2) },
        0,
        Vec::new(),
        None,
    );
    match out {
        CreateOutcome::Exit(reason) => {
            assert_eq!(reason, ExitReason::Error(ExitError::CallTooDeep));
        }
        CreateOutcome::Trap(_) => panic!("expected CallTooDeep"),
    }
    // nothing was unwound
    assert_eq!(m.frames.len(), 1024);
}

#[test]
fn revert_isolates_child_mutations() {
    // Scenario: a reverted child's storage and balance writes are gone in
    // the parent, while its return buffer is delivered unchanged.
    let mut m = fresh_machine(vec![acct(2, 0, 100, Vec::new()), acct(3, 0, 50, Vec::new())]);
    m.call_begin(&addr_n(2), &addr_n(3), Vec::new(), 1_000_000);
    let target = addr_n(3);
    m.executor.set_storage(&target, 7, 41).unwrap();
    assert_eq!(m.executor.storage(&target, 7), 41);
    // child frame
    let r = m.step(StepEvent::CallRequest {
        interrupt: call_interrupt(3, Vec::new()),
        micro: Vec::new(),
    });
    assert!(matches!(r, StepResult::Continue));
    m.executor.set_storage(&target, 7, 999).unwrap();
    m.executor.state.reset_balance(&target);
    assert_eq!(m.executor.storage(&target, 7), 999);
    assert_eq!(m.executor.balance(&target), 0);
    // child reverts with a buffer
    let r = m.step(StepEvent::Exit {
        reason: ExitReason::Revert,
        return_value: vec![0xde, 0xad],
    });
    match r {
        StepResult::DeliverToCall {
            reason,
            return_value,
        } => {
            assert_eq!(reason, ExitReason::Revert);
            assert_eq!(return_value, vec![0xde, 0xad]);
        }
        _ => panic!("expected a call delivery"),
    }
    // the parent sees its own writes again
    assert_eq!(m.executor.storage(&target, 7), 41);
    assert_eq!(m.executor.balance(&target), 50);
}

#[test]
fn commit_keeps_child_mutations() {
    let mut m = fresh_machine(vec![acct(2, 0, 100, Vec::new()), acct(3, 0, 50, Vec::new())]);
    m.call_begin(&addr_n(2), &addr_n(3), Vec::new(), 1_000_000);
    let target = addr_n(3);
    let r = m.step(StepEvent::CallRequest {
        interrupt: call_interrupt(3, Vec::new()),
        micro: Vec::new(),
    });
    assert!(matches!(r, StepResult::Continue));
    m.executor.set_storage(&target, 7, 123).unwrap();
    let r = m.step(StepEvent::Exit {
        reason: ExitReason::Succeed,
        return_value: Vec::new(),
    });
    assert!(matches!(r, StepResult::DeliverToCall { .. }));
    assert_eq!(m.executor.storage(&target, 7), 123);
}

#[test]
fn oversized_deployed_code_is_rewritten() {
    // A successful creation whose return buffer passes the configured
    // size bound is discarded under CreateContractLimit.
    let mut m = fresh_machine(vec![acct(2, 0, 100, Vec::new())]);
    m.create_begin(&addr_n(2), Vec::new(), 1_000_000).unwrap();
    let big = vec![0u8; 0x6001];
    let r = m.step(StepEvent::Exit {
        reason: ExitReason::Succeed,
        return_value: big,
    });
    assert!(matches!(
        r,
        StepResult::Done(ExitReason::Error(ExitError::CreateContractLimit))
    ));
}

#[test]
fn persist_resume_is_bit_identical() {
    // Resumption: persist, restore over a fresh backend, and continue —
    // the stored forms and the continuations agree byte for byte.
    let mut m = fresh_machine(vec![acct(2, 0, 100, Vec::new()), acct(3, 0, 50, Vec::new())]);
    m.call_begin(&addr_n(2), &addr_n(3), vec![1, 2, 3], 1_000_000);
    let r = m.step(StepEvent::Continue {
        micro: vec![9, 9, 9],
    });
    assert!(matches!(r, StepResult::Continue));
    m.executor.set_storage(&addr_n(3), 1, 2).unwrap();

    let mut blob = Vec::new();
    m.save_into(&mut blob);
    let m2 = Machine::restore(&blob, backend_with(vec![acct(2, 0, 100, Vec::new()), acct(3, 0, 50, Vec::new())]))
        .expect("a persisted machine restores");
    let mut m2 = m2;

    // the restored machine re-persists to the identical blob
    let mut blob2 = Vec::new();
    m2.save_into(&mut blob2);
    assert_eq!(blob, blob2);

    // continuing both with the same events stays identical
    let ev = || StepEvent::Exit {
        reason: ExitReason::Succeed,
        return_value: vec![7, 7],
    };
    let r1 = m.step(ev());
    let r2 = m2.step(ev());
    assert!(matches!(r1, StepResult::Done(ExitReason::Succeed)));
    assert!(matches!(r2, StepResult::Done(ExitReason::Succeed)));
    assert_eq!(m.return_value(), m2.return_value());
    assert_eq!(m.executor.storage(&addr_n(3), 1), m2.executor.storage(&addr_n(3), 1));
}

#[test]
fn restore_rejects_corrupt_blob() {
    let mut m = fresh_machine(vec![acct(2, 0, 100, Vec::new())]);
    m.call_begin(&addr_n(2), &addr_n(3), Vec::new(), 1_000_000);
    let mut blob = Vec::new();
    m.save_into(&mut blob);
    let mut bad = blob.clone();
    bad.pop();
    assert!(Machine::restore(&bad, backend_with(Vec::new())).is_none());
    assert!(Machine::restore(&Vec::new(), backend_with(Vec::new())).is_none());
}

fn program_id() -> Vec<u8> {
    vec![7u8; 32]
}

fn raw_contract_pair(ether: Address, code_key: u8) -> (RawAccount, RawAccount) {
    let ck = vec![code_key; 32];
    (
        RawAccount {
            key: vec![1u8; 32],
            owner: program_id(),
            is_signer: false,
            lamports: 1,
            data: AccountData::Account {
                ether,
                code_key: ck.clone(),
                nonce: 0,
                balance: 0,
            },
        },
        RawAccount {
            key: ck,
            owner: program_id(),
            is_signer: false,
            lamports: 1,
            data: AccountData::Contract {
                code: vec![0x60, 0x00],
                storage: vec![(5, 55)],
            },
        },
    )
}

fn raw_clock() -> RawAccount {
    RawAccount {
        key: vec![3u8; 32],
        owner: vec![0u8; 32],
        is_signer: false,
        lamports: 1,
        data: AccountData::Clock {
            slot: 42,
            unix_timestamp: 1_700_000_123,
        },
    }
}

fn raw_signer() -> RawAccount {
    RawAccount {
        key: vec![4u8; 32],
        owner: vec![0u8; 32],
        is_signer: true,
        lamports: 1,
        data: AccountData::Other,
    }
}

#[test]
fn resolver_builds_and_resolves() {
    let (a0, a1) = raw_contract_pair(addr_n(10), 2);
    let st = ProgramAccountStorage::new(&program_id(), &vec![a0, a1, raw_signer(), raw_clock()])
        .unwrap();
    assert_eq!(st.block_number(), 42);
    assert_eq!(st.block_timestamp(), 1_700_000_123);
    assert_eq!(st.contract().bytes, addr_n(10).bytes);
    assert!(st.get_contract_account().is_some());
    assert!(st.get_caller_account().is_none());
    assert!(matches!(st.get_sender(), Sender::Solana(_)));
    assert!(st.find_account(&addr_n(10)).is_some());
    assert!(st.find_account(&addr_n(11)).is_none());
}

#[test]
fn resolver_rejects_bad_wiring() {
    let (a0, a1) = raw_contract_pair(addr_n(10), 2);
    // too few accounts
    assert!(matches!(
        ProgramAccountStorage::new(&program_id(), &vec![dup(&a0)]),
        Err(HostError::NotEnoughAccountKeys)
    ));
    // wrong owner on the contract account
    let mut foreign = dup(&a0);
    foreign.owner = vec![0u8; 32];
    assert!(matches!(
        ProgramAccountStorage::new(
            &program_id(),
            &vec![foreign, dup(&a1), raw_signer(), raw_clock()]
        ),
        Err(HostError::InvalidArgument)
    ));
    // mismatching code-account reference
    let mut wrong_key = dup(&a1);
    wrong_key.key = vec![9u8; 32];
    assert!(matches!(
        ProgramAccountStorage::new(
            &program_id(),
            &vec![dup(&a0), wrong_key, raw_signer(), raw_clock()]
        ),
        Err(HostError::InvalidAccountData)
    ));
    // unsigned foreign caller
    let mut unsigned = raw_signer();
    unsigned.is_signer = false;
    assert!(matches!(
        ProgramAccountStorage::new(
            &program_id(),
            &vec![dup(&a0), dup(&a1), unsigned, raw_clock()]
        ),
        Err(HostError::InvalidArgument)
    ));
    // no clock account
    assert!(matches!(
        ProgramAccountStorage::new(&program_id(), &vec![a0, a1, raw_signer()]),
        Err(HostError::NotEnoughAccountKeys)
    ));
}

#[test]
fn effects_apply_exactly_as_diffed() {
    // A terminated execution's effects land on resolvable targets exactly
    // as recorded; sink-addressed effects change nothing and raise no
    // error; an unresolved target fails the walk.
    let (a0, a1) = raw_contract_pair(addr_n(10), 2);
    let mut st =
        ProgramAccountStorage::new(&program_id(), &vec![a0, a1, raw_signer(), raw_clock()])
            .unwrap();

    let mut m = fresh_machine(vec![acct(10, 0, 0, vec![0x60, 0x00])]);
    let sender_addr = evm_loader::hashing::derive_from_signer_key(&vec![4u8; 32]);
    m.call_begin(&sender_addr, &addr_n(10), Vec::new(), 1_000_000);
    m.executor.set_storage(&addr_n(10), 5, 77).unwrap();
    let r = m.step(StepEvent::Exit {
        reason: ExitReason::Succeed,
        return_value: Vec::new(),
    });
    assert!(matches!(r, StepResult::Done(ExitReason::Succeed)));
    let mut effects = take_effects(m.into_state());
    // a sink-addressed effect is absorbed silently
    effects.push(Effect {
        address: evm_loader::resolver::system_sink_address(),
        diff: evm_loader::substate::AccountDiff {
            nonce: Some(5),
            balance: None,
            code: None,
            storage: Vec::new(),
            reset_storage: false,
            deleted: false,
        },
    });
    // a pure deletion marker at an unknown address is accepted outright
    effects.push(Effect {
        address: addr_n(200),
        diff: evm_loader::substate::AccountDiff {
            nonce: None,
            balance: None,
            code: None,
            storage: Vec::new(),
            reset_storage: false,
            deleted: true,
        },
    });
    st.apply(&effects, false).unwrap();
    let pos = st.find_account(&addr_n(10)).unwrap();
    let p = &st.accounts[pos];
    // the recorded storage write landed; the backing write is kept
    assert!(p.storage.contains(&(5, 77)));
    // an unresolved target stops the walk
    let bad = vec![Effect {
        address: addr_n(123),
        diff: evm_loader::substate::AccountDiff {
            nonce: Some(1),
            balance: None,
            code: None,
            storage: Vec::new(),
            reset_storage: false,
            deleted: false,
        },
    }];
    assert_eq!(st.apply(&bad, false), Err(HostError::NotEnoughAccountKeys));
}

fn dup(a: &RawAccount) -> RawAccount {
    let this = a;
    clone_raw(this)
}

fn clone_raw(a: &RawAccount) -> RawAccount {
        RawAccount {
            key: a.key.clone(),
            owner: a.owner.clone(),
            is_signer: a.is_signer,
            lamports: a.lamports,
            data: match &a.data {
                AccountData::Account {
                    ether,
                    code_key,
                    nonce,
                    balance,
                } => AccountData::Account {
                    ether: ether.clone(),
                    code_key: code_key.clone(),
                    nonce: *nonce,
                    balance: *balance,
                },
                AccountData::Contract { code, storage } => AccountData::Contract {
                    code: code.clone(),
                    storage: storage.clone(),
                },
                AccountData::Clock {
                    slot,
                    unix_timestamp,
                } => AccountData::Clock {
                    slot: *slot,
                    unix_timestamp: *unix_timestamp,
                },
                AccountData::Other => AccountData::Other,
            },
        }
}

#[test]
fn self_destruct_moves_the_whole_balance() {
    let mut m = fresh_machine(vec![acct(2, 0, 100, Vec::new()), acct(3, 0, 50, Vec::new())]);
    m.call_begin(&addr_n(2), &addr_n(3), Vec::new(), 1_000_000);
    let doomed = addr_n(3);
    let heir = addr_n(2);
    m.executor.mark_delete(&doomed, &heir).unwrap();
    assert_eq!(m.executor.balance(&doomed), 0);
    assert_eq!(m.executor.balance(&heir), 150);
    assert!(m.executor.deleted(&doomed));
}

#[test]
fn original_storage_reads_below_pending_writes() {
    let backing = BackendAccount {
        address: addr_n(3),
        nonce: 0,
        balance: 0,
        code: Vec::new(),
        storage: vec![(7, 70)],
    };
    let mut m = fresh_machine(vec![backing]);
    m.call_begin(&addr_n(2), &addr_n(3), Vec::new(), 1_000_000);
    let a = addr_n(3);
    assert_eq!(m.executor.storage(&a, 7), 70);
    m.executor.set_storage(&a, 7, 71).unwrap();
    assert_eq!(m.executor.storage(&a, 7), 71);
    assert_eq!(m.executor.original_storage(&a, 7), 70);
}

#[test]
fn code_hash_distinguishes_absent_accounts() {
    let mut m = fresh_machine(vec![acct(3, 1, 0, vec![0x60, 0x00])]);
    m.call_begin(&addr_n(2), &addr_n(3), Vec::new(), 1_000_000);
    // an address with no recorded state reports the zero hash
    let absent = addr_n(99);
    assert_eq!(m.executor.code_hash(&absent), vec![0u8; 32]);
    // a live account reports the digest of its code, never the zero hash
    let live = addr_n(3);
    assert_ne!(m.executor.code_hash(&live), vec![0u8; 32]);
}


#[test]
fn builtin_resolution_short_circuits_a_call() {
    // Within the depth bound, a backend-resolved built-in returns
    // immediately with its reason and output, opening no frame; without
    // one the request traps to the orchestrator.
    let mut m = fresh_machine(vec![acct(2, 0, 100, Vec::new())]);
    m.call_begin(&addr_n(2), &addr_n(3), Vec::new(), 1_000_000);
    let ctx = || Context {
        address: addr_n(5),
        caller: addr_n(3),
        apparent_value: 0,
    };
    let out = m.executor.call(
        &addr_n(5),
        None,
        vec![1, 2],
        None,
        false,
        ctx(),
        Some((ExitReason::Succeed, vec![0xaa])),
    );
    match out {
        CallOutcome::Exit(reason, data) => {
            assert_eq!(reason, ExitReason::Succeed);
            assert_eq!(data, vec![0xaa]);
        }
        CallOutcome::Trap(_) => panic!("expected the built-in resolution"),
    }
    assert_eq!(m.frames.len(), 1);
    let out = m.executor.call(&addr_n(5), None, vec![1, 2], None, false, ctx(), None);
    assert!(matches!(out, CallOutcome::Trap(_)));
}
