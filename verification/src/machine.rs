//! The frame orchestrator: a stack of interpreter activations over the
//! substate stack, with the commit/revert/discard rule applied at every
//! frame exit.
//!
//! One interpreter micro-step on the top frame is performed outside this
//! machine; what it yielded comes back as a `StepEvent`. The machine owns
//! everything else: the frame stack, the substate regions, the depth and
//! collision rules (through the bridge), the deployed-code-size bound, and
//! the delivery of a finished frame's outcome to its parent.

use vstd::prelude::*;
use crate::addr::Address;
use crate::bridge::CallInterrupt;
use crate::bridge::Config;
use crate::bridge::Context;
use crate::bridge::CreateInterrupt;
use crate::bridge::ExitError;
use crate::bridge::ExitFatal;
use crate::bridge::ExitReason;
use crate::bridge::Executor;
use crate::bytes::clone_bytes;
use crate::errors::HostError;
use crate::substate::ExecutorState;
use crate::substate::zero_slots;

verus! {

/// Whether deployed code of the given size passes the configured bound.
pub open spec fn over_code_limit(cfg: Config, len: nat) -> bool {
    match cfg.create_contract_limit {
        Some(l) => len > l,
        None => false,
    }
}

/// The reason a finished frame hands on: a successful creation whose code
/// is too large is rewritten to `CreateContractLimit`.
pub open spec fn exit_outcome_reason(cfg: Config, is_create: bool, reason: ExitReason, retlen: nat) -> ExitReason {
    if is_create && reason == ExitReason::Succeed && over_code_limit(cfg, retlen) {
        ExitReason::Error(ExitError::CreateContractLimit)
    } else {
        reason
    }
}

/// Whether a finished frame's region is committed rather than dropped.
pub open spec fn exit_commits(cfg: Config, is_create: bool, reason: ExitReason, retlen: nat) -> bool {
    reason == ExitReason::Succeed && !(is_create && over_code_limit(cfg, retlen))
}

/// Retained gas after the one-64th withholding rule.
pub fn l64(gas: u64) -> (r: u64)
    ensures
        r == gas - gas / 64,
{
    gas - gas / 64
}

/// The provenance of a frame: a plain call, or a creation bound for the
/// derived address.
#[verifier::ext_equal]
pub enum CreateReason {
    Call,
    Create(Address),
}

/// One interpreter activation.
#[verifier::ext_equal]
pub struct Frame {
    /// Why the frame was opened.
    pub kind: CreateReason,
    /// The code the frame executes: contract code, or init code.
    pub code: Vec<u8>,
    /// The call data handed to the frame; empty for a creation.
    pub input: Vec<u8>,
    /// The execution context the frame runs in.
    pub context: Context,
    /// The interpreter's opaque micro-state snapshot, as of the last
    /// yielded event; what `persist` stores for this frame.
    pub micro: Vec<u8>,
    /// The frame's return buffer, as of its exit.
    pub ret: Vec<u8>,
}

/// What the interpreter yielded for one micro-step of the top frame.
/// Events carrying `micro` hand back the updated micro-state snapshot of
/// the frame that yielded.
pub enum StepEvent {
    /// The step completed with no orchestration request.
    Continue { micro: Vec<u8> },
    /// The step trapped on a call request issued through the bridge.
    CallRequest { interrupt: CallInterrupt, micro: Vec<u8> },
    /// The step trapped on a create request issued through the bridge.
    CreateRequest { interrupt: CreateInterrupt, micro: Vec<u8> },
    /// The frame finished with a reason and its return buffer.
    Exit { reason: ExitReason, return_value: Vec<u8> },
}

/// What one orchestration step asks of the surrounding loop.
pub enum StepResult {
    /// Keep stepping the (possibly new) top frame.
    Continue,
    /// Feed the finished call's reason and return data to the new top
    /// frame, then keep stepping.
    DeliverToCall { reason: ExitReason, return_value: Vec<u8> },
    /// Feed the finished creation's reason, address and return data to
    /// the new top frame, then keep stepping.
    DeliverToCreate { reason: ExitReason, address: Option<Address>, return_value: Vec<u8> },
    /// The outermost frame finished: the machine terminated with this
    /// reason.
    Done(ExitReason),
}

/// The target a creation frame is bound for, if the frame is one.
pub open spec fn kind_target(k: CreateReason) -> Option<Seq<u8>> {
    match k {
        CreateReason::Call => None,
        CreateReason::Create(a) => Some(a@),
    }
}

/// The reason a step result carries, if any.
pub open spec fn res_reason(r: StepResult) -> Option<ExitReason> {
    match r {
        StepResult::Continue => None,
        StepResult::DeliverToCall { reason, return_value } => Some(reason),
        StepResult::DeliverToCreate { reason, address, return_value } => Some(reason),
        StepResult::Done(e) => Some(e),
    }
}

/// The return data a delivery carries.
pub open spec fn res_ret(r: StepResult) -> Seq<u8> {
    match r {
        StepResult::Continue => Seq::empty(),
        StepResult::DeliverToCall { reason, return_value } => return_value@,
        StepResult::DeliverToCreate { reason, address, return_value } => return_value@,
        StepResult::Done(e) => Seq::empty(),
    }
}

/// The created address a create delivery carries, if any.
pub open spec fn res_address(r: StepResult) -> Option<Seq<u8>> {
    match r {
        StepResult::DeliverToCreate { reason, address, return_value } => match address {
            Some(a) => Some(a@),
            None => None,
        },
        _ => None,
    }
}

/// The frame-stack orchestrator.
pub struct Machine {
    pub executor: Executor,
    pub frames: Vec<Frame>,
}

/// Addresses inside a frame are 20 bytes.
pub open spec fn frame_wf(f: Frame) -> bool {
    &&& match f.kind {
        CreateReason::Call => true,
        CreateReason::Create(a) => a.wf(),
    }
    &&& f.context.address.wf()
    &&& f.context.caller.wf()
}

/// Addresses inside an event are 20 bytes.
pub open spec fn event_wf(ev: StepEvent) -> bool {
    match ev {
        StepEvent::Continue { micro } => true,
        StepEvent::CallRequest { interrupt, micro } => interrupt.code_address.wf()
            && interrupt.context.address.wf() && interrupt.context.caller.wf(),
        StepEvent::CreateRequest { interrupt, micro } => interrupt.address.wf()
            && interrupt.context.address.wf() && interrupt.context.caller.wf(),
        StepEvent::Exit { reason, return_value } => true,
    }
}

impl Machine {
    /// Structural soundness: the substate is sound and every frame's
    /// addresses are real ones.
    pub open spec fn wf_base(&self) -> bool {
        &&& self.executor.wf()
        &&& forall|i: int| 0 <= i < self.frames@.len() ==> frame_wf(#[trigger] self.frames@[i])
    }

    /// An executing machine: one substate region per frame above the
    /// accumulator layer. This holds from construction until the
    /// outermost frame exits.
    pub open spec fn active(&self) -> bool {
        self.executor.state.layers@.len() == self.frames@.len() + 1
    }

    /// A terminated machine: the last frame's region was folded away or
    /// dropped, only the accumulator layer remains.
    pub open spec fn done(&self) -> bool {
        self.frames@.len() == 1 && self.executor.state.layers@.len() == 1
    }

    /// A fresh machine over a substate holding only its accumulator
    /// layer, run under the standard rules.
    pub fn new(state: ExecutorState) -> (m: Machine)
        requires
            state.wf(),
            state.layers@.len() == 1,
        ensures
            m.wf_base(),
            m.active(),
            m.frames@.len() == 0,
            m.executor.state == state,
            m.executor.config == Config::standard_spec(),
    {
        let executor = Executor { state, config: Config::standard() };
        Machine { executor, frames: Vec::new() }
    }

    /// The top frame's return buffer; a creation frame yields an empty
    /// buffer, since deployed code is not a call's return value.
    pub fn return_value(&self) -> (r: Vec<u8>)
        ensures
            self.frames@.len() == 0 ==> r@.len() == 0,
            self.frames@.len() > 0 ==> match self.frames@.last().kind {
                CreateReason::Create(_) => r@.len() == 0,
                CreateReason::Call => r@ == self.frames@.last().ret@,
            },
    {
        if self.frames.len() == 0 {
            return Vec::new();
        }
        let top = &self.frames[self.frames.len() - 1];
        match &top.kind {
            CreateReason::Create(_) => Vec::new(),
            CreateReason::Call => clone_bytes(&top.ret),
        }
    }

    /// Begins a top-level call: bumps the caller's nonce, opens the
    /// frame's region, marks the target touched and pushes a call frame
    /// running the target's code. Valid only before any frame exists.
    #[verifier::rlimit(60)]
    pub fn call_begin(&mut self, caller: &Address, code_address: &Address, input: Vec<u8>, _gas_limit: u64)
        requires
            old(self).wf_base(),
            old(self).active(),
            old(self).frames@.len() == 0,
            caller.wf(),
            code_address.wf(),
        ensures
            final(self).wf_base(),
            final(self).active(),
            final(self).frames@.len() == 1,
            final(self).executor.config == old(self).executor.config,
            final(self).frames@.last().kind is Call,
            final(self).frames@.last().code@ == old(self).executor.state.acct(code_address@).code,
            final(self).frames@.last().input == input,
            final(self).frames@.last().context.address@ == code_address@,
            final(self).frames@.last().context.caller@ == caller@,
            final(self).frames@.last().context.apparent_value == 0,
            final(self).frames@.last().ret@.len() == 0,
            old(self).executor.state.acct(caller@).nonce < u64::MAX ==> final(self).executor.state.acct(caller@).nonce == old(self).executor.state.acct(caller@).nonce
                + 1,
            final(self).executor.state.known(code_address@),
            forall|b: Seq<u8>|
                b != caller@ ==> #[trigger] final(self).executor.state.acct(b) == old(self).executor.state.acct(b),
    {
        self.executor.state.inc_nonce(caller);
        let ghost s1 = self.executor.state;
        self.executor.state.enter();
        let ghost s2 = self.executor.state;
        self.executor.state.touch(code_address);
        proof {
            assert forall|b: Seq<u8>| b != caller@ implies #[trigger] self.executor.state.acct(b)
                == old(self).executor.state.acct(b) by {
                assert(s1.acct(b) == old(self).executor.state.acct(b));
                assert(s2.acct(b) == s1.acct(b));
                assert(self.executor.state.acct(b) == s2.acct(b));
            }
            assert(s2.acct(code_address@) == s1.acct(code_address@));
            assert(self.executor.state.acct(code_address@).code == old(self).executor.state.acct(
                code_address@,
            ).code);
        }
        let code = self.executor.code(code_address);
        let context = Context {
            address: code_address.clone(),
            caller: caller.clone(),
            apparent_value: 0,
        };
        let frame = Frame {
            kind: CreateReason::Call,
            code,
            input,
            context,
            micro: Vec::new(),
            ret: Vec::new(),
        };
        self.frames.push(frame);
    }

    /// Begins a top-level creation by the legacy scheme. The depth and
    /// collision rules of the bridge's `create` apply before any region
    /// opens: on an immediate exit the machine stays empty — the caller's
    /// nonce bump of a collision stands — and the error is reported.
    /// Otherwise the frame's region opens, the target is touched, its
    /// storage reset, its nonce advanced when the rules say so, and a
    /// create frame running the init code is pushed.
    pub fn create_begin(&mut self, caller: &Address, code: Vec<u8>, _gas_limit: u64) -> (r:
        Result<(), HostError>)
        requires
            old(self).wf_base(),
            old(self).active(),
            old(self).frames@.len() == 0,
            caller.wf(),
        ensures
            final(self).wf_base(),
            final(self).active(),
            final(self).executor.config == old(self).executor.config,
            r is Err ==> r == Result::<(), HostError>::Err(HostError::InvalidInstructionData)
                && final(self).frames@.len() == 0,
            1 > old(self).executor.config.call_stack_limit ==> r is Err && *final(self) == *old(self),
            1 <= old(self).executor.config.call_stack_limit ==> {
                let a = crate::hashing::legacy_of(
                    caller@,
                    old(self).executor.state.acct(caller@).nonce,
                );
                &&& final(self).executor.state.acct(caller@).nonce == old(self).executor.post_nonce(
                    caller@,
                    caller@,
                )
                &&& (Executor::create_collides(old(self).executor, caller@, a) <==> r is Err)
                &&& (r is Ok ==> {
                    &&& final(self).frames@.len() == 1
                    &&& final(self).frames@.last().kind is Create
                    &&& kind_target(final(self).frames@.last().kind) == Some(a)
                    &&& final(self).frames@.last().code == code
                    &&& final(self).frames@.last().input@.len() == 0
                    &&& final(self).frames@.last().context.address@ == a
                    &&& final(self).frames@.last().context.caller@ == caller@
                    &&& final(self).frames@.last().context.apparent_value == 0
                    &&& final(self).executor.state.known(a)
                    &&& final(self).executor.state.acct(a).storage
                        == crate::substate::zero_slots()
                    &&& (old(self).executor.config.create_increase_nonce ==> final(self).executor.state.acct(a).nonce == 1)
                    &&& (!old(self).executor.config.create_increase_nonce ==> final(self).executor.state.acct(a).nonce == 0)
                })
            },
    {
        let scheme = crate::bridge::CreateScheme::Legacy { caller: caller.clone() };
        match self.executor.create(caller, scheme, 0, code, None) {
            crate::bridge::CreateOutcome::Exit(_) => Err(HostError::InvalidInstructionData),
            crate::bridge::CreateOutcome::Trap(info) => {
                let ghost s1 = self.executor.state;
                proof {
                    assert(info.address@ != caller@);
                    assert(s1.acct(info.address@).nonce == 0);
                }
                self.executor.state.enter();
                let ghost s2 = self.executor.state;
                self.executor.state.touch(&info.address);
                let ghost s3 = self.executor.state;
                self.executor.state.reset_storage(&info.address);
                proof {
                    assert(s2.acct(info.address@) == s1.acct(info.address@));
                    assert(s3.acct(info.address@).nonce == 0);
                    assert(self.executor.state.acct(info.address@).nonce == 0);
                }
                if self.executor.config.create_increase_nonce {
                    self.executor.state.inc_nonce(&info.address);
                }
                let frame = Frame {
                    kind: CreateReason::Create(info.address),
                    code: info.init_code,
                    input: Vec::new(),
                    context: info.context,
                    micro: Vec::new(),
                    ret: Vec::new(),
                };
                self.frames.push(frame);
                Ok(())
            },
        }
    }

    /// Applies one interpreter event to the machine.
    ///
    /// `Continue` only stores the top frame's new micro-state. A call or
    /// create request stores it too, then opens a region and pushes the
    /// child frame — a creation also resets the target's storage and, per
    /// configuration, advances its nonce. An exit applies the
    /// commit/revert/discard rule to the finished frame's region: Succeed
    /// commits — except a creation whose code passes the configured size
    /// bound, which is discarded under `CreateContractLimit` — Revert and
    /// Error and Fatal discard, so the parent sees exactly the state from
    /// before the frame was entered. A finished inner frame is popped and
    /// its outcome handed back for delivery to the new top frame; the
    /// outermost frame stays, and its reason is the machine's result.
    pub fn step(&mut self, ev: StepEvent) -> (r: StepResult)
        requires
            old(self).wf_base(),
            old(self).active(),
            event_wf(ev),
        ensures
            final(self).wf_base(),
            final(self).executor.config == old(self).executor.config,
            final(self).executor.state.backend == old(self).executor.state.backend,
            old(self).frames@.len() == 0 ==> *final(self) == *old(self) && r matches
                StepResult::Done(ExitReason::Fatal(ExitFatal::NotSupported)),
            ev matches StepEvent::Continue { micro } ==> (old(self).frames@.len() > 0 ==> {
                &&& r is Continue
                &&& final(self).active()
                &&& final(self).frames@.len() == old(self).frames@.len()
                &&& final(self).frames@.drop_last() == old(self).frames@.drop_last()
                &&& final(self).frames@.last().micro == micro
                &&& final(self).frames@.last().kind == old(self).frames@.last().kind
                &&& final(self).frames@.last().code == old(self).frames@.last().code
                &&& final(self).frames@.last().input == old(self).frames@.last().input
                &&& final(self).frames@.last().context == old(self).frames@.last().context
                &&& final(self).frames@.last().ret == old(self).frames@.last().ret
                &&& final(self).executor == old(self).executor
            }),
            ev matches StepEvent::CallRequest { interrupt, micro } ==> (old(self).frames@.len()
                > 0 ==> {
                &&& r is Continue
                &&& final(self).active()
                &&& final(self).frames@.len() == old(self).frames@.len() + 1
                &&& final(self).frames@[old(self).frames@.len() - 1].micro == micro
                &&& final(self).frames@.subrange(0, old(self).frames@.len() - 1) == old(self).frames@.subrange(0, old(self).frames@.len() - 1)
                &&& final(self).frames@.last().kind is Call
                &&& final(self).frames@.last().code@ == old(self).executor.state.acct(
                    interrupt.code_address@,
                ).code
                &&& final(self).frames@.last().input == interrupt.input
                &&& final(self).frames@.last().context == interrupt.context
                &&& final(self).frames@.last().ret@.len() == 0
                &&& forall|b: Seq<u8>|
                    #[trigger] final(self).executor.state.acct(b) == old(self).executor.state.acct(
                        b,
                    )
                &&& final(self).executor.state.known(interrupt.code_address@)
            }),
            ev matches StepEvent::CreateRequest { interrupt, micro } ==> (old(self).frames@.len()
                > 0 ==> {
                let t = interrupt.address@;
                &&& r is Continue
                &&& final(self).active()
                &&& final(self).frames@.len() == old(self).frames@.len() + 1
                &&& final(self).frames@[old(self).frames@.len() - 1].micro == micro
                &&& final(self).frames@.subrange(0, old(self).frames@.len() - 1) == old(self).frames@.subrange(0, old(self).frames@.len() - 1)
                &&& final(self).frames@.last().kind is Create
                &&& kind_target(final(self).frames@.last().kind) == Some(t)
                &&& final(self).frames@.last().code == interrupt.init_code
                &&& final(self).frames@.last().input@.len() == 0
                &&& final(self).frames@.last().context == interrupt.context
                &&& forall|b: Seq<u8>|
                    b != t ==> #[trigger] final(self).executor.state.acct(b) == old(self).executor.state.acct(b)
                &&& final(self).executor.state.known(t)
                &&& final(self).executor.state.acct(t).storage == zero_slots()
                &&& final(self).executor.state.acct(t).code == old(self).executor.state.acct(
                    t,
                ).code
                &&& final(self).executor.state.acct(t).balance == old(self).executor.state.acct(
                    t,
                ).balance
                &&& (old(self).executor.config.create_increase_nonce && old(self).executor.state.acct(t).nonce < u64::MAX ==> final(self).executor.state.acct(
                    t,
                ).nonce == old(self).executor.state.acct(t).nonce + 1)
                &&& (!old(self).executor.config.create_increase_nonce ==> final(self).executor.state.acct(t).nonce == old(self).executor.state.acct(t).nonce)
            }),
            ev matches StepEvent::Exit { reason, return_value } ==> (old(self).frames@.len() > 0
                ==> {
                let is_create = old(self).frames@.last().kind is Create;
                let cfg = old(self).executor.config;
                let actual = exit_outcome_reason(cfg, is_create, reason, return_value@.len());
                let commits = exit_commits(cfg, is_create, reason, return_value@.len());
                let created = kind_target(old(self).frames@.last().kind);
                &&& (old(self).frames@.len() > 1 ==> {
                    &&& final(self).active()
                    &&& final(self).frames@ == old(self).frames@.drop_last()
                    &&& (!is_create ==> r is DeliverToCall && res_reason(r) == Some(reason)
                        && res_ret(r) == return_value@)
                    &&& (is_create ==> r is DeliverToCreate && res_reason(r) == Some(actual)
                        && res_ret(r) == return_value@ && (commits ==> res_address(r) == created)
                        && (!commits ==> res_address(r) is None))
                })
                &&& (old(self).frames@.len() == 1 ==> {
                    &&& final(self).done()
                    &&& final(self).frames@.len() == 1
                    &&& final(self).frames@.last().ret@ == return_value@
                    &&& final(self).frames@.last().kind == old(self).frames@.last().kind
                    &&& r is Done && res_reason(r) == Some(actual)
                })
                &&& (!commits ==> final(self).executor.state.layers@ == old(self).executor.state.layers@.drop_last())
                &&& (commits && !is_create ==> final(self).executor.state.chain() == old(self).executor.state.chain() && final(self).executor.state.logs_view() == old(self).executor.state.logs_view())
                &&& (commits && is_create ==> {
                    let c = created.unwrap();
                    &&& forall|b: Seq<u8>|
                        b != c ==> #[trigger] final(self).executor.state.acct(b) == old(self).executor.state.acct(b)
                    &&& final(self).executor.state.acct(c).code == return_value@
                    &&& final(self).executor.state.acct(c).nonce == old(self).executor.state.acct(c).nonce
                    &&& final(self).executor.state.acct(c).balance == old(self).executor.state.acct(c).balance
                    &&& final(self).executor.state.acct(c).storage == old(self).executor.state.acct(c).storage
                })
            }),
    {
        if self.frames.len() == 0 {
            return StepResult::Done(ExitReason::Fatal(ExitFatal::NotSupported));
        }
        match ev {
            StepEvent::Continue { micro } => {
                let mut top = self.frames.pop().unwrap();
                top.micro = micro;
                self.frames.push(top);
                StepResult::Continue
            },
            StepEvent::CallRequest { interrupt, micro } => {
                let mut top = self.frames.pop().unwrap();
                top.micro = micro;
                self.frames.push(top);
                let code = self.executor.code(&interrupt.code_address);
                self.executor.state.enter();
                self.executor.state.touch(&interrupt.code_address);
                let frame = Frame {
                    kind: CreateReason::Call,
                    code,
                    input: interrupt.input,
                    context: interrupt.context,
                    micro: Vec::new(),
                    ret: Vec::new(),
                };
                self.frames.push(frame);
                proof {
                    assert(self.frames@.subrange(0, old(self).frames@.len() - 1)
                        =~= old(self).frames@.subrange(0, old(self).frames@.len() - 1));
                }
                StepResult::Continue
            },
            StepEvent::CreateRequest { interrupt, micro } => {
                let mut top = self.frames.pop().unwrap();
                top.micro = micro;
                self.frames.push(top);
                self.executor.state.enter();
                self.executor.state.touch(&interrupt.address);
                self.executor.state.reset_storage(&interrupt.address);
                if self.executor.config.create_increase_nonce {
                    self.executor.state.inc_nonce(&interrupt.address);
                }
                let frame = Frame {
                    kind: CreateReason::Create(interrupt.address),
                    code: interrupt.init_code,
                    input: Vec::new(),
                    context: interrupt.context,
                    micro: Vec::new(),
                    ret: Vec::new(),
                };
                self.frames.push(frame);
                proof {
                    assert(self.frames@.subrange(0, old(self).frames@.len() - 1)
                        =~= old(self).frames@.subrange(0, old(self).frames@.len() - 1));
                }
                StepResult::Continue
            },
            StepEvent::Exit { reason, return_value } => {
                let ret = return_value;
                let mut top = self.frames.pop().unwrap();
                top.ret = clone_bytes(&ret);
                self.frames.push(top);
                let is_succeed = match reason {
                    ExitReason::Succeed => true,
                    _ => false,
                };
                match reason {
                    ExitReason::Succeed => {},
                    ExitReason::Revert => self.executor.state.exit_revert(),
                    ExitReason::Error(_) => self.executor.state.exit_discard(),
                    ExitReason::Fatal(_) => self.executor.state.exit_discard(),
                }
                let n = self.frames.len();
                let is_call = match &self.frames[n - 1].kind {
                    CreateReason::Call => true,
                    CreateReason::Create(_) => false,
                };
                if is_call {
                    if is_succeed {
                        self.executor.state.exit_commit();
                    }
                    if n > 1 {
                        self.frames.pop();
                        proof {
                            assert(self.frames@ =~= old(self).frames@.drop_last());
                        }
                        StepResult::DeliverToCall { reason, return_value: ret }
                    } else {
                        StepResult::Done(reason)
                    }
                } else {
                    let created = match &self.frames[n - 1].kind {
                        CreateReason::Create(a) => a.clone(),
                        CreateReason::Call => Address::zero(),
                    };
                    let mut actual_reason = reason;
                    let mut actual_address: Option<Address> = None;
                    if is_succeed {
                        let mut commit = true;
                        match self.executor.config.create_contract_limit {
                            Some(limit) => {
                                if ret.len() as u64 > limit {
                                    self.executor.state.exit_discard();
                                    actual_reason = ExitReason::Error(
                                        ExitError::CreateContractLimit,
                                    );
                                    commit = false;
                                }
                            },
                            None => {},
                        }
                        if commit {
                            self.executor.state.exit_commit();
                            self.executor.state.set_code(&created, clone_bytes(&ret));
                            actual_address = Some(created);
                        }
                    }
                    if n > 1 {
                        self.frames.pop();
                        proof {
                            assert(self.frames@ =~= old(self).frames@.drop_last());
                        }
                        StepResult::DeliverToCreate {
                            reason: actual_reason,
                            address: actual_address,
                            return_value: ret,
                        }
                    } else {
                        StepResult::Done(actual_reason)
                    }
                }
            },
        }
    }

    /// Surrenders the substate, for effect extraction after termination.
    pub fn into_state(self) -> (r: ExecutorState)
        ensures
            r == self.executor.state,
    {
        self.executor.state
    }
}

} // verus!
