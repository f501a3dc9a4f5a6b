//! A resumable interpreter core for Ethereum-style contract execution on a
//! hosted account backend.
//!
//! The crate has three parts: an address resolver that maps 160-bit account
//! addresses to positional backing accounts, a host bridge that answers every
//! query and mutation an interpreter needs against a stack of transactional
//! substate regions, and a frame orchestrator that drives nested call/create
//! activations, applying commit/revert/discard rules on each exit and
//! supporting byte-exact suspension and resumption.

pub mod bytes;
pub mod addr;
pub mod hashing;
pub mod substate;
pub mod bridge;
pub mod errors;
pub mod machine;
pub mod codec;
pub mod resolver;
pub mod logs;

pub use addr::Address;
pub use bridge::Config;
pub use bridge::Executor;
pub use bridge::ExitError;
pub use bridge::ExitFatal;
pub use bridge::ExitReason;
pub use errors::HostError;
pub use machine::CreateReason;
pub use machine::Machine;
pub use machine::StepEvent;
pub use machine::StepResult;
pub use machine::l64;
pub use logs::LogContext;
pub use resolver::ProgramAccountStorage;
pub use resolver::Sender;
pub use substate::ExecutorState;
