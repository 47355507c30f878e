//! A closable rendezvous channel, as a sequential state machine.
//!
//! A rendezvous channel has no buffer: every transfer pairs one sender with
//! one receiver, and a call that finds no peer waits. This crate holds the
//! channel's rules and proves them; it does not suspend or wake threads.
//!
//! A call that cannot be paired at once registers a [`Slot`] in the
//! [`Queue`] and is handed a [`Waiter`]. The caller lets it take a look
//! whenever it wakes, with [`Queue::send_resume`] or
//! [`Queue::recv_resume`], which say how long to sleep on or how the call
//! ended. [`Queue::take_wakeups`] names the calls that an operation has
//! served or dismissed, for the caller to wake. Time is a count of ticks
//! of a clock that never runs back, in a unit of the caller's choice.
//!
//! The modules:
//! - [`model`]: the channel as a mathematical [`State`], and each
//!   operation as a function on it;
//! - [`queue`]: the executable [`Queue`], whose operations are proved to
//!   compute those functions;
//! - [`slot`], [`wait`], [`errors`]: the record of a waiting call, the
//!   decision of the wait loop, and the ways to fail;
//! - [`history`]: runs of operations;
//! - [`wellformed`], [`conservation`], [`transfer`], [`order`],
//!   [`closing`]: what is proved of every run: the channel stays well
//!   formed, no value is lost or made, each waiting call ends as it
//!   should, each queue serves in order of arrival, and a close is final.

pub mod closing;
pub mod conservation;
pub mod errors;
pub mod history;
pub mod model;
pub mod order;
pub mod queue;
pub mod slot;
pub mod transfer;
pub mod wait;
pub mod wellformed;

pub use errors::{
    RecvError, RecvTimeoutError, SendError, SendTimeoutError, TryRecvError, TrySendError,
};
pub use model::State;
pub use queue::Queue;
pub use slot::{Side, Slot};
pub use wait::{Resume, Step, Wait, Waiter};
