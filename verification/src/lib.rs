//! Reactive Extensions in the shape of state machines.
//!
//! `ferx` provides a hot [`Subject`] on top of `tokio::sync::broadcast`, a cold
//! [`Observable`], and a set of composable operators
//! (`map`/`filter`/`take`/`take_while`/`skip`/`merge`).
//!
//! Nothing in here waits. An operator builds a stage, a subscription is a
//! [`Feed`]; both are driven by whoever awaits the source, who hands over what
//! arrived as an [`Inbound`] and does what the returned [`Step`] says. User
//! closures are called through a guard: `None` means that the closure failed.

pub mod channel;
pub mod error;
pub mod feed;
pub mod guard;
pub mod observable;
pub mod operators;
pub mod policy;
pub mod runs;
mod sealed;
pub mod signal;
pub mod stage;
pub mod subject;

pub use channel::{Channel, Tap};
pub use error::{report, SendError};
pub use feed::{deliver, goes_on, Feed};
pub use guard::panic_message;
pub use observable::{open_stream, stream_item, Observable};
pub use operators::{
    filter_by, take_while_by, Arm, Asked, Bell, FilterStage, Judge, MapStage, MergeArm,
    MergeProgress, Merged, Piped, SkipStage, Start, TakeStage, TakeWhileStage,
};
pub use policy::{NoReplay, SubjectPolicy};
pub use runs::{Factory, Runs};
pub use signal::{is_terminal, ChannelSignal, Signal, TerminalState};
pub use stage::{Inbound, Step};
pub use subject::{SourceSnapshot, Subject};
