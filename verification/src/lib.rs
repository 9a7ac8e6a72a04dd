//! A static lifetime-and-borrow analyzer over an already-parsed program
//! representation: nested regions, bindings, shared and exclusive borrows,
//! lifetime elision, outlives constraints and universally quantified bounds.
//!
//! The parts, from the leaves up:
//!
//! - [`region`]: the forest of nested regions and its containment queries;
//! - [`binding`]: the value slots and what was moved out of them;
//! - [`borrow`]: the borrows of each binding and the rule of exclusivity;
//! - [`checker`]: regions, bindings and borrows of one fragment together;
//! - [`transitions`]: every operation on them keeps their invariant;
//! - [`signature`], [`elision`]: signatures and the lifetimes they omit;
//! - [`outlives`], [`callsite`]: constraints among lifetimes, and their
//!   resolution against the regions of the arguments of a call;
//! - [`universal`]: bounds that must hold for every lifetime;
//! - [`program`], [`liveness`], [`block`]: the steps of a block, the last
//!   use of each borrow, and the analysis of the block;
//! - [`invariants`]: what holds of every state of every run of a block;
//! - [`diagnostic`]: the kinds of failure and how they are reported;
//! - [`analyzer`]: fragments in, outcomes or diagnostics out.
//!
//! Every function is verified against its contract. The contracts speak
//! of sequences and multisets: the view of a table is the sequence of its
//! entries, the borrows of a binding are a multiset of their kinds.

pub mod diagnostic;
pub mod util;
pub mod region;
pub mod lifetime;
pub mod binding;
pub mod borrow;
pub mod checker;
pub mod transitions;
pub mod signature;
pub mod elision;
pub mod outlives;
pub mod callsite;
pub mod universal;
pub mod program;
pub mod liveness;
pub mod block;
pub mod invariants;
pub mod analyzer;
