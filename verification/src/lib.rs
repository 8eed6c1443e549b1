//! Core engine for virtual branches over one working directory.
//!
//! The engine journals edits as replayable operations grouped into sessions,
//! assigns every changed region of every file to exactly one applied virtual
//! branch, materializes and removes a branch's claimed changes on apply and
//! unapply, and converts accumulated session data into commit objects on
//! flush, all as pure in-memory state transitions. The collaborators the
//! engine is specified against (the version-control backend, the working
//! directory accessor, the document index, the host dispatch layer) perform
//! the surrounding I/O and hand plain values in and out.

pub mod error;
pub mod keyed;
pub mod ops;
pub mod ownership;
pub mod diff;
pub mod session;
pub mod vbranch;
pub mod basesync;
pub mod project;
pub mod flush;
pub mod handler;
pub mod lifecycle;
pub mod search;
pub mod config;
