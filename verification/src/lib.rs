//! Flattening a directory tree into one line of text per matching file.
//!
//! A walker enumerates the files below a root whose names end with a given
//! suffix, in a fixed order, and an emitter turns each file into one record:
//! its path, a tab, its contents with every run of whitespace collapsed to
//! a single space, and a newline. A bounded queue stands between the two.
//!
//! The library holds the decisions and leaves the waiting, the listing of
//! directories, the reading of files and the writing of records to whoever
//! drives it.
//!
//! - [`name`], [`order`], [`frame`]: names as byte strings, their order,
//!   and one level of a directory classified and sorted.
//! - [`walker`]: the walk as a state that is driven one listing at a time.
//! - [`snapshot`], [`walk`], [`survey`]: a tree held in memory, what a walk
//!   of it publishes, and the walk itself.
//! - [`census`], [`laws`]: what holds of every walk.
//! - [`whitespace`], [`emitter`]: whitespace, its collapsing, and records.
//! - [`queue`], [`pipeline`], [`transfer`]: the queue, the life of a run,
//!   a run over a tree held in memory, and what holds of a run however its
//!   two sides take turns.
//! - [`views`], [`tally`]: lemmas on lists of names and on sums of
//!   multisets.

pub mod name;
pub mod views;
pub mod order;
pub mod tally;
pub mod frame;
pub mod walker;
pub mod snapshot;
pub mod walk;
pub mod survey;
pub mod census;
pub mod laws;
pub mod whitespace;
pub mod emitter;
pub mod queue;
pub mod pipeline;
pub mod transfer;
