//! Live raw/render file counting for a user-defined photo-storage hierarchy.
//!
//! The crate is organised as one pipeline: a pattern-language compiler
//! ([`layout`]), a crawl engine that walks a directory-tree snapshot according
//! to a compiled pattern ([`fstree`], [`crawl`]), and an incremental count
//! aggregator that turns per-album file snapshots into stable count-update
//! events ([`counter`]). The message types shared between the stages live in
//! [`events`], the worker harness's error values in [`worker`], and a
//! simpler per-group counting path in [`watcher`]. Everything that does I/O
//! — reading directories, watching for changes, serving subscribers — stays
//! outside the library and talks to it through plain values.

pub mod counter;
pub mod crawl;
pub mod events;
pub mod fstree;
pub mod layout;
pub mod strutil;
pub mod watcher;
pub mod worker;

use vstd::prelude::*;

verus! {

} // verus!
