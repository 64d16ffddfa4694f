//! Terminal-session logging: path scheme, rotating link chains, session
//! planning and byte-level sanitizing of captured terminal output.
//!
//! The filesystem is the only persisted state. This library decides what is
//! to be done to it, as lists of actions over a model of the filesystem; the
//! caller performs them.

use vstd::prelude::*;

pub mod text;
pub mod paths;
pub mod fsmodel;
pub mod chain;
pub mod pattern;
pub mod sanitize;
pub mod session;

verus! {

} // verus!
