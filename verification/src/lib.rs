//! Keeps a hosts-resolution file in sync with a set of running containers.
//!
//! The library models a hosts file as an ordered list of sections (an
//! unnamed preamble followed by named, marker-delimited sections), computes
//! the set difference between the managed section's entries and a freshly
//! observed container set, and decides per cycle whether and how the file
//! must change. All file, network and process I/O lives outside the library.

pub mod docker;
pub mod hosts;
pub mod hosts_updater;
pub mod text;

use vstd::prelude::*;

verus! {

} // verus!
