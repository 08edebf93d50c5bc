//! Build-time configuration of the packet-filter programs: the target
//! architecture and the options of a build invocation.

use vstd::prelude::*;

verus! {

/// The endianness of the packet-filter build target.
#[derive(Debug, Copy, Clone, PartialEq, Eq, Structural)]
pub enum Architecture {
    BpfEl,
    BpfEb,
}

impl Architecture {
    /// The target triple this architecture builds for.
    pub fn target_str(&self) -> (r: &'static str)
        ensures
            *self is BpfEl ==> r@ == "bpfel-unknown-none"@,
            *self is BpfEb ==> r@ == "bpfeb-unknown-none"@,
    {
        match self {
            Architecture::BpfEl => "bpfel-unknown-none",
            Architecture::BpfEb => "bpfeb-unknown-none",
        }
    }
}

/// The options of one packet-filter build.
#[derive(Debug, Copy, Clone, PartialEq, Eq, Structural)]
pub struct Options {
    pub target: Architecture,
    pub release: bool,
}

} // verus!
