//! The configured size of one block of an arena.

use vstd::prelude::*;

verus! {

/// Size in bytes of one block of the chain.
#[derive(Clone, Copy, Debug, PartialEq, Eq, Structural)]
pub struct StackSize(pub usize);

impl StackSize {
    /// The number of bytes this size stands for.
    pub open spec fn spec_bytes(self) -> nat {
        self.0 as nat
    }

    /// A size of `bytes` bytes.
    pub fn from_num_bytes(bytes: usize) -> (size: Self)
        ensures
            size.spec_bytes() == bytes,
    {
        StackSize(bytes)
    }

    /// The size in bytes.
    pub fn bytes(self) -> (bytes: usize)
        ensures
            bytes == self.spec_bytes(),
    {
        self.0
    }
}

impl Default for StackSize {
    /// One kibibyte, the block size of an arena made without an explicit size.
    fn default() -> (size: Self)
        ensures
            size.spec_bytes() == 1024,
    {
        StackSize::from_num_bytes(1024)
    }
}

} // verus!
