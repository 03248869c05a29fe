use vstd::prelude::*;

verus! {

/// A capability for a block store that lives on the other side of a host
/// boundary. The host hands such capabilities out as integer handles; the
/// core only carries the handle, it never interprets it.
pub struct Blockstore {
    pub handle: u32,
}

impl Blockstore {
    /// The raw handle this capability carries.
    pub fn handle(&self) -> (r: u32)
        ensures
            r == self.handle,
    {
        self.handle
    }
}

/// Marker for the block-store backend that a component host provides
/// through its own interface. Reads and writes through it are host calls;
/// they belong to the unverified shell around this crate, which hands the
/// core plain bytes.
pub struct Wasip2Blockstore {}

impl Wasip2Blockstore {
    /// The backend carries no state of its own.
    pub fn new() -> (r: Self)
        ensures
            r == (Wasip2Blockstore {  }),
    {
        Wasip2Blockstore {  }
    }
}

/// A block-store backend that forwards to a host capability by handle.
/// As with `Wasip2Blockstore`, the forwarding calls themselves are host
/// I/O and live in the unverified shell; the core only keeps the handle.
#[derive(Clone, Copy)]
pub struct BlockstoreWrapper {
    pub handle: u32,
}

impl BlockstoreWrapper {
    /// Wrap a host capability, keeping its handle.
    pub fn new(bs: &Blockstore) -> (r: Self)
        ensures
            r.handle == bs.handle,
    {
        BlockstoreWrapper { handle: bs.handle() }
    }
}

} // verus!
