//! Serial console device descriptor.  The port write itself is CPU I/O
//! and is left to the surrounding kernel glue.

use vstd::prelude::*;

verus! {

/// A serial device, identified by its I/O port base.
pub struct Device {
    pub iobase: u16,
}

impl Device {
    /// A device descriptor for the given I/O port base.
    pub fn new(iobase: u16) -> (r: Device)
        ensures
            r.iobase == iobase,
    {
        Device { iobase }
    }
}

} // verus!
