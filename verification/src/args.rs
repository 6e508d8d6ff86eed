//! The command line.

use vstd::prelude::*;

verus! {

/// What the operator hands to the program: the path of the serial device.
#[derive(Debug)]
pub struct Args {
    device: String,
}

impl Args {
    /// The device path as a sequence of characters.
    pub closed spec fn spec_device(&self) -> Seq<char> {
        self.device@
    }

    /// Wraps a device path.
    pub fn new(device: String) -> (args: Args)
        ensures
            args.spec_device() == device@,
    {
        Args { device }
    }

    /// The device path that was given.
    pub fn device(&self) -> (path: &str)
        ensures
            path@ == self.spec_device(),
    {
        self.device.as_str()
    }
}

} // verus!
