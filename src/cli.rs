use vstd::prelude::*;

verus! {

/// The parsed command line of one server generation.
pub struct Command {
    pub value: CommandFlags,
}

/// Startup flags: whether to take listeners over from a running generation,
/// and where to listen otherwise.
#[derive(Clone, Debug)]
pub struct CommandFlags {
    pub upgrade: bool,
    pub port: u16,
    pub address: String,
    /// Whether this platform can pass listening sockets between processes.
    pub handoff_supported: bool,
}

impl CommandFlags {
    /// Builds the flags; `handoff_supported` tells whether the platform can
    /// pass socket handles to another process.
    pub fn new(upgrade: bool, port: u16, address: String, handoff_supported: bool) -> (r: Self)
        ensures
            r.upgrade == upgrade,
            r.port == port,
            r.address@ == address@,
            r.handoff_supported == handoff_supported,
    {
        CommandFlags { upgrade, port, address, handoff_supported }
    }

    /// Upgrade mode is in effect only where it was asked for and the
    /// platform supports the handoff.
    pub fn is_uprade_mode(&self) -> (r: bool)
        ensures
            r == (self.upgrade && self.handoff_supported),
    {
        self.upgrade && self.handoff_supported
    }
}

} // verus!
