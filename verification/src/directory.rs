//! The window directory: an immutable snapshot of open windows, and the
//! configuration it is queried under.

use vstd::prelude::*;
use crate::codec::valid_address;

verus! {

/// The one configuration option: a textual prefix that gates every query.
pub struct Config {
    pub prefix: String,
}

impl Default for Config {
    /// The default configuration has an empty prefix, so no input is
    /// turned away by the prefix test.
    fn default() -> (c: Config)
        ensures
            c.prefix@ == Seq::<char>::empty(),
    {
        Config { prefix: String::new() }
    }
}

/// One open window at snapshot time: its display title and its textual
/// window-manager address.
pub struct WindowRecord {
    pub title: String,
    pub address: String,
}

impl WindowRecord {
    /// A record is well formed when its address has the `0x` prefix and
    /// denotes a value within 64 bits.
    pub open spec fn wf(self) -> bool {
        valid_address(self.address@)
    }

    /// Build a record, accepting only a well-formed address.
    pub fn new(title: String, address: String) -> (r: Option<WindowRecord>)
        ensures
            r is Some <==> valid_address(address@),
            r is Some ==> (r->0 == WindowRecord { title, address }),
    {
        match crate::codec::address_to_u64(address.as_str()) {
            Ok(_) => Some(WindowRecord { title, address }),
            Err(_) => None,
        }
    }
}

/// The whole queryable state: the configuration and the window directory,
/// both fixed at initialization.
pub struct State {
    pub config: Config,
    pub entries: Vec<WindowRecord>,
}

impl State {
    /// Every record of the directory is well formed.
    pub open spec fn wf(self) -> bool {
        forall|i: int| 0 <= i < self.entries@.len() ==> (#[trigger] self.entries@[i]).wf()
    }

    /// Assemble the state from a loaded configuration and a snapshot of
    /// window records.
    pub fn new(config: Config, entries: Vec<WindowRecord>) -> (s: State)
        ensures
            s.config == config,
            s.entries == entries,
    {
        State { config, entries }
    }
}

} // verus!
