//! The locally configured interfaces a router is built from.

use vstd::prelude::*;

verus! {

/// One configured interface: a device name, its own address and the length
/// of its network prefix.
#[derive(Clone, Debug)]
pub struct Interface {
    pub device: String,
    pub ip: u32,
    pub mask: u8,
}

impl Interface {
    /// A usable interface has a prefix length of at most 32 bits.
    pub open spec fn wf(&self) -> bool {
        self.mask <= 32
    }

    pub fn new(device: String, ip: u32, mask: u8) -> (r: Option<Interface>)
        ensures
            r is Some <==> mask <= 32,
            r matches Some(i) ==> i.device@ == device@ && i.ip == ip && i.mask == mask,
    {
        if mask <= 32 {
            Some(Interface { device, ip, mask })
        } else {
            None
        }
    }
}

/// A configuration entry holding one interface.
#[derive(Clone, Debug)]
pub struct InterfaceWrapper {
    pub interface: Interface,
}

/// A router's whole configuration: its interfaces, in order.
#[derive(Clone, Debug)]
pub struct RouterConfig {
    pub interface: Vec<Interface>,
}

/// Every interface of the sequence is usable.
pub open spec fn all_wf(config: Seq<InterfaceWrapper>) -> bool {
    forall|i: int| 0 <= i < config.len() ==> (#[trigger] config[i]).interface.wf()
}

} // verus!
