use vstd::prelude::*;

verus! {

/// An IP address held as plain numeric values: the 32 bits of an IPv4
/// address or the 128 bits of an IPv6 address, in network order.
#[derive(Clone, Copy, PartialEq, Eq, Structural, Hash, Debug)]
pub enum IpAddress {
    V4(u32),
    V6(u128),
}

impl IpAddress {
    pub open spec fn is_v4(self) -> bool {
        matches!(self, IpAddress::V4(_))
    }

    /// The unspecified IPv4 address, 0.0.0.0.
    pub fn unspecified() -> (r: IpAddress)
        ensures
            r == IpAddress::V4(0u32),
    {
        IpAddress::V4(0)
    }

    pub fn is_ipv4(&self) -> (r: bool)
        ensures
            r == self.is_v4(),
    {
        matches!(self, IpAddress::V4(_))
    }
}

/// An IP prefix: an address and a mask length.
#[derive(Clone, Copy, PartialEq, Eq, Structural, Hash, Debug)]
pub struct IpNet {
    pub addr: IpAddress,
    pub mask: u8,
}

impl IpNet {
    /// The mask length fits the address family.
    pub open spec fn wf(self) -> bool {
        match self.addr {
            IpAddress::V4(_) => self.mask <= 32,
            IpAddress::V6(_) => self.mask <= 128,
        }
    }

    /// Whether `addr` lies inside this prefix: both are of the same family
    /// and agree on the first `mask` bits.
    pub open spec fn spec_contains(self, addr: IpAddress) -> bool {
        match (self.addr, addr) {
            (IpAddress::V4(p), IpAddress::V4(a)) => {
                self.mask == 0 || (p >> (32 - self.mask) as u32) == (a >> (32 - self.mask) as u32)
            }
            (IpAddress::V6(p), IpAddress::V6(a)) => {
                self.mask == 0
                    || (p >> (128 - self.mask) as u128) == (a >> (128 - self.mask) as u128)
            }
            _ => false,
        }
    }

    pub fn contains(&self, addr: IpAddress) -> (r: bool)
        requires
            self.wf(),
        ensures
            r == self.spec_contains(addr),
    {
        match (self.addr, addr) {
            (IpAddress::V4(p), IpAddress::V4(a)) => {
                if self.mask == 0 {
                    true
                } else {
                    (p >> (32 - self.mask) as u32) == (a >> (32 - self.mask) as u32)
                }
            }
            (IpAddress::V6(p), IpAddress::V6(a)) => {
                if self.mask == 0 {
                    true
                } else {
                    (p >> (128 - self.mask) as u128) == (a >> (128 - self.mask) as u128)
                }
            }
            _ => false,
        }
    }
}

} // verus!
