use vstd::prelude::*;

verus! {

pub const AFI_IP: u16 = 1;

pub const AFI_IP6: u16 = 2;

pub const SAFI_UNICAST: u8 = 1;

/// An address family: the AFI/SAFI pair that partitions the routing table,
/// encoded as `(AFI << 16) | SAFI` in its numeric form.
#[derive(Clone, Copy, PartialEq, Eq, Structural, Hash, Debug)]
pub enum Family {
    Ipv4Uc,
    Ipv6Uc,
    Unknown(u32),
}

impl Family {
    pub open spec fn spec_code(self) -> u32 {
        match self {
            Family::Ipv4Uc => 0x0001_0001u32,
            Family::Ipv6Uc => 0x0002_0001u32,
            Family::Unknown(v) => v,
        }
    }

    /// The `(AFI << 16) | SAFI` code of this family.
    pub fn code(&self) -> (r: u32)
        ensures
            r == self.spec_code(),
    {
        match self {
            Family::Ipv4Uc => 0x0001_0001,
            Family::Ipv6Uc => 0x0002_0001,
            Family::Unknown(v) => *v,
        }
    }

    pub open spec fn spec_from_code(v: u32) -> Family {
        if v == 0x0001_0001u32 {
            Family::Ipv4Uc
        } else if v == 0x0002_0001u32 {
            Family::Ipv6Uc
        } else {
            Family::Unknown(v)
        }
    }

    /// The family for a `(AFI << 16) | SAFI` code; codes of the two
    /// supported families map to their variants, anything else is kept
    /// as `Unknown`.
    pub fn from_code(v: u32) -> (r: Family)
        ensures
            r == Family::spec_from_code(v),
    {
        if v == 0x0001_0001 {
            Family::Ipv4Uc
        } else if v == 0x0002_0001 {
            Family::Ipv6Uc
        } else {
            Family::Unknown(v)
        }
    }

    /// The family for an AFI/SAFI pair.
    pub fn new(afi: u16, safi: u8) -> (r: Family)
        ensures
            r == Family::spec_from_code(((afi as u32) << 16u32) | (safi as u32)),
    {
        Family::from_code(((afi as u32) << 16) | (safi as u32))
    }
}

} // verus!
