//! Network addresses as plain values.
use crate::wire::bytes_eq;
use vstd::prelude::*;

verus! {

/// An IP address.
#[derive(Clone, Copy, Debug, PartialEq, Eq)]
pub enum IpAddress {
    /// Four bytes.
    V4([u8; 4]),
    /// Sixteen bytes.
    V6([u8; 16]),
}

impl IpAddress {
    /// The kind and the bytes of an address.
    pub open spec fn parts(self) -> (bool, Seq<u8>) {
        match self {
            IpAddress::V4(octets) => (true, octets@),
            IpAddress::V6(octets) => (false, octets@),
        }
    }

    /// Whether two addresses are the same.
    pub fn same(&self, other: &IpAddress) -> (r: bool)
        ensures
            r == (self.parts() == other.parts()),
    {
        match (self, other) {
            (IpAddress::V4(a), IpAddress::V4(b)) => bytes_eq(a, b),
            (IpAddress::V6(a), IpAddress::V6(b)) => bytes_eq(a, b),
            _ => false,
        }
    }
}

/// An IP address with a port.
#[derive(Clone, Copy, Debug, PartialEq, Eq)]
pub struct SocketAddress {
    /// The address.
    pub ip: IpAddress,
    /// The port.
    pub port: u16,
}

/// Two addresses have the same parts where they are of one kind and have the same bytes.
pub proof fn law_address_parts(a: IpAddress, b: IpAddress)
    ensures
        a.parts() == b.parts() <==> match (a, b) {
            (IpAddress::V4(x), IpAddress::V4(y)) => x@ =~= y@,
            (IpAddress::V6(x), IpAddress::V6(y)) => x@ =~= y@,
            _ => false,
        },
        a matches IpAddress::V4(x) ==> a.parts() == (true, x@) && a.parts().1.len() == 4,
        a matches IpAddress::V6(x) ==> a.parts() == (false, x@) && a.parts().1.len() == 16,
{
}

} // verus!
