use vstd::prelude::*;
use crate::id::Id;

verus! {

/// The four bytes of an IPv4 address or of a 32-bit word, most significant first.
pub open spec fn be32(v: u32) -> Seq<u8> {
    seq![(v >> 24u32) as u8, (v >> 16u32) as u8, (v >> 8u32) as u8, v as u8]
}

/// Big-endian bytes of a 32-bit word.
pub fn be_bytes(v: u32) -> (r: [u8; 4])
    ensures
        r@ == be32(v),
{
    let r: [u8; 4] = [(v >> 24u32) as u8, (v >> 16u32) as u8, (v >> 8u32) as u8, v as u8];
    assert(r@ =~= be32(v));
    r
}

/// An IPv4 socket address: the address as a big-endian 32-bit word, and a port.
#[derive(Clone, Copy, Debug, PartialEq, Eq, Hash, Structural)]
pub struct Addr {
    pub ip: u32,
    pub port: u16,
}

impl Addr {
    pub fn new(ip: u32, port: u16) -> (r: Addr)
        ensures
            r.ip == ip,
            r.port == port,
    {
        Addr { ip, port }
    }

    /// Builds an address from its four octets, most significant first.
    pub fn from_octets(a: u8, b: u8, c: u8, d: u8, port: u16) -> (r: Addr)
        ensures
            be32(r.ip) == seq![a, b, c, d],
            r.port == port,
    {
        let ip: u32 = ((a as u32) << 24u32) | ((b as u32) << 16u32) | ((c as u32) << 8u32) | (d as u32);
        assert(be32(ip) =~= seq![a, b, c, d]) by {
            assert((ip >> 24u32) as u8 == a) by (bit_vector)
                requires
                    ip == ((a as u32) << 24u32) | ((b as u32) << 16u32) | ((c as u32) << 8u32) | (d as u32),
            ;
            assert((ip >> 16u32) as u8 == b) by (bit_vector)
                requires
                    ip == ((a as u32) << 24u32) | ((b as u32) << 16u32) | ((c as u32) << 8u32) | (d as u32),
            ;
            assert((ip >> 8u32) as u8 == c) by (bit_vector)
                requires
                    ip == ((a as u32) << 24u32) | ((b as u32) << 16u32) | ((c as u32) << 8u32) | (d as u32),
            ;
            assert(ip as u8 == d) by (bit_vector)
                requires
                    ip == ((a as u32) << 24u32) | ((b as u32) << 16u32) | ((c as u32) << 8u32) | (d as u32),
            ;
        }
        Addr { ip, port }
    }

    /// The same address with another port.
    pub fn with_port(&self, port: u16) -> (r: Addr)
        ensures
            r.ip == self.ip,
            r.port == port,
    {
        Addr { ip: self.ip, port }
    }
}

/// A DHT node: its id and the address it listens on.
#[derive(Clone, Copy, Debug)]
pub struct Node {
    pub id: Id,
    pub address: Addr,
}

impl Node {
    pub fn new(id: Id, address: Addr) -> (r: Node)
        ensures
            r.id@ == id@,
            r.address == address,
    {
        Node { id, address }
    }
}

} // verus!
