//! Secure node ids: an id is valid for an IPv4 address when its top 21 bits
//! come from the CRC-32C of the masked address and the id's last three bits.
use vstd::prelude::*;
use crate::addr::{be32, be_bytes};
use crate::primitives::{crc32c, crc32c_of, random_byte};
use crate::id::{Id, ID_SIZE};

verus! {

/// Loopback, link-local and private (RFC 1918) IPv4 ranges, for which every id is valid.
pub open spec fn is_non_public(ip: u32) -> bool {
    (ip >> 24u32) == 127 || (ip >> 16u32) == 0xa9fe || (ip >> 24u32) == 10 || (ip >> 20u32)
        == 0xac1 || (ip >> 16u32) == 0xc0a8
}

/// The bytes whose CRC-32C gives a secure id's prefix: the address masked
/// with 03.0f.3f.ff, with the low three bits of `r` stamped in the top bits.
pub open spec fn secure_input(ip: u32, r: u8) -> Seq<u8> {
    be32((ip & 0x030f3fffu32) | (((r & 7u8) as u32) << 29u32))
}

/// The top 21 bits of `id` equal the top 21 bits of `crc`.
pub open spec fn prefix_matches(id: Seq<u8>, crc: u32) -> bool {
    &&& id[0] == (crc >> 24u32) as u8
    &&& id[1] == (crc >> 16u32) as u8
    &&& (id[2] & 0xf8u8) == ((crc >> 8u32) as u8 & 0xf8u8)
}

/// `id` may be used by a node whose external IPv4 address is `ip`.
pub open spec fn valid_for_ip(id: Seq<u8>, ip: u32) -> bool {
    is_non_public(ip) || prefix_matches(id, crc32c_of(secure_input(ip, id[19])))
}

/// Whether `ip` lies in a loopback, link-local or private range.
pub fn non_public(ip: u32) -> (r: bool)
    ensures
        r == is_non_public(ip),
{
    (ip >> 24u32) == 127 || (ip >> 16u32) == 0xa9fe || (ip >> 24u32) == 10 || (ip >> 20u32)
        == 0xac1 || (ip >> 16u32) == 0xc0a8
}

fn secure_crc(ip: u32, r: u8) -> (c: u32)
    ensures
        c == crc32c_of(secure_input(ip, r)),
{
    let v: u32 = (ip & 0x030f3fffu32) | (((r & 7u8) as u32) << 29u32);
    let b = be_bytes(v);
    crc32c(&b)
}

/// `a` and `b` agree on every bit at position `bits` or above, counting
/// positions from the least significant bit of the last byte.
pub open spec fn agree_above(a: Seq<u8>, b: Seq<u8>, bits: int) -> bool {
    forall|i: int|
        0 <= i < 20 ==> {
            let low = (19 - i) * 8;
            &&& bits <= low ==> #[trigger] a[i] == b[i]
            &&& low < bits < low + 8 ==> (a[i] >> ((bits - low) as u8)) == (b[i] >> ((bits
                - low) as u8))
        }
}

impl Id {
    /// A near id: this id with a random choice of flips among its `bits`
    /// lowest bits. `None` when `bits` exceeds the id's 160 bits.
    pub fn make_mutant(&self, bits: usize) -> (r: Option<Id>)
        ensures
            bits > 160 <==> r.is_none(),
            r matches Some(m) ==> agree_above(m@, self@, bits as int),
    {
        if bits > 160 {
            return None;
        }
        let mut bytes: [u8; 20] = self.bytes;
        let mut i: usize = 0;
        while i < ID_SIZE
            invariant
                i <= ID_SIZE,
                bits <= 160,
                bytes@.len() == 20,
                self@.len() == 20,
                forall|j: int| i <= j < 20 ==> bytes@[j] == self@[j],
                forall|j: int|
                    0 <= j < i ==> {
                        let low = (19 - j) * 8;
                        &&& bits <= low ==> #[trigger] bytes@[j] == self@[j]
                        &&& low < bits < low + 8 ==> (bytes@[j] >> ((bits - low) as u8)) == (
                        self@[j] >> ((bits - low) as u8))
                    },
            decreases ID_SIZE - i,
        {
            let low: usize = (19 - i) * 8;
            if bits >= low + 8 {
                bytes[i] = random_byte();
            } else if bits > low {
                let rem: u8 = (bits - low) as u8;
                let x: u8 = self.bytes[i];
                let y: u8 = random_byte();
                let m: u8 = x ^ (y & !(0xffu8 << rem));
                assert((m >> rem) == (x >> rem)) by (bit_vector)
                    requires
                        1u8 <= rem < 8u8,
                        m == x ^ (y & !(0xffu8 << rem)),
                ;
                bytes[i] = m;
            }
            i = i + 1;
        }
        Some(Id { bytes })
    }

    /// An id of 20 random bytes.
    pub fn from_random() -> (r: Id) {
        let mut bytes: [u8; 20] = [0u8; 20];
        let mut i: usize = 0;
        while i < ID_SIZE
            invariant
                i <= ID_SIZE,
            decreases ID_SIZE - i,
        {
            bytes[i] = random_byte();
            i = i + 1;
        }
        Id { bytes }
    }

    /// Whether this id is a secure id for the IPv4 address `ip`.
    pub fn is_valid_for_ip(&self, ip: u32) -> (r: bool)
        ensures
            r == valid_for_ip(self@, ip),
    {
        if non_public(ip) {
            return true;
        }
        let crc = secure_crc(ip, self.bytes[19]);
        self.bytes[0] == (crc >> 24u32) as u8 && self.bytes[1] == (crc >> 16u32) as u8
            && (self.bytes[2] & 0xf8u8) == ((crc >> 8u32) as u8 & 0xf8u8)
    }

    /// A random id that is valid for `ip`; for a non-public address, a purely random id.
    pub fn from_ip(ip: u32) -> (r: Id)
        ensures
            valid_for_ip(r@, ip),
    {
        let mut id = Id::from_random();
        if non_public(ip) {
            return id;
        }
        let crc = secure_crc(ip, id.bytes[19]);
        let b2: u8 = id.bytes[2];
        let low: u8 = b2 & 7u8;
        let top: u8 = (crc >> 8u32) as u8 & 0xf8u8;
        id.bytes[0] = (crc >> 24u32) as u8;
        id.bytes[1] = (crc >> 16u32) as u8;
        id.bytes[2] = top | low;
        assert(top & 7u8 == 0u8 && low & 0xf8u8 == 0u8) by (bit_vector)
            requires
                top == (crc >> 8u32) as u8 & 0xf8u8,
                low == b2 & 7u8,
        ;
        assert((top | low) & 0xf8u8 == top) by (bit_vector)
            requires
                top & 7u8 == 0u8,
                low & 0xf8u8 == 0u8,
        ;
        assert(top & 0xf8u8 == top) by (bit_vector)
            requires
                top == (crc >> 8u32) as u8 & 0xf8u8,
        ;
        id
    }
}

} // verus!
