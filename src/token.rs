//! Announce tokens: a four-byte CRC-32C of the requester's address and a
//! rolling secret, accepted under the current or the previous secret.
use vstd::prelude::*;
use crate::addr::{be32, be_bytes, Addr};
use crate::primitives::{crc32c, crc32c_of, random_bytes};

verus! {

/// The token handed to the IPv4 address `ip` under `secret`.
pub open spec fn token_of(ip: u32, secret: Seq<u8>) -> Seq<u8> {
    be32(crc32c_of(be32(ip) + secret))
}

/// Calculates the announce token for `remote` under `secret`: the big-endian
/// CRC-32C of the address octets followed by the secret.
pub fn calculate_token(remote: &Addr, secret: &[u8]) -> (r: [u8; 4])
    ensures
        r@ == token_of(remote.ip, secret@),
{
    let octets = be_bytes(remote.ip);
    let mut data: Vec<u8> = Vec::new();
    let mut i: usize = 0;
    while i < 4
        invariant
            i <= 4,
            data@ == octets@.take(i as int),
        decreases 4 - i,
    {
        data.push(octets[i]);
        assert(data@ =~= octets@.take(i + 1));
        i = i + 1;
    }
    let mut j: usize = 0;
    while j < secret.len()
        invariant
            j <= secret@.len(),
            data@ == octets@ + secret@.take(j as int),
        decreases secret@.len() - j,
    {
        data.push(secret[j]);
        assert(data@ =~= octets@ + secret@.take(j + 1));
        j = j + 1;
    }
    assert(secret@.take(secret@.len() as int) =~= secret@);
    let crc = crc32c(data.as_slice());
    be_bytes(crc)
}

/// A fresh random token secret of `size` bytes.
pub fn make_token_secret(size: usize) -> (r: Vec<u8>)
    ensures
        r@.len() == size,
{
    random_bytes(size)
}

/// The two rolling token secrets.
pub struct TokenSecrets {
    pub current: Vec<u8>,
    pub previous: Vec<u8>,
}

/// A token presented by `ip` is accepted under the secrets `current` and `previous`.
pub open spec fn token_accepted(current: Seq<u8>, previous: Seq<u8>, ip: u32, token: Seq<u8>) -> bool {
    token == token_of(ip, current) || token == token_of(ip, previous)
}

impl TokenSecrets {
    /// Both secrets start as the same fresh random value of `size` bytes.
    pub fn new(size: usize) -> (r: TokenSecrets)
        ensures
            r.current@.len() == size,
            r.previous@ == r.current@,
    {
        let s = make_token_secret(size);
        TokenSecrets { current: s.clone(), previous: s }
    }

    /// The previous secret is dropped, the current one becomes the previous
    /// one, and `fresh` becomes current.
    pub fn rotate_to(&mut self, fresh: Vec<u8>)
        ensures
            final(self).previous@ == old(self).current@,
            final(self).current@ == fresh@,
    {
        self.previous = self.current.clone();
        self.current = fresh;
    }

    /// Whether `token` from `remote` matches the token of the current or of the previous secret.
    pub fn is_token_valid(&self, remote: &Addr, token: &[u8]) -> (r: bool)
        ensures
            r == token_accepted(self.current@, self.previous@, remote.ip, token@),
    {
        let a = calculate_token(remote, self.current.as_slice());
        if bytes_equal(token, &a) {
            return true;
        }
        let b = calculate_token(remote, self.previous.as_slice());
        bytes_equal(token, &b)
    }
}

/// Byte-wise equality of a byte string and a four-byte array.
pub fn bytes_equal(a: &[u8], b: &[u8; 4]) -> (r: bool)
    ensures
        r == (a@ == b@),
{
    if a.len() != 4 {
        return false;
    }
    let mut i: usize = 0;
    while i < 4
        invariant
            i <= 4,
            a@.len() == 4,
            b@.len() == 4,
            a@.take(i as int) == b@.take(i as int),
        decreases 4 - i,
    {
        if a[i] != b[i] {
            return false;
        }
        assert(a@.take(i + 1) =~= a@.take(i as int).push(a@[i as int]));
        assert(b@.take(i + 1) =~= b@.take(i as int).push(b@[i as int]));
        i = i + 1;
    }
    assert(a@ =~= a@.take(4));
    assert(b@ =~= b@.take(4));
    true
}

/// A token issued under a secret is accepted while that secret is current and
/// after one rotation, while it is the previous one; after a second rotation it
/// is refused, unless it happens to coincide with a token of one of the two
/// secrets then in use. `s1` follows `s0` by one rotation and `s2` follows
/// `s1`, as `rotate_to` states; acceptance is what `is_token_valid` returns and
/// what decides whether an `announce_peer` is answered.
pub proof fn lemma_token_lifetime(s0: TokenSecrets, s1: TokenSecrets, s2: TokenSecrets, ip: u32)
    requires
        s1.previous@ == s0.current@,
        s2.previous@ == s1.current@,
        token_of(ip, s0.current@) != token_of(ip, s2.current@),
        token_of(ip, s0.current@) != token_of(ip, s2.previous@),
    ensures
        token_accepted(s0.current@, s0.previous@, ip, token_of(ip, s0.current@)),
        token_accepted(s1.current@, s1.previous@, ip, token_of(ip, s0.current@)),
        !token_accepted(s2.current@, s2.previous@, ip, token_of(ip, s0.current@)),
{
}

} // verus!
