use vstd::prelude::*;
use crate::id::Id;

verus! {

/// The CRC-32 with the Castagnoli polynomial (CRC-32C) of a byte string.
pub uninterp spec fn crc32c_of(data: Seq<u8>) -> u32;

/// Relies on crc::crc32::checksum_castagnoli: the CRC-32C of the bytes, a
/// function of the bytes alone.
#[verifier::external_body]
pub(crate) fn crc32c(data: &[u8]) -> (r: u32)
    ensures
        r == crc32c_of(data@),
{
    ::crc::crc32::checksum_castagnoli(data)
}

/// Relies on rand::random: one byte drawn from the thread-local generator;
/// nothing is known of its value.
#[verifier::external_body]
pub(crate) fn random_byte() -> (r: u8) {
    ::rand::random::<u8>()
}

/// Relies on rand::seq::SliceRandom::partial_shuffle: it permutes the slice
/// in place and hands back, as its first part, `min(amount, len)` of its
/// elements, chosen at random: elements at distinct places, so a slice
/// without repeats yields a sample without repeats.
#[verifier::external_body]
pub(crate) fn sample_ids(mut ids: Vec<Id>, amount: usize) -> (r: Vec<Id>)
    ensures
        r@.len() == if amount < ids@.len() { amount as int } else { ids@.len() as int },
        r@.to_multiset().subset_of(ids@.to_multiset()),
        forall|i: int| 0 <= i < r@.len() ==> ids@.contains(#[trigger] r@[i]),
        ids@.no_duplicates() ==> r@.no_duplicates(),
{
    ::rand::seq::SliceRandom::partial_shuffle(ids.as_mut_slice(), &mut ::rand::thread_rng(), amount).0.to_vec()
}

/// `n` freshly drawn random bytes.
pub fn random_bytes(n: usize) -> (r: Vec<u8>)
    ensures
        r@.len() == n,
{
    let mut r: Vec<u8> = Vec::with_capacity(n);
    let mut i: usize = 0;
    while i < n
        invariant
            i <= n,
            r@.len() == i,
        decreases n - i,
    {
        r.push(random_byte());
        i = i + 1;
    }
    r
}

} // verus!
