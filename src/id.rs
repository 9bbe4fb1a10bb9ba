use vstd::prelude::*;

verus! {

/// Number of bytes in an [`Id`].
pub const ID_SIZE: usize = 20;

/// Bitwise exclusive-or of two byte sequences of equal length.
pub open spec fn xor_seq(a: Seq<u8>, b: Seq<u8>) -> Seq<u8> {
    Seq::new(a.len(), |i: int| a[i] ^ b[i])
}

/// Big-endian (lexicographic) strict order on byte sequences.
pub open spec fn lex_lt(a: Seq<u8>, b: Seq<u8>) -> bool
    decreases a.len(),
{
    if a.len() == 0 || b.len() == 0 {
        false
    } else if a[0] != b[0] {
        a[0] < b[0]
    } else {
        lex_lt(a.drop_first(), b.drop_first())
    }
}

/// `a` is strictly nearer to `target` than `b` in the XOR metric.
pub open spec fn nearer(target: Seq<u8>, a: Seq<u8>, b: Seq<u8>) -> bool {
    lex_lt(xor_seq(a, target), xor_seq(b, target))
}

pub proof fn lemma_lex_irreflexive(a: Seq<u8>)
    ensures
        !lex_lt(a, a),
    decreases a.len(),
{
    if a.len() > 0 {
        lemma_lex_irreflexive(a.drop_first());
    }
}

pub proof fn lemma_lex_transitive(a: Seq<u8>, b: Seq<u8>, c: Seq<u8>)
    requires
        lex_lt(a, b),
        lex_lt(b, c),
    ensures
        lex_lt(a, c),
    decreases a.len(),
{
    if a[0] == b[0] && b[0] == c[0] {
        lemma_lex_transitive(a.drop_first(), b.drop_first(), c.drop_first());
    }
}

pub proof fn lemma_lex_total(a: Seq<u8>, b: Seq<u8>)
    requires
        a.len() == b.len(),
        a != b,
    ensures
        lex_lt(a, b) || lex_lt(b, a),
    decreases a.len(),
{
    if a.len() == 0 {
        assert(a =~= b);
    } else if a[0] == b[0] {
        if a.drop_first() == b.drop_first() {
            assert forall|i: int| 0 <= i < a.len() implies a[i] == b[i] by {
                if i > 0 {
                    assert(a[i] == a.drop_first()[i - 1]);
                    assert(b[i] == b.drop_first()[i - 1]);
                }
            }
            assert(a =~= b);
        }
        lemma_lex_total(a.drop_first(), b.drop_first());
    }
}

/// Two byte strings of the same length that differ give distinct XOR distances.
pub proof fn lemma_xor_injective(t: Seq<u8>, a: Seq<u8>, b: Seq<u8>)
    requires
        a.len() == t.len(),
        b.len() == t.len(),
        xor_seq(a, t) == xor_seq(b, t),
    ensures
        a == b,
{
    assert forall|i: int| 0 <= i < a.len() implies a[i] == b[i] by {
        let x = a[i];
        let y = b[i];
        let z = t[i];
        assert(xor_seq(a, t)[i] == xor_seq(b, t)[i]);
        assert(xor_seq(a, t)[i] == (x ^ z));
        assert(xor_seq(b, t)[i] == (y ^ z));
        assert(x == y) by (bit_vector)
            requires
                (x ^ z) == (y ^ z),
        ;
    }
    assert(a =~= b);
}

/// A 160-bit node id or info-hash.
#[derive(Clone, Copy, Debug)]
pub struct Id {
    pub bytes: [u8; 20],
}

impl View for Id {
    type V = Seq<u8>;

    open spec fn view(&self) -> Seq<u8> {
        self.bytes@
    }
}

impl PartialEq for Id {
    fn eq(&self, other: &Id) -> (r: bool) {
        self.same_as(other)
    }
}

impl vstd::std_specs::cmp::PartialEqSpecImpl for Id {
    open spec fn obeys_eq_spec() -> bool {
        true
    }

    open spec fn eq_spec(&self, other: &Id) -> bool {
        self@ == other@
    }
}

impl Eq for Id {

}

impl Id {
    pub fn new(bytes: [u8; 20]) -> (r: Id)
        ensures
            r@ == bytes@,
    {
        Id { bytes }
    }

    /// The id whose bytes are all zero.
    pub fn zero() -> (r: Id)
        ensures
            r@ == Seq::new(20, |i: int| 0u8),
    {
        let r = Id { bytes: [0u8; 20] };
        assert(r@ =~= Seq::new(20, |i: int| 0u8));
        r
    }

    /// Byte-wise equality.
    pub fn same_as(&self, other: &Id) -> (r: bool)
        ensures
            r == (self@ == other@),
    {
        let mut i: usize = 0;
        while i < ID_SIZE
            invariant
                i <= ID_SIZE,
                self@.len() == 20,
                other@.len() == 20,
                self@.take(i as int) == other@.take(i as int),
            decreases ID_SIZE - i,
        {
            if self.bytes[i] != other.bytes[i] {
                assert(self@[i as int] != other@[i as int]);
                return false;
            }
            assert(self@.take(i + 1) =~= self@.take(i as int).push(self@[i as int]));
            assert(other@.take(i + 1) =~= other@.take(i as int).push(other@[i as int]));
            i = i + 1;
        }
        assert(self@ =~= self@.take(20));
        assert(other@ =~= other@.take(20));
        true
    }

    /// Bitwise exclusive-or: the Kademlia distance between two ids.
    pub fn xor(&self, other: &Id) -> (r: Id)
        ensures
            r@ == xor_seq(self@, other@),
    {
        let mut bytes: [u8; 20] = [0u8; 20];
        let mut i: usize = 0;
        while i < ID_SIZE
            invariant
                i <= ID_SIZE,
                bytes@.len() == 20,
                self@.len() == 20,
                other@.len() == 20,
                forall|j: int| 0 <= j < i ==> bytes@[j] == self@[j] ^ other@[j],
            decreases ID_SIZE - i,
        {
            bytes[i] = self.bytes[i] ^ other.bytes[i];
            i = i + 1;
        }
        let r = Id { bytes };
        assert(r@ =~= xor_seq(self@, other@));
        r
    }

    /// Big-endian comparison: `self` is strictly below `other`.
    pub fn less_than(&self, other: &Id) -> (r: bool)
        ensures
            r == lex_lt(self@, other@),
    {
        let ghost a = self@;
        let ghost b = other@;
        let mut i: usize = 0;
        assert(a.skip(0) =~= a);
        assert(b.skip(0) =~= b);
        while i < ID_SIZE
            invariant
                i <= ID_SIZE,
                a.len() == 20,
                b.len() == 20,
                a == self@,
                b == other@,
                lex_lt(a, b) == lex_lt(a.skip(i as int), b.skip(i as int)),
            decreases ID_SIZE - i,
        {
            let x = self.bytes[i];
            let y = other.bytes[i];
            assert(a.skip(i as int)[0] == x);
            assert(b.skip(i as int)[0] == y);
            if x != y {
                return x < y;
            }
            assert(a.skip(i as int).drop_first() =~= a.skip(i + 1));
            assert(b.skip(i as int).drop_first() =~= b.skip(i + 1));
            i = i + 1;
        }
        assert(a.skip(20).len() == 0);
        false
    }

    /// `self` is strictly nearer to `target` than `other` is.
    pub fn nearer_to(&self, other: &Id, target: &Id) -> (r: bool)
        ensures
            r == nearer(target@, self@, other@),
    {
        let da = self.xor(target);
        let db = other.xor(target);
        da.less_than(&db)
    }
}

/// XOR is symmetric, and an id is at distance zero from itself.
pub proof fn lemma_xor_symmetric_and_self_zero(a: Id, b: Id)
    ensures
        xor_seq(a@, b@) == xor_seq(b@, a@),
        xor_seq(a@, a@) == Seq::new(20, |i: int| 0u8),
{
    assert forall|i: int| 0 <= i < 20 implies xor_seq(a@, b@)[i] == xor_seq(b@, a@)[i] by {
        let x = a@[i];
        let y = b@[i];
        assert((x ^ y) == (y ^ x)) by (bit_vector);
    }
    assert forall|i: int| 0 <= i < 20 implies xor_seq(a@, a@)[i] == 0u8 by {
        let x = a@[i];
        assert((x ^ x) == 0u8) by (bit_vector);
    }
    assert(xor_seq(a@, b@) =~= xor_seq(b@, a@));
    assert(xor_seq(a@, a@) =~= Seq::new(20, |i: int| 0u8));
}

} // verus!
