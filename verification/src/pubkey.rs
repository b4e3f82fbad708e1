//! Account addresses and the other fixed-size byte strings of the protocol.

use vstd::prelude::*;

use crate::ordered::Ordered;

verus! {

broadcast use vstd::array::group_array_axioms;

/// A 32-byte account address.
#[derive(Clone, Copy, Debug, PartialEq, Eq, Hash)]
pub struct Pubkey {
    pub bytes: [u8; 32],
}

/// A 64-byte transaction signature.
#[derive(Clone, Copy, Debug, PartialEq, Eq)]
pub struct Signature {
    pub bytes: [u8; 64],
}

/// Whether `a` is lexicographically less than `b`, for strings of one length.
pub open spec fn bytes_before(a: Seq<u8>, b: Seq<u8>) -> bool {
    exists|i: int| first_less_at(a, b, i)
}

/// `a` and `b` agree up to `i`, where `a` is the smaller.
pub open spec fn first_less_at(a: Seq<u8>, b: Seq<u8>, i: int) -> bool {
    &&& 0 <= i < a.len()
    &&& i < b.len()
    &&& a[i] < b[i]
    &&& forall|j: int| 0 <= j < i ==> a[j] == b[j]
}

proof fn lemma_bytes_total(a: Seq<u8>, b: Seq<u8>, n: int)
    requires
        a.len() == b.len(),
        0 <= n <= a.len(),
    ensures
        (forall|j: int| 0 <= j < n ==> a[j] == b[j]) || bytes_before(a, b) || bytes_before(b, a),
    decreases n,
{
    if n > 0 {
        lemma_bytes_total(a, b, n - 1);
        if forall|j: int| 0 <= j < n - 1 ==> a[j] == b[j] {
            if a[n - 1] < b[n - 1] {
                assert(first_less_at(a, b, n - 1));
            } else if b[n - 1] < a[n - 1] {
                assert(first_less_at(b, a, n - 1));
            }
        }
    }
}

impl View for Pubkey {
    type V = Pubkey;

    open spec fn view(&self) -> Pubkey {
        *self
    }
}

impl Ordered for Pubkey {
    open spec fn before(a: Pubkey, b: Pubkey) -> bool {
        bytes_before(a.bytes@, b.bytes@)
    }

    proof fn before_irreflexive(a: Pubkey) {
    }

    proof fn before_transitive(a: Pubkey, b: Pubkey, c: Pubkey) {
        let i = choose|i: int| first_less_at(a.bytes@, b.bytes@, i);
        let j = choose|j: int| first_less_at(b.bytes@, c.bytes@, j);
        let k = if i < j { i } else { j };
        assert(first_less_at(a.bytes@, c.bytes@, k));
    }

    proof fn before_total(a: Pubkey, b: Pubkey) {
        lemma_bytes_total(a.bytes@, b.bytes@, 32);
        if forall|j: int| 0 <= j < 32 ==> a.bytes@[j] == b.bytes@[j] {
            assert(a.bytes@ =~= b.bytes@);
            assert(a.bytes =~= b.bytes);
        }
    }

    fn is_before(&self, other: &Pubkey) -> (r: bool) {
        let mut i: usize = 0;
        while i < 32
            invariant
                0 <= i <= 32,
                forall|j: int| 0 <= j < i ==> self.bytes@[j] == other.bytes@[j],
            decreases 32 - i,
        {
            if self.bytes[i] < other.bytes[i] {
                assert(first_less_at(self.bytes@, other.bytes@, i as int));
                return true;
            }
            if other.bytes[i] < self.bytes[i] {
                assert forall|k: int| !first_less_at(self.bytes@, other.bytes@, k) by {
                    if k > i {
                        assert(self.bytes@[i as int] != other.bytes@[i as int]);
                    }
                }
                return false;
            }
            i = i + 1;
        }
        false
    }
}

impl Pubkey {
    /// Whether two addresses are the same.
    pub fn same(&self, other: &Pubkey) -> (r: bool)
        ensures
            r == (*self == *other),
    {
        proof {
            Pubkey::before_total(*self, *other);
            Pubkey::before_irreflexive(*self);
        }
        !self.is_before(other) && !other.is_before(self)
    }
}

} // verus!
