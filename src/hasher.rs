use vstd::prelude::*;

verus! {

/// A hash function under evaluation: a stable name and a pure mapping from
/// bytes to an opaque digest, compared only for equality.
pub trait Hasher {
    /// The name by which the function is selected and reported.
    spec fn spec_name(&self) -> Seq<char>;

    /// The digest of `bytes`; being a function of `self` and `bytes` alone, a
    /// hash is deterministic.
    spec fn digest(&self, bytes: Seq<u8>) -> Seq<u8>;

    fn name(&self) -> (r: String)
        ensures
            r@ == self.spec_name(),
    ;

    fn hash(&self, bytes: &[u8]) -> (r: Vec<u8>)
        ensures
            r@ == self.digest(bytes@),
    ;
}

/// The hash function whose digest is its input: two values collide under it
/// exactly when they are equal.
pub struct IdentityHasher;

impl Hasher for IdentityHasher {
    open spec fn spec_name(&self) -> Seq<char> {
        seq!['i', 'd', 'e', 'n', 't', 'i', 't', 'y']
    }

    open spec fn digest(&self, bytes: Seq<u8>) -> Seq<u8> {
        bytes
    }

    fn name(&self) -> (r: String) {
        let r = String::from_str("identity");
        proof {
            reveal_strlit("identity");
        }
        r
    }

    fn hash(&self, bytes: &[u8]) -> (r: Vec<u8>) {
        let mut r: Vec<u8> = Vec::new();
        let mut i: usize = 0;
        while i < bytes.len()
            invariant
                i <= bytes@.len(),
                r@ == bytes@.take(i as int),
            decreases bytes@.len() - i,
        {
            r.push(bytes[i]);
            i = i + 1;
            proof {
                assert(r@ =~= bytes@.take(i as int));
            }
        }
        proof {
            assert(bytes@.take(i as int) =~= bytes@);
        }
        r
    }
}

} // verus!
