use vstd::prelude::*;
use vstd::string::StringSliceAdditionalSpecFns;
use vstd::utf8::encode_utf8;

use crate::dataset::texts;
use crate::hasher::Hasher;

verus! {

/// Options of a throughput run: the dataset, the column and the hash
/// functions asked for.
pub struct Args {
    pub dataset: String,
    pub column: String,
    pub hashes: Vec<String>,
}

/// What one hash function did over one column: the bytes hashed and the
/// wall-clock time that hashing them took.
pub struct ThroughputReport {
    pub total_bytes: u64,
    pub elapsed_nanos: u64,
}

/// The number of UTF-8 bytes of all values together.
pub open spec fn byte_total(v: Seq<Seq<char>>) -> nat
    decreases v.len(),
{
    if v.len() == 0 {
        0
    } else {
        byte_total(v.drop_last()) + encode_utf8(v.last()).len()
    }
}

/// Hashes the UTF-8 bytes of each value with `hasher`, discarding the digests,
/// and counts the bytes hashed; `None` where the count exceeds `u64::MAX`.
pub fn hash_and_count_bytes<H: Hasher>(values: &Vec<String>, hasher: &H) -> (r: Option<u64>)
    ensures
        r == if byte_total(texts(values@)) <= u64::MAX {
            Some(byte_total(texts(values@)) as u64)
        } else {
            None::<u64>
        },
{
    let ghost v = texts(values@);
    let mut total: Option<u64> = Some(0);
    let mut i: usize = 0;
    proof {
        assert(v.take(0) =~= Seq::<Seq<char>>::empty());
    }
    while i < values.len()
        invariant
            i <= values@.len(),
            v == texts(values@),
            total == if byte_total(v.take(i as int)) <= u64::MAX {
                Some(byte_total(v.take(i as int)) as u64)
            } else {
                None::<u64>
            },
        decreases values@.len() - i,
    {
        proof {
            assert(v.take(i + 1).drop_last() =~= v.take(i as int));
            assert(v.take(i + 1).last() == values@[i as int]@);
        }
        let bytes = values[i].as_str().as_bytes();
        let n = bytes.len() as u64;
        total = match total {
            Some(t) => t.checked_add(n),
            None => None,
        };
        hasher.hash(bytes);
        i = i + 1;
    }
    proof {
        assert(v.take(i as int) =~= v);
    }
    total
}

impl ThroughputReport {
    /// Bytes hashed per second, rounded down; `None` where no time was
    /// measured, as the rate is then undefined.
    pub fn bytes_per_second(&self) -> (r: Option<u128>)
        ensures
            r == if self.elapsed_nanos == 0 {
                None::<u128>
            } else {
                Some(((self.total_bytes as int) * 1_000_000_000 / (self.elapsed_nanos as int)) as u128)
            },
    {
        if self.elapsed_nanos == 0 {
            None
        } else {
            let scaled = self.total_bytes as u128 * 1_000_000_000u128;
            assert(scaled <= u64::MAX * 1_000_000_000) by (nonlinear_arith)
                requires
                    scaled == self.total_bytes * 1_000_000_000,
                    self.total_bytes <= u64::MAX,
            ;
            Some(scaled / self.elapsed_nanos as u128)
        }
    }
}

} // verus!
