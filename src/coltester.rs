use std::collections::HashMap;

use vstd::prelude::*;
use vstd::utf8::encode_utf8;

use crate::dataset::{ColumnStream, DatasetError, column_read_as, read_column, texts};
use crate::hasher::Hasher;

verus! {

broadcast use vstd::std_specs::hash::group_hash_axioms;

/// Options of a collision run: the dataset, the column, the hash functions
/// asked for, and whether colliding pairs are kept for printing.
pub struct Args {
    pub dataset: String,
    pub column: String,
    pub hashes: Vec<String>,
    pub save_col: bool,
}

/// A value that collided, beside the value first stored for its digest.
pub struct Collision {
    pub value: String,
    pub original: String,
}

/// What one hash function did over one column: the first value seen for each
/// digest, in order of first appearance, and the values whose digest was seen
/// before.
pub struct CollisionReport {
    pub collision_count: u64,
    pub first_seen: Vec<(Vec<u8>, String)>,
    pub collisions: Vec<Collision>,
}

/// Digests as byte sequences.
pub open spec fn digests_view(d: Seq<Vec<u8>>) -> Seq<Seq<u8>> {
    d.map_values(|b: Vec<u8>| b@)
}

/// A digest-to-value table as a sequence of pairs.
pub open spec fn entries_view(e: Seq<(Vec<u8>, String)>) -> Seq<(Seq<u8>, Seq<char>)> {
    e.map_values(|p: (Vec<u8>, String)| (p.0@, p.1@))
}

/// Collided pairs as (new value, stored value).
pub open spec fn pairs_view(c: Seq<Collision>) -> Seq<(Seq<char>, Seq<char>)> {
    c.map_values(|p: Collision| (p.value@, p.original@))
}

/// The value stored for digest `d`, if any.
pub open spec fn lookup(e: Seq<(Seq<u8>, Seq<char>)>, d: Seq<u8>) -> Option<Seq<char>>
    decreases e.len(),
{
    if e.len() == 0 {
        None
    } else if e.last().0 == d {
        Some(e.last().1)
    } else {
        lookup(e.drop_last(), d)
    }
}

/// The table after the first `n` values: a digest is added with its value the
/// first time it appears, and never replaced.
pub open spec fn seen_after(d: Seq<Seq<u8>>, v: Seq<Seq<char>>, n: nat) -> Seq<(Seq<u8>, Seq<char>)>
    decreases n,
{
    if n == 0 {
        Seq::empty()
    } else {
        let prev = seen_after(d, v, (n - 1) as nat);
        if lookup(prev, d[n - 1]).is_some() {
            prev
        } else {
            prev.push((d[n - 1], v[n - 1]))
        }
    }
}

/// The number among the first `n` values whose digest was already in the
/// table when it came.
pub open spec fn collisions_after(d: Seq<Seq<u8>>, v: Seq<Seq<char>>, n: nat) -> nat
    decreases n,
{
    if n == 0 {
        0
    } else {
        collisions_after(d, v, (n - 1) as nat) + if lookup(seen_after(d, v, (n - 1) as nat), d[n - 1]).is_some() {
            1nat
        } else {
            0nat
        }
    }
}

/// The colliding values among the first `n`, each with the value stored for its
/// digest.
pub open spec fn pairs_after(d: Seq<Seq<u8>>, v: Seq<Seq<char>>, n: nat) -> Seq<(Seq<char>, Seq<char>)>
    decreases n,
{
    if n == 0 {
        Seq::empty()
    } else {
        let prev = pairs_after(d, v, (n - 1) as nat);
        match lookup(seen_after(d, v, (n - 1) as nat), d[n - 1]) {
            Some(orig) => prev.push((v[n - 1], orig)),
            None => prev,
        }
    }
}

/// The report that the evaluation of values `v` with digests `d` yields.
pub open spec fn report_matches(
    r: CollisionReport,
    d: Seq<Seq<u8>>,
    v: Seq<Seq<char>>,
    save_col: bool,
) -> bool {
    &&& r.collision_count == collisions_after(d, v, v.len())
    &&& entries_view(r.first_seen@) == seen_after(d, v, v.len())
    &&& pairs_view(r.collisions@) == if save_col {
        pairs_after(d, v, v.len())
    } else {
        Seq::empty()
    }
}

/// The digests that `h` gives to the UTF-8 bytes of each value.
pub open spec fn digests_of<H: Hasher>(h: &H, v: Seq<Seq<char>>) -> Seq<Seq<u8>> {
    v.map_values(|s: Seq<char>| h.digest(encode_utf8(s)))
}

/// The collision count of `h` over the values `v`.
pub open spec fn collision_count_of<H: Hasher>(h: &H, v: Seq<Seq<char>>) -> nat {
    collisions_after(digests_of(h, v), v, v.len())
}

/// Whether two digests are equal, byte for byte.
fn same_digest(a: &Vec<u8>, b: &Vec<u8>) -> (r: bool)
    ensures
        r == (a@ == b@),
{
    if a.len() != b.len() {
        return false;
    }
    let mut i: usize = 0;
    while i < a.len()
        invariant
            a@.len() == b@.len(),
            i <= a@.len(),
            forall|k: int| 0 <= k < i ==> a@[k] == b@[k],
        decreases a@.len() - i,
    {
        if a[i] != b[i] {
            return false;
        }
        i = i + 1;
    }
    proof {
        assert(a@ =~= b@);
    }
    true
}

/// A 64-bit key of a digest, the bucket of the table's index where it is
/// looked up: the bytes as a polynomial in 31, modulo 2^64.
pub open spec fn bucket_of(d: Seq<u8>) -> u64
    decreases d.len(),
{
    if d.len() == 0 {
        0
    } else {
        ((bucket_of(d.drop_last()) as int * 31 + d.last() as int) % 0x1_0000_0000_0000_0000) as u64
    }
}

/// Computes the bucket of a digest.
fn bucket_key(d: &Vec<u8>) -> (k: u64)
    ensures
        k == bucket_of(d@),
{
    let mut k: u64 = 0;
    let mut i: usize = 0;
    while i < d.len()
        invariant
            i <= d@.len(),
            k == bucket_of(d@.take(i as int)),
        decreases d@.len() - i,
    {
        proof {
            assert(d@.take(i + 1).drop_last() =~= d@.take(i as int));
        }
        k = ((k as u128 * 31 + d[i] as u128) % 0x1_0000_0000_0000_0000u128) as u64;
        i = i + 1;
    }
    proof {
        assert(d@.take(i as int) =~= d@);
    }
    k
}

/// The index holds, under the bucket of each entry's digest, that entry's
/// position, and only valid positions; digests in the table are distinct.
pub open spec fn index_wf(buckets: Map<u64, Vec<usize>>, e: Seq<(Seq<u8>, Seq<char>)>) -> bool {
    &&& forall|j: int|
        0 <= j < e.len() ==> #[trigger] buckets.contains_key(bucket_of(e[j].0)) && buckets[bucket_of(
            e[j].0,
        )]@.contains(j as usize)
    &&& forall|k: u64, p: int|
        buckets.contains_key(k) && 0 <= p < buckets[k]@.len() ==> #[trigger] buckets[k]@[p] < e.len()
    &&& forall|i: int, j: int| 0 <= i < j < e.len() ==> #[trigger] e[i].0 != #[trigger] e[j].0
}

/// In a table of distinct digests, the entry for a digest is the stored one.
proof fn lemma_lookup_found(e: Seq<(Seq<u8>, Seq<char>)>, d: Seq<u8>, p: int)
    requires
        0 <= p < e.len(),
        e[p].0 == d,
        forall|i: int, j: int| 0 <= i < j < e.len() ==> #[trigger] e[i].0 != #[trigger] e[j].0,
    ensures
        lookup(e, d) == Some(e[p].1),
    decreases e.len(),
{
    if p < e.len() - 1 {
        assert(e[p].0 != e[e.len() - 1].0);
        let pre = e.drop_last();
        assert forall|i: int, j: int| 0 <= i < j < pre.len() implies #[trigger] pre[i].0
            != #[trigger] pre[j].0 by {
            assert(e[i].0 != e[j].0);
        }
        lemma_lookup_found(pre, d, p);
    }
}

/// A digest that no entry holds is not found.
proof fn lemma_lookup_absent(e: Seq<(Seq<u8>, Seq<char>)>, d: Seq<u8>)
    requires
        forall|j: int| 0 <= j < e.len() ==> #[trigger] e[j].0 != d,
    ensures
        lookup(e, d).is_none(),
    decreases e.len(),
{
    if e.len() > 0 {
        let pre = e.drop_last();
        assert forall|j: int| 0 <= j < pre.len() implies #[trigger] pre[j].0 != d by {
            assert(e[j].0 != d);
        }
        lemma_lookup_absent(pre, d);
    }
}

/// The position of the entry for digest `d`, found through the index.
fn find_entry(e: &Vec<(Vec<u8>, String)>, buckets: &HashMap<u64, Vec<usize>>, d: &Vec<u8>) -> (r:
    Option<usize>)
    requires
        index_wf(buckets@, entries_view(e@)),
    ensures
        match r {
            Some(j) => j < e@.len() && e@[j as int].0@ == d@ && lookup(entries_view(e@), d@) == Some(
                e@[j as int].1@,
            ),
            None => lookup(entries_view(e@), d@).is_none() && forall|j: int|
                0 <= j < e@.len() ==> #[trigger] e@[j].0@ != d@,
        },
{
    let ghost full = entries_view(e@);
    let k = bucket_key(d);
    let bucket = match buckets.get(&k) {
        Some(b) => b,
        None => {
            proof {
                assert forall|j: int| 0 <= j < e@.len() implies #[trigger] e@[j].0@ != d@ by {
                    assert(full[j].0 == e@[j].0@);
                    if e@[j].0@ == d@ {
                        assert(buckets@.contains_key(bucket_of(full[j].0)));
                    }
                }
                assert forall|j: int| 0 <= j < full.len() implies #[trigger] full[j].0 != d@ by {
                    assert(full[j].0 == e@[j].0@);
                }
                lemma_lookup_absent(full, d@);
            }
            return None;
        },
    };
    let mut p: usize = 0;
    while p < bucket.len()
        invariant
            p <= bucket@.len(),
            full == entries_view(e@),
            index_wf(buckets@, full),
            buckets@.contains_key(k),
            k == bucket_of(d@),
            *bucket == buckets@[k],
            forall|q: int| 0 <= q < p ==> e@[bucket@[q] as int].0@ != d@,
        decreases bucket@.len() - p,
    {
        let j = bucket[p];
        assert(buckets@[k]@[p as int] < full.len());
        if same_digest(&e[j].0, d) {
            proof {
                assert(full[j as int].0 == d@);
                lemma_lookup_found(full, d@, j as int);
            }
            return Some(j);
        }
        p = p + 1;
    }
    let n: usize = e.len();
    proof {
        assert forall|j: int| 0 <= j < e@.len() implies #[trigger] e@[j].0@ != d@ by {
            assert(full[j].0 == e@[j].0@);
            if e@[j].0@ == d@ {
                assert(bucket_of(full[j].0) == k);
                assert(bucket@.contains(j as usize));
                let q = choose|q: int| 0 <= q < bucket@.len() && bucket@[q] == j as usize;
                assert(j < n);
                assert(bucket@[q] as int == j);
                assert(e@[bucket@[q] as int].0@ != d@);
            }
        }
        assert forall|j: int| 0 <= j < full.len() implies #[trigger] full[j].0 != d@ by {
            assert(full[j].0 == e@[j].0@);
        }
        lemma_lookup_absent(full, d@);
    }
    None
}

/// Evaluates collisions of `values`, given the digest of each in `digests`:
/// each value whose digest is already stored counts one collision (and, with
/// `save_col`, is kept beside the stored value); any other is stored under its
/// digest.
pub fn count_collisions(values: &Vec<String>, digests: &Vec<Vec<u8>>, save_col: bool) -> (r:
    CollisionReport)
    requires
        values@.len() == digests@.len(),
    ensures
        report_matches(r, digests_view(digests@), texts(values@), save_col),
{
    let ghost d = digests_view(digests@);
    let ghost v = texts(values@);
    let mut report = CollisionReport {
        collision_count: 0,
        first_seen: Vec::new(),
        collisions: Vec::new(),
    };
    proof {
        assert(entries_view(report.first_seen@) =~= Seq::empty());
        assert(pairs_view(report.collisions@) =~= Seq::empty());
    }
    let mut buckets: HashMap<u64, Vec<usize>> = HashMap::new();
    let mut i: usize = 0;
    while i < values.len()
        invariant
            values@.len() == digests@.len(),
            d == digests_view(digests@),
            index_wf(buckets@, entries_view(report.first_seen@)),
            v == texts(values@),
            i <= values@.len(),
            report.collision_count == collisions_after(d, v, i as nat),
            report.collision_count <= i,
            entries_view(report.first_seen@) == seen_after(d, v, i as nat),
            pairs_view(report.collisions@) == if save_col {
                pairs_after(d, v, i as nat)
            } else {
                Seq::empty()
            },
        decreases values@.len() - i,
    {
        let digest = &digests[i];
        let value = &values[i];
        assert(d[i as int] == digest@);
        assert(v[i as int] == value@);
        match find_entry(&report.first_seen, &buckets, digest) {
            Some(j) => {
                report.collision_count = report.collision_count + 1;
                if save_col {
                    let c = Collision { value: value.clone(), original: report.first_seen[j].1.clone() };
                    report.collisions.push(c);
                    proof {
                        assert(pairs_view(report.collisions@) =~= pairs_after(d, v, (i + 1) as nat));
                    }
                }
            },
            None => {
                let ghost old_e = entries_view(report.first_seen@);
                let ghost old_b = buckets@;
                assert(index_wf(old_b, old_e));
                let j = report.first_seen.len();
                let k = bucket_key(digest);
                let mut bucket = match buckets.remove(&k) {
                    Some(b) => b,
                    None => Vec::new(),
                };
                let ghost old_bucket = bucket@;
                bucket.push(j);
                buckets.insert(k, bucket);
                report.first_seen.push((digest.clone(), value.clone()));
                proof {
                    let e = entries_view(report.first_seen@);
                    assert(e =~= old_e.push((digest@, value@)));
                    assert(old_b.contains_key(k) ==> old_bucket == old_b[k]@);
                    assert(!old_b.contains_key(k) ==> old_bucket.len() == 0);
                    assert(buckets@.contains_key(k) && buckets@[k]@ == old_bucket.push(j));
                    assert(buckets@ == old_b.remove(k).insert(k, buckets@[k]));
                    assert forall|q: int| 0 <= q < e.len() implies #[trigger] buckets@.contains_key(
                        bucket_of(e[q].0),
                    ) && buckets@[bucket_of(e[q].0)]@.contains(q as usize) by {
                        if q < j {
                            assert(e[q] == old_e[q]);
                            assert(0 <= q < old_e.len());
                            let kq = bucket_of(old_e[q].0);
                            assert(old_b.contains_key(bucket_of(old_e[q].0)));
                            assert(old_b[kq]@.contains(q as usize));
                            if kq == k {
                                let t = choose|t: int| 0 <= t < old_bucket.len() && old_bucket[t] == q as usize;
                                assert(buckets@[k]@[t] == q as usize);
                            } else {
                                assert(buckets@[kq] == old_b[kq]);
                            }
                        } else {
                            assert(buckets@[k]@[old_bucket.len() as int] == j);
                        }
                    }
                    assert forall|kk: u64, t: int|
                        buckets@.contains_key(kk) && 0 <= t < buckets@[kk]@.len() implies #[trigger] buckets@[kk]@[t]
                        < e.len() by {
                        if kk == k {
                            if t < old_bucket.len() {
                                assert(old_b[k]@[t] < old_e.len());
                            }
                        } else {
                            assert(old_b[kk]@[t] < old_e.len());
                        }
                    }
                    assert forall|a: int, b: int| 0 <= a < b < e.len() implies #[trigger] e[a].0
                        != #[trigger] e[b].0 by {
                        if b < j {
                            assert(old_e[a].0 != old_e[b].0);
                        } else {
                            assert(e[a].0 == report.first_seen@[a].0@);
                        }
                    }

                    assert(entries_view(report.first_seen@) =~= seen_after(d, v, (i + 1) as nat));
                }
            },
        }
        i = i + 1;
    }
    report
}

/// Hashes each value's UTF-8 bytes with `hasher`, in order.
pub fn digest_values<H: Hasher>(values: &Vec<String>, hasher: &H) -> (r: Vec<Vec<u8>>)
    ensures
        r@.len() == values@.len(),
        digests_view(r@) == digests_of(hasher, texts(values@)),
{
    let mut r: Vec<Vec<u8>> = Vec::new();
    let mut i: usize = 0;
    while i < values.len()
        invariant
            i <= values@.len(),
            r@.len() == i,
            forall|k: int|
                0 <= k < i ==> #[trigger] r@[k]@ == hasher.digest(encode_utf8(values@[k]@)),
        decreases values@.len() - i,
    {
        let bytes = values[i].as_str().as_bytes();
        r.push(hasher.hash(bytes));
        i = i + 1;
    }
    proof {
        assert(digests_view(r@) =~= digests_of(hasher, texts(values@)));
    }
    r
}

/// Evaluates collisions of `hasher` over the column `column` of the delimited
/// text `data`. Fails, with no report, where the dataset cannot be read or has
/// no such column.
pub fn test_collisions_in_memory<H: Hasher>(
    data: &[u8],
    column: &str,
    save_col: bool,
    hasher: &H,
) -> (r: Result<(ColumnStream, CollisionReport), DatasetError>)
    ensures
        match r {
            Ok((stream, report)) => {
                &&& column_read_as(data@, column@, Ok::<ColumnStream, DatasetError>(stream))
                &&& report_matches(
                    report,
                    digests_of(hasher, texts(stream.values@)),
                    texts(stream.values@),
                    save_col,
                )
            },
            Err(e) => column_read_as(data@, column@, Err::<ColumnStream, DatasetError>(e)),
        },
{
    let stream = match read_column(data, column) {
        Ok(s) => s,
        Err(e) => {
            return Err(e);
        },
    };
    let digests = digest_values(&stream.values, hasher);
    let report = count_collisions(&stream.values, &digests, save_col);
    Ok((stream, report))
}

/// Looking up after an append sees the appended entry first.
proof fn lemma_lookup_push(s: Seq<(Seq<u8>, Seq<char>)>, p: (Seq<u8>, Seq<char>), x: Seq<u8>)
    ensures
        lookup(s.push(p), x) == if p.0 == x {
            Some(p.1)
        } else {
            lookup(s, x)
        },
{
    assert(s.push(p).drop_last() =~= s);
}

/// A digest is in the table after `k` values exactly when one of them had it.
proof fn lemma_seen_iff_earlier(d: Seq<Seq<u8>>, v: Seq<Seq<char>>, k: nat, x: Seq<u8>)
    requires
        k <= d.len(),
    ensures
        lookup(seen_after(d, v, k), x).is_some() <==> exists|j: int| 0 <= j < k && d[j] == x,
    decreases k,
{
    if k > 0 {
        let prev = seen_after(d, v, (k - 1) as nat);
        lemma_seen_iff_earlier(d, v, (k - 1) as nat, x);
        if lookup(prev, d[k - 1]).is_none() {
            lemma_lookup_push(prev, (d[k - 1], v[k - 1]), x);
        } else if d[k - 1] == x {
            lemma_seen_iff_earlier(d, v, (k - 1) as nat, d[k - 1]);
        }
        if exists|j: int| 0 <= j < k && d[j] == x {
            let j = choose|j: int| 0 <= j < k && d[j] == x;
            if j < k - 1 {
                assert(exists|i: int| 0 <= i < k - 1 && d[i] == x);
            }
        }
    }
}

/// Every value either adds an entry to the table or counts a collision.
proof fn lemma_count_plus_entries(d: Seq<Seq<u8>>, v: Seq<Seq<char>>, n: nat)
    ensures
        collisions_after(d, v, n) + seen_after(d, v, n).len() == n,
        n >= 1 ==> seen_after(d, v, n).len() >= 1,
    decreases n,
{
    if n > 0 {
        lemma_count_plus_entries(d, v, (n - 1) as nat);
        if n == 1 {
            assert(seen_after(d, v, 0).len() == 0);
            assert(lookup(seen_after(d, v, 0), d[0]).is_none());
        }
    }
}

/// With digests pairwise distinct, the count is zero and the table holds an
/// entry per value; and conversely, a zero count means pairwise distinct
/// digests.
proof fn lemma_zero_iff_distinct(d: Seq<Seq<u8>>, v: Seq<Seq<char>>, n: nat)
    requires
        n <= d.len(),
    ensures
        collisions_after(d, v, n) == 0 <==> (forall|i: int, j: int|
            0 <= i < j < n ==> d[i] != d[j]),
    decreases n,
{
    if n > 0 {
        let m = (n - 1) as nat;
        lemma_zero_iff_distinct(d, v, m);
        lemma_seen_iff_earlier(d, v, m, d[m as int]);
        if collisions_after(d, v, n) == 0 {
            assert forall|i: int, j: int| 0 <= i < j < n implies d[i] != d[j] by {
                if j < m {
                } else {
                    if d[i] == d[j] {
                        assert(exists|k: int| 0 <= k < m && d[k] == d[m as int]);
                    }
                }
            }
        }
        if forall|i: int, j: int| 0 <= i < j < n ==> d[i] != d[j] {
            assert forall|i: int, j: int| 0 <= i < j < m implies d[i] != d[j] by {
                assert(0 <= i < j < n);
            }
            if lookup(seen_after(d, v, m), d[m as int]).is_some() {
                let k = choose|k: int| 0 <= k < m && d[k] == d[m as int];
                assert(0 <= k < m && k < n);
            }
        }
    }
}

/// Where no two values of a column share a digest under `h`, the collision
/// count is zero and the table holds one entry per value.
pub proof fn lemma_distinct_digests_no_collisions<H: Hasher>(h: &H, values: Seq<Seq<char>>)
    requires
        forall|i: int, j: int|
            0 <= i < j < values.len() ==> digests_of(h, values)[i] != digests_of(h, values)[j],
    ensures
        collision_count_of(h, values) == 0,
        seen_after(digests_of(h, values), values, values.len()).len() == values.len(),
{
    let d = digests_of(h, values);
    lemma_zero_iff_distinct(d, values, values.len());
    lemma_count_plus_entries(d, values, values.len());
}

/// Over a non-empty column the collision count is at most one less than the
/// number of values; it is zero exactly when no two values share a digest.
pub proof fn lemma_collision_count_bounds<H: Hasher>(h: &H, values: Seq<Seq<char>>)
    ensures
        values.len() >= 1 ==> collision_count_of(h, values) <= values.len() - 1,
        collision_count_of(h, values) == 0 <==> (forall|i: int, j: int|
            0 <= i < j < values.len() ==> digests_of(h, values)[i] != digests_of(h, values)[j]),
{
    let d = digests_of(h, values);
    lemma_zero_iff_distinct(d, values, values.len());
    lemma_count_plus_entries(d, values, values.len());
}

/// Two collision evaluations of one hash function over one column of one
/// dataset give the same count.
pub proof fn lemma_rerun_same_count<H: Hasher>(
    h: &H,
    data: Seq<u8>,
    column: Seq<char>,
    first: (ColumnStream, CollisionReport),
    second: (ColumnStream, CollisionReport),
    save_first: bool,
    save_second: bool,
)
    requires
        column_read_as(data, column, Ok::<ColumnStream, DatasetError>(first.0)),
        column_read_as(data, column, Ok::<ColumnStream, DatasetError>(second.0)),
        report_matches(first.1, digests_of(h, texts(first.0.values@)), texts(first.0.values@), save_first),
        report_matches(second.1, digests_of(h, texts(second.0.values@)), texts(second.0.values@), save_second),
    ensures
        first.1.collision_count == second.1.collision_count,
{
}

} // verus!
