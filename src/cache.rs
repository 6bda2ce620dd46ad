//! The collection of the newest record per satellite, and the merge that
//! folds a decoded batch into it.

use vstd::prelude::*;
use crate::batch::{batch_failures, decode_batch, decoded, group_results, Failure};
use crate::lines::lines_of;
use crate::record::{TleView, TLE};

verus! {

/// The records `b` decode to `vs`, one for one.
pub open spec fn views_are(b: Seq<TLE>, vs: Seq<TleView>) -> bool {
    &&& b.len() == vs.len()
    &&& forall|i: int| 0 <= i < b.len() ==> (#[trigger] b[i])@ == vs[i]
}

/// Position of the first record of `s` with catalog number `k`, or -1.
pub open spec fn index_of_key(s: Seq<TLE>, k: u32) -> int
    decreases s.len(),
{
    if s.len() == 0 {
        -1
    } else {
        let j = index_of_key(s.drop_last(), k);
        if j >= 0 {
            j
        } else if s.last().satellite_number == k {
            s.len() - 1
        } else {
            -1
        }
    }
}

/// `t` in place of the record with its catalog number, or added at the end.
pub open spec fn upsert(s: Seq<TLE>, t: TLE) -> Seq<TLE> {
    let i = index_of_key(s, t.satellite_number);
    if i >= 0 {
        s.update(i, t)
    } else {
        s.push(t)
    }
}

/// `s` with each record of `batch` upserted, in batch order.
pub open spec fn merge_all(s: Seq<TLE>, batch: Seq<TLE>) -> Seq<TLE>
    decreases batch.len(),
{
    if batch.len() == 0 {
        s
    } else {
        upsert(merge_all(s, batch.drop_last()), batch.last())
    }
}

/// No two records share a catalog number.
pub open spec fn keys_unique(s: Seq<TLE>) -> bool {
    forall|i: int, j: int|
        0 <= i < j < s.len() ==> (#[trigger] s[i]).satellite_number != (#[trigger] s[j]).satellite_number
}

/// The last record of `batch` with catalog number `k`.
pub open spec fn last_with_key(batch: Seq<TLE>, k: u32) -> Option<TLE>
    decreases batch.len(),
{
    if batch.len() == 0 {
        None
    } else if batch.last().satellite_number == k {
        Some(batch.last())
    } else {
        last_with_key(batch.drop_last(), k)
    }
}

pub open spec fn same_keys(a: Seq<TLE>, b: Seq<TLE>) -> bool {
    &&& a.len() == b.len()
    &&& forall|i: int| 0 <= i < a.len() ==> (#[trigger] a[i]).satellite_number == b[i].satellite_number
}

proof fn lemma_index_of_key(s: Seq<TLE>, k: u32)
    ensures
        -1 <= index_of_key(s, k) < s.len(),
        index_of_key(s, k) >= 0 ==> s[index_of_key(s, k)].satellite_number == k,
        index_of_key(s, k) >= 0 ==> forall|j: int|
            0 <= j < index_of_key(s, k) ==> (#[trigger] s[j]).satellite_number != k,
        index_of_key(s, k) < 0 ==> forall|j: int| 0 <= j < s.len() ==> (#[trigger] s[j]).satellite_number != k,
    decreases s.len(),
{
    if s.len() > 0 {
        let p = s.drop_last();
        lemma_index_of_key(p, k);
        let i = index_of_key(s, k);
        if i >= 0 {
            assert forall|j: int| 0 <= j < i implies (#[trigger] s[j]).satellite_number != k by {
                assert(s[j] == p[j]);
            }
        } else {
            assert forall|j: int| 0 <= j < s.len() implies (#[trigger] s[j]).satellite_number != k by {
                if j < p.len() {
                    assert(s[j] == p[j]);
                }
            }
        }
    }
}

/// The first index is all that finding a key depends on: records with the
/// same catalog numbers in the same places give the same index.
proof fn lemma_index_same_keys(a: Seq<TLE>, b: Seq<TLE>, k: u32)
    requires
        same_keys(a, b),
    ensures
        index_of_key(a, k) == index_of_key(b, k),
    decreases a.len(),
{
    if a.len() > 0 {
        lemma_index_same_keys(a.drop_last(), b.drop_last(), k);
    }
}

proof fn lemma_upsert_keeps_unique(s: Seq<TLE>, t: TLE)
    requires
        keys_unique(s),
    ensures
        keys_unique(upsert(s, t)),
        index_of_key(upsert(s, t), t.satellite_number) >= 0,
        upsert(s, t)[index_of_key(upsert(s, t), t.satellite_number)] == t,
{
    lemma_index_of_key(s, t.satellite_number);
    let r = upsert(s, t);
    lemma_index_of_key(r, t.satellite_number);
    let i = index_of_key(s, t.satellite_number);
    if i >= 0 {
        assert(same_keys(s, r));
        lemma_index_same_keys(s, r, t.satellite_number);
    } else {
        assert(index_of_key(r.drop_last(), t.satellite_number) == i) by {
            assert(r.drop_last() =~= s);
        }
    }
}

/// Merging keeps catalog numbers unique.
proof fn lemma_merge_keeps_unique(s: Seq<TLE>, batch: Seq<TLE>)
    requires
        keys_unique(s),
    ensures
        keys_unique(merge_all(s, batch)),
    decreases batch.len(),
{
    if batch.len() > 0 {
        lemma_merge_keeps_unique(s, batch.drop_last());
        lemma_upsert_keeps_unique(merge_all(s, batch.drop_last()), batch.last());
    }
}

/// Upserting `t` puts it where the first record with its catalog number
/// is, and moves no other catalog number's first position.
proof fn lemma_upsert_positions(s: Seq<TLE>, t: TLE, k: u32)
    ensures
        index_of_key(upsert(s, t), t.satellite_number) >= 0,
        upsert(s, t)[index_of_key(upsert(s, t), t.satellite_number)] == t,
        index_of_key(s, k) >= 0 ==> index_of_key(upsert(s, t), k) == index_of_key(s, k),
        k != t.satellite_number && index_of_key(s, k) >= 0 ==> upsert(s, t)[index_of_key(s, k)]
            == s[index_of_key(s, k)],
{
    lemma_index_of_key(s, t.satellite_number);
    lemma_index_of_key(s, k);
    let r = upsert(s, t);
    let i = index_of_key(s, t.satellite_number);
    if i >= 0 {
        assert(same_keys(s, r));
        lemma_index_same_keys(s, r, t.satellite_number);
        lemma_index_same_keys(s, r, k);
    } else {
        assert(r.drop_last() =~= s);
    }
}

/// A catalog number of a batch is found after merging it, holding the
/// batch's last record with that number; one found before stays in place.
proof fn lemma_merge_positions(s: Seq<TLE>, batch: Seq<TLE>, k: u32)
    ensures
        last_with_key(batch, k) is Some ==> {
            let r = merge_all(s, batch);
            &&& index_of_key(r, k) >= 0
            &&& r[index_of_key(r, k)] == last_with_key(batch, k)->Some_0
        },
        index_of_key(s, k) >= 0 ==> index_of_key(merge_all(s, batch), k) == index_of_key(s, k),
        index_of_key(s, k) >= 0 && last_with_key(batch, k) is None ==> merge_all(s, batch)[index_of_key(
            s,
            k,
        )] == s[index_of_key(s, k)],
    decreases batch.len(),
{
    if batch.len() > 0 {
        let m = merge_all(s, batch.drop_last());
        lemma_merge_positions(s, batch.drop_last(), k);
        lemma_upsert_positions(m, batch.last(), k);
    }
}

proof fn lemma_last_with_key_found(batch: Seq<TLE>, i: int)
    requires
        0 <= i < batch.len(),
    ensures
        last_with_key(batch, batch[i].satellite_number) is Some,
    decreases batch.len(),
{
    if i < batch.len() - 1 && batch.last().satellite_number != batch[i].satellite_number {
        lemma_last_with_key_found(batch.drop_last(), i);
    }
}

proof fn lemma_last_with_key_has_key(batch: Seq<TLE>, k: u32)
    ensures
        last_with_key(batch, k) is Some ==> last_with_key(batch, k)->Some_0.satellite_number == k,
    decreases batch.len(),
{
    if batch.len() > 0 {
        lemma_last_with_key_has_key(batch.drop_last(), k);
    }
}

/// `r` with, for each catalog number of `batch`, the batch's last record
/// with it put at the first position of that number.
spec fn replaced_by(r: Seq<TLE>, batch: Seq<TLE>) -> Seq<TLE> {
    Seq::new(
        r.len(),
        |j: int|
            {
                let k = r[j].satellite_number;
                match last_with_key(batch, k) {
                    Some(t) => if j == index_of_key(r, k) {
                        t
                    } else {
                        r[j]
                    },
                    None => r[j],
                }
            },
    )
}

/// Merging a batch whose catalog numbers are all present only replaces
/// records in place.
proof fn lemma_merge_present(r: Seq<TLE>, batch: Seq<TLE>)
    requires
        forall|i: int| 0 <= i < batch.len() ==> index_of_key(r, (#[trigger] batch[i]).satellite_number) >= 0,
    ensures
        merge_all(r, batch) == replaced_by(r, batch),
    decreases batch.len(),
{
    if batch.len() == 0 {
        assert(replaced_by(r, batch) =~= r);
    } else {
        let b = batch.drop_last();
        let u = batch.last();
        assert forall|i: int| 0 <= i < b.len() implies index_of_key(r, (#[trigger] b[i]).satellite_number) >= 0 by {
            assert(b[i] == batch[i]);
        }
        lemma_merge_present(r, b);
        let m = replaced_by(r, b);
        assert forall|j: int| 0 <= j < r.len() implies (#[trigger] m[j]).satellite_number == r[j].satellite_number by {
            lemma_last_with_key_has_key(b, r[j].satellite_number);
            lemma_index_of_key(r, r[j].satellite_number);
        }
        assert(same_keys(r, m));
        lemma_index_same_keys(r, m, u.satellite_number);
        assert(index_of_key(r, batch[batch.len() - 1].satellite_number) >= 0);
        lemma_index_of_key(r, u.satellite_number);
        assert(upsert(m, u) =~= replaced_by(r, batch));
    }
}

/// Merging the same batch a second time changes no record.
pub proof fn lemma_merge_idempotent(s: Seq<TLE>, batch: Seq<TLE>)
    ensures
        merge_all(merge_all(s, batch), batch) == merge_all(s, batch),
{
    let r = merge_all(s, batch);
    assert forall|i: int| 0 <= i < batch.len() implies index_of_key(r, (#[trigger] batch[i]).satellite_number)
        >= 0 by {
        lemma_last_with_key_found(batch, i);
        lemma_merge_positions(s, batch, batch[i].satellite_number);
    }
    lemma_merge_present(r, batch);
    assert forall|j: int| 0 <= j < r.len() implies (#[trigger] replaced_by(r, batch)[j]) == r[j] by {
        let k = r[j].satellite_number;
        lemma_merge_positions(s, batch, k);
    }
    assert(replaced_by(r, batch) =~= r);
}

/// A batch record whose catalog number is already in the collection
/// replaces that record whole, in its place: the merged collection has
/// still exactly one record with that number, the batch's last one with it.
pub proof fn lemma_merge_replaces_existing(s: Seq<TLE>, batch: Seq<TLE>, k: u32)
    requires
        keys_unique(s),
        index_of_key(s, k) >= 0,
        last_with_key(batch, k) is Some,
    ensures
        keys_unique(merge_all(s, batch)),
        index_of_key(merge_all(s, batch), k) == index_of_key(s, k),
        merge_all(s, batch)[index_of_key(s, k)] == last_with_key(batch, k)->Some_0,
        forall|j: int|
            0 <= j < merge_all(s, batch).len() && (#[trigger] merge_all(s, batch)[j]).satellite_number == k
                ==> j == index_of_key(s, k),
{
    lemma_merge_keeps_unique(s, batch);
    lemma_merge_positions(s, batch, k);
    lemma_index_of_key(merge_all(s, batch), k);
}

/// Merging a batch whose catalog numbers are all in the collection adds no
/// record: the length stays the same.
pub proof fn lemma_merge_existing_keeps_length(s: Seq<TLE>, batch: Seq<TLE>)
    requires
        forall|i: int| 0 <= i < batch.len() ==> index_of_key(s, (#[trigger] batch[i]).satellite_number) >= 0,
    ensures
        merge_all(s, batch).len() == s.len(),
{
    lemma_merge_present(s, batch);
}

/// Upserts each record of `batch` into `tles`, in batch order.
fn merge_into(tles: &mut Vec<TLE>, batch: Vec<TLE>)
    requires
        keys_unique(old(tles)@),
    ensures
        final(tles)@ == merge_all(old(tles)@, batch@),
        keys_unique(final(tles)@),
{
    let ghost start = tles@;
    for t in it: batch.into_iter()
        invariant
            it.seq() == batch@,
            tles@ == merge_all(start, batch@.take(it.index() as int)),
            keys_unique(tles@),
    {
        let ghost i = it.index() as int;
        assert(batch@.take(i + 1).drop_last() =~= batch@.take(i));
        proof {
            lemma_index_of_key(tles@, t.satellite_number);
            lemma_upsert_keeps_unique(tles@, t);
        }
        let mut j: usize = 0;
        while j < tles.len() && tles[j].satellite_number != t.satellite_number
            invariant
                j <= tles@.len(),
                forall|k: int| 0 <= k < j ==> (#[trigger] tles@[k]).satellite_number != t.satellite_number,
            decreases tles@.len() - j,
        {
            j = j + 1;
        }
        if j < tles.len() {
            tles.set(j, t);
        } else {
            tles.push(t);
        }
    }
    assert(batch@.take(batch@.len() as int) =~= batch@);
}

/// The newest record of each satellite, and when the last full merge was.
#[derive(Debug)]
pub struct Cache {
    last_bulk_update: i64,
    tles: Vec<TLE>,
}

impl Cache {
    #[verifier::type_invariant]
    spec fn inv(&self) -> bool {
        keys_unique(self.tles@)
    }

    /// The records, in the order they were first added.
    pub closed spec fn records(&self) -> Seq<TLE> {
        self.tles@
    }

    pub closed spec fn last_update(&self) -> int {
        self.last_bulk_update as int
    }

    /// An empty collection, stamped with `now`.
    pub fn new(now: i64) -> (r: Cache)
        ensures
            r.records() == Seq::<TLE>::empty(),
            r.last_update() == now,
    {
        Cache { last_bulk_update: now, tles: Vec::new() }
    }

    /// A collection holding `tles`, where a later record replaces an earlier
    /// one with the same catalog number.
    pub fn from_records(last_bulk_update: i64, tles: Vec<TLE>) -> (r: Cache)
        ensures
            r.records() == merge_all(Seq::empty(), tles@),
            keys_unique(r.records()),
            r.last_update() == last_bulk_update,
    {
        let mut cache = Cache::new(last_bulk_update);
        cache.merge(tles, last_bulk_update);
        cache
    }

    /// Folds `batch` in: each record replaces the one with its catalog
    /// number, or is added at the end; then the collection is stamped with
    /// `now`.
    pub fn merge(&mut self, batch: Vec<TLE>, now: i64)
        ensures
            final(self).records() == merge_all(old(self).records(), batch@),
            keys_unique(final(self).records()),
            final(self).last_update() == now,
    {
        let mut current = Cache::new(now);
        std::mem::swap(self, &mut current);
        proof {
            use_type_invariant(&current);
        }
        let Cache { last_bulk_update: _, tles } = current;
        let mut tles = tles;
        merge_into(&mut tles, batch);
        *self = Cache { last_bulk_update: now, tles };
    }

    /// Decodes `raw`, merges the records that decoded, stamps the collection
    /// with `now`, and returns what failed to decode.
    pub fn update(&mut self, raw: &str, now: i64) -> (r: Vec<Failure>)
        ensures
            exists|b: Seq<TLE>|
                views_are(b, decoded(group_results(lines_of(raw@))))
                    && final(self).records() == merge_all(old(self).records(), b),
            keys_unique(final(self).records()),
            r@ == batch_failures(raw@),
            final(self).last_update() == now,
    {
        let batch = decode_batch(raw);
        let ghost b = batch.records@;
        self.merge(batch.records, now);
        assert(views_are(b, decoded(group_results(lines_of(raw@)))));
        batch.failures
    }

    /// The records, in the order they were first added.
    pub fn tles(&self) -> (r: &Vec<TLE>)
        ensures
            r@ == self.records(),
            keys_unique(r@),
    {
        proof {
            use_type_invariant(self);
        }
        &self.tles
    }

    pub fn last_bulk_update(&self) -> (r: i64)
        ensures
            r == self.last_update(),
    {
        self.last_bulk_update
    }

    /// The stamp and the records, for storing the collection.
    pub fn into_parts(self) -> (r: (i64, Vec<TLE>))
        ensures
            r.0 == self.last_update(),
            r.1@ == self.records(),
    {
        (self.last_bulk_update, self.tles)
    }
}

} // verus!
