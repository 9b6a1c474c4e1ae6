//! The store facade: the value log, the index, and the public operations.
//!
//! The store state is the value log's bytes and the index. The offset cursor
//! of the on-disk layout is the log's current length: every insertion
//! reserves the range that starts there, so ranges of successive insertions
//! never overlap. The caller that owns the files appends what `insert` wrote
//! at the returned offset, mirrors `index_snapshot` into the index file, and
//! rebuilds a store from the two files' contents with `load`.

use vstd::prelude::*;

use crate::codec::{decode_index, encode_index, spec_decode, spec_encode};
use crate::errors::StoreError;
use crate::index::{
    encodable, entries_map, has_key, keys_unique, lemma_entries_map_index, lemma_put_entries,
    lemma_remove_key, put_entries, remove_key, EntryView, LogIndex,
};

verus! {

/// Entry ranges sit one after another: each entry ends at or before the next
/// one starts, and the last ends at or before `log_len`. Every store built
/// by the store's own operations keeps its index in this shape.
pub open spec fn ranges_chained(s: Seq<EntryView>, log_len: int) -> bool {
    &&& forall|i: int| 0 <= i && i + 1 < s.len() ==> s[i].1 + s[i].2 <= s[i + 1].1
    &&& s.len() > 0 ==> s[s.len() - 1].1 + s[s.len() - 1].2 <= log_len
}

/// The total byte length of the listed entries.
pub open spec fn sum_lens(s: Seq<EntryView>) -> int
    decreases s.len(),
{
    if s.len() == 0 {
        0
    } else {
        sum_lens(s.drop_last()) + s.last().2
    }
}

proof fn lemma_chained_drop_last(s: Seq<EntryView>, log_len: int)
    requires
        ranges_chained(s, log_len),
        s.len() > 0,
    ensures
        ranges_chained(s.drop_last(), s[s.len() - 1].1 as int),
{
    let dl = s.drop_last();
    assert forall|i: int| 0 <= i && i + 1 < dl.len() implies dl[i].1 + dl[i].2 <= dl[i + 1].1 by {
        assert(s[i].1 + s[i].2 <= s[i + 1].1);
    }
    if dl.len() > 0 {
        assert(s[dl.len() - 1].1 + s[dl.len() - 1].2 <= s[dl.len() as int].1);
    }
}

/// Taking a key out of a chained index keeps it chained.
pub proof fn lemma_chained_remove_key(s: Seq<EntryView>, k: Seq<char>, log_len: int)
    requires
        ranges_chained(s, log_len),
    ensures
        ranges_chained(remove_key(s, k), log_len),
    decreases s.len(),
{
    let r = remove_key(s, k);
    if s.len() > 0 {
        let dl = s.drop_last();
        let last = s[s.len() - 1];
        lemma_chained_drop_last(s, log_len);
        lemma_chained_remove_key(dl, k, last.1 as int);
        let rd = remove_key(dl, k);
        if last.0 == k {
            assert forall|i: int| 0 <= i && i + 1 < r.len() implies r[i].1 + r[i].2 <= r[i
                + 1].1 by {}
            if r.len() > 0 {
                assert(r[r.len() - 1].1 + r[r.len() - 1].2 <= last.1 as int);
            }
        } else {
            assert forall|i: int| 0 <= i && i + 1 < r.len() implies r[i].1 + r[i].2 <= r[i
                + 1].1 by {
                if i + 1 < rd.len() {
                    assert(rd[i].1 + rd[i].2 <= rd[i + 1].1);
                } else {
                    assert(rd[rd.len() - 1].1 + rd[rd.len() - 1].2 <= last.1 as int);
                }
            }
        }
    }
}

/// In a chained index every entry's range lies inside the log.
pub proof fn lemma_chained_in_bounds(s: Seq<EntryView>, log_len: int)
    requires
        ranges_chained(s, log_len),
    ensures
        forall|i: int| 0 <= i < s.len() ==> (#[trigger] s[i]).1 + s[i].2 <= log_len,
    decreases s.len(),
{
    if s.len() > 0 {
        let last = s[s.len() - 1];
        lemma_chained_drop_last(s, log_len);
        lemma_chained_in_bounds(s.drop_last(), last.1 as int);
        assert forall|i: int| 0 <= i < s.len() implies (#[trigger] s[i]).1 + s[i].2 <= log_len by {
            if i < s.len() - 1 {
                assert(s.drop_last()[i].1 + s.drop_last()[i].2 <= last.1 as int);
            }
        }
    }
}

/// In a chained index the ranges of any two entries do not overlap: the
/// earlier entry ends at or before the later one starts.
pub proof fn lemma_chained_disjoint(s: Seq<EntryView>, log_len: int)
    requires
        ranges_chained(s, log_len),
    ensures
        forall|i: int, j: int|
            0 <= i < j < s.len() ==> (#[trigger] s[i]).1 + s[i].2 <= (#[trigger] s[j]).1,
    decreases s.len(),
{
    if s.len() > 0 {
        let last = s[s.len() - 1];
        lemma_chained_drop_last(s, log_len);
        lemma_chained_disjoint(s.drop_last(), last.1 as int);
        lemma_chained_in_bounds(s.drop_last(), last.1 as int);
        assert forall|i: int, j: int| 0 <= i < j < s.len() implies (#[trigger] s[i]).1 + s[i].2 <= (
        #[trigger] s[j]).1 by {
            if j < s.len() - 1 {
                assert(s.drop_last()[i].1 + s.drop_last()[i].2 <= s.drop_last()[j].1);
            } else {
                assert(s.drop_last()[i].1 + s.drop_last()[i].2 <= last.1 as int);
            }
        }
    }
}

/// The ranges of a chained index take up no more room than the log holds.
pub proof fn lemma_chained_sum(s: Seq<EntryView>, log_len: int)
    requires
        ranges_chained(s, log_len),
        log_len >= 0,
    ensures
        0 <= sum_lens(s) <= log_len,
    decreases s.len(),
{
    if s.len() > 0 {
        let last = s[s.len() - 1];
        lemma_chained_drop_last(s, log_len);
        lemma_chained_sum(s.drop_last(), last.1 as int);
    }
}

/// The embedded key-value store: an append-only value log and the index of
/// each key's live byte range.
#[derive(Debug)]
pub struct KeyValueStore {
    log: Vec<u8>,
    index: LogIndex,
}

impl KeyValueStore {
    /// The value log's bytes.
    pub closed spec fn log_view(&self) -> Seq<u8> {
        self.log@
    }

    /// The index entries, in storage order.
    pub closed spec fn entries(&self) -> Seq<EntryView> {
        self.index@
    }

    /// Keys are distinct and every key fits the snapshot codec.
    pub open spec fn wf(&self) -> bool {
        &&& keys_unique(self.entries())
        &&& encodable(self.entries())
    }

    /// The key-to-range mapping of the index.
    pub open spec fn index_map(&self) -> Map<Seq<char>, (u64, u64)> {
        entries_map(self.entries())
    }

    /// Whether the index binds this key.
    pub open spec fn contains(&self, k: Seq<char>) -> bool {
        self.index_map().contains_key(k)
    }

    /// Whether the key is bound and its range lies inside the log, so that a
    /// read of it can be served.
    pub open spec fn live(&self, k: Seq<char>) -> bool {
        &&& self.contains(k)
        &&& self.index_map()[k].0 + self.index_map()[k].1 <= self.log_view().len()
    }

    /// The bytes the log holds for a live key.
    pub open spec fn value_at(&self, k: Seq<char>) -> Seq<u8> {
        self.log_view().subrange(
            self.index_map()[k].0 as int,
            self.index_map()[k].0 + self.index_map()[k].1,
        )
    }

    /// Everything a read can see: each live key with its value bytes.
    pub open spec fn contents(&self) -> Map<Seq<char>, Seq<u8>> {
        Map::new(|k: Seq<char>| self.live(k), |k: Seq<char>| self.value_at(k))
    }

    /// The index ranges sit one after another inside the log.
    pub open spec fn tight(&self) -> bool {
        ranges_chained(self.entries(), self.log_view().len() as int)
    }

    /// Every bound key's range lies inside the log.
    pub open spec fn all_live(&self) -> bool {
        forall|i: int|
            0 <= i < self.entries().len() ==> (#[trigger] self.entries()[i]).1
                + self.entries()[i].2 <= self.log_view().len()
    }

    /// A fresh store: empty log, empty index.
    pub fn new() -> (r: KeyValueStore)
        ensures
            r.wf(),
            r.tight(),
            r.log_view() == Seq::<u8>::empty(),
            r.entries() == Seq::<EntryView>::empty(),
            r.contents() == Map::<Seq<char>, Seq<u8>>::empty(),
    {
        let r = KeyValueStore { log: Vec::new(), index: LogIndex::new() };
        proof {
            assert(r.contents() =~= Map::<Seq<char>, Seq<u8>>::empty());
        }
        r
    }

    /// Rebuilds a store from the two files' contents: the whole value log and
    /// the whole index snapshot. Fails exactly when the snapshot bytes do not
    /// decode; the ranges the snapshot promises are not checked against the
    /// log, so a mismatched pair surfaces later, on `get`.
    pub fn load(log: Vec<u8>, index_bytes: &[u8]) -> (r: Result<KeyValueStore, StoreError>)
        ensures
            r is Ok <==> spec_decode(index_bytes@) is Some,
            r matches Err(e) ==> e == StoreError::CorruptIndex,
            r matches Ok(s) ==> spec_decode(index_bytes@) matches Some(es) && s.wf()
                && s.log_view() == log@ && s.index_map() == entries_map(es),
    {
        match decode_index(index_bytes) {
            Ok(index) => Ok(KeyValueStore { log, index }),
            Err(e) => Err(e),
        }
    }

    /// The snapshot bytes that mirror the current index in full.
    pub fn index_snapshot(&self) -> (r: Vec<u8>)
        requires
            self.wf(),
        ensures
            r@ == spec_encode(self.entries()),
    {
        encode_index(&self.index)
    }

    /// The value log's bytes, as the log file would hold them.
    pub fn log_bytes(&self) -> (r: &Vec<u8>)
        ensures
            r@ == self.log_view(),
    {
        &self.log
    }

    /// Appends the value's bytes at the reserved offset — the log's current
    /// end — and binds the key to that range. Returns the offset, so that the
    /// caller can mirror the same write into the log file.
    pub fn insert(&mut self, key: String, value: Vec<u8>) -> (offset: u64)
        requires
            old(self).wf(),
            old(self).log_view().len() + value@.len() <= usize::MAX,
        ensures
            offset == old(self).log_view().len(),
            final(self).wf(),
            final(self).log_view() == old(self).log_view() + value@,
            final(self).entries() == put_entries(
                old(self).entries(),
                key@,
                offset,
                value@.len() as u64,
            ),
            final(self).index_map() == old(self).index_map().insert(
                key@,
                (offset, value@.len() as u64),
            ),
            final(self).live(key@),
            final(self).contents()[key@] == value@,
            old(self).tight() ==> final(self).tight(),
            old(self).tight() ==> final(self).contents() == old(self).contents().insert(
                key@,
                value@,
            ),
    {
        let offset = self.log.len();
        let vlen = value.len();
        let mut moved = value;
        self.log.append(&mut moved);
        proof {
            lemma_put_entries(old(self).entries(), key@, offset as u64, vlen as u64);
        }
        self.index.put(key, offset as u64, vlen as u64);
        proof {
            let pre = *old(self);
            let post = *self;
            let k = post.entries()[post.entries().len() - 1].0;
            assert(post.live(k));
            assert(post.value_at(k) =~= value@);
            if pre.tight() {
                lemma_chained_remove_key(
                    pre.entries(),
                    k,
                    pre.log_view().len() as int,
                );
                let r = remove_key(pre.entries(), k);
                assert forall|i: int|
                    0 <= i && i + 1 < post.entries().len() implies post.entries()[i].1
                    + post.entries()[i].2 <= post.entries()[i + 1].1 by {
                    if i + 1 < r.len() {
                        assert(r[i].1 + r[i].2 <= r[i + 1].1);
                    } else {
                        assert(r[r.len() - 1].1 + r[r.len() - 1].2 <= pre.log_view().len());
                    }
                }
                assert(post.tight());
                lemma_contents_after_insert(pre, post, k, value@);
            }
        }
        offset as u64
    }

    /// Serves a read: `Ok(None)` when the key is not bound, the value bytes
    /// when it is bound and its range lies inside the log, and
    /// `TruncatedRead` when the index promises bytes the log does not hold.
    pub fn get(&self, key: &str) -> (r: Result<Option<Vec<u8>>, StoreError>)
        requires
            self.wf(),
        ensures
            match r {
                Ok(Some(v)) => self.live(key@) && v@ == self.contents()[key@],
                Ok(None) => !self.contains(key@),
                Err(e) => e == StoreError::TruncatedRead && self.contains(key@) && !self.live(
                    key@,
                ),
            },
    {
        match self.index.lookup(key) {
            None => Ok(None),
            Some((off, len)) => {
                let ll = self.log.len();
                if off > ll as u64 || len > ll as u64 - off {
                    return Err(StoreError::TruncatedRead);
                }
                let start = off as usize;
                let end = (off + len) as usize;
                let v = vstd::slice::slice_to_vec(
                    vstd::slice::slice_subrange(self.log.as_slice(), start, end),
                );
                proof {
                    assert(v@ =~= self.value_at(key@));
                }
                Ok(Some(v))
            },
        }
    }

    /// Unbinds the key; the log keeps the bytes as garbage. Fails with
    /// `KeyNotFound`, leaving the store as it was, exactly when the key is
    /// not bound.
    pub fn delete(&mut self, key: &str) -> (r: Result<(), StoreError>)
        requires
            old(self).wf(),
        ensures
            final(self).wf(),
            final(self).log_view() == old(self).log_view(),
            r is Ok <==> old(self).contains(key@),
            r matches Err(e) ==> e == StoreError::KeyNotFound && *final(self) == *old(self),
            r is Ok ==> final(self).entries() == remove_key(old(self).entries(), key@),
            r is Ok ==> final(self).index_map() == old(self).index_map().remove(key@),
            r is Ok ==> final(self).contents() == old(self).contents().remove(key@),
            old(self).tight() ==> final(self).tight(),
    {
        let present = self.index.remove(key);
        if !present {
            return Err(StoreError::KeyNotFound);
        }
        proof {
            let pre = *old(self);
            let post = *self;
            lemma_remove_key(pre.entries(), key@);
            if pre.tight() {
                lemma_chained_remove_key(pre.entries(), key@, pre.log_view().len() as int);
            }
            assert(post.contents() =~= pre.contents().remove(key@)) by {
                assert forall|k2: Seq<char>| post.live(k2) implies pre.live(k2) && post.value_at(
                    k2,
                ) == pre.value_at(k2) by {}
            }
        }
        Ok(())
    }

    /// Rewrites the store to hold only the live entries, packed with no
    /// gaps: what reads can see is unchanged, and nothing else survives.
    /// Fails with `TruncatedRead`, changing nothing, exactly when some bound
    /// range lies outside the log.
    pub fn gc(&mut self) -> (r: Result<(), StoreError>)
        requires
            old(self).wf(),
        ensures
            r is Ok <==> old(self).all_live(),
            r matches Err(e) ==> e == StoreError::TruncatedRead && *final(self) == *old(self),
            r is Ok ==> final(self).wf() && final(self).tight(),
            r is Ok ==> final(self).contents() == old(self).contents(),
            r is Ok ==> final(self).log_view().len() == sum_lens(old(self).entries()),
            old(self).tight() && r is Ok ==> final(self).log_view().len() <= old(
                self,
            ).log_view().len(),
    {
        let n = self.index.entry_count();
        let mut new_log: Vec<u8> = Vec::new();
        let mut new_index = LogIndex::new();
        let mut i: usize = 0;
        while i < n
            invariant
                *self == *old(self),
                self.wf(),
                i <= n,
                n == self.entries().len(),
                new_index.wf(),
                new_index@.len() == i,
                new_log@.len() == sum_lens(self.entries().subrange(0, i as int)),
                forall|j: int|
                    0 <= j < i ==> (#[trigger] new_index@[j]).0 == self.entries()[j].0
                        && new_index@[j].2 == self.entries()[j].2 && new_index@[j].1
                        == sum_lens(self.entries().subrange(0, j)),
                forall|j: int|
                    0 <= j < i ==> (#[trigger] self.entries()[j]).1 + self.entries()[j].2
                        <= self.log_view().len(),
                forall|j: int|
                    0 <= j < i ==> new_log@.subrange(
                        (#[trigger] new_index@[j]).1 as int,
                        new_index@[j].1 + new_index@[j].2,
                    ) == self.log_view().subrange(
                        self.entries()[j].1 as int,
                        self.entries()[j].1 + self.entries()[j].2,
                    ),
            decreases n - i,
        {
            let ghost pre_entries = self.entries();
            let e = self.index.entry_at(i);
            let ll = self.log.len();
            if e.offset > ll as u64 || e.length > ll as u64 - e.offset {
                return Err(StoreError::TruncatedRead);
            }
            let ghost old_new_log = new_log@;
            let new_off = new_log.len();
            let start = e.offset as usize;
            let end = (e.offset + e.length) as usize;
            let mut piece = vstd::slice::slice_to_vec(
                vstd::slice::slice_subrange(self.log.as_slice(), start, end),
            );
            new_log.append(&mut piece);
            proof {
                lemma_sum_lens_snoc(pre_entries, i as int);
                assert(!has_key(new_index@, pre_entries[i as int].0)) by {
                    if has_key(new_index@, pre_entries[i as int].0) {
                        let j = choose|j: int|
                            0 <= j < new_index@.len() && new_index@[j].0
                                == pre_entries[i as int].0;
                        assert(pre_entries[j].0 == pre_entries[i as int].0);
                    }
                }
                lemma_remove_key(new_index@, pre_entries[i as int].0);
            }
            let key = e.key.clone();
            let length = e.length;
            let ghost prev_new_index = new_index@;
            new_index.put(key, new_off as u64, length);
            proof {
                assert(new_index@ =~= remove_key(prev_new_index, pre_entries[i as int].0).push(
                    (pre_entries[i as int].0, new_off as u64, length),
                ));
                assert forall|j: int|
                    0 <= j < i + 1 implies new_log@.subrange(
                    (#[trigger] new_index@[j]).1 as int,
                    new_index@[j].1 + new_index@[j].2,
                ) == self.log_view().subrange(
                    self.entries()[j].1 as int,
                    self.entries()[j].1 + self.entries()[j].2,
                ) by {
                    if j < i {
                        lemma_sum_lens_nonneg(pre_entries.subrange(0, j));
                        lemma_sum_lens_snoc(pre_entries, j);
                        lemma_sum_lens_monotone(pre_entries, j + 1, i as int);
                        assert(new_index@[j].1 + new_index@[j].2 <= old_new_log.len());
                        assert(new_log@.subrange(
                            new_index@[j].1 as int,
                            new_index@[j].1 + new_index@[j].2,
                        ) =~= old_new_log.subrange(
                            new_index@[j].1 as int,
                            new_index@[j].1 + new_index@[j].2,
                        ));
                    } else {
                        assert(new_log@.subrange(
                            new_index@[j].1 as int,
                            new_index@[j].1 + new_index@[j].2,
                        ) =~= self.log_view().subrange(
                            self.entries()[j].1 as int,
                            self.entries()[j].1 + self.entries()[j].2,
                        ));
                    }
                }
            }
            i = i + 1;
        }
        proof {
            assert(self.entries().subrange(0, n as int) =~= self.entries());
        }
        self.log = new_log;
        self.index = new_index;
        proof {
            let pre = *old(self);
            let post = *self;
            lemma_gc_result(pre, post);
            if pre.tight() {
                lemma_chained_sum(pre.entries(), pre.log_view().len() as int);
            }
        }
        Ok(())
    }
}

/// How one compaction pass relates the old store to the new one: same keys
/// in the same order, same lengths, ranges packed end to end, same bytes.
spec fn gc_rebuilt(pre: KeyValueStore, post: KeyValueStore) -> bool {
    &&& post.entries().len() == pre.entries().len()
    &&& post.log_view().len() == sum_lens(pre.entries())
    &&& forall|j: int|
        0 <= j < pre.entries().len() ==> (#[trigger] post.entries()[j]).0 == pre.entries()[j].0
            && post.entries()[j].2 == pre.entries()[j].2 && post.entries()[j].1 == sum_lens(
            pre.entries().subrange(0, j),
        )
    &&& forall|j: int|
        0 <= j < pre.entries().len() ==> (#[trigger] pre.entries()[j]).1 + pre.entries()[j].2
            <= pre.log_view().len()
    &&& forall|j: int|
        0 <= j < pre.entries().len() ==> post.log_view().subrange(
            (#[trigger] post.entries()[j]).1 as int,
            post.entries()[j].1 + post.entries()[j].2,
        ) == pre.log_view().subrange(
            pre.entries()[j].1 as int,
            pre.entries()[j].1 + pre.entries()[j].2,
        )
}

proof fn lemma_sum_lens_snoc(s: Seq<EntryView>, i: int)
    requires
        0 <= i < s.len(),
    ensures
        sum_lens(s.subrange(0, i + 1)) == sum_lens(s.subrange(0, i)) + s[i].2,
{
    assert(s.subrange(0, i + 1).drop_last() =~= s.subrange(0, i));
    assert(s.subrange(0, i + 1).last() == s[i]);
}

proof fn lemma_sum_lens_nonneg(s: Seq<EntryView>)
    ensures
        0 <= sum_lens(s),
    decreases s.len(),
{
    if s.len() > 0 {
        lemma_sum_lens_nonneg(s.drop_last());
    }
}

proof fn lemma_sum_lens_monotone(s: Seq<EntryView>, a: int, b: int)
    requires
        0 <= a <= b <= s.len(),
    ensures
        sum_lens(s.subrange(0, a)) <= sum_lens(s.subrange(0, b)),
    decreases b - a,
{
    if a < b {
        lemma_sum_lens_snoc(s, a);
        lemma_sum_lens_monotone(s, a + 1, b);
    }
}

proof fn lemma_gc_result(pre: KeyValueStore, post: KeyValueStore)
    requires
        pre.wf(),
        post.wf(),
        gc_rebuilt(pre, post),
    ensures
        post.tight(),
        post.contents() == pre.contents(),
{
    lemma_entries_map_index(pre.entries());
    lemma_entries_map_index(post.entries());
    let pe = pre.entries();
    let qe = post.entries();
    assert forall|i: int| 0 <= i && i + 1 < qe.len() implies qe[i].1 + qe[i].2 <= qe[i + 1].1 by {
        lemma_sum_lens_snoc(pe, i);
    }
    if qe.len() > 0 {
        lemma_sum_lens_snoc(pe, qe.len() - 1);
        assert(pe.subrange(0, pe.len() as int) =~= pe);
    }
    assert(post.tight());
    assert forall|j: int| 0 <= j < qe.len() implies sum_lens(pe.subrange(0, j)) + pe[j].2
        <= sum_lens(pe) by {
        lemma_sum_lens_snoc(pe, j);
        lemma_sum_lens_monotone(pe, j + 1, pe.len() as int);
        assert(pe.subrange(0, pe.len() as int) =~= pe);
    }
    assert forall|j: int| 0 <= j < qe.len() implies 0 <= sum_lens(pe.subrange(0, j)) by {
        lemma_sum_lens_nonneg(pe.subrange(0, j));
    }
    assert(post.contents() =~= pre.contents()) by {
        assert forall|k: Seq<char>| post.live(k) <==> pre.live(k) by {
            assert(post.contains(k) <==> has_key(qe, k));
            assert(pre.contains(k) <==> has_key(pe, k));
            assert(has_key(qe, k) <==> has_key(pe, k)) by {
                if has_key(qe, k) {
                    let j = choose|j: int| 0 <= j < qe.len() && qe[j].0 == k;
                    assert(pe[j].0 == k);
                }
                if has_key(pe, k) {
                    let j = choose|j: int| 0 <= j < pe.len() && pe[j].0 == k;
                    assert(qe[j].0 == k);
                }
            }
            if post.contains(k) {
                let j = choose|j: int| 0 <= j < qe.len() && qe[j].0 == k;
                assert(post.index_map()[qe[j].0] == (qe[j].1, qe[j].2));
                assert(pre.index_map()[pe[j].0] == (pe[j].1, pe[j].2));
            }
        }
        assert forall|k: Seq<char>| post.live(k) implies post.value_at(k) == pre.value_at(k) by {
            let j = choose|j: int| 0 <= j < qe.len() && qe[j].0 == k;
            assert(post.index_map()[qe[j].0] == (qe[j].1, qe[j].2));
            assert(pre.index_map()[pe[j].0] == (pe[j].1, pe[j].2));
        }
    }
}

proof fn lemma_contents_after_insert(
    pre: KeyValueStore,
    post: KeyValueStore,
    k: Seq<char>,
    value: Seq<u8>,
)
    requires
        pre.wf(),
        pre.tight(),
        post.log_view() == pre.log_view() + value,
        post.index_map() == pre.index_map().insert(
            k,
            (pre.log_view().len() as u64, value.len() as u64),
        ),
        pre.log_view().len() + value.len() <= usize::MAX,
    ensures
        post.contents() == pre.contents().insert(k, value),
{
    lemma_entries_map_index(pre.entries());
    lemma_chained_in_bounds(pre.entries(), pre.log_view().len() as int);
    assert(post.contents() =~= pre.contents().insert(k, value)) by {
        assert(post.live(k));
        assert(post.value_at(k) =~= value);
        assert forall|k2: Seq<char>| k2 != k implies (post.live(k2) <==> pre.live(k2)) by {
            if pre.contains(k2) {
                let j = choose|j: int|
                    0 <= j < pre.entries().len() && pre.entries()[j].0 == k2;
                assert(pre.index_map()[pre.entries()[j].0] == (
                    pre.entries()[j].1,
                    pre.entries()[j].2,
                ));
                assert(pre.entries()[j].1 + pre.entries()[j].2 <= pre.log_view().len());
            }
        }
        assert forall|k2: Seq<char>| k2 != k && pre.live(k2) implies post.value_at(k2)
            == pre.value_at(k2) by {
            assert(post.value_at(k2) =~= pre.value_at(k2));
        }
    }
}

} // verus!
