//! The index: the mapping from key to the `(offset, length)` byte range of
//! that key's most recent live entry in the value log.
//!
//! The index is held as a vector of entries with pairwise distinct keys. Its
//! specification view is the sequence of entry views; `entries_map` folds
//! that sequence into the key-to-range map that the store contracts speak of,
//! with a later entry superseding an earlier one of the same key.

use vstd::prelude::*;
use vstd::utf8::*;

verus! {

broadcast use vstd::string::group_string_axioms, vstd::slice::group_slice_axioms;

/// The view of one index entry: key characters, byte offset, byte length.
pub type EntryView = (Seq<char>, u64, u64);

/// The mapping that a sequence of entries denotes: each entry binds its key
/// to its byte range, and a later entry wins over an earlier one.
pub open spec fn entries_map(s: Seq<EntryView>) -> Map<Seq<char>, (u64, u64)>
    decreases s.len(),
{
    if s.len() == 0 {
        Map::empty()
    } else {
        entries_map(s.drop_last()).insert(s.last().0, (s.last().1, s.last().2))
    }
}

/// No two entries share a key.
pub open spec fn keys_unique(s: Seq<EntryView>) -> bool {
    forall|i: int, j: int|
        0 <= i < s.len() && 0 <= j < s.len() && i != j ==> s[i].0 != s[j].0
}

/// Some entry carries the given key.
pub open spec fn has_key(s: Seq<EntryView>, k: Seq<char>) -> bool {
    exists|i: int| 0 <= i < s.len() && s[i].0 == k
}

/// The entries with every entry of the given key taken out, order kept.
pub open spec fn remove_key(s: Seq<EntryView>, k: Seq<char>) -> Seq<EntryView>
    decreases s.len(),
{
    if s.len() == 0 {
        s
    } else if s.last().0 == k {
        remove_key(s.drop_last(), k)
    } else {
        remove_key(s.drop_last(), k).push(s.last())
    }
}

/// The entries after binding `k` to the range `(off, len)`: any previous
/// entry of that key is taken out and the new binding goes to the end.
pub open spec fn put_entries(s: Seq<EntryView>, k: Seq<char>, off: u64, len: u64) -> Seq<
    EntryView,
> {
    remove_key(s, k).push((k, off, len))
}

/// The counts under which an entry sequence survives the snapshot codec:
/// entry count and every key's encoded byte length fit an unsigned 64-bit
/// field. Every index that the store builds satisfies this.
pub open spec fn encodable(s: Seq<EntryView>) -> bool {
    &&& s.len() <= u64::MAX
    &&& forall|i: int| 0 <= i < s.len() ==> (#[trigger] encode_utf8(s[i].0)).len() <= u64::MAX
}

/// How `entries_map` reads a sequence: a key is bound exactly when some
/// entry carries it, and under distinct keys that entry gives the binding.
pub proof fn lemma_entries_map_index(s: Seq<EntryView>)
    ensures
        forall|k: Seq<char>| #[trigger] entries_map(s).contains_key(k) <==> has_key(s, k),
        keys_unique(s) ==> forall|i: int|
            0 <= i < s.len() ==> #[trigger] entries_map(s)[s[i].0] == (s[i].1, s[i].2),
    decreases s.len(),
{
    if s.len() > 0 {
        lemma_entries_map_index(s.drop_last());
        assert forall|k: Seq<char>| #[trigger] entries_map(s).contains_key(k) implies has_key(
            s,
            k,
        ) by {
            if k == s.last().0 {
                assert(s[s.len() - 1].0 == k);
            } else {
                assert(entries_map(s.drop_last()).contains_key(k));
                assert(has_key(s.drop_last(), k));
                let i = choose|i: int| 0 <= i < s.drop_last().len() && s.drop_last()[i].0 == k;
                assert(s[i].0 == k);
            }
        }
        assert forall|k: Seq<char>| has_key(s, k) implies entries_map(s).contains_key(k) by {
            let i = choose|i: int| 0 <= i < s.len() && s[i].0 == k;
            if i < s.len() - 1 {
                assert(s.drop_last()[i].0 == k);
                assert(has_key(s.drop_last(), k));
                assert(entries_map(s.drop_last()).contains_key(k));
            }
        }
        if keys_unique(s) {
            assert(keys_unique(s.drop_last())) by {
                assert forall|i: int, j: int|
                    0 <= i < s.drop_last().len() && 0 <= j < s.drop_last().len() && i
                        != j implies s.drop_last()[i].0 != s.drop_last()[j].0 by {
                    assert(s[i].0 != s[j].0);
                }
            }
            assert forall|i: int| 0 <= i < s.len() implies #[trigger] entries_map(s)[s[i].0] == (
                s[i].1,
                s[i].2,
            ) by {
                if i < s.len() - 1 {
                    assert(s[i].0 != s.last().0);
                    assert(s.drop_last()[i] == s[i]);
                    assert(entries_map(s.drop_last())[s.drop_last()[i].0] == (
                        s.drop_last()[i].1,
                        s.drop_last()[i].2,
                    ));
                }
            }
        }
    }
}

/// What taking a key out does: the denoted map loses exactly that key, the
/// remaining entries keep their order, come from the original sequence, and
/// distinctness of keys is kept.
pub proof fn lemma_remove_key(s: Seq<EntryView>, k: Seq<char>)
    ensures
        entries_map(remove_key(s, k)) =~= entries_map(s).remove(k),
        forall|j: int|
            0 <= j < remove_key(s, k).len() ==> (#[trigger] remove_key(s, k)[j]).0 != k,
        forall|j: int|
            0 <= j < remove_key(s, k).len() ==> exists|i: int|
                0 <= i < s.len() && #[trigger] remove_key(s, k)[j] == s[i],
        keys_unique(s) ==> keys_unique(remove_key(s, k)),
        remove_key(s, k).len() <= s.len(),
        !has_key(s, k) ==> remove_key(s, k) =~= s,
    decreases s.len(),
{
    let r = remove_key(s, k);
    if s.len() == 0 {
        assert(entries_map(r) =~= entries_map(s).remove(k));
    } else {
        let dl = s.drop_last();
        lemma_remove_key(dl, k);
        assert(keys_unique(s) ==> keys_unique(dl)) by {
            if keys_unique(s) {
                assert forall|i: int, j: int|
                    0 <= i < dl.len() && 0 <= j < dl.len() && i != j implies dl[i].0
                    != dl[j].0 by {
                    assert(s[i].0 != s[j].0);
                }
            }
        }
        assert forall|j: int| 0 <= j < r.len() implies exists|i: int|
            0 <= i < s.len() && #[trigger] r[j] == s[i] by {
            if s.last().0 == k || j < r.len() - 1 {
                let rd = remove_key(dl, k);
                assert(rd[j] == r[j]);
                let i = choose|i: int| 0 <= i < dl.len() && rd[j] == dl[i];
                assert(r[j] == s[i]);
            } else {
                assert(r[j] == s[s.len() - 1]);
            }
        }
        if s.last().0 == k {
            assert(entries_map(r) =~= entries_map(s).remove(k));
        } else {
            assert(entries_map(r) =~= entries_map(s).remove(k)) by {
                assert(r.drop_last() =~= remove_key(dl, k));
                assert(r.last() == s.last());
                assert(entries_map(r) == entries_map(remove_key(dl, k)).insert(
                    s.last().0,
                    (s.last().1, s.last().2),
                ));
            }
            if keys_unique(s) {
                let rd = remove_key(dl, k);
                assert forall|i: int, j: int|
                    0 <= i < r.len() && 0 <= j < r.len() && i != j implies r[i].0 != r[j].0 by {
                    if i < rd.len() && j < rd.len() {
                        assert(rd[i] == r[i] && rd[j] == r[j]);
                    } else if i < rd.len() {
                        // j is the pushed last element of s
                        let i0 = choose|i0: int| 0 <= i0 < dl.len() && rd[i] == dl[i0];
                        assert(s[i0].0 != s[s.len() - 1].0);
                    } else {
                        let j0 = choose|j0: int| 0 <= j0 < dl.len() && rd[j] == dl[j0];
                        assert(s[j0].0 != s[s.len() - 1].0);
                    }
                }
            }
            if !has_key(s, k) {
                assert(!has_key(dl, k)) by {
                    if has_key(dl, k) {
                        let i = choose|i: int| 0 <= i < dl.len() && dl[i].0 == k;
                        assert(s[i].0 == k);
                    }
                }
                assert(r =~= s);
            }
        }
        if s.last().0 == k && !has_key(s, k) {
            assert(s[s.len() - 1].0 == k);
        }
    }
}

/// Binding a key yields the map with that binding inserted, and keeps keys
/// distinct.
pub proof fn lemma_put_entries(s: Seq<EntryView>, k: Seq<char>, off: u64, len: u64)
    ensures
        entries_map(put_entries(s, k, off, len)) =~= entries_map(s).insert(k, (off, len)),
        keys_unique(s) ==> keys_unique(put_entries(s, k, off, len)),
{
    lemma_remove_key(s, k);
    let r = remove_key(s, k);
    let p = put_entries(s, k, off, len);
    assert(p.drop_last() =~= r);
    assert(entries_map(p) == entries_map(r).insert(k, (off, len)));
    if keys_unique(s) {
        assert forall|i: int, j: int|
            0 <= i < p.len() && 0 <= j < p.len() && i != j implies p[i].0 != p[j].0 by {
            if i < r.len() && j < r.len() {
                assert(r[i] == p[i] && r[j] == p[j]);
            } else if i < r.len() {
                assert(r[i] == p[i] && r[i].0 != k);
            } else {
                assert(r[j] == p[j] && r[j].0 != k);
            }
        }
    }
}

/// One entry of the index: a key and the byte range of its value.
#[derive(Debug)]
pub struct IndexEntry {
    pub key: String,
    pub offset: u64,
    pub length: u64,
}

impl View for IndexEntry {
    type V = EntryView;

    open spec fn view(&self) -> EntryView {
        (self.key@, self.offset, self.length)
    }
}

/// The in-memory index. Entries carry pairwise distinct keys; the view is
/// the entry sequence in storage order.
#[derive(Debug)]
pub struct LogIndex {
    entries: Vec<IndexEntry>,
}

impl View for LogIndex {
    type V = Seq<EntryView>;

    closed spec fn view(&self) -> Seq<EntryView> {
        self.entries@.map_values(|e: IndexEntry| e@)
    }
}

impl LogIndex {
    /// Distinct keys, and every key short enough for the snapshot codec.
    pub open spec fn wf(&self) -> bool {
        &&& keys_unique(self@)
        &&& encodable(self@)
    }

    /// The key-to-range mapping this index denotes.
    pub open spec fn as_map(&self) -> Map<Seq<char>, (u64, u64)> {
        entries_map(self@)
    }

    /// An empty index.
    pub fn new() -> (r: LogIndex)
        ensures
            r.wf(),
            r@ == Seq::<EntryView>::empty(),
    {
        let r = LogIndex { entries: Vec::new() };
        proof {
            assert(r@ =~= Seq::<EntryView>::empty());
        }
        r
    }

    /// How many entries the index holds.
    pub fn entry_count(&self) -> (r: usize)
        ensures
            r == self@.len(),
    {
        self.entries.len()
    }

    /// The entry at a position, in storage order.
    pub fn entry_at(&self, i: usize) -> (r: &IndexEntry)
        requires
            i < self@.len(),
        ensures
            r@ == self@[i as int],
    {
        &self.entries[i]
    }

    /// The position of the entry carrying `key`, if one does.
    fn find(&self, key: &str) -> (r: Option<usize>)
        ensures
            match r {
                Some(i) => i < self@.len() && self@[i as int].0 == key@,
                None => forall|i: int| 0 <= i < self@.len() ==> self@[i].0 != key@,
            },
    {
        let n = self.entries.len();
        let mut i: usize = 0;
        while i < n
            invariant
                i <= n,
                n == self@.len(),
                forall|j: int| 0 <= j < i ==> self@[j].0 != key@,
            decreases n - i,
        {
            if str_eq(self.entries[i].key.as_str(), key) {
                return Some(i);
            }
            i = i + 1;
        }
        None
    }

    /// Looks a key up; `None` exactly when the key is not bound.
    pub fn lookup(&self, key: &str) -> (r: Option<(u64, u64)>)
        requires
            self.wf(),
        ensures
            r is Some <==> self.as_map().contains_key(key@),
            r is Some ==> r->0 == self.as_map()[key@],
    {
        proof {
            lemma_entries_map_index(self@);
        }
        match self.find(key) {
            Some(i) => {
                let e = &self.entries[i];
                Some((e.offset, e.length))
            },
            None => {
                proof {
                    if has_key(self@, key@) {
                        let i = choose|i: int| 0 <= i < self@.len() && self@[i].0 == key@;
                        assert(self@[i].0 == key@);
                    }
                }
                None
            },
        }
    }

    /// Binds `key` to the range `(offset, length)`, superseding any previous
    /// binding of the same key.
    pub fn put(&mut self, key: String, offset: u64, length: u64)
        requires
            old(self).wf(),
        ensures
            final(self)@ == put_entries(old(self)@, key@, offset, length),
            final(self).as_map() == old(self).as_map().insert(key@, (offset, length)),
            final(self).wf(),
    {
        proof {
            lemma_remove_key(old(self)@, key@);
            lemma_put_entries(old(self)@, key@, offset, length);
        }
        let ghost pre = self@;
        match self.find(key.as_str()) {
            Some(i) => {
                let _ = self.entries.remove(i);
                proof {
                    assert(self@ =~= pre.remove(i as int));
                    lemma_remove_key_at(pre, key@, i as int);
                }
            },
            None => {
                proof {
                    assert(!has_key(pre, key@));
                    assert(self@ =~= remove_key(pre, key@));
                }
            },
        }
        // The key's encoded length fits u64: its byte slice length is a usize.
        let key_bytes: &[u8] = key.as_str().as_bytes();
        let _kl = key_bytes.len();
        assert(encode_utf8(key@).len() <= u64::MAX);
        let e = IndexEntry { key, offset, length };
        self.entries.push(e);
        proof {
            assert(final(self)@ =~= put_entries(pre, e.key@, offset, length));
            assert forall|i: int| 0 <= i < final(self)@.len() implies (#[trigger] encode_utf8(
                final(self)@[i].0,
            )).len() <= u64::MAX by {
                let p = put_entries(pre, e.key@, offset, length);
                if i < p.len() - 1 {
                    let r = remove_key(pre, e.key@);
                    assert(p[i] == r[i]);
                    let i0 = choose|i0: int| 0 <= i0 < pre.len() && r[i] == pre[i0];
                    assert(encode_utf8(pre[i0].0).len() <= u64::MAX);
                }
            }
        }
        let _n = self.entries.len();
        assert(final(self)@.len() <= u64::MAX);
    }

    /// Drops the binding of `key`; reports whether one was present.
    pub fn remove(&mut self, key: &str) -> (r: bool)
        requires
            old(self).wf(),
        ensures
            r == old(self).as_map().contains_key(key@),
            final(self)@ == remove_key(old(self)@, key@),
            final(self).as_map() == old(self).as_map().remove(key@),
            final(self).wf(),
            !r ==> *final(self) == *old(self),
    {
        proof {
            lemma_entries_map_index(old(self)@);
            lemma_remove_key(old(self)@, key@);
        }
        let ghost pre = self@;
        match self.find(key) {
            Some(i) => {
                let _ = self.entries.remove(i);
                proof {
                    assert(self@ =~= pre.remove(i as int));
                    lemma_remove_key_at(pre, key@, i as int);
                    assert(pre[i as int].0 == key@);
                }
                true
            },
            None => {
                proof {
                    assert(!has_key(pre, key@));
                    assert(self@ =~= remove_key(pre, key@));
                    if entries_map(pre).contains_key(key@) {
                        let i = choose|i: int| 0 <= i < pre.len() && pre[i].0 == key@;
                        assert(pre[i].0 == key@);
                    }
                }
                false
            },
        }
    }
}

/// Under distinct keys, taking a key out removes exactly the one entry that
/// carries it.
proof fn lemma_remove_key_at(s: Seq<EntryView>, k: Seq<char>, i: int)
    requires
        keys_unique(s),
        0 <= i < s.len(),
        s[i].0 == k,
    ensures
        remove_key(s, k) =~= s.remove(i),
    decreases s.len(),
{
    let dl = s.drop_last();
    assert(keys_unique(dl)) by {
        assert forall|x: int, y: int|
            0 <= x < dl.len() && 0 <= y < dl.len() && x != y implies dl[x].0 != dl[y].0 by {
            assert(s[x].0 != s[y].0);
        }
    }
    if i == s.len() - 1 {
        assert(s.last().0 == k);
        assert(!has_key(dl, k)) by {
            if has_key(dl, k) {
                let j = choose|j: int| 0 <= j < dl.len() && dl[j].0 == k;
                assert(s[j].0 == s[i].0);
            }
        }
        lemma_remove_key(dl, k);
        assert(remove_key(s, k) =~= s.remove(i));
    } else {
        assert(s.last().0 != k) by {
            assert(s[i].0 != s[s.len() - 1].0);
        }
        assert(dl[i].0 == k);
        lemma_remove_key_at(dl, k, i);
        assert(remove_key(s, k) =~= remove_key(dl, k).push(s.last()));
        assert(remove_key(s, k) =~= s.remove(i));
    }
}

/// Whether two string slices hold the same characters, decided by comparing
/// their byte encodings.
pub fn str_eq(a: &str, b: &str) -> (r: bool)
    ensures
        r == (a@ == b@),
{
    let ab: &[u8] = a.as_bytes();
    let bb: &[u8] = b.as_bytes();
    let an = ab.len();
    let bn = bb.len();
    if an != bn {
        proof {
            if a@ == b@ {
                assert(ab@ == bb@);
            }
        }
        return false;
    }
    let mut i: usize = 0;
    while i < an
        invariant
            i <= an,
            an == ab@.len(),
            an == bb@.len(),
            ab@ == encode_utf8(a@),
            bb@ == encode_utf8(b@),
            forall|j: int| 0 <= j < i ==> ab@[j] == bb@[j],
        decreases an - i,
    {
        let x = *vstd::slice::slice_index_get(ab, i);
        let y = *vstd::slice::slice_index_get(bb, i);
        if x != y {
            proof {
                if a@ == b@ {
                    assert(ab@ == bb@);
                    assert(ab@[i as int] == bb@[i as int]);
                }
            }
            return false;
        }
        i = i + 1;
    }
    proof {
        assert(ab@ =~= bb@);
        encode_utf8_decode_utf8(a@);
        encode_utf8_decode_utf8(b@);
        assert(a@ == decode_utf8(encode_utf8(a@)));
        assert(a@ == b@);
    }
    true
}

} // verus!
