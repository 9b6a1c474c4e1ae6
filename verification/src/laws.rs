//! The store's general guarantees, stated once over the specification views
//! that the operations' contracts use, and proved from those contracts.

use vstd::prelude::*;

use crate::codec::{lemma_decode_of_encode, spec_decode, spec_encode};
use crate::index::{lemma_put_entries, lemma_remove_key, put_entries, remove_key};
use crate::store::{
    lemma_chained_disjoint, lemma_chained_in_bounds, lemma_chained_sum, sum_lens, KeyValueStore,
};

verus! {

/// Round trip: a store that results from inserting `value` under `key` — the
/// log extended by the value's bytes, the key bound to the appended range,
/// as `insert` ensures — shows exactly those bytes under that key, so a
/// following `get` of the key serves them back.
pub proof fn lemma_insert_round_trip(
    pre: KeyValueStore,
    post: KeyValueStore,
    key: Seq<char>,
    value: Seq<u8>,
)
    requires
        pre.wf(),
        pre.log_view().len() + value.len() <= usize::MAX,
        post.log_view() == pre.log_view() + value,
        post.entries() == put_entries(
            pre.entries(),
            key,
            pre.log_view().len() as u64,
            value.len() as u64,
        ),
    ensures
        post.contents().contains_key(key),
        post.contents()[key] == value,
{
    lemma_put_entries(pre.entries(), key, pre.log_view().len() as u64, value.len() as u64);
    assert(post.live(key));
    assert(post.value_at(key) =~= value);
}

/// Durability across reopen, first half: the snapshot that mirrors a store's
/// index decodes back to exactly the entries it was written from.
pub proof fn lemma_snapshot_round_trip(s: KeyValueStore)
    requires
        s.wf(),
    ensures
        spec_decode(spec_encode(s.entries())) == Some(s.entries()),
{
    lemma_decode_of_encode(s.entries());
}

/// Durability across reopen, second half: a store rebuilt over the same log
/// bytes, whose index denotes the same mapping — what `load` ensures when it
/// is handed the first store's log and snapshot — shows the same contents.
pub proof fn lemma_reload_preserves_contents(s: KeyValueStore, t: KeyValueStore)
    requires
        t.log_view() == s.log_view(),
        t.index_map() == s.index_map(),
    ensures
        t.contents() == s.contents(),
{
    assert(t.contents() =~= s.contents());
}

/// Deletion removes visibility: a store whose entries are the old ones with
/// `key` taken out — as `delete` ensures — no longer binds the key and no
/// longer shows anything under it; by `delete`'s own contract, deleting the
/// key once more then fails with `KeyNotFound`.
pub proof fn lemma_delete_removes_visibility(
    pre: KeyValueStore,
    post: KeyValueStore,
    key: Seq<char>,
)
    requires
        pre.wf(),
        post.log_view() == pre.log_view(),
        post.entries() == remove_key(pre.entries(), key),
    ensures
        !post.contains(key),
        !post.contents().contains_key(key),
{
    lemma_remove_key(pre.entries(), key);
}

/// Compaction applies to every store the operations build: in a tight store
/// every bound range lies inside the log, so `gc` succeeds, and the live
/// bytes it keeps take up no more room than the log it replaces.
pub proof fn lemma_tight_store_compactable(s: KeyValueStore)
    requires
        s.wf(),
        s.tight(),
    ensures
        s.all_live(),
        0 <= sum_lens(s.entries()) <= s.log_view().len(),
{
    lemma_chained_in_bounds(s.entries(), s.log_view().len() as int);
    lemma_chained_sum(s.entries(), s.log_view().len() as int);
}

/// Reservations never overlap: in a tight store any two entries' byte
/// ranges are disjoint — the earlier one ends at or before the later one
/// starts — so no write for one key can touch another key's bytes.
pub proof fn lemma_reserved_ranges_disjoint(s: KeyValueStore)
    requires
        s.wf(),
        s.tight(),
    ensures
        forall|i: int, j: int|
            0 <= i < j < s.entries().len() ==> (#[trigger] s.entries()[i]).1 + s.entries()[i].2
                <= (#[trigger] s.entries()[j]).1,
{
    lemma_chained_disjoint(s.entries(), s.log_view().len() as int);
}

/// Insertions under distinct keys do not disturb each other: whichever
/// order two such insertions are serialized in, afterwards each key shows
/// its own value.
pub proof fn lemma_distinct_inserts_both_visible(
    pre: Map<Seq<char>, Seq<u8>>,
    k1: Seq<char>,
    v1: Seq<u8>,
    k2: Seq<char>,
    v2: Seq<u8>,
)
    requires
        k1 != k2,
    ensures
        pre.insert(k1, v1).insert(k2, v2)[k1] == v1,
        pre.insert(k1, v1).insert(k2, v2)[k2] == v2,
        pre.insert(k1, v1).insert(k2, v2).contains_key(k1),
        pre.insert(k1, v1).insert(k2, v2).contains_key(k2),
{
}

} // verus!
