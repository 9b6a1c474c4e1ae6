//! The index snapshot codec: the on-disk form of the whole index.
//!
//! A snapshot is one self-contained blob: an unsigned 64-bit little-endian
//! entry count, then for each entry the key's byte length (64-bit LE), the
//! key's UTF-8 bytes, the value's offset (64-bit LE) and the value's length
//! (64-bit LE). Decoding is strict: bytes that are not exactly an encoded
//! index are rejected.

use vstd::bytes::*;
use vstd::prelude::*;
use vstd::utf8::*;

use crate::errors::StoreError;
use crate::index::{encodable, entries_map, EntryView, LogIndex};

verus! {

broadcast use vstd::string::group_string_axioms, vstd::slice::group_slice_axioms;

/// The encoded form of one entry.
pub open spec fn spec_encode_entry(e: EntryView) -> Seq<u8> {
    spec_u64_to_le_bytes(encode_utf8(e.0).len() as u64) + encode_utf8(e.0) + spec_u64_to_le_bytes(
        e.1,
    ) + spec_u64_to_le_bytes(e.2)
}

/// The concatenated encodings of a sequence of entries, in order.
pub open spec fn spec_encode_entries(s: Seq<EntryView>) -> Seq<u8>
    decreases s.len(),
{
    if s.len() == 0 {
        Seq::empty()
    } else {
        spec_encode_entry(s[0]) + spec_encode_entries(s.drop_first())
    }
}

/// The snapshot bytes of an entry sequence: count, then the entries.
pub open spec fn spec_encode(s: Seq<EntryView>) -> Seq<u8> {
    spec_u64_to_le_bytes(s.len() as u64) + spec_encode_entries(s)
}

/// Reads one entry from the front of `b`; yields the entry and the bytes
/// that follow it, or nothing if `b` does not start with a well-formed entry.
pub open spec fn spec_decode_entry(b: Seq<u8>) -> Option<(EntryView, Seq<u8>)> {
    if b.len() < 8 {
        None
    } else {
        let kl = spec_u64_from_le_bytes(b.subrange(0, 8)) as int;
        if b.len() < 24 + kl {
            None
        } else {
            let kb = b.subrange(8, 8 + kl);
            if !valid_utf8(kb) {
                None
            } else {
                let off = spec_u64_from_le_bytes(b.subrange(8 + kl, 16 + kl));
                let len = spec_u64_from_le_bytes(b.subrange(16 + kl, 24 + kl));
                Some(((decode_utf8(kb), off, len), b.subrange(24 + kl, b.len() as int)))
            }
        }
    }
}

/// Reads `n` entries from the front of `b`, yielding them with the bytes
/// left over.
pub open spec fn spec_decode_entries(b: Seq<u8>, n: nat) -> Option<(Seq<EntryView>, Seq<u8>)>
    decreases n,
{
    if n == 0 {
        Some((Seq::empty(), b))
    } else {
        match spec_decode_entry(b) {
            None => None,
            Some((e, rest)) => match spec_decode_entries(rest, (n - 1) as nat) {
                None => None,
                Some((es, rest2)) => Some((seq![e] + es, rest2)),
            },
        }
    }
}

/// The entries a snapshot blob denotes: the count, then exactly that many
/// entries, with nothing left over.
pub open spec fn spec_decode(b: Seq<u8>) -> Option<Seq<EntryView>> {
    if b.len() < 8 {
        None
    } else {
        let n = spec_u64_from_le_bytes(b.subrange(0, 8));
        match spec_decode_entries(b.subrange(8, b.len() as int), n as nat) {
            None => None,
            Some((es, rest)) => if rest.len() == 0 {
                Some(es)
            } else {
                None
            },
        }
    }
}

proof fn lemma_decode_entry_of_encode(e: EntryView, rest: Seq<u8>)
    requires
        encode_utf8(e.0).len() <= u64::MAX,
    ensures
        spec_decode_entry(spec_encode_entry(e) + rest) == Some((e, rest)),
{
    broadcast use encode_utf8_valid_utf8, encode_utf8_decode_utf8;

    lemma_auto_spec_u64_to_from_le_bytes();
    let kb = encode_utf8(e.0);
    let kl = kb.len() as int;
    let b = spec_encode_entry(e) + rest;
    assert(b.len() == 24 + kl + rest.len());
    assert(b.subrange(0, 8) =~= spec_u64_to_le_bytes(kb.len() as u64));
    assert(spec_u64_from_le_bytes(b.subrange(0, 8)) as int == kl);
    assert(b.subrange(8, 8 + kl) =~= kb);
    assert(b.subrange(8 + kl, 16 + kl) =~= spec_u64_to_le_bytes(e.1));
    assert(b.subrange(16 + kl, 24 + kl) =~= spec_u64_to_le_bytes(e.2));
    assert(b.subrange(24 + kl, b.len() as int) =~= rest);
    assert(decode_utf8(kb) == e.0);
}

proof fn lemma_decode_entries_of_encode(s: Seq<EntryView>, rest: Seq<u8>)
    requires
        forall|i: int| 0 <= i < s.len() ==> (#[trigger] encode_utf8(s[i].0)).len() <= u64::MAX,
    ensures
        spec_decode_entries(spec_encode_entries(s) + rest, s.len() as nat) == Some((s, rest)),
    decreases s.len(),
{
    if s.len() == 0 {
        assert(spec_encode_entries(s) + rest =~= rest);
    } else {
        let e = s[0];
        let tail = s.drop_first();
        assert(encode_utf8(e.0).len() <= u64::MAX);
        assert(forall|i: int|
            0 <= i < tail.len() ==> (#[trigger] encode_utf8(tail[i].0)).len() <= u64::MAX) by {
            assert forall|i: int|
                0 <= i < tail.len() implies (#[trigger] encode_utf8(tail[i].0)).len()
                <= u64::MAX by {
                assert(tail[i] == s[i + 1]);
                assert(encode_utf8(s[i + 1].0).len() <= u64::MAX);
            }
        }
        lemma_decode_entry_of_encode(e, spec_encode_entries(tail) + rest);
        assert(spec_encode_entries(s) + rest =~= spec_encode_entry(e) + (spec_encode_entries(tail)
            + rest));
        lemma_decode_entries_of_encode(tail, rest);
        assert(seq![e] + tail =~= s);
    }
}

/// Decoding a snapshot gives back exactly the entries it was encoded from.
pub proof fn lemma_decode_of_encode(s: Seq<EntryView>)
    requires
        encodable(s),
    ensures
        spec_decode(spec_encode(s)) == Some(s),
{
    lemma_auto_spec_u64_to_from_le_bytes();
    let b = spec_encode(s);
    assert(b.subrange(0, 8) =~= spec_u64_to_le_bytes(s.len() as u64));
    assert(spec_u64_from_le_bytes(b.subrange(0, 8)) == s.len() as u64);
    assert(b.subrange(8, b.len() as int) =~= spec_encode_entries(s));
    lemma_decode_entries_of_encode(s, Seq::empty());
    assert(spec_encode_entries(s) + Seq::empty() =~= spec_encode_entries(s));
}

proof fn lemma_encode_entries_push(s: Seq<EntryView>, e: EntryView)
    ensures
        spec_encode_entries(s.push(e)) =~= spec_encode_entries(s) + spec_encode_entry(e),
    decreases s.len(),
{
    if s.len() == 0 {
        assert(s.push(e)[0] == e);
        assert(s.push(e).drop_first() =~= Seq::<EntryView>::empty());
        assert(spec_encode_entries(Seq::<EntryView>::empty()) =~= Seq::<u8>::empty());
        assert(spec_encode_entries(s.push(e)) == spec_encode_entry(e) + spec_encode_entries(
            Seq::<EntryView>::empty(),
        ));
        assert(spec_encode_entries(s.push(e)) =~= spec_encode_entries(s) + spec_encode_entry(e));
    } else {
        assert(s.push(e)[0] == s[0]);
        assert(s.push(e).drop_first() =~= s.drop_first().push(e));
        lemma_encode_entries_push(s.drop_first(), e);
        assert(spec_encode_entries(s.push(e)) == spec_encode_entry(s[0]) + spec_encode_entries(
            s.drop_first().push(e),
        ));
        assert(spec_encode_entries(s.drop_first().push(e)) == spec_encode_entries(s.drop_first())
            + spec_encode_entry(e));
        assert(spec_encode_entry(s[0]) + (spec_encode_entries(s.drop_first())
            + spec_encode_entry(e)) =~= (spec_encode_entry(s[0]) + spec_encode_entries(
            s.drop_first(),
        )) + spec_encode_entry(e));
    }
}

/// Encodes the index as one snapshot blob.
pub fn encode_index(idx: &LogIndex) -> (r: Vec<u8>)
    requires
        idx.wf(),
    ensures
        r@ == spec_encode(idx@),
{
    let n = idx.entry_count();
    let mut out: Vec<u8> = u64_to_le_bytes(n as u64);
    let mut i: usize = 0;
    while i < n
        invariant
            i <= n,
            n == idx@.len(),
            idx.wf(),
            out@ == spec_u64_to_le_bytes(n as u64) + spec_encode_entries(idx@.subrange(0, i as int)),
        decreases n - i,
    {
        let e = idx.entry_at(i);
        let kb: &[u8] = e.key.as_str().as_bytes();
        let klen = kb.len();
        let mut piece = u64_to_le_bytes(klen as u64);
        out.append(&mut piece);
        out.extend_from_slice(kb);
        let mut ob = u64_to_le_bytes(e.offset);
        out.append(&mut ob);
        let mut lb = u64_to_le_bytes(e.length);
        out.append(&mut lb);
        proof {
            lemma_encode_entries_push(idx@.subrange(0, i as int), idx@[i as int]);
            assert(idx@.subrange(0, i as int).push(idx@[i as int]) =~= idx@.subrange(
                0,
                i as int + 1,
            ));
            assert(out@ =~= spec_u64_to_le_bytes(n as u64) + spec_encode_entries(
                idx@.subrange(0, i as int + 1),
            ));
        }
        i = i + 1;
    }
    proof {
        assert(idx@.subrange(0, n as int) =~= idx@);
    }
    out
}

/// Relies on `String::from_utf8`: it succeeds exactly on valid UTF-8 input,
/// and the string it returns consists of the characters those bytes encode.
#[verifier::external_body]
fn bytes_to_string(v: Vec<u8>) -> (r: Option<String>)
    ensures
        r is Some <==> valid_utf8(v@),
        r matches Some(s) ==> s@ == decode_utf8(v@),
{
    match String::from_utf8(v) {
        Ok(s) => Some(s),
        Err(_) => None,
    }
}

/// Decodes a snapshot blob back into an index. Fails exactly when the bytes
/// are not an encoded index; the rebuilt index denotes the decoded entries.
pub fn decode_index(bytes: &[u8]) -> (r: Result<LogIndex, StoreError>)
    ensures
        r is Ok <==> spec_decode(bytes@) is Some,
        r matches Err(e) ==> e == StoreError::CorruptIndex,
        r matches Ok(idx) ==> spec_decode(bytes@) matches Some(es) && idx.wf() && idx.as_map()
            == entries_map(es),
{
    let total = bytes.len();
    if total < 8 {
        return Err(StoreError::CorruptIndex);
    }
    let n64 = u64_from_le_bytes(vstd::slice::slice_subrange(bytes, 0, 8));
    let mut pos: usize = 8;
    let mut done: u64 = 0;
    let mut idx = LogIndex::new();
    let ghost mut parsed: Seq<EntryView> = Seq::empty();
    proof {
        assert(parsed + Seq::<EntryView>::empty() =~= parsed);
    }
    while done < n64
        invariant
            done <= n64,
            8 <= pos <= total,
            total == bytes@.len(),
            n64 == spec_u64_from_le_bytes(bytes@.subrange(0, 8)),
            idx.wf(),
            idx.as_map() == entries_map(parsed),
            parsed.len() == done,
            ({
                let whole = spec_decode_entries(
                    bytes@.subrange(8, total as int),
                    n64 as nat,
                );
                let remaining = spec_decode_entries(
                    bytes@.subrange(pos as int, total as int),
                    (n64 - done) as nat,
                );
                whole == match remaining {
                    None => None::<(Seq<EntryView>, Seq<u8>)>,
                    Some((es, rest)) => Some((parsed + es, rest)),
                }
            }),
        decreases n64 - done,
    {
        let ghost suffix = bytes@.subrange(pos as int, total as int);
        if total - pos < 8 {
            proof {
                assert(spec_decode_entry(suffix) is None);
            }
            return Err(StoreError::CorruptIndex);
        }
        let kl64 = u64_from_le_bytes(vstd::slice::slice_subrange(bytes, pos, pos + 8));
        proof {
            assert(suffix.subrange(0, 8) =~= bytes@.subrange(pos as int, pos as int + 8));
        }
        let remaining = total - pos;
        if remaining < 24 || kl64 > (remaining - 24) as u64 {
            proof {
                assert(suffix.len() < 24 + kl64 as int);
                assert(spec_decode_entry(suffix) is None);
            }
            return Err(StoreError::CorruptIndex);
        }
        let kl = kl64 as usize;
        let kb = vstd::slice::slice_subrange(bytes, pos + 8, pos + 8 + kl);
        let ghost kbs = suffix.subrange(8, 8 + kl as int);
        proof {
            assert(kbs =~= kb@);
        }
        let key = match bytes_to_string(vstd::slice::slice_to_vec(kb)) {
            Some(k) => k,
            None => {
                proof {
                    assert(spec_decode_entry(suffix) is None);
                }
                return Err(StoreError::CorruptIndex);
            },
        };
        let off = u64_from_le_bytes(vstd::slice::slice_subrange(bytes, pos + 8 + kl, pos + 16 + kl));
        let len = u64_from_le_bytes(
            vstd::slice::slice_subrange(bytes, pos + 16 + kl, pos + 24 + kl),
        );
        proof {
            assert(suffix.subrange(8 + kl as int, 16 + kl as int) =~= bytes@.subrange(
                pos as int + 8 + kl as int,
                pos as int + 16 + kl as int,
            ));
            assert(suffix.subrange(16 + kl as int, 24 + kl as int) =~= bytes@.subrange(
                pos as int + 16 + kl as int,
                pos as int + 24 + kl as int,
            ));
        }
        let ghost e: EntryView = (key@, off, len);
        proof {
            assert(spec_decode_entry(suffix) == Some(
                (e, suffix.subrange(24 + kl as int, suffix.len() as int)),
            ));
        }
        idx.put(key, off, len);
        proof {
            let next_suffix = bytes@.subrange(pos as int + 24 + kl as int, total as int);
            assert(suffix.subrange(24 + kl as int, suffix.len() as int) =~= next_suffix);
            let old_parsed = parsed;
            parsed = parsed.push(e);
            assert(parsed.drop_last() =~= old_parsed);
            assert(entries_map(parsed) == entries_map(old_parsed).insert(e.0, (e.1, e.2)));
            match spec_decode_entries(next_suffix, (n64 - done - 1) as nat) {
                Some(p) => {
                    assert(old_parsed + (seq![e] + p.0) =~= parsed + p.0);
                },
                None => {},
            }
        }
        pos = pos + 24 + kl;
        done = done + 1;
    }
    proof {
        assert(spec_decode_entries(bytes@.subrange(pos as int, total as int), 0) == Some(
            (Seq::<EntryView>::empty(), bytes@.subrange(pos as int, total as int)),
        ));
        assert(parsed + Seq::<EntryView>::empty() =~= parsed);
    }
    if pos != total {
        return Err(StoreError::CorruptIndex);
    }
    proof {
        assert(bytes@.subrange(pos as int, total as int).len() == 0);
        assert(bytes@.subrange(0, 8) =~= bytes@.subrange(0, 8));
        assert(spec_decode(bytes@) == Some(parsed));
    }
    Ok(idx)
}

} // verus!
