//! The collection codec: ordered sequences, mappings and sets of byte
//! arrays serialized as a count followed by that many framed entries — two
//! per mapping entry — and deserialized back, layered entirely on the
//! `Serializer` and `Deserializer`.

use vstd::prelude::*;

use crate::collections::{entries_fold, items_fold, ByteMap, ByteSet};
use crate::error::Error;
use crate::framing::{
    frames_decode, lemma_frames_decode_bounds, lemma_frames_encoding_push,
    lemma_pairs_decode_bounds, lemma_pairs_encoding_push, mapping_decode, mapping_encoding,
    pairs_decode, pairs_encoding, sequence_decode, sequence_encoding,
};
use crate::varint::varint_encoding;
use crate::{Deserializer, Serializer};

verus! {

/// Serializes an ordered sequence of byte arrays: the count, then each
/// array framed, in the given order. Never fails.
#[verifier::loop_isolation(false)]
pub fn serialize_bytes_vectors(vectors: &[Vec<u8>]) -> (r: Result<Vec<u8>, Error>)
    ensures
        r matches Ok(out) && out@ == sequence_encoding(vectors.deep_view()),
{
    let ghost items = vectors.deep_view();
    let mut serializer = Serializer::new();
    match serializer.write_usize(vectors.len()) {
        Ok(_) => (),
        Err(e) => return Err(e),
    }
    proof {
        assert(serializer@ =~= varint_encoding(items.len()) + crate::framing::frames_encoding(
            items.take(0),
        ));
    }
    let mut i: usize = 0;
    while i < vectors.len()
        invariant
            i <= vectors.len(),
            serializer@ == varint_encoding(items.len()) + crate::framing::frames_encoding(
                items.take(i as int),
            ),
        decreases vectors.len() - i,
    {
        let item: &Vec<u8> = vstd::slice::slice_index_get(vectors, i);
        match serializer.write_vec(item.as_slice()) {
            Ok(_) => (),
            Err(e) => return Err(e),
        }
        proof {
            lemma_frames_encoding_push(items.take(i as int), items[i as int]);
            assert(items.take(i as int).push(items[i as int]) =~= items.take(i + 1));
            assert(serializer@ =~= varint_encoding(items.len())
                + crate::framing::frames_encoding(items.take(i + 1)));
        }
        i = i + 1;
    }
    proof {
        assert(items.take(vectors.len() as int) =~= items);
    }
    Ok(serializer.finalize())
}

/// Deserializes an ordered sequence of byte arrays, preserving their
/// order. Fails on a truncated or malformed stream; bytes after the
/// declared count of entries are ignored.
#[verifier::loop_isolation(false)]
pub fn deserialize_bytes_vectors(serialized_vectors: &[u8]) -> (r: Result<Vec<Vec<u8>>, Error>)
    ensures
        match r {
            Ok(v) => sequence_decode(serialized_vectors@) == Some(v.deep_view()),
            Err(e) => sequence_decode(serialized_vectors@) is None && e is InvalidSize,
        },
{
    // a borrowed slice holds at most usize::MAX bytes; the count checks lean on that
    let _total: usize = serialized_vectors.len();
    let mut de = Deserializer::new(serialized_vectors);
    let len: usize = match de.read_usize() {
        Ok(n) => n,
        Err(e) => {
            proof {
                crate::varint::lemma_varint_decode_bounds(serialized_vectors@);
                match crate::varint::varint_decode(serialized_vectors@) {
                    Some((m, k)) => {
                        lemma_frames_decode_bounds(serialized_vectors@.skip(k), m as nat);
                    },
                    None => (),
                }
            }
            return Err(e);
        },
    };
    let ghost s0 = de@;
    let ghost mut consumed: int = 0;
    let mut out: Vec<Vec<u8>> = Vec::new();
    proof {
        assert(out.deep_view() + frames_decode(s0, len as nat)->Some_0.0 =~= frames_decode(
            s0,
            len as nat,
        )->Some_0.0) by {
            assert(out.deep_view() =~= Seq::<Seq<u8>>::empty());
        }
    }
    let mut i: usize = 0;
    while i < len
        invariant
            i <= len,
            frames_decode(s0, len as nat) == (match frames_decode(de@, (len - i) as nat) {
                None => None::<(Seq<Seq<u8>>, int)>,
                Some(p) => Some((out.deep_view() + p.0, consumed + p.1)),
            }),
        decreases len - i,
    {
        let ghost pre = de@;
        let ghost pre_out = out.deep_view();
        let b: Vec<u8> = match de.read_vec() {
            Ok(b) => b,
            Err(e) => return Err(e),
        };
        let ghost kb = crate::framing::frame_decode(pre)->Some_0.1;
        proof {
            consumed = consumed + kb;
        }
        out.push(b);
        proof {
            assert(out.deep_view() =~~= pre_out.push(b@));
            match frames_decode(de@, (len - i - 1) as nat) {
                None => (),
                Some(p) => {
                    assert(pre_out + (seq![b@] + p.0) =~= out.deep_view() + p.0);
                },
            }
        }
        i = i + 1;
    }
    proof {
        assert(out.deep_view() + Seq::<Seq<u8>>::empty() =~= out.deep_view());
    }
    Ok(out)
}

/// Serializes a mapping of byte-array keys to byte-array values: the entry
/// count, then a key frame and a value frame per entry, in the mapping's
/// own entry order. Never fails.
#[verifier::loop_isolation(false)]
pub fn serialize_bytes_hashmap(hashmap: &ByteMap) -> (r: Result<Vec<u8>, Error>)
    ensures
        r matches Ok(out) && out@ == mapping_encoding(hashmap.entry_seq()),
{
    let ghost es = hashmap.entry_seq();
    let mut serializer = Serializer::new();
    match serializer.write_usize(hashmap.len()) {
        Ok(_) => (),
        Err(e) => return Err(e),
    }
    proof {
        assert(serializer@ =~= varint_encoding(es.len()) + pairs_encoding(es.take(0)));
    }
    let mut i: usize = 0;
    while i < hashmap.len()
        invariant
            i <= es.len(),
            serializer@ == varint_encoding(es.len()) + pairs_encoding(es.take(i as int)),
        decreases es.len() - i,
    {
        let kv: &(Vec<u8>, Vec<u8>) = hashmap.entry_at(i);
        match serializer.write_vec(kv.0.as_slice()) {
            Ok(_) => (),
            Err(e) => return Err(e),
        }
        match serializer.write_vec(kv.1.as_slice()) {
            Ok(_) => (),
            Err(e) => return Err(e),
        }
        proof {
            lemma_pairs_encoding_push(es.take(i as int), es[i as int].0, es[i as int].1);
            assert(es.take(i as int).push(es[i as int]) =~= es.take(i + 1));
            assert(es[i as int] == (es[i as int].0, es[i as int].1));
            assert(serializer@ =~= varint_encoding(es.len()) + pairs_encoding(es.take(i + 1)));
        }
        i = i + 1;
    }
    proof {
        assert(es.take(es.len() as int) =~= es);
    }
    Ok(serializer.finalize())
}

/// Deserializes a mapping of byte arrays: the decoded key and value pairs
/// are inserted in stream order, a later occurrence of a key overwriting
/// the earlier value. Fails on a truncated or malformed stream.
#[verifier::loop_isolation(false)]
pub fn deserialize_bytes_hashmap(serialized_hashmap: &[u8]) -> (r: Result<ByteMap, Error>)
    ensures
        match r {
            Ok(m) => mapping_decode(serialized_hashmap@) matches Some(pairs) && m.entry_seq()
                == entries_fold(pairs) && m.wf(),
            Err(e) => mapping_decode(serialized_hashmap@) is None && e is InvalidSize,
        },
{
    // a borrowed slice holds at most usize::MAX bytes; the count checks lean on that
    let _total: usize = serialized_hashmap.len();
    let mut de = Deserializer::new(serialized_hashmap);
    let len: usize = match de.read_usize() {
        Ok(n) => n,
        Err(e) => {
            proof {
                crate::varint::lemma_varint_decode_bounds(serialized_hashmap@);
                match crate::varint::varint_decode(serialized_hashmap@) {
                    Some((m, k)) => {
                        lemma_pairs_decode_bounds(serialized_hashmap@.skip(k), m as nat);
                    },
                    None => (),
                }
            }
            return Err(e);
        },
    };
    let ghost s0 = de@;
    let ghost mut consumed: int = 0;
    let ghost mut gpairs: Seq<(Seq<u8>, Seq<u8>)> = Seq::empty();
    let mut output = ByteMap::new();
    proof {
        match pairs_decode(s0, len as nat) {
            None => (),
            Some(p) => {
                assert(gpairs + p.0 =~= p.0);
            },
        }
        assert(output.entry_seq() =~= entries_fold(gpairs));
    }
    let mut i: usize = 0;
    while i < len
        invariant
            i <= len,
            output.wf(),
            output.entry_seq() == entries_fold(gpairs),
            pairs_decode(s0, len as nat) == (match pairs_decode(de@, (len - i) as nat) {
                None => None::<(Seq<(Seq<u8>, Seq<u8>)>, int)>,
                Some(p) => Some((gpairs + p.0, consumed + p.1)),
            }),
        decreases len - i,
    {
        let ghost pre = de@;
        let key: Vec<u8> = match de.read_vec() {
            Ok(b) => b,
            Err(e) => return Err(e),
        };
        let ghost k1 = crate::framing::frame_decode(pre)->Some_0.1;
        let value: Vec<u8> = match de.read_vec() {
            Ok(b) => b,
            Err(e) => return Err(e),
        };
        let ghost k2 = crate::framing::frame_decode(pre.skip(k1))->Some_0.1;
        proof {
            assert(pre.skip(k1).skip(k2) =~= pre.skip(k1 + k2));
        }
        let ghost pre_pairs = gpairs;
        proof {
            gpairs = gpairs.push((key@, value@));
            consumed = consumed + k1 + k2;
        }
        output.insert(key, value);
        proof {
            assert(gpairs.drop_last() =~= pre_pairs);
            assert(output.entry_seq() == entries_fold(gpairs));
            match pairs_decode(de@, (len - i - 1) as nat) {
                None => (),
                Some(p) => {
                    assert(pre_pairs + (seq![(key@, value@)] + p.0) =~= gpairs + p.0);
                },
            }
        }
        i = i + 1;
    }
    proof {
        assert(gpairs + Seq::<(Seq<u8>, Seq<u8>)>::empty() =~= gpairs);
    }
    Ok(output)
}

/// Serializes a set of byte arrays: the element count, then each element
/// framed, in the set's own iteration order. Never fails.
#[verifier::loop_isolation(false)]
pub fn serialize_bytes_hashset(hashset: &ByteSet) -> (r: Result<Vec<u8>, Error>)
    ensures
        r matches Ok(out) && out@ == sequence_encoding(hashset.item_seq()),
{
    let ghost items = hashset.item_seq();
    let mut serializer = Serializer::new();
    match serializer.write_usize(hashset.len()) {
        Ok(_) => (),
        Err(e) => return Err(e),
    }
    proof {
        assert(serializer@ =~= varint_encoding(items.len()) + crate::framing::frames_encoding(
            items.take(0),
        ));
    }
    let mut i: usize = 0;
    while i < hashset.len()
        invariant
            i <= items.len(),
            serializer@ == varint_encoding(items.len()) + crate::framing::frames_encoding(
                items.take(i as int),
            ),
        decreases items.len() - i,
    {
        let item: &Vec<u8> = hashset.item_at(i);
        match serializer.write_vec(item.as_slice()) {
            Ok(_) => (),
            Err(e) => return Err(e),
        }
        proof {
            lemma_frames_encoding_push(items.take(i as int), items[i as int]);
            assert(items.take(i as int).push(items[i as int]) =~= items.take(i + 1));
            assert(serializer@ =~= varint_encoding(items.len())
                + crate::framing::frames_encoding(items.take(i + 1)));
        }
        i = i + 1;
    }
    proof {
        assert(items.take(items.len() as int) =~= items);
    }
    Ok(serializer.finalize())
}

/// Deserializes a set of byte arrays: decoded elements are inserted in
/// stream order and duplicates collapse. Fails on a truncated or malformed
/// stream.
#[verifier::loop_isolation(false)]
pub fn deserialize_bytes_hashset(serialized_hashset: &[u8]) -> (r: Result<ByteSet, Error>)
    ensures
        match r {
            Ok(s) => sequence_decode(serialized_hashset@) matches Some(items) && s.item_seq()
                == items_fold(items) && s.wf(),
            Err(e) => sequence_decode(serialized_hashset@) is None && e is InvalidSize,
        },
{
    // a borrowed slice holds at most usize::MAX bytes; the count checks lean on that
    let _total: usize = serialized_hashset.len();
    let mut de = Deserializer::new(serialized_hashset);
    let len: usize = match de.read_usize() {
        Ok(n) => n,
        Err(e) => {
            proof {
                crate::varint::lemma_varint_decode_bounds(serialized_hashset@);
                match crate::varint::varint_decode(serialized_hashset@) {
                    Some((m, k)) => {
                        lemma_frames_decode_bounds(serialized_hashset@.skip(k), m as nat);
                    },
                    None => (),
                }
            }
            return Err(e);
        },
    };
    let ghost s0 = de@;
    let ghost mut consumed: int = 0;
    let ghost mut gitems: Seq<Seq<u8>> = Seq::empty();
    let mut output = ByteSet::new();
    proof {
        match frames_decode(s0, len as nat) {
            None => (),
            Some(p) => {
                assert(gitems + p.0 =~= p.0);
            },
        }
        assert(output.item_seq() =~= items_fold(gitems));
    }
    let mut i: usize = 0;
    while i < len
        invariant
            i <= len,
            output.wf(),
            output.item_seq() == items_fold(gitems),
            frames_decode(s0, len as nat) == (match frames_decode(de@, (len - i) as nat) {
                None => None::<(Seq<Seq<u8>>, int)>,
                Some(p) => Some((gitems + p.0, consumed + p.1)),
            }),
        decreases len - i,
    {
        let ghost pre = de@;
        let b: Vec<u8> = match de.read_vec() {
            Ok(b) => b,
            Err(e) => return Err(e),
        };
        let ghost kb = crate::framing::frame_decode(pre)->Some_0.1;
        let ghost pre_items = gitems;
        proof {
            gitems = gitems.push(b@);
            consumed = consumed + kb;
        }
        output.insert(b);
        proof {
            assert(gitems.drop_last() =~= pre_items);
            assert(output.item_seq() == items_fold(gitems));
            match frames_decode(de@, (len - i - 1) as nat) {
                None => (),
                Some(p) => {
                    assert(pre_items + (seq![gitems.last()] + p.0) =~= gitems + p.0);
                },
            }
        }
        i = i + 1;
    }
    proof {
        assert(gitems + Seq::<Seq<u8>>::empty() =~= gitems);
    }
    Ok(output)
}

} // verus!
