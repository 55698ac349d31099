//! Length-prefixed framing: a framed byte array is its length as a
//! variable-length integer followed by the payload bytes, and the collection
//! streams are a count followed by that many framed entries. This module
//! states the wire form of each stream shape, the functions that read and
//! write one frame, and the round-trip and truncation laws of the format.

use vstd::prelude::*;

use crate::error::Error;
use crate::varint::{
    lemma_varint_decode_bounds, lemma_varint_round_trip, lemma_varint_truncation, push_varint,
    take_varint, varint_decode, varint_encoding,
};

verus! {

/// The wire form of one framed byte array: the payload's length as a
/// variable-length integer, then the payload itself.
pub open spec fn frame_encoding(b: Seq<u8>) -> Seq<u8> {
    varint_encoding(b.len()) + b
}

/// What decoding one frame at the front of `s` yields: the payload and the
/// number of bytes used, or `None` when the length prefix is malformed or
/// asks for more bytes than remain.
pub open spec fn frame_decode(s: Seq<u8>) -> Option<(Seq<u8>, int)> {
    match varint_decode(s) {
        None => None,
        Some((n, k)) => if k + (n as int) <= s.len() {
            Some((s.subrange(k, k + (n as int)), k + (n as int)))
        } else {
            None
        },
    }
}

/// The concatenated frames of `items`, in order.
pub open spec fn frames_encoding(items: Seq<Seq<u8>>) -> Seq<u8>
    decreases items.len(),
{
    if items.len() == 0 {
        Seq::empty()
    } else {
        frame_encoding(items[0]) + frames_encoding(items.drop_first())
    }
}

/// What decoding `m` successive frames at the front of `s` yields: the
/// payloads in order and the number of bytes used.
pub open spec fn frames_decode(s: Seq<u8>, m: nat) -> Option<(Seq<Seq<u8>>, int)>
    decreases m,
{
    if m == 0 {
        Some((Seq::empty(), 0))
    } else {
        match frame_decode(s) {
            None => None,
            Some((b, k)) => match frames_decode(s.skip(k), (m - 1) as nat) {
                None => None,
                Some((rest, k2)) => Some((seq![b] + rest, k + k2)),
            },
        }
    }
}

/// The concatenated frames of `entries`, a key frame then a value frame
/// for each entry, in order.
pub open spec fn pairs_encoding(entries: Seq<(Seq<u8>, Seq<u8>)>) -> Seq<u8>
    decreases entries.len(),
{
    if entries.len() == 0 {
        Seq::empty()
    } else {
        frame_encoding(entries[0].0) + frame_encoding(entries[0].1) + pairs_encoding(
            entries.drop_first(),
        )
    }
}

/// What decoding `m` successive key and value frame pairs yields: the pairs
/// in stream order — duplicates included — and the number of bytes used.
pub open spec fn pairs_decode(s: Seq<u8>, m: nat) -> Option<(Seq<(Seq<u8>, Seq<u8>)>, int)>
    decreases m,
{
    if m == 0 {
        Some((Seq::empty(), 0))
    } else {
        match frame_decode(s) {
            None => None,
            Some((key, k1)) => match frame_decode(s.skip(k1)) {
                None => None,
                Some((value, k2)) => match pairs_decode(s.skip(k1 + k2), (m - 1) as nat) {
                    None => None,
                    Some((rest, k3)) => Some((seq![(key, value)] + rest, k1 + k2 + k3)),
                },
            },
        }
    }
}

/// The wire form of an ordered sequence of byte arrays: the count, then one
/// frame per item. A set stream has the same shape.
pub open spec fn sequence_encoding(items: Seq<Seq<u8>>) -> Seq<u8> {
    varint_encoding(items.len()) + frames_encoding(items)
}

/// What decoding a sequence stream yields. Bytes after the declared count
/// of frames are ignored.
pub open spec fn sequence_decode(s: Seq<u8>) -> Option<Seq<Seq<u8>>> {
    match varint_decode(s) {
        None => None,
        Some((m, k)) => match frames_decode(s.skip(k), m as nat) {
            None => None,
            Some((items, _)) => Some(items),
        },
    }
}

/// The wire form of a mapping: the entry count, then a key frame and a
/// value frame per entry.
pub open spec fn mapping_encoding(entries: Seq<(Seq<u8>, Seq<u8>)>) -> Seq<u8> {
    varint_encoding(entries.len()) + pairs_encoding(entries)
}

/// What decoding a mapping stream yields: the key and value pairs in stream
/// order, duplicates included. Bytes after the declared count are ignored.
pub open spec fn mapping_decode(s: Seq<u8>) -> Option<Seq<(Seq<u8>, Seq<u8>)>> {
    match varint_decode(s) {
        None => None,
        Some((m, k)) => match pairs_decode(s.skip(k), m as nat) {
            None => None,
            Some((entries, _)) => Some(entries),
        },
    }
}

/// Framing one more item appends its frame.
pub proof fn lemma_frames_encoding_push(items: Seq<Seq<u8>>, x: Seq<u8>)
    ensures
        frames_encoding(items.push(x)) == frames_encoding(items) + frame_encoding(x),
    decreases items.len(),
{
    let p = items.push(x);
    if items.len() == 0 {
        assert(p.drop_first() =~= Seq::<Seq<u8>>::empty());
        assert(p[0] == x);
        assert(frame_encoding(x) + frames_encoding(Seq::empty()) =~= frames_encoding(items)
            + frame_encoding(x));
    } else {
        assert(p.drop_first() =~= items.drop_first().push(x));
        lemma_frames_encoding_push(items.drop_first(), x);
        assert(frame_encoding(p[0]) + (frames_encoding(items.drop_first()) + frame_encoding(x))
            =~= frames_encoding(items) + frame_encoding(x));
    }
}

/// Framing one more entry appends its key frame and its value frame.
pub proof fn lemma_pairs_encoding_push(entries: Seq<(Seq<u8>, Seq<u8>)>, k: Seq<u8>, v: Seq<u8>)
    ensures
        pairs_encoding(entries.push((k, v))) == pairs_encoding(entries) + frame_encoding(k)
            + frame_encoding(v),
    decreases entries.len(),
{
    let p = entries.push((k, v));
    if entries.len() == 0 {
        assert(p.drop_first() =~= Seq::<(Seq<u8>, Seq<u8>)>::empty());
        assert(p[0] == (k, v));
        assert(frame_encoding(k) + frame_encoding(v) + pairs_encoding(Seq::empty())
            =~= pairs_encoding(entries) + frame_encoding(k) + frame_encoding(v));
    } else {
        assert(p.drop_first() =~= entries.drop_first().push((k, v)));
        lemma_pairs_encoding_push(entries.drop_first(), k, v);
        assert(frame_encoding(p[0].0) + frame_encoding(p[0].1) + (pairs_encoding(
            entries.drop_first(),
        ) + frame_encoding(k) + frame_encoding(v)) =~= pairs_encoding(entries) + frame_encoding(k)
            + frame_encoding(v));
    }
}

/// Law: decoding a framed byte array, whatever bytes follow it, yields the
/// payload back and consumes exactly the frame.
pub proof fn lemma_frame_round_trip(b: Seq<u8>, rest: Seq<u8>)
    requires
        b.len() <= u64::MAX,
    ensures
        frame_decode(frame_encoding(b) + rest) == Some((b, frame_encoding(b).len() as int)),
{
    let e = varint_encoding(b.len());
    let s = frame_encoding(b) + rest;
    assert(s =~= e + (b + rest));
    lemma_varint_round_trip(b.len() as u64, b + rest);
    let k = e.len() as int;
    let n = b.len() as int;
    assert(k + n <= s.len());
    assert(s.subrange(k, k + n) =~= b);
}

/// Law: any strict prefix of a framed byte array fails to decode.
pub proof fn lemma_frame_truncation(b: Seq<u8>, j: int)
    requires
        b.len() <= u64::MAX,
        0 <= j < frame_encoding(b).len(),
    ensures
        frame_decode(frame_encoding(b).take(j)) is None,
{
    let e = varint_encoding(b.len());
    let t = frame_encoding(b).take(j);
    if j < e.len() {
        assert(t =~= e.take(j));
        lemma_varint_truncation(b.len() as u64, j);
    } else {
        let t2 = b.take(j - e.len());
        assert(t =~= e + t2);
        lemma_varint_round_trip(b.len() as u64, t2);
    }
}

/// A successful decoding of `m` frames yields `m` payloads and uses at
/// least one byte per frame, never reading past the end.
pub proof fn lemma_frames_decode_bounds(s: Seq<u8>, m: nat)
    ensures
        frames_decode(s, m) matches Some(p) ==> p.0.len() == m && m <= p.1 <= s.len(),
    decreases m,
{
    if m > 0 {
        lemma_varint_decode_bounds(s);
        match frame_decode(s) {
            Some((b, k)) => {
                lemma_frames_decode_bounds(s.skip(k), (m - 1) as nat);
            },
            None => {},
        }
    }
}

/// A successful decoding of `m` key and value pairs yields `m` pairs and
/// uses at least two bytes per pair, never reading past the end.
pub proof fn lemma_pairs_decode_bounds(s: Seq<u8>, m: nat)
    ensures
        pairs_decode(s, m) matches Some(p) ==> p.0.len() == m && 2 * m <= p.1 <= s.len(),
    decreases m,
{
    if m > 0 {
        lemma_varint_decode_bounds(s);
        match frame_decode(s) {
            Some((key, k1)) => {
                lemma_varint_decode_bounds(s.skip(k1));
                match frame_decode(s.skip(k1)) {
                    Some((value, k2)) => {
                        lemma_pairs_decode_bounds(s.skip(k1 + k2), (m - 1) as nat);
                    },
                    None => {},
                }
            },
            None => {},
        }
    }
}

/// Law: decoding as many frames as were encoded, whatever bytes follow
/// them, yields the items back in order and consumes exactly their frames.
pub proof fn lemma_frames_round_trip(items: Seq<Seq<u8>>, rest: Seq<u8>)
    requires
        forall|i: int| #![auto] 0 <= i < items.len() ==> items[i].len() <= u64::MAX,
    ensures
        frames_decode(frames_encoding(items) + rest, items.len()) == Some(
            (items, frames_encoding(items).len() as int),
        ),
    decreases items.len(),
{
    if items.len() == 0 {
        assert(frames_encoding(items) + rest =~= rest);
        assert(items =~= Seq::<Seq<u8>>::empty());
    } else {
        let f0 = frame_encoding(items[0]);
        let tail = items.drop_first();
        let s = frames_encoding(items) + rest;
        assert(s =~= f0 + (frames_encoding(tail) + rest));
        lemma_frame_round_trip(items[0], frames_encoding(tail) + rest);
        assert(s.skip(f0.len() as int) =~= frames_encoding(tail) + rest);
        assert(forall|i: int| #![auto] 0 <= i < tail.len() ==> tail[i] == items[i + 1]);
        lemma_frames_round_trip(tail, rest);
        assert(seq![items[0]] + tail =~= items);
    }
}

/// Law: frames truncated anywhere before their end fail to decode as the
/// full count of frames.
pub proof fn lemma_frames_truncation(items: Seq<Seq<u8>>, j: int)
    requires
        forall|i: int| #![auto] 0 <= i < items.len() ==> items[i].len() <= u64::MAX,
        0 <= j < frames_encoding(items).len(),
    ensures
        frames_decode(frames_encoding(items).take(j), items.len()) is None,
    decreases items.len(),
{
    assert(items.len() > 0);
    let f0 = frame_encoding(items[0]);
    let tail = items.drop_first();
    let t = frames_encoding(items).take(j);
    assert(frames_encoding(items) == f0 + frames_encoding(tail));
    assert(forall|i: int| #![auto] 0 <= i < tail.len() ==> tail[i] == items[i + 1]);
    if j < f0.len() {
        assert(t =~= f0.take(j));
        lemma_frame_truncation(items[0], j);
    } else {
        let t2 = frames_encoding(tail).take(j - f0.len());
        assert(t =~= f0 + t2);
        lemma_frame_round_trip(items[0], t2);
        assert(t.skip(f0.len() as int) =~= t2);
        lemma_frames_truncation(tail, j - f0.len());
    }
}

/// Law: decoding as many key and value pairs as were encoded, whatever
/// bytes follow them, yields the entries back in order and consumes
/// exactly their frames.
pub proof fn lemma_pairs_round_trip(entries: Seq<(Seq<u8>, Seq<u8>)>, rest: Seq<u8>)
    requires
        forall|i: int| #![auto]
            0 <= i < entries.len() ==> entries[i].0.len() <= u64::MAX && entries[i].1.len()
                <= u64::MAX,
    ensures
        pairs_decode(pairs_encoding(entries) + rest, entries.len()) == Some(
            (entries, pairs_encoding(entries).len() as int),
        ),
    decreases entries.len(),
{
    if entries.len() == 0 {
        assert(pairs_encoding(entries) + rest =~= rest);
        assert(entries =~= Seq::<(Seq<u8>, Seq<u8>)>::empty());
    } else {
        let fk = frame_encoding(entries[0].0);
        let fv = frame_encoding(entries[0].1);
        let tail = entries.drop_first();
        let s = pairs_encoding(entries) + rest;
        assert(s =~= fk + (fv + (pairs_encoding(tail) + rest)));
        lemma_frame_round_trip(entries[0].0, fv + (pairs_encoding(tail) + rest));
        assert(s.skip(fk.len() as int) =~= fv + (pairs_encoding(tail) + rest));
        lemma_frame_round_trip(entries[0].1, pairs_encoding(tail) + rest);
        assert(s.skip(fk.len() + fv.len() as int) =~= pairs_encoding(tail) + rest);
        assert(forall|i: int| #![auto] 0 <= i < tail.len() ==> tail[i] == entries[i + 1]);
        lemma_pairs_round_trip(tail, rest);
        assert(seq![(entries[0].0, entries[0].1)] + tail =~= entries);
    }
}

/// Law: key and value frames truncated anywhere before their end fail to
/// decode as the full count of pairs.
pub proof fn lemma_pairs_truncation(entries: Seq<(Seq<u8>, Seq<u8>)>, j: int)
    requires
        forall|i: int| #![auto]
            0 <= i < entries.len() ==> entries[i].0.len() <= u64::MAX && entries[i].1.len()
                <= u64::MAX,
        0 <= j < pairs_encoding(entries).len(),
    ensures
        pairs_decode(pairs_encoding(entries).take(j), entries.len()) is None,
    decreases entries.len(),
{
    assert(entries.len() > 0);
    let fk = frame_encoding(entries[0].0);
    let fv = frame_encoding(entries[0].1);
    let tail = entries.drop_first();
    let t = pairs_encoding(entries).take(j);
    assert(pairs_encoding(entries) == fk + fv + pairs_encoding(tail));
    assert(forall|i: int| #![auto] 0 <= i < tail.len() ==> tail[i] == entries[i + 1]);
    if j < fk.len() {
        assert(t =~= fk.take(j));
        lemma_frame_truncation(entries[0].0, j);
    } else if j < fk.len() + fv.len() {
        let t2 = fv.take(j - fk.len());
        assert(t =~= fk + t2);
        lemma_frame_round_trip(entries[0].0, t2);
        assert(t.skip(fk.len() as int) =~= t2);
        lemma_frame_truncation(entries[0].1, j - fk.len());
    } else {
        let t3 = pairs_encoding(tail).take(j - fk.len() - fv.len());
        assert(t =~= fk + (fv + t3));
        lemma_frame_round_trip(entries[0].0, fv + t3);
        assert(t.skip(fk.len() as int) =~= fv + t3);
        lemma_frame_round_trip(entries[0].1, t3);
        assert(t.skip(fk.len() + fv.len() as int) =~= t3);
        lemma_pairs_truncation(tail, j - fk.len() - fv.len());
    }
}

/// Law (round trip of a sequence stream): decoding an encoded ordered
/// sequence of byte arrays yields the same sequence, order preserved.
pub proof fn lemma_sequence_round_trip(items: Seq<Seq<u8>>)
    requires
        items.len() <= u64::MAX,
        forall|i: int| #![auto] 0 <= i < items.len() ==> items[i].len() <= u64::MAX,
    ensures
        sequence_decode(sequence_encoding(items)) == Some(items),
{
    let c = varint_encoding(items.len());
    let s = sequence_encoding(items);
    lemma_varint_round_trip(items.len() as u64, frames_encoding(items));
    assert(s.skip(c.len() as int) =~= frames_encoding(items));
    lemma_frames_round_trip(items, Seq::empty());
    assert(frames_encoding(items) + Seq::<u8>::empty() =~= frames_encoding(items));
}

/// Law (truncation of a sequence stream): a valid sequence stream truncated
/// at any byte offset before its end fails to decode.
pub proof fn lemma_sequence_truncation(items: Seq<Seq<u8>>, j: int)
    requires
        items.len() <= u64::MAX,
        forall|i: int| #![auto] 0 <= i < items.len() ==> items[i].len() <= u64::MAX,
        0 <= j < sequence_encoding(items).len(),
    ensures
        sequence_decode(sequence_encoding(items).take(j)) is None,
{
    let c = varint_encoding(items.len());
    let t = sequence_encoding(items).take(j);
    if j < c.len() {
        assert(t =~= c.take(j));
        lemma_varint_truncation(items.len() as u64, j);
    } else {
        let t2 = frames_encoding(items).take(j - c.len());
        assert(t =~= c + t2);
        lemma_varint_round_trip(items.len() as u64, t2);
        assert(t.skip(c.len() as int) =~= t2);
        lemma_frames_truncation(items, j - c.len());
    }
}

/// Law (round trip of a mapping stream): decoding an encoded mapping yields
/// the same entries, in order.
pub proof fn lemma_mapping_round_trip(entries: Seq<(Seq<u8>, Seq<u8>)>)
    requires
        entries.len() <= u64::MAX,
        forall|i: int| #![auto]
            0 <= i < entries.len() ==> entries[i].0.len() <= u64::MAX && entries[i].1.len()
                <= u64::MAX,
    ensures
        mapping_decode(mapping_encoding(entries)) == Some(entries),
{
    let c = varint_encoding(entries.len());
    let s = mapping_encoding(entries);
    lemma_varint_round_trip(entries.len() as u64, pairs_encoding(entries));
    assert(s.skip(c.len() as int) =~= pairs_encoding(entries));
    lemma_pairs_round_trip(entries, Seq::empty());
    assert(pairs_encoding(entries) + Seq::<u8>::empty() =~= pairs_encoding(entries));
}

/// Law (truncation of a mapping stream): a valid mapping stream truncated
/// at any byte offset before its end fails to decode.
pub proof fn lemma_mapping_truncation(entries: Seq<(Seq<u8>, Seq<u8>)>, j: int)
    requires
        entries.len() <= u64::MAX,
        forall|i: int| #![auto]
            0 <= i < entries.len() ==> entries[i].0.len() <= u64::MAX && entries[i].1.len()
                <= u64::MAX,
        0 <= j < mapping_encoding(entries).len(),
    ensures
        mapping_decode(mapping_encoding(entries).take(j)) is None,
{
    let c = varint_encoding(entries.len());
    let t = mapping_encoding(entries).take(j);
    if j < c.len() {
        assert(t =~= c.take(j));
        lemma_varint_truncation(entries.len() as u64, j);
    } else {
        let t2 = pairs_encoding(entries).take(j - c.len());
        assert(t =~= c + t2);
        lemma_varint_round_trip(entries.len() as u64, t2);
        assert(t.skip(c.len() as int) =~= t2);
        lemma_pairs_truncation(entries, j - c.len());
    }
}

/// Appends the frame of `bytes` to `out` and says how many bytes that took.
pub(crate) fn push_frame(out: &mut Vec<u8>, bytes: &[u8]) -> (c: usize)
    ensures
        final(out)@ == old(out)@ + frame_encoding(bytes@),
        c == frame_encoding(bytes@).len(),
{
    let start: usize = out.len();
    let c1: usize = push_varint(out, bytes.len() as u64);
    let mut payload: Vec<u8> = vstd::slice::slice_to_vec(bytes);
    out.append(&mut payload);
    proof {
        assert(out@ =~= old(out)@ + frame_encoding(bytes@));
    }
    out.len() - start
}

/// Decodes the frame at the front of `data`, telling the payload and how
/// many bytes it used; `data` itself is left untouched.
pub(crate) fn take_frame(data: &[u8]) -> (r: Result<(Vec<u8>, usize), Error>)
    ensures
        match r {
            Ok(p) => frame_decode(data@) == Some((p.0@, p.1 as int)) && 0 < p.1 <= data@.len(),
            Err(e) => frame_decode(data@) is None && e is InvalidSize,
        },
{
    let (n, k) = match take_varint(data) {
        Ok(p) => p,
        Err(e) => return Err(e),
    };
    let rem: usize = data.len() - k;
    if n > rem as u64 {
        return Err(
            Error::InvalidSize("length prefix asks for more bytes than remain".to_owned()),
        );
    }
    let len: usize = n as usize;
    let payload: Vec<u8> = vstd::slice::slice_to_vec(
        vstd::slice::slice_subrange(data, k, k + len),
    );
    Ok((payload, k + len))
}

} // verus!
