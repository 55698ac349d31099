//! The collection types the codec works on: a mapping of byte-array keys to
//! byte-array values and a set of byte arrays. Each holds its elements in
//! first-insertion order under a uniqueness invariant, views itself as a
//! mathematical `Map` or `Set`, and inserts with the usual semantics: a
//! mapping insert overwrites the value of an existing key, a set insert of
//! a present element changes nothing.

use vstd::prelude::*;

verus! {

/// No two entries share a key.
pub open spec fn unique_keys(es: Seq<(Seq<u8>, Seq<u8>)>) -> bool {
    forall|i: int, j: int| 0 <= i < j < es.len() ==> es[i].0 != es[j].0
}

/// Some entry holds the key `k`.
pub open spec fn has_key(es: Seq<(Seq<u8>, Seq<u8>)>, k: Seq<u8>) -> bool {
    exists|i: int| 0 <= i < es.len() && es[i].0 == k
}

/// A position of the key `k` among the entries; with unique keys, the only
/// one.
pub open spec fn key_index(es: Seq<(Seq<u8>, Seq<u8>)>, k: Seq<u8>) -> int {
    choose|i: int| 0 <= i < es.len() && es[i].0 == k
}

/// A mapping insert at the entry level: the value of an existing key is
/// overwritten in place, a new key is appended.
pub open spec fn entries_insert(es: Seq<(Seq<u8>, Seq<u8>)>, k: Seq<u8>, v: Seq<u8>) -> Seq<
    (Seq<u8>, Seq<u8>),
> {
    if has_key(es, k) {
        es.update(key_index(es, k), (k, v))
    } else {
        es.push((k, v))
    }
}

/// The entries that inserting `pairs` in order into an empty mapping
/// leaves: a later occurrence of a key overwrites the earlier value.
pub open spec fn entries_fold(pairs: Seq<(Seq<u8>, Seq<u8>)>) -> Seq<(Seq<u8>, Seq<u8>)>
    decreases pairs.len(),
{
    if pairs.len() == 0 {
        Seq::empty()
    } else {
        entries_insert(entries_fold(pairs.drop_last()), pairs.last().0, pairs.last().1)
    }
}

/// The mapping the entries denote, later entries winning.
pub open spec fn entries_to_map(es: Seq<(Seq<u8>, Seq<u8>)>) -> Map<Seq<u8>, Seq<u8>>
    decreases es.len(),
{
    if es.len() == 0 {
        Map::empty()
    } else {
        entries_to_map(es.drop_last()).insert(es.last().0, es.last().1)
    }
}

/// No element occurs twice.
pub open spec fn unique_items(xs: Seq<Seq<u8>>) -> bool {
    forall|i: int, j: int| 0 <= i < j < xs.len() ==> xs[i] != xs[j]
}

/// A set insert at the element level: a present element changes nothing, a
/// new one is appended.
pub open spec fn items_insert(xs: Seq<Seq<u8>>, x: Seq<u8>) -> Seq<Seq<u8>> {
    if xs.contains(x) {
        xs
    } else {
        xs.push(x)
    }
}

/// The elements that inserting `items` in order into an empty set leaves:
/// duplicates collapse onto their first occurrence.
pub open spec fn items_fold(items: Seq<Seq<u8>>) -> Seq<Seq<u8>>
    decreases items.len(),
{
    if items.len() == 0 {
        Seq::empty()
    } else {
        items_insert(items_fold(items.drop_last()), items.last())
    }
}

/// The set the elements denote.
pub open spec fn items_to_set(xs: Seq<Seq<u8>>) -> Set<Seq<u8>>
    decreases xs.len(),
{
    if xs.len() == 0 {
        Set::empty()
    } else {
        items_to_set(xs.drop_last()).insert(xs.last())
    }
}

proof fn lemma_etm_push(es: Seq<(Seq<u8>, Seq<u8>)>, k: Seq<u8>, v: Seq<u8>)
    ensures
        entries_to_map(es.push((k, v))) == entries_to_map(es).insert(k, v),
{
    assert(es.push((k, v)).drop_last() =~= es);
}

proof fn lemma_etm_update(es: Seq<(Seq<u8>, Seq<u8>)>, i: int, k: Seq<u8>, v: Seq<u8>)
    requires
        unique_keys(es),
        0 <= i < es.len(),
        es[i].0 == k,
    ensures
        entries_to_map(es.update(i, (k, v))) == entries_to_map(es).insert(k, v),
    decreases es.len(),
{
    let es2 = es.update(i, (k, v));
    let last = es.last();
    if i == es.len() - 1 {
        assert(es2.drop_last() =~= es.drop_last());
        assert(es2.last() == (k, v));
        assert(entries_to_map(es.drop_last()).insert(last.0, last.1).insert(k, v)
            =~= entries_to_map(es.drop_last()).insert(k, v));
    } else {
        assert(es2.drop_last() =~= es.drop_last().update(i, (k, v)));
        assert(es2.last() == last);
        lemma_etm_update(es.drop_last(), i, k, v);
        // the updated key differs from the last entry's key
        assert(es[i].0 != last.0);
        assert(entries_to_map(es.drop_last()).insert(k, v).insert(last.0, last.1)
            =~= entries_to_map(es.drop_last()).insert(last.0, last.1).insert(k, v));
    }
}

proof fn lemma_entries_insert_wf(es: Seq<(Seq<u8>, Seq<u8>)>, k: Seq<u8>, v: Seq<u8>)
    requires
        unique_keys(es),
    ensures
        unique_keys(entries_insert(es, k, v)),
{
    if has_key(es, k) {
        let i = key_index(es, k);
        let es2 = es.update(i, (k, v));
        assert forall|a: int, b: int| 0 <= a < b < es2.len() implies es2[a].0 != es2[b].0 by {
            assert(es[a].0 != es[b].0);
        }
    } else {
        let es2 = es.push((k, v));
        assert forall|a: int, b: int| 0 <= a < b < es2.len() implies es2[a].0 != es2[b].0 by {
            if b < es.len() {
                assert(es[a].0 != es[b].0);
            } else {
                assert(es2[b].0 == k);
                assert(!(0 <= a < es.len() && es[a].0 == k));
            }
        }
    }
}

/// Law: folding entries whose keys are already unique reproduces them
/// exactly — a well-formed mapping round-trips entry for entry.
pub proof fn lemma_entries_fold_unique(entries: Seq<(Seq<u8>, Seq<u8>)>)
    requires
        unique_keys(entries),
    ensures
        entries_fold(entries) == entries,
    decreases entries.len(),
{
    if entries.len() > 0 {
        let front = entries.drop_last();
        let last = entries.last();
        lemma_entries_fold_unique(front);
        assert(!has_key(front, last.0)) by {
            if has_key(front, last.0) {
                let i = choose|i: int| 0 <= i < front.len() && front[i].0 == last.0;
                assert(entries[i].0 == entries[entries.len() - 1].0);
                assert(false);
            }
        }
        assert(front.push(last) =~= entries);
    }
}

proof fn lemma_its_contains(xs: Seq<Seq<u8>>)
    ensures
        forall|x: Seq<u8>| items_to_set(xs).contains(x) <==> xs.contains(x),
    decreases xs.len(),
{
    if xs.len() > 0 {
        lemma_its_contains(xs.drop_last());
        assert forall|x: Seq<u8>| items_to_set(xs).contains(x) <==> xs.contains(x) by {
            if xs.contains(x) {
                let i = choose|i: int| 0 <= i < xs.len() && xs[i] == x;
                if i < xs.len() - 1 {
                    assert(xs.drop_last()[i] == x);
                    assert(xs.drop_last().contains(x));
                }
            }
            if xs.drop_last().contains(x) {
                let i = choose|i: int| 0 <= i < xs.drop_last().len() && xs.drop_last()[i] == x;
                assert(xs[i] == x);
            }
        }
    }
}

proof fn lemma_its_insert(xs: Seq<Seq<u8>>, x: Seq<u8>)
    ensures
        items_to_set(items_insert(xs, x)) == items_to_set(xs).insert(x),
{
    if xs.contains(x) {
        lemma_its_contains(xs);
        assert(items_to_set(xs).insert(x) =~= items_to_set(xs));
    } else {
        assert(xs.push(x).drop_last() =~= xs);
    }
}

proof fn lemma_items_insert_wf(xs: Seq<Seq<u8>>, x: Seq<u8>)
    requires
        unique_items(xs),
    ensures
        unique_items(items_insert(xs, x)),
{
    if !xs.contains(x) {
        let xs2 = xs.push(x);
        assert forall|a: int, b: int| 0 <= a < b < xs2.len() implies xs2[a] != xs2[b] by {
            if b < xs.len() {
                assert(xs[a] != xs[b]);
            } else {
                assert(xs2[b] == x);
                assert(!(0 <= a < xs.len() && xs[a] == x));
            }
        }
    }
}

/// Law: folding elements that are already distinct reproduces them exactly
/// — a well-formed set round-trips element for element.
pub proof fn lemma_items_fold_unique(items: Seq<Seq<u8>>)
    requires
        unique_items(items),
    ensures
        items_fold(items) == items,
    decreases items.len(),
{
    if items.len() > 0 {
        let front = items.drop_last();
        let last = items.last();
        lemma_items_fold_unique(front);
        assert(!front.contains(last)) by {
            if front.contains(last) {
                let i = choose|i: int| 0 <= i < front.len() && front[i] == last;
                assert(items[i] == items[items.len() - 1]);
                assert(false);
            }
        }
        assert(front.push(last) =~= items);
    }
}

/// Law (round trip of a mapping through its collection type): the entries
/// of a well-formed mapping survive serialization exactly — decoding the
/// encoded stream yields the same entries, and folding them back in
/// changes nothing, so the rebuilt mapping equals the original.
pub proof fn lemma_mapping_collection_round_trip(entries: Seq<(Seq<u8>, Seq<u8>)>)
    requires
        unique_keys(entries),
        entries.len() <= u64::MAX,
        forall|i: int| #![auto]
            0 <= i < entries.len() ==> entries[i].0.len() <= u64::MAX && entries[i].1.len()
                <= u64::MAX,
    ensures
        crate::framing::mapping_decode(crate::framing::mapping_encoding(entries)) == Some(entries),
        entries_fold(entries) == entries,
{
    crate::framing::lemma_mapping_round_trip(entries);
    lemma_entries_fold_unique(entries);
}

/// Law (round trip of a set through its collection type): the elements of
/// a well-formed set survive serialization exactly — decoding the encoded
/// stream yields the same elements, and folding them back in changes
/// nothing, so the rebuilt set equals the original.
pub proof fn lemma_set_collection_round_trip(items: Seq<Seq<u8>>)
    requires
        unique_items(items),
        items.len() <= u64::MAX,
        forall|i: int| #![auto] 0 <= i < items.len() ==> items[i].len() <= u64::MAX,
    ensures
        crate::framing::sequence_decode(crate::framing::sequence_encoding(items)) == Some(items),
        items_fold(items) == items,
{
    crate::framing::lemma_sequence_round_trip(items);
    lemma_items_fold_unique(items);
}

/// Whether two byte vectors hold the same bytes.
fn bytes_eq(a: &Vec<u8>, b: &Vec<u8>) -> (r: bool)
    ensures
        r == (a@ == b@),
{
    let r = a == b;
    proof {
        if r {
            assert(a@ =~= b@);
        } else {
            if a@ == b@ {
                assert(forall|i: int| #![auto] 0 <= i < a@.len() ==> a@[i] == b@[i]);
                assert(false);
            }
        }
    }
    r
}

/// A mapping of byte-array keys to byte-array values, held in
/// first-insertion order with unique keys. Its view is the mathematical
/// mapping; `entry_seq` is the order serialization walks.
#[derive(Debug, PartialEq)]
pub struct ByteMap {
    entries: Vec<(Vec<u8>, Vec<u8>)>,
}

impl View for ByteMap {
    type V = Map<Seq<u8>, Seq<u8>>;

    open spec fn view(&self) -> Map<Seq<u8>, Seq<u8>> {
        entries_to_map(self.entry_seq())
    }
}

impl ByteMap {
    /// The entries, in the order serialization walks them.
    pub closed spec fn entry_seq(&self) -> Seq<(Seq<u8>, Seq<u8>)> {
        Seq::new(self.entries@.len(), |i: int| (self.entries@[i].0@, self.entries@[i].1@))
    }

    /// Key uniqueness: established at construction, preserved by every
    /// method.
    pub open spec fn wf(&self) -> bool {
        unique_keys(self.entry_seq())
    }

    /// Creates an empty mapping.
    pub fn new() -> (m: ByteMap)
        ensures
            m.wf(),
            m.entry_seq() == Seq::<(Seq<u8>, Seq<u8>)>::empty(),
            m@ == Map::<Seq<u8>, Seq<u8>>::empty(),
    {
        let m = ByteMap { entries: Vec::new() };
        proof {
            assert(m.entry_seq() =~= Seq::<(Seq<u8>, Seq<u8>)>::empty());
        }
        m
    }

    /// The number of entries.
    pub fn len(&self) -> (n: usize)
        ensures
            n == self.entry_seq().len(),
    {
        self.entries.len()
    }

    /// The entry at position `i` in serialization order.
    pub fn entry_at(&self, i: usize) -> (kv: &(Vec<u8>, Vec<u8>))
        requires
            i < self.entry_seq().len(),
        ensures
            kv.0@ == self.entry_seq()[i as int].0,
            kv.1@ == self.entry_seq()[i as int].1,
    {
        vstd::std_specs::vec::vec_index(&self.entries, i)
    }

    /// Inserts `value` under `key`: an existing key keeps its place and
    /// takes the new value, a new key is appended.
    #[verifier::loop_isolation(false)]
    pub fn insert(&mut self, key: Vec<u8>, value: Vec<u8>)
        requires
            old(self).wf(),
        ensures
            final(self).wf(),
            final(self).entry_seq() == entries_insert(old(self).entry_seq(), key@, value@),
            final(self)@ == old(self)@.insert(key@, value@),
    {
        let ghost es = self.entry_seq();
        proof {
            lemma_entries_insert_wf(es, key@, value@);
        }
        let mut i: usize = 0;
        while i < self.entries.len()
            invariant
                i <= self.entries.len(),
                self == old(self),
                es == self.entry_seq(),
                forall|j: int| 0 <= j < i ==> es[j].0 != key@,
            decreases self.entries.len() - i,
        {
            if bytes_eq(&vstd::std_specs::vec::vec_index(&self.entries, i).0, &key) {
                proof {
                    assert(es[i as int].0 == key@);
                    assert(has_key(es, key@));
                    let j = key_index(es, key@);
                    assert(es[j].0 == key@);
                    assert(j == i);
                }
                self.entries[i] = (key, value);
                proof {
                    assert(self.entry_seq() =~= entries_insert(es, key@, value@));
                    lemma_etm_update(es, i as int, key@, value@);
                }
                return ;
            }
            i = i + 1;
        }
        proof {
            assert(!has_key(es, key@));
        }
        self.entries.push((key, value));
        proof {
            assert(self.entry_seq() =~= entries_insert(es, key@, value@));
            lemma_etm_push(es, key@, value@);
        }
    }
}

/// A set of byte arrays, held in first-insertion order without duplicates.
/// Its view is the mathematical set; `item_seq` is the order serialization
/// walks.
#[derive(Debug, PartialEq)]
pub struct ByteSet {
    items: Vec<Vec<u8>>,
}

impl View for ByteSet {
    type V = Set<Seq<u8>>;

    open spec fn view(&self) -> Set<Seq<u8>> {
        items_to_set(self.item_seq())
    }
}

impl ByteSet {
    /// The elements, in the order serialization walks them.
    pub closed spec fn item_seq(&self) -> Seq<Seq<u8>> {
        Seq::new(self.items@.len(), |i: int| self.items@[i]@)
    }

    /// Element distinctness: established at construction, preserved by
    /// every method.
    pub open spec fn wf(&self) -> bool {
        unique_items(self.item_seq())
    }

    /// Creates an empty set.
    pub fn new() -> (s: ByteSet)
        ensures
            s.wf(),
            s.item_seq() == Seq::<Seq<u8>>::empty(),
            s@ == Set::<Seq<u8>>::empty(),
    {
        let s = ByteSet { items: Vec::new() };
        proof {
            assert(s.item_seq() =~= Seq::<Seq<u8>>::empty());
        }
        s
    }

    /// The number of elements.
    pub fn len(&self) -> (n: usize)
        ensures
            n == self.item_seq().len(),
    {
        self.items.len()
    }

    /// The element at position `i` in serialization order.
    pub fn item_at(&self, i: usize) -> (x: &Vec<u8>)
        requires
            i < self.item_seq().len(),
        ensures
            x@ == self.item_seq()[i as int],
    {
        vstd::std_specs::vec::vec_index(&self.items, i)
    }

    /// Inserts `item`: a present element changes nothing, a new one is
    /// appended. Tells whether the set grew.
    #[verifier::loop_isolation(false)]
    pub fn insert(&mut self, item: Vec<u8>) -> (added: bool)
        requires
            old(self).wf(),
        ensures
            final(self).wf(),
            final(self).item_seq() == items_insert(old(self).item_seq(), item@),
            final(self)@ == old(self)@.insert(item@),
            added == !old(self).item_seq().contains(item@),
    {
        let ghost xs = self.item_seq();
        proof {
            lemma_items_insert_wf(xs, item@);
            lemma_its_insert(xs, item@);
        }
        let mut i: usize = 0;
        while i < self.items.len()
            invariant
                i <= self.items.len(),
                self == old(self),
                xs == self.item_seq(),
                forall|j: int| 0 <= j < i ==> xs[j] != item@,
            decreases self.items.len() - i,
        {
            if bytes_eq(vstd::std_specs::vec::vec_index(&self.items, i), &item) {
                proof {
                    assert(xs[i as int] == item@);
                    assert(xs.contains(item@));
                    assert(self.item_seq() =~= items_insert(xs, item@));
                }
                return false;
            }
            i = i + 1;
        }
        proof {
            assert(!xs.contains(item@));
        }
        self.items.push(item);
        proof {
            assert(self.item_seq() =~= items_insert(xs, item@));
        }
        true
    }
}

} // verus!
