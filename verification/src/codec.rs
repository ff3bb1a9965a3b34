//! What an info string says: the pairs that a buffer stands for, the
//! buffer that pairs are written to, and what holds of the two.
//!
//! An info string is a buffer of key/value pairs, each key and each value
//! preceded by a `\` backslash: `\key1\value1\key2\value2`.

use crate::ordered::{has_key, upsert};
use crate::text::{free_of, lemma_split_snoc, lemma_split_whole, split, DELIMITER};
use vstd::prelude::*;

verus! {

/// The key/value pairs of an info map, in their order.
pub type Entries = Seq<(Seq<u8>, Seq<u8>)>;

/// True if the bytes can be a key: there is at least one, and none is the
/// delimiter. Every other byte may stand in a key, the zero byte too, and
/// the bytes need not be text.
pub open spec fn valid_key(bytes: Seq<u8>) -> bool {
    bytes.len() > 0 && free_of(bytes, DELIMITER)
}

/// True if the bytes can be a value: none is the delimiter. There may be
/// no bytes at all, and the bytes need not be text.
pub open spec fn valid_value(bytes: Seq<u8>) -> bool {
    free_of(bytes, DELIMITER)
}

/// True if no key stands in two pairs.
pub open spec fn distinct_keys(entries: Entries) -> bool {
    forall|i: int, j: int|
        0 <= i < j < entries.len() ==> (#[trigger] entries[i]).0 != (#[trigger] entries[j]).0
}

/// True if the pairs can be those of an info map: valid keys, valid
/// values, and no key twice.
pub open spec fn valid_entries(entries: Entries) -> bool {
    &&& forall|i: int|
        0 <= i < entries.len() ==> valid_key((#[trigger] entries[i]).0) && valid_value(
            entries[i].1,
        )
    &&& distinct_keys(entries)
}

/// The index of a pair with the key `key`. Where the keys are distinct,
/// there is at most one.
pub open spec fn position(entries: Entries, key: Seq<u8>) -> int {
    choose|i: int| 0 <= i < entries.len() && (#[trigger] entries[i]).0 == key
}

/// The value that stands with `key`, if there is one.
pub open spec fn lookup(entries: Entries, key: Seq<u8>) -> Option<Seq<u8>> {
    if has_key(entries, key) {
        Some(entries[position(entries, key)].1)
    } else {
        None
    }
}

/// The bytes that one pair takes in an info string.
pub open spec fn encode_pair(entry: (Seq<u8>, Seq<u8>)) -> Seq<u8> {
    seq![DELIMITER] + entry.0 + seq![DELIMITER] + entry.1
}

/// The info string of the pairs: for each pair in order a delimiter, the
/// key, a delimiter and the value.
pub open spec fn encode(entries: Entries) -> Seq<u8>
    decreases entries.len(),
{
    if entries.len() == 0 {
        Seq::empty()
    } else {
        encode(entries.drop_last()) + encode_pair(entries.last())
    }
}

/// The segments of an info string: what stands between its delimiters,
/// without the empty segment before a delimiter that leads the buffer.
pub open spec fn segments(bytes: Seq<u8>) -> Seq<Seq<u8>> {
    let parts = split(bytes, DELIMITER);
    if parts[0].len() == 0 {
        parts.skip(1)
    } else {
        parts
    }
}

/// True if the segments are keys and values in turn: their number is
/// even, and no segment in the place of a key is empty.
pub open spec fn paired(segments: Seq<Seq<u8>>) -> bool {
    &&& segments.len() % 2 == 0
    &&& forall|i: int| 0 <= i < segments.len() && i % 2 == 0 ==> (#[trigger] segments[i]).len() > 0
}

/// The pairs that the segments make when each key is given its value in
/// turn. A key that comes again keeps its first place and takes the later
/// value.
pub open spec fn collect(segments: Seq<Seq<u8>>) -> Entries
    decreases segments.len(),
{
    if segments.len() < 2 {
        Seq::empty()
    } else {
        let n = segments.len() - 2;
        upsert(collect(segments.take(n)), segments[n], segments[n + 1])
    }
}

/// The pairs that an info string stands for, if it is well formed.
pub open spec fn decode(bytes: Seq<u8>) -> Option<Entries> {
    if paired(segments(bytes)) {
        Some(collect(segments(bytes)))
    } else {
        None
    }
}

/// The pairs as segments: each key, followed by its value.
spec fn flatten(entries: Entries) -> Seq<Seq<u8>>
    decreases entries.len(),
{
    if entries.len() == 0 {
        Seq::empty()
    } else {
        flatten(entries.drop_last()).push(entries.last().0).push(entries.last().1)
    }
}

/// Giving a key a value keeps the pairs those of an info map.
pub proof fn lemma_upsert_valid(entries: Entries, key: Seq<u8>, value: Seq<u8>)
    requires
        valid_entries(entries),
        valid_key(key),
        valid_value(value),
    ensures
        valid_entries(upsert(entries, key, value)),
{
    let after = upsert(entries, key, value);
    if has_key(entries, key) {
        assert forall|i: int, j: int| 0 <= i < j < after.len() implies (#[trigger] after[i]).0 != (
        #[trigger] after[j]).0 by {
            assert(after[i].0 == entries[i].0);
            assert(after[j].0 == entries[j].0);
        }
    } else {
        assert forall|i: int, j: int| 0 <= i < j < after.len() implies (#[trigger] after[i]).0 != (
        #[trigger] after[j]).0 by {
            if j == entries.len() {
                assert(entries[i].0 != key);
            } else {
                assert(after[i].0 == entries[i].0);
                assert(after[j].0 == entries[j].0);
            }
        }
    }
}

/// Where `flatten` puts the keys and the values.
proof fn lemma_flatten_index(entries: Entries)
    ensures
        flatten(entries).len() == 2 * entries.len(),
        forall|i: int|
            0 <= i < entries.len() ==> flatten(entries)[2 * i] == (#[trigger] entries[i]).0
                && flatten(entries)[2 * i + 1] == entries[i].1,
    decreases entries.len(),
{
    if entries.len() > 0 {
        let front = entries.drop_last();
        lemma_flatten_index(front);
        assert forall|i: int| 0 <= i < entries.len() implies flatten(entries)[2 * i] == (
        #[trigger] entries[i]).0 && flatten(entries)[2 * i + 1] == entries[i].1 by {
            if i < front.len() {
                assert(front[i] == entries[i]);
            }
        }
    }
}

/// The segments of an encoded map are an empty one, then the keys and
/// values in turn.
proof fn lemma_split_encode(entries: Entries)
    requires
        valid_entries(entries),
    ensures
        split(encode(entries), DELIMITER) == seq![Seq::<u8>::empty()] + flatten(entries),
    decreases entries.len(),
{
    if entries.len() == 0 {
        lemma_split_whole(Seq::<u8>::empty(), DELIMITER);
        assert(seq![Seq::<u8>::empty()] + flatten(entries) =~= seq![Seq::<u8>::empty()]);
    } else {
        let front = entries.drop_last();
        let last = entries.last();
        assert forall|i: int| 0 <= i < front.len() implies valid_key((#[trigger] front[i]).0)
            && valid_value(front[i].1) by {
            assert(front[i] == entries[i]);
        }
        assert forall|i: int, j: int| 0 <= i < j < front.len() implies (#[trigger] front[i]).0 != (
        #[trigger] front[j]).0 by {
            assert(front[i] == entries[i]);
            assert(front[j] == entries[j]);
        }
        lemma_split_encode(front);
        let with_key = encode(front) + seq![DELIMITER] + last.0;
        lemma_split_snoc(encode(front), DELIMITER, last.0);
        lemma_split_snoc(with_key, DELIMITER, last.1);
        assert(encode(entries) =~= with_key + seq![DELIMITER] + last.1);
        assert((seq![Seq::<u8>::empty()] + flatten(front)).push(last.0).push(last.1) =~= seq![
            Seq::<u8>::empty(),
        ] + flatten(entries));
    }
}

/// Keys and values in turn, no key twice: collecting them gives the
/// pairs back.
proof fn lemma_collect_flatten(entries: Entries)
    requires
        distinct_keys(entries),
    ensures
        collect(flatten(entries)) == entries,
    decreases entries.len(),
{
    if entries.len() == 0 {
    } else {
        let front = entries.drop_last();
        let last = entries.last();
        assert forall|i: int, j: int| 0 <= i < j < front.len() implies (#[trigger] front[i]).0 != (
        #[trigger] front[j]).0 by {
            assert(front[i] == entries[i]);
            assert(front[j] == entries[j]);
        }
        lemma_collect_flatten(front);
        lemma_flatten_index(front);
        let segs = flatten(entries);
        let n = segs.len() - 2;
        assert(segs.take(n) =~= flatten(front));
        assert(segs[n] == last.0);
        assert(segs[n + 1] == last.1);
        assert(!has_key(front, last.0)) by {
            if has_key(front, last.0) {
                let p = position(front, last.0);
                assert(front[p] == entries[p]);
                assert(entries[p].0 != entries[entries.len() - 1].0);
            }
        }
        assert(front.push(last) =~= entries);
    }
}

/// Round trip: the info string of a map decodes to the pairs of the map,
/// in their order and with their values.
pub proof fn lemma_decode_encode(entries: Entries)
    requires
        valid_entries(entries),
    ensures
        decode(encode(entries)) == Some(entries),
{
    lemma_split_encode(entries);
    lemma_flatten_index(entries);
    lemma_collect_flatten(entries);
    let parts = split(encode(entries), DELIMITER);
    let segs = segments(encode(entries));
    assert(parts[0].len() == 0);
    assert(segs =~= flatten(entries));
    assert forall|j: int| 0 <= j < segs.len() && j % 2 == 0 implies (#[trigger] segs[j]).len()
        > 0 by {
        let i = j / 2;
        assert(segs[2 * i] == entries[i].0);
    }
}

/// A buffer with an odd number of segments stands for no map.
pub proof fn lemma_decode_odd(bytes: Seq<u8>)
    requires
        segments(bytes).len() % 2 == 1,
    ensures
        decode(bytes) is None,
{
}

/// Giving a key that is there a new value moves no key: every place
/// keeps its key, the place of the key gets the new value, and every
/// other place keeps its value.
pub proof fn lemma_upsert_keeps_places(entries: Entries, key: Seq<u8>, value: Seq<u8>)
    requires
        has_key(entries, key),
    ensures
        upsert(entries, key, value).len() == entries.len(),
        forall|i: int|
            0 <= i < entries.len() ==> (#[trigger] upsert(entries, key, value)[i]).0
                == entries[i].0,
        forall|i: int|
            0 <= i < entries.len() ==> #[trigger] upsert(entries, key, value)[i] == if entries[i].0
                == key {
                (key, value)
            } else {
                entries[i]
            },
{
}

/// The value that stands with the key of a pair of a map is the value of
/// that pair.
pub proof fn lemma_lookup_at(entries: Entries, i: int)
    requires
        distinct_keys(entries),
        0 <= i < entries.len(),
    ensures
        lookup(entries, entries[i].0) == Some(entries[i].1),
{
    let p = position(entries, entries[i].0);
    if p < i {
        assert(entries[p].0 != entries[i].0);
    } else if i < p {
        assert(entries[i].0 != entries[p].0);
    }
}

/// Pairs with distinct keys are distinct.
pub proof fn lemma_distinct_pairs(entries: Entries)
    requires
        distinct_keys(entries),
    ensures
        entries.no_duplicates(),
{
    assert forall|i: int, j: int| 0 <= i < entries.len() && 0 <= j < entries.len() && i != j
        && entries[i] == entries[j] implies false by {
        if i < j {
            assert(entries[i].0 != entries[j].0);
        } else {
            assert(entries[j].0 != entries[i].0);
        }
    }
}

/// Two sequences without duplicates hold the same items, in whatever
/// order, if they are equally long and every item of the first is an item
/// of the second.
pub proof fn lemma_same_items<A>(a: Seq<A>, b: Seq<A>)
    requires
        a.no_duplicates(),
        b.no_duplicates(),
    ensures
        a.to_set() == b.to_set() <==> a.len() == b.len() && forall|i: int|
            0 <= i < a.len() ==> b.contains(#[trigger] a[i]),
{
    a.unique_seq_to_set();
    b.unique_seq_to_set();
    vstd::seq_lib::seq_to_set_is_finite(a);
    vstd::seq_lib::seq_to_set_is_finite(b);
    if a.to_set() == b.to_set() {
        assert forall|i: int| 0 <= i < a.len() implies b.contains(#[trigger] a[i]) by {
            assert(a.to_set().contains(a[i]));
            assert(b.to_set().contains(a[i]));
        }
    }
    if a.len() == b.len() && forall|i: int| 0 <= i < a.len() ==> b.contains(#[trigger] a[i]) {
        assert forall|item: A| a.to_set().contains(item) implies b.to_set().contains(item) by {
            let i = choose|i: int| 0 <= i < a.len() && a[i] == item;
            assert(b.contains(a[i]));
        }
        vstd::set_lib::lemma_subset_equality(a.to_set(), b.to_set());
    }
}

} // verus!
