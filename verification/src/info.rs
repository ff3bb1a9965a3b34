//! Info strings/maps.
//!
//! Quake 3 has so called "info strings": a buffer of key/value pairs
//! separated by `\` backslashes. An [`Info`] is the ordered map that such
//! a buffer stands for.

use crate::codec::{
    collect, decode, encode, encode_pair, lemma_decode_encode, lemma_distinct_pairs,
    lemma_lookup_at, lemma_same_items, lemma_upsert_valid, segments, valid_entries, valid_key,
    lookup, position, valid_value, Entries,
};
use crate::error::Error;
use crate::ordered::{
    has_key, map_entries, map_get, map_get_index, map_insert, map_len, map_new, upsert,
};
use crate::text::{
    all_free_of, free_of, has_byte, lemma_split_parts, same_bytes, split_bytes, views, DELIMITER,
};
use indexmap::IndexMap;
use vstd::prelude::*;
use vstd::slice::SliceIndexSpec;

verus! {

/// The pairs that keys and values hold.
pub open spec fn pair_views(pairs: Seq<(Key, Value)>) -> Entries {
    Seq::new(pairs.len(), |i: int| (pairs[i].0@, pairs[i].1@))
}

/// Key string for [`Info`].
#[derive(Debug, Eq, Hash)]
pub struct Key {
    bytes: Vec<u8>,
}

impl PartialEq for Key {
    /// Two keys are equal if they hold the same bytes.
    fn eq(&self, other: &Self) -> (equal: bool) {
        same_bytes(self.bytes.as_slice(), other.bytes.as_slice())
    }
}

impl vstd::std_specs::cmp::PartialEqSpecImpl for Key {
    open spec fn obeys_eq_spec() -> bool {
        true
    }

    open spec fn eq_spec(&self, other: &Self) -> bool {
        self@ == other@
    }
}

impl<I: std::slice::SliceIndex<[u8]>> vstd::std_specs::core::IndexSpecImpl<I> for Key {
    open spec fn index_req(&self, index: &I) -> bool {
        forall|s: &[u8]| #[trigger] s@ == self@ ==> index.index_req(s)
    }
}

impl<I: std::slice::SliceIndex<[u8]>> std::ops::Index<I> for Key {
    type Output = I::Output;

    /// The bytes of the key at the index, as a slice of bytes gives them.
    fn index(&self, index: I) -> (output: &Self::Output)
        ensures
            exists|s: &[u8]| #[trigger]
                s@ == self@ && call_ensures(
                    <I as std::slice::SliceIndex<[u8]>>::index,
                    (index, s),
                    output,
                ),
    {
        std::ops::Index::index(&self.bytes, index)
    }
}

impl View for Key {
    type V = Seq<u8>;

    closed spec fn view(&self) -> Seq<u8> {
        self.bytes@
    }
}

impl Key {
    #[verifier::type_invariant]
    spec fn well_formed(&self) -> bool {
        valid_key(self.bytes@)
    }

    /// Creates a new key string from bytes. Bytes that are empty or hold
    /// the delimiter are no key.
    pub fn new(bytes: Vec<u8>) -> (key: Result<Self, Error>)
        ensures
            match key {
                Ok(k) => valid_key(bytes@) && k@ == bytes@,
                Err(e) => !valid_key(bytes@) && e == Error::InvalidKey,
            },
    {
        if bytes.len() == 0 || has_byte(bytes.as_slice(), DELIMITER) {
            Err(Error::InvalidKey)
        } else {
            Ok(Key { bytes })
        }
    }

    /// Makes a key of bytes that are known to be one.
    pub(crate) fn from_valid(bytes: Vec<u8>) -> (key: Self)
        requires
            valid_key(bytes@),
        ensures
            key@ == bytes@,
    {
        Key { bytes }
    }

    /// The bytes of the key.
    pub fn as_bytes(&self) -> (bytes: &[u8])
        ensures
            bytes@ == self@,
            valid_key(self@),
    {
        proof {
            use_type_invariant(self);
        }
        self.bytes.as_slice()
    }

    /// The bytes of the key, without the key around them.
    pub fn into_bytes(self) -> (bytes: Vec<u8>)
        ensures
            bytes@ == self@,
            valid_key(self@),
    {
        proof {
            use_type_invariant(&self);
        }
        self.bytes
    }
}

/// Value string for [`Info`].
#[derive(Debug, Eq)]
pub struct Value {
    bytes: Vec<u8>,
}

impl PartialEq for Value {
    /// Two values are equal if they hold the same bytes.
    fn eq(&self, other: &Self) -> (equal: bool) {
        same_bytes(self.bytes.as_slice(), other.bytes.as_slice())
    }
}

impl vstd::std_specs::cmp::PartialEqSpecImpl for Value {
    open spec fn obeys_eq_spec() -> bool {
        true
    }

    open spec fn eq_spec(&self, other: &Self) -> bool {
        self@ == other@
    }
}

impl<I: std::slice::SliceIndex<[u8]>> vstd::std_specs::core::IndexSpecImpl<I> for Value {
    open spec fn index_req(&self, index: &I) -> bool {
        forall|s: &[u8]| #[trigger] s@ == self@ ==> index.index_req(s)
    }
}

impl<I: std::slice::SliceIndex<[u8]>> std::ops::Index<I> for Value {
    type Output = I::Output;

    /// The bytes of the value at the index, as a slice of bytes gives
    /// them.
    fn index(&self, index: I) -> (output: &Self::Output)
        ensures
            exists|s: &[u8]| #[trigger]
                s@ == self@ && call_ensures(
                    <I as std::slice::SliceIndex<[u8]>>::index,
                    (index, s),
                    output,
                ),
    {
        std::ops::Index::index(&self.bytes, index)
    }
}

impl View for Value {
    type V = Seq<u8>;

    closed spec fn view(&self) -> Seq<u8> {
        self.bytes@
    }
}

impl Value {
    #[verifier::type_invariant]
    spec fn well_formed(&self) -> bool {
        valid_value(self.bytes@)
    }

    /// Creates a new value string from bytes. Bytes that hold the
    /// delimiter are no value; no bytes at all are one.
    pub fn new(bytes: Vec<u8>) -> (value: Result<Self, Error>)
        ensures
            match value {
                Ok(v) => valid_value(bytes@) && v@ == bytes@,
                Err(e) => !valid_value(bytes@) && e == Error::InvalidValue,
            },
    {
        if has_byte(bytes.as_slice(), DELIMITER) {
            Err(Error::InvalidValue)
        } else {
            Ok(Value { bytes })
        }
    }

    /// Makes a value of bytes that are known to be one.
    pub(crate) fn from_valid(bytes: Vec<u8>) -> (value: Self)
        requires
            valid_value(bytes@),
        ensures
            value@ == bytes@,
    {
        Value { bytes }
    }

    /// The bytes of the value.
    pub fn as_bytes(&self) -> (bytes: &[u8])
        ensures
            bytes@ == self@,
            valid_value(self@),
    {
        proof {
            use_type_invariant(self);
        }
        self.bytes.as_slice()
    }

    /// The bytes of the value, without the value around them.
    pub fn into_bytes(self) -> (bytes: Vec<u8>)
        ensures
            bytes@ == self@,
            valid_value(self@),
    {
        proof {
            use_type_invariant(&self);
        }
        self.bytes
    }
}

/// Key/value map with string format.
#[derive(Debug, Eq)]
pub struct Info {
    map: IndexMap<Vec<u8>, Vec<u8>>,
}

impl PartialEq for Info {
    /// Two maps are equal if they hold the same pairs, in whatever order.
    fn eq(&self, other: &Self) -> (equal: bool) {
        proof {
            use_type_invariant(self);
            use_type_invariant(other);
            lemma_distinct_pairs(self@);
            lemma_distinct_pairs(other@);
            lemma_same_items(self@, other@);
        }
        let n = map_len(&self.map);
        if n != map_len(&other.map) {
            return false;
        }
        let mut i: usize = 0;
        while i < n
            invariant
                i <= n == self@.len(),
                forall|j: int| 0 <= j < i ==> other@.contains(#[trigger] self@[j]),
                valid_entries(other@),
                self@.to_set() == other@.to_set() ==> forall|j: int|
                    0 <= j < self@.len() ==> other@.contains(#[trigger] self@[j]),
                (forall|j: int| 0 <= j < self@.len() ==> other@.contains(#[trigger] self@[j]))
                    ==> self@.to_set() == other@.to_set(),
            decreases n - i,
        {
            let (key, value) = map_get_index(&self.map, i).unwrap();
            let found = match map_get(&other.map, key.as_slice()) {
                Some(v) => same_bytes(v.as_slice(), value.as_slice()),
                None => false,
            };
            proof {
                let pair = self@[i as int];
                if found {
                    let p = position(other@, pair.0);
                    assert(other@[p] == pair);
                } else if other@.contains(pair) {
                    let k = choose|k: int| 0 <= k < other@.len() && other@[k] == pair;
                    lemma_lookup_at(other@, k);
                }
            }
            if !found {
                return false;
            }
            i += 1;
        }
        true
    }
}

impl vstd::std_specs::cmp::PartialEqSpecImpl for Info {
    open spec fn obeys_eq_spec() -> bool {
        true
    }

    open spec fn eq_spec(&self, other: &Self) -> bool {
        self@.to_set() == other@.to_set()
    }
}

impl Default for Info {
    /// Returns an empty info string/map.
    fn default() -> (info: Self)
        ensures
            info@ == Entries::empty(),
    {
        Self::new()
    }
}

impl View for Info {
    type V = Entries;

    closed spec fn view(&self) -> Entries {
        map_entries(self.map)
    }
}

impl Info {
    #[verifier::type_invariant]
    spec fn well_formed(&self) -> bool {
        valid_entries(map_entries(self.map))
    }

    /// Creates an empty info map.
    pub fn new() -> (info: Self)
        ensures
            info@ == Entries::empty(),
    {
        Info { map: map_new() }
    }

    /// Inserts a key-value pair into the map. A key that is in the map
    /// keeps its place and gets the new value; a new key goes last.
    pub fn insert(&mut self, key: Key, value: Value)
        ensures
            final(self)@ == upsert(old(self)@, key@, value@),
    {
        proof {
            use_type_invariant(&*self);
            use_type_invariant(&key);
            use_type_invariant(&value);
            lemma_upsert_valid(self@, key@, value@);
        }
        // The map leaves `self` while it changes, so that `self` holds the
        // pairs of an info map at every step.
        let mut map = map_new();
        core::mem::swap(&mut self.map, &mut map);
        map_insert(&mut map, key.bytes, value.bytes);
        core::mem::swap(&mut self.map, &mut map);
    }

    /// Decodes an info string. The buffer is cut at its delimiters; one
    /// empty segment before a leading delimiter is dropped; what is left
    /// must be keys and values in turn, no key empty. A key that comes
    /// again keeps its first place and takes the later value.
    pub fn parse(bytes: &[u8]) -> (info: Result<Self, Error>)
        ensures
            match info {
                Ok(i) => decode(bytes@) == Some(i@) && valid_entries(i@),
                Err(e) => decode(bytes@) is None && e == Error::MalformedInfoString,
            },
            segments(bytes@).len() % 2 == 1 ==> info is Err,
    {
        let parts = split_bytes(bytes, DELIMITER);
        proof {
            lemma_split_parts(bytes@, DELIMITER);
        }
        let start: usize = if parts[0].len() == 0 {
            1
        } else {
            0
        };
        let ghost segs = segments(bytes@);
        assert(segs =~= views(parts@).skip(start as int));
        if (parts.len() - start) % 2 != 0 {
            return Err(Error::MalformedInfoString);
        }
        let mut info = Info::new();
        let mut i: usize = start;
        assert(segs.take(0) =~= Seq::<Seq<u8>>::empty());
        while i < parts.len()
            invariant
                start <= i <= parts.len(),
                (i - start) % 2 == 0,
                (parts.len() - start) % 2 == 0,
                segs == views(parts@).skip(start as int),
                segs == segments(bytes@),
                all_free_of(views(parts@), DELIMITER),
                info@ == collect(segs.take(i - start)),
                forall|j: int| 0 <= j < i - start && j % 2 == 0 ==> (#[trigger] segs[j]).len() > 0,
            decreases parts.len() - i,
        {
            let ghost at = i - start;
            assert(segs[at] == parts@[i as int]@);
            assert(segs[at + 1] == parts@[i + 1]@);
            assert(free_of(views(parts@)[i as int], DELIMITER));
            assert(free_of(views(parts@)[i + 1], DELIMITER));
            if parts[i].len() == 0 {
                return Err(Error::MalformedInfoString);
            }
            let key = Key { bytes: parts[i].clone() };
            let value = Value { bytes: parts[i + 1].clone() };
            info.insert(key, value);
            proof {
                assert(segs.take(at + 2).take(at) =~= segs.take(at));
            }
            i += 2;
        }
        assert(segs.take(i - start) =~= segs);
        proof {
            use_type_invariant(&info);
        }
        Ok(info)
    }

    /// Encodes the map as an info string: for each pair in order a
    /// delimiter, the key, a delimiter and the value.
    pub fn serialize(&self) -> (bytes: Vec<u8>)
        ensures
            bytes@ == encode(self@),
            decode(bytes@) == Some(self@),
    {
        proof {
            use_type_invariant(self);
            lemma_decode_encode(self@);
        }
        let mut bytes: Vec<u8> = Vec::new();
        let n = map_len(&self.map);
        let mut i: usize = 0;
        assert(self@.take(0) =~= Entries::empty());
        while i < n
            invariant
                i <= n == self@.len(),
                bytes@ == encode(self@.take(i as int)),
            decreases n - i,
        {
            let (key, value) = map_get_index(&self.map, i).unwrap();
            bytes.push(DELIMITER);
            bytes.extend_from_slice(key.as_slice());
            bytes.push(DELIMITER);
            bytes.extend_from_slice(value.as_slice());
            proof {
                let next = self@.take(i + 1);
                assert(next.drop_last() =~= self@.take(i as int));
                assert(next.last() == self@[i as int]);
                assert(bytes@ =~= encode(self@.take(i as int)) + encode_pair(self@[i as int]));
            }
            i += 1;
        }
        assert(self@.take(n as int) =~= self@);
        bytes
    }

    /// The key-value pairs of the map, in their order.
    pub fn iter(&self) -> (pairs: Vec<(Key, Value)>)
        ensures
            pair_views(pairs@) == self@,
            valid_entries(self@),
    {
        proof {
            use_type_invariant(self);
        }
        let mut pairs: Vec<(Key, Value)> = Vec::new();
        let n = map_len(&self.map);
        let mut i: usize = 0;
        while i < n
            invariant
                i <= n == self@.len(),
                valid_entries(self@),
                pairs@.len() == i,
                pair_views(pairs@) == self@.take(i as int),
            decreases n - i,
        {
            let (key, value) = map_get_index(&self.map, i).unwrap();
            let key_bytes = key.clone();
            let value_bytes = value.clone();
            assert(key_bytes@ =~= key@ && value_bytes@ =~= value@);
            let pair = (Key { bytes: key_bytes }, Value { bytes: value_bytes });
            proof {
                let before = pair_views(pairs@);
                let after = pair_views(pairs@.push(pair));
                assert forall|j: int| 0 <= j < after.len() implies after[j] == self@[j] by {
                    if j < i {
                        assert(before[j] == self@.take(i as int)[j]);
                    }
                }
                assert(after =~= self@.take(i + 1));
            }
            pairs.push(pair);
            i += 1;
        }
        assert(self@.take(n as int) =~= self@);
        pairs
    }

    /// The number of pairs in the map.
    pub fn len(&self) -> (n: usize)
        ensures
            n == self@.len(),
    {
        map_len(&self.map)
    }

    /// The bytes of the value that stands with the key, if the key is in
    /// the map.
    pub fn get(&self, key: &[u8]) -> (value: Option<&Vec<u8>>)
        ensures
            match value {
                Some(v) => lookup(self@, key@) == Some(v@),
                None => lookup(self@, key@) is None,
            },
            valid_entries(self@),
    {
        proof {
            use_type_invariant(self);
        }
        map_get(&self.map, key)
    }
}

} // verus!
