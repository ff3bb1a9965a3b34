//! Arenas (levels / maps).
//!
//! The info map of an arena holds a few well-known keys. An [`Arena`] is
//! the typed view of such a map: each well-known key read into a field of
//! its own type, and every other pair kept as it is.
//!
//! The fields are read in a fixed order: `map`, `longname`, `bots`,
//! `fraglimit`, `timelimit`, `type`, `special`. The first field that is
//! missing or not valid decides the error.
//!
//! The bots and the game types are lists in one value. The byte that
//! separates their tokens is given when the view is made, and the view
//! keeps it.

use crate::codec::{lemma_same_items, position, valid_entries, valid_value, Entries};
use crate::error::Error;
use crate::field::{is_field_key, lemma_field_keys, Field};
use crate::info::{Info, Key, Value};
use crate::number::{format_number, parse_number};
use crate::ordered::{has_key, set_get_index, set_insert, set_items, set_len, set_new};
use crate::projection::{
    lemma_digits_valid, lemma_project_unproject, lemma_project_valid, lemma_residual,
    lemma_typed_keys, project, residual, token_list, typed_entries, unique, unproject,
    valid_map_name, ArenaView, DOT,
};
use crate::text::{
    has_byte, join_bytes, lemma_join_valid, same_bytes, same_lists, split_tokens, views,
    DELIMITER,
};
use indexmap::IndexSet;
use vstd::prelude::*;
use vstd::slice::slice_to_vec;

verus! {

/// The name of a map file.
#[derive(Debug, Eq)]
pub struct MapName {
    bytes: Vec<u8>,
}

impl PartialEq for MapName {
    /// Two names are equal if they hold the same bytes.
    fn eq(&self, other: &Self) -> (equal: bool) {
        same_bytes(self.bytes.as_slice(), other.bytes.as_slice())
    }
}

impl vstd::std_specs::cmp::PartialEqSpecImpl for MapName {
    open spec fn obeys_eq_spec() -> bool {
        true
    }

    open spec fn eq_spec(&self, other: &Self) -> bool {
        self@ == other@
    }
}

impl View for MapName {
    type V = Seq<u8>;

    closed spec fn view(&self) -> Seq<u8> {
        self.bytes@
    }
}

impl MapName {
    #[verifier::type_invariant]
    spec fn well_formed(&self) -> bool {
        valid_map_name(self.bytes@)
    }

    /// Creates a map name from bytes. Bytes that are empty, hold the
    /// delimiter or hold two dots in a row are no map name.
    pub fn new(bytes: Vec<u8>) -> (name: Result<Self, Error>)
        ensures
            match name {
                Ok(n) => valid_map_name(bytes@) && n@ == bytes@,
                Err(e) => !valid_map_name(bytes@) && e == Error::InvalidMapName,
            },
    {
        if bytes.len() == 0 || has_byte(bytes.as_slice(), DELIMITER) {
            return Err(Error::InvalidMapName);
        }
        let mut i: usize = 1;
        while i < bytes.len()
            invariant
                1 <= i <= bytes.len(),
                forall|j: int|
                    0 <= j < i - 1 ==> !(#[trigger] bytes@[j] == DOT && bytes@[j + 1] == DOT),
            decreases bytes.len() - i,
        {
            if bytes[i - 1] == DOT && bytes[i] == DOT {
                return Err(Error::InvalidMapName);
            }
            i += 1;
        }
        Ok(MapName { bytes })
    }

    /// The bytes of the name.
    pub fn as_bytes(&self) -> (bytes: &[u8])
        ensures
            bytes@ == self@,
            valid_map_name(self@),
    {
        proof {
            use_type_invariant(self);
        }
        self.bytes.as_slice()
    }
}

/// A name with colour codes in it, as it is shown to players.
pub type ColorString = Value;

/// The name of a bot.
pub type BotName = Vec<u8>;

/// A score that ends a match.
pub type FragLimit = u32;

/// The minutes that end a match.
pub type TimeLimit = u32;

/// The tag of a game type.
pub type GameType = Vec<u8>;

/// A tag that sets an arena apart.
pub type SpecialArenaTag = Value;

/// Newtype for untyped arena [`Info`](Info).
#[derive(Debug, Eq)]
pub struct ArenaInfo(Info);

impl PartialEq for ArenaInfo {
    /// Two marked maps are equal if the maps are.
    fn eq(&self, other: &Self) -> (equal: bool) {
        self.0 == other.0
    }
}

impl vstd::std_specs::cmp::PartialEqSpecImpl for ArenaInfo {
    open spec fn obeys_eq_spec() -> bool {
        true
    }

    open spec fn eq_spec(&self, other: &Self) -> bool {
        self@.to_set() == other@.to_set()
    }
}

impl View for ArenaInfo {
    type V = Entries;

    closed spec fn view(&self) -> Entries {
        self.0@
    }
}

impl ArenaInfo {
    /// Marks an info map as that of an arena. The map is not looked at.
    pub fn new(info: Info) -> (arena_info: Self)
        ensures
            arena_info@ == info@,
    {
        Self(info)
    }

    /// The info map.
    pub fn info(&self) -> (info: &Info)
        ensures
            info@ == self@,
    {
        &self.0
    }

    /// The info map, without the mark.
    pub fn into_info(self) -> (info: Info)
        ensures
            info@ == self@,
    {
        self.0
    }
}

/// Typed [`ArenaInfo`](ArenaInfo) for a map/level.
#[derive(Debug, Eq)]
pub struct Arena {
    /// Typed value for `map` key.
    map: MapName,
    /// Typed value for `longname` key.
    name: ColorString,
    /// Typed value for `bots` key.
    bots: Vec<BotName>,
    /// Typed value for `fraglimit` key.
    fraglimit: FragLimit,
    /// Typed value for `timelimit` key.
    timelimit: TimeLimit,
    /// Typed value for `type` key.
    types: IndexSet<GameType>,
    /// Typed value for `special` key.
    special: Option<SpecialArenaTag>,
    /// Other untyped info key/value pairs.
    info: Info,
    /// The byte between the tokens of `bots` and of `type`.
    separator: u8,
}

impl View for Arena {
    type V = ArenaView;

    closed spec fn view(&self) -> ArenaView {
        ArenaView {
            map: self.map@,
            name: self.name@,
            bots: views(self.bots@),
            fraglimit: self.fraglimit,
            timelimit: self.timelimit,
            types: set_items(self.types),
            special: match self.special {
                Some(tag) => Some(tag@),
                None => None,
            },
            info: self.info@,
            separator: self.separator,
        }
    }
}

impl PartialEq for Arena {
    /// Two arenas are equal if their fields are: the game types and the
    /// other pairs in whatever order, the bots in their order.
    fn eq(&self, other: &Self) -> (equal: bool) {
        proof {
            use_type_invariant(self);
            use_type_invariant(other);
            lemma_same_items(self@.types, other@.types);
        }
        let names = self.map == other.map && self.name == other.name;
        let bots = same_lists(&self.bots, &other.bots);
        let limits = self.fraglimit == other.fraglimit && self.timelimit == other.timelimit;
        let types = set_len(&self.types) == set_len(&other.types) && all_in(
            &self.types,
            &other.types,
        );
        let special = same_tag(&self.special, &other.special);
        let rest = self.info == other.info && self.separator == other.separator;
        names && bots && limits && types && special && rest
    }
}

impl vstd::std_specs::cmp::PartialEqSpecImpl for Arena {
    open spec fn obeys_eq_spec() -> bool {
        true
    }

    open spec fn eq_spec(&self, other: &Self) -> bool {
        &&& self@.map == other@.map
        &&& self@.name == other@.name
        &&& self@.bots == other@.bots
        &&& self@.fraglimit == other@.fraglimit
        &&& self@.timelimit == other@.timelimit
        &&& self@.types.to_set() == other@.types.to_set()
        &&& self@.special == other@.special
        &&& self@.info.to_set() == other@.info.to_set()
        &&& self@.separator == other@.separator
    }
}

/// Tells whether the item is in the set.
fn has_item(set: &IndexSet<Vec<u8>>, item: &[u8]) -> (found: bool)
    ensures
        found == set_items(*set).contains(item@),
{
    let n = set_len(set);
    let mut i: usize = 0;
    while i < n
        invariant
            i <= n == set_items(*set).len(),
            forall|j: int| 0 <= j < i ==> set_items(*set)[j] != item@,
        decreases n - i,
    {
        if same_bytes(set_get_index(set, i).unwrap().as_slice(), item) {
            return true;
        }
        i += 1;
    }
    false
}

/// Tells whether every item of the first set is in the second.
fn all_in(a: &IndexSet<Vec<u8>>, b: &IndexSet<Vec<u8>>) -> (all: bool)
    ensures
        all == forall|i: int|
            0 <= i < set_items(*a).len() ==> set_items(*b).contains(#[trigger] set_items(*a)[i]),
{
    let n = set_len(a);
    let mut i: usize = 0;
    while i < n
        invariant
            i <= n == set_items(*a).len(),
            forall|j: int| 0 <= j < i ==> set_items(*b).contains(#[trigger] set_items(*a)[j]),
        decreases n - i,
    {
        if !has_item(b, set_get_index(a, i).unwrap().as_slice()) {
            return false;
        }
        i += 1;
    }
    true
}

/// Tells whether two tags that may be missing are the same.
fn same_tag(a: &Option<Value>, b: &Option<Value>) -> (same: bool)
    ensures
        same == match (*a, *b) {
            (Some(x), Some(y)) => x@ == y@,
            (None, None) => true,
            _ => false,
        },
{
    match (a, b) {
        (Some(x), Some(y)) => x == y,
        (None, None) => true,
        _ => false,
    }
}

/// Reads a list that may be missing into its tokens.
fn read_list(value: Option<&Vec<u8>>, separator: u8) -> (list: Vec<Vec<u8>>)
    ensures
        views(list@) == token_list(
            match value {
                Some(v) => Some(v@),
                None => None,
            },
            separator,
        ),
{
    match value {
        Some(v) => split_tokens(v.as_slice(), separator),
        None => {
            let list: Vec<Vec<u8>> = Vec::new();
            assert(views(list@) =~= Seq::<Seq<u8>>::empty());
            list
        },
    }
}

/// Collects the items into a set, each once, in the order in which each
/// comes first.
fn collect_unique(items: &Vec<Vec<u8>>) -> (set: IndexSet<Vec<u8>>)
    ensures
        set_items(set) == unique(views(items@)),
{
    let mut set = set_new();
    let mut i: usize = 0;
    assert(views(items@).take(0) =~= Seq::<Seq<u8>>::empty());
    while i < items.len()
        invariant
            i <= items.len(),
            set_items(set) == unique(views(items@).take(i as int)),
        decreases items.len() - i,
    {
        let item = slice_to_vec(items[i].as_slice());
        proof {
            let longer = views(items@).take(i + 1);
            assert(longer.drop_last() =~= views(items@).take(i as int));
            assert(longer.last() == item@);
        }
        set_insert(&mut set, item);
        i += 1;
    }
    assert(views(items@).take(i as int) =~= views(items@));
    set
}

/// Copies the pairs whose key is the key of no field into a map of
/// their own.
fn collect_residual(info: &Info) -> (rest: Info)
    ensures
        rest@ == residual(info@),
{
    let pairs = info.iter();
    let ghost entries = info@;
    let mut rest = Info::new();
    proof {
        reveal(Seq::filter);
        assert(entries.take(0) =~= Entries::empty());
    }
    for pair in it: pairs
        invariant
            it.seq().len() == entries.len(),
            forall|j: int|
                0 <= j < entries.len() ==> (#[trigger] it.seq()[j]).0@ == entries[j].0
                    && it.seq()[j].1@ == entries[j].1,
            valid_entries(entries),
            rest@ == residual(entries.take(it.index() as int)),
    {
        proof {
            reveal(Seq::filter);
            let i = it.index() as int;
            let before = entries.take(i);
            let longer = entries.take(i + 1);
            assert(longer.drop_last() =~= before);
            assert(longer.last() == entries[i]);
            assert(pair.0@ == entries[i].0);
            lemma_residual(before);
            if has_key(rest@, pair.0@) {
                let p = position(rest@, pair.0@);
                assert(before.contains(rest@[p]));
                let k = choose|k: int| 0 <= k < before.len() && before[k] == rest@[p];
                assert(entries[k].0 != entries[i].0);
            }
        }
        if Field::from_key(pair.0.as_bytes()).is_none() {
            rest.insert(pair.0, pair.1);
        }
    }
    assert(entries.take(entries.len() as int) =~= entries);
    rest
}

/// Gives a field that the map does not hold yet its value.
fn put(info: &mut Info, field: Field, value: Vec<u8>)
    requires
        valid_value(value@),
        !has_key(old(info)@, field.key()),
    ensures
        final(info)@ == old(info)@.push((field.key(), value@)),
{
    proof {
        lemma_field_keys(field);
    }
    info.insert(
        Key::from_valid(slice_to_vec(field.key_bytes())),
        Value::from_valid(value),
    );
}

/// Copies the items of a set into a vector, in the set's order.
fn items_of(set: &IndexSet<Vec<u8>>) -> (items: Vec<Vec<u8>>)
    ensures
        views(items@) == set_items(*set),
{
    let mut items: Vec<Vec<u8>> = Vec::new();
    let n = set_len(set);
    let mut i: usize = 0;
    while i < n
        invariant
            i <= n == set_items(*set).len(),
            items@.len() == i,
            views(items@) == set_items(*set).take(i as int),
        decreases n - i,
    {
        let item = slice_to_vec(set_get_index(set, i).unwrap().as_slice());
        proof {
            assert(views(items@.push(item)) =~= set_items(*set).take(i + 1));
        }
        items.push(item);
        i += 1;
    }
    assert(set_items(*set).take(n as int) =~= set_items(*set));
    items
}

impl Arena {
    #[verifier::type_invariant]
    spec fn well_formed(&self) -> bool {
        self@.valid()
    }

    /// Reads the typed view of the info map of an arena. `separator` is
    /// the byte between the tokens of the lists `bots` and `type`.
    ///
    /// `map`, `longname`, `fraglimit` and `timelimit` must be there; the
    /// value of `map` must be the name of a map file, those of the limits
    /// decimal numbers that fit in 32 bits. The first of these that does
    /// not hold, in the order of the fields, is the error.
    pub fn new(info: ArenaInfo, separator: u8) -> (arena: Result<Self, Error>)
        ensures
            match arena {
                Ok(a) => project(info@, separator) == Ok::<ArenaView, Error>(a@) && a@.valid(),
                Err(e) => project(info@, separator) == Err::<ArenaView, Error>(e),
            },
    {
        let info = info.into_info();
        let ghost entries = info@;
        let map = match info.get(Field::MapName.key_bytes()) {
            None => {
                return Err(Error::MissingField(Field::MapName));
            },
            Some(bytes) => match MapName::new(slice_to_vec(bytes.as_slice())) {
                Ok(name) => name,
                Err(e) => {
                    return Err(e);
                },
            },
        };
        let name = match info.get(Field::LongName.key_bytes()) {
            None => {
                return Err(Error::MissingField(Field::LongName));
            },
            Some(bytes) => {
                assert(valid_value(bytes@)) by {
                    let p = position(entries, Field::LongName.key());
                    assert(valid_value(entries[p].1));
                }
                Value::from_valid(slice_to_vec(bytes.as_slice()))
            },
        };
        let bots_value = info.get(Field::Bots.key_bytes());
        let bots = read_list(bots_value, separator);
        let fraglimit = match info.get(Field::FragLimit.key_bytes()) {
            None => {
                return Err(Error::MissingField(Field::FragLimit));
            },
            Some(bytes) => match parse_number(bytes.as_slice()) {
                Some(number) => number,
                None => {
                    return Err(Error::InvalidNumber(Field::FragLimit));
                },
            },
        };
        let timelimit = match info.get(Field::TimeLimit.key_bytes()) {
            None => {
                return Err(Error::MissingField(Field::TimeLimit));
            },
            Some(bytes) => match parse_number(bytes.as_slice()) {
                Some(number) => number,
                None => {
                    return Err(Error::InvalidNumber(Field::TimeLimit));
                },
            },
        };
        let types_value = info.get(Field::Type.key_bytes());
        let type_tokens = read_list(types_value, separator);
        let types = collect_unique(&type_tokens);
        let special = match info.get(Field::Special.key_bytes()) {
            Some(bytes) => {
                assert(valid_value(bytes@)) by {
                    let p = position(entries, Field::Special.key());
                    assert(valid_value(entries[p].1));
                }
                Some(Value::from_valid(slice_to_vec(bytes.as_slice())))
            },
            None => None,
        };
        let rest = collect_residual(&info);
        proof {
            lemma_project_valid(entries, separator);
        }
        Ok(Arena { map, name, bots, fraglimit, timelimit, types, special, info: rest, separator })
    }

    /// The info map that the arena stands for: the pairs of the typed
    /// fields first, in the order `map`, `longname`, `bots`, `fraglimit`,
    /// `timelimit`, `type`, `special`, then the pairs of all other keys
    /// in their order. A list without tokens and a missing tag make no
    /// pair; a limit is written without leading zeros; the tokens of a
    /// list are joined by the separator of the arena.
    pub fn to_info(&self) -> (info: ArenaInfo)
        ensures
            info@ == unproject(self@),
            project(info@, self@.separator) == Ok::<ArenaView, Error>(self@),
            self@.valid(),
    {
        proof {
            use_type_invariant(self);
            lemma_project_unproject(self@);
        }
        ArenaInfo::new(self.pairs())
    }

    /// The pairs of the info map that the arena stands for.
    fn pairs(&self) -> (info: Info)
        ensures
            info@ == unproject(self@),
    {
        proof {
            use_type_invariant(self);
            lemma_field_keys(Field::MapName);
            lemma_field_keys(Field::LongName);
            lemma_field_keys(Field::Bots);
            lemma_field_keys(Field::FragLimit);
            lemma_field_keys(Field::TimeLimit);
            lemma_field_keys(Field::Type);
            lemma_field_keys(Field::Special);
            lemma_digits_valid(self.fraglimit as nat);
            lemma_digits_valid(self.timelimit as nat);
        }
        let mut info = Info::new();
        put(&mut info, Field::MapName, slice_to_vec(self.map.as_bytes()));
        put(&mut info, Field::LongName, slice_to_vec(self.name.as_bytes()));
        if self.bots.len() > 0 {
            proof {
                lemma_join_valid(views(self.bots@), self.separator);
            }
            put(&mut info, Field::Bots, join_bytes(&self.bots, self.separator));
        }
        put(&mut info, Field::FragLimit, format_number(self.fraglimit));
        put(&mut info, Field::TimeLimit, format_number(self.timelimit));
        let types = items_of(&self.types);
        if types.len() > 0 {
            proof {
                lemma_join_valid(views(types@), self.separator);
            }
            put(&mut info, Field::Type, join_bytes(&types, self.separator));
        }
        match &self.special {
            Some(tag) => {
                put(&mut info, Field::Special, slice_to_vec(tag.as_bytes()));
            },
            None => {},
        }
        let ghost typed = typed_entries(self@);
        let ghost rest = self.info@;
        assert(info@ =~= typed);
        let pairs = self.info.iter();
        proof {
            lemma_typed_keys(self@);
            assert(typed + rest.take(0) =~= typed);
        }
        for pair in it: pairs
            invariant
                it.seq().len() == rest.len(),
                forall|j: int|
                    0 <= j < rest.len() ==> (#[trigger] it.seq()[j]).0@ == rest[j].0
                        && it.seq()[j].1@ == rest[j].1,
                valid_entries(rest),
                forall|j: int| 0 <= j < rest.len() ==> !is_field_key((#[trigger] rest[j]).0),
                forall|j: int| 0 <= j < typed.len() ==> is_field_key((#[trigger] typed[j]).0),
                info@ == typed + rest.take(it.index() as int),
        {
            proof {
                let i = it.index() as int;
                let before = typed + rest.take(i);
                assert(pair.0@ == rest[i].0);
                if has_key(before, pair.0@) {
                    let p = position(before, pair.0@);
                    if p < typed.len() {
                        assert(before[p] == typed[p]);
                    } else {
                        assert(before[p] == rest[p - typed.len()]);
                        assert(rest[p - typed.len()].0 != rest[i].0);
                    }
                }
                assert(before.push(rest[i]) =~= typed + rest.take(i + 1));
            }
            info.insert(pair.0, pair.1);
        }
        assert(rest.take(rest.len() as int) =~= rest);
        info
    }

    /// Typed value of `map`: the name of the map file.
    pub fn map(&self) -> (map: &MapName)
        ensures
            map@ == self@.map,
    {
        &self.map
    }

    /// Typed value of `longname`: the name shown to players.
    pub fn name(&self) -> (name: &ColorString)
        ensures
            name@ == self@.name,
    {
        &self.name
    }

    /// Typed value of `bots`: the names of the bots, in their order.
    pub fn bots(&self) -> (bots: &Vec<BotName>)
        ensures
            views(bots@) == self@.bots,
    {
        &self.bots
    }

    /// Typed value of `fraglimit`.
    pub fn fraglimit(&self) -> (fraglimit: &FragLimit)
        ensures
            *fraglimit == self@.fraglimit,
    {
        &self.fraglimit
    }

    /// Typed value of `timelimit`, in minutes.
    pub fn timelimit(&self) -> (timelimit: &TimeLimit)
        ensures
            *timelimit == self@.timelimit,
    {
        &self.timelimit
    }

    /// Typed value of `type`: the game types, each once, in the order in
    /// which each comes first.
    pub fn types(&self) -> (types: &IndexSet<GameType>)
        ensures
            set_items(*types) == self@.types,
    {
        &self.types
    }

    /// Typed value of `special`, if the key is there.
    pub fn special(&self) -> (special: Option<&SpecialArenaTag>)
        ensures
            match special {
                Some(tag) => self@.special == Some(tag@),
                None => self@.special is None,
            },
    {
        self.special.as_ref()
    }

    /// The pairs of all other keys.
    pub fn info(&self) -> (info: &Info)
        ensures
            info@ == self@.info,
    {
        &self.info
    }

    /// The byte between the tokens of `bots` and of `type`.
    pub fn separator(&self) -> (separator: u8)
        ensures
            separator == self@.separator,
    {
        self.separator
    }
}

} // verus!
