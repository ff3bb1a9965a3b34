//! What the typed view of an arena says: the fields that the pairs of an
//! info map are read into, the pairs that fields are written to, and what
//! holds of the two.

use crate::codec::{
    distinct_keys, lemma_lookup_at, lookup, position, valid_entries, valid_key, valid_value,
    Entries,
};
use crate::error::Error;
use crate::field::{is_field_key, lemma_field_keys, Field};
use crate::number::{
    decimal_digits, is_digit, lemma_decimal_digits, lemma_parse_decimal_digits, parse_decimal,
};
use crate::ordered::with_item;
use crate::text::{
    join, lemma_join_valid, lemma_tokens_join, lemma_tokens_valid, tokens, valid_token,
    valid_tokens, DELIMITER,
};
use vstd::prelude::*;

verus! {

/// The byte `.`, two of which in a row lead out of a directory.
pub const DOT: u8 = 0x2e;

/// True if the bytes can be the name of a map file: they can be a key,
/// and no two dots stand in a row, so that the name leads out of no
/// directory.
pub open spec fn valid_map_name(bytes: Seq<u8>) -> bool {
    &&& valid_key(bytes)
    &&& forall|i: int|
        0 <= i < bytes.len() - 1 ==> !(#[trigger] bytes[i] == DOT && bytes[i + 1] == DOT)
}

/// What an [`Arena`](crate::arena::Arena) holds.
pub struct ArenaView {
    /// The value of `map`.
    pub map: Seq<u8>,
    /// The value of `longname`.
    pub name: Seq<u8>,
    /// The tokens of the value of `bots`.
    pub bots: Seq<Seq<u8>>,
    /// The number in the value of `fraglimit`.
    pub fraglimit: u32,
    /// The number in the value of `timelimit`.
    pub timelimit: u32,
    /// The tokens of the value of `type`, each once.
    pub types: Seq<Seq<u8>>,
    /// The value of `special`.
    pub special: Option<Seq<u8>>,
    /// The pairs of all other keys.
    pub info: Entries,
    /// The byte between the tokens of a list.
    pub separator: u8,
}

impl ArenaView {
    /// True if the fields can be those of an arena.
    pub open spec fn valid(self) -> bool {
        &&& valid_map_name(self.map)
        &&& valid_value(self.name)
        &&& valid_tokens(self.bots, self.separator)
        &&& valid_tokens(self.types, self.separator)
        &&& self.types.no_duplicates()
        &&& valid_entries(self.info)
        &&& forall|i: int| 0 <= i < self.info.len() ==> !is_field_key((#[trigger] self.info[i]).0)
        &&& self.special matches Some(tag) ==> valid_value(tag)
    }
}

/// The tokens of a list that may be missing: a missing list has none.
pub open spec fn token_list(value: Option<Seq<u8>>, separator: u8) -> Seq<Seq<u8>> {
    match value {
        Some(v) => tokens(v, separator),
        None => Seq::empty(),
    }
}

/// The items in the order in which each comes first, each once.
pub open spec fn unique(items: Seq<Seq<u8>>) -> Seq<Seq<u8>>
    decreases items.len(),
{
    if items.len() == 0 {
        Seq::empty()
    } else {
        with_item(unique(items.drop_last()), items.last())
    }
}

/// The pairs whose key is the key of no field, in their order.
pub open spec fn residual(entries: Entries) -> Entries {
    entries.filter(|entry: (Seq<u8>, Seq<u8>)| !is_field_key(entry.0))
}

/// The typed view of the pairs of an info map, or the first reason why
/// there is none.
pub open spec fn project(entries: Entries, separator: u8) -> Result<ArenaView, Error> {
    let map = lookup(entries, Field::MapName.key());
    let name = lookup(entries, Field::LongName.key());
    let fraglimit = lookup(entries, Field::FragLimit.key());
    let timelimit = lookup(entries, Field::TimeLimit.key());
    if map is None {
        Err(Error::MissingField(Field::MapName))
    } else if !valid_map_name(map->0) {
        Err(Error::InvalidMapName)
    } else if name is None {
        Err(Error::MissingField(Field::LongName))
    } else if fraglimit is None {
        Err(Error::MissingField(Field::FragLimit))
    } else if parse_decimal(fraglimit->0) is None {
        Err(Error::InvalidNumber(Field::FragLimit))
    } else if timelimit is None {
        Err(Error::MissingField(Field::TimeLimit))
    } else if parse_decimal(timelimit->0) is None {
        Err(Error::InvalidNumber(Field::TimeLimit))
    } else {
        Ok(
            ArenaView {
                map: map->0,
                name: name->0,
                bots: token_list(lookup(entries, Field::Bots.key()), separator),
                fraglimit: parse_decimal(fraglimit->0)->0,
                timelimit: parse_decimal(timelimit->0)->0,
                types: unique(token_list(lookup(entries, Field::Type.key()), separator)),
                special: lookup(entries, Field::Special.key()),
                info: residual(entries),
                separator,
            },
        )
    }
}

/// The value that an arena gives the key of a field, if it gives it
/// one. A list without tokens and a missing tag give none; the tokens of
/// a list are joined by the separator; a number is written without
/// leading zeros.
pub open spec fn field_value(arena: ArenaView, field: Field) -> Option<Seq<u8>> {
    match field {
        Field::MapName => Some(arena.map),
        Field::LongName => Some(arena.name),
        Field::Bots => if arena.bots.len() > 0 {
            Some(join(arena.bots, arena.separator))
        } else {
            None
        },
        Field::FragLimit => Some(decimal_digits(arena.fraglimit as nat)),
        Field::TimeLimit => Some(decimal_digits(arena.timelimit as nat)),
        Field::Type => if arena.types.len() > 0 {
            Some(join(arena.types, arena.separator))
        } else {
            None
        },
        Field::Special => arena.special,
    }
}

/// The pair that an arena makes of a field, if it makes one.
pub open spec fn field_entry(arena: ArenaView, field: Field) -> Entries {
    match field_value(arena, field) {
        Some(value) => seq![(field.key(), value)],
        None => Seq::empty(),
    }
}

/// The pairs that the typed fields of an arena make, in the order of the
/// fields.
pub open spec fn typed_entries(arena: ArenaView) -> Entries {
    field_entry(arena, Field::MapName) + field_entry(arena, Field::LongName) + field_entry(
        arena,
        Field::Bots,
    ) + field_entry(arena, Field::FragLimit) + field_entry(arena, Field::TimeLimit) + field_entry(
        arena,
        Field::Type,
    ) + field_entry(arena, Field::Special)
}

/// The pairs of the info map that an arena stands for: those of the
/// typed fields first, then the pairs of all other keys in their order.
pub open spec fn unproject(arena: ArenaView) -> Entries {
    typed_entries(arena) + arena.info
}

/// What `unique` keeps was among the items, and it keeps nothing twice.
proof fn lemma_unique(items: Seq<Seq<u8>>)
    ensures
        unique(items).no_duplicates(),
        unique(items).len() <= items.len(),
        forall|i: int| 0 <= i < unique(items).len() ==> items.contains(#[trigger] unique(items)[i]),
        forall|i: int| 0 <= i < items.len() ==> unique(items).contains(#[trigger] items[i]),
    decreases items.len(),
{
    if items.len() > 0 {
        let front = items.drop_last();
        let last = items.last();
        lemma_unique(front);
        let kept = unique(front);
        let all = unique(items);
        assert forall|i: int| 0 <= i < all.len() implies items.contains(#[trigger] all[i]) by {
            if i < kept.len() {
                assert(front.contains(kept[i]));
                let k = choose|k: int| 0 <= k < front.len() && front[k] == kept[i];
                assert(items[k] == kept[i]);
            } else {
                assert(items[items.len() - 1] == all[i]);
            }
        }
        assert forall|i: int| 0 <= i < items.len() implies all.contains(#[trigger] items[i]) by {
            if i < front.len() {
                assert(front[i] == items[i]);
                assert(kept.contains(front[i]));
                let k = choose|k: int| 0 <= k < kept.len() && kept[k] == front[i];
                assert(all[k] == items[i]);
            } else {
                if kept.contains(last) {
                } else {
                    assert(all[all.len() - 1] == last);
                }
            }
        }
    }
}

/// Items of which none comes twice are all kept.
proof fn lemma_unique_all(items: Seq<Seq<u8>>)
    requires
        items.no_duplicates(),
    ensures
        unique(items) == items,
    decreases items.len(),
{
    if items.len() > 0 {
        let front = items.drop_last();
        lemma_unique_all(front);
        assert(!front.contains(items.last())) by {
            if front.contains(items.last()) {
                let k = choose|k: int| 0 <= k < front.len() && front[k] == items.last();
                assert(items[k] == items[items.len() - 1]);
            }
        }
        assert(front.push(items.last()) =~= items);
    }
}

/// What `residual` keeps: pairs of the map, with keys of no field, none
/// twice where the map has none twice.
pub proof fn lemma_residual(entries: Entries)
    ensures
        residual(entries).len() <= entries.len(),
        forall|i: int|
            0 <= i < residual(entries).len() ==> !is_field_key((#[trigger] residual(entries)[i]).0)
                && entries.contains(residual(entries)[i]),
        valid_entries(entries) ==> valid_entries(residual(entries)),
    decreases entries.len(),
{
    reveal(Seq::filter);
    if entries.len() > 0 {
        let front = entries.drop_last();
        let last = entries.last();
        lemma_residual(front);
        let kept = residual(front);
        let all = residual(entries);
        assert forall|i: int| 0 <= i < all.len() implies !is_field_key((#[trigger] all[i]).0)
            && entries.contains(all[i]) by {
            if i < kept.len() {
                assert(front.contains(kept[i]));
                let k = choose|k: int| 0 <= k < front.len() && front[k] == kept[i];
                assert(entries[k] == kept[i]);
            } else {
                assert(entries[entries.len() - 1] == all[i]);
            }
        }
        if valid_entries(entries) {
            assert(valid_entries(front)) by {
                assert forall|i: int| 0 <= i < front.len() implies valid_key(
                    (#[trigger] front[i]).0,
                ) && valid_value(front[i].1) by {
                    assert(front[i] == entries[i]);
                }
                assert forall|i: int, j: int| 0 <= i < j < front.len() implies (
                #[trigger] front[i]).0 != (#[trigger] front[j]).0 by {
                    assert(front[i] == entries[i]);
                    assert(front[j] == entries[j]);
                }
            }
            assert forall|i: int, j: int| 0 <= i < j < all.len() implies (#[trigger] all[i]).0 != (
            #[trigger] all[j]).0 by {
                if j == kept.len() {
                    assert(front.contains(kept[i]));
                    let k = choose|k: int| 0 <= k < front.len() && front[k] == kept[i];
                    assert(entries[k] == kept[i]);
                    assert(entries[k].0 != entries[entries.len() - 1].0);
                }
            }
            assert forall|i: int| 0 <= i < all.len() implies valid_key((#[trigger] all[i]).0)
                && valid_value(all[i].1) by {
                let k = choose|k: int| 0 <= k < entries.len() && entries[k] == all[i];
                assert(valid_key(entries[k].0));
            }
        }
    }
}

/// The pairs whose key is the key of a field, in their order: what the
/// typed fields are read from.
pub open spec fn consumed(entries: Entries) -> Entries {
    entries.filter(|entry: (Seq<u8>, Seq<u8>)| is_field_key(entry.0))
}

/// Every pair is either read into a typed field or kept.
proof fn lemma_consumed_or_residual(entries: Entries)
    ensures
        consumed(entries).len() + residual(entries).len() == entries.len(),
        forall|i: int|
            0 <= i < entries.len() ==> if is_field_key((#[trigger] entries[i]).0) {
                consumed(entries).contains(entries[i])
            } else {
                residual(entries).contains(entries[i])
            },
    decreases entries.len(),
{
    reveal(Seq::filter);
    if entries.len() > 0 {
        let front = entries.drop_last();
        let last = entries.last();
        lemma_consumed_or_residual(front);
        assert forall|i: int| 0 <= i < entries.len() implies if is_field_key(
            (#[trigger] entries[i]).0,
        ) {
            consumed(entries).contains(entries[i])
        } else {
            residual(entries).contains(entries[i])
        } by {
            if i < front.len() {
                assert(front[i] == entries[i]);
                if is_field_key(entries[i].0) {
                    let k = choose|k: int|
                        0 <= k < consumed(front).len() && consumed(front)[k] == front[i];
                    assert(consumed(entries)[k] == entries[i]);
                } else {
                    let k = choose|k: int|
                        0 <= k < residual(front).len() && residual(front)[k] == front[i];
                    assert(residual(entries)[k] == entries[i]);
                }
            } else {
                if is_field_key(last.0) {
                    assert(consumed(entries)[consumed(entries).len() - 1] == last);
                } else {
                    assert(residual(entries)[residual(entries).len() - 1] == last);
                }
            }
        }
    }
}

/// No key is lost: of the pairs of an info map, those with the key of a
/// field are what the typed fields are read from, all others are kept as
/// they are, and together they are as many as the map has. No key is
/// kept twice, and no kept key is the key of a field.
pub proof fn lemma_no_key_lost(entries: Entries)
    requires
        valid_entries(entries),
    ensures
        consumed(entries).len() + residual(entries).len() == entries.len(),
        forall|i: int|
            0 <= i < entries.len() && is_field_key((#[trigger] entries[i]).0) ==> lookup(
                entries,
                entries[i].0,
            ) == Some(entries[i].1),
        forall|i: int|
            0 <= i < entries.len() && !is_field_key((#[trigger] entries[i]).0)
                ==> residual(entries).contains(entries[i]),
        forall|i: int|
            0 <= i < residual(entries).len() ==> !is_field_key((#[trigger] residual(entries)[i]).0)
                && entries.contains(residual(entries)[i]),
        distinct_keys(residual(entries)),
{
    lemma_consumed_or_residual(entries);
    lemma_residual(entries);
    assert forall|i: int|
        0 <= i < entries.len() && is_field_key((#[trigger] entries[i]).0) implies lookup(
        entries,
        entries[i].0,
    ) == Some(entries[i].1) by {
        lemma_lookup_at(entries, i);
    }
}

/// The typed view of the pairs of an info map holds fields that can be
/// those of an arena.
pub proof fn lemma_project_valid(entries: Entries, separator: u8)
    requires
        valid_entries(entries),
        project(entries, separator) is Ok,
    ensures
        project(entries, separator)->Ok_0.valid(),
{
    let arena = project(entries, separator)->Ok_0;
    assert forall|f: Field| lookup(entries, #[trigger] f.key()) is Some implies valid_value(
        lookup(entries, f.key())->0,
    ) by {
        let p = position(entries, f.key());
        assert(valid_value(entries[p].1));
    }
    assert(valid_value(lookup(entries, Field::LongName.key())->0));
    match lookup(entries, Field::Bots.key()) {
        Some(v) => {
            lemma_tokens_valid(v, separator);
        },
        None => {},
    }
    match lookup(entries, Field::Type.key()) {
        Some(v) => {
            lemma_tokens_valid(v, separator);
        },
        None => {},
    }
    let tokens = token_list(lookup(entries, Field::Type.key()), separator);
    lemma_unique(tokens);
    assert forall|i: int| 0 <= i < unique(tokens).len() implies valid_token(
        #[trigger] unique(tokens)[i],
        separator,
    ) by {
        let t = unique(tokens)[i];
        assert(tokens.contains(t));
        let k = choose|k: int| 0 <= k < tokens.len() && tokens[k] == t;
        assert(valid_token(tokens[k], separator));
    }
    lemma_residual(entries);
}

/// The digits of a number can be a value.
pub proof fn lemma_digits_valid(n: nat)
    ensures
        valid_value(decimal_digits(n)),
{
    lemma_decimal_digits(n);
    let digits = decimal_digits(n);
    assert forall|i: int| 0 <= i < digits.len() implies digits[i] != DELIMITER by {
        assert(is_digit(digits[i]));
    }
}

/// Every key among the typed pairs is the key of a field.
pub proof fn lemma_typed_keys(arena: ArenaView)
    ensures
        forall|i: int|
            0 <= i < typed_entries(arena).len() ==> is_field_key(
                (#[trigger] typed_entries(arena)[i]).0,
            ),
{
    lemma_field_keys(Field::MapName);
    lemma_field_keys(Field::LongName);
    lemma_field_keys(Field::Bots);
    lemma_field_keys(Field::FragLimit);
    lemma_field_keys(Field::TimeLimit);
    lemma_field_keys(Field::Type);
    lemma_field_keys(Field::Special);
}

/// Pairs with keys of fields only: none is kept.
proof fn lemma_residual_none(entries: Entries)
    requires
        forall|i: int| 0 <= i < entries.len() ==> is_field_key((#[trigger] entries[i]).0),
    ensures
        residual(entries) == Entries::empty(),
    decreases entries.len(),
{
    reveal(Seq::filter);
    if entries.len() > 0 {
        let front = entries.drop_last();
        assert forall|i: int| 0 <= i < front.len() implies is_field_key(
            (#[trigger] front[i]).0,
        ) by {
            assert(front[i] == entries[i]);
        }
        lemma_residual_none(front);
        assert(is_field_key(entries[entries.len() - 1].0));
    }
}

/// Pairs with the key of no field: all are kept.
proof fn lemma_residual_all(entries: Entries)
    requires
        forall|i: int| 0 <= i < entries.len() ==> !is_field_key((#[trigger] entries[i]).0),
    ensures
        residual(entries) == entries,
    decreases entries.len(),
{
    reveal(Seq::filter);
    if entries.len() > 0 {
        let front = entries.drop_last();
        assert forall|i: int| 0 <= i < front.len() implies !is_field_key(
            (#[trigger] front[i]).0,
        ) by {
            assert(front[i] == entries[i]);
        }
        lemma_residual_all(front);
        assert(!is_field_key(entries[entries.len() - 1].0));
        assert(front.push(entries.last()) =~= entries);
    }
}

/// A key that stands in no pair has no value.
proof fn lemma_lookup_none(entries: Entries, key: Seq<u8>)
    requires
        forall|i: int| 0 <= i < entries.len() ==> (#[trigger] entries[i]).0 != key,
    ensures
        lookup(entries, key) is None,
{
}

/// The pairs that an arena stands for are those of an info map.
pub proof fn lemma_unproject_valid(arena: ArenaView)
    requires
        arena.valid(),
    ensures
        valid_entries(unproject(arena)),
{
    let typed = typed_entries(arena);
    let all = unproject(arena);
    lemma_field_keys(Field::MapName);
    lemma_field_keys(Field::LongName);
    lemma_field_keys(Field::Bots);
    lemma_field_keys(Field::FragLimit);
    lemma_field_keys(Field::TimeLimit);
    lemma_field_keys(Field::Type);
    lemma_field_keys(Field::Special);
    lemma_digits_valid(arena.fraglimit as nat);
    lemma_digits_valid(arena.timelimit as nat);
    lemma_join_valid(arena.bots, arena.separator);
    lemma_join_valid(arena.types, arena.separator);
    lemma_typed_keys(arena);
    assert(valid_entries(typed));
    assert forall|i: int| 0 <= i < all.len() implies valid_key((#[trigger] all[i]).0)
        && valid_value(all[i].1) by {
        if i < typed.len() {
            assert(all[i] == typed[i]);
        } else {
            assert(all[i] == arena.info[i - typed.len()]);
        }
    }
    assert forall|i: int, j: int| 0 <= i < j < all.len() implies (#[trigger] all[i]).0 != (
    #[trigger] all[j]).0 by {
        if j < typed.len() {
            assert(all[i] == typed[i] && all[j] == typed[j]);
        } else if i < typed.len() {
            assert(all[i] == typed[i]);
            assert(all[j] == arena.info[j - typed.len()]);
        } else {
            assert(all[i] == arena.info[i - typed.len()]);
            assert(all[j] == arena.info[j - typed.len()]);
        }
    }
}

/// Every typed pair is the pair of a field.
proof fn lemma_typed_pairs(arena: ArenaView)
    ensures
        forall|i: int|
            0 <= i < typed_entries(arena).len() ==> {
                let pair = #[trigger] typed_entries(arena)[i];
                exists|f: Field| pair.0 == f.key() && field_value(arena, f) == Some(pair.1)
            },
{
    let typed = typed_entries(arena);
    assert forall|i: int| 0 <= i < typed.len() implies {
        let pair = #[trigger] typed[i];
        exists|f: Field| pair.0 == f.key() && field_value(arena, f) == Some(pair.1)
    } by {
        let pair = typed[i];
        let e0 = field_entry(arena, Field::MapName);
        let e1 = e0 + field_entry(arena, Field::LongName);
        let e2 = e1 + field_entry(arena, Field::Bots);
        let e3 = e2 + field_entry(arena, Field::FragLimit);
        let e4 = e3 + field_entry(arena, Field::TimeLimit);
        let e5 = e4 + field_entry(arena, Field::Type);
        let f = if i < e0.len() {
            Field::MapName
        } else if i < e1.len() {
            Field::LongName
        } else if i < e2.len() {
            Field::Bots
        } else if i < e3.len() {
            Field::FragLimit
        } else if i < e4.len() {
            Field::TimeLimit
        } else if i < e5.len() {
            Field::Type
        } else {
            Field::Special
        };
        assert(pair.0 == f.key() && field_value(arena, f) == Some(pair.1));
    }
}

/// The pair of every field that has a value is among the typed pairs.
proof fn lemma_typed_has(arena: ArenaView, field: Field)
    requires
        field_value(arena, field) is Some,
    ensures
        typed_entries(arena).contains((field.key(), field_value(arena, field)->0)),
{
    let typed = typed_entries(arena);
    let e0 = field_entry(arena, Field::MapName);
    let e1 = e0 + field_entry(arena, Field::LongName);
    let e2 = e1 + field_entry(arena, Field::Bots);
    let e3 = e2 + field_entry(arena, Field::FragLimit);
    let e4 = e3 + field_entry(arena, Field::TimeLimit);
    let e5 = e4 + field_entry(arena, Field::Type);
    let i: int = match field {
        Field::MapName => 0,
        Field::LongName => e0.len() as int,
        Field::Bots => e1.len() as int,
        Field::FragLimit => e2.len() as int,
        Field::TimeLimit => e3.len() as int,
        Field::Type => e4.len() as int,
        Field::Special => e5.len() as int,
    };
    assert(typed[i] == (field.key(), field_value(arena, field)->0));
}

/// In the info map that an arena stands for, the key of a field has the
/// value that the arena gives it, or none.
pub proof fn lemma_unproject_lookup(arena: ArenaView, field: Field)
    requires
        arena.valid(),
    ensures
        lookup(unproject(arena), field.key()) == field_value(arena, field),
{
    let typed = typed_entries(arena);
    let all = unproject(arena);
    lemma_unproject_valid(arena);
    lemma_field_keys(field);
    if field_value(arena, field) is Some {
        lemma_typed_has(arena, field);
        let pair = (field.key(), field_value(arena, field)->0);
        let i = choose|i: int| 0 <= i < typed.len() && typed[i] == pair;
        assert(all[i] == pair);
        lemma_lookup_at(all, i);
    } else {
        lemma_typed_pairs(arena);
        assert forall|i: int| 0 <= i < all.len() implies (#[trigger] all[i]).0 != field.key() by {
            if i < typed.len() {
                assert(all[i] == typed[i]);
                let pair = typed[i];
                let f = choose|f: Field| pair.0 == f.key() && field_value(arena, f) == Some(pair.1);
                lemma_field_keys(f);
            } else {
                assert(all[i] == arena.info[i - typed.len()]);
            }
        }
        lemma_lookup_none(all, field.key());
    }
}

/// Of the info map that an arena stands for, the pairs of the arena's
/// other keys are what is kept.
proof fn lemma_unproject_residual(arena: ArenaView)
    requires
        arena.valid(),
    ensures
        residual(unproject(arena)) == arena.info,
{
    let typed = typed_entries(arena);
    lemma_typed_keys(arena);
    Seq::filter_distributes_over_add(
        typed,
        arena.info,
        |entry: (Seq<u8>, Seq<u8>)| !is_field_key(entry.0),
    );
    lemma_residual_none(typed);
    lemma_residual_all(arena.info);
    assert(Entries::empty() + arena.info =~= arena.info);
}

/// The lists of an arena are read back from the values that the arena
/// gives their keys.
proof fn lemma_unproject_lists(arena: ArenaView)
    requires
        arena.valid(),
    ensures
        token_list(field_value(arena, Field::Bots), arena.separator) == arena.bots,
        unique(token_list(field_value(arena, Field::Type), arena.separator)) == arena.types,
{
    let sep = arena.separator;
    if arena.bots.len() > 0 {
        lemma_tokens_join(arena.bots, sep);
    } else {
        assert(arena.bots =~= Seq::<Seq<u8>>::empty());
    }
    if arena.types.len() > 0 {
        lemma_tokens_join(arena.types, sep);
        lemma_unique_all(arena.types);
    } else {
        assert(arena.types =~= Seq::<Seq<u8>>::empty());
    }
}

/// Pairs in which the keys of the fields have the values that an arena
/// gives them, and of which the arena's other pairs are kept, have the
/// arena for their typed view.
proof fn lemma_project_fields(entries: Entries, arena: ArenaView)
    requires
        forall|f: Field| lookup(entries, #[trigger] f.key()) == field_value(arena, f),
        valid_map_name(arena.map),
        parse_decimal(decimal_digits(arena.fraglimit as nat)) == Some(arena.fraglimit),
        parse_decimal(decimal_digits(arena.timelimit as nat)) == Some(arena.timelimit),
        token_list(field_value(arena, Field::Bots), arena.separator) == arena.bots,
        unique(token_list(field_value(arena, Field::Type), arena.separator)) == arena.types,
        residual(entries) == arena.info,
    ensures
        project(entries, arena.separator) == Ok::<ArenaView, Error>(arena),
{
    assert(lookup(entries, Field::MapName.key()) == Some(arena.map));
    assert(lookup(entries, Field::LongName.key()) == Some(arena.name));
    assert(lookup(entries, Field::Bots.key()) == field_value(arena, Field::Bots));
    assert(lookup(entries, Field::FragLimit.key()) == Some(
        decimal_digits(arena.fraglimit as nat),
    ));
    assert(lookup(entries, Field::TimeLimit.key()) == Some(
        decimal_digits(arena.timelimit as nat),
    ));
    assert(lookup(entries, Field::Type.key()) == field_value(arena, Field::Type));
    assert(lookup(entries, Field::Special.key()) == arena.special);
}

/// Round trip of the typed view: the info map that an arena stands for
/// has the arena for its typed view, with the separator of the arena.
pub proof fn lemma_project_unproject(arena: ArenaView)
    requires
        arena.valid(),
    ensures
        project(unproject(arena), arena.separator) == Ok::<ArenaView, Error>(arena),
{
    assert forall|f: Field|
        lookup(unproject(arena), #[trigger] f.key()) == field_value(arena, f) by {
        lemma_unproject_lookup(arena, f);
    }
    lemma_parse_decimal_digits(arena.fraglimit);
    lemma_parse_decimal_digits(arena.timelimit);
    lemma_unproject_lists(arena);
    lemma_unproject_residual(arena);
    lemma_project_fields(unproject(arena), arena);
}

} // verus!
