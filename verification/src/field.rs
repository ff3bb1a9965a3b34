//! The well-known keys of an arena description.

use crate::text::{free_of, same_bytes, DELIMITER};
use vstd::prelude::*;
use vstd::string::*;

verus! {

/// A key that the typed view of an arena reads. Every other key stays in
/// the untyped rest.
#[derive(Clone, Copy, Debug, PartialEq, Eq, Hash, Structural)]
pub enum Field {
    /// `map`: the name of the map file.
    MapName,
    /// `longname`: the name shown to players.
    LongName,
    /// `bots`: the bots that play in the arena.
    Bots,
    /// `fraglimit`: the score that ends a match.
    FragLimit,
    /// `timelimit`: the minutes that end a match.
    TimeLimit,
    /// `type`: the game types that the arena supports.
    Type,
    /// `special`: a tag that sets the arena apart.
    Special,
}

impl Field {
    /// The bytes of the key, as they stand in an info string.
    pub open spec fn key(self) -> Seq<u8> {
        match self {
            // map
            Field::MapName => seq![0x6du8, 0x61u8, 0x70u8],
            // longname
            Field::LongName => seq![
                0x6cu8, 0x6fu8, 0x6eu8, 0x67u8, 0x6eu8, 0x61u8, 0x6du8, 0x65u8,
            ],
            // bots
            Field::Bots => seq![0x62u8, 0x6fu8, 0x74u8, 0x73u8],
            // fraglimit
            Field::FragLimit => seq![
                0x66u8, 0x72u8, 0x61u8, 0x67u8, 0x6cu8, 0x69u8, 0x6du8, 0x69u8, 0x74u8,
            ],
            // timelimit
            Field::TimeLimit => seq![
                0x74u8, 0x69u8, 0x6du8, 0x65u8, 0x6cu8, 0x69u8, 0x6du8, 0x69u8, 0x74u8,
            ],
            // type
            Field::Type => seq![0x74u8, 0x79u8, 0x70u8, 0x65u8],
            // special
            Field::Special => seq![0x73u8, 0x70u8, 0x65u8, 0x63u8, 0x69u8, 0x61u8, 0x6cu8],
        }
    }

    /// The key as text.
    pub fn name(self) -> (name: &'static str)
        ensures
            name.spec_bytes() == self.key(),
    {
        let name = match self {
            Field::MapName => "map",
            Field::LongName => "longname",
            Field::Bots => "bots",
            Field::FragLimit => "fraglimit",
            Field::TimeLimit => "timelimit",
            Field::Type => "type",
            Field::Special => "special",
        };
        proof {
            reveal_strlit("map");
            reveal_strlit("longname");
            reveal_strlit("bots");
            reveal_strlit("fraglimit");
            reveal_strlit("timelimit");
            reveal_strlit("type");
            reveal_strlit("special");
            assert(is_ascii(name));
            is_ascii_spec_bytes(name);
            assert(name.spec_bytes() =~= self.key());
        }
        name
    }

    /// The key as bytes.
    pub fn key_bytes(self) -> (bytes: &'static [u8])
        ensures
            bytes@ == self.key(),
    {
        self.name().as_bytes()
    }

    /// The field that a key belongs to, if it is the key of a field.
    pub open spec fn of_key(key: Seq<u8>) -> Option<Field> {
        if key == Field::MapName.key() {
            Some(Field::MapName)
        } else if key == Field::LongName.key() {
            Some(Field::LongName)
        } else if key == Field::Bots.key() {
            Some(Field::Bots)
        } else if key == Field::FragLimit.key() {
            Some(Field::FragLimit)
        } else if key == Field::TimeLimit.key() {
            Some(Field::TimeLimit)
        } else if key == Field::Type.key() {
            Some(Field::Type)
        } else if key == Field::Special.key() {
            Some(Field::Special)
        } else {
            None
        }
    }

    /// Finds the field that a key belongs to.
    pub fn from_key(key: &[u8]) -> (field: Option<Field>)
        ensures
            field == Field::of_key(key@),
    {
        if same_bytes(key, Field::MapName.key_bytes()) {
            Some(Field::MapName)
        } else if same_bytes(key, Field::LongName.key_bytes()) {
            Some(Field::LongName)
        } else if same_bytes(key, Field::Bots.key_bytes()) {
            Some(Field::Bots)
        } else if same_bytes(key, Field::FragLimit.key_bytes()) {
            Some(Field::FragLimit)
        } else if same_bytes(key, Field::TimeLimit.key_bytes()) {
            Some(Field::TimeLimit)
        } else if same_bytes(key, Field::Type.key_bytes()) {
            Some(Field::Type)
        } else if same_bytes(key, Field::Special.key_bytes()) {
            Some(Field::Special)
        } else {
            None
        }
    }
}

/// True if `key` is the key of one of the fields.
pub open spec fn is_field_key(key: Seq<u8>) -> bool {
    Field::of_key(key) is Some
}

/// The key of a field is a key of info maps, and no two fields share
/// one.
pub proof fn lemma_field_keys(field: Field)
    ensures
        field.key().len() > 0,
        free_of(field.key(), DELIMITER),
        Field::of_key(field.key()) == Some(field),
{
    assert(Field::FragLimit.key()[0] != Field::TimeLimit.key()[0]);
    assert(Field::Bots.key()[0] != Field::Type.key()[0]);
}

} // verus!
