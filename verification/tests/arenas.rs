use quake3::arena::{Arena, ArenaInfo, MapName};
use quake3::error::Error;
use quake3::field::Field;
use quake3::info::{Info, Key, Value};

const SPACE: u8 = b' ';

const YARD: &[u8] = b"\\map\\q3dm17\\longname\\The Longest Yard\\fraglimit\\20\\timelimit\\15";

fn read(bytes: &[u8], separator: u8) -> Result<Arena, Error> {
    Arena::new(ArenaInfo::new(Info::parse(bytes).unwrap()), separator)
}

fn pairs_of(info: &Info) -> Vec<(Vec<u8>, Vec<u8>)> {
    info.iter().into_iter().map(|(k, v)| (k.into_bytes(), v.into_bytes())).collect()
}

fn entry(k: &[u8], v: &[u8]) -> (Vec<u8>, Vec<u8>) {
    (k.to_vec(), v.to_vec())
}

fn types_of(arena: &Arena) -> Vec<Vec<u8>> {
    arena.types().iter().cloned().collect()
}

#[test]
fn map_name_keeps_its_bytes() {
    let name = MapName::new(b"q3dm17".to_vec()).unwrap();
    assert_eq!(name.as_bytes(), b"q3dm17");
    assert_eq!(name, MapName::new(b"q3dm17".to_vec()).unwrap());
    assert_ne!(name, MapName::new(b"q3dm6".to_vec()).unwrap());
}

#[test]
fn map_name_accepts_single_dots() {
    assert!(MapName::new(b"q3dm17.bsp".to_vec()).is_ok());
    assert!(MapName::new(b".".to_vec()).is_ok());
    assert!(MapName::new(b"a.b.c".to_vec()).is_ok());
    assert!(MapName::new(b"maps/q3dm17".to_vec()).is_ok());
}

#[test]
fn map_name_rejects_no_bytes() {
    assert_eq!(MapName::new(Vec::new()), Err(Error::InvalidMapName));
}

#[test]
fn map_name_rejects_the_delimiter() {
    assert_eq!(MapName::new(b"q3\\dm17".to_vec()), Err(Error::InvalidMapName));
}

#[test]
fn map_name_rejects_two_dots_in_a_row() {
    assert_eq!(MapName::new(b"..".to_vec()), Err(Error::InvalidMapName));
    assert_eq!(MapName::new(b"../q3dm17".to_vec()), Err(Error::InvalidMapName));
    assert_eq!(MapName::new(b"maps/../../etc".to_vec()), Err(Error::InvalidMapName));
    assert_eq!(MapName::new(b"q3dm17..".to_vec()), Err(Error::InvalidMapName));
    assert_eq!(MapName::new(b"a...b".to_vec()), Err(Error::InvalidMapName));
}

#[test]
fn arena_info_wraps_the_map() {
    let info = Info::parse(b"\\anything\\goes").unwrap();
    let wrapped = ArenaInfo::new(info);
    assert_eq!(wrapped.info().len(), 1);
    assert_eq!(wrapped.info().get(b"anything"), Some(&b"goes".to_vec()));
    assert_eq!(wrapped.into_info().serialize(), b"\\anything\\goes".to_vec());
}

#[test]
fn complete_arena_is_read() {
    let arena = read(YARD, SPACE).unwrap();
    assert_eq!(arena.map().as_bytes(), b"q3dm17");
    assert_eq!(arena.name().as_bytes(), b"The Longest Yard");
    assert_eq!(*arena.fraglimit(), 20);
    assert_eq!(*arena.timelimit(), 15);
    assert!(arena.bots().is_empty());
    assert!(arena.types().is_empty());
    assert!(arena.special().is_none());
    assert_eq!(arena.info().len(), 0);
    assert_eq!(arena.separator(), SPACE);
}

#[test]
fn arena_without_longname_is_not_read() {
    let arena = read(b"\\map\\q3dm17", SPACE);
    assert_eq!(arena.err(), Some(Error::MissingField(Field::LongName)));
    assert_eq!(Field::LongName.name(), "longname");
}

#[test]
fn arena_of_a_key_without_value_is_not_parsed() {
    assert_eq!(Info::parse(b"\\map\\q3dm17\\longname").err(), Some(Error::MalformedInfoString));
}

#[test]
fn arena_is_read_back_from_its_info_string() {
    let arena = read(YARD, SPACE).unwrap();
    let bytes = arena.to_info().into_info().serialize();
    let again = read(&bytes, SPACE).unwrap();
    assert_eq!(again.map(), arena.map());
    assert_eq!(again.name(), arena.name());
    assert_eq!(again.bots(), arena.bots());
    assert_eq!(again.fraglimit(), arena.fraglimit());
    assert_eq!(again.timelimit(), arena.timelimit());
    assert_eq!(again.types(), arena.types());
    assert_eq!(again.special(), arena.special());
    assert_eq!(again.info(), arena.info());
    assert_eq!(again, arena);
    assert_eq!(bytes, YARD.to_vec());
}

#[test]
fn arena_without_map_is_not_read() {
    let arena = read(b"\\longname\\The Longest Yard\\fraglimit\\20\\timelimit\\15", SPACE);
    assert_eq!(arena.err(), Some(Error::MissingField(Field::MapName)));
    assert_eq!(read(b"", SPACE).err(), Some(Error::MissingField(Field::MapName)));
}

#[test]
fn arena_with_a_bad_map_name_is_not_read() {
    let arena = read(b"\\map\\../q3dm17\\longname\\x\\fraglimit\\20\\timelimit\\15", SPACE);
    assert_eq!(arena.err(), Some(Error::InvalidMapName));
    let arena = read(b"\\map\\\\longname\\x\\fraglimit\\20\\timelimit\\15", SPACE);
    assert_eq!(arena.err(), Some(Error::InvalidMapName));
}

#[test]
fn arena_without_fraglimit_is_not_read() {
    let arena = read(b"\\map\\q3dm17\\longname\\x\\timelimit\\15", SPACE);
    assert_eq!(arena.err(), Some(Error::MissingField(Field::FragLimit)));
}

#[test]
fn arena_with_a_bad_fraglimit_is_not_read() {
    let arena = read(b"\\map\\q3dm17\\longname\\x\\fraglimit\\-1\\timelimit\\15", SPACE);
    assert_eq!(arena.err(), Some(Error::InvalidNumber(Field::FragLimit)));
    let arena = read(b"\\map\\q3dm17\\longname\\x\\fraglimit\\\\timelimit\\15", SPACE);
    assert_eq!(arena.err(), Some(Error::InvalidNumber(Field::FragLimit)));
    let arena = read(b"\\map\\q3dm17\\longname\\x\\fraglimit\\4294967296\\timelimit\\1", SPACE);
    assert_eq!(arena.err(), Some(Error::InvalidNumber(Field::FragLimit)));
}

#[test]
fn arena_without_timelimit_is_not_read() {
    let arena = read(b"\\map\\q3dm17\\longname\\x\\fraglimit\\20", SPACE);
    assert_eq!(arena.err(), Some(Error::MissingField(Field::TimeLimit)));
}

#[test]
fn arena_with_a_bad_timelimit_is_not_read() {
    let arena = read(b"\\map\\q3dm17\\longname\\x\\fraglimit\\20\\timelimit\\soon", SPACE);
    assert_eq!(arena.err(), Some(Error::InvalidNumber(Field::TimeLimit)));
}

#[test]
fn first_field_that_fails_decides_the_error() {
    let arena = read(b"\\timelimit\\x\\fraglimit\\y\\map\\..", SPACE);
    assert_eq!(arena.err(), Some(Error::InvalidMapName));
    let arena = read(b"\\timelimit\\x\\fraglimit\\y\\map\\m", SPACE);
    assert_eq!(arena.err(), Some(Error::MissingField(Field::LongName)));
    let arena = read(b"\\timelimit\\x\\fraglimit\\y\\map\\m\\longname\\n", SPACE);
    assert_eq!(arena.err(), Some(Error::InvalidNumber(Field::FragLimit)));
    let arena = read(b"\\timelimit\\x\\fraglimit\\1\\map\\m\\longname\\n", SPACE);
    assert_eq!(arena.err(), Some(Error::InvalidNumber(Field::TimeLimit)));
    let arena = read(b"\\fraglimit\\y\\map\\m\\longname\\n", SPACE);
    assert_eq!(arena.err(), Some(Error::InvalidNumber(Field::FragLimit)));
}

#[test]
fn fields_are_read_in_whatever_order_they_come() {
    let arena = read(b"\\timelimit\\15\\fraglimit\\20\\longname\\The Longest Yard\\map\\q3dm17", SPACE)
        .unwrap();
    assert_eq!(arena.map().as_bytes(), b"q3dm17");
    assert_eq!(arena.name().as_bytes(), b"The Longest Yard");
    assert_eq!(*arena.fraglimit(), 20);
    assert_eq!(*arena.timelimit(), 15);
}

#[test]
fn bots_are_read_as_tokens() {
    let arena = read(
        b"\\map\\q3dm1\\longname\\Arena Gate\\bots\\sarge  grunt major \\fraglimit\\0\\timelimit\\007",
        SPACE,
    )
    .unwrap();
    assert_eq!(arena.bots(), &vec![b"sarge".to_vec(), b"grunt".to_vec(), b"major".to_vec()]);
    assert_eq!(*arena.fraglimit(), 0);
    assert_eq!(*arena.timelimit(), 7);
}

#[test]
fn bots_may_come_twice() {
    let arena =
        read(b"\\map\\m\\longname\\n\\bots\\sarge sarge\\fraglimit\\1\\timelimit\\1", SPACE).unwrap();
    assert_eq!(arena.bots(), &vec![b"sarge".to_vec(), b"sarge".to_vec()]);
}

#[test]
fn empty_bots_are_no_bots() {
    let arena = read(b"\\map\\m\\longname\\n\\bots\\\\fraglimit\\1\\timelimit\\1", SPACE).unwrap();
    assert!(arena.bots().is_empty());
    let arena = read(b"\\map\\m\\longname\\n\\bots\\   \\fraglimit\\1\\timelimit\\1", SPACE).unwrap();
    assert!(arena.bots().is_empty());
}

#[test]
fn types_are_read_each_once() {
    let arena = read(
        b"\\map\\m\\longname\\n\\fraglimit\\1\\timelimit\\1\\type\\ffa tourney ffa team tourney",
        SPACE,
    )
    .unwrap();
    assert_eq!(types_of(&arena), vec![b"ffa".to_vec(), b"tourney".to_vec(), b"team".to_vec()]);
    assert_eq!(arena.types().len(), 3);
    assert!(arena.types().contains(b"team".as_slice()));
    assert!(!arena.types().contains(b"ctf".as_slice()));
}

#[test]
fn types_that_are_not_known_are_kept() {
    let arena =
        read(b"\\map\\m\\longname\\n\\fraglimit\\1\\timelimit\\1\\type\\ffa freezetag", SPACE).unwrap();
    assert_eq!(types_of(&arena), vec![b"ffa".to_vec(), b"freezetag".to_vec()]);
}

#[test]
fn lists_are_cut_at_the_given_separator() {
    let bytes = b"\\map\\m\\longname\\n\\bots\\sarge,the grunt\\fraglimit\\1\\timelimit\\1\\type\\ffa,team play";
    let arena = read(bytes, b',').unwrap();
    assert_eq!(arena.bots(), &vec![b"sarge".to_vec(), b"the grunt".to_vec()]);
    assert_eq!(types_of(&arena), vec![b"ffa".to_vec(), b"team play".to_vec()]);
    assert_eq!(arena.separator(), b',');
    let arena = read(bytes, SPACE).unwrap();
    assert_eq!(arena.bots(), &vec![b"sarge,the".to_vec(), b"grunt".to_vec()]);
    assert_eq!(types_of(&arena), vec![b"ffa,team".to_vec(), b"play".to_vec()]);
}

#[test]
fn delimiter_as_separator_leaves_a_list_whole() {
    let arena =
        read(b"\\map\\m\\longname\\n\\bots\\sarge grunt\\fraglimit\\1\\timelimit\\1", b'\\').unwrap();
    assert_eq!(arena.bots(), &vec![b"sarge grunt".to_vec()]);
    assert_eq!(
        arena.to_info().into_info().serialize(),
        b"\\map\\m\\longname\\n\\bots\\sarge grunt\\fraglimit\\1\\timelimit\\1".to_vec()
    );
}

#[test]
fn special_is_read_if_it_is_there() {
    let arena =
        read(b"\\map\\m\\longname\\n\\fraglimit\\1\\timelimit\\1\\special\\training", SPACE).unwrap();
    assert_eq!(arena.special().map(|tag| tag.as_bytes()), Some(b"training".as_slice()));
    let arena = read(b"\\map\\m\\longname\\n\\fraglimit\\1\\timelimit\\1\\special\\", SPACE).unwrap();
    assert_eq!(arena.special().map(|tag| tag.as_bytes()), Some(b"".as_slice()));
}

#[test]
fn other_pairs_are_kept_in_their_order() {
    let arena = read(
        b"\\author\\id\\map\\q3dm17\\music\\fla22k_02\\longname\\The Longest Yard\\fraglimit\\20\\zoom\\\\timelimit\\15",
        SPACE,
    )
    .unwrap();
    assert_eq!(
        pairs_of(arena.info()),
        vec![entry(b"author", b"id"), entry(b"music", b"fla22k_02"), entry(b"zoom", b"")]
    );
}

#[test]
fn no_key_is_lost() {
    let info = Info::parse(
        b"\\a\\1\\map\\m\\b\\2\\longname\\n\\bots\\x y\\c\\3\\fraglimit\\1\\timelimit\\2\\type\\ffa\\special\\s\\d\\4",
    )
    .unwrap();
    let keys: Vec<Vec<u8>> = info.iter().into_iter().map(|(k, _)| k.into_bytes()).collect();
    assert_eq!(keys.len(), 11);
    let arena = Arena::new(ArenaInfo::new(info), SPACE).unwrap();
    let kept: Vec<Vec<u8>> = arena.info().iter().into_iter().map(|(k, _)| k.into_bytes()).collect();
    assert_eq!(kept, vec![b"a".to_vec(), b"b".to_vec(), b"c".to_vec(), b"d".to_vec()]);
    let read: Vec<Vec<u8>> =
        keys.iter().filter(|k| Field::from_key(k).is_some()).cloned().collect();
    assert_eq!(read.len(), 7);
    assert_eq!(read.len() + kept.len(), keys.len());
    for key in &keys {
        assert_ne!(Field::from_key(key).is_some(), kept.contains(key));
    }
    assert_eq!(arena.bots().len(), 2);
    assert_eq!(arena.types().len(), 1);
    assert!(arena.special().is_some());
}

#[test]
fn to_info_writes_the_fields_first_and_in_their_order() {
    let arena = read(
        b"\\zoom\\1\\special\\training\\type\\ffa team ffa\\timelimit\\015\\fraglimit\\020\\bots\\sarge  grunt\\longname\\The Longest Yard\\map\\q3dm17\\author\\id",
        SPACE,
    )
    .unwrap();
    let info = arena.to_info().into_info();
    assert_eq!(
        pairs_of(&info),
        vec![
            entry(b"map", b"q3dm17"),
            entry(b"longname", b"The Longest Yard"),
            entry(b"bots", b"sarge grunt"),
            entry(b"fraglimit", b"20"),
            entry(b"timelimit", b"15"),
            entry(b"type", b"ffa team"),
            entry(b"special", b"training"),
            entry(b"zoom", b"1"),
            entry(b"author", b"id"),
        ]
    );
    assert_eq!(
        info.serialize(),
        b"\\map\\q3dm17\\longname\\The Longest Yard\\bots\\sarge grunt\\fraglimit\\20\\timelimit\\15\\type\\ffa team\\special\\training\\zoom\\1\\author\\id"
            .to_vec()
    );
}

#[test]
fn to_info_leaves_out_empty_lists_and_a_missing_tag() {
    let arena = read(b"\\bots\\\\type\\ \\map\\m\\longname\\n\\fraglimit\\1\\timelimit\\2", SPACE).unwrap();
    assert_eq!(
        arena.to_info().into_info().serialize(),
        b"\\map\\m\\longname\\n\\fraglimit\\1\\timelimit\\2".to_vec()
    );
}

#[test]
fn to_info_joins_lists_with_the_separator_of_the_arena() {
    let arena =
        read(b"\\map\\m\\longname\\n\\bots\\a,,b\\fraglimit\\1\\timelimit\\2\\type\\x,y,x", b',').unwrap();
    assert_eq!(
        arena.to_info().into_info().serialize(),
        b"\\map\\m\\longname\\n\\bots\\a,b\\fraglimit\\1\\timelimit\\2\\type\\x,y".to_vec()
    );
}

#[test]
fn arena_with_all_fields_is_read_back_from_its_info_string() {
    let arena = read(
        b"\\x\\1\\map\\q3tourney2\\longname\\^1The ^7Proving Grounds\\bots\\hunter  klesk\\fraglimit\\0\\timelimit\\4294967295\\type\\tourney single tourney\\special\\final\\y\\",
        SPACE,
    )
    .unwrap();
    let bytes = arena.to_info().into_info().serialize();
    let again = read(&bytes, SPACE).unwrap();
    assert_eq!(again, arena);
    assert_eq!(again.map().as_bytes(), b"q3tourney2");
    assert_eq!(again.name().as_bytes(), b"^1The ^7Proving Grounds");
    assert_eq!(again.bots(), &vec![b"hunter".to_vec(), b"klesk".to_vec()]);
    assert_eq!(*again.fraglimit(), 0);
    assert_eq!(*again.timelimit(), u32::MAX);
    assert_eq!(types_of(&again), vec![b"tourney".to_vec(), b"single".to_vec()]);
    assert_eq!(again.special().map(|tag| tag.as_bytes()), Some(b"final".as_slice()));
    assert_eq!(pairs_of(again.info()), vec![entry(b"x", b"1"), entry(b"y", b"")]);
    assert_eq!(again.to_info().into_info().serialize(), bytes);
}

#[test]
fn arenas_with_the_same_types_in_another_order_are_equal() {
    let a = read(b"\\map\\m\\longname\\n\\fraglimit\\1\\timelimit\\2\\type\\ffa team", SPACE).unwrap();
    let b = read(b"\\map\\m\\longname\\n\\fraglimit\\1\\timelimit\\2\\type\\team ffa", SPACE).unwrap();
    let c = read(b"\\map\\m\\longname\\n\\fraglimit\\1\\timelimit\\2\\type\\team ctf", SPACE).unwrap();
    assert_eq!(a, b);
    assert_ne!(a, c);
}

#[test]
fn arena_is_built_from_a_map_made_by_hand() {
    let mut info = Info::new();
    info.insert(Key::new(b"map".to_vec()).unwrap(), Value::new(b"q3dm0".to_vec()).unwrap());
    info.insert(Key::new(b"longname".to_vec()).unwrap(), Value::new(b"Intro".to_vec()).unwrap());
    info.insert(Key::new(b"fraglimit".to_vec()).unwrap(), Value::new(b"5".to_vec()).unwrap());
    info.insert(Key::new(b"timelimit".to_vec()).unwrap(), Value::new(b"0".to_vec()).unwrap());
    info.insert(Key::new(b"fraglimit".to_vec()).unwrap(), Value::new(b"10".to_vec()).unwrap());
    let arena = Arena::new(ArenaInfo::new(info), SPACE).unwrap();
    assert_eq!(*arena.fraglimit(), 10);
    assert_eq!(*arena.timelimit(), 0);
}

#[test]
fn arenas_with_other_fields_are_not_equal() {
    let base = b"\\map\\m\\longname\\n\\bots\\a b\\fraglimit\\1\\timelimit\\2\\type\\x y\\special\\s\\k\\v";
    let arena = read(base, SPACE).unwrap();
    assert_eq!(arena, read(base, SPACE).unwrap());
    let others: [&[u8]; 10] = [
        b"\\map\\m2\\longname\\n\\bots\\a b\\fraglimit\\1\\timelimit\\2\\type\\x y\\special\\s\\k\\v",
        b"\\map\\m\\longname\\n2\\bots\\a b\\fraglimit\\1\\timelimit\\2\\type\\x y\\special\\s\\k\\v",
        b"\\map\\m\\longname\\n\\bots\\b a\\fraglimit\\1\\timelimit\\2\\type\\x y\\special\\s\\k\\v",
        b"\\map\\m\\longname\\n\\bots\\a\\fraglimit\\1\\timelimit\\2\\type\\x y\\special\\s\\k\\v",
        b"\\map\\m\\longname\\n\\bots\\a b\\fraglimit\\3\\timelimit\\2\\type\\x y\\special\\s\\k\\v",
        b"\\map\\m\\longname\\n\\bots\\a b\\fraglimit\\1\\timelimit\\3\\type\\x y\\special\\s\\k\\v",
        b"\\map\\m\\longname\\n\\bots\\a b\\fraglimit\\1\\timelimit\\2\\type\\x z\\special\\s\\k\\v",
        b"\\map\\m\\longname\\n\\bots\\a b\\fraglimit\\1\\timelimit\\2\\type\\x y z\\special\\s\\k\\v",
        b"\\map\\m\\longname\\n\\bots\\a b\\fraglimit\\1\\timelimit\\2\\type\\x y\\k\\v",
        b"\\map\\m\\longname\\n\\bots\\a b\\fraglimit\\1\\timelimit\\2\\type\\x y\\special\\s\\k\\w",
    ];
    for other in others {
        assert_ne!(arena, read(other, SPACE).unwrap());
        assert_ne!(read(other, SPACE).unwrap(), arena);
    }
}

#[test]
fn arenas_with_other_separators_are_not_equal() {
    let bytes = b"\\map\\m\\longname\\n\\fraglimit\\1\\timelimit\\2";
    assert_ne!(read(bytes, SPACE).unwrap(), read(bytes, b',').unwrap());
    assert_eq!(read(bytes, b',').unwrap(), read(bytes, b',').unwrap());
}

#[test]
fn arenas_with_the_same_other_pairs_in_another_order_are_equal() {
    let a = read(b"\\k\\v\\map\\m\\longname\\n\\fraglimit\\1\\timelimit\\2\\l\\w", SPACE).unwrap();
    let b = read(b"\\l\\w\\map\\m\\k\\v\\longname\\n\\fraglimit\\1\\timelimit\\2", SPACE).unwrap();
    assert_eq!(a, b);
}

#[test]
fn arena_infos_are_equal_if_their_maps_are() {
    let a = ArenaInfo::new(Info::parse(b"\\a\\1\\b\\2").unwrap());
    let b = ArenaInfo::new(Info::parse(b"\\b\\2\\a\\1").unwrap());
    let c = ArenaInfo::new(Info::parse(b"\\a\\1\\b\\3").unwrap());
    assert_eq!(a, b);
    assert_ne!(a, c);
}
