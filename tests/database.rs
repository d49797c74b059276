use tique::database::{log_entry, BincodeDatabase, DbError};

/// A record as the store's users keep it: an id and a name.
type Recipe = (u64, String);

fn recipe(id: u64) -> Recipe {
    (id, "hue".to_owned())
}

/// The two byte sequences a store is made of, kept in memory.
struct Files {
    log: Vec<u8>,
    data: Vec<u8>,
}

fn open(files: &Files) -> BincodeDatabase {
    BincodeDatabase::new(&files.log, files.data.len() as u64).unwrap()
}

fn add(db: &mut BincodeDatabase, files: &mut Files, id: u64, obj: &Recipe) {
    let bytes = bincode::serialize(obj).unwrap();
    let entry = log_entry(id, db.data_len());
    files.data.extend_from_slice(&bytes);
    files.log.extend_from_slice(&entry);
    db.add(id, bytes.len() as u64);
}

fn get(db: &BincodeDatabase, files: &Files, id: u64) -> Option<Recipe> {
    db.get(id).map(|offset| bincode::deserialize(&files.data[offset as usize..]).unwrap())
}

fn empty() -> Files {
    Files { log: Vec::new(), data: Vec::new() }
}

#[test]
fn can_open_empty_db() {
    BincodeDatabase::new(&[], 0).unwrap();
}

#[test]
fn get_on_empty_works() {
    let files = empty();
    assert_eq!(None, get(&open(&files), &files, 10));
}

#[test]
fn can_add_and_get() {
    let mut files = empty();
    let mut db = open(&files);

    let one = recipe(1);
    let two = recipe(2);
    let three = recipe(3);

    add(&mut db, &mut files, 1, &one);
    add(&mut db, &mut files, 2, &two);
    add(&mut db, &mut files, 3, &three);

    assert_eq!(Some(one), get(&db, &files, 1));
    assert_eq!(Some(three), get(&db, &files, 3));
    assert_eq!(Some(two), get(&db, &files, 2));
}

#[test]
fn can_load_existing_database() {
    let mut files = empty();
    let mut db = open(&files);
    add(&mut db, &mut files, 1, &recipe(1));
    add(&mut db, &mut files, 2, &recipe(2));

    let existing_db = open(&files);
    assert_eq!(Some(recipe(1)), get(&existing_db, &files, 1));
    assert_eq!(Some(recipe(2)), get(&existing_db, &files, 2));
}

#[test]
fn log_entries_are_little_endian_id_then_offset() {
    let mut db = BincodeDatabase::new(&[], 5).unwrap();
    let entry = log_entry(0x0102, db.data_len());
    db.add(0x0102, 7);
    assert_eq!(vec![2, 1, 0, 0, 0, 0, 0, 0, 5, 0, 0, 0, 0, 0, 0, 0], entry);
    assert_eq!(12, db.data_len());
    assert_eq!(Some(5), db.get(0x0102));
}

#[test]
fn later_entries_replace_earlier_ones() {
    let mut log = Vec::new();
    for (id, offset) in [(9u64, 0u64), (4, 10), (9, 20)] {
        log.extend_from_slice(&id.to_le_bytes());
        log.extend_from_slice(&offset.to_le_bytes());
    }
    let db = BincodeDatabase::new(&log, 30).unwrap();
    assert_eq!(Some(20), db.get(9));
    assert_eq!(Some(10), db.get(4));
    assert_eq!(None, db.get(1));
}

#[test]
fn truncated_log_is_malformed() {
    let log = vec![0u8; 17];
    assert_eq!(Some(DbError::MalformedLog), BincodeDatabase::new(&log, 100).err());
}

#[test]
fn offset_past_the_data_is_unreachable() {
    let mut log = Vec::new();
    log.extend_from_slice(&1u64.to_le_bytes());
    log.extend_from_slice(&8u64.to_le_bytes());
    assert_eq!(Some(DbError::UnreachableOffset), BincodeDatabase::new(&log, 8).err());
    assert!(BincodeDatabase::new(&log, 9).is_ok());
}

#[test]
fn a_later_add_replaces_an_earlier_one_across_a_reopen() {
    let mut files = empty();
    let mut db = open(&files);
    add(&mut db, &mut files, 5, &recipe(1));
    add(&mut db, &mut files, 5, &recipe(2));
    assert_eq!(Some(recipe(2)), get(&open(&files), &files, 5));
}
