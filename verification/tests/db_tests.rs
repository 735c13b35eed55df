use os_checker::db::store::Db;
use os_checker::db::types::{new_cache, CacheValue};

fn in_memory_db() -> Db {
    let database = redb::Database::builder()
        .create_with_backend(redb::backends::InMemoryBackend::new())
        .unwrap();
    Db::from_database(database)
}

#[test]
fn db() {
    let (key, value) = new_cache();
    let mut db = in_memory_db();

    db.set_or_replace(&key, move |opt| {
        assert!(opt.is_none());
        Ok(value)
    })
    .unwrap();

    db.set_or_replace(&key, move |opt| {
        let value = opt.unwrap();
        assert_eq!(value.count(), 1);
        assert_eq!(value.diagnostics()[0], "warning: xxx");
        Ok(value)
    })
    .unwrap();
}

#[test]
fn get_absent_key_is_none() {
    let (key, _) = new_cache();
    let db = in_memory_db();
    assert!(db.get(&key).unwrap().is_none());
}

#[test]
fn set_then_get_round_trips() {
    let (key, value) = new_cache();
    let mut db = in_memory_db();
    db.set(&key, value).unwrap();
    let got = db.get(&key).unwrap().unwrap();
    assert_eq!(got.count(), 1);
    assert_eq!(got.diagnostics()[0], "warning: xxx");
}

#[test]
fn value_codec_round_trips() {
    let diags = vec!["warning: a".to_owned(), "error: b".to_owned(), String::new()];
    let value = CacheValue::new(diags.clone());
    let bytes = value.encode();
    let back = CacheValue::decode(bytes.as_slice()).unwrap();
    assert_eq!(back.diagnostics(), &diags);
    assert_eq!(back.count(), 3);
}

#[test]
fn value_decode_rejects_garbage() {
    assert!(CacheValue::decode(&[1, 2, 3]).is_none());
    let bytes = vec![0u8; 40];
    // a zero count with trailing bytes is not a value's encoding
    assert!(CacheValue::decode(bytes.as_slice()).is_none());
}

#[test]
fn update_diagnostics_keeps_timestamp_field() {
    let value_diags = vec!["one".to_owned()];
    let mut value = CacheValue::new(value_diags);
    value.update_diagnostics(|mut d| {
        d.push("two".to_owned());
        d
    });
    assert_eq!(value.count(), 2);
    assert_eq!(value.diagnostics()[1], "two");
}

#[test]
fn different_keys_do_not_collide() {
    let (key1, value) = new_cache();
    let (mut key2, _) = new_cache();
    key2.cmd.target = "riscv64gc-unknown-none-elf".to_owned();
    let mut db = in_memory_db();
    db.set(&key1, value).unwrap();
    assert!(db.get(&key1).unwrap().is_some());
    assert!(db.get(&key2).unwrap().is_none());
}
