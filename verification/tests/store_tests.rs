use rust_bucket::errors::Error;
use rust_bucket::sc::Coordinates;
use rust_bucket::{
    append_records, create_empty_table, create_table, delete, drop_table, find, get_table,
    json_find, json_table_records, read_table, store_json, update_json, update_table, Store,
};

#[test]
fn it_can_create_update_and_drop_a_table_and_take_any_struct_to_add_data() {
    let mut store = Store::new();
    let a = Coordinates { x: 42, y: 9000 };
    let b = Coordinates { x: 32, y: 8765 };
    let c = Coordinates { x: 23, y: 900 };
    let d = Coordinates { x: 105, y: 7382 };

    let e = "{\"table\":\"test\",\"next_id\":\"1\",\"records\":{\"0\":{\"x\":42,\"y\":9000}}}";
    let f = "{\"table\":\"test\",\"next_id\":\"1\",\"records\":{\"0\":{\"x\":32,\"y\":8765}}}";

    create_table(&mut store, "test", &a.to_json()).unwrap();
    assert_eq!(e, read_table(&store, "test").unwrap());

    update_table(&mut store, "test", &b.to_json()).unwrap();
    assert_eq!(f, read_table(&store, "test").unwrap());

    drop_table(&mut store, "test").unwrap();
    create_table(&mut store, "test", &a.to_json()).unwrap();

    append_records(&mut store, "test", &b.to_json()).unwrap();
    append_records(&mut store, "test", &c.to_json()).unwrap();
    append_records(&mut store, "test", &d.to_json()).unwrap();

    assert!(read_table(&store, "test").unwrap().contains("2"));
    assert!(read_table(&store, "test").unwrap().contains("3"));
    assert!(read_table(&store, "test").unwrap().contains("4"));

    drop_table(&mut store, "test").unwrap();
}

#[test]
fn it_can_create_100_tables_and_drop_them_all() {
    let mut store = Store::new();
    for n in 1..101 {
        let table = format!("{}", n);
        let a = Coordinates { x: 42, y: 9000 };

        create_table(&mut store, &*table, &a.to_json()).unwrap();
    }

    for k in 1..101 {
        let table = format!("{}", k);

        drop_table(&mut store, &*table).unwrap();
    }
}

#[test]
fn it_can_create_and_drop_an_empty_table() {
    let mut store = Store::new();
    let table_name = format!("empty");

    create_empty_table(&mut store, &*table_name).unwrap();

    let contents: String = read_table(&store, &*table_name).unwrap();
    let expected = "{\"table\":\"empty\",\"next_id\":\"1\",\"records\":{}}";

    assert_eq!(expected, contents);

    drop_table(&mut store, &*table_name).unwrap();
}

#[test]
fn it_can_get_and_find() {
    let mut store = Store::new();
    let a = Coordinates { x: 42, y: 9000 };

    create_table(&mut store, "test3", &a.to_json()).unwrap();

    assert_eq!(
        a,
        Coordinates::from_json(&find(&store, "test3", "0").unwrap()).unwrap()
    );

    drop_table(&mut store, "test3").unwrap();
}

#[test]
fn it_can_return_json() {
    let mut store = Store::new();
    let a = Coordinates { x: 42, y: 9000 };
    create_table(&mut store, "test5", &a.to_json()).unwrap();
    assert_eq!(
        a,
        Coordinates::from_json(&find(&store, "test5", "0").unwrap()).unwrap()
    );

    let b: String = read_table(&store, "test5").unwrap();
    let c: String = json_table_records(&store, "test5").unwrap();
    let d: String = json_find(&store, "test5", "0").unwrap();

    let j = "{\"table\":\"test5\",\"next_id\":\"1\",\"records\":{\"0\":{\"x\":42,\"y\":9000}}}";
    assert_eq!(j, b);

    let k = "{\"0\":{\"x\":42,\"y\":9000}}";
    assert_eq!(k, c);

    let l = "{\"x\":42,\"y\":9000}";
    assert_eq!(l, d);

    drop_table(&mut store, "test5").unwrap();
}

#[test]
fn it_can_delete_table_data_by_id() {
    let mut store = Store::new();
    let a = Coordinates { x: 42, y: 9000 };

    create_table(&mut store, "test6", &a.to_json()).unwrap();

    assert_eq!(
        a,
        Coordinates::from_json(&find(&store, "test6", "0").unwrap()).unwrap()
    );

    delete(&mut store, "test6", "0").unwrap();

    // delete writes back only the records object, not the whole envelope;
    // with its single record removed, the file holds an empty object
    let table = read_table(&store, "test6").unwrap();
    assert_eq!(table, "{}");

    drop_table(&mut store, "test6").unwrap();
}

#[test]
fn create_is_idempotent_and_keeps_the_first_record() {
    let mut store = Store::new();
    create_table(&mut store, "t", "{\"x\":42,\"y\":9000}").unwrap();
    let first = read_table(&store, "t").unwrap();

    // a second create with a different seed record must change nothing
    create_table(&mut store, "t", "{\"x\":1,\"y\":2}").unwrap();
    assert_eq!(first, read_table(&store, "t").unwrap());
}

#[test]
fn append_allocates_consecutive_ids_and_advances_the_counter() {
    let mut store = Store::new();
    create_table(&mut store, "t", "\"seed\"").unwrap();
    append_records(&mut store, "t", "\"one\"").unwrap();
    append_records(&mut store, "t", "\"two\"").unwrap();

    let d = get_table(&store, "t").unwrap();
    assert_eq!(d.next_id, "3");
    assert_eq!(d.records.len(), 3);
    assert_eq!(d.records[0], ("0".to_string(), "\"seed\"".to_string()));
    assert_eq!(d.records[1], ("1".to_string(), "\"one\"".to_string()));
    assert_eq!(d.records[2], ("2".to_string(), "\"two\"".to_string()));
}

#[test]
fn encoding_a_decoded_table_reproduces_the_file() {
    let mut store = Store::new();
    create_table(&mut store, "t", "{\"x\":42,\"y\":9000}").unwrap();
    append_records(&mut store, "t", "[1,2,null,true,\"s\"]").unwrap();

    let file = read_table(&store, "t").unwrap();
    let decoded = get_table(&store, "t").unwrap();
    let reencoded = rust_bucket::data::encode_data(&decoded);
    assert_eq!(file, reencoded);
}

#[test]
fn reading_a_missing_table_is_the_missing_table_kind() {
    let store = Store::new();
    match read_table(&store, "nope") {
        Err(Error::NoSuchTable(name)) => assert_eq!(name, "nope"),
        other => panic!("expected the missing-table kind, got {:?}", other),
    }
}

#[test]
fn finding_a_missing_key_is_the_missing_key_kind() {
    let mut store = Store::new();
    create_table(&mut store, "t", "{\"x\":42,\"y\":9000}").unwrap();
    match find(&store, "t", "7") {
        Err(Error::NoSuchKey) => {}
        other => panic!("expected the missing-key kind, got {:?}", other),
    }
}

#[test]
fn a_corrupted_counter_fails_append_and_leaves_the_file_alone() {
    let mut store = Store::new();
    update_json(
        &mut store,
        "t",
        "{\"table\":\"t\",\"next_id\":\"abc\",\"records\":{}}",
    )
    .unwrap();
    let before = read_table(&store, "t").unwrap();
    match append_records(&mut store, "t", "{\"x\":1,\"y\":2}") {
        Err(Error::ParseInt(text)) => assert_eq!(text, "abc"),
        other => panic!("expected the corrupted-counter kind, got {:?}", other),
    }
    assert_eq!(before, read_table(&store, "t").unwrap());
}

#[test]
fn a_counter_that_cannot_be_incremented_is_corruption() {
    let mut store = Store::new();
    // one step below the largest counter value still appends
    update_json(
        &mut store,
        "t",
        "{\"table\":\"t\",\"next_id\":\"18446744073709551614\",\"records\":{}}",
    )
    .unwrap();
    append_records(&mut store, "t", "1").unwrap();
    let d = get_table(&store, "t").unwrap();
    assert_eq!(d.next_id, "18446744073709551615");
    assert_eq!(d.records[0].0, "18446744073709551614");
    // the counter can no longer move up, so the next append reports corruption
    match append_records(&mut store, "t", "2") {
        Err(Error::ParseInt(_)) => {}
        other => panic!("expected the corrupted-counter kind, got {:?}", other),
    }
}

#[test]
fn a_garbage_file_fails_decoding_with_the_serde_kind() {
    let mut store = Store::new();
    update_json(&mut store, "t", "this is not json").unwrap();
    match get_table(&store, "t") {
        Err(e) => assert!(e.is_serde()),
        other => panic!("expected the encode/decode kind, got {:?}", other),
    }
}

#[test]
fn duplicate_record_keys_fail_decoding() {
    let mut store = Store::new();
    update_json(
        &mut store,
        "t",
        "{\"table\":\"t\",\"next_id\":\"3\",\"records\":{\"0\":1,\"0\":2}}",
    )
    .unwrap();
    match get_table(&store, "t") {
        Err(e) => assert!(e.is_serde()),
        other => panic!("expected the encode/decode kind, got {:?}", other),
    }
}

#[test]
fn an_invalid_record_is_rejected_and_the_store_kept() {
    let mut store = Store::new();
    create_table(&mut store, "t", "{\"x\":1,\"y\":2}").unwrap();
    let before = read_table(&store, "t").unwrap();
    match update_table(&mut store, "t", "{not json") {
        Err(e) => assert!(e.is_serde()),
        other => panic!("expected the encode/decode kind, got {:?}", other),
    }
    assert_eq!(before, read_table(&store, "t").unwrap());
}

#[test]
fn decoding_tolerates_whitespace_and_string_escapes() {
    let mut store = Store::new();
    update_json(
        &mut store,
        "t",
        " { \"table\" : \"\\u0041\\n\" , \"next_id\" : \"2\" ,\n\t\"records\" : { \"0\" : [ 1 , 2 ] } } ",
    )
    .unwrap();
    let d = get_table(&store, "t").unwrap();
    assert_eq!(d.table, "A\n");
    assert_eq!(d.next_id, "2");
    assert_eq!(d.records.len(), 1);
    assert_eq!(d.records[0].0, "0");
    assert_eq!(d.records[0].1, "[ 1 , 2 ]");
}

#[test]
fn deleting_an_absent_key_is_not_an_error() {
    let mut store = Store::new();
    create_table(&mut store, "t", "{\"x\":1,\"y\":2}").unwrap();
    delete(&mut store, "t", "9").unwrap();
    assert_eq!(read_table(&store, "t").unwrap(), "{\"0\":{\"x\":1,\"y\":2}}");
}

#[test]
fn store_json_keeps_an_existing_table_and_update_json_overwrites_it() {
    let mut store = Store::new();
    store_json(&mut store, "t", "{\"a\":1}").unwrap();
    store_json(&mut store, "t", "{\"b\":2}").unwrap();
    assert_eq!(read_table(&store, "t").unwrap(), "{\"a\":1}");
    update_json(&mut store, "t", "{\"b\":2}").unwrap();
    assert_eq!(read_table(&store, "t").unwrap(), "{\"b\":2}");
}

#[test]
fn appending_to_an_empty_table_starts_at_the_counter() {
    let mut store = Store::new();
    create_empty_table(&mut store, "t").unwrap();
    append_records(&mut store, "t", "7").unwrap();
    assert_eq!(
        read_table(&store, "t").unwrap(),
        "{\"table\":\"t\",\"next_id\":\"2\",\"records\":{\"1\":7}}"
    );
}

#[test]
fn a_table_name_with_escapes_round_trips() {
    let mut store = Store::new();
    create_empty_table(&mut store, "a\"b\\c\td").unwrap();
    let d = get_table(&store, "a\"b\\c\td").unwrap();
    assert_eq!(d.table, "a\"b\\c\td");
    let file = read_table(&store, "a\"b\\c\td").unwrap();
    assert_eq!(
        file,
        "{\"table\":\"a\\\"b\\\\c\\td\",\"next_id\":\"1\",\"records\":{}}"
    );
}

#[test]
fn a_full_table_lifecycle_behaves_as_documented() {
    let mut store = Store::new();
    create_table(&mut store, "t", "{\"x\":42,\"y\":9000}").unwrap();
    assert_eq!(
        read_table(&store, "t").unwrap(),
        "{\"table\":\"t\",\"next_id\":\"1\",\"records\":{\"0\":{\"x\":42,\"y\":9000}}}"
    );

    append_records(&mut store, "t", "{\"x\":32,\"y\":8765}").unwrap();
    let d = get_table(&store, "t").unwrap();
    assert_eq!(d.next_id, "2");
    assert_eq!(d.records[1], ("1".to_string(), "{\"x\":32,\"y\":8765}".to_string()));

    delete(&mut store, "t", "0").unwrap();
    assert_eq!(read_table(&store, "t").unwrap(), "{\"1\":{\"x\":32,\"y\":8765}}");
}

#[test]
fn error_messages_name_their_subject() {
    assert_eq!(
        Error::NoSuchTable("t7".to_string()).message(),
        "Tried to open the table \"t7\", which does not exist."
    );
    assert_eq!(
        Error::NoSuchKey.message(),
        "Tried to retrieve a key which doesn't exist."
    );
    assert_eq!(
        Error::ParseInt("abc".to_string()).message(),
        "Error parsing an integer: abc"
    );
}

#[test]
fn the_engine_writes_json_that_serde_reads_back() {
    let mut store = Store::new();
    create_table(&mut store, "t", "{\"x\":42,\"y\":9000}").unwrap();
    append_records(&mut store, "t", "{\"x\":32,\"y\":8765}").unwrap();
    let ours = read_table(&store, "t").unwrap();

    let v: serde_json::Value = serde_json::from_str(&ours).unwrap();
    assert_eq!(v["table"], serde_json::Value::from("t"));
    assert_eq!(v["next_id"], serde_json::Value::from("2"));
    assert_eq!(v["records"]["0"]["x"], serde_json::Value::from(42));
    assert_eq!(v["records"]["0"]["y"], serde_json::Value::from(9000));
    assert_eq!(v["records"]["1"]["x"], serde_json::Value::from(32));
    assert_eq!(v["records"]["1"]["y"], serde_json::Value::from(8765));
}
