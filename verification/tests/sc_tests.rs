use rust_bucket::sc::Coordinates;

#[test]
fn serialization_works() {
    let src = Coordinates { x: 42, y: 43 };
    let expected = r#"{"x":42,"y":43}"#;

    assert_eq!(expected, src.to_json());
}

#[test]
fn deserialization_works() {
    let src = r#"{
  "x": 42,
  "y": 43
}"#;
    let expected = Coordinates { x: 42, y: 43 };

    assert_eq!(expected, Coordinates::from_json(src).unwrap());
}

#[test]
fn coordinates_match_what_serde_renders() {
    let src = Coordinates { x: -7, y: 0 };
    let mut m = serde_json::Map::new();
    m.insert("x".to_string(), serde_json::Value::from(-7));
    m.insert("y".to_string(), serde_json::Value::from(0));
    let theirs = serde_json::to_string(&serde_json::Value::Object(m)).unwrap();
    assert_eq!(src.to_json(), theirs);
}

#[test]
fn coordinate_fields_decode_in_either_order() {
    let c = Coordinates::from_json("{\"y\": 2, \"x\": -1}").unwrap();
    assert_eq!(c, Coordinates { x: -1, y: 2 });
}

#[test]
fn coordinate_decoding_rejects_bad_shapes() {
    assert!(Coordinates::from_json("{\"x\": 1}").is_none());
    assert!(Coordinates::from_json("{\"x\": 1, \"z\": 2}").is_none());
    assert!(Coordinates::from_json("{\"x\": 1, \"y\": 2} trailing").is_none());
    assert!(Coordinates::from_json("{\"x\": 2147483648, \"y\": 0}").is_none());
    assert!(Coordinates::from_json("{\"x\": 012, \"y\": 0}").is_none());
    assert!(Coordinates::from_json("{}").is_none());
}

#[test]
fn coordinate_bounds_round_trip() {
    let a = Coordinates {
        x: i32::MAX,
        y: i32::MIN,
    };
    assert_eq!(a.to_json(), "{\"x\":2147483647,\"y\":-2147483648}");
    assert_eq!(Coordinates::from_json(&a.to_json()).unwrap(), a);
}
