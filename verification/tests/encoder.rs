use mustache::encoder::{signed_to_string, unsigned_to_string};
use mustache::{render_str, Data, DataMap, Encoder, MapBuilder, VecBuilder};

#[test]
fn decimal_forms() {
    assert_eq!(unsigned_to_string(0), "0");
    assert_eq!(unsigned_to_string(7), "7");
    assert_eq!(unsigned_to_string(41), "41");
    assert_eq!(unsigned_to_string(1813), "1813");
    assert_eq!(unsigned_to_string(u64::MAX), "18446744073709551615");
    assert_eq!(signed_to_string(0), "0");
    assert_eq!(signed_to_string(-1), "-1");
    assert_eq!(signed_to_string(-120), "-120");
    assert_eq!(signed_to_string(i64::MAX), "9223372036854775807");
    assert_eq!(signed_to_string(i64::MIN), "-9223372036854775808");
}

#[test]
fn encodes_scalars() {
    let mut e = Encoder::new();
    e.emit_u8(200).unwrap();
    assert!(e.finish().unwrap() == Data::Str("200".to_string()));
    let mut e = Encoder::new();
    e.emit_i16(-300).unwrap();
    assert!(e.finish().unwrap() == Data::Str("-300".to_string()));
    let mut e = Encoder::new();
    e.emit_usize(12).unwrap();
    assert!(e.finish().unwrap() == Data::Str("12".to_string()));
    let mut e = Encoder::new();
    e.emit_isize(-12).unwrap();
    assert!(e.finish().unwrap() == Data::Str("-12".to_string()));
    let mut e = Encoder::new();
    e.emit_u16(12).unwrap();
    e.emit_u32(13).unwrap();
    e.emit_i8(-1).unwrap();
    e.emit_i32(5).unwrap();
    assert!(e.finish().is_err());
    let mut e = Encoder::new();
    e.emit_char('x').unwrap();
    assert!(e.finish().unwrap() == Data::Str("x".to_string()));
    let mut e = Encoder::new();
    e.emit_bool(false).unwrap();
    assert!(e.finish().unwrap() == Data::Bool(false));
    let mut e = Encoder::new();
    e.emit_str("abc").unwrap();
    assert!(e.finish().unwrap() == Data::Str("abc".to_string()));
}

#[test]
fn encodes_a_struct() {
    // struct { name: "world", ages: (1, 2) }
    let mut e = Encoder::new();
    e.emit_struct().unwrap();
    let m = e.emit_struct_field_begin().unwrap();
    e.emit_str("world").unwrap();
    e.emit_struct_field_end(m, "name").unwrap();
    let m = e.emit_struct_field_begin().unwrap();
    e.emit_tuple().unwrap();
    let v = e.emit_tuple_arg_begin().unwrap();
    e.emit_u64(1).unwrap();
    e.emit_tuple_arg_end(v).unwrap();
    let v = e.emit_tuple_arg_begin().unwrap();
    e.emit_u64(2).unwrap();
    e.emit_tuple_arg_end(v).unwrap();
    e.emit_struct_field_end(m, "ages").unwrap();
    let data = e.finish().unwrap();

    let expected = MapBuilder::new()
        .insert_str("name", "world")
        .insert_vec("ages", |b| b.push_str("1").push_str("2"))
        .build();
    assert!(data == expected);
    assert_eq!(render_str("{{name}}:{{#ages}}{{.}},{{/ages}}", &data).unwrap(), "world:1,2,");
}

#[test]
fn encodes_a_map_and_a_sequence() {
    let mut e = Encoder::new();
    e.emit_map().unwrap();
    e.emit_str("k").unwrap();
    e.emit_map_elt_key_end().unwrap();
    let (k, m) = e.emit_map_elt_val_begin().unwrap();
    e.emit_seq().unwrap();
    let v = e.emit_seq_elt_begin().unwrap();
    e.emit_bool(true).unwrap();
    e.emit_seq_elt_end(v).unwrap();
    e.emit_map_elt_val_end(k, m).unwrap();
    let data = e.finish().unwrap();

    let mut expected = DataMap::new();
    expected.insert("k".to_string(), VecBuilder::new().push_bool(true).build());
    assert!(data == Data::Dict(expected));

    let mut e = Encoder::new();
    e.emit_tuple_struct().unwrap();
    let v = e.emit_tuple_struct_arg_begin().unwrap();
    e.emit_str("a").unwrap();
    e.emit_tuple_struct_arg_end(v).unwrap();
    assert!(e.finish().unwrap() == VecBuilder::new().push_str("a").build());
}
