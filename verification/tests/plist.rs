use bplist::de::{date_signed, date_unsigned, int_from_bytes, u64_from_bytes, uint_from_bytes, CORE_DATA_EPOCH};
use bplist::ser::{bytes_needed, write_varint};
use bplist::{
    AnyValue, Deserializer, Integer, InvalidPropertyList, MapSerializer, RealBits, SeqSerializer,
    Serializer, Text, Trailer, UnsignedValue,
};

/// Walks the whole object tree as a self-describing reader (one that accepts any
/// value) would, failing on the first error.
fn walk(de: Deserializer<'_>, out: &mut Vec<String>) -> Result<(), InvalidPropertyList> {
    match de.deserialize_any()? {
        AnyValue::Option(de) => match de.deserialize_option()? {
            None => out.push("null".to_string()),
            Some(de) => walk(de, out)?,
        },
        AnyValue::Bool(de) => out.push(format!("{}", de.deserialize_bool()?)),
        AnyValue::Str(de) => out.push(de.deserialize_str()?.into_string()),
        AnyValue::Bytes(de) => out.push(format!("{:?}", de.deserialize_bytes()?)),
        AnyValue::U64(de) => out.push(format!("{:?}", de.deserialize_unsigned(u64::MAX as u128)?)),
        AnyValue::Unsigned(v) => out.push(format!("{:?}", v)),
        AnyValue::Real(RealBits::Single(b)) => out.push(format!("{}", f32::from_bits(b))),
        AnyValue::Real(RealBits::Double(b)) => out.push(format!("{}", f64::from_bits(b))),
        AnyValue::Array(de) => {
            let mut seq = de.deserialize_seq()?;
            out.push("[".to_string());
            while let Some(de) = seq.next_element()? {
                walk(de, out)?;
            }
            out.push("]".to_string());
        }
        AnyValue::Dict(de) => {
            let mut map = de.deserialize_map()?;
            out.push("{".to_string());
            while let Some(key) = map.next_key()? {
                out.push(key.deserialize_str()?.into_string());
                walk(map.next_value()?, out)?;
            }
            out.push("}".to_string());
        }
    }
    Ok(())
}

#[test]
fn real_data_works() {
    for data in [
        [
            98, 112, 108, 105, 115, 116, 48, 48, 212, 1, 2, 3, 4, 5, 6, 6, 7, 81, 51, 81, 49, 81,
            50, 81, 48, 16, 0, 34, 0, 0, 0, 0, 16, 1, 8, 17, 19, 21, 23, 25, 27, 32, 0, 0, 0, 0, 0,
            0, 1, 1, 0, 0, 0, 0, 0, 0, 0, 8, 0, 0, 0, 0, 0, 0, 0, 0, 0, 0, 0, 0, 0, 0, 0, 34,
        ]
        .as_slice(),
        [
            98, 112, 108, 105, 115, 116, 48, 48, 210, 1, 2, 3, 4, 81, 49, 81, 50, 16, 3, 162, 5,
            10, 210, 6, 7, 8, 9, 83, 50, 46, 49, 83, 50, 46, 50, 35, 64, 84, 91, 157, 0, 0, 0, 0,
            35, 64, 176, 115, 0, 0, 0, 0, 0, 210, 6, 7, 11, 12, 35, 63, 227, 53, 160, 0, 0, 0, 0,
            35, 64, 86, 192, 0, 0, 0, 0, 0, 8, 13, 15, 17, 19, 22, 27, 31, 35, 44, 53, 58, 67, 0,
            0, 0, 0, 0, 0, 1, 1, 0, 0, 0, 0, 0, 0, 0, 13, 0, 0, 0, 0, 0, 0, 0, 0, 0, 0, 0, 0, 0, 0,
            0, 76,
        ]
        .as_slice(),
        [
            98, 112, 108, 105, 115, 116, 48, 48, 16, 0, 8, 0, 0, 0, 0, 0, 0, 1, 1, 0, 0, 0, 0, 0,
            0, 0, 1, 0, 0, 0, 0, 0, 0, 0, 0, 0, 0, 0, 0, 0, 0, 0, 10,
        ]
        .as_slice(),
    ] {
        let de = Deserializer::from_slice(&data, u32::MAX).unwrap();
        let mut out = Vec::new();
        walk(de, &mut out).unwrap();
        println!("{:?}", out);
    }
}

#[derive(Debug, PartialEq, Eq, Clone)]
struct Empty;

#[derive(Debug, PartialEq, Eq, Clone)]
struct Object {
    value_u8: u8,
    value_u16: u16,
    value_u32: u32,
    value_u64: u64,
    value_u128: u128,
    string: String,
    option: Option<u8>,
    unit: (),
    empty: Empty,
    tuple: (i8, i16, i32, i64, i128),
    children: Vec<Object>,
}

/// Writes the key `name` of a field and records that its value comes next.
fn field(ser: &mut Serializer, map: &mut MapSerializer, name: &str) {
    map.record_key(ser);
    ser.serialize_str(name);
    map.record_value(ser);
}

/// Writes `o` as a dictionary of its fields, as a derived `Serialize` drives the writer.
fn write_object(ser: &mut Serializer, o: &Object) {
    let mut map = MapSerializer::new(ser, Some(11));
    field(ser, &mut map, "value_u8");
    ser.serialize_unsigned(o.value_u8 as u128, 0);
    field(ser, &mut map, "value_u16");
    ser.serialize_unsigned(o.value_u16 as u128, 1);
    field(ser, &mut map, "value_u32");
    ser.serialize_unsigned(o.value_u32 as u128, 2);
    field(ser, &mut map, "value_u64");
    ser.serialize_unsigned(o.value_u64 as u128, 3);
    field(ser, &mut map, "value_u128");
    ser.serialize_unsigned(o.value_u128, 4);
    field(ser, &mut map, "string");
    ser.serialize_str(&o.string);
    field(ser, &mut map, "option");
    match o.option {
        Some(v) => ser.serialize_unsigned(v as u128, 0),
        None => ser.serialize_unit(),
    }
    field(ser, &mut map, "unit");
    ser.serialize_unit();
    field(ser, &mut map, "empty");
    ser.serialize_unit();
    field(ser, &mut map, "tuple");
    let mut t = SeqSerializer::new(ser, Some(5));
    t.record_element(ser);
    ser.serialize_signed(o.tuple.0 as i128, 0);
    t.record_element(ser);
    ser.serialize_signed(o.tuple.1 as i128, 1);
    t.record_element(ser);
    ser.serialize_signed(o.tuple.2 as i128, 2);
    t.record_element(ser);
    ser.serialize_signed(o.tuple.3 as i128, 3);
    t.record_element(ser);
    ser.serialize_signed(o.tuple.4, 4);
    assert!(t.can_end(ser));
    t.end(ser);
    field(ser, &mut map, "children");
    let mut c = SeqSerializer::new(ser, Some(o.children.len()));
    for child in &o.children {
        c.record_element(ser);
        write_object(ser, child);
    }
    assert!(c.can_end(ser));
    c.end(ser);
    assert!(map.can_end(ser));
    map.end(ser);
}

fn read_unsigned(de: Deserializer<'_>, max: u128) -> u128 {
    match de.deserialize_unsigned(max).unwrap() {
        Integer::Value(v) => v,
        Integer::Date(_) => panic!("unexpected date"),
    }
}

fn read_signed(de: Deserializer<'_>, min: i128, max: i128) -> i128 {
    match de.deserialize_signed(min, max).unwrap() {
        Integer::Value(v) => v,
        Integer::Date(_) => panic!("unexpected date"),
    }
}

/// Reads `o` back, field by field, as a derived `Deserialize` drives the reader.
fn read_object(de: Deserializer<'_>) -> Object {
    let mut map = de.deserialize_map().unwrap();
    let mut o = Object {
        value_u8: 0,
        value_u16: 0,
        value_u32: 0,
        value_u64: 0,
        value_u128: 0,
        string: String::new(),
        option: None,
        unit: (),
        empty: Empty,
        tuple: (0, 0, 0, 0, 0),
        children: Vec::new(),
    };
    let mut seen = Vec::new();
    while let Some(key) = map.next_key().unwrap() {
        let key = key.deserialize_str().unwrap().into_string();
        seen.push(key.clone());
        let value = map.next_value().unwrap();
        match key.as_str() {
            "value_u8" => o.value_u8 = read_unsigned(value, u8::MAX as u128) as u8,
            "value_u16" => o.value_u16 = read_unsigned(value, u16::MAX as u128) as u16,
            "value_u32" => o.value_u32 = read_unsigned(value, u32::MAX as u128) as u32,
            "value_u64" => o.value_u64 = read_unsigned(value, u64::MAX as u128) as u64,
            "value_u128" => o.value_u128 = read_unsigned(value, u128::MAX),
            "string" => o.string = value.deserialize_str().unwrap().into_string(),
            "option" => {
                o.option = value
                    .deserialize_option()
                    .unwrap()
                    .map(|de| read_unsigned(de, u8::MAX as u128) as u8)
            }
            "unit" => o.unit = value.deserialize_unit().unwrap(),
            "empty" => {
                value.deserialize_unit().unwrap();
                o.empty = Empty;
            }
            "tuple" => {
                let mut seq = value.deserialize_seq().unwrap();
                let e0 = seq.next_element().unwrap().unwrap();
                let e1 = seq.next_element().unwrap().unwrap();
                let e2 = seq.next_element().unwrap().unwrap();
                let e3 = seq.next_element().unwrap().unwrap();
                let e4 = seq.next_element().unwrap().unwrap();
                assert!(seq.next_element().unwrap().is_none());
                o.tuple = (
                    read_signed(e0, i8::MIN as i128, i8::MAX as i128) as i8,
                    read_signed(e1, i16::MIN as i128, i16::MAX as i128) as i16,
                    read_signed(e2, i32::MIN as i128, i32::MAX as i128) as i32,
                    read_signed(e3, i64::MIN as i128, i64::MAX as i128) as i64,
                    read_signed(e4, i128::MIN, i128::MAX),
                );
            }
            "children" => {
                let mut seq = value.deserialize_seq().unwrap();
                while let Some(de) = seq.next_element().unwrap() {
                    o.children.push(read_object(de));
                }
            }
            other => panic!("unknown field {other}"),
        }
    }
    assert_eq!(
        seen,
        [
            "value_u8", "value_u16", "value_u32", "value_u64", "value_u128", "string", "option",
            "unit", "empty", "tuple", "children",
        ]
    );
    o
}

#[test]
fn serializer_works() {
    let leaf = Object {
        value_u8: 255,
        value_u16: 0x1234,
        value_u32: 0xdead_beef,
        value_u64: u64::MAX,
        value_u128: u128::MAX - 7,
        string: "héllo, wörld — a string longer than fifteen bytes".to_string(),
        option: Some(9),
        unit: (),
        empty: Empty,
        tuple: (-128, -2, i32::MIN, i64::MAX, -1),
        children: Vec::new(),
    };
    let expected = Object {
        value_u8: 0,
        value_u16: 1,
        value_u32: 2,
        value_u64: 3,
        value_u128: 4,
        string: String::new(),
        option: None,
        unit: (),
        empty: Empty,
        tuple: (1, -1, 7, -7, 1 << 100),
        children: vec![leaf.clone(), leaf],
    };
    for ref_size in [2u8, 4, 8] {
        let mut ser = Serializer::with_object_ref_size(ref_size);
        write_object(&mut ser, &expected);
        let output = ser.finish();
        let de = Deserializer::from_slice(&output, u32::MAX).unwrap();
        let actual = read_object(de);
        assert_eq!(expected, actual);
    }
}

#[test]
fn trailer_write_then_parse() {
    let t = Trailer {
        num_objects: 0x0102_0304_0506_0708,
        top_object: 5,
        offset_table_offset: 0xffee,
        offset_int_size: 2,
        object_ref_size: 4,
    };
    let mut out = vec![7u8];
    t.write(&mut out);
    assert_eq!(out.len(), 1 + Trailer::LEN);
    assert_eq!(
        out,
        vec![
            7, 0, 0, 0, 0, 0, 0, 2, 4, 1, 2, 3, 4, 5, 6, 7, 8, 0, 0, 0, 0, 0, 0, 0, 5, 0, 0, 0, 0,
            0, 0, 0xff, 0xee
        ]
    );
    let b: [u8; 32] = out[1..].try_into().unwrap();
    assert_eq!(Trailer::parse(&b).unwrap(), t);
}

#[test]
fn trailer_parse_rejects_invalid() {
    let good = Trailer {
        num_objects: 3,
        top_object: 2,
        offset_table_offset: 8,
        offset_int_size: 1,
        object_ref_size: 8,
    };
    let bytes = |t: Trailer| -> [u8; 32] {
        let mut out = Vec::new();
        t.write(&mut out);
        out.try_into().unwrap()
    };
    assert!(Trailer::parse(&bytes(good)).is_ok());
    assert_eq!(Trailer::parse(&bytes(Trailer { offset_int_size: 3, ..good })), Err(InvalidPropertyList));
    assert_eq!(Trailer::parse(&bytes(Trailer { object_ref_size: 16, ..good })), Err(InvalidPropertyList));
    assert_eq!(Trailer::parse(&bytes(Trailer { top_object: 3, ..good })), Err(InvalidPropertyList));
    assert_eq!(
        Trailer::parse(&bytes(Trailer { num_objects: 0, top_object: 0, ..good })),
        Err(InvalidPropertyList)
    );
}

#[test]
fn offsets_and_references_read_big_endian() {
    assert_eq!(u64_from_bytes(&[0x7f]), Ok(0x7f));
    assert_eq!(u64_from_bytes(&[0x01, 0x02]), Ok(0x0102));
    assert_eq!(u64_from_bytes(&[0x01, 0x02, 0x03, 0x04]), Ok(0x0102_0304));
    assert_eq!(u64_from_bytes(&[0xff; 8]), Ok(u64::MAX));
    assert_eq!(u64_from_bytes(&[1, 2, 3]), Err(InvalidPropertyList));
    assert_eq!(u64_from_bytes(&[]), Err(InvalidPropertyList));
    assert_eq!(u64_from_bytes(&[0; 16]), Err(InvalidPropertyList));
}

#[test]
fn integers_read_within_the_target_range() {
    assert_eq!(uint_from_bytes(&[0x01, 0x00], u8::MAX as u128), Err(InvalidPropertyList));
    assert_eq!(uint_from_bytes(&[0x00, 0xff], u8::MAX as u128), Ok(255));
    assert_eq!(uint_from_bytes(&[0xff; 16], u128::MAX), Ok(u128::MAX));
    assert_eq!(uint_from_bytes(&[1, 2, 3], u128::MAX), Err(InvalidPropertyList));
    assert_eq!(int_from_bytes(&[0xff], i8::MIN as i128, i8::MAX as i128), Ok(-1));
    assert_eq!(int_from_bytes(&[0x80, 0x00], i16::MIN as i128, i16::MAX as i128), Ok(-32768));
    assert_eq!(int_from_bytes(&[0x80, 0x00], i8::MIN as i128, i8::MAX as i128), Err(InvalidPropertyList));
    assert_eq!(int_from_bytes(&[0x00, 0x7f], i8::MIN as i128, i8::MAX as i128), Ok(127));
    let mut min = [0u8; 16];
    min[0] = 0x80;
    assert_eq!(int_from_bytes(&min, i128::MIN, i128::MAX), Ok(i128::MIN));
    assert_eq!(int_from_bytes(&[0xff, 0xff, 0xff, 0xfe], i64::MIN as i128, 0), Ok(-2));
}

#[test]
fn offset_sizes_are_the_smallest_that_fit() {
    assert_eq!(bytes_needed(0), 1);
    assert_eq!(bytes_needed(255), 1);
    assert_eq!(bytes_needed(256), 2);
    assert_eq!(bytes_needed(65535), 2);
    assert_eq!(bytes_needed(65536), 4);
    assert_eq!(bytes_needed(u32::MAX as usize), 4);
    assert_eq!(bytes_needed(u32::MAX as usize + 1), 8);
    let mut out = Vec::new();
    write_varint(0x0102, 2, &mut out);
    write_varint(0x0a, 4, &mut out);
    write_varint(0xff, 1, &mut out);
    assert_eq!(out, vec![1, 2, 0, 0, 0, 0x0a, 0xff]);
}

fn single(write: impl FnOnce(&mut Serializer)) -> Vec<u8> {
    let mut ser = Serializer::new();
    write(&mut ser);
    ser.finish()
}

#[test]
fn empty_serializer_has_no_top_object() {
    let out = Serializer::new().finish();
    assert_eq!(&out[..8], b"bplist00");
    assert_eq!(out.len(), 8 + 32);
    assert!(Deserializer::from_slice(&out, 1).is_err());
}

#[test]
fn booleans_and_null_round_trip() {
    let out = single(|s| s.serialize_bool(true));
    assert_eq!(&out[8..9], &[0x09]);
    assert_eq!(Deserializer::from_slice(&out, 0).unwrap().deserialize_bool(), Ok(true));
    let out = single(|s| s.serialize_bool(false));
    assert_eq!(Deserializer::from_slice(&out, 0).unwrap().deserialize_bool(), Ok(false));
    let out = single(|s| s.serialize_unit());
    assert_eq!(Deserializer::from_slice(&out, 0).unwrap().deserialize_unit(), Ok(()));
    assert!(Deserializer::from_slice(&out, 0).unwrap().deserialize_option().unwrap().is_none());
    assert!(Deserializer::from_slice(&out, 0).unwrap().deserialize_bool().is_err());
}

#[test]
fn integers_round_trip() {
    let out = single(|s| s.serialize_unsigned(0x1234, 1));
    assert_eq!(&out[8..11], &[0x11, 0x12, 0x34]);
    let de = Deserializer::from_slice(&out, 0).unwrap();
    assert_eq!(de.deserialize_unsigned(u16::MAX as u128), Ok(Integer::Value(0x1234)));
    let de = Deserializer::from_slice(&out, 0).unwrap();
    assert_eq!(de.deserialize_unsigned(u8::MAX as u128), Err(InvalidPropertyList));
    let out = single(|s| s.serialize_signed(-2, 2));
    assert_eq!(&out[8..13], &[0x12, 0xff, 0xff, 0xff, 0xfe]);
    let de = Deserializer::from_slice(&out, 0).unwrap();
    assert_eq!(de.deserialize_signed(i32::MIN as i128, i32::MAX as i128), Ok(Integer::Value(-2)));
    let out = single(|s| s.serialize_signed(i128::MIN, 4));
    let de = Deserializer::from_slice(&out, 0).unwrap();
    assert_eq!(de.deserialize_signed(i128::MIN, i128::MAX), Ok(Integer::Value(i128::MIN)));
}

#[test]
fn reals_round_trip_as_bits() {
    let out = single(|s| s.serialize_real(1.5f64.to_bits(), 3));
    assert_eq!(out[8], 0x23);
    let de = Deserializer::from_slice(&out, 0).unwrap();
    assert_eq!(de.deserialize_real(), Ok(RealBits::Double(1.5f64.to_bits())));
    let out = single(|s| s.serialize_real((-0.25f32).to_bits() as u64, 2));
    let de = Deserializer::from_slice(&out, 0).unwrap();
    assert_eq!(de.deserialize_real(), Ok(RealBits::Single((-0.25f32).to_bits())));
}

#[test]
fn strings_and_bytes_round_trip_with_long_counts() {
    let long = "x".repeat(300);
    let out = single(|s| s.serialize_str(&long));
    assert_eq!(&out[8..12], &[0x7f, 0x11, 0x01, 0x2c]);
    let de = Deserializer::from_slice(&out, 0).unwrap();
    assert_eq!(de.deserialize_str().unwrap().as_str(), long.as_str());
    let short = "héllo";
    let out = single(|s| s.serialize_str(short));
    assert_eq!(out[8], 0x76);
    let de = Deserializer::from_slice(&out, 0).unwrap();
    assert_eq!(de.deserialize_str().unwrap().as_str(), short);
    let data: Vec<u8> = (0..20).collect();
    let out = single(|s| s.serialize_bytes(&data));
    assert_eq!(&out[8..11], &[0x4f, 0x10, 20]);
    let de = Deserializer::from_slice(&out, 0).unwrap();
    assert_eq!(de.deserialize_bytes().unwrap(), data.as_slice());
}

/// A property list whose objects start at byte 8 and whose top object is 0.
fn plist(objects: &[&[u8]]) -> Vec<u8> {
    let mut out = b"bplist00".to_vec();
    let mut offsets = Vec::new();
    for o in objects {
        offsets.push(out.len() as u8);
        out.extend_from_slice(o);
    }
    let table = out.len() as u64;
    out.extend_from_slice(&offsets);
    Trailer {
        num_objects: objects.len() as u64,
        top_object: 0,
        offset_table_offset: table,
        offset_int_size: 1,
        object_ref_size: 1,
    }
    .write(&mut out);
    out
}

#[test]
fn utf16_strings_and_urls() {
    // "hé" in UTF-16, big-endian.
    let out = plist(&[&[0x62, 0x00, 0x68, 0x00, 0xe9]]);
    let de = Deserializer::from_slice(&out, 0).unwrap();
    assert_eq!(de.deserialize_str().unwrap().as_str(), "hé");
    // An unpaired surrogate.
    let out = plist(&[&[0x61, 0xd8, 0x00]]);
    assert!(Deserializer::from_slice(&out, 0).unwrap().deserialize_str().is_err());
    // A base and a path: a slash goes between them.
    let out = plist(&[&[0x0c, 0x58, b'h', b't', b't', b'p', b':', b'/', b'/', b'a', 0x51, b'b']]);
    assert_eq!(Deserializer::from_slice(&out, 0).unwrap().deserialize_str().unwrap().as_str(), "http://a/b");
    // No second slash where the base ends with one.
    let out = plist(&[&[0x0c, 0x52, b'x', b'/', 0x51, b'y']]);
    assert_eq!(Deserializer::from_slice(&out, 0).unwrap().deserialize_str().unwrap().as_str(), "x/y");
    // A whole URL.
    let out = plist(&[&[0x0d, 0x53, b'a', b'/', b'b']]);
    assert_eq!(Deserializer::from_slice(&out, 0).unwrap().deserialize_str().unwrap().as_str(), "a/b");
    // Invalid UTF-8.
    let out = plist(&[&[0x71, 0xff]]);
    assert!(Deserializer::from_slice(&out, 0).unwrap().deserialize_str().is_err());
}

#[test]
fn characters_dates_and_uids() {
    let out = plist(&[&[0x10, 0x41]]);
    assert_eq!(Deserializer::from_slice(&out, 0).unwrap().deserialize_char(), Ok('A'));
    let out = plist(&[&[0x11, 0xd8, 0x00]]);
    assert!(Deserializer::from_slice(&out, 0).unwrap().deserialize_char().is_err());
    let out = plist(&[&[0x80, 0x07]]);
    assert_eq!(
        Deserializer::from_slice(&out, 0).unwrap().deserialize_unsigned(u8::MAX as u128),
        Ok(Integer::Value(7))
    );
    let bits = 2.0f64.to_bits();
    let mut date = vec![0x33];
    date.extend_from_slice(&bits.to_be_bytes());
    let out = plist(&[&date]);
    assert_eq!(
        Deserializer::from_slice(&out, 0).unwrap().deserialize_unsigned(u64::MAX as u128),
        Ok(Integer::Date(bits))
    );
    assert_eq!(date_unsigned(5, u64::MAX as u128), Ok((CORE_DATA_EPOCH + 5) as u128));
    assert_eq!(date_unsigned(u64::MAX, u128::MAX), Err(InvalidPropertyList));
    assert_eq!(date_unsigned(0, 1000), Err(InvalidPropertyList));
    assert_eq!(date_signed(1, 0, i64::MAX as i128), Ok(CORE_DATA_EPOCH as i128 + 1));
    assert_eq!(date_signed(1, 0, i32::MAX as i128), Ok(CORE_DATA_EPOCH as i128 + 1));
    assert_eq!(date_signed(0, 0, i16::MAX as i128), Err(InvalidPropertyList));
}

#[test]
fn containers_and_nesting_levels() {
    // An array of two references to a dictionary {"k": true}.
    let out = plist(&[&[0xa2, 1, 1], &[0xd1, 2, 3], &[0x51, b'k'], &[0x09]]);
    let de = Deserializer::from_slice(&out, 2).unwrap();
    let mut seq = de.deserialize_seq().unwrap();
    for _ in 0..2 {
        let mut map = seq.next_element().unwrap().unwrap().deserialize_map().unwrap();
        let key = map.next_key().unwrap().unwrap();
        assert_eq!(key.deserialize_str().unwrap().as_str(), "k");
        assert_eq!(map.next_value().unwrap().deserialize_bool(), Ok(true));
        assert!(map.next_key().unwrap().is_none());
        assert!(map.next_value().is_err());
    }
    assert!(seq.next_element().unwrap().is_none());
    // One level only: the dictionary's key cannot be entered.
    let de = Deserializer::from_slice(&out, 1).unwrap();
    let mut seq = de.deserialize_seq().unwrap();
    let mut map = seq.next_element().unwrap().unwrap().deserialize_map().unwrap();
    assert!(map.next_key().is_err());
    // A reference to an object that does not exist.
    let out = plist(&[&[0xa1, 5]]);
    let mut seq = Deserializer::from_slice(&out, 3).unwrap().deserialize_seq().unwrap();
    assert!(seq.next_element().is_err());
}

#[test]
fn fill_bytes_are_skipped() {
    let out = plist(&[&[0x0f, 0x0f, 0x09]]);
    assert_eq!(Deserializer::from_slice(&out, 0).unwrap().deserialize_bool(), Ok(true));
}

#[test]
fn any_value_reads_integers_from_the_marker() {
    // The integer is read starting at its marker byte.
    let out = plist(&[&[0x10, 0x05]]);
    match Deserializer::from_slice(&out, 0).unwrap().deserialize_any().unwrap() {
        AnyValue::Unsigned(v) => assert_eq!(v, UnsignedValue::U8(0x10)),
        _ => panic!("expected an integer"),
    }
    let out = plist(&[&[0x22, 0x3f, 0x80, 0x00, 0x00]]);
    match Deserializer::from_slice(&out, 0).unwrap().deserialize_any().unwrap() {
        AnyValue::Real(RealBits::Single(b)) => assert_eq!(f32::from_bits(b), 1.0),
        _ => panic!("expected a real"),
    }
    let out = plist(&[&[0xf0]]);
    assert!(Deserializer::from_slice(&out, 0).unwrap().deserialize_any().is_err());
}

#[test]
fn malformed_inputs_are_refused() {
    let good = plist(&[&[0x09]]);
    assert!(Deserializer::from_slice(&good, 0).is_ok());
    let mut bad_magic = good.clone();
    bad_magic[0] = b'x';
    assert!(Deserializer::from_slice(&bad_magic, 0).is_err());
    assert!(Deserializer::from_slice(&good[..20], 0).is_err());
    assert!(Deserializer::from_slice(b"bplist", 0).is_err());
    // The offset table lies beyond the data.
    let mut far = good.clone();
    let n = far.len();
    far[n - 1] = 200;
    assert!(Deserializer::from_slice(&far, 0).is_err());
    // The object's offset lies past the offset table.
    let mut past = good.clone();
    past[9] = 100;
    assert!(Deserializer::from_slice(&past, 0).is_err());
    // An object with nothing in it.
    let out = plist(&[&[]]);
    assert!(Deserializer::from_slice(&out, 0).unwrap().deserialize_bool().is_err());
    assert!(Deserializer::from_slice(&out, 0).unwrap().deserialize_option().is_err());
}

#[test]
fn references_round_trip() {
    for (value, size) in [(0usize, 1u8), (255, 1), (256, 2), (65535, 2), (70000, 4), (1 << 40, 8)] {
        let mut out = Vec::new();
        write_varint(value, size, &mut out);
        assert_eq!(out.len(), size as usize);
        assert_eq!(u64_from_bytes(&out), Ok(value as u64));
        assert_eq!(bytes_needed(value) <= size, true);
    }
}

/// Reads the array of two dictionaries {"k": true} at `max_recursion` levels, or the
/// first error.
fn read_nested(out: &[u8], max_recursion: u32) -> Result<Vec<(String, bool)>, InvalidPropertyList> {
    let mut seq = Deserializer::from_slice(out, max_recursion)?.deserialize_seq()?;
    let mut got = Vec::new();
    while let Some(de) = seq.next_element()? {
        let mut map = de.deserialize_map()?;
        while let Some(key) = map.next_key()? {
            let key = key.deserialize_str()?.into_string();
            got.push((key, map.next_value()?.deserialize_bool()?));
        }
    }
    Ok(got)
}

#[test]
fn more_nesting_levels_read_the_same() {
    let out = plist(&[&[0xa2, 1, 1], &[0xd1, 2, 3], &[0x51, b'k'], &[0x09]]);
    let expected = vec![("k".to_string(), true), ("k".to_string(), true)];
    assert_eq!(read_nested(&out, 1), Err(InvalidPropertyList));
    for levels in [2, 3, 100, u32::MAX] {
        assert_eq!(read_nested(&out, levels), Ok(expected.clone()));
    }
}

#[test]
fn new_writes_as_reference_size_eight() {
    let object = Object {
        value_u8: 1,
        value_u16: 2,
        value_u32: 3,
        value_u64: 4,
        value_u128: 5,
        string: "six".to_string(),
        option: Some(7),
        unit: (),
        empty: Empty,
        tuple: (8, 9, 10, 11, 12),
        children: Vec::new(),
    };
    let mut a = Serializer::new();
    write_object(&mut a, &object);
    let mut b = Serializer::with_object_ref_size(8);
    write_object(&mut b, &object);
    let (a, b) = (a.finish(), b.finish());
    assert_eq!(a, b);
    assert_eq!(a[a.len() - 25], 8);
}

#[test]
fn two_byte_references_read_back() {
    let leaf = Object {
        value_u8: 200,
        value_u16: 0xffff,
        value_u32: 0,
        value_u64: 1 << 40,
        value_u128: 1 << 100,
        string: "leaf".to_string(),
        option: None,
        unit: (),
        empty: Empty,
        tuple: (-1, -300, 70000, -(1 << 40), i128::MIN),
        children: Vec::new(),
    };
    let object = Object { children: vec![leaf.clone(); 40], ..leaf };
    let mut small = Serializer::with_object_ref_size(2);
    write_object(&mut small, &object);
    let small = small.finish();
    assert_eq!(small[small.len() - 25], 2);
    let mut large = Serializer::new();
    write_object(&mut large, &object);
    let large = large.finish();
    assert!(small.len() < large.len());
    assert_eq!(read_object(Deserializer::from_slice(&small, u32::MAX).unwrap()), object);
    assert_eq!(read_object(Deserializer::from_slice(&large, u32::MAX).unwrap()), object);
}

#[test]
fn strings_borrow_where_the_input_is_utf8() {
    let borrowed = |out: &[u8], expected: &str| match Deserializer::from_slice(out, 0)
        .unwrap()
        .deserialize_str()
        .unwrap()
    {
        Text::Borrowed(s) => assert_eq!(s, expected),
        Text::Owned(s) => panic!("owned {s:?}"),
    };
    let owned = |out: &[u8], expected: &str| match Deserializer::from_slice(out, 0)
        .unwrap()
        .deserialize_str()
        .unwrap()
    {
        Text::Owned(s) => assert_eq!(s, expected),
        Text::Borrowed(s) => panic!("borrowed {s:?}"),
    };
    borrowed(&plist(&[&[0x53, b'a', b'b', b'c']]), "abc");
    borrowed(&plist(&[&[0x72, 0xc3, 0xa9]]), "é");
    borrowed(&plist(&[&[0x42, b'h', b'i']]), "hi");
    borrowed(&plist(&[&[0x0d, 0x51, b'u']]), "u");
    // A surrogate pair: U+1F600.
    owned(&plist(&[&[0x63, 0xd8, 0x3d, 0xde, 0x00, 0x00, 0x21]]), "\u{1f600}!");
    owned(&plist(&[&[0x0c, 0x51, b'a', 0x51, b'b']]), "a/b");
    owned(&plist(&[&[0x0d, 0x61, 0x00, 0x75]]), "u");
}
