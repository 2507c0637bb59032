use ferrumc_nbt::{
    NbtDeserializationError, NbtTag, NbtTagType, RawNbt, RawNbtDeserializer,
    RawNbtMapDeserializer, RawNbtSeqDeserializer, RawNbtSerializer, Visit,
};
use std::collections::HashMap;

#[derive(Debug, PartialEq)]
struct Foo {
    a: i8,
    b: Vec<i32>,
    c: Bar,
}

#[derive(Debug, PartialEq)]
struct Bar {
    a: i8,
    b: Vec<i32>,
    c: HashMap<String, i32>,
}

type Read<T> = Result<T, NbtDeserializationError>;

fn missing(field: &str) -> NbtDeserializationError {
    NbtDeserializationError::custom(format!("missing field `{}`", field))
}

fn read_i32s(de: RawNbtDeserializer) -> Read<Vec<i32>> {
    let mut seq = de.deserialize_seq()?;
    let mut out = Vec::new();
    while let Some(element) = seq.next_element() {
        out.push(element.deserialize_i32()?);
    }
    Ok(out)
}

fn read_i8s(de: RawNbtDeserializer) -> Read<Vec<i8>> {
    let mut seq = de.deserialize_seq()?;
    let mut out = Vec::new();
    while let Some(element) = seq.next_element() {
        out.push(element.deserialize_i8()?);
    }
    Ok(out)
}

fn read_map(de: RawNbtDeserializer) -> Read<HashMap<String, i32>> {
    let mut map = de.deserialize_map()?;
    let mut out = HashMap::new();
    while let Some(key) = map.next_key() {
        out.insert(key, map.next_value().unwrap().deserialize_i32()?);
    }
    Ok(out)
}

fn read_bar(de: RawNbtDeserializer) -> Read<Bar> {
    let mut map = de.deserialize_struct("Bar", &["a", "b", "c"])?;
    let (mut a, mut b, mut c) = (None, None, None);
    while let Some(key) = map.next_key() {
        let value = map.next_value().unwrap();
        match key.as_str() {
            "a" => a = Some(value.deserialize_i8()?),
            "b" => b = Some(read_i32s(value)?),
            "c" => c = Some(read_map(value)?),
            _ => {
                value.deserialize_ignored_any()?;
            }
        }
    }
    Ok(Bar { a: a.ok_or(missing("a"))?, b: b.ok_or(missing("b"))?, c: c.ok_or(missing("c"))? })
}

fn read_foo(de: RawNbtDeserializer) -> Read<Foo> {
    let mut map = de.deserialize_struct("Foo", &["a", "b", "c"])?;
    let (mut a, mut b, mut c) = (None, None, None);
    while let Some(key) = map.next_key() {
        let value = map.next_value().unwrap();
        match key.as_str() {
            "a" => a = Some(value.deserialize_i8()?),
            "b" => b = Some(read_i32s(value)?),
            "c" => c = Some(read_bar(value)?),
            _ => {
                value.deserialize_ignored_any()?;
            }
        }
    }
    Ok(Foo { a: a.ok_or(missing("a"))?, b: b.ok_or(missing("b"))?, c: c.ok_or(missing("c"))? })
}

fn compound(entries: Vec<(&str, NbtTag)>) -> NbtTag {
    NbtTag::Compound { inner: entries.into_iter().map(|(k, v)| (k.to_string(), v)).collect() }
}

fn mismatch(expected: &str, found: &str) -> NbtDeserializationError {
    NbtDeserializationError::TypeMismatch(expected.to_string(), found.to_string())
}

fn rebuild(de: RawNbtDeserializer) -> NbtTag {
    match de.deserialize_any() {
        Ok(Visit::I8(v)) => NbtTag::Byte(v),
        Ok(Visit::I16(v)) => NbtTag::Short(v),
        Ok(Visit::I32(v)) => NbtTag::Int(v),
        Ok(Visit::I64(v)) => NbtTag::Long(v),
        Ok(Visit::F32(v)) => NbtTag::Float(v),
        Ok(Visit::F64(v)) => NbtTag::Double(v),
        Ok(Visit::ByteBuf(v)) => NbtTag::ByteArray(v),
        Ok(Visit::String(v)) => NbtTag::String(v),
        Ok(Visit::Elements(inner)) => NbtTag::List { nbt_type: NbtTagType::End, list: drain(inner) },
        Ok(Visit::Entries(inner)) => NbtTag::Compound { inner: drain_entries(inner) },
        Err(_) => NbtTag::End,
    }
}

fn drain(mut seq: RawNbtSeqDeserializer) -> Vec<NbtTag> {
    let mut out = Vec::new();
    while let Some(element) = seq.next_element() {
        out.push(rebuild(element));
    }
    out
}

fn drain_entries(mut map: RawNbtMapDeserializer) -> Vec<(String, NbtTag)> {
    let mut out = Vec::new();
    while let Some(key) = map.next_key() {
        out.push((key, rebuild(map.next_value().unwrap())));
    }
    out
}

#[test]
fn test_deserialize() {
    let tag = compound(vec![
        ("a", NbtTag::Byte(0)),
        ("b", NbtTag::IntArray(vec![5; 10])),
        (
            "c",
            compound(vec![
                ("a", NbtTag::Byte(0)),
                ("b", NbtTag::IntArray(vec![1; 10])),
                ("c", compound(vec![])),
            ]),
        ),
    ]);

    let test = Foo { a: 0, b: vec![5; 10], c: Bar { a: 0, b: vec![1; 10], c: HashMap::new() } };

    let a = read_foo(RawNbtDeserializer::new(tag));

    assert!(a.is_ok());

    let a = a.unwrap();

    assert_eq!(a, test)
}

#[test]
fn extra_fields_are_passed_over() {
    let tag = compound(vec![
        ("extra", compound(vec![("deep", NbtTag::LongArray(vec![1, 2]))])),
        ("a", NbtTag::Byte(4)),
        ("more", NbtTag::List { nbt_type: NbtTagType::Short, list: vec![NbtTag::Short(1)] }),
        ("b", NbtTag::IntArray(vec![])),
        ("c", compound(vec![("k", NbtTag::Int(9))])),
    ]);
    let bar = read_bar(RawNbtDeserializer::new(tag)).unwrap();
    assert_eq!(bar, Bar { a: 4, b: vec![], c: HashMap::from([("k".to_string(), 9)]) });
}

#[test]
fn numbers_are_matched_strictly() {
    assert_eq!(RawNbtDeserializer::new(NbtTag::Int(7)).deserialize_i32(), Ok(7));
    assert_eq!(RawNbtDeserializer::new(NbtTag::Long(7)).deserialize_i64(), Ok(7));
    assert_eq!(
        RawNbtDeserializer::new(NbtTag::Long(7)).deserialize_i32(),
        Err(mismatch("Int", "Long(7)"))
    );
    assert_eq!(
        RawNbtDeserializer::new(NbtTag::Int(7)).deserialize_i64(),
        Err(mismatch("Long", "Int(7)"))
    );
    assert_eq!(
        RawNbtDeserializer::new(NbtTag::Short(7)).deserialize_i8(),
        Err(mismatch("Byte", "Short(7)"))
    );
    assert_eq!(
        RawNbtDeserializer::new(NbtTag::Byte(7)).deserialize_i16(),
        Err(mismatch("Short", "Byte(7)"))
    );
    assert_eq!(RawNbtDeserializer::new(NbtTag::Byte(-7)).deserialize_i8(), Ok(-7));
    assert_eq!(RawNbtDeserializer::new(NbtTag::Short(-7)).deserialize_i16(), Ok(-7));
    assert_eq!(
        RawNbtDeserializer::new(NbtTag::Double(0)).deserialize_f32(),
        Err(mismatch("Float", "Double"))
    );
    assert_eq!(
        RawNbtDeserializer::new(NbtTag::Float(0)).deserialize_f64(),
        Err(mismatch("Double", "Float"))
    );
    assert_eq!(
        RawNbtDeserializer::new(NbtTag::Float(1.5f32.to_bits())).deserialize_f32().map(f32::from_bits),
        Ok(1.5)
    );
    assert_eq!(
        RawNbtDeserializer::new(NbtTag::Double(1.5f64.to_bits())).deserialize_f64().map(f64::from_bits),
        Ok(1.5)
    );
}

#[test]
fn unsigned_requests_get_the_bits() {
    assert_eq!(RawNbtDeserializer::new(NbtTag::Byte(-1)).deserialize_u8(), Ok(255));
    assert_eq!(RawNbtDeserializer::new(NbtTag::Byte(5)).deserialize_u8(), Ok(5));
    assert_eq!(RawNbtDeserializer::new(NbtTag::Short(-25536)).deserialize_u16(), Ok(40000));
    assert_eq!(RawNbtDeserializer::new(NbtTag::Int(-1)).deserialize_u32(), Ok(u32::MAX));
    assert_eq!(RawNbtDeserializer::new(NbtTag::Long(-1)).deserialize_u64(), Ok(u64::MAX));
    assert_eq!(RawNbtDeserializer::new(NbtTag::Long(i64::MIN)).deserialize_u64(), Ok(1 << 63));
    assert_eq!(
        RawNbtDeserializer::new(NbtTag::Int(1)).deserialize_u64(),
        Err(mismatch("Long", "Int(1)"))
    );
    assert_eq!(
        RawNbtDeserializer::new(NbtTag::Long(1)).deserialize_u8(),
        Err(mismatch("Byte", "Long(1)"))
    );
}

#[test]
fn booleans_are_true_above_zero() {
    assert_eq!(RawNbtDeserializer::new(NbtTag::Byte(5)).deserialize_bool(), Ok(true));
    assert_eq!(RawNbtDeserializer::new(NbtTag::Byte(1)).deserialize_bool(), Ok(true));
    assert_eq!(RawNbtDeserializer::new(NbtTag::Byte(127)).deserialize_bool(), Ok(true));
    assert_eq!(RawNbtDeserializer::new(NbtTag::Byte(0)).deserialize_bool(), Ok(false));
    assert_eq!(RawNbtDeserializer::new(NbtTag::Byte(-1)).deserialize_bool(), Ok(false));
    assert_eq!(RawNbtDeserializer::new(NbtTag::Byte(-128)).deserialize_bool(), Ok(false));
    assert_eq!(
        RawNbtDeserializer::new(NbtTag::Int(1)).deserialize_bool(),
        Err(mismatch("Byte", "Int(1)"))
    );
    let ser = RawNbtSerializer;
    assert_eq!(ser.serialize_bool(true), Ok(NbtTag::Byte(1)));
    assert_eq!(RawNbtDeserializer::new(ser.serialize_bool(true).unwrap()).deserialize_bool(), Ok(true));
    assert_eq!(
        RawNbtDeserializer::new(ser.serialize_bool(false).unwrap()).deserialize_bool(),
        Ok(false)
    );
}

#[test]
fn characters_come_from_bytes() {
    assert_eq!(RawNbtDeserializer::new(NbtTag::Byte(97)).deserialize_char(), Ok('a'));
    assert_eq!(RawNbtDeserializer::new(NbtTag::Byte(-23)).deserialize_char(), Ok('\u{e9}'));
    assert_eq!(
        RawNbtDeserializer::new(NbtTag::String("a".to_string())).deserialize_char(),
        Err(mismatch("Byte", "String"))
    );
}

#[test]
fn text_and_bytes_are_requested() {
    let text = || NbtTag::String("hello".to_string());
    assert_eq!(RawNbtDeserializer::new(text()).deserialize_str(), Ok("hello".to_string()));
    assert_eq!(RawNbtDeserializer::new(text()).deserialize_string(), Ok("hello".to_string()));
    assert_eq!(RawNbtDeserializer::new(text()).deserialize_identifier(), Ok("hello".to_string()));
    assert_eq!(
        RawNbtDeserializer::new(NbtTag::Byte(1)).deserialize_string(),
        Err(mismatch("String", "Byte(1)"))
    );
    assert_eq!(RawNbtDeserializer::new(NbtTag::ByteArray(vec![1, 2])).deserialize_bytes(), Ok(vec![1, 2]));
    assert_eq!(
        RawNbtDeserializer::new(NbtTag::ByteArray(vec![1, 2])).deserialize_byte_buf(),
        Ok(vec![1, 2])
    );
    assert_eq!(
        RawNbtDeserializer::new(text()).deserialize_bytes(),
        Err(mismatch("ByteArray", "String"))
    );
    assert_eq!(
        RawNbtDeserializer::new(NbtTag::IntArray(vec![])).deserialize_byte_buf(),
        Err(mismatch("ByteArray", "IntArray"))
    );
}

#[test]
fn byte_array_and_list_of_bytes_answer_alike() {
    let array = NbtTag::ByteArray(vec![1, 200, 255]);
    let list = NbtTag::List {
        nbt_type: NbtTagType::Byte,
        list: vec![NbtTag::Byte(1), NbtTag::Byte(-56), NbtTag::Byte(-1)],
    };
    assert_eq!(read_i8s(RawNbtDeserializer::new(array)), Ok(vec![1, -56, -1]));
    assert_eq!(read_i8s(RawNbtDeserializer::new(list)), Ok(vec![1, -56, -1]));
}

#[test]
fn int_and_long_arrays_answer_as_sequences() {
    assert_eq!(read_i32s(RawNbtDeserializer::new(NbtTag::IntArray(vec![3, -4, 5]))), Ok(vec![3, -4, 5]));
    let list = NbtTag::List {
        nbt_type: NbtTagType::Int,
        list: vec![NbtTag::Int(3), NbtTag::Int(-4), NbtTag::Int(5)],
    };
    assert_eq!(read_i32s(RawNbtDeserializer::new(list)), Ok(vec![3, -4, 5]));
    let seq = RawNbtDeserializer::new(NbtTag::LongArray(vec![7, -8])).deserialize_seq().unwrap();
    assert_eq!(drain(seq), vec![NbtTag::Long(7), NbtTag::Long(-8)]);
    assert_eq!(
        read_i32s(RawNbtDeserializer::new(NbtTag::LongArray(vec![7]))),
        Err(mismatch("Int", "Long(7)"))
    );
}

#[test]
fn elements_come_out_in_order_and_then_none() {
    let list = NbtTag::List {
        nbt_type: NbtTagType::String,
        list: vec![
            NbtTag::String("a".to_string()),
            NbtTag::String("b".to_string()),
            NbtTag::String("c".to_string()),
        ],
    };
    let mut seq = RawNbtDeserializer::new(list).deserialize_seq().unwrap();
    assert_eq!(seq.next_element().unwrap().deserialize_string(), Ok("a".to_string()));
    assert_eq!(seq.next_element().unwrap().deserialize_string(), Ok("b".to_string()));
    assert_eq!(seq.next_element().unwrap().deserialize_string(), Ok("c".to_string()));
    assert!(seq.next_element().is_none());
    assert!(seq.next_element().is_none());
}

#[test]
fn only_lists_and_arrays_answer_a_sequence() {
    assert_eq!(
        RawNbtDeserializer::new(NbtTag::Int(1)).deserialize_seq().err(),
        Some(mismatch("List", "Int(1)"))
    );
    assert_eq!(
        RawNbtDeserializer::new(compound(vec![])).deserialize_seq().err(),
        Some(mismatch("List", "Compound"))
    );
    assert_eq!(
        RawNbtDeserializer::new(NbtTag::List { nbt_type: NbtTagType::End, list: vec![] })
            .deserialize_tuple(0)
            .err(),
        Some(NbtDeserializationError::TypeNotSupported)
    );
    assert_eq!(
        RawNbtDeserializer::new(NbtTag::List { nbt_type: NbtTagType::End, list: vec![] })
            .deserialize_tuple_struct("Pair", 2)
            .err(),
        Some(NbtDeserializationError::TypeNotSupported)
    );
}

#[test]
fn entries_come_out_in_stored_order() {
    let tag = compound(vec![("z", NbtTag::Int(1)), ("a", NbtTag::Int(2)), ("z", NbtTag::Int(3))]);
    let mut map = RawNbtDeserializer::new(tag).deserialize_map().unwrap();
    let mut seen = Vec::new();
    while let Some(key) = map.next_key() {
        seen.push((key, map.next_value().unwrap().deserialize_i32().unwrap()));
    }
    assert_eq!(seen, vec![("z".to_string(), 1), ("a".to_string(), 2), ("z".to_string(), 3)]);
    assert!(map.next_key().is_none());
    assert!(map.next_value().is_none());
}

#[test]
fn a_value_is_taken_once() {
    let tag = compound(vec![("a", NbtTag::Int(1)), ("b", NbtTag::Int(2))]);
    let mut map = RawNbtDeserializer::new(tag).deserialize_map().unwrap();
    assert!(map.next_value().is_none());
    assert_eq!(map.next_key(), Some("a".to_string()));
    assert_eq!(map.next_value().map(|de| de.deserialize_i32()), Some(Ok(1)));
    assert!(map.next_value().is_none());
    assert_eq!(map.next_key(), Some("b".to_string()));
    assert_eq!(map.next_key(), None);
    assert_eq!(map.next_value().map(|de| de.deserialize_i32()), Some(Ok(2)));
}

#[test]
fn only_a_compound_answers_a_map_or_a_struct() {
    assert_eq!(
        RawNbtDeserializer::new(NbtTag::Int(1)).deserialize_map().err(),
        Some(mismatch("Compound", "Int(1)"))
    );
    assert_eq!(
        RawNbtDeserializer::new(NbtTag::List { nbt_type: NbtTagType::End, list: vec![] })
            .deserialize_struct("Foo", &["a"])
            .err(),
        Some(mismatch("Compound", "List"))
    );
}

#[test]
fn unit_needs_an_empty_compound() {
    assert_eq!(RawNbtDeserializer::new(compound(vec![])).deserialize_unit(), Ok(()));
    assert_eq!(RawNbtDeserializer::new(compound(vec![])).deserialize_unit_struct("Unit"), Ok(()));
    assert_eq!(
        RawNbtDeserializer::new(compound(vec![("a", NbtTag::Byte(1))])).deserialize_unit_struct("Unit"),
        Err(NbtDeserializationError::NonEmptyUnitStruct)
    );
    assert_eq!(
        RawNbtDeserializer::new(compound(vec![("a", NbtTag::Byte(1))])).deserialize_unit(),
        Err(NbtDeserializationError::NonEmptyUnitStruct)
    );
    assert_eq!(
        RawNbtDeserializer::new(NbtTag::Byte(1)).deserialize_unit_struct("Unit"),
        Err(mismatch("Compound", "Byte(1)"))
    );
}

#[test]
fn options_are_always_present() {
    let de = RawNbtDeserializer::new(NbtTag::Int(3)).deserialize_option();
    assert_eq!(de.map(|inner| inner.deserialize_i32()), Some(Ok(3)));
}

#[test]
fn enums() {
    let (name, variant) =
        RawNbtDeserializer::new(NbtTag::String("North".to_string())).deserialize_enum("E", &["North"]).variant();
    assert_eq!(name, "");
    assert_eq!(variant.unit_variant(), Ok(()));

    let (name, variant) = RawNbtDeserializer::new(NbtTag::Long(9)).deserialize_enum("E", &["Wrap"]).variant();
    assert_eq!(name, "");
    assert_eq!(variant.newtype_variant().deserialize_i64(), Ok(9));

    let (_, variant) = RawNbtDeserializer::new(NbtTag::Long(9)).deserialize_enum("E", &["Pair"]).variant();
    assert_eq!(variant.tuple_variant(2).err(), Some(NbtDeserializationError::TypeNotSupported));

    let point = compound(vec![("x", NbtTag::Int(1)), ("y", NbtTag::Int(2))]);
    let (_, variant) = RawNbtDeserializer::new(point).deserialize_enum("E", &["Point"]).variant();
    let mut fields = variant.struct_variant(&["x", "y"]).unwrap();
    assert_eq!(fields.next_key(), Some("x".to_string()));
    assert_eq!(fields.next_value().unwrap().deserialize_i32(), Ok(1));
    assert_eq!(fields.next_key(), Some("y".to_string()));
    assert_eq!(fields.next_value().unwrap().deserialize_i32(), Ok(2));
    assert_eq!(fields.next_key(), None);

    let (_, variant) = RawNbtDeserializer::new(NbtTag::Int(1)).deserialize_enum("E", &["Point"]).variant();
    assert_eq!(variant.struct_variant(&["x"]).err(), Some(mismatch("Compound", "Int(1)")));
}

#[test]
fn untyped_requests_follow_the_tag() {
    assert!(matches!(RawNbtDeserializer::new(NbtTag::Byte(-3)).deserialize_any(), Ok(Visit::I8(-3))));
    assert!(matches!(RawNbtDeserializer::new(NbtTag::Short(-3)).deserialize_any(), Ok(Visit::I16(-3))));
    assert!(matches!(RawNbtDeserializer::new(NbtTag::Int(-3)).deserialize_any(), Ok(Visit::I32(-3))));
    assert!(matches!(RawNbtDeserializer::new(NbtTag::Long(-3)).deserialize_any(), Ok(Visit::I64(-3))));
    assert!(matches!(RawNbtDeserializer::new(NbtTag::Float(8)).deserialize_any(), Ok(Visit::F32(8))));
    assert!(matches!(RawNbtDeserializer::new(NbtTag::Double(8)).deserialize_any(), Ok(Visit::F64(8))));
    assert!(matches!(
        RawNbtDeserializer::new(NbtTag::End).deserialize_any(),
        Err(NbtDeserializationError::TypeNotSupported)
    ));
    match RawNbtDeserializer::new(NbtTag::ByteArray(vec![1, 2])).deserialize_any() {
        Ok(Visit::ByteBuf(bytes)) => assert_eq!(bytes, vec![1, 2]),
        _ => panic!("a byte array gives its bytes"),
    }
    match RawNbtDeserializer::new(NbtTag::String("s".to_string())).deserialize_ignored_any() {
        Ok(Visit::String(text)) => assert_eq!(text, "s"),
        _ => panic!("a string gives its text"),
    }
    match RawNbtDeserializer::new(NbtTag::IntArray(vec![1, 2])).deserialize_newtype_struct("N") {
        Ok(Visit::Elements(seq)) => assert_eq!(drain(seq), vec![NbtTag::Int(1), NbtTag::Int(2)]),
        _ => panic!("an int array gives its elements"),
    }
    let list = NbtTag::List { nbt_type: NbtTagType::Short, list: vec![NbtTag::Short(4)] };
    match RawNbtDeserializer::new(list).deserialize_any() {
        Ok(Visit::Elements(seq)) => assert_eq!(drain(seq), vec![NbtTag::Short(4)]),
        _ => panic!("a list gives its elements"),
    }
    match RawNbtDeserializer::new(compound(vec![("k", NbtTag::Byte(1))])).deserialize_any() {
        Ok(Visit::Entries(map)) => {
            assert_eq!(drain_entries(map), vec![("k".to_string(), NbtTag::Byte(1))])
        }
        _ => panic!("a compound gives its entries"),
    }
}

#[test]
fn mismatch_names_what_was_wanted_and_what_was_found() {
    assert_eq!(
        NbtDeserializationError::type_mismatch("Int", &NbtTag::Long(5)),
        NbtDeserializationError::TypeMismatch("Int".to_string(), "Long(5)".to_string())
    );
    assert_eq!(
        NbtDeserializationError::type_mismatch("Compound", &NbtTag::End),
        NbtDeserializationError::TypeMismatch("Compound".to_string(), "End".to_string())
    );
    assert_eq!(
        NbtDeserializationError::custom("boom".to_string()),
        NbtDeserializationError::Other("boom".to_string())
    );
}

#[test]
fn tags_are_described_by_kind_and_integer_value() {
    assert_eq!(NbtTag::Byte(0).describe(), "Byte(0)");
    assert_eq!(NbtTag::Byte(-128).describe(), "Byte(-128)");
    assert_eq!(NbtTag::Short(1234).describe(), "Short(1234)");
    assert_eq!(NbtTag::Int(-10).describe(), "Int(-10)");
    assert_eq!(NbtTag::Int(i32::MAX).describe(), "Int(2147483647)");
    assert_eq!(NbtTag::Long(i64::MIN).describe(), "Long(-9223372036854775808)");
    assert_eq!(NbtTag::Long(i64::MAX).describe(), "Long(9223372036854775807)");
    assert_eq!(NbtTag::Long(100).describe(), "Long(100)");
    assert_eq!(NbtTag::Float(1.5f32.to_bits()).describe(), "Float");
    assert_eq!(NbtTag::Double(0).describe(), "Double");
    assert_eq!(NbtTag::End.describe(), "End");
    assert_eq!(NbtTag::String("s".to_string()).describe(), "String");
    assert_eq!(NbtTag::ByteArray(vec![1]).describe(), "ByteArray");
    assert_eq!(NbtTag::IntArray(vec![1]).describe(), "IntArray");
    assert_eq!(NbtTag::LongArray(vec![1]).describe(), "LongArray");
    assert_eq!(NbtTag::List { nbt_type: NbtTagType::Int, list: vec![] }.describe(), "List");
    assert_eq!(compound(vec![]).describe(), "Compound");
}

#[test]
fn a_root_answers_as_its_compound() {
    let mut nbt = RawNbt::new();
    nbt.put_tag("a", NbtTag::Byte(0));
    nbt.put_tag("b", NbtTag::IntArray(vec![5; 2]));
    nbt.put_tag("c", compound(vec![("a", NbtTag::Byte(1)), ("b", NbtTag::IntArray(vec![])), ("c", compound(vec![]))]));
    assert_eq!(
        read_foo(nbt.deserialize()),
        Ok(Foo { a: 0, b: vec![5; 2], c: Bar { a: 1, b: vec![], c: HashMap::new() } })
    );
    assert_eq!(RawNbt::new().deserialize().deserialize_unit(), Ok(()));
}
