use ferrumc_nbt::{
    NbtDecodeError, NbtSerializationError, NbtSerializationOptions, NbtTag, NbtTagType, RawNbt,
    TagEntry, DEFAULT_MAX_DEPTH,
};

const NBT_BYTES: &[u8] = &[
    0x0A, 0x01, 0x00, 0x04, 0x62, 0x79, 0x74, 0x65, 0x32, 0x02, 0x00, 0x05, 0x73, 0x68, 0x6F, 0x72,
    0x74, 0x00, 0x32, 0x03, 0x00, 0x03, 0x69, 0x6E, 0x74, 0x00, 0x00, 0x00, 0x32, 0x04, 0x00, 0x04,
    0x6C, 0x6F, 0x6E, 0x67, 0x00, 0x00, 0x00, 0x00, 0x00, 0x00, 0x00, 0x32, 0x05, 0x00, 0x05, 0x66,
    0x6C, 0x6F, 0x61, 0x74, 0x42, 0x48, 0x00, 0x00, 0x06, 0x00, 0x06, 0x64, 0x6F, 0x75, 0x62, 0x6C,
    0x65, 0x40, 0x49, 0x00, 0x00, 0x00, 0x00, 0x00, 0x00, 0x07, 0x00, 0x08, 0x62, 0x79, 0x74, 0x65,
    0x5F, 0x61, 0x72, 0x72, 0x00, 0x00, 0x00, 0x05, 0x32, 0x32, 0x32, 0x32, 0x32, 0x08, 0x00, 0x03,
    0x73, 0x74, 0x72, 0x00, 0x05, 0x68, 0x65, 0x6C, 0x6C, 0x6F, 0x09, 0x00, 0x07, 0x74, 0x61, 0x67,
    0x5F, 0x61, 0x72, 0x72, 0x05, 0x00, 0x00, 0x00, 0x02, 0x42, 0x48, 0x00, 0x00, 0x42, 0x6C, 0x00,
    0x00, 0x0A, 0x00, 0x08, 0x63, 0x6F, 0x6D, 0x70, 0x6F, 0x75, 0x6E, 0x64, 0x01, 0x00, 0x02, 0x68,
    0x69, 0x00, 0x00, 0x0B, 0x00, 0x07, 0x69, 0x6E, 0x74, 0x5F, 0x61, 0x72, 0x72, 0x00, 0x00, 0x00,
    0x05, 0x00, 0x00, 0x00, 0x32, 0x00, 0x00, 0x00, 0x32, 0x00, 0x00, 0x00, 0x32, 0x00, 0x00, 0x00,
    0x32, 0x00, 0x00, 0x00, 0x32, 0x0C, 0x00, 0x08, 0x6C, 0x6F, 0x6E, 0x67, 0x5F, 0x61, 0x72, 0x72,
    0x00, 0x00, 0x00, 0x05, 0x00, 0x00, 0x00, 0x00, 0x00, 0x00, 0x00, 0x32, 0x00, 0x00, 0x00, 0x00,
    0x00, 0x00, 0x00, 0x32, 0x00, 0x00, 0x00, 0x00, 0x00, 0x00, 0x00, 0x32, 0x00, 0x00, 0x00, 0x00,
    0x00, 0x00, 0x00, 0x32, 0x00, 0x00, 0x00, 0x00, 0x00, 0x00, 0x00, 0x32, 0x00,
];

fn sample() -> RawNbt {
    let mut nbt = RawNbt::new();
    nbt.put_tag("byte", NbtTag::Byte(50));
    nbt.put_tag("short", NbtTag::Short(50));
    nbt.put_tag("int", NbtTag::Int(50));
    nbt.put_tag("long", NbtTag::Long(50));
    nbt.put_tag("float", NbtTag::Float(50.0f32.to_bits()));
    nbt.put_tag("double", NbtTag::Double(50.0f64.to_bits()));
    nbt.put_tag("byte_arr", NbtTag::ByteArray(vec![50; 5]));
    nbt.put_tag("str", NbtTag::String("hello".to_string()));
    nbt.put_tag(
        "tag_arr",
        NbtTag::List {
            nbt_type: NbtTagType::Float,
            list: vec![NbtTag::Float(50.0f32.to_bits()), NbtTag::Float(59.0f32.to_bits())],
        },
    );
    nbt.put_tag("compound", NbtTag::Compound { inner: vec![("hi".to_string(), NbtTag::Byte(0))] });
    nbt.put_tag("int_arr", NbtTag::IntArray(vec![50; 5]));
    nbt.put_tag("long_arr", NbtTag::LongArray(vec![50; 5]));
    nbt
}

#[test]
fn test_encode_nbt() {
    let mut writer = Vec::new();
    let nbt = sample();

    nbt.encode(&mut writer, NbtSerializationOptions::Network);

    assert_eq!(writer, NBT_BYTES)
}

#[test]
fn test_decode_nbt() {
    let (raw_nbt, used) =
        RawNbt::decode(NBT_BYTES, NbtSerializationOptions::Network).expect("failed to decode nbt");
    let comparison = sample();

    assert_eq!(raw_nbt, comparison);
    assert_eq!(used, NBT_BYTES.len());
}

const DATA: [u8; 117] = [
    0x01, 0x00, 0x01, 0x61, 0x00, 0x0B, 0x00, 0x01, 0x62, 0x00, 0x00, 0x00, 0x0A, 0x00, 0x00, 0x00,
    0x05, 0x00, 0x00, 0x00, 0x05, 0x00, 0x00, 0x00, 0x05, 0x00, 0x00, 0x00, 0x05, 0x00, 0x00, 0x00,
    0x05, 0x00, 0x00, 0x00, 0x05, 0x00, 0x00, 0x00, 0x05, 0x00, 0x00, 0x00, 0x05, 0x00, 0x00, 0x00,
    0x05, 0x00, 0x00, 0x00, 0x05, 0x0A, 0x00, 0x01, 0x63, 0x01, 0x00, 0x01, 0x61, 0x00, 0x0B, 0x00,
    0x01, 0x62, 0x00, 0x00, 0x00, 0x0A, 0x00, 0x00, 0x00, 0x01, 0x00, 0x00, 0x00, 0x01, 0x00, 0x00,
    0x00, 0x01, 0x00, 0x00, 0x00, 0x01, 0x00, 0x00, 0x00, 0x01, 0x00, 0x00, 0x00, 0x01, 0x00, 0x00,
    0x00, 0x01, 0x00, 0x00, 0x00, 0x01, 0x00, 0x00, 0x00, 0x01, 0x00, 0x00, 0x00, 0x01, 0x0A, 0x00,
    0x01, 0x63, 0x00, 0x00, 0x00,
];

fn nested() -> NbtTag {
    NbtTag::Compound {
        inner: vec![
            ("a".to_string(), NbtTag::Byte(0)),
            ("b".to_string(), NbtTag::IntArray(vec![5; 10])),
            (
                "c".to_string(),
                NbtTag::Compound {
                    inner: vec![
                        ("a".to_string(), NbtTag::Byte(0)),
                        ("b".to_string(), NbtTag::IntArray(vec![1; 10])),
                        ("c".to_string(), NbtTag::Compound { inner: vec![] }),
                    ],
                },
            ),
        ],
    }
}

#[test]
fn test_bin_serialization() {
    let tag = nested();

    assert_eq!(tag.to_binary(NbtSerializationOptions::Network), DATA)
}

#[test]
fn payload_is_the_same_under_both_options() {
    let tag = nested();
    assert_eq!(
        tag.to_binary(NbtSerializationOptions::LittleEndian),
        tag.to_binary(NbtSerializationOptions::Network)
    );
}

#[test]
fn to_binary_and_encode_agree() {
    let nbt = sample();
    let mut writer = vec![0xFF];
    nbt.encode(&mut writer, NbtSerializationOptions::Network);
    assert_eq!(writer[0], 0xFF);
    assert_eq!(&writer[1..], &nbt.to_binary(NbtSerializationOptions::Network)[..]);
}

#[test]
fn tag_round_trip() {
    let tag = nested();
    let bytes = tag.to_binary(NbtSerializationOptions::Network);
    let (back, used) = NbtTag::decode(NbtTagType::Compound, &bytes, DEFAULT_MAX_DEPTH).unwrap();
    assert_eq!(back, tag);
    assert_eq!(used, bytes.len());
}

#[test]
fn root_round_trip_under_both_options() {
    let nbt = sample();
    for opts in [NbtSerializationOptions::Network, NbtSerializationOptions::LittleEndian] {
        let bytes = nbt.to_binary(opts);
        let (back, used) = RawNbt::decode(&bytes, opts).unwrap();
        assert_eq!(back, nbt);
        assert_eq!(used, bytes.len());
    }
}

#[test]
fn round_trip_keeps_the_order_and_repeated_names() {
    let mut nbt = RawNbt::new();
    nbt.put_tag("z", NbtTag::Int(1));
    nbt.put_tag("a", NbtTag::Int(2));
    nbt.put_tag("z", NbtTag::Int(3));
    let bytes = nbt.to_binary(NbtSerializationOptions::Network);
    let (back, _) = RawNbt::decode(&bytes, NbtSerializationOptions::Network).unwrap();
    assert_eq!(back, nbt);
    assert_eq!(
        back.into_tag(),
        NbtTag::Compound {
            inner: vec![
                ("z".to_string(), NbtTag::Int(1)),
                ("a".to_string(), NbtTag::Int(2)),
                ("z".to_string(), NbtTag::Int(3)),
            ]
        }
    );
}

#[test]
fn round_trip_of_negative_and_extreme_numbers() {
    let tag = NbtTag::Compound {
        inner: vec![
            ("b".to_string(), NbtTag::Byte(i8::MIN)),
            ("s".to_string(), NbtTag::Short(i16::MIN)),
            ("i".to_string(), NbtTag::Int(-2)),
            ("l".to_string(), NbtTag::Long(i64::MIN)),
            ("m".to_string(), NbtTag::Long(i64::MAX)),
            ("f".to_string(), NbtTag::Float((-0.5f32).to_bits())),
            ("d".to_string(), NbtTag::Double(f64::MAX.to_bits())),
            ("ba".to_string(), NbtTag::ByteArray(vec![0, 127, 128, 255])),
            ("ia".to_string(), NbtTag::IntArray(vec![i32::MIN, -1, 0, i32::MAX])),
            ("la".to_string(), NbtTag::LongArray(vec![i64::MIN, -1, 0, i64::MAX])),
            ("t".to_string(), NbtTag::String("h\u{e9}llo \u{1F600}".to_string())),
            (
                "ll".to_string(),
                NbtTag::List {
                    nbt_type: NbtTagType::List,
                    list: vec![
                        NbtTag::List { nbt_type: NbtTagType::End, list: vec![] },
                        NbtTag::List { nbt_type: NbtTagType::Short, list: vec![NbtTag::Short(-3)] },
                    ],
                },
            ),
        ],
    };
    let bytes = tag.to_binary(NbtSerializationOptions::Network);
    let (back, used) = NbtTag::decode(NbtTagType::Compound, &bytes, DEFAULT_MAX_DEPTH).unwrap();
    assert_eq!(back, tag);
    assert_eq!(used, bytes.len());
}

#[test]
fn fixed_width_payloads_are_big_endian() {
    let opts = NbtSerializationOptions::Network;
    assert_eq!(NbtTag::End.to_binary(opts), Vec::<u8>::new());
    assert_eq!(NbtTag::Byte(-1).to_binary(opts), vec![0xFF]);
    assert_eq!(NbtTag::Short(0x0102).to_binary(opts), vec![0x01, 0x02]);
    assert_eq!(NbtTag::Short(-2).to_binary(opts), vec![0xFF, 0xFE]);
    assert_eq!(NbtTag::Int(0x01020304).to_binary(opts), vec![0x01, 0x02, 0x03, 0x04]);
    assert_eq!(NbtTag::Int(-1).to_binary(opts), vec![0xFF; 4]);
    assert_eq!(
        NbtTag::Long(0x0102030405060708).to_binary(opts),
        vec![0x01, 0x02, 0x03, 0x04, 0x05, 0x06, 0x07, 0x08]
    );
    assert_eq!(NbtTag::Float(59.0f32.to_bits()).to_binary(opts), vec![0x42, 0x6C, 0x00, 0x00]);
    assert_eq!(
        NbtTag::Double(50.0f64.to_bits()).to_binary(opts),
        vec![0x40, 0x49, 0x00, 0x00, 0x00, 0x00, 0x00, 0x00]
    );
}

#[test]
fn prefixed_payloads() {
    let opts = NbtSerializationOptions::Network;
    assert_eq!(NbtTag::ByteArray(vec![7, 8]).to_binary(opts), vec![0, 0, 0, 2, 7, 8]);
    assert_eq!(NbtTag::String("hi".to_string()).to_binary(opts), vec![0, 2, 0x68, 0x69]);
    assert_eq!(NbtTag::String("\u{e9}".to_string()).to_binary(opts), vec![0, 2, 0xC3, 0xA9]);
    assert_eq!(
        NbtTag::IntArray(vec![1, -1]).to_binary(opts),
        vec![0, 0, 0, 2, 0, 0, 0, 1, 0xFF, 0xFF, 0xFF, 0xFF]
    );
    assert_eq!(
        NbtTag::LongArray(vec![2]).to_binary(opts),
        vec![0, 0, 0, 1, 0, 0, 0, 0, 0, 0, 0, 2]
    );
    assert_eq!(
        NbtTag::List { nbt_type: NbtTagType::Short, list: vec![NbtTag::Short(1), NbtTag::Short(2)] }
            .to_binary(opts),
        vec![2, 0, 0, 0, 2, 0, 1, 0, 2]
    );
    assert_eq!(
        NbtTag::List { nbt_type: NbtTagType::End, list: vec![] }.to_binary(opts),
        vec![0, 0, 0, 0, 0]
    );
}

#[test]
fn empty_compound_round_trip() {
    let nbt = RawNbt::new();
    let named = nbt.to_binary(NbtSerializationOptions::LittleEndian);
    assert_eq!(named, vec![0x0A, 0x00, 0x00, 0x00]);
    let (back, used) = RawNbt::decode(&named, NbtSerializationOptions::LittleEndian).unwrap();
    assert_eq!(back.into_tag(), NbtTag::Compound { inner: vec![] });
    assert_eq!(used, 4);

    let bare = nbt.to_binary(NbtSerializationOptions::Network);
    assert_eq!(bare, vec![0x0A, 0x00]);
    let (back, used) = RawNbt::decode(&bare, NbtSerializationOptions::Network).unwrap();
    assert_eq!(back, RawNbt::new());
    assert_eq!(used, 2);

    assert_eq!(
        NbtTag::Compound { inner: vec![] }.to_binary(NbtSerializationOptions::Network),
        vec![0x00]
    );
}

#[test]
fn named_root_drops_the_name_it_reads() {
    let bytes = [0x0A, 0x00, 0x02, 0x68, 0x69, 0x01, 0x00, 0x01, 0x61, 0x05, 0x00];
    let (nbt, used) = RawNbt::decode(&bytes, NbtSerializationOptions::LittleEndian).unwrap();
    let mut expected = RawNbt::new();
    expected.put_tag("a", NbtTag::Byte(5));
    assert_eq!(nbt, expected);
    assert_eq!(used, bytes.len());
}

#[test]
fn decoding_stops_behind_the_root() {
    let bytes = [0x0A, 0x00, 0xAA, 0xBB];
    let (nbt, used) = RawNbt::decode(&bytes, NbtSerializationOptions::Network).unwrap();
    assert_eq!(nbt, RawNbt::new());
    assert_eq!(used, 2);
}

#[test]
fn unknown_type_id_is_rejected() {
    let network = NbtSerializationOptions::Network;
    // at the root
    assert_eq!(RawNbt::decode(&[13], network), Err(NbtDecodeError::InvalidTagType(13)));
    assert_eq!(RawNbt::decode(&[13, 0, 0], network), Err(NbtDecodeError::InvalidTagType(13)));
    // at the start of an entry: the name behind it is not read
    assert_eq!(RawNbt::decode(&[0x0A, 13], network), Err(NbtDecodeError::InvalidTagType(13)));
    assert_eq!(
        RawNbt::decode(&[0x0A, 13, 0, 1, 0x61, 0, 0], network),
        Err(NbtDecodeError::InvalidTagType(13))
    );
    assert_eq!(RawNbt::decode(&[0x0A, 255], network), Err(NbtDecodeError::InvalidTagType(255)));
    // as the element kind of a list, empty or not
    assert_eq!(
        RawNbt::decode(&[0x0A, 9, 0, 1, 0x6C, 13, 0, 0, 0, 0, 0], network),
        Err(NbtDecodeError::InvalidTagType(13))
    );
    assert_eq!(
        RawNbt::decode(&[0x0A, 9, 0, 1, 0x6C, 13], network),
        Err(NbtDecodeError::InvalidTagType(13))
    );
    assert_eq!(
        NbtTag::decode(NbtTagType::List, &[13, 0, 0, 0, 1, 0], DEFAULT_MAX_DEPTH),
        Err(NbtDecodeError::InvalidTagType(13))
    );
    assert_eq!(TagEntry::decode(&[13], DEFAULT_MAX_DEPTH), Err(NbtDecodeError::InvalidTagType(13)));
    assert_eq!(NbtTagType::from_id(13), Err(NbtDecodeError::InvalidTagType(13)));
}

#[test]
fn root_must_be_a_compound() {
    let network = NbtSerializationOptions::Network;
    assert_eq!(RawNbt::decode(&[0x01, 0x00], network), Err(NbtDecodeError::RootNotCompound(1)));
    assert_eq!(RawNbt::decode(&[0x00], network), Err(NbtDecodeError::RootNotCompound(0)));
    assert_eq!(RawNbt::decode(&[0x09, 0, 0], network), Err(NbtDecodeError::RootNotCompound(9)));
}

#[test]
fn truncated_input_is_rejected() {
    let network = NbtSerializationOptions::Network;
    assert_eq!(
        RawNbt::decode(&[], network),
        Err(NbtDecodeError::UnexpectedEnd { offset: 0, needed: 1 })
    );
    assert_eq!(
        RawNbt::decode(&[0x0A], network),
        Err(NbtDecodeError::UnexpectedEnd { offset: 1, needed: 1 })
    );
    assert_eq!(
        RawNbt::decode(&[0x0A], NbtSerializationOptions::LittleEndian),
        Err(NbtDecodeError::UnexpectedEnd { offset: 1, needed: 2 })
    );
    // the name's length is cut
    assert_eq!(
        RawNbt::decode(&[0x0A, 0x01, 0x00], network),
        Err(NbtDecodeError::UnexpectedEnd { offset: 2, needed: 2 })
    );
    // the name is cut
    assert_eq!(
        RawNbt::decode(&[0x0A, 0x01, 0x00, 0x04, 0x62], network),
        Err(NbtDecodeError::UnexpectedEnd { offset: 4, needed: 4 })
    );
    // the payload is cut
    assert_eq!(
        RawNbt::decode(&[0x0A, 0x03, 0x00, 0x01, 0x61, 0x00, 0x00], network),
        Err(NbtDecodeError::UnexpectedEnd { offset: 5, needed: 4 })
    );
    // the closing byte is missing
    assert_eq!(
        RawNbt::decode(&[0x0A, 0x01, 0x00, 0x01, 0x61, 0x05], network),
        Err(NbtDecodeError::UnexpectedEnd { offset: 6, needed: 1 })
    );
    // an array that announces more than there is
    assert_eq!(
        NbtTag::decode(NbtTagType::ByteArray, &[0, 0, 0, 3, 1, 2], DEFAULT_MAX_DEPTH),
        Err(NbtDecodeError::UnexpectedEnd { offset: 4, needed: 3 })
    );
    assert_eq!(
        NbtTag::decode(NbtTagType::IntArray, &[0, 0, 0, 2, 0, 0, 0, 1], DEFAULT_MAX_DEPTH),
        Err(NbtDecodeError::UnexpectedEnd { offset: 4, needed: 8 })
    );
    assert_eq!(
        NbtTag::decode(NbtTagType::LongArray, &[0xFF, 0xFF, 0xFF, 0xFF], DEFAULT_MAX_DEPTH),
        Err(NbtDecodeError::UnexpectedEnd { offset: 4, needed: 8 * 0xFFFF_FFFF })
    );
    assert_eq!(
        NbtTag::decode(NbtTagType::List, &[1, 0, 0, 0, 2, 7], DEFAULT_MAX_DEPTH),
        Err(NbtDecodeError::UnexpectedEnd { offset: 6, needed: 1 })
    );
    assert_eq!(
        NbtTag::decode(NbtTagType::Long, &[0; 7], DEFAULT_MAX_DEPTH),
        Err(NbtDecodeError::UnexpectedEnd { offset: 0, needed: 8 })
    );
}

#[test]
fn invalid_utf8_is_rejected() {
    assert_eq!(
        NbtTag::decode(NbtTagType::String, &[0, 1, 0xFF], DEFAULT_MAX_DEPTH),
        Err(NbtDecodeError::InvalidUtf8 { offset: 2 })
    );
    // an overlong encoding and a lone surrogate are not UTF-8
    assert_eq!(
        NbtTag::decode(NbtTagType::String, &[0, 2, 0xC0, 0x80], DEFAULT_MAX_DEPTH),
        Err(NbtDecodeError::InvalidUtf8 { offset: 2 })
    );
    assert_eq!(
        NbtTag::decode(NbtTagType::String, &[0, 3, 0xED, 0xA0, 0x80], DEFAULT_MAX_DEPTH),
        Err(NbtDecodeError::InvalidUtf8 { offset: 2 })
    );
    // in a name
    assert_eq!(
        RawNbt::decode(&[0x0A, 0x01, 0x00, 0x01, 0x80, 0x05, 0x00], NbtSerializationOptions::Network),
        Err(NbtDecodeError::InvalidUtf8 { offset: 4 })
    );
}

#[test]
fn decoded_strings_hold_the_bytes_that_were_read() {
    let (tag, used) =
        NbtTag::decode(NbtTagType::String, &[0, 4, 0xF0, 0x9F, 0x98, 0x80, 9], DEFAULT_MAX_DEPTH)
            .unwrap();
    assert_eq!(tag, NbtTag::String("\u{1F600}".to_string()));
    assert_eq!(used, 6);
}

fn nest(levels: usize) -> NbtTag {
    let mut tag = NbtTag::Compound { inner: vec![] };
    for _ in 1..levels {
        tag = NbtTag::Compound { inner: vec![("c".to_string(), tag)] };
    }
    tag
}

#[test]
fn nesting_is_limited() {
    let opts = NbtSerializationOptions::Network;
    let three = nest(3).to_binary(opts);
    assert_eq!(NbtTag::decode(NbtTagType::Compound, &three, 3), Ok((nest(3), three.len())));
    assert_eq!(
        NbtTag::decode(NbtTagType::Compound, &three, 2),
        Err(NbtDecodeError::DepthLimitExceeded)
    );
    assert_eq!(NbtTag::decode(NbtTagType::Compound, &three, 0), Err(NbtDecodeError::DepthLimitExceeded));
    assert_eq!(NbtTag::decode(NbtTagType::Int, &[0, 0, 0, 1], 0), Ok((NbtTag::Int(1), 4)));

    let list = NbtTag::List {
        nbt_type: NbtTagType::List,
        list: vec![NbtTag::List { nbt_type: NbtTagType::Byte, list: vec![NbtTag::Byte(1)] }],
    };
    let bytes = list.to_binary(opts);
    assert_eq!(NbtTag::decode(NbtTagType::List, &bytes, 1), Err(NbtDecodeError::DepthLimitExceeded));
    assert_eq!(NbtTag::decode(NbtTagType::List, &bytes, 2), Ok((list, bytes.len())));
}

#[test]
fn the_root_counts_as_one_level() {
    let opts = NbtSerializationOptions::Network;
    let mut nbt = RawNbt::new();
    nbt.put_tag("c", NbtTag::Compound { inner: vec![] });
    let bytes = nbt.to_binary(opts);
    assert_eq!(
        RawNbt::decode_with_limit(&bytes, opts, 1),
        Err(NbtDecodeError::DepthLimitExceeded)
    );
    assert_eq!(RawNbt::decode_with_limit(&bytes, opts, 0), Err(NbtDecodeError::DepthLimitExceeded));
    assert_eq!(RawNbt::decode_with_limit(&bytes, opts, 2), Ok((nbt, bytes.len())));
}

#[test]
fn default_limit_is_five_hundred_and_twelve() {
    assert_eq!(DEFAULT_MAX_DEPTH, 512);
    let opts = NbtSerializationOptions::Network;
    let deep = RawNbt::serialize(nest(513)).unwrap().to_binary(opts);
    assert_eq!(RawNbt::decode(&deep, opts), Err(NbtDecodeError::DepthLimitExceeded));
    let fits = RawNbt::serialize(nest(512)).unwrap();
    let bytes = fits.to_binary(opts);
    assert_eq!(RawNbt::decode(&bytes, opts), Ok((fits, bytes.len())));
}

#[test]
fn entries_decode_one_by_one() {
    let bytes = [0x03, 0x00, 0x01, 0x78, 0x00, 0x00, 0x01, 0x00, 0x00];
    let (entry, used) = TagEntry::decode(&bytes, DEFAULT_MAX_DEPTH).unwrap();
    assert_eq!(entry, TagEntry("x".to_string(), NbtTag::Int(256)));
    assert_eq!(used, 8);
    let (end, used) = TagEntry::decode(&bytes[8..], DEFAULT_MAX_DEPTH).unwrap();
    assert_eq!(end, TagEntry(String::new(), NbtTag::End));
    assert_eq!(used, 1);
}

#[test]
fn list_of_end_takes_no_bytes_per_element() {
    let (tag, used) = NbtTag::decode(NbtTagType::List, &[0, 0, 0, 0, 3, 9], DEFAULT_MAX_DEPTH).unwrap();
    assert_eq!(
        tag,
        NbtTag::List { nbt_type: NbtTagType::End, list: vec![NbtTag::End, NbtTag::End, NbtTag::End] }
    );
    assert_eq!(used, 5);
}

#[test]
fn long_lengths_are_written_by_their_low_bits() {
    let text = "a".repeat(0x1_0001);
    let bytes = NbtTag::String(text).to_binary(NbtSerializationOptions::Network);
    assert_eq!(bytes.len(), 2 + 0x1_0001);
    assert_eq!(&bytes[..2], &[0x00, 0x01]);
}

#[test]
fn well_formed_tags_are_told_apart() {
    assert!(nested().is_well_formed());
    assert!(sample().is_well_formed());
    assert!(NbtTag::List { nbt_type: NbtTagType::Int, list: vec![] }.is_well_formed());
    assert!(!NbtTag::List { nbt_type: NbtTagType::Int, list: vec![NbtTag::Byte(1)] }.is_well_formed());
    assert!(!NbtTag::Compound { inner: vec![("e".to_string(), NbtTag::End)] }.is_well_formed());
    assert!(NbtTag::String("a".repeat(0xFFFF)).is_well_formed());
    assert!(!NbtTag::String("a".repeat(0x1_0000)).is_well_formed());
    assert!(!NbtTag::Compound { inner: vec![("a".repeat(0x1_0000), NbtTag::Byte(1))] }
        .is_well_formed());
    let mut nbt = RawNbt::new();
    nbt.put_tag("e", NbtTag::End);
    assert!(!nbt.is_well_formed());
    let inner = NbtTag::List {
        nbt_type: NbtTagType::Compound,
        list: vec![NbtTag::Compound { inner: vec![("e".to_string(), NbtTag::End)] }],
    };
    assert!(!inner.is_well_formed());
}

#[test]
fn depth_is_measured() {
    assert!(NbtTag::Int(1).is_within_depth(0));
    assert!(!nest(1).is_within_depth(0));
    assert!(nest(3).is_within_depth(3));
    assert!(!nest(3).is_within_depth(2));
    assert!(nested().is_within_depth(3));
    assert!(!nested().is_within_depth(2));
    let list = NbtTag::List { nbt_type: NbtTagType::Compound, list: vec![nest(1), nest(2)] };
    assert!(list.is_within_depth(3));
    assert!(!list.is_within_depth(2));
    assert!(RawNbt::new().is_within_depth(1));
    assert!(!RawNbt::new().is_within_depth(0));
    assert!(sample().is_within_depth(2));
    assert!(!sample().is_within_depth(1));
}

#[test]
fn entries_are_shown_in_order() {
    let nbt = sample();
    let names: Vec<&str> = nbt.entries().iter().map(|(name, _)| name.as_str()).collect();
    assert_eq!(
        names,
        vec![
            "byte", "short", "int", "long", "float", "double", "byte_arr", "str", "tag_arr",
            "compound", "int_arr", "long_arr"
        ]
    );
}

#[test]
fn a_root_holds_the_entries_of_a_compound() {
    let mut nbt = RawNbt::new();
    nbt.put_tag("a", NbtTag::Byte(1));
    nbt.put_tag("b", NbtTag::Short(2));
    let tag = NbtTag::Compound {
        inner: vec![("a".to_string(), NbtTag::Byte(1)), ("b".to_string(), NbtTag::Short(2))],
    };
    assert_eq!(RawNbt::serialize(nested()).map(RawNbt::into_tag), Ok(nested()));
    assert_eq!(RawNbt::serialize(tag), Ok(nbt));
    assert_eq!(RawNbt::serialize(NbtTag::Int(3)), Err(NbtSerializationError::TypeNotSupported));
    assert_eq!(
        RawNbt::serialize(NbtTag::List { nbt_type: NbtTagType::End, list: vec![] }),
        Err(NbtSerializationError::TypeNotSupported)
    );
}
