use rust_nbt::BedrockHeader;
use rust_nbt::ByteArrayTag;
use rust_nbt::CompoundTag;
use rust_nbt::CompressionFormat;
use rust_nbt::DeserializeError;
use rust_nbt::Endian;
use rust_nbt::IntArrayTag;
use rust_nbt::LongArrayTag;
use rust_nbt::ReadError;
use rust_nbt::Shape;
use rust_nbt::Tag;
use rust_nbt::TagIDError;
use rust_nbt::Value;
use rust_nbt::WriteError;
use rust_nbt::compress;
use rust_nbt::decompress;
use rust_nbt::from_tag;
use rust_nbt::read_bedrock_header;
use rust_nbt::read_root;
use rust_nbt::to_tag;
use rust_nbt::write_root;
use rust_nbt::BigEndianOrder;
use rust_nbt::LittleEndianOrder;
use rust_nbt::LittleVarInt;
use rust_nbt::read_int;

fn compound(entries: Vec<(&str, Tag)>) -> Tag {
    let mut c = CompoundTag::new();
    for (k, v) in entries {
        c.push(k.as_bytes().to_vec(), v);
    }
    Tag::Compound(c)
}

#[test]
fn test_compression_and_decompression() {
    let input: &[u8; 37] = b"Hello, compression and decompression!";

    let compressed_deflate: Vec<u8> =
        compress(input, CompressionFormat::Deflate).expect("Compression failed");
    let decompressed_deflate: Vec<u8> =
        decompress(&compressed_deflate, CompressionFormat::Deflate).expect("Decompression failed");
    assert_eq!(
        input,
        &decompressed_deflate[..],
        "Deflate compression/decompression mismatch"
    );

    let compressed_gzip: Vec<u8> =
        compress(input, CompressionFormat::Gzip).expect("Compression failed");
    let decompressed_gzip: Vec<u8> =
        decompress(&compressed_gzip, CompressionFormat::Gzip).expect("Decompression failed");
    assert_eq!(
        input,
        &decompressed_gzip[..],
        "Gzip compression/decompression mismatch"
    );

    let compressed_deflate_raw: Vec<u8> =
        compress(input, CompressionFormat::DeflateRaw).expect("Compression failed");
    let decompressed_deflate_raw: Vec<u8> =
        decompress(&compressed_deflate_raw, CompressionFormat::DeflateRaw)
            .expect("Decompression failed");
    assert_eq!(
        input,
        &decompressed_deflate_raw[..],
        "DeflateRaw compression/decompression mismatch"
    );
}

#[test]
fn hello_world_big_endian() {
    let mut input: Vec<u8> = Vec::new();
    input.push(0x0A);
    input.extend_from_slice(&[0x00, 0x0B]);
    input.extend_from_slice(b"hello world");
    input.push(0x08);
    input.extend_from_slice(&[0x00, 0x04]);
    input.extend_from_slice(b"name");
    input.extend_from_slice(&[0x00, 0x09]);
    input.extend_from_slice(b"Bananrama");
    input.push(0x00);

    let (name, tag) = read_root(&input, Endian::Big, BedrockHeader::Without).unwrap();
    assert_eq!(name, b"hello world".to_vec());
    let expected = compound(vec![("name", Tag::String(b"Bananrama".to_vec()))]);
    assert_eq!(tag, expected);

    let out = write_root(&tag, &name, Endian::Big, BedrockHeader::Without).unwrap();
    assert_eq!(out, input);
}

#[test]
fn empty_list_round_trip() {
    let tree = compound(vec![("empty", Tag::List(Vec::new()))]);
    let out = write_root(&tree, b"", Endian::Big, BedrockHeader::Without).unwrap();
    let mut expected: Vec<u8> = vec![0x0A, 0x00, 0x00, 0x09, 0x00, 0x05];
    expected.extend_from_slice(b"empty");
    expected.extend_from_slice(&[0x00, 0x00, 0x00, 0x00, 0x00, 0x00]);
    assert_eq!(out, expected);

    let (name, tag) = read_root(&out, Endian::Big, BedrockHeader::Without).unwrap();
    assert_eq!(name, Vec::<u8>::new());
    assert_eq!(tag, compound(vec![("empty", Tag::List(Vec::new()))]));
    let again = write_root(&tag, &name, Endian::Big, BedrockHeader::Without).unwrap();
    assert_eq!(again, out);
}

fn bigtest_tree() -> Tag {
    let byte_array: Vec<i8> = (0..1000)
        .map(|n: i64| (((n * (n * 255 + 7)) % 100) as u8) as i8)
        .collect();
    let long_list = Tag::List(vec![
        Tag::Long(11),
        Tag::Long(12),
        Tag::Long(13),
        Tag::Long(14),
        Tag::Long(15),
    ]);
    let compound_list = Tag::List(vec![
        compound(vec![
            ("name", Tag::String(b"Compound tag #0".to_vec())),
            ("created-on", Tag::Long(1264099775885)),
        ]),
        compound(vec![
            ("name", Tag::String(b"Compound tag #1".to_vec())),
            ("created-on", Tag::Long(1264099775885)),
        ]),
    ]);
    let nested = compound(vec![
        (
            "ham",
            compound(vec![
                ("name", Tag::String(b"Hampus".to_vec())),
                ("value", Tag::Float(0.75f32.to_bits())),
            ]),
        ),
        (
            "egg",
            compound(vec![
                ("name", Tag::String(b"Eggbert".to_vec())),
                ("value", Tag::Float(0.5f32.to_bits())),
            ]),
        ),
    ]);
    compound(vec![
        ("longTest", Tag::Long(9223372036854775807)),
        ("shortTest", Tag::Short(32767)),
        (
            "stringTest",
            Tag::String("HELLO WORLD THIS IS A TEST STRING \u{c5}\u{c4}\u{d6}!".as_bytes().to_vec()),
        ),
        ("floatTest", Tag::Float(0.49823147f32.to_bits())),
        ("intTest", Tag::Int(2147483647)),
        ("nested compound test", nested),
        ("listTest (long)", long_list),
        ("listTest (compound)", compound_list),
        ("byteTest", Tag::Byte(127)),
        ("doubleTest", Tag::Double(0.4931287132182315f64.to_bits())),
        ("byteArrayTest", Tag::ByteArray(ByteArrayTag(byte_array))),
        ("intArrayTest", Tag::IntArray(IntArrayTag(vec![-1, 0, 1, 2147483647, -2147483648]))),
        ("longArrayTest", Tag::LongArray(LongArrayTag(vec![-9223372036854775808, 42]))),
    ])
}

#[test]
fn bigtest_big_endian_round_trip() {
    let tree = bigtest_tree();
    let bytes = write_root(&tree, b"Level", Endian::Big, BedrockHeader::Without).unwrap();
    assert_eq!(bytes[0], 0x0A);
    assert_eq!(&bytes[1..3], &[0x00, 0x05]);
    assert_eq!(&bytes[3..8], b"Level");
    let (name, back) = read_root(&bytes, Endian::Big, BedrockHeader::Without).unwrap();
    assert_eq!(name, b"Level".to_vec());
    assert_eq!(back, bigtest_tree());
    let again = write_root(&back, &name, Endian::Big, BedrockHeader::Without).unwrap();
    assert_eq!(again, bytes);
}

#[test]
fn bigtest_gzip_round_trip() {
    let tree = bigtest_tree();
    let bytes = write_root(&tree, b"Level", Endian::Big, BedrockHeader::Without).unwrap();
    let packed = compress(&bytes, CompressionFormat::Gzip).unwrap();
    let unpacked = decompress(&packed, CompressionFormat::Gzip).unwrap();
    assert_eq!(unpacked, bytes);
    let (name, back) = read_root(&unpacked, Endian::Big, BedrockHeader::Without).unwrap();
    assert_eq!(name, b"Level".to_vec());
    assert_eq!(back, bigtest_tree());
}

#[test]
fn bigtest_little_endian_round_trip() {
    let tree = bigtest_tree();
    let big = write_root(&tree, b"Level", Endian::Big, BedrockHeader::Without).unwrap();
    let little = write_root(&tree, b"Level", Endian::Little, BedrockHeader::Without).unwrap();
    assert_ne!(big, little);
    assert_eq!(big.len(), little.len());
    let (name, back) = read_root(&little, Endian::Little, BedrockHeader::Without).unwrap();
    assert_eq!(name, b"Level".to_vec());
    assert_eq!(back, bigtest_tree());
    let again = write_root(&back, &name, Endian::Little, BedrockHeader::Without).unwrap();
    assert_eq!(again, little);
}

#[test]
fn little_varint_round_trip() {
    let tree = bigtest_tree();
    let bytes = write_root(&tree, b"Level", Endian::LittleVarInt, BedrockHeader::Without).unwrap();
    let (name, back) = read_root(&bytes, Endian::LittleVarInt, BedrockHeader::Without).unwrap();
    assert_eq!(name, b"Level".to_vec());
    assert_eq!(back, bigtest_tree());
    let again = write_root(&back, &name, Endian::LittleVarInt, BedrockHeader::Without).unwrap();
    assert_eq!(again, bytes);
}

#[test]
fn bedrock_header_round_trip() {
    let tree = compound(vec![
        ("StorageVersion", Tag::Int(10)),
        ("greeting", Tag::String(b"hi".to_vec())),
    ]);
    let bytes = write_root(&tree, b"", Endian::LittleVarInt, BedrockHeader::With).unwrap();
    assert_eq!(&bytes[0..4], &[10, 0, 0, 0]);
    let payload_len = (bytes.len() - 8) as u32;
    assert_eq!(&bytes[4..8], &payload_len.to_le_bytes());

    let (sv, pl, next) = read_bedrock_header(&bytes, 0).unwrap();
    assert_eq!(sv, 10);
    assert_eq!(pl, payload_len);
    assert_eq!(next, 8);

    let (name, back) = read_root(&bytes, Endian::LittleVarInt, BedrockHeader::With).unwrap();
    assert_eq!(name, Vec::<u8>::new());
    assert_eq!(
        back,
        compound(vec![
            ("StorageVersion", Tag::Int(10)),
            ("greeting", Tag::String(b"hi".to_vec())),
        ])
    );
    let again = write_root(&back, &name, Endian::LittleVarInt, BedrockHeader::With).unwrap();
    assert_eq!(again, bytes);
}

#[test]
fn bedrock_header_errors() {
    let no_version = compound(vec![("greeting", Tag::String(b"hi".to_vec()))]);
    assert_eq!(
        write_root(&no_version, b"", Endian::Little, BedrockHeader::With),
        Err(WriteError::ExpectedStorageVersion)
    );
    let wrong_kind = compound(vec![("StorageVersion", Tag::Short(10))]);
    assert_eq!(
        write_root(&wrong_kind, b"", Endian::Little, BedrockHeader::With),
        Err(WriteError::ExpectedInt)
    );
    let not_compound = Tag::Byte(1);
    assert_eq!(
        write_root(&not_compound, b"", Endian::Little, BedrockHeader::With),
        Err(WriteError::ExpectedCompound)
    );
}

#[test]
fn read_errors() {
    assert_eq!(
        read_root(&[0x0D], Endian::Big, BedrockHeader::Without),
        Err(ReadError::TagIDError(TagIDError::UnknownType))
    );
    assert_eq!(
        read_root(&[0x00], Endian::Big, BedrockHeader::Without),
        Err(ReadError::TagIDError(TagIDError::UnexpectedEnd))
    );
    assert_eq!(
        read_root(&[], Endian::Big, BedrockHeader::Without),
        Err(ReadError::Truncated)
    );
    assert_eq!(
        read_root(&[0x0A, 0x00], Endian::Big, BedrockHeader::Without),
        Err(ReadError::Truncated)
    );
    // A list with length -1 is rejected outright.
    let neg: Vec<u8> = vec![0x09, 0x00, 0x00, 0x01, 0xFF, 0xFF, 0xFF, 0xFF];
    assert_eq!(
        read_root(&neg, Endian::Big, BedrockHeader::Without),
        Err(ReadError::NegativeLength)
    );
    // The same key twice in one compound is rejected.
    let mut dup: Vec<u8> = Vec::new();
    dup.push(0x0A);
    dup.extend_from_slice(&[0x00, 0x00]);
    for _ in 0..2 {
        dup.push(0x01);
        dup.extend_from_slice(&[0x00, 0x01]);
        dup.push(b'a');
        dup.push(0x05);
    }
    dup.push(0x00);
    assert_eq!(
        read_root(&dup, Endian::Big, BedrockHeader::Without),
        Err(ReadError::DuplicateKey)
    );
}

#[test]
fn varint_decoding() {
    // The LEB128-style two-byte encoding of 300.
    let data = [0xACu8, 0x02];
    let (v, p) = rust_nbt::read::read_var_int(&data, 0).unwrap();
    assert_eq!(v, 300);
    assert_eq!(p, 2);
    // A non-canonical encoding of zero is accepted.
    let padded = [0x80u8, 0x00];
    let (v2, p2) = rust_nbt::read::read_var_int(&padded, 0).unwrap();
    assert_eq!(v2, 0);
    assert_eq!(p2, 2);
    // More than five groups overflow a 32-bit target.
    let wide = [0x80u8, 0x80, 0x80, 0x80, 0x80, 0x01];
    assert_eq!(
        rust_nbt::read::read_var_int(&wide, 0),
        Err(ReadError::VarIntRange)
    );
    assert_eq!(rust_nbt::read::read_var_int(&[0x80], 0), Err(ReadError::Truncated));
}

#[test]
fn zigzag_decoding() {
    // S = (U >> 1) ^ -(U & 1): 0, -1, 1, -2, 2, ...
    let cases: [(u8, i32); 5] = [(0, 0), (1, -1), (2, 1), (3, -2), (4, 2)];
    for (byte, expected) in cases {
        let (v, _) = rust_nbt::read::read_var_int_zig_zag(&[byte], 0).unwrap();
        assert_eq!(v, expected);
    }
    let (v, _) = rust_nbt::read::read_var_long_zig_zag(&[0xFE, 0xFF, 0xFF, 0xFF, 0x0F], 0).unwrap();
    assert_eq!(v, 2147483647);
    // An Int written in the varint dialect re-reads exactly.
    let mut out = Vec::new();
    rust_nbt::write::write_int(&mut out, Endian::LittleVarInt, -1);
    assert_eq!(out, vec![0x01]);
    let (v, _) = rust_nbt::read::read_int(&out, 0, Endian::LittleVarInt).unwrap();
    assert_eq!(v, -1);
}

#[test]
fn endian_read_strategies() {
    let data_big = [0x00u8, 0x00, 0x01, 0x23];
    let (v, _) = read_int::<BigEndianOrder>(&data_big, 0).unwrap();
    assert_eq!(v, 0x123);

    let data_little = [0x23u8, 0x01, 0x00, 0x00];
    let (v, _) = read_int::<LittleEndianOrder>(&data_little, 0).unwrap();
    assert_eq!(v, 0x123);

    let data_varint = [0xACu8, 0x02];
    let (v, _) = read_int::<LittleVarInt>(&data_varint, 0).unwrap();
    assert_eq!(v, 300);
}

fn zesty_record() -> Value {
    Value::Record(vec![
        (b"name".to_vec(), Value::Text(b"Zesty".to_vec())),
        (b"age".to_vec(), Value::I32(42)),
    ])
}

fn zesty_shape() -> Shape {
    Shape::Record(vec![
        (b"name".to_vec(), Shape::Text),
        (b"age".to_vec(), Shape::I32),
    ])
}

#[test]
fn binding_derivation() {
    let tag = to_tag(&zesty_record()).unwrap();
    let expected = compound(vec![
        ("name", Tag::String(b"Zesty".to_vec())),
        ("age", Tag::Int(42)),
    ]);
    assert_eq!(tag, expected);

    let back = from_tag(&tag, &zesty_shape()).unwrap();
    assert_eq!(back, zesty_record());

    let wrong = compound(vec![
        ("name", Tag::String(b"Zesty".to_vec())),
        ("age", Tag::Short(42)),
    ]);
    assert_eq!(from_tag(&wrong, &zesty_shape()), Err(DeserializeError::ExpectedInt));

    let missing = compound(vec![("name", Tag::String(b"Zesty".to_vec()))]);
    assert_eq!(from_tag(&missing, &zesty_shape()), Err(DeserializeError::ValueMissing));
}

#[test]
fn binding_booleans_and_unsigned() {
    let t = to_tag(&Value::Bool(true)).unwrap();
    assert_eq!(t, Tag::Byte(1));
    assert_eq!(from_tag(&Tag::Byte(0), &Shape::Bool).unwrap(), Value::Bool(false));
    assert_eq!(from_tag(&Tag::Byte(1), &Shape::Bool).unwrap(), Value::Bool(true));
    assert_eq!(
        from_tag(&Tag::Byte(2), &Shape::Bool),
        Err(DeserializeError::ExpectedBoolean)
    );

    let t = to_tag(&Value::U8(200)).unwrap();
    assert_eq!(t, Tag::Byte(-56));
    assert_eq!(from_tag(&t, &Shape::U8).unwrap(), Value::U8(200));

    let t = to_tag(&Value::U64(u64::MAX)).unwrap();
    assert_eq!(t, Tag::Long(-1));
    assert_eq!(from_tag(&t, &Shape::U64).unwrap(), Value::U64(u64::MAX));
}

#[test]
fn binding_arrays_and_lists() {
    // The distinguished wrapper becomes the wire-distinct array kind...
    let t = to_tag(&Value::IntArray(vec![1, 2, 3])).unwrap();
    assert_eq!(t, Tag::IntArray(IntArrayTag(vec![1, 2, 3])));
    // ... while a plain sequence of the same numbers becomes a List.
    let t = to_tag(&Value::List(vec![Value::I32(1), Value::I32(2), Value::I32(3)])).unwrap();
    assert_eq!(t, Tag::List(vec![Tag::Int(1), Tag::Int(2), Tag::Int(3)]));
    let back = from_tag(&t, &Shape::List(Box::new(Shape::I32))).unwrap();
    assert_eq!(back, Value::List(vec![Value::I32(1), Value::I32(2), Value::I32(3)]));

    let t = to_tag(&Value::Bytes(vec![0, 127, 255])).unwrap();
    assert_eq!(t, Tag::ByteArray(ByteArrayTag(vec![0, 127, -1])));
    assert_eq!(from_tag(&t, &Shape::Bytes).unwrap(), Value::Bytes(vec![0, 127, 255]));

    assert!(to_tag(&Value::Unit).is_err());
    assert!(to_tag(&Value::List(vec![Value::Unit])).is_err());
}

#[test]
fn binding_enum_variants() {
    let t = to_tag(&Value::UnitVariant(b"Red".to_vec())).unwrap();
    assert_eq!(t, Tag::String(b"Red".to_vec()));
    let t = to_tag(&Value::NewtypeVariant(
        b"Wrapped".to_vec(),
        Box::new(Value::I32(7)),
    ))
    .unwrap();
    assert_eq!(t, compound(vec![("Wrapped", Tag::Int(7))]));
}

#[test]
fn float_bits_round_trip() {
    let tree = compound(vec![
        ("f", Tag::Float(0.49823147f32.to_bits())),
        ("d", Tag::Double(0.4931287132182315f64.to_bits())),
    ]);
    for endian in [Endian::Big, Endian::Little, Endian::LittleVarInt] {
        let bytes = write_root(&tree, b"", endian, BedrockHeader::Without).unwrap();
        let (_, back) = read_root(&bytes, endian, BedrockHeader::Without).unwrap();
        match &back {
            Tag::Compound(c) => {
                assert_eq!(c.entries.len(), 2);
                match &c.entries[0].1 {
                    Tag::Float(bits) => assert_eq!(f32::from_bits(*bits), 0.49823147),
                    other => panic!("not a float: {:?}", other),
                }
                match &c.entries[1].1 {
                    Tag::Double(bits) => assert_eq!(f64::from_bits(*bits), 0.4931287132182315),
                    other => panic!("not a double: {:?}", other),
                }
            },
            other => panic!("not a compound: {:?}", other),
        }
    }
}

#[test]
fn string_lengths_and_short_values() {
    let tree = compound(vec![("s", Tag::Short(-2))]);
    let big = write_root(&tree, b"", Endian::Big, BedrockHeader::Without).unwrap();
    // 0A 0000 | 02 0001 's' FFFE | 00
    assert_eq!(big, vec![0x0A, 0x00, 0x00, 0x02, 0x00, 0x01, b's', 0xFF, 0xFE, 0x00]);
    let little = write_root(&tree, b"", Endian::Little, BedrockHeader::Without).unwrap();
    assert_eq!(little, vec![0x0A, 0x00, 0x00, 0x02, 0x01, 0x00, b's', 0xFE, 0xFF, 0x00]);
}

#[test]
fn binding_text_keyed_map() {
    // A compound consumed as a text-keyed map yields every entry, in the
    // order the tree stores them, under the one value shape.
    let tree = compound(vec![
        ("one", Tag::Int(1)),
        ("two", Tag::Int(2)),
        ("three", Tag::Int(3)),
    ]);
    let shape = Shape::MapText(Box::new(Shape::I32));
    let back = from_tag(&tree, &shape).unwrap();
    assert_eq!(
        back,
        Value::Record(vec![
            (b"one".to_vec(), Value::I32(1)),
            (b"two".to_vec(), Value::I32(2)),
            (b"three".to_vec(), Value::I32(3)),
        ])
    );
    // The producer maps the same value back to the same compound.
    assert_eq!(to_tag(&back).unwrap(), tree);
    // A value of another kind is a typed error, as is a non-compound.
    let mixed = compound(vec![("one", Tag::Int(1)), ("two", Tag::Short(2))]);
    assert_eq!(from_tag(&mixed, &shape), Err(DeserializeError::ExpectedInt));
    assert_eq!(
        from_tag(&Tag::Byte(0), &shape),
        Err(DeserializeError::ExpectedCompound)
    );
}
