use crabml_core::decode::{
    read_entries, read_entry, read_header, read_items, read_payload, read_tensor, read_tensors,
    read_value,
};
use crabml_core::error::GGUFReaderErrorKind;
use crabml_core::header::{tensor_table_is_valid, TensorDescriptor, MSG_NO_ARCHITECTURE};
use crabml_core::keys::{resolve_key, KEY_CONTEXT_LENGTH, KEY_GENERAL_NAME, KEY_ROPE_FREQ_BASE};
use crabml_core::kinds::GGUFValueType;
use crabml_core::reader::{align_position, GGUFReader};
use crabml_core::value::GGUFValue;
use crabml_core::wire::{GGUF_DEFAULT_ALIGNMENT, GGUF_MAGIC, GGUF_VERSION};

fn text(s: &str) -> Vec<u8> {
    let mut out = (s.len() as u64).to_le_bytes().to_vec();
    out.extend_from_slice(s.as_bytes());
    out
}

fn head(tensor_count: u64, kv_count: u64) -> Vec<u8> {
    let mut out = Vec::new();
    out.extend_from_slice(b"GGUF");
    out.extend_from_slice(&2u32.to_le_bytes());
    out.extend_from_slice(&tensor_count.to_le_bytes());
    out.extend_from_slice(&kv_count.to_le_bytes());
    out
}

fn entry(key: &str, tag: u32, payload: &[u8]) -> Vec<u8> {
    let mut out = text(key);
    out.extend_from_slice(&tag.to_le_bytes());
    out.extend_from_slice(payload);
    out
}

fn array(elem: u32, count: u64, elems: &[u8]) -> Vec<u8> {
    let mut out = elem.to_le_bytes().to_vec();
    out.extend_from_slice(&count.to_le_bytes());
    out.extend_from_slice(elems);
    out
}

fn value_of(tag: u32, payload: &[u8]) -> Result<GGUFValue, GGUFReaderErrorKind> {
    let mut bytes = tag.to_le_bytes().to_vec();
    bytes.extend_from_slice(payload);
    let total = bytes.len();
    let mut reader = GGUFReader::new(bytes);
    match reader.read_value() {
        Ok(v) => {
            assert_eq!(reader.position(), total);
            Ok(v)
        }
        Err(e) => {
            assert_eq!(reader.position(), 0);
            Err(e.kind())
        }
    }
}

#[test]
fn magic_is_the_tag_read_little_endian() {
    assert_eq!(GGUF_MAGIC, u32::from_le_bytes(*b"GGUF"));
    assert_eq!(GGUF_VERSION, 2);
    assert_eq!(GGUF_DEFAULT_ALIGNMENT, 32);
}

#[test]
fn empty_container_decodes_to_empty_metadata() {
    let mut reader = GGUFReader::new(head(0, 0));
    let header = reader.decode().unwrap();
    assert_eq!(header.magic(), GGUF_MAGIC);
    assert_eq!(header.version(), 2);
    assert_eq!(header.tensor_count(), 0);
    assert_eq!(header.metadata_len(), 0);
    assert_eq!(reader.position(), 24);
    assert_eq!(reader.remaining(), 0);
    assert_eq!(reader.read_tensor_table(0).unwrap(), Vec::<TensorDescriptor>::new());
}

#[test]
fn wrong_magic_is_a_data_error() {
    let mut bytes = head(0, 0);
    bytes[0] = b'X';
    let mut reader = GGUFReader::new(bytes);
    assert_eq!(reader.decode().unwrap_err().kind(), GGUFReaderErrorKind::DataError);
    assert_eq!(reader.position(), 0);
    // four wrong bytes are enough
    let mut reader = GGUFReader::new(b"GGML".to_vec());
    assert_eq!(reader.decode().unwrap_err().kind(), GGUFReaderErrorKind::DataError);
}

#[test]
fn wrong_version_is_a_data_error() {
    for version in [0u32, 1, 3] {
        let mut bytes = head(0, 0);
        bytes[4..8].copy_from_slice(&version.to_le_bytes());
        let mut reader = GGUFReader::new(bytes);
        assert_eq!(reader.decode().unwrap_err().kind(), GGUFReaderErrorKind::DataError);
    }
}

#[test]
fn container_cut_short_is_unexpected() {
    let mut bytes = head(3, 4);
    bytes.extend(entry("general.architecture", 8, &text("llama")));
    bytes.extend(entry("llama.context_length", 4, &2048u32.to_le_bytes()));
    bytes.extend(entry("flags", 9, &array(7, 3, &[1, 0, 1])));
    bytes.extend(entry("nested", 9, &array(9, 1, &array(2, 2, &[1, 0, 2, 0]))));
    let mut whole = GGUFReader::new(bytes.clone());
    assert_eq!(whole.decode().unwrap().metadata_len(), 4);
    assert_eq!(whole.position(), bytes.len());
    for n in 0..bytes.len() {
        let mut reader = GGUFReader::new(bytes[..n].to_vec());
        let err = reader.decode().unwrap_err();
        assert_eq!(err.kind(), GGUFReaderErrorKind::Unexpected, "cut at {}", n);
        assert_eq!(reader.position(), 0);
    }
    // bytes behind the header do not change it
    let mut longer = bytes.clone();
    longer.extend_from_slice(&[0xff; 7]);
    let mut reader = GGUFReader::new(longer);
    assert_eq!(reader.decode().unwrap(), GGUFReader::new(bytes.clone()).decode().unwrap());
    assert_eq!(reader.position(), bytes.len());
}

#[test]
fn array_of_f32_keeps_element_type_and_order() {
    let numbers = [1.0f32, 2.0, 3.0];
    let mut elems = Vec::new();
    for x in numbers {
        elems.extend_from_slice(&x.to_le_bytes());
    }
    let mut bytes = head(0, 1);
    bytes.extend(entry("tokenizer.ggml.scores", 9, &array(6, 3, &elems)));
    let header = GGUFReader::new(bytes).decode().unwrap();
    match header.get("tokenizer.ggml.scores") {
        Some(GGUFValue::Array(elem, items)) => {
            assert_eq!(*elem, GGUFValueType::F32);
            let decoded: Vec<f32> = items
                .iter()
                .map(|v| match v {
                    GGUFValue::F32(bits) => f32::from_bits(*bits),
                    other => panic!("not an f32: {:?}", other),
                })
                .collect();
            assert_eq!(decoded, vec![1.0, 2.0, 3.0]);
        }
        other => panic!("not an array: {:?}", other),
    }
}

#[test]
fn scalars_of_every_type() {
    assert_eq!(value_of(0, &[0xfe]), Ok(GGUFValue::U8(254)));
    assert_eq!(value_of(1, &[0xfe]), Ok(GGUFValue::I8(-2)));
    assert_eq!(value_of(1, &[0x7f]), Ok(GGUFValue::I8(127)));
    assert_eq!(value_of(1, &[0x80]), Ok(GGUFValue::I8(-128)));
    assert_eq!(value_of(2, &[0x34, 0x12]), Ok(GGUFValue::U16(0x1234)));
    assert_eq!(value_of(3, &(-3i16).to_le_bytes()), Ok(GGUFValue::I16(-3)));
    assert_eq!(value_of(3, &i16::MIN.to_le_bytes()), Ok(GGUFValue::I16(i16::MIN)));
    assert_eq!(value_of(4, &[0x78, 0x56, 0x34, 0x12]), Ok(GGUFValue::U32(0x12345678)));
    assert_eq!(value_of(4, &u32::MAX.to_le_bytes()), Ok(GGUFValue::U32(u32::MAX)));
    assert_eq!(value_of(5, &(-70000i32).to_le_bytes()), Ok(GGUFValue::I32(-70000)));
    assert_eq!(value_of(5, &i32::MIN.to_le_bytes()), Ok(GGUFValue::I32(i32::MIN)));
    assert_eq!(value_of(5, &i32::MAX.to_le_bytes()), Ok(GGUFValue::I32(i32::MAX)));
    assert_eq!(value_of(6, &1.5f32.to_le_bytes()), Ok(GGUFValue::F32(1.5f32.to_bits())));
    assert_eq!(
        value_of(10, &0x0102030405060708u64.to_le_bytes()),
        Ok(GGUFValue::U64(0x0102030405060708))
    );
    assert_eq!(value_of(10, &u64::MAX.to_le_bytes()), Ok(GGUFValue::U64(u64::MAX)));
    assert_eq!(value_of(11, &(-5i64).to_le_bytes()), Ok(GGUFValue::I64(-5)));
    assert_eq!(value_of(11, &i64::MIN.to_le_bytes()), Ok(GGUFValue::I64(i64::MIN)));
    assert_eq!(value_of(11, &i64::MAX.to_le_bytes()), Ok(GGUFValue::I64(i64::MAX)));
    assert_eq!(value_of(12, &(-0.25f64).to_le_bytes()), Ok(GGUFValue::F64((-0.25f64).to_bits())));
}

#[test]
fn scalar_cut_short_is_unexpected() {
    assert_eq!(value_of(0, &[]), Err(GGUFReaderErrorKind::Unexpected));
    assert_eq!(value_of(3, &[1]), Err(GGUFReaderErrorKind::Unexpected));
    assert_eq!(value_of(4, &[1, 2, 3]), Err(GGUFReaderErrorKind::Unexpected));
    assert_eq!(value_of(12, &[1, 2, 3, 4, 5, 6, 7]), Err(GGUFReaderErrorKind::Unexpected));
    let mut reader = GGUFReader::new(vec![4, 0, 0]);
    assert_eq!(reader.read_value().unwrap_err().kind(), GGUFReaderErrorKind::Unexpected);
}

#[test]
fn boolean_must_be_zero_or_one() {
    assert_eq!(value_of(7, &[0]), Ok(GGUFValue::Bool(0)));
    assert_eq!(value_of(7, &[1]), Ok(GGUFValue::Bool(1)));
    assert_eq!(value_of(7, &[2]), Err(GGUFReaderErrorKind::DataError));
    assert_eq!(value_of(7, &[255]), Err(GGUFReaderErrorKind::DataError));
    assert_eq!(value_of(7, &[]), Err(GGUFReaderErrorKind::Unexpected));
}

#[test]
fn first_error_in_an_array_wins() {
    // the bad boolean comes before the place where the input ends
    assert_eq!(value_of(9, &array(7, 4, &[1, 3])), Err(GGUFReaderErrorKind::DataError));
    // the input ends before the bad boolean would come
    assert_eq!(value_of(9, &array(7, 4, &[1, 0])), Err(GGUFReaderErrorKind::Unexpected));
    assert_eq!(
        value_of(9, &array(7, 3, &[1, 0, 1])),
        Ok(GGUFValue::Array(
            GGUFValueType::Bool,
            vec![GGUFValue::Bool(1), GGUFValue::Bool(0), GGUFValue::Bool(1)]
        ))
    );
}

#[test]
fn text_is_utf8_with_its_length_in_front() {
    assert_eq!(value_of(8, &text("")), Ok(GGUFValue::String(String::new())));
    assert_eq!(value_of(8, &text("llama")), Ok(GGUFValue::String("llama".to_string())));
    assert_eq!(
        value_of(8, &text("h\u{e9}llo \u{2713} \u{1f980}")),
        Ok(GGUFValue::String("h\u{e9}llo \u{2713} \u{1f980}".to_string()))
    );
    // a zero byte is part of the text, not its end
    assert_eq!(value_of(8, &text("a\0b")), Ok(GGUFValue::String("a\0b".to_string())));
}

#[test]
fn text_that_is_not_utf8_is_a_data_error() {
    let mut payload = 2u64.to_le_bytes().to_vec();
    payload.extend_from_slice(&[0xc3, 0x28]);
    assert_eq!(value_of(8, &payload), Err(GGUFReaderErrorKind::DataError));
    let mut payload = 1u64.to_le_bytes().to_vec();
    payload.push(0xff);
    assert_eq!(value_of(8, &payload), Err(GGUFReaderErrorKind::DataError));
}

#[test]
fn text_cut_short_is_unexpected() {
    assert_eq!(value_of(8, &[5, 0, 0]), Err(GGUFReaderErrorKind::Unexpected));
    let mut payload = 5u64.to_le_bytes().to_vec();
    payload.extend_from_slice(b"llam");
    assert_eq!(value_of(8, &payload), Err(GGUFReaderErrorKind::Unexpected));
    // a length beyond anything that could follow
    assert_eq!(value_of(8, &u64::MAX.to_le_bytes()), Err(GGUFReaderErrorKind::Unexpected));
}

#[test]
fn unknown_type_tag_is_a_data_error() {
    assert_eq!(value_of(13, &[0; 16]), Err(GGUFReaderErrorKind::DataError));
    assert_eq!(value_of(u32::MAX, &[0; 16]), Err(GGUFReaderErrorKind::DataError));
    assert_eq!(value_of(9, &array(13, 0, &[])), Err(GGUFReaderErrorKind::DataError));
    // the element tag is looked at once the count is read too
    assert_eq!(value_of(9, &13u32.to_le_bytes()), Err(GGUFReaderErrorKind::Unexpected));
}

#[test]
fn arrays_of_texts_and_of_arrays() {
    let mut elems = text("a");
    elems.extend(text("bc"));
    assert_eq!(
        value_of(9, &array(8, 2, &elems)),
        Ok(GGUFValue::Array(
            GGUFValueType::String,
            vec![GGUFValue::String("a".to_string()), GGUFValue::String("bc".to_string())]
        ))
    );
    let mut inner = array(2, 2, &[1, 0, 2, 0]);
    inner.extend(array(0, 0, &[]));
    inner.extend(array(1, 1, &[0xff]));
    assert_eq!(
        value_of(9, &array(9, 3, &inner)),
        Ok(GGUFValue::Array(
            GGUFValueType::Array,
            vec![
                GGUFValue::Array(GGUFValueType::U16, vec![GGUFValue::U16(1), GGUFValue::U16(2)]),
                GGUFValue::Array(GGUFValueType::U8, vec![]),
                GGUFValue::Array(GGUFValueType::I8, vec![GGUFValue::I8(-1)]),
            ]
        ))
    );
    assert_eq!(value_of(9, &array(4, 0, &[])), Ok(GGUFValue::Array(GGUFValueType::U32, vec![])));
}

#[test]
fn array_with_a_count_beyond_the_input_is_unexpected() {
    assert_eq!(value_of(9, &array(0, u64::MAX, &[1, 2, 3])), Err(GGUFReaderErrorKind::Unexpected));
    assert_eq!(value_of(9, &array(10, 2, &[0; 15])), Err(GGUFReaderErrorKind::Unexpected));
}

#[test]
fn value_knows_its_type() {
    assert_eq!(GGUFValue::U8(1).value_type(), GGUFValueType::U8);
    assert_eq!(GGUFValue::F64(0).value_type(), GGUFValueType::F64);
    assert_eq!(GGUFValue::String(String::new()).value_type(), GGUFValueType::String);
    assert_eq!(GGUFValue::Array(GGUFValueType::I8, vec![]).value_type(), GGUFValueType::Array);
}

#[test]
fn type_tags_go_from_zero_to_twelve() {
    let types = [
        GGUFValueType::U8,
        GGUFValueType::I8,
        GGUFValueType::U16,
        GGUFValueType::I16,
        GGUFValueType::U32,
        GGUFValueType::I32,
        GGUFValueType::F32,
        GGUFValueType::Bool,
        GGUFValueType::String,
        GGUFValueType::Array,
        GGUFValueType::U64,
        GGUFValueType::I64,
        GGUFValueType::F64,
    ];
    for (tag, ty) in types.iter().enumerate() {
        assert_eq!(ty.tag(), tag as u32);
        assert_eq!(GGUFValueType::from_tag(tag as u32), Some(*ty));
    }
    assert_eq!(GGUFValueType::from_tag(13), None);
    assert_eq!(GGUFValueType::F32.width(), Some(4));
    assert_eq!(GGUFValueType::I64.width(), Some(8));
    assert_eq!(GGUFValueType::Bool.width(), Some(1));
    assert_eq!(GGUFValueType::String.width(), None);
    assert_eq!(GGUFValueType::Array.width(), None);
}

#[test]
fn metadata_keep_their_order_and_are_found_by_key() {
    let mut bytes = head(0, 3);
    bytes.extend(entry("general.name", 8, &text("tiny")));
    bytes.extend(entry("general.file_type", 4, &7u32.to_le_bytes()));
    bytes.extend(entry("general.quantization_version", 10, &9u64.to_le_bytes()));
    let header = GGUFReader::new(bytes).decode().unwrap();
    assert_eq!(header.metadata_len(), 3);
    let (key, value) = header.entry(1).unwrap();
    assert_eq!(key.as_str(), "general.file_type");
    assert_eq!(*value, GGUFValue::U32(7));
    assert!(header.entry(3).is_none());
    assert_eq!(header.get(KEY_GENERAL_NAME), Some(&GGUFValue::String("tiny".to_string())));
    assert_eq!(header.get("general.quantization_version"), Some(&GGUFValue::U64(9)));
    assert_eq!(header.get("general.author"), None);
    assert_eq!(header.get(""), None);
}

#[test]
fn duplicate_key_is_a_data_error() {
    let mut bytes = head(0, 3);
    bytes.extend(entry("a", 0, &[1]));
    bytes.extend(entry("b", 0, &[2]));
    bytes.extend(entry("a", 0, &[3]));
    let mut reader = GGUFReader::new(bytes);
    assert_eq!(reader.decode().unwrap_err().kind(), GGUFReaderErrorKind::DataError);
    assert_eq!(reader.position(), 0);
}

#[test]
fn duplicate_key_is_found_once_its_value_is_decoded() {
    let mut bytes = head(0, 2);
    bytes.extend(entry("a", 0, &[1]));
    bytes.extend(entry("a", 4, &[3]));
    assert_eq!(
        GGUFReader::new(bytes).decode().unwrap_err().kind(),
        GGUFReaderErrorKind::Unexpected
    );
}

#[test]
fn tensor_table_is_read_in_order() {
    let mut bytes = head(2, 0);
    bytes.extend(text("token_embd.weight"));
    bytes.extend_from_slice(&2u32.to_le_bytes());
    bytes.extend_from_slice(&4096u64.to_le_bytes());
    bytes.extend_from_slice(&32000u64.to_le_bytes());
    bytes.extend_from_slice(&12u32.to_le_bytes());
    bytes.extend_from_slice(&0u64.to_le_bytes());
    bytes.extend(text("output_norm.weight"));
    bytes.extend_from_slice(&1u32.to_le_bytes());
    bytes.extend_from_slice(&4096u64.to_le_bytes());
    bytes.extend_from_slice(&0u32.to_le_bytes());
    bytes.extend_from_slice(&73_728_000u64.to_le_bytes());
    let total = bytes.len();
    let mut reader = GGUFReader::new(bytes.clone());
    let header = reader.decode().unwrap();
    let tensors = reader.read_tensor_table(header.tensor_count()).unwrap();
    assert_eq!(reader.position(), total);
    assert_eq!(
        tensors,
        vec![
            TensorDescriptor {
                name: "token_embd.weight".to_string(),
                dimensions: vec![4096, 32000],
                kind: 12,
                offset: 0,
            },
            TensorDescriptor {
                name: "output_norm.weight".to_string(),
                dimensions: vec![4096],
                kind: 0,
                offset: 73_728_000,
            },
        ]
    );
    assert_eq!(tensors[0].n_dims(), 2);
    assert_eq!(tensors[1].n_dims(), 1);
    // every cut inside the table is a short read, and the reader stays put
    for n in 24..total {
        let mut reader = GGUFReader::new(bytes[..n].to_vec());
        reader.decode().unwrap();
        let err = reader.read_tensor_table(2).unwrap_err();
        assert_eq!(err.kind(), GGUFReaderErrorKind::Unexpected);
        assert_eq!(reader.position(), 24);
    }
}

#[test]
fn tensor_without_dimensions_and_with_an_unknown_kind() {
    let mut bytes = text("x");
    bytes.extend_from_slice(&0u32.to_le_bytes());
    bytes.extend_from_slice(&0xdead_beefu32.to_le_bytes());
    bytes.extend_from_slice(&64u64.to_le_bytes());
    let mut reader = GGUFReader::new(bytes);
    let tensors = reader.read_tensor_table(1).unwrap();
    assert_eq!(
        tensors,
        vec![TensorDescriptor {
            name: "x".to_string(),
            dimensions: vec![],
            kind: 0xdead_beef,
            offset: 64
        }]
    );
}

#[test]
fn tensor_name_that_is_not_utf8_is_a_data_error() {
    let mut bytes = 1u64.to_le_bytes().to_vec();
    bytes.push(0x80);
    bytes.extend_from_slice(&[0; 16]);
    let mut reader = GGUFReader::new(bytes);
    assert_eq!(reader.read_tensor_table(1).unwrap_err().kind(), GGUFReaderErrorKind::DataError);
}

#[test]
fn data_section_starts_at_the_next_multiple_of_the_alignment() {
    assert_eq!(align_position(0, 32).unwrap(), 0);
    assert_eq!(align_position(1, 32).unwrap(), 32);
    assert_eq!(align_position(32, 32).unwrap(), 32);
    assert_eq!(align_position(33, 32).unwrap(), 64);
    assert_eq!(align_position(100, 7).unwrap(), 105);
    assert_eq!(align_position(5, 1).unwrap(), 5);
    assert_eq!(align_position(usize::MAX - 3, 4).unwrap() as u128, usize::MAX as u128 - 3);
    if usize::MAX as u128 == u64::MAX as u128 {
        assert_eq!(
            align_position(usize::MAX - 2, 4).unwrap_err().kind(),
            GGUFReaderErrorKind::Unexpected
        );
    }
}

#[test]
fn alignment_comes_from_the_metadata_or_is_32() {
    let mut reader = GGUFReader::new(head(0, 0));
    let header = reader.decode().unwrap();
    assert_eq!(header.alignment().unwrap(), 32);
    assert_eq!(reader.data_section_start(&header).unwrap(), 32);

    let mut bytes = head(0, 1);
    bytes.extend(entry("general.alignment", 4, &64u32.to_le_bytes()));
    let mut reader = GGUFReader::new(bytes);
    let header = reader.decode().unwrap();
    assert_eq!(header.alignment().unwrap(), 64);
    assert_eq!(reader.position(), 24 + 8 + 17 + 4 + 4);
    assert_eq!(reader.data_section_start(&header).unwrap(), 64);
}

#[test]
fn alignment_of_zero_or_of_another_type_is_a_data_error() {
    let mut bytes = head(0, 1);
    bytes.extend(entry("general.alignment", 4, &0u32.to_le_bytes()));
    let mut reader = GGUFReader::new(bytes);
    let header = reader.decode().unwrap();
    assert_eq!(header.alignment().unwrap_err().kind(), GGUFReaderErrorKind::DataError);
    assert_eq!(
        reader.data_section_start(&header).unwrap_err().kind(),
        GGUFReaderErrorKind::DataError
    );
    let mut bytes = head(0, 1);
    bytes.extend(entry("general.alignment", 10, &64u64.to_le_bytes()));
    let header = GGUFReader::new(bytes).decode().unwrap();
    assert_eq!(header.alignment().unwrap_err().kind(), GGUFReaderErrorKind::DataError);
}

#[test]
fn key_template_takes_the_architecture_for_its_placeholder() {
    assert_eq!(resolve_key(KEY_CONTEXT_LENGTH, "llama"), "llama.context_length");
    assert_eq!(resolve_key(KEY_ROPE_FREQ_BASE, "falcon"), "falcon.rope.freq_base");
    assert_eq!(resolve_key(KEY_GENERAL_NAME, "llama"), "general.name");
    assert_eq!(resolve_key("{arch}", ""), "");
    assert_eq!(resolve_key("", "llama"), "");
    assert_eq!(resolve_key("a.{arch}.{arch}", "x"), "a.x.x");
    assert_eq!(resolve_key("{arch", "x"), "{arch");
    assert_eq!(resolve_key("{{arch}}", "gpt2"), "{gpt2}");
    assert_eq!(resolve_key("{arch}.\u{e9}", "m\u{fc}"), "m\u{fc}.\u{e9}");
    // what comes in with the architecture is not looked at again
    assert_eq!(resolve_key("{arch}", "{arch}"), "{arch}");
}

#[test]
fn resolver_tells_a_missing_architecture_from_an_absent_key() {
    let mut bytes = head(0, 2);
    bytes.extend(entry("general.architecture", 8, &text("llama")));
    bytes.extend(entry("llama.context_length", 4, &2048u32.to_le_bytes()));
    let header = GGUFReader::new(bytes).decode().unwrap();
    assert_eq!(header.architecture().unwrap(), "llama");
    assert_eq!(header.get_resolved(KEY_CONTEXT_LENGTH).unwrap(), Some(&GGUFValue::U32(2048)));
    assert_eq!(header.get_resolved(KEY_ROPE_FREQ_BASE).unwrap(), None);
    assert_eq!(
        header.get_resolved("general.architecture").unwrap(),
        Some(&GGUFValue::String("llama".to_string()))
    );

    let mut bytes = head(0, 1);
    bytes.extend(entry("llama.context_length", 4, &2048u32.to_le_bytes()));
    let header = GGUFReader::new(bytes).decode().unwrap();
    assert_eq!(header.architecture().unwrap_err().kind(), GGUFReaderErrorKind::DataError);
    let err = header.get_resolved(KEY_CONTEXT_LENGTH).unwrap_err();
    assert_eq!(err.kind(), GGUFReaderErrorKind::DataError);
    assert_eq!(err.msg(), MSG_NO_ARCHITECTURE);
    assert_eq!(err.msg(), "key not found: general.architecture");

    // an architecture that is no text names none
    let mut bytes = head(0, 1);
    bytes.extend(entry("general.architecture", 4, &1u32.to_le_bytes()));
    let header = GGUFReader::new(bytes).decode().unwrap();
    assert_eq!(header.architecture().unwrap_err().kind(), GGUFReaderErrorKind::DataError);
}

#[test]
fn reader_goes_on_behind_what_it_has_read() {
    let mut bytes = Vec::new();
    bytes.extend_from_slice(&0u32.to_le_bytes());
    bytes.push(7);
    bytes.extend_from_slice(&8u32.to_le_bytes());
    bytes.extend(text("x"));
    bytes.extend_from_slice(&99u32.to_le_bytes());
    let mut reader = GGUFReader::new(bytes);
    assert_eq!(reader.read_value().unwrap(), GGUFValue::U8(7));
    assert_eq!(reader.position(), 5);
    assert_eq!(reader.read_value().unwrap(), GGUFValue::String("x".to_string()));
    assert_eq!(reader.position(), 18);
    assert_eq!(reader.read_value().unwrap_err().kind(), GGUFReaderErrorKind::DataError);
    assert_eq!(reader.position(), 18);
    assert_eq!(reader.remaining(), 4);
}

#[test]
fn tensor_table_must_have_distinct_names_and_ordered_offsets() {
    let t = |name: &str, offset: u64| TensorDescriptor {
        name: name.to_string(),
        dimensions: vec![1],
        kind: 0,
        offset,
    };
    assert!(tensor_table_is_valid(&vec![]));
    assert!(tensor_table_is_valid(&vec![t("a", 5)]));
    assert!(tensor_table_is_valid(&vec![t("a", 0), t("b", 0), t("c", 64)]));
    assert!(!tensor_table_is_valid(&vec![t("a", 0), t("b", 64), t("c", 32)]));
    assert!(!tensor_table_is_valid(&vec![t("a", 0), t("b", 32), t("a", 64)]));
    assert!(!tensor_table_is_valid(&vec![t("a", 1), t("a", 0)]));
}

#[test]
fn clone_of_a_value_is_equal_to_it() {
    let v = GGUFValue::Array(
        GGUFValueType::Array,
        vec![
            GGUFValue::Array(
                GGUFValueType::String,
                vec![GGUFValue::String("a".to_string()), GGUFValue::String("\u{e9}".to_string())],
            ),
            GGUFValue::Array(GGUFValueType::F64, vec![GGUFValue::F64(1.5f64.to_bits())]),
            GGUFValue::Array(GGUFValueType::Bool, vec![]),
        ],
    );
    assert_eq!(v.clone(), v);
    assert_eq!(GGUFValue::I64(-9).clone(), GGUFValue::I64(-9));
    assert_ne!(v.clone(), GGUFValue::Array(GGUFValueType::Array, vec![]));
}

#[test]
fn decoding_behind_the_end_of_the_input_is_unexpected() {
    let bytes = head(0, 0);
    let beyond = bytes.len() + 1;
    let kind = GGUFReaderErrorKind::Unexpected;
    assert_eq!(read_value(&bytes, beyond).unwrap_err().kind(), kind);
    assert_eq!(read_payload(&bytes, beyond, GGUFValueType::U8).unwrap_err().kind(), kind);
    assert_eq!(read_items(&bytes, beyond, GGUFValueType::U8, 0).unwrap_err().kind(), kind);
    assert_eq!(read_entry(&bytes, beyond).unwrap_err().kind(), kind);
    assert_eq!(read_entries(&bytes, beyond, 0).unwrap_err().kind(), kind);
    assert_eq!(read_entries(&bytes, beyond, 3).unwrap_err().kind(), kind);
    assert_eq!(read_header(&bytes, beyond).unwrap_err().kind(), kind);
    assert_eq!(read_tensor(&bytes, beyond).unwrap_err().kind(), kind);
    assert_eq!(read_tensors(&bytes, beyond, 0).unwrap_err().kind(), kind);
    assert_eq!(read_tensors(&bytes, usize::MAX, 2).unwrap_err().kind(), kind);
    // at the very end nothing is left to read, but nothing is an empty table
    assert_eq!(read_items(&bytes, bytes.len(), GGUFValueType::U8, 0).unwrap().1, bytes.len());
    assert_eq!(read_entries(&bytes, bytes.len(), 0).unwrap().1, bytes.len());
    assert_eq!(read_tensors(&bytes, bytes.len(), 0).unwrap().1, bytes.len());
}

#[test]
fn decoding_from_the_middle_of_a_buffer() {
    let mut bytes = vec![0xaa; 5];
    bytes.extend(head(1, 1));
    bytes.extend(entry("k", 5, &(-1i32).to_le_bytes()));
    let end = bytes.len();
    bytes.extend_from_slice(&[0xbb; 3]);
    let (header, next) = read_header(&bytes, 5).unwrap();
    assert_eq!(next, end);
    assert_eq!(header.tensor_count(), 1);
    assert_eq!(header.get("k"), Some(&GGUFValue::I32(-1)));
}
