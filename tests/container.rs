use dinky::directory::{GGValue, GGValueType};
use dinky::error::DinkyError;
use dinky::number::{count_value_at_most, is_float_text};

enum V {
    D(Vec<(&'static str, V)>),
    L(Vec<V>),
    S(&'static str),
    N(&'static str),
    Tagged(u8, &'static str),
}

fn index_of(strings: &mut Vec<String>, s: &str) -> u16 {
    match strings.iter().position(|x| x == s) {
        Some(i) => i as u16,
        None => {
            strings.push(s.to_string());
            (strings.len() - 1) as u16
        }
    }
}

fn encode(v: &V, strings: &mut Vec<String>, out: &mut Vec<u8>) {
    match v {
        V::D(entries) => {
            out.push(2);
            out.extend_from_slice(&(entries.len() as u32).to_le_bytes());
            for (k, x) in entries {
                let i = index_of(strings, k);
                out.extend_from_slice(&i.to_le_bytes());
                encode(x, strings, out);
            }
            out.push(2);
        }
        V::L(items) => {
            out.push(3);
            out.extend_from_slice(&(items.len() as u32).to_le_bytes());
            for x in items {
                encode(x, strings, out);
            }
            out.push(3);
        }
        V::S(s) => {
            out.push(4);
            let i = index_of(strings, s);
            out.extend_from_slice(&i.to_le_bytes());
        }
        V::N(s) => {
            out.push(5);
            let i = index_of(strings, s);
            out.extend_from_slice(&i.to_le_bytes());
        }
        V::Tagged(tag, s) => {
            out.push(*tag);
            let i = index_of(strings, s);
            out.extend_from_slice(&i.to_le_bytes());
        }
    }
}

fn container_bytes(root: &V) -> Vec<u8> {
    let mut strings = Vec::new();
    let mut stream = Vec::new();
    encode(root, &mut strings, &mut stream);
    let table_offset = 12 + stream.len();
    let table_len = 1 + 4 * strings.len() + 4;
    let mut out = Vec::new();
    out.extend_from_slice(&0x0403_0201u32.to_le_bytes());
    out.extend_from_slice(&1u32.to_le_bytes());
    out.extend_from_slice(&(table_offset as u32).to_le_bytes());
    out.extend_from_slice(&stream);
    out.push(7);
    let mut pos = table_offset + table_len;
    for s in &strings {
        out.extend_from_slice(&(pos as u32).to_le_bytes());
        pos += s.len() + 1;
    }
    out.extend_from_slice(&0xFFFF_FFFFu32.to_le_bytes());
    for s in &strings {
        out.extend_from_slice(s.as_bytes());
        out.push(0);
    }
    out
}

fn s(x: &str) -> GGValue {
    GGValue::GGString(x.to_string())
}

fn n(x: &str) -> GGValue {
    GGValue::GGNumber(x.to_string())
}

#[test]
fn container_round_trip() {
    let bytes = container_bytes(&V::D(vec![
        ("name", V::S("Melee")),
        ("count", V::N("3")),
        ("scale", V::N("1.5")),
        ("items", V::L(vec![V::S("a"), V::N("-2"), V::D(vec![])])),
        ("nested", V::D(vec![("inner", V::L(vec![]))])),
    ]));
    let parsed = GGValue::parse(bytes).unwrap();
    let expected = GGValue::GGDict(vec![
        ("name".to_string(), s("Melee")),
        ("count".to_string(), n("3")),
        ("scale".to_string(), n("1.5")),
        (
            "items".to_string(),
            GGValue::GGList(vec![s("a"), n("-2"), GGValue::GGDict(vec![])]),
        ),
        (
            "nested".to_string(),
            GGValue::GGDict(vec![("inner".to_string(), GGValue::GGList(vec![]))]),
        ),
    ]);
    assert_eq!(parsed, expected);
}

#[test]
fn container_scalar_root() {
    let bytes = container_bytes(&V::S("just text"));
    assert_eq!(GGValue::parse(bytes), Ok(s("just text")));
}

#[test]
fn container_coordinate_tags_read_as_strings() {
    let bytes = container_bytes(&V::L(vec![
        V::Tagged(9, "{1,2}"),
        V::Tagged(10, "{{1,2},{3,4}}"),
        V::Tagged(11, "{{0,0},{5,5}}"),
        V::Tagged(6, "2.25"),
    ]));
    let expected = GGValue::GGList(vec![
        s("{1,2}"),
        s("{{1,2},{3,4}}"),
        s("{{0,0},{5,5}}"),
        n("2.25"),
    ]);
    assert_eq!(GGValue::parse(bytes), Ok(expected));
}

#[test]
fn container_repeated_key_keeps_first_place_and_last_value() {
    let bytes = container_bytes(&V::D(vec![
        ("a", V::S("1")),
        ("b", V::S("2")),
        ("a", V::S("3")),
    ]));
    let expected = GGValue::GGDict(vec![("a".to_string(), s("3")), ("b".to_string(), s("2"))]);
    assert_eq!(GGValue::parse(bytes), Ok(expected));
}

#[test]
fn container_bad_magic() {
    let mut bytes = container_bytes(&V::S("x"));
    bytes[0] = 9;
    assert_eq!(GGValue::parse(bytes), Err(DinkyError::Format));
}

#[test]
fn container_bad_table_kind() {
    let mut bytes = container_bytes(&V::S("x"));
    let t = u32::from_le_bytes([bytes[8], bytes[9], bytes[10], bytes[11]]) as usize;
    bytes[t] = 8;
    assert_eq!(GGValue::parse(bytes), Err(DinkyError::Format));
}

#[test]
fn container_unknown_tag() {
    let mut bytes = container_bytes(&V::S("x"));
    bytes[12] = 7;
    assert_eq!(GGValue::parse(bytes), Err(DinkyError::Format));
}

#[test]
fn container_bad_end_marker() {
    let mut bytes = container_bytes(&V::L(vec![V::S("x")]));
    // list tag, count, one string value (3 bytes), then the end marker
    bytes[12 + 1 + 4 + 3] = 2;
    assert_eq!(GGValue::parse(bytes), Err(DinkyError::Format));
}

#[test]
fn container_index_out_of_range() {
    let mut bytes = container_bytes(&V::S("x"));
    bytes[13] = 5;
    assert_eq!(GGValue::parse(bytes), Err(DinkyError::Format));
}

#[test]
fn container_not_utf8() {
    let mut bytes = container_bytes(&V::S("xy"));
    let last = bytes.len() - 2;
    bytes[last] = 0xFF;
    assert_eq!(GGValue::parse(bytes), Err(DinkyError::Format));
}

#[test]
fn container_bad_number_text() {
    let bytes = container_bytes(&V::N("twelve"));
    assert_eq!(GGValue::parse(bytes), Err(DinkyError::Format));
}

#[test]
fn container_truncated() {
    let bytes = container_bytes(&V::L(vec![V::S("x"), V::S("y")]));
    let cut = bytes[..14].to_vec();
    assert_eq!(GGValue::parse(cut), Err(DinkyError::Format));
    assert_eq!(GGValue::parse(Vec::new()), Err(DinkyError::Format));
}

#[test]
fn value_type_tags() {
    assert_eq!(GGValueType::from_tag(2), Some(GGValueType::Dictionary));
    assert_eq!(GGValueType::from_tag(6), Some(GGValueType::Float));
    assert_eq!(GGValueType::from_tag(11), Some(GGValueType::Hotspot));
    assert_eq!(GGValueType::from_tag(7), None);
    assert_eq!(GGValueType::CoordinateList.tag(), 10);
}

#[test]
fn accessors_are_typed() {
    let v = s("x");
    assert_eq!(v.expect_string(), Some(&"x".to_string()));
    assert!(v.expect_dict().is_none());
    assert!(v.expect_list().is_none());
    assert!(v.expect_number().is_none());
    assert_eq!(n("4").expect_number(), Some(&"4".to_string()));
}

#[test]
fn float_texts() {
    for t in ["1.5", "-2", "+7", "1e5", "2.5E-3", "inf", "-Infinity", "NaN", ".5", "5.", "007"] {
        assert!(is_float_text(t), "{}", t);
    }
    for t in ["", ".", "abc", "1e", "1.2.3", "e5", "--1", " 1", "1 ", "infinit", "0x10"] {
        assert!(!is_float_text(t), "{}", t);
    }
}

fn entry(name: &'static str, offset: &'static str, size: &'static str) -> V {
    V::D(vec![("filename", V::S(name)), ("offset", V::N(offset)), ("size", V::N(size))])
}

#[test]
fn directory_files_in_order() {
    let bytes = container_bytes(&V::D(vec![(
        "files",
        V::L(vec![entry("a.yack", "8", "20"), entry("b.bank", "4294967296", "3")]),
    )]));
    let files = GGValue::parse(bytes).unwrap().get_files().unwrap();
    assert_eq!(files.len(), 2);
    assert_eq!(files[0].filename, "a.yack");
    assert_eq!(files[0].offset, 8);
    assert_eq!(files[0].size, 20);
    assert_eq!(files[1].filename, "b.bank");
    assert_eq!(files[1].offset, 4294967296);
    assert_eq!(files[1].size, 3);
}

#[test]
fn directory_without_files_key() {
    let bytes = container_bytes(&V::D(vec![("other", V::L(vec![]))]));
    assert_eq!(GGValue::parse(bytes).unwrap().get_files(), Err(DinkyError::NotFound));
}

#[test]
fn directory_files_not_a_list() {
    let bytes = container_bytes(&V::D(vec![("files", V::S("x"))]));
    assert_eq!(GGValue::parse(bytes).unwrap().get_files(), Err(DinkyError::Format));
    let root_list = container_bytes(&V::L(vec![]));
    assert_eq!(GGValue::parse(root_list).unwrap().get_files(), Err(DinkyError::Format));
}

#[test]
fn directory_entry_missing_size() {
    let bytes = container_bytes(&V::D(vec![(
        "files",
        V::L(vec![V::D(vec![("filename", V::S("a")), ("offset", V::N("1"))])]),
    )]));
    assert_eq!(GGValue::parse(bytes).unwrap().get_files(), Err(DinkyError::NotFound));
}

#[test]
fn directory_entry_fractional_offset() {
    let bytes = container_bytes(&V::D(vec![("files", V::L(vec![entry("a", "1.5", "2")]))]));
    assert_eq!(GGValue::parse(bytes).unwrap().get_files(), Err(DinkyError::Format));
}

#[test]
fn directory_entry_name_not_a_string() {
    let bytes = container_bytes(&V::D(vec![(
        "files",
        V::L(vec![V::D(vec![("filename", V::N("1")), ("offset", V::N("1")), ("size", V::N("1"))])]),
    )]));
    assert_eq!(GGValue::parse(bytes).unwrap().get_files(), Err(DinkyError::Format));
}

#[test]
fn directory_counts_in_any_number_form() {
    let bytes = container_bytes(&V::D(vec![(
        "files",
        V::L(vec![entry("a", "12.0", "1e3"), entry("b", "1200e-2", "-0"), entry("c", "+7", "0.5E1")]),
    )]));
    let files = GGValue::parse(bytes).unwrap().get_files().unwrap();
    assert_eq!((files[0].offset, files[0].size), (12, 1000));
    assert_eq!((files[1].offset, files[1].size), (12, 0));
    assert_eq!((files[2].offset, files[2].size), (7, 5));
}

#[test]
fn directory_counts_that_are_not_whole() {
    for bad in ["-1", "0.5", "1e30", "inf", "NaN", "12.5e0", "18446744073709551616"] {
        let bytes = container_bytes(&V::D(vec![("files", V::L(vec![entry("a", bad, "1")]))]));
        assert_eq!(GGValue::parse(bytes).unwrap().get_files(), Err(DinkyError::Format), "{}", bad);
    }
}

#[test]
fn count_values() {
    assert_eq!(count_value_at_most("42", u64::MAX), Some(42));
    assert_eq!(count_value_at_most("4.20e1", u64::MAX), Some(42));
    assert_eq!(count_value_at_most("0.000e999999999999999999999999", u64::MAX), Some(0));
    assert_eq!(count_value_at_most("1e-999999999999999999999999", u64::MAX), None);
    assert_eq!(count_value_at_most("100e-2", u64::MAX), Some(1));
    assert_eq!(count_value_at_most("18446744073709551615", u64::MAX), Some(u64::MAX));
    assert_eq!(count_value_at_most("1.8446744073709551615e19", u64::MAX), Some(u64::MAX));
    assert_eq!(count_value_at_most("256", 255), None);
    assert_eq!(count_value_at_most("-0.0", 10), Some(0));
    assert_eq!(count_value_at_most("abc", 10), None);
}
