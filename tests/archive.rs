use dinky::decoder::{decode_data, decode_yack_data};
use dinky::directory::GGValue;
use dinky::error::DinkyError;
use dinky::ggpack::{
    decode_at, glob_matches, handle_ktxbz, read_bytes, read_header, select_files, Extracted,
    GGFile, OpenGGPack,
};
use dinky::keys::Keys;
use dinky::reader::{read_metadata, read_root};

fn keys() -> Keys {
    Keys::new(
        (0..65536usize).map(|i| (i * 7 + 3) as u8).collect(),
        (0..256usize).map(|i| (i * 13 + 5) as u8).collect(),
        (0..1024usize).map(|i| (i * 31 + 11) as u8).collect(),
    )
    .unwrap()
}

fn container(strings: &[&str], stream: &[u8]) -> Vec<u8> {
    let table_offset = 12 + stream.len();
    let mut out = Vec::new();
    out.extend_from_slice(&0x0403_0201u32.to_le_bytes());
    out.extend_from_slice(&0u32.to_le_bytes());
    out.extend_from_slice(&(table_offset as u32).to_le_bytes());
    out.extend_from_slice(stream);
    out.push(7);
    let mut pos = table_offset + 1 + 4 * strings.len() + 4;
    for s in strings {
        out.extend_from_slice(&(pos as u32).to_le_bytes());
        pos += s.len() + 1;
    }
    out.extend_from_slice(&0xFFFF_FFFFu32.to_le_bytes());
    for s in strings {
        out.extend_from_slice(s.as_bytes());
        out.push(0);
    }
    out
}

fn str_value(out: &mut Vec<u8>, tag: u8, index: u16) {
    out.push(tag);
    out.extend_from_slice(&index.to_le_bytes());
}

/// A directory container listing the entries (name, offset, size).
fn directory(entries: &[(&str, usize, usize)]) -> Vec<u8> {
    let mut strings: Vec<String> = vec!["files".into(), "filename".into(), "offset".into(), "size".into()];
    let mut stream = Vec::new();
    stream.push(2);
    stream.extend_from_slice(&1u32.to_le_bytes());
    stream.extend_from_slice(&0u16.to_le_bytes());
    stream.push(3);
    stream.extend_from_slice(&(entries.len() as u32).to_le_bytes());
    for (name, offset, size) in entries {
        let base = strings.len() as u16;
        strings.push(name.to_string());
        strings.push(offset.to_string());
        strings.push(size.to_string());
        stream.push(2);
        stream.extend_from_slice(&3u32.to_le_bytes());
        stream.extend_from_slice(&1u16.to_le_bytes());
        str_value(&mut stream, 4, base);
        stream.extend_from_slice(&2u16.to_le_bytes());
        str_value(&mut stream, 5, base + 1);
        stream.extend_from_slice(&3u16.to_le_bytes());
        str_value(&mut stream, 5, base + 2);
        stream.push(2);
    }
    stream.push(3);
    stream.push(2);
    let refs: Vec<&str> = strings.iter().map(|s| s.as_str()).collect();
    container(&refs, &stream)
}

/// An archive whose entries are stored as given, with an encoded directory.
fn archive(entries: &[(&str, Vec<u8>)], k: &Keys) -> Vec<u8> {
    let mut out = vec![0u8; 8];
    let mut listed = Vec::new();
    for (name, stored) in entries {
        listed.push((*name, out.len(), stored.len()));
        out.extend_from_slice(stored);
    }
    let mut dir = directory(&listed);
    decode_data(&mut dir, &k.key1, &k.key2).unwrap();
    let dir_offset = out.len() as u32;
    let dir_size = dir.len() as u32;
    out.extend_from_slice(&dir);
    out[0..4].copy_from_slice(&dir_offset.to_le_bytes());
    out[4..8].copy_from_slice(&dir_size.to_le_bytes());
    out
}

fn encoded(plain: &[u8], k: &Keys) -> Vec<u8> {
    let mut v = plain.to_vec();
    decode_data(&mut v, &k.key1, &k.key2).unwrap();
    v
}

fn yack_plain() -> Vec<u8> {
    let mut body = vec![1u8];
    body.extend_from_slice(&0u64.to_le_bytes());
    body.push(0);
    body.extend_from_slice(&0i32.to_le_bytes());
    body.extend_from_slice(&1i32.to_le_bytes());
    body.push(0);
    let mut out = Vec::new();
    out.extend_from_slice(&0u32.to_le_bytes());
    out.extend_from_slice(&((8 + body.len()) as u32).to_le_bytes());
    out.extend_from_slice(&body);
    out.extend_from_slice(&0u32.to_le_bytes());
    out.extend_from_slice(&2u32.to_le_bytes());
    out.extend_from_slice(b"Guybrush\0Hello\0");
    out
}

fn find<'a>(files: &'a [GGFile], name: &str) -> &'a GGFile {
    files.iter().find(|f| f.filename == name).unwrap()
}

fn stored(pack: &[u8], f: &GGFile) -> Vec<u8> {
    read_bytes(pack, f.offset, f.size).unwrap()
}

#[test]
fn glob_selects_by_suffix() {
    let k = keys();
    let pack = archive(
        &[("a.yack", vec![1, 2]), ("b.bank", vec![3]), ("c.json", vec![4, 5, 6])],
        &k,
    );
    let open = OpenGGPack::from_bytes(&pack, k).unwrap();
    let chosen = open.find_files("*.yack").unwrap();
    let names: Vec<&str> = chosen.iter().map(|f| f.filename.as_str()).collect();
    assert_eq!(names, vec!["a.yack"]);
}

#[test]
fn exact_name_and_no_match() {
    let k = keys();
    let pack = archive(&[("a.yack", vec![1]), ("b.bank", vec![2])], &k);
    let open = OpenGGPack::from_bytes(&pack, k).unwrap();
    assert_eq!(open.find_files("b.bank").unwrap().len(), 1);
    assert_eq!(open.find_files("*.png"), Err(DinkyError::NotFound));
    assert_eq!(open.find_files("?.*").unwrap().len(), 2);
}

#[test]
fn list_in_directory_order() {
    let k = keys();
    let pack = archive(&[("z.txt", vec![1]), ("a.txt", vec![2]), ("m.txt", vec![3])], &k);
    let open = OpenGGPack::from_bytes(&pack, k).unwrap();
    assert_eq!(open.list_files().unwrap(), vec!["z.txt", "a.txt", "m.txt"]);
    let files = open.get_files().unwrap();
    assert_eq!(files[1].offset, 9);
    assert_eq!(files[1].size, 1);
}

#[test]
fn bank_entries_stay_as_stored() {
    let k = keys();
    let raw = vec![9u8, 8, 7, 6, 5];
    let pack = archive(&[("music.bank", raw.clone())], &k);
    let open = OpenGGPack::from_bytes(&pack, k).unwrap();
    let files = open.get_files().unwrap();
    let f = find(&files, "music.bank");
    let bytes = stored(&pack, f);
    assert_eq!(bytes, raw);
    assert_eq!(open.extract_file(f, bytes), Ok(Extracted::Raw(raw)));
}

#[test]
fn other_entries_are_decoded() {
    let k = keys();
    let plain = b"plain text".to_vec();
    let enc = encoded(&plain, &k);
    let pack = archive(&[("notes.txt", enc.clone())], &k);
    let open = OpenGGPack::from_bytes(&pack, k).unwrap();
    let files = open.get_files().unwrap();
    let f = find(&files, "notes.txt");
    assert_eq!(open.extract_file(f, stored(&pack, f)), Ok(Extracted::Raw(plain)));
}

#[test]
fn dialogue_scripts_are_decompiled() {
    let k = keys();
    let name = "intro.yack";
    let mut data = yack_plain();
    decode_yack_data(&mut data, &k.key3, name).unwrap();
    let enc = encoded(&data, &k);
    let pack = archive(&[(name, enc)], &k);
    let open = OpenGGPack::from_bytes(&pack, k).unwrap();
    let files = open.get_files().unwrap();
    let f = find(&files, name);
    assert_eq!(
        open.extract_file(f, stored(&pack, f)),
        Ok(Extracted::Script(vec!["Guybrush: SAY(Hello)".to_string()]))
    );
}

#[test]
fn structured_files_are_parsed() {
    let k = keys();
    let mut stream = Vec::new();
    str_value(&mut stream, 4, 0);
    let plain = container(&["value"], &stream);
    let pack = archive(&[("a.wimpy", encoded(&plain, &k)), ("bad.json", encoded(&[1, 2, 3], &k))], &k);
    let open = OpenGGPack::from_bytes(&pack, k).unwrap();
    let files = open.get_files().unwrap();
    let f = find(&files, "a.wimpy");
    assert_eq!(
        open.extract_file(f, stored(&pack, f)),
        Ok(Extracted::Tree(GGValue::GGString("value".to_string())))
    );
    let g = find(&files, "bad.json");
    assert_eq!(open.extract_file(g, stored(&pack, g)), Err(DinkyError::Format));
}

#[test]
fn textures_are_inflated() {
    let k = keys();
    let zlib = vec![120u8, 156, 243, 72, 205, 201, 201, 215, 81, 168, 202, 201, 76, 82, 4, 0, 27, 101, 4, 19];
    let broken = vec![1u8, 2, 3, 4];
    let pack = archive(&[("t.ktxbz", encoded(&zlib, &k)), ("u.ktxaz", encoded(&broken, &k))], &k);
    let open = OpenGGPack::from_bytes(&pack, k).unwrap();
    let files = open.get_files().unwrap();
    let f = find(&files, "t.ktxbz");
    assert_eq!(
        open.extract_file(f, stored(&pack, f)),
        Ok(Extracted::Texture(b"Hello, zlib!".to_vec()))
    );
    let g = find(&files, "u.ktxaz");
    assert_eq!(open.extract_file(g, stored(&pack, g)), Ok(Extracted::Uninflated(broken)));
}

#[test]
fn texture_outcome_from_inflate_result() {
    assert_eq!(handle_ktxbz(vec![1, 2], Some(vec![3])), Extracted::Texture(vec![3]));
    assert_eq!(handle_ktxbz(vec![1, 2], None), Extracted::Uninflated(vec![1, 2]));
}

#[test]
fn wrong_keys_are_refused() {
    let k = keys();
    let pack = archive(&[("a.txt", vec![1])], &k);
    let short = Keys { key1: vec![0; 10], key2: k.key2.clone(), key3: k.key3.clone() };
    assert!(matches!(OpenGGPack::from_bytes(&pack, short), Err(DinkyError::Key)));
}

#[test]
fn header_and_root() {
    let k = keys();
    let pack = archive(&[("a.txt", vec![1, 2, 3])], &k);
    let (offset, size) = read_header(&pack).unwrap();
    assert_eq!(offset, 11);
    let root = read_root(&pack, &k).unwrap();
    assert_eq!(root.len(), size);
    assert_eq!(root, decode_at(&pack, &k, offset, size).unwrap());
    assert_eq!(&root[0..4], &[1, 2, 3, 4]);
    assert_eq!(read_header(&[1, 2, 3]), Err(DinkyError::Format));
    let mut cut = pack.clone();
    cut.truncate(pack.len() - 1);
    assert_eq!(read_root(&cut, &k), Err(DinkyError::Format));
}

#[test]
fn byte_ranges() {
    let pack = vec![0u8, 1, 2, 3, 4];
    assert_eq!(read_bytes(&pack, 1, 3), Ok(vec![1, 2, 3]));
    assert_eq!(read_bytes(&pack, 5, 0), Ok(vec![]));
    assert_eq!(read_bytes(&pack, 4, 2), Err(DinkyError::Format));
    assert_eq!(read_bytes(&pack, 6, 0), Err(DinkyError::Format));
}

#[test]
fn metadata_lists_table_strings() {
    let dir = directory(&[("a.txt", 8, 1)]);
    assert_eq!(
        read_metadata(&dir).unwrap(),
        vec!["files", "filename", "offset", "size", "a.txt", "8", "1"]
    );
    assert_eq!(read_metadata(&vec![0, 1, 2]), Err(DinkyError::Format));
}

#[test]
fn glob_patterns() {
    assert!(glob_matches("*.yack", "a.yack"));
    assert!(!glob_matches("*.yack", "a.yack.bak"));
    assert!(glob_matches("a?c", "abc"));
    assert!(!glob_matches("a?c", "ac"));
    assert!(glob_matches("*", ""));
    assert!(glob_matches("x*y*z", "xaaybbz"));
    assert!(!glob_matches("", "a"));
}

#[test]
fn selecting_from_a_list() {
    let files = vec![
        GGFile { filename: "a.yack".into(), size: 1, offset: 0 },
        GGFile { filename: "b.bank".into(), size: 2, offset: 1 },
    ];
    let chosen = select_files(&files, "*.bank").unwrap();
    assert_eq!(chosen, vec![GGFile { filename: "b.bank".into(), size: 2, offset: 1 }]);
    assert_eq!(select_files(&files, "c.json"), Err(DinkyError::NotFound));
    assert_eq!(select_files(&Vec::new(), "*"), Err(DinkyError::NotFound));
}
