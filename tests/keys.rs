use dinky::dink::read_dink;
use dinky::error::DinkyError;
use dinky::keys::{find_pos, read_key, Keys, KEY1_START, KEY2_START};

#[test]
fn keys_need_their_sizes() {
    assert!(Keys::new(vec![0; 65536], vec![0; 256], vec![0; 1024]).is_ok());
    assert!(Keys::new(vec![0; 65536], vec![0; 256], vec![0; 2048]).is_ok());
    assert!(matches!(Keys::new(vec![0; 65535], vec![0; 256], vec![0; 1024]), Err(DinkyError::Key)));
    assert!(matches!(Keys::new(vec![0; 65536], vec![0; 255], vec![0; 1024]), Err(DinkyError::Key)));
    assert!(matches!(Keys::new(vec![0; 65536], vec![0; 256], vec![0; 1023]), Err(DinkyError::Key)));
}

#[test]
fn first_position_of_bytes() {
    assert_eq!(find_pos(&[1, 2, 3, 2, 3], &[2, 3]), Some(1));
    assert_eq!(find_pos(&[1, 2, 3], &[3]), Some(2));
    assert_eq!(find_pos(&[1, 2, 3], &[4]), None);
    assert_eq!(find_pos(&[1, 2], &[1, 2, 3]), None);
}

#[test]
fn key_bytes_after_pattern() {
    let data = [9u8, 5, 6, 7, 8];
    assert_eq!(read_key(&data, &[5, 6], 3), Ok(vec![5, 6, 7]));
    assert_eq!(read_key(&data, &[5, 6], 5), Err(DinkyError::Key));
    assert_eq!(read_key(&data, &[1], 1), Err(DinkyError::Key));
}

#[test]
fn keys_found_in_executable() {
    let mut exe = vec![0u8; 4_000_000];
    exe.extend_from_slice(&[1, 2, 3]);
    let mut k1 = KEY1_START.to_vec();
    k1.resize(65536, 0xAA);
    let mut k2 = KEY2_START.to_vec();
    k2.resize(256, 0xBB);
    exe.extend_from_slice(&k2);
    exe.extend_from_slice(&k1);
    let (a, b) = Keys::extract_from_exe(&exe).unwrap();
    assert_eq!(a, k1);
    assert_eq!(b, k2);
}

#[test]
fn keys_before_search_start_are_not_found() {
    let mut exe = KEY1_START.to_vec();
    exe.resize(65536, 0);
    exe.extend_from_slice(&KEY2_START);
    exe.resize(4_000_100, 0);
    assert_eq!(Keys::extract_from_exe(&exe), Err(DinkyError::Key));
    assert_eq!(Keys::extract_from_exe(&[1, 2, 3]), Err(DinkyError::Key));
}

fn dink(header_marker: u32, name_marker: u32, name_size: u32) -> Vec<u8> {
    let mut v = Vec::new();
    v.extend_from_slice(&0x4541_789Cu32.to_le_bytes());
    v.extend_from_slice(&100u32.to_le_bytes());
    v.extend_from_slice(&header_marker.to_le_bytes());
    v.extend_from_slice(&1u32.to_le_bytes());
    v.extend_from_slice(&2u32.to_le_bytes());
    v.extend_from_slice(&3u16.to_le_bytes());
    v.extend_from_slice(&name_marker.to_le_bytes());
    v.extend_from_slice(&name_size.to_le_bytes());
    v
}

#[test]
fn dink_header() {
    assert_eq!(read_dink(&dink(0x7F46_A125, 0x16F9_4B62, 1234)), Ok(vec!["1234".to_string()]));
    assert_eq!(read_dink(&dink(0x7F46_A125, 0x16F9_4B62, 0)), Ok(vec!["0".to_string()]));
    assert_eq!(read_dink(&dink(0x7F46_A126, 0x16F9_4B62, 7)), Err(DinkyError::Format));
    assert_eq!(read_dink(&dink(0x7F46_A125, 0, 7)), Err(DinkyError::Format));
    assert_eq!(read_dink(&vec![0; 29]), Err(DinkyError::Format));
}
