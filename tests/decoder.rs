use dinky::decoder::{decode_data, decode_yack_data};
use dinky::error::DinkyError;

fn key1() -> Vec<u8> {
    (0..65536usize).map(|i| (i % 251) as u8).collect()
}

fn key2() -> Vec<u8> {
    (0..256usize).map(|i| i as u8).collect()
}

fn key3() -> Vec<u8> {
    (0..1024usize).map(|i| (i % 256) as u8).collect()
}

#[test]
fn decode_known_bytes() {
    let mut data = vec![0u8, 0, 0];
    assert_eq!(decode_data(&mut data, &key1(), &key2()), Ok(()));
    assert_eq!(data, vec![136, 152, 149]);
}

#[test]
fn decode_twice_gives_back_the_input() {
    let input: Vec<u8> = (0..1000usize).map(|i| (i * 37 % 256) as u8).collect();
    let mut data = input.clone();
    decode_data(&mut data, &key1(), &key2()).unwrap();
    assert_ne!(data, input);
    decode_data(&mut data, &key1(), &key2()).unwrap();
    assert_eq!(data, input);
}

#[test]
fn decode_empty_buffer() {
    let mut data: Vec<u8> = Vec::new();
    assert_eq!(decode_data(&mut data, &key1(), &key2()), Ok(()));
    assert!(data.is_empty());
}

#[test]
fn decode_rejects_wrong_key_sizes() {
    let mut data = vec![1u8, 2, 3];
    let short1 = vec![0u8; 65535];
    assert_eq!(decode_data(&mut data, &short1, &key2()), Err(DinkyError::Key));
    let long2 = vec![0u8; 257];
    assert_eq!(decode_data(&mut data, &key1(), &long2), Err(DinkyError::Key));
    assert_eq!(data, vec![1, 2, 3]);
}

#[test]
fn script_layer_uses_name_length() {
    let mut data = vec![0u8, 0, 0];
    assert_eq!(decode_yack_data(&mut data, &key3(), "a.yack"), Ok(()));
    assert_eq!(data, vec![1, 2, 3]);
}

#[test]
fn script_layer_position_wraps_at_1024() {
    let name = format!("{}.yack", "x".repeat(1024));
    let mut data = vec![0u8, 0, 0];
    assert_eq!(decode_yack_data(&mut data, &key3(), &name), Ok(()));
    assert_eq!(data, vec![0, 1, 2]);
}

#[test]
fn script_layer_twice_gives_back_the_input() {
    let input: Vec<u8> = (0..3000usize).map(|i| (i * 11 % 256) as u8).collect();
    let mut data = input.clone();
    decode_yack_data(&mut data, &key3(), "dialogue.yack").unwrap();
    decode_yack_data(&mut data, &key3(), "dialogue.yack").unwrap();
    assert_eq!(data, input);
}

#[test]
fn script_layer_rejects_short_key() {
    let mut data = vec![5u8];
    let key = vec![0u8; 1023];
    assert_eq!(decode_yack_data(&mut data, &key, "a.yack"), Err(DinkyError::Key));
    assert_eq!(data, vec![5]);
}
