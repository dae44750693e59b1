use grit::compression::{compress, decompress};

#[test]
fn compresses_some_data() {
    let some_text = "Hello 👋";
    let some_text_compressed = compress(&some_text.as_bytes().to_vec()).unwrap();
    assert_eq!(
        some_text_compressed,
        vec![
            120, 156, 5, 192, 49, 17, 0, 0, 8, 2, 192, 42, 198, 177, 136, 27, 119, 6, 97, 34, 1,
            21, 137, 192, 239, 1, 63, 177, 88, 23, 63, 4, 192
        ]
    );
}

#[test]
fn decompresses_some_data() {
    let some_text_compressed = vec![
        120, 156, 5, 192, 49, 17, 0, 0, 8, 2, 192, 42, 198, 177, 136, 27, 119, 6, 97, 34, 1, 21,
        137, 192, 239, 1, 63, 177, 88, 23, 63, 4, 192,
    ];
    let some_decompressed_text = decompress(&some_text_compressed).unwrap();
    let some_decompressed_text = some_decompressed_text.as_slice();
    let some_text = String::from_utf8_lossy(some_decompressed_text);
    assert_eq!(some_text, "Hello 👋".to_string());
}

#[test]
fn round_trip_of_empty_input() {
    let compressed = compress(&[]).unwrap();
    assert!(!compressed.is_empty());
    assert_eq!(decompress(&compressed).unwrap(), Vec::<u8>::new());
}

#[test]
fn round_trip_of_binary_input() {
    let data: Vec<u8> = (0..2000u32).map(|i| (i * 7 % 251) as u8).collect();
    let compressed = compress(&data).unwrap();
    assert_ne!(compressed, data);
    assert_eq!(decompress(&compressed).unwrap(), data);
}

#[test]
fn decompress_rejects_garbage() {
    assert!(decompress(&[1, 2, 3]).is_err());
}
