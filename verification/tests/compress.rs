use qrtransfer::compress::compress;
use qrtransfer::compress::decompress;
use qrtransfer::utils::hash;

#[test]
fn test_compress() {
    let data: Vec<u8> = vec![
        119, 115, 108, 32, 47, 104, 111, 109, 101, 47, 108, 120, 117, 119, 115, 108, 47, 109, 105,
        110, 105, 99, 111, 110, 100, 97, 51, 47, 98, 105, 110, 47, 105, 112, 121, 116, 104, 111,
        110, 32, 45, 45, 112, 100, 98, 32, 45, 99, 32, 34, 115, 104, 111, 119, 95, 100, 102, 40,
        112, 100, 46, 114, 101, 97, 100, 95, 112, 105, 99, 107, 108, 101, 40, 80, 97, 116, 104, 40,
        114, 39, 37, 49, 39, 41, 41, 41, 34, 40, 80, 97, 116, 104, 40, 114, 39, 37, 49, 39, 41, 41,
        41, 34, 40, 80, 97, 116, 104, 40, 114, 39, 37, 49, 39, 41, 41, 41, 34, 40, 80, 97, 116,
        104, 40, 114, 39, 37, 49, 39, 41, 41, 41, 34,
    ];

    let compressed = compress(data.clone());
    let decompressed = decompress(compressed).unwrap();
    assert_eq!(data, decompressed)
}

#[test]
fn test_compress_changes_redundant_data() {
    let data: Vec<u8> = std::iter::repeat(b"abcdefgh".to_vec())
        .take(40)
        .flatten()
        .collect();
    let compressed = compress(data.clone());
    assert_ne!(compressed, data);
    assert!(compressed.len() < data.len());
    assert_eq!(decompress(compressed).unwrap(), data);
}

#[test]
fn test_compress_empty_roundtrip() {
    let compressed = compress(Vec::new());
    assert_eq!(decompress(compressed).unwrap(), Vec::<u8>::new());
}

#[test]
fn test_decompress_rejects_garbage() {
    assert!(decompress(vec![0xFF; 64]).is_none());
}

#[test]
fn test_hash_known_values() {
    assert_eq!(hash(b"abc"), "a9993e364706816aba3e25717850c26c9cd0d89d");
    assert_eq!(hash(&[]), "da39a3ee5e6b4b0d3255bfef95601890afd80709");
}
