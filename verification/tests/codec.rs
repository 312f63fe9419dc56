use qrtransfer::codec::decode;
use qrtransfer::codec::encode;

#[test]
fn test_empty() {
    assert_eq!(encode(&[]), "");
    assert_eq!(decode("").unwrap(), Vec::<u8>::new());
}

#[test]
fn test_basic() {
    let data = vec![1, 2, 3, 4, 5];
    let encoded = encode(&data);
    let decoded = decode(&encoded).unwrap();
    assert_eq!(data, decoded);
}

#[test]
fn test_with_leading_zeros() {
    let data = vec![1, 2, 3, 0, 0];
    let encoded = encode(&data);
    let decoded = decode(&encoded).unwrap();
    assert_eq!(data, decoded);
}

#[test]
fn test_all_zeros() {
    let data = vec![0, 0, 0];
    let encoded = encode(&data);
    println!("Encoded '000' as: '{}'", encoded);
    let decoded = decode(&encoded).unwrap();
    println!("Decoded as: {:?}", decoded);
    assert_eq!(data, decoded);
}

#[test]
fn test_large_data() {
    let data = vec![255; 100];
    let encoded = encode(&data);
    let decoded = decode(&encoded).unwrap();
    assert_eq!(data, decoded);
}

#[test]
fn test_encode_exact() {
    assert_eq!(encode(b"hi"), "aGk=");
    assert_eq!(encode(b"hello world"), "aGVsbG8gd29ybGQ=");
}

#[test]
fn test_decode_exact() {
    assert_eq!(decode("aGk=").unwrap(), b"hi".to_vec());
}

#[test]
fn test_decode_rejects_garbage() {
    assert!(decode("!!!").is_none());
    assert!(decode("a").is_none());
}
