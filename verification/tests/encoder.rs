use qrtransfer::codec;
use qrtransfer::compress::compress;
use qrtransfer::receive::Decoder;
use qrtransfer::send::encoder::Encoder;
use qrtransfer::utils::hash;

#[test]
fn test_integration() {
    let file_name = "test_qrtransfer.txt";
    let file_content = "Transfer your file from an air gapped computer to iOS/iPhone/iPad using only qrcode, no wifi/usb/bluetooth needed. This is a proof-of-concept project, implemented in Rust WebAssembly.";

    let int_array = Vec::from(file_content.as_bytes());

    let encoder = Encoder::new(file_name.to_string(), int_array);

    let mut decoder = Decoder::new();
    for (_name, payload) in encoder.payloads() {
        decoder.process_chunk(payload);
    }

    let res = decoder.get_finished();

    let decoded_data = codec::decode(&res.to_base64()).unwrap();
    let decoded_data = String::from_utf8(decoded_data).unwrap();

    assert_eq!(file_name, res.get_name());
    assert_eq!(file_content, decoded_data);
}

#[test]
fn test_encoder() {
    println!(
        "{:?}",
        Encoder::new(
            "test_file".to_string(),
            vec!(
                119, 115, 108, 32, 47, 104, 111, 109, 101, 47, 108, 120, 117, 119, 115, 108, 47,
                109, 105, 110, 105, 99, 111, 110, 100, 97, 51, 47, 98, 105, 110, 47, 105, 112, 121,
                116, 104, 111, 110, 32, 45, 45, 112, 100, 98, 32, 45, 99, 32, 34, 115, 104, 111,
                119, 95, 100, 102, 40, 112, 100, 46, 114, 101, 97, 100, 95, 112, 105, 99, 107, 108,
                101, 40, 80, 97, 116, 104, 40, 114, 39, 37, 49, 39, 41, 41, 41, 34, 40, 80, 97,
                116, 104, 40, 114, 39, 37, 49, 39, 41, 41, 41, 34, 40, 80, 97, 116, 104, 40, 114,
                39, 37, 49, 39, 41, 41, 41, 34, 40, 80, 97, 116, 104, 40, 114, 39, 37, 49, 39, 41,
                41, 41, 34
            )
        )
        .to_qr()
    )
}

#[test]
fn payload_mirrors_compressed_bytes() {
    let data: Vec<u8> = (0..450u32)
        .map(|i| (i.wrapping_mul(2654435761) >> 11) as u8)
        .collect();
    let payload = Encoder::new("f.bin".to_string(), data.clone()).get_payload();
    let compressed = compress(data);

    assert_eq!(payload.metadata.length, payload.pieces.len());
    assert_eq!(payload.metadata.hash, hash(&compressed));
    assert_eq!(payload.metadata.name, codec::encode(b"f.bin"));
    for (k, (index, _)) in payload.pieces.iter().enumerate() {
        assert_eq!(*index, k + 1);
    }
    let concat: Vec<u8> = payload
        .pieces
        .iter()
        .flat_map(|(_, data)| codec::decode(data).unwrap())
        .collect();
    assert_eq!(concat, compressed);
}

#[test]
fn chunks_are_bounded() {
    let data: Vec<u8> = (0..450u32)
        .map(|i| (i.wrapping_mul(2654435761) >> 11) as u8)
        .collect();
    let encoder = Encoder::new("f.bin".to_string(), data.clone());
    let chunks = encoder.get_chunks();
    let compressed = compress(data);
    assert!(chunks.len() >= 2);
    for (k, chunk) in chunks.iter().enumerate() {
        assert!(!chunk.is_empty());
        assert!(chunk.len() <= 100);
        if k + 1 < chunks.len() {
            assert_eq!(chunk.len(), 100);
        }
    }
    let concat: Vec<u8> = chunks.into_iter().flatten().collect();
    assert_eq!(concat, compressed);
}

#[test]
fn labels_follow_indices() {
    // METADATA leads and each piece is keyed by its 1-based index,
    // empty input included
    for data in [Vec::new(), b"hello world".to_vec()] {
        let frames = Encoder::new("e".to_string(), data).payloads();
        assert_eq!(frames[0].0, "METADATA");
        for (k, (label, _)) in frames.iter().enumerate().skip(1) {
            assert_eq!(*label, k.to_string());
        }
    }
}

#[test]
fn empty_file_round_trips() {
    let frames = Encoder::new("empty.bin".to_string(), Vec::new()).payloads();
    let mut decoder = Decoder::new();
    for (_l, w) in frames {
        decoder.process_chunk(w);
    }
    assert!(decoder.is_finished());
    let out = decoder.get_finished();
    assert_eq!(out.get_name(), "empty.bin");
    assert_eq!(out.get_data().as_slice(), b"");
}

#[test]
fn qr_frames_are_svg() {
    let rendered = Encoder::new("a.txt".to_string(), b"hello world".to_vec())
        .to_qr()
        .unwrap();
    assert!(rendered.len() >= 2);
    assert_eq!(rendered[0].0, "METADATA");
    for (_label, svg) in rendered {
        assert!(svg.contains("<svg"));
    }
}
