use qrtransfer::codec;
use qrtransfer::receive::Decoder;
use qrtransfer::receive::Progress;
use qrtransfer::send::encoder::Encoder;

const FILE_CONTENT: &str = "Transfer your file from an air gapped computer to iOS/iPhone/iPad using only qrcode, no wifi/usb/bluetooth needed. This is a proof-of-concept project, implemented in Rust WebAssembly.";

#[test]
fn test_decoder() {
    let mut decoder = Decoder::new();

    decoder.process_chunk(
        "METADATA:dGVzdF9xcnRyYW5zZmVyLnR4dA==,2,bf0c337e1d303f70a099465a726ef627ef91c4db"
            .to_string(),
    );
    println!("{:?}", decoder.get_progress());
    decoder.process_chunk("1:G7YA4MVyW6oXCn6KbhrMx0C9wiM8U0+WhRrPCKomVFU2OVunN7y5HhGHtMnB5hPiEp8t9bCBGnjYey3YRlLaTxOWCBIsfQ5bSXyDSXg2x69btma2UFu4x4svyoIGUQyUNPFGXw==".to_string());
    println!("{:?}", decoder.get_progress());
    decoder.process_chunk("2:3fsUxrFm4KoZKOUb".to_string());
    println!("{:?}", decoder.get_progress());

    let res = decoder.get_finished();
    let decoded_data = codec::decode(&res.to_base64()).unwrap();
    let decoded_data = String::from_utf8(decoded_data).unwrap();
    println!("{}", decoded_data);
    assert_eq!(decoded_data, FILE_CONTENT);
}

#[test]
fn test_when_metadata_came_at_last() {
    let mut decoder = Decoder::new();
    decoder.process_chunk("1:G7YA4MVyW6oXCn6KbhrMx0C9wiM8U0+WhRrPCKomVFU2OVunN7y5HhGHtMnB5hPiEp8t9bCBGnjYey3YRlLaTxOWCBIsfQ5bSXyDSXg2x69btma2UFu4x4svyoIGUQyUNPFGXw==".to_string());
    decoder.process_chunk("2:3fsUxrFm4KoZKOUb".to_string());
    decoder.process_chunk(
        "METADATA:dGVzdF9xcnRyYW5zZmVyLnR4dA==,2,bf0c337e1d303f70a099465a726ef627ef91c4db"
            .to_string(),
    );

    let res = decoder.get_finished();
    let decoded_data = codec::decode(&res.to_base64()).unwrap();
    let decoded_data = String::from_utf8(decoded_data).unwrap();
    assert_eq!(decoded_data, FILE_CONTENT);
}

#[test]
fn scenario_hello_world_reversed() {
    let encoder = Encoder::new("a.txt".to_string(), b"hello world".to_vec());
    let frames = encoder.payloads();
    let mut decoder = Decoder::new();
    for (_label, wire) in frames.into_iter().rev() {
        assert!(decoder.process_chunk(wire));
    }
    assert!(decoder.is_finished());
    let out = decoder.get_finished();
    assert_eq!(out.get_name(), "a.txt");
    assert_eq!(out.get_data().as_slice(), b"hello world");
}

#[test]
fn scenario_piece_without_metadata() {
    let mut decoder = Decoder::new();
    assert!(decoder.process_chunk("1:aGVsbG8=".to_string()));
    assert!(!decoder.is_finished());
    assert_eq!(decoder.get_progress(), Progress::NoMetadata);
    // the same piece again brings nothing new
    assert!(!decoder.process_chunk("1:aGVsbG8=".to_string()));
    assert!(!decoder.is_finished());
    assert_eq!(decoder.get_progress(), Progress::NoMetadata);
}

#[test]
fn duplicated_delivery_is_idempotent() {
    let frames = Encoder::new("a.txt".to_string(), FILE_CONTENT.as_bytes().to_vec()).payloads();
    let mut once = Decoder::new();
    for (_l, w) in frames.clone() {
        once.process_chunk(w);
    }
    let mut twice = Decoder::new();
    for (_l, w) in frames.clone() {
        twice.process_chunk(w.clone());
        twice.process_chunk(w);
    }
    assert!(once.is_finished());
    assert!(twice.is_finished());
    let a = once.get_finished();
    let b = twice.get_finished();
    assert_eq!(a.get_name(), b.get_name());
    assert_eq!(a.get_data(), b.get_data());
    assert_eq!(a.get_data().as_slice(), FILE_CONTENT.as_bytes());
}

#[test]
fn any_order_same_output() {
    let frames = Encoder::new("a.txt".to_string(), FILE_CONTENT.as_bytes().to_vec()).payloads();
    // metadata in the middle, pieces swapped
    let mut shuffled: Vec<String> = frames.iter().map(|(_l, w)| w.clone()).collect();
    shuffled.reverse();
    shuffled.rotate_left(1);
    let mut forward = Decoder::new();
    for (_l, w) in frames {
        forward.process_chunk(w);
    }
    let mut scrambled = Decoder::new();
    for w in shuffled {
        scrambled.process_chunk(w);
    }
    assert!(forward.is_finished());
    assert!(scrambled.is_finished());
    assert_eq!(
        forward.get_finished().get_data(),
        scrambled.get_finished().get_data()
    );
}

#[test]
fn missing_piece_reported() {
    // incompressible bytes, so the payload spans several pieces
    let data: Vec<u8> = (0..300u32)
        .map(|i| (i.wrapping_mul(2654435761) >> 13) as u8)
        .collect();
    let frames = Encoder::new("a.txt".to_string(), data).payloads();
    let total = frames.len() - 1;
    assert!(total >= 2);
    let mut decoder = Decoder::new();
    // feed everything except the first piece
    for (i, (_l, w)) in frames.into_iter().enumerate() {
        if i != 1 {
            decoder.process_chunk(w);
        }
    }
    assert!(!decoder.is_finished());
    assert_eq!(
        decoder.get_progress(),
        Progress::Receiving {
            received: total - 1,
            total,
            missing: vec![1],
        }
    );
}

#[test]
fn tampered_piece_rejected() {
    let frames = Encoder::new("a.txt".to_string(), FILE_CONTENT.as_bytes().to_vec()).payloads();
    let mut decoder = Decoder::new();
    for (i, (_l, w)) in frames.into_iter().enumerate() {
        let w = if i == 1 {
            // flip one bit in the piece's data, after the index and colon
            let mut bytes = w.into_bytes();
            let colon = bytes.iter().position(|&b| b == b':').unwrap();
            bytes[colon + 1] ^= 0x01;
            String::from_utf8(bytes).unwrap()
        } else {
            w
        };
        decoder.process_chunk(w);
    }
    assert!(!decoder.is_finished());
    assert_eq!(decoder.get_progress(), Progress::Corrupt);
}

#[test]
fn wrong_digest_rejected() {
    let mut decoder = Decoder::new();
    decoder.process_chunk(
        "METADATA:YS50eHQ=,1,0000000000000000000000000000000000000000".to_string(),
    );
    decoder.process_chunk("1:aGVsbG8=".to_string());
    assert!(!decoder.is_finished());
    assert_eq!(decoder.get_progress(), Progress::Corrupt);
}

#[test]
fn second_distinct_metadata_rejected() {
    let mut decoder = Decoder::new();
    assert!(decoder.process_chunk("METADATA:YS50eHQ=,2,aaaa".to_string()));
    // a different metadata must not overwrite the expected set
    assert!(!decoder.process_chunk("METADATA:Yi50eHQ=,9,bbbb".to_string()));
    match decoder.get_progress() {
        Progress::Receiving { total, .. } => assert_eq!(total, 2),
        other => panic!("unexpected progress: {:?}", other),
    }
}

#[test]
fn malformed_lines_ignored() {
    let mut decoder = Decoder::new();
    assert!(!decoder.process_chunk("not a message".to_string()));
    assert!(!decoder.process_chunk("METADATA:only,two".to_string()));
    assert!(!decoder.process_chunk("x:data".to_string()));
    assert_eq!(decoder.get_progress(), Progress::NoMetadata);
}

#[test]
fn finished_session_ignores_messages() {
    let frames = Encoder::new("a.txt".to_string(), b"hello world".to_vec()).payloads();
    let mut decoder = Decoder::new();
    for (_l, w) in frames.clone() {
        decoder.process_chunk(w);
    }
    assert!(decoder.is_finished());
    assert_eq!(decoder.get_progress(), Progress::Finished);
    // nothing incorporated once finished, not even a brand-new piece
    assert!(!decoder.process_chunk(frames[1].1.clone()));
    assert!(!decoder.process_chunk("99:aGVsbG8=".to_string()));
    assert!(decoder.is_finished());
}
