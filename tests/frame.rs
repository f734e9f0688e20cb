use kvm_core::{encode_frame, frame_length, split_frames, FrameError, FrameReader, MAX_FRAME_LEN};

#[test]
fn frame_is_length_then_payload() {
    assert_eq!(encode_frame(&[7, 8, 9]), vec![3, 0, 0, 0, 7, 8, 9]);
    assert_eq!(encode_frame(&[]), vec![0, 0, 0, 0]);
    let big = vec![1u8; 300];
    let f = encode_frame(&big);
    assert_eq!(&f[..4], &[0x2c, 0x01, 0, 0]);
    assert_eq!(&f[4..], &big[..]);
}

#[test]
fn frame_length_reads_little_endian() {
    assert_eq!(frame_length(&[0x2c, 0x01, 0, 0]), Ok(300));
    assert_eq!(frame_length(&[0, 0, 0x10, 0]), Ok(MAX_FRAME_LEN));
}

#[test]
fn frame_length_rejects_oversized() {
    assert_eq!(frame_length(&[1, 0, 0x10, 0]), Err(FrameError::TooLarge(0x10_0001)));
    assert_eq!(frame_length(&[0xff, 0xff, 0xff, 0xff]), Err(FrameError::TooLarge(u32::MAX)));
}

#[test]
fn frames_read_back_in_order() {
    let payloads: Vec<Vec<u8>> = vec![vec![1, 2, 3], vec![], vec![9; 70], vec![4]];
    let mut stream = Vec::new();
    for p in &payloads {
        stream.extend(encode_frame(p));
    }
    let (got, end) = split_frames(&stream);
    assert_eq!(got, payloads);
    assert_eq!(end, None);
}

#[test]
fn empty_stream_has_no_frames() {
    let (got, end) = split_frames(&[]);
    assert!(got.is_empty());
    assert_eq!(end, None);
}

#[test]
fn stream_cut_mid_frame_stops_cleanly() {
    let mut stream = encode_frame(&[1, 2]);
    let whole = stream.len();
    stream.extend(encode_frame(&[5, 6, 7, 8]));
    for cut in whole + 1..stream.len() {
        let (got, end) = split_frames(&stream[..cut]);
        assert_eq!(got, vec![vec![1, 2]]);
        assert_eq!(end, Some(FrameError::Truncated));
    }
}

#[test]
fn oversized_header_stops_stream() {
    let mut stream = encode_frame(&[1]);
    stream.extend_from_slice(&[0, 0, 0x20, 0]);
    stream.extend_from_slice(&[0; 8]);
    let (got, end) = split_frames(&stream);
    assert_eq!(got, vec![vec![1]]);
    assert_eq!(end, Some(FrameError::TooLarge(0x20_0000)));
}

fn drain(reader: &mut FrameReader) -> Result<Vec<Vec<u8>>, FrameError> {
    let mut out = Vec::new();
    while let Some(p) = reader.next_frame()? {
        out.push(p);
    }
    Ok(out)
}

#[test]
fn reader_yields_frames_whatever_the_chunking() {
    let payloads: Vec<Vec<u8>> = vec![vec![1, 2, 3], vec![], vec![9; 40]];
    let mut stream = Vec::new();
    for p in &payloads {
        stream.extend(encode_frame(p));
    }
    for chunk in [1, 2, 3, 5, 7, 64] {
        let mut reader = FrameReader::new();
        let mut got = Vec::new();
        for piece in stream.chunks(chunk) {
            reader.push(piece);
            got.extend(drain(&mut reader).unwrap());
        }
        assert_eq!(got, payloads);
        assert!(reader.is_empty());
    }
}

#[test]
fn reader_holds_back_a_cut_frame() {
    let mut stream = encode_frame(&[4, 5]);
    stream.extend_from_slice(&encode_frame(&[6, 7, 8])[..5]);
    let mut reader = FrameReader::new();
    reader.push(&stream);
    assert_eq!(drain(&mut reader).unwrap(), vec![vec![4, 5]]);
    assert!(!reader.is_empty());
}

#[test]
fn reader_rejects_oversized_header() {
    let mut reader = FrameReader::new();
    reader.push(&[0, 0, 0x10, 0x01, 1, 2]);
    assert_eq!(reader.next_frame(), Err(FrameError::TooLarge(0x0110_0000)));
    assert!(!reader.is_empty());
}
