use reviews_log::codec::{append, decode, encode, AppendError};
use reviews_log::log::Log;

fn log_from(entries: &[&str]) -> Log {
    let mut log = Log::new();
    for e in entries {
        log.push_entry(e.as_bytes().to_vec());
    }
    log
}

fn entries_of(log: &Log) -> Vec<Vec<u8>> {
    let mut out: Vec<Vec<u8>> = Vec::new();
    let mut i = 0;
    while i < log.len() {
        out.push(log.entry(i).clone());
        i += 1;
    }
    out
}

#[test]
fn round_trip_preserves_entries_and_order() {
    let log = log_from(&["hashA", "hashB", "hashA", "", "zz"]);
    let bytes = encode(&log);
    let back = decode(&bytes).unwrap();
    assert_eq!(
        entries_of(&back),
        vec![
            b"hashA".to_vec(),
            b"hashB".to_vec(),
            b"hashA".to_vec(),
            b"".to_vec(),
            b"zz".to_vec()
        ]
    );
}

#[test]
fn empty_buffer_decodes_to_empty_log() {
    let log = decode(&[]).unwrap();
    assert_eq!(log.len(), 0);
}

#[test]
fn empty_log_encodes_to_empty_buffer() {
    let bytes = encode(&Log::new());
    assert_eq!(bytes, Vec::<u8>::new());
}

#[test]
fn append_grows_log_by_one_and_keeps_prefix() {
    let log = log_from(&["a", "bb"]);
    let mut buffer = encode(&log);
    let r = append(&mut buffer, b"ccc");
    assert_eq!(r, Ok(()));
    let back = decode(&buffer).unwrap();
    assert_eq!(back.len(), 3);
    assert_eq!(
        entries_of(&back),
        vec![b"a".to_vec(), b"bb".to_vec(), b"ccc".to_vec()]
    );
}

#[test]
fn truncated_length_prefix_is_a_decode_error() {
    let r = decode(&[0xff]);
    assert_eq!(r.unwrap_err(), AppendError::DecodeError);
}

#[test]
fn append_on_truncated_buffer_leaves_it_unchanged() {
    let mut buffer = vec![0xffu8];
    let r = append(&mut buffer, b"hashA");
    assert_eq!(r, Err(AppendError::DecodeError));
    assert_eq!(buffer, vec![0xffu8]);
}

#[test]
fn invalid_payload_is_rejected_and_buffer_unchanged() {
    let mut buffer = encode(&log_from(&["hashA"]));
    let before = buffer.clone();
    let r = append(&mut buffer, &[0xff, 0xfe]);
    assert_eq!(r, Err(AppendError::InvalidPayloadEncoding));
    assert_eq!(buffer, before);
}

#[test]
fn two_appends_from_empty_buffer() {
    let mut buffer: Vec<u8> = Vec::new();
    assert_eq!(append(&mut buffer, b"hashA"), Ok(()));
    assert_eq!(append(&mut buffer, b"hashB"), Ok(()));
    let back = decode(&buffer).unwrap();
    assert_eq!(
        entries_of(&back),
        vec![b"hashA".to_vec(), b"hashB".to_vec()]
    );
}

#[test]
fn one_entry_encoding_is_exact() {
    let mut buffer: Vec<u8> = Vec::new();
    assert_eq!(append(&mut buffer, b"hashA"), Ok(()));
    assert_eq!(
        buffer,
        vec![1, 0, 0, 0, 5, 0, 0, 0, b'h', b'a', b's', b'h', b'A']
    );
}

#[test]
fn length_fields_are_little_endian() {
    let entry = "a".repeat(300);
    let bytes = encode(&log_from(&[entry.as_str()]));
    assert_eq!(&bytes[0..4], &[1, 0, 0, 0]);
    assert_eq!(&bytes[4..8], &[44, 1, 0, 0]);
    assert_eq!(bytes.len(), 4 + 4 + 300);
}

#[test]
fn trailing_bytes_are_a_decode_error() {
    let mut bytes = encode(&log_from(&["hashA"]));
    bytes.push(0);
    assert_eq!(decode(&bytes).unwrap_err(), AppendError::DecodeError);
}

#[test]
fn entry_running_past_the_end_is_a_decode_error() {
    let bytes = vec![1, 0, 0, 0, 10, 0, 0, 0, 1, 2];
    assert_eq!(decode(&bytes).unwrap_err(), AppendError::DecodeError);
}

#[test]
fn non_utf8_entry_is_a_decode_error() {
    let bytes = vec![1, 0, 0, 0, 2, 0, 0, 0, 0xff, 0xfe];
    assert_eq!(decode(&bytes).unwrap_err(), AppendError::DecodeError);
}

#[test]
fn zero_count_buffer_decodes_to_empty_log() {
    // The encoder writes the empty log as the empty buffer, but the explicit
    // zero-count form is accepted too.
    let log = decode(&[0, 0, 0, 0]).unwrap();
    assert_eq!(log.len(), 0);
}

#[test]
fn append_treats_zero_count_like_the_empty_buffer() {
    let mut canonical: Vec<u8> = Vec::new();
    let mut explicit: Vec<u8> = vec![0, 0, 0, 0];
    assert_eq!(append(&mut canonical, b"hashA"), Ok(()));
    assert_eq!(append(&mut explicit, b"hashA"), Ok(()));
    assert_eq!(explicit, canonical);
    assert_eq!(
        entries_of(&decode(&explicit).unwrap()),
        vec![b"hashA".to_vec()]
    );
}

#[test]
fn zero_count_with_trailing_bytes_is_a_decode_error() {
    assert_eq!(
        decode(&[0, 0, 0, 0, 0]).unwrap_err(),
        AppendError::DecodeError
    );
}

#[test]
fn multibyte_text_round_trips() {
    let mut buffer: Vec<u8> = Vec::new();
    let payload = "héllo\u{2603}";
    assert_eq!(append(&mut buffer, payload.as_bytes()), Ok(()));
    let back = decode(&buffer).unwrap();
    assert_eq!(back.len(), 1);
    assert_eq!(back.entry(0).as_slice(), payload.as_bytes());
}
