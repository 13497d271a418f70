//! Every buffer written by a borsh-based producer for a `Vec<String>` stays
//! readable: the decoder accepts borsh's encoding in full, including the
//! zero-count form of the empty list. For a non-empty log the encoder's
//! output coincides with borsh's, byte for byte; only the empty log is
//! written differently, as the empty buffer, its canonical form here.

use reviews_log::codec::{decode, encode};
use reviews_log::log::Log;

fn log_from(entries: &[&str]) -> Log {
    let mut log = Log::new();
    for e in entries {
        log.push_entry(e.as_bytes().to_vec());
    }
    log
}

#[test]
fn encoding_matches_borsh_for_nonempty_logs() {
    let strings = vec!["hashA".to_string(), "hashB".to_string(), "".to_string()];
    let expected = borsh::to_vec(&strings).unwrap();
    let bytes = encode(&log_from(&["hashA", "hashB", ""]));
    assert_eq!(bytes, expected);
}

#[test]
fn borsh_encoded_empty_list_decodes() {
    let bytes = borsh::to_vec(&Vec::<String>::new()).unwrap();
    assert_eq!(bytes, vec![0, 0, 0, 0]);
    let log = decode(&bytes).unwrap();
    assert_eq!(log.len(), 0);
}

#[test]
fn borsh_encoded_buffers_decode() {
    let strings = vec!["one".to_string(), "two".to_string()];
    let bytes = borsh::to_vec(&strings).unwrap();
    let log = decode(&bytes).unwrap();
    assert_eq!(log.len(), 2);
    assert_eq!(log.entry(0).as_slice(), b"one");
    assert_eq!(log.entry(1).as_slice(), b"two");
}
