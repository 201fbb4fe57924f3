use ruvault::engine::error::VaultError;
use ruvault::net::protocol::{frame, frame_len, SyncMessage, FRAME_TOO_LONG, MAX_FRAME_LEN};

#[test]
fn chain_state_roundtrip() {
    let msg = SyncMessage::ChainState { next_seq: 42, last_hash: [7u8; 32] };
    let decoded = SyncMessage::decode(&msg.encode()).unwrap();
    assert_eq!(decoded, msg);
}

#[test]
fn patch_roundtrip_with_multiple_ranges() {
    let msg = SyncMessage::Patch {
        seq: 3,
        ranges: vec![(0, vec![1, 2, 3]), (4096, vec![9u8; 100]), (8192, Vec::new())],
    };
    let decoded = SyncMessage::decode(&msg.encode()).unwrap();
    assert_eq!(decoded, msg);
}

#[test]
fn full_sync_roundtrip() {
    let msg = SyncMessage::FullSync { bytes: vec![1, 2, 3, 4, 5] };
    let decoded = SyncMessage::decode(&msg.encode()).unwrap();
    assert_eq!(decoded, msg);
}

#[test]
fn up_to_date_roundtrip() {
    let msg = SyncMessage::UpToDate;
    let decoded = SyncMessage::decode(&msg.encode()).unwrap();
    assert_eq!(decoded, msg);
}

#[test]
fn error_roundtrip() {
    let msg = SyncMessage::Error { message: "no access".to_string() };
    let decoded = SyncMessage::decode(&msg.encode()).unwrap();
    assert_eq!(decoded, msg);
}

#[test]
fn decode_rejects_empty_and_truncated_input() {
    assert!(SyncMessage::decode(&[]).is_err());
    assert!(SyncMessage::decode(&[1, 2, 3]).is_err()); // tag 1 needs 40 more bytes
    assert!(SyncMessage::decode(&[99]).is_err()); // unknown tag
}

#[test]
fn frames_carry_their_length_in_front() {
    assert_eq!(frame(b"abc").unwrap(), vec![3, 0, 0, 0, b'a', b'b', b'c']);
    assert_eq!(frame_len(&[3, 0, 0, 0]).unwrap(), 3);
    assert_eq!(frame_len(&[0, 0, 0, 4]).unwrap(), MAX_FRAME_LEN);
    assert!(matches!(frame_len(&[1, 0, 0, 4]), Err(VaultError::Io(FRAME_TOO_LONG))));
}

#[test]
fn messages_have_the_documented_bytes() {
    let mut state = vec![1, 42, 0, 0, 0, 0, 0, 0, 0];
    state.extend_from_slice(&[7; 32]);
    let msg = SyncMessage::ChainState { next_seq: 42, last_hash: [7u8; 32] };
    assert_eq!(msg.encode(), state);
    assert_eq!(SyncMessage::UpToDate.encode(), vec![4]);
}

#[test]
fn an_error_that_is_no_text_is_read_anyway() {
    let mut bytes = SyncMessage::Error { message: "a".to_string() }.encode();
    let last = bytes.len() - 1;
    bytes[last] = 0xff;
    let decoded = SyncMessage::decode(&bytes).unwrap();
    assert_eq!(decoded, SyncMessage::Error { message: "\u{fffd}".to_string() });
}

#[test]
fn cut_messages_are_refused_and_trailing_bytes_ignored() {
    let messages = [
        SyncMessage::ChainState { next_seq: 42, last_hash: [7u8; 32] },
        SyncMessage::Patch { seq: 3, ranges: vec![(0, vec![1, 2, 3]), (4096, vec![])] },
        SyncMessage::FullSync { bytes: vec![1, 2, 3, 4, 5] },
        SyncMessage::UpToDate,
        SyncMessage::Error { message: "no".to_string() },
    ];
    for m in messages {
        let e = m.encode();
        for k in 0..e.len() {
            assert!(matches!(
                SyncMessage::decode(&e[..k]),
                Err(VaultError::CorruptContainer(_))
            ));
        }
        let mut longer = e.clone();
        longer.extend_from_slice(&[9, 9, 9]);
        assert_eq!(SyncMessage::decode(&longer).unwrap(), m);
    }
}
