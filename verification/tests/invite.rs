use ruvault::engine::error::VaultError;
use ruvault::engine::identity::Identity;
use ruvault::net::invite::InviteCode;

#[test]
fn roundtrip_without_address() {
    let peer_id = Identity::generate().peer_id();
    let invite = InviteCode { peer_id, address: None };
    let decoded = InviteCode::decode(&invite.encode()).unwrap();
    assert_eq!(decoded, invite);
}

#[test]
fn roundtrip_with_address() {
    let peer_id = Identity::generate().peer_id();
    let invite = InviteCode { peer_id, address: Some("127.0.0.1:9000".to_string()) };
    let decoded = InviteCode::decode(&invite.encode()).unwrap();
    assert_eq!(decoded, invite);
}

#[test]
fn decode_rejects_garbage() {
    assert!(InviteCode::decode("not hex at all").is_err());
    assert!(InviteCode::decode("abc").is_err()); // odd length
    assert!(InviteCode::decode("00").is_err()); // too short
}

#[test]
fn encode_is_pure_hex_lowercase() {
    let peer_id = Identity::generate().peer_id();
    let invite = InviteCode { peer_id, address: None };
    let encoded = invite.encode();
    assert!(encoded.chars().all(|c| c.is_ascii_hexdigit() && !c.is_ascii_uppercase()));
}

#[test]
fn an_address_that_does_not_parse_is_refused() {
    let peer_id = Identity::generate().peer_id();
    let with = InviteCode { peer_id, address: Some("nowhere".to_string()) };
    let without = InviteCode { peer_id, address: None };
    assert!(matches!(
        with.check_address(false),
        Err(VaultError::CorruptContainer("invite code has an invalid address"))
    ));
    assert!(with.check_address(true).is_ok());
    assert!(without.check_address(false).is_ok());
}

#[test]
fn each_flaw_of_an_invite_code_has_its_message() {
    let message = |s: &str| InviteCode::decode(s).err().unwrap().message();
    let prefix = ".rvlt container is corrupted or malformed: ";
    assert_eq!(message("abc"), format!("{prefix}invite code has odd length"));
    assert_eq!(message("zz"), format!("{prefix}invite code contains a non-hex character"));
    assert_eq!(message("00"), format!("{prefix}invite code is too short"));
    let mut bytes = vec![b'0'; 128];
    bytes.extend_from_slice(b"02");
    let text = String::from_utf8(bytes).unwrap();
    assert_eq!(message(&text), format!("{prefix}invite code has an invalid address marker"));
    let mut bytes = vec![b'0'; 128];
    bytes.extend_from_slice(b"01ff");
    let text = String::from_utf8(bytes).unwrap();
    assert_eq!(message(&text), format!("{prefix}invite code address is not valid UTF-8"));
}

#[test]
fn white_space_around_an_invite_code_is_ignored() {
    let peer_id = Identity::generate().peer_id();
    let invite = InviteCode { peer_id, address: None };
    let padded = format!("  {}\n", invite.encode());
    assert_eq!(InviteCode::decode(&padded).unwrap(), invite);
}

#[test]
fn case_and_surrounding_space_do_not_matter() {
    let peer_id = Identity::generate().peer_id();
    let invite = InviteCode { peer_id, address: Some("[::1]:80".to_string()) };
    let upper = invite.encode().to_uppercase();
    assert_eq!(InviteCode::decode(&upper).unwrap(), invite);
    assert_eq!(InviteCode::decode(&format!("  {upper}\n")).unwrap(), invite);
    let mixed: String = invite
        .encode()
        .chars()
        .enumerate()
        .map(|(i, c)| if i % 2 == 0 { c.to_ascii_uppercase() } else { c })
        .collect();
    assert_eq!(InviteCode::decode(&mixed).unwrap(), invite);
}
