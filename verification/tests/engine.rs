use ruvault::engine::crypto::{sha256, sha256_concat, Argon2Params, MasterKey, SecretBytes};
use ruvault::engine::error::VaultError;
use ruvault::engine::format::{Header, HEADER_SIZE, MAX_DESC_LEN, MAX_FILENAME_LEN, MAX_NAME_LEN};
use ruvault::engine::identity::{verify_signature, Identity, PeerId};
use ruvault::engine::image::Image;
use ruvault::engine::records::{ChainOp, FileEntry, RecipientSlot};
use ruvault::engine::session::{Duration, Instant, ManualClock, Session};
use ruvault::engine::text::{hex_encode, parse_u16, trim};
use ruvault::engine::vault::Vault;

const CAPACITY: u64 = 256 * 1024;

fn fresh() -> Vault {
    Vault::create("V", "d", CAPACITY, "pw", Identity::generate()).unwrap()
}

fn hex(bytes: &[u8]) -> String {
    hex_encode(bytes)
}

#[test]
fn sha256_gives_the_published_digests() {
    assert_eq!(
        hex(&sha256(b"abc")),
        "ba7816bf8f01cfea414140de5dae2223b00361a396177a9cb410ff61f20015ad"
    );
    assert_eq!(
        hex(&sha256(b"")),
        "e3b0c44298fc1c149afbf4c8996fb92427ae41e4649b934ca495991b7852b855"
    );
    assert_eq!(sha256_concat(&[&b"a"[..], &b"bc"[..]]), sha256(b"abc"));
}

#[test]
fn argon2_refuses_parameters_out_of_range() {
    let params = Argon2Params { m_cost_kib: 1, t_cost: 1, p_cost: 1 };
    assert!(matches!(
        MasterKey::derive(b"pw", &[0; 16], params),
        Err(VaultError::CryptoFailure)
    ));
    let default = Argon2Params::default();
    assert_eq!((default.m_cost_kib, default.t_cost, default.p_cost), (19 * 1024, 2, 1));
}

#[test]
fn keys_and_secrets_are_wiped() {
    let mut key = MasterKey::from_bytes([7; 32]);
    key.wipe();
    assert_eq!(*key.expose_bytes(), [0; 32]);
    let mut secret = SecretBytes(vec![1, 2, 3]);
    secret.wipe();
    assert!(secret.0.is_empty());
    let mut v = fresh();
    v.add_file("a", b"x").unwrap();
    v.wipe_key();
    assert!(v.read_file("a").is_err());
}

#[test]
fn signatures_come_from_the_seed() {
    let id = Identity::from_bytes(&[9; 64]);
    let dalek = ed25519_dalek::SigningKey::from_bytes(&[9; 32]);
    assert_eq!(id.peer_id().signing_public, dalek.verifying_key().to_bytes());
    let signature = id.sign(b"message");
    assert_eq!(signature, ed25519_dalek::Signer::sign(&dalek, b"message").to_bytes());
    assert!(verify_signature(&id.peer_id().signing_public, b"message", &signature).is_ok());
    let secret = x25519_dalek::StaticSecret::from([9; 32]);
    assert_eq!(id.peer_id().encryption_public, x25519_dalek::PublicKey::from(&secret).to_bytes());
    assert_eq!(*id.encryption_secret(), [9; 32]);
    assert!(Identity::from_stored(&[1; 63]).is_none());
    assert!(PeerId::from_bytes(&[1; 63]).is_err());
}

#[test]
fn a_new_vault_is_laid_out_by_its_capacity() {
    let v = fresh();
    let bytes = v.export_full().unwrap();
    let h = Header::decode(&bytes[..HEADER_SIZE as usize]).unwrap();
    assert_eq!(h.block_count, 64);
    assert_eq!(h.max_files, 16);
    assert_eq!(h.max_chain_records, 64);
    assert_eq!(h.bitmap_offset, 1024);
    assert_eq!(h.file_table_offset, 1032);
    assert_eq!(h.recipient_offset, 1032 + 16 * 320);
    assert_eq!(h.chain_offset, h.recipient_offset + 3072);
    assert_eq!(h.data_offset, h.chain_offset + 64 * 224);
    assert_eq!(h.total_container_size(), h.data_offset + 64 * 4096);
    assert_eq!(bytes.len() as u64, h.total_container_size());
    assert_eq!(v.container_len(), bytes.len() as u64);
    assert_eq!(v.metadata_len(), h.data_offset);
    assert_eq!(v.capacity_bytes(), CAPACITY);
    assert_eq!(v.used_bytes(), 0);
    assert_eq!(v.chain_state().0, 1);
    assert!(v.is_operable() && v.can_change());
}

#[test]
fn fields_that_are_too_long_are_refused() {
    let long = "n".repeat(MAX_NAME_LEN + 1);
    let r = Vault::create(&long, "", CAPACITY, "pw", Identity::generate());
    assert!(matches!(r, Err(VaultError::FieldTooLong)));
    let long = "d".repeat(MAX_DESC_LEN + 1);
    let r = Vault::create("V", &long, CAPACITY, "pw", Identity::generate());
    assert!(matches!(r, Err(VaultError::FieldTooLong)));
    let mut v = fresh();
    let long = "f".repeat(MAX_FILENAME_LEN + 1);
    assert!(matches!(v.add_file(&long, b""), Err(VaultError::FieldTooLong)));
    assert!(matches!(v.add_file("", b""), Err(VaultError::FieldTooLong)));
}

#[test]
fn the_file_table_fills_up() {
    let mut v = fresh();
    for i in 0..16 {
        v.add_file(&format!("f{i}"), b"").unwrap();
    }
    assert!(matches!(v.add_file("one more", b""), Err(VaultError::FileTableFull)));
    v.delete_file("f3").unwrap();
    v.add_file("one more", b"").unwrap();
}

#[test]
fn a_file_that_does_not_fit_changes_nothing() {
    let mut v = fresh();
    v.add_file("a", b"alpha").unwrap();
    v.take_change_log();
    let before = v.export_full().unwrap();
    let r = v.update_file("a", &vec![0; 1 << 20]);
    assert!(matches!(r, Err(VaultError::InsufficientSpace { .. })));
    assert_eq!(v.export_full().unwrap(), before);
    assert!(v.change_log().is_empty());
}

#[test]
fn what_is_written_is_read_back_and_nothing_else_changes() {
    let mut v = fresh();
    v.add_file("a", b"alpha").unwrap();
    for n in [0usize, 1, 4075, 4076, 4077, 4076 * 8, 4076 * 8 + 1, 100_000] {
        let data: Vec<u8> = (0..n).map(|i| (i * 7 % 251) as u8).collect();
        v.add_file("b", &data).unwrap();
        assert_eq!(v.read_file("b").unwrap(), data);
        assert_eq!(v.read_file("a").unwrap(), b"alpha");
        v.delete_file("b").unwrap();
        assert_eq!(v.used_bytes(), 4096);
    }
}

#[test]
fn a_log_replayed_on_a_replica_reproduces_the_vault() {
    let mut v = fresh();
    v.take_change_log();
    let mut replica = Image::from_bytes(&v.export_full().unwrap());
    v.add_file("a", &vec![1; 50_000]).unwrap();
    v.update_file("a", b"small").unwrap();
    let peer = Identity::generate();
    v.grant_access(&peer.peer_id()).unwrap();
    v.revoke_access(&peer.peer_id().signing_public, "pw").unwrap();
    v.delete_file("a").unwrap();
    for (offset, bytes) in v.take_change_log() {
        replica.write(offset, &bytes).unwrap();
    }
    assert_eq!(replica.to_vec(), v.export_full().unwrap());
}

#[test]
fn listings_show_sizes_and_names() {
    let mut v = fresh();
    v.add_file("a", b"alpha").unwrap();
    v.add_file("b", b"").unwrap();
    let files = v.list_files().unwrap();
    assert_eq!(files.len(), 2);
    assert_eq!((files[0].name.as_str(), files[0].size), ("a", 5));
    assert_eq!((files[1].name.as_str(), files[1].size), ("b", 0));
    let peer = Identity::generate();
    v.grant_access(&peer.peer_id()).unwrap();
    assert_eq!(v.list_recipients().unwrap()[0].peer_id, peer.peer_id());
    assert_eq!(v.summary().name, "V");
}

#[test]
fn every_change_adds_a_signed_record() {
    let mut v = fresh();
    let (first, hash) = v.chain_state();
    v.add_file("a", b"alpha").unwrap();
    let (second, next) = v.chain_state();
    assert_eq!(second, first + 1);
    assert_ne!(hash, next);
    v.verify_integrity().unwrap();
    let mut bytes = v.export_full().unwrap();
    let h = Header::decode(&bytes[..HEADER_SIZE as usize]).unwrap();
    let record = (h.chain_offset + 224) as usize;
    bytes[record + 60] ^= 1;
    let broken = Vault::open(Image::from_bytes(&bytes), "pw", Identity::generate()).unwrap();
    assert!(matches!(broken.verify_integrity(), Err(VaultError::IntegrityViolation(_))));
}

#[test]
fn an_image_reads_what_was_written() {
    let mut image = Image::zeroed(10);
    image.write(4, b"abc").unwrap();
    assert_eq!(image.read(3, 5).unwrap(), vec![0, b'a', b'b', b'c', 0]);
    assert!(matches!(image.read(8, 3), Err(VaultError::Io("failed to fill whole buffer"))));
    image.write(9, b"xy").unwrap();
    assert_eq!(image.len(), 11);
    assert!(image.write(u64::MAX, b"z").is_err());
}

#[test]
fn record_kinds_have_their_codes() {
    for code in 0..=255u8 {
        if let Ok(op) = ChainOp::from_u8(code) {
            assert_eq!(op.code(), code);
        }
    }
    assert!(ChainOp::from_u8(200).is_err());
    assert!(!FileEntry::decode(&FileEntry::empty_slot()).unwrap().is_occupied());
    assert!(!RecipientSlot::empty().is_occupied());
}

#[test]
fn errors_say_what_went_wrong() {
    let version = VaultError::UnsupportedVersion { found: 9, min: 2, max: 2 };
    assert_eq!(version.message(), "unsupported .rvlt format version: 9 (supported: 2..=2)");
    let space = VaultError::InsufficientSpace { requested: 10, available: 4 };
    assert_eq!(
        space.message(),
        "not enough free space in vault (requested 10 bytes, available 4 bytes)"
    );
    let missing = VaultError::FileNotFound("x".to_string());
    assert_eq!(missing.message(), "no file named 'x' exists in this vault");
    assert_eq!(
        VaultError::VaultLocked.message(),
        "vault is locked; unlock it with the correct password first"
    );
}

#[test]
fn a_session_counts_from_its_last_activity() {
    let mut session = Session::with_clock(ManualClock::new());
    session.clock.advance(Duration::from_secs(12));
    assert_eq!(session.idle_for().as_secs(), 12);
    session.record_activity();
    assert_eq!(session.idle_for().as_secs(), 0);
    let earlier = Instant { nanos: 5 };
    let later = Instant { nanos: 9 };
    assert_eq!(later.duration_since(earlier).nanos, 4);
    assert_eq!(earlier.duration_since(later).nanos, 0);
}

#[test]
fn numbers_are_read() {
    assert_eq!(parse_u16("65535"), Some(65535));
    assert_eq!(parse_u16("+7"), Some(7));
    assert_eq!(parse_u16("0042"), Some(42));
    for bad in ["", "+", "65536", "-1", "1 ", "999999999999"] {
        assert_eq!(parse_u16(bad), bad.parse::<u16>().ok());
        assert_eq!(parse_u16(bad), None);
    }
}

#[test]
fn white_space_is_trimmed_as_std_trims_it() {
    for s in ["", " a b\t", "\u{85}x\u{3000}", "\u{200b}y", "\u{2028}\u{202f}z"] {
        assert_eq!(trim(s), s.trim());
    }
}

#[test]
fn a_change_reaches_no_further_than_its_file() {
    let mut v = fresh();
    v.add_file("a", &vec![1; 20_000]).unwrap();
    v.add_file("b", &vec![2; 5_000]).unwrap();
    let bytes = v.export_full().unwrap();
    let h = Header::decode(&bytes[..HEADER_SIZE as usize]).unwrap();
    v.take_change_log();
    let (seq, _) = v.chain_state();
    v.update_file("b", &vec![3; 5_000]).unwrap();
    let within = |at: u64, n: u64, start: u64, len: u64| start <= at && at + n <= start + len;
    let mut data = 0;
    for (at, written) in v.take_change_log() {
        let n = written.len() as u64;
        let slot = h.file_table_offset + 320;
        let record = h.chain_offset + seq % h.max_chain_records as u64 * 224;
        if at >= h.data_offset {
            data += 1;
            let block = (at - h.data_offset) / 4096;
            assert!(within(at, n, h.data_offset + block * 4096, 4096));
            assert!(block >= 5, "the blocks of the other file");
        } else {
            assert!(
                within(at, n, 0, 1024)
                    || within(at, n, h.bitmap_offset, h.bitmap_len)
                    || within(at, n, slot, 320)
                    || within(at, n, record, 224)
            );
        }
    }
    assert_eq!(data, 2);

    let (seq, _) = v.chain_state();
    v.grant_access(&Identity::generate().peer_id()).unwrap();
    for (at, written) in v.take_change_log() {
        let n = written.len() as u64;
        let record = h.chain_offset + seq % h.max_chain_records as u64 * 224;
        assert!(
            within(at, n, 0, 1024)
                || within(at, n, h.recipient_offset, 192)
                || within(at, n, record, 224)
        );
    }
}

#[test]
fn what_is_refused_changes_nothing() {
    let mut v = fresh();
    let peer = Identity::generate().peer_id();
    v.add_file("a", b"alpha").unwrap();
    v.grant_access(&peer).unwrap();
    v.take_change_log();
    let before = v.export_full().unwrap();
    assert!(v.add_file("a", b"again").is_err());
    assert!(v.add_file("b", &vec![0; 1 << 20]).is_err());
    assert!(v.update_file("b", b"x").is_err());
    assert!(v.delete_file("b").is_err());
    assert!(v.grant_access(&peer).is_err());
    assert!(v.revoke_access(&[7; 32], "pw").is_err());
    assert_eq!(v.export_full().unwrap(), before);
    assert!(v.change_log().is_empty());
}

#[test]
fn a_replaced_record_is_noticed() {
    let mut v = fresh();
    v.add_file("a", b"alpha").unwrap();
    v.add_file("b", b"beta").unwrap();
    let mut bytes = v.export_full().unwrap();
    let h = Header::decode(&bytes[..HEADER_SIZE as usize]).unwrap();
    let first = h.chain_offset as usize;
    let copy: Vec<u8> = bytes[first + 224..first + 448].to_vec();
    bytes[first + 448..first + 672].copy_from_slice(&copy);
    let broken = Vault::open(Image::from_bytes(&bytes), "pw", Identity::generate()).unwrap();
    assert!(matches!(broken.verify_integrity(), Err(VaultError::IntegrityViolation(_))));
}

/// The container with its header changed.
fn with_header(bytes: &[u8], change: fn(&mut Header)) -> Vec<u8> {
    let mut h = Header::decode(&bytes[..HEADER_SIZE as usize]).unwrap();
    change(&mut h);
    let mut out = h.encode();
    out.extend_from_slice(&bytes[HEADER_SIZE as usize..]);
    out
}

#[test]
fn a_container_with_too_many_records_does_not_open() {
    let mut v = fresh();
    let peer = Identity::generate();
    v.grant_access(&peer.peer_id()).unwrap();
    let bytes = v.export_full().unwrap();
    for broken in [
        with_header(&bytes, |h| h.max_files += 1),
        with_header(&bytes, |h| h.max_recipients += 1),
        with_header(&bytes, |h| h.max_chain_records += 1),
    ] {
        let image = Image::from_bytes(&broken);
        assert!(matches!(
            Vault::open(image, "pw", Identity::generate()),
            Err(VaultError::CorruptContainer(_))
        ));
        let image = Image::from_bytes(&broken);
        assert!(matches!(
            Vault::open_as_recipient(image, &peer),
            Err(VaultError::CorruptContainer(_))
        ));
    }
}

#[test]
fn small_blocks_can_be_read_and_checked() {
    let v = fresh();
    let bytes = with_header(&v.export_full().unwrap(), |h| {
        h.block_size = 24;
        h.capacity_bytes = h.block_count * 24;
    });
    let small = Vault::open(Image::from_bytes(&bytes), "pw", Identity::generate()).unwrap();
    assert!(small.can_verify() && !small.is_operable());
    assert!(matches!(small.read_file("a"), Err(VaultError::FileNotFound(_))));
    assert!(small.verify_integrity().is_ok());
    assert_eq!(small.used_bytes(), 0);
}

#[test]
fn small_blocks_take_content_that_needs_no_index() {
    let admin = Identity::from_bytes(&[9; 64]);
    let v = Vault::create("V", "d", CAPACITY, "pw", Identity::from_bytes(&[9; 64])).unwrap();
    let bytes = with_header(&v.export_full().unwrap(), |h| {
        h.block_size = 36;
        h.capacity_bytes = h.block_count * 36;
    });
    let mut small = Vault::open(Image::from_bytes(&bytes), "pw", admin).unwrap();
    assert!(small.is_admin() && small.can_change() && !small.is_operable());
    // Sixteen bytes of content to a block, eight blocks without an index.
    assert!(small.can_store(128) && !small.can_store(129));
    let content: Vec<u8> = (0..128u8).collect();
    small.add_file("a", &content).unwrap();
    assert_eq!(small.used_bytes(), 8 * 36);
    assert_eq!(small.read_file("a").unwrap(), content);
    small.update_file("a", b"short").unwrap();
    assert_eq!(small.used_bytes(), 36);
    assert_eq!(small.read_file("a").unwrap(), b"short");
    small.delete_file("a").unwrap();
    assert_eq!(small.used_bytes(), 0);
    small.verify_integrity().unwrap();
}

#[test]
fn an_update_keeps_the_slot_and_the_time_of_creation() {
    let mut v = fresh();
    v.add_file_with("a", b"one", 1, 100, 100).unwrap();
    v.add_file_with("b", b"two", 2, 200, 200).unwrap();
    v.update_file_with("a", b"three", 3, 300, 300).unwrap();
    let files = v.list_files().unwrap();
    let told: Vec<(&str, u64, i64, i64)> =
        files.iter().map(|f| (f.name.as_str(), f.size, f.created_at, f.modified_at)).collect();
    assert_eq!(told, [("a", 5, 100, 300), ("b", 3, 200, 200)]);
}

#[test]
fn an_update_of_the_same_length_takes_no_storage() {
    let mut v = fresh();
    v.add_file("a", &vec![1; 50_000]).unwrap();
    v.add_file("b", b"b").unwrap();
    let used = v.used_bytes();
    v.update_file("a", &vec![2; 50_000]).unwrap();
    assert_eq!(v.used_bytes(), used);
    let mut v = Vault::open(
        Image::from_bytes(&v.export_full().unwrap()),
        "pw",
        Identity::generate(),
    )
    .unwrap();
    assert!(matches!(v.update_file("a", b""), Err(VaultError::NotAuthorized)));
    assert_eq!(v.used_bytes(), used);
}

#[test]
fn adding_and_deleting_leaves_the_list_as_it_was() {
    let mut v = fresh();
    v.add_file_with("a", b"one", 1, 100, 100).unwrap();
    v.add_file_with("b", b"two", 2, 200, 200).unwrap();
    v.delete_file("a").unwrap();
    let (seq, _) = v.chain_state();
    let used = v.used_bytes();
    let tell = |v: &Vault| -> Vec<(String, u64, i64, i64)> {
        let files = v.list_files().unwrap();
        files.into_iter().map(|f| (f.name, f.size, f.created_at, f.modified_at)).collect()
    };
    let before = tell(&v);
    v.add_file("a", b"again").unwrap();
    assert_eq!(tell(&v).len(), 2);
    v.delete_file("a").unwrap();
    assert_eq!(tell(&v), before);
    assert_eq!(v.used_bytes(), used);
    assert_eq!(v.chain_state().0, seq + 2);
    v.add_file("a", b"once more").unwrap();
    assert_eq!(v.read_file("a").unwrap(), b"once more");
    assert_eq!(v.read_file("b").unwrap(), b"two");
}

#[test]
fn a_revocation_changes_the_content_key() {
    let mut v = fresh();
    let (leaving, staying) = (Identity::generate(), Identity::generate());
    v.grant_access(&leaving.peer_id()).unwrap();
    v.grant_access(&staying.peer_id()).unwrap();
    v.add_file("a", b"for those who stay").unwrap();
    let bytes = v.export_full().unwrap();
    let data = Header::decode(&bytes[..HEADER_SIZE as usize]).unwrap().data_offset as usize;
    v.revoke_access(&leaving.peer_id().signing_public, "pw").unwrap();
    let after = v.export_full().unwrap();
    // The same words under the same identifier, in the same block.
    assert_eq!(bytes[data..data + 4], after[data..data + 4]);
    assert_ne!(bytes[data + 4..data + 38], after[data + 4..data + 38]);
    assert!(Vault::open_as_recipient(Image::from_bytes(&after), &leaving).is_err());
    let theirs = Vault::open_as_recipient(Image::from_bytes(&after), &staying).unwrap();
    assert_eq!(theirs.read_file("a").unwrap(), b"for those who stay");
}

#[test]
fn a_revocation_reaches_replicas() {
    let mut v = fresh();
    let (leaving, staying) = (Identity::generate(), Identity::generate());
    v.grant_access(&leaving.peer_id()).unwrap();
    v.grant_access(&staying.peer_id()).unwrap();
    v.add_file("a", b"alpha").unwrap();
    v.take_change_log();
    let bytes = v.export_full().unwrap();
    let mut replica = Vault::open_as_recipient(Image::from_bytes(&bytes), &staying).unwrap();
    v.revoke_access(&leaving.peer_id().signing_public, "pw").unwrap();
    v.update_file("a", b"beta").unwrap();
    replica.apply_remote_patch(&v.take_change_log()).unwrap();
    let bytes = replica.export_full().unwrap();
    assert_eq!(bytes, v.export_full().unwrap());
    let replica = Vault::open_as_recipient(Image::from_bytes(&bytes), &staying).unwrap();
    assert_eq!(replica.read_file("a").unwrap(), b"beta");
}

/// The identifier under which the file in the first slot is stored.
fn first_id(v: &Vault) -> u128 {
    let bytes = v.export_full().unwrap();
    let h = Header::decode(&bytes[..HEADER_SIZE as usize]).unwrap();
    let at = h.file_table_offset as usize;
    FileEntry::decode(&bytes[at..at + 320]).unwrap().id
}

#[test]
fn an_update_is_sealed_under_another_identifier() {
    let mut v = fresh();
    v.add_file("a", b"the old content").unwrap();
    let old_id = first_id(&v);
    let bytes = v.export_full().unwrap();
    let data = Header::decode(&bytes[..HEADER_SIZE as usize]).unwrap().data_offset as usize;
    let old_block = bytes[data..data + 4096].to_vec();

    v.update_file("a", b"the old content").unwrap();
    assert_ne!(first_id(&v), old_id);
    assert_eq!(v.read_file("a").unwrap(), b"the old content");
    // The same words in the same block, but not the same ciphertext.
    let bytes = v.export_full().unwrap();
    assert_ne!(&bytes[data..data + 4096], &old_block[..]);

    v.update_file_with("a", b"again", 77, 5, 6).unwrap();
    assert_eq!(first_id(&v), 77);
    assert_eq!(v.read_file("a").unwrap(), b"again");
    v.verify_integrity().unwrap();
}

#[test]
fn a_wiped_chain_is_noticed() {
    let mut v = fresh();
    v.add_file("a", b"alpha").unwrap();
    v.add_file("b", b"beta").unwrap();
    let bytes = v.export_full().unwrap();
    let h = Header::decode(&bytes[..HEADER_SIZE as usize]).unwrap();
    let (start, len) = (h.chain_offset as usize, h.chain_len as usize);
    assert!(v.verify_integrity().is_ok());
    for (at, n) in [(start, len), (start, 224), (start + 224, 224), (start + 448, 224)] {
        let mut wiped = bytes.clone();
        wiped[at..at + n].fill(0);
        let v = Vault::open(Image::from_bytes(&wiped), "pw", Identity::generate()).unwrap();
        assert!(matches!(
            v.verify_integrity(),
            Err(VaultError::IntegrityViolation("a chain record is missing"))
        ));
        assert_eq!(v.read_file("a").unwrap(), b"alpha");
    }
}

#[test]
fn a_tampered_block_is_noticed() {
    let mut v = fresh();
    // Ten data blocks and the index block that lists the last two.
    v.add_file("a", &vec![7; 10 * 4076]).unwrap();
    v.add_file("b", b"untouched").unwrap();
    assert_eq!(v.used_bytes(), 12 * 4096);
    let bytes = v.export_full().unwrap();
    let data = Header::decode(&bytes[..HEADER_SIZE as usize]).unwrap().data_offset as usize;
    for block in 0..11 {
        let mut tampered = bytes.clone();
        tampered[data + block * 4096 + 10] ^= 1;
        let v = Vault::open(Image::from_bytes(&tampered), "pw", Identity::generate()).unwrap();
        assert!(v.read_file("a").is_err());
        assert!(v.verify_integrity().is_err());
        assert_eq!(v.read_file("b").unwrap(), b"untouched");
    }
}

#[test]
fn revoking_undoes_granting() {
    let mut v = fresh();
    let (staying, leaving) = (Identity::generate(), Identity::generate());
    v.grant_access(&staying.peer_id()).unwrap();
    v.add_file("a", b"alpha").unwrap();
    let (seq, _) = v.chain_state();
    let used = v.used_bytes();
    v.grant_access(&leaving.peer_id()).unwrap();
    assert_eq!(v.list_recipients().unwrap().len(), 2);
    v.revoke_access(&leaving.peer_id().signing_public, "pw").unwrap();
    let peers = v.list_recipients().unwrap();
    assert_eq!(peers.len(), 1);
    assert_eq!(peers[0].peer_id.to_bytes(), staying.peer_id().to_bytes());
    assert_eq!(v.read_file("a").unwrap(), b"alpha");
    assert_eq!((v.used_bytes(), v.chain_state().0), (used, seq + 2));
    v.verify_integrity().unwrap();
}
