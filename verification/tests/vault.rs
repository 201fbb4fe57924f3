use ruvault::engine::error::VaultError;
use ruvault::engine::format::{Header, HEADER_SIZE, MAX_RECIPIENTS};
use ruvault::engine::identity::Identity;
use ruvault::engine::image::Image;
use ruvault::engine::vault::Vault;

/// What a file would hold after the vault was written to it.
fn stored(v: &Vault) -> Image {
    Image::from_bytes(&v.export_full().unwrap())
}

fn small_capacity() -> u64 {
    // 64 blocks at 4096 bytes = 256 KiB of data capacity: enough for
    // exercising direct + overflow storage without slow tests.
    256 * 1024
}

#[test]
fn create_then_open_with_correct_password() {
    let v = {
        let admin = Identity::generate();
        Vault::create("My Vault", "desc", small_capacity(), "correct horse", admin).unwrap()
    };
    let admin_again = Identity::generate(); // different identity, but password path doesn't require a match to open
    let v = Vault::open(stored(&v), "correct horse", admin_again).unwrap();
    let s = v.summary();
    assert_eq!(s.name, "My Vault");
    assert_eq!(s.description, "desc");
    // Identity didn't match the recorded admin, so this handle can
    // read but not author new changes.
    assert!(!v.is_admin());
}

#[test]
fn reopening_with_the_same_identity_keeps_admin_rights() {
    let admin = Identity::generate();
    let admin_bytes = admin.to_bytes();
    let v = Vault::create("V", "d", small_capacity(), "pw", admin).unwrap();

    let same_admin = Identity::from_bytes(&admin_bytes);
    let v = Vault::open(stored(&v), "pw", same_admin).unwrap();
    assert!(v.is_admin());
}

#[test]
fn open_rejects_wrong_password() {
    let v = Vault::create("V", "d", small_capacity(), "right-pw", Identity::generate()).unwrap();
    let err = Vault::open(stored(&v), "wrong-pw", Identity::generate()).err().unwrap();
    assert!(matches!(err, VaultError::IncorrectPassword));
}

#[test]
fn create_rejects_capacity_smaller_than_one_block() {
    let err = Vault::create("V", "d", 10, "pw", Identity::generate()).err().unwrap();
    assert!(matches!(err, VaultError::CapacityTooSmall));
}

#[test]
fn add_and_read_small_file() {
    let mut v = Vault::create("V", "d", small_capacity(), "pw", Identity::generate()).unwrap();
    v.add_file("hello.txt", b"hello, world!").unwrap();
    let data = v.read_file("hello.txt").unwrap();
    assert_eq!(data, b"hello, world!");
}

#[test]
fn non_admin_handle_cannot_mutate() {
    let v = Vault::create("V", "d", small_capacity(), "pw", Identity::generate()).unwrap();
    // Opened with a *different* identity than the recorded admin.
    let mut v = Vault::open(stored(&v), "pw", Identity::generate()).unwrap();
    assert!(!v.is_admin());
    assert!(matches!(v.add_file("x.txt", b"data"), Err(VaultError::NotAuthorized)));
}

#[test]
fn add_reject_duplicate_name() {
    let mut v = Vault::create("V", "d", small_capacity(), "pw", Identity::generate()).unwrap();
    v.add_file("a.txt", b"1").unwrap();
    let err = v.add_file("a.txt", b"2").unwrap_err();
    assert!(matches!(err, VaultError::FileAlreadyExists(_)));
}

#[test]
fn read_missing_file_errors() {
    let v = Vault::create("V", "d", small_capacity(), "pw", Identity::generate()).unwrap();
    let err = v.read_file("nope.txt").unwrap_err();
    assert!(matches!(err, VaultError::FileNotFound(_)));
}

#[test]
fn add_empty_file_roundtrips() {
    let mut v = Vault::create("V", "d", small_capacity(), "pw", Identity::generate()).unwrap();
    v.add_file("empty.txt", b"").unwrap();
    let data = v.read_file("empty.txt").unwrap();
    assert!(data.is_empty());
}

#[test]
fn fragmented_large_file_spans_overflow_blocks() {
    let mut v = Vault::create("V", "d", small_capacity(), "pw", Identity::generate()).unwrap();
    let payload = vec![0xABu8; 4076 * 12 + 37];
    v.add_file("big.bin", &payload).unwrap();
    let read_back = v.read_file("big.bin").unwrap();
    assert_eq!(read_back, payload);
}

#[test]
fn update_file_replaces_contents_and_frees_old_blocks() {
    let mut v = Vault::create("V", "d", small_capacity(), "pw", Identity::generate()).unwrap();
    v.add_file("f.txt", &vec![1u8; 4076 * 3]).unwrap();
    let used_before = v.used_bytes();

    v.update_file("f.txt", b"tiny now").unwrap();
    let data = v.read_file("f.txt").unwrap();
    assert_eq!(data, b"tiny now");
    assert!(v.used_bytes() < used_before, "old blocks should have been freed");
}

#[test]
fn update_missing_file_errors() {
    let mut v = Vault::create("V", "d", small_capacity(), "pw", Identity::generate()).unwrap();
    let err = v.update_file("nope.txt", b"x").unwrap_err();
    assert!(matches!(err, VaultError::FileNotFound(_)));
}

#[test]
fn delete_file_frees_space_and_removes_from_listing() {
    let mut v = Vault::create("V", "d", small_capacity(), "pw", Identity::generate()).unwrap();
    v.add_file("f.txt", b"some content").unwrap();
    assert_eq!(v.list_files().unwrap().len(), 1);
    v.delete_file("f.txt").unwrap();
    assert_eq!(v.list_files().unwrap().len(), 0);
    assert!(v.read_file("f.txt").is_err());
}

#[test]
fn capacity_enforcement_rejects_oversized_file() {
    let mut v = Vault::create("V", "d", 64 * 1024, "pw", Identity::generate()).unwrap(); // 16 blocks
    let too_big = vec![0u8; 64 * 1024 * 2];
    let err = v.add_file("huge.bin", &too_big).unwrap_err();
    assert!(matches!(err, VaultError::InsufficientSpace { .. }));
}

#[test]
fn reopen_after_close_preserves_files() {
    let admin = Identity::generate();
    let admin_bytes = admin.to_bytes();
    let mut v = Vault::create("V", "d", small_capacity(), "pw", admin).unwrap();
    v.add_file("a.txt", b"alpha").unwrap();
    v.add_file("b.txt", b"beta").unwrap();
    let v = Vault::open(stored(&v), "pw", Identity::from_bytes(&admin_bytes)).unwrap();
    assert_eq!(v.read_file("a.txt").unwrap(), b"alpha");
    assert_eq!(v.read_file("b.txt").unwrap(), b"beta");
}

#[test]
fn verify_integrity_passes_on_healthy_vault() {
    let mut v = Vault::create("V", "d", small_capacity(), "pw", Identity::generate()).unwrap();
    v.add_file("a.txt", b"alpha").unwrap();
    v.update_file("a.txt", b"alpha-2").unwrap();
    v.add_file("b.txt", b"beta").unwrap();
    v.delete_file("b.txt").unwrap();
    v.verify_integrity().unwrap();
}

#[test]
fn verify_integrity_detects_flipped_byte_in_data_block() {
    let admin = Identity::generate();
    let admin_bytes = admin.to_bytes();
    let mut v = Vault::create("V", "d", small_capacity(), "pw", admin).unwrap();
    v.add_file("a.txt", b"alpha-content-here").unwrap();
    let mut bytes = v.export_full().unwrap();
    // Corrupt a byte a few bytes into the first data block (past its
    // 4-byte plaintext-length prefix, into the actual ciphertext).
    // Computed from the real header rather than a hardcoded
    // offset, so this doesn't go stale if a region's size changes.
    let header = Header::decode(&bytes[..HEADER_SIZE as usize]).unwrap();
    let data_start = header.data_offset as usize + 4;
    bytes[data_start] ^= 0xFF;

    let v = Vault::open(Image::from_bytes(&bytes), "pw", Identity::from_bytes(&admin_bytes)).unwrap();
    let err = v.verify_integrity().unwrap_err();
    assert!(matches!(
        err,
        VaultError::CorruptContainer(_) | VaultError::IntegrityViolation(_)
    ));
}

#[test]
fn open_rejects_non_rvlt_file() {
    let image = Image::from_bytes(b"just some random bytes, not a vault at all");
    let err = Vault::open(image, "pw", Identity::generate()).err().unwrap();
    assert!(matches!(err, VaultError::NotARvltFile | VaultError::Io(_)));
}

#[test]
fn peek_summary_does_not_require_password() {
    let v = Vault::create("Peekable", "desc", small_capacity(), "pw", Identity::generate()).unwrap();
    let summary = Vault::peek_summary(&v.export_full().unwrap()[..1024]).unwrap();
    assert_eq!(summary.name, "Peekable");
}

#[test]
fn grant_access_lets_peer_open_and_read() {
    let mut v = Vault::create("V", "d", small_capacity(), "pw", Identity::generate()).unwrap();
    v.add_file("secret.txt", b"shared content").unwrap();

    let peer = Identity::generate();
    v.grant_access(&peer.peer_id()).unwrap();

    let peer_view = Vault::open_as_recipient(stored(&v), &peer).unwrap();
    assert!(!peer_view.is_admin());
    assert_eq!(peer_view.read_file("secret.txt").unwrap(), b"shared content");
}

#[test]
fn peer_without_grant_cannot_open() {
    let v = Vault::create("V", "d", small_capacity(), "pw", Identity::generate()).unwrap();

    let stranger = Identity::generate();
    let err = Vault::open_as_recipient(stored(&v), &stranger).err().unwrap();
    assert!(matches!(err, VaultError::AccessNotGranted));
}

#[test]
fn granting_same_peer_twice_errors() {
    let mut v = Vault::create("V", "d", small_capacity(), "pw", Identity::generate()).unwrap();
    let peer = Identity::generate().peer_id();
    v.grant_access(&peer).unwrap();
    assert!(matches!(v.grant_access(&peer), Err(VaultError::AlreadyGranted)));
}

#[test]
fn revoke_access_rotates_key_and_locks_out_the_peer() {
    let mut v = Vault::create("V", "d", small_capacity(), "pw", Identity::generate()).unwrap();
    v.add_file("secret.txt", b"shared content").unwrap();

    let peer = Identity::generate();
    v.grant_access(&peer.peer_id()).unwrap();

    // Peer can read before revocation.
    {
        let peer_view = Vault::open_as_recipient(stored(&v), &peer).unwrap();
        assert_eq!(peer_view.read_file("secret.txt").unwrap(), b"shared content");
    }

    v.revoke_access(&peer.peer_id().signing_public, "pw").unwrap();

    // Peer can no longer open the vault at all -- their slot is gone.
    let err = Vault::open_as_recipient(stored(&v), &peer).err().unwrap();
    assert!(matches!(err, VaultError::AccessNotGranted));
}

#[test]
fn revoke_access_preserves_content_for_admin_and_other_recipients() {
    let admin = Identity::generate();
    let admin_bytes = admin.to_bytes();
    let mut v = Vault::create("V", "d", small_capacity(), "pw", admin).unwrap();
    v.add_file("secret.txt", b"shared content").unwrap();

    let revoked_peer = Identity::generate();
    let kept_peer = Identity::generate();
    v.grant_access(&revoked_peer.peer_id()).unwrap();
    v.grant_access(&kept_peer.peer_id()).unwrap();

    v.revoke_access(&revoked_peer.peer_id().signing_public, "pw").unwrap();

    // Admin still reads fine after rotation.
    assert_eq!(v.read_file("secret.txt").unwrap(), b"shared content");

    // Reopening as admin still works.
    let reopened = Vault::open(stored(&v), "pw", Identity::from_bytes(&admin_bytes)).unwrap();
    assert_eq!(reopened.read_file("secret.txt").unwrap(), b"shared content");

    // The peer who was NOT revoked still has working access post-rotation.
    let kept_view = Vault::open_as_recipient(stored(&v), &kept_peer).unwrap();
    assert_eq!(kept_view.read_file("secret.txt").unwrap(), b"shared content");
}

#[test]
fn revoke_unknown_peer_errors() {
    let mut v = Vault::create("V", "d", small_capacity(), "pw", Identity::generate()).unwrap();
    let stranger = Identity::generate();
    let err = v.revoke_access(&stranger.peer_id().signing_public, "pw").unwrap_err();
    assert!(matches!(err, VaultError::AccessNotGranted));
}

#[test]
fn verify_integrity_covers_grant_and_rotation_records() {
    let mut v = Vault::create("V", "d", small_capacity(), "pw", Identity::generate()).unwrap();
    v.add_file("a.txt", b"alpha").unwrap();
    let peer = Identity::generate();
    v.grant_access(&peer.peer_id()).unwrap();
    v.revoke_access(&peer.peer_id().signing_public, "pw").unwrap();
    v.verify_integrity().unwrap();
}

#[test]
fn update_file_does_not_affect_other_files() {
    let mut v = Vault::create("V", "d", small_capacity(), "pw", Identity::generate()).unwrap();
    v.add_file("a.txt", b"alpha original").unwrap();
    v.add_file("b.txt", b"beta original").unwrap();

    v.update_file("a.txt", b"alpha REPLACED").unwrap();

    assert_eq!(v.read_file("a.txt").unwrap(), b"alpha REPLACED");
    assert_eq!(v.read_file("b.txt").unwrap(), b"beta original", "unrelated file must be untouched");
}

#[test]
fn grant_access_fails_when_recipient_table_full() {
    let mut v = Vault::create("V", "d", small_capacity(), "pw", Identity::generate()).unwrap();

    for _ in 0..MAX_RECIPIENTS {
        v.grant_access(&Identity::generate().peer_id()).unwrap();
    }
    let one_too_many = Identity::generate().peer_id();
    let err = v.grant_access(&one_too_many).unwrap_err();
    assert!(matches!(err, VaultError::RecipientTableFull));
}

#[test]
fn delete_then_readd_same_name_uses_latest_content() {
    let mut v = Vault::create("V", "d", small_capacity(), "pw", Identity::generate()).unwrap();

    v.add_file("a.txt", b"first version").unwrap();
    v.delete_file("a.txt").unwrap();
    v.add_file("a.txt", b"second version, different length!").unwrap();

    assert_eq!(v.read_file("a.txt").unwrap(), b"second version, different length!");
    assert_eq!(v.list_files().unwrap().len(), 1);
}

#[test]
fn used_bytes_returns_to_baseline_after_delete() {
    let mut v = Vault::create("V", "d", small_capacity(), "pw", Identity::generate()).unwrap();
    let baseline = v.used_bytes();

    v.add_file("big.bin", &vec![7u8; 4076 * 5]).unwrap();
    assert!(v.used_bytes() > baseline, "adding a file should consume blocks");

    v.delete_file("big.bin").unwrap();
    assert_eq!(v.used_bytes(), baseline, "deleting should free exactly what was allocated");
}

#[test]
fn sequential_updates_do_not_leak_blocks() {
    let mut v = Vault::create("V", "d", small_capacity(), "pw", Identity::generate()).unwrap();
    v.add_file("f.txt", &vec![1u8; 4076 * 2]).unwrap();
    let steady_state = v.used_bytes();

    for i in 0..10u8 {
        v.update_file("f.txt", &vec![i; 4076 * 2]).unwrap();
        assert_eq!(v.used_bytes(), steady_state, "same-size update should not grow used space over repeated calls");
    }
}

#[test]
fn chain_survives_many_operations_past_the_retained_window() {
    let mut v = Vault::create("V", "d", small_capacity(), "pw", Identity::generate()).unwrap();

    // small_capacity() gives max_chain_records = 64 (see Vault::create's
    // sizing formula); push well past that so old records roll off the
    // ring buffer and verify_integrity still succeeds over whatever
    // window remains.
    for i in 0..40 {
        let name = format!("f{i}.txt");
        v.add_file(&name, b"tiny").unwrap();
        v.delete_file(&name).unwrap();
    }
    v.add_file("final.txt", b"still here").unwrap();

    v.verify_integrity().unwrap();
    assert_eq!(v.read_file("final.txt").unwrap(), b"still here");
}
