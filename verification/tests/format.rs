use ruvault::engine::crypto::WRAPPED_DEK_LEN;
use ruvault::engine::error::VaultError;
use ruvault::engine::format::{
    Header, DEFAULT_BLOCK_SIZE, DIRECT_BLOCKS, ENTRY_FLAG_OCCUPIED, FORMAT_VERSION, HEADER_SIZE,
    MAX_FILENAME_LEN, MAX_RECIPIENTS, MAX_SUPPORTED_VERSION, RECIPIENT_FLAG_OCCUPIED,
};
use ruvault::engine::identity::Identity;
use ruvault::engine::records::{
    ChainOp, ChainRecord, FileEntry, RecipientSlot, CHAIN_RECORD_SIZE, ENTRY_SIZE,
    RECIPIENT_SLOT_SIZE,
};

fn sample_header() -> Header {
    let block_size = DEFAULT_BLOCK_SIZE;
    let block_count = 16u64;
    let bitmap_len = 8u64;
    let file_table_len = (4 * ENTRY_SIZE) as u64;
    let recipient_len = (MAX_RECIPIENTS * RECIPIENT_SLOT_SIZE) as u64;
    let chain_len = (4 * CHAIN_RECORD_SIZE) as u64;
    let bitmap_offset = HEADER_SIZE;
    let file_table_offset = bitmap_offset + bitmap_len;
    let recipient_offset = file_table_offset + file_table_len;
    let chain_offset = recipient_offset + recipient_len;
    let data_offset = chain_offset + chain_len;
    Header {
        version: FORMAT_VERSION,
        flags: 0,
        block_size,
        block_count,
        capacity_bytes: block_count * block_size as u64,
        name: "My Vault".into(),
        description: "a test vault".into(),
        created_at: 1_700_000_000,
        salt: [9u8; 16],
        argon2_m_cost_kib: 19 * 1024,
        argon2_t_cost: 2,
        argon2_p_cost: 1,
        admin_key_slot: vec![1, 2, 3, 4],
        admin_signing_pubkey: [5u8; 32],
        admin_encryption_pubkey: [6u8; 32],
        bitmap_offset,
        bitmap_len,
        file_table_offset,
        file_table_len,
        max_files: 4,
        entry_size: ENTRY_SIZE,
        recipient_offset,
        recipient_len,
        max_recipients: MAX_RECIPIENTS,
        recipient_slot_size: RECIPIENT_SLOT_SIZE,
        chain_offset,
        chain_len,
        max_chain_records: 4,
        chain_record_size: CHAIN_RECORD_SIZE,
        chain_next_seq: 0,
        chain_last_hash: [0u8; 32],
        data_offset,
    }
}

#[test]
fn header_roundtrip() {
    let h = sample_header();
    let encoded = h.encode();
    assert_eq!(encoded.len() as u64, HEADER_SIZE);
    let decoded = Header::decode(&encoded).unwrap();
    assert_eq!(decoded.name, "My Vault");
    assert_eq!(decoded.description, "a test vault");
    assert_eq!(decoded.block_count, 16);
    assert_eq!(decoded.data_offset, h.data_offset);
    assert_eq!(decoded.admin_signing_pubkey, [5u8; 32]);
}

#[test]
fn header_rejects_bad_magic() {
    let h = sample_header();
    let mut encoded = h.encode();
    encoded[0] ^= 0xFF;
    assert!(matches!(Header::decode(&encoded), Err(VaultError::NotARvltFile)));
}

#[test]
fn header_rejects_checksum_tampering() {
    let h = sample_header();
    let mut encoded = h.encode();
    // Flip a byte inside the name field, well after magic/version.
    encoded[20] ^= 0xFF;
    assert!(matches!(Header::decode(&encoded), Err(VaultError::ChecksumMismatch(_))));
}

#[test]
fn header_rejects_future_version() {
    let h = sample_header();
    let mut encoded = h.encode();
    encoded[8..12].copy_from_slice(&(MAX_SUPPORTED_VERSION + 1).to_le_bytes());
    // The version check runs before the checksum check, so a bumped
    // version number is rejected as unsupported even though the
    // checksum (computed over the original version) would also now
    // fail to match.
    assert!(matches!(
        Header::decode(&encoded),
        Err(VaultError::UnsupportedVersion { .. }) | Err(VaultError::ChecksumMismatch(_))
    ));
}

#[test]
fn file_entry_roundtrip() {
    let mut direct_blocks = [0u64; DIRECT_BLOCKS];
    direct_blocks[0] = 5;
    direct_blocks[1] = 6;
    let entry = FileEntry {
        id: 123456789,
        name: "notes.txt".into(),
        size: 42,
        blocks_used: 2,
        direct_blocks,
        overflow_block: 0,
        file_hash: [7u8; 32],
        created_at: 100,
        modified_at: 200,
        flags: ENTRY_FLAG_OCCUPIED,
    };
    let encoded = entry.encode();
    assert_eq!(encoded.len() as u32, ENTRY_SIZE);
    let decoded = FileEntry::decode(&encoded).unwrap();
    assert_eq!(decoded.name, "notes.txt");
    assert_eq!(decoded.size, 42);
    assert_eq!(decoded.direct_blocks[0], 5);
    assert!(decoded.is_occupied());
}

#[test]
fn empty_file_entry_slot_is_not_occupied() {
    let slot = FileEntry::empty_slot();
    let decoded = FileEntry::decode(&slot).unwrap();
    assert!(!decoded.is_occupied());
}

#[test]
fn file_entry_rejects_checksum_tampering() {
    let entry = FileEntry {
        id: 1,
        name: "a".into(),
        size: 1,
        blocks_used: 1,
        direct_blocks: [1; DIRECT_BLOCKS],
        overflow_block: 0,
        file_hash: [0; 32],
        created_at: 0,
        modified_at: 0,
        flags: ENTRY_FLAG_OCCUPIED,
    };
    let mut encoded = entry.encode();
    encoded[20] ^= 0xFF;
    assert!(matches!(FileEntry::decode(&encoded), Err(VaultError::ChecksumMismatch(_))));
}

#[test]
fn recipient_slot_roundtrip() {
    let slot = RecipientSlot {
        signing_pubkey: [1u8; 32],
        encryption_pubkey: [2u8; 32],
        wrapped_dek: vec![9u8; WRAPPED_DEK_LEN],
        granted_at: 12345,
        flags: RECIPIENT_FLAG_OCCUPIED,
    };
    let encoded = slot.encode();
    assert_eq!(encoded.len() as u32, RECIPIENT_SLOT_SIZE);
    let decoded = RecipientSlot::decode(&encoded).unwrap();
    assert_eq!(decoded.signing_pubkey, [1u8; 32]);
    assert_eq!(decoded.wrapped_dek.len(), WRAPPED_DEK_LEN);
    assert!(decoded.is_occupied());
}

#[test]
fn empty_recipient_slot_is_not_occupied() {
    let slot = RecipientSlot::empty_slot();
    let decoded = RecipientSlot::decode(&slot).unwrap();
    assert!(!decoded.is_occupied());
}

#[test]
fn recipient_slot_rejects_checksum_tampering() {
    let slot = RecipientSlot {
        signing_pubkey: [1u8; 32],
        encryption_pubkey: [2u8; 32],
        wrapped_dek: vec![9u8; WRAPPED_DEK_LEN],
        granted_at: 1,
        flags: RECIPIENT_FLAG_OCCUPIED,
    };
    let mut encoded = slot.encode();
    encoded[10] ^= 0xFF;
    assert!(matches!(RecipientSlot::decode(&encoded), Err(VaultError::ChecksumMismatch(_))));
}

#[test]
fn chain_record_roundtrip_self_verify_and_signature() {
    let admin = Identity::generate();
    let rec = ChainRecord::new_signed(1, [0u8; 32], ChainOp::FileAdded, 42, [9u8; 32], 12345, &admin);
    assert!(rec.verify_self());
    assert!(rec.verify_signature(&admin.peer_id().signing_public).is_ok());

    let encoded = rec.encode();
    assert_eq!(encoded.len() as u32, CHAIN_RECORD_SIZE);
    let decoded = ChainRecord::decode(&encoded).unwrap().unwrap();
    assert_eq!(decoded.seq, 1);
    assert!(decoded.verify_self());
    assert!(decoded.verify_signature(&admin.peer_id().signing_public).is_ok());
}

#[test]
fn chain_record_signature_rejects_wrong_signer() {
    let admin = Identity::generate();
    let impostor = Identity::generate();
    let rec = ChainRecord::new_signed(1, [0u8; 32], ChainOp::FileAdded, 42, [9u8; 32], 12345, &admin);
    assert!(rec.verify_signature(&impostor.peer_id().signing_public).is_err());
}

#[test]
fn empty_chain_slot_decodes_as_none() {
    let slot = vec![0u8; CHAIN_RECORD_SIZE as usize];
    assert!(ChainRecord::decode(&slot).unwrap().is_none());
}

#[test]
fn chain_record_detects_tampering() {
    let admin = Identity::generate();
    let mut rec = ChainRecord::new_signed(1, [0u8; 32], ChainOp::FileAdded, 42, [9u8; 32], 12345, &admin);
    rec.data_hash[0] ^= 0xFF; // simulate corruption without recomputing hash
    assert!(!rec.verify_self());
}

#[test]
fn file_entry_with_max_length_name_roundtrips() {
    let long_name: String = "a".repeat(MAX_FILENAME_LEN);
    let entry = FileEntry {
        id: 7,
        name: long_name.clone(),
        size: 1,
        blocks_used: 1,
        direct_blocks: [1; DIRECT_BLOCKS],
        overflow_block: 0,
        file_hash: [0; 32],
        created_at: 0,
        modified_at: 0,
        flags: ENTRY_FLAG_OCCUPIED,
    };
    let encoded = entry.encode();
    assert_eq!(encoded.len() as u32, ENTRY_SIZE);
    let decoded = FileEntry::decode(&encoded).unwrap();
    assert_eq!(decoded.name, long_name);
}

#[test]
fn header_decode_rejects_truncated_buffer() {
    let h = sample_header();
    let encoded = h.encode();
    let truncated = &encoded[..encoded.len() / 2];
    assert!(matches!(Header::decode(truncated), Err(VaultError::CorruptContainer(_))));
}

#[test]
fn recipient_slot_decode_rejects_truncated_buffer() {
    let slot = RecipientSlot {
        signing_pubkey: [1u8; 32],
        encryption_pubkey: [2u8; 32],
        wrapped_dek: vec![9u8; WRAPPED_DEK_LEN],
        granted_at: 1,
        flags: RECIPIENT_FLAG_OCCUPIED,
    };
    let encoded = slot.encode();
    let truncated = &encoded[..encoded.len() / 2];
    assert!(matches!(RecipientSlot::decode(truncated), Err(VaultError::CorruptContainer(_))));
}

#[test]
fn each_flaw_of_a_layout_is_named() {
    let flaw = |change: fn(&mut Header)| {
        let mut h = sample_header();
        change(&mut h);
        match Header::decode(&h.encode()) {
            Err(VaultError::CorruptContainer(why)) => why,
            _ => "none",
        }
    };
    assert_eq!(flaw(|_| {}), "none");
    assert_eq!(flaw(|h| h.block_size = 0), "block_size/block_count is zero");
    assert_eq!(flaw(|h| h.block_count = u64::MAX), "block_count * block_size overflows u64");
    let disagree = "block_size/block_count does not agree with capacity_bytes";
    assert_eq!(flaw(|h| h.capacity_bytes = 1), disagree);
    assert_eq!(flaw(|h| h.block_count += 1), disagree);
    assert_eq!(flaw(|h| h.capacity_bytes += 4096), disagree);
    assert_eq!(flaw(|h| h.capacity_bytes += 4095), "none");
    assert_eq!(flaw(|h| h.bitmap_offset = 1000), "bitmap_offset overlaps header");
    assert_eq!(flaw(|h| h.file_table_offset -= 1), "file_table_offset overlaps bitmap");
    assert_eq!(flaw(|h| h.recipient_offset -= 1), "recipient_offset overlaps file table");
    assert_eq!(flaw(|h| h.chain_offset -= 1), "chain_offset overlaps recipient keyring");
    assert_eq!(flaw(|h| h.data_offset -= 1), "data_offset overlaps chain region");
}

#[test]
fn a_header_is_stored_at_fixed_places() {
    let h = sample_header();
    let b = h.encode();
    assert_eq!(&b[..8], b"RVLT0001");
    assert_eq!(b[8..12], 2u32.to_le_bytes());
    assert_eq!(b[16..20], 4096u32.to_le_bytes());
    assert_eq!(b[20..28], 16u64.to_le_bytes());
    assert_eq!(b[36..38], 8u16.to_le_bytes());
    assert_eq!(&b[38..46], b"My Vault");
    assert_eq!(h.total_container_size(), h.data_offset + 16 * 4096);
}

#[test]
fn each_region_must_hold_what_is_counted_in_it() {
    let flaw = |change: fn(&mut Header)| {
        let mut h = sample_header();
        change(&mut h);
        match h.check_counts() {
            Err(VaultError::CorruptContainer(why)) => why,
            _ => "none",
        }
    };
    assert_eq!(flaw(|_| {}), "none");
    assert_eq!(flaw(|h| h.bitmap_len = 1), "bitmap is too short for block_count");
    assert_eq!(flaw(|h| h.max_files = 5), "file table is too short for max_files");
    assert_eq!(
        flaw(|h| h.max_recipients = u32::MAX),
        "recipient keyring is too short for max_recipients"
    );
    assert_eq!(
        flaw(|h| h.chain_record_size += 1),
        "chain region is too short for max_chain_records"
    );
}
