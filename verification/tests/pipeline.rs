//! Blocks, seals, headers and keys.

use fsm_core::crypto::{derive_key, is_sealable, seal, seal_with, unseal};
use fsm_core::error::VaultError;
use fsm_core::header::{build_header, parse_header, unlock, EncState};
use fsm_core::vault::commit::place_catalog;
use fsm_core::pipeline::{
    body_content, decode_block, encode_block, smaller_body, worth_compressing, DEFAULT_ZSTD_LEVEL,
    FLAG_ENC, FLAG_ZSTD,
};

#[test]
fn pipeline_compresses_and_falls_back_to_raw() {
    let compressible = vec![b'A'; 4096];
    let stored = encode_block(&compressible, DEFAULT_ZSTD_LEVEL, None).unwrap();
    assert_eq!(stored[0] & FLAG_ZSTD, FLAG_ZSTD);
    assert!(stored.len() < compressible.len());
    assert_eq!(decode_block(&stored, None).unwrap(), compressible);

    let mut incompressible = Vec::with_capacity(4096);
    let mut x: u32 = 0x1234_5678;
    for _ in 0..4096 {
        x ^= x << 13;
        x ^= x >> 17;
        x ^= x << 5;
        incompressible.push((x & 0xff) as u8);
    }
    let stored = encode_block(&incompressible, DEFAULT_ZSTD_LEVEL, None).unwrap();
    assert_eq!(stored[0] & FLAG_ZSTD, 0);
    assert_eq!(stored.len(), incompressible.len() + 1);
    assert_eq!(decode_block(&stored, None).unwrap(), incompressible);
}

#[test]
fn sealed_block_opens_with_its_key_only() {
    let key = [7u8; 32];
    let data = vec![b'A'; 4096];
    let stored = encode_block(&data, DEFAULT_ZSTD_LEVEL, Some(&key)).unwrap();
    assert_eq!(stored[0], FLAG_ZSTD | FLAG_ENC);
    assert_eq!(decode_block(&stored, Some(&key)).unwrap(), data);
    assert_eq!(decode_block(&stored, Some(&[8u8; 32])), Err(VaultError::Decrypt));
    assert_eq!(decode_block(&stored, None), Err(VaultError::LockedBlock));
    assert_eq!(decode_block(&[], None), Err(VaultError::EmptyBlock));
    assert_eq!(decode_block(&[FLAG_ENC, 1, 2], Some(&key)), Err(VaultError::SealedTooShort));
    assert_eq!(decode_block(&[FLAG_ZSTD, 1, 2], None), Err(VaultError::DecompressBlock));
}

#[test]
fn compressor_decides_what_is_stored() {
    assert!(worth_compressing(100, 89));
    assert!(!worth_compressing(100, 90));
    assert!(!worth_compressing(0, 0));
    assert_eq!(smaller_body(b"abc", vec![1, 2]), (FLAG_ZSTD, vec![1, 2]));
    assert_eq!(smaller_body(b"abc", vec![1, 2, 3]), (0, b"abc".to_vec()));
    assert_eq!(body_content(Ok(vec![5])), Ok(vec![5]));
    let failed = std::io::Error::new(std::io::ErrorKind::Other, "frame");
    assert_eq!(body_content(Err(failed)), Err(VaultError::DecompressBlock));
}

#[test]
fn empty_block_stays_empty() {
    let stored = encode_block(&[], DEFAULT_ZSTD_LEVEL, None).unwrap();
    assert_eq!(stored, vec![0]);
    assert_eq!(decode_block(&stored, None).unwrap(), Vec::<u8>::new());
}

#[test]
fn seal_is_nonce_and_tagged_text() {
    let key = [1u8; 32];
    let nonce = [2u8; 24];
    let sealed = seal_with(&key, &nonce, b"segredo").unwrap();
    assert_eq!(&sealed[..24], &nonce);
    assert_eq!(sealed.len(), 24 + 7 + 16);
    assert_eq!(unseal(&key, &sealed).unwrap(), b"segredo");
    assert_eq!(seal_with(&key, &nonce, b"segredo").unwrap(), sealed);
    let other = seal(&key, b"segredo").unwrap();
    assert_ne!(other, sealed);
    assert_eq!(unseal(&key, &other).unwrap(), b"segredo");
    assert_eq!(unseal(&key, &sealed[..20]), Err(VaultError::SealedTooShort));
    let mut bent = sealed.clone();
    bent[30] ^= 1;
    assert_eq!(unseal(&key, &bent), Err(VaultError::Decrypt));
}

#[test]
fn key_depends_on_password_and_salt() {
    let a = derive_key("senha", &[3u8; 16]).unwrap();
    assert_eq!(derive_key("senha", &[3u8; 16]).unwrap(), a);
    assert_ne!(derive_key("outra", &[3u8; 16]).unwrap(), a);
    assert_ne!(derive_key("senha", &[4u8; 16]).unwrap(), a);
    assert_eq!(derive_key("senha", &[3u8; 7]), Err(VaultError::KeyDerivation));
}

#[test]
fn header_reads_back_and_checks_the_password() {
    let plain = build_header(4096, 5000, 77, None);
    assert_eq!(plain.len(), 4096);
    assert_eq!(&plain[..8], b"FSMVLT01");
    let h = parse_header(&plain).unwrap();
    assert_eq!(h.version, 9);
    assert_eq!(h.chunk_size, 4096);
    assert_eq!(h.catalog_offset, 5000);
    assert_eq!(h.catalog_len, 77);
    assert!(!h.encrypted);
    assert!(unlock(&plain, false, None).unwrap().is_none());

    let enc = EncState::with_salt("senha", [5; 16], &[6; 24]).unwrap();
    let locked = build_header(4096, 5000, 77, Some(&enc));
    let h = parse_header(&locked).unwrap();
    assert!(h.encrypted);
    assert!(unlock(&locked, true, Some("senha")).unwrap().is_some());
    assert_eq!(unlock(&locked, true, Some("outra")).err(), Some(VaultError::WrongPassword));
    assert_eq!(unlock(&locked, true, None).err(), Some(VaultError::PasswordRequired));
    assert_eq!(&locked[36..52], &[5u8; 16]);
}

#[test]
fn cipher_takes_as_many_blocks_as_its_counter_has() {
    let most = 0xffff_fffe_usize * 64;
    assert!(is_sealable(0));
    assert!(is_sealable(most));
    assert!(!is_sealable(most + 1));
    assert!(!is_sealable(most + 64));
}

#[test]
fn wiped_lock_has_no_key_left() {
    let mut lock = EncState::with_salt("senha", [3; 16], &[4; 24]).unwrap();
    let key = derive_key("senha", &[3; 16]).unwrap();
    let w = place_catalog(1024, 4096, b"catalogo".to_vec(), Some(&lock)).unwrap();
    assert_eq!(unseal(&key, &w.bytes).unwrap(), b"catalogo");
    lock.wipe();
    let w = place_catalog(1024, 4096, b"catalogo".to_vec(), Some(&lock)).unwrap();
    assert_eq!(unseal(&key, &w.bytes), Err(VaultError::Decrypt));
    assert_eq!(unseal(&[0; 32], &w.bytes).unwrap(), b"catalogo");
}
