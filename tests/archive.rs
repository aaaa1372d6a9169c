use sigil::container::{
    commit, frame_archive, generate_keypair, load_keypair, parse_archive, recover_with_seed,
    verify_archive, ArchiveError, PUBLIC_KEY_BYTES, SECRET_KEY_BYTES,
};

#[test]
fn commit_then_verify_and_recover() {
    let keys = generate_keypair();
    let data: Vec<u8> = b"archival data, archival data, archival data".to_vec();
    let archive = commit(&data, &keys, 3, 6);
    assert_eq!(verify_archive(&archive), Ok(()));
    assert_eq!(recover_with_seed(&archive), Ok(data));
    let parsed = parse_archive(&archive).unwrap();
    assert_eq!(parsed.header.unwrap().0, 3);
    assert_eq!(parsed.public_key, keys.public_key);
}

#[test]
fn flipped_payload_fails_verify() {
    let keys = generate_keypair();
    let archive = commit(&b"some bytes to protect".to_vec(), &keys, 1, 6);
    let mut bad = archive.clone();
    bad[24] ^= 0x01;
    assert_eq!(verify_archive(&bad), Err(ArchiveError::SignatureInvalid));
}

#[test]
fn flipped_signature_fails_verify() {
    let keys = generate_keypair();
    let archive = commit(&b"some bytes to protect".to_vec(), &keys, 1, 6);
    let parsed = parse_archive(&archive).unwrap();
    let sig_at = 24 + parsed.payload.len() + 8;
    let mut bad = archive.clone();
    bad[sig_at + 10] ^= 0x80;
    assert_eq!(verify_archive(&bad), Err(ArchiveError::SignatureInvalid));
}

#[test]
fn other_key_fails_verify() {
    let k1 = generate_keypair();
    let k2 = generate_keypair();
    let a1 = commit(&b"data".to_vec(), &k1, 1, 6);
    let p = parse_archive(&a1).unwrap();
    let (levels, seed) = p.header.unwrap();
    let forged = frame_archive(levels, seed, &p.payload, &p.signature, &k2.public_key);
    assert_eq!(verify_archive(&forged), Err(ArchiveError::SignatureInvalid));
}

#[test]
fn malformed_and_headerless() {
    assert_eq!(verify_archive(b"nothing here").err(), Some(ArchiveError::Malformed));
    assert_eq!(parse_archive(b"SIGILARCxx::SIGN::abc").err(), Some(ArchiveError::Malformed));
    let p = parse_archive(b"payload::SIGN::sig::PKEY::key").unwrap();
    assert_eq!(p.header, None);
    assert_eq!(p.payload, b"payload".to_vec());
    assert_eq!(p.signature, b"sig".to_vec());
    assert_eq!(p.public_key, b"key".to_vec());
    assert_eq!(verify_archive(b"payload::SIGN::sig::PKEY::key"), Err(ArchiveError::InvalidKey));
    assert_eq!(recover_with_seed(b"payload::SIGN::sig::PKEY::key"), Err(ArchiveError::MissingHeader));
    let framed = frame_archive(1, 2, b"not deflate \xff\xff\xff", b"s", b"k");
    assert_eq!(recover_with_seed(&framed).err(), Some(ArchiveError::Corrupt));
}

#[test]
fn keypair_loading() {
    let keys = generate_keypair();
    assert_eq!(keys.public_key.len(), PUBLIC_KEY_BYTES);
    assert_eq!(keys.secret_key.len(), SECRET_KEY_BYTES);
    let loaded = load_keypair(&keys.public_key, &keys.secret_key).unwrap();
    assert_eq!(loaded.public_key, keys.public_key);
    assert_eq!(load_keypair(&keys.public_key[1..], &keys.secret_key).err(), Some(ArchiveError::InvalidKey));
}
