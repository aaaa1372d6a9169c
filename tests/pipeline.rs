use sigil::residual::{decode_zeckendorf, fib_sequence, zeckendorf};
use sigil::sigil::{sigil_regenerate, sigil_transform, sigil_transform_at, SigilError};
use sigil::erasure::ErasureError;
use sigil::policy::AccessDenied;

#[test]
fn test_zeckendorf() {
    assert_eq!(zeckendorf(13), "100000");
}

#[test]
fn test_regen() {
    let data = b"test";
    let (mut transformed, _, orig_len, fib_residual) =
        sigil_transform(&data.to_vec(), "test_key", None, None, None).unwrap();
    let regenerated =
        sigil_regenerate(&mut transformed, "test_key", &vec![0], orig_len, &fib_residual).unwrap();
    assert_eq!(regenerated, data.to_vec());
}

#[test]
fn residual_small_values() {
    assert_eq!(zeckendorf(0), "0");
    assert_eq!(zeckendorf(1), "1");
    assert_eq!(zeckendorf(2), "10");
    assert_eq!(zeckendorf(3), "100");
    assert_eq!(zeckendorf(4), "101");
    assert_eq!(zeckendorf(12), "10101");
    assert_eq!(zeckendorf(20), "101010");
}

#[test]
fn residual_round_trip() {
    let mut values: Vec<u64> = (0..500).collect();
    values.extend_from_slice(&[
        u64::MAX,
        u64::MAX - 1,
        12200160415121876738,
        7540113804746346429,
        1 << 40,
        123456789012345,
    ]);
    for n in values {
        let code = zeckendorf(n);
        assert!(!code.contains("11"), "adjacent ones in {}", code);
        assert_eq!(decode_zeckendorf(&code), Some(n));
    }
}

#[test]
fn residual_decode_edges() {
    assert_eq!(decode_zeckendorf("1001"), Some(6));
    assert_eq!(decode_zeckendorf("100000"), Some(13));
    assert_eq!(decode_zeckendorf(""), Some(0));
    assert_eq!(decode_zeckendorf("0001"), Some(1));
    assert_eq!(decode_zeckendorf("102"), None);
    assert_eq!(decode_zeckendorf("1é"), None);
    let long = format!("1{}", "0".repeat(100));
    assert_eq!(decode_zeckendorf(&long), None);
    let zeros = "0".repeat(200);
    assert_eq!(decode_zeckendorf(&zeros), Some(0));
}

#[test]
fn fib_sequence_values() {
    assert_eq!(fib_sequence(13), vec![0, 1, 1, 2, 3, 5, 8, 13]);
    assert_eq!(fib_sequence(0), vec![0]);
    assert_eq!(fib_sequence(1), vec![0, 1, 1]);
    assert_eq!(fib_sequence(u64::MAX).len(), 94);
}

#[test]
fn sigil_round_trip_lengths() {
    for len in [0usize, 1, 3, 4, 5, 17, 1012, 1013, 5000] {
        let data: Vec<u8> = (0..len).map(|i| (i * 31 % 251) as u8).collect();
        let (mut chunks, key, orig_len, residual) =
            sigil_transform(&data, "k", None, None, None).unwrap();
        assert_eq!(orig_len, len);
        assert_eq!(key.len(), 64);
        assert!(chunks.len() <= 255);
        let back = sigil_regenerate(&mut chunks, "k", &vec![], orig_len, &residual).unwrap();
        assert_eq!(back, data);
    }
}

#[test]
fn sigil_rebuilds_two_lost_chunks() {
    let data: Vec<u8> = b"The quick brown fox jumps over the lazy dog".to_vec();
    let (mut chunks, _, orig_len, residual) =
        sigil_transform(&data, "initial_seed", None, Some("allowed_location"), Some("read_only"))
            .unwrap();
    let kept = chunks.clone();
    chunks[1] = vec![0; chunks[1].len()];
    chunks[4] = vec![0xff; chunks[4].len()];
    let back = sigil_regenerate(&mut chunks, "initial_seed", &vec![1, 4], orig_len, &residual).unwrap();
    assert_eq!(back, data);
    assert_eq!(chunks, kept);
}

#[test]
fn sigil_too_many_missing() {
    let data: Vec<u8> = b"abcdefghijklmnop".to_vec();
    let (mut chunks, _, orig_len, residual) = sigil_transform(&data, "k", None, None, None).unwrap();
    let before = chunks.clone();
    let r = sigil_regenerate(&mut chunks, "k", &vec![0, 1, 2], orig_len, &residual);
    assert_eq!(r, Err(SigilError::Erasure(ErasureError::TooManyMissing)));
    assert_eq!(chunks, before);
}

#[test]
fn sigil_residual_mismatch() {
    let data: Vec<u8> = b"abcdefghijklmnop".to_vec();
    let (mut chunks, _, orig_len, _) = sigil_transform(&data, "k", None, None, None).unwrap();
    let r = sigil_regenerate(&mut chunks, "k", &vec![], orig_len, "101");
    assert_eq!(r, Err(SigilError::ResidualMismatch));
    let r = sigil_regenerate(&mut chunks, "k", &vec![], orig_len, "x");
    assert_eq!(r, Err(SigilError::ResidualMismatch));
}

#[test]
fn sigil_malformed_inputs() {
    let data: Vec<u8> = b"abcdefgh".to_vec();
    let (mut chunks, _, orig_len, residual) = sigil_transform(&data, "k", None, None, None).unwrap();
    assert_eq!(
        sigil_regenerate(&mut chunks, "k", &vec![0, 0], orig_len, &residual),
        Err(SigilError::Malformed)
    );
    assert_eq!(
        sigil_regenerate(&mut chunks, "k", &vec![99], orig_len, &residual),
        Err(SigilError::Malformed)
    );
    assert_eq!(
        sigil_regenerate(&mut chunks, "k", &vec![], 10_000, &residual),
        Err(SigilError::Malformed)
    );
    let mut short = vec![vec![1u8, 2], vec![3u8, 4]];
    assert_eq!(sigil_regenerate(&mut short, "k", &vec![], 1, "1"), Err(SigilError::Malformed));
}

#[test]
fn sigil_access_denials() {
    let data = b"x".to_vec();
    assert_eq!(
        sigil_transform_at(2_000, &data, "k", Some(1_000), None, None).err(),
        Some(SigilError::Denied(AccessDenied::Expired))
    );
    assert!(sigil_transform_at(1_000, &data, "k", Some(1_000), None, None).is_ok());
    assert_eq!(
        sigil_transform_at(0, &data, "k", None, Some("elsewhere"), None).err(),
        Some(SigilError::Denied(AccessDenied::Place))
    );
    assert_eq!(
        sigil_transform_at(0, &data, "k", None, None, Some("write")).err(),
        Some(SigilError::Denied(AccessDenied::Manner))
    );
    assert_eq!(
        sigil_transform(&data, "k", Some(0), None, None).err(),
        Some(SigilError::Denied(AccessDenied::Expired))
    );
}

#[test]
fn sigil_key_depends_on_data() {
    let (_, k1, _, r1) = sigil_transform(&b"one".to_vec(), "seed", None, None, None).unwrap();
    let (_, k2, _, r2) = sigil_transform(&b"two".to_vec(), "seed", None, None, None).unwrap();
    let (_, k3, _, _) = sigil_transform(&b"one".to_vec(), "seed", None, None, None).unwrap();
    assert_ne!(k1, k2);
    assert_ne!(r1, r2);
    assert_eq!(k1, k3);
}

#[test]
fn sigil_chunks_stay_four_bytes_up_to_limit() {
    for len in [1usize, 252, 253, 1012] {
        let data: Vec<u8> = (0..len).map(|i| (i % 256) as u8).collect();
        let (chunks, _, _, _) = sigil_transform(&data, "k", None, None, None).unwrap();
        assert_eq!(chunks.len(), (len + 3) / 4 + 2);
        assert!(chunks.iter().all(|c| c.len() == 4));
    }
    let data: Vec<u8> = vec![7; 1013];
    let (chunks, _, _, _) = sigil_transform(&data, "k", None, None, None).unwrap();
    assert_eq!(chunks[0].len(), 5);
    assert_eq!(chunks.len(), 203 + 2);
}

#[test]
fn sigil_single_missing_odd_column() {
    let mut chunks = vec![vec![0u8], vec![247u8], vec![247u8]];
    let r = sigil_regenerate(&mut chunks, "k", &vec![0], 1, "1");
    assert!(r.is_err());
}

#[test]
fn sigil_flipped_residual_rejected() {
    let data: Vec<u8> = b"flip one residual bit".to_vec();
    let (chunks, _, orig_len, residual) = sigil_transform(&data, "k", None, None, None).unwrap();
    for t in 0..residual.len() {
        let mut flipped: Vec<char> = residual.chars().collect();
        flipped[t] = if flipped[t] == '1' { '0' } else { '1' };
        let flipped: String = flipped.into_iter().collect();
        let mut c = chunks.clone();
        assert_eq!(
            sigil_regenerate(&mut c, "k", &vec![], orig_len, &flipped),
            Err(SigilError::ResidualMismatch)
        );
    }
}
