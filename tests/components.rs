use sigil::digest::{concat_bytes, le_u64, to_hex};
use sigil::erasure::{add_rs_parity, regenerate_with_rs, split_into_chunks, ErasureError};
use sigil::framing::{embed, extract, find_from, find_last, u64_to_le};
use sigil::keys::{derive_key, ratchet_key};
use sigil::policy::{check_access, check_access_now, str_eq, AccessDenied};
use sigil::seed::{derive_seed, sample_bytes, sample_windows, seed_from_samples};
use sigil::transform::{forward_transform, inverse_transform, transform};

#[test]
fn transform_round_trip() {
    let inputs: Vec<Vec<u8>> = vec![vec![], vec![0], b"hello world".to_vec(), (0..=255).collect()];
    for d in &inputs {
        for levels in 0..4u64 {
            for seed in [0u64, 1, 42, u64::MAX] {
                let f = forward_transform(d, seed, levels);
                assert_eq!(f.len(), d.len());
                assert_eq!(inverse_transform(&f, seed, levels), *d);
            }
        }
    }
}

#[test]
fn transform_changes_data() {
    let d: Vec<u8> = vec![0; 64];
    let f = transform(&d, 7, 1, true);
    assert_ne!(f, d);
    assert_eq!(transform(&d, 7, 0, true), d);
    assert_ne!(forward_transform(&d, 7, 1), forward_transform(&d, 8, 1));
}

#[test]
fn hex_and_bytes() {
    assert_eq!(to_hex(&[0x00, 0xab, 0x10, 0xff]), "00ab10ff");
    assert_eq!(to_hex(&[]), "");
    assert_eq!(concat_bytes(b"ab", b"cd"), b"abcd".to_vec());
    assert_eq!(le_u64(&[1, 2, 0, 0, 0, 0, 0, 0, 9]), 0x0201);
    assert_eq!(u64_to_le(0x0102030405060708), vec![8, 7, 6, 5, 4, 3, 2, 1]);
}

#[test]
fn derive_key_is_sha256() {
    let k = derive_key(b"", b"abc");
    assert_eq!(
        to_hex(&k),
        "ba7816bf8f01cfea414140de5dae2223b00361a396177a9cb410ff61f20015ad"
    );
}

#[test]
fn derive_key_stable_and_label_sensitive() {
    let master = b"master secret";
    assert_eq!(derive_key(master, b"a"), derive_key(master, b"a"));
    assert_ne!(derive_key(master, b"label1"), derive_key(master, b"label2"));
    assert_eq!(derive_key(master, b"x").len(), 32);
}

#[test]
fn ratchet_key_hex_of_digest() {
    let r = ratchet_key("a", "bc");
    assert_eq!(r, "ba7816bf8f01cfea414140de5dae2223b00361a396177a9cb410ff61f20015ad");
    assert_ne!(ratchet_key("a", "bd"), r);
}

#[test]
fn seed_of_empty_sample() {
    assert_eq!(seed_from_samples(&[]), 0x141cfc9842c4b0e3);
}

#[test]
fn seed_windows() {
    let w = sample_windows(100);
    assert_eq!(w.len(), 10);
    assert_eq!(w[0], (0, 100));
    assert_eq!(w[3], (30, 70));
    let w = sample_windows(5);
    assert!(w.iter().all(|&x| x == (0, 5)));
    let w = sample_windows(50_000_000);
    assert_eq!(w[9], (45_000_000, 1_048_576));
}

#[test]
fn seed_deterministic() {
    let d: Vec<u8> = (0..1000u32).map(|i| (i % 256) as u8).collect();
    assert_eq!(derive_seed(&d), derive_seed(&d.clone()));
    let mut e = d.clone();
    e[0] ^= 1;
    assert_ne!(derive_seed(&d), derive_seed(&e));
    assert_eq!(sample_bytes(&vec![1, 2, 3]).len(), 30);
}

#[test]
fn erasure_split() {
    let c = split_into_chunks(&b"abcdefghij".to_vec(), 4);
    assert_eq!(c, vec![b"abcd".to_vec(), b"efgh".to_vec(), vec![b'i', b'j', 0, 0]]);
    assert!(split_into_chunks(&vec![], 4).is_empty());
}

#[test]
fn erasure_any_two_of_five() {
    let data: Vec<Vec<u8>> = vec![vec![1, 2, 3], vec![4, 5, 6], vec![7, 8, 9]];
    let full = add_rs_parity(&data, 2);
    assert_eq!(full.len(), 5);
    assert_eq!(&full[..3], &data[..]);
    for a in 0..5usize {
        for b in 0..5usize {
            let missing: Vec<usize> = if a == b { vec![a] } else { vec![a, b] };
            let mut damaged = full.clone();
            for &m in &missing {
                damaged[m] = vec![0xee; 3];
            }
            assert_eq!(regenerate_with_rs(&mut damaged, &missing, 2), Ok(()));
            assert_eq!(damaged, full);
        }
    }
}

#[test]
fn erasure_too_many_missing() {
    let data: Vec<Vec<u8>> = vec![vec![1, 2], vec![3, 4]];
    let full = add_rs_parity(&data, 2);
    let mut damaged = full.clone();
    assert_eq!(regenerate_with_rs(&mut damaged, &vec![0, 1, 2], 2), Err(ErasureError::TooManyMissing));
    assert_eq!(damaged, full);
    assert_eq!(regenerate_with_rs(&mut damaged, &vec![], 2), Ok(()));
    assert_eq!(damaged, full);
}

#[test]
fn policy_checks() {
    assert_eq!(check_access(5, Some(10), None, None), Ok(()));
    assert_eq!(check_access(11, Some(10), None, None), Err(AccessDenied::Expired));
    assert_eq!(check_access(0, None, Some("allowed_location"), Some("read_only")), Ok(()));
    assert_eq!(check_access(0, None, Some("x"), None), Err(AccessDenied::Place));
    assert_eq!(check_access(0, None, None, Some("x")), Err(AccessDenied::Manner));
    assert_eq!(check_access(11, Some(10), Some("x"), Some("y")), Err(AccessDenied::Expired));
    assert_eq!(check_access_now(None, None, None), Ok(()));
    assert_eq!(check_access_now(Some(0), None, None), Err(AccessDenied::Expired));
    assert!(str_eq("ab", "ab"));
    assert!(!str_eq("ab", "abc"));
}

#[test]
fn search() {
    assert_eq!(find_from(b"abcabc", b"bc", 0), Some(1));
    assert_eq!(find_from(b"abcabc", b"bc", 2), Some(4));
    assert_eq!(find_from(b"abcabc", b"x", 0), None);
    assert_eq!(find_last(b"abcabc", b"ab"), Some(3));
    assert_eq!(find_last(b"abc", b"abcd"), None);
}

#[test]
fn embed_then_extract() {
    let host = b"host file bytes SIGILEMB with a marker inside".to_vec();
    let archive = b"archive payload".to_vec();
    let joined = embed(&host, &archive);
    assert_eq!(joined.len(), host.len() + 16 + archive.len());
    assert_eq!(extract(&joined), Some(archive));
    assert_eq!(extract(b"no marker here"), None);
    assert_eq!(extract(&embed(b"", b"")), Some(vec![]));
}

#[test]
fn erasure_leaves_surviving_rows() {
    let data: Vec<Vec<u8>> = vec![vec![1, 2], vec![3, 4], vec![5, 6]];
    let full = add_rs_parity(&data, 2);
    let mut damaged = full.clone();
    damaged[2] = vec![9, 9];
    assert_eq!(regenerate_with_rs(&mut damaged, &vec![2], 2), Ok(()));
    assert_eq!(damaged, full);
}

#[test]
fn erasure_single_missing_with_two_parity() {
    let mut chunks = vec![vec![0u8], vec![247u8], vec![247u8]];
    assert_eq!(regenerate_with_rs(&mut chunks, &vec![0], 2), Ok(()));
    assert_eq!(chunks[1], vec![247u8]);
    assert_eq!(chunks[2], vec![247u8]);
}
