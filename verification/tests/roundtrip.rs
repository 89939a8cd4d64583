use shinobu::archive;
use shinobu::cover::{Cover, MZPECover, MZPEUncover, Uncover};
use shinobu::crypto::{decrypt_file, encrypt_file};
use shinobu::errors::Error;
use shinobu::pipeline::{hide_files, unhide};
use shinobu::trailer::{encode, Metadata};

fn entry(name: &str, data: &[u8]) -> (String, Vec<u8>) {
    (name.to_string(), data.to_vec())
}

fn pe_stub(tag: u8, len: usize) -> Vec<u8> {
    let mut v = vec![0x4D, 0x5A]; // "MZ"
    v.extend(std::iter::repeat(tag).take(len));
    v
}

#[test]
fn crypto_round_trip() {
    let src = b"attack at dawn".to_vec();
    let pass = b"pw".to_vec();
    let ct = encrypt_file(&src, &pass).unwrap();
    assert_eq!(ct.len(), src.len() + (16 - src.len() % 16) + 32);
    assert_ne!(&ct[32..], &src[..]);
    let pt = decrypt_file(&ct, &pass).unwrap();
    assert_eq!(pt, src);
}

#[test]
fn crypto_multiple_of_sixteen_gets_whole_padding_block() {
    let src = vec![7u8; 48];
    let ct = encrypt_file(&src, &b"pw".to_vec()).unwrap();
    // 48 plaintext + 16 whole padding block + 32 salt/iv.
    assert_eq!(ct.len(), 96);
}

#[test]
fn crypto_wrong_password_fails_decrypt() {
    let src = b"secret".to_vec();
    let ct = encrypt_file(&src, &b"right".to_vec()).unwrap();
    assert!(matches!(decrypt_file(&ct, &b"wrong".to_vec()), Err(Error::DecryptFailed)));
}

#[test]
fn crypto_two_encryptions_differ_by_salt() {
    let src = b"same plaintext".to_vec();
    let pass = b"pw".to_vec();
    let a = encrypt_file(&src, &pass).unwrap();
    let b = encrypt_file(&src, &pass).unwrap();
    assert_ne!(a, b);
    assert_eq!(decrypt_file(&a, &pass).unwrap(), decrypt_file(&b, &pass).unwrap());
}

#[test]
fn archive_round_trip() {
    let entries = vec![entry("a.txt", b"alpha"), entry("b/c.bin", &[0u8, 1, 2, 255])];
    let blob = archive::create(&entries).unwrap();
    assert_ne!(blob, b"alpha".to_vec());
    let out = archive::extract(&blob).unwrap();
    assert_eq!(out, entries);
}

#[test]
fn archive_extract_rejects_garbage() {
    assert!(matches!(archive::extract(&vec![9u8; 64]), Err(Error::ArchiveCorrupt)));
}

#[test]
fn cover_append_keeps_prefix_and_parses_back() {
    let orig = pe_stub(0xAA, 100);
    let payload = b"hi\n".to_vec();
    let meta = Metadata { payload_size: 3, encrypted: false, part: 1, total_parts: 1 };
    let mut cov = MZPECover::from(orig.clone());
    cov.cover(&payload, &meta).unwrap();
    let grown = cov.into_inner();
    assert_eq!(&grown[..orig.len()], &orig[..]);
    assert_eq!(grown.len(), orig.len() + 3 + 8);
    assert_eq!(&grown[grown.len() - 8..], &[0, 0, 0, 3, 0, 1, 0, 1]);

    let mut unc = MZPEUncover::from(grown);
    unc.parse().unwrap();
    let m = unc.meta().unwrap();
    assert_eq!(m.payload_size, 3);
    assert_eq!(m.part, 1);
    assert_eq!(m.total_parts, 1);
    assert!(!m.encrypted);
    let mut sink: Vec<u8> = Vec::new();
    unc.uncover(&mut sink).unwrap();
    assert_eq!(sink, payload);
}

#[test]
fn parse_rejects_untouched_files() {
    // A stream of zeros decodes to part 0: not a cover.
    let mut unc = MZPEUncover::from(vec![0u8; 100]);
    assert!(matches!(unc.parse(), Err(Error::NotACover(_))));
    // A file shorter than one trailer.
    let mut short = MZPEUncover::from(vec![1u8; 5]);
    assert!(matches!(short.parse(), Err(Error::NotACover(_))));
}

#[test]
fn hide_unhide_round_trip_without_password() {
    let inputs = vec![entry("hello.txt", b"hi\n"), entry("data.bin", &[9u8; 300])];
    let covers = vec![pe_stub(1, 50), pe_stub(2, 75)];
    let grown = hide_files(&inputs, &covers, &None).unwrap();
    assert_eq!(grown.len(), 2);
    for (g, c) in grown.iter().zip(covers.iter()) {
        assert_eq!(&g[..c.len()], &c[..]);
    }
    let out = unhide(&grown, &None).unwrap();
    assert_eq!(out, inputs);
}

#[test]
fn hide_unhide_round_trip_with_password() {
    let inputs = vec![entry("f", &vec![42u8; 1000])];
    let covers = vec![pe_stub(1, 10), pe_stub(2, 20), pe_stub(3, 30)];
    let pw = Some(b"pw".to_vec());
    let grown = hide_files(&inputs, &covers, &pw).unwrap();
    // The blob is spread as base, base, base + remainder, each plus 8
    // trailer bytes, and every trailer says encrypted, total_parts 3,
    // parts 1, 2, 3 in cover order.
    let lens: Vec<usize> = grown
        .iter()
        .zip(covers.iter())
        .map(|(g, c)| g.len() - c.len() - 8)
        .collect();
    assert_eq!(lens[0], lens[1]);
    assert!(lens[2] >= lens[0] && lens[2] - lens[0] < 3);
    for (i, g) in grown.iter().enumerate() {
        let mut unc = MZPEUncover::from(g.clone());
        unc.parse().unwrap();
        let m = unc.meta().unwrap();
        assert!(m.encrypted);
        assert_eq!(m.part, i as u16 + 1);
        assert_eq!(m.total_parts, 3);
        assert_eq!(m.payload_size as usize, lens[i]);
    }
    let out = unhide(&grown, &pw).unwrap();
    assert_eq!(out, inputs);
    assert!(matches!(unhide(&grown, &Some(b"other".to_vec())), Err(Error::DecryptFailed)));
}

#[test]
fn unhide_sorts_covers_by_part() {
    let inputs = vec![entry("x", &vec![5u8; 200])];
    let covers = vec![pe_stub(1, 10), pe_stub(2, 10), pe_stub(3, 10)];
    let grown = hide_files(&inputs, &covers, &None).unwrap();
    let shuffled = vec![grown[2].clone(), grown[0].clone(), grown[1].clone()];
    let out = unhide(&shuffled, &None).unwrap();
    assert_eq!(out, inputs);
}

#[test]
fn unhide_missing_part_is_named() {
    let inputs = vec![entry("x", &vec![5u8; 200])];
    let covers = vec![pe_stub(1, 10), pe_stub(2, 10), pe_stub(3, 10)];
    let grown = hide_files(&inputs, &covers, &None).unwrap();
    let partial = vec![grown[0].clone(), grown[2].clone()];
    match unhide(&partial, &None) {
        Err(Error::MissingParts(ps)) => assert_eq!(ps, vec![2]),
        other => panic!("expected MissingParts, got {:?}", other.map(|_| ())),
    }
}

#[test]
fn unhide_duplicate_cover_is_rejected() {
    let inputs = vec![entry("x", &vec![5u8; 200])];
    let covers = vec![pe_stub(1, 10), pe_stub(2, 10)];
    let grown = hide_files(&inputs, &covers, &None).unwrap();
    let dup = vec![grown[0].clone(), grown[0].clone()];
    assert!(matches!(unhide(&dup, &None), Err(Error::DuplicateParts)));
}

#[test]
fn unhide_too_many_covers_is_rejected() {
    let inputs = vec![entry("x", b"abc")];
    let covers = vec![pe_stub(1, 10)];
    let grown = hide_files(&inputs, &covers, &None).unwrap();
    let extra = vec![grown[0].clone(), grown[0].clone()];
    assert!(matches!(unhide(&extra, &None), Err(Error::TooManyParts)));
}

#[test]
fn unhide_mixed_payloads_are_rejected() {
    let inputs = vec![entry("x", &vec![5u8; 64])];
    let two = hide_files(&inputs, &vec![pe_stub(1, 10), pe_stub(2, 10)], &None).unwrap();
    let three =
        hide_files(&inputs, &vec![pe_stub(3, 10), pe_stub(4, 10), pe_stub(5, 10)], &None).unwrap();
    let mixed = vec![two[0].clone(), three[1].clone()];
    assert!(matches!(unhide(&mixed, &None), Err(Error::InconsistentTotalParts)));

    let plain = hide_files(&inputs, &vec![pe_stub(6, 10), pe_stub(7, 10)], &None).unwrap();
    let encd =
        hide_files(&inputs, &vec![pe_stub(8, 10), pe_stub(9, 10)], &Some(b"pw".to_vec())).unwrap();
    let mixed = vec![plain[0].clone(), encd[1].clone()];
    assert!(matches!(unhide(&mixed, &None), Err(Error::InconsistentEncryption)));
}

#[test]
fn unhide_encrypted_payload_needs_password() {
    let inputs = vec![entry("x", b"abc")];
    let grown = hide_files(&inputs, &vec![pe_stub(1, 10)], &Some(b"pw".to_vec())).unwrap();
    assert!(matches!(unhide(&grown, &None), Err(Error::EncryptedPayloadNoPassword)));
}

#[test]
fn unhide_names_unparsable_cover() {
    let inputs = vec![entry("x", b"abc")];
    let grown = hide_files(&inputs, &vec![pe_stub(1, 10)], &None).unwrap();
    let mixed = vec![grown[0].clone(), vec![0u8; 40]];
    assert!(matches!(unhide(&mixed, &None), Err(Error::NotACover(1))));
}

#[test]
fn unhide_garbage_payload_is_archive_corrupt() {
    // A hand-made cover whose trailer is valid but whose chunk is not an
    // archive.
    let mut cover = pe_stub(1, 10);
    cover.extend_from_slice(&[7u8; 20]);
    let meta = Metadata { payload_size: 20, encrypted: false, part: 1, total_parts: 1 };
    cover.extend_from_slice(&encode(&meta));
    assert!(matches!(unhide(&vec![cover], &None), Err(Error::ArchiveCorrupt)));
}

#[test]
fn unhide_accepts_empty_chunks() {
    // A two-part payload whose first chunk is empty: payload_size 0 must be
    // accepted and the blob reassembled from the second chunk alone.
    let inputs = vec![entry("tiny", b"t")];
    let blob = archive::create(&inputs).unwrap();

    let mut c1 = pe_stub(1, 10);
    c1.extend_from_slice(&encode(&Metadata {
        payload_size: 0,
        encrypted: false,
        part: 1,
        total_parts: 2,
    }));
    let mut c2 = pe_stub(2, 10);
    c2.extend_from_slice(&blob);
    c2.extend_from_slice(&encode(&Metadata {
        payload_size: blob.len() as u32,
        encrypted: false,
        part: 2,
        total_parts: 2,
    }));
    let out = unhide(&vec![c1, c2], &None).unwrap();
    assert_eq!(out, inputs);
}

#[test]
fn unhide_short_chunk_is_read_failure() {
    // The trailer announces more payload bytes than the cover holds.
    let mut cover = pe_stub(1, 4);
    cover.extend_from_slice(&encode(&Metadata {
        payload_size: 1000,
        encrypted: false,
        part: 1,
        total_parts: 1,
    }));
    assert!(matches!(unhide(&vec![cover], &None), Err(Error::ChunkReadFailed(0))));
}

#[test]
fn single_cover_carries_whole_blob() {
    let inputs = vec![entry("one", &vec![3u8; 500])];
    let covers = vec![pe_stub(1, 64)];
    let grown = hide_files(&inputs, &covers, &None).unwrap();
    let mut unc = MZPEUncover::from(grown[0].clone());
    unc.parse().unwrap();
    let m = unc.meta().unwrap();
    assert_eq!(m.total_parts, 1);
    assert_eq!(m.part, 1);
    assert_eq!(m.payload_size as usize, grown[0].len() - covers[0].len() - 8);
    assert_eq!(unhide(&grown, &None).unwrap(), inputs);
}

#[test]
fn hide_rejects_zero_covers() {
    let inputs = vec![entry("x", b"abc")];
    assert!(matches!(hide_files(&inputs, &vec![], &None), Err(Error::TooManyCovers)));
}

#[test]
fn create_rejects_oversized_entry_name() {
    // The container records the name length in 16 bits; longer names are
    // refused instead of being silently truncated.
    let long = std::iter::repeat('a').take(70_000).collect::<String>();
    let entries = vec![(long, b"data".to_vec())];
    assert!(matches!(archive::create(&entries), Err(Error::IOError)));
    let inputs = vec![(std::iter::repeat('b').take(65_536).collect::<String>(), b"d".to_vec())];
    assert!(matches!(hide_files(&inputs, &vec![pe_stub(1, 10)], &None), Err(Error::IOError)));
}

#[test]
fn create_accepts_name_at_the_field_limit() {
    let name = std::iter::repeat('n').take(65_535).collect::<String>();
    let entries = vec![(name, b"payload".to_vec())];
    let blob = archive::create(&entries).unwrap();
    assert_eq!(archive::extract(&blob).unwrap(), entries);
}

#[test]
fn extract_rejects_non_stored_entries() {
    // Take a valid container and flip the central directory's compression
    // method to Deflate: extraction must refuse it, not abort.
    let entries = vec![entry("f", b"payload")];
    let mut blob = archive::create(&entries).unwrap();
    let mut patched = false;
    for i in 0..blob.len() - 3 {
        if blob[i..i + 4] == [0x50, 0x4B, 0x01, 0x02] {
            blob[i + 10] = 8;
            blob[i + 11] = 0;
            patched = true;
        }
    }
    assert!(patched);
    assert!(matches!(archive::extract(&blob), Err(Error::ArchiveCorrupt)));
}

#[test]
fn safe_names_are_told_apart() {
    assert!(archive::is_safe_name("a/b.txt"));
    assert!(archive::is_safe_name("plain.bin"));
    assert!(archive::is_safe_name("dot.file.txt"));
    assert!(archive::is_safe_name(""));
    assert!(!archive::is_safe_name("../../x"));
    assert!(!archive::is_safe_name("a/../x"));
    assert!(!archive::is_safe_name("/absolute"));
    assert!(!archive::is_safe_name("\\windows"));
    // The scan is conservative: any ".." is refused, even mid-name.
    assert!(!archive::is_safe_name("a..b"));
}
