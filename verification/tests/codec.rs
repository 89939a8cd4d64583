use shinobu::errors::Error;
use shinobu::trailer::{decode, encode, Metadata};
use shinobu::crypto::get_encrypted_size;
use shinobu::utils;

fn meta(payload_size: u32, encrypted: bool, part: u16, total_parts: u16) -> Metadata {
    Metadata { payload_size, encrypted, part, total_parts }
}

#[test]
fn trailer_bytes_for_three_byte_payload() {
    // payload_size=3, encrypted=0, part=1, total_parts=1
    let b = encode(&meta(3, false, 1, 1));
    assert_eq!(b, [0x00, 0x00, 0x00, 0x03, 0x00, 0x01, 0x00, 0x01]);
}

#[test]
fn trailer_round_trip_samples() {
    let cases = [
        meta(0, false, 1, 1),
        meta(3, false, 1, 1),
        meta(333, true, 2, 3),
        meta(u32::MAX, true, 32767, 32767),
        meta(7, false, 1, 32767),
    ];
    for m in cases {
        let d = decode(&encode(&m)).unwrap();
        assert_eq!(d.payload_size, m.payload_size);
        assert_eq!(d.encrypted, m.encrypted);
        assert_eq!(d.part, m.part);
        assert_eq!(d.total_parts, m.total_parts);
    }
}

#[test]
fn trailer_zero_payload_size_is_accepted() {
    let d = decode(&encode(&meta(0, true, 2, 2))).unwrap();
    assert_eq!(d.payload_size, 0);
    assert_eq!(d.part, 2);
}

#[test]
fn trailer_rejects_part_zero() {
    let b = [0x00, 0x00, 0x00, 0x03, 0x00, 0x00, 0x00, 0x01];
    assert!(matches!(decode(&b), Err(Error::InvalidTrailer)));
}

#[test]
fn trailer_rejects_total_parts_zero() {
    let b = [0x00, 0x00, 0x00, 0x03, 0x00, 0x01, 0x00, 0x00];
    assert!(matches!(decode(&b), Err(Error::InvalidTrailer)));
}

#[test]
fn trailer_rejects_part_past_total() {
    let b = [0x00, 0x00, 0x00, 0x03, 0x00, 0x03, 0x00, 0x02];
    assert!(matches!(decode(&b), Err(Error::InvalidTrailer)));
}

#[test]
fn trailer_reserved_bit_ignored_on_read() {
    // Same record with and without the reserved bit set decode alike.
    let clean = [0x00, 0x00, 0x00, 0x07, 0x00, 0x02, 0x00, 0x03];
    let dirty = [0x00, 0x00, 0x00, 0x07, 0x00, 0x02, 0x80, 0x03];
    let a = decode(&clean).unwrap();
    let b = decode(&dirty).unwrap();
    assert_eq!(a.part, b.part);
    assert_eq!(a.total_parts, b.total_parts);
    assert_eq!(a.payload_size, b.payload_size);
    assert_eq!(a.encrypted, b.encrypted);
}

#[test]
fn encrypted_size_of_multiple_of_sixteen_gains_whole_block() {
    // 32 bytes of plaintext: 32 + 16 padding + 32 salt/iv.
    let src = vec![0u8; 32];
    assert_eq!(get_encrypted_size(&src), 80);
    let src0: Vec<u8> = Vec::new();
    assert_eq!(get_encrypted_size(&src0), 48);
}

#[test]
fn encrypted_size_rounds_up() {
    let src = vec![0u8; 3];
    assert_eq!(get_encrypted_size(&src), 48);
    let src = vec![0u8; 17];
    assert_eq!(get_encrypted_size(&src), 64);
}

#[test]
fn count_unique_counts_distinct_values() {
    assert_eq!(utils::count_unique(&vec![]), 0);
    assert_eq!(utils::count_unique(&vec![5, 5, 5]), 1);
    assert_eq!(utils::count_unique(&vec![1, 2, 3, 2, 1]), 3);
}

#[test]
fn temp_filename_has_prefix_and_digits() {
    let name = utils::get_temp_filename().unwrap();
    assert!(name.starts_with("_shinobu_"));
    assert!(name.len() > "_shinobu_".len());
    assert!(name["_shinobu_".len()..].chars().all(|c| c.is_ascii_digit()));
}
