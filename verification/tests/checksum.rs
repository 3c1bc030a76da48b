use xtransport::codec::checksum::generate_crc32_table;
use xtransport::codec::Crc32;

#[test]
fn test_empty_data() {
    assert_eq!(Crc32::compute(&[]), 0x00000000);
}

#[test]
fn test_known_values() {
    let data = b"123456789";
    assert_eq!(Crc32::compute(data), 0xCBF43926);
}

#[test]
fn test_incremental() {
    let data = b"Hello, World!";
    let full_crc = Crc32::compute(data);

    let mut crc = Crc32::new();
    crc.update(b"Hello, ");
    crc.update(b"World!");
    assert_eq!(crc.finalize(), full_crc);
}

#[test]
fn test_verify() {
    let data = b"Test data for CRC";
    let checksum = Crc32::compute(data);
    assert!(Crc32::verify(data, checksum));
    assert!(!Crc32::verify(data, checksum ^ 1));
}

#[test]
fn test_slices() {
    let full = b"Hello, World!";
    let full_crc = Crc32::compute(full);

    let slices: &[&[u8]] = &[b"Hello", b", ", b"World!"];
    assert_eq!(Crc32::compute_slices(slices), full_crc);
}

#[test]
fn crc_table_has_the_known_entries() {
    let table = generate_crc32_table();
    assert_eq!(table[0], 0x0000_0000);
    assert_eq!(table[1], 0x7707_3096);
    assert_eq!(table[2], 0xEE0E_612C);
    assert_eq!(table[128], 0xEDB8_8320);
    assert_eq!(table[255], 0x2D02_EF8D);
}

#[test]
fn crc_state_can_be_kept_and_taken_up() {
    let mut crc = Crc32::new();
    assert_eq!(crc.state(), 0xFFFF_FFFF);
    crc.update(b"1234");
    let kept = crc.state();
    let mut later = Crc32::from_state(kept);
    later.update(b"56789");
    assert_eq!(later.finalize(), 0xCBF43926);
    crc.reset();
    assert_eq!(crc.state(), 0xFFFF_FFFF);
    assert_eq!(Crc32::default().finalize(), 0);
    assert!(Crc32::verify_slices(&[b"12345", b"6789"], 0xCBF43926));
    assert!(!Crc32::verify_slices(&[b"12345", b"6789"], 0xCBF43927));
}

#[test]
fn crc_agrees_with_crc32fast() {
    let data: Vec<u8> = (0..1000u32).map(|i| (i * 7 % 256) as u8).collect();
    assert_eq!(Crc32::compute(&data), crc32fast::hash(&data));
}

#[test]
fn crc_changes_with_any_one_byte() {
    let data = b"The quick brown fox".to_vec();
    let crc = Crc32::compute(&data);
    for at in 0..data.len() {
        for bit in 0..8 {
            let mut changed = data.clone();
            changed[at] ^= 1 << bit;
            assert_ne!(Crc32::compute(&changed), crc);
        }
    }
}
