use patina::stl::stl_bytes;

#[test]
fn empty_stl_is_header_and_zero_count() {
    let bytes = stl_bytes(&[]);
    assert_eq!(bytes.len(), 84);
    assert!(bytes.iter().all(|&b| b == 0));
}

#[test]
fn stl_record_follows_count() {
    let mut record = [0u8; 48];
    for (i, b) in record.iter_mut().enumerate() {
        *b = i as u8 + 1;
    }
    let bytes = stl_bytes(&[record]);
    assert_eq!(bytes.len(), 134);
    assert!(bytes[..80].iter().all(|&b| b == 0));
    assert_eq!(&bytes[80..84], &[1, 0, 0, 0]);
    assert_eq!(&bytes[84..132], &record[..]);
    assert_eq!(&bytes[132..], &[0, 0]);
}

#[test]
fn stl_count_is_little_endian() {
    let records = vec![[7u8; 48]; 300];
    let bytes = stl_bytes(&records);
    assert_eq!(bytes.len(), 84 + 300 * 50);
    assert_eq!(&bytes[80..84], &[44, 1, 0, 0]);
    assert_eq!(bytes[84 + 299 * 50], 7);
    assert_eq!(bytes[84 + 299 * 50 + 48], 0);
}
