use aozoraepub3_to_azw3::kf8::compress::PalmDocCompressor;
use aozoraepub3_to_azw3::kf8::text::{
    trailing_entry_size, utf8_leading_byte_length, utf8_overlap_between, TextRecord,
};

#[test]
fn split_is_global_across_chunks() {
    let first = vec![b'a'; 3000];
    let second = vec![b'b'; 2000];
    let records = TextRecord::split_chunks(&[first.as_slice(), second.as_slice()]);
    assert_eq!(records.len(), 2);
    assert_eq!(records[0].data.len(), 4096);
    assert_eq!(records[1].data.len(), 904);
    assert_eq!(&records[0].data[..3000], first.as_slice());
    assert!(records[0].data[3000..].iter().all(|&b| b == b'b'));
    let mut joined = records[0].data.clone();
    joined.extend_from_slice(&records[1].data);
    let mut expected = first.clone();
    expected.extend_from_slice(&second);
    assert_eq!(joined, expected);
}

#[test]
fn empty_stream_has_no_records() {
    assert!(TextRecord::split_chunks(&[]).is_empty());
    let empty: &[u8] = &[];
    assert!(TextRecord::split_chunks(&[empty, empty]).is_empty());
}

#[test]
fn exact_multiple_has_no_partial_record() {
    let data = vec![b'x'; 8192];
    let records = TextRecord::split_chunks(&[data.as_slice()]);
    assert_eq!(records.len(), 2);
    assert_eq!(records[1].data.len(), 4096);
}

#[test]
fn overlap_carries_split_character() {
    assert_eq!(utf8_overlap_between(&[b'a', 0xe3], &[0x81, 0x82, b'b']), vec![0x81, 0x82]);
    assert_eq!(utf8_overlap_between(&[b'a', 0xe3, 0x81], &[0x82, b'b']), vec![0x82]);
    assert_eq!(utf8_overlap_between(b"abc", b"def"), Vec::<u8>::new());
    assert_eq!(utf8_overlap_between(&[0xe3], &[0x81]), Vec::<u8>::new());
    assert_eq!(utf8_leading_byte_length(b'a'), Some(1));
    assert_eq!(utf8_leading_byte_length(0xe3), Some(3));
    assert_eq!(utf8_leading_byte_length(0x81), None);
}

#[test]
fn trailing_entry_counts_its_own_size() {
    assert_eq!(trailing_entry_size(0), 1);
    assert_eq!(trailing_entry_size(5), 6);
    assert_eq!(trailing_entry_size(126), 127);
    assert_eq!(trailing_entry_size(127), 129);
}

#[test]
fn trailing_data_layout() {
    let mut data = vec![b'a'; 4095];
    data.extend_from_slice("あb".as_bytes());
    let records = TextRecord::split_chunks(&[data.as_slice()]);
    assert_eq!(records.len(), 2);
    let mut iter = records.into_iter();
    let first = iter.next().unwrap();
    let second = iter.next().unwrap();
    let bytes = first.into_trailing_data_with_compression(&[], None);
    assert_eq!(bytes.len(), 4096 + 2 + 1 + 1);
    assert_eq!(&bytes[4096..], &[0x81, 0x82, 2, 0x81]);
    let bytes = second.into_trailing_data_with_compression(&[7, 8], None);
    assert_eq!(bytes, vec![0x81, 0x82, b'b', 0, 7, 8, 0x83]);
}

#[test]
fn trailing_data_compresses_payload() {
    let records = TextRecord::split_chunks(&[b"hello world".as_slice()]);
    let mut compressor = PalmDocCompressor::new();
    let record = records.into_iter().next().unwrap();
    let bytes = record.into_trailing_data_with_compression(&[], Some(&mut compressor));
    assert_eq!(bytes, vec![b'h', b'e', b'l', b'l', b'o', b'w' ^ 0x80, b'o', b'r', b'l', b'd', 0, 0x81]);
}

#[test]
fn chunking_does_not_change_the_records() {
    let stream: Vec<u8> = (0..9000u32).map(|i| (i % 251) as u8 & 0x7f).collect();
    let whole = TextRecord::split_chunks(&[stream.as_slice()]);
    let cut = TextRecord::split_chunks(&[&stream[..1], &stream[1..4096], &stream[4096..8191], &stream[8191..]]);
    assert_eq!(whole.len(), cut.len());
    for (a, b) in whole.iter().zip(cut.iter()) {
        assert_eq!(a.data, b.data);
        assert_eq!(a.multibyte_overlap, b.multibyte_overlap);
    }
}
