use aozoraepub3_to_azw3::kf8::div::{Div, DivEntry};
use aozoraepub3_to_azw3::kf8::exth::ExthHeader;
use aozoraepub3_to_azw3::kf8::fcis::{encode_eof, encode_fcis};
use aozoraepub3_to_azw3::kf8::fdst::{Fdst, FdstEntry};
use aozoraepub3_to_azw3::kf8::format::{to_base32, to_base32_fixed, to_decimal_padded};
use aozoraepub3_to_azw3::kf8::palmdoc::PalmDocHeader;
use aozoraepub3_to_azw3::kf8::serializer::align4;
use aozoraepub3_to_azw3::kf8::vwi::{backward_vwi_length, encode_backward_vwi, encode_vwi};
use aozoraepub3_to_azw3::Error;

fn output_message(error: Error) -> String {
    match error {
        Error::Output(message) => message,
        other => panic!("unexpected error {other:?}"),
    }
}

#[test]
fn exth_encodes_records_in_order() {
    let mut exth = ExthHeader::default();
    exth.push_text(100, "AB");
    exth.push_bytes(201, &[0, 0, 0, 1]);
    let bytes = exth.encode_checked().unwrap();
    let mut expected = b"EXTH".to_vec();
    expected.extend_from_slice(&(12u32 + 10 + 12).to_be_bytes());
    expected.extend_from_slice(&2u32.to_be_bytes());
    expected.extend_from_slice(&100u32.to_be_bytes());
    expected.extend_from_slice(&10u32.to_be_bytes());
    expected.extend_from_slice(b"AB");
    expected.extend_from_slice(&201u32.to_be_bytes());
    expected.extend_from_slice(&12u32.to_be_bytes());
    expected.extend_from_slice(&[0, 0, 0, 1]);
    assert_eq!(bytes, expected);
}

#[test]
fn exth_push_text_stores_utf8_bytes() {
    let mut exth = ExthHeader::default();
    exth.push_text(503, "青空");
    assert_eq!(exth.records[0].value, "青空".as_bytes().to_vec());
    assert_eq!(exth.records[0].kind, 503);
}

#[test]
fn fdst_encodes_header_and_ranges() {
    let fdst = Fdst::from_ranges(&[(0, 10), (10, 25)]);
    assert!(fdst.validate(25).is_ok());
    let bytes = fdst.encode();
    let mut expected = b"FDST".to_vec();
    expected.extend_from_slice(&12u32.to_be_bytes());
    expected.extend_from_slice(&2u32.to_be_bytes());
    for value in [0u32, 10, 10, 25] {
        expected.extend_from_slice(&value.to_be_bytes());
    }
    assert_eq!(bytes, expected);
}

#[test]
fn fdst_rejects_bad_ranges() {
    let not_at_zero = Fdst { entries: vec![FdstEntry { start: 1, end: 5 }] };
    assert_eq!(
        output_message(not_at_zero.validate(5).unwrap_err()),
        "FDST first range must start at zero"
    );
    let overlapping = Fdst::from_ranges(&[(0, 10), (5, 12)]);
    assert_eq!(
        output_message(overlapping.validate(12).unwrap_err()),
        "FDST ranges must be monotonic and non-negative"
    );
    let short = Fdst::from_ranges(&[(0, 10)]);
    assert_eq!(
        output_message(short.validate(11).unwrap_err()),
        "FDST ranges must end at raw markup length"
    );
}

#[test]
fn palmdoc_header_layout() {
    let header = PalmDocHeader {
        compression: 2,
        text_length: 0x0001_2345,
        record_count: 19,
        record_size: 4096,
        encryption: 0,
    };
    assert!(header.validate().is_ok());
    assert_eq!(
        header.encode(),
        vec![0, 2, 0, 0, 0, 1, 0x23, 0x45, 0, 19, 0x10, 0, 0, 0, 0, 0]
    );
    let encrypted = PalmDocHeader { encryption: 1, ..header };
    assert_eq!(
        output_message(encrypted.validate().unwrap_err()),
        "encrypted PalmDOC output is not supported"
    );
}

#[test]
fn div_for_records_points_at_each_record() {
    let div = Div::for_records(3);
    assert_eq!(div.entries.len(), 3);
    assert_eq!(div.entries[2].record, 2);
    assert_eq!(div.entries[2].offset, 0);
    assert!(div.validate(3).is_ok());
    let backwards = Div {
        entries: vec![DivEntry { record: 1, offset: 0 }, DivEntry { record: 0, offset: 0 }],
    };
    assert_eq!(
        output_message(backwards.validate(2).unwrap_err()),
        "DIV pointers must be monotonic"
    );
}

#[test]
fn fcis_and_eof_records() {
    let fcis = encode_fcis(0x1234).unwrap();
    assert_eq!(fcis.len(), 52);
    assert_eq!(&fcis[0..4], b"FCIS");
    assert_eq!(&fcis[20..24], &0x1234u32.to_be_bytes());
    assert_eq!(encode_eof(), vec![0xe9, 0x8e, 0x0d, 0x0a]);
}

#[test]
fn base32_and_decimal_text() {
    assert_eq!(to_base32(0), b"0000".to_vec());
    assert_eq!(to_base32(31), b"000V".to_vec());
    assert_eq!(to_base32(32), b"0010".to_vec());
    assert_eq!(to_base32(0x10_0000), b"10000".to_vec());
    assert_eq!(to_base32_fixed(33, 4).unwrap(), b"0011".to_vec());
    assert!(to_base32_fixed(0x10_0000, 4).is_err());
    assert_eq!(to_decimal_padded(42, 10), b"0000000042".to_vec());
}

#[test]
fn vwi_forward_and_backward() {
    assert_eq!(encode_vwi(0), vec![0x80]);
    assert_eq!(encode_vwi(127), vec![0xff]);
    assert_eq!(encode_vwi(128), vec![0x01, 0x80]);
    assert_eq!(encode_backward_vwi(128), vec![0x81, 0x00]);
    assert_eq!(encode_backward_vwi(5), vec![0x85]);
    assert_eq!(backward_vwi_length(127), 1);
    assert_eq!(backward_vwi_length(128), 2);
}

fn read_forward_vwi(bytes: &[u8]) -> u64 {
    let mut value = 0u64;
    for &byte in bytes {
        value = value * 128 + u64::from(byte & 0x7f);
        if byte & 0x80 != 0 {
            break;
        }
    }
    value
}

#[test]
fn vwi_reads_back() {
    for value in [0u32, 1, 127, 128, 300, 16_383, 16_384, 2_097_151, u32::MAX] {
        let bytes = encode_vwi(value);
        assert!(bytes[..bytes.len() - 1].iter().all(|byte| byte & 0x80 == 0));
        assert_eq!(read_forward_vwi(&bytes), u64::from(value));
    }
}

#[test]
fn align4_rounds_up() {
    assert_eq!(align4(0).unwrap(), 0);
    assert_eq!(align4(1).unwrap(), 4);
    assert_eq!(align4(8).unwrap(), 8);
    assert_eq!(align4(13).unwrap(), 16);
    assert_eq!(output_message(align4(usize::MAX).unwrap_err()), "4-byte alignment overflow");
}
