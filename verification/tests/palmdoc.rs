use aozoraepub3_to_azw3::kf8::compress::PalmDocCompressor;

fn compress(source: &[u8]) -> Vec<u8> {
    let mut compressor = PalmDocCompressor::new();
    let mut encoded = Vec::new();
    compressor.compress(source, &mut encoded);
    encoded
}

fn decode(encoded: &[u8]) -> Vec<u8> {
    let mut out: Vec<u8> = Vec::new();
    let mut i = 0;
    while i < encoded.len() {
        let byte = encoded[i];
        i += 1;
        match byte {
            1..=8 => {
                out.extend_from_slice(&encoded[i..i + byte as usize]);
                i += byte as usize;
            }
            0 | 9..=0x7f => out.push(byte),
            0xc0..=0xff => {
                out.push(b' ');
                out.push(byte ^ 0x80);
            }
            _ => {
                let code = (u16::from(byte) << 8 | u16::from(encoded[i])) & 0x3fff;
                i += 1;
                let distance = usize::from(code >> 3);
                let length = usize::from(code & 7) + 3;
                for _ in 0..length {
                    out.push(out[out.len() - distance]);
                }
            }
        }
    }
    out
}

#[test]
fn literals_pass_through() {
    assert_eq!(compress(b"hello"), b"hello".to_vec());
    assert_eq!(compress(b""), Vec::<u8>::new());
}

#[test]
fn space_before_ascii_letter_is_one_byte() {
    assert_eq!(compress(b"a b"), vec![b'a', b'b' ^ 0x80]);
    assert_eq!(compress(b" "), vec![b' ']);
    assert_eq!(compress(b"  "), vec![b' ', b' ']);
}

#[test]
fn raw_bytes_are_counted() {
    assert_eq!(compress(&[1]), vec![1, 1]);
    assert_eq!(compress(&[0x80, 0x81, b'a']), vec![2, 0x80, 0x81, b'a']);
    assert_eq!(compress(&[0xe3; 10]), vec![8, 0xe3, 0xe3, 0xe3, 0xe3, 0xe3, 0xe3, 0xe3, 0xe3, 2, 0xe3, 0xe3]);
    assert_eq!(compress(&[0]), vec![0]);
}

#[test]
fn repeated_run_becomes_back_reference() {
    let mut source = b"0123456789ABCDEFGHIJ".to_vec();
    source.extend_from_slice(b"0123456789ABCDEFGHIJ");
    let mut expected = b"0123456789ABCDEFGHIJ".to_vec();
    expected.extend_from_slice(&[0x80, 0xa7]);
    expected.extend_from_slice(b"ABCDEFGHIJ");
    assert_eq!(compress(&source), expected);
}

#[test]
fn decoding_gives_the_record_back() {
    let mut samples: Vec<Vec<u8>> = vec![
        b"the quick brown fox jumps over the lazy dog; the quick brown fox".to_vec(),
        "吾輩は猫である。名前はまだ無い。吾輩は猫である。".as_bytes().to_vec(),
        (0u8..=255).cycle().take(4096).collect(),
    ];
    let mut pseudo = 7u32;
    let mut random = Vec::new();
    for _ in 0..4096 {
        pseudo = pseudo.wrapping_mul(1_103_515_245).wrapping_add(12_345);
        random.push((pseudo >> 24) as u8 % 6 + b'a');
    }
    samples.push(random);
    for sample in samples {
        let encoded = compress(&sample);
        assert_eq!(decode(&encoded), sample);
    }
}

#[test]
fn compressor_is_reusable_across_records() {
    let mut compressor = PalmDocCompressor::default();
    let mut first = Vec::new();
    compressor.compress(b"abcdefghijklmnopqrstuvwxyz abcdefghijklmnop", &mut first);
    let mut second = Vec::new();
    compressor.compress(b"abcdefghijklmnopqrstuvwxyz abcdefghijklmnop", &mut second);
    assert_eq!(first, second);
    assert_eq!(decode(&first), b"abcdefghijklmnopqrstuvwxyz abcdefghijklmnop".to_vec());
}
