use std::io::Write;

use flate2::write::ZlibEncoder;
use flate2::Compression;
use sonic::krc::{decode_krc, krc_xor};
use sonic::lyrics::parse_krc_content;

fn encode_krc(text: &str) -> Vec<u8> {
    let mut enc = ZlibEncoder::new(Vec::new(), Compression::default());
    enc.write_all(text.as_bytes()).unwrap();
    let compressed = enc.finish().unwrap();
    let mut file = b"krc1".to_vec();
    file.extend(krc_xor(&compressed));
    file
}

#[test]
fn xor_twice_is_identity() {
    let data: Vec<u8> = (0u8..=255).collect();
    let once = krc_xor(&data);
    assert_ne!(once, data);
    assert_eq!(once[0], 0 ^ 64);
    assert_eq!(once[17], 17 ^ 71);
    assert_eq!(krc_xor(&once), data);
}

#[test]
fn krc_file_round_trip() {
    let text = "[ti:晴天]\n[0,1000]<0,500,0>故<500,500,0>事\n";
    let file = encode_krc(&format!("\u{feff}{text}"));
    assert_eq!(decode_krc(&file).as_deref(), Some(text));
    let lyrics = parse_krc_content(&decode_krc(&file).unwrap()).unwrap();
    assert_eq!(lyrics.title.as_deref(), Some("晴天"));
    assert_eq!(lyrics.lines.len(), 1);
    assert_eq!(lyrics.lines[0].text, "故事");
    assert_eq!(lyrics.lines[0].words.len(), 2);
}

#[test]
fn krc_rejects_bad_files() {
    assert_eq!(decode_krc(b"krc"), None);
    assert_eq!(decode_krc(b"abcd1234"), None);
    // Right header, but the rest does not inflate.
    assert_eq!(decode_krc(b"krc1\x00\x01\x02\x03"), None);
    // Inflates, but not to UTF-8.
    let mut enc = ZlibEncoder::new(Vec::new(), Compression::default());
    enc.write_all(&[0xff, 0xfe, 0x80]).unwrap();
    let mut file = b"krc1".to_vec();
    file.extend(krc_xor(&enc.finish().unwrap()));
    assert_eq!(decode_krc(&file), None);
}
