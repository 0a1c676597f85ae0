use std::io::Write;

use flate2::write::GzEncoder;
use flate2::Compression;
use rinha_de_backend_2026_fabio_rust::resources::decompress_gzip_text;

fn gzip(bytes: &[u8]) -> Vec<u8> {
    let mut encoder = GzEncoder::new(Vec::new(), Compression::default());
    encoder.write_all(bytes).unwrap();
    encoder.finish().unwrap()
}

#[test]
fn gzip_resources_decompress_to_their_text() {
    let text = "{\"max_amount\": 10000.0, \"mcc\": \"5411\"}";
    let compressed = gzip(text.as_bytes());
    assert_ne!(compressed, text.as_bytes());
    assert_eq!(decompress_gzip_text(&compressed).unwrap(), text);
    assert_eq!(decompress_gzip_text(&gzip(b"")).unwrap(), "");
}

#[test]
fn bytes_that_are_not_gzip_text_are_errors() {
    assert!(decompress_gzip_text(b"{\"plain\": true}").is_err());
    assert!(decompress_gzip_text(&gzip(&[0xff, 0xfe, 0x00])).is_err());
    let compressed = gzip(b"[1, 2, 3]");
    assert!(decompress_gzip_text(&compressed[..compressed.len() - 4]).is_err());
}
