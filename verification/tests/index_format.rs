use rinha_de_backend_2026_fabio_rust::index::{
    announced_length_fits, byte_to_label, decode_index, encode_index, index_header_bytes, label_to_byte, IndexFormatError,
    IndexRecord, HEADER_LEN, RECORD_LEN,
};
use rinha_de_backend_2026_fabio_rust::types::ReferenceLabel;

fn bits(values: [f64; 14]) -> [u64; 14] {
    let mut out = [0_u64; 14];
    for (slot, value) in values.iter().enumerate() {
        out[slot] = value.to_bits();
    }
    out
}

fn sample_records() -> Vec<IndexRecord> {
    vec![
        IndexRecord {
            vector_bits: bits([
                0.0385, 0.25, 0.05, 0.8696, 0.3333, 0.2257, 0.0189, 0.0137, 0.15, 0.0, 1.0, 0.0, 0.2,
                0.0299,
            ]),
            label: ReferenceLabel::Legit,
        },
        IndexRecord {
            vector_bits: bits([
                0.9506, 0.8333, 1.0, 0.2174, 0.8333, -1.0, -1.0, 0.9523, 1.0, 0.0, 1.0, 1.0, 0.75,
                0.0055,
            ]),
            label: ReferenceLabel::Fraud,
        },
    ]
}

#[test]
fn header_holds_magic_and_little_endian_count() {
    let header = index_header_bytes(2);
    assert_eq!(&header[..8], b"RINHIDX1");
    assert_eq!(&header[8..], &[2, 0, 0, 0, 0, 0, 0, 0]);

    let header = index_header_bytes(0x0102_0304);
    assert_eq!(&header[8..], &[4, 3, 2, 1, 0, 0, 0, 0]);
}

#[test]
fn labels_map_to_bytes_and_back() {
    assert_eq!(label_to_byte(ReferenceLabel::Fraud), 1);
    assert_eq!(label_to_byte(ReferenceLabel::Legit), 0);
    assert_eq!(byte_to_label(1), ReferenceLabel::Fraud);
    assert_eq!(byte_to_label(0), ReferenceLabel::Legit);
    assert_eq!(byte_to_label(7), ReferenceLabel::Legit);
}

#[test]
fn encoded_index_has_header_and_fixed_size_records() {
    let records = sample_records();
    let bytes = encode_index(&records);

    assert_eq!(bytes.len(), HEADER_LEN + 2 * RECORD_LEN);
    assert_eq!(&bytes[..16], &index_header_bytes(2));
    assert_eq!(&bytes[16..24], &0.0385_f64.to_le_bytes());
    assert_eq!(bytes[16 + 112], 0);
    assert_eq!(bytes[16 + 120 + 112], 1);
    assert_eq!(&bytes[16 + 120 + 40..16 + 120 + 48], &(-1.0_f64).to_le_bytes());
    assert!(bytes[16 + 113..16 + 120].iter().all(|byte| *byte == 0));
}

#[test]
fn decoding_an_encoded_index_gives_the_records_back() {
    let records = sample_records();
    let decoded = decode_index(&encode_index(&records)).unwrap();

    assert_eq!(decoded, records);
    assert_eq!(decoded[0].label, ReferenceLabel::Legit);
    assert_eq!(decoded[1].label, ReferenceLabel::Fraud);
    assert_eq!(f64::from_bits(decoded[0].vector_bits[0]), 0.0385);
    assert_eq!(f64::from_bits(decoded[1].vector_bits[5]), -1.0);
}

#[test]
fn empty_index_roundtrips() {
    let bytes = encode_index(&[]);
    assert_eq!(bytes.len(), HEADER_LEN);
    assert_eq!(decode_index(&bytes).unwrap(), Vec::<IndexRecord>::new());
}

#[test]
fn short_or_foreign_buffers_have_an_invalid_header() {
    assert_eq!(decode_index(&[]), Err(IndexFormatError::InvalidHeader));
    assert_eq!(decode_index(b"RINHIDX1"), Err(IndexFormatError::InvalidHeader));

    let mut bytes = encode_index(&sample_records());
    bytes[0] = b'X';
    assert_eq!(decode_index(&bytes), Err(IndexFormatError::InvalidHeader));
}

#[test]
fn payload_not_matching_the_count_has_an_invalid_length() {
    let mut bytes = encode_index(&sample_records());
    bytes.pop();
    assert_eq!(decode_index(&bytes), Err(IndexFormatError::InvalidLength));

    let mut bytes = encode_index(&sample_records());
    bytes[8] = 3;
    assert_eq!(decode_index(&bytes), Err(IndexFormatError::InvalidLength));

    let mut bytes = index_header_bytes(0).to_vec();
    bytes[13] = 0x01;
    assert!(announced_length_fits(&bytes));
    assert_eq!(decode_index(&bytes), Err(IndexFormatError::InvalidLength));
}

#[test]
fn counts_whose_byte_length_overflows_are_told_apart_before_decoding() {
    let mut bytes = index_header_bytes(0).to_vec();
    bytes[15] = 0x80;
    assert!(!announced_length_fits(&bytes));
    assert!(announced_length_fits(&[]));
    assert!(announced_length_fits(b"NOTANIDX\xff\xff\xff\xff\xff\xff\xff\xff"));
    assert!(announced_length_fits(&encode_index(&sample_records())));
}

#[test]
fn any_label_byte_other_than_one_reads_as_legit() {
    let mut bytes = encode_index(&sample_records());
    bytes[16 + 120 + 112] = 2;
    bytes[16 + 120 + 113] = 9;
    let decoded = decode_index(&bytes).unwrap();
    assert_eq!(decoded[1].label, ReferenceLabel::Legit);
    assert_eq!(decoded[1].vector_bits, sample_records()[1].vector_bits);
}
