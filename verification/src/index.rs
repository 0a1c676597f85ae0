use vstd::prelude::*;

use vstd::bytes::{
    lemma_auto_spec_u64_to_from_le_bytes, spec_u64_from_le_bytes, spec_u64_to_le_bytes,
    u64_from_le_bytes, u64_to_le_bytes,
};

use crate::types::ReferenceLabel;

verus! {

/// Magic bytes that open every index file: the ASCII text `RINHIDX1`.
pub const INDEX_MAGIC: [u8; 8] = [0x52, 0x49, 0x4e, 0x48, 0x49, 0x44, 0x58, 0x31];

/// Length of the index header: the magic followed by the record count.
pub const HEADER_LEN: usize = 16;

/// The byte that stores a label in a record.
pub open spec fn spec_label_byte(label: ReferenceLabel) -> u8 {
    match label {
        ReferenceLabel::Fraud => 1,
        ReferenceLabel::Legit => 0,
    }
}

/// The label that a stored byte stands for: `1` is fraud, anything else legit.
pub open spec fn spec_byte_label(value: u8) -> ReferenceLabel {
    if value == 1 {
        ReferenceLabel::Fraud
    } else {
        ReferenceLabel::Legit
    }
}

pub fn label_to_byte(label: ReferenceLabel) -> (byte: u8)
    ensures
        byte == spec_label_byte(label),
{
    match label {
        ReferenceLabel::Fraud => 1,
        ReferenceLabel::Legit => 0,
    }
}

pub fn byte_to_label(value: u8) -> (label: ReferenceLabel)
    ensures
        label == spec_byte_label(value),
{
    match value {
        1 => ReferenceLabel::Fraud,
        _ => ReferenceLabel::Legit,
    }
}

/// Decoding the byte written for a label gives the label back.
pub proof fn lemma_label_byte_roundtrip(label: ReferenceLabel)
    ensures
        spec_byte_label(spec_label_byte(label)) == label,
{
}

/// The header of an index holding `record_count` records.
pub open spec fn spec_header(record_count: nat) -> Seq<u8> {
    INDEX_MAGIC@ + spec_u64_to_le_bytes(record_count as u64)
}

pub fn index_header_bytes(record_count: usize) -> (header: [u8; 16])
    ensures
        header@ == spec_header(record_count as nat),
{
    let mut header = [0u8; 16];
    let count_bytes = u64_to_le_bytes(record_count as u64);
    let mut i: usize = 0;
    while i < 8
        invariant
            0 <= i <= 8,
            count_bytes@ == spec_u64_to_le_bytes(record_count as u64),
            count_bytes@.len() == 8,
            forall|j: int| 0 <= j < i ==> header@[j] == INDEX_MAGIC@[j],
            forall|j: int| 0 <= j < i ==> header@[j + 8] == count_bytes@[j],
        decreases 8 - i,
    {
        header[i] = INDEX_MAGIC[i];
        header[i + 8] = count_bytes[i];
        i = i + 1;
    }
    assert(header@ =~= spec_header(record_count as nat));
    header
}


/// Number of components in a reference vector.
pub const VECTOR_DIMS: usize = 14;

/// Length of one stored record: the vector components as little-endian
/// 64-bit words, the label byte and seven bytes of padding.
pub const RECORD_LEN: usize = 120;

/// Offset of the label byte inside a record.
pub const LABEL_OFFSET: usize = 112;

/// A reference record as the index stores it: each vector component is kept
/// as the 64-bit pattern of its IEEE-754 value, with its label.
#[derive(Debug, Clone, Copy, PartialEq, Eq)]
pub struct IndexRecord {
    pub vector_bits: [u64; 14],
    pub label: ReferenceLabel,
}

/// What a record holds, as mathematical values.
pub struct RecordModel {
    pub vector_bits: Seq<u64>,
    pub label: ReferenceLabel,
}

impl View for IndexRecord {
    type V = RecordModel;

    open spec fn view(&self) -> RecordModel {
        RecordModel { vector_bits: self.vector_bits@, label: self.label }
    }
}

/// Why a byte buffer is not an index.
#[derive(Debug, Clone, Copy, PartialEq, Eq, Structural)]
pub enum IndexFormatError {
    /// Shorter than a header, or the magic bytes differ.
    InvalidHeader,
    /// The payload length is not the record count times the record length.
    InvalidLength,
}

/// The little-endian bytes of a sequence of words, in order.
pub open spec fn spec_words_bytes(words: Seq<u64>) -> Seq<u8>
    decreases words.len(),
{
    if words.len() == 0 {
        Seq::empty()
    } else {
        spec_words_bytes(words.drop_last()) + spec_u64_to_le_bytes(words.last())
    }
}

/// The stored bytes of one record.
pub open spec fn spec_record_bytes(record: RecordModel) -> Seq<u8> {
    spec_words_bytes(record.vector_bits) + seq![spec_label_byte(record.label)] + Seq::new(
        7,
        |i: int| 0u8,
    )
}

/// The stored bytes of a sequence of records, one after the other.
pub open spec fn spec_records_bytes(records: Seq<RecordModel>) -> Seq<u8>
    decreases records.len(),
{
    if records.len() == 0 {
        Seq::empty()
    } else {
        spec_records_bytes(records.drop_last()) + spec_record_bytes(records.last())
    }
}

/// The whole index file for a sequence of records.
pub open spec fn spec_index_bytes(records: Seq<RecordModel>) -> Seq<u8> {
    spec_header(records.len()) + spec_records_bytes(records)
}

/// The record stored in a chunk of `RECORD_LEN` bytes.
pub open spec fn spec_decode_record(chunk: Seq<u8>) -> RecordModel {
    RecordModel {
        vector_bits: Seq::new(
            14,
            |j: int| spec_u64_from_le_bytes(chunk.subrange(8 * j, 8 * j + 8)),
        ),
        label: spec_byte_label(chunk[112]),
    }
}

/// The record count that a header announces.
pub open spec fn spec_header_count(bytes: Seq<u8>) -> int {
    spec_u64_from_le_bytes(bytes.subrange(8, 16)) as int
}

/// What reading an index out of `bytes` gives.
pub open spec fn spec_decode_index(bytes: Seq<u8>) -> Result<Seq<RecordModel>, IndexFormatError> {
    if bytes.len() < 16 || bytes.subrange(0, 8) != INDEX_MAGIC@ {
        Err(IndexFormatError::InvalidHeader)
    } else if bytes.len() - 16 != spec_header_count(bytes) * 120 {
        Err(IndexFormatError::InvalidLength)
    } else {
        Ok(
            Seq::new(
                spec_header_count(bytes) as nat,
                |i: int| spec_decode_record(bytes.subrange(16 + 120 * i, 16 + 120 * i + 120)),
            ),
        )
    }
}

/// The models of a sequence of records.
pub open spec fn spec_models(records: Seq<IndexRecord>) -> Seq<RecordModel> {
    records.map_values(|r: IndexRecord| r@)
}

/// The model of a decoding result.
pub open spec fn spec_decode_result(
    result: Result<Vec<IndexRecord>, IndexFormatError>,
) -> Result<Seq<RecordModel>, IndexFormatError> {
    match result {
        Ok(records) => Ok(spec_models(records@)),
        Err(e) => Err(e),
    }
}

proof fn lemma_words_bytes_len(words: Seq<u64>)
    ensures
        spec_words_bytes(words).len() == 8 * words.len(),
    decreases words.len(),
{
    lemma_auto_spec_u64_to_from_le_bytes();
    if words.len() > 0 {
        lemma_words_bytes_len(words.drop_last());
    }
}

proof fn lemma_words_bytes_at(words: Seq<u64>, j: int)
    requires
        0 <= j < words.len(),
    ensures
        spec_words_bytes(words).subrange(8 * j, 8 * j + 8) == spec_u64_to_le_bytes(words[j]),
    decreases words.len(),
{
    lemma_auto_spec_u64_to_from_le_bytes();
    let prefix = words.drop_last();
    lemma_words_bytes_len(prefix);
    if j == words.len() - 1 {
        assert(spec_words_bytes(words).subrange(8 * j, 8 * j + 8) =~= spec_u64_to_le_bytes(
            words[j],
        ));
    } else {
        lemma_words_bytes_at(prefix, j);
        assert(spec_words_bytes(words).subrange(8 * j, 8 * j + 8) =~= spec_words_bytes(
            prefix,
        ).subrange(8 * j, 8 * j + 8));
    }
}

proof fn lemma_record_bytes_len(record: RecordModel)
    requires
        record.vector_bits.len() == 14,
    ensures
        spec_record_bytes(record).len() == 120,
{
    lemma_words_bytes_len(record.vector_bits);
}

proof fn lemma_records_bytes_len(records: Seq<RecordModel>)
    requires
        forall|i: int| 0 <= i < records.len() ==> (#[trigger] records[i]).vector_bits.len() == 14,
    ensures
        spec_records_bytes(records).len() == 120 * records.len(),
    decreases records.len(),
{
    if records.len() > 0 {
        lemma_records_bytes_len(records.drop_last());
        lemma_record_bytes_len(records.last());
    }
}

proof fn lemma_records_bytes_at(records: Seq<RecordModel>, i: int)
    requires
        forall|k: int| 0 <= k < records.len() ==> (#[trigger] records[k]).vector_bits.len() == 14,
        0 <= i < records.len(),
    ensures
        spec_records_bytes(records).subrange(120 * i, 120 * i + 120) == spec_record_bytes(
            records[i],
        ),
    decreases records.len(),
{
    let prefix = records.drop_last();
    lemma_records_bytes_len(prefix);
    lemma_record_bytes_len(records.last());
    if i == records.len() - 1 {
        assert(spec_records_bytes(records).subrange(120 * i, 120 * i + 120) =~= spec_record_bytes(
            records[i],
        ));
    } else {
        lemma_records_bytes_at(prefix, i);
        assert(spec_records_bytes(records).subrange(120 * i, 120 * i + 120) =~= spec_records_bytes(
            prefix,
        ).subrange(120 * i, 120 * i + 120));
    }
}

proof fn lemma_decode_record_bytes(record: RecordModel)
    requires
        record.vector_bits.len() == 14,
    ensures
        spec_decode_record(spec_record_bytes(record)) == record,
{
    lemma_auto_spec_u64_to_from_le_bytes();
    let bytes = spec_record_bytes(record);
    let words = spec_words_bytes(record.vector_bits);
    lemma_words_bytes_len(record.vector_bits);
    let decoded = spec_decode_record(bytes);
    assert forall|j: int| 0 <= j < 14 implies decoded.vector_bits[j] == record.vector_bits[j] by {
        lemma_words_bytes_at(record.vector_bits, j);
        assert(bytes.subrange(8 * j, 8 * j + 8) =~= words.subrange(8 * j, 8 * j + 8));
    }
    assert(decoded.vector_bits =~= record.vector_bits);
    assert(bytes[112] == spec_label_byte(record.label));
}

/// Reading back the bytes written for a sequence of records gives exactly
/// those records.
pub proof fn lemma_decode_encode_roundtrip(records: Seq<RecordModel>)
    requires
        records.len() <= u64::MAX,
        forall|i: int| 0 <= i < records.len() ==> (#[trigger] records[i]).vector_bits.len() == 14,
    ensures
        spec_decode_index(spec_index_bytes(records)) == Ok::<Seq<RecordModel>, IndexFormatError>(
            records,
        ),
{
    lemma_auto_spec_u64_to_from_le_bytes();
    let bytes = spec_index_bytes(records);
    let body = spec_records_bytes(records);
    lemma_records_bytes_len(records);
    assert(bytes.subrange(0, 8) =~= INDEX_MAGIC@);
    assert(bytes.subrange(8, 16) =~= spec_u64_to_le_bytes(records.len() as u64));
    assert(spec_header_count(bytes) == records.len());
    let decoded = Seq::new(
        records.len(),
        |i: int| spec_decode_record(bytes.subrange(16 + 120 * i, 16 + 120 * i + 120)),
    );
    assert forall|i: int| 0 <= i < records.len() implies decoded[i] == records[i] by {
        lemma_records_bytes_at(records, i);
        assert(bytes.subrange(16 + 120 * i, 16 + 120 * i + 120) =~= body.subrange(
            120 * i,
            120 * i + 120,
        ));
        lemma_decode_record_bytes(records[i]);
    }
    assert(decoded =~= records);
}


proof fn lemma_record_bytes_fields(record: RecordModel)
    requires
        record.vector_bits.len() == 14,
    ensures
        ({
            let bytes = spec_record_bytes(record);
            &&& bytes.len() == 120
            &&& forall|j: int|
                0 <= j < 14 ==> bytes.subrange(8 * j, 8 * j + 8) == spec_u64_to_le_bytes(
                    #[trigger] record.vector_bits[j],
                )
            &&& bytes[112] == if record.label == ReferenceLabel::Fraud {
                1u8
            } else {
                0u8
            }
            &&& forall|k: int| 113 <= k < 120 ==> #[trigger] bytes[k] == 0
        }),
{
    lemma_auto_spec_u64_to_from_le_bytes();
    let bytes = spec_record_bytes(record);
    let words = spec_words_bytes(record.vector_bits);
    lemma_words_bytes_len(record.vector_bits);
    assert forall|j: int| 0 <= j < 14 implies bytes.subrange(8 * j, 8 * j + 8)
        == spec_u64_to_le_bytes(#[trigger] record.vector_bits[j]) by {
        lemma_words_bytes_at(record.vector_bits, j);
        assert(bytes.subrange(8 * j, 8 * j + 8) =~= words.subrange(8 * j, 8 * j + 8));
    }
}

proof fn lemma_index_record_at(records: Seq<RecordModel>, i: int)
    requires
        forall|k: int| 0 <= k < records.len() ==> (#[trigger] records[k]).vector_bits.len() == 14,
        0 <= i < records.len(),
    ensures
        spec_index_bytes(records).subrange(16 + 120 * i, 16 + 120 * i + 120) == spec_record_bytes(
            records[i],
        ),
{
    lemma_auto_spec_u64_to_from_le_bytes();
    let body = spec_records_bytes(records);
    lemma_records_bytes_len(records);
    lemma_records_bytes_at(records, i);
    assert(spec_index_bytes(records).subrange(16 + 120 * i, 16 + 120 * i + 120) =~= body.subrange(
        120 * i,
        120 * i + 120,
    ));
}

/// The bytes written for `records`: the ASCII magic `RINHIDX1`, the record
/// count as a little-endian 64-bit word, then record `i` at offset
/// `16 + 120 * i`: component `j` as the little-endian bytes of its 64-bit
/// pattern at offset `8 * j`, the label byte (1 for fraud, 0 for legit) at
/// offset 112 and seven zero bytes.
pub proof fn lemma_index_layout(records: Seq<RecordModel>)
    requires
        records.len() <= u64::MAX,
        forall|i: int| 0 <= i < records.len() ==> (#[trigger] records[i]).vector_bits.len() == 14,
    ensures
        ({
            let bytes = spec_index_bytes(records);
            &&& bytes.len() == 16 + 120 * records.len()
            &&& bytes.subrange(0, 8) == seq![0x52u8, 0x49, 0x4e, 0x48, 0x49, 0x44, 0x58, 0x31]
            &&& bytes.subrange(8, 16) == spec_u64_to_le_bytes(records.len() as u64)
            &&& forall|i: int, j: int|
                0 <= i < records.len() && 0 <= j < 14 ==> bytes.subrange(
                    16 + 120 * i + 8 * j,
                    16 + 120 * i + 8 * j + 8,
                ) == spec_u64_to_le_bytes(#[trigger] records[i].vector_bits[j])
            &&& forall|i: int|
                #![trigger records[i]]
                0 <= i < records.len() ==> bytes[16 + 120 * i + 112] == if records[i].label
                    == ReferenceLabel::Fraud {
                    1u8
                } else {
                    0u8
                }
            &&& forall|i: int, k: int|
                0 <= i < records.len() && 113 <= k < 120 ==> #[trigger] bytes.subrange(
                    16 + 120 * i,
                    16 + 120 * i + 120,
                )[k] == 0
        }),
{
    lemma_auto_spec_u64_to_from_le_bytes();
    let bytes = spec_index_bytes(records);
    lemma_records_bytes_len(records);
    assert(bytes.subrange(0, 8) =~= seq![0x52u8, 0x49, 0x4e, 0x48, 0x49, 0x44, 0x58, 0x31]);
    assert(bytes.subrange(8, 16) =~= spec_u64_to_le_bytes(records.len() as u64));
    assert(bytes.len() == 16 + 120 * records.len());
    assert forall|i: int, j: int| 0 <= i < records.len() && 0 <= j < 14 implies bytes.subrange(
        16 + 120 * i + 8 * j,
        16 + 120 * i + 8 * j + 8,
    ) == spec_u64_to_le_bytes(#[trigger] records[i].vector_bits[j]) by {
        lemma_index_record_at(records, i);
        lemma_record_bytes_fields(records[i]);
        let record = spec_record_bytes(records[i]);
        assert(bytes.subrange(16 + 120 * i + 8 * j, 16 + 120 * i + 8 * j + 8) =~= record.subrange(
            8 * j,
            8 * j + 8,
        ));
    }
    assert forall|i: int| #![trigger records[i]] 0 <= i < records.len() implies bytes[16 + 120 * i
        + 112] == if records[i].label == ReferenceLabel::Fraud {
        1u8
    } else {
        0u8
    } by {
        lemma_index_record_at(records, i);
        lemma_record_bytes_fields(records[i]);
        assert(bytes[16 + 120 * i + 112] == spec_record_bytes(records[i])[112]);
    }
    assert forall|i: int, k: int| 0 <= i < records.len() && 113 <= k < 120 implies #[trigger] bytes.subrange(
        16 + 120 * i,
        16 + 120 * i + 120,
    )[k] == 0 by {
        lemma_index_record_at(records, i);
        lemma_record_bytes_fields(records[i]);
    }
}

/// How bytes are read as an index: they must start with the ASCII magic
/// `RINHIDX1` (else the header is invalid), and the rest must be exactly
/// 120 bytes per record for the little-endian record count in bytes
/// `8..16` (else the length is invalid); record `i` then has as component
/// `j` the little-endian word at offset `16 + 120 * i + 8 * j`, and is fraud
/// exactly when its byte at offset `16 + 120 * i + 112` is 1.
pub proof fn lemma_decode_layout(bytes: Seq<u8>)
    ensures
        spec_decode_index(bytes) == Err::<Seq<RecordModel>, IndexFormatError>(
            IndexFormatError::InvalidHeader,
        ) <==> bytes.len() < 16 || bytes.subrange(0, 8) != seq![
            0x52u8,
            0x49,
            0x4e,
            0x48,
            0x49,
            0x44,
            0x58,
            0x31,
        ],
        spec_decode_index(bytes) == Err::<Seq<RecordModel>, IndexFormatError>(
            IndexFormatError::InvalidLength,
        ) <==> bytes.len() >= 16 && bytes.subrange(0, 8) == seq![
            0x52u8,
            0x49,
            0x4e,
            0x48,
            0x49,
            0x44,
            0x58,
            0x31,
        ] && bytes.len() != 16 + 120 * spec_u64_from_le_bytes(bytes.subrange(8, 16)),
        match spec_decode_index(bytes) {
            Ok(records) => {
                &&& records.len() == spec_u64_from_le_bytes(bytes.subrange(8, 16))
                &&& forall|i: int, j: int|
                    0 <= i < records.len() && 0 <= j < 14 ==> (#[trigger] records[i].vector_bits[j])
                        == spec_u64_from_le_bytes(
                        bytes.subrange(16 + 120 * i + 8 * j, 16 + 120 * i + 8 * j + 8),
                    )
                &&& forall|i: int|
                    #![trigger records[i]]
                    0 <= i < records.len() ==> records[i].vector_bits.len() == 14 && (
                    records[i].label == ReferenceLabel::Fraud <==> bytes[16 + 120 * i + 112] == 1)
            },
            Err(_) => true,
        },
{
    let magic = seq![0x52u8, 0x49, 0x4e, 0x48, 0x49, 0x44, 0x58, 0x31];
    assert(INDEX_MAGIC@ =~= magic);
    match spec_decode_index(bytes) {
        Ok(records) => {
            assert forall|i: int, j: int|
                0 <= i < records.len() && 0 <= j < 14 implies (#[trigger] records[i].vector_bits[j])
                == spec_u64_from_le_bytes(
                bytes.subrange(16 + 120 * i + 8 * j, 16 + 120 * i + 8 * j + 8),
            ) by {
                let chunk = bytes.subrange(16 + 120 * i, 16 + 120 * i + 120);
                assert(chunk.subrange(8 * j, 8 * j + 8) =~= bytes.subrange(
                    16 + 120 * i + 8 * j,
                    16 + 120 * i + 8 * j + 8,
                ));
            }
            assert forall|i: int| #![trigger records[i]] 0 <= i < records.len() implies records[i].vector_bits.len()
                == 14 && (records[i].label == ReferenceLabel::Fraud <==> bytes[16 + 120 * i + 112]
                == 1) by {
                let chunk = bytes.subrange(16 + 120 * i, 16 + 120 * i + 120);
                assert(chunk[112] == bytes[16 + 120 * i + 112]);
            }
        },
        Err(_) => {},
    }
}

/// What `decode_index` reads from the bytes that `encode_index` writes for
/// `records` is exactly `records`.
pub proof fn lemma_index_roundtrip(records: Seq<IndexRecord>)
    requires
        records.len() <= u64::MAX,
    ensures
        spec_decode_index(spec_index_bytes(spec_models(records))) == Ok::<
            Seq<RecordModel>,
            IndexFormatError,
        >(spec_models(records)),
{
    let models = spec_models(records);
    assert forall|i: int| 0 <= i < models.len() implies (#[trigger] models[i]).vector_bits.len()
        == 14 by {
        assert(models[i] == records[i]@);
    }
    lemma_decode_encode_roundtrip(models);
}

fn append_word(out: &mut Vec<u8>, word: u64)
    ensures
        final(out)@ == old(out)@ + spec_u64_to_le_bytes(word),
{
    let word_bytes = u64_to_le_bytes(word);
    let ghost start = out@;
    let mut k: usize = 0;
    while k < 8
        invariant
            0 <= k <= 8,
            word_bytes@ == spec_u64_to_le_bytes(word),
            word_bytes@.len() == 8,
            out@ == start + word_bytes@.take(k as int),
        decreases 8 - k,
    {
        out.push(word_bytes[k]);
        assert(word_bytes@.take(k + 1) =~= word_bytes@.take(k as int).push(word_bytes@[k as int]));
        k = k + 1;
    }
    assert(word_bytes@.take(8) =~= word_bytes@);
}

fn append_record(out: &mut Vec<u8>, record: &IndexRecord)
    ensures
        final(out)@ == old(out)@ + spec_record_bytes(record@),
{
    let ghost start = out@;
    let mut j: usize = 0;
    while j < VECTOR_DIMS
        invariant
            0 <= j <= 14,
            out@ == start + spec_words_bytes(record.vector_bits@.take(j as int)),
        decreases 14 - j,
    {
        append_word(out, record.vector_bits[j]);
        assert(record.vector_bits@.take(j + 1).drop_last() =~= record.vector_bits@.take(j as int));
        j = j + 1;
    }
    assert(record.vector_bits@.take(14) =~= record.vector_bits@);
    let ghost with_words = out@;
    out.push(label_to_byte(record.label));
    let mut k: usize = 0;
    while k < 7
        invariant
            0 <= k <= 7,
            out@ == with_words + seq![spec_label_byte(record.label)] + Seq::new(
                k as nat,
                |i: int| 0u8,
            ),
        decreases 7 - k,
    {
        out.push(0u8);
        assert(Seq::new((k + 1) as nat, |i: int| 0u8) =~= Seq::new(k as nat, |i: int| 0u8).push(
            0u8,
        ));
        k = k + 1;
    }
    assert(out@ =~= start + spec_record_bytes(record@));
}

/// Writes the index file for `records`: the header, then each record.
pub fn encode_index(records: &[IndexRecord]) -> (bytes: Vec<u8>)
    requires
        16 + 120 * records@.len() <= usize::MAX,
    ensures
        bytes@ == spec_index_bytes(spec_models(records@)),
{
    let ghost models = spec_models(records@);
    let mut bytes: Vec<u8> = Vec::new();
    let header = index_header_bytes(records.len());
    let mut h: usize = 0;
    while h < HEADER_LEN
        invariant
            0 <= h <= 16,
            header@ == spec_header(records@.len()),
            bytes@ == header@.take(h as int),
        decreases 16 - h,
    {
        bytes.push(header[h]);
        assert(header@.take(h + 1) =~= header@.take(h as int).push(header@[h as int]));
        h = h + 1;
    }
    assert(header@.take(16) =~= header@);
    let mut i: usize = 0;
    while i < records.len()
        invariant
            0 <= i <= records@.len(),
            models == spec_models(records@),
            bytes@ == spec_header(records@.len()) + spec_records_bytes(models.take(i as int)),
        decreases records@.len() - i,
    {
        let ghost before = bytes@;
        append_record(&mut bytes, &records[i]);
        assert(models.take(i + 1).drop_last() =~= models.take(i as int));
        assert(models.take(i + 1).last() == records@[i as int]@);
        assert(bytes@ =~= spec_header(records@.len()) + spec_records_bytes(models.take(i + 1)));
        i = i + 1;
    }
    assert(models.take(records@.len() as int) =~= models);
    assert(models.len() == records@.len());
    bytes
}

fn decode_record(chunk: &[u8]) -> (record: IndexRecord)
    requires
        chunk@.len() == 120,
    ensures
        record@ == spec_decode_record(chunk@),
{
    let mut vector_bits = [0u64; 14];
    let mut j: usize = 0;
    while j < VECTOR_DIMS
        invariant
            0 <= j <= 14,
            chunk@.len() == 120,
            forall|k: int|
                0 <= k < j ==> vector_bits@[k] == spec_u64_from_le_bytes(
                    chunk@.subrange(8 * k, 8 * k + 8),
                ),
        decreases 14 - j,
    {
        let word = u64_from_le_bytes(&chunk[8 * j..8 * j + 8]);
        vector_bits[j] = word;
        j = j + 1;
    }
    let label = byte_to_label(chunk[LABEL_OFFSET]);
    let record = IndexRecord { vector_bits, label };
    assert(record@.vector_bits =~= spec_decode_record(chunk@).vector_bits);
    record
}

/// The byte length of the records that a well-formed header announces is a
/// `usize`; a header that is too short or not magic announces nothing.
pub open spec fn spec_announced_length_fits(bytes: Seq<u8>) -> bool {
    bytes.len() >= 16 && bytes.subrange(0, 8) == INDEX_MAGIC@ ==> spec_header_count(bytes) * 120
        <= usize::MAX
}

/// Whether `decode_index` may be called on `bytes`.
pub fn announced_length_fits(bytes: &[u8]) -> (fits: bool)
    ensures
        fits == spec_announced_length_fits(bytes@),
{
    if bytes.len() < HEADER_LEN {
        return true;
    }
    let mut m: usize = 0;
    while m < 8
        invariant
            0 <= m <= 8,
            bytes@.len() >= 16,
            forall|k: int| 0 <= k < m ==> bytes@[k] == INDEX_MAGIC@[k],
        decreases 8 - m,
    {
        if bytes[m] != INDEX_MAGIC[m] {
            assert(bytes@.subrange(0, 8)[m as int] != INDEX_MAGIC@[m as int]);
            return true;
        }
        m = m + 1;
    }
    assert(bytes@.subrange(0, 8) =~= INDEX_MAGIC@);
    let count = u64_from_le_bytes(&bytes[8..16]);
    (count as u128) * 120 <= (usize::MAX as u128)
}

/// Reads the records out of the bytes of an index file.
pub fn decode_index(bytes: &[u8]) -> (result: Result<Vec<IndexRecord>, IndexFormatError>)
    requires
        spec_announced_length_fits(bytes@),
    ensures
        spec_decode_result(result) == spec_decode_index(bytes@),
{
    if bytes.len() < HEADER_LEN {
        return Err(IndexFormatError::InvalidHeader);
    }
    let mut m: usize = 0;
    while m < 8
        invariant
            0 <= m <= 8,
            bytes@.len() >= 16,
            forall|k: int| 0 <= k < m ==> bytes@[k] == INDEX_MAGIC@[k],
        decreases 8 - m,
    {
        if bytes[m] != INDEX_MAGIC[m] {
            assert(bytes@.subrange(0, 8)[m as int] != INDEX_MAGIC@[m as int]);
            return Err(IndexFormatError::InvalidHeader);
        }
        m = m + 1;
    }
    assert(bytes@.subrange(0, 8) =~= INDEX_MAGIC@);
    let count = u64_from_le_bytes(&bytes[8..16]);
    let payload_len = bytes.len() - HEADER_LEN;
    let count_len = count as usize;
    if payload_len != count_len * RECORD_LEN {
        return Err(IndexFormatError::InvalidLength);
    }
    let total = bytes.len();
    let mut records: Vec<IndexRecord> = Vec::new();
    let mut i: usize = 0;
    while i < count_len
        invariant
            0 <= i <= count_len,
            count_len == count,
            total == bytes@.len(),
            count == spec_header_count(bytes@),
            bytes@.len() == 16 + 120 * count_len,
            records@.len() == i,
            forall|k: int|
                0 <= k < i ==> (#[trigger] records@[k])@ == spec_decode_record(
                    bytes@.subrange(16 + 120 * k, 16 + 120 * k + 120),
                ),
        decreases count_len - i,
    {
        assert(16 + 120 * i + 120 <= 16 + 120 * count_len) by (nonlinear_arith)
            requires
                i < count_len,
        ;
        assert(16 + 120 * i + 120 <= total);
        let start = HEADER_LEN + 120 * i;
        let record = decode_record(&bytes[start..start + RECORD_LEN]);
        records.push(record);
        i = i + 1;
    }
    assert(spec_models(records@) =~= Seq::new(
        spec_header_count(bytes@) as nat,
        |k: int| spec_decode_record(bytes@.subrange(16 + 120 * k, 16 + 120 * k + 120)),
    ));
    Ok(records)
}

} // verus!
