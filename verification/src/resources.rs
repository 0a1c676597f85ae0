use std::io::Read;

use flate2::read::GzDecoder;
use vstd::prelude::*;

verus! {

/// Where the reference records of a resource directory are read from.
#[derive(Debug, Clone, Copy, PartialEq, Eq, Structural)]
pub enum ReferenceSource {
    /// `references.bin`, a binary index.
    BinaryIndex,
    /// `references.json.gz`, gzip-compressed JSON.
    GzipJson,
    /// `references.json`, plain JSON.
    Json,
}

/// The first present file in the order binary index, gzip JSON, plain JSON;
/// `None` when there is none.
pub open spec fn spec_reference_source(binary_exists: bool, gzip_exists: bool, json_exists: bool) -> Option<
    ReferenceSource,
> {
    if binary_exists {
        Some(ReferenceSource::BinaryIndex)
    } else if gzip_exists {
        Some(ReferenceSource::GzipJson)
    } else if json_exists {
        Some(ReferenceSource::Json)
    } else {
        None
    }
}

/// The binary index wins whenever it exists, the gzip JSON file whenever it
/// exists and the binary index does not, the plain JSON file only when it
/// alone exists; references are missing exactly when none of the three
/// files exists, and the chosen file always exists.
pub proof fn lemma_reference_source_priority(binary_exists: bool, gzip_exists: bool, json_exists: bool)
    ensures
        binary_exists ==> spec_reference_source(binary_exists, gzip_exists, json_exists) == Some(
            ReferenceSource::BinaryIndex,
        ),
        !binary_exists && gzip_exists ==> spec_reference_source(binary_exists, gzip_exists, json_exists)
            == Some(ReferenceSource::GzipJson),
        !binary_exists && !gzip_exists && json_exists ==> spec_reference_source(
            binary_exists,
            gzip_exists,
            json_exists,
        ) == Some(ReferenceSource::Json),
        spec_reference_source(binary_exists, gzip_exists, json_exists) is None <==> !binary_exists
            && !gzip_exists && !json_exists,
        match spec_reference_source(binary_exists, gzip_exists, json_exists) {
            Some(ReferenceSource::BinaryIndex) => binary_exists,
            Some(ReferenceSource::GzipJson) => gzip_exists,
            Some(ReferenceSource::Json) => json_exists,
            None => true,
        },
{
}

/// Picks the file that references are loaded from, given which of the three
/// candidate files exist; `None` means the references are missing.
pub fn select_reference_source(binary_exists: bool, gzip_exists: bool, json_exists: bool) -> (source:
    Option<ReferenceSource>)
    ensures
        source == spec_reference_source(binary_exists, gzip_exists, json_exists),
{
    if binary_exists {
        Some(ReferenceSource::BinaryIndex)
    } else if gzip_exists {
        Some(ReferenceSource::GzipJson)
    } else if json_exists {
        Some(ReferenceSource::Json)
    } else {
        None
    }
}


#[verifier::external_type_specification]
#[verifier::external_body]
pub struct ExIoError(std::io::Error);

/// The text that flate2's `GzDecoder` reads out of gzip-compressed bytes;
/// `None` when the bytes are not valid gzip data or the data is not UTF-8.
pub uninterp spec fn gunzip_text(compressed: Seq<u8>) -> Option<Seq<char>>;

/// Calls flate2's `GzDecoder::new` on the bytes and `Read::read_to_string`.
/// The contract claims only that the text read is the value named
/// `gunzip_text` of the bytes, and that an error comes exactly when that
/// value is `None`: decoding an in-memory buffer depends on the bytes alone.
#[verifier::external_body]
fn gunzip_to_string(compressed: &[u8]) -> (text: Result<String, std::io::Error>)
    ensures
        match text {
            Ok(t) => gunzip_text(compressed@) == Some(t@),
            Err(_) => gunzip_text(compressed@) is None,
        },
{
    let mut decoder = GzDecoder::new(compressed);
    let mut content = String::new();
    match decoder.read_to_string(&mut content) {
        Ok(_) => Ok(content),
        Err(error) => Err(error),
    }
}

/// Decompresses the bytes of a gzip-compressed JSON resource into its text;
/// the error is the decoder's.
pub fn decompress_gzip_text(compressed: &[u8]) -> (text: Result<String, std::io::Error>)
    ensures
        match text {
            Ok(t) => gunzip_text(compressed@) == Some(t@),
            Err(_) => gunzip_text(compressed@) is None,
        },
{
    gunzip_to_string(compressed)
}

} // verus!
