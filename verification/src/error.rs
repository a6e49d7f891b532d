use vstd::prelude::*;

verus! {

/// The error taxonomy shared by both codecs.
///
/// Every failure of `compress` or `decompress` is reported through this type;
/// no verified function of this crate panics.
#[derive(Clone, Copy, Debug, PartialEq, Eq, Structural)]
pub enum CodecError {
    /// A zero-length block was fed to a transform that needs at least one byte.
    EmptyInput,
    /// A malformed archive: truncated stream, a length field that exceeds the
    /// remaining bytes, or an ill-formed frequency table.
    InvalidArchive,
    /// A byte was Huffman-encoded against a table that does not contain it.
    SymbolNotFound,
    /// An empty frequency table reached Huffman tree construction.
    CorruptHuffmanTree,
    /// The arithmetic decoder's target fell outside every symbol interval,
    /// which means the decoder model diverged from the encoder model.
    DecodeDesync,
}

/// The mathematical value of a byte-vector result: the vector's view on
/// success, the error unchanged on failure.
pub open spec fn view_bytes_result(r: Result<Vec<u8>, CodecError>) -> Result<Seq<u8>, CodecError> {
    match r {
        Ok(v) => Ok(v@),
        Err(e) => Err(e),
    }
}

} // verus!
