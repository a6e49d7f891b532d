use vstd::prelude::*;
use crate::error::CodecError;
use crate::error::view_bytes_result;
use crate::model::ContextModel;
use crate::model::MODEL_ORDER;
use crate::model::model_counts;
use crate::model::model_update;
use crate::model::pack_key;
use crate::model::sum_counts;
use crate::model::map_wf;
use crate::model::lemma_model_counts_wf;
use crate::model::lemma_model_update_wf;
use crate::arith::seq_prefix;
use crate::arith::lemma_enc_encode_props;
use crate::arith::lemma_enc_finalize_props;
use crate::arith::lemma_be_val_u64;
use crate::model::MAX_MODEL_UPDATES;
use crate::arith::ArithmeticEncoder;
use crate::arith::ArithmeticDecoder;
use crate::arith::AEnc;
use crate::arith::ADec;
use crate::arith::wf_enc;
use crate::arith::wf_dec;
use crate::arith::enc_encode_spec;
use crate::arith::enc_finalize_spec;
use crate::arith::dec_init_spec;
use crate::arith::dec_decode_spec;
use crate::arith::u64_be_spec;
use crate::arith::PRECISION;
use crate::arith::TOTAL_CAP;

verus! {

// ---------------------------------------------------------------------------
// The context-arithmetic codec.
//
// Encode: for each input byte, predict with the context of the up-to-3
// preceding raw bytes, encode the byte arithmetically against those counts,
// then update the model. Decode mirrors the same predict/decode/update
// order byte by byte, so both models evolve in lockstep; the 8-byte
// big-endian header carries the original length, without which the decoder
// could not find the end of the stream.
// ---------------------------------------------------------------------------

/// The largest stream either side of this codec processes; keeps the bit
/// cursor, the update budget and every count total comfortably in range.
pub const PAQ_MAX_INPUT: u64 = 0x1000_0000_0000;

/// The context before position `i`: the up-to-3 preceding bytes.
pub open spec fn ctx_of(data: Seq<u8>, i: int) -> Seq<u8> {
    data.subrange(if i >= 3 { i - 3 } else { 0 }, i)
}

/// The encoder run from position `i` on: predict, encode, update.
pub open spec fn paq_loop(data: Seq<u8>, i: int, m: Map<int, Seq<u64>>, st: AEnc) -> AEnc
    decreases data.len() - i,
{
    if i < 0 || i >= data.len() {
        st
    } else {
        let key = pack_key(ctx_of(data, i));
        let counts = model_counts(m, key);
        let total = sum_counts(counts);
        let st2 = enc_encode_spec(st, counts, total, data[i]);
        paq_loop(data, i + 1, model_update(m, key, data[i]), st2)
    }
}

/// The compressed stream of `data`: the length header, then every byte
/// arithmetically coded under the adaptive model, then the termination
/// bits.
pub open spec fn paq_compress_spec(data: Seq<u8>) -> Seq<u8> {
    let st0 = AEnc {
        low: 0,
        high: PRECISION as int,
        underflow: 0,
        output: u64_be_spec(data.len() as u64),
        buffer: 0,
        nbits: 0,
    };
    enc_finalize_spec(paq_loop(data, 0, Map::empty(), st0))
}

/// The decoder run with `k` bytes still owed: predict with the tail of the
/// output so far, decode, update, append.
pub open spec fn paq_dec_loop(st: ADec, m: Map<int, Seq<u64>>, out: Seq<u8>, k: int) -> Seq<u8>
    decreases k,
{
    if k <= 0 {
        out
    } else {
        let key = pack_key(ctx_of(out, out.len() as int));
        let counts = model_counts(m, key);
        let total = sum_counts(counts);
        let sym = dec_decode_spec(st, counts, total).0;
        let st2 = dec_decode_spec(st, counts, total).1;
        paq_dec_loop(st2, model_update(m, key, sym), out.push(sym), k - 1)
    }
}

/// What decompressing a stream yields: the header names how many bytes to
/// decode; a stream without a full header, or one claiming an absurd
/// length, is rejected.
pub open spec fn paq_decompress_spec(bytes: Seq<u8>) -> Result<Seq<u8>, CodecError> {
    match dec_init_spec(bytes) {
        Err(e) => Err(e),
        Ok(st) => {
            if st.original_size > PAQ_MAX_INPUT {
                Err(CodecError::InvalidArchive)
            } else {
                Ok(paq_dec_loop(st, Map::empty(), Seq::empty(), st.original_size))
            }
        },
    }
}

/// Arithmetic-coder determinism: two compressions of the same bytes with
/// freshly initialized models produce byte-identical streams. The
/// compressor's contract pins its output to `paq_compress_spec`, of which
/// this is a direct consequence.
pub proof fn lemma_arith_compress_deterministic(data: Seq<u8>, r1: Seq<u8>, r2: Seq<u8>)
    requires
        r1 == paq_compress_spec(data),
        r2 == paq_compress_spec(data),
    ensures
        r1 == r2,
{
}

/// Sizes observed while compressing one stream.
pub struct CompressionStats {
    pub original_size: usize,
    pub compressed_size: usize,
}

/// Sizes observed while decompressing one stream.
pub struct DecompressionStats {
    pub compressed_size: usize,
    pub decompressed_size: usize,
}

/// The compressing half of the codec: owns the adaptive model.
pub struct Compressor {
    pub model: ContextModel,
}

impl Compressor {
    /// A compressor with a fresh model.
    pub fn new() -> (r: Self)
        ensures
            r.model.wf(),
            r.model.is_fresh(),
    {
        Compressor { model: ContextModel::new() }
    }

    /// Compresses `data`: writes the 8-byte big-endian length, then codes
    /// each byte against the adaptive model's prediction for its context.
    pub fn compress(&mut self, data: &[u8]) -> (r: Vec<u8>)
        requires
            old(self).model.wf(),
            old(self).model.is_fresh(),
            data@.len() <= PAQ_MAX_INPUT,
        ensures
            r@ == paq_compress_spec(data@),
    {
        let ghost st0 = AEnc {
            low: 0,
            high: PRECISION as int,
            underflow: 0,
            output: u64_be_spec(data@.len() as u64),
            buffer: 0,
            nbits: 0,
        };
        let mut encoder = ArithmeticEncoder::new();
        encoder.write_header(data.len() as u64);
        proof {
            assert(Seq::<u8>::empty() + u64_be_spec(data@.len() as u64) =~= u64_be_spec(
                data@.len() as u64,
            ));
            assert(encoder@ == st0);
            assert(ctx_of(data@, 0) =~= Seq::<u8>::empty());
        }
        let mut ctx: Vec<u8> = Vec::new();
        let mut i: usize = 0;
        while i < data.len()
            invariant
                i <= data.len(),
                data@.len() <= PAQ_MAX_INPUT,
                self.model.wf(),
                self.model.total_trained() == i,
                ctx@ == ctx_of(data@, i as int),
                ctx@.len() <= MODEL_ORDER,
                wf_enc(encoder@),
                encoder@.underflow <= 63 * (i + 1),
                paq_loop(data@, i as int, self.model@, encoder@) == paq_loop(
                    data@,
                    0,
                    Map::empty(),
                    st0,
                ),
            decreases data.len() - i,
        {
            let byte = data[i];
            let (counts, total) = self.model.predict(ctx.as_slice());
            encoder.encode(byte, &counts, total);
            self.model.update(ctx.as_slice(), byte);
            ctx.push(byte);
            if ctx.len() > MODEL_ORDER {
                ctx.remove(0);
            }
            i = i + 1;
            proof {
                assert(ctx@ =~= ctx_of(data@, i as int));
            }
        }
        proof {
            assert(paq_loop(data@, data@.len() as int, self.model@, encoder@) == encoder@);
        }
        let out = encoder.finalize();
        proof {
            assert(out@ == paq_compress_spec(data@));
        }
        out
    }
}

/// The decompressing half of the codec: owns the adaptive model.
pub struct Decompressor {
    pub model: ContextModel,
}

impl Decompressor {
    /// A decompressor with a fresh model.
    pub fn new() -> (r: Self)
        ensures
            r.model.wf(),
            r.model.is_fresh(),
    {
        Decompressor { model: ContextModel::new() }
    }

    /// Decompresses a stream: reads the length header, then decodes that
    /// many bytes, keeping the model in lockstep with the encoder's.
    pub fn decompress(&mut self, data: &[u8]) -> (r: Result<Vec<u8>, CodecError>)
        requires
            old(self).model.wf(),
            old(self).model.is_fresh(),
        ensures
            view_bytes_result(r) == paq_decompress_spec(data@),
    {
        let mut decoder = match ArithmeticDecoder::new(data) {
            Err(e) => {
                return Err(e);
            },
            Ok(d) => d,
        };
        let size = decoder.original_size();
        if size > PAQ_MAX_INPUT {
            return Err(CodecError::InvalidArchive);
        }
        let ghost st_init = decoder@;
        let mut out: Vec<u8> = Vec::new();
        let mut ctx: Vec<u8> = Vec::new();
        let mut i: u64 = 0;
        proof {
            assert(ctx_of(Seq::<u8>::empty(), 0) =~= Seq::<u8>::empty());
        }
        while i < size
            invariant
                i <= size,
                size <= PAQ_MAX_INPUT,
                size as int == st_init.original_size,
                self.model.wf(),
                self.model.total_trained() == i,
                out@.len() == i,
                ctx@ == ctx_of(out@, out@.len() as int),
                ctx@.len() <= MODEL_ORDER,
                wf_dec(decoder@),
                decoder@.pos <= 64 + 63 * (i as int),
                paq_dec_loop(decoder@, self.model@, out@, (size - i) as int) == paq_dec_loop(
                    st_init,
                    Map::empty(),
                    Seq::empty(),
                    size as int,
                ),
            decreases size - i,
        {
            let (counts, total) = self.model.predict(ctx.as_slice());
            let sym = match decoder.decode(&counts, total) {
                Err(e) => {
                    proof {
                        assert(false);
                    }
                    return Err(e);
                },
                Ok(s) => s,
            };
            out.push(sym);
            self.model.update(ctx.as_slice(), sym);
            ctx.push(sym);
            if ctx.len() > MODEL_ORDER {
                ctx.remove(0);
            }
            i = i + 1;
            proof {
                assert(ctx@ =~= ctx_of(out@, out@.len() as int));
            }
        }
        proof {
            assert(paq_dec_loop(decoder@, self.model@, out@, 0) == out@);
        }
        Ok(out)
    }
}

/// The encoder run only appends to the stream and keeps its state sound.
proof fn lemma_paq_loop_props(data: Seq<u8>, i: int, m: Map<int, Seq<u64>>, st: AEnc)
    requires
        0 <= i,
        data.len() <= PAQ_MAX_INPUT,
        map_wf(m, i),
        i <= data.len(),
        wf_enc(st),
    ensures
        wf_enc(paq_loop(data, i, m, st)),
        seq_prefix(st.output, paq_loop(data, i, m, st).output),
    decreases data.len() - i,
{
    if i < data.len() {
        let key = pack_key(ctx_of(data, i));
        let counts = model_counts(m, key);
        let total = sum_counts(counts);
        lemma_model_counts_wf(m, key, i);
        assert(total <= 256 + PAQ_MAX_INPUT);
        let st2 = enc_encode_spec(st, counts, total, data[i]);
        lemma_enc_encode_props(st, counts, total, data[i]);
        lemma_model_update_wf(m, key, data[i], i);
        lemma_paq_loop_props(data, i + 1, model_update(m, key, data[i]), st2);
        let fin = paq_loop(data, i, m, st);
        assert forall|k: int| 0 <= k < st.output.len() implies st.output[k]
            == #[trigger] fin.output[k] by {
            assert(st.output[k] == st2.output[k]);
        }
    }
}

/// The decoder run appends exactly one byte per owed symbol.
proof fn lemma_paq_dec_loop_len(st: ADec, m: Map<int, Seq<u64>>, out: Seq<u8>, k: int)
    requires
        k >= 0,
    ensures
        paq_dec_loop(st, m, out, k).len() == out.len() + k,
    decreases k,
{
    if k > 0 {
        let key = pack_key(ctx_of(out, out.len() as int));
        let counts = model_counts(m, key);
        let total = sum_counts(counts);
        let sym = dec_decode_spec(st, counts, total).0;
        let st2 = dec_decode_spec(st, counts, total).1;
        lemma_paq_dec_loop_len(st2, model_update(m, key, sym), out.push(sym), k - 1);
    }
}

/// A partial round trip for the context-arithmetic codec: decompressing a
/// freshly compressed stream always succeeds and yields exactly as many
/// bytes as went in; the stream's length header survives the trip.
pub proof fn lemma_arith_stream_reopens(data: Seq<u8>)
    requires
        data.len() <= PAQ_MAX_INPUT,
    ensures
        paq_decompress_spec(paq_compress_spec(data)) matches Ok(out) && out.len()
            == data.len(),
{
    let n = data.len() as u64;
    let st0 = AEnc {
        low: 0,
        high: PRECISION as int,
        underflow: 0,
        output: u64_be_spec(n),
        buffer: 0,
        nbits: 0,
    };
    assert(wf_enc(st0)) by {
        vstd::arithmetic::power2::lemma2_to64();
    }
    assert(map_wf(Map::<int, Seq<u64>>::empty(), 0));
    lemma_paq_loop_props(data, 0, Map::empty(), st0);
    let fin = paq_loop(data, 0, Map::empty(), st0);
    lemma_enc_finalize_props(fin);
    let compressed = enc_finalize_spec(fin);
    assert(compressed == paq_compress_spec(data));
    assert(compressed.len() >= 8);
    assert(compressed.take(8) =~= u64_be_spec(n)) by {
        assert(forall|k: int| 0 <= k < 8 ==> #[trigger] fin.output[k] == u64_be_spec(n)[k]);
        assert(forall|k: int| 0 <= k < 8 ==> #[trigger] compressed[k] == fin.output[k]);
    }
    lemma_be_val_u64(n);
    assert(dec_init_spec(compressed) matches Ok(st) && st.original_size == data.len());
    let st = dec_init_spec(compressed)->Ok_0;
    lemma_paq_dec_loop_len(st, Map::empty(), Seq::empty(), st.original_size);
}

} // verus!
