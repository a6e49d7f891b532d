use vstd::prelude::*;
use vstd::arithmetic::power2::pow2;
use vstd::arithmetic::power2::lemma2_to64;
use vstd::arithmetic::power2::lemma2_to64_rest;
use vstd::arithmetic::power2::lemma_pow2_adds;
use vstd::arithmetic::power2::lemma_pow2_pos;
use vstd::arithmetic::div_mod::lemma_div_denominator;
use crate::error::CodecError;
use crate::error::view_bytes_result;
use crate::bwt::bwt_index_spec;
use crate::bwt::bwt_last_col_spec;
use crate::bwt::bwt_decode_spec;
use crate::bwt::bwt_encode;
use crate::bwt::bwt_decode;
use crate::mtf::init_symbols;
use crate::mtf::mtf_encode_spec;
use crate::mtf::mtf_decode_spec;
use crate::mtf::mtf_encode;
use crate::mtf::mtf_decode;
use crate::mtf::lemma_mtf_encode_len;
use crate::rle::rle_encode_spec;
use crate::rle::rle_decode_spec;
use crate::rle::rle_encode;
use crate::rle::rle_decode;
use crate::rle::lemma_rle_encode_len;
use crate::rle::lemma_rle_encode_nonempty;
use crate::huffman::FreqTable;
use crate::huffman::freq_table_spec;
use crate::huffman::build_frequency_table;
use crate::huffman::build_huffman_tree;
use crate::huffman::generate_huffman_codes;
use crate::huffman::encode_with_huffman_codes;
use crate::huffman::decode_huffman;
use crate::huffman::huffman_tree_spec;
use crate::huffman::huff_encode_spec;
use crate::huffman::huff_decode_spec;
use crate::huffman::code_table_spec;
use crate::huffman::ctv_of_map;
use crate::huffman::tbl_total;
use crate::huffman::lemma_tbl_total_take_le;
use crate::huffman::lemma_tbl_total_nonneg;
use crate::huffman::lemma_huffman_encode_ok;
use crate::huffman::lemma_huffman_stage_round_trip;
use crate::huffman::lemma_own_table_code_len;
use crate::huffman::lemma_own_tree_wf;
use crate::huffman::lemma_code_concat_len;
use crate::huffman::lemma_freq_entries_bounds;
use crate::huffman::lemma_freq_table_total;
use crate::huffman::lemma_pack_len;
use crate::huffman::code_concat;
use crate::bits::pack_with_pad;
use crate::bits::pack_bytes;
use crate::rle::lemma_rle_round_trip;
use crate::rle::lemma_rle_encode_even;
use crate::mtf::lemma_mtf_round_trip;
use crate::bwt_inverse::lemma_bwt_round_trip;
use crate::bwt_inverse::lemma_bwt_index_in_range;
use vstd::arithmetic::div_mod::lemma_fundamental_div_mod;
use vstd::arithmetic::div_mod::lemma_basic_div;
use crate::huffman::MAX_SYMBOL_TOTAL;

verus! {

// ---------------------------------------------------------------------------
// The block-transform archive.
//
// Layout: one byte of extension length and the extension itself, then one
// record per block: the Burrows-Wheeler index, the frequency-table entry
// count, the (symbol, count) entries, the payload length, and the
// Huffman-packed payload, all integers 8-byte little endian.
// ---------------------------------------------------------------------------

/// Bytes of raw input that go into one block.
pub const BLOCK_SIZE: usize = 16384;

/// The largest archive the decoder accepts; keeps every bit index of the
/// payloads inside the machine's word.
pub const MAX_ARCHIVE_LEN: u64 = 0x1000_0000_0000_0000;

/// The little-endian value of a byte sequence.
pub open spec fn le_val(s: Seq<u8>) -> int
    decreases s.len(),
{
    if s.len() == 0 {
        0
    } else {
        s[0] + 256 * le_val(s.skip(1))
    }
}

/// The eight little-endian bytes of a 64-bit value.
pub open spec fn u64_le_spec(x: u64) -> Seq<u8> {
    Seq::new(8, |i: int| (((x as int) / (pow2((8 * i) as nat) as int)) % 256) as u8)
}

/// A little-endian value is bounded by the byte count's range.
proof fn lemma_le_val_bound(s: Seq<u8>)
    ensures
        0 <= le_val(s) < pow2((8 * s.len()) as nat),
    decreases s.len(),
{
    if s.len() == 0 {
        lemma2_to64();
    } else {
        lemma_le_val_bound(s.skip(1));
        lemma_pow2_adds(8, (8 * (s.len() - 1)) as nat);
        lemma2_to64();
    }
}

/// Serializes a 64-bit value little endian.
fn u64_to_le(x: u64) -> (r: Vec<u8>)
    ensures
        r@ == u64_le_spec(x),
        r@.len() == 8,
{
    let mut out: Vec<u8> = Vec::new();
    let mut v: u64 = x;
    let mut i: usize = 0;
    proof {
        lemma2_to64();
        assert((8 * (i as int)) as nat == 0);
        assert(pow2(0) == 1);
        assert((x as int) / 1 == x as int);
    }
    while i < 8
        invariant
            i <= 8,
            out@.len() == i,
            forall|m: int| 0 <= m < i ==> out@[m] == u64_le_spec(x)[m],
            v as int == (x as int) / (pow2((8 * i) as nat) as int),
        decreases 8 - i,
    {
        proof {
            lemma2_to64();
            lemma_pow2_pos((8 * i) as nat);
            lemma_pow2_adds((8 * i) as nat, 8);
            lemma_div_denominator(x as int, pow2((8 * i) as nat) as int, 256);
        }
        out.push((v % 256) as u8);
        v = v / 256;
        i = i + 1;
    }
    proof {
        assert(out@ =~= u64_le_spec(x));
    }
    out
}

/// Reads the 64-bit little-endian value stored at `off`.
fn read_u64_le(s: &[u8], off: usize) -> (r: u64)
    requires
        off + 8 <= s@.len(),
    ensures
        r as int == le_val(s@.subrange(off as int, off + 8)),
{
    let n = s.len();
    let mut acc: u64 = 0;
    let mut k: usize = 8;
    proof {
        assert(s@.subrange(off + 8, off + 8) =~= Seq::<u8>::empty());
        lemma2_to64();
    }
    while k > 0
        invariant
            k <= 8,
            n == s@.len(),
            off + 8 <= n,
            acc as int == le_val(s@.subrange(off + k, off + 8)),
            acc < pow2((8 * (8 - k)) as nat),
        decreases k,
    {
        k = k - 1;
        let ghost tail = s@.subrange(off + k, off + 8);
        proof {
            lemma_le_val_bound(s@.subrange(off + k + 1, off + 8));
            lemma_pow2_adds((8 * (7 - k)) as nat, 8);
            lemma2_to64();
            lemma2_to64_rest();
            assert(tail[0] == s@[off + k]);
            assert(tail.skip(1) =~= s@.subrange(off + k + 1, off + 8));
            assert((acc as int) * 256 + 255 < pow2((8 * (8 - k)) as nat)) by (nonlinear_arith)
                requires
                    0 <= acc as int,
                    (acc as int) < pow2((8 * (7 - k)) as nat),
                    pow2((8 * (7 - k)) as nat) * pow2(8) == pow2((8 * (8 - k)) as nat),
                    pow2(8) == 256,
            ;
            if 8 * (8 - k) < 64 {
                vstd::arithmetic::power2::lemma_pow2_strictly_increases(
                    (8 * (8 - k)) as nat,
                    64,
                );
            }
        }
        acc = acc * 256 + (s[off + k] as u64);
    }
    acc
}

/// The serialized (symbol, count) entries, in table order.
pub open spec fn entries_bytes(entries: Seq<(u8, u64)>) -> Seq<u8>
    decreases entries.len(),
{
    if entries.len() == 0 {
        Seq::empty()
    } else {
        entries_bytes(entries.drop_last()) + seq![entries.last().0] + u64_le_spec(
            entries.last().1,
        )
    }
}

/// The chunk of raw input starting at `pos`: up to `BLOCK_SIZE` bytes.
pub open spec fn chunk_spec(data: Seq<u8>, pos: int) -> Seq<u8> {
    data.subrange(
        pos,
        if data.len() - pos > BLOCK_SIZE { pos + BLOCK_SIZE } else { data.len() as int },
    )
}

/// The archive record of one block: Burrows-Wheeler index, frequency-table
/// size and entries, payload length, and the Huffman-packed payload of the
/// run-length-encoded move-to-front transform of the last column.
pub open spec fn block_bytes_spec(chunk: Seq<u8>) -> Result<Seq<u8>, CodecError>
    recommends
        0 < chunk.len() <= BLOCK_SIZE,
{
    let idx = bwt_index_spec(chunk);
    let col = bwt_last_col_spec(chunk);
    let mtf = mtf_encode_spec(col, init_symbols());
    let rle = rle_encode_spec(mtf);
    let entries = freq_table_spec(rle);
    let ctv = ctv_of_map(code_table_spec(huffman_tree_spec(entries)));
    match huff_encode_spec(rle, ctv) {
        Err(e) => Err(e),
        Ok(payload) => Ok(
            u64_le_spec(idx as u64) + u64_le_spec(entries.len() as u64) + entries_bytes(entries)
                + u64_le_spec(payload.len() as u64) + payload,
        ),
    }
}

/// The archive records of all blocks from `pos` on.
pub open spec fn blocks_spec(data: Seq<u8>, pos: int) -> Result<Seq<u8>, CodecError>
    decreases data.len() - pos,
{
    if pos < 0 || pos >= data.len() {
        Ok(Seq::empty())
    } else {
        let chunk = chunk_spec(data, pos);
        match block_bytes_spec(chunk) {
            Err(e) => Err(e),
            Ok(bb) => match blocks_spec(data, pos + chunk.len()) {
                Err(e) => Err(e),
                Ok(rest) => Ok(bb + rest),
            },
        }
    }
}

/// The whole archive: extension header followed by the block records.
pub open spec fn block_compress_spec(data: Seq<u8>, ext: Seq<u8>) -> Result<Seq<u8>, CodecError>
    recommends
        ext.len() <= 255,
{
    match blocks_spec(data, 0) {
        Err(e) => Err(e),
        Ok(bs) => Ok(seq![ext.len() as u8] + ext + bs),
    }
}

/// Runs one block through the transform chain and serializes its record.
fn block_bytes(chunk: &Vec<u8>) -> (r: Result<Vec<u8>, CodecError>)
    requires
        0 < chunk@.len() <= BLOCK_SIZE,
    ensures
        view_bytes_result(r) == block_bytes_spec(chunk@),
{
    let (col, idx) = bwt_encode(chunk.as_slice()).unwrap();
    let mtf_data = mtf_encode(col.as_slice());
    proof {
        lemma_mtf_encode_len(col@, init_symbols());
    }
    let rle_data = rle_encode(mtf_data.as_slice()).unwrap();
    proof {
        lemma_rle_encode_len(mtf_data@);
        lemma_rle_encode_nonempty(mtf_data@);
    }
    let ft = build_frequency_table(rle_data.as_slice());
    let tree = build_huffman_tree(&ft).unwrap();
    let codes = generate_huffman_codes(&*tree);
    proof {
        assert(codes@ =~= ctv_of_map(code_table_spec(huffman_tree_spec(ft.entries@))));
    }
    let payload = match encode_with_huffman_codes(rle_data.as_slice(), &codes) {
        Err(e) => {
            return Err(e);
        },
        Ok(p) => p,
    };

    let ghost entries = ft.entries@;
    let mut out = u64_to_le(idx as u64);
    let mut nent_bytes = u64_to_le(ft.entries.len() as u64);
    out.append(&mut nent_bytes);
    let ghost base = out@;
    let mut k: usize = 0;
    proof {
        assert(entries_bytes(entries.take(0)) =~= Seq::<u8>::empty());
        assert(base + Seq::<u8>::empty() =~= base);
    }
    while k < ft.entries.len()
        invariant
            k <= ft.entries@.len(),
            entries == ft.entries@,
            out@ == base + entries_bytes(entries.take(k as int)),
        decreases ft.entries@.len() - k,
    {
        let e = ft.entries[k];
        out.push(e.0);
        let mut cnt_bytes = u64_to_le(e.1);
        out.append(&mut cnt_bytes);
        k = k + 1;
        proof {
            assert(entries.take(k as int).drop_last() =~= entries.take(k - 1));
            assert(entries.take(k as int).last() == entries[k - 1]);
            assert(out@ =~= base + entries_bytes(entries.take(k as int)));
        }
    }
    proof {
        assert(entries.take(entries.len() as int) =~= entries);
    }
    let mut plen_bytes = u64_to_le(payload.len() as u64);
    out.append(&mut plen_bytes);
    let mut payload_bytes = payload;
    let ghost payload_view = payload_bytes@;
    out.append(&mut payload_bytes);
    proof {
        assert(out@ =~= u64_le_spec(idx as u64) + u64_le_spec(entries.len() as u64)
            + entries_bytes(entries) + u64_le_spec(payload_view.len() as u64) + payload_view);
    }
    Ok(out)
}

/// Compresses `data` into a block-transform archive carrying the given
/// filename extension (at most 255 bytes). The empty input yields an
/// archive with a header and no blocks.
pub fn compress(data: &[u8], extension: &[u8]) -> (r: Result<Vec<u8>, CodecError>)
    requires
        extension@.len() <= 255,
    ensures
        view_bytes_result(r) == block_compress_spec(data@, extension@),
{
    let mut out: Vec<u8> = Vec::new();
    out.push(extension.len() as u8);
    let mut e: usize = 0;
    while e < extension.len()
        invariant
            e <= extension@.len(),
            extension@.len() <= 255,
            out@ == seq![extension@.len() as u8] + extension@.take(e as int),
        decreases extension.len() - e,
    {
        out.push(extension[e]);
        e = e + 1;
        proof {
            assert(seq![extension@.len() as u8] + extension@.take(e - 1) + seq![extension@[e
                - 1]] =~= seq![extension@.len() as u8] + extension@.take(e as int));
        }
    }
    let ghost header = seq![extension@.len() as u8] + extension@;
    proof {
        assert(extension@.take(extension@.len() as int) =~= extension@);
    }
    let ghost mut done: Seq<u8> = Seq::empty();
    let mut pos: usize = 0;
    while pos < data.len()
        invariant
            pos <= data.len(),
            out@ == header + done,
            header == seq![extension@.len() as u8] + extension@,
            extension@.len() <= 255,
            forall|rest: Seq<u8>|
                blocks_spec(data@, pos as int) == Ok::<Seq<u8>, CodecError>(rest)
                    ==> blocks_spec(data@, 0) == Ok::<Seq<u8>, CodecError>(done + rest),
            forall|er: CodecError|
                blocks_spec(data@, pos as int) == Err::<Seq<u8>, CodecError>(er) ==> blocks_spec(
                    data@,
                    0,
                ) == Err::<Seq<u8>, CodecError>(er),
        decreases data.len() - pos,
    {
        let chunk_len = if data.len() - pos > BLOCK_SIZE {
            BLOCK_SIZE
        } else {
            data.len() - pos
        };
        let mut chunk: Vec<u8> = Vec::new();
        let mut t: usize = 0;
        while t < chunk_len
            invariant
                t <= chunk_len,
                pos + chunk_len <= data.len(),
                chunk@.len() == t,
                forall|m: int| 0 <= m < t ==> chunk@[m] == data@[pos + m],
            decreases chunk_len - t,
        {
            chunk.push(data[pos + t]);
            t = t + 1;
        }
        proof {
            assert(chunk@ =~= chunk_spec(data@, pos as int));
        }
        let bb = match block_bytes(&chunk) {
            Err(er) => {
                proof {
                    assert(blocks_spec(data@, pos as int) == Err::<Seq<u8>, CodecError>(er));
                }
                return Err(er);
            },
            Ok(b) => b,
        };
        let ghost bb_view = bb@;
        let ghost old_done = done;
        let mut bb_mut = bb;
        out.append(&mut bb_mut);
        proof {
            done = old_done + bb_view;
            assert(out@ =~= header + done);
            assert forall|rest: Seq<u8>|
                blocks_spec(data@, pos + chunk_len) == Ok::<Seq<u8>, CodecError>(
                    rest,
                ) implies blocks_spec(data@, 0) == Ok::<Seq<u8>, CodecError>(done + rest) by {
                assert(blocks_spec(data@, pos as int) == Ok::<Seq<u8>, CodecError>(
                    bb_view + rest,
                ));
                assert(old_done + (bb_view + rest) =~= done + rest);
            }
        }
        pos = pos + chunk_len;
    }
    proof {
        assert(blocks_spec(data@, pos as int) == Ok::<Seq<u8>, CodecError>(Seq::empty()));
        assert(done + Seq::<u8>::empty() =~= done);
        assert(header + done =~= seq![extension@.len() as u8] + extension@ + done);
    }
    Ok(out)
}

// --------------------------- reading the archive ---------------------------

/// A parsed frequency table is acceptable: symbols strictly ascending,
/// counts positive, total bounded.
pub open spec fn entries_wf(entries: Seq<(u8, u64)>) -> bool {
    &&& forall|i: int, j: int|
        0 <= i < j < entries.len() ==> (#[trigger] entries[i]).0 < (#[trigger] entries[j]).0
    &&& forall|i: int| 0 <= i < entries.len() ==> (#[trigger] entries[i]).1 >= 1
    &&& tbl_total(entries) <= MAX_SYMBOL_TOTAL
}

/// The `n` (symbol, count) entries stored at `base` in the block record.
pub open spec fn parsed_entries(s: Seq<u8>, base: int, n: int) -> Seq<(u8, u64)>
    decreases n,
{
    if n <= 0 {
        Seq::empty()
    } else {
        parsed_entries(s, base, n - 1) + seq![
            (
                s[base + 9 * (n - 1)],
                le_val(s.subrange(base + 9 * (n - 1) + 1, base + 9 * (n - 1) + 9)) as u64,
            ),
        ]
    }
}

/// What decoding the archive suffix `s` yields: one block record after
/// another, each one validated, decoded through the inverse chain, and
/// concatenated in order.
pub open spec fn parse_blocks_rec(s: Seq<u8>) -> Result<Seq<u8>, CodecError>
    decreases s.len(),
    via parse_blocks_rec_dec
{
    if s.len() == 0 {
        Ok(Seq::empty())
    } else if s.len() < 16 {
        Err(CodecError::InvalidArchive)
    } else {
        let idx = le_val(s.subrange(0, 8));
        let nent = le_val(s.subrange(8, 16));
        if nent > 256 {
            Err(CodecError::InvalidArchive)
        } else if s.len() < 16 + 9 * nent + 8 {
            Err(CodecError::InvalidArchive)
        } else {
            let entries = parsed_entries(s, 16, nent);
            if !entries_wf(entries) {
                Err(CodecError::InvalidArchive)
            } else if nent == 0 {
                Err(CodecError::CorruptHuffmanTree)
            } else {
                let plen = le_val(s.subrange(16 + 9 * nent, 16 + 9 * nent + 8));
                if s.len() < 16 + 9 * nent + 8 + plen {
                    Err(CodecError::InvalidArchive)
                } else {
                    let payload = s.subrange(16 + 9 * nent + 8, 16 + 9 * nent + 8 + plen);
                    let ctv = ctv_of_map(code_table_spec(huffman_tree_spec(entries)));
                    match huff_decode_spec(payload, ctv) {
                        Err(e) => Err(e),
                        Ok(rle_stream) => {
                            if rle_stream.len() % 2 != 0 {
                                Err(CodecError::InvalidArchive)
                            } else {
                                let mtf_stream = rle_decode_spec(rle_stream);
                                let col = mtf_decode_spec(mtf_stream, init_symbols());
                                if col.len() > 0 && idx >= col.len() {
                                    Err(CodecError::InvalidArchive)
                                } else {
                                    let block = bwt_decode_spec(col, idx);
                                    match parse_blocks_rec(s.skip(16 + 9 * nent + 8 + plen)) {
                                        Err(e) => Err(e),
                                        Ok(rest) => Ok(block + rest),
                                    }
                                }
                            }
                        },
                    }
                }
            }
        }
    }
}

#[via_fn]
proof fn parse_blocks_rec_dec(s: Seq<u8>) {
    if s.len() >= 16 {
        lemma_le_val_bound(s.subrange(8, 16));
        let nent = le_val(s.subrange(8, 16));
        if 0 <= nent <= 256 && s.len() >= 16 + 9 * nent + 8 {
            lemma_le_val_bound(s.subrange(16 + 9 * nent, 16 + 9 * nent + 8));
        }
    }
}

/// What decompressing a whole archive yields.
pub open spec fn block_decompress_spec(archive: Seq<u8>) -> Result<Seq<u8>, CodecError> {
    if archive.len() < 1 {
        Err(CodecError::InvalidArchive)
    } else {
        let ext_len = archive[0] as int;
        if archive.len() < 1 + ext_len {
            Err(CodecError::InvalidArchive)
        } else {
            parse_blocks_rec(archive.skip(1 + ext_len))
        }
    }
}

/// The filename extension stored in the archive header.
pub fn archive_extension(archive: &[u8]) -> (r: Result<Vec<u8>, CodecError>)
    ensures
        archive@.len() >= 1 && archive@.len() >= 1 + archive@[0] ==> (r matches Ok(v) && v@
            == archive@.subrange(1, 1 + archive@[0])),
        archive@.len() < 1 || archive@.len() < 1 + archive@[0] ==> r == Err::<
            Vec<u8>,
            CodecError,
        >(CodecError::InvalidArchive),
{
    if archive.len() < 1 {
        return Err(CodecError::InvalidArchive);
    }
    let ext_len = archive[0] as usize;
    if archive.len() < 1 + ext_len {
        return Err(CodecError::InvalidArchive);
    }
    let mut out: Vec<u8> = Vec::new();
    let mut i: usize = 0;
    while i < ext_len
        invariant
            i <= ext_len,
            1 + ext_len <= archive@.len(),
            ext_len == archive@[0],
            out@ =~= archive@.subrange(1, 1 + i),
        decreases ext_len - i,
    {
        out.push(archive[1 + i]);
        i = i + 1;
        proof {
            assert(out@ =~= archive@.subrange(1, 1 + i));
        }
    }
    Ok(out)
}

/// Parses and decodes the block record starting at `off`, returning the
/// decoded block and the offset just past the record.
#[verifier::rlimit(60)]
fn parse_block(archive: &[u8], off: usize) -> (r: Result<(Vec<u8>, usize), CodecError>)
    requires
        off < archive@.len(),
        archive@.len() < MAX_ARCHIVE_LEN,
    ensures
        (r matches Err(e) ==> parse_blocks_rec(archive@.skip(off as int)) == Err::<
            Seq<u8>,
            CodecError,
        >(e)),
        (r matches Ok(p) ==> off < p.1 <= archive@.len() && parse_blocks_rec(
            archive@.skip(off as int),
        ) == (match parse_blocks_rec(archive@.skip(p.1 as int)) {
            Err(e) => Err::<Seq<u8>, CodecError>(e),
            Ok(rest) => Ok::<Seq<u8>, CodecError>(p.0@ + rest),
        })),
{
    let ghost s = archive@.skip(off as int);
    let n = archive.len();
    if n - off < 16 {
        return Err(CodecError::InvalidArchive);
    }
    let idx64 = read_u64_le(archive, off);
    let nent64 = read_u64_le(archive, off + 8);
    proof {
        assert(archive@.subrange(off as int, off + 8) =~= s.subrange(0, 8));
        assert(archive@.subrange(off + 8, off + 16) =~= s.subrange(8, 16));
    }
    if nent64 > 256 {
        return Err(CodecError::InvalidArchive);
    }
    let nent = nent64 as usize;
    if n - off - 16 < 9 * nent + 8 {
        return Err(CodecError::InvalidArchive);
    }

    // Parse the (symbol, count) entries.
    let mut entries: Vec<(u8, u64)> = Vec::new();
    let mut k: usize = 0;
    while k < nent
        invariant
            k <= nent,
            nent <= 256,
            nent == le_val(s.subrange(8, 16)),
            n == archive@.len(),
            off + 16 + 9 * nent + 8 <= n,
            s == archive@.skip(off as int),
            entries@.len() == k,
            entries@ == parsed_entries(s, 16, k as int),
        decreases nent - k,
    {
        let sym = archive[off + 16 + 9 * k];
        let cnt = read_u64_le(archive, off + 16 + 9 * k + 1);
        proof {
            lemma_le_val_bound(s.subrange(16 + 9 * (k as int) + 1, 16 + 9 * (k as int) + 9));
            assert(archive@.subrange(
                off + 16 + 9 * (k as int) + 1,
                off + 16 + 9 * (k as int) + 9,
            ) =~= s.subrange(16 + 9 * (k as int) + 1, 16 + 9 * (k as int) + 9));
            assert(sym == s[16 + 9 * (k as int)]);
        }
        entries.push((sym, cnt));
        k = k + 1;
        proof {
            assert(entries@ =~= parsed_entries(s, 16, k - 1) + seq![
                (
                    s[16 + 9 * (k - 1)],
                    le_val(s.subrange(16 + 9 * (k - 1) + 1, 16 + 9 * (k - 1) + 9)) as u64,
                ),
            ]);
        }
    }
    let ghost entries_spec = parsed_entries(s, 16, nent as int);

    // Validate the table: ascending symbols, positive counts, bounded total.
    let mut v: usize = 0;
    let mut total: u64 = 0;
    while v < nent
        invariant
            v <= nent,
            nent == entries@.len(),
            nent <= 256,
            nent == le_val(s.subrange(8, 16)),
            n == archive@.len(),
            off < archive@.len(),
            off + 16 + 9 * nent + 8 <= n,
            s == archive@.skip(off as int),
            entries_spec == parsed_entries(s, 16, nent as int),
            entries@ == entries_spec,
            forall|i: int, j: int|
                0 <= i < j < v ==> (#[trigger] entries@[i]).0 < (#[trigger] entries@[j]).0,
            forall|i: int| 0 <= i < v ==> (#[trigger] entries@[i]).1 >= 1,
            total == tbl_total(entries@.take(v as int)),
            total <= MAX_SYMBOL_TOTAL,
        decreases nent - v,
    {
        let e = entries[v];
        if e.1 == 0 {
            proof {
                assert((entries_spec[v as int]).1 < 1);
                assert(!entries_wf(entries_spec));
            }
            return Err(CodecError::InvalidArchive);
        }
        if v > 0 {
            let prev = entries[v - 1];
            if prev.0 >= e.0 {
                proof {
                    assert((entries_spec[v - 1]).0 >= (entries_spec[v as int]).0);
                    assert(!entries_wf(entries_spec));
                }
                return Err(CodecError::InvalidArchive);
            }
        }
        if e.1 > MAX_SYMBOL_TOTAL || total > MAX_SYMBOL_TOTAL - e.1 {
            proof {
                assert(entries@.take(v + 1).drop_last() =~= entries@.take(v as int));
                assert(entries@.take(v + 1).last() == entries@[v as int]);
                lemma_tbl_total_take_le(entries@, v + 1);
                assert(tbl_total(entries_spec) > MAX_SYMBOL_TOTAL);
                assert(!entries_wf(entries_spec));
            }
            return Err(CodecError::InvalidArchive);
        }
        total = total + e.1;
        v = v + 1;
        proof {
            assert(entries@.take(v as int).drop_last() =~= entries@.take(v - 1));
            assert(entries@.take(v as int).last() == entries@[v - 1]);
        }
    }
    proof {
        assert(entries@.take(nent as int) =~= entries@);
        assert(entries_wf(entries_spec));
    }
    if nent == 0 {
        return Err(CodecError::CorruptHuffmanTree);
    }

    // Rebuild the identical Huffman tree and code table.
    let ft = FreqTable { entries };
    let tree = build_huffman_tree(&ft).unwrap();
    let codes = generate_huffman_codes(&*tree);
    proof {
        assert(codes@ =~= ctv_of_map(code_table_spec(huffman_tree_spec(entries_spec))));
    }

    // Read and decode the payload.
    let plen64 = read_u64_le(archive, off + 16 + 9 * nent);
    proof {
        assert(archive@.subrange(off + 16 + 9 * (nent as int), off + 16 + 9 * (nent as int) + 8)
            =~= s.subrange(16 + 9 * (nent as int), 16 + 9 * (nent as int) + 8));
    }
    let after_len = n - off - 16 - 9 * nent - 8;
    if (after_len as u64) < plen64 {
        return Err(CodecError::InvalidArchive);
    }
    let plen = plen64 as usize;
    let p0 = off + 16 + 9 * nent + 8;
    let payload: &[u8] = &archive[p0..p0 + plen];
    proof {
        assert(payload@ =~= s.subrange(
            16 + 9 * (nent as int) + 8,
            16 + 9 * (nent as int) + 8 + plen64 as int,
        ));
    }
    let rle_stream = match decode_huffman(payload, &codes) {
        Err(e) => {
            return Err(e);
        },
        Ok(v2) => v2,
    };
    if rle_stream.len() % 2 != 0 {
        return Err(CodecError::InvalidArchive);
    }
    let mtf_stream = rle_decode(rle_stream.as_slice());
    let col = mtf_decode(mtf_stream.as_slice());
    if col.len() > 0 && idx64 >= (col.len() as u64) {
        return Err(CodecError::InvalidArchive);
    }
    let block = if col.len() == 0 {
        let empty_block: Vec<u8> = Vec::new();
        proof {
            assert(empty_block@ =~= bwt_decode_spec(col@, le_val(s.subrange(0, 8))));
        }
        empty_block
    } else {
        let b = bwt_decode(col.as_slice(), idx64 as usize);
        b
    };
    let newoff = p0 + plen;
    proof {
        assert(archive@.skip(newoff as int) =~= s.skip(
            16 + 9 * (nent as int) + 8 + plen64 as int,
        ));
    }
    Ok((block, newoff))
}

/// Decompresses a block-transform archive: reads the header, then decodes
/// the chain of block records, concatenating the blocks in stored order.
/// Every malformed shape is reported as an error, never a crash.
pub fn decompress(archive: &[u8]) -> (r: Result<Vec<u8>, CodecError>)
    requires
        archive@.len() < MAX_ARCHIVE_LEN,
    ensures
        view_bytes_result(r) == block_decompress_spec(archive@),
{
    if archive.len() < 1 {
        return Err(CodecError::InvalidArchive);
    }
    let ext_len = archive[0] as usize;
    if archive.len() < 1 + ext_len {
        return Err(CodecError::InvalidArchive);
    }
    let mut out: Vec<u8> = Vec::new();
    let ghost mut done: Seq<u8> = Seq::empty();
    let mut off: usize = 1 + ext_len;
    while off < archive.len()
        invariant
            1 + ext_len <= off <= archive@.len(),
            archive@.len() < MAX_ARCHIVE_LEN,
            ext_len == archive@[0],
            out@ == done,
            forall|rest: Seq<u8>|
                parse_blocks_rec(archive@.skip(off as int)) == Ok::<Seq<u8>, CodecError>(rest)
                    ==> parse_blocks_rec(archive@.skip(1 + ext_len)) == Ok::<
                    Seq<u8>,
                    CodecError,
                >(done + rest),
            forall|er: CodecError|
                parse_blocks_rec(archive@.skip(off as int)) == Err::<Seq<u8>, CodecError>(er)
                    ==> parse_blocks_rec(archive@.skip(1 + ext_len)) == Err::<
                    Seq<u8>,
                    CodecError,
                >(er),
        decreases archive@.len() - off,
    {
        let (block, newoff) = match parse_block(archive, off) {
            Err(e) => {
                return Err(e);
            },
            Ok(p) => p,
        };
        let ghost block_view = block@;
        let ghost old_done = done;
        let mut block_mut = block;
        out.append(&mut block_mut);
        proof {
            done = old_done + block_view;
            assert forall|rest: Seq<u8>|
                parse_blocks_rec(archive@.skip(newoff as int)) == Ok::<Seq<u8>, CodecError>(
                    rest,
                ) implies parse_blocks_rec(archive@.skip(1 + ext_len)) == Ok::<
                Seq<u8>,
                CodecError,
            >(done + rest) by {
                assert(parse_blocks_rec(archive@.skip(off as int)) == Ok::<Seq<u8>, CodecError>(
                    block_view + rest,
                ));
                assert(old_done + (block_view + rest) =~= done + rest);
            }
        }
        off = newoff;
    }
    proof {
        assert(archive@.skip(off as int) =~= Seq::<u8>::empty());
        assert(parse_blocks_rec(archive@.skip(off as int)) == Ok::<Seq<u8>, CodecError>(
            Seq::empty(),
        ));
        assert(done + Seq::<u8>::empty() =~= done);
    }
    Ok(out)
}

// --------------------------- success of compression ------------------------

/// One block's record always serializes: the frequency table is built from
/// the very stream it encodes, so no symbol can lack a code.
pub proof fn lemma_block_bytes_ok(chunk: Seq<u8>)
    requires
        0 < chunk.len() <= BLOCK_SIZE,
    ensures
        block_bytes_spec(chunk) is Ok,
{
    let col = bwt_last_col_spec(chunk);
    let mtf = mtf_encode_spec(col, init_symbols());
    let rle = rle_encode_spec(mtf);
    lemma_mtf_encode_len(col, init_symbols());
    crate::rle::lemma_rle_encode_nonempty(mtf);
    lemma_rle_encode_len(mtf);
    lemma_huffman_encode_ok(rle);
}

/// Every suffix of the input compresses.
proof fn lemma_blocks_ok(data: Seq<u8>, pos: int)
    requires
        0 <= pos,
    ensures
        blocks_spec(data, pos) is Ok,
    decreases data.len() - pos,
{
    if pos < data.len() {
        let chunk = chunk_spec(data, pos);
        lemma_block_bytes_ok(chunk);
        lemma_blocks_ok(data, pos + chunk.len());
    }
}

/// Compression never fails: for every input and every extension the
/// archive is produced.
pub proof fn lemma_block_compress_ok(data: Seq<u8>, ext: Seq<u8>)
    requires
        ext.len() <= 255,
    ensures
        block_compress_spec(data, ext) is Ok,
{
    lemma_blocks_ok(data, 0);
}

// --------------------------- the framing round trip ------------------------

/// Reading the serialized bytes of a 64-bit value from position `p` on
/// gives the value's upper bytes.
proof fn lemma_le_val_u64_from(v: u64, p: int)
    requires
        0 <= p <= 8,
    ensures
        le_val(u64_le_spec(v).skip(p)) == (v as int) / (pow2((8 * p) as nat) as int),
    decreases 8 - p,
{
    lemma2_to64();
    lemma2_to64_rest();
    if p == 8 {
        assert(u64_le_spec(v).skip(8) =~= Seq::<u8>::empty());
        assert((v as int) / (pow2(64) as int) == 0) by {
            lemma_basic_div(v as int, pow2(64) as int);
        }
    } else {
        lemma_le_val_u64_from(v, p + 1);
        let tail = u64_le_spec(v).skip(p);
        lemma_pow2_pos((8 * p) as nat);
        let hp = (v as int) / (pow2((8 * p) as nat) as int);
        assert(tail[0] == u64_le_spec(v)[p]);
        assert(u64_le_spec(v)[p] as int == hp % 256);
        assert(tail.skip(1) =~= u64_le_spec(v).skip(p + 1));
        assert(le_val(tail) == hp % 256 + 256 * le_val(u64_le_spec(v).skip(p + 1)));
        lemma_pow2_adds((8 * p) as nat, 8);
        lemma_div_denominator(v as int, pow2((8 * p) as nat) as int, 256);
        assert((v as int) / (pow2((8 * (p + 1)) as nat) as int) == hp / 256);
        lemma_fundamental_div_mod(hp, 256);
    }
}

/// Serialization of a 64-bit value round-trips.
proof fn lemma_le_val_u64(v: u64)
    ensures
        le_val(u64_le_spec(v)) == v,
{
    lemma2_to64();
    lemma_le_val_u64_from(v, 0);
    assert(u64_le_spec(v).skip(0) =~= u64_le_spec(v));
    assert(pow2(0) == 1);
    assert((v as int) / 1 == v as int);
}

/// The serialized table is nine bytes per entry.
proof fn lemma_entries_bytes_len(entries: Seq<(u8, u64)>)
    ensures
        entries_bytes(entries).len() == 9 * entries.len(),
    decreases entries.len(),
{
    if entries.len() > 0 {
        lemma_entries_bytes_len(entries.drop_last());
    }
}

/// Parsing the serialized table from any carrier recovers the entries.
proof fn lemma_parsed_entries_of(s: Seq<u8>, base: int, entries: Seq<(u8, u64)>)
    requires
        0 <= base,
        base + 9 * entries.len() <= s.len(),
        s.subrange(base, base + 9 * entries.len()) == entries_bytes(entries),
    ensures
        parsed_entries(s, base, entries.len() as int) == entries,
    decreases entries.len(),
{
    lemma_entries_bytes_len(entries);
    if entries.len() == 0 {
        assert(parsed_entries(s, base, 0) =~= entries);
    } else {
        let n = entries.len() as int;
        let eb = entries_bytes(entries);
        lemma_entries_bytes_len(entries.drop_last());
        assert(eb == entries_bytes(entries.drop_last()) + seq![entries.last().0] + u64_le_spec(
            entries.last().1,
        ));
        // the final nine bytes spell the last entry
        assert(s.subrange(base, base + 9 * n)[9 * (n - 1)] == eb[9 * (n - 1)]);
        assert(s[base + 9 * (n - 1)] == eb[9 * (n - 1)]);
        assert(eb[9 * (n - 1)] == entries.last().0);
        assert forall|j: int|
            0 <= j < 8 implies s.subrange(base + 9 * (n - 1) + 1, base + 9 * (n - 1) + 9)[j]
            == u64_le_spec(entries.last().1)[j] by {
            assert(s.subrange(base, base + 9 * n)[9 * (n - 1) + 1 + j] == eb[9 * (n - 1) + 1
                + j]);
            assert(s[base + 9 * (n - 1) + 1 + j] == eb[9 * (n - 1) + 1 + j]);
            assert(eb[9 * (n - 1) + 1 + j] == u64_le_spec(entries.last().1)[j]);
        }
        assert(s.subrange(base + 9 * (n - 1) + 1, base + 9 * (n - 1) + 9) =~= u64_le_spec(
            entries.last().1,
        ));
        lemma_le_val_u64(entries.last().1);
        // the front spells the rest
        assert(s.subrange(base, base + 9 * (n - 1)) =~= entries_bytes(entries.drop_last()));
        lemma_parsed_entries_of(s, base, entries.drop_last());
        assert(parsed_entries(s, base, n) =~= entries);
    }
}

/// One serialized block record parses back to its chunk, whatever follows.
#[verifier::rlimit(100)]
proof fn lemma_parse_block_bytes(chunk: Seq<u8>, rest: Seq<u8>)
    requires
        0 < chunk.len() <= BLOCK_SIZE,
    ensures
        block_bytes_spec(chunk) matches Ok(bb) && parse_blocks_rec(bb + rest) == (
        match parse_blocks_rec(rest) {
            Ok(rs) => Ok::<Seq<u8>, CodecError>(chunk + rs),
            Err(e) => Err::<Seq<u8>, CodecError>(e),
        }),
{
    lemma2_to64();
    lemma_block_bytes_ok(chunk);
    let idx = bwt_index_spec(chunk);
    let col = bwt_last_col_spec(chunk);
    let mtf = mtf_encode_spec(col, init_symbols());
    let rle = rle_encode_spec(mtf);
    let entries = freq_table_spec(rle);
    let ctv = ctv_of_map(code_table_spec(huffman_tree_spec(entries)));
    lemma_mtf_encode_len(col, init_symbols());
    crate::rle::lemma_rle_encode_nonempty(mtf);
    lemma_rle_encode_len(mtf);
    assert(1 <= rle.len() <= MAX_SYMBOL_TOTAL);
    lemma_bwt_index_in_range(chunk);
    lemma_huffman_stage_round_trip(rle);
    let payload = pack_with_pad(code_concat(rle, ctv));
    assert(huff_encode_spec(rle, ctv) == Ok::<Seq<u8>, CodecError>(payload));
    lemma_own_table_code_len(rle);
    lemma_code_concat_len(rle, ctv);
    lemma_pack_len(code_concat(rle, ctv));
    assert(payload.len() == pack_bytes(code_concat(rle, ctv)).len() + 1);
    assert(payload.len() < 0xFFFF_FFFF_FFFF_FFFF);
    let nent = entries.len() as int;
    lemma_own_tree_wf(rle);
    lemma_freq_entries_bounds(rle, 0);
    lemma_freq_table_total(rle);
    assert(1 <= nent <= 256);
    lemma_entries_bytes_len(entries);

    let bb = u64_le_spec(idx as u64) + u64_le_spec(entries.len() as u64) + entries_bytes(
        entries,
    ) + u64_le_spec(payload.len() as u64) + payload;
    assert(block_bytes_spec(chunk) == Ok::<Seq<u8>, CodecError>(bb));
    let s = bb + rest;
    assert(bb.len() == 24 + 9 * nent + payload.len());

    // header fields
    assert(s.subrange(0, 8) =~= u64_le_spec(idx as u64));
    lemma_le_val_u64(idx as u64);
    assert(le_val(s.subrange(0, 8)) == idx);
    assert(s.subrange(8, 16) =~= u64_le_spec(entries.len() as u64));
    lemma_le_val_u64(entries.len() as u64);
    assert(le_val(s.subrange(8, 16)) == nent);

    // the stored table parses back
    assert(s.subrange(16, 16 + 9 * nent) =~= entries_bytes(entries));
    lemma_parsed_entries_of(s, 16, entries);
    assert(parsed_entries(s, 16, nent) == entries);
    assert(entries_wf(entries)) by {
        assert(tbl_total(entries) == rle.len());
    }

    // payload length and bytes
    assert(s.subrange(16 + 9 * nent, 16 + 9 * nent + 8) =~= u64_le_spec(payload.len() as u64));
    lemma_le_val_u64(payload.len() as u64);
    let plen = le_val(s.subrange(16 + 9 * nent, 16 + 9 * nent + 8));
    assert(plen == payload.len());
    assert(s.len() >= 16 + 9 * nent + 8 + plen);
    assert(s.subrange(16 + 9 * nent + 8, 16 + 9 * nent + 8 + plen) =~= payload);

    // the decode chain inverts the encode chain
    assert(huff_decode_spec(payload, ctv) == Ok::<Seq<u8>, CodecError>(rle));
    lemma_rle_encode_even(mtf);
    lemma_rle_round_trip(mtf);
    assert(rle_decode_spec(rle) == mtf);
    lemma_mtf_round_trip(col);
    assert(mtf_decode_spec(mtf, init_symbols()) == col);
    assert(col.len() == chunk.len());
    assert(!(col.len() > 0 && idx >= col.len()));
    lemma_bwt_round_trip(chunk);
    assert(bwt_decode_spec(col, idx) == chunk);

    // the parser consumes exactly this record
    assert(s.skip(16 + 9 * nent + 8 + plen) =~= rest);
}

/// The whole block stream parses back to the whole input.
proof fn lemma_blocks_round_trip(data: Seq<u8>, pos: int)
    requires
        0 <= pos,
    ensures
        blocks_spec(data, pos) matches Ok(bs) && parse_blocks_rec(bs) == Ok::<
            Seq<u8>,
            CodecError,
        >(data.skip(if pos <= data.len() {
            pos
        } else {
            data.len() as int
        })),
    decreases data.len() - pos,
{
    lemma_blocks_ok(data, pos);
    if pos >= data.len() {
        let bs = blocks_spec(data, pos)->Ok_0;
        assert(bs =~= Seq::<u8>::empty());
        assert(parse_blocks_rec(bs) == Ok::<Seq<u8>, CodecError>(Seq::empty()));
        assert(data.skip(data.len() as int) =~= Seq::<u8>::empty());
    } else {
        let chunk = chunk_spec(data, pos);
        lemma_blocks_ok(data, pos + chunk.len());
        lemma_blocks_round_trip(data, pos + chunk.len());
        let restbs = blocks_spec(data, pos + chunk.len())->Ok_0;
        lemma_parse_block_bytes(chunk, restbs);
        let bb = block_bytes_spec(chunk)->Ok_0;
        assert(blocks_spec(data, pos) == Ok::<Seq<u8>, CodecError>(bb + restbs));
        assert(parse_blocks_rec(restbs) == Ok::<Seq<u8>, CodecError>(
            data.skip(pos + chunk.len()),
        ));
        assert(parse_blocks_rec(bb + restbs) == Ok::<Seq<u8>, CodecError>(
            chunk + data.skip(pos + chunk.len()),
        ));
        assert(chunk + data.skip(pos + chunk.len()) =~= data.skip(pos));
    }
}

/// The round-trip identity for the block-transform codec: decompressing a
/// compressed archive yields the original bytes, the empty input included.
pub proof fn lemma_block_round_trip(data: Seq<u8>, ext: Seq<u8>)
    requires
        ext.len() <= 255,
    ensures
        block_compress_spec(data, ext) matches Ok(archive) && block_decompress_spec(archive)
            == Ok::<Seq<u8>, CodecError>(data),
{
    lemma_blocks_ok(data, 0);
    lemma_blocks_round_trip(data, 0);
    let bs = blocks_spec(data, 0)->Ok_0;
    let archive = seq![ext.len() as u8] + ext + bs;
    assert(block_compress_spec(data, ext) == Ok::<Seq<u8>, CodecError>(archive));
    assert(archive.len() >= 1);
    assert(archive[0] == ext.len() as u8);
    assert(archive.len() >= 1 + ext.len());
    assert(archive.skip(1 + ext.len() as int) =~= bs);
    assert(data.skip(0) =~= data);
}

} // verus!
