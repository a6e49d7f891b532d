use vstd::prelude::*;

verus! {

// ---------------------------------------------------------------------------
// The move-to-front transform.
//
// Both directions maintain a recency table that starts as the identity
// permutation of all 256 byte values. The encoder replaces each input byte by
// its current position in the table and moves it to the front; the decoder
// reads the byte at the emitted position and performs the same move, so the
// two tables evolve in lockstep.
// ---------------------------------------------------------------------------

/// The initial recency table: byte value `i` sits at position `i`.
pub open spec fn init_symbols() -> Seq<u8> {
    Seq::new(256, |i: int| i as u8)
}

/// `b` occurs somewhere in the table.
pub open spec fn contains_byte(table: Seq<u8>, b: u8) -> bool {
    exists|j: int| 0 <= j < table.len() && table[j] == b
}

/// Every byte value occurs somewhere in the table. This is all the
/// transform needs from the table; it is preserved by every step.
pub open spec fn has_all_bytes(table: Seq<u8>) -> bool {
    forall|b: u8| contains_byte(table, b)
}

/// The position of the first occurrence of `b` in `table`.
pub open spec fn index_of_sym(table: Seq<u8>, b: u8) -> int
    decreases table.len(),
{
    if table.len() == 0 {
        0
    } else if table[0] == b {
        0
    } else {
        1 + index_of_sym(table.skip(1), b)
    }
}

/// Moving the entry at position `i` to the front of the table: entries
/// before it shift one place back, entries after it stay where they are.
pub open spec fn mtf_step(table: Seq<u8>, i: int) -> Seq<u8> {
    Seq::new(
        table.len(),
        |j: int|
            if j == 0 {
                table[i]
            } else if j <= i {
                table[j - 1]
            } else {
                table[j]
            },
    )
}

/// The move-to-front encoding of `data` against the recency table `table`.
pub open spec fn mtf_encode_spec(data: Seq<u8>, table: Seq<u8>) -> Seq<u8>
    decreases data.len(),
{
    if data.len() == 0 {
        Seq::empty()
    } else {
        let i = index_of_sym(table, data[0]);
        seq![i as u8] + mtf_encode_spec(data.skip(1), mtf_step(table, i))
    }
}

/// The move-to-front decoding of `indices` against the recency table `table`.
pub open spec fn mtf_decode_spec(indices: Seq<u8>, table: Seq<u8>) -> Seq<u8>
    decreases indices.len(),
{
    if indices.len() == 0 {
        Seq::empty()
    } else {
        let i = indices[0] as int;
        seq![table[i]] + mtf_decode_spec(indices.skip(1), mtf_step(table, i))
    }
}

/// The first occurrence of a byte that is present lies inside the table and
/// really holds that byte.
proof fn lemma_index_of_sym_works(table: Seq<u8>, b: u8)
    requires
        contains_byte(table, b),
    ensures
        0 <= index_of_sym(table, b) < table.len(),
        table[index_of_sym(table, b)] == b,
    decreases table.len(),
{
    if table.len() > 0 && table[0] != b {
        let j = choose|j: int| 0 <= j < table.len() && table[j] == b;
        assert(table.skip(1)[j - 1] == b);
        lemma_index_of_sym_works(table.skip(1), b);
    }
}

/// `index_of_sym` is exactly the position scanned to by a first-match loop.
proof fn lemma_index_of_sym_unique(table: Seq<u8>, b: u8, i: int)
    requires
        0 <= i < table.len(),
        table[i] == b,
        forall|j: int| 0 <= j < i ==> table[j] != b,
    ensures
        index_of_sym(table, b) == i,
    decreases table.len(),
{
    if i > 0 {
        assert(table.skip(1)[i - 1] == b);
        assert(forall|j: int| 0 <= j < i - 1 ==> table.skip(1)[j] == table[j + 1]);
        lemma_index_of_sym_unique(table.skip(1), b, i - 1);
    }
}

/// Moving an entry to the front keeps every byte value present.
proof fn lemma_mtf_step_has_all(table: Seq<u8>, i: int)
    requires
        0 <= i < table.len(),
        has_all_bytes(table),
    ensures
        has_all_bytes(mtf_step(table, i)),
        mtf_step(table, i).len() == table.len(),
{
    let stepped = mtf_step(table, i);
    assert forall|b: u8| contains_byte(stepped, b) by {
        assert(contains_byte(table, b));
        let k = choose|k: int| 0 <= k < table.len() && #[trigger] table[k] == b;
        if k == i {
            assert(stepped[0] == b);
        } else if k < i {
            assert(stepped[k + 1] == b);
        } else {
            assert(stepped[k] == b);
        }
    }
}

/// Replaces each byte of `data` by its position in the recency table and
/// moves that entry to the front, starting from the identity table.
pub fn mtf_encode(data: &[u8]) -> (r: Vec<u8>)
    ensures
        r@ == mtf_encode_spec(data@, init_symbols()),
{
    let mut symbols: Vec<u8> = Vec::new();
    let mut b: usize = 0;
    while b < 256
        invariant
            b <= 256,
            symbols@ =~= init_symbols().take(b as int),
        decreases 256 - b,
    {
        symbols.push(b as u8);
        b = b + 1;
    }
    assert(symbols@ =~= init_symbols());
    proof {
        assert forall|v: u8| contains_byte(symbols@, v) by {
            assert(symbols@[v as int] == v);
        }
    }

    let ghost full_spec = mtf_encode_spec(data@, init_symbols());
    let mut encoded: Vec<u8> = Vec::new();
    let mut i: usize = 0;
    proof {
        assert(data@.skip(0) =~= data@);
        assert(Seq::<u8>::empty() + full_spec =~= full_spec);
    }
    while i < data.len()
        invariant
            i <= data.len(),
            symbols@.len() == 256,
            has_all_bytes(symbols@),
            full_spec == encoded@ + mtf_encode_spec(data@.skip(i as int), symbols@),
        decreases data.len() - i,
    {
        let byte = data[i];
        let mut indx: usize = 0;
        proof {
            lemma_index_of_sym_works(symbols@, byte);
        }
        while symbols[indx] != byte
            invariant
                symbols@.len() == 256,
                indx < 256,
                forall|j: int| 0 <= j < indx ==> symbols@[j] != byte,
                0 <= index_of_sym(symbols@, byte) < 256,
                symbols@[index_of_sym(symbols@, byte)] == byte,
            decreases 256 - indx,
        {
            indx = indx + 1;
            proof {
                if indx == 256 || indx > index_of_sym(symbols@, byte) {
                    assert(symbols@[index_of_sym(symbols@, byte)] == byte);
                    assert(false);
                }
            }
        }
        proof {
            lemma_index_of_sym_unique(symbols@, byte, indx as int);
        }
        encoded.push(indx as u8);
        let ghost prev_table = symbols@;
        let fronted = symbols.remove(indx);
        symbols.insert(0, fronted);
        i = i + 1;
        proof {
            assert(symbols@ =~= mtf_step(prev_table, indx as int));
            lemma_mtf_step_has_all(prev_table, indx as int);
            let prev_skip = data@.skip(i - 1);
            assert(prev_skip[0] == data@[i - 1]);
            assert(prev_skip.skip(1) =~= data@.skip(i as int));
        }
    }
    assert(data@.skip(data.len() as int) =~= Seq::<u8>::empty());
    assert(encoded@ =~= full_spec);
    encoded
}

/// Reads the byte at each emitted position and performs the same
/// move-to-front step, inverting `mtf_encode`.
pub fn mtf_decode(encoded: &[u8]) -> (r: Vec<u8>)
    ensures
        r@ == mtf_decode_spec(encoded@, init_symbols()),
{
    let mut symbols: Vec<u8> = Vec::new();
    let mut b: usize = 0;
    while b < 256
        invariant
            b <= 256,
            symbols@ =~= init_symbols().take(b as int),
        decreases 256 - b,
    {
        symbols.push(b as u8);
        b = b + 1;
    }
    assert(symbols@ =~= init_symbols());

    let ghost full_spec = mtf_decode_spec(encoded@, init_symbols());
    let mut decoded: Vec<u8> = Vec::new();
    let mut i: usize = 0;
    proof {
        assert(encoded@.skip(0) =~= encoded@);
        assert(Seq::<u8>::empty() + full_spec =~= full_spec);
    }
    while i < encoded.len()
        invariant
            i <= encoded.len(),
            symbols@.len() == 256,
            full_spec == decoded@ + mtf_decode_spec(encoded@.skip(i as int), symbols@),
        decreases encoded.len() - i,
    {
        let indx = encoded[i] as usize;
        let byte = symbols[indx];
        decoded.push(byte);
        let ghost prev_table = symbols@;
        symbols.remove(indx);
        symbols.insert(0, byte);
        i = i + 1;
        proof {
            assert(symbols@ =~= mtf_step(prev_table, indx as int));
            let prev_skip = encoded@.skip(i - 1);
            assert(prev_skip[0] == encoded@[i - 1]);
            assert(prev_skip.skip(1) =~= encoded@.skip(i as int));
        }
    }
    assert(encoded@.skip(encoded.len() as int) =~= Seq::<u8>::empty());
    assert(decoded@ =~= full_spec);
    decoded
}

/// Decoding inverts encoding for any starting table in which every byte
/// value occurs: the two tables evolve identically step by step.
proof fn lemma_mtf_inverse(data: Seq<u8>, table: Seq<u8>)
    requires
        table.len() == 256,
        has_all_bytes(table),
    ensures
        mtf_decode_spec(mtf_encode_spec(data, table), table) == data,
    decreases data.len(),
{
    if data.len() == 0 {
        assert(mtf_decode_spec(mtf_encode_spec(data, table), table) =~= data);
    } else {
        let i = index_of_sym(table, data[0]);
        lemma_index_of_sym_works(table, data[0]);
        let stepped = mtf_step(table, i);
        lemma_mtf_step_has_all(table, i);
        let enc = mtf_encode_spec(data, table);
        assert(enc[0] == i as u8);
        assert(enc.skip(1) =~= mtf_encode_spec(data.skip(1), stepped));
        lemma_mtf_inverse(data.skip(1), stepped);
        assert(mtf_decode_spec(enc, table) =~= data);
    }
}

/// Encoding emits exactly one index per input byte.
pub proof fn lemma_mtf_encode_len(data: Seq<u8>, table: Seq<u8>)
    ensures
        mtf_encode_spec(data, table).len() == data.len(),
    decreases data.len(),
{
    if data.len() > 0 {
        lemma_mtf_encode_len(data.skip(1), mtf_step(table, index_of_sym(table, data[0])));
    }
}

/// The move-to-front involution: decoding an encoding yields the original
/// bytes, for every input including the empty one.
pub proof fn lemma_mtf_round_trip(data: Seq<u8>)
    ensures
        mtf_decode_spec(mtf_encode_spec(data, init_symbols()), init_symbols()) == data,
{
    assert forall|b: u8| contains_byte(init_symbols(), b) by {
        assert(init_symbols()[b as int] == b);
    }
    lemma_mtf_inverse(data, init_symbols());
}

} // verus!
