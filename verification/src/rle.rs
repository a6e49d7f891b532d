use vstd::prelude::*;
use crate::error::CodecError;

verus! {

// ---------------------------------------------------------------------------
// Run-length encoding.
//
// Maximal runs of equal consecutive bytes become (count, value) pairs with
// the count capped at 255: a longer run is split into several pairs.
// ---------------------------------------------------------------------------

/// `n` copies of the byte `b`.
pub open spec fn rep_byte(b: u8, n: nat) -> Seq<u8> {
    Seq::new(n, |j: int| b)
}

/// Expansion of a sequence of (count, value) pairs, laid out flat as
/// `count0, value0, count1, value1, ...`.
pub open spec fn rle_decode_spec(pairs: Seq<u8>) -> Seq<u8>
    decreases pairs.len(),
{
    if pairs.len() < 2 {
        Seq::empty()
    } else {
        rep_byte(pairs[1], pairs[0] as nat) + rle_decode_spec(pairs.skip(2))
    }
}

/// Continuing a run of `count` copies of `b` through the remaining input
/// `rest`: the run grows while the next byte matches and the count is below
/// the cap, a full run of 255 is flushed and restarted, and a mismatch (or
/// the end of the input) flushes the run and starts over.
pub open spec fn rle_encode_run(count: int, b: u8, rest: Seq<u8>) -> Seq<u8>
    recommends
        1 <= count <= 255,
    decreases rest.len(), 1int,
{
    if rest.len() > 0 && rest[0] == b && count < 255 {
        rle_encode_run(count + 1, b, rest.skip(1))
    } else if rest.len() > 0 && rest[0] == b {
        seq![255u8, b] + rle_encode_run(1, b, rest.skip(1))
    } else {
        seq![count as u8, b] + rle_encode_spec(rest)
    }
}

/// The run-length encoding of `data` as a flat (count, value) pair stream.
pub open spec fn rle_encode_spec(data: Seq<u8>) -> Seq<u8>
    decreases data.len(), 0int,
{
    if data.len() == 0 {
        Seq::empty()
    } else {
        rle_encode_run(1, data[0], data.skip(1))
    }
}

/// Collapses maximal runs of equal consecutive bytes into (count, value)
/// pairs, splitting runs longer than 255. The empty input is rejected.
pub fn rle_encode(data: &[u8]) -> (r: Result<Vec<u8>, CodecError>)
    ensures
        data@.len() == 0 ==> r == Err::<Vec<u8>, CodecError>(CodecError::EmptyInput),
        data@.len() > 0 ==> (r matches Ok(v) && v@ == rle_encode_spec(data@)),
{
    if data.len() == 0 {
        return Err(CodecError::EmptyInput);
    }
    let mut encoded: Vec<u8> = Vec::new();
    let mut count: u8 = 1;
    let mut last_byte: u8 = data[0];
    let mut i: usize = 1;
    proof {
        assert(Seq::<u8>::empty() + rle_encode_run(1, data@[0], data@.skip(1))
            =~= rle_encode_run(1, data@[0], data@.skip(1)));
    }
    while i < data.len()
        invariant
            1 <= i <= data.len(),
            1 <= count,
            rle_encode_spec(data@) == encoded@ + rle_encode_run(
                count as int,
                last_byte,
                data@.skip(i as int),
            ),
        decreases data.len() - i,
    {
        let ghost rest = data@.skip(i as int);
        proof {
            assert(rest[0] == data@[i as int]);
            assert(rest.skip(1) =~= data@.skip(i + 1));
        }
        if data[i] == last_byte {
            if count == 255 {
                encoded.push(255);
                encoded.push(last_byte);
                proof {
                    assert(encoded@ + rle_encode_run(1, last_byte, rest.skip(1))
                        =~= encoded@.take(encoded@.len() - 2) + (seq![255u8, last_byte]
                            + rle_encode_run(1, last_byte, rest.skip(1))));
                }
                count = 1;
            } else {
                count = count + 1;
            }
        } else {
            encoded.push(count);
            encoded.push(last_byte);
            proof {
                assert(rle_encode_spec(rest) == rle_encode_run(1, rest[0], rest.skip(1)));
                assert(encoded@ + rle_encode_run(1, data@[i as int], rest.skip(1))
                    =~= encoded@.take(encoded@.len() - 2) + (seq![count, last_byte]
                        + rle_encode_spec(rest)));
            }
            count = 1;
            last_byte = data[i];
        }
        i = i + 1;
    }
    proof {
        assert(data@.skip(data.len() as int) =~= Seq::<u8>::empty());
    }
    encoded.push(count);
    encoded.push(last_byte);
    proof {
        assert(rle_encode_run(count as int, last_byte, Seq::<u8>::empty())
            == seq![count, last_byte] + rle_encode_spec(Seq::<u8>::empty()));
        assert(seq![count, last_byte] + rle_encode_spec(Seq::<u8>::empty())
            =~= seq![count, last_byte]);
        assert(encoded@ =~= encoded@.take(encoded@.len() - 2) + seq![count, last_byte]);
        assert(encoded@ =~= rle_encode_spec(data@));
    }
    Ok(encoded)
}

/// Expands each (count, value) pair back into `count` copies of `value`.
pub fn rle_decode(encoded: &[u8]) -> (r: Vec<u8>)
    requires
        encoded.len() % 2 == 0,
    ensures
        r@ == rle_decode_spec(encoded@),
{
    let mut decoded: Vec<u8> = Vec::new();
    let mut i: usize = 0;
    proof {
        assert(encoded@.skip(0) =~= encoded@);
        assert(Seq::<u8>::empty() + rle_decode_spec(encoded@) =~= rle_decode_spec(encoded@));
    }
    while i < encoded.len()
        invariant
            i <= encoded.len(),
            i % 2 == 0,
            encoded.len() % 2 == 0,
            rle_decode_spec(encoded@) == decoded@ + rle_decode_spec(encoded@.skip(i as int)),
        decreases encoded.len() - i,
    {
        let ghost rest = encoded@.skip(i as int);
        let count = encoded[i];
        let value = encoded[i + 1];
        proof {
            assert(rest[0] == count);
            assert(rest[1] == value);
            assert(rest.skip(2) =~= encoded@.skip(i + 2));
        }
        let ghost before = decoded@;
        let mut j: u8 = 0;
        while j < count
            invariant
                j <= count,
                decoded@ == before + rep_byte(value, j as nat),
            decreases count - j,
        {
            decoded.push(value);
            proof {
                assert(before + rep_byte(value, j as nat) + seq![value]
                    =~= before + rep_byte(value, (j + 1) as nat));
            }
            j = j + 1;
        }
        proof {
            assert(decoded@ + rle_decode_spec(encoded@.skip(i + 2))
                =~= before + (rep_byte(value, count as nat) + rle_decode_spec(rest.skip(2))));
        }
        i = i + 2;
    }
    proof {
        assert(encoded@.skip(encoded.len() as int) =~= Seq::<u8>::empty());
        assert(decoded@ =~= rle_decode_spec(encoded@));
    }
    decoded
}

/// Decoding a flushed run recovers the run itself followed by the decoding
/// of whatever was encoded after it.
proof fn lemma_rle_run_decode(count: int, b: u8, rest: Seq<u8>)
    requires
        1 <= count <= 255,
    ensures
        rle_decode_spec(rle_encode_run(count, b, rest)) == rep_byte(b, count as nat) + rest,
    decreases rest.len(), 1int,
{
    if rest.len() > 0 && rest[0] == b && count < 255 {
        lemma_rle_run_decode(count + 1, b, rest.skip(1));
        assert(rep_byte(b, (count + 1) as nat) + rest.skip(1)
            =~= rep_byte(b, count as nat) + rest);
    } else if rest.len() > 0 && rest[0] == b {
        lemma_rle_run_decode(1, b, rest.skip(1));
        let enc = seq![255u8, b] + rle_encode_run(1, b, rest.skip(1));
        assert(enc[0] == 255u8);
        assert(enc[1] == b);
        assert(enc.skip(2) =~= rle_encode_run(1, b, rest.skip(1)));
        assert(rep_byte(b, 255) + (rep_byte(b, 1) + rest.skip(1))
            =~= rep_byte(b, count as nat) + rest);
    } else {
        lemma_rle_decode_encode(rest);
        let enc = seq![count as u8, b] + rle_encode_spec(rest);
        assert(enc[0] == count as u8);
        assert(enc[1] == b);
        assert(enc.skip(2) =~= rle_encode_spec(rest));
        if rest.len() == 0 {
            assert(rep_byte(b, count as nat) + rest =~= rep_byte(b, count as nat));
        }
    }
}

/// Decoding inverts encoding at the specification level.
proof fn lemma_rle_decode_encode(data: Seq<u8>)
    ensures
        rle_decode_spec(rle_encode_spec(data)) == data,
    decreases data.len(), 0int,
{
    if data.len() == 0 {
        assert(rle_decode_spec(rle_encode_spec(data)) =~= data);
    } else {
        lemma_rle_run_decode(1, data[0], data.skip(1));
        assert(rep_byte(data[0], 1) + data.skip(1) =~= data);
    }
}

/// A flushed run costs one pair plus at most one pair per remaining byte.
proof fn lemma_rle_run_len(count: int, b: u8, rest: Seq<u8>)
    ensures
        rle_encode_run(count, b, rest).len() <= 2 + 2 * rest.len(),
    decreases rest.len(), 1int,
{
    if rest.len() > 0 && rest[0] == b && count < 255 {
        lemma_rle_run_len(count + 1, b, rest.skip(1));
    } else if rest.len() > 0 && rest[0] == b {
        lemma_rle_run_len(1, b, rest.skip(1));
    } else {
        lemma_rle_encode_len(rest);
    }
}

/// The encoding is at most twice as long as the input.
pub proof fn lemma_rle_encode_len(data: Seq<u8>)
    ensures
        rle_encode_spec(data).len() <= 2 * data.len(),
    decreases data.len(), 0int,
{
    if data.len() > 0 {
        lemma_rle_run_len(1, data[0], data.skip(1));
    }
}

/// A run always flushes at least one pair.
proof fn lemma_rle_run_nonempty(count: int, b: u8, rest: Seq<u8>)
    ensures
        rle_encode_run(count, b, rest).len() >= 2,
    decreases rest.len(),
{
    if rest.len() > 0 && rest[0] == b && count < 255 {
        lemma_rle_run_nonempty(count + 1, b, rest.skip(1));
    }
}

/// A non-empty input encodes to at least one pair.
pub proof fn lemma_rle_encode_nonempty(data: Seq<u8>)
    requires
        data.len() > 0,
    ensures
        rle_encode_spec(data).len() >= 2,
{
    lemma_rle_run_nonempty(1, data[0], data.skip(1));
}

/// The encoded stream is a whole number of (count, value) pairs.
proof fn lemma_rle_run_even(count: int, b: u8, rest: Seq<u8>)
    ensures
        rle_encode_run(count, b, rest).len() % 2 == 0,
    decreases rest.len(), 1int,
{
    if rest.len() > 0 && rest[0] == b && count < 255 {
        lemma_rle_run_even(count + 1, b, rest.skip(1));
    } else if rest.len() > 0 && rest[0] == b {
        lemma_rle_run_even(1, b, rest.skip(1));
    } else {
        lemma_rle_encode_even(rest);
    }
}

/// Run-length output always has even length.
pub proof fn lemma_rle_encode_even(data: Seq<u8>)
    ensures
        rle_encode_spec(data).len() % 2 == 0,
    decreases data.len(), 0int,
{
    if data.len() > 0 {
        lemma_rle_run_even(1, data[0], data.skip(1));
    }
}

/// The run-length involution: expanding the encoded pairs reproduces the
/// original bytes, for every input and in particular for runs longer
/// than 255.
pub proof fn lemma_rle_round_trip(data: Seq<u8>)
    ensures
        rle_decode_spec(rle_encode_spec(data)) == data,
{
    lemma_rle_decode_encode(data);
}

} // verus!
