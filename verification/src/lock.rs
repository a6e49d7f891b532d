use vstd::prelude::*;

verus! {

/// What one byte of the XOR stream cipher produces: the data byte XOR-ed
/// with the key byte at the same position, the key repeating cyclically.
pub open spec fn xor_stream(data: Seq<u8>, key: Seq<u8>) -> Seq<u8> {
    Seq::new(data.len(), |i: int| data[i] ^ key[i % key.len() as int])
}

/// Applies the repeating-key XOR used by the archive lock: byte `i` of the
/// result is `data[i] ^ key[i % key.len()]`. Applying it twice with the same
/// key restores the input, which is why the same routine both locks and
/// unlocks an archive.
pub fn operation_xor(data: &[u8], key: &[u8]) -> (r: Vec<u8>)
    requires
        key.len() > 0,
    ensures
        r@ == xor_stream(data@, key@),
{
    let mut out: Vec<u8> = Vec::new();
    let mut i: usize = 0;
    while i < data.len()
        invariant
            key.len() > 0,
            i <= data.len(),
            out@ =~= xor_stream(data@, key@).take(i as int),
        decreases data.len() - i,
    {
        out.push(data[i] ^ key[i % key.len()]);
        i = i + 1;
    }
    assert(out@ =~= xor_stream(data@, key@));
    out
}

/// XOR with the same key twice gives the original data back: the lock and
/// unlock operations are inverses.
pub proof fn lemma_xor_involution(data: Seq<u8>, key: Seq<u8>)
    requires
        key.len() > 0,
    ensures
        xor_stream(xor_stream(data, key), key) == data,
{
    let once = xor_stream(data, key);
    let twice = xor_stream(once, key);
    assert forall|i: int| 0 <= i < data.len() implies twice[i] == data[i] by {
        let k = key[i % key.len() as int];
        let d = data[i];
        assert((d ^ k) ^ k == d) by (bit_vector);
    }
    assert(twice =~= data);
}

} // verus!
