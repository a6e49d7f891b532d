use vstd::prelude::*;
use vstd::arithmetic::power2::pow2;
use vstd::arithmetic::power2::lemma2_to64;

verus! {

// ---------------------------------------------------------------------------
// Bit streams.
//
// Both codecs emit bits one at a time and pack them into bytes most
// significant bit first. A bit sequence is a `Seq<u8>` whose entries are 0
// or 1.
// ---------------------------------------------------------------------------

/// Every entry is 0 or 1.
pub open spec fn is_bit_seq(s: Seq<u8>) -> bool {
    forall|i: int| 0 <= i < s.len() ==> s[i] == 0 || #[trigger] s[i] == 1
}

/// The value of up to eight bits read most significant first.
pub open spec fn bits_val(bits: Seq<u8>) -> int
    decreases bits.len(),
{
    if bits.len() == 0 {
        0
    } else {
        bits_val(bits.drop_last()) * 2 + bits.last()
    }
}

/// Bits packed into bytes most significant bit first; a final partial byte
/// is padded with zero bits on the right.
pub open spec fn pack_bytes(bits: Seq<u8>) -> Seq<u8>
    decreases bits.len(),
{
    if bits.len() >= 8 {
        seq![bits_val(bits.take(8)) as u8] + pack_bytes(bits.skip(8))
    } else if bits.len() > 0 {
        seq![(bits_val(bits) * pow2((8 - bits.len()) as nat)) as u8]
    } else {
        Seq::empty()
    }
}

/// How many padding bits the final byte carries.
pub open spec fn pad_len(bits: Seq<u8>) -> int {
    if bits.len() % 8 == 0 {
        0
    } else {
        8 - bits.len() % 8
    }
}

/// The packed bytes followed by one byte recording the padding width.
pub open spec fn pack_with_pad(bits: Seq<u8>) -> Seq<u8> {
    pack_bytes(bits) + seq![pad_len(bits) as u8]
}

/// Bit `k` (most significant first) of a byte.
pub open spec fn bit_of(byte: u8, k: int) -> u8 {
    (((byte as int) / (pow2((7 - k) as nat) as int)) % 2) as u8
}

/// The bit stream spelled by a byte sequence, most significant bit first.
pub open spec fn unpack_bits(bytes: Seq<u8>) -> Seq<u8> {
    Seq::new(bytes.len() * 8, |i: int| bit_of(bytes[i / 8], i % 8))
}

/// Packing distributes over concatenation at byte boundaries.
pub proof fn lemma_pack_append(a: Seq<u8>, b: Seq<u8>)
    requires
        a.len() % 8 == 0,
    ensures
        pack_bytes(a + b) == pack_bytes(a) + pack_bytes(b),
    decreases a.len(),
{
    if a.len() == 0 {
        assert(a + b =~= b);
        assert(pack_bytes(a) + pack_bytes(b) =~= pack_bytes(b));
    } else {
        assert((a + b).take(8) =~= a.take(8));
        assert((a + b).skip(8) =~= a.skip(8) + b);
        lemma_pack_append(a.skip(8), b);
        assert(pack_bytes(a + b) =~= pack_bytes(a) + pack_bytes(b));
    }
}

/// A bounded bit run has a bounded value.
pub proof fn lemma_bits_val_bound(bits: Seq<u8>)
    requires
        is_bit_seq(bits),
    ensures
        0 <= bits_val(bits) < pow2(bits.len() as nat),
    decreases bits.len(),
{
    if bits.len() == 0 {
        assert(pow2(0) == 1) by {
            lemma2_to64();
        }
    } else {
        vstd::arithmetic::power2::lemma_pow2_unfold(bits.len() as nat);
        assert(is_bit_seq(bits.drop_last()));
        lemma_bits_val_bound(bits.drop_last());
    }
}

/// `2^e` for the byte-internal exponents, as an executable value.
pub fn pow2_u8(e: usize) -> (r: u8)
    requires
        e < 8,
    ensures
        r as int == pow2(e as nat),
        r >= 1,
{
    proof {
        lemma2_to64();
    }
    if e == 0 {
        1
    } else if e == 1 {
        2
    } else if e == 2 {
        4
    } else if e == 3 {
        8
    } else if e == 4 {
        16
    } else if e == 5 {
        32
    } else if e == 6 {
        64
    } else {
        128
    }
}

/// Copies a byte vector. Used where a code needs to be extended without
/// disturbing the stored table.
pub fn copy_bytes(v: &Vec<u8>) -> (r: Vec<u8>)
    ensures
        r@ == v@,
{
    let mut out: Vec<u8> = Vec::new();
    let mut i: usize = 0;
    while i < v.len()
        invariant
            i <= v.len(),
            out@ =~= v@.take(i as int),
        decreases v.len() - i,
    {
        out.push(v[i]);
        i = i + 1;
    }
    assert(out@ =~= v@);
    out
}

/// Byte-vector equality.
pub fn bytes_equal(a: &Vec<u8>, b: &Vec<u8>) -> (r: bool)
    ensures
        r == (a@ == b@),
{
    if a.len() != b.len() {
        return false;
    }
    let mut i: usize = 0;
    while i < a.len()
        invariant
            i <= a.len(),
            a@.len() == b@.len(),
            forall|m: int| 0 <= m < i ==> a@[m] == b@[m],
        decreases a.len() - i,
    {
        if a[i] != b[i] {
            return false;
        }
        i = i + 1;
    }
    proof {
        assert(a@ =~= b@);
    }
    true
}

} // verus!
