//! Streaming CRC-32 (reflected, polynomial 0xEDB88320).

use vstd::prelude::*;

verus! {

/// Reflected form of the CRC-32 generator polynomial.
pub const POLYNOMIAL: u32 = 0xEDB8_8320;

/// Register value before any byte has been folded in.
pub const INITIAL: u32 = 0xFFFF_FFFF;

/// One shift of the register: the low bit leaves, and the polynomial is
/// folded in when that bit was set.
pub open spec fn shift_once(c: u32) -> u32 {
    if c & 1 == 1 {
        (c >> 1) ^ POLYNOMIAL
    } else {
        c >> 1
    }
}

/// `n` successive shifts of the register.
pub open spec fn shift_times(c: u32, n: nat) -> u32
    decreases n,
{
    if n == 0 {
        c
    } else {
        shift_times(shift_once(c), (n - 1) as nat)
    }
}

/// The register after folding in one byte.
pub open spec fn fold_byte(c: u32, b: u8) -> u32 {
    shift_times(c ^ (b as u32), 8)
}

/// The register after folding in `bytes`, first to last.
pub open spec fn fold_bytes(c: u32, bytes: Seq<u8>) -> u32
    decreases bytes.len(),
{
    if bytes.len() == 0 {
        c
    } else {
        fold_byte(fold_bytes(c, bytes.drop_last()), bytes.last())
    }
}

/// The CRC-32 digest of a byte sequence.
pub open spec fn crc32(bytes: Seq<u8>) -> u32 {
    !fold_bytes(INITIAL, bytes)
}

/// The four bytes of a 32-bit value, least significant first: the order in
/// which a word is folded in.
pub open spec fn le_bytes(w: u32) -> Seq<u8> {
    seq![(w & 0xff) as u8, ((w >> 8) & 0xff) as u8, ((w >> 16) & 0xff) as u8, (w >> 24) as u8]
}

/// Folding in `a` and then `b` gives the register that folding in `a + b`
/// gives: the digest does not depend on how the bytes are chunked.
pub proof fn lemma_fold_chunks(c: u32, a: Seq<u8>, b: Seq<u8>)
    ensures
        fold_bytes(c, a + b) == fold_bytes(fold_bytes(c, a), b),
    decreases b.len(),
{
    if b.len() == 0 {
        assert(a + b =~= a);
    } else {
        assert((a + b).drop_last() =~= a + b.drop_last());
        assert((a + b).last() == b.last());
        lemma_fold_chunks(c, a, b.drop_last());
    }
}

/// Folding in four bytes one at a time gives the register that folding in
/// the same four bytes as one buffer gives.
pub proof fn lemma_four_bytes_as_buffer(c: u32, b0: u8, b1: u8, b2: u8, b3: u8)
    ensures
        fold_byte(fold_byte(fold_byte(fold_byte(c, b0), b1), b2), b3) == fold_bytes(
            c,
            seq![b0, b1, b2, b3],
        ),
{
    assert(seq![b0].drop_last() =~= Seq::<u8>::empty());
    assert(fold_bytes(c, Seq::<u8>::empty()) == c);
    assert(seq![b0, b1].drop_last() =~= seq![b0]);
    assert(seq![b0, b1, b2].drop_last() =~= seq![b0, b1]);
    assert(seq![b0, b1, b2, b3].drop_last() =~= seq![b0, b1, b2]);
    assert(fold_bytes(c, seq![b0]) == fold_byte(c, b0));
    assert(fold_bytes(c, seq![b0, b1]) == fold_byte(fold_byte(c, b0), b1));
    assert(fold_bytes(c, seq![b0, b1, b2]) == fold_byte(fold_byte(fold_byte(c, b0), b1), b2));
}

/// Running CRC-32 accumulator.
pub struct Crc32 {
    state: u32,
}

impl View for Crc32 {
    type V = u32;

    /// The shift register.
    closed spec fn view(&self) -> u32 {
        self.state
    }
}

impl Crc32 {
    /// A fresh accumulator, as if no byte had been fed.
    pub fn new() -> (r: Crc32)
        ensures
            r@ == INITIAL,
            r@ == fold_bytes(INITIAL, Seq::empty()),
    {
        Crc32 { state: INITIAL }
    }

    /// Puts the accumulator back into its initial state.
    pub fn reset(&mut self)
        ensures
            final(self)@ == INITIAL,
    {
        self.state = INITIAL;
    }

    /// Folds in one byte.
    pub fn crc32_u8(&mut self, b: u8)
        ensures
            final(self)@ == fold_byte(old(self)@, b),
    {
        let mut c: u32 = self.state ^ (b as u32);
        let mut k: u32 = 0;
        while k < 8
            invariant
                k <= 8,
                shift_times(c, (8 - k) as nat) == fold_byte(old(self)@, b),
            decreases 8 - k,
        {
            c = if c & 1 == 1 {
                (c >> 1) ^ POLYNOMIAL
            } else {
                c >> 1
            };
            k = k + 1;
        }
        self.state = c;
    }

    /// Folds in a 32-bit value, least significant byte first.
    pub fn crc32_u32(&mut self, w: u32)
        ensures
            final(self)@ == fold_bytes(old(self)@, le_bytes(w)),
    {
        let b0 = (w & 0xff) as u8;
        let b1 = ((w >> 8) & 0xff) as u8;
        let b2 = ((w >> 16) & 0xff) as u8;
        let b3 = (w >> 24) as u8;
        self.crc32_u8(b0);
        self.crc32_u8(b1);
        self.crc32_u8(b2);
        self.crc32_u8(b3);
        proof {
            lemma_four_bytes_as_buffer(old(self)@, b0, b1, b2, b3);
        }
    }

    /// Folds in a buffer, first byte to last.
    pub fn crc32_slice(&mut self, data: &[u8])
        ensures
            final(self)@ == fold_bytes(old(self)@, data@),
    {
        let n = data.len();
        let mut i: usize = 0;
        while i < n
            invariant
                n == data@.len(),
                i <= n,
                self@ == fold_bytes(old(self)@, data@.take(i as int)),
            decreases n - i,
        {
            proof {
                assert(data@.take(i + 1).drop_last() =~= data@.take(i as int));
            }
            self.crc32_u8(data[i]);
            i = i + 1;
        }
        proof {
            assert(data@.take(n as int) =~= data@);
        }
    }

    /// The digest of everything folded in so far; the accumulator is left as it is.
    pub fn finish(&self) -> (r: u32)
        ensures
            r == !self@,
    {
        !self.state
    }
}

} // verus!
