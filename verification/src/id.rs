//! Deterministic registration identifiers.
//!
//! An identifier is a 64-character lowercase hexadecimal string derived
//! from the persisted `(seed, counter)` pair.  The derivation mixes the
//! counter into four 64-bit words; because the counter can be recovered
//! from two of the words, identifiers generated under one seed never
//! collide, whatever the counter values.

use vstd::prelude::*;

verus! {

/// Salt mixed into the word that carries the counter's high half.
pub const SALT_HI: u64 = 0x9e3779b97f4a7c15;

/// Salt mixed into the word that carries the counter's low half.
pub const SALT_LO: u64 = 0x6a09e667f3bcc908;

/// High 64 bits of a 128-bit value.
pub open spec fn u128_hi(x: u128) -> u64 {
    (x >> 64) as u64
}

/// Low 64 bits of a 128-bit value.
pub open spec fn u128_lo(x: u128) -> u64 {
    x as u64
}

/// Byte `i` (big-endian, `0 <= i < 8`) of a 64-bit word.
pub open spec fn be_byte(w: u64, i: int) -> u8 {
    (w >> ((8 * (7 - i)) as u64)) as u8
}

/// The eight bytes of a 64-bit word, most significant first.
pub open spec fn be_bytes8(w: u64) -> Seq<u8> {
    Seq::new(8, |i: int| be_byte(w, i))
}

/// The 32-byte preimage of an identifier: four mixed words.
pub open spec fn id_bytes(seed: u128, counter: u128) -> Seq<u8> {
    be_bytes8(u128_hi(seed) ^ u128_lo(counter)) + be_bytes8(u128_lo(seed) ^ u128_hi(counter))
        + be_bytes8(u128_hi(counter) ^ SALT_HI) + be_bytes8(u128_lo(counter) ^ SALT_LO)
}

/// The lowercase hexadecimal digit for a nibble.
pub open spec fn hex_digit(n: u8) -> char
    recommends
        n < 16,
{
    if n == 0 {
        '0'
    } else if n == 1 {
        '1'
    } else if n == 2 {
        '2'
    } else if n == 3 {
        '3'
    } else if n == 4 {
        '4'
    } else if n == 5 {
        '5'
    } else if n == 6 {
        '6'
    } else if n == 7 {
        '7'
    } else if n == 8 {
        '8'
    } else if n == 9 {
        '9'
    } else if n == 10 {
        'a'
    } else if n == 11 {
        'b'
    } else if n == 12 {
        'c'
    } else if n == 13 {
        'd'
    } else if n == 14 {
        'e'
    } else {
        'f'
    }
}

/// Lowercase hexadecimal encoding of a byte sequence: two digits per byte,
/// high nibble first.
pub open spec fn hex_of(b: Seq<u8>) -> Seq<char>
    decreases b.len(),
{
    if b.len() == 0 {
        Seq::empty()
    } else {
        hex_of(b.drop_last()) + seq![hex_digit(b.last() >> 4), hex_digit(b.last() & 0xf)]
    }
}

/// The identifier emitted for a `(seed, counter)` pair.
pub open spec fn id_chars(seed: u128, counter: u128) -> Seq<char> {
    hex_of(id_bytes(seed, counter))
}

pub proof fn lemma_hex_of_len(b: Seq<u8>)
    ensures
        hex_of(b).len() == 2 * b.len(),
    decreases b.len(),
{
    if b.len() > 0 {
        lemma_hex_of_len(b.drop_last());
    }
}

proof fn lemma_hex_digit_inj(a: u8, b: u8)
    requires
        a < 16,
        b < 16,
        hex_digit(a) == hex_digit(b),
    ensures
        a == b,
{
}

proof fn lemma_hex_of_inj(a: Seq<u8>, b: Seq<u8>)
    requires
        a.len() == b.len(),
        hex_of(a) == hex_of(b),
    ensures
        a == b,
    decreases a.len(),
{
    if a.len() > 0 {
        lemma_hex_of_len(a.drop_last());
        lemma_hex_of_len(b.drop_last());
        let ha = hex_of(a.drop_last());
        let hb = hex_of(b.drop_last());
        let n = ha.len() as int;
        assert(hex_of(a)[n] == hex_digit(a.last() >> 4));
        assert(hex_of(a)[n + 1] == hex_digit(a.last() & 0xf));
        assert(hex_of(b)[n] == hex_digit(b.last() >> 4));
        assert(hex_of(b)[n + 1] == hex_digit(b.last() & 0xf));
        let x = a.last();
        let y = b.last();
        assert(x >> 4 < 16 && x & 0xf < 16 && y >> 4 < 16 && y & 0xf < 16) by (bit_vector);
        lemma_hex_digit_inj(x >> 4, y >> 4);
        lemma_hex_digit_inj(x & 0xf, y & 0xf);
        assert(x == y) by (bit_vector)
            requires
                x >> 4 == y >> 4,
                x & 0xf == y & 0xf,
        ;
        assert(ha =~= hex_of(a).subrange(0, n));
        assert(hb =~= hex_of(b).subrange(0, n));
        lemma_hex_of_inj(a.drop_last(), b.drop_last());
        assert forall|i: int| 0 <= i < a.len() implies a[i] == b[i] by {
            if i < a.len() - 1 {
                assert(a.drop_last()[i] == b.drop_last()[i]);
            }
        }
        assert(a =~= b);
    } else {
        assert(a =~= b);
    }
}

pub proof fn lemma_be_bytes8_inj(x: u64, y: u64)
    requires
        be_bytes8(x) == be_bytes8(y),
    ensures
        x == y,
{
    assert forall|i: int| 0 <= i < 8 implies be_byte(x, i) == be_byte(y, i) by {
        assert(be_bytes8(x)[i] == be_byte(x, i));
        assert(be_bytes8(y)[i] == be_byte(y, i));
        assert(be_bytes8(x)[i] == be_bytes8(y)[i]);
    }
    assert(be_byte(x, 7) == be_byte(y, 7));
    assert(be_byte(x, 6) == be_byte(y, 6));
    assert(be_byte(x, 5) == be_byte(y, 5));
    assert(be_byte(x, 4) == be_byte(y, 4));
    assert(be_byte(x, 3) == be_byte(y, 3));
    assert(be_byte(x, 2) == be_byte(y, 2));
    assert(be_byte(x, 1) == be_byte(y, 1));
    assert(be_byte(x, 0) == be_byte(y, 0));
    assert(x == y) by (bit_vector)
        requires
            (x >> 56u64) as u8 == (y >> 56u64) as u8,
            (x >> 48u64) as u8 == (y >> 48u64) as u8,
            (x >> 40u64) as u8 == (y >> 40u64) as u8,
            (x >> 32u64) as u8 == (y >> 32u64) as u8,
            (x >> 24u64) as u8 == (y >> 24u64) as u8,
            (x >> 16u64) as u8 == (y >> 16u64) as u8,
            (x >> 8u64) as u8 == (y >> 8u64) as u8,
            (x >> 0u64) as u8 == (y >> 0u64) as u8,
    ;
}

/// Identifiers generated under one seed are collision-free: distinct
/// counter values always give distinct identifiers.
pub proof fn lemma_id_collision_free(seed: u128, c1: u128, c2: u128)
    requires
        c1 != c2,
    ensures
        id_chars(seed, c1) != id_chars(seed, c2),
{
    if id_chars(seed, c1) == id_chars(seed, c2) {
        let b1 = id_bytes(seed, c1);
        let b2 = id_bytes(seed, c2);
        lemma_hex_of_inj(b1, b2);
        let wc1 = be_bytes8(u128_hi(c1) ^ SALT_HI);
        let wd1 = be_bytes8(u128_lo(c1) ^ SALT_LO);
        let wc2 = be_bytes8(u128_hi(c2) ^ SALT_HI);
        let wd2 = be_bytes8(u128_lo(c2) ^ SALT_LO);
        assert(wc1 =~= b1.subrange(16, 24));
        assert(wd1 =~= b1.subrange(24, 32));
        assert(wc2 =~= b2.subrange(16, 24));
        assert(wd2 =~= b2.subrange(24, 32));
        lemma_be_bytes8_inj(u128_hi(c1) ^ SALT_HI, u128_hi(c2) ^ SALT_HI);
        lemma_be_bytes8_inj(u128_lo(c1) ^ SALT_LO, u128_lo(c2) ^ SALT_LO);
        let s_hi = SALT_HI;
        let s_lo = SALT_LO;
        assert(c1 == c2) by (bit_vector)
            requires
                ((c1 >> 64) as u64) ^ s_hi == ((c2 >> 64) as u64) ^ s_hi,
                (c1 as u64) ^ s_lo == (c2 as u64) ^ s_lo,
        ;
    }
}

/// Appends the big-endian bytes of one word.
pub fn push_word_be(out: &mut Vec<u8>, w: u64)
    ensures
        final(out)@ == old(out)@ + be_bytes8(w),
{
    let mut i: usize = 0;
    while i < 8
        invariant
            i <= 8,
            out@ == old(out)@ + Seq::new(i as nat, |j: int| be_byte(w, j)),
        decreases 8 - i,
    {
        let sh: u64 = (8 * (7 - i)) as u64;
        out.push((w >> sh) as u8);
        i = i + 1;
        assert(out@ =~= old(out)@ + Seq::new(i as nat, |j: int| be_byte(w, j)));
    }
    assert(Seq::new(8nat, |j: int| be_byte(w, j)) =~= be_bytes8(w));
}

/// Relies on `hex::encode`: two lowercase hexadecimal digits per byte, high
/// nibble first, in input order.
#[verifier::external_body]
fn hex_encode(bytes: &Vec<u8>) -> (r: String)
    ensures
        r@ == hex_of(bytes@),
{
    hex::encode(bytes.as_slice())
}

/// Emits the identifier for a `(seed, counter)` pair: 64 lowercase
/// hexadecimal characters.
pub fn generate_id(seed: u128, counter: u128) -> (r: String)
    ensures
        r@ == id_chars(seed, counter),
        r@.len() == 64,
{
    let mut bytes: Vec<u8> = Vec::new();
    push_word_be(&mut bytes, ((seed >> 64) as u64) ^ (counter as u64));
    push_word_be(&mut bytes, (seed as u64) ^ ((counter >> 64) as u64));
    push_word_be(&mut bytes, ((counter >> 64) as u64) ^ SALT_HI);
    push_word_be(&mut bytes, (counter as u64) ^ SALT_LO);
    assert(bytes@ =~= id_bytes(seed, counter));
    proof {
        lemma_hex_of_len(id_bytes(seed, counter));
    }
    hex_encode(&bytes)
}

} // verus!
