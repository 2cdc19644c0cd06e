//! Unsigned LEB128, the variable-length integers of the WebAssembly binary format.

use vstd::arithmetic::power2;
use vstd::prelude::*;

verus! {

/// Why a LEB128 value could not be read.
#[derive(Debug, Clone, Copy, PartialEq, Eq, Structural)]
pub enum LebError {
    /// The input ended before the last byte of the value.
    UnexpectedEof,
    /// The encoding does not fit the width of the integer.
    Overflow,
}

impl LebError {
    /// What went wrong, in words.
    pub open spec fn text(self) -> Seq<char> {
        match self {
            LebError::UnexpectedEof => "unexpected end of LEB128 value"@,
            LebError::Overflow => "LEB128 value does not fit its width"@,
        }
    }

    /// What went wrong, in words.
    pub fn to_string(&self) -> (r: String)
        ensures
            r@ == self.text(),
    {
        match self {
            LebError::UnexpectedEof => "unexpected end of LEB128 value".to_owned(),
            LebError::Overflow => "LEB128 value does not fit its width".to_owned(),
        }
    }
}

/// The unsigned integer of at most `bits` bits that is encoded in `b` from offset `p` on,
/// with the offset just past its encoding.
///
/// A byte below `0x80` ends the value and must fit `bits`. Any other byte carries the
/// seven low bits of the value, and the bits above them follow as an integer of
/// `bits - 7` bits.
pub open spec fn uint_at(b: Seq<u8>, p: int, bits: nat) -> Result<(nat, int), LebError>
    decreases bits,
{
    if p < 0 || p >= b.len() {
        Err(LebError::UnexpectedEof)
    } else if b[p] < 0x80 {
        if b[p] < power2::pow2(bits) {
            Ok((b[p] as nat, p + 1))
        } else {
            Err(LebError::Overflow)
        }
    } else if bits > 7 {
        match uint_at(b, p + 1, (bits - 7) as nat) {
            Ok((high, q)) => Ok(((b[p] - 0x80 + 0x80 * high) as nat, q)),
            Err(e) => Err(e),
        }
    } else {
        Err(LebError::Overflow)
    }
}

/// A value that is read fits its width, and its encoding is not empty, lies inside the
/// input, and takes at most one byte for each seven bits or part of them.
pub proof fn law_uint_fits_its_width(b: Seq<u8>, p: int, bits: nat)
    ensures
        uint_at(b, p, bits) matches Ok((v, q)) ==> {
            &&& 0 <= p < q <= b.len()
            &&& v < power2::pow2(bits)
            &&& 7 * (q - p - 1) < bits || q == p + 1
        },
    decreases bits,
{
    if 0 <= p < b.len() && b[p] >= 0x80 && bits > 7 {
        law_uint_fits_its_width(b, p + 1, (bits - 7) as nat);
        lemma_pow2_shift_7((bits - 7) as nat);
    }
}

pub(crate) proof fn lemma_pow2_shift_7(n: nat)
    ensures
        power2::pow2(n + 7) == 0x80 * power2::pow2(n),
{
    power2::lemma_pow2_unfold(n + 7);
    power2::lemma_pow2_unfold(n + 6);
    power2::lemma_pow2_unfold(n + 5);
    power2::lemma_pow2_unfold(n + 4);
    power2::lemma_pow2_unfold(n + 3);
    power2::lemma_pow2_unfold(n + 2);
    power2::lemma_pow2_unfold(n + 1);
}

/// The shortest encoding of `v`.
pub open spec fn uint_bytes(v: nat) -> Seq<u8>
    decreases v,
{
    if v < 0x80 {
        seq![v as u8]
    } else {
        seq![(0x80 + v % 0x80) as u8] + uint_bytes(v / 0x80)
    }
}

/// The shortest encoding of a value that fits is read back as that value, whatever
/// surrounds it.
pub proof fn law_uint_reads_back(b: Seq<u8>, p: int, v: nat, bits: nat)
    requires
        v < power2::pow2(bits),
        0 <= p <= p + uint_bytes(v).len() <= b.len(),
        b.subrange(p, p + uint_bytes(v).len()) == uint_bytes(v),
    ensures
        uint_at(b, p, bits) == Ok::<(nat, int), LebError>((v, p + uint_bytes(v).len())),
    decreases v,
{
    let own = uint_bytes(v);
    let n = own.len() as int;
    assert(b[p] == b.subrange(p, p + n)[0]) by {
        assert(n > 0);
    }
    if v >= 0x80 {
        let high = v / 0x80;
        if bits <= 7 {
            power2::lemma2_to64();
            assert(false);
        }
        lemma_pow2_shift_7((bits - 7) as nat);
        assert(b.subrange(p + 1, p + n) =~= b.subrange(p, p + n).subrange(1, n));
        assert(own.subrange(1, n) =~= uint_bytes(high));
        law_uint_reads_back(b, p + 1, high, (bits - 7) as nat);
    }
}

/// Reads an unsigned integer of at most `bits` bits.
fn read_bits(bytes: &[u8], pos: usize, bits: u32) -> (r: Result<(u32, usize), LebError>)
    requires
        bits <= 32,
    ensures
        match uint_at(bytes@, pos as int, bits as nat) {
            Ok((v, q)) => r matches Ok((value, next)) && value == v && next == q,
            Err(e) => r == Err::<(u32, usize), LebError>(e),
        },
    decreases bits,
{
    proof {
        power2::lemma2_to64();
    }
    if pos >= bytes.len() {
        return Err(LebError::UnexpectedEof);
    }
    let byte = bytes[pos];
    if byte < 0x80 {
        proof {
            if bits >= 7 {
                lemma_pow2_shift_7((bits - 7) as nat);
                power2::lemma_pow2_pos((bits - 7) as nat);
            } else {
                vstd::bits::lemma_u32_shl_is_mul(1, bits);
            }
        }
        if bits >= 7 || (byte as u32) < (1u32 << bits) {
            Ok((byte as u32, pos + 1))
        } else {
            Err(LebError::Overflow)
        }
    } else if bits > 7 {
        let (high, next) = read_bits(bytes, pos + 1, bits - 7)?;
        proof {
            law_uint_fits_its_width(bytes@, pos + 1, (bits - 7) as nat);
        }
        Ok(((byte - 0x80) as u32 + 0x80 * high, next))
    } else {
        Err(LebError::Overflow)
    }
}

/// Reads an unsigned 32-bit integer at `*pos` and moves `*pos` past it.
///
/// `*pos` stays where it was when the value cannot be read.
pub fn read_u32(bytes: &[u8], pos: &mut usize) -> (r: Result<u32, LebError>)
    ensures
        match uint_at(bytes@, *old(pos) as int, 32) {
            Ok((v, q)) => r matches Ok(value) && value == v && *final(pos) == q,
            Err(e) => r == Err::<u32, LebError>(e) && *final(pos) == *old(pos),
        },
{
    let (value, next) = read_bits(bytes, *pos, 32)?;
    *pos = next;
    Ok(value)
}

} // verus!
