//! Variable-length integer coding for the stream envelopes.
//!
//! An unsigned value is carried little-endian in groups of seven bits,
//! the high bit of each byte marking a continuation.  Encoding is
//! canonical: the final byte is never a lone zero continuation, so each
//! value has exactly one encoding and decoding is its inverse.

use vstd::prelude::*;

verus! {

/// The canonical encoding of `value`.
pub open spec fn varint_bytes(value: u64) -> Seq<u8>
    decreases value,
{
    if value < 0x80 {
        seq![value as u8]
    } else {
        seq![(value % 0x80 + 0x80) as u8] + varint_bytes(value / 0x80)
    }
}

/// The value and encoded length of the canonical varint at the front of
/// `s`, or `None` when no canonical varint starts there.
pub open spec fn varint_decode(s: Seq<u8>) -> Option<(u64, int)>
    decreases s.len(),
{
    if s.len() == 0 {
        None
    } else if s[0] < 0x80 {
        Some((s[0] as u64, 1))
    } else {
        match varint_decode(s.skip(1)) {
            Option::None => None,
            Option::Some((v, n)) => {
                if v >= 1 && (s[0] - 0x80) + 0x80 * (v as int) <= u64::MAX {
                    Some((((s[0] - 0x80) + 0x80 * (v as int)) as u64, n + 1))
                } else {
                    None
                }
            },
        }
    }
}

/// Encoding then decoding yields the value back, whatever follows the
/// encoding in the buffer.
pub proof fn lemma_varint_round_trip(value: u64, rest: Seq<u8>)
    ensures
        varint_decode(varint_bytes(value) + rest) == Some::<(u64, int)>(
            (value, varint_bytes(value).len() as int),
        ),
    decreases value,
{
    if value < 0x80 {
        assert(varint_bytes(value) + rest =~= seq![value as u8] + rest);
        assert((seq![value as u8] + rest)[0] == value as u8);
    } else {
        let head: u8 = (value % 0x80 + 0x80) as u8;
        let tail = value / 0x80;
        lemma_varint_round_trip(tail, rest);
        let s = varint_bytes(value) + rest;
        assert(s =~= seq![head] + (varint_bytes(tail) + rest));
        assert(s[0] == head);
        assert(s.skip(1) =~= varint_bytes(tail) + rest);
        assert(tail >= 1);
        assert((head - 0x80) + 0x80 * (tail as int) == value);
    }
}

/// Decoding is sound: whatever decodes was the canonical encoding of
/// the value.
pub proof fn lemma_varint_decode_sound(s: Seq<u8>)
    ensures
        match varint_decode(s) {
            Option::Some(vn) => varint_bytes(vn.0) == s.take(vn.1),
            Option::None => true,
        },
    decreases s.len(),
{
    if s.len() == 0 {
    } else if s[0] < 0x80 {
        assert(s.take(1) =~= seq![s[0]]);
        assert(varint_bytes(s[0] as u64) =~= seq![s[0]]);
    } else {
        lemma_varint_decode_sound(s.skip(1));
        lemma_varint_decode_len(s.skip(1));
        match varint_decode(s.skip(1)) {
            Option::None => {},
            Option::Some((v2, n2)) => {
                if v2 >= 1 && (s[0] - 0x80) + 0x80 * (v2 as int) <= u64::MAX {
                    let v: u64 = ((s[0] - 0x80) + 0x80 * (v2 as int)) as u64;
                    vstd::arithmetic::div_mod::lemma_fundamental_div_mod_converse(
                        v as int,
                        0x80,
                        v2 as int,
                        s[0] - 0x80,
                    );
                    assert(v % 0x80 == s[0] - 0x80 && v / 0x80 == v2);
                    assert(v >= 0x80);
                    assert(varint_bytes(v) == seq![s[0]] + varint_bytes(v2));
                    assert(varint_bytes(v2) == s.skip(1).take(n2));
                    assert(seq![s[0]] + s.skip(1).take(n2) =~= s.take(n2 + 1));
                }
            },
        }
    }
}

/// A decoded varint occupies at least one byte and at most the whole
/// buffer.
pub proof fn lemma_varint_decode_len(s: Seq<u8>)
    ensures
        match varint_decode(s) {
            Option::Some(vn) => 1 <= vn.1 <= s.len(),
            Option::None => true,
        },
    decreases s.len(),
{
    if s.len() > 0 && s[0] >= 0x80 {
        lemma_varint_decode_len(s.skip(1));
    }
}

/// Relies on prost's `encode_varint`: it appends the canonical
/// little-endian base-128 encoding of `value` to the buffer.
#[verifier::external_body]
fn prost_varint(value: u64) -> (r: Vec<u8>)
    ensures
        r@ == varint_bytes(value),
{
    let mut buf: Vec<u8> = Vec::new();
    prost::encoding::encode_varint(value, &mut buf);
    buf
}

/// Append the canonical encoding of `value` to `out`.
pub fn write_varint(out: &mut Vec<u8>, value: u64)
    ensures
        final(out)@ == old(out)@ + varint_bytes(value),
{
    let enc = prost_varint(value);
    out.extend_from_slice(enc.as_slice());
}

/// Decode the canonical varint starting at `pos`, returning its value
/// and the position just past it.
pub fn read_varint(data: &[u8], pos: usize) -> (r: Option<(u64, usize)>)
    requires
        pos <= data@.len(),
    ensures
        match varint_decode(data@.skip(pos as int)) {
            Option::Some(vn) => r matches Some(p) && p.0 == vn.0 && p.1 == pos + vn.1 && pos + vn.1
                <= data@.len(),
            Option::None => r is None,
        },
    decreases data@.len() - pos,
{
    if pos == data.len() {
        return None;
    }
    let b = data[pos];
    if b < 0x80 {
        Some((b as u64, pos + 1))
    } else {
        proof {
            assert(data@.skip(pos as int).skip(1) =~= data@.skip(pos as int + 1));
        }
        match read_varint(data, pos + 1) {
            None => None,
            Some((v, q)) => {
                if v >= 1 && v <= (u64::MAX - ((b - 0x80) as u64)) / 0x80 {
                    Some(((b - 0x80) as u64 + 0x80 * v, q))
                } else {
                    None
                }
            },
        }
    }
}

} // verus!
