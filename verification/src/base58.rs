//! Base-58 rendering of byte strings.
//!
//! Addresses, signatures and block hashes are displayed in base-58:
//! one leading `1` per leading zero byte, then the big-endian base-58
//! digits of the value of the remaining bytes.  The encoder is proved
//! against that arithmetic description, so the console and the log
//! file show the same characters for the same bytes.

use vstd::prelude::*;

use crate::text::push_char;

verus! {

/// The value of a byte string read as one big-endian number.
pub open spec fn be_val(s: Seq<u8>) -> nat
    decreases s.len(),
{
    if s.len() == 0 {
        0
    } else {
        (be_val(s.drop_last()) * 256 + s.last()) as nat
    }
}

/// The little-endian base-58 digits of a number; none for zero.
pub open spec fn b58_digits(n: nat) -> Seq<int>
    decreases n,
{
    if n == 0 {
        Seq::empty()
    } else {
        seq![n as int % 58] + b58_digits(n / 58)
    }
}

/// The base-58 digit characters, in digit order.
pub open spec fn b58_alphabet() -> Seq<char> {
    seq![
        '1', '2', '3', '4', '5', '6', '7', '8', '9', 'A', 'B', 'C', 'D', 'E', 'F', 'G', 'H', 'J',
        'K', 'L', 'M', 'N', 'P', 'Q', 'R', 'S', 'T', 'U', 'V', 'W', 'X', 'Y', 'Z', 'a', 'b', 'c',
        'd', 'e', 'f', 'g', 'h', 'i', 'j', 'k', 'm', 'n', 'o', 'p', 'q', 'r', 's', 't', 'u', 'v',
        'w', 'x', 'y', 'z',
    ]
}

/// How many zero bytes open the string.
pub open spec fn leading_zeros(s: Seq<u8>) -> nat
    decreases s.len(),
{
    if s.len() == 0 || s[0] != 0 {
        0
    } else {
        (1 + leading_zeros(s.skip(1))) as nat
    }
}

/// The base-58 rendering of a byte string: a `1` for each leading zero
/// byte, then the digits of its value, most significant first.
pub open spec fn base58_of(s: Seq<u8>) -> Seq<char> {
    Seq::new(leading_zeros(s), |i: int| '1') + b58_digits(be_val(s)).reverse().map_values(
        |d: int| b58_alphabet()[d],
    )
}

/// A byte string is worth zero exactly when all its bytes are zero.
proof fn lemma_be_val_zero(s: Seq<u8>)
    ensures
        be_val(s) == 0 <==> (forall|i: int| 0 <= i < s.len() ==> s[i] == 0),
    decreases s.len(),
{
    if s.len() > 0 {
        lemma_be_val_zero(s.drop_last());
        if be_val(s) == 0 {
            assert(be_val(s.drop_last()) == 0 && s.last() == 0);
            assert(forall|i: int| 0 <= i < s.len() - 1 ==> s[i] == s.drop_last()[i]);
        } else {
            if forall|i: int| 0 <= i < s.len() ==> s[i] == 0 {
                assert(forall|i: int| 0 <= i < s.len() - 1 ==> s.drop_last()[i] == s[i]);
                assert(be_val(s.drop_last()) == 0);
                assert(s.last() == 0);
                assert(false);
            }
        }
    }
}

/// Appending a byte multiplies the value by 256 and adds the byte.
proof fn lemma_be_val_snoc(s: Seq<u8>, i: int)
    requires
        0 <= i < s.len(),
    ensures
        be_val(s.take(i + 1)) == be_val(s.take(i)) * 256 + s[i],
{
    assert(s.take(i + 1).drop_last() =~= s.take(i));
    assert(s.take(i + 1).last() == s[i]);
}

/// One long-division pass: divide the byte string by 58, returning the
/// quotient bytes and the remainder digit.
fn divmod58(bytes: &Vec<u8>) -> (r: (Vec<u8>, u64))
    ensures
        r.0@.len() == bytes@.len(),
        be_val(r.0@) == be_val(bytes@) / 58,
        r.1 == be_val(bytes@) % 58,
        r.1 < 58,
{
    let n = bytes.len();
    let mut quot: Vec<u8> = Vec::new();
    let mut rem: u64 = 0;
    let mut i: usize = 0;
    proof {
        assert(bytes@.take(0) =~= Seq::<u8>::empty());
        assert(quot@.take(0) =~= Seq::<u8>::empty());
    }
    while i < n
        invariant
            i <= n,
            n == bytes@.len(),
            quot@.len() == i,
            rem < 58,
            be_val(bytes@.take(i as int)) == be_val(quot@) * 58 + rem,
        decreases n - i,
    {
        let ghost old_quot = quot@;
        let ghost old_rem = rem;
        let b = bytes[i];
        let cur: u64 = rem * 256 + (b as u64);
        let q: u64 = cur / 58;
        rem = cur % 58;
        quot.push(q as u8);
        proof {
            lemma_be_val_snoc(bytes@, i as int);
            assert(quot@ =~= old_quot.push(q as u8));
            assert(quot@.drop_last() =~= old_quot);
            assert(q < 256) by {
                assert(cur < 58 * 256);
            };
            assert(quot@.last() == q as u8);
            assert(be_val(quot@) == be_val(old_quot) * 256 + q);
            assert(be_val(bytes@.take(i + 1)) == be_val(quot@) * 58 + rem) by {
                assert(be_val(bytes@.take(i + 1)) == (be_val(old_quot) * 58 + old_rem) * 256
                    + b);
                assert(cur == q * 58 + rem);
                assert((be_val(old_quot) * 58 + old_rem) * 256 + b == (be_val(old_quot) * 256 + q)
                    * 58 + rem) by (nonlinear_arith)
                    requires
                        cur == q * 58 + rem,
                        cur == old_rem * 256 + b,
                ;
            };
        }
        i = i + 1;
    }
    proof {
        assert(bytes@.take(n as int) =~= bytes@);
        vstd::arithmetic::div_mod::lemma_fundamental_div_mod_converse(
            be_val(bytes@) as int,
            58,
            be_val(quot@) as int,
            rem as int,
        );
    }
    (quot, rem)
}

/// Whether every byte is zero.
fn all_zero(bytes: &Vec<u8>) -> (r: bool)
    ensures
        r == (be_val(bytes@) == 0),
{
    let n = bytes.len();
    let mut i: usize = 0;
    while i < n
        invariant
            i <= n,
            n == bytes@.len(),
            forall|j: int| 0 <= j < i ==> bytes@[j] == 0,
        decreases n - i,
    {
        if bytes[i] != 0 {
            proof {
                lemma_be_val_zero(bytes@);
            }
            return false;
        }
        i = i + 1;
    }
    proof {
        lemma_be_val_zero(bytes@);
    }
    true
}

/// Count the zero bytes opening the string.
fn count_leading_zeros(bytes: &Vec<u8>) -> (r: usize)
    ensures
        r == leading_zeros(bytes@),
{
    let n = bytes.len();
    let mut i: usize = 0;
    proof {
        assert(bytes@.skip(0) =~= bytes@);
    }
    while i < n
        invariant
            i <= n,
            n == bytes@.len(),
            leading_zeros(bytes@) == i + leading_zeros(bytes@.skip(i as int)),
            forall|j: int| 0 <= j < i ==> bytes@[j] == 0,
        decreases n - i,
    {
        let ghost tail = bytes@.skip(i as int);
        proof {
            assert(tail[0] == bytes@[i as int]);
            assert(tail.skip(1) =~= bytes@.skip(i as int + 1));
        }
        if bytes[i] != 0 {
            return i;
        }
        i = i + 1;
    }
    proof {
        assert(bytes@.skip(n as int) =~= Seq::<u8>::empty());
    }
    n
}

/// Render a byte string in base-58.
pub fn base58_encode(bytes: &Vec<u8>) -> (r: String)
    ensures
        r@ == base58_of(bytes@),
{
    let ghost v0 = be_val(bytes@);
    let zeros = count_leading_zeros(bytes);
    // little-endian digits of the value, by repeated division
    let mut digits: Vec<u64> = Vec::new();
    let mut cur: Vec<u8> = bytes.clone();
    proof {
        assert(digits@.map_values(|d: u64| d as int) =~= Seq::<int>::empty());
        assert(b58_digits(v0) =~= Seq::<int>::empty() + b58_digits(be_val(cur@)));
    }
    while !all_zero(&cur)
        invariant
            b58_digits(v0) == digits@.map_values(|d: u64| d as int) + b58_digits(be_val(cur@)),
            forall|j: int| 0 <= j < digits@.len() ==> 0 <= #[trigger] digits@[j] < 58,
        decreases be_val(cur@),
    {
        let ghost dv = digits@.map_values(|d: u64| d as int);
        let (q, d) = divmod58(&cur);
        digits.push(d);
        proof {
            assert(be_val(cur@) > 0);
            assert(b58_digits(be_val(cur@)) == seq![be_val(cur@) as int % 58] + b58_digits(
                be_val(cur@) / 58,
            ));
            assert(digits@.map_values(|x: u64| x as int) =~= dv + seq![d as int]);
            assert(dv + (seq![d as int] + b58_digits(be_val(q@))) =~= (dv + seq![d as int])
                + b58_digits(be_val(q@)));
        }
        cur = q;
    }
    proof {
        assert(b58_digits(be_val(cur@)) =~= Seq::<int>::empty());
        assert(digits@.map_values(|d: u64| d as int) + Seq::<int>::empty() =~= digits@.map_values(
            |d: u64| d as int,
        ));
        assert(b58_digits(v0) == digits@.map_values(|d: u64| d as int));
    }
    // leading zero bytes, then the digits most significant first
    let mut out = String::new();
    let mut i: usize = 0;
    while i < zeros
        invariant
            i <= zeros,
            zeros == leading_zeros(bytes@),
            out@ =~= Seq::new(i as nat, |k: int| '1'),
        decreases zeros - i,
    {
        push_char(&mut out, '1');
        proof {
            assert(out@ =~= Seq::new(i as nat + 1, |k: int| '1'));
        }
        i = i + 1;
    }
    let alphabet = "123456789ABCDEFGHJKLMNPQRSTUVWXYZabcdefghijkmnopqrstuvwxyz";
    proof {
        reveal_strlit("123456789ABCDEFGHJKLMNPQRSTUVWXYZabcdefghijkmnopqrstuvwxyz");
        assert(alphabet@ =~= b58_alphabet());
        assert(alphabet.is_ascii());
    }
    let ghost dseq = digits@.map_values(|d: u64| d as int);
    let mut k: usize = digits.len();
    proof {
        assert(dseq.reverse().take(0) =~= Seq::<int>::empty());
        assert(out@ =~= Seq::new(zeros as nat, |j: int| '1') + dseq.reverse().take(
            0,
        ).map_values(|d: int| b58_alphabet()[d]));
    }
    while k > 0
        invariant
            k <= digits@.len(),
            dseq == digits@.map_values(|d: u64| d as int),
            forall|j: int| 0 <= j < digits@.len() ==> 0 <= #[trigger] digits@[j] < 58,
            zeros == leading_zeros(bytes@),
            alphabet@ == b58_alphabet(),
            alphabet.is_ascii(),
            out@ == Seq::new(zeros as nat, |j: int| '1') + dseq.reverse().take(
                digits@.len() - k,
            ).map_values(|d: int| b58_alphabet()[d]),
        decreases k,
    {
        let ghost done = digits@.len() - k;
        let d = digits[k - 1];
        let c = alphabet.get_char(d as usize);
        proof {
            assert(dseq.reverse()[done] == dseq[k - 1] as int);
            assert(c == b58_alphabet()[d as int]);
        }
        push_char(&mut out, c);
        proof {
            assert(dseq.reverse().take(done + 1).map_values(|x: int| b58_alphabet()[x])
                =~= dseq.reverse().take(done).map_values(|x: int| b58_alphabet()[x]).push(c));
            assert(out@ =~= Seq::new(zeros as nat, |j: int| '1') + dseq.reverse().take(
                done + 1,
            ).map_values(|x: int| b58_alphabet()[x]));
        }
        k = k - 1;
    }
    proof {
        assert(dseq.reverse().take(digits@.len() as int) =~= dseq.reverse());
        assert(out@ =~= base58_of(bytes@));
    }
    out
}

} // verus!
