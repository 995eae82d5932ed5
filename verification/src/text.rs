//! Small text building blocks: decimal rendering and JSON string
//! escaping.

use vstd::prelude::*;

verus! {

/// The character of one decimal digit.
pub open spec fn digit_char(d: nat) -> char {
    if d == 0 {
        '0'
    } else if d == 1 {
        '1'
    } else if d == 2 {
        '2'
    } else if d == 3 {
        '3'
    } else if d == 4 {
        '4'
    } else if d == 5 {
        '5'
    } else if d == 6 {
        '6'
    } else if d == 7 {
        '7'
    } else if d == 8 {
        '8'
    } else {
        '9'
    }
}

/// The decimal digits of a number, empty for zero.
pub open spec fn dec_rec(n: nat) -> Seq<char>
    decreases n,
{
    if n == 0 {
        Seq::empty()
    } else {
        dec_rec(n / 10) + seq![digit_char(n % 10)]
    }
}

/// The decimal rendering of a number.
pub open spec fn decimal_of(n: nat) -> Seq<char> {
    if n == 0 {
        seq!['0']
    } else {
        dec_rec(n)
    }
}

/// Relies on `String::push`: it appends one character at the end.
#[verifier::external_body]
pub(crate) fn push_char(s: &mut String, c: char)
    ensures
        final(s)@ == old(s)@.push(c),
{
    s.push(c);
}

/// The digit character of `d`.
fn digit_char_exec(d: u64) -> (c: char)
    requires
        d < 10,
    ensures
        c == digit_char(d as nat),
{
    if d == 0 {
        '0'
    } else if d == 1 {
        '1'
    } else if d == 2 {
        '2'
    } else if d == 3 {
        '3'
    } else if d == 4 {
        '4'
    } else if d == 5 {
        '5'
    } else if d == 6 {
        '6'
    } else if d == 7 {
        '7'
    } else if d == 8 {
        '8'
    } else {
        '9'
    }
}

/// Render a number in decimal.
pub fn u64_to_string(n: u64) -> (r: String)
    ensures
        r@ == decimal_of(n as nat),
{
    if n == 0 {
        let mut out = String::new();
        push_char(&mut out, '0');
        proof {
            assert(out@ =~= seq!['0']);
        }
        return out;
    }
    let mut chars: Vec<char> = Vec::new();
    let mut m: u64 = n;
    proof {
        assert(dec_rec(n as nat) =~= dec_rec(m as nat) + chars@);
    }
    while m > 0
        invariant
            dec_rec(n as nat) == dec_rec(m as nat) + chars@,
        decreases m,
    {
        let ghost old_chars = chars@;
        let d = digit_char_exec(m % 10);
        chars.insert(0, d);
        proof {
            assert(chars@ =~= seq![d] + old_chars);
            assert(dec_rec(m as nat) == dec_rec(m as nat / 10) + seq![digit_char(
                m as nat % 10,
            )]);
            assert(dec_rec(m as nat / 10) + (seq![d] + old_chars) =~= (dec_rec(m as nat / 10)
                + seq![d]) + old_chars);
            assert(m as nat / 10 == (m / 10) as nat);
        }
        m = m / 10;
    }
    proof {
        assert(dec_rec(0nat) =~= Seq::<char>::empty());
        assert(Seq::<char>::empty() + chars@ =~= chars@);
    }
    let mut out = String::new();
    let len = chars.len();
    let mut i: usize = 0;
    while i < len
        invariant
            i <= len,
            len == chars@.len(),
            out@ == chars@.take(i as int),
        decreases len - i,
    {
        push_char(&mut out, chars[i]);
        proof {
            assert(chars@.take(i as int + 1) =~= chars@.take(i as int).push(chars@[i as int]));
        }
        i = i + 1;
    }
    proof {
        assert(chars@.take(len as int) =~= chars@);
    }
    out
}

/// A decimal digit character.
pub open spec fn is_digit(c: char) -> bool {
    '0' <= c && c <= '9'
}

/// Whether the whole string is decimal digits.
pub open spec fn all_digits(s: Seq<char>) -> bool {
    forall|i: int| 0 <= i < s.len() ==> is_digit(#[trigger] s[i])
}

/// The number a digit string denotes.
pub open spec fn dec_val(s: Seq<char>) -> nat
    decreases s.len(),
{
    if s.len() == 0 {
        0
    } else {
        (dec_val(s.drop_last()) * 10 + (s.last() as u32 - 48)) as nat
    }
}

/// A longer digit prefix never denotes a smaller number.
proof fn lemma_dec_val_grows(s: Seq<char>, i: int)
    requires
        all_digits(s),
        0 <= i <= s.len(),
    ensures
        dec_val(s.take(i)) <= dec_val(s),
    decreases s.len() - i,
{
    if i < s.len() {
        lemma_dec_val_grows(s, i + 1);
        assert(s.take(i + 1).drop_last() =~= s.take(i));
        assert(s.take(i + 1).last() == s[i]);
        assert(dec_val(s.take(i)) * 10 >= dec_val(s.take(i)));
    } else {
        assert(s.take(i) =~= s);
    }
}

/// Parse a whole string as a decimal number: digits only, nothing
/// else, and the value must fit.
pub fn parse_u64(s: &str) -> (r: Option<u64>)
    ensures
        match r {
            Option::Some(v) => s@.len() > 0 && all_digits(s@) && v == dec_val(s@),
            Option::None => s@.len() == 0 || !all_digits(s@) || dec_val(s@) > u64::MAX,
        },
{
    let len = s.unicode_len();
    if len == 0 {
        return None;
    }
    let mut acc: u64 = 0;
    let mut i: usize = 0;
    proof {
        assert(s@.take(0) =~= Seq::<char>::empty());
    }
    while i < len
        invariant
            i <= len,
            len == s@.len(),
            all_digits(s@.take(i as int)),
            acc == dec_val(s@.take(i as int)),
        decreases len - i,
    {
        let c = s.get_char(i);
        if !(c >= '0' && c <= '9') {
            proof {
                assert(!is_digit(s@[i as int]));
            }
            return None;
        }
        let d: u64 = (c as u32 as u64) - 48;
        proof {
            assert(s@.take(i as int + 1).drop_last() =~= s@.take(i as int));
            assert(s@.take(i as int + 1).last() == s@[i as int]);
        }
        if acc > (u64::MAX - d) / 10 {
            proof {
                assert(dec_val(s@.take(i as int + 1)) > u64::MAX);
                if all_digits(s@) {
                    lemma_dec_val_grows(s@, i as int + 1);
                    assert(dec_val(s@) > u64::MAX);
                }
            }
            return None;
        }
        acc = acc * 10 + d;
        i = i + 1;
    }
    proof {
        assert(s@.take(len as int) =~= s@);
    }
    Some(acc)
}

/// Collect characters into a string.
pub(crate) fn chars_to_string(chars: &Vec<char>) -> (r: String)
    ensures
        r@ == chars@,
{
    let mut out = String::new();
    let len = chars.len();
    let mut i: usize = 0;
    while i < len
        invariant
            i <= len,
            len == chars@.len(),
            out@ == chars@.take(i as int),
        decreases len - i,
    {
        push_char(&mut out, chars[i]);
        proof {
            assert(chars@.take(i as int + 1) =~= chars@.take(i as int).push(chars@[i as int]));
        }
        i = i + 1;
    }
    proof {
        assert(chars@.take(len as int) =~= chars@);
    }
    out
}

/// The escaping of one character inside a JSON string: quote and
/// backslash take a leading backslash, everything else stands as it
/// is.
pub open spec fn escape_char(c: char) -> Seq<char> {
    if c == '"' || c == '\\' {
        seq!['\\', c]
    } else {
        seq![c]
    }
}

/// A string body as it stands between the quotes of a JSON string.
pub open spec fn json_escape(s: Seq<char>) -> Seq<char>
    decreases s.len(),
{
    if s.len() == 0 {
        Seq::empty()
    } else {
        escape_char(s[0]) + json_escape(s.skip(1))
    }
}

/// Appending the escaping of a prefix and of the character after it
/// yields the escaping of the longer prefix.
proof fn lemma_json_escape_snoc(s: Seq<char>, i: int)
    requires
        0 <= i < s.len(),
    ensures
        json_escape(s.take(i + 1)) == json_escape(s.take(i)) + escape_char(s[i]),
    decreases i,
{
    if i == 0 {
        assert(s.take(1)[0] == s[0]);
        assert(s.take(1).skip(1) =~= Seq::<char>::empty());
        assert(s.take(0) =~= Seq::<char>::empty());
        assert(json_escape(s.take(1)) == escape_char(s[0]) + json_escape(
            Seq::<char>::empty(),
        ));
        assert(escape_char(s[0]) + Seq::<char>::empty() =~= escape_char(s[0]));
        assert(json_escape(s.take(0)) + escape_char(s[0]) =~= escape_char(s[0]));
    } else {
        lemma_json_escape_snoc(s.skip(1), i - 1);
        assert(s.take(i + 1)[0] == s[0]);
        assert(s.take(i + 1).skip(1) =~= s.skip(1).take(i));
        assert(s.take(i)[0] == s[0]);
        assert(s.take(i).skip(1) =~= s.skip(1).take(i - 1));
        assert(s.skip(1)[i - 1] == s[i]);
        assert(json_escape(s.take(i + 1)) == escape_char(s[0]) + json_escape(s.skip(1).take(i)));
        assert(escape_char(s[0]) + (json_escape(s.skip(1).take(i - 1)) + escape_char(s[i]))
            =~= (escape_char(s[0]) + json_escape(s.skip(1).take(i - 1))) + escape_char(s[i]));
    }
}

/// Append `s`, escaped for the inside of a JSON string, to `out`.
pub fn append_json_escaped(out: &mut String, s: &str)
    ensures
        final(out)@ == old(out)@ + json_escape(s@),
{
    let len = s.unicode_len();
    let mut i: usize = 0;
    proof {
        assert(s@.take(0) =~= Seq::<char>::empty());
        assert(json_escape(s@.take(0)) =~= Seq::<char>::empty());
        assert(out@ + Seq::<char>::empty() =~= out@);
    }
    while i < len
        invariant
            i <= len,
            len == s@.len(),
            out@ == old(out)@ + json_escape(s@.take(i as int)),
        decreases len - i,
    {
        let c = s.get_char(i);
        if c == '"' || c == '\\' {
            push_char(out, '\\');
        }
        push_char(out, c);
        proof {
            lemma_json_escape_snoc(s@, i as int);
            assert(out@ =~= old(out)@ + json_escape(s@.take(i as int + 1)));
        }
        i = i + 1;
    }
    proof {
        assert(s@.take(len as int) =~= s@);
    }
}

} // verus!
