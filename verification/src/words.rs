//! Little-endian words, and the hexadecimal round trip through which the
//! session log reader decodes them.

use vstd::prelude::*;

verus! {

/// The lowercase hexadecimal digit of a value below sixteen.
pub open spec fn hex_digit(n: int) -> char {
    if n == 0 { '0' } else if n == 1 { '1' } else if n == 2 { '2' } else if n == 3 { '3' }
    else if n == 4 { '4' } else if n == 5 { '5' } else if n == 6 { '6' } else if n == 7 { '7' }
    else if n == 8 { '8' } else if n == 9 { '9' } else if n == 10 { 'a' } else if n == 11 { 'b' }
    else if n == 12 { 'c' } else if n == 13 { 'd' } else if n == 14 { 'e' } else { 'f' }
}

/// Whether `c` is a hexadecimal digit, of either case.
pub open spec fn is_hex_digit(c: char) -> bool {
    ('0' <= c && c <= '9') || ('a' <= c && c <= 'f') || ('A' <= c && c <= 'F')
}

/// The value of a hexadecimal digit.
pub open spec fn digit_value(c: char) -> int {
    if '0' <= c && c <= '9' {
        c as int - '0' as int
    } else if 'a' <= c && c <= 'f' {
        c as int - 'a' as int + 10
    } else {
        c as int - 'A' as int + 10
    }
}

/// Whether every character of `s` is a hexadecimal digit.
pub open spec fn all_hex_digits(s: Seq<char>) -> bool {
    forall|i: int| 0 <= i < s.len() ==> #[trigger] is_hex_digit(s[i])
}

/// The number that the hexadecimal digits `s` denote, most significant first.
pub open spec fn hex_value(s: Seq<char>) -> int
    decreases s.len(),
{
    if s.len() == 0 {
        0
    } else {
        hex_value(s.drop_last()) * 16 + digit_value(s.last())
    }
}

/// Lowercase hexadecimal text of `bytes`: two digits per byte, high nibble first.
pub open spec fn hex_text(bytes: Seq<u8>) -> Seq<char>
    decreases bytes.len(),
{
    if bytes.len() == 0 {
        Seq::empty()
    } else {
        hex_text(bytes.drop_last()) + seq![hex_digit(bytes.last() as int / 16), hex_digit(bytes.last() as int % 16)]
    }
}

/// The number that `bytes` denote read as a big-endian integer.
pub open spec fn be_value(bytes: Seq<u8>) -> int
    decreases bytes.len(),
{
    if bytes.len() == 0 {
        0
    } else {
        be_value(bytes.drop_last()) * 256 + bytes.last()
    }
}

/// The little-endian 32-bit word that starts at byte `pos` of `bytes`.
pub open spec fn word_at(bytes: Seq<u8>, pos: int) -> int {
    bytes[pos] + 256 * bytes[pos + 1] + 65536 * bytes[pos + 2] + 16777216 * bytes[pos + 3]
}

/// `hex::encode`: lowercase hexadecimal text of the bytes, two digits per
/// byte with the high nibble first (the table `0123456789abcdef` indexed by
/// `byte >> 4`, then by `byte & 0x0f`).
#[verifier::external_body]
pub(crate) fn hex_encode(bytes: &[u8]) -> (res: String)
    ensures
        res@ == hex_text(bytes@),
{
    hex::encode(bytes)
}

/// `u32::from_str_radix(s, 16)`, with its error dropped. Stated: an empty
/// string is refused, and a non-empty string of hexadecimal digits gives its
/// value exactly when that value fits in a `u32`. Strings holding a leading
/// `+` or any other character are left unstated.
#[verifier::external_body]
pub(crate) fn u32_from_hex(s: &str) -> (res: Option<u32>)
    ensures
        s@.len() == 0 ==> res is None,
        s@.len() > 0 && all_hex_digits(s@) ==> res == (if hex_value(s@) <= u32::MAX {
            Some(hex_value(s@) as u32)
        } else {
            None::<u32>
        }),
{
    u32::from_str_radix(s, 16).ok()
}

/// Every digit of a hexadecimal text is a digit, and reading it back gives
/// the big-endian value of the bytes.
pub proof fn lemma_hex_text_value(bytes: Seq<u8>)
    ensures
        hex_text(bytes).len() == 2 * bytes.len(),
        all_hex_digits(hex_text(bytes)),
        hex_value(hex_text(bytes)) == be_value(bytes),
    decreases bytes.len(),
{
    if bytes.len() > 0 {
        let init = bytes.drop_last();
        let b: u8 = bytes.last();
        lemma_hex_text_value(init);
        let hi = hex_digit(b as int / 16);
        let lo = hex_digit(b as int % 16);
        let t = hex_text(bytes);
        assert(t == hex_text(init) + seq![hi, lo]);
        assert(t.drop_last() == hex_text(init).push(hi));
        assert(t.drop_last().drop_last() == hex_text(init));
        assert(digit_value(hi) == b / 16);
        assert(digit_value(lo) == b % 16);
        assert(t.drop_last().last() == hi);
        assert(t.last() == lo);
        assert(hex_value(t.drop_last()) == hex_value(hex_text(init)) * 16 + digit_value(hi));
        assert(hex_value(t) == hex_value(t.drop_last()) * 16 + digit_value(lo));
        assert(be_value(bytes) == be_value(init) * 256 + b);
        assert forall|i: int| 0 <= i < t.len() implies #[trigger] is_hex_digit(t[i]) by {
            if i < hex_text(init).len() {
                assert(t[i] == hex_text(init)[i]);
            }
        }
    }
}

/// Four bytes read in reverse as a big-endian number are the little-endian word.
pub proof fn lemma_reversed_word(bytes: Seq<u8>, pos: int)
    requires
        0 <= pos,
        pos + 4 <= bytes.len(),
    ensures
        be_value(seq![bytes[pos + 3], bytes[pos + 2], bytes[pos + 1], bytes[pos]]) == word_at(bytes, pos),
        0 <= word_at(bytes, pos) <= u32::MAX,
{
    let s = seq![bytes[pos + 3], bytes[pos + 2], bytes[pos + 1], bytes[pos]];
    assert(s.drop_last() == seq![bytes[pos + 3], bytes[pos + 2], bytes[pos + 1]]);
    assert(s.drop_last().drop_last() == seq![bytes[pos + 3], bytes[pos + 2]]);
    assert(s.drop_last().drop_last().drop_last() == seq![bytes[pos + 3]]);
    assert(s.drop_last().drop_last().drop_last().drop_last() == Seq::<u8>::empty());
    assert(be_value(s.drop_last().drop_last().drop_last().drop_last()) == 0);
    assert(be_value(s.drop_last().drop_last().drop_last()) == bytes[pos + 3] as int);
    assert(be_value(s.drop_last().drop_last()) == bytes[pos + 3] * 256 + bytes[pos + 2]);
    assert(be_value(s.drop_last()) == (bytes[pos + 3] * 256 + bytes[pos + 2]) * 256 + bytes[pos + 1]);
    assert(be_value(s) == ((bytes[pos + 3] * 256 + bytes[pos + 2]) * 256 + bytes[pos + 1]) * 256 + bytes[pos]);
}

/// Reads the little-endian word at `pos` the way the session log reader
/// does: the four bytes reversed, written out as hexadecimal text, and that
/// text parsed back as a hexadecimal number.
pub fn read_u32(bytes: &[u8], pos: usize) -> (res: u32)
    requires
        pos + 4 <= bytes.len(),
    ensures
        res == word_at(bytes@, pos as int),
{
    let reversed: Vec<u8> = vec![bytes[pos + 3], bytes[pos + 2], bytes[pos + 1], bytes[pos]];
    let text = hex_encode(reversed.as_slice());
    proof {
        lemma_hex_text_value(reversed@);
        lemma_reversed_word(bytes@, pos as int);
        assert(reversed@ == seq![bytes@[pos + 3], bytes@[pos + 2], bytes@[pos + 1], bytes@[pos as int]]);
    }
    let value = u32_from_hex(text.as_str());
    value.unwrap()
}

} // verus!
