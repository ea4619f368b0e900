use vstd::prelude::*;
use vstd::utf8::is_ascii_chars;

verus! {

/// The lowercase hexadecimal digit for a value below 16.
pub open spec fn hex_digit(v: u8) -> char {
    if v < 10 {
        (('0' as u8) + v) as char
    } else {
        (('a' as u8) + (v - 10)) as char
    }
}

/// Two lowercase hex digits per byte, high nibble first (the `{:02x}` rendering).
pub open spec fn hex_of(bytes: Seq<u8>) -> Seq<char>
    decreases bytes.len(),
{
    if bytes.len() == 0 {
        Seq::empty()
    } else {
        hex_of(bytes.drop_last()) + seq![hex_digit(bytes.last() / 16), hex_digit(bytes.last() % 16)]
    }
}

fn digit_str(v: u8) -> (s: &'static str)
    requires
        v < 16,
    ensures
        s@ == seq![hex_digit(v)],
{
    let digits = "0123456789abcdef";
    proof {
        reveal_strlit("0123456789abcdef");
    }
    assert(is_ascii_chars(digits@));
    let i = v as usize;
    let d = digits.substring_ascii(i, i + 1);
    d
}

/// Renders bytes as lowercase hexadecimal, two digits per byte.
pub fn to_hex(bytes: &[u8]) -> (s: String)
    ensures
        s@ == hex_of(bytes@),
{
    let mut s = String::new();
    let n = bytes.len();
    for i in 0..n
        invariant
            n == bytes@.len(),
            s@ == hex_of(bytes@.take(i as int)),
    {
        let b = bytes[i];
        let hi = digit_str(b / 16);
        let lo = digit_str(b % 16);
        s.append(hi);
        s.append(lo);
        assert(bytes@.take(i + 1).drop_last() == bytes@.take(i as int));
    }
    assert(bytes@.take(n as int) == bytes@);
    s
}

} // verus!
