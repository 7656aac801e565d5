//! UTF-8 text: turning checked bytes into `String`s.
use vstd::prelude::*;
use vstd::utf8::*;

verus! {

/// Calls `String::from_utf8`. As std documents, it succeeds exactly when the
/// bytes are valid UTF-8, and the string it returns holds those bytes, that
/// is, the characters they decode to.
#[verifier::external_body]
pub fn string_from_utf8(bytes: Vec<u8>) -> (r: Option<String>)
    ensures
        r is Some <==> valid_utf8(bytes@),
        r matches Some(s) ==> s@ == decode_utf8(bytes@),
{
    match String::from_utf8(bytes) {
        Ok(s) => Some(s),
        Err(_) => None,
    }
}

/// The UTF-8 bytes of a string.
pub open spec fn str_bytes(s: Seq<char>) -> Seq<u8> {
    encode_utf8(s)
}

/// A copy of the UTF-8 bytes of `s`.
pub fn string_bytes(s: &String) -> (r: Vec<u8>)
    ensures
        r@ == str_bytes(s@),
{
    let b = s.as_str().as_bytes();
    let mut r: Vec<u8> = Vec::new();
    crate::wire::put_slice(&mut r, b);
    r
}

/// Decoding the UTF-8 bytes of a string gives the string back.
pub proof fn lemma_str_bytes_round_trip(s: Seq<char>)
    ensures
        valid_utf8(str_bytes(s)),
        decode_utf8(str_bytes(s)) == s,
{
    encode_utf8_valid_utf8(s);
    encode_utf8_decode_utf8(s);
}

} // verus!

verus! {

/// The character of a decimal digit.
pub open spec fn digit_char(d: nat) -> char {
    (48 + d) as char
}

/// Encoding a digit gives its single ASCII byte.
pub(crate) proof fn lemma_digit_bytes(d: nat)
    requires
        d < 10,
    ensures
        encode_utf8(seq![digit_char(d)]) == seq![(48 + d) as u8],
{
    let c = digit_char(d);
    assert(c as u32 == 48 + d);
    let v = (48 + d) as u32;
    assert(has_width_1_encoding(v));
    assert((v & 0x7F) as u8 == v as u8) by (bit_vector)
        requires
            v <= 0x7F,
    ;
    assert(seq![c].drop_first() =~= Seq::<char>::empty());
    assert(encode_utf8(Seq::<char>::empty()) == Seq::<u8>::empty());
    assert(encode_scalar(v) == seq![(48 + d) as u8]);
    assert(encode_utf8(seq![c]) == encode_scalar(v) + Seq::<u8>::empty());
    assert(encode_scalar(v) + Seq::<u8>::empty() =~= seq![(48 + d) as u8]);
}

} // verus!

verus! {

/// The UTF-8 bytes of two runs of characters, one after the other.
pub proof fn lemma_encode_concat(a: Seq<char>, b: Seq<char>)
    ensures
        encode_utf8(a + b) == encode_utf8(a) + encode_utf8(b),
    decreases a.len(),
{
    if a.len() == 0 {
        assert(a + b =~= b);
        assert(encode_utf8(a) + encode_utf8(b) =~= encode_utf8(b));
    } else {
        lemma_encode_concat(a.drop_first(), b);
        assert((a + b).drop_first() =~= a.drop_first() + b);
        assert((a + b)[0] == a[0]);
        assert(encode_utf8(a + b) =~= encode_utf8(a) + encode_utf8(b));
    }
}

/// The decimal digits of `n`, most significant first, as `{}` prints it.
pub open spec fn decimal(n: nat) -> Seq<char>
    decreases n,
{
    if n < 10 {
        seq![digit_char(n)]
    } else {
        decimal(n / 10).push(digit_char(n % 10))
    }
}

/// The character of a hexadecimal digit, in upper case.
pub open spec fn hex_char(d: nat) -> char {
    if d < 10 {
        (48 + d) as char
    } else {
        (55 + d) as char
    }
}

/// A byte as two upper-case hexadecimal digits, as `{:02X}` prints it.
pub open spec fn hex_byte(b: u8) -> Seq<char> {
    seq![hex_char(b as nat / 16), hex_char(b as nat % 16)]
}

/// Append the UTF-8 bytes of a string slice.
pub(crate) fn push_str(dst: &mut Vec<u8>, s: &str)
    ensures
        final(dst)@ == old(dst)@ + encode_utf8(s@),
{
    crate::wire::put_slice(dst, s.as_bytes());
}

/// Append the decimal digits of `n`.
pub(crate) fn push_decimal(dst: &mut Vec<u8>, n: u64)
    ensures
        final(dst)@ == old(dst)@ + encode_utf8(decimal(n as nat)),
    decreases n,
{
    let ghost start = dst@;
    if n >= 10 {
        push_decimal(dst, n / 10);
    }
    let d = n % 10;
    let ghost mid = dst@;
    dst.push((48 + d) as u8);
    proof {
        lemma_digit_bytes(d as nat);
        if n >= 10 {
            lemma_encode_concat(decimal((n / 10) as nat), seq![digit_char(d as nat)]);
            assert(decimal(n as nat) == decimal((n / 10) as nat) + seq![digit_char(d as nat)]);
            assert(dst@ =~= start + encode_utf8(decimal(n as nat)));
        } else {
            assert(dst@ =~= start + encode_utf8(decimal(n as nat)));
        }
    }
}

/// Encoding a hexadecimal digit gives its single ASCII byte.
proof fn lemma_hex_bytes(d: nat)
    requires
        d < 16,
    ensures
        encode_utf8(seq![hex_char(d)]) == seq![(if d < 10 { 48 + d } else { 55 + d }) as u8],
{
    let c = hex_char(d);
    let v = (if d < 10 { 48 + d } else { 55 + d }) as u32;
    assert(c as u32 == v);
    assert(has_width_1_encoding(v));
    assert((v & 0x7F) as u8 == v as u8) by (bit_vector)
        requires
            v <= 0x7F,
    ;
    assert(seq![c].drop_first() =~= Seq::<char>::empty());
    assert(encode_utf8(Seq::<char>::empty()) == Seq::<u8>::empty());
    assert(encode_utf8(seq![c]) == encode_scalar(v) + Seq::<u8>::empty());
    assert(encode_scalar(v) + Seq::<u8>::empty() =~= seq![v as u8]);
}

/// The byte of an upper-case hexadecimal digit.
fn hex_digit_byte(d: u8) -> (r: u8)
    requires
        d < 16,
    ensures
        seq![r] == encode_utf8(seq![hex_char(d as nat)]),
{
    proof {
        lemma_hex_bytes(d as nat);
    }
    if d < 10 {
        48 + d
    } else {
        55 + d
    }
}

/// Append a byte as two upper-case hexadecimal digits.
pub(crate) fn push_hex_byte(dst: &mut Vec<u8>, b: u8)
    ensures
        final(dst)@ == old(dst)@ + encode_utf8(hex_byte(b)),
{
    let hi = hex_digit_byte(b / 16);
    let lo = hex_digit_byte(b % 16);
    dst.push(hi);
    dst.push(lo);
    proof {
        let h = hex_char(b as nat / 16);
        let l = hex_char(b as nat % 16);
        lemma_encode_concat(seq![h], seq![l]);
        assert(hex_byte(b) =~= seq![h] + seq![l]);
        assert(final(dst)@ =~= old(dst)@ + encode_utf8(hex_byte(b)));
    }
}

/// The string whose UTF-8 bytes are `bytes`, which encode `chars`.
pub(crate) fn text_from_bytes(bytes: Vec<u8>, Ghost(chars): Ghost<Seq<char>>) -> (r: String)
    requires
        bytes@ == encode_utf8(chars),
    ensures
        r@ == chars,
{
    proof {
        encode_utf8_valid_utf8(chars);
        encode_utf8_decode_utf8(chars);
    }
    match string_from_utf8(bytes) {
        Some(s) => s,
        None => String::new(),
    }
}

} // verus!
