//! Names of the files and directories a partition lives in.
//!
//! A segment's files are named by its base offset printed as twenty decimal
//! digits, with the extensions `.log` and `.index`; a partition's directory
//! is named by its number. Names are read back the way Rust parses unsigned
//! integers: an optional `+`, then one or more decimal digits, in range.
use vstd::prelude::*;
use vstd::utf8::encode_utf8;
use crate::text::{
    decimal, digit_char, lemma_digit_bytes, lemma_encode_concat, push_decimal, push_str,
    str_bytes, text_from_bytes,
};

verus! {

/// The ASCII code of `+`.
pub const ASCII_PLUS: u8 = 43;

/// The bytes of `.log`.
pub open spec fn log_suffix() -> Seq<u8> {
    seq![46u8, 108u8, 111u8, 103u8]
}

/// Whether every byte is an ASCII decimal digit.
pub open spec fn all_digits(s: Seq<u8>) -> bool {
    forall|i: int| 0 <= i < s.len() ==> 48 <= #[trigger] s[i] <= 57
}

/// The number the decimal digits `s` spell.
pub open spec fn digits_value(s: Seq<u8>) -> nat
    decreases s.len(),
{
    if s.len() == 0 {
        0
    } else {
        digits_value(s.drop_last()) * 10 + (s.last() - 48) as nat
    }
}

/// The number an unsigned decimal spells: an optional `+`, then one or
/// more digits; `None` for anything else.
pub open spec fn unsigned_value(s: Seq<u8>) -> Option<nat> {
    let d = if s.len() > 0 && s[0] == ASCII_PLUS {
        s.drop_first()
    } else {
        s
    };
    if d.len() > 0 && all_digits(d) {
        Some(digits_value(d))
    } else {
        None
    }
}

/// What parsing `s` as an integer of at most `max` gives.
pub open spec fn parse_unsigned(s: Seq<u8>, max: nat) -> Option<nat> {
    match unsigned_value(s) {
        Some(v) => if v <= max {
            Some(v)
        } else {
            None
        },
        None => None,
    }
}

/// A longer run of digits spells a number at least as large.
proof fn lemma_digits_grow(s: Seq<u8>, i: int)
    requires
        0 <= i <= s.len(),
    ensures
        digits_value(s.take(i)) <= digits_value(s),
    decreases s.len() - i,
{
    if i < s.len() {
        lemma_digits_grow(s, i + 1);
        assert(s.take(i + 1).drop_last() =~= s.take(i));
    } else {
        assert(s.take(i) =~= s);
    }
}

/// Parse decimal digits from `start` on as a number of at most `max`.
fn parse_digits(s: &[u8], start: usize, max: u64) -> (r: Option<u64>)
    requires
        start <= s@.len(),
    ensures
        match r {
            Some(v) => s@.skip(start as int).len() > 0 && all_digits(s@.skip(start as int))
                && digits_value(s@.skip(start as int)) == v && v <= max,
            None => !(s@.skip(start as int).len() > 0 && all_digits(s@.skip(start as int))
                && digits_value(s@.skip(start as int)) <= max),
        },
{
    let ghost d = s@.skip(start as int);
    if start == s.len() {
        return None;
    }
    let mut v: u64 = 0;
    let mut i: usize = start;
    proof {
        assert(d.take(0) =~= Seq::<u8>::empty());
    }
    while i < s.len()
        invariant
            start <= i <= s@.len(),
            d == s@.skip(start as int),
            all_digits(d.take(i - start)),
            v == digits_value(d.take(i - start)),
            v <= max,
        decreases s@.len() - i,
    {
        let c = s[i];
        let ghost k = i - start;
        proof {
            assert(d[k] == c);
            assert(d.take(k + 1).drop_last() =~= d.take(k));
            assert(d.take(k + 1).last() == c);
        }
        if c < 48 || c > 57 {
            return None;
        }
        let digit = (c - 48) as u64;
        if digit > max || v > (max - digit) / 10 {
            proof {
                assert(digits_value(d.take(k + 1)) > max) by (nonlinear_arith)
                    requires
                        digits_value(d.take(k + 1)) == v * 10 + digit,
                        digit > max || v > (max - digit) / 10,
                ;
                lemma_digits_grow(d, k + 1);
            }
            return None;
        }
        proof {
            assert(v * 10 + digit <= max) by (nonlinear_arith)
                requires
                    digit <= max,
                    v <= (max - digit) / 10,
            ;
            assert forall|j: int| 0 <= j < k + 1 implies 48 <= #[trigger] d.take(k + 1)[j]
                <= 57 by {
                if j < k {
                    assert(d.take(k + 1)[j] == d.take(k)[j]);
                }
            }
        }
        v = v * 10 + digit;
        i = i + 1;
    }
    proof {
        assert(d.take(i - start) =~= d);
    }
    Some(v)
}

/// Parse an unsigned decimal of at most `max`, as Rust parses unsigned
/// integers: an optional `+`, then one or more digits, in range.
fn parse_unsigned_bytes(s: &[u8], max: u64) -> (r: Option<u64>)
    ensures
        match parse_unsigned(s@, max as nat) {
            Some(v) => r == Some(v as u64),
            None => r is None,
        },
{
    let start: usize = if s.len() > 0 && s[0] == ASCII_PLUS {
        1
    } else {
        0
    };
    proof {
        assert(s@.skip(0) =~= s@);
        assert(s@.skip(1) =~= s@.drop_first());
    }
    parse_digits(s, start, max)
}

/// Parse a string as a `u64`, as `str::parse::<u64>` does.
pub fn parse_u64(s: &str) -> (r: Option<u64>)
    ensures
        match parse_unsigned(str_bytes(s@), u64::MAX as nat) {
            Some(v) => r == Some(v as u64),
            None => r is None,
        },
{
    parse_unsigned_bytes(s.as_bytes(), u64::MAX)
}

/// Parse a string as a `u32`, as `str::parse::<u32>` does.
pub fn parse_u32(s: &str) -> (r: Option<u32>)
    ensures
        match parse_unsigned(str_bytes(s@), u32::MAX as nat) {
            Some(v) => r == Some(v as u32),
            None => r is None,
        },
{
    match parse_unsigned_bytes(s.as_bytes(), u32::MAX as u64) {
        Some(v) => Some(v as u32),
        None => None,
    }
}

/// `n` printed in decimal, padded with leading zeros to twenty digits, as
/// `{:020}` prints it.
pub open spec fn padded_decimal(n: nat) -> Seq<char> {
    let d = decimal(n);
    if d.len() < 20 {
        Seq::new((20 - d.len()) as nat, |i: int| digit_char(0)) + d
    } else {
        d
    }
}

/// Ten to the power `k`.
pub open spec fn pow10(k: nat) -> nat
    decreases k,
{
    if k == 0 {
        1
    } else {
        10 * pow10((k - 1) as nat)
    }
}

/// A number with more than `k` decimal digits, `k` at least 1, is at least
/// 10^k.
proof fn lemma_digits_len_bound(n: nat, k: nat)
    ensures
        k > 0 && decimal(n).len() > k ==> n >= pow10(k),
    decreases n,
{
    if n >= 10 {
        assert(decimal(n).len() == decimal(n / 10).len() + 1);
        if k > 1 {
            lemma_digits_len_bound(n / 10, (k - 1) as nat);
            assert(pow10(k) == 10 * pow10((k - 1) as nat));
        } else if k == 1 {
            assert(pow10(1) == 10 * pow10(0));
        }
    }
}

/// The number of decimal digits of `n`.
fn digit_count(n: u64) -> (r: usize)
    ensures
        r == decimal(n as nat).len(),
        r <= 20,
    decreases n,
{
    if n < 10 {
        1
    } else {
        let c = digit_count(n / 10);
        proof {
            lemma_digits_len_bound((n / 10) as nat, 19);
            reveal_with_fuel(pow10, 20);
            assert(pow10(19) == 10000000000000000000);
        }
        c + 1
    }
}

/// The stem of a segment's file names: its base offset as twenty digits.
pub fn segment_file_stem(base_offset: u64) -> (r: String)
    ensures
        r@ == padded_decimal(base_offset as nat),
{
    let mut b: Vec<u8> = Vec::new();
    let n = digit_count(base_offset);
    let mut i: usize = n;
    let ghost mut zeros: Seq<char> = Seq::empty();
    proof {
        assert(zeros =~= Seq::new(0, |j: int| digit_char(0)));
    }
    while i < 20
        invariant
            n <= i <= 20,
            zeros == Seq::new((i - n) as nat, |j: int| digit_char(0)),
            b@ == encode_utf8(zeros),
        decreases 20 - i,
    {
        b.push(48);
        proof {
            let z2 = Seq::new((i + 1 - n) as nat, |j: int| digit_char(0));
            assert(z2 =~= zeros + seq![digit_char(0)]);
            lemma_encode_concat(zeros, seq![digit_char(0)]);
            lemma_digit_bytes(0);
            zeros = z2;
        }
        i = i + 1;
    }
    push_decimal(&mut b, base_offset);
    proof {
        lemma_encode_concat(zeros, decimal(base_offset as nat));
        assert(zeros + decimal(base_offset as nat) =~= padded_decimal(base_offset as nat));
    }
    text_from_bytes(b, Ghost(padded_decimal(base_offset as nat)))
}

/// The name of a segment's log file: its stem and `.log`.
pub fn log_file_name(base_offset: u64) -> (r: String)
    ensures
        r@ == padded_decimal(base_offset as nat) + ".log"@,
{
    let stem = segment_file_stem(base_offset);
    let mut b: Vec<u8> = Vec::new();
    push_str(&mut b, stem.as_str());
    push_str(&mut b, ".log");
    proof {
        lemma_encode_concat(stem@, ".log"@);
    }
    text_from_bytes(b, Ghost(stem@ + ".log"@))
}

/// The name of a segment's index file: its stem and `.index`.
pub fn index_file_name(base_offset: u64) -> (r: String)
    ensures
        r@ == padded_decimal(base_offset as nat) + ".index"@,
{
    let stem = segment_file_stem(base_offset);
    let mut b: Vec<u8> = Vec::new();
    push_str(&mut b, stem.as_str());
    push_str(&mut b, ".index");
    proof {
        lemma_encode_concat(stem@, ".index"@);
    }
    text_from_bytes(b, Ghost(stem@ + ".index"@))
}

/// The base offset a file name gives, when it names a segment's log: a
/// name longer than `.log` that ends in it, whose stem parses as a `u64`.
pub open spec fn log_file_base(name: Seq<u8>) -> Option<nat> {
    if name.len() > 4 && name.skip(name.len() - 4) == log_suffix() {
        parse_unsigned(name.take(name.len() - 4), u64::MAX as nat)
    } else {
        None
    }
}

/// The base offset of the segment whose log file has this name, or `None`
/// when the name is not that of a segment's log.
pub fn segment_base_from_file_name(name: &str) -> (r: Option<u64>)
    ensures
        match log_file_base(str_bytes(name@)) {
            Some(v) => r == Some(v as u64),
            None => r is None,
        },
{
    let b = name.as_bytes();
    let n = b.len();
    if n <= 4 {
        return None;
    }
    let is_log = b[n - 4] == 46 && b[n - 3] == 108 && b[n - 2] == 111 && b[n - 1] == 103;
    proof {
        let tail = b@.skip(n - 4);
        assert(is_log <==> tail =~= log_suffix()) by {
            assert(tail[0] == b@[n - 4] && tail[1] == b@[n - 3] && tail[2] == b@[n - 2]
                && tail[3] == b@[n - 1]);
        }
    }
    if !is_log {
        return None;
    }
    let stem = crate::wire::copy_range(b, 0, n - 4);
    proof {
        assert(stem@ =~= b@.take(n - 4));
    }
    parse_unsigned_bytes(stem.as_slice(), u64::MAX)
}

} // verus!
