//! Text helpers: UTF-8 conversion, hexadecimal and trimming.

use vstd::prelude::*;

use super::bytes;

verus! {

/// `String::push`: the character is appended.
pub assume_specification[ String::push ](s: &mut String, c: char)
    ensures
        final(s)@ == old(s)@.push(c),
;

/// `String::pop`: the last character is removed and returned.
pub assume_specification[ String::pop ](s: &mut String) -> (r: Option<char>)
    ensures
        old(s)@.len() == 0 ==> r is None && final(s)@ == old(s)@,
        old(s)@.len() > 0 ==> r == Some(old(s)@.last()) && final(s)@ == old(s)@.drop_last(),
;

/// `String::from_utf8`: the text, exactly if the bytes are valid UTF-8.
#[verifier::external_body]
pub(crate) fn from_utf8(data: Vec<u8>) -> (r: Option<String>)
    ensures
        r is Some <==> vstd::utf8::valid_utf8(data@),
        r is Some ==> r->Some_0@ == vstd::utf8::decode_utf8(data@),
{
    String::from_utf8(data).ok()
}

/// The text that `String::from_utf8_lossy` makes of any bytes.
pub uninterp spec fn lossy_text(data: Seq<u8>) -> Seq<char>;

/// `String::from_utf8_lossy`, named by [`lossy_text`]: valid UTF-8 is decoded
/// unchanged. How invalid bytes are replaced is left unsaid.
#[verifier::external_body]
pub(crate) fn from_utf8_lossy(data: &[u8]) -> (r: String)
    ensures
        r@ == lossy_text(data@),
        vstd::utf8::valid_utf8(data@) ==> r@ == vstd::utf8::decode_utf8(data@),
{
    String::from_utf8_lossy(data).to_string()
}

/// A text survives the trip through its UTF-8 bytes.
pub proof fn lemma_text_round_trip(s: Seq<char>)
    ensures
        vstd::utf8::valid_utf8(bytes::text(s)),
        vstd::utf8::decode_utf8(bytes::text(s)) == s,
{
    vstd::utf8::encode_utf8_valid_utf8(s);
    vstd::utf8::encode_utf8_decode_utf8(s);
}

/// Texts with the same UTF-8 bytes are the same.
pub proof fn lemma_text_injective(a: Seq<char>, b: Seq<char>)
    requires
        bytes::text(a) == bytes::text(b),
    ensures
        a == b,
{
    lemma_text_round_trip(a);
    lemma_text_round_trip(b);
}

/// The value of an optional text.
pub open spec fn opt_text(s: Option<String>) -> Option<Seq<char>> {
    match s {
        Some(t) => Some(t@),
        None => None,
    }
}

/// A text without its last character.
pub open spec fn popped(s: Seq<char>) -> Seq<char> {
    if s.len() == 0 {
        s
    } else {
        s.drop_last()
    }
}

/// Removes the last character, if there is one.
pub fn erase_last(s: &mut String)
    ensures
        final(s)@ == popped(old(s)@),
{
    let _ = s.pop();
}

/// Two texts one after the other.
pub fn concat(a: &str, b: &str) -> (r: String)
    ensures
        r@ == a@ + b@,
{
    let mut out = a.to_owned();
    out.append(b);
    out
}

/// Whether two texts are the same.
pub fn same_text(a: &str, b: &str) -> (r: bool)
    ensures
        r == (a@ == b@),
{
    let r = bytes::same_bytes(a.as_bytes(), b.as_bytes());
    proof {
        if r {
            lemma_text_injective(a@, b@);
        }
    }
    r
}

// ---------------------------------------------------------------------
// White space
// ---------------------------------------------------------------------

/// Whether `c` is white space, as Unicode defines it.
pub open spec fn is_space(c: char) -> bool {
    let n = c as u32;
    9 <= n <= 13 || n == 0x20 || n == 0x85 || n == 0xA0 || n == 0x1680 || 0x2000 <= n <= 0x200A
        || n == 0x2028 || n == 0x2029 || n == 0x202F || n == 0x205F || n == 0x3000
}

/// Whether `c` is white space.
pub fn is_white_space(c: char) -> (r: bool)
    ensures
        r == is_space(c),
{
    let n: u32 = c as u32;
    (9 <= n && n <= 13) || n == 0x20 || n == 0x85 || n == 0xA0 || n == 0x1680 || (0x2000 <= n && n
        <= 0x200A) || n == 0x2028 || n == 0x2029 || n == 0x202F || n == 0x205F || n == 0x3000
}

/// A text without the white space at both ends.
pub open spec fn trimmed(s: Seq<char>) -> Seq<char>
    decreases s.len(),
{
    if s.len() == 0 {
        s
    } else if is_space(s[0]) {
        trimmed(s.drop_first())
    } else if is_space(s.last()) {
        trimmed(s.drop_last())
    } else {
        s
    }
}

/// The text without the white space at both ends.
pub fn trim(s: &str) -> (r: &str)
    ensures
        r@ == trimmed(s@),
{
    let mut from: usize = 0;
    let mut to: usize = s.unicode_len();
    assert(s@.subrange(0, to as int) =~= s@);
    while from < to && is_white_space(s.get_char(from))
        invariant
            from <= to <= s@.len(),
            trimmed(s@.subrange(from as int, to as int)) == trimmed(s@),
        decreases to - from,
    {
        assert(s@.subrange(from as int, to as int).drop_first() =~= s@.subrange(
            from + 1,
            to as int,
        ));
        from = from + 1;
    }
    while from < to && is_white_space(s.get_char(to - 1))
        invariant
            from <= to <= s@.len(),
            trimmed(s@.subrange(from as int, to as int)) == trimmed(s@),
            from < to ==> !is_space(s@[from as int]),
        decreases to - from,
    {
        assert(s@.subrange(from as int, to as int).drop_last() =~= s@.subrange(
            from as int,
            to - 1,
        ));
        to = to - 1;
    }
    s.substring_char(from, to)
}

/// A text that neither starts nor ends with white space is left alone.
pub proof fn lemma_trimmed(s: Seq<char>)
    requires
        s.len() > 0 ==> !is_space(s[0]) && !is_space(s.last()),
    ensures
        trimmed(s) == s,
{
}

// ---------------------------------------------------------------------
// Decimal numbers
// ---------------------------------------------------------------------

/// A number in decimal digits.
pub open spec fn decimal_of(n: nat) -> Seq<char>
    decreases n,
{
    if n < 10 {
        seq![(n + 48) as char]
    } else {
        decimal_of(n / 10).push((n % 10 + 48) as char)
    }
}

/// The number in decimal digits.
pub fn decimal(n: u64) -> (r: String)
    ensures
        r@ == decimal_of(n as nat),
    decreases n,
{
    let mut out = if n < 10 {
        String::new()
    } else {
        decimal(n / 10)
    };
    out.push(((n % 10) as u8 + 48) as char);
    assert(n < 10 ==> out@ =~= decimal_of(n as nat));
    out
}

/// Whether every character is a decimal digit.
pub open spec fn all_digits(s: Seq<char>) -> bool {
    forall|i: int| 0 <= i < s.len() ==> '0' <= #[trigger] s[i] <= '9'
}

/// The number that decimal digits stand for.
pub open spec fn number_of(s: Seq<char>) -> nat
    decreases s.len(),
{
    if s.len() == 0 {
        0
    } else {
        (number_of(s.drop_last()) * 10 + (s.last() as int - 48)) as nat
    }
}

/// The digits of a number: a plus sign in front of them is passed over.
pub open spec fn digits_of(s: Seq<char>) -> Seq<char> {
    if s.len() > 0 && s[0] == '+' {
        s.skip(1)
    } else {
        s
    }
}

/// The number that a text stands for: at least one decimal digit and nothing
/// else but a plus sign in front, and no more than `max`.
pub open spec fn parsed_number(s: Seq<char>, max: nat) -> Option<nat> {
    let digits = digits_of(s);
    if digits.len() > 0 && all_digits(digits) && number_of(digits) <= max {
        Some(number_of(digits))
    } else {
        None
    }
}

/// The digits taken so far never stand for more than all of them do.
proof fn lemma_number_grows(s: Seq<char>, n: int)
    requires
        0 <= n <= s.len(),
        all_digits(s),
    ensures
        number_of(s.take(n)) <= number_of(s),
    decreases s.len() - n,
{
    if n == s.len() {
        assert(s.take(n) =~= s);
    } else {
        lemma_number_grows(s, n + 1);
        assert(s.take(n + 1).drop_last() =~= s.take(n));
        assert(s.take(n + 1).last() == s[n]);
    }
}

/// The number up to 65535 that a text stands for.
pub fn parse_u16(s: &str) -> (r: Option<u16>)
    ensures
        match r {
            Some(n) => parsed_number(s@, 65535) == Some(n as nat),
            None => parsed_number(s@, 65535) is None,
        },
{
    let len: usize = s.unicode_len();
    let start: usize = if len > 0 && s.get_char(0) == '+' {
        1
    } else {
        0
    };
    let ghost digits = digits_of(s@);
    assert(digits =~= s@.skip(start as int));
    if start == len {
        return None;
    }
    let mut n: u32 = 0;
    let mut i: usize = start;
    assert(digits.take(0) =~= Seq::empty());
    while i < len
        invariant
            start <= i <= len,
            start <= 1,
            len == s@.len(),
            digits == digits_of(s@),
            digits =~= s@.skip(start as int),
            digits.len() > 0,
            n <= 65535,
            forall|k: int| 0 <= k < i - start ==> '0' <= #[trigger] digits[k] <= '9',
            n == number_of(digits.take(i - start)),
        decreases len - i,
    {
        let c = s.get_char(i);
        assert(c == digits[i - start]);
        if !('0' <= c && c <= '9') {
            return None;
        }
        proof {
            let next = digits.take(i - start + 1);
            assert(next.drop_last() =~= digits.take(i - start));
            assert(next.last() == c);
        }
        n = n * 10 + (c as u32 - 48);
        if n > 65535 {
            proof {
                if all_digits(digits) {
                    lemma_number_grows(digits, i - start + 1);
                }
            }
            return None;
        }
        i = i + 1;
    }
    assert(digits.take(len - start) =~= digits);
    Some(n as u16)
}

/// A number within the limit, written in decimal, is read back.
pub proof fn law_number_read_back(n: nat, max: nat)
    requires
        n <= max,
    ensures
        parsed_number(decimal_of(n), max) == Some(n),
{
    lemma_decimal_digits(n);
}

proof fn lemma_decimal_digits(n: nat)
    ensures
        decimal_of(n).len() > 0,
        all_digits(decimal_of(n)),
        number_of(decimal_of(n)) == n,
    decreases n,
{
    if n < 10 {
        let s = decimal_of(n);
        assert(s.drop_last() =~= Seq::empty());
        assert(number_of(s.drop_last()) == 0);
    } else {
        lemma_decimal_digits(n / 10);
        let s = decimal_of(n);
        assert(s.drop_last() =~= decimal_of(n / 10));
    }
}

// ---------------------------------------------------------------------
// Hexadecimal
// ---------------------------------------------------------------------

/// The lower-case hexadecimal digit of `n`.
pub open spec fn hex_digit_of(n: int) -> char {
    if n < 10 {
        (n + 48) as char
    } else {
        (n + 87) as char
    }
}

/// Two lower-case digits per byte, the high half first.
pub open spec fn hex_of(data: Seq<u8>) -> Seq<char> {
    Seq::new(
        2 * data.len(),
        |i: int|
            if i % 2 == 0 {
                hex_digit_of(data[i / 2] as int / 16)
            } else {
                hex_digit_of(data[i / 2] as int % 16)
            },
    )
}

/// Whether `c` is the ASCII code of a hexadecimal digit of either case.
pub open spec fn is_hex_digit(c: u8) -> bool {
    48 <= c <= 57 || 97 <= c <= 102 || 65 <= c <= 70
}

/// The value of a hexadecimal digit.
pub open spec fn hex_digit_value(c: u8) -> int {
    if 48 <= c <= 57 {
        c - 48
    } else if 97 <= c <= 102 {
        c - 87
    } else {
        c - 55
    }
}

/// Whether every byte of `s` is a hexadecimal digit.
pub open spec fn all_hex(s: Seq<u8>) -> bool {
    forall|i: int| 0 <= i < s.len() ==> is_hex_digit(#[trigger] s[i])
}

/// The bytes that pairs of digits spell.
pub open spec fn unhexed(s: Seq<u8>) -> Seq<u8> {
    Seq::new(
        s.len() / 2,
        |i: int| (16 * hex_digit_value(s[2 * i]) + hex_digit_value(s[2 * i + 1])) as u8,
    )
}

/// Hexadecimal text decodes to the bytes it was made of.
pub proof fn law_hex_round_trip(data: Seq<u8>)
    ensures
        bytes::text(hex_of(data)).len() == 2 * data.len(),
        all_hex(bytes::text(hex_of(data))),
        unhexed(bytes::text(hex_of(data))) == data,
{
    let chars = hex_of(data);
    let s = bytes::text(chars);
    assert(vstd::utf8::is_ascii_chars(chars));
    vstd::utf8::is_ascii_chars_encode_utf8(chars);
    assert forall|i: int| 0 <= i < s.len() implies is_hex_digit(#[trigger] s[i]) by {
        assert(chars[i] as u8 == s[i]);
    }
    assert forall|i: int| 0 <= i < data.len() implies #[trigger] unhexed(s)[i] == data[i] by {
        assert(chars[2 * i] as u8 == s[2 * i]);
        assert(chars[2 * i + 1] as u8 == s[2 * i + 1]);
        assert((2 * i) / 2 == i && (2 * i + 1) / 2 == i);
        assert((2 * i) % 2 == 0 && (2 * i + 1) % 2 == 1);
        let b = data[i] as int;
        assert(b == 16 * (b / 16) + b % 16);
    }
    assert(unhexed(s) =~= data);
}

/// Hexadecimal text of `data`.
pub fn hex_encode(data: &[u8]) -> (r: String)
    ensures
        r@ == hex_of(data@),
{
    let mut out = String::new();
    let mut i: usize = 0;
    while i < data.len()
        invariant
            i <= data@.len(),
            out@ == hex_of(data@.take(i as int)),
        decreases data@.len() - i,
    {
        let ghost before = out@;
        let b: u8 = data[i];
        let hi: u8 = b / 16;
        let lo: u8 = b % 16;
        out.push(hex_char(hi));
        out.push(hex_char(lo));
        proof {
            let t = data@.take(i + 1);
            assert forall|j: int| 0 <= j < hex_of(t).len() implies out@[j] == hex_of(t)[j] by {
                if j < before.len() {
                    assert(before[j] == hex_of(data@.take(i as int))[j]);
                }
            }
            assert(out@ =~= hex_of(t));
        }
        i = i + 1;
    }
    assert(data@.take(i as int) =~= data@);
    assert(data@.take(0) =~= Seq::<u8>::empty());
    out
}

fn hex_char(n: u8) -> (r: char)
    requires
        n < 16,
    ensures
        r == hex_digit_of(n as int),
{
    if n < 10 {
        (n + 48) as char
    } else {
        (n + 87) as char
    }
}

/// The value of a hexadecimal digit.
pub fn hex_value(c: u8) -> (r: Option<u8>)
    ensures
        r is Some <==> is_hex_digit(c),
        r is Some ==> r->Some_0 == hex_digit_value(c) && r->Some_0 < 16,
{
    if 48 <= c && c <= 57 {
        Some(c - 48)
    } else if 97 <= c && c <= 102 {
        Some(c - 87)
    } else if 65 <= c && c <= 70 {
        Some(c - 55)
    } else {
        None
    }
}

// ---------------------------------------------------------------------
// What trimming promises
// ---------------------------------------------------------------------

/// Whether every character is white space.
pub open spec fn all_space(s: Seq<char>) -> bool {
    forall|i: int| 0 <= i < s.len() ==> is_space(#[trigger] s[i])
}

/// White space around a text that neither starts nor ends with white space is all
/// that trimming takes away.
pub proof fn law_trimming_takes_the_margins(before: Seq<char>, s: Seq<char>, after: Seq<char>)
    requires
        all_space(before),
        all_space(after),
        s.len() > 0 ==> !is_space(s[0]) && !is_space(s.last()),
    ensures
        trimmed(before + s + after) == s,
    decreases before.len() + after.len(),
{
    let all = before + s + after;
    if before.len() > 0 {
        assert(all.drop_first() =~= before.drop_first() + s + after);
        assert(all[0] == before[0]);
        law_trimming_takes_the_margins(before.drop_first(), s, after);
    } else if after.len() > 0 {
        if s.len() > 0 {
            assert(all.drop_last() =~= before + s + after.drop_last());
            assert(all.last() == after.last());
            assert(all[0] == s[0]);
            law_trimming_takes_the_margins(before, s, after.drop_last());
        } else {
            assert(all.drop_first() =~= before + s + after.drop_first());
            assert(all[0] == after[0]);
            law_trimming_takes_the_margins(before, s, after.drop_first());
        }
    } else {
        assert(all =~= s);
    }
}

} // verus!
