//! Small helpers on strings and bytes that the codec and the header map share.

use vstd::prelude::*;
use vstd::string::*;
use vstd::utf8::*;

verus! {

/// Compares two string slices by their characters.
pub fn str_eq(a: &str, b: &str) -> (same: bool)
    ensures
        same == (a@ == b@),
{
    let x = a.as_bytes();
    let y = b.as_bytes();
    if x.len() != y.len() {
        return false;
    }
    let mut i: usize = 0;
    while i < x.len()
        invariant
            i <= x.len(),
            x@.len() == y@.len(),
            x@ == a.spec_bytes(),
            y@ == b.spec_bytes(),
            forall|j: int| 0 <= j < i ==> x@[j] == y@[j],
        decreases x.len() - i,
    {
        if x[i] != y[i] {
            return false;
        }
        i += 1;
    }
    proof {
        assert(x@ =~= y@);
        encode_utf8_decode_utf8(a@);
        encode_utf8_decode_utf8(b@);
    }
    true
}

/// Whether `text` begins with `prefix`.
pub open spec fn begins_with(text: Seq<char>, prefix: Seq<char>) -> bool {
    prefix.len() <= text.len() && text.subrange(0, prefix.len() as int) == prefix
}

/// Whether `text` begins with `prefix`, character by character.
pub fn starts_with(text: &str, prefix: &str) -> (begins: bool)
    ensures
        begins == begins_with(text@, prefix@),
{
    let n: usize = prefix.unicode_len();
    if text.unicode_len() < n {
        return false;
    }
    let mut i: usize = 0;
    while i < n
        invariant
            i <= n,
            n == prefix@.len(),
            n <= text@.len(),
            forall|j: int| 0 <= j < i ==> text@[j] == prefix@[j],
        decreases n - i,
    {
        if text.get_char(i) != prefix.get_char(i) {
            proof {
                assert(text@.subrange(0, n as int)[i as int] == text@[i as int]);
            }
            return false;
        }
        i += 1;
    }
    proof {
        assert(text@.subrange(0, n as int) =~= prefix@);
    }
    true
}

/// Whether `c` is white space: one of the characters with the Unicode
/// property White_Space, which are those that `char::is_whitespace` accepts.
pub open spec fn is_white_space(c: char) -> bool {
    ||| '\u{9}' <= c && c <= '\u{d}'
    ||| c == ' '
    ||| c == '\u{85}'
    ||| c == '\u{a0}'
    ||| c == '\u{1680}'
    ||| '\u{2000}' <= c && c <= '\u{200a}'
    ||| c == '\u{2028}'
    ||| c == '\u{2029}'
    ||| c == '\u{202f}'
    ||| c == '\u{205f}'
    ||| c == '\u{3000}'
}

/// The characters that are white space.
pub open spec fn white_space() -> spec_fn(char) -> bool {
    |c: char| is_white_space(c)
}

/// Whether `c` is white space.
pub fn is_white_space_char(c: char) -> (white: bool)
    ensures
        white == is_white_space(c),
{
    ('\u{9}' <= c && c <= '\u{d}') || c == ' ' || c == '\u{85}' || c == '\u{a0}' || c
        == '\u{1680}' || ('\u{2000}' <= c && c <= '\u{200a}') || c == '\u{2028}' || c
        == '\u{2029}' || c == '\u{202f}' || c == '\u{205f}' || c == '\u{3000}'
}

/// The place of the first item that is wanted, or the length of `s` when
/// none is.
pub open spec fn first_where<T>(s: Seq<T>, wanted: spec_fn(T) -> bool) -> nat
    decreases s.len(),
{
    if s.len() == 0 || wanted(s[0]) {
        0
    } else {
        1 + first_where(s.drop_first(), wanted)
    }
}

/// `first_where` is in range, points at a wanted item, and nothing before
/// it is wanted.
pub proof fn lemma_first_where<T>(s: Seq<T>, wanted: spec_fn(T) -> bool)
    ensures
        first_where(s, wanted) <= s.len(),
        first_where(s, wanted) < s.len() ==> wanted(s[first_where(s, wanted) as int]),
        forall|j: int| 0 <= j < first_where(s, wanted) ==> !wanted(#[trigger] s[j]),
    decreases s.len(),
{
    if s.len() > 0 && !wanted(s[0]) {
        let rest = s.drop_first();
        lemma_first_where(rest, wanted);
        assert forall|j: int| 0 <= j < first_where(s, wanted) implies !wanted(#[trigger] s[j]) by {
            if j > 0 {
                assert(rest[j - 1] == s[j]);
            }
        }
    }
}

/// The first wanted item, with nothing wanted before it, is where
/// `first_where` says.
pub proof fn lemma_first_where_is<T>(s: Seq<T>, wanted: spec_fn(T) -> bool, i: int)
    requires
        0 <= i <= s.len(),
        i < s.len() ==> wanted(s[i]),
        forall|j: int| 0 <= j < i ==> !wanted(#[trigger] s[j]),
    ensures
        first_where(s, wanted) == i,
{
    lemma_first_where(s, wanted);
    let k = first_where(s, wanted) as int;
    if k < i {
        assert(!wanted(s[k]));
    }
}

/// Whether `b` is the code of a white space character below 128: blank,
/// tab, line feed, vertical tab, form feed or carriage return.
pub open spec fn is_space(b: u8) -> bool {
    b == 0x20 || (0x09 <= b && b <= 0x0d)
}

/// Whether `b` is the code of a white space character below 128.
pub fn is_space_byte(b: u8) -> (space: bool)
    ensures
        space == is_space(b),
{
    b == 0x20 || (0x09 <= b && b <= 0x0d)
}

/// A character below 128 is white space exactly when its code is.
pub proof fn lemma_space_below_128(c: char)
    requires
        '\0' <= c <= '\u{7f}',
    ensures
        is_white_space(c) == is_space(c as u8),
{
}

/// `s` without the white space at its start.
pub open spec fn trim_start(s: Seq<char>) -> Seq<char>
    decreases s.len(),
{
    if s.len() > 0 && is_white_space(s[0]) {
        trim_start(s.drop_first())
    } else {
        s
    }
}

/// `s` without the white space at its end.
pub open spec fn trim_end(s: Seq<char>) -> Seq<char>
    decreases s.len(),
{
    if s.len() > 0 && is_white_space(s.last()) {
        trim_end(s.drop_last())
    } else {
        s
    }
}

/// `s` without the white space at either end.
pub open spec fn trim(s: Seq<char>) -> Seq<char> {
    trim_end(trim_start(s))
}

/// `trim` for a text of characters below 128, which are one byte each.
fn trim_ascii_text(text: &str) -> (trimmed: String)
    requires
        text.is_ascii(),
    ensures
        trimmed@ == trim(text@),
{
    broadcast use is_ascii_spec_bytes;

    let bytes = text.as_bytes();
    let n: usize = bytes.len();
    proof {
        assert(text@.subrange(0, n as int) =~= text@);
    }
    let mut a: usize = 0;
    while a < n && is_space_byte(bytes[a])
        invariant
            a <= n,
            n == text@.len(),
            n == bytes@.len(),
            forall|j: int| 0 <= j < n ==> bytes@[j] == text@[j] as u8,
            forall|j: int| 0 <= j < n ==> '\0' <= #[trigger] text@[j] <= '\u{7f}',
            trim_start(text@.subrange(a as int, n as int)) == trim_start(text@),
        decreases n - a,
    {
        proof {
            lemma_space_below_128(text@[a as int]);
            assert(text@.subrange(a as int, n as int).drop_first() =~= text@.subrange(
                a + 1,
                n as int,
            ));
        }
        a += 1;
    }
    proof {
        if a < n {
            lemma_space_below_128(text@[a as int]);
        }
    }
    let mut b: usize = n;
    while a < b && is_space_byte(bytes[b - 1])
        invariant
            a <= b <= n,
            n == text@.len(),
            n == bytes@.len(),
            forall|j: int| 0 <= j < n ==> bytes@[j] == text@[j] as u8,
            forall|j: int| 0 <= j < n ==> '\0' <= #[trigger] text@[j] <= '\u{7f}',
            trim_end(text@.subrange(a as int, b as int)) == trim_end(
                text@.subrange(a as int, n as int),
            ),
        decreases b - a,
    {
        proof {
            lemma_space_below_128(text@[b - 1]);
            assert(text@.subrange(a as int, b as int).drop_last() =~= text@.subrange(
                a as int,
                b - 1,
            ));
        }
        b -= 1;
    }
    proof {
        if a < b {
            lemma_space_below_128(text@[b - 1]);
        }
    }
    text.substring_ascii(a, b).to_owned()
}

/// `trim` for any text, character by character.
fn trim_wide_text(text: &str) -> (trimmed: String)
    ensures
        trimmed@ == trim(text@),
{
    let n: usize = text.unicode_len();
    proof {
        assert(text@.subrange(0, n as int) =~= text@);
    }
    let mut a: usize = 0;
    while a < n && is_white_space_char(text.get_char(a))
        invariant
            a <= n,
            n == text@.len(),
            trim_start(text@.subrange(a as int, n as int)) == trim_start(text@),
        decreases n - a,
    {
        proof {
            assert(text@.subrange(a as int, n as int).drop_first() =~= text@.subrange(
                a + 1,
                n as int,
            ));
        }
        a += 1;
    }
    let mut b: usize = n;
    while a < b && is_white_space_char(text.get_char(b - 1))
        invariant
            a <= b <= n,
            n == text@.len(),
            trim_end(text@.subrange(a as int, b as int)) == trim_end(
                text@.subrange(a as int, n as int),
            ),
        decreases b - a,
    {
        proof {
            assert(text@.subrange(a as int, b as int).drop_last() =~= text@.subrange(
                a as int,
                b - 1,
            ));
        }
        b -= 1;
    }
    text.substring_char(a, b).to_owned()
}

/// The text without the white space at either end.
pub fn trim_text(text: &str) -> (trimmed: String)
    ensures
        trimmed@ == trim(text@),
{
    if text.is_ascii() {
        trim_ascii_text(text)
    } else {
        trim_wide_text(text)
    }
}

/// The bytes that are `b`.
pub open spec fn is_byte(b: u8) -> spec_fn(u8) -> bool {
    |x: u8| x == b
}

/// The place of the first `b` in `s`, or the length of `s` when it holds
/// none.
pub open spec fn index_of(s: Seq<u8>, b: u8) -> nat {
    first_where(s, is_byte(b))
}

/// The place of the first `b` in `s[from..to]`, counted from the start of
/// `s`, or `to` when that part holds none.
pub fn find_byte(s: &[u8], from: usize, to: usize, b: u8) -> (at: usize)
    requires
        from <= to <= s.len(),
    ensures
        from <= at <= to,
        at - from == index_of(s@.subrange(from as int, to as int), b),
{
    let mut i: usize = from;
    while i < to && s[i] != b
        invariant
            from <= i <= to <= s.len(),
            forall|j: int| from <= j < i ==> !is_byte(b)(#[trigger] s@[j]),
        decreases to - i,
    {
        i += 1;
    }
    proof {
        lemma_first_where_is(s@.subrange(from as int, to as int), is_byte(b), i - from);
    }
    i
}

/// The text that `String::from_utf8_lossy` makes of a byte sequence.
pub uninterp spec fn utf8_lossy(bytes: Seq<u8>) -> Seq<char>;

/// Turns bytes into text with `String::from_utf8_lossy`: well-formed UTF-8
/// is decoded as it stands, and each ill-formed part becomes U+FFFD. The text
/// depends on the bytes alone.
#[verifier::external_body]
pub(crate) fn lossy_string(bytes: &[u8]) -> (text: String)
    ensures
        text@ == utf8_lossy(bytes@),
        valid_utf8(bytes@) ==> text@ == decode_utf8(bytes@),
{
    String::from_utf8_lossy(bytes).into_owned()
}

/// The text that bytes stand for: well-formed UTF-8 is decoded as it
/// stands; of other bytes the well-formed parts are decoded and each
/// ill-formed part becomes U+FFFD.
pub open spec fn text_of(bytes: Seq<u8>) -> Seq<char> {
    if valid_utf8(bytes) {
        decode_utf8(bytes)
    } else {
        utf8_lossy(bytes)
    }
}

/// Turns bytes into the text that they stand for.
pub fn bytes_text(bytes: &[u8]) -> (text: String)
    ensures
        text@ == text_of(bytes@),
{
    lossy_string(bytes)
}

/// The text of the bytes without the white space at either end.
pub fn trimmed_text(bytes: &[u8]) -> (text: String)
    ensures
        text@ == trim(text_of(bytes@)),
{
    let text = bytes_text(bytes);
    trim_text(text.as_str())
}

/// The characters whose codes the bytes are.
pub open spec fn ascii_text(bytes: Seq<u8>) -> Seq<char> {
    Seq::new(bytes.len(), |i: int| bytes[i] as char)
}

/// Bytes below 128 are well-formed UTF-8 and stand for the characters
/// with those codes.
pub proof fn lemma_text_below_128(bytes: Seq<u8>)
    requires
        forall|i: int| 0 <= i < bytes.len() ==> bytes[i] < 0x80,
    ensures
        valid_utf8(bytes),
        text_of(bytes) == ascii_text(bytes),
{
    let chars = ascii_text(bytes);
    assert(is_ascii_chars(chars));
    is_ascii_chars_encode_utf8(chars);
    assert(encode_utf8(chars) =~= bytes);
    encode_utf8_valid_utf8(chars);
    encode_utf8_decode_utf8(chars);
}

/// Well-formed UTF-8 comes back from its text byte for byte.
pub proof fn lemma_text_keeps_bytes(bytes: Seq<u8>)
    requires
        valid_utf8(bytes),
    ensures
        encode_utf8(text_of(bytes)) == bytes,
{
    decode_utf8_encode_utf8(bytes);
}

/// A decimal digit.
pub open spec fn is_digit(c: char) -> bool {
    '0' <= c && c <= '9'
}

/// Whether every character is a decimal digit.
pub open spec fn all_digits(s: Seq<char>) -> bool {
    forall|i: int| 0 <= i < s.len() ==> is_digit(#[trigger] s[i])
}

/// The number that a sequence of decimal digits writes.
pub open spec fn digits_value(s: Seq<char>) -> nat
    decreases s.len(),
{
    if s.len() == 0 {
        0
    } else {
        digits_value(s.drop_last()) * 10 + ((s.last() as u32 - '0' as u32) as nat)
    }
}

/// The length that a header value gives: an optional `+` and then one or
/// more decimal digits, whose number fits a `usize`.
pub open spec fn length_value(text: Seq<char>) -> Option<nat> {
    let digits = if text.len() > 0 && text[0] == '+' {
        text.drop_first()
    } else {
        text
    };
    if digits.len() > 0 && all_digits(digits) && digits_value(digits) <= usize::MAX {
        Some(digits_value(digits))
    } else {
        None
    }
}

/// Whether every byte is the code of a decimal digit.
spec fn all_digit_bytes(s: Seq<u8>) -> bool {
    forall|i: int| 0 <= i < s.len() ==> 0x30 <= #[trigger] s[i] <= 0x39
}

/// The number that a sequence of digit codes writes.
spec fn digit_bytes_value(s: Seq<u8>) -> nat
    decreases s.len(),
{
    if s.len() == 0 {
        0
    } else {
        digit_bytes_value(s.drop_last()) * 10 + (s.last() - 0x30) as nat
    }
}

/// A longer sequence of digit codes writes no smaller number than its
/// start.
proof fn lemma_digit_bytes_value_grows(s: Seq<u8>, k: int)
    requires
        0 <= k <= s.len(),
        all_digit_bytes(s),
    ensures
        digit_bytes_value(s.take(k)) <= digit_bytes_value(s),
    decreases s.len() - k,
{
    if k < s.len() {
        lemma_digit_bytes_value_grows(s, k + 1);
        assert(s.take(k + 1).drop_last() =~= s.take(k));
        assert(0x30 <= s[k] <= 0x39);
    } else {
        assert(s.take(k) =~= s);
    }
}

/// Characters below 128 and their codes say the same about digits.
proof fn lemma_digits_as_bytes(chars: Seq<char>, bytes: Seq<u8>)
    requires
        chars.len() == bytes.len(),
        forall|i: int|
            0 <= i < chars.len() ==> '\0' <= #[trigger] chars[i] <= '\u{7f}' && bytes[i]
                == chars[i] as u8,
    ensures
        all_digits(chars) == all_digit_bytes(bytes),
        all_digits(chars) ==> digits_value(chars) == digit_bytes_value(bytes),
    decreases chars.len(),
{
    if chars.len() > 0 {
        let front = chars.drop_last();
        let front_bytes = bytes.drop_last();
        assert forall|i: int| 0 <= i < front.len() implies '\0' <= #[trigger] front[i]
            <= '\u{7f}' && front_bytes[i] == front[i] as u8 by {
            assert(front[i] == chars[i]);
        }
        lemma_digits_as_bytes(front, front_bytes);
        let c = chars.last();
        let b = bytes.last();
        assert(c == chars[chars.len() - 1]);
        assert('\0' <= c <= '\u{7f}');
        assert(b == c as u8);
        assert(is_digit(c) == (0x30 <= b <= 0x39));
        if all_digits(chars) {
            assert forall|i: int| 0 <= i < bytes.len() implies 0x30 <= #[trigger] bytes[i]
                <= 0x39 by {
                assert(is_digit(chars[i]));
            }
            assert(all_digits(front)) by {
                assert forall|i: int| 0 <= i < front.len() implies is_digit(#[trigger] front[i]) by {
                    assert(front[i] == chars[i]);
                }
            }
            assert((c as u32 - '0' as u32) as nat == (b - 0x30) as nat);
        }
        if all_digit_bytes(bytes) {
            assert forall|i: int| 0 <= i < chars.len() implies is_digit(#[trigger] chars[i]) by {
                assert(0x30 <= bytes[i] <= 0x39);
                assert('\0' <= chars[i] <= '\u{7f}');
                assert(bytes[i] == chars[i] as u8);
            }
        }
    }
}

/// The number that the digit codes in `bytes[from..]` write, if they are
/// all digit codes and the number fits a `usize`.
fn parse_digit_bytes(bytes: &[u8], from: usize) -> (number: Option<usize>)
    requires
        from <= bytes.len(),
    ensures
        match number {
            Some(n) => all_digit_bytes(bytes@.skip(from as int)) && n == digit_bytes_value(
                bytes@.skip(from as int),
            ),
            None => !all_digit_bytes(bytes@.skip(from as int)) || digit_bytes_value(
                bytes@.skip(from as int),
            ) > usize::MAX,
        },
{
    let n: usize = bytes.len();
    let ghost digits = bytes@.skip(from as int);
    let mut value: usize = 0;
    let mut i: usize = from;
    while i < n
        invariant
            from <= i <= n,
            n == bytes@.len(),
            digits == bytes@.skip(from as int),
            all_digit_bytes(digits.take(i - from)),
            value == digit_bytes_value(digits.take(i - from)),
        decreases n - i,
    {
        let b: u8 = bytes[i];
        proof {
            assert(digits[i - from] == b);
            assert(digits.take(i - from + 1).drop_last() =~= digits.take(i - from));
            assert(digits.take(i - from + 1).last() == b);
        }
        if b < 0x30 || b > 0x39 {
            return None;
        }
        let d: usize = (b - 0x30) as usize;
        if value > (usize::MAX - d) / 10 {
            proof {
                if all_digit_bytes(digits) {
                    lemma_digit_bytes_value_grows(digits, i - from + 1);
                }
            }
            return None;
        }
        value = value * 10 + d;
        i += 1;
    }
    proof {
        assert(digits.take(n - from) =~= digits);
    }
    Some(value)
}

/// Reads a length from a header value.
pub fn parse_length(text: &str) -> (length: Option<usize>)
    ensures
        match length {
            Some(n) => length_value(text@) == Some(n as nat),
            None => length_value(text@) is None,
        },
{
    broadcast use is_ascii_spec_bytes;

    if !text.is_ascii() {
        proof {
            let bad = choose|i: int| 0 <= i < text@.len() && !('\0' <= #[trigger] text@[i] <= '\u{7f}');
            if text@.len() > 0 && text@[0] == '+' {
                assert(text@.drop_first()[bad - 1] == text@[bad]);
            }
        }
        return None;
    }
    let bytes = text.as_bytes();
    let n: usize = bytes.len();
    assert(n == text@.len());
    assert(forall|i: int| 0 <= i < n ==> bytes@[i] == text@[i] as u8);
    let from: usize = if n > 0 && bytes[0] == 0x2b {
        1
    } else {
        0
    };
    if from == n {
        return None;
    }
    proof {
        let digits = if text@.len() > 0 && text@[0] == '+' {
            text@.drop_first()
        } else {
            text@
        };
        assert(digits =~= text@.skip(from as int));
        assert forall|i: int| 0 <= i < digits.len() implies '\0' <= #[trigger] digits[i]
            <= '\u{7f}' && bytes@.skip(from as int)[i] == digits[i] as u8 by {
            assert(digits[i] == text@[i + from]);
            assert('\0' <= text@[i + from] <= '\u{7f}');
        }
        lemma_digits_as_bytes(digits, bytes@.skip(from as int));
    }
    parse_digit_bytes(bytes, from)
}

} // verus!
