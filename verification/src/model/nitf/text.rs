//! Text of fixed-width fields: decoding bytes, trimming, decimal numbers.

use vstd::prelude::*;
use vstd::string::*;
use vstd::utf8::*;

verus! {

/// Whether `c` is white space: whether it has the Unicode `White_Space`
/// property. These are the twenty-five characters U+0009 to U+000D,
/// U+0020, U+0085, U+00A0, U+1680, U+2000 to U+200A, U+2028, U+2029,
/// U+202F, U+205F and U+3000.
pub open spec fn white_space(c: char) -> bool {
    let u = c as u32;
    ||| 0x0009 <= u <= 0x000D
    ||| u == 0x0020
    ||| u == 0x0085
    ||| u == 0x00A0
    ||| u == 0x1680
    ||| 0x2000 <= u <= 0x200A
    ||| u == 0x2028
    ||| u == 0x2029
    ||| u == 0x202F
    ||| u == 0x205F
    ||| u == 0x3000
}

/// Assumed of `char::is_whitespace`, not proved: it tells whether the
/// character has the Unicode `White_Space` property, whose members
/// [`white_space`] lists.
pub assume_specification[ char::is_whitespace ](c: char) -> (b: bool)
    ensures
        b == white_space(c),
;

/// The error type of `core::str::from_utf8`. Nothing is said of its
/// values; the decoder only tells them from success.
#[verifier::external_type_specification]
#[verifier::external_body]
pub struct ExUtf8Error(core::str::Utf8Error);

/// Assumed of `core::str::from_utf8`, not proved: it succeeds exactly when
/// the bytes are well-formed UTF-8, and the string it then returns holds
/// the characters that the bytes encode.
pub assume_specification<'a>[ core::str::from_utf8 ](v: &'a [u8]) -> (r: Result<
    &'a str,
    core::str::Utf8Error,
>)
    ensures
        r is Ok <==> valid_utf8(v@),
        r matches Ok(s) ==> s@ == decode_utf8(v@),
;

/// Assumed of `str::trim`, not proved: it returns the string without the
/// white space at its start and at its end, white space being what
/// `char::is_whitespace` reports.
pub assume_specification<'a>[ str::trim ](s: &'a str) -> (r: &'a str)
    ensures
        r@ == trimmed(s@),
;

/// Assumed of `str::trim_end`, not proved: it returns the string without
/// the white space at its end, white space being what
/// `char::is_whitespace` reports.
pub assume_specification<'a>[ str::trim_end ](s: &'a str) -> (r: &'a str)
    ensures
        r@ == trim_end_of(s@),
;

/// Assumed of `String::push`, not proved: it appends the character to the
/// end of the string.
pub assume_specification[ String::push ](s: &mut String, ch: char)
    ensures
        final(s)@ == old(s)@.push(ch),
;

/// `s` without the white space at its start.
pub open spec fn trim_start_of(s: Seq<char>) -> Seq<char>
    decreases s.len(),
{
    if s.len() > 0 && white_space(s.first()) {
        trim_start_of(s.drop_first())
    } else {
        s
    }
}

/// `s` without the white space at its end.
pub open spec fn trim_end_of(s: Seq<char>) -> Seq<char>
    decreases s.len(),
{
    if s.len() > 0 && white_space(s.last()) {
        trim_end_of(s.drop_last())
    } else {
        s
    }
}

/// `s` without the white space at either end.
pub open spec fn trimmed(s: Seq<char>) -> Seq<char> {
    trim_end_of(trim_start_of(s))
}

/// Whether `s` holds nothing but white space.
pub open spec fn blank(s: Seq<char>) -> bool {
    forall|i: int| 0 <= i < s.len() ==> white_space(#[trigger] s[i])
}

/// Trimming at the start leaves a suffix that does not begin with white space.
pub proof fn lemma_trim_start(s: Seq<char>)
    ensures
        trim_start_of(s).len() <= s.len(),
        trim_start_of(s) == s.subrange(s.len() - trim_start_of(s).len(), s.len() as int),
        trim_start_of(s).len() > 0 ==> !white_space(trim_start_of(s).first()),
        blank(s.subrange(0, s.len() - trim_start_of(s).len())),
    decreases s.len(),
{
    if s.len() > 0 && white_space(s.first()) {
        let t = s.drop_first();
        lemma_trim_start(t);
        let r = trim_start_of(t);
        assert(r == s.subrange(s.len() - r.len(), s.len() as int));
        let head = s.subrange(0, s.len() - r.len());
        let head_t = t.subrange(0, t.len() - r.len());
        assert forall|i: int| 0 <= i < head.len() implies white_space(#[trigger] head[i]) by {
            if i > 0 {
                assert(head[i] == head_t[i - 1]);
            }
        }
    } else {
        assert(s == s.subrange(0, s.len() as int));
    }
}

/// Trimming at the end leaves a prefix that does not end with white space.
pub proof fn lemma_trim_end(s: Seq<char>)
    ensures
        trim_end_of(s).len() <= s.len(),
        trim_end_of(s) == s.subrange(0, trim_end_of(s).len() as int),
        trim_end_of(s).len() > 0 ==> !white_space(trim_end_of(s).last()),
        blank(s.subrange(trim_end_of(s).len() as int, s.len() as int)),
    decreases s.len(),
{
    if s.len() > 0 && white_space(s.last()) {
        let t = s.drop_last();
        lemma_trim_end(t);
        let r = trim_end_of(t);
        assert(r == s.subrange(0, r.len() as int));
        let tail = s.subrange(r.len() as int, s.len() as int);
        let tail_t = t.subrange(r.len() as int, t.len() as int);
        assert forall|i: int| 0 <= i < tail.len() implies white_space(#[trigger] tail[i]) by {
            if i < tail.len() - 1 {
                assert(tail[i] == tail_t[i]);
            }
        }
    } else {
        assert(s == s.subrange(0, s.len() as int));
    }
}

/// A string trims to nothing exactly when it is blank.
pub proof fn lemma_trimmed_blank(s: Seq<char>)
    ensures
        trimmed(s).len() == 0 <==> blank(s),
        trim_end_of(s).len() == 0 <==> blank(s),
{
    lemma_trim_start(s);
    lemma_trim_end(s);
    let a = trim_start_of(s);
    lemma_trim_end(a);
    let k = s.len() - a.len();
    if blank(s) {
        if a.len() > 0 {
            assert(a.first() == s[k]);
        }
        if trim_end_of(s).len() > 0 {
            assert(trim_end_of(s).last() == s[trim_end_of(s).len() - 1]);
        }
    }
    if trim_end_of(s).len() == 0 {
        assert(s.subrange(0, s.len() as int) == s);
    }
    if trimmed(s).len() == 0 {
        if a.len() > 0 {
            // the suffix would be all white space, yet it begins with none
            let tail = a.subrange(0, a.len() as int);
            assert(tail == a);
            assert(white_space(tail[0]));
        }
        assert(s.subrange(0, k) == s);
    }
}

/// Text that has been trimmed is unchanged by trimming it again.
pub proof fn lemma_trimmed_fixed(s: Seq<char>)
    ensures
        trimmed(trimmed(s)) == trimmed(s),
        trim_end_of(trim_end_of(s)) == trim_end_of(s),
{
    lemma_trim_start(s);
    let a = trim_start_of(s);
    lemma_trim_end(a);
    lemma_trim_end(s);
    let t = trimmed(s);
    if t.len() > 0 {
        assert(t.first() == a.first());
    }
}

/// Whether `c` is one of the ASCII digits `0` to `9`.
pub open spec fn is_digit(c: char) -> bool {
    0x30 <= c as u32 <= 0x39
}

/// The number that the ASCII digit `c` stands for.
pub open spec fn digit_value(c: char) -> nat {
    (c as u32 - 0x30) as nat
}

/// Whether every character of `s` is an ASCII digit.
pub open spec fn all_digits(s: Seq<char>) -> bool {
    forall|i: int| 0 <= i < s.len() ==> is_digit(#[trigger] s[i])
}

/// The number that the digits of `s` spell in base ten, most significant
/// digit first.
pub open spec fn decimal_value(s: Seq<char>) -> nat
    decreases s.len(),
{
    if s.len() == 0 {
        0
    } else {
        10 * decimal_value(s.drop_last()) + digit_value(s.last())
    }
}

/// Ten to the power `n`.
pub open spec fn pow10(n: nat) -> nat
    decreases n,
{
    if n == 0 {
        1
    } else {
        10 * pow10((n - 1) as nat)
    }
}

/// The longest decimal field that [`parse_decimal`] accepts. Every value of
/// that many digits fits in a `u64`.
pub const MAX_DECIMAL_DIGITS: usize = 18;

/// Whether `s` is a decimal field: one to eighteen ASCII digits and nothing
/// else (no sign, no white space).
pub open spec fn is_decimal(s: Seq<char>) -> bool {
    1 <= s.len() <= MAX_DECIMAL_DIGITS && all_digits(s)
}

/// The value of a decimal field, if `s` is one.
pub open spec fn decimal_of(s: Seq<char>) -> Option<nat> {
    if is_decimal(s) {
        Some(decimal_value(s))
    } else {
        None
    }
}

/// A number of `n` digits is below ten to the `n`.
pub proof fn lemma_decimal_bound(s: Seq<char>)
    requires
        all_digits(s),
    ensures
        decimal_value(s) < pow10(s.len()),
    decreases s.len(),
{
    if s.len() > 0 {
        let t = s.drop_last();
        assert forall|i: int| 0 <= i < t.len() implies is_digit(#[trigger] t[i]) by {
            assert(t[i] == s[i]);
        }
        lemma_decimal_bound(t);
        assert(is_digit(s[s.len() - 1]));
    }
}

/// Powers of ten grow with the exponent.
pub proof fn lemma_pow10_increasing(a: nat, b: nat)
    requires
        a <= b,
    ensures
        pow10(a) <= pow10(b),
        pow10(a) >= 1,
    decreases b,
{
    if a < b {
        lemma_pow10_increasing(a, (b - 1) as nat);
    } else if a > 0 {
        lemma_pow10_increasing((a - 1) as nat, (a - 1) as nat);
    }
}

/// Ten to the eighteenth, the bound on every accepted decimal field.
pub proof fn lemma_pow10_18()
    ensures
        pow10(18) == 1_000_000_000_000_000_000,
{
    reveal_with_fuel(pow10, 19);
}

/// Parses a fixed-width decimal field.
///
/// The field must consist of one to eighteen ASCII digits; anything else,
/// a sign or a blank included, is refused.
pub fn parse_decimal(text: &str) -> (r: Option<u64>)
    ensures
        r is Some <==> is_decimal(text@),
        r matches Some(v) ==> v == decimal_value(text@),
{
    let n = text.unicode_len();
    if n == 0 || n > MAX_DECIMAL_DIGITS {
        return None;
    }
    let mut value: u64 = 0;
    let mut i: usize = 0;
    while i < n
        invariant
            n == text@.len(),
            1 <= n <= MAX_DECIMAL_DIGITS,
            i <= n,
            all_digits(text@.take(i as int)),
            value == decimal_value(text@.take(i as int)),
        decreases n - i,
    {
        let c = text.get_char(i);
        let d = c as u32;
        if d < 0x30 || d > 0x39 {
            assert(!is_digit(text@[i as int]));
            return None;
        }
        proof {
            let before = text@.take(i as int);
            let after = text@.take(i + 1);
            lemma_decimal_bound(before);
            lemma_pow10_increasing(i as nat, 17);
            lemma_pow10_18();
            assert(pow10(18) == 10 * pow10(17));
            assert(after.drop_last() == before);
            assert(after.last() == c);
            assert forall|j: int| 0 <= j < after.len() implies is_digit(#[trigger] after[j]) by {
                if j < i {
                    assert(after[j] == before[j]);
                }
            }
        }
        value = value * 10 + (d - 0x30) as u64;
        i += 1;
    }
    assert(text@.take(n as int) == text@);
    Some(value)
}

/// Tells whether a piece of text holds nothing but white space.
pub fn is_blank(text: &str) -> (b: bool)
    ensures
        b == blank(text@),
{
    let n = text.unicode_len();
    let mut i: usize = 0;
    while i < n
        invariant
            n == text@.len(),
            i <= n,
            forall|j: int| 0 <= j < i ==> white_space(#[trigger] text@[j]),
        decreases n - i,
    {
        if !text.get_char(i).is_whitespace() {
            return false;
        }
        i += 1;
    }
    true
}

/// The ASCII digit for `d`, `0` to `9`.
pub open spec fn digit_char(d: nat) -> char {
    (0x30 + d) as char
}

/// `n` written with three decimal digits, zero-padded.
pub open spec fn three_digits(n: nat) -> Seq<char> {
    seq![digit_char(n / 100 % 10), digit_char(n / 10 % 10), digit_char(n % 10)]
}

/// The tag of the `index`-th entry of a numbered family: the family's
/// prefix followed by the index in three digits, as in `LISH001`.
pub open spec fn indexed_tag(prefix: Seq<char>, index: nat) -> Seq<char> {
    prefix + three_digits(index)
}

/// The upper-case hexadecimal digit for `d`, `0` to `F`.
pub open spec fn hex_char(d: nat) -> char {
    if d < 10 {
        (0x30 + d) as char
    } else {
        (0x37 + d) as char
    }
}

/// A byte written with two upper-case hexadecimal digits.
pub open spec fn hex_pair(b: u8) -> Seq<char> {
    seq![hex_char(b as nat / 16), hex_char(b as nat % 16)]
}

/// A three-byte colour written as `0x` and six upper-case hexadecimal
/// digits, as in `0xFF8000`.
pub open spec fn colour_text(red: u8, green: u8, blue: u8) -> Seq<char> {
    seq!['0', 'x'] + hex_pair(red) + hex_pair(green) + hex_pair(blue)
}

/// Appends the decimal digit for `d`.
fn push_digit(s: &mut String, d: u8)
    requires
        d < 10,
    ensures
        final(s)@ == old(s)@.push(digit_char(d as nat)),
{
    s.push((0x30 + d) as char);
}

/// Appends the hexadecimal digit for `d`.
fn push_hex(s: &mut String, d: u8)
    requires
        d < 16,
    ensures
        final(s)@ == old(s)@.push(hex_char(d as nat)),
{
    if d < 10 {
        s.push((0x30 + d) as char);
    } else {
        s.push((0x37 + d) as char);
    }
}

/// Builds the tag of the `index`-th entry of a numbered family.
pub(crate) fn make_indexed_tag(prefix: &str, index: usize) -> (r: String)
    requires
        index <= 999,
    ensures
        r@ == indexed_tag(prefix@, index as nat),
{
    let mut s = prefix.to_owned();
    push_digit(&mut s, (index / 100 % 10) as u8);
    push_digit(&mut s, (index / 10 % 10) as u8);
    push_digit(&mut s, (index % 10) as u8);
    assert(s@ == indexed_tag(prefix@, index as nat));
    s
}

/// Renders a three-byte colour as `0x` and six hexadecimal digits.
pub fn make_colour_text(red: u8, green: u8, blue: u8) -> (r: String)
    ensures
        r@ == colour_text(red, green, blue),
{
    let mut s = String::new();
    s.push('0');
    s.push('x');
    push_hex(&mut s, red / 16);
    push_hex(&mut s, red % 16);
    push_hex(&mut s, green / 16);
    push_hex(&mut s, green % 16);
    push_hex(&mut s, blue / 16);
    push_hex(&mut s, blue % 16);
    assert(s@ == colour_text(red, green, blue));
    s
}

/// Tells whether two pieces of text hold the same characters.
pub fn same_text(a: &str, b: &str) -> (r: bool)
    ensures
        r == (a@ == b@),
{
    broadcast use encode_utf8_decode_utf8;

    let x = a.as_bytes();
    let y = b.as_bytes();
    if x.len() != y.len() {
        return false;
    }
    let mut i: usize = 0;
    while i < x.len()
        invariant
            x@ == encode_utf8(a@),
            y@ == encode_utf8(b@),
            x@.len() == y@.len(),
            i <= x@.len(),
            forall|j: int| 0 <= j < i ==> x@[j] == y@[j],
        decreases x@.len() - i,
    {
        if x[i] != y[i] {
            return false;
        }
        i += 1;
    }
    assert(x@ =~= y@);
    assert(decode_utf8(encode_utf8(a@)) == a@);
    assert(decode_utf8(encode_utf8(b@)) == b@);
    true
}

/// Whether two texts differ at position `k`, or one of them ends before it.
pub open spec fn differ_at(a: Seq<char>, b: Seq<char>, k: int) -> bool {
    a.len() != b.len() || (k < a.len() && a[k] != b[k])
}

/// Two texts that differ in length, or in one of their first eight
/// characters, are not the same text.
pub proof fn lemma_texts_differ(a: Seq<char>, b: Seq<char>)
    requires
        differ_at(a, b, 0) || differ_at(a, b, 1) || differ_at(a, b, 2) || differ_at(a, b, 3)
            || differ_at(a, b, 4) || differ_at(a, b, 5) || differ_at(a, b, 6) || differ_at(a, b, 7),
    ensures
        a != b,
{
}

} // verus!
