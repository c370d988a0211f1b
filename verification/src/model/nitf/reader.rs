//! Reading fixed-width fields out of a byte buffer.
//!
//! Every read checks its extent against the end of the buffer first and
//! reports a failure instead of reading past it.

use vstd::prelude::*;
use vstd::slice::slice_subrange;
use vstd::string::*;
use vstd::utf8::*;

use super::error::{DecodeError, ErrorKind, Phase};
use super::text::{blank, colour_text, is_blank, lemma_trimmed_blank, lemma_trimmed_fixed, make_colour_text, trimmed};

verus! {

/// The failure of the given kind at the given position of the buffer.
pub open spec fn failure(kind: ErrorKind, phase: Phase, offset: int) -> DecodeError {
    DecodeError { kind, phase, offset: offset as usize }
}

/// The text of the `width` bytes at `cursor`.
///
/// The read fails with `TruncatedInput` if the buffer ends before the
/// field does, and with `InvalidEncoding` if its bytes are not UTF-8.
pub open spec fn field_text(bytes: Seq<u8>, cursor: int, width: int, phase: Phase) -> Result<
    Seq<char>,
    DecodeError,
> {
    if cursor + width > bytes.len() {
        Err(failure(ErrorKind::TruncatedInput, phase, cursor))
    } else if !valid_utf8(bytes.subrange(cursor, cursor + width)) {
        Err(failure(ErrorKind::InvalidEncoding, phase, cursor))
    } else {
        Ok(decode_utf8(bytes.subrange(cursor, cursor + width)))
    }
}

/// What a trimmed field holds: the text of the slot without the white
/// space around it. The field is present even if nothing is left.
pub open spec fn trimmed_text(bytes: Seq<u8>, cursor: int, width: int, phase: Phase) -> Result<
    Seq<char>,
    DecodeError,
> {
    match field_text(bytes, cursor, width, phase) {
        Err(e) => Err(e),
        Ok(t) => Ok(trimmed(t)),
    }
}

/// What an optional field holds: nothing if the slot is blank, else the
/// trimmed text of the slot.
pub open spec fn optional_text(bytes: Seq<u8>, cursor: int, width: int, phase: Phase) -> Result<
    Option<Seq<char>>,
    DecodeError,
> {
    match field_text(bytes, cursor, width, phase) {
        Err(e) => Err(e),
        Ok(t) => Ok(
            if blank(t) {
                None
            } else {
                Some(trimmed(t))
            },
        ),
    }
}

/// The texts of three consecutive fields of the given widths.
pub open spec fn triple_text(
    bytes: Seq<u8>,
    cursor: int,
    w0: int,
    w1: int,
    w2: int,
    phase: Phase,
) -> Result<(Seq<char>, Seq<char>, Seq<char>), DecodeError> {
    match field_text(bytes, cursor, w0, phase) {
        Err(e) => Err(e),
        Ok(a) => match field_text(bytes, cursor + w0, w1, phase) {
            Err(e) => Err(e),
            Ok(b) => match field_text(bytes, cursor + w0 + w1, w2, phase) {
                Err(e) => Err(e),
                Ok(c) => Ok((a, b, c)),
            },
        },
    }
}

/// Three parts joined by a separator, as in `2024/01/31` or `23:59:59`.
pub open spec fn joined(a: Seq<char>, b: Seq<char>, c: Seq<char>, separator: char) -> Seq<char> {
    a + seq![separator] + b + seq![separator] + c
}

/// What a date field holds. The eight-byte slot is read as year (4), month
/// (2) and day (2); if all three are blank the field is absent, else it
/// holds the three parts joined by `/`, trimmed.
pub open spec fn date_text(bytes: Seq<u8>, cursor: int, phase: Phase) -> Result<
    Option<Seq<char>>,
    DecodeError,
> {
    match triple_text(bytes, cursor, 4, 2, 2, phase) {
        Err(e) => Err(e),
        Ok((y, m, d)) => Ok(
            if blank(y) && blank(m) && blank(d) {
                None
            } else {
                Some(trimmed(joined(y, m, d, '/')))
            },
        ),
    }
}

/// What a date-and-time field holds. The fourteen-byte slot is read as
/// year (4), month (2), day (2), hour (2), minute (2) and second (2); if
/// all six are blank the field is absent, else it holds the date joined by
/// `/`, a space, and the time joined by `:`, trimmed.
pub open spec fn date_time_text(bytes: Seq<u8>, cursor: int, phase: Phase) -> Result<
    Option<Seq<char>>,
    DecodeError,
> {
    match triple_text(bytes, cursor, 4, 2, 2, phase) {
        Err(e) => Err(e),
        Ok((y, m, d)) => match triple_text(bytes, cursor + 8, 2, 2, 2, phase) {
            Err(e) => Err(e),
            Ok((h, mi, s)) => Ok(
                if blank(y) && blank(m) && blank(d) && blank(h) && blank(mi) && blank(s) {
                    None
                } else {
                    Some(trimmed(joined(y, m, d, '/') + seq![' '] + joined(h, mi, s, ':')))
                },
            ),
        },
    }
}

/// What a colour field holds: its three bytes in hexadecimal.
pub open spec fn colour_field_text(bytes: Seq<u8>, cursor: int, phase: Phase) -> Result<
    Seq<char>,
    DecodeError,
> {
    if cursor + 3 > bytes.len() {
        Err(failure(ErrorKind::TruncatedInput, phase, cursor))
    } else {
        Ok(colour_text(bytes[cursor], bytes[cursor + 1], bytes[cursor + 2]))
    }
}

/// Borrows the text of the `width` bytes at `cursor`.
pub fn slot_text<'a>(buffer: &'a [u8], cursor: usize, width: usize, phase: Phase) -> (r: Result<
    &'a str,
    DecodeError,
>)
    ensures
        match r {
            Ok(t) => field_text(buffer@, cursor as int, width as int, phase) == Ok::<
                Seq<char>,
                DecodeError,
            >(t@) && cursor + width <= buffer@.len() <= usize::MAX,
            Err(e) => field_text(buffer@, cursor as int, width as int, phase) == Err::<
                Seq<char>,
                DecodeError,
            >(e),
        },
{
    if cursor > buffer.len() || width > buffer.len() - cursor {
        return Err(DecodeError { kind: ErrorKind::TruncatedInput, phase, offset: cursor });
    }
    let bytes = slice_subrange(buffer, cursor, cursor + width);
    match core::str::from_utf8(bytes) {
        Ok(t) => Ok(t),
        Err(_) => Err(DecodeError { kind: ErrorKind::InvalidEncoding, phase, offset: cursor }),
    }
}

/// Reads exactly `width` bytes at `cursor` as text, and returns the text
/// with the cursor advanced past the field.
pub fn read_field(buffer: &[u8], cursor: usize, width: usize, phase: Phase) -> (r: Result<
    (String, usize),
    DecodeError,
>)
    ensures
        match r {
            Ok((value, next)) => field_text(buffer@, cursor as int, width as int, phase) == Ok::<
                Seq<char>,
                DecodeError,
            >(value@) && next == cursor + width,
            Err(e) => field_text(buffer@, cursor as int, width as int, phase) == Err::<
                Seq<char>,
                DecodeError,
            >(e),
        },
{
    match slot_text(buffer, cursor, width, phase) {
        Ok(t) => Ok((t.to_owned(), cursor + width)),
        Err(e) => Err(e),
    }
}

/// Reads a field that may be left blank: the trimmed text of the slot, or
/// nothing if the slot holds only white space.
pub fn read_optional_field(buffer: &[u8], cursor: usize, width: usize, phase: Phase) -> (r: Result<
    (Option<String>, usize),
    DecodeError,
>)
    ensures
        match r {
            Ok((Some(value), next)) => optional_text(buffer@, cursor as int, width as int, phase)
                == Ok::<Option<Seq<char>>, DecodeError>(Some(value@)) && next == cursor + width
                && value@.len() > 0 && trimmed(value@) == value@,
            Ok((None, next)) => optional_text(buffer@, cursor as int, width as int, phase) == Ok::<
                Option<Seq<char>>,
                DecodeError,
            >(None) && next == cursor + width,
            Err(e) => optional_text(buffer@, cursor as int, width as int, phase) == Err::<
                Option<Seq<char>>,
                DecodeError,
            >(e),
        },
{
    match slot_text(buffer, cursor, width, phase) {
        Ok(t) => {
            let inner = t.trim();
            proof {
                lemma_trimmed_blank(t@);
                lemma_trimmed_fixed(t@);
            }
            if inner.is_empty() {
                Ok((None, cursor + width))
            } else {
                Ok((Some(inner.to_owned()), cursor + width))
            }
        },
        Err(e) => Err(e),
    }
}

/// Reads a field and strips the white space around its text. The field is
/// always present, if only with an empty value.
pub fn read_trimmed_field(buffer: &[u8], cursor: usize, width: usize, phase: Phase) -> (r: Result<
    (String, usize),
    DecodeError,
>)
    ensures
        match r {
            Ok((value, next)) => trimmed_text(buffer@, cursor as int, width as int, phase) == Ok::<
                Seq<char>,
                DecodeError,
            >(value@) && next == cursor + width,
            Err(e) => trimmed_text(buffer@, cursor as int, width as int, phase) == Err::<
                Seq<char>,
                DecodeError,
            >(e),
        },
{
    match slot_text(buffer, cursor, width, phase) {
        Ok(t) => Ok((t.trim().to_owned(), cursor + width)),
        Err(e) => Err(e),
    }
}

/// Borrows the texts of three consecutive fields.
fn read_triple<'a>(
    buffer: &'a [u8],
    cursor: usize,
    w0: usize,
    w1: usize,
    w2: usize,
    phase: Phase,
) -> (r: Result<(&'a str, &'a str, &'a str), DecodeError>)
    requires
        w0 + w1 + w2 <= 16,
    ensures
        match r {
            Ok((a, b, c)) => triple_text(
                buffer@,
                cursor as int,
                w0 as int,
                w1 as int,
                w2 as int,
                phase,
            ) == Ok::<(Seq<char>, Seq<char>, Seq<char>), DecodeError>((a@, b@, c@)) && cursor + w0
                + w1 + w2 <= buffer@.len() <= usize::MAX,
            Err(e) => triple_text(buffer@, cursor as int, w0 as int, w1 as int, w2 as int, phase)
                == Err::<(Seq<char>, Seq<char>, Seq<char>), DecodeError>(e),
        },
{
    let a = slot_text(buffer, cursor, w0, phase)?;
    let b = slot_text(buffer, cursor + w0, w1, phase)?;
    let c = slot_text(buffer, cursor + w0 + w1, w2, phase)?;
    Ok((a, b, c))
}

/// Joins three parts by a separator.
fn join3(a: &str, b: &str, c: &str, separator: char) -> (r: String)
    ensures
        r@ == joined(a@, b@, c@, separator),
{
    let mut s = a.to_owned();
    s.push(separator);
    s.append(b);
    s.push(separator);
    s.append(c);
    assert(s@ =~= joined(a@, b@, c@, separator));
    s
}

/// Reads a date: year, month and day, joined by `/`. A slot that is blank
/// throughout yields nothing.
pub fn read_date(buffer: &[u8], cursor: usize, phase: Phase) -> (r: Result<
    (Option<String>, usize),
    DecodeError,
>)
    ensures
        match r {
            Ok((Some(value), next)) => date_text(buffer@, cursor as int, phase) == Ok::<
                Option<Seq<char>>,
                DecodeError,
            >(Some(value@)) && next == cursor + 8,
            Ok((None, next)) => date_text(buffer@, cursor as int, phase) == Ok::<
                Option<Seq<char>>,
                DecodeError,
            >(None) && next == cursor + 8,
            Err(e) => date_text(buffer@, cursor as int, phase) == Err::<
                Option<Seq<char>>,
                DecodeError,
            >(e),
        },
{
    let (y, m, d) = read_triple(buffer, cursor, 4, 2, 2, phase)?;
    if is_blank(y) && is_blank(m) && is_blank(d) {
        return Ok((None, cursor + 8));
    }
    let text = join3(y, m, d, '/');
    Ok((Some(text.as_str().trim().to_owned()), cursor + 8))
}

/// Reads a date and time: the date joined by `/`, a space, and the time
/// joined by `:`. A slot that is blank throughout yields nothing.
pub fn read_date_time(buffer: &[u8], cursor: usize, phase: Phase) -> (r: Result<
    (Option<String>, usize),
    DecodeError,
>)
    ensures
        match r {
            Ok((Some(value), next)) => date_time_text(buffer@, cursor as int, phase) == Ok::<
                Option<Seq<char>>,
                DecodeError,
            >(Some(value@)) && next == cursor + 14,
            Ok((None, next)) => date_time_text(buffer@, cursor as int, phase) == Ok::<
                Option<Seq<char>>,
                DecodeError,
            >(None) && next == cursor + 14,
            Err(e) => date_time_text(buffer@, cursor as int, phase) == Err::<
                Option<Seq<char>>,
                DecodeError,
            >(e),
        },
{
    let (y, m, d) = read_triple(buffer, cursor, 4, 2, 2, phase)?;
    let (h, mi, s) = read_triple(buffer, cursor + 8, 2, 2, 2, phase)?;
    if is_blank(y) && is_blank(m) && is_blank(d) && is_blank(h) && is_blank(mi) && is_blank(s) {
        return Ok((None, cursor + 14));
    }
    let mut text = join3(y, m, d, '/');
    text.push(' ');
    let time = join3(h, mi, s, ':');
    text.append(time.as_str());
    assert(text@ =~= joined(y@, m@, d@, '/') + seq![' '] + joined(h@, mi@, s@, ':'));
    Ok((Some(text.as_str().trim().to_owned()), cursor + 14))
}

/// Reads a three-byte colour and renders it in hexadecimal.
pub fn read_colour(buffer: &[u8], cursor: usize, phase: Phase) -> (r: Result<
    (String, usize),
    DecodeError,
>)
    ensures
        match r {
            Ok((value, next)) => colour_field_text(buffer@, cursor as int, phase) == Ok::<
                Seq<char>,
                DecodeError,
            >(value@) && next == cursor + 3,
            Err(e) => colour_field_text(buffer@, cursor as int, phase) == Err::<
                Seq<char>,
                DecodeError,
            >(e),
        },
{
    if cursor > buffer.len() || 3 > buffer.len() - cursor {
        return Err(DecodeError { kind: ErrorKind::TruncatedInput, phase, offset: cursor });
    }
    Ok((make_colour_text(buffer[cursor], buffer[cursor + 1], buffer[cursor + 2]), cursor + 3))
}

} // verus!
