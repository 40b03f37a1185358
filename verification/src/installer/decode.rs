//! Decoding the bytes of a `ModuleConfig.xml`.
use vstd::prelude::*;
use vstd::utf8::{
    char_is_scalar, char_u32_cast, decode_utf8, encode_utf8, encode_utf8_decode_utf8,
    encode_utf8_first_scalar, encode_utf8_valid_utf8, valid_utf8,
};

use crate::number::{decimal, decimal_string};
use crate::text::concat3;

verus! {

// ── Trusted: std conversions ────────────────────────────────────────────────

/// `char::from_u32` converts exactly the Unicode scalar values.
pub assume_specification[ char::from_u32 ](i: u32) -> (r: Option<char>)
    ensures
        r == if i <= 0xd7ff || 0xe000 <= i <= 0x10ffff {
            Some(i as char)
        } else {
            None
        },
;

/// `String::from_utf8` succeeds exactly on valid UTF-8, with the characters
/// that the bytes encode.
#[verifier::external_body]
pub(crate) fn utf8_text(bytes: Vec<u8>) -> (r: Option<String>)
    ensures
        match r {
            Some(s) => valid_utf8(bytes@) && s@ == decode_utf8(bytes@),
            None => !valid_utf8(bytes@),
        },
{
    String::from_utf8(bytes).ok()
}

// ── UTF-16 ──────────────────────────────────────────────────────────────────

/// The 16-bit units that bytes stand for, low byte first or high byte first.
pub open spec fn units(b: Seq<u8>, low_first: bool) -> Seq<u16> {
    Seq::new(
        b.len() / 2,
        |i: int|
            if low_first {
                (b[2 * i] + 256 * b[2 * i + 1]) as u16
            } else {
                (256 * b[2 * i] + b[2 * i + 1]) as u16
            },
    )
}

/// The characters that 16-bit units encode; none if a surrogate stands alone.
pub open spec fn utf16_chars(u: Seq<u16>) -> Option<Seq<char>>
    decreases u.len(),
{
    if u.len() == 0 {
        Some(Seq::empty())
    } else if u[0] < 0xd800 || u[0] > 0xdfff {
        match utf16_chars(u.skip(1)) {
            Some(rest) => Some(seq![u[0] as char] + rest),
            None => None,
        }
    } else if u[0] <= 0xdbff && u.len() >= 2 && 0xdc00 <= u[1] <= 0xdfff {
        let code = 0x10000 + (u[0] - 0xd800) * 0x400 + (u[1] - 0xdc00);
        match utf16_chars(u.skip(2)) {
            Some(rest) => Some(seq![code as char] + rest),
            None => None,
        }
    } else {
        None
    }
}

/// The units of the bytes from `from` on.
fn units_of(raw: &[u8], from: usize, low_first: bool) -> (r: Vec<u16>)
    requires
        from <= raw@.len(),
    ensures
        r@ == units(raw@.skip(from as int), low_first),
{
    let ghost b = raw@.skip(from as int);
    let mut r: Vec<u16> = Vec::new();
    let n: usize = (raw.len() - from) / 2;
    for i in 0..n
        invariant
            from <= raw@.len(),
            n == (raw@.len() - from) / 2,
            b == raw@.skip(from as int),
            raw@.len() <= usize::MAX,
            r@ == units(b, low_first).take(i as int),
    {
        let x: u16 = raw[from + 2 * i] as u16;
        let y: u16 = raw[from + 2 * i + 1] as u16;
        let u: u16 = if low_first {
            x + 256 * y
        } else {
            256 * x + y
        };
        r.push(u);
        proof {
            assert(b[2 * i] == raw@[from + 2 * i]);
            assert(b[2 * i + 1] == raw@[from + 2 * i + 1]);
            assert(units(b, low_first)[i as int] == u);
            assert(units(b, low_first).take(i + 1) =~= units(b, low_first).take(i as int).push(u));
        }
    }
    assert(units(b, low_first).take(n as int) =~= units(b, low_first));
    r
}

/// `acc` in front of what the rest decodes to.
spec fn continued(acc: Seq<char>, rest: Option<Seq<char>>) -> Option<Seq<char>> {
    match rest {
        Some(r) => Some(acc + r),
        None => None,
    }
}

/// Decodes UTF-16 units.
fn decode_units(u: &Vec<u16>) -> (r: Option<String>)
    ensures
        r.deep_view() == utf16_chars(u@),
{
    let mut acc: String = String::new();
    let mut i: usize = 0;
    proof {
        assert(u@.skip(0) =~= u@);
        if let Some(rest) = utf16_chars(u@) {
            assert(acc@ + rest =~= rest);
        }
    }
    while i < u.len()
        invariant
            i <= u@.len(),
            utf16_chars(u@) == continued(acc@, utf16_chars(u@.skip(i as int))),
        decreases u@.len() - i,
    {
        let ghost left = u@.skip(i as int);
        let ghost before = acc@;
        let a = u[i];
        assert(left[0] == a);
        if a < 0xd800 || a > 0xdfff {
            let c = char::from_u32(a as u32).unwrap();
            acc.push(c);
            i += 1;
            proof {
                assert(left.skip(1) =~= u@.skip(i as int));
                if let Some(rest) = utf16_chars(u@.skip(i as int)) {
                    assert(before + (seq![c] + rest) =~= acc@ + rest);
                }
            }
        } else if a <= 0xdbff && i + 1 < u.len() && u[i + 1] >= 0xdc00 && u[i + 1] <= 0xdfff {
            let b = u[i + 1];
            assert(left[1] == b);
            let code: u32 = 0x10000 + (a as u32 - 0xd800) * 0x400 + (b as u32 - 0xdc00);
            let c = char::from_u32(code).unwrap();
            acc.push(c);
            i += 2;
            proof {
                assert(left.skip(2) =~= u@.skip(i as int));
                if let Some(rest) = utf16_chars(u@.skip(i as int)) {
                    assert(before + (seq![c] + rest) =~= acc@ + rest);
                }
            }
        } else {
            assert(left.len() >= 2 ==> left[1] == u@[i + 1]);
            return None;
        }
    }
    proof {
        assert(acc@ + Seq::<char>::empty() =~= acc@);
    }
    Some(acc)
}

// ── Windows-1252 ────────────────────────────────────────────────────────────

/// The character that a byte stands for in Windows-1252; the bytes that stand
/// for none give the replacement character.
pub open spec fn windows_1252_char(b: u8) -> char {
    if b < 0x80 || b >= 0xa0 {
        b as char
    } else {
        seq![
            '\u{20AC}', '\u{FFFD}', '\u{201A}', '\u{0192}', '\u{201E}', '\u{2026}', '\u{2020}',
            '\u{2021}', '\u{02C6}', '\u{2030}', '\u{0160}', '\u{2039}', '\u{0152}', '\u{FFFD}',
            '\u{017D}', '\u{FFFD}', '\u{FFFD}', '\u{2018}', '\u{2019}', '\u{201C}', '\u{201D}',
            '\u{2022}', '\u{2013}', '\u{2014}', '\u{02DC}', '\u{2122}', '\u{0161}', '\u{203A}',
            '\u{0153}', '\u{FFFD}', '\u{017E}', '\u{0178}',
        ][b - 0x80]
    }
}

fn windows_1252_to_char(b: u8) -> (c: char)
    ensures
        c == windows_1252_char(b),
{
    if b < 0x80 || b >= 0xa0 {
        b as char
    } else {
        match b {
            0x80 => '\u{20AC}',
            0x82 => '\u{201A}',
            0x83 => '\u{0192}',
            0x84 => '\u{201E}',
            0x85 => '\u{2026}',
            0x86 => '\u{2020}',
            0x87 => '\u{2021}',
            0x88 => '\u{02C6}',
            0x89 => '\u{2030}',
            0x8a => '\u{0160}',
            0x8b => '\u{2039}',
            0x8c => '\u{0152}',
            0x8e => '\u{017D}',
            0x91 => '\u{2018}',
            0x92 => '\u{2019}',
            0x93 => '\u{201C}',
            0x94 => '\u{201D}',
            0x95 => '\u{2022}',
            0x96 => '\u{2013}',
            0x97 => '\u{2014}',
            0x98 => '\u{02DC}',
            0x99 => '\u{2122}',
            0x9a => '\u{0161}',
            0x9b => '\u{203A}',
            0x9c => '\u{0153}',
            0x9e => '\u{017E}',
            0x9f => '\u{0178}',
            _ => '\u{FFFD}',
        }
    }
}

/// Decodes bytes as Windows-1252.
pub fn decode_windows_1252(bytes: &Vec<u8>) -> (r: String)
    ensures
        r@ == bytes@.map_values(|b: u8| windows_1252_char(b)),
{
    let mut r: String = String::new();
    for i in 0..bytes.len()
        invariant
            r@ == bytes@.take(i as int).map_values(|b: u8| windows_1252_char(b)),
    {
        r.push(windows_1252_to_char(bytes[i]));
        assert(r@ =~= bytes@.take(i + 1).map_values(|b: u8| windows_1252_char(b)));
    }
    assert(bytes@.take(bytes@.len() as int) =~= bytes@);
    r
}

// ── The whole document ──────────────────────────────────────────────────────

/// What decoding the UTF-16 payload gives; `name` is `LE` or `BE`.
pub open spec fn utf16_decoded(payload: Seq<u8>, low_first: bool, name: Seq<char>) -> Result<
    Seq<char>,
    Seq<char>,
> {
    if payload.len() % 2 != 0 {
        Err(
            "UTF-16 "@ + name + " data has odd byte count ("@ + decimal(payload.len())
                + " bytes after BOM)"@,
        )
    } else {
        match utf16_chars(units(payload, low_first)) {
            Some(s) => Ok(s),
            None => Err(
                "UTF-16 "@ + name + " decode error: invalid utf-16: lone surrogate found"@,
            ),
        }
    }
}

/// The bytes without a UTF-8 byte order mark in front.
pub open spec fn without_utf8_bom(raw: Seq<u8>) -> Seq<u8> {
    if raw.len() >= 3 && raw[0] == 0xef && raw[1] == 0xbb && raw[2] == 0xbf {
        raw.skip(3)
    } else {
        raw
    }
}

/// What the bytes of a configuration decode to: UTF-16 after a byte order mark,
/// else UTF-8 if they are valid UTF-8, else Windows-1252.
pub open spec fn decoded(raw: Seq<u8>) -> Result<Seq<char>, Seq<char>> {
    if raw.len() >= 2 && raw[0] == 0xff && raw[1] == 0xfe {
        utf16_decoded(raw.skip(2), true, "LE"@)
    } else if raw.len() >= 2 && raw[0] == 0xfe && raw[1] == 0xff {
        utf16_decoded(raw.skip(2), false, "BE"@)
    } else {
        let bytes = without_utf8_bom(raw);
        if valid_utf8(bytes) {
            Ok(decode_utf8(bytes))
        } else {
            Ok(bytes.map_values(|b: u8| windows_1252_char(b)))
        }
    }
}

/// The characters of a successful result or of an error message.
pub open spec fn result_chars(r: Result<String, String>) -> Result<Seq<char>, Seq<char>> {
    match r {
        Ok(s) => Ok(s@),
        Err(s) => Err(s@),
    }
}

fn decode_utf16(raw: &[u8], low_first: bool, name: &str) -> (r: Result<String, String>)
    requires
        raw@.len() >= 2,
    ensures
        result_chars(r) == utf16_decoded(raw@.skip(2), low_first, name@),
{
    let n: usize = raw.len() - 2;
    if n % 2 != 0 {
        let head = concat3("UTF-16 ", name, " data has odd byte count (");
        return Err(concat3(head.as_str(), decimal_string(n as u128).as_str(), " bytes after BOM)"));
    }
    match decode_units(&units_of(raw, 2, low_first)) {
        Some(s) => Ok(s),
        None => Err(
            concat3("UTF-16 ", name, " decode error: invalid utf-16: lone surrogate found"),
        ),
    }
}

/// Decodes the raw bytes of a `ModuleConfig.xml`.
pub fn decode_fomod_xml(raw: &[u8]) -> (r: Result<String, String>)
    ensures
        result_chars(r) == decoded(raw@),
{
    if raw.len() >= 2 && raw[0] == 0xff && raw[1] == 0xfe {
        return decode_utf16(raw, true, "LE");
    }
    if raw.len() >= 2 && raw[0] == 0xfe && raw[1] == 0xff {
        return decode_utf16(raw, false, "BE");
    }
    let from: usize = if raw.len() >= 3 && raw[0] == 0xef && raw[1] == 0xbb && raw[2] == 0xbf {
        3
    } else {
        0
    };
    let mut bytes: Vec<u8> = Vec::new();
    let mut copy: Vec<u8> = Vec::new();
    for i in from..raw.len()
        invariant
            from <= raw@.len(),
            bytes@ == raw@.subrange(from as int, i as int),
            copy@ == bytes@,
    {
        bytes.push(raw[i]);
        copy.push(raw[i]);
        assert(bytes@ =~= raw@.subrange(from as int, i + 1));
    }
    assert(bytes@ =~= without_utf8_bom(raw@));
    match utf8_text(bytes) {
        Some(s) => Ok(s),
        None => Ok(decode_windows_1252(&copy)),
    }
}

// ── Reading text back ───────────────────────────────────────────────────────

/// The 16-bit units of one character.
pub open spec fn utf16_of(c: char) -> Seq<u16> {
    let n = c as u32;
    if n < 0x10000 {
        seq![n as u16]
    } else {
        seq![
            (0xd800 + (n - 0x10000) / 0x400) as u16,
            (0xdc00 + (n - 0x10000) % 0x400) as u16,
        ]
    }
}

/// The 16-bit units of a text.
pub open spec fn utf16_encoded(text: Seq<char>) -> Seq<u16>
    decreases text.len(),
{
    if text.len() == 0 {
        Seq::empty()
    } else {
        utf16_of(text[0]) + utf16_encoded(text.skip(1))
    }
}

/// The bytes of 16-bit units, low byte first or high byte first.
pub open spec fn unit_bytes(u: Seq<u16>, low_first: bool) -> Seq<u8> {
    Seq::new(
        2 * u.len(),
        |i: int|
            if (i % 2 == 0) == low_first {
                (u[i / 2] % 256) as u8
            } else {
                (u[i / 2] / 256) as u8
            },
    )
}

/// A text in UTF-16 behind a byte order mark.
pub open spec fn utf16_document(text: Seq<char>, low_first: bool) -> Seq<u8> {
    let mark: Seq<u8> = if low_first {
        seq![0xff, 0xfe]
    } else {
        seq![0xfe, 0xff]
    };
    mark + unit_bytes(utf16_encoded(text), low_first)
}

proof fn lemma_utf16_chars_encoded(text: Seq<char>)
    ensures
        utf16_chars(utf16_encoded(text)) == Some(text),
    decreases text.len(),
{
    if text.len() == 0 {
        assert(text =~= Seq::<char>::empty());
    } else {
        let c = text[0];
        let n = c as u32;
        let rest = text.skip(1);
        char_is_scalar(c);
        char_u32_cast(c, n);
        lemma_utf16_chars_encoded(rest);
        let u = utf16_encoded(text);
        assert(text =~= seq![c] + rest);
        if n < 0x10000 {
            assert(u[0] == n);
            assert(u.skip(1) =~= utf16_encoded(rest));
        } else {
            assert(u[0] == 0xd800 + (n - 0x10000) / 0x400);
            assert(u[1] == 0xdc00 + (n - 0x10000) % 0x400);
            assert(u.skip(2) =~= utf16_encoded(rest));
        }
    }
}

/// A text that was stored as UTF-16 in either byte order, behind a byte order
/// mark, is decoded to itself.
pub proof fn utf16_text_is_read_back(text: Seq<char>, low_first: bool)
    ensures
        decoded(utf16_document(text, low_first)) == Ok::<Seq<char>, Seq<char>>(text),
{
    let u = utf16_encoded(text);
    let bytes = unit_bytes(u, low_first);
    let raw = utf16_document(text, low_first);
    lemma_utf16_chars_encoded(text);
    assert(raw.skip(2) =~= bytes);
    assert forall|i: int| 0 <= i < u.len() implies #[trigger] units(bytes, low_first)[i]
        == u[i] by {
        assert((2 * i) / 2 == i && (2 * i) % 2 == 0);
        assert((2 * i + 1) / 2 == i && (2 * i + 1) % 2 == 1);
    }
    assert(units(bytes, low_first) =~= u);
}

/// A text that was stored as UTF-8 is decoded to itself, with a byte order mark
/// in front or, unless the text itself begins with one, without.
pub proof fn utf8_text_is_read_back(text: Seq<char>, mark: bool)
    requires
        !mark ==> text.len() == 0 || text[0] != '\u{FEFF}',
    ensures
        decoded(
            if mark {
                seq![0xefu8, 0xbbu8, 0xbfu8] + encode_utf8(text)
            } else {
                encode_utf8(text)
            },
        ) == Ok::<Seq<char>, Seq<char>>(text),
{
    let bytes = encode_utf8(text);
    let raw = if mark {
        seq![0xefu8, 0xbbu8, 0xbfu8] + bytes
    } else {
        bytes
    };
    encode_utf8_valid_utf8(text);
    encode_utf8_decode_utf8(text);
    if mark {
        assert(raw.skip(3) =~= bytes);
    } else if text.len() > 0 {
        encode_utf8_first_scalar(text);
        assert(((0xefu8 & 0x0fu8) as u32) << 12 | ((0xbbu8 & 0x3fu8) as u32) << 6 | ((0xbfu8
            & 0x3fu8) as u32) == 0xfeffu32) by (bit_vector);
    }
}

} // verus!
