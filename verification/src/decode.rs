//! Tolerant text decoding for MoTeC's files.
//!
//! MoTeC writes XML declared as UTF-8 but emits Windows-1252 bytes for
//! non-ASCII characters (a degree sign is the single byte `0xB0`), and the
//! script files follow the same convention. Bytes are therefore decoded as
//! UTF-8 when they are valid UTF-8, and as Windows-1252 (which never fails)
//! otherwise. A UTF-16 byte-order mark selects UTF-16, and a UTF-8 byte-order
//! mark is dropped. [`encode`] turns a string back into bytes of either
//! encoding, so a file can be written back in the encoding it was read in.
use vstd::prelude::*;
use vstd::utf8::*;
use vstd::string::StringSliceAdditionalSpecFns;
use vstd::string::StringExecFns;
use crate::text::{utf16_len, char_utf16_len, lemma_utf16_len_concat, push_char, push_decimal, push_decimal_u64, decimal, debug_char, char_debug_text, push_hex4, hex_upper, zero_padded};

verus! {

/// The byte encoding a MoTeC file was decoded from.
#[derive(Debug, Clone, Copy, PartialEq, Eq, Structural)]
pub enum Encoding {
    /// Valid UTF-8 (the common case, and what the XML declaration claims).
    Utf8,
    /// Windows-1252 (what MoTeC actually emits for non-ASCII bytes).
    Windows1252,
}

/// Upper bound on the size of a MoTeC text file the toolchain reads into
/// memory (64 MiB); larger files are refused before any allocation.
pub const MAX_TEXT_FILE_BYTES: u64 = 64 * 1024 * 1024;

/// The message with which a read of a `len`-byte file is refused under a
/// `max_bytes` cap.
pub open spec fn read_limit_text(len: nat, max_bytes: nat) -> Seq<char> {
    "file is "@ + decimal(len) + " bytes, exceeding the "@ + decimal(max_bytes) + "-byte read limit"@
}

/// Whether a file of `len` bytes may be read under a `max_bytes` cap: `None`
/// when it may, otherwise the message with which the read is refused. The
/// check runs on the file's metadata, before any allocation.
pub fn read_limit_error(len: u64, max_bytes: u64) -> (r: Option<String>)
    ensures
        len <= max_bytes ==> r is None,
        len > max_bytes ==> (r matches Some(m) && m@ == read_limit_text(len as nat, max_bytes as nat)),
{
    if len > max_bytes {
        let mut m = String::from_str("file is ");
        push_decimal_u64(&mut m, len);
        m.append(" bytes, exceeding the ");
        push_decimal_u64(&mut m, max_bytes);
        m.append("-byte read limit");
        Some(m)
    } else {
        None
    }
}

/// The replacement character, U+FFFD.
pub const REPLACEMENT: char = '\u{FFFD}';

// ---------------------------------------------------------------------------
// The Windows-1252 table

/// The Unicode character of a Windows-1252 byte. `0x00-0x7F` and `0xA0-0xFF`
/// are Latin-1 (the first 256 code points); the `0x80-0x9F` range has its own
/// table, and its five undefined bytes map to U+FFFD.
pub open spec fn spec_cp1252_char(b: u8) -> char {
    if b == 0x80 { '\u{20AC}' }
    else if b == 0x82 { '\u{201A}' }
    else if b == 0x83 { '\u{0192}' }
    else if b == 0x84 { '\u{201E}' }
    else if b == 0x85 { '\u{2026}' }
    else if b == 0x86 { '\u{2020}' }
    else if b == 0x87 { '\u{2021}' }
    else if b == 0x88 { '\u{02C6}' }
    else if b == 0x89 { '\u{2030}' }
    else if b == 0x8A { '\u{0160}' }
    else if b == 0x8B { '\u{2039}' }
    else if b == 0x8C { '\u{0152}' }
    else if b == 0x8E { '\u{017D}' }
    else if b == 0x91 { '\u{2018}' }
    else if b == 0x92 { '\u{2019}' }
    else if b == 0x93 { '\u{201C}' }
    else if b == 0x94 { '\u{201D}' }
    else if b == 0x95 { '\u{2022}' }
    else if b == 0x96 { '\u{2013}' }
    else if b == 0x97 { '\u{2014}' }
    else if b == 0x98 { '\u{02DC}' }
    else if b == 0x99 { '\u{2122}' }
    else if b == 0x9A { '\u{0161}' }
    else if b == 0x9B { '\u{203A}' }
    else if b == 0x9C { '\u{0153}' }
    else if b == 0x9E { '\u{017E}' }
    else if b == 0x9F { '\u{0178}' }
    else if is_cp1252_undefined(b) { REPLACEMENT }
    else { b as char }
}

/// The five bytes that Windows-1252 leaves undefined.
pub open spec fn is_cp1252_undefined(b: u8) -> bool {
    b == 0x81 || b == 0x8D || b == 0x8F || b == 0x90 || b == 0x9D
}

/// The Windows-1252 byte of a character, or `?` (`0x3F`) for a character that
/// Windows-1252 cannot represent.
pub open spec fn spec_char_to_cp1252(c: char) -> u8 {
    let v = c as u32;
    if v <= 0x7F || (0xA0 <= v && v <= 0xFF) { v as u8 }
    else if v == 0x20AC { 0x80 }
    else if v == 0x201A { 0x82 }
    else if v == 0x0192 { 0x83 }
    else if v == 0x201E { 0x84 }
    else if v == 0x2026 { 0x85 }
    else if v == 0x2020 { 0x86 }
    else if v == 0x2021 { 0x87 }
    else if v == 0x02C6 { 0x88 }
    else if v == 0x2030 { 0x89 }
    else if v == 0x0160 { 0x8A }
    else if v == 0x2039 { 0x8B }
    else if v == 0x0152 { 0x8C }
    else if v == 0x017D { 0x8E }
    else if v == 0x2018 { 0x91 }
    else if v == 0x2019 { 0x92 }
    else if v == 0x201C { 0x93 }
    else if v == 0x201D { 0x94 }
    else if v == 0x2022 { 0x95 }
    else if v == 0x2013 { 0x96 }
    else if v == 0x2014 { 0x97 }
    else if v == 0x02DC { 0x98 }
    else if v == 0x2122 { 0x99 }
    else if v == 0x0161 { 0x9A }
    else if v == 0x203A { 0x9B }
    else if v == 0x0153 { 0x9C }
    else if v == 0x017E { 0x9E }
    else if v == 0x0178 { 0x9F }
    else { 0x3F }
}

/// Map a single Windows-1252 byte to its Unicode character.
fn cp1252_char(b: u8) -> (c: char)
    ensures
        c == spec_cp1252_char(b),
{
    match b {
        0x80 => '\u{20AC}',
        0x82 => '\u{201A}',
        0x83 => '\u{0192}',
        0x84 => '\u{201E}',
        0x85 => '\u{2026}',
        0x86 => '\u{2020}',
        0x87 => '\u{2021}',
        0x88 => '\u{02C6}',
        0x89 => '\u{2030}',
        0x8A => '\u{0160}',
        0x8B => '\u{2039}',
        0x8C => '\u{0152}',
        0x8E => '\u{017D}',
        0x91 => '\u{2018}',
        0x92 => '\u{2019}',
        0x93 => '\u{201C}',
        0x94 => '\u{201D}',
        0x95 => '\u{2022}',
        0x96 => '\u{2013}',
        0x97 => '\u{2014}',
        0x98 => '\u{02DC}',
        0x99 => '\u{2122}',
        0x9A => '\u{0161}',
        0x9B => '\u{203A}',
        0x9C => '\u{0153}',
        0x9E => '\u{017E}',
        0x9F => '\u{0178}',
        0x81 | 0x8D | 0x8F | 0x90 | 0x9D => REPLACEMENT,
        _ => b as char,
    }
}

/// Map a character to its single Windows-1252 byte, or `?` for characters
/// Windows-1252 cannot represent.
fn char_to_cp1252(c: char) -> (b: u8)
    ensures
        b == spec_char_to_cp1252(c),
{
    let v = c as u32;
    if v <= 0x7F || (0xA0 <= v && v <= 0xFF) {
        v as u8
    } else {
        match v {
            0x20AC => 0x80,
            0x201A => 0x82,
            0x0192 => 0x83,
            0x201E => 0x84,
            0x2026 => 0x85,
            0x2020 => 0x86,
            0x2021 => 0x87,
            0x02C6 => 0x88,
            0x2030 => 0x89,
            0x0160 => 0x8A,
            0x2039 => 0x8B,
            0x0152 => 0x8C,
            0x017D => 0x8E,
            0x2018 => 0x91,
            0x2019 => 0x92,
            0x201C => 0x93,
            0x201D => 0x94,
            0x2022 => 0x95,
            0x2013 => 0x96,
            0x2014 => 0x97,
            0x02DC => 0x98,
            0x2122 => 0x99,
            0x0161 => 0x9A,
            0x203A => 0x9B,
            0x0153 => 0x9C,
            0x017E => 0x9E,
            0x0178 => 0x9F,
            _ => 0x3F,
        }
    }
}

/// Every defined Windows-1252 byte comes back from its character.
pub proof fn law_cp1252_byte_round_trip(b: u8)
    requires
        !is_cp1252_undefined(b),
    ensures
        spec_char_to_cp1252(spec_cp1252_char(b)) == b,
{
}

/// Every character that Windows-1252 can represent comes back from its byte.
pub proof fn law_cp1252_char_round_trip(c: char)
    requires
        spec_char_to_cp1252(c) != 0x3F || c == '?',
    ensures
        spec_cp1252_char(spec_char_to_cp1252(c)) == c,
{
}

/// The Windows-1252 code chart for the bytes `0x80`-`0x9F`, as Unicode code
/// points, byte `0x80` first; the five undefined bytes are listed as U+FFFD.
pub open spec fn windows_1252_c1_chart() -> Seq<u32> {
    seq![
        0x20AC, 0xFFFD, 0x201A, 0x0192, 0x201E, 0x2026, 0x2020, 0x2021,
        0x02C6, 0x2030, 0x0160, 0x2039, 0x0152, 0xFFFD, 0x017D, 0xFFFD,
        0xFFFD, 0x2018, 0x2019, 0x201C, 0x201D, 0x2022, 0x2013, 0x2014,
        0x02DC, 0x2122, 0x0161, 0x203A, 0x0153, 0xFFFD, 0x017E, 0x0178,
    ]
}

/// Decoding a Windows-1252 byte follows the code chart: the bytes outside
/// `0x80`-`0x9F` are the Latin-1 code points of the same value, and each byte of
/// `0x80`-`0x9F` is the code point the chart lists for it.
pub proof fn law_cp1252_decode_follows_chart(b: u8)
    ensures
        b < 0x80 || b >= 0xA0 ==> spec_cp1252_char(b) as u32 == b as u32,
        0x80 <= b < 0xA0 ==> spec_cp1252_char(b) as u32 == windows_1252_c1_chart()[b - 0x80],
{
    let t = windows_1252_c1_chart();
    assert(t.len() == 32);
    if 0x80 <= b < 0xA0 {
        assert(t[0] == 0x20AC && t[1] == 0xFFFD && t[2] == 0x201A && t[3] == 0x0192);
        assert(t[4] == 0x201E && t[5] == 0x2026 && t[6] == 0x2020 && t[7] == 0x2021);
        assert(t[8] == 0x02C6 && t[9] == 0x2030 && t[10] == 0x0160 && t[11] == 0x2039);
        assert(t[12] == 0x0152 && t[13] == 0xFFFD && t[14] == 0x017D && t[15] == 0xFFFD);
        assert(t[16] == 0xFFFD && t[17] == 0x2018 && t[18] == 0x2019 && t[19] == 0x201C);
        assert(t[20] == 0x201D && t[21] == 0x2022 && t[22] == 0x2013 && t[23] == 0x2014);
        assert(t[24] == 0x02DC && t[25] == 0x2122 && t[26] == 0x0161 && t[27] == 0x203A);
        assert(t[28] == 0x0153 && t[29] == 0xFFFD && t[30] == 0x017E && t[31] == 0x0178);
    }
}

/// Encoding a character as Windows-1252 follows the code chart: a Latin-1 code
/// point outside `0x80`-`0x9F` is its own byte, a character the chart lists for
/// a byte of `0x80`-`0x9F` is that byte, and any other character is `?`.
pub proof fn law_cp1252_encode_follows_chart(c: char)
    ensures
        (c as u32) < 0x80 || (0xA0 <= (c as u32) && (c as u32) <= 0xFF) ==> spec_char_to_cp1252(c) as u32 == c as u32,
        forall|i: int|
            0 <= i < 32 && #[trigger] windows_1252_c1_chart()[i] == c as u32 && c as u32 != 0xFFFD
                ==> spec_char_to_cp1252(c) == 0x80 + i,
        (0x80 <= (c as u32) && (c as u32) < 0xA0 || (c as u32) > 0xFF) && (forall|i: int|
            0 <= i < 32 ==> #[trigger] windows_1252_c1_chart()[i] != c as u32 || c as u32 == 0xFFFD)
            ==> spec_char_to_cp1252(c) == 0x3F,
{
    let t = windows_1252_c1_chart();
    assert(t[0] == 0x20AC && t[1] == 0xFFFD && t[2] == 0x201A && t[3] == 0x0192);
    assert(t[4] == 0x201E && t[5] == 0x2026 && t[6] == 0x2020 && t[7] == 0x2021);
    assert(t[8] == 0x02C6 && t[9] == 0x2030 && t[10] == 0x0160 && t[11] == 0x2039);
    assert(t[12] == 0x0152 && t[13] == 0xFFFD && t[14] == 0x017D && t[15] == 0xFFFD);
    assert(t[16] == 0xFFFD && t[17] == 0x2018 && t[18] == 0x2019 && t[19] == 0x201C);
    assert(t[20] == 0x201D && t[21] == 0x2022 && t[22] == 0x2013 && t[23] == 0x2014);
    assert(t[24] == 0x02DC && t[25] == 0x2122 && t[26] == 0x0161 && t[27] == 0x203A);
    assert(t[28] == 0x0153 && t[29] == 0xFFFD && t[30] == 0x017E && t[31] == 0x0178);
}

// ---------------------------------------------------------------------------
// Decoding

/// `String::from_utf8`: the string of the bytes when they are valid UTF-8;
/// otherwise the bytes are handed back (`FromUtf8Error::into_bytes`).
#[verifier::external_body]
fn string_from_utf8(bytes: Vec<u8>) -> (r: Result<String, Vec<u8>>)
    ensures
        match r {
            Ok(s) => valid_utf8(bytes@) && s@ == decode_utf8(bytes@),
            Err(v) => !valid_utf8(bytes@) && v@ == bytes@,
        },
{
    match String::from_utf8(bytes) {
        Ok(s) => Ok(s),
        Err(e) => Err(e.into_bytes()),
    }
}

/// `char::from_u32`: the character with the given value, if it is a Unicode
/// scalar value.
#[verifier::external_body]
fn char_from_u32(v: u32) -> (r: Option<char>)
    ensures
        r == if is_scalar(v) { Some(v as char) } else { None::<char> },
{
    char::from_u32(v)
}

/// True when `b` starts with the bytes of `prefix`.
pub open spec fn starts_with_bytes(b: Seq<u8>, prefix: Seq<u8>) -> bool {
    b.len() >= prefix.len() && b.take(prefix.len() as int) == prefix
}

/// A UTF-16 little-endian byte-order mark (`FF FE`, but not the UTF-32 `FF FE 00 00`).
pub open spec fn is_utf16_le_bom(b: Seq<u8>) -> bool {
    starts_with_bytes(b, seq![0xFFu8, 0xFEu8]) && !starts_with_bytes(b, seq![0xFFu8, 0xFEu8, 0x00u8, 0x00u8])
}

/// A UTF-16 big-endian byte-order mark (`FE FF`).
pub open spec fn is_utf16_be_bom(b: Seq<u8>) -> bool {
    starts_with_bytes(b, seq![0xFEu8, 0xFFu8])
}

/// A UTF-8 byte-order mark (`EF BB BF`).
pub open spec fn has_utf8_bom(b: Seq<u8>) -> bool {
    starts_with_bytes(b, seq![0xEFu8, 0xBBu8, 0xBFu8])
}

/// The UTF-16 code units of `b`, two bytes each in the given byte order; an odd
/// trailing byte is ignored.
pub open spec fn utf16_units(b: Seq<u8>, little_endian: bool) -> Seq<u16> {
    Seq::new(
        b.len() / 2,
        |k: int|
            if little_endian {
                (b[2 * k] + 256 * b[2 * k + 1]) as u16
            } else {
                (256 * b[2 * k] + b[2 * k + 1]) as u16
            },
    )
}

/// A UTF-16 high (leading) surrogate.
pub open spec fn is_high_surrogate(u: u16) -> bool {
    0xD800 <= u <= 0xDBFF
}

/// A UTF-16 low (trailing) surrogate.
pub open spec fn is_low_surrogate(u: u16) -> bool {
    0xDC00 <= u <= 0xDFFF
}

/// The characters of UTF-16 code units, each unpaired surrogate replaced by
/// U+FFFD (what `String::from_utf16_lossy` does).
pub open spec fn decode_utf16_lossy(u: Seq<u16>) -> Seq<char>
    decreases u.len(),
{
    if u.len() == 0 {
        seq![]
    } else if !(0xD800 <= u[0] <= 0xDFFF) {
        seq![u[0] as char] + decode_utf16_lossy(u.drop_first())
    } else if is_high_surrogate(u[0]) && u.len() >= 2 && is_low_surrogate(u[1]) {
        seq![(0x10000 + (u[0] - 0xD800) * 0x400 + (u[1] - 0xDC00)) as char] + decode_utf16_lossy(u.skip(2))
    } else {
        seq![REPLACEMENT] + decode_utf16_lossy(u.drop_first())
    }
}

/// Decoding UTF-16 keeps the count of code units: the UTF-16 length of the
/// decoded text is the number of code units decoded (a surrogate pair gives one
/// character of two units, any other unit one character of one unit; an
/// unpaired surrogate becomes U+FFFD, itself one unit).
pub proof fn law_utf16_decode_keeps_unit_count(u: Seq<u16>)
    ensures
        utf16_len(decode_utf16_lossy(u)) == u.len(),
    decreases u.len(),
{
    if u.len() > 0 {
        let c: char = if !(0xD800 <= u[0] <= 0xDFFF) {
            u[0] as char
        } else if is_high_surrogate(u[0]) && u.len() >= 2 && is_low_surrogate(u[1]) {
            (0x10000 + (u[0] - 0xD800) * 0x400 + (u[1] - 0xDC00)) as char
        } else {
            REPLACEMENT
        };
        let rest = if !(0xD800 <= u[0] <= 0xDFFF) {
            u.drop_first()
        } else if is_high_surrogate(u[0]) && u.len() >= 2 && is_low_surrogate(u[1]) {
            u.skip(2)
        } else {
            u.drop_first()
        };
        let n: int = if is_high_surrogate(u[0]) && u.len() >= 2 && is_low_surrogate(u[1]) { 2 } else { 1 };
        assert(decode_utf16_lossy(u) == seq![c] + decode_utf16_lossy(rest));
        law_utf16_decode_keeps_unit_count(rest);
        lemma_utf16_len_concat(seq![c], decode_utf16_lossy(rest));
        assert(seq![c].drop_last() =~= Seq::<char>::empty());
        assert(utf16_len(Seq::<char>::empty()) == 0);
        assert(utf16_len(seq![c]) == char_utf16_len(c));
        if is_high_surrogate(u[0]) && u.len() >= 2 && is_low_surrogate(u[1]) {
            let hi = u[0] - 0xD800;
            let lo = u[1] - 0xDC00;
            assert(0 <= hi * 0x400 <= 0x3FF * 0x400) by (nonlinear_arith)
                requires
                    0 <= hi <= 0x3FF,
            ;
            assert(0x10000 <= 0x10000 + hi * 0x400 + lo <= 0x10FFFF);
            assert((c as u32) >= 0x10000);
            assert(char_utf16_len(c) == 2);
        } else {
            assert((c as u32) < 0x10000);
            assert(char_utf16_len(c) == 1);
        }
        assert(rest.len() == u.len() - n);
    }
}

/// How UTF-16 code units decode: a unit outside the surrogate range is the
/// character of that code point; a high surrogate followed by a low one is the
/// supplementary character whose offset from U+10000 has the high surrogate's
/// ten bits on top and the low surrogate's ten bits below; any other surrogate
/// is U+FFFD. The rest of the units decode on their own.
pub proof fn law_utf16_decode_units(u: Seq<u16>)
    requires
        u.len() > 0,
    ensures
        !(0xD800 <= u[0] <= 0xDFFF) ==> decode_utf16_lossy(u)[0] as u32 == u[0] as u32
            && decode_utf16_lossy(u).drop_first() == decode_utf16_lossy(u.drop_first()),
        is_high_surrogate(u[0]) && u.len() >= 2 && is_low_surrogate(u[1]) ==> ({
            let c = decode_utf16_lossy(u)[0] as u32;
            &&& 0x10000 <= c <= 0x10FFFF
            &&& (c - 0x10000) / 0x400 == u[0] - 0xD800
            &&& (c - 0x10000) % 0x400 == u[1] - 0xDC00
            &&& decode_utf16_lossy(u).drop_first() == decode_utf16_lossy(u.skip(2))
        }),
        0xD800 <= u[0] <= 0xDFFF && !(is_high_surrogate(u[0]) && u.len() >= 2 && is_low_surrogate(u[1]))
            ==> decode_utf16_lossy(u)[0] == REPLACEMENT && decode_utf16_lossy(u).drop_first()
            == decode_utf16_lossy(u.drop_first()),
{
    if !(0xD800 <= u[0] <= 0xDFFF) {
        assert((seq![u[0] as char] + decode_utf16_lossy(u.drop_first())).drop_first() =~= decode_utf16_lossy(u.drop_first()));
    } else if is_high_surrogate(u[0]) && u.len() >= 2 && is_low_surrogate(u[1]) {
        let hi = u[0] - 0xD800;
        let lo = u[1] - 0xDC00;
        assert(0 <= hi * 0x400 <= 0x3FF * 0x400) by (nonlinear_arith)
            requires
                0 <= hi <= 0x3FF,
        ;
        let v = 0x10000 + hi * 0x400 + lo;
        assert(0x10000 <= v <= 0x10FFFF);
        assert((v as char) as u32 == v);
        vstd::arithmetic::div_mod::lemma_fundamental_div_mod_converse(v - 0x10000, 0x400, hi, lo);
        assert((seq![v as char] + decode_utf16_lossy(u.skip(2))).drop_first() =~= decode_utf16_lossy(u.skip(2)));
    } else {
        assert((seq![REPLACEMENT] + decode_utf16_lossy(u.drop_first())).drop_first() =~= decode_utf16_lossy(u.drop_first()));
    }
}

/// The text of bytes read as Windows-1252.
pub open spec fn cp1252_decode(b: Seq<u8>) -> Seq<char> {
    b.map_values(|x: u8| spec_cp1252_char(x))
}

/// The bytes of a string written as Windows-1252.
pub open spec fn cp1252_encode(s: Seq<char>) -> Seq<u8> {
    s.map_values(|c: char| spec_char_to_cp1252(c))
}

/// The bytes that remain once a leading UTF-8 byte-order mark is dropped.
pub open spec fn without_utf8_bom(b: Seq<u8>) -> Seq<u8> {
    if has_utf8_bom(b) {
        b.skip(3)
    } else {
        b
    }
}

/// How bytes are decoded: UTF-16 after a UTF-16 byte-order mark (reported as
/// UTF-8); else, with a UTF-8 byte-order mark dropped, UTF-8 when the bytes are
/// valid UTF-8 and Windows-1252 otherwise.
pub open spec fn spec_decode_with_encoding(b: Seq<u8>) -> (Seq<char>, Encoding) {
    if is_utf16_le_bom(b) {
        (decode_utf16_lossy(utf16_units(b.skip(2), true)), Encoding::Utf8)
    } else if is_utf16_be_bom(b) {
        (decode_utf16_lossy(utf16_units(b.skip(2), false)), Encoding::Utf8)
    } else {
        let c = without_utf8_bom(b);
        if valid_utf8(c) {
            (decode_utf8(c), Encoding::Utf8)
        } else {
            (cp1252_decode(c), Encoding::Windows1252)
        }
    }
}

/// Decode Windows-1252 bytes; never fails.
fn cp1252_to_string(bytes: &[u8]) -> (s: String)
    ensures
        s@ == cp1252_decode(bytes@),
{
    let mut s = String::new();
    let n = bytes.len();
    for i in 0..n
        invariant
            n == bytes@.len(),
            s@ == cp1252_decode(bytes@.take(i as int)),
    {
        let c = cp1252_char(bytes[i]);
        push_char(&mut s, c);
        assert(cp1252_decode(bytes@.take(i + 1)) =~= cp1252_decode(bytes@.take(i as int)).push(c));
    }
    assert(bytes@.take(n as int) =~= bytes@);
    s
}

/// The code units of the bytes after a two-byte UTF-16 byte-order mark.
fn utf16_code_units(bytes: &Vec<u8>, little_endian: bool) -> (u: Vec<u16>)
    requires
        bytes@.len() >= 2,
    ensures
        u@ == utf16_units(bytes@.skip(2), little_endian),
{
    let n = bytes.len();
    let count = (n - 2) / 2;
    let mut u: Vec<u16> = Vec::new();
    let ghost rest = bytes@.skip(2);
    for k in 0..count
        invariant
            n == bytes@.len(),
            n >= 2,
            count == (n - 2) / 2,
            rest == bytes@.skip(2),
            u@ == utf16_units(rest, little_endian).take(k as int),
    {
        let b0 = bytes[2 + 2 * k] as u16;
        let b1 = bytes[2 + 2 * k + 1] as u16;
        let unit: u16 = if little_endian {
            b0 + 256 * b1
        } else {
            256 * b0 + b1
        };
        u.push(unit);
        assert(rest[2 * k as int] == bytes@[2 + 2 * k]);
        assert(rest[2 * k + 1] == bytes@[2 + 2 * k + 1]);
        assert(u@ =~= utf16_units(rest, little_endian).take(k + 1));
    }
    assert(utf16_units(rest, little_endian).take(count as int) =~= utf16_units(rest, little_endian));
    u
}

/// Decode UTF-16 code units, replacing each unpaired surrogate by U+FFFD.
fn utf16_to_string_lossy(u: &Vec<u16>) -> (s: String)
    ensures
        s@ == decode_utf16_lossy(u@),
{
    let mut s = String::new();
    let n = u.len();
    let mut i: usize = 0;
    assert(u@.skip(0) =~= u@);
    while i < n
        invariant
            i <= n,
            n == u@.len(),
            s@ + decode_utf16_lossy(u@.skip(i as int)) == decode_utf16_lossy(u@),
        decreases n - i,
    {
        let ghost before = s@;
        let ghost rest = u@.skip(i as int);
        let w = u[i];
        assert(rest[0] == w);
        if w < 0xD800 || w > 0xDFFF {
            let c = char_from_u32(w as u32);
            proof {
                assert(is_scalar(w as u32));
            }
            push_char(&mut s, c.unwrap());
            assert(rest.drop_first() =~= u@.skip(i + 1));
            i = i + 1;
        } else if w <= 0xDBFF && i + 1 < n && 0xDC00 <= u[i + 1] && u[i + 1] <= 0xDFFF {
            let lo = u[i + 1];
            assert(rest[1] == lo);
            let v: u32 = 0x10000 + ((w as u32) - 0xD800) * 0x400 + ((lo as u32) - 0xDC00);
            let c = char_from_u32(v);
            proof {
                assert(is_scalar(v));
            }
            push_char(&mut s, c.unwrap());
            assert(rest.skip(2) =~= u@.skip(i + 2));
            i = i + 2;
        } else {
            push_char(&mut s, REPLACEMENT);
            assert(rest.drop_first() =~= u@.skip(i + 1));
            i = i + 1;
        }
        assert(s@ + decode_utf16_lossy(u@.skip(i as int)) =~= before + decode_utf16_lossy(rest));
    }
    assert(u@.skip(n as int) =~= Seq::<u16>::empty());
    assert(s@ =~= s@ + decode_utf16_lossy(u@.skip(n as int)));
    s
}

/// Decode bytes as UTF-8, falling back to Windows-1252 when they are not valid
/// UTF-8, and report which encoding was used. A UTF-16 byte-order mark selects
/// UTF-16 (reported as UTF-8, so a write-back lands in a standard encoding); a
/// leading UTF-8 byte-order mark is dropped.
pub fn decode_with_encoding(bytes: Vec<u8>) -> (r: (String, Encoding))
    ensures
        r.0@ == spec_decode_with_encoding(bytes@).0,
        r.1 == spec_decode_with_encoding(bytes@).1,
{
    let n = bytes.len();
    let utf16_le = n >= 2 && bytes[0] == 0xFF && bytes[1] == 0xFE && !(n >= 4 && bytes[2] == 0x00 && bytes[3] == 0x00);
    let utf16_be = n >= 2 && bytes[0] == 0xFE && bytes[1] == 0xFF;
    proof {
        assert(utf16_le == is_utf16_le_bom(bytes@)) by {
            if n >= 2 {
                assert(bytes@.take(2) =~= seq![bytes@[0], bytes@[1]]);
            }
            if n >= 4 {
                assert(bytes@.take(4) =~= seq![bytes@[0], bytes@[1], bytes@[2], bytes@[3]]);
            }
        }
        assert(utf16_be == is_utf16_be_bom(bytes@)) by {
            if n >= 2 {
                assert(bytes@.take(2) =~= seq![bytes@[0], bytes@[1]]);
            }
        }
    }
    if utf16_le || utf16_be {
        let units = utf16_code_units(&bytes, utf16_le);
        return (utf16_to_string_lossy(&units), Encoding::Utf8);
    }
    let bom = n >= 3 && bytes[0] == 0xEF && bytes[1] == 0xBB && bytes[2] == 0xBF;
    proof {
        assert(bom == has_utf8_bom(bytes@)) by {
            if n >= 3 {
                assert(bytes@.take(3) =~= seq![bytes@[0], bytes@[1], bytes@[2]]);
            }
        }
    }
    let content = if bom {
        let mut rest: Vec<u8> = Vec::new();
        for i in 3..n
            invariant
                n == bytes@.len(),
                rest@ == bytes@.subrange(3, i as int),
        {
            rest.push(bytes[i]);
            assert(rest@ =~= bytes@.subrange(3, i + 1));
        }
        assert(rest@ =~= bytes@.skip(3));
        rest
    } else {
        bytes
    };
    match string_from_utf8(content) {
        Ok(s) => (s, Encoding::Utf8),
        Err(raw) => (cp1252_to_string(raw.as_slice()), Encoding::Windows1252),
    }
}

/// Decode bytes as UTF-8, falling back to Windows-1252 (see
/// [`decode_with_encoding`]).
pub fn decode(bytes: Vec<u8>) -> (s: String)
    ensures
        s@ == spec_decode_with_encoding(bytes@).0,
{
    decode_with_encoding(bytes).0
}

// ---------------------------------------------------------------------------
// Encoding

/// The bytes of `s` in `encoding`.
pub open spec fn spec_encode(s: Seq<char>, encoding: Encoding) -> Seq<u8> {
    match encoding {
        Encoding::Utf8 => encode_utf8(s),
        Encoding::Windows1252 => cp1252_encode(s),
    }
}

/// Encode a string to bytes in `encoding`. UTF-8 is a straight copy;
/// Windows-1252 maps each character to its byte, and a character absent from
/// Windows-1252 to `?`. It undoes [`decode_with_encoding`] on bytes that start
/// with no byte-order mark and are valid UTF-8 or hold none of the five bytes
/// Windows-1252 leaves undefined (`0x81`, `0x8D`, `0x8F`, `0x90`, `0x9D`); see
/// [`law_decode_encode_round_trip`].
pub fn encode(s: &str, encoding: Encoding) -> (r: Vec<u8>)
    ensures
        r@ == spec_encode(s@, encoding),
{
    match encoding {
        Encoding::Utf8 => vstd::slice::slice_to_vec(s.as_bytes()),
        Encoding::Windows1252 => {
            let mut out: Vec<u8> = Vec::new();
            let ghost cs = s@;
            for c in it: s.chars()
                invariant
                    it.seq() == cs,
                    cs == s@,
                    out@ == cp1252_encode(cs.take(it.index() as int)),
            {
                let ghost k = it.index() as int;
                out.push(char_to_cp1252(c));
                assert(cs.take(k + 1) =~= cs.take(k).push(c));
                assert(out@ =~= cp1252_encode(cs.take(k + 1)));
            }
            assert(cs.take(cs.len() as int) =~= cs);
            out
        },
    }
}

/// True when Windows-1252 has no byte for `c` (it is not `?` and maps to `?`).
pub open spec fn unrepresentable(c: char) -> bool {
    spec_char_to_cp1252(c) == 0x3F && c != '?'
}

/// The distinct characters of `cs` that Windows-1252 cannot represent, in the
/// order in which they first occur.
pub open spec fn unrepresentable_chars(cs: Seq<char>) -> Seq<char>
    decreases cs.len(),
{
    if cs.len() == 0 {
        seq![]
    } else {
        let r = unrepresentable_chars(cs.drop_last());
        if unrepresentable(cs.last()) && !r.contains(cs.last()) {
            r.push(cs.last())
        } else {
            r
        }
    }
}

pub proof fn lemma_unrepresentable_chars(cs: Seq<char>)
    ensures
        (unrepresentable_chars(cs).len() == 0) == (forall|i: int| 0 <= i < cs.len() ==> !unrepresentable(#[trigger] cs[i])),
    decreases cs.len(),
{
    if cs.len() > 0 {
        let init = cs.drop_last();
        lemma_unrepresentable_chars(init);
        assert forall|i: int| 0 <= i < init.len() implies init[i] == cs[i] by {}
        if unrepresentable_chars(cs).len() == 0 {
            assert(!unrepresentable(cs[cs.len() - 1]));
        }
    }
}

/// The characters a target encoding cannot represent, returned by
/// [`encode_checked`] so that a writer can refuse a lossy write.
#[derive(Debug, Clone, PartialEq, Eq)]
pub struct LossyEncoding {
    /// The distinct unrepresentable characters, in first-seen order.
    pub unrepresentable: Vec<char>,
}

/// Whether `v` holds `c`.
fn contains_char(v: &Vec<char>, c: char) -> (r: bool)
    ensures
        r == v@.contains(c),
{
    let n = v.len();
    for i in 0..n
        invariant
            n == v@.len(),
            forall|j: int| 0 <= j < i ==> v@[j] != c,
    {
        if v[i] == c {
            assert(v@[i as int] == c);
            return true;
        }
    }
    false
}

/// Like [`encode`], but instead of substituting `?` for characters the target
/// encoding cannot represent, returns [`LossyEncoding`] listing them. UTF-8 can
/// represent every character, so it never fails.
pub fn encode_checked(s: &str, encoding: Encoding) -> (r: Result<Vec<u8>, LossyEncoding>)
    ensures
        encoding == Encoding::Utf8 ==> (r matches Ok(v) && v@ == encode_utf8(s@)),
        encoding == Encoding::Windows1252 ==> match r {
            Ok(v) => unrepresentable_chars(s@).len() == 0 && v@ == cp1252_encode(s@),
            Err(e) => unrepresentable_chars(s@).len() > 0 && e.unrepresentable@ == unrepresentable_chars(s@),
        },
{
    match encoding {
        Encoding::Utf8 => Ok(vstd::slice::slice_to_vec(s.as_bytes())),
        Encoding::Windows1252 => {
            let mut out: Vec<u8> = Vec::new();
            let mut bad: Vec<char> = Vec::new();
            let ghost cs = s@;
            for c in it: s.chars()
                invariant
                    it.seq() == cs,
                    cs == s@,
                    bad@ == unrepresentable_chars(cs.take(it.index() as int)),
                    bad@.len() == 0 ==> out@ == cp1252_encode(cs.take(it.index() as int)),
            {
                let ghost k = it.index() as int;
                let ghost before = bad@;
                assert(cs.take(k + 1) =~= cs.take(k).push(c));
                assert(cs.take(k + 1).drop_last() =~= cs.take(k));
                let b = char_to_cp1252(c);
                if b == 0x3F && c != '?' {
                    if !contains_char(&bad, c) {
                        bad.push(c);
                    }
                } else {
                    out.push(b);
                    assert(out@ =~= cp1252_encode(cs.take(k + 1)) || bad@.len() > 0);
                }
            }
            assert(cs.take(cs.len() as int) =~= cs);
            if bad.len() == 0 {
                Ok(out)
            } else {
                Err(LossyEncoding { unrepresentable: bad })
            }
        },
    }
}

/// A Windows-1252 encoding that [`encode_checked`] accepts is the one
/// [`encode`] writes: checking changes no byte.
pub proof fn law_checked_agrees_with_encode(s: Seq<char>)
    requires
        unrepresentable_chars(s).len() == 0,
    ensures
        forall|i: int| 0 <= i < s.len() ==> !unrepresentable(#[trigger] s[i]),
        spec_encode(s, Encoding::Windows1252) == cp1252_encode(s),
{
    lemma_unrepresentable_chars(s);
}

/// Decoding and then encoding in the reported encoding gives back the bytes of
/// a file that starts with no byte-order mark, when the file is UTF-8 or holds
/// none of the five bytes that Windows-1252 leaves undefined.
pub proof fn law_decode_encode_round_trip(b: Seq<u8>)
    requires
        !is_utf16_le_bom(b),
        !is_utf16_be_bom(b),
        !has_utf8_bom(b),
        valid_utf8(b) || forall|i: int| 0 <= i < b.len() ==> !is_cp1252_undefined(#[trigger] b[i]),
    ensures
        spec_encode(spec_decode_with_encoding(b).0, spec_decode_with_encoding(b).1) == b,
{
    if valid_utf8(b) {
        decode_utf8_encode_utf8(b);
    } else {
        assert(cp1252_encode(cp1252_decode(b)) =~= b) by {
            assert forall|i: int| 0 <= i < b.len() implies #[trigger] cp1252_encode(cp1252_decode(b))[i] == b[i] by {
                law_cp1252_byte_round_trip(b[i]);
            }
        }
    }
}

/// How one unrepresentable character is listed: `'Ω' (U+03A9)`.
pub open spec fn lossy_item_text(c: char) -> Seq<char> {
    char_debug_text(c) + " (U+"@ + zero_padded(hex_upper(c as u32 as nat), 4) + ")"@
}

/// The items of a list, separated by `", "`.
pub open spec fn lossy_list_text(cs: Seq<char>) -> Seq<char>
    decreases cs.len(),
{
    if cs.len() == 0 {
        seq![]
    } else if cs.len() == 1 {
        lossy_item_text(cs[0])
    } else {
        lossy_list_text(cs.drop_last()) + ", "@ + lossy_item_text(cs.last())
    }
}

/// The message of a refused lossy write.
pub open spec fn lossy_text(cs: Seq<char>) -> Seq<char> {
    decimal(cs.len()) + " character(s) cannot be represented in Windows-1252: "@ + lossy_list_text(cs)
}

impl LossyEncoding {
    /// The message of the error (what `Display` shows): how many characters
    /// cannot be represented, and each of them with its code point.
    pub fn to_string(&self) -> (r: String)
        ensures
            r@ == lossy_text(self.unrepresentable@),
    {
        let cs = &self.unrepresentable;
        let n = cs.len();
        let mut s = String::new();
        push_decimal(&mut s, n);
        s.append(" character(s) cannot be represented in Windows-1252: ");
        let ghost head = s@;
        for i in 0..n
            invariant
                n == cs@.len(),
                s@ == head + lossy_list_text(cs@.take(i as int)),
        {
            let ghost before = s@;
            let c = cs[i];
            if i > 0 {
                s.append(", ");
            }
            let q = debug_char(c);
            s.append(q.as_str());
            s.append(" (U+");
            push_hex4(&mut s, c as u32);
            s.append(")");
            assert(cs@.take(i + 1).drop_last() =~= cs@.take(i as int));
            assert(cs@.take(i + 1).last() == c);
            if i == 0 {
                assert(cs@.take(1)[0] == c);
            }
            assert(s@ =~= head + lossy_list_text(cs@.take(i + 1)));
        }
        assert(cs@.take(n as int) =~= cs@);
        s
    }
}

} // verus!
