//! String and UTF-8 helpers shared by the rest of the library.
//!
//! A `&str` is specified as its sequence of `char`s; its bytes are the UTF-8
//! encoding of that sequence (`vstd::utf8::encode_utf8`). The helpers here
//! compare, slice and build strings while keeping both views in step.
use vstd::prelude::*;
use vstd::utf8::*;
use vstd::string::StringSliceAdditionalSpecFns;

verus! {

/// The UTF-8 encoding of a concatenation is the concatenation of the encodings.
pub proof fn lemma_encode_concat(a: Seq<char>, b: Seq<char>)
    ensures
        encode_utf8(a + b) == encode_utf8(a) + encode_utf8(b),
    decreases a.len(),
{
    if a.len() == 0 {
        assert(a + b =~= b);
        assert(encode_utf8(a) + encode_utf8(b) =~= encode_utf8(b));
    } else {
        assert((a + b).drop_first() =~= a.drop_first() + b);
        assert((a + b)[0] == a[0]);
        lemma_encode_concat(a.drop_first(), b);
        assert(encode_utf8(a + b) =~= encode_scalar(a[0] as u32) + encode_utf8(a.drop_first() + b));
        assert(encode_utf8(a) =~= encode_scalar(a[0] as u32) + encode_utf8(a.drop_first()));
    }
}

/// Two character sequences are equal exactly when their UTF-8 encodings are.
pub proof fn lemma_encode_injective(a: Seq<char>, b: Seq<char>)
    ensures
        (encode_utf8(a) == encode_utf8(b)) == (a == b),
{
    if encode_utf8(a) == encode_utf8(b) {
        encode_utf8_decode_utf8(a);
        encode_utf8_decode_utf8(b);
    }
}

/// String equality, decided on the UTF-8 bytes.
pub fn str_eq(a: &str, b: &str) -> (r: bool)
    ensures
        r == (a@ == b@),
{
    let ab = a.as_bytes();
    let bb = b.as_bytes();
    proof {
        lemma_encode_injective(a@, b@);
    }
    if ab.len() != bb.len() {
        return false;
    }
    let n = ab.len();
    let mut i: usize = 0;
    while i < n
        invariant
            n == ab@.len(),
            n == bb@.len(),
            i <= n,
            ab@ == a.spec_bytes(),
            bb@ == b.spec_bytes(),
            forall|j: int| 0 <= j < i ==> ab@[j] == bb@[j],
        decreases n - i,
    {
        if ab[i] != bb[i] {
            return false;
        }
        i = i + 1;
    }
    assert(ab@ =~= bb@);
    true
}

/// `String::push`: appends one character.
#[verifier::external_body]
pub(crate) fn push_char(s: &mut String, c: char)
    ensures
        final(s)@ == old(s)@.push(c),
{
    s.push(c);
}

/// A position right after an ASCII byte that starts a valid UTF-8 sequence is
/// a character boundary.
pub proof fn lemma_boundary_after_ascii_head(bytes: Seq<u8>)
    requires
        valid_utf8(bytes),
        bytes.len() > 0,
        bytes[0] <= 0x7f,
    ensures
        is_char_boundary(bytes, 1),
{
    reveal_with_fuel(is_char_boundary, 2);
}

/// The position right after an ASCII byte is a character boundary.
pub proof fn lemma_boundary_after_ascii(bytes: Seq<u8>, k: int)
    requires
        valid_utf8(bytes),
        0 <= k < bytes.len(),
        bytes[k] <= 0x7f,
    ensures
        is_char_boundary(bytes, k + 1),
{
    if k + 1 == bytes.len() {
        is_char_boundary_start_end_of_seq(bytes);
    } else {
        is_char_boundary_iff_not_is_continuation_byte(bytes, k);
        valid_utf8_split(bytes, k);
        let x = bytes.subrange(k, bytes.len() as int);
        lemma_boundary_after_ascii_head(x);
        is_char_boundary_iff_not_is_continuation_byte(x, 1);
        assert(x[1] == bytes[k + 1]);
        is_char_boundary_iff_not_is_continuation_byte(bytes, k + 1);
    }
}

/// A byte that is not a UTF-8 continuation byte starts a character.
pub proof fn lemma_boundary_at(bytes: Seq<u8>, i: int)
    requires
        valid_utf8(bytes),
        0 <= i <= bytes.len(),
        i < bytes.len() ==> !is_continuation_byte(bytes[i]),
    ensures
        is_char_boundary(bytes, i),
{
    if i < bytes.len() {
        is_char_boundary_iff_not_is_continuation_byte(bytes, i);
    } else {
        is_char_boundary_start_end_of_seq(bytes);
    }
}

/// The characters of a string are the decoding of its bytes.
pub proof fn lemma_view_is_decoded(s: &str)
    ensures
        s@ == decode_utf8(s.spec_bytes()),
        valid_utf8(s.spec_bytes()),
{
    encode_utf8_decode_utf8(s@);
    encode_utf8_valid_utf8(s@);
}

/// The decimal digit `d`.
pub open spec fn digit_char(d: nat) -> char {
    (d + 48) as char
}

/// The decimal representation of `n`, without leading zeros.
pub open spec fn decimal(n: nat) -> Seq<char>
    decreases n,
{
    if n < 10 {
        seq![digit_char(n)]
    } else {
        decimal(n / 10).push(digit_char(n % 10))
    }
}

/// Appends the decimal representation of `n`.
pub fn push_decimal(out: &mut String, n: usize)
    ensures
        final(out)@ == old(out)@ + decimal(n as nat),
{
    push_decimal_u64(out, n as u64);
}

/// Appends the decimal representation of `n`.
pub fn push_decimal_u64(out: &mut String, n: u64)
    ensures
        final(out)@ == old(out)@ + decimal(n as nat),
    decreases n,
{
    if n >= 10 {
        push_decimal_u64(out, n / 10);
    }
    let d: u8 = (n % 10) as u8;
    let c: char = (d + 48u8) as char;
    assert(c == digit_char((n % 10) as nat));
    push_char(out, c);
    assert(out@ =~= old(out)@ + decimal(n as nat));
}

/// Number of UTF-16 code units of a character.
pub open spec fn char_utf16_len(c: char) -> nat {
    if c as u32 >= 0x10000 {
        2
    } else {
        1
    }
}

/// Number of UTF-16 code units of a character sequence.
pub open spec fn utf16_len(cs: Seq<char>) -> nat
    decreases cs.len(),
{
    if cs.len() == 0 {
        0
    } else {
        utf16_len(cs.drop_last()) + char_utf16_len(cs.last())
    }
}

/// A character takes two UTF-16 code units exactly when it takes four UTF-8
/// bytes, i.e. when it lies outside the Basic Multilingual Plane; every other
/// character takes one.
pub proof fn law_utf16_units_match_utf8_width(c: char)
    ensures
        char_utf16_len(c) == 2 <==> encode_scalar(c as u32).len() == 4,
        char_utf16_len(c) == 1 <==> encode_scalar(c as u32).len() <= 3,
{
    char_is_scalar(c);
}

/// Number of UTF-8 bytes of a character sequence.
pub open spec fn utf8_len(cs: Seq<char>) -> nat {
    encode_utf8(cs).len()
}

/// `char::len_utf8`.
pub fn char_len_utf8(c: char) -> (n: usize)
    ensures
        n == encode_scalar(c as u32).len(),
        1 <= n <= 4,
{
    let v = c as u32;
    if v <= 0x7F {
        1
    } else if v <= 0x7FF {
        2
    } else if v <= 0xFFFF {
        proof {
            char_is_scalar(c);
        }
        3
    } else {
        4
    }
}

/// `char::len_utf16`.
pub fn char_len_utf16(c: char) -> (n: usize)
    ensures
        n == char_utf16_len(c),
{
    if (c as u32) >= 0x10000 {
        2
    } else {
        1
    }
}

/// Appending one character adds its encoding.
pub proof fn lemma_utf8_len_push(cs: Seq<char>, c: char)
    ensures
        utf8_len(cs.push(c)) == utf8_len(cs) + encode_scalar(c as u32).len(),
        encode_utf8(cs.push(c)) == encode_utf8(cs) + encode_scalar(c as u32),
{
    lemma_encode_concat(cs, seq![c]);
    assert(cs + seq![c] == cs.push(c));
    let one = seq![c];
    assert(one.drop_first() =~= Seq::<char>::empty());
    assert(encode_utf8(one.drop_first()) =~= Seq::<u8>::empty());
    assert(encode_utf8(one) == encode_scalar(one[0] as u32) + encode_utf8(one.drop_first()));
    assert(encode_utf8(one) =~= encode_scalar(c as u32));
}

/// A character takes at least as many UTF-8 bytes as UTF-16 units.
pub proof fn lemma_utf16_le_utf8(cs: Seq<char>)
    ensures
        utf16_len(cs) <= utf8_len(cs),
    decreases cs.len(),
{
    if cs.len() > 0 {
        let init = cs.drop_last();
        lemma_utf16_le_utf8(init);
        lemma_utf8_len_push(init, cs.last());
        assert(init.push(cs.last()) =~= cs);
        char_is_scalar(cs.last());
    }
}

/// A prefix takes no more bytes than the whole.
pub proof fn lemma_utf8_len_prefix(cs: Seq<char>, k: int)
    requires
        0 <= k <= cs.len(),
    ensures
        utf8_len(cs.take(k)) <= utf8_len(cs),
        encode_utf8(cs) == encode_utf8(cs.take(k)) + encode_utf8(cs.skip(k)),
{
    lemma_encode_concat(cs.take(k), cs.skip(k));
    assert(cs.take(k) + cs.skip(k) =~= cs);
}

/// Number of UTF-16 code units of a string.
pub fn str_utf16_len(s: &str) -> (n: usize)
    ensures
        n == utf16_len(s@),
{
    let mut n: usize = 0;
    let ghost cs = s@;
    proof {
        lemma_utf16_le_utf8(cs);
    }
    let total = s.as_bytes().len();
    for c in it: s.chars()
        invariant
            cs == s@,
            total == utf8_len(cs),
            it.seq() == cs,
            n == utf16_len(cs.take(it.index() as int)),
    {
        let ghost k = it.index() as int;
        proof {
            assert(cs.take(k + 1).drop_last() =~= cs.take(k));
            assert(cs.take(k + 1).last() == c);
            lemma_utf16_le_utf8(cs.take(k + 1));
            lemma_utf8_len_prefix(cs, k + 1);
        }
        n = n + char_len_utf16(c);
    }
    assert(cs.take(cs.len() as int) =~= cs);
    n
}

/// UTF-16 length is additive.
pub proof fn lemma_utf16_len_concat(a: Seq<char>, b: Seq<char>)
    ensures
        utf16_len(a + b) == utf16_len(a) + utf16_len(b),
    decreases b.len(),
{
    if b.len() == 0 {
        assert(a + b =~= a);
    } else {
        lemma_utf16_len_concat(a, b.drop_last());
        assert((a + b).drop_last() =~= a + b.drop_last());
        assert((a + b).last() == b.last());
    }
}

/// The end of each leading prefix of characters is a character boundary of the
/// UTF-8 encoding.
pub proof fn lemma_boundary_of_prefix(cs: Seq<char>, k: int)
    requires
        0 <= k <= cs.len(),
    ensures
        is_char_boundary(encode_utf8(cs), utf8_len(cs.take(k)) as int),
    decreases k,
{
    let b = encode_utf8(cs);
    encode_utf8_valid_utf8(cs);
    if k > 0 {
        let rest = cs.drop_first();
        encode_utf8_first_scalar(cs);
        let l = length_of_first_scalar(b);
        assert(pop_first_scalar(b) =~= encode_utf8(rest));
        lemma_boundary_of_prefix(rest, k - 1);
        lemma_encode_concat(seq![cs[0]], rest.take(k - 1));
        assert(seq![cs[0]] + rest.take(k - 1) =~= cs.take(k));
        lemma_utf8_len_push(Seq::<char>::empty(), cs[0]);
        assert(Seq::<char>::empty().push(cs[0]) =~= seq![cs[0]]);
        assert(encode_utf8(Seq::<char>::empty()) =~= Seq::<u8>::empty());
        lemma_utf8_len_prefix(cs, k);
        assert(utf8_len(cs.take(k)) == l + utf8_len(rest.take(k - 1)));
    }
}

/// The characters of `s` and the byte offset at which each starts, with the
/// total length last: `offsets[k]` is the UTF-8 length of the first `k`
/// characters.
pub fn chars_with_offsets(s: &str) -> (r: (Vec<char>, Vec<usize>))
    ensures
        r.0@ == s@,
        r.1@.len() == s@.len() + 1,
        forall|k: int| 0 <= k <= s@.len() ==> #[trigger] r.1@[k] == utf8_len(s@.take(k)),
{
    let ghost cs = s@;
    let total = s.as_bytes().len();
    let mut chars: Vec<char> = Vec::new();
    let mut offsets: Vec<usize> = Vec::new();
    offsets.push(0);
    let mut off: usize = 0;
    assert(cs.take(0) =~= Seq::<char>::empty());
    assert(encode_utf8(Seq::<char>::empty()) =~= Seq::<u8>::empty());
    for c in it: s.chars()
        invariant
            it.seq() == cs,
            cs == s@,
            total == utf8_len(cs),
            chars@ == cs.take(it.index() as int),
            offsets@.len() == it.index() + 1,
            off == utf8_len(cs.take(it.index() as int)),
            forall|k: int| 0 <= k <= it.index() ==> #[trigger] offsets@[k] == utf8_len(cs.take(k)),
    {
        let ghost k = it.index() as int;
        proof {
            assert(cs.take(k + 1) =~= cs.take(k).push(c));
            lemma_utf8_len_push(cs.take(k), c);
            lemma_utf8_len_prefix(cs, k + 1);
        }
        chars.push(c);
        off = off + char_len_utf8(c);
        offsets.push(off);
    }
    assert(cs.take(cs.len() as int) =~= cs);
    (chars, offsets)
}

/// The substring of `s` made of the characters `i..j`, given the byte offsets
/// at which they start and end.
pub fn substr<'a>(s: &'a str, start: usize, end: usize, Ghost(i): Ghost<int>, Ghost(j): Ghost<int>) -> (r: &'a str)
    requires
        0 <= i <= j <= s@.len(),
        start == utf8_len(s@.take(i)),
        end == utf8_len(s@.take(j)),
    ensures
        r@ == s@.subrange(i, j),
{
    let ghost cs = s@;
    proof {
        lemma_boundary_of_prefix(cs, i);
        lemma_utf8_len_prefix(cs, j);
        lemma_utf8_len_prefix(cs, i);
    }
    let (_head, tail) = s.split_at(start);
    proof {
        // The tail holds the characters from `i` on.
        let tb = tail.spec_bytes();
        assert(encode_utf8(cs) == encode_utf8(cs.take(i)) + encode_utf8(cs.skip(i)));
        assert(tb =~= encode_utf8(cs.skip(i)));
        lemma_encode_injective(tail@, cs.skip(i));
        let rest = cs.skip(i);
        assert(cs.take(j) =~= cs.take(i) + rest.take(j - i));
        lemma_encode_concat(cs.take(i), rest.take(j - i));
        lemma_boundary_of_prefix(rest, j - i);
    }
    let (mid, _after) = tail.split_at(end - start);
    proof {
        let rest = cs.skip(i);
        lemma_utf8_len_prefix(rest, j - i);
        assert(mid.spec_bytes() =~= encode_utf8(rest.take(j - i)));
        lemma_encode_injective(mid@, rest.take(j - i));
        assert(rest.take(j - i) =~= cs.subrange(i, j));
    }
    mid
}

/// What `format!("{:?}", s)` writes for a string: the string quoted, with
/// special characters escaped.
pub uninterp spec fn str_debug_text(s: Seq<char>) -> Seq<char>;

/// `<str as Debug>::fmt`, collected into a `String`.
#[verifier::external_body]
pub(crate) fn debug_str(s: &str) -> (r: String)
    ensures
        r@ == str_debug_text(s@),
{
    format!("{:?}", s)
}

/// What `format!("{:?}", c)` writes for a character: the character in single
/// quotes, escaped when it is special.
pub uninterp spec fn char_debug_text(c: char) -> Seq<char>;

/// `<char as Debug>::fmt`, collected into a `String`.
#[verifier::external_body]
pub(crate) fn debug_char(c: char) -> (r: String)
    ensures
        r@ == char_debug_text(c),
{
    format!("{:?}", c)
}

/// The uppercase hexadecimal digit `d`.
pub open spec fn hex_digit_char(d: nat) -> char {
    if d < 10 {
        (d + 48) as char
    } else {
        (d + 55) as char
    }
}

/// The uppercase hexadecimal representation of `n`, without leading zeros.
pub open spec fn hex_upper(n: nat) -> Seq<char>
    decreases n,
{
    if n < 16 {
        seq![hex_digit_char(n)]
    } else {
        hex_upper(n / 16).push(hex_digit_char(n % 16))
    }
}

/// `s` left-padded with `'0'` to at least `width` characters.
pub open spec fn zero_padded(s: Seq<char>, width: nat) -> Seq<char> {
    if s.len() >= width {
        s
    } else {
        Seq::new((width - s.len()) as nat, |i: int| '0') + s
    }
}

/// Appends the uppercase hexadecimal representation of `n`.
pub fn push_hex_upper(out: &mut String, n: u32)
    ensures
        final(out)@ == old(out)@ + hex_upper(n as nat),
    decreases n,
{
    if n >= 16 {
        push_hex_upper(out, n / 16);
    }
    let d: u8 = (n % 16) as u8;
    let c: char = if d < 10 {
        (d + 48u8) as char
    } else {
        (d + 55u8) as char
    };
    assert(c == hex_digit_char((n % 16) as nat));
    push_char(out, c);
    assert(out@ =~= old(out)@ + hex_upper(n as nat));
}

/// Appends `n` as `format!("{:04X}", n)` does: uppercase hexadecimal, padded
/// with zeros to at least four digits.
pub fn push_hex4(out: &mut String, n: u32)
    ensures
        final(out)@ == old(out)@ + zero_padded(hex_upper(n as nat), 4),
{
    let zeros: usize = if n < 0x10 {
        3
    } else if n < 0x100 {
        2
    } else if n < 0x1000 {
        1
    } else {
        0
    };
    proof {
        let h = hex_upper(n as nat);
        let h1 = hex_upper((n / 16) as nat);
        let h2 = hex_upper((n / 256) as nat);
        let h3 = hex_upper((n / 4096) as nat);
        assert((n / 16) / 16 == n / 256);
        assert((n / 256) / 16 == n / 4096);
        if n >= 16 {
            assert(h.len() == h1.len() + 1);
            if n / 16 >= 16 {
                assert(h1.len() == h2.len() + 1);
                if n / 256 >= 16 {
                    assert(h2.len() == h3.len() + 1);
                    assert(h3.len() >= 1);
                }
            }
        }
        assert(zeros == 0 ==> h.len() >= 4);
        assert(zeros > 0 ==> h.len() + zeros == 4);
    }
    let ghost start = out@;
    let mut k: usize = 0;
    while k < zeros
        invariant
            k <= zeros,
            out@ == start + Seq::new(k as nat, |i: int| '0'),
        decreases zeros - k,
    {
        push_char(out, '0');
        assert(out@ =~= start + Seq::new((k + 1) as nat, |i: int| '0'));
        k = k + 1;
    }
    let ghost padded = out@;
    push_hex_upper(out, n);
    assert(out@ =~= start + zero_padded(hex_upper(n as nat), 4));
}

} // verus!
