//! Bytes to text for trees written by anything: UTF-8 (with or without a
//! byte order mark), UTF-16 (with or without one), or code page 437 (what
//! `tree /F > x.txt` writes from a Windows console).

use vstd::prelude::*;

use crate::line::{is_branch, is_branch_tail, is_vertical};
use vstd::utf8::{
    char_is_scalar, char_u32_cast, codepoint_width_3, decode_first_codepoint, decode_utf8, encode_scalar, encode_utf8,
    encode_utf8_decode_utf8, encode_utf8_first_scalar, encode_utf8_valid_utf8, valid_utf8,
};

verus! {

/// The characters that code page 437 gives the bytes 0x80 to 0xFF.
pub open spec fn cp437_table() -> Seq<char> {
    seq![
        'Ç', 'ü', 'é', 'â', 'ä', 'à', 'å', 'ç',
        'ê', 'ë', 'è', 'ï', 'î', 'ì', 'Ä', 'Å',
        'É', 'æ', 'Æ', 'ô', 'ö', 'ò', 'û', 'ù',
        'ÿ', 'Ö', 'Ü', '¢', '£', '¥', '₧', 'ƒ',
        'á', 'í', 'ó', 'ú', 'ñ', 'Ñ', 'ª', 'º',
        '¿', '⌐', '¬', '½', '¼', '¡', '«', '»',
        '░', '▒', '▓', '│', '┤', '╡', '╢', '╖',
        '╕', '╣', '║', '╗', '╝', '╜', '╛', '┐',
        '└', '┴', '┬', '├', '─', '┼', '╞', '╟',
        '╚', '╔', '╩', '╦', '╠', '═', '╬', '╧',
        '╨', '╤', '╥', '╙', '╘', '╒', '╓', '╫',
        '╪', '┘', '┌', '█', '▄', '▌', '▐', '▀',
        'α', 'ß', 'Γ', 'π', 'Σ', 'σ', 'µ', 'τ',
        'Φ', 'Θ', 'Ω', 'δ', '∞', 'φ', 'ε', '∩',
        '≡', '±', '≥', '≤', '⌠', '⌡', '÷', '≈',
        '°', '∙', '·', '√', 'ⁿ', '²', '■', '\u{a0}',
    ]
}

/// The characters that code page 437 gives the bytes 0x80 to 0xFF, in order.
pub fn cp437_high() -> (t: Vec<char>)
    ensures
        t@ == cp437_table(),
{
    let a: [char; 128] = [
        'Ç', 'ü', 'é', 'â', 'ä', 'à', 'å', 'ç',
        'ê', 'ë', 'è', 'ï', 'î', 'ì', 'Ä', 'Å',
        'É', 'æ', 'Æ', 'ô', 'ö', 'ò', 'û', 'ù',
        'ÿ', 'Ö', 'Ü', '¢', '£', '¥', '₧', 'ƒ',
        'á', 'í', 'ó', 'ú', 'ñ', 'Ñ', 'ª', 'º',
        '¿', '⌐', '¬', '½', '¼', '¡', '«', '»',
        '░', '▒', '▓', '│', '┤', '╡', '╢', '╖',
        '╕', '╣', '║', '╗', '╝', '╜', '╛', '┐',
        '└', '┴', '┬', '├', '─', '┼', '╞', '╟',
        '╚', '╔', '╩', '╦', '╠', '═', '╬', '╧',
        '╨', '╤', '╥', '╙', '╘', '╒', '╓', '╫',
        '╪', '┘', '┌', '█', '▄', '▌', '▐', '▀',
        'α', 'ß', 'Γ', 'π', 'Σ', 'σ', 'µ', 'τ',
        'Φ', 'Θ', 'Ω', 'δ', '∞', 'φ', 'ε', '∩',
        '≡', '±', '≥', '≤', '⌠', '⌡', '÷', '≈',
        '°', '∙', '·', '√', 'ⁿ', '²', '■', '\u{a0}',
    ];
    let mut t: Vec<char> = Vec::new();
    for i in 0..128usize
        invariant
            a@ == cp437_table(),
            t@ == cp437_table().take(i as int),
    {
        t.push(a[i]);
        assert(t@ =~= cp437_table().take(i + 1));
    }
    assert(cp437_table().take(128) =~= cp437_table());
    t
}

pub open spec fn cp437_char(b: u8) -> char {
    if b < 0x80 {
        b as char
    } else {
        cp437_table()[b - 0x80]
    }
}

/// The bytes read as code page 437.
pub open spec fn cp437_decode(b: Seq<u8>) -> Seq<char> {
    b.map_values(|x: u8| cp437_char(x))
}

/// What `String::from_utf8_lossy` gives for some bytes: the text they encode
/// in UTF-8, with each invalid sequence replaced by U+FFFD.
pub uninterp spec fn utf8_lossy(b: Seq<u8>) -> Seq<char>;

/// The bytes decoded as UTF-8 (`String::from_utf8_lossy`); valid UTF-8 comes
/// back unchanged.
#[verifier::external_body]
fn from_utf8_lossy(b: &[u8]) -> (s: String)
    ensures
        s@ == utf8_lossy(b@),
        valid_utf8(b@) ==> s@ == decode_utf8(b@),
{
    String::from_utf8_lossy(b).into_owned()
}

/// The bytes as text when they are valid UTF-8 (`std::str::from_utf8`).
#[verifier::external_body]
fn utf8_text(b: &[u8]) -> (r: Option<&str>)
    ensures
        r is Some <==> valid_utf8(b@),
        r matches Some(s) ==> s@ == decode_utf8(b@),
{
    std::str::from_utf8(b).ok()
}

pub open spec fn is_surrogate(u: u16) -> bool {
    0xD800 <= u && u <= 0xDFFF
}

/// UTF-16 code units decoded, each unpaired surrogate replaced by U+FFFD.
pub open spec fn utf16_lossy(u: Seq<u16>) -> Seq<char>
    decreases u.len(),
{
    if u.len() == 0 {
        Seq::empty()
    } else if !is_surrogate(u[0]) {
        seq![u[0] as char] + utf16_lossy(u.drop_first())
    } else if u[0] <= 0xDBFF && u.len() >= 2 && 0xDC00 <= u[1] && u[1] <= 0xDFFF {
        seq![(0x10000 + (u[0] - 0xD800) * 0x400 + (u[1] - 0xDC00)) as char] + utf16_lossy(
            u.skip(2),
        )
    } else {
        seq!['\u{fffd}'] + utf16_lossy(u.drop_first())
    }
}

/// The code units decoded (`String::from_utf16_lossy`).
#[verifier::external_body]
fn from_utf16_lossy(u: &[u16]) -> (s: String)
    ensures
        s@ == utf16_lossy(u@),
{
    String::from_utf16_lossy(u)
}

/// The `i`th 16-bit unit of the bytes, little- or big-endian.
pub open spec fn unit_at(b: Seq<u8>, i: int, little: bool) -> u16 {
    if little {
        (b[2 * i] + 256 * b[2 * i + 1]) as u16
    } else {
        (256 * b[2 * i] + b[2 * i + 1]) as u16
    }
}

/// The bytes read as 16-bit units; an odd last byte is dropped.
pub open spec fn units(b: Seq<u8>, little: bool) -> Seq<u16> {
    Seq::new(b.len() / 2, |i: int| unit_at(b, i, little))
}

/// The number of zero bytes at even (`parity` 0) or odd (`parity` 1)
/// positions.
pub open spec fn zeros(b: Seq<u8>, parity: int) -> nat
    decreases b.len(),
{
    if b.len() == 0 {
        0
    } else {
        zeros(b.drop_last(), parity) + if (b.len() - 1) % 2 == parity && b.last() == 0 {
            1nat
        } else {
            0nat
        }
    }
}

pub open spec fn has_prefix_bytes(b: Seq<u8>, p: Seq<u8>) -> bool {
    p.len() <= b.len() && b.take(p.len() as int) == p
}

/// Mostly-ASCII UTF-16 without a byte order mark has a zero in every other
/// byte: little-endian when the zeros stand at odd positions.
pub open spec fn looks_utf16le(b: Seq<u8>) -> bool {
    b.len() >= 4 && zeros(b, 1) > b.len() / 4 && zeros(b, 0) * 4 < zeros(b, 1)
}

pub open spec fn looks_utf16be(b: Seq<u8>) -> bool {
    b.len() >= 4 && zeros(b, 0) > b.len() / 4 && zeros(b, 1) * 4 < zeros(b, 0)
}

/// The text that some bytes hold.
pub open spec fn spec_decode(b: Seq<u8>) -> Seq<char> {
    if has_prefix_bytes(b, seq![0xEFu8, 0xBBu8, 0xBFu8]) {
        if valid_utf8(b.skip(3)) {
            decode_utf8(b.skip(3))
        } else {
            utf8_lossy(b.skip(3))
        }
    } else if has_prefix_bytes(b, seq![0xFFu8, 0xFEu8]) {
        utf16_lossy(units(b.skip(2), true))
    } else if has_prefix_bytes(b, seq![0xFEu8, 0xFFu8]) {
        utf16_lossy(units(b.skip(2), false))
    } else if looks_utf16le(b) {
        utf16_lossy(units(b, true))
    } else if looks_utf16be(b) {
        utf16_lossy(units(b, false))
    } else if valid_utf8(b) {
        decode_utf8(b)
    } else {
        cp437_decode(b)
    }
}

fn utf16(bytes: &[u8], little: bool) -> (s: String)
    ensures
        s@ == utf16_lossy(units(bytes@, little)),
{
    let len = bytes.len();
    let n = len / 2;
    let mut u: Vec<u16> = Vec::new();
    for i in 0..n
        invariant
            len == bytes@.len(),
            n == bytes@.len() / 2,
            u@ == units(bytes@, little).take(i as int),
    {
        assert(2 * i + 1 < len) by (nonlinear_arith)
            requires
                i < n,
                n == len / 2,
        ;
        let b0 = bytes[2 * i] as u16;
        let b1 = bytes[2 * i + 1] as u16;
        let x = if little {
            b0 + 256 * b1
        } else {
            256 * b0 + b1
        };
        u.push(x);
        assert(u@ =~= units(bytes@, little).take(i + 1));
    }
    assert(units(bytes@, little).take(n as int) =~= units(bytes@, little));
    from_utf16_lossy(&u)
}

fn bytes_from(b: &[u8], at: usize) -> (r: Vec<u8>)
    requires
        at <= b@.len(),
    ensures
        r@ == b@.skip(at as int),
{
    let mut r: Vec<u8> = Vec::new();
    let mut i = at;
    while i < b.len()
        invariant
            at <= i <= b@.len(),
            r@ == b@.subrange(at as int, i as int),
        decreases b@.len() - i,
    {
        r.push(b[i]);
        assert(r@ =~= b@.subrange(at as int, i + 1));
        i = i + 1;
    }
    assert(b@.subrange(at as int, b@.len() as int) =~= b@.skip(at as int));
    r
}

/// Decodes the bytes of a tree file, whatever wrote it.
pub fn decode(bytes: &[u8]) -> (s: String)
    ensures
        s@ == spec_decode(bytes@),
{
    let n = bytes.len();
    let bom8 = n >= 3 && bytes[0] == 0xEF && bytes[1] == 0xBB && bytes[2] == 0xBF;
    assert(bom8 == has_prefix_bytes(bytes@, seq![0xEFu8, 0xBBu8, 0xBFu8])) by {
        if n >= 3 {
            assert(bytes@.take(3) =~= seq![bytes@[0], bytes@[1], bytes@[2]]);
        }
    }
    if bom8 {
        let rest = bytes_from(bytes, 3);
        return from_utf8_lossy(&rest);
    }
    let le = n >= 2 && bytes[0] == 0xFF && bytes[1] == 0xFE;
    let be = n >= 2 && bytes[0] == 0xFE && bytes[1] == 0xFF;
    assert(le == has_prefix_bytes(bytes@, seq![0xFFu8, 0xFEu8]) && be == has_prefix_bytes(
        bytes@,
        seq![0xFEu8, 0xFFu8],
    )) by {
        if n >= 2 {
            assert(bytes@.take(2) =~= seq![bytes@[0], bytes@[1]]);
        }
    }
    if le {
        let rest = bytes_from(bytes, 2);
        return utf16(&rest, true);
    }
    if be {
        let rest = bytes_from(bytes, 2);
        return utf16(&rest, false);
    }
    if n >= 4 {
        let mut odd: usize = 0;
        let mut even: usize = 0;
        for i in 0..n
            invariant
                n == bytes@.len(),
                odd == zeros(bytes@.take(i as int), 1),
                even == zeros(bytes@.take(i as int), 0),
                odd + even <= i,
        {
            assert(bytes@.take(i + 1).drop_last() =~= bytes@.take(i as int));
            if bytes[i] == 0 {
                if i % 2 == 1 {
                    odd = odd + 1;
                } else {
                    even = even + 1;
                }
            }
        }
        assert(bytes@.take(n as int) =~= bytes@);
        if odd > n / 4 && (even as u128) * 4 < odd as u128 {
            return utf16(bytes, true);
        }
        if even > n / 4 && (odd as u128) * 4 < even as u128 {
            return utf16(bytes, false);
        }
    }
    match utf8_text(bytes) {
        Some(s) => String::from_str(s),
        None => {
            let high = cp437_high();
            let mut v: Vec<char> = Vec::new();
            for i in 0..n
                invariant
                    n == bytes@.len(),
                    high@ == cp437_table(),
                    v@ == cp437_decode(bytes@.take(i as int)),
            {
                let b = bytes[i];
                let c = if b < 0x80 {
                    b as char
                } else {
                    high[(b - 0x80) as usize]
                };
                v.push(c);
                assert(v@ =~= cp437_decode(bytes@.take(i + 1)));
            }
            assert(bytes@.take(n as int) =~= bytes@);
            crate::text::string_of(&v)
        },
    }
}

} // verus!

verus! {

proof fn lemma_no_zeros(b: Seq<u8>, parity: int)
    requires
        forall|i: int| 0 <= i < b.len() ==> b[i] != 0,
    ensures
        zeros(b, parity) == 0,
    decreases b.len(),
{
    if b.len() > 0 {
        lemma_no_zeros(b.drop_last(), parity);
    }
}

proof fn lemma_scalar_has_no_zero(c: char)
    requires
        c != '\0',
    ensures
        forall|i: int|
            0 <= i < encode_scalar(c as u32).len() ==> #[trigger] encode_scalar(c as u32)[i] != 0,
{
    let s = c as u32;
    char_is_scalar(c);
    assert(s != 0);
    assert(1 <= s <= 0x7F ==> (s & 0x7F) as u8 != 0) by (bit_vector);
    assert(((0xC0u8 | ((s >> 6u32) & 0x1Fu32) as u8) != 0u8)) by (bit_vector);
    assert(((0xE0u8 | ((s >> 12u32) & 0x0Fu32) as u8) != 0u8)) by (bit_vector);
    assert(((0xF0u8 | ((s >> 18u32) & 0x7u32) as u8) != 0u8)) by (bit_vector);
    assert(((0x80u8 | (s & 0x3Fu32) as u8) != 0u8)) by (bit_vector);
    assert(((0x80u8 | ((s >> 6u32) & 0x3Fu32) as u8) != 0u8)) by (bit_vector);
    assert(((0x80u8 | ((s >> 12u32) & 0x3Fu32) as u8) != 0u8)) by (bit_vector);
}

proof fn lemma_encoding_has_no_zero(s: Seq<char>)
    requires
        !s.contains('\0'),
    ensures
        forall|i: int| 0 <= i < encode_utf8(s).len() ==> #[trigger] encode_utf8(s)[i] != 0,
    decreases s.len(),
{
    if s.len() > 0 {
        assert(s[0] != '\0');
        assert(forall|k: int| 0 <= k < s.drop_first().len() ==> s.drop_first()[k] == s[k + 1]);
        assert(!s.drop_first().contains('\0'));
        lemma_scalar_has_no_zero(s[0]);
        lemma_encoding_has_no_zero(s.drop_first());
        let e = encode_scalar(s[0] as u32);
        let r = encode_utf8(s.drop_first());
        assert(encode_utf8(s) == e + r);
        assert forall|i: int| 0 <= i < encode_utf8(s).len() implies #[trigger] encode_utf8(s)[i] != 0 by {
            if i < e.len() {
                assert(encode_utf8(s)[i] == e[i]);
            } else {
                assert(encode_utf8(s)[i] == r[i - e.len()]);
            }
        }
    }
}

/// UTF-8 text without a NUL character never passes for UTF-16: the check for
/// UTF-16 without a byte order mark counts zero bytes, and such text has none.
pub proof fn text_without_nul_never_looks_utf16(s: Seq<char>)
    requires
        !s.contains('\0'),
    ensures
        !looks_utf16le(encode_utf8(s)),
        !looks_utf16be(encode_utf8(s)),
{
    lemma_encoding_has_no_zero(s);
    lemma_no_zeros(encode_utf8(s), 0);
    lemma_no_zeros(encode_utf8(s), 1);
}

/// Text written as UTF-8 after a byte order mark decodes to itself.
pub proof fn utf8_after_a_mark_reads_back(s: Seq<char>)
    ensures
        spec_decode(seq![0xEFu8, 0xBBu8, 0xBFu8] + encode_utf8(s)) == s,
{
    let b = seq![0xEFu8, 0xBBu8, 0xBFu8] + encode_utf8(s);
    assert(b.take(3) =~= seq![0xEFu8, 0xBBu8, 0xBFu8]);
    assert(b.skip(3) =~= encode_utf8(s));
    encode_utf8_valid_utf8(s);
    encode_utf8_decode_utf8(s);
}

/// Text written as UTF-8 without a byte order mark decodes to itself, unless
/// it begins with U+FEFF (read as the mark) or its zero bytes make it look
/// like UTF-16.
pub proof fn utf8_reads_back(s: Seq<char>)
    requires
        !(s.len() > 0 && s[0] == '\u{feff}'),
        !looks_utf16le(encode_utf8(s)),
        !looks_utf16be(encode_utf8(s)),
    ensures
        spec_decode(encode_utf8(s)) == s,
{
    let b = encode_utf8(s);
    encode_utf8_valid_utf8(s);
    encode_utf8_decode_utf8(s);
    if s.len() > 0 {
        encode_utf8_first_scalar(s);
        if has_prefix_bytes(b, seq![0xEFu8, 0xBBu8, 0xBFu8]) {
            assert(b[0] == 0xEFu8 && b[1] == 0xBBu8 && b[2] == 0xBFu8) by {
                assert(b.take(3)[0] == b[0] && b.take(3)[1] == b[1] && b.take(3)[2] == b[2]);
            }
            assert(codepoint_width_3(0xEFu8, 0xBBu8, 0xBFu8) == 0xFEFFu32) by (bit_vector);
            assert(decode_first_codepoint(b) == 0xFEFFu32);
            assert(false);
        }
        if has_prefix_bytes(b, seq![0xFFu8, 0xFEu8]) || has_prefix_bytes(b, seq![0xFEu8, 0xFFu8]) {
            assert(b.take(2)[0] == b[0]);
            assert(false);
        }
    } else {
        assert(b.len() == 0);
    }
}

/// The UTF-16 code units of one character.
pub open spec fn char_units(c: char) -> Seq<u16> {
    let v = c as u32;
    if v < 0x10000 {
        seq![v as u16]
    } else {
        seq![(0xD800 + (v - 0x10000) / 0x400) as u16, (0xDC00 + (v - 0x10000) % 0x400) as u16]
    }
}

/// Text written as UTF-16 code units.
pub open spec fn encode_utf16(s: Seq<char>) -> Seq<u16>
    decreases s.len(),
{
    if s.len() == 0 {
        Seq::empty()
    } else {
        char_units(s[0]) + encode_utf16(s.drop_first())
    }
}

/// Code units written as bytes, little- or big-endian.
pub open spec fn unit_bytes(u: Seq<u16>, little: bool) -> Seq<u8> {
    Seq::new(
        2 * u.len(),
        |k: int|
            if (k % 2 == 0) == little {
                (u[k / 2] % 256) as u8
            } else {
                (u[k / 2] / 256) as u8
            },
    )
}

proof fn lemma_units_of_unit_bytes(u: Seq<u16>, little: bool)
    ensures
        units(unit_bytes(u, little), little) == u,
{
    let b = unit_bytes(u, little);
    assert forall|i: int| 0 <= i < u.len() implies #[trigger] units(b, little)[i] == u[i] by {
        assert((2 * i) / 2 == i && (2 * i) % 2 == 0);
        assert((2 * i + 1) / 2 == i && (2 * i + 1) % 2 == 1);
        let x = u[i];
        assert(x % 256 + 256 * (x / 256) == x);
    }
    assert(units(b, little) =~= u);
}

proof fn lemma_utf16_lossy_of_encoding(s: Seq<char>)
    ensures
        utf16_lossy(encode_utf16(s)) == s,
    decreases s.len(),
{
    if s.len() > 0 {
        let c = s[0];
        let v = c as u32;
        let rest = encode_utf16(s.drop_first());
        let u = char_units(c) + rest;
        assert(encode_utf16(s) == u);
        lemma_utf16_lossy_of_encoding(s.drop_first());
        char_is_scalar(c);
        char_u32_cast(c, v);
        if v < 0x10000 {
            assert(u[0] == v as u16);
            assert(u[0] as u32 == v);
            assert(!is_surrogate(u[0]));
            assert(u.drop_first() =~= rest);
            assert((u[0] as char) == c);
        } else {
            let hi = (0xD800 + (v - 0x10000) / 0x400) as u16;
            let lo = (0xDC00 + (v - 0x10000) % 0x400) as u16;
            assert(v <= 0x10FFFF);
            assert(u[0] == hi && u[1] == lo);
            assert(0xD800 <= hi <= 0xDBFF);
            assert(0xDC00 <= lo <= 0xDFFF);
            assert(0x10000 + (hi - 0xD800) * 0x400 + (lo - 0xDC00) == v);
            assert(u.skip(2) =~= rest);
            assert(((0x10000 + (hi - 0xD800) * 0x400 + (lo - 0xDC00)) as char) == c);
        }
        assert(seq![c] + s.drop_first() =~= s);
    }
}

/// Text written as UTF-16 after a byte order mark decodes to itself, in
/// either byte order.
pub proof fn utf16_after_a_mark_reads_back(s: Seq<char>)
    ensures
        spec_decode(seq![0xFFu8, 0xFEu8] + unit_bytes(encode_utf16(s), true)) == s,
        spec_decode(seq![0xFEu8, 0xFFu8] + unit_bytes(encode_utf16(s), false)) == s,
{
    let u = encode_utf16(s);
    lemma_utf16_lossy_of_encoding(s);
    let le = seq![0xFFu8, 0xFEu8] + unit_bytes(u, true);
    let be = seq![0xFEu8, 0xFFu8] + unit_bytes(u, false);
    assert(le.take(2) =~= seq![0xFFu8, 0xFEu8]);
    assert(le.skip(2) =~= unit_bytes(u, true));
    assert(be.take(2) =~= seq![0xFEu8, 0xFFu8]);
    assert(be.skip(2) =~= unit_bytes(u, false));
    assert(le[0] == 0xFFu8 && be[0] == 0xFEu8);
    assert(!has_prefix_bytes(le, seq![0xEFu8, 0xBBu8, 0xBFu8])) by {
        if has_prefix_bytes(le, seq![0xEFu8, 0xBBu8, 0xBFu8]) {
            assert(le.take(3)[0] == le[0]);
        }
    }
    assert(!has_prefix_bytes(be, seq![0xEFu8, 0xBBu8, 0xBFu8])) by {
        if has_prefix_bytes(be, seq![0xEFu8, 0xBBu8, 0xBFu8]) {
            assert(be.take(3)[0] == be[0]);
        }
    }
    assert(!has_prefix_bytes(be, seq![0xFFu8, 0xFEu8])) by {
        if has_prefix_bytes(be, seq![0xFFu8, 0xFEu8]) {
            assert(be.take(2)[0] == be[0]);
        }
    }
    lemma_units_of_unit_bytes(u, true);
    lemma_units_of_unit_bytes(u, false);
}

/// How many of the code units are ASCII (below 0x80).
pub open spec fn ascii_units(u: Seq<u16>) -> nat
    decreases u.len(),
{
    if u.len() == 0 {
        0
    } else {
        ascii_units(u.drop_last()) + if u.last() < 0x80 {
            1nat
        } else {
            0nat
        }
    }
}

spec fn low_zero_units(u: Seq<u16>) -> nat
    decreases u.len(),
{
    if u.len() == 0 {
        0
    } else {
        low_zero_units(u.drop_last()) + if u.last() % 256 == 0 {
            1nat
        } else {
            0nat
        }
    }
}

spec fn high_zero_units(u: Seq<u16>) -> nat
    decreases u.len(),
{
    if u.len() == 0 {
        0
    } else {
        high_zero_units(u.drop_last()) + if u.last() / 256 == 0 {
            1nat
        } else {
            0nat
        }
    }
}

proof fn lemma_unit_counts(u: Seq<u16>)
    requires
        forall|i: int| 0 <= i < u.len() ==> #[trigger] u[i] != 0,
    ensures
        high_zero_units(u) >= ascii_units(u),
        low_zero_units(u) + ascii_units(u) <= u.len(),
    decreases u.len(),
{
    if u.len() > 0 {
        let d = u.drop_last();
        assert forall|i: int| 0 <= i < d.len() implies #[trigger] d[i] != 0 by {
            assert(d[i] == u[i]);
        }
        lemma_unit_counts(d);
        assert(u.last() == u[u.len() - 1]);
    }
}

proof fn lemma_zeros_step(u: Seq<u16>, little: bool, p: int)
    requires
        u.len() > 0,
        p == 0 || p == 1,
    ensures
        zeros(unit_bytes(u, little), p) == zeros(unit_bytes(u.drop_last(), little), p) + (if (p
            == 0) == little {
            if u.last() % 256 == 0 {
                1nat
            } else {
                0nat
            }
        } else {
            if u.last() / 256 == 0 {
                1nat
            } else {
                0nat
            }
        }),
{
    let d = u.drop_last();
    let n = d.len() as int;
    let x = u.last();
    let b = unit_bytes(u, little);
    let bd = unit_bytes(d, little);
    assert((2 * n) / 2 == n && (2 * n) % 2 == 0);
    assert((2 * n + 1) / 2 == n && (2 * n + 1) % 2 == 1);
    assert forall|k: int| 0 <= k < 2 * n implies b.drop_last().drop_last()[k] == bd[k] by {
        assert(k / 2 < n);
        assert(u[k / 2] == d[k / 2]);
    }
    assert(b.drop_last().drop_last() =~= bd);
    assert(b.len() == 2 * n + 2);
    assert(b.last() == b[2 * n + 1]);
    assert(b.drop_last().last() == b[2 * n]);
    assert(zeros(b, p) == zeros(b.drop_last(), p) + if (b.len() - 1) % 2 == p && b.last() == 0 {
        1nat
    } else {
        0nat
    });
    assert(zeros(b.drop_last(), p) == zeros(bd, p) + if (b.drop_last().len() - 1) % 2 == p
        && b.drop_last().last() == 0 {
        1nat
    } else {
        0nat
    });
    assert(((x / 256) as u8 == 0) == (x / 256 == 0));
    assert(((x % 256) as u8 == 0) == (x % 256 == 0));
}

proof fn lemma_zeros_of_units(u: Seq<u16>)
    ensures
        zeros(unit_bytes(u, true), 0) == low_zero_units(u),
        zeros(unit_bytes(u, true), 1) == high_zero_units(u),
        zeros(unit_bytes(u, false), 0) == high_zero_units(u),
        zeros(unit_bytes(u, false), 1) == low_zero_units(u),
    decreases u.len(),
{
    if u.len() > 0 {
        lemma_zeros_of_units(u.drop_last());
        lemma_zeros_step(u, true, 0);
        lemma_zeros_step(u, true, 1);
        lemma_zeros_step(u, false, 0);
        lemma_zeros_step(u, false, 1);
    } else {
        assert(unit_bytes(u, true).len() == 0);
        assert(unit_bytes(u, false).len() == 0);
    }
}

proof fn lemma_no_mark(b: Seq<u8>)
    requires
        b.len() > 0,
        b[0] != 0xEFu8 && b[0] != 0xFFu8 && b[0] != 0xFEu8,
    ensures
        !has_prefix_bytes(b, seq![0xEFu8, 0xBBu8, 0xBFu8]),
        !has_prefix_bytes(b, seq![0xFFu8, 0xFEu8]),
        !has_prefix_bytes(b, seq![0xFEu8, 0xFFu8]),
{
    if b.len() >= 3 {
        assert(b.take(3)[0] == b[0]);
    }
    if b.len() >= 2 {
        assert(b.take(2)[0] == b[0]);
    }
}

proof fn lemma_units_of_narrow_text(s: Seq<char>)
    requires
        forall|i: int| 0 <= i < s.len() ==> (#[trigger] s[i] as u32) < 0x10000,
    ensures
        encode_utf16(s).len() == s.len(),
        forall|i: int| 0 <= i < s.len() ==> #[trigger] encode_utf16(s)[i] == (s[i] as u32) as u16,
    decreases s.len(),
{
    if s.len() > 0 {
        let d = s.drop_first();
        assert forall|i: int| 0 <= i < d.len() implies (#[trigger] d[i] as u32) < 0x10000 by {
            assert(d[i] == s[i + 1]);
        }
        lemma_units_of_narrow_text(d);
        assert forall|i: int| 0 <= i < s.len() implies #[trigger] encode_utf16(s)[i] == (s[i] as u32) as u16 by {
            if i > 0 {
                assert(d[i - 1] == s[i]);
            }
        }
    }
}

/// Mostly-ASCII text written as UTF-16 without a byte order mark is still
/// read as UTF-16, in either byte order: when it has at least two
/// characters, begins with an ASCII one, has no NUL and nothing beyond
/// U+FFFF, and more than four fifths of its code units are ASCII.
#[verifier::rlimit(40)]
pub proof fn utf16_without_a_mark_reads_back(s: Seq<char>)
    requires
        s.len() >= 2,
        (s[0] as u32) < 0x80,
        forall|i: int| 0 <= i < s.len() ==> #[trigger] s[i] != '\0' && (s[i] as u32) < 0x10000,
        5 * ascii_units(encode_utf16(s)) > 4 * s.len(),
    ensures
        spec_decode(unit_bytes(encode_utf16(s), true)) == s,
        spec_decode(unit_bytes(encode_utf16(s), false)) == s,
{
    let u = encode_utf16(s);
    lemma_units_of_narrow_text(s);
    lemma_utf16_lossy_of_encoding(s);
    lemma_units_of_unit_bytes(u, true);
    lemma_units_of_unit_bytes(u, false);
    assert forall|i: int| 0 <= i < u.len() implies #[trigger] u[i] != 0 by {
        assert(s[i] != '\0');
        assert(u[i] == (s[i] as u32) as u16);
        char_is_scalar(s[i]);
        char_u32_cast(s[i], s[i] as u32);
    }
    lemma_unit_counts(u);
    lemma_zeros_of_units(u);
    let n = u.len();
    let le = unit_bytes(u, true);
    let be = unit_bytes(u, false);
    assert(le.len() == 2 * n && be.len() == 2 * n);
    assert(u[0] < 0x80 && u[0] != 0);
    assert((2 * 0) / 2 == 0 && (2 * 0) % 2 == 0);
    assert(le[0] == (u[0] % 256) as u8);
    assert(be[0] == (u[0] / 256) as u8);
    assert(le[0] != 0xEFu8 && le[0] != 0xFFu8 && le[0] != 0xFEu8);
    assert(be[0] == 0u8);
    lemma_no_mark(le);
    lemma_no_mark(be);
    assert(looks_utf16le(le));
    assert(!looks_utf16le(be));
    assert(looks_utf16be(be));
}

/// The block and box-drawing characters of code page 437, bytes 0xB0 to
/// 0xDF, as the standard gives them.
pub open spec fn cp437_box_drawing() -> Seq<char> {
    seq![
        '░', '▒', '▓', '│', '┤', '╡', '╢', '╖', '╕', '╣', '║', '╗', '╝', '╜', '╛', '┐',
        '└', '┴', '┬', '├', '─', '┼', '╞', '╟', '╚', '╔', '╩', '╦', '╠', '═', '╬', '╧',
        '╨', '╤', '╥', '╙', '╘', '╒', '╓', '╫', '╪', '┘', '┌', '█', '▄', '▌', '▐', '▀',
    ]
}

/// Code page 437 reads as the standard says: ASCII bytes are themselves, and
/// bytes 0xB0 to 0xDF are the standard block and box-drawing characters. So
/// the lines a `tree /F` listing saved in code page 437 is drawn with read
/// as the glyphs the parser follows: `├───`, `└───` and `│   ` in front of
/// whatever follows.
pub proof fn cp437_reads_tree_glyphs(r: Seq<u8>)
    ensures
        forall|b: u8| b < 0x80 ==> #[trigger] cp437_char(b) == b as char,
        forall|i: int| 0 <= i < 48 ==> #[trigger] cp437_char((0xB0 + i) as u8) == cp437_box_drawing()[i],
        cp437_decode(seq![0xC3u8, 0xC4u8, 0xC4u8, 0xC4u8] + r) == seq!['├', '─', '─', '─'] + cp437_decode(r),
        cp437_decode(seq![0xC0u8, 0xC4u8, 0xC4u8, 0xC4u8] + r) == seq!['└', '─', '─', '─'] + cp437_decode(r),
        cp437_decode(seq![0xB3u8, 0x20u8, 0x20u8, 0x20u8] + r) == seq!['│', ' ', ' ', ' '] + cp437_decode(r),
        is_branch(cp437_char(0xC3)) && is_branch(cp437_char(0xC0)),
        is_vertical(cp437_char(0xB3)) && is_branch_tail(cp437_char(0xC4)),
{
    assert(cp437_table().subrange(48, 96) =~= cp437_box_drawing());
    assert forall|i: int| 0 <= i < 48 implies #[trigger] cp437_char((0xB0 + i) as u8) == cp437_box_drawing()[i] by {
        assert(((0xB0 + i) as u8) - 0x80 == 48 + i);
        assert(cp437_table()[48 + i] == cp437_table().subrange(48, 96)[i]);
    }
    assert(cp437_char(0xC3) == cp437_box_drawing()[0x13]);
    assert(cp437_char(0xC0) == cp437_box_drawing()[0x10]);
    assert(cp437_char(0xC4) == cp437_box_drawing()[0x14]);
    assert(cp437_char(0xB3) == cp437_box_drawing()[0x03]);
    assert(cp437_decode(seq![0xC3u8, 0xC4u8, 0xC4u8, 0xC4u8] + r) =~= seq!['├', '─', '─', '─'] + cp437_decode(r));
    assert(cp437_decode(seq![0xC0u8, 0xC4u8, 0xC4u8, 0xC4u8] + r) =~= seq!['└', '─', '─', '─'] + cp437_decode(r));
    assert(cp437_char(0x20) == ' ');
    assert(cp437_decode(seq![0xB3u8, 0x20u8, 0x20u8, 0x20u8] + r) =~= seq!['│', ' ', ' ', ' '] + cp437_decode(r));
}

/// The code page 437 standard's characters for bytes 0x80 to 0xFF.
pub open spec fn cp437_standard() -> Seq<char> {
    seq![
        'Ç', 'ü', 'é', 'â', 'ä', 'à', 'å', 'ç', 'ê', 'ë', 'è', 'ï', 'î', 'ì', 'Ä', 'Å',
        'É', 'æ', 'Æ', 'ô', 'ö', 'ò', 'û', 'ù', 'ÿ', 'Ö', 'Ü', '¢', '£', '¥', '₧', 'ƒ',
        'á', 'í', 'ó', 'ú', 'ñ', 'Ñ', 'ª', 'º', '¿', '⌐', '¬', '½', '¼', '¡', '«', '»',
        '░', '▒', '▓', '│', '┤', '╡', '╢', '╖', '╕', '╣', '║', '╗', '╝', '╜', '╛', '┐',
        '└', '┴', '┬', '├', '─', '┼', '╞', '╟', '╚', '╔', '╩', '╦', '╠', '═', '╬', '╧',
        '╨', '╤', '╥', '╙', '╘', '╒', '╓', '╫', '╪', '┘', '┌', '█', '▄', '▌', '▐', '▀',
        'α', 'ß', 'Γ', 'π', 'Σ', 'σ', 'µ', 'τ', 'Φ', 'Θ', 'Ω', 'δ', '∞', 'φ', 'ε', '∩',
        '≡', '±', '≥', '≤', '⌠', '⌡', '÷', '≈', '°', '∙', '·', '√', 'ⁿ', '²', '■', '\u{a0}',
    ]
}

/// Every byte from 0x80 up reads as the code page 437 standard gives it.
pub proof fn cp437_is_the_standard()
    ensures
        forall|b: u8| 0x80 <= b ==> #[trigger] cp437_char(b) == cp437_standard()[b - 0x80],
{
    assert(cp437_table() =~= cp437_standard());
}

} // verus!
