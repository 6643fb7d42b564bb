//! A base32 codec over a 32-symbol alphabet chosen for manual transcription:
//! the digits `0`-`9` followed by the uppercase letters, omitting the visually
//! ambiguous `I`, `L`, `O` and `U`. Decoding folds lowercase input to
//! uppercase and accepts `I` and `L` as aliases for `1`, and `O` as an alias
//! for `0`; `U` is rejected outright.

use vstd::prelude::*;

verus! {

/// Error raised while decoding, carrying the offending input character.
#[derive(Debug, Clone, Copy, PartialEq, Eq, Structural)]
#[non_exhaustive]
pub enum Base32DecodeError {
    InvalidChar(char),
}

/// The alphabet symbol for a 5-bit value: `0`-`9` for values 0-9, then the
/// uppercase letters with `I`, `L`, `O`, `U` skipped.
pub open spec fn symbol(v: u8) -> char {
    if v < 10 {
        (('0' as u8 + v) as u8) as char
    } else if v < 18 {
        (('A' as u8 + (v - 10)) as u8) as char
    } else if v < 20 {
        (('J' as u8 + (v - 18)) as u8) as char
    } else if v < 22 {
        (('M' as u8 + (v - 20)) as u8) as char
    } else if v < 27 {
        (('P' as u8 + (v - 22)) as u8) as char
    } else {
        (('V' as u8 + (v - 27)) as u8) as char
    }
}

/// True for the 32 characters the encoder can emit.
pub open spec fn in_alphabet(c: char) -> bool {
    ('0' <= c && c <= '9') || ('A' <= c && c <= 'H') || c == 'J' || c == 'K' || c == 'M' || c
        == 'N' || ('P' <= c && c <= 'T') || ('V' <= c && c <= 'Z')
}

/// Case folding and ambiguity remapping applied to decoder input:
/// lowercase letters are folded to uppercase, then `I` and `L` map to `1`
/// and `O` maps to `0`.
pub open spec fn fold_char(c: char) -> char {
    let up = if 'a' <= c && c <= 'z' {
        ((c as u32 - 32) as u8) as char
    } else {
        c
    };
    if up == 'I' || up == 'L' {
        '1'
    } else if up == 'O' {
        '0'
    } else {
        up
    }
}

/// True for the characters the decoder accepts: ASCII alphanumerics other
/// than `U` and `u`.
pub open spec fn is_code_char(c: char) -> bool {
    (('0' <= c && c <= '9') || ('A' <= c && c <= 'Z') || ('a' <= c && c <= 'z')) && c != 'U' && c
        != 'u'
}

/// The 5-bit value of a character of the alphabet proper (digits and the
/// uppercase letters that remain after folding).
pub open spec fn canonical_value(d: char) -> u8 {
    if '0' <= d && d <= '9' {
        (d as u32 - '0' as u32) as u8
    } else if 'A' <= d && d <= 'H' {
        (d as u32 - 'A' as u32 + 10) as u8
    } else if d == 'J' || d == 'K' {
        (d as u32 - 'J' as u32 + 18) as u8
    } else if d == 'M' || d == 'N' {
        (d as u32 - 'M' as u32 + 20) as u8
    } else if 'P' <= d && d <= 'T' {
        (d as u32 - 'P' as u32 + 22) as u8
    } else {
        (d as u32 - 'V' as u32 + 27) as u8
    }
}

/// The 5-bit value a decoder input character stands for, after folding;
/// `None` for a rejected character.
pub open spec fn char_value(c: char) -> Option<u8> {
    if is_code_char(c) {
        Some(canonical_value(fold_char(c)))
    } else {
        None
    }
}

/// The value of a character, with rejected characters mapped to zero.
pub open spec fn char_value_or_zero(c: char) -> u8 {
    match char_value(c) {
        Some(v) => v,
        None => 0,
    }
}

/// Every symbol the encoder emits lies in the alphabet and decodes back to
/// the value it was made from.
pub proof fn lemma_symbol_value(v: u8)
    requires
        v < 32,
    ensures
        in_alphabet(symbol(v)),
        char_value(symbol(v)) == Some(v),
{
}

/// Characters of the alphabet are accepted by the decoder unchanged:
/// folding does not move them and their value is their alphabet position.
pub proof fn lemma_alphabet_accepted(c: char)
    requires
        in_alphabet(c),
    ensures
        char_value(c) == Some(canonical_value(c)),
        canonical_value(c) < 32,
        symbol(canonical_value(c)) == c,
{
}

// Packing a 5-byte chunk into eight 5-bit values, most-significant-bit
// first. A shorter trailing chunk reuses these with the missing bytes as
// zero and keeps only the values that contain at least one real input bit.
pub open spec fn enc0(b0: u8) -> u8 {
    (b0 & 0xf8) >> 3
}

pub open spec fn enc1(b0: u8, b1: u8) -> u8 {
    ((b0 & 0x07) << 2) | ((b1 & 0xc0) >> 6)
}

pub open spec fn enc2(b1: u8) -> u8 {
    (b1 & 0x3e) >> 1
}

pub open spec fn enc3(b1: u8, b2: u8) -> u8 {
    ((b1 & 0x01) << 4) | ((b2 & 0xf0) >> 4)
}

pub open spec fn enc4(b2: u8, b3: u8) -> u8 {
    ((b2 & 0x0f) << 1) | ((b3 & 0x80) >> 7)
}

pub open spec fn enc5(b3: u8) -> u8 {
    (b3 & 0x7c) >> 2
}

pub open spec fn enc6(b3: u8, b4: u8) -> u8 {
    ((b3 & 0x03) << 3) | ((b4 & 0xe0) >> 5)
}

pub open spec fn enc7(b4: u8) -> u8 {
    b4 & 0x1f
}

// Repacking eight 5-bit values into the five bytes they came from. A
// shorter trailing group reuses these with the missing values as zero and
// keeps only the bytes whose every bit the group covers.
pub open spec fn dec0(v0: u8, v1: u8) -> u8 {
    ((v0 & 0x1f) << 3) | ((v1 & 0x1c) >> 2)
}

pub open spec fn dec1(v1: u8, v2: u8, v3: u8) -> u8 {
    ((v1 & 0x03) << 6) | ((v2 & 0x1f) << 1) | ((v3 & 0x10) >> 4)
}

pub open spec fn dec2(v3: u8, v4: u8) -> u8 {
    ((v3 & 0x0f) << 4) | ((v4 & 0x1e) >> 1)
}

pub open spec fn dec3(v4: u8, v5: u8, v6: u8) -> u8 {
    ((v4 & 0x01) << 7) | ((v5 & 0x1f) << 2) | ((v6 & 0x18) >> 3)
}

pub open spec fn dec4(v6: u8, v7: u8) -> u8 {
    ((v6 & 0x07) << 5) | (v7 & 0x1f)
}

/// The encoding of a byte sequence: each 5-byte chunk becomes 8 symbols;
/// a trailing chunk of 1, 2, 3 or 4 bytes becomes 2, 4, 5 or 7 symbols.
pub open spec fn spec_encode(bytes: Seq<u8>) -> Seq<char>
    decreases bytes.len(),
{
    if bytes.len() >= 5 {
        seq![
            symbol(enc0(bytes[0])),
            symbol(enc1(bytes[0], bytes[1])),
            symbol(enc2(bytes[1])),
            symbol(enc3(bytes[1], bytes[2])),
            symbol(enc4(bytes[2], bytes[3])),
            symbol(enc5(bytes[3])),
            symbol(enc6(bytes[3], bytes[4])),
            symbol(enc7(bytes[4])),
        ] + spec_encode(bytes.skip(5))
    } else if bytes.len() == 4 {
        seq![
            symbol(enc0(bytes[0])),
            symbol(enc1(bytes[0], bytes[1])),
            symbol(enc2(bytes[1])),
            symbol(enc3(bytes[1], bytes[2])),
            symbol(enc4(bytes[2], bytes[3])),
            symbol(enc5(bytes[3])),
            symbol(enc6(bytes[3], 0)),
        ]
    } else if bytes.len() == 3 {
        seq![
            symbol(enc0(bytes[0])),
            symbol(enc1(bytes[0], bytes[1])),
            symbol(enc2(bytes[1])),
            symbol(enc3(bytes[1], bytes[2])),
            symbol(enc4(bytes[2], 0)),
        ]
    } else if bytes.len() == 2 {
        seq![
            symbol(enc0(bytes[0])),
            symbol(enc1(bytes[0], bytes[1])),
            symbol(enc2(bytes[1])),
            symbol(enc3(bytes[1], 0)),
        ]
    } else if bytes.len() == 1 {
        seq![symbol(enc0(bytes[0])), symbol(enc1(bytes[0], 0))]
    } else {
        seq![]
    }
}

/// The bytes a sequence of accepted characters decodes to: each 8-symbol
/// group repacks into 5 bytes; a trailing group keeps only the bytes whose
/// every bit it covers, so 2, 3, 4, 5, 6 or 7 trailing symbols give
/// 1, 1, 2, 3, 3 or 4 bytes, and a single trailing symbol, which carries
/// no complete byte, gives none.
pub open spec fn decoded_bytes(s: Seq<char>) -> Seq<u8>
    decreases s.len(),
{
    let v0 = char_value_or_zero(s[0]);
    let v1 = if s.len() > 1 {
        char_value_or_zero(s[1])
    } else {
        0
    };
    let v2 = if s.len() > 2 {
        char_value_or_zero(s[2])
    } else {
        0
    };
    let v3 = if s.len() > 3 {
        char_value_or_zero(s[3])
    } else {
        0
    };
    let v4 = if s.len() > 4 {
        char_value_or_zero(s[4])
    } else {
        0
    };
    let v5 = if s.len() > 5 {
        char_value_or_zero(s[5])
    } else {
        0
    };
    let v6 = if s.len() > 6 {
        char_value_or_zero(s[6])
    } else {
        0
    };
    if s.len() >= 8 {
        seq![
            dec0(v0, v1),
            dec1(v1, v2, v3),
            dec2(v3, v4),
            dec3(v4, v5, v6),
            dec4(v6, char_value_or_zero(s[7])),
        ] + decoded_bytes(s.skip(8))
    } else if s.len() == 7 {
        seq![dec0(v0, v1), dec1(v1, v2, v3), dec2(v3, v4), dec3(v4, v5, v6)]
    } else if s.len() >= 5 {
        seq![dec0(v0, v1), dec1(v1, v2, v3), dec2(v3, v4)]
    } else if s.len() == 4 {
        seq![dec0(v0, v1), dec1(v1, v2, v3)]
    } else if s.len() >= 2 {
        seq![dec0(v0, v1)]
    } else {
        seq![]
    }
}

/// True when every character of the sequence is one the decoder accepts.
pub open spec fn valid_chars(s: Seq<char>) -> bool {
    forall|i: int| 0 <= i < s.len() ==> char_value(s[i]) is Some
}

/// The position of the first rejected character of the sequence.
pub open spec fn first_invalid(s: Seq<char>) -> int
    decreases s.len(),
{
    if s.len() == 0 {
        0
    } else if char_value(s[0]) is None {
        0
    } else {
        1 + first_invalid(s.skip(1))
    }
}

/// What decoding a character sequence yields: the repacked bytes when every
/// character is accepted, and otherwise the error naming the first
/// character that is not.
pub open spec fn spec_decode(s: Seq<char>) -> Result<Seq<u8>, Base32DecodeError> {
    if valid_chars(s) {
        Ok(decoded_bytes(s))
    } else {
        Err(Base32DecodeError::InvalidChar(s[first_invalid(s)]))
    }
}

/// Every packed 5-bit value is below 32.
pub proof fn lemma_enc_bounds(b0: u8, b1: u8, b2: u8, b3: u8, b4: u8)
    by (bit_vector)
    ensures
        enc0(b0) < 32,
        enc1(b0, b1) < 32,
        enc2(b1) < 32,
        enc3(b1, b2) < 32,
        enc4(b2, b3) < 32,
        enc5(b3) < 32,
        enc6(b3, b4) < 32,
        enc7(b4) < 32,
{
}

/// Repacking the 5-bit values of a chunk gives back the chunk's bytes.
pub proof fn lemma_unpack_pack(b0: u8, b1: u8, b2: u8, b3: u8, b4: u8)
    by (bit_vector)
    ensures
        dec0(enc0(b0), enc1(b0, b1)) == b0,
        dec1(enc1(b0, b1), enc2(b1), enc3(b1, b2)) == b1,
        dec2(enc3(b1, b2), enc4(b2, b3)) == b2,
        dec3(enc4(b2, b3), enc5(b3), enc6(b3, b4)) == b3,
        dec4(enc6(b3, b4), enc7(b4)) == b4,
{
}

/// Relies on String::push: appends the character to the end of the string.
pub assume_specification [ String::push ](s: &mut String, c: char)
    ensures
        final(s)@ == old(s)@.push(c),
;

/// The alphabet symbol for a 5-bit value, as the encoder emits it.
fn symbol_char(v: u8) -> (c: char)
    requires
        v < 32,
    ensures
        c == symbol(v),
{
    if v < 10 {
        ('0' as u8 + v) as char
    } else if v < 18 {
        ('A' as u8 + (v - 10)) as char
    } else if v < 20 {
        ('J' as u8 + (v - 18)) as char
    } else if v < 22 {
        ('M' as u8 + (v - 20)) as char
    } else if v < 27 {
        ('P' as u8 + (v - 22)) as char
    } else {
        ('V' as u8 + (v - 27)) as char
    }
}

/// Folds a decoder input character to the alphabet character it stands for,
/// or reports it as invalid: lowercase letters fold to uppercase, `I` and
/// `L` stand for `1`, `O` stands for `0`, and anything that is not an ASCII
/// alphanumeric, or is `U` in either case, is rejected.
pub fn convert_char(c: char) -> (r: Result<char, Base32DecodeError>)
    ensures
        match r {
            Ok(d) => char_value(c) is Some && d == fold_char(c),
            Err(e) => char_value(c) is None && e == Base32DecodeError::InvalidChar(c),
        },
{
    let alnum = ('0' <= c && c <= '9') || ('A' <= c && c <= 'Z') || ('a' <= c && c <= 'z');
    if !alnum || c == 'U' || c == 'u' {
        return Err(Base32DecodeError::InvalidChar(c));
    }
    let up = if 'a' <= c && c <= 'z' {
        (c as u8 - 32) as char
    } else {
        c
    };
    if up == 'I' || up == 'L' {
        Ok('1')
    } else if up == 'O' {
        Ok('0')
    } else {
        Ok(up)
    }
}

/// The 5-bit value of an already folded alphabet character.
fn value_of(d: char) -> (v: u8)
    requires
        in_alphabet(d),
    ensures
        v == canonical_value(d),
        v < 32,
{
    if '0' <= d && d <= '9' {
        (d as u8) - ('0' as u8)
    } else if 'A' <= d && d <= 'H' {
        (d as u8) - ('A' as u8) + 10
    } else if d == 'J' || d == 'K' {
        (d as u8) - ('J' as u8) + 18
    } else if d == 'M' || d == 'N' {
        (d as u8) - ('M' as u8) + 20
    } else if 'P' <= d && d <= 'T' {
        (d as u8) - ('P' as u8) + 22
    } else {
        (d as u8) - ('V' as u8) + 27
    }
}

/// A character the decoder accepts folds to a character of the alphabet,
/// whose position is the value the input stands for.
pub proof fn lemma_fold_in_alphabet(c: char)
    requires
        char_value(c) is Some,
    ensures
        in_alphabet(fold_char(c)),
        canonical_value(fold_char(c)) == char_value_or_zero(c),
{
}

/// Encodes a byte sequence as text over the 32-symbol alphabet: each 5-byte
/// chunk becomes 8 symbols, most-significant-bit first, and a trailing chunk
/// of 1, 2, 3 or 4 bytes becomes 2, 4, 5 or 7 symbols, the missing low bits
/// taken as zero. The output holds `ceil(len * 8 / 5)` characters and no
/// padding characters.
#[verifier::rlimit(60)]
#[verifier::spinoff_prover]
pub fn encode(bytes: &[u8]) -> (r: String)
    ensures
        r@ == spec_encode(bytes@),
{
    let len = bytes.len();
    let mut buf = String::new();
    let mut i: usize = 0;
    let z: u8 = 0;
    proof {
        assert(bytes@.skip(0) =~= bytes@);
    }
    while len - i >= 5
        invariant
            i <= len,
            len == bytes@.len(),
            buf@ + spec_encode(bytes@.skip(i as int)) == spec_encode(bytes@),
        decreases len - i,
    {
        let b0 = bytes[i];
        let b1 = bytes[i + 1];
        let b2 = bytes[i + 2];
        let b3 = bytes[i + 3];
        let b4 = bytes[i + 4];
        proof {
            lemma_enc_bounds(b0, b1, b2, b3, b4);
        }
        let ghost buf0 = buf@;
        buf.push(symbol_char((b0 & 0xf8) >> 3));
        buf.push(symbol_char(((b0 & 0x07) << 2) | ((b1 & 0xc0) >> 6)));
        buf.push(symbol_char((b1 & 0x3e) >> 1));
        buf.push(symbol_char(((b1 & 0x01) << 4) | ((b2 & 0xf0) >> 4)));
        buf.push(symbol_char(((b2 & 0x0f) << 1) | ((b3 & 0x80) >> 7)));
        buf.push(symbol_char((b3 & 0x7c) >> 2));
        buf.push(symbol_char(((b3 & 0x03) << 3) | ((b4 & 0xe0) >> 5)));
        buf.push(symbol_char(b4 & 0x1f));
        proof {
            let tail = bytes@.skip(i as int);
            assert(tail.skip(5) =~= bytes@.skip(i as int + 5));
            assert(buf@ =~= buf0 + seq![
                symbol(enc0(b0)),
                symbol(enc1(b0, b1)),
                symbol(enc2(b1)),
                symbol(enc3(b1, b2)),
                symbol(enc4(b2, b3)),
                symbol(enc5(b3)),
                symbol(enc6(b3, b4)),
                symbol(enc7(b4)),
            ]);
            assert(buf@ + spec_encode(bytes@.skip(i as int + 5)) =~= buf0 + spec_encode(tail));
        }
        i = i + 5;
    }
    let rem = len - i;
    let ghost buf0 = buf@;
    if rem == 1 {
        let b0 = bytes[i];
        proof {
            lemma_enc_bounds(b0, z, z, z, z);
        }
        buf.push(symbol_char((b0 & 0xf8) >> 3));
        buf.push(symbol_char(((b0 & 0x07) << 2) | ((z & 0xc0) >> 6)));
        proof {
            assert(buf@ =~= buf0 + seq![symbol(enc0(b0)), symbol(enc1(b0, z))]);
        }
    } else if rem == 2 {
        let b0 = bytes[i];
        let b1 = bytes[i + 1];
        proof {
            lemma_enc_bounds(b0, b1, z, z, z);
        }
        buf.push(symbol_char((b0 & 0xf8) >> 3));
        buf.push(symbol_char(((b0 & 0x07) << 2) | ((b1 & 0xc0) >> 6)));
        buf.push(symbol_char((b1 & 0x3e) >> 1));
        buf.push(symbol_char(((b1 & 0x01) << 4) | ((z & 0xf0) >> 4)));
        proof {
            assert(buf@ =~= buf0 + seq![
                symbol(enc0(b0)),
                symbol(enc1(b0, b1)),
                symbol(enc2(b1)),
                symbol(enc3(b1, z)),
            ]);
        }
    } else if rem == 3 {
        let b0 = bytes[i];
        let b1 = bytes[i + 1];
        let b2 = bytes[i + 2];
        proof {
            lemma_enc_bounds(b0, b1, b2, z, z);
        }
        buf.push(symbol_char((b0 & 0xf8) >> 3));
        buf.push(symbol_char(((b0 & 0x07) << 2) | ((b1 & 0xc0) >> 6)));
        buf.push(symbol_char((b1 & 0x3e) >> 1));
        buf.push(symbol_char(((b1 & 0x01) << 4) | ((b2 & 0xf0) >> 4)));
        buf.push(symbol_char(((b2 & 0x0f) << 1) | ((z & 0x80) >> 7)));
        proof {
            assert(buf@ =~= buf0 + seq![
                symbol(enc0(b0)),
                symbol(enc1(b0, b1)),
                symbol(enc2(b1)),
                symbol(enc3(b1, b2)),
                symbol(enc4(b2, z)),
            ]);
        }
    } else if rem == 4 {
        let b0 = bytes[i];
        let b1 = bytes[i + 1];
        let b2 = bytes[i + 2];
        let b3 = bytes[i + 3];
        proof {
            lemma_enc_bounds(b0, b1, b2, b3, z);
        }
        buf.push(symbol_char((b0 & 0xf8) >> 3));
        buf.push(symbol_char(((b0 & 0x07) << 2) | ((b1 & 0xc0) >> 6)));
        buf.push(symbol_char((b1 & 0x3e) >> 1));
        buf.push(symbol_char(((b1 & 0x01) << 4) | ((b2 & 0xf0) >> 4)));
        buf.push(symbol_char(((b2 & 0x0f) << 1) | ((b3 & 0x80) >> 7)));
        buf.push(symbol_char((b3 & 0x7c) >> 2));
        buf.push(symbol_char(((b3 & 0x03) << 3) | ((z & 0xe0) >> 5)));
        proof {
            assert(buf@ =~= buf0 + seq![
                symbol(enc0(b0)),
                symbol(enc1(b0, b1)),
                symbol(enc2(b1)),
                symbol(enc3(b1, b2)),
                symbol(enc4(b2, b3)),
                symbol(enc5(b3)),
                symbol(enc6(b3, z)),
            ]);
        }
    }
    proof {
        assert(buf@ =~= buf0 + spec_encode(bytes@.skip(i as int)));
    }
    buf
}

/// Position `i` is the first rejected character when everything before it
/// is accepted.
proof fn lemma_first_invalid_at(s: Seq<char>, i: int)
    requires
        0 <= i < s.len(),
        char_value(s[i]) is None,
        forall|j: int| 0 <= j < i ==> char_value(s[j]) is Some,
    ensures
        !valid_chars(s),
        first_invalid(s) == i,
    decreases i,
{
    if i > 0 {
        lemma_first_invalid_at(s.skip(1), i - 1);
    }
}

/// Decodes text over the 32-symbol alphabet back to bytes. Lowercase input
/// is folded to uppercase, `I` and `L` are read as `1` and `O` as `0`;
/// the first character that is not an ASCII alphanumeric, or is `U` in
/// either case, is reported as invalid. Each 8-symbol group repacks into
/// 5 bytes; a trailing group keeps only the bytes it covers completely, so
/// a single trailing symbol contributes nothing. No length or alignment
/// check is made beyond per-character legality.
#[verifier::rlimit(60)]
#[verifier::spinoff_prover]
pub fn decode(s: &str) -> (r: Result<Vec<u8>, Base32DecodeError>)
    ensures
        match r {
            Ok(v) => spec_decode(s@) == Ok::<Seq<u8>, Base32DecodeError>(v@),
            Err(e) => spec_decode(s@) == Err::<Seq<u8>, Base32DecodeError>(e),
        },
{
    let len = s.unicode_len();
    let mut vals: Vec<u8> = Vec::new();
    let mut i: usize = 0;
    while i < len
        invariant
            i <= len,
            len == s@.len(),
            vals@.len() == i,
            forall|j: int| 0 <= j < i ==> char_value(#[trigger] s@[j]) is Some,
            forall|j: int| 0 <= j < i ==> #[trigger] vals@[j] == char_value_or_zero(s@[j]),
        decreases len - i,
    {
        let c = s.get_char(i);
        match convert_char(c) {
            Ok(d) => {
                proof {
                    lemma_fold_in_alphabet(c);
                }
                vals.push(value_of(d));
                proof {
                    assert(vals@[i as int] == char_value_or_zero(s@[i as int]));
                }
            },
            Err(e) => {
                proof {
                    lemma_first_invalid_at(s@, i as int);
                }
                return Err(e);
            },
        }
        i = i + 1;
    }
    let mut out: Vec<u8> = Vec::new();
    let mut k: usize = 0;
    proof {
        assert(s@.skip(0) =~= s@);
    }
    while len - k >= 8
        invariant
            k <= len,
            len == s@.len(),
            vals@.len() == len,
            forall|j: int| 0 <= j < len ==> char_value(#[trigger] s@[j]) is Some,
            forall|j: int| 0 <= j < len ==> #[trigger] vals@[j] == char_value_or_zero(s@[j]),
            out@ + decoded_bytes(s@.skip(k as int)) == decoded_bytes(s@),
        decreases len - k,
    {
        let v0 = vals[k];
        let v1 = vals[k + 1];
        let v2 = vals[k + 2];
        let v3 = vals[k + 3];
        let v4 = vals[k + 4];
        let v5 = vals[k + 5];
        let v6 = vals[k + 6];
        let v7 = vals[k + 7];
        let ghost out0 = out@;
        out.push(((v0 & 0x1f) << 3) | ((v1 & 0x1c) >> 2));
        out.push(((v1 & 0x03) << 6) | ((v2 & 0x1f) << 1) | ((v3 & 0x10) >> 4));
        out.push(((v3 & 0x0f) << 4) | ((v4 & 0x1e) >> 1));
        out.push(((v4 & 0x01) << 7) | ((v5 & 0x1f) << 2) | ((v6 & 0x18) >> 3));
        out.push(((v6 & 0x07) << 5) | (v7 & 0x1f));
        proof {
            let tail = s@.skip(k as int);
            assert(tail.skip(8) =~= s@.skip(k as int + 8));
            assert(out@ =~= out0 + seq![
                dec0(v0, v1),
                dec1(v1, v2, v3),
                dec2(v3, v4),
                dec3(v4, v5, v6),
                dec4(v6, v7),
            ]);
            assert(out@ + decoded_bytes(s@.skip(k as int + 8)) =~= out0 + decoded_bytes(tail));
        }
        k = k + 8;
    }
    let rem = len - k;
    let ghost out0 = out@;
    if rem >= 2 {
        let v0 = vals[k];
        let v1 = vals[k + 1];
        out.push(((v0 & 0x1f) << 3) | ((v1 & 0x1c) >> 2));
        if rem >= 4 {
            let v2 = vals[k + 2];
            let v3 = vals[k + 3];
            out.push(((v1 & 0x03) << 6) | ((v2 & 0x1f) << 1) | ((v3 & 0x10) >> 4));
            if rem >= 5 {
                let v4 = vals[k + 4];
                out.push(((v3 & 0x0f) << 4) | ((v4 & 0x1e) >> 1));
                if rem == 7 {
                    let v5 = vals[k + 5];
                    let v6 = vals[k + 6];
                    out.push(((v4 & 0x01) << 7) | ((v5 & 0x1f) << 2) | ((v6 & 0x18) >> 3));
                }
            }
        }
    }
    proof {
        assert(out@ =~= out0 + decoded_bytes(s@.skip(k as int)));
        assert(out@ =~= decoded_bytes(s@));
    }
    Ok(out)
}

/// The encoder emits exactly `ceil(len * 8 / 5)` symbols.
pub proof fn lemma_encode_len(bytes: Seq<u8>)
    ensures
        spec_encode(bytes).len() == (bytes.len() * 8 + 4) / 5,
    decreases bytes.len(),
{
    if bytes.len() >= 5 {
        lemma_encode_len(bytes.skip(5));
        let n = bytes.len() - 5;
        vstd::arithmetic::div_mod::lemma_hoist_over_denominator(n * 8 + 4, 8, 5);
        assert((n * 8 + 4) + 8 * 5 == bytes.len() * 8 + 4);
    }
}

/// Every character the encoder emits lies in the 32-symbol alphabet, so the
/// decoder accepts an encoded string whole.
pub proof fn lemma_encode_alphabet(bytes: Seq<u8>)
    ensures
        forall|i: int|
            0 <= i < spec_encode(bytes).len() ==> in_alphabet(#[trigger] spec_encode(bytes)[i]),
        valid_chars(spec_encode(bytes)),
    decreases bytes.len(),
{
    let s = spec_encode(bytes);
    if bytes.len() >= 5 {
        let b0 = bytes[0];
        let b1 = bytes[1];
        let b2 = bytes[2];
        let b3 = bytes[3];
        let b4 = bytes[4];
        lemma_enc_bounds(b0, b1, b2, b3, b4);
        lemma_symbol_value(enc0(b0));
        lemma_symbol_value(enc1(b0, b1));
        lemma_symbol_value(enc2(b1));
        lemma_symbol_value(enc3(b1, b2));
        lemma_symbol_value(enc4(b2, b3));
        lemma_symbol_value(enc5(b3));
        lemma_symbol_value(enc6(b3, b4));
        lemma_symbol_value(enc7(b4));
        lemma_encode_alphabet(bytes.skip(5));
        assert forall|i: int| 0 <= i < s.len() implies in_alphabet(#[trigger] s[i]) by {
            if i >= 8 {
                assert(s[i] == spec_encode(bytes.skip(5))[i - 8]);
            }
        }
    } else if bytes.len() >= 1 {
        let b0 = bytes[0];
        let b1 = if bytes.len() > 1 {
            bytes[1]
        } else {
            0
        };
        let b2 = if bytes.len() > 2 {
            bytes[2]
        } else {
            0
        };
        let b3 = if bytes.len() > 3 {
            bytes[3]
        } else {
            0
        };
        lemma_enc_bounds(b0, b1, b2, b3, 0);
        lemma_symbol_value(enc0(b0));
        lemma_symbol_value(enc1(b0, b1));
        lemma_symbol_value(enc2(b1));
        lemma_symbol_value(enc3(b1, b2));
        lemma_symbol_value(enc4(b2, b3));
        lemma_symbol_value(enc5(b3));
        lemma_symbol_value(enc6(b3, 0));
    }
    assert forall|i: int| 0 <= i < s.len() implies char_value(#[trigger] s[i]) is Some by {
        lemma_alphabet_accepted(s[i]);
    }
}

/// Round trip: decoding an encoded byte sequence gives the sequence back,
/// for every length.
#[verifier::rlimit(80)]
#[verifier::spinoff_prover]
pub proof fn lemma_decode_encode(bytes: Seq<u8>)
    ensures
        spec_decode(spec_encode(bytes)) == Ok::<Seq<u8>, Base32DecodeError>(bytes),
    decreases bytes.len(),
{
    let s = spec_encode(bytes);
    lemma_encode_alphabet(bytes);
    if bytes.len() >= 5 {
        let b0 = bytes[0];
        let b1 = bytes[1];
        let b2 = bytes[2];
        let b3 = bytes[3];
        let b4 = bytes[4];
        lemma_enc_bounds(b0, b1, b2, b3, b4);
        lemma_symbol_value(enc0(b0));
        lemma_symbol_value(enc1(b0, b1));
        lemma_symbol_value(enc2(b1));
        lemma_symbol_value(enc3(b1, b2));
        lemma_symbol_value(enc4(b2, b3));
        lemma_symbol_value(enc5(b3));
        lemma_symbol_value(enc6(b3, b4));
        lemma_symbol_value(enc7(b4));
        lemma_unpack_pack(b0, b1, b2, b3, b4);
        lemma_decode_encode(bytes.skip(5));
        assert(s.skip(8) =~= spec_encode(bytes.skip(5)));
        assert(decoded_bytes(s) =~= bytes);
    } else if bytes.len() == 4 {
        let b0 = bytes[0];
        let b1 = bytes[1];
        let b2 = bytes[2];
        let b3 = bytes[3];
        lemma_enc_bounds(b0, b1, b2, b3, 0);
        lemma_symbol_value(enc0(b0));
        lemma_symbol_value(enc1(b0, b1));
        lemma_symbol_value(enc2(b1));
        lemma_symbol_value(enc3(b1, b2));
        lemma_symbol_value(enc4(b2, b3));
        lemma_symbol_value(enc5(b3));
        lemma_symbol_value(enc6(b3, 0));
        lemma_unpack_pack(b0, b1, b2, b3, 0);
        assert(decoded_bytes(s) =~= bytes);
    } else if bytes.len() == 3 {
        let b0 = bytes[0];
        let b1 = bytes[1];
        let b2 = bytes[2];
        lemma_enc_bounds(b0, b1, b2, 0, 0);
        lemma_symbol_value(enc0(b0));
        lemma_symbol_value(enc1(b0, b1));
        lemma_symbol_value(enc2(b1));
        lemma_symbol_value(enc3(b1, b2));
        lemma_symbol_value(enc4(b2, 0));
        lemma_unpack_pack(b0, b1, b2, 0, 0);
        assert(decoded_bytes(s) =~= bytes);
    } else if bytes.len() == 2 {
        let b0 = bytes[0];
        let b1 = bytes[1];
        lemma_enc_bounds(b0, b1, 0, 0, 0);
        lemma_symbol_value(enc0(b0));
        lemma_symbol_value(enc1(b0, b1));
        lemma_symbol_value(enc2(b1));
        lemma_symbol_value(enc3(b1, 0));
        lemma_unpack_pack(b0, b1, 0, 0, 0);
        assert(decoded_bytes(s) =~= bytes);
    } else if bytes.len() == 1 {
        let b0 = bytes[0];
        lemma_enc_bounds(b0, 0, 0, 0, 0);
        lemma_symbol_value(enc0(b0));
        lemma_symbol_value(enc1(b0, 0));
        lemma_unpack_pack(b0, 0, 0, 0, 0);
        assert(decoded_bytes(s) =~= bytes);
    } else {
        assert(decoded_bytes(s) =~= bytes);
    }
}

/// Decoding succeeds exactly when every character is an ASCII alphanumeric
/// other than `U` or `u`, in either case.
pub proof fn lemma_decode_validity(s: Seq<char>)
    ensures
        (spec_decode(s) is Ok) <==> (forall|i: int|
            0 <= i < s.len() ==> is_code_char(#[trigger] s[i])),
{
}

/// The ambiguous letters read as their look-alike digits, in either case,
/// while `U` and `u` are rejected outright.
pub proof fn lemma_aliases()
    ensures
        char_value('I') == Some(1u8),
        char_value('L') == Some(1u8),
        char_value('O') == Some(0u8),
        char_value('i') == Some(1u8),
        char_value('l') == Some(1u8),
        char_value('o') == Some(0u8),
        char_value('U') is None,
        char_value('u') is None,
{
}

} // verus!
