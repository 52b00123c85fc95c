//! Modified BASE64 of RFC 3501: the standard alphabet with `,` in place of
//! `/`, and no padding. The encoding and decoding themselves are done by the
//! `base64` crate.
use base64::alphabet::Alphabet;
use base64::engine::general_purpose::{GeneralPurpose, GeneralPurposeConfig};
use base64::engine::DecodePaddingMode;
use base64::Engine;
use vstd::prelude::*;
use vstd::utf8::char_u32_cast;

use crate::text::ascii_bytes;

verus! {

/// Modified BASE64 alphabet: standard, but `/` becomes `,`.
pub const MODIFIED_BASE64_SYMBOLS: &'static str = "ABCDEFGHIJKLMNOPQRSTUVWXYZabcdefghijklmnopqrstuvwxyz0123456789+,";

/// The symbols of [`MODIFIED_BASE64_SYMBOLS`], in order.
pub open spec fn modified_base64_symbols() -> Seq<char> {
    seq![
        'A', 'B', 'C', 'D', 'E', 'F', 'G', 'H', 'I', 'J', 'K', 'L', 'M', 'N', 'O', 'P',
        'Q', 'R', 'S', 'T', 'U', 'V', 'W', 'X', 'Y', 'Z', 'a', 'b', 'c', 'd', 'e', 'f',
        'g', 'h', 'i', 'j', 'k', 'l', 'm', 'n', 'o', 'p', 'q', 'r', 's', 't', 'u', 'v',
        'w', 'x', 'y', 'z', '0', '1', '2', '3', '4', '5', '6', '7', '8', '9', '+', ',',
    ]
}

/// `c` is one of the modified BASE64 symbols: an ASCII letter or digit, `+` or `,`.
pub open spec fn is_modified_base64_symbol(c: char) -> bool {
    ||| 'A' <= c && c <= 'Z'
    ||| 'a' <= c && c <= 'z'
    ||| '0' <= c && c <= '9'
    ||| c == '+'
    ||| c == ','
}

/// The symbol for a six-bit value: `A`–`Z`, `a`–`z`, `0`–`9`, `+`, `,` in
/// that order.
pub open spec fn base64_symbol(v: int) -> char {
    if v < 26 {
        ((65 + v) as u32) as char
    } else if v < 52 {
        ((97 + v - 26) as u32) as char
    } else if v < 62 {
        ((48 + v - 52) as u32) as char
    } else if v == 62 {
        '+'
    } else {
        ','
    }
}

/// The modified BASE64 text of `b`, without padding: every three bytes give
/// four symbols, a last one or two bytes give two or three, their unused low
/// bits zero.
pub open spec fn base64_unpadded(b: Seq<u8>) -> Seq<char>
    decreases b.len(),
{
    if b.len() == 0 {
        seq![]
    } else if b.len() == 1 {
        let x = b[0] as int;
        seq![base64_symbol(x / 4), base64_symbol((x % 4) * 16)]
    } else if b.len() == 2 {
        let x = b[0] as int;
        let y = b[1] as int;
        seq![base64_symbol(x / 4), base64_symbol((x % 4) * 16 + y / 16), base64_symbol((y % 16) * 4)]
    } else {
        let x = b[0] as int;
        let y = b[1] as int;
        let z = b[2] as int;
        seq![
            base64_symbol(x / 4),
            base64_symbol((x % 4) * 16 + y / 16),
            base64_symbol((y % 16) * 4 + z / 64),
            base64_symbol(z % 64),
        ] + base64_unpadded(b.skip(3))
    }
}

/// The bytes whose modified BASE64 text, without padding, is `text`, if
/// there are any (there is at most one: see `lemma_base64_injective`).
pub open spec fn base64_unpadded_decoding(text: Seq<u8>) -> Option<Seq<u8>> {
    if exists|b: Seq<u8>| ascii_bytes(base64_unpadded(b)) == text {
        Some(choose|b: Seq<u8>| ascii_bytes(base64_unpadded(b)) == text)
    } else {
        None
    }
}

/// The modified BASE64 text of `bytes`, without padding.
///
/// Trusted: `Alphabet::new` on `symbols`, then `Engine::encode` of a
/// `GeneralPurpose` engine over that alphabet with `encode_padding` off and
/// `DecodePaddingMode::RequireNone`. Claimed of the crate: the result is
/// `base64_unpadded(bytes)` (`encode_with_padding` writes four symbols for
/// each whole three bytes and, padding being off, two or three for a last one
/// or two, with zero trailing bits), the symbols taken in the order of the
/// alphabet. `Alphabet::new` accepts these symbols: 64 distinct printable
/// ASCII bytes, none of them `=`. The bound on the length keeps `encoded_len`
/// from overflowing and the buffer within `isize::MAX`.
#[verifier::external_body]
pub(crate) fn encode_unpadded(symbols: &str, bytes: &[u8]) -> (text: String)
    requires
        symbols@ == modified_base64_symbols(),
        bytes@.len() <= usize::MAX / 4,
    ensures
        text@ == base64_unpadded(bytes@),
{
    let alphabet = Alphabet::new(symbols).expect("modified BASE64 alphabet is valid");
    let config = GeneralPurposeConfig::new()
        .with_encode_padding(false)
        .with_decode_padding_mode(DecodePaddingMode::RequireNone);
    GeneralPurpose::new(&alphabet, config).encode(bytes)
}

/// The bytes whose modified BASE64 text is `text`, if it is one.
///
/// Trusted: `Alphabet::new` on `symbols`, then `Engine::decode` of a
/// `GeneralPurpose` engine over that alphabet with `encode_padding` off and
/// `DecodePaddingMode::RequireNone`; its error becomes `None`. Claimed of the
/// crate: it accepts exactly the canonical unpadded texts, that is, the texts
/// `base64_unpadded` writes, and gives back the bytes written. Whole quads
/// decode to three bytes each; in `decode_suffix` a last single symbol is an
/// `InvalidLength`, any `=` an `InvalidPadding` under `RequireNone`, nonzero
/// trailing bits an `InvalidLastSymbol` (trailing bits are not allowed by
/// default), and a byte outside the alphabet an `InvalidByte`.
#[verifier::external_body]
pub(crate) fn decode_unpadded(symbols: &str, text: &[u8]) -> (bytes: Option<Vec<u8>>)
    requires
        symbols@ == modified_base64_symbols(),
    ensures
        match bytes {
            Some(b) => ascii_bytes(base64_unpadded(b@)) == text@,
            None => forall|b: Seq<u8>| ascii_bytes(#[trigger] base64_unpadded(b)) != text@,
        },
{
    let alphabet = Alphabet::new(symbols).expect("modified BASE64 alphabet is valid");
    let config = GeneralPurposeConfig::new()
        .with_decode_padding_mode(DecodePaddingMode::RequireNone);
    GeneralPurpose::new(&alphabet, config).decode(text).ok()
}

/// The alphabet constant holds exactly the modified BASE64 symbols.
pub(crate) proof fn lemma_modified_base64_symbols()
    ensures
        MODIFIED_BASE64_SYMBOLS@ == modified_base64_symbols(),
{
    reveal_strlit("ABCDEFGHIJKLMNOPQRSTUVWXYZabcdefghijklmnopqrstuvwxyz0123456789+,");
}

/// The symbol of a six-bit value is one of the alphabet's, and the code of
/// the symbol tells the value.
pub proof fn lemma_base64_symbol(v: int)
    requires
        0 <= v < 64,
    ensures
        is_modified_base64_symbol(base64_symbol(v)),
        base64_symbol(v) as u32 == (if v < 26 {
            65 + v
        } else if v < 52 {
            97 + v - 26
        } else if v < 62 {
            48 + v - 52
        } else if v == 62 {
            43
        } else {
            44
        }),
{
}

/// The symbol of a six-bit value `v` is the character at position `v` of the
/// alphabet handed to the `base64` crate.
pub proof fn lemma_base64_symbol_is_alphabet(v: int)
    requires
        0 <= v < 64,
    ensures
        base64_symbol(v) == MODIFIED_BASE64_SYMBOLS@[v],
{
    lemma_modified_base64_symbols();
    let t = modified_base64_symbols();
    assert(t[0] == 'A');
    assert(t[1] == 'B');
    assert(t[2] == 'C');
    assert(t[3] == 'D');
    assert(t[4] == 'E');
    assert(t[5] == 'F');
    assert(t[6] == 'G');
    assert(t[7] == 'H');
    assert(t[8] == 'I');
    assert(t[9] == 'J');
    assert(t[10] == 'K');
    assert(t[11] == 'L');
    assert(t[12] == 'M');
    assert(t[13] == 'N');
    assert(t[14] == 'O');
    assert(t[15] == 'P');
    assert(t[16] == 'Q');
    assert(t[17] == 'R');
    assert(t[18] == 'S');
    assert(t[19] == 'T');
    assert(t[20] == 'U');
    assert(t[21] == 'V');
    assert(t[22] == 'W');
    assert(t[23] == 'X');
    assert(t[24] == 'Y');
    assert(t[25] == 'Z');
    assert(t[26] == 'a');
    assert(t[27] == 'b');
    assert(t[28] == 'c');
    assert(t[29] == 'd');
    assert(t[30] == 'e');
    assert(t[31] == 'f');
    assert(t[32] == 'g');
    assert(t[33] == 'h');
    assert(t[34] == 'i');
    assert(t[35] == 'j');
    assert(t[36] == 'k');
    assert(t[37] == 'l');
    assert(t[38] == 'm');
    assert(t[39] == 'n');
    assert(t[40] == 'o');
    assert(t[41] == 'p');
    assert(t[42] == 'q');
    assert(t[43] == 'r');
    assert(t[44] == 's');
    assert(t[45] == 't');
    assert(t[46] == 'u');
    assert(t[47] == 'v');
    assert(t[48] == 'w');
    assert(t[49] == 'x');
    assert(t[50] == 'y');
    assert(t[51] == 'z');
    assert(t[52] == '0');
    assert(t[53] == '1');
    assert(t[54] == '2');
    assert(t[55] == '3');
    assert(t[56] == '4');
    assert(t[57] == '5');
    assert(t[58] == '6');
    assert(t[59] == '7');
    assert(t[60] == '8');
    assert(t[61] == '9');
    assert(t[62] == '+');
    assert(t[63] == ',');
}

/// The modified BASE64 symbols are exactly the characters of the alphabet
/// handed to the `base64` crate.
pub proof fn lemma_symbols_are_alphabet(c: char)
    ensures
        is_modified_base64_symbol(c) == MODIFIED_BASE64_SYMBOLS@.contains(c),
{
    lemma_modified_base64_symbols();
    assert(modified_base64_symbols().len() == 64);
    if is_modified_base64_symbol(c) {
        let x = c as u32;
        let v: int = if 'A' <= c && c <= 'Z' {
            x - 65
        } else if 'a' <= c && c <= 'z' {
            x - 97 + 26
        } else if '0' <= c && c <= '9' {
            x - 48 + 52
        } else if c == '+' {
            62
        } else {
            63
        };
        lemma_base64_symbol(v);
        lemma_base64_symbol_is_alphabet(v);
        char_u32_cast(c, x);
        char_u32_cast(base64_symbol(v), base64_symbol(v) as u32);
        assert(MODIFIED_BASE64_SYMBOLS@[v] == c);
    }
    if MODIFIED_BASE64_SYMBOLS@.contains(c) {
        let v = choose|v: int| 0 <= v < 64 && MODIFIED_BASE64_SYMBOLS@[v] == c;
        lemma_base64_symbol(v);
        lemma_base64_symbol_is_alphabet(v);
    }
}

/// Different six-bit values have different symbols.
pub proof fn lemma_base64_symbol_injective(v: int, w: int)
    requires
        0 <= v < 64,
        0 <= w < 64,
        base64_symbol(v) == base64_symbol(w),
    ensures
        v == w,
{
    lemma_base64_symbol(v);
    lemma_base64_symbol(w);
}

/// Modified BASE64 text is four symbols for every three bytes, and two or
/// three for a last one or two; every symbol is one of the alphabet's.
pub proof fn lemma_base64_unpadded(b: Seq<u8>)
    ensures
        base64_unpadded(b).len() == (4 * b.len() + 2) / 3,
        forall|i: int|
            0 <= i < base64_unpadded(b).len() ==> is_modified_base64_symbol(
                #[trigger] base64_unpadded(b)[i],
            ),
    decreases b.len(),
{
    let e = base64_unpadded(b);
    if b.len() >= 1 {
        let x = b[0] as int;
        lemma_base64_symbol(x / 4);
        lemma_base64_symbol((x % 4) * 16);
    }
    if b.len() >= 2 {
        let x = b[0] as int;
        let y = b[1] as int;
        lemma_base64_symbol((x % 4) * 16 + y / 16);
        lemma_base64_symbol((y % 16) * 4);
    }
    if b.len() >= 3 {
        let y = b[1] as int;
        let z = b[2] as int;
        lemma_base64_symbol((y % 16) * 4 + z / 64);
        lemma_base64_symbol(z % 64);
        lemma_base64_unpadded(b.skip(3));
        let r = base64_unpadded(b.skip(3));
        assert forall|i: int| 0 <= i < e.len() implies is_modified_base64_symbol(
            #[trigger] e[i],
        ) by {
            if i >= 4 {
                assert(e[i] == r[i - 4]);
            }
        }
    }
}

/// Different bytes have different modified BASE64 texts.
pub proof fn lemma_base64_injective(a: Seq<u8>, b: Seq<u8>)
    requires
        base64_unpadded(a) == base64_unpadded(b),
    ensures
        a == b,
    decreases a.len(),
{
    lemma_base64_unpadded(a);
    lemma_base64_unpadded(b);
    let e = base64_unpadded(a);
    let f = base64_unpadded(b);
    assert(a.len() == b.len());
    if a.len() >= 1 {
        assert(e[0] == f[0] && e[1] == f[1]);
        if a.len() >= 2 {
            assert(e[2] == f[2]);
        }
        if a.len() >= 3 {
            assert(e[3] == f[3]);
        }
        let (x, x2) = (a[0] as int, b[0] as int);
        assert(e[0] == base64_symbol(x / 4));
        assert(f[0] == base64_symbol(x2 / 4));
        lemma_base64_symbol_injective(x / 4, x2 / 4);
        if a.len() == 1 {
            assert(e[1] == base64_symbol((x % 4) * 16));
            assert(f[1] == base64_symbol((x2 % 4) * 16));
            lemma_base64_symbol_injective((x % 4) * 16, (x2 % 4) * 16);
        } else {
            let (y, y2) = (a[1] as int, b[1] as int);
            assert(e[1] == base64_symbol((x % 4) * 16 + y / 16));
            assert(f[1] == base64_symbol((x2 % 4) * 16 + y2 / 16));
            lemma_base64_symbol_injective((x % 4) * 16 + y / 16, (x2 % 4) * 16 + y2 / 16);
            if a.len() == 2 {
                assert(e[2] == base64_symbol((y % 16) * 4));
                assert(f[2] == base64_symbol((y2 % 16) * 4));
                lemma_base64_symbol_injective((y % 16) * 4, (y2 % 16) * 4);
            } else {
                let (z, z2) = (a[2] as int, b[2] as int);
                assert(e[2] == base64_symbol((y % 16) * 4 + z / 64));
                assert(f[2] == base64_symbol((y2 % 16) * 4 + z2 / 64));
                assert(e[3] == base64_symbol(z % 64));
                assert(f[3] == base64_symbol(z2 % 64));
                lemma_base64_symbol_injective((y % 16) * 4 + z / 64, (y2 % 16) * 4 + z2 / 64);
                lemma_base64_symbol_injective(z % 64, z2 % 64);
                assert(base64_unpadded(a.skip(3)) =~= e.skip(4));
                assert(base64_unpadded(b.skip(3)) =~= e.skip(4));
                lemma_base64_injective(a.skip(3), b.skip(3));
                assert(a =~= a.take(3) + a.skip(3));
                assert(b =~= b.take(3) + b.skip(3));
            }
        }
    }
    assert(a =~= b);
}

/// Modified BASE64 text is ASCII, and different bytes give different text
/// bytes: `base64_unpadded_decoding` gives back the bytes encoded.
pub proof fn lemma_base64_decoding(b: Seq<u8>)
    ensures
        base64_unpadded_decoding(ascii_bytes(base64_unpadded(b))) == Some(b),
{
    let t = ascii_bytes(base64_unpadded(b));
    assert(exists|c: Seq<u8>| ascii_bytes(base64_unpadded(c)) == t);
    let c = choose|c: Seq<u8>| ascii_bytes(base64_unpadded(c)) == t;
    lemma_base64_unpadded(b);
    lemma_base64_unpadded(c);
    lemma_ascii_symbols_injective(base64_unpadded(c), base64_unpadded(b));
    lemma_base64_injective(c, b);
}

/// Texts of modified BASE64 symbols with the same bytes are the same.
proof fn lemma_ascii_symbols_injective(s: Seq<char>, t: Seq<char>)
    requires
        ascii_bytes(s) == ascii_bytes(t),
        forall|i: int| 0 <= i < s.len() ==> is_modified_base64_symbol(#[trigger] s[i]),
        forall|i: int| 0 <= i < t.len() ==> is_modified_base64_symbol(#[trigger] t[i]),
    ensures
        s == t,
{
    assert(s.len() == ascii_bytes(s).len());
    assert forall|i: int| 0 <= i < s.len() implies s[i] == t[i] by {
        assert(ascii_bytes(s)[i] == s[i] as u8);
        assert(ascii_bytes(t)[i] == t[i] as u8);
        assert(ascii_bytes(s)[i] == ascii_bytes(t)[i]);
        assert(is_modified_base64_symbol(s[i]) && is_modified_base64_symbol(t[i]));
        assert((s[i] as u32) < 128 && (t[i] as u32) < 128);
        assert((s[i] as u8) as u32 == s[i] as u32);
        assert((t[i] as u8) as u32 == t[i] as u32);
        char_u32_cast(s[i], s[i] as u32);
        char_u32_cast(t[i], t[i] as u32);
    }
    assert(s =~= t);
}

} // verus!
