//! UTF-16 code units in big-endian byte order: the payload of a shifted run
//! of modified UTF-7.
use vstd::prelude::*;
use vstd::utf8::{char_is_scalar, char_u32_cast};

use crate::text::{char_from_u32, prefixed};

verus! {

/// The UTF-16 code units of one character: itself below `0x10000`, else a
/// high and a low surrogate.
pub open spec fn utf16_of_char(c: char) -> Seq<u16> {
    let v = c as u32;
    if v < 0x10000 {
        seq![v as u16]
    } else {
        seq![(0xD800 + (v - 0x10000) / 0x400) as u16, (0xDC00 + (v - 0x10000) % 0x400) as u16]
    }
}

/// The UTF-16 code units of a character sequence.
pub open spec fn utf16_encode(s: Seq<char>) -> Seq<u16>
    decreases s.len(),
{
    if s.len() == 0 {
        seq![]
    } else {
        utf16_of_char(s[0]) + utf16_encode(s.drop_first())
    }
}

/// The characters that UTF-16 code units stand for, or `None` where a
/// surrogate is unpaired (what `String::from_utf16` accepts and refuses).
pub open spec fn utf16_decode(units: Seq<u16>) -> Option<Seq<char>>
    decreases units.len(),
{
    if units.len() == 0 {
        Some(seq![])
    } else {
        let u = units[0];
        if u < 0xD800 || u > 0xDFFF {
            prefixed(seq![(u as u32) as char], utf16_decode(units.drop_first()))
        } else if u <= 0xDBFF && units.len() >= 2 && 0xDC00 <= units[1] && units[1] <= 0xDFFF {
            let v = 0x10000 + (u - 0xD800) * 0x400 + (units[1] - 0xDC00);
            prefixed(seq![(v as u32) as char], utf16_decode(units.skip(2)))
        } else {
            None
        }
    }
}

/// Code units written as bytes, high byte first.
pub open spec fn be_bytes(units: Seq<u16>) -> Seq<u8> {
    Seq::new(
        2 * units.len(),
        |i: int|
            if i % 2 == 0 {
                (units[i / 2] / 256) as u8
            } else {
                (units[i / 2] % 256) as u8
            },
    )
}

/// Bytes read as code units, high byte first; a last odd byte is ignored.
pub open spec fn units_of_be(bytes: Seq<u8>) -> Seq<u16> {
    Seq::new(bytes.len() / 2, |i: int| (bytes[2 * i] * 256 + bytes[2 * i + 1]) as u16)
}

/// The characters that big-endian UTF-16 bytes stand for: `None` for an odd
/// number of bytes or an unpaired surrogate.
pub open spec fn utf16_be_chars(bytes: Seq<u8>) -> Option<Seq<char>> {
    if bytes.len() % 2 != 0 {
        None
    } else {
        utf16_decode(units_of_be(bytes))
    }
}

/// Appends the UTF-16 code units of `c` to `units`.
pub fn push_utf16(units: &mut Vec<u16>, c: char)
    ensures
        final(units)@ == old(units)@ + utf16_of_char(c),
{
    let v = c as u32;
    proof {
        char_is_scalar(c);
    }
    if v < 0x10000 {
        units.push(v as u16);
    } else {
        let w = v - 0x10000;
        units.push((0xD800 + w / 0x400) as u16);
        units.push((0xDC00 + w % 0x400) as u16);
    }
}

/// Appends the big-endian bytes of `units` to `bytes`.
pub fn push_be_bytes(bytes: &mut Vec<u8>, units: &Vec<u16>)
    ensures
        final(bytes)@ == old(bytes)@ + be_bytes(units@),
{
    let n = units.len();
    let mut k: usize = 0;
    while k < n
        invariant
            n == units@.len(),
            k <= n,
            bytes@ == old(bytes)@ + be_bytes(units@.take(k as int)),
        decreases n - k,
    {
        let u = units[k];
        bytes.push((u / 256) as u8);
        bytes.push((u % 256) as u8);
        k = k + 1;
        assert(be_bytes(units@.take(k as int)) =~= be_bytes(units@.take(k - 1)).push(
            (u / 256) as u8,
        ).push((u % 256) as u8));
    }
    assert(units@.take(n as int) == units@);
}

/// The code unit at position `i` of big-endian bytes.
fn unit_at(bytes: &[u8], i: usize) -> (u: u16)
    requires
        2 * i + 1 < bytes@.len(),
    ensures
        u == units_of_be(bytes@)[i as int],
{
    let len = bytes.len();
    assert(2 * i + 1 < len);
    (bytes[2 * i] as u16) * 256 + (bytes[2 * i + 1] as u16)
}

/// The characters that big-endian UTF-16 bytes stand for: `None` for an odd
/// number of bytes or an unpaired surrogate, as `String::from_utf16` refuses.
pub fn decode_utf16_be(bytes: &[u8]) -> (chars: Option<Vec<char>>)
    ensures
        match chars {
            Some(v) => utf16_be_chars(bytes@) == Some(v@),
            None => utf16_be_chars(bytes@) is None,
        },
{
    if bytes.len() % 2 != 0 {
        return None;
    }
    let n = bytes.len() / 2;
    let ghost units = units_of_be(bytes@);
    let mut out: Vec<char> = Vec::new();
    let mut i: usize = 0;
    assert(units.skip(0) =~= units);
    assert(utf16_decode(units) matches Some(r) ==> seq![] + r =~= r);
    while i < n
        invariant
            n == units.len(),
            2 * n == bytes@.len(),
            units == units_of_be(bytes@),
            i <= n,
            utf16_decode(units) == prefixed(out@, utf16_decode(units.skip(i as int))),
        decreases n - i,
    {
        let u = unit_at(bytes, i);
        let ghost rest = units.skip(i as int);
        assert(rest[0] == u);
        if u < 0xD800 || u > 0xDFFF {
            let c = char_from_u32(u as u32).unwrap();
            out.push(c);
            assert(rest.drop_first() =~= units.skip(i + 1));
            i = i + 1;
        } else if u <= 0xDBFF && i + 1 < n {
            let lo = unit_at(bytes, i + 1);
            assert(rest[1] == lo);
            if 0xDC00 <= lo && lo <= 0xDFFF {
                let v: u32 = 0x10000 + ((u - 0xD800) as u32) * 0x400 + ((lo - 0xDC00) as u32);
                let c = char_from_u32(v).unwrap();
                out.push(c);
                assert(rest.skip(2) =~= units.skip(i + 2));
                i = i + 2;
            } else {
                return None;
            }
        } else {
            return None;
        }
    }
    assert(units.skip(n as int) =~= Seq::<u16>::empty());
    Some(out)
}

/// Encoding a sequence is encoding its parts one after the other.
pub proof fn lemma_utf16_encode_concat(a: Seq<char>, b: Seq<char>)
    ensures
        utf16_encode(a + b) == utf16_encode(a) + utf16_encode(b),
    decreases a.len(),
{
    if a.len() == 0 {
        assert(a + b =~= b);
    } else {
        assert((a + b).drop_first() =~= a.drop_first() + b);
        lemma_utf16_encode_concat(a.drop_first(), b);
    }
}

/// UTF-16 gives back every character sequence it encodes.
pub proof fn lemma_utf16_roundtrip(s: Seq<char>)
    ensures
        utf16_decode(utf16_encode(s)) == Some(s),
    decreases s.len(),
{
    if s.len() > 0 {
        let c = s[0];
        let v = c as u32;
        let e = utf16_encode(s);
        let rest = utf16_encode(s.drop_first());
        char_is_scalar(c);
        char_u32_cast(c, v);
        lemma_utf16_roundtrip(s.drop_first());
        if v < 0x10000 {
            assert(e.drop_first() =~= rest);
            assert(((e[0] as u32) as char) == c);
        } else {
            assert(e.skip(2) =~= rest);
            let w = v - 0x10000;
            assert(0 <= w / 0x400 < 0x400);
            assert(0x10000 + (e[0] - 0xD800) * 0x400 + (e[1] - 0xDC00) == v);
        }
        assert(seq![c] + s.drop_first() =~= s);
    }
}

/// Reading the big-endian bytes of code units gives the code units back.
pub proof fn lemma_be_roundtrip(units: Seq<u16>)
    ensures
        be_bytes(units).len() % 2 == 0,
        units_of_be(be_bytes(units)) == units,
{
    let b = be_bytes(units);
    assert forall|i: int| 0 <= i < units.len() implies units_of_be(b)[i] == units[i] by {
        assert((2 * i) / 2 == i);
        assert((2 * i + 1) / 2 == i);
        assert((2 * i) % 2 == 0);
        assert((2 * i + 1) % 2 == 1);
        assert(b[2 * i] == (units[i] / 256) as u8);
        assert(b[2 * i + 1] == (units[i] % 256) as u8);
    }
    assert(units_of_be(b) =~= units);
}

/// The characters that code units decode to encode back to those units.
pub proof fn lemma_utf16_decode_encodes_back(units: Seq<u16>)
    requires
        utf16_decode(units) is Some,
    ensures
        utf16_encode(utf16_decode(units)->0) == units,
    decreases units.len(),
{
    if units.len() > 0 {
        let u = units[0];
        let s = utf16_decode(units)->0;
        if u < 0xD800 || u > 0xDFFF {
            let rest = units.drop_first();
            lemma_utf16_decode_encodes_back(rest);
            let c = (u as u32) as char;
            assert(c as u32 == u as u32);
            assert(s =~= seq![c] + utf16_decode(rest)->0);
            assert(s.drop_first() =~= utf16_decode(rest)->0);
            assert(units =~= seq![u] + rest);
        } else {
            let lo = units[1];
            let rest = units.skip(2);
            lemma_utf16_decode_encodes_back(rest);
            let v = 0x10000 + (u - 0xD800) * 0x400 + (lo - 0xDC00);
            let c = (v as u32) as char;
            assert(c as u32 == v);
            assert(s =~= seq![c] + utf16_decode(rest)->0);
            assert(s.drop_first() =~= utf16_decode(rest)->0);
            assert((v - 0x10000) / 0x400 == u - 0xD800);
            assert((v - 0x10000) % 0x400 == lo - 0xDC00);
            assert(units =~= seq![u, lo] + rest);
        }
    }
}

/// Writing the code units read from an even number of bytes gives the bytes
/// back.
pub proof fn lemma_be_bytes_of_units(bytes: Seq<u8>)
    requires
        bytes.len() % 2 == 0,
    ensures
        be_bytes(units_of_be(bytes)) == bytes,
{
    let u = units_of_be(bytes);
    let b = be_bytes(u);
    assert forall|i: int| 0 <= i < bytes.len() implies b[i] == bytes[i] by {
        let k = i / 2;
        assert(u[k] == (bytes[2 * k] * 256 + bytes[2 * k + 1]) as u16);
        if i % 2 == 0 {
            assert(i == 2 * k);
        } else {
            assert(i == 2 * k + 1);
        }
    }
    assert(b =~= bytes);
}

/// A character below `0x10000` is one code unit holding its code point; any
/// other is a high surrogate (`0xD800` to `0xDBFF`) and a low surrogate
/// (`0xDC00` to `0xDFFF`) whose ten-bit payloads, high first, count from
/// `0x10000` to its code point.
pub proof fn lemma_utf16_of_char(c: char)
    ensures
        (c as u32) < 0x10000 ==> utf16_of_char(c).len() == 1 && utf16_of_char(c)[0] as u32
            == c as u32,
        (c as u32) >= 0x10000 ==> {
            let hi = utf16_of_char(c)[0];
            let lo = utf16_of_char(c)[1];
            &&& utf16_of_char(c).len() == 2
            &&& 0xD800 <= hi <= 0xDBFF
            &&& 0xDC00 <= lo <= 0xDFFF
            &&& 0x10000 + (hi - 0xD800) * 0x400 + (lo - 0xDC00) == c as u32
        },
{
    char_is_scalar(c);
    let v = c as u32;
    if v >= 0x10000 {
        let w = v - 0x10000;
        assert(0 <= w / 0x400 < 0x400);
    }
}

/// Encoding a single character gives exactly its own code units.
pub proof fn lemma_utf16_encode_one(c: char)
    ensures
        utf16_encode(seq![c]) == utf16_of_char(c),
{
    let one = seq![c];
    assert(one[0] == c);
    assert(one.drop_first() =~= Seq::<char>::empty());
    assert(utf16_encode(Seq::<char>::empty()) =~= Seq::<u16>::empty());
    assert(utf16_of_char(c) + Seq::<u16>::empty() =~= utf16_of_char(c));
}

/// A code unit that is no surrogate stands for the character with that code
/// point; a surrogate standing alone stands for nothing.
pub proof fn lemma_utf16_decode_one(u: u16)
    ensures
        (u < 0xD800 || u > 0xDFFF) ==> {
            &&& utf16_decode(seq![u]) is Some
            &&& utf16_decode(seq![u])->0.len() == 1
            &&& utf16_decode(seq![u])->0[0] as u32 == u as u32
        },
        (0xD800 <= u <= 0xDFFF) ==> utf16_decode(seq![u]) is None,
{
    let one = seq![u];
    assert(one[0] == u);
    assert(one.drop_first() =~= Seq::<u16>::empty());
    assert(utf16_decode(Seq::<u16>::empty()) == Some(Seq::<char>::empty()));
    if u < 0xD800 || u > 0xDFFF {
        let c = (u as u32) as char;
        assert(c as u32 == u as u32);
        assert(utf16_decode(one) == Some(seq![c] + Seq::<char>::empty()));
        assert(seq![c] + Seq::<char>::empty() =~= seq![c]);
    }
}

/// A high surrogate followed by a low surrogate stands for the one character
/// whose code point is `0x10000` plus their ten-bit payloads, high first.
pub proof fn lemma_utf16_decode_pair(hi: u16, lo: u16)
    requires
        0xD800 <= hi <= 0xDBFF,
        0xDC00 <= lo <= 0xDFFF,
    ensures
        utf16_decode(seq![hi, lo]) is Some,
        utf16_decode(seq![hi, lo])->0.len() == 1,
        utf16_decode(seq![hi, lo])->0[0] as u32 == 0x10000 + (hi - 0xD800) * 0x400 + (lo
            - 0xDC00),
{
    let two = seq![hi, lo];
    assert(two[0] == hi && two[1] == lo);
    assert(two.skip(2) =~= Seq::<u16>::empty());
    assert(utf16_decode(Seq::<u16>::empty()) == Some(Seq::<char>::empty()));
    let v = 0x10000 + (hi - 0xD800) * 0x400 + (lo - 0xDC00);
    let c = (v as u32) as char;
    assert(c as u32 == v);
    assert(utf16_decode(two) == Some(seq![c] + Seq::<char>::empty()));
    assert(seq![c] + Seq::<char>::empty() =~= seq![c]);
}

/// Each code unit becomes two bytes, the high byte (the unit divided by 256)
/// first and the low byte (the remainder) second: big-endian order.
pub proof fn lemma_be_bytes_layout(units: Seq<u16>)
    ensures
        be_bytes(units).len() == 2 * units.len(),
        forall|i: int|
            0 <= i < units.len() ==> #[trigger] be_bytes(units)[2 * i] as int == units[i] / 256
                && be_bytes(units)[2 * i + 1] as int == units[i] % 256,
{
    assert forall|i: int| 0 <= i < units.len() implies #[trigger] be_bytes(units)[2 * i] as int
        == units[i] / 256 && be_bytes(units)[2 * i + 1] as int == units[i] % 256 by {
        assert((2 * i) / 2 == i);
        assert((2 * i + 1) / 2 == i);
        assert((2 * i) % 2 == 0);
        assert((2 * i + 1) % 2 == 1);
    }
}

/// Each pair of bytes is read as one code unit, the first byte the high one.
pub proof fn lemma_units_of_be_layout(bytes: Seq<u8>)
    ensures
        units_of_be(bytes).len() == bytes.len() / 2,
        forall|i: int|
            0 <= i < bytes.len() / 2 ==> #[trigger] units_of_be(bytes)[i] as int == bytes[2 * i]
                * 256 + bytes[2 * i + 1],
{
    assert forall|i: int| 0 <= i < bytes.len() / 2 implies #[trigger] units_of_be(bytes)[i] as int
        == bytes[2 * i] * 256 + bytes[2 * i + 1] by {
        assert(bytes[2 * i] * 256 + bytes[2 * i + 1] < 0x10000);
    }
}

} // verus!
