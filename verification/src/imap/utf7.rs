//! Modified UTF-7 for IMAP mailbox names (RFC 3501 §5.1.3).
//!
//! Printable ASCII (0x20–0x7E) represents itself, except `&` which is encoded
//! as `&-`. Any other run of characters is encoded as `&<b64>-` where `<b64>`
//! is the modified BASE64 (alphabet `+,` instead of `+/`, no padding) of the
//! run encoded as UTF-16BE.
use vstd::prelude::*;
use vstd::utf8::{char_u32_cast, encode_utf8, encode_utf8_decode_utf8, is_ascii_chars, is_ascii_chars_encode_utf8};

use crate::imap::modified_base64::{
    base64_unpadded, base64_unpadded_decoding, decode_unpadded, encode_unpadded,
    is_modified_base64_symbol, lemma_base64_decoding, lemma_base64_unpadded,
    lemma_modified_base64_symbols, MODIFIED_BASE64_SYMBOLS,
};
use crate::imap::utf16::{
    be_bytes, decode_utf16_be, lemma_be_bytes_layout, lemma_be_bytes_of_units, lemma_be_roundtrip,
    lemma_utf16_decode_encodes_back, lemma_utf16_of_char, lemma_utf16_roundtrip,
    push_be_bytes, push_utf16, units_of_be, utf16_be_chars, utf16_encode,
    utf16_of_char,
};
use crate::text::{
    ascii_bytes, count_of, lemma_count_concat, lemma_count_zero, prefixed, push_char, push_chars,
};

verus! {

/// Printable ASCII except `&`: the characters that represent themselves.
pub open spec fn is_direct_char(c: char) -> bool {
    ' ' <= c && c <= '~' && c != '&'
}

/// A character that can stand in a mailbox name on the wire: printable ASCII.
pub open spec fn is_printable_ascii(c: char) -> bool {
    ' ' <= c && c <= '~'
}

/// The text of a shifted run with the given UTF-16 code units: nothing for no
/// units, else `&`, the modified BASE64 of their big-endian bytes, and `-`.
pub open spec fn shifted_text(units: Seq<u16>) -> Seq<char> {
    if units.len() == 0 {
        seq![]
    } else {
        seq!['&'] + base64_unpadded(be_bytes(units)) + seq!['-']
    }
}

/// The encoding of `s`, with the code units `pending` of a shifted run begun
/// before `s` and not yet written.
pub open spec fn encode_from(s: Seq<char>, pending: Seq<u16>) -> Seq<char>
    decreases s.len(),
{
    if s.len() == 0 {
        shifted_text(pending)
    } else if s[0] == '&' {
        shifted_text(pending) + seq!['&', '-'] + encode_from(s.drop_first(), seq![])
    } else if is_direct_char(s[0]) {
        shifted_text(pending) + seq![s[0]] + encode_from(s.drop_first(), seq![])
    } else {
        encode_from(s.drop_first(), pending + utf16_of_char(s[0]))
    }
}

/// The modified UTF-7 encoding of a mailbox name.
pub open spec fn utf7_encoding(s: Seq<char>) -> Seq<char> {
    encode_from(s, seq![])
}

/// What encoding `s` writes before its last shifted run is closed: the
/// encoding of `s` is this followed by the text of `encode_pending`.
pub open spec fn encode_written(s: Seq<char>, pending: Seq<u16>) -> Seq<char>
    decreases s.len(),
{
    if s.len() == 0 {
        seq![]
    } else if s[0] == '&' {
        shifted_text(pending) + seq!['&', '-'] + encode_written(s.drop_first(), seq![])
    } else if is_direct_char(s[0]) {
        shifted_text(pending) + seq![s[0]] + encode_written(s.drop_first(), seq![])
    } else {
        encode_written(s.drop_first(), pending + utf16_of_char(s[0]))
    }
}

/// The code units of the shifted run still open after encoding `s`.
pub open spec fn encode_pending(s: Seq<char>, pending: Seq<u16>) -> Seq<u16>
    decreases s.len(),
{
    if s.len() == 0 {
        pending
    } else if is_printable_ascii(s[0]) {
        encode_pending(s.drop_first(), seq![])
    } else {
        encode_pending(s.drop_first(), pending + utf16_of_char(s[0]))
    }
}

/// The number of characters at the start of `s` that are not printable
/// ASCII: the first run that encoding shifts.
pub open spec fn shifted_prefix_len(s: Seq<char>) -> nat
    decreases s.len(),
{
    if s.len() == 0 || is_printable_ascii(s[0]) {
        0
    } else {
        1 + shifted_prefix_len(s.drop_first())
    }
}

/// Printable ASCII text with every `&` written as `&-`.
pub open spec fn escape_ampersands(s: Seq<char>) -> Seq<char>
    decreases s.len(),
{
    if s.len() == 0 {
        seq![]
    } else if s[0] == '&' {
        seq!['&', '-'] + escape_ampersands(s.drop_first())
    } else {
        seq![s[0]] + escape_ampersands(s.drop_first())
    }
}

/// The position of the first `-` in `b`.
pub open spec fn first_dash(b: Seq<u8>) -> Option<int>
    decreases b.len(),
{
    if b.len() == 0 {
        None
    } else if b[0] == 0x2Du8 {
        Some(0int)
    } else {
        match first_dash(b.drop_first()) {
            Some(k) => Some(k + 1),
            None => None,
        }
    }
}

/// Characters that encoding puts in a shifted run: all but printable ASCII.
pub open spec fn is_shifted_run(p: Seq<char>) -> bool {
    p.len() > 0 && forall|i: int| 0 <= i < p.len() ==> !is_printable_ascii(#[trigger] p[i])
}

/// The characters of the shifted run between `&` and `-`: the run whose
/// UTF-16 its modified BASE64 stands for, if it is one, and if none of them
/// could stand for itself.
pub open spec fn shifted_run(chunk: Seq<u8>) -> Option<Seq<char>> {
    match base64_unpadded_decoding(chunk) {
        Some(d) => match utf16_be_chars(d) {
            Some(p) => if is_shifted_run(p) {
                Some(p)
            } else {
                None
            },
            None => None,
        },
        None => None,
    }
}

/// The mailbox name that the bytes `b` of a modified UTF-7 name stand for, or
/// `None` if they are not the encoding of one; `after_run` tells whether a
/// shifted run ends just before `b`, since encoding never writes two in a row.
pub open spec fn utf7_decoding_from(b: Seq<u8>, after_run: bool) -> Option<Seq<char>>
    decreases b.len(),
{
    if b.len() == 0 {
        Some(seq![])
    } else if b[0] == 0x26u8 {
        match first_dash(b.drop_first()) {
            None => None,
            Some(k) => {
                proof {
                    lemma_first_dash(b.drop_first());
                }
                if k == 0 {
                    prefixed(seq!['&'], utf7_decoding_from(b.skip(2), false))
                } else if after_run {
                    None
                } else {
                    match shifted_run(b.subrange(1, k + 1)) {
                        Some(p) => prefixed(p, utf7_decoding_from(b.skip(k + 2), true)),
                        None => None,
                    }
                }
            },
        }
    } else if 0x20u8 <= b[0] && b[0] <= 0x7Eu8 {
        prefixed(seq![(b[0] as u32) as char], utf7_decoding_from(b.drop_first(), false))
    } else {
        None
    }
}

/// The mailbox name whose modified UTF-7 encoding has the bytes `b`, or
/// `None` if there is none.
pub open spec fn utf7_decoding(b: Seq<u8>) -> Option<Seq<char>> {
    utf7_decoding_from(b, false)
}

/// What `first_dash` finds is a `-` with none before it.
pub proof fn lemma_first_dash(b: Seq<u8>)
    ensures
        first_dash(b) matches Some(k) ==> {
            &&& 0 <= k < b.len()
            &&& b[k] == 0x2Du8
            &&& forall|m: int| 0 <= m < k ==> b[m] != 0x2Du8
        },
        first_dash(b) is None ==> forall|m: int| 0 <= m < b.len() ==> b[m] != 0x2Du8,
    decreases b.len(),
{
    if b.len() > 0 {
        lemma_first_dash(b.drop_first());
        assert forall|m: int| 1 <= m < b.len() implies b[m] == b.drop_first()[m - 1] by {}
    }
}

/// A `-` with none before it is what `first_dash` finds.
pub proof fn lemma_first_dash_at(b: Seq<u8>, k: int)
    requires
        0 <= k < b.len(),
        b[k] == 0x2Du8,
        forall|m: int| 0 <= m < k ==> b[m] != 0x2Du8,
    ensures
        first_dash(b) == Some(k),
    decreases k,
{
    if k > 0 {
        lemma_first_dash_at(b.drop_first(), k - 1);
    }
}

/// Without a `-`, `first_dash` finds nothing.
pub proof fn lemma_first_dash_none(b: Seq<u8>)
    requires
        forall|m: int| 0 <= m < b.len() ==> b[m] != 0x2Du8,
    ensures
        first_dash(b) is None,
    decreases b.len(),
{
    if b.len() > 0 {
        lemma_first_dash_none(b.drop_first());
    }
}

/// The text of a shifted run is printable ASCII: `&`, modified BASE64
/// symbols and `-`; it is empty exactly when there are no units.
pub proof fn lemma_shifted_text(units: Seq<u16>)
    ensures
        forall|i: int|
            0 <= i < shifted_text(units).len() ==> {
                let c = #[trigger] shifted_text(units)[i];
                &&& is_printable_ascii(c)
                &&& (c == '&' || c == '-' || is_modified_base64_symbol(c))
            },
        units.len() > 0 ==> shifted_text(units).len() >= 4,
{
    let b = be_bytes(units);
    let t = base64_unpadded(b);
    lemma_base64_unpadded(b);
    if units.len() > 0 {
        let st = shifted_text(units);
        assert forall|i: int| 0 <= i < st.len() implies ({
            let c = #[trigger] st[i];
            &&& is_printable_ascii(c)
            &&& (c == '&' || c == '-' || is_modified_base64_symbol(c))
        }) by {
            if 0 < i < st.len() - 1 {
                assert(st[i] == t[i - 1]);
            }
        }
    }
}

/// Encoding a run of characters that are not printable ASCII only adds
/// their code units to the open shifted run.
pub proof fn lemma_encode_run(r: Seq<char>, t: Seq<char>, pending: Seq<u16>)
    requires
        forall|i: int| 0 <= i < r.len() ==> !is_printable_ascii(#[trigger] r[i]),
    ensures
        encode_from(r + t, pending) == encode_from(t, pending + utf16_encode(r)),
    decreases r.len(),
{
    if r.len() == 0 {
        assert(r + t =~= t);
        assert(pending + utf16_encode(r) =~= pending);
    } else {
        assert((r + t).drop_first() =~= r.drop_first() + t);
        assert((r + t)[0] == r[0]);
        assert(!is_printable_ascii(r[0]));
        assert forall|i: int| 0 <= i < r.drop_first().len() implies !is_printable_ascii(
            #[trigger] r.drop_first()[i],
        ) by {
            assert(r.drop_first()[i] == r[i + 1]);
        }
        lemma_encode_run(r.drop_first(), t, pending + utf16_of_char(r[0]));
        assert(pending + utf16_of_char(r[0]) + utf16_encode(r.drop_first()) =~= pending
            + utf16_encode(r));
    }
}

/// Before printable ASCII, or at the end, the open shifted run is closed.
pub proof fn lemma_encode_closes_run(t: Seq<char>, pending: Seq<u16>)
    requires
        t.len() == 0 || is_printable_ascii(t[0]),
    ensures
        encode_from(t, pending) == shifted_text(pending) + encode_from(t, seq![]),
{
    assert(shifted_text(seq![]) =~= Seq::<char>::empty());
    if t.len() == 0 {
        assert(shifted_text(pending) + Seq::<char>::empty() =~= shifted_text(pending));
    } else {
        let rest = encode_from(t.drop_first(), seq![]);
        if t[0] == '&' {
            assert(shifted_text(pending) + seq!['&', '-'] + rest =~= shifted_text(pending) + (
            Seq::<char>::empty() + seq!['&', '-'] + rest));
        } else {
            assert(shifted_text(pending) + seq![t[0]] + rest =~= shifted_text(pending) + (
            Seq::<char>::empty() + seq![t[0]] + rest));
        }
    }
}

/// Encoding `a` followed by `b` writes what encoding `a` writes, then goes
/// on with `b` and the run `a` left open.
pub proof fn lemma_encode_split(a: Seq<char>, b: Seq<char>, pending: Seq<u16>)
    ensures
        encode_from(a + b, pending) == encode_written(a, pending) + encode_from(
            b,
            encode_pending(a, pending),
        ),
        encode_from(a, pending) == encode_written(a, pending) + shifted_text(
            encode_pending(a, pending),
        ),
    decreases a.len(),
{
    if a.len() == 0 {
        assert(a + b =~= b);
        assert(Seq::<char>::empty() + encode_from(b, pending) =~= encode_from(b, pending));
        assert(Seq::<char>::empty() + shifted_text(pending) =~= shifted_text(pending));
    } else {
        assert((a + b).drop_first() =~= a.drop_first() + b);
        assert((a + b)[0] == a[0]);
        if is_printable_ascii(a[0]) {
            lemma_encode_split(a.drop_first(), b, seq![]);
            let head: Seq<char> = if a[0] == '&' {
                shifted_text(pending) + seq!['&', '-']
            } else {
                shifted_text(pending) + seq![a[0]]
            };
            let w = encode_written(a.drop_first(), seq![]);
            let q = encode_pending(a.drop_first(), seq![]);
            assert(head + (w + encode_from(b, q)) =~= head + w + encode_from(b, q));
            assert(head + (w + shifted_text(q)) =~= head + w + shifted_text(q));
        } else {
            lemma_encode_split(a.drop_first(), b, pending + utf16_of_char(a[0]));
        }
    }
}

/// After printable ASCII, no shifted run is open.
pub proof fn lemma_encode_pending_closed(a: Seq<char>, pending: Seq<u16>)
    requires
        a.len() > 0,
        is_printable_ascii(a.last()),
    ensures
        encode_pending(a, pending) == Seq::<u16>::empty(),
    decreases a.len(),
{
    if a.len() == 1 {
        assert(a[0] == a.last());
        assert(a.drop_first().len() == 0);
        assert(encode_pending(a, pending) == encode_pending(a.drop_first(), seq![]));
    } else {
        assert(a.drop_first().last() == a.last());
        if is_printable_ascii(a[0]) {
            lemma_encode_pending_closed(a.drop_first(), seq![]);
        } else {
            lemma_encode_pending_closed(a.drop_first(), pending + utf16_of_char(a[0]));
        }
    }
}

/// Encoding two names that meet at printable ASCII (a direct character or
/// `&`), or of which one is empty, is encoding each and putting the two
/// encodings together.
pub proof fn lemma_utf7_encoding_concat(a: Seq<char>, b: Seq<char>)
    requires
        a.len() == 0 || b.len() == 0 || is_printable_ascii(a.last()) || is_printable_ascii(b[0]),
    ensures
        utf7_encoding(a + b) == utf7_encoding(a) + utf7_encoding(b),
{
    lemma_encode_split(a, b, seq![]);
    let q = encode_pending(a, seq![]);
    let w = encode_written(a, seq![]);
    assert(shifted_text(seq![]) =~= Seq::<char>::empty());
    if a.len() == 0 {
        assert(a + b =~= b);
        assert(utf7_encoding(a) == Seq::<char>::empty());
        assert(Seq::<char>::empty() + utf7_encoding(b) =~= utf7_encoding(b));
    } else if b.len() == 0 {
        assert(a + b =~= a);
        assert(utf7_encoding(b) == Seq::<char>::empty());
        assert(utf7_encoding(a) + Seq::<char>::empty() =~= utf7_encoding(a));
    } else if is_printable_ascii(a.last()) {
        lemma_encode_pending_closed(a, seq![]);
        assert(w + Seq::<char>::empty() =~= w);
    } else {
        lemma_encode_closes_run(b, q);
        assert(w + (shifted_text(q) + utf7_encoding(b)) =~= w + shifted_text(q) + utf7_encoding(
            b,
        ));
    }
}

/// The encoding of a name is printable ASCII.
pub proof fn lemma_encoding_printable(s: Seq<char>, pending: Seq<u16>)
    ensures
        forall|i: int|
            0 <= i < encode_from(s, pending).len() ==> is_printable_ascii(
                #[trigger] encode_from(s, pending)[i],
            ),
    decreases s.len(),
{
    lemma_shifted_text(pending);
    if s.len() > 0 {
        let st = shifted_text(pending);
        if is_printable_ascii(s[0]) {
            lemma_encoding_printable(s.drop_first(), seq![]);
            let mid: Seq<char> = if s[0] == '&' {
                seq!['&', '-']
            } else {
                seq![s[0]]
            };
            let rest = encode_from(s.drop_first(), seq![]);
            let e = st + mid + rest;
            assert(e == encode_from(s, pending));
            assert forall|i: int| 0 <= i < e.len() implies is_printable_ascii(#[trigger] e[i]) by {
                if i < st.len() {
                    assert(e[i] == st[i]);
                } else if i < st.len() + mid.len() {
                    assert(e[i] == mid[i - st.len()]);
                } else {
                    assert(e[i] == rest[i - st.len() - mid.len()]);
                }
            }
        } else {
            lemma_encoding_printable(s.drop_first(), pending + utf16_of_char(s[0]));
            assert(encode_from(s, pending) == encode_from(
                s.drop_first(),
                pending + utf16_of_char(s[0]),
            ));
        }
    }
}

/// A character that is neither `&`, `-` nor a modified BASE64 symbol is not
/// in the text of a shifted run.
proof fn lemma_count_shifted_text(units: Seq<u16>, x: char)
    requires
        x != '&',
        x != '-',
        !is_modified_base64_symbol(x),
    ensures
        count_of(shifted_text(units), x) == 0,
{
    lemma_shifted_text(units);
    lemma_count_zero(shifted_text(units), x);
}

/// Printable ASCII that is neither `&`, `-` nor a modified BASE64 symbol
/// (such as `/` or `=`) occurs in the encoding as often as in the name:
/// shifted runs use only the modified BASE64 symbols, without padding.
pub proof fn lemma_encoding_keeps_other_characters(s: Seq<char>, pending: Seq<u16>, x: char)
    requires
        is_printable_ascii(x),
        x != '&',
        x != '-',
        !is_modified_base64_symbol(x),
    ensures
        count_of(encode_from(s, pending), x) == count_of(s, x),
    decreases s.len(),
{
    lemma_count_shifted_text(pending, x);
    if s.len() > 0 {
        let st = shifted_text(pending);
        if is_printable_ascii(s[0]) {
            lemma_encoding_keeps_other_characters(s.drop_first(), seq![], x);
            let mid: Seq<char> = if s[0] == '&' {
                seq!['&', '-']
            } else {
                seq![s[0]]
            };
            let rest = encode_from(s.drop_first(), seq![]);
            lemma_count_concat(st + mid, rest, x);
            lemma_count_concat(st, mid, x);
            assert(encode_from(s, pending) == st + mid + rest);
            assert(count_of(Seq::<char>::empty(), x) == 0);
            if s[0] == '&' {
                assert(mid.drop_first() =~= seq!['-']);
                assert(seq!['-'].drop_first() =~= Seq::<char>::empty());
                assert(count_of(seq!['-'], x) == 0);
                assert(count_of(mid, x) == 0);
            } else {
                assert(mid.drop_first() =~= Seq::<char>::empty());
                assert(count_of(mid, x) == (if s[0] == x {
                    1nat
                } else {
                    0nat
                }));
            }
        } else {
            lemma_encoding_keeps_other_characters(
                s.drop_first(),
                pending + utf16_of_char(s[0]),
                x,
            );
            assert(encode_from(s, pending) == encode_from(
                s.drop_first(),
                pending + utf16_of_char(s[0]),
            ));
        }
    }
}

/// Printable ASCII represents itself, except `&`, which is encoded as `&-`.
pub proof fn lemma_printable_ascii_encoding(s: Seq<char>)
    requires
        forall|i: int| 0 <= i < s.len() ==> is_printable_ascii(#[trigger] s[i]),
    ensures
        utf7_encoding(s) == escape_ampersands(s),
    decreases s.len(),
{
    if s.len() > 0 {
        assert forall|i: int| 0 <= i < s.drop_first().len() implies is_printable_ascii(
            #[trigger] s.drop_first()[i],
        ) by {
            assert(s.drop_first()[i] == s[i + 1]);
        }
        lemma_printable_ascii_encoding(s.drop_first());
        assert(shifted_text(seq![]) == Seq::<char>::empty());
        assert(seq![] + seq!['&', '-'] =~= seq!['&', '-']);
        assert(seq![] + seq![s[0]] =~= seq![s[0]]);
    }
}

/// The byte of a printable ASCII character stands for that character.
proof fn lemma_printable_byte(c: char)
    requires
        is_printable_ascii(c),
    ensures
        0x20u8 <= c as u8 <= 0x7Eu8,
        (c as u8) as u32 == c as u32,
        ((c as u8) as u32) as char == c,
        c == '&' <==> c as u8 == 0x26u8,
        c == '-' <==> c as u8 == 0x2Du8,
{
    assert((c as u32) < 128);
    vstd::utf8::char_u32_cast(c, c as u32);
}

/// Printable ASCII text is ASCII, and its UTF-8 bytes are its ASCII bytes.
pub proof fn lemma_ascii_encoding_bytes(e: Seq<char>)
    requires
        forall|i: int| 0 <= i < e.len() ==> is_printable_ascii(#[trigger] e[i]),
    ensures
        is_ascii_chars(e),
        encode_utf8(e) == ascii_bytes(e),
{
    assert(is_ascii_chars(e));
    is_ascii_chars_encode_utf8(e);
    assert(encode_utf8(e) =~= ascii_bytes(e));
}

/// The first run of characters that are not printable ASCII, and what
/// follows it.
proof fn lemma_shifted_prefix(s: Seq<char>)
    ensures
        shifted_prefix_len(s) <= s.len(),
        forall|i: int| 0 <= i < shifted_prefix_len(s) ==> !is_printable_ascii(#[trigger] s[i]),
        shifted_prefix_len(s) < s.len() ==> is_printable_ascii(s[shifted_prefix_len(s) as int]),
        s.len() > 0 && !is_printable_ascii(s[0]) ==> shifted_prefix_len(s) > 0,
    decreases s.len(),
{
    if s.len() > 0 && !is_printable_ascii(s[0]) {
        lemma_shifted_prefix(s.drop_first());
        assert forall|i: int| 0 <= i < shifted_prefix_len(s) implies !is_printable_ascii(
            #[trigger] s[i],
        ) by {
            if i > 0 {
                assert(s[i] == s.drop_first()[i - 1]);
            }
        }
    }
}

/// A non-empty run has code units.
proof fn lemma_utf16_encode_nonempty(r: Seq<char>)
    requires
        r.len() > 0,
    ensures
        utf16_encode(r).len() > 0,
{
    assert(utf16_of_char(r[0]).len() > 0);
}

/// The text of a shifted run with units `u`, followed by bytes `rest`: the
/// decoding finds its `-` right after the symbols.
proof fn lemma_shifted_text_bytes(u: Seq<u16>, rest: Seq<u8>)
    requires
        u.len() > 0,
    ensures
        ({
            let text = base64_unpadded(be_bytes(u));
            let b = ascii_bytes(shifted_text(u)) + rest;
            &&& text.len() > 0
            &&& b[0] == 0x26u8
            &&& first_dash(b.drop_first()) == Some(text.len() as int)
            &&& b.subrange(1, text.len() + 1int) == ascii_bytes(text)
            &&& b.skip(text.len() + 2int) == rest
        }),
{
    let d = be_bytes(u);
    let text = base64_unpadded(d);
    lemma_base64_unpadded(d);
    let b = ascii_bytes(shifted_text(u)) + rest;
    assert(ascii_bytes(shifted_text(u)) =~= seq![0x26u8] + ascii_bytes(text) + seq![0x2Du8]);
    lemma_printable_byte('&');
    lemma_printable_byte('-');
    assert forall|m: int| 0 <= m < text.len() implies b.drop_first()[m] != 0x2Du8 by {
        assert(b.drop_first()[m] == text[m] as u8);
        assert(is_modified_base64_symbol(text[m]));
        assert((text[m] as u32) < 128);
        assert((text[m] as u8) as u32 == text[m] as u32);
    }
    assert(b.drop_first()[text.len() as int] == 0x2Du8);
    lemma_first_dash_at(b.drop_first(), text.len() as int);
    assert(b.subrange(1, text.len() + 1int) =~= ascii_bytes(text));
    assert(b.skip(text.len() + 2int) =~= rest);
}

/// Decoding the encoding of a name gives the name back (where a shifted run
/// has just ended, the name starts with printable ASCII or is empty).
pub proof fn lemma_decoding_of_encoding(s: Seq<char>, after_run: bool)
    requires
        after_run ==> s.len() == 0 || is_printable_ascii(s[0]),
    ensures
        utf7_decoding_from(ascii_bytes(utf7_encoding(s)), after_run) == Some(s),
    decreases s.len(),
{
    let e = utf7_encoding(s);
    let b = ascii_bytes(e);
    assert(shifted_text(seq![]) =~= Seq::<char>::empty());
    if s.len() == 0 {
        assert(b =~= Seq::<u8>::empty());
    } else if is_printable_ascii(s[0]) {
        let rest = s.drop_first();
        lemma_decoding_of_encoding(rest, false);
        let rb = ascii_bytes(utf7_encoding(rest));
        let c = s[0];
        lemma_printable_byte(c);
        if c == '&' {
            lemma_printable_byte('-');
            assert(e =~= seq!['&', '-'] + utf7_encoding(rest));
            assert(b =~= seq![0x26u8, 0x2Du8] + rb);
            assert(b.drop_first()[0] == 0x2Du8);
            lemma_first_dash_at(b.drop_first(), 0);
            assert(b.skip(2) =~= rb);
            assert(seq!['&'] + rest =~= s);
        } else {
            assert(e =~= seq![c] + utf7_encoding(rest));
            assert(b =~= seq![c as u8] + rb);
            assert(b.drop_first() =~= rb);
            assert(seq![((c as u8) as u32) as char] + rest =~= s);
        }
    } else {
        let n = shifted_prefix_len(s);
        lemma_shifted_prefix(s);
        let r = s.take(n as int);
        let t = s.skip(n as int);
        assert(s =~= r + t);
        assert(forall|i: int| 0 <= i < r.len() ==> #[trigger] r[i] == s[i]);
        lemma_encode_run(r, t, seq![]);
        let u = utf16_encode(r);
        assert(Seq::<u16>::empty() + u =~= u);
        if t.len() > 0 {
            assert(t[0] == s[n as int]);
        }
        lemma_encode_closes_run(t, u);
        lemma_utf16_encode_nonempty(r);
        lemma_decoding_of_encoding(t, true);
        let tb = ascii_bytes(utf7_encoding(t));
        assert(b =~= ascii_bytes(shifted_text(u)) + tb);
        lemma_shifted_text_bytes(u, tb);
        let d = be_bytes(u);
        let text = base64_unpadded(d);
        lemma_base64_decoding(d);
        lemma_be_roundtrip(u);
        lemma_utf16_roundtrip(r);
        assert(is_shifted_run(r));
        assert(shifted_run(ascii_bytes(text)) == Some(r));
    }
}

/// Whatever the decoding gives back encodes to the bytes decoded (and, where
/// a shifted run has just ended, starts with printable ASCII or is empty).
pub proof fn lemma_decoding_encodes_back(b: Seq<u8>, after_run: bool)
    requires
        utf7_decoding_from(b, after_run) is Some,
    ensures
        ascii_bytes(utf7_encoding(utf7_decoding_from(b, after_run)->0)) == b,
        after_run ==> utf7_decoding_from(b, after_run)->0.len() == 0 || is_printable_ascii(
            utf7_decoding_from(b, after_run)->0[0],
        ),
    decreases b.len(),
{
    let s = utf7_decoding_from(b, after_run)->0;
    assert(shifted_text(seq![]) =~= Seq::<char>::empty());
    if b.len() == 0 {
        assert(ascii_bytes(utf7_encoding(s)) =~= b);
    } else if b[0] == 0x26u8 {
        lemma_first_dash(b.drop_first());
        let k = first_dash(b.drop_first())->0;
        if k == 0 {
            let rest = b.skip(2);
            lemma_decoding_encodes_back(rest, false);
            let s2 = utf7_decoding_from(rest, false)->0;
            assert(s =~= seq!['&'] + s2);
            assert(s.drop_first() =~= s2);
            assert(utf7_encoding(s) =~= seq!['&', '-'] + utf7_encoding(s2));
            lemma_printable_byte('&');
            lemma_printable_byte('-');
            assert(b =~= seq![0x26u8, 0x2Du8] + rest);
            assert(ascii_bytes(utf7_encoding(s)) =~= b);
        } else {
            let chunk = b.subrange(1, k + 1);
            let rest = b.skip(k + 2);
            let p = shifted_run(chunk)->0;
            lemma_decoding_encodes_back(rest, true);
            let s2 = utf7_decoding_from(rest, true)->0;
            assert(s =~= p + s2);
            let d = base64_unpadded_decoding(chunk)->0;
            assert(ascii_bytes(base64_unpadded(d)) == chunk);
            assert(d.len() % 2 == 0);
            lemma_utf16_decode_encodes_back(units_of_be(d));
            lemma_be_bytes_of_units(d);
            let u = utf16_encode(p);
            assert(be_bytes(u) == d);
            lemma_encode_run(p, s2, seq![]);
            assert(Seq::<u16>::empty() + u =~= u);
            lemma_encode_closes_run(s2, u);
            lemma_utf16_encode_nonempty(p);
            lemma_printable_byte('&');
            lemma_printable_byte('-');
            assert(b =~= seq![0x26u8] + chunk + seq![0x2Du8] + rest);
            assert(ascii_bytes(utf7_encoding(s)) =~= b);
        }
    } else {
        let c = (b[0] as u32) as char;
        let rest = b.drop_first();
        lemma_decoding_encodes_back(rest, false);
        let s2 = utf7_decoding_from(rest, false)->0;
        assert(c as u32 == b[0] as u32);
        lemma_printable_byte(c);
        assert(s =~= seq![c] + s2);
        assert(s.drop_first() =~= s2);
        assert(utf7_encoding(s) =~= seq![c] + utf7_encoding(s2));
        assert(b =~= seq![b[0]] + rest);
        assert(ascii_bytes(utf7_encoding(s)) =~= b);
    }
}

/// Decoding gives back every name that encoding writes.
pub proof fn lemma_utf7_roundtrip(s: Seq<char>)
    ensures
        utf7_decoding(encode_utf8(utf7_encoding(s))) == Some(s),
{
    lemma_encoding_printable(s, seq![]);
    lemma_ascii_encoding_bytes(utf7_encoding(s));
    lemma_decoding_of_encoding(s, false);
}

/// Printable ASCII is the codes `0x20` (space) to `0x7E` (`~`); all of them
/// but `0x26` (`&`) stand for themselves.
pub proof fn lemma_printable_ascii_codes(c: char)
    ensures
        is_printable_ascii(c) == (0x20 <= c as u32 && c as u32 <= 0x7E),
        is_direct_char(c) == (is_printable_ascii(c) && c as u32 != 0x26),
{
    char_u32_cast(c, c as u32);
}

/// A lone character of the Basic Multilingual Plane that is not printable
/// ASCII is written as `&`, the modified BASE64 of the two bytes of its code
/// point (high byte first), and `-`; decoding that text gives the character
/// back.
pub proof fn lemma_encode_bmp_char(c: char)
    requires
        !is_printable_ascii(c),
        (c as u32) < 0x10000,
    ensures
        utf7_encoding(seq![c]) == seq!['&'] + base64_unpadded(
            seq![((c as u32) / 256) as u8, ((c as u32) % 256) as u8],
        ) + seq!['-'],
        utf7_decoding(encode_utf8(utf7_encoding(seq![c]))) == Some(seq![c]),
{
    let one = seq![c];
    let units = utf16_of_char(c);
    assert(one[0] == c);
    assert(one.drop_first() =~= Seq::<char>::empty());
    assert(Seq::<u16>::empty() + units =~= units);
    lemma_utf16_of_char(c);
    lemma_be_bytes_layout(units);
    let b = be_bytes(units);
    assert(b[2 * 0int] == b[0] && b[2 * 0int + 1] == b[1]);
    assert(b =~= seq![((c as u32) / 256) as u8, ((c as u32) % 256) as u8]);
    assert(utf7_encoding(one) == encode_from(Seq::<char>::empty(), units));
    lemma_utf7_roundtrip(one);
}

/// A shifted run holding the two bytes of one code unit, high byte first,
/// decodes to the one character with that code point, when the unit is no
/// surrogate and not printable ASCII.
pub proof fn lemma_decode_bmp_unit(hi: u8, lo: u8)
    requires
        !(0x20 <= hi * 256 + lo <= 0x7E),
        !(0xD800 <= hi * 256 + lo <= 0xDFFF),
    ensures
        utf7_decoding(encode_utf8(seq!['&'] + base64_unpadded(seq![hi, lo]) + seq!['-'])) matches Some(
            s,
        ) && s.len() == 1 && s[0] as u32 == hi * 256 + lo,
{
    let v: u32 = (hi * 256 + lo) as u32;
    let c = v as char;
    assert(c as u32 == v);
    assert(!is_printable_ascii(c));
    assert(seq![((c as u32) / 256) as u8, ((c as u32) % 256) as u8] =~= seq![hi, lo]);
    lemma_encode_bmp_char(c);
}

fn is_direct(c: char) -> (b: bool)
    ensures
        b == is_direct_char(c),
{
    ' ' <= c && c <= '~' && c != '&'
}

/// Writes the pending shifted run, if any, and empties it.
fn flush(shifted: &mut Vec<u16>, out: &mut String)
    requires
        old(shifted)@.len() <= usize::MAX / 8,
    ensures
        final(out)@ == old(out)@ + shifted_text(old(shifted)@),
        final(shifted)@ == Seq::<u16>::empty(),
{
    if shifted.len() == 0 {
        assert(old(out)@ + shifted_text(old(shifted)@) =~= old(out)@);
        return;
    }
    let ghost units = shifted@;
    let mut bytes: Vec<u8> = Vec::new();
    push_be_bytes(&mut bytes, shifted);
    assert(bytes@ =~= be_bytes(units));
    proof {
        lemma_modified_base64_symbols();
    }
    let text = encode_unpadded(MODIFIED_BASE64_SYMBOLS, bytes.as_slice());
    push_char(out, '&');
    out.append(text.as_str());
    push_char(out, '-');
    shifted.clear();
}

/// Encode a UTF-8 mailbox name into modified UTF-7.
pub fn encode(input: &str) -> (wire: String)
    requires
        input@.len() <= usize::MAX / 16,
    ensures
        wire@ == utf7_encoding(input@),
        forall|i: int| 0 <= i < wire@.len() ==> is_printable_ascii(#[trigger] wire@[i]),
        forall|x: char|
            is_printable_ascii(x) && x != '&' && x != '-' && !is_modified_base64_symbol(x)
                ==> #[trigger] count_of(wire@, x) == count_of(input@, x),
        utf7_decoding(encode_utf8(wire@)) == Some(input@),
{
    let mut out = String::new();
    let mut shifted: Vec<u16> = Vec::new();
    assert(input@.skip(0) =~= input@);
    assert(out@ + utf7_encoding(input@) =~= utf7_encoding(input@));
    for c in it: input.chars()
        invariant
            it.seq() == input@,
            input@.len() <= usize::MAX / 16,
            shifted@.len() <= 2 * it.index(),
            out@ + encode_from(input@.skip(it.index() as int), shifted@) == utf7_encoding(input@),
    {
        let ghost s = input@.skip(it.index() as int);
        assert(s[0] == c);
        assert(s.drop_first() =~= input@.skip(it.index() + 1));
        if c == '&' {
            flush(&mut shifted, &mut out);
            push_char(&mut out, '&');
            push_char(&mut out, '-');
        } else if is_direct(c) {
            flush(&mut shifted, &mut out);
            push_char(&mut out, c);
        } else {
            push_utf16(&mut shifted, c);
        }
    }
    flush(&mut shifted, &mut out);
    assert(input@.skip(input@.len() as int) =~= Seq::<char>::empty());
    assert(out@ =~= utf7_encoding(input@));
    proof {
        lemma_encoding_printable(input@, seq![]);
        assert forall|x: char|
            is_printable_ascii(x) && x != '&' && x != '-' && !is_modified_base64_symbol(
                x,
            ) implies #[trigger] count_of(out@, x) == count_of(input@, x) by {
            lemma_encoding_keeps_other_characters(input@, seq![], x);
        }
        lemma_ascii_encoding_bytes(out@);
        lemma_decoding_of_encoding(input@, false);
    }
    out
}

/// The position of the first `-` at or after `from`, or the length of
/// `bytes` if there is none.
fn find_dash(bytes: &[u8], from: usize) -> (j: usize)
    requires
        from <= bytes@.len(),
    ensures
        from <= j <= bytes@.len(),
        forall|m: int| from <= m < j ==> bytes@[m] != 0x2Du8,
        j < bytes@.len() ==> bytes@[j as int] == 0x2Du8,
{
    let n = bytes.len();
    let mut j = from;
    while j < n && bytes[j] != 0x2Du8
        invariant
            n == bytes@.len(),
            from <= j <= n,
            forall|m: int| from <= m < j ==> bytes@[m] != 0x2Du8,
        decreases n - j,
    {
        j = j + 1;
    }
    j
}

/// Whether `chars` is a run that encoding shifts: not empty, and no
/// character of it printable ASCII.
fn is_run(chars: &Vec<char>) -> (run: bool)
    ensures
        run == is_shifted_run(chars@),
{
    let n = chars.len();
    if n == 0 {
        return false;
    }
    let mut i: usize = 0;
    while i < n
        invariant
            n == chars@.len(),
            i <= n,
            forall|j: int| 0 <= j < i ==> !is_printable_ascii(#[trigger] chars@[j]),
        decreases n - i,
    {
        if ' ' <= chars[i] && chars[i] <= '~' {
            return false;
        }
        i = i + 1;
    }
    true
}

/// The characters of the shifted run between `&` and `-`, if `chunk` is one.
fn decode_run(chunk: &[u8]) -> (run: Option<Vec<char>>)
    ensures
        match run {
            Some(p) => shifted_run(chunk@) == Some(p@),
            None => shifted_run(chunk@) is None,
        },
{
    proof {
        lemma_modified_base64_symbols();
    }
    match decode_unpadded(MODIFIED_BASE64_SYMBOLS, chunk) {
        None => {
            assert(!exists|b: Seq<u8>| ascii_bytes(base64_unpadded(b)) == chunk@);
            None
        },
        Some(d) => {
            proof {
                lemma_base64_decoding(d@);
            }
            match decode_utf16_be(d.as_slice()) {
                None => None,
                Some(chars) => {
                    if is_run(&chars) {
                        Some(chars)
                    } else {
                        None
                    }
                },
            }
        },
    }
}

/// The name whose encoding has the bytes `bytes`, if there is one.
fn decode_bytes(bytes: &[u8]) -> (plain: Option<String>)
    ensures
        match plain {
            Some(s) => utf7_decoding(bytes@) == Some(s@),
            None => utf7_decoding(bytes@) is None,
        },
{
    let n = bytes.len();
    let mut out = String::new();
    let mut i: usize = 0;
    let mut after_run = false;
    assert(bytes@.skip(0) =~= bytes@);
    assert(utf7_decoding(bytes@) matches Some(r) ==> seq![] + r =~= r);
    while i < n
        invariant
            n == bytes@.len(),
            i <= n,
            utf7_decoding(bytes@) == prefixed(
                out@,
                utf7_decoding_from(bytes@.skip(i as int), after_run),
            ),
        decreases n - i,
    {
        let b = bytes[i];
        let ghost rest = bytes@.skip(i as int);
        let ghost old_out = out@;
        assert(rest[0] == b);
        if b == 0x26u8 {
            let j = find_dash(bytes, i + 1);
            assert(rest.drop_first() =~= bytes@.skip(i + 1));
            if j == n {
                proof {
                    lemma_first_dash_none(rest.drop_first());
                }
                return None;
            }
            proof {
                lemma_first_dash_at(rest.drop_first(), j - i - 1);
            }
            let ghost k = j - i - 1;
            assert(rest.subrange(1, k + 1) =~= bytes@.subrange(i + 1, j as int));
            assert(rest.skip(k + 2) =~= bytes@.skip(j + 1));
            assert(rest.skip(2) =~= bytes@.skip(i + 2));
            if j == i + 1 {
                push_char(&mut out, '&');
                after_run = false;
                proof {
                    let p = seq!['&'];
                    assert(utf7_decoding_from(bytes@.skip(j + 1), false) matches Some(t) ==> old_out
                        + (p + t) =~= (old_out + p) + t);
                }
            } else {
                if after_run {
                    return None;
                }
                match decode_run(&bytes[i + 1..j]) {
                    None => {
                        return None;
                    },
                    Some(chars) => {
                        push_chars(&mut out, &chars);
                        proof {
                            let p = chars@;
                            assert(utf7_decoding_from(bytes@.skip(j + 1), true) matches Some(t)
                                ==> old_out + (p + t) =~= (old_out + p) + t);
                        }
                    },
                }
                after_run = true;
            }
            i = j + 1;
        } else if 0x20u8 <= b && b <= 0x7Eu8 {
            push_char(&mut out, b as char);
            after_run = false;
            proof {
                assert(rest.drop_first() =~= bytes@.skip(i + 1));
                let p = seq![(b as u32) as char];
                assert(out@ == old_out + p);
                assert(utf7_decoding_from(bytes@.skip(i + 1), false) matches Some(t) ==> old_out
                    + (p + t) =~= (old_out + p) + t);
            }
            i = i + 1;
        } else {
            return None;
        }
    }
    assert(bytes@.skip(n as int) =~= Seq::<u8>::empty());
    assert(out@ + seq![] =~= out@);
    Some(out)
}

/// Decode a modified UTF-7 mailbox name back to UTF-8. Returns `None` if the
/// input is not valid modified UTF-7: the result, when there is one, is the
/// name whose encoding the input is, and there is none exactly when no name
/// encodes to the input.
pub fn decode(input: &str) -> (plain: Option<String>)
    ensures
        match plain {
            Some(s) => utf7_encoding(s@) == input@ && utf7_decoding(encode_utf8(input@)) == Some(
                s@,
            ),
            None => forall|s: Seq<char>| utf7_encoding(s) != input@,
        },
{
    let bytes = input.as_bytes();
    assert(bytes@ == encode_utf8(input@));
    let plain = decode_bytes(bytes);
    proof {
        if plain is Some {
            let s = plain->0@;
            lemma_decoding_encodes_back(bytes@, false);
            lemma_encoding_printable(s, seq![]);
            lemma_ascii_encoding_bytes(utf7_encoding(s));
            encode_utf8_decode_utf8(utf7_encoding(s));
            encode_utf8_decode_utf8(input@);
        } else {
            assert forall|s: Seq<char>| utf7_encoding(s) != input@ by {
                if utf7_encoding(s) == input@ {
                    lemma_encoding_printable(s, seq![]);
                    lemma_ascii_encoding_bytes(utf7_encoding(s));
                    lemma_decoding_of_encoding(s, false);
                }
            }
        }
    }
    plain
}

} // verus!
