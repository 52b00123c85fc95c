//! Character-level helpers shared by the mailbox-name codec and the label
//! registry: building strings, ASCII case folding, decimal numerals and the
//! code-point order of strings.
use vstd::prelude::*;
use vstd::utf8::{char_u32_cast, is_scalar};

verus! {

/// Appends one character to a string.
///
/// Trusted: `String::push`, which std documents as appending the given `char`
/// to the end of the string.
#[verifier::external_body]
pub(crate) fn push_char(s: &mut String, c: char)
    ensures
        final(s)@ == old(s)@.push(c),
{
    s.push(c);
}

/// The character with the given scalar value, if there is one.
///
/// Trusted: `char::from_u32`, which std documents as returning `None` exactly
/// when the value is not a Unicode scalar value (a surrogate, or above
/// `0x10FFFF`), and the character with that value otherwise.
#[verifier::external_body]
pub(crate) fn char_from_u32(v: u32) -> (c: Option<char>)
    ensures
        c == (if is_scalar(v) {
            Some(v as char)
        } else {
            None::<char>
        }),
{
    char::from_u32(v)
}

/// Appends every character of `chars` to `s`, in order.
pub(crate) fn push_chars(s: &mut String, chars: &Vec<char>)
    ensures
        final(s)@ == old(s)@ + chars@,
{
    let n = chars.len();
    let mut i: usize = 0;
    while i < n
        invariant
            n == chars@.len(),
            i <= n,
            s@ == old(s)@ + chars@.take(i as int),
        decreases n - i,
    {
        push_char(s, chars[i]);
        i = i + 1;
        assert(chars@.take(i as int) == chars@.take(i - 1).push(chars@[i - 1]));
    }
    assert(chars@.take(n as int) == chars@);
}

/// The characters of `s`, in order.
pub(crate) fn chars_of(s: &str) -> (v: Vec<char>)
    ensures
        v@ == s@,
{
    let mut v: Vec<char> = Vec::new();
    for c in it: s.chars()
        invariant
            it.seq() == s@,
            v@ == it.seq().take(it.index() as int),
    {
        v.push(c);
    }
    v
}

/// How many times `x` occurs in `s`.
pub open spec fn count_of(s: Seq<char>, x: char) -> nat
    decreases s.len(),
{
    if s.len() == 0 {
        0
    } else {
        (if s[0] == x {
            1nat
        } else {
            0nat
        }) + count_of(s.drop_first(), x)
    }
}

/// Counting is additive over concatenation.
pub proof fn lemma_count_concat(a: Seq<char>, b: Seq<char>, x: char)
    ensures
        count_of(a + b, x) == count_of(a, x) + count_of(b, x),
    decreases a.len(),
{
    if a.len() == 0 {
        assert(a + b =~= b);
    } else {
        assert((a + b).drop_first() =~= a.drop_first() + b);
        lemma_count_concat(a.drop_first(), b, x);
    }
}

/// A character that does not occur is counted zero times.
pub proof fn lemma_count_zero(s: Seq<char>, x: char)
    requires
        forall|i: int| 0 <= i < s.len() ==> s[i] != x,
    ensures
        count_of(s, x) == 0,
    decreases s.len(),
{
    if s.len() > 0 {
        assert(s[0] != x);
        assert forall|i: int| 0 <= i < s.drop_first().len() implies s.drop_first()[i] != x by {
            assert(s.drop_first()[i] == s[i + 1]);
        }
        lemma_count_zero(s.drop_first(), x);
    }
}

/// The bytes of ASCII text.
pub open spec fn ascii_bytes(s: Seq<char>) -> Seq<u8> {
    Seq::new(s.len(), |i: int| s[i] as u8)
}

/// `o` with `p` put in front of what it holds.
pub open spec fn prefixed(p: Seq<char>, o: Option<Seq<char>>) -> Option<Seq<char>> {
    match o {
        Some(r) => Some(p + r),
        None => None,
    }
}

/// ASCII upper-case letters fold to lower case; every other character is kept.
pub open spec fn ascii_lower_char(c: char) -> char {
    if 'A' <= c && c <= 'Z' {
        ((c as u32) + 32) as char
    } else {
        c
    }
}

/// A string with its ASCII letters folded to lower case, as `to_ascii_lowercase` does.
pub open spec fn ascii_lower(s: Seq<char>) -> Seq<char> {
    s.map_values(|c: char| ascii_lower_char(c))
}

fn lower_char(c: char) -> (r: char)
    ensures
        r == ascii_lower_char(c),
{
    if 'A' <= c && c <= 'Z' {
        ((c as u8) + 32) as char
    } else {
        c
    }
}

/// `s` with its ASCII letters folded to lower case.
pub fn to_ascii_lowercase(s: &str) -> (r: String)
    ensures
        r@ == ascii_lower(s@),
{
    let mut r = String::new();
    for c in it: s.chars()
        invariant
            it.seq() == s@,
            r@ == ascii_lower(it.seq().take(it.index() as int)),
    {
        let ghost done = it.seq().take(it.index() as int);
        push_char(&mut r, lower_char(c));
        assert(it.seq().take(it.index() + 1) == done.push(c));
        assert(ascii_lower(done.push(c)) == ascii_lower(done).push(ascii_lower_char(c)));
    }
    r
}

/// The digit character for `d`, which is below ten.
pub open spec fn digit_char(d: nat) -> char {
    ((d + 48) as u32) as char
}

/// The decimal numeral of `n`, without sign or leading zeros.
pub open spec fn decimal(n: nat) -> Seq<char>
    decreases n,
{
    if n < 10 {
        seq![digit_char(n)]
    } else {
        decimal(n / 10).push(digit_char(n % 10))
    }
}

/// A decimal numeral has at least one digit, two from ten on, and only digits.
pub proof fn lemma_decimal_digits(n: nat)
    ensures
        decimal(n).len() >= 1,
        n >= 10 ==> decimal(n).len() >= 2,
        forall|i: int| 0 <= i < decimal(n).len() ==> '0' <= #[trigger] decimal(n)[i] && decimal(n)[i] <= '9',
    decreases n,
{
    if n >= 10 {
        lemma_decimal_digits(n / 10);
    }
    assert(digit_char(n % 10) as u32 == (n % 10) + 48);
}

/// Different numbers have different numerals.
pub proof fn lemma_decimal_injective(a: nat, b: nat)
    requires
        decimal(a) == decimal(b),
    ensures
        a == b,
    decreases a,
{
    lemma_decimal_digits(a);
    lemma_decimal_digits(b);
    assert(digit_char(a % 10) as u32 == (a % 10) + 48);
    assert(digit_char(b % 10) as u32 == (b % 10) + 48);
    if a >= 10 && b >= 10 {
        assert(decimal(a).drop_last() == decimal(a / 10));
        assert(decimal(b).drop_last() == decimal(b / 10));
        assert(decimal(a).last() == digit_char(a % 10));
        assert(decimal(b).last() == digit_char(b % 10));
        lemma_decimal_injective(a / 10, b / 10);
    } else if a < 10 && b < 10 {
        assert(decimal(a)[0] == digit_char(a));
        assert(decimal(b)[0] == digit_char(b));
    }
}

/// The number that a string of decimal digits spells, most significant
/// digit first.
pub open spec fn digits_value(s: Seq<char>) -> int
    decreases s.len(),
{
    if s.len() == 0 {
        0
    } else {
        digits_value(s.drop_last()) * 10 + (s.last() as u32 - 48)
    }
}

/// The numeral of `n` spells `n`, and starts with `0` only for zero: it is
/// the usual decimal writing of `n`.
pub proof fn lemma_decimal_value(n: nat)
    ensures
        digits_value(decimal(n)) == n,
        decimal(n)[0] == '0' ==> n == 0,
    decreases n,
{
    let d = decimal(n);
    assert(digit_char(n % 10) as u32 == (n % 10) + 48);
    if n < 10 {
        assert(d.drop_last() =~= Seq::<char>::empty());
        assert(digits_value(Seq::<char>::empty()) == 0);
        assert(d.last() == digit_char(n));
        assert(n % 10 == n);
        assert(digits_value(d) == digits_value(d.drop_last()) * 10 + (d.last() as u32 - 48));
    } else {
        lemma_decimal_value(n / 10);
        lemma_decimal_digits(n / 10);
        assert(d.drop_last() =~= decimal(n / 10));
        assert(d.last() == digit_char(n % 10));
        assert(d[0] == decimal(n / 10)[0]);
        assert(digits_value(d) == digits_value(d.drop_last()) * 10 + (d.last() as u32 - 48));
        assert((n / 10) * 10 + n % 10 == n);
    }
}

/// Appends the decimal numeral of `n` to `s`.
pub fn push_decimal(s: &mut String, n: u32)
    ensures
        final(s)@ == old(s)@ + decimal(n as nat),
    decreases n,
{
    if n >= 10 {
        push_decimal(s, n / 10);
    }
    let d: u8 = (n % 10) as u8;
    push_char(s, (d + 48) as char);
}

/// `a` comes strictly before `b` in the order of code points, character by
/// character, a proper prefix coming first. For UTF-8 text this is the order
/// that comparing the strings' bytes gives.
pub open spec fn lex_lt(a: Seq<char>, b: Seq<char>) -> bool
    decreases a.len(),
{
    if a.len() == 0 {
        b.len() > 0
    } else if b.len() == 0 {
        false
    } else if a[0] != b[0] {
        (a[0] as u32) < (b[0] as u32)
    } else {
        lex_lt(a.drop_first(), b.drop_first())
    }
}

/// No string comes before itself.
pub proof fn lemma_lex_lt_irreflexive(a: Seq<char>)
    ensures
        !lex_lt(a, a),
    decreases a.len(),
{
    if a.len() > 0 {
        lemma_lex_lt_irreflexive(a.drop_first());
    }
}

/// The code-point order is transitive.
pub proof fn lemma_lex_lt_transitive(a: Seq<char>, b: Seq<char>, c: Seq<char>)
    requires
        lex_lt(a, b),
        lex_lt(b, c),
    ensures
        lex_lt(a, c),
    decreases a.len(),
{
    if a.len() > 0 && a[0] == b[0] && b[0] == c[0] {
        lemma_lex_lt_transitive(a.drop_first(), b.drop_first(), c.drop_first());
    }
}

/// Of two different strings, one comes before the other.
pub proof fn lemma_lex_lt_total(a: Seq<char>, b: Seq<char>)
    requires
        a != b,
    ensures
        lex_lt(a, b) || lex_lt(b, a),
    decreases a.len(),
{
    if a.len() > 0 && b.len() > 0 && a[0] == b[0] {
        assert(a =~= seq![a[0]] + a.drop_first());
        assert(b =~= seq![b[0]] + b.drop_first());
        lemma_lex_lt_total(a.drop_first(), b.drop_first());
    } else if a.len() == 0 && b.len() == 0 {
        assert(a =~= b);
    } else if a.len() > 0 && b.len() > 0 {
        if (a[0] as u32) == (b[0] as u32) {
            char_u32_cast(a[0], a[0] as u32);
            char_u32_cast(b[0], b[0] as u32);
        }
    }
}

/// Dropping an equal prefix from both sides keeps their order.
pub proof fn lemma_lex_lt_skip(a: Seq<char>, b: Seq<char>, k: int)
    requires
        0 <= k <= a.len(),
        k <= b.len(),
        a.take(k) == b.take(k),
    ensures
        lex_lt(a, b) == lex_lt(a.skip(k), b.skip(k)),
    decreases k,
{
    if k > 0 {
        assert(a[0] == a.take(k)[0]);
        assert(b[0] == b.take(k)[0]);
        assert(a.drop_first().take(k - 1) =~= a.take(k).drop_first());
        assert(b.drop_first().take(k - 1) =~= b.take(k).drop_first());
        lemma_lex_lt_skip(a.drop_first(), b.drop_first(), k - 1);
        assert(a.drop_first().skip(k - 1) =~= a.skip(k));
        assert(b.drop_first().skip(k - 1) =~= b.skip(k));
    } else {
        assert(a.skip(0) =~= a);
        assert(b.skip(0) =~= b);
    }
}

/// Whether `a` comes strictly before `b` in code-point order.
pub fn str_less(a: &str, b: &str) -> (r: bool)
    ensures
        r == lex_lt(a@, b@),
{
    let x = chars_of(a);
    let y = chars_of(b);
    let mut k: usize = 0;
    while k < x.len() && k < y.len() && x[k] == y[k]
        invariant
            k <= x@.len(),
            k <= y@.len(),
            x@.take(k as int) == y@.take(k as int),
        decreases x@.len() - k,
    {
        assert(x@.take(k + 1) =~= x@.take(k as int).push(x@[k as int]));
        assert(y@.take(k + 1) =~= y@.take(k as int).push(y@[k as int]));
        k = k + 1;
    }
    proof {
        lemma_lex_lt_skip(x@, y@, k as int);
    }
    if k == x.len() {
        k < y.len()
    } else if k == y.len() {
        false
    } else {
        (x[k] as u32) < (y[k] as u32)
    }
}

/// An ASCII letter, upper or lower case.
pub open spec fn is_ascii_letter(c: char) -> bool {
    ('A' <= c && c <= 'Z') || ('a' <= c && c <= 'z')
}

/// `a` and `b` are the same text up to ASCII case: as long as each other, and
/// at every position the same character or the upper and lower case of one
/// ASCII letter, whose codes are 32 apart.
pub open spec fn eq_ignore_ascii_case(a: Seq<char>, b: Seq<char>) -> bool {
    &&& a.len() == b.len()
    &&& forall|i: int|
        0 <= i < a.len() ==> #[trigger] a[i] == #[trigger] b[i] || (is_ascii_letter(a[i])
            && is_ascii_letter(b[i]) && (a[i] as u32 == b[i] as u32 + 32 || b[i] as u32 == a[i]
            as u32 + 32))
}

/// Folding to lower case turns each of `A` to `Z` into the letter 32 codes
/// further on (`a` to `z`), and keeps every other character.
pub proof fn lemma_ascii_lower_char(c: char)
    ensures
        'A' <= c && c <= 'Z' ==> ascii_lower_char(c) as u32 == c as u32 + 32,
        !('A' <= c && c <= 'Z') ==> ascii_lower_char(c) == c,
{
}

/// Two texts fold to the same lower case exactly when they are the same up
/// to ASCII case.
pub proof fn lemma_ascii_lower_eq(a: Seq<char>, b: Seq<char>)
    ensures
        (ascii_lower(a) == ascii_lower(b)) == eq_ignore_ascii_case(a, b),
{
    if ascii_lower(a) == ascii_lower(b) {
        assert(a.len() == ascii_lower(a).len());
        assert forall|i: int| 0 <= i < a.len() implies #[trigger] a[i] == #[trigger] b[i] || (
        is_ascii_letter(a[i]) && is_ascii_letter(b[i]) && (a[i] as u32 == b[i] as u32 + 32
            || b[i] as u32 == a[i] as u32 + 32)) by {
            assert(ascii_lower(a)[i] == ascii_lower(b)[i]);
            lemma_lower_char_pair(a[i], b[i]);
        }
    }
    if eq_ignore_ascii_case(a, b) {
        assert forall|i: int| 0 <= i < a.len() implies ascii_lower(a)[i] == ascii_lower(b)[i] by {
            assert(a[i] == b[i] || (is_ascii_letter(a[i]) && is_ascii_letter(b[i]) && (a[i] as u32
                == b[i] as u32 + 32 || b[i] as u32 == a[i] as u32 + 32)));
            lemma_lower_char_pair(a[i], b[i]);
        }
        assert(ascii_lower(a) =~= ascii_lower(b));
    }
}

proof fn lemma_lower_char_pair(x: char, y: char)
    ensures
        (ascii_lower_char(x) == ascii_lower_char(y)) == (x == y || (is_ascii_letter(x)
            && is_ascii_letter(y) && (x as u32 == y as u32 + 32 || y as u32 == x as u32 + 32))),
{
    char_u32_cast(x, x as u32);
    char_u32_cast(y, y as u32);
    let lx = ascii_lower_char(x);
    let ly = ascii_lower_char(y);
    char_u32_cast(lx, lx as u32);
    char_u32_cast(ly, ly as u32);
}

/// `a` comes before `b` in code-point order: it is a proper prefix of `b`,
/// or at the first position where they differ its character has the lower
/// code.
pub open spec fn precedes_by_code_point(a: Seq<char>, b: Seq<char>) -> bool {
    ||| a.len() < b.len() && a == b.take(a.len() as int)
    ||| exists|k: int|
        0 <= k < a.len() && k < b.len() && a.take(k) == b.take(k) && (a[k] as u32) < (
        #[trigger] b[k] as u32)
}

/// `lex_lt` is the code-point order of strings (the order of their UTF-8
/// bytes, in which `String::cmp` sorts).
pub proof fn lemma_lex_lt_is_code_point_order(a: Seq<char>, b: Seq<char>)
    ensures
        lex_lt(a, b) == precedes_by_code_point(a, b),
    decreases a.len(),
{
    if a.len() == 0 {
        assert(a =~= b.take(0));
    } else if b.len() == 0 {
    } else if a[0] != b[0] {
        char_u32_cast(a[0], a[0] as u32);
        char_u32_cast(b[0], b[0] as u32);
        if (a[0] as u32) < (b[0] as u32) {
            assert(a.take(0) =~= b.take(0));
            assert(b[0] as u32 > a[0] as u32);
        }
        if precedes_by_code_point(a, b) {
            if a.len() < b.len() && a == b.take(a.len() as int) {
                assert(a[0] == b.take(a.len() as int)[0]);
            } else {
                let k = choose|k: int|
                    0 <= k < a.len() && k < b.len() && a.take(k) == b.take(k) && (a[k] as u32) < (
                    #[trigger] b[k] as u32);
                if k > 0 {
                    assert(a[0] == a.take(k)[0] && b[0] == b.take(k)[0]);
                }
            }
        }
    } else {
        let a2 = a.drop_first();
        let b2 = b.drop_first();
        lemma_lex_lt_is_code_point_order(a2, b2);
        if precedes_by_code_point(a2, b2) {
            if a2.len() < b2.len() && a2 == b2.take(a2.len() as int) {
                assert forall|i: int| 0 <= i < a.len() implies a[i] == b.take(a.len() as int)[i] by {
                    if i > 0 {
                        assert(a2[i - 1] == b2.take(a2.len() as int)[i - 1]);
                    }
                }
                assert(a =~= b.take(a.len() as int));
            } else {
                let k = choose|k: int|
                    0 <= k < a2.len() && k < b2.len() && a2.take(k) == b2.take(k) && (a2[k] as u32)
                        < (#[trigger] b2[k] as u32);
                assert forall|i: int| 0 <= i < k + 1 implies #[trigger] a.take(k + 1)[i] == b.take(k + 1)[i] by {
                    if i > 0 {
                        assert(a2.take(k)[i - 1] == b2.take(k)[i - 1]);
                    }
                }
                assert(a.take(k + 1) =~= b.take(k + 1));
                assert(b[k + 1] == b2[k]);
                assert(a[k + 1] == a2[k]);
            }
        }
        if precedes_by_code_point(a, b) {
            if a.len() < b.len() && a == b.take(a.len() as int) {
                assert(a2 =~= b2.take(a2.len() as int));
            } else {
                let k = choose|k: int|
                    0 <= k < a.len() && k < b.len() && a.take(k) == b.take(k) && (a[k] as u32) < (
                    #[trigger] b[k] as u32);
                if k == 0 {
                    char_u32_cast(a[0], a[0] as u32);
                    char_u32_cast(b[0], b[0] as u32);
                } else {
                    assert forall|i: int| 0 <= i < k - 1 implies #[trigger] a2.take(k - 1)[i]
                        == b2.take(k - 1)[i] by {
                        assert(a.take(k)[i + 1] == b.take(k)[i + 1]);
                    }
                    assert(a2.take(k - 1) =~= b2.take(k - 1));
                    assert(b2[k - 1] == b[k]);
                    assert(a2[k - 1] == a[k]);
                }
            }
        }
    }
}

} // verus!
