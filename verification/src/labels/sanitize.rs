//! Label names as IMAP keyword atoms.
use vstd::prelude::*;

use crate::text::{count_of, lemma_count_concat, lemma_count_zero, push_char};

verus! {

/// Characters an IMAP keyword atom keeps as they are: ASCII letters and
/// digits, `-`, `_`, `.` and `$`.
pub open spec fn is_atom_char(c: char) -> bool {
    ||| '0' <= c && c <= '9'
    ||| 'a' <= c && c <= 'z'
    ||| 'A' <= c && c <= 'Z'
    ||| c == '-'
    ||| c == '_'
    ||| c == '.'
    ||| c == '$'
}

/// The ASCII spelling of a Latin letter with a diacritic, for the letters a
/// European mailbox is likely to carry (`ä`/`ö`/`ü`/`ß` use the German
/// transliteration).
pub open spec fn folded_diacritic(c: char) -> Option<Seq<char>> {
    match c {
        'ą' | 'á' | 'à' | 'â' | 'ã' | 'å' => Some(seq!['a']),
        'Ą' | 'Á' | 'À' | 'Â' | 'Ã' | 'Å' => Some(seq!['A']),
        'ä' | 'æ' => Some(seq!['a', 'e']),
        'Ä' | 'Æ' => Some(seq!['A', 'e']),
        'ć' | 'ç' | 'č' => Some(seq!['c']),
        'Ć' | 'Ç' | 'Č' => Some(seq!['C']),
        'ę' | 'é' | 'è' | 'ê' | 'ë' | 'ě' => Some(seq!['e']),
        'Ę' | 'É' | 'È' | 'Ê' | 'Ë' | 'Ě' => Some(seq!['E']),
        'í' | 'ì' | 'î' | 'ï' => Some(seq!['i']),
        'Í' | 'Ì' | 'Î' | 'Ï' => Some(seq!['I']),
        'ł' => Some(seq!['l']),
        'Ł' => Some(seq!['L']),
        'ń' | 'ñ' | 'ň' => Some(seq!['n']),
        'Ń' | 'Ñ' | 'Ň' => Some(seq!['N']),
        'ó' | 'ò' | 'ô' | 'õ' | 'ø' => Some(seq!['o']),
        'Ó' | 'Ò' | 'Ô' | 'Õ' | 'Ø' => Some(seq!['O']),
        'ö' | 'œ' => Some(seq!['o', 'e']),
        'Ö' | 'Œ' => Some(seq!['O', 'e']),
        'ś' | 'š' => Some(seq!['s']),
        'Ś' | 'Š' => Some(seq!['S']),
        'ß' => Some(seq!['s', 's']),
        'ú' | 'ù' | 'û' => Some(seq!['u']),
        'Ú' | 'Ù' | 'Û' => Some(seq!['U']),
        'ü' => Some(seq!['u', 'e']),
        'Ü' => Some(seq!['U', 'e']),
        'ý' | 'ÿ' => Some(seq!['y']),
        'Ý' => Some(seq!['Y']),
        'ź' | 'ż' | 'ž' => Some(seq!['z']),
        'Ź' | 'Ż' | 'Ž' => Some(seq!['Z']),
        _ => None,
    }
}

/// What one character of a label name becomes in its keyword, or `None` if
/// it cannot be represented.
pub open spec fn keyword_piece(c: char) -> Option<Seq<char>> {
    if is_atom_char(c) {
        Some(seq![c])
    } else {
        folded_diacritic(c)
    }
}

/// The keyword text for `s`, where `started` tells whether anything has been
/// written before and `gap` whether unrepresentable characters were skipped
/// since then: a skipped run becomes one `_`, written only when more atom
/// characters follow.
pub open spec fn sanitize_from(s: Seq<char>, started: bool, gap: bool) -> Seq<char>
    decreases s.len(),
{
    if s.len() == 0 {
        seq![]
    } else {
        match keyword_piece(s[0]) {
            None => sanitize_from(s.drop_first(), started, started),
            Some(p) => (if gap {
                seq!['_']
            } else {
                seq![]
            }) + p + sanitize_from(s.drop_first(), true, false),
        }
    }
}

/// The keyword atom for a label name: `Label` when nothing in it can be
/// represented.
pub open spec fn sanitized_keyword(name: Seq<char>) -> Seq<char> {
    let r = sanitize_from(name, false, false);
    if r.len() == 0 {
        seq!['L', 'a', 'b', 'e', 'l']
    } else {
        r
    }
}

/// Whether anything has been written, and whether a gap is pending, after
/// the keyword text for `a` when it started from `started` and `gap`.
pub open spec fn sanitize_state(a: Seq<char>, started: bool, gap: bool) -> (bool, bool)
    decreases a.len(),
{
    if a.len() == 0 {
        (started, gap)
    } else {
        match keyword_piece(a[0]) {
            None => sanitize_state(a.drop_first(), started, started),
            Some(_) => sanitize_state(a.drop_first(), true, false),
        }
    }
}

/// No character of `s` can be represented in a keyword.
pub open spec fn unrepresentable(s: Seq<char>) -> bool {
    forall|i: int| 0 <= i < s.len() ==> #[trigger] keyword_piece(s[i]) is None
}

/// The keyword text of `a` followed by `t` is that of `a`, then that of `t`
/// from the state `a` left.
pub proof fn lemma_sanitize_concat(a: Seq<char>, t: Seq<char>, started: bool, gap: bool)
    ensures
        sanitize_from(a + t, started, gap) == sanitize_from(a, started, gap) + sanitize_from(
            t,
            sanitize_state(a, started, gap).0,
            sanitize_state(a, started, gap).1,
        ),
    decreases a.len(),
{
    if a.len() == 0 {
        assert(a + t =~= t);
        assert(seq![] + sanitize_from(t, started, gap) =~= sanitize_from(t, started, gap));
    } else {
        assert((a + t).drop_first() =~= a.drop_first() + t);
        assert((a + t)[0] == a[0]);
        match keyword_piece(a[0]) {
            None => {
                lemma_sanitize_concat(a.drop_first(), t, started, started);
            },
            Some(p) => {
                lemma_sanitize_concat(a.drop_first(), t, true, false);
                let st = sanitize_state(a, started, gap);
                let f: Seq<char> = if gap {
                    seq!['_']
                } else {
                    seq![]
                };
                assert(f + p + (sanitize_from(a.drop_first(), true, false) + sanitize_from(
                    t,
                    st.0,
                    st.1,
                )) =~= f + p + sanitize_from(a.drop_first(), true, false) + sanitize_from(
                    t,
                    st.0,
                    st.1,
                ));
            },
        }
    }
}

/// A run of unrepresentable characters writes nothing; a non-empty one leaves
/// a gap pending exactly when something was written before it.
pub proof fn lemma_sanitize_skipped(x: Seq<char>, started: bool, gap: bool)
    requires
        unrepresentable(x),
    ensures
        sanitize_from(x, started, gap) == Seq::<char>::empty(),
        sanitize_state(x, started, gap) == (if x.len() == 0 {
            (started, gap)
        } else {
            (started, started)
        }),
    decreases x.len(),
{
    if x.len() > 0 {
        assert(keyword_piece(x[0]) is None);
        assert forall|i: int| 0 <= i < x.drop_first().len() implies #[trigger] keyword_piece(
            x.drop_first()[i],
        ) is None by {
            assert(x.drop_first()[i] == x[i + 1]);
        }
        lemma_sanitize_skipped(x.drop_first(), started, started);
    }
}

/// Keyword text is made of atom characters.
pub proof fn lemma_sanitize_from_atoms(s: Seq<char>, started: bool, gap: bool)
    ensures
        forall|i: int|
            0 <= i < sanitize_from(s, started, gap).len() ==> is_atom_char(
                #[trigger] sanitize_from(s, started, gap)[i],
            ),
    decreases s.len(),
{
    if s.len() > 0 {
        match keyword_piece(s[0]) {
            None => {
                lemma_sanitize_from_atoms(s.drop_first(), started, started);
                assert(sanitize_from(s, started, gap) == sanitize_from(
                    s.drop_first(),
                    started,
                    started,
                ));
            },
            Some(p) => {
                lemma_sanitize_from_atoms(s.drop_first(), true, false);
                assert(forall|i: int| 0 <= i < p.len() ==> is_atom_char(#[trigger] p[i]));
                let f: Seq<char> = if gap {
                    seq!['_']
                } else {
                    seq![]
                };
                let rest = sanitize_from(s.drop_first(), true, false);
                let r = f + p + rest;
                assert(r == sanitize_from(s, started, gap));
                assert forall|i: int| 0 <= i < r.len() implies is_atom_char(#[trigger] r[i]) by {
                    if i < f.len() {
                        assert(r[i] == '_');
                    } else if i < f.len() + p.len() {
                        assert(r[i] == p[i - f.len()]);
                    } else {
                        assert(r[i] == rest[i - f.len() - p.len()]);
                    }
                }
            },
        }
    }
}

/// The keyword of a label name is a non-empty atom: ASCII letters, digits,
/// `-`, `_`, `.` and `$` only.
pub proof fn lemma_sanitized_keyword_is_atom(name: Seq<char>)
    ensures
        sanitized_keyword(name).len() > 0,
        forall|i: int|
            0 <= i < sanitized_keyword(name).len() ==> is_atom_char(
                #[trigger] sanitized_keyword(name)[i],
            ),
{
    lemma_sanitize_from_atoms(name, false, false);
}

/// A name made only of atom characters is its own keyword (Thunderbird's
/// `$label1`…`$label5` round-trip unchanged).
pub proof fn lemma_sanitize_keeps_atoms(name: Seq<char>)
    requires
        name.len() > 0,
        forall|i: int| 0 <= i < name.len() ==> is_atom_char(#[trigger] name[i]),
    ensures
        sanitized_keyword(name) == name,
{
    lemma_sanitize_from_keeps_atoms(name, false);
}

proof fn lemma_sanitize_from_keeps_atoms(s: Seq<char>, started: bool)
    requires
        forall|i: int| 0 <= i < s.len() ==> is_atom_char(#[trigger] s[i]),
    ensures
        sanitize_from(s, started, false) == s,
    decreases s.len(),
{
    if s.len() > 0 {
        assert(is_atom_char(s[0]));
        assert forall|i: int| 0 <= i < s.drop_first().len() implies is_atom_char(
            #[trigger] s.drop_first()[i],
        ) by {
            assert(s.drop_first()[i] == s[i + 1]);
        }
        lemma_sanitize_from_keeps_atoms(s.drop_first(), true);
        assert(seq![] + seq![s[0]] + s.drop_first() =~= s);
    }
}

/// Unrepresentable characters at either end of a name do not change its
/// keyword: atoms never start or end with the filler.
pub proof fn lemma_sanitize_trims_edges(x: Seq<char>, s: Seq<char>, y: Seq<char>)
    requires
        unrepresentable(x),
        unrepresentable(y),
    ensures
        sanitized_keyword(x + s + y) == sanitized_keyword(s),
{
    assert(x + s + y =~= x + (s + y));
    lemma_sanitize_concat(x, s + y, false, false);
    lemma_sanitize_skipped(x, false, false);
    lemma_sanitize_concat(s, y, false, false);
    let st = sanitize_state(s, false, false);
    lemma_sanitize_skipped(y, st.0, st.1);
    assert(Seq::<char>::empty() + sanitize_from(s + y, false, false) =~= sanitize_from(
        s + y,
        false,
        false,
    ));
    assert(sanitize_from(s, false, false) + Seq::<char>::empty() =~= sanitize_from(
        s,
        false,
        false,
    ));
}

/// A run of unrepresentable characters counts as one, however long it is:
/// every such run collapses into a single `_`.
pub proof fn lemma_sanitize_collapses_runs(a: Seq<char>, x: Seq<char>, u: char, b: Seq<char>)
    requires
        unrepresentable(x),
        x.len() > 0,
        keyword_piece(u) is None,
    ensures
        sanitized_keyword(a + x + b) == sanitized_keyword(a + seq![u] + b),
{
    assert(a + x + b =~= a + (x + b));
    assert(a + seq![u] + b =~= a + (seq![u] + b));
    lemma_sanitize_concat(a, x + b, false, false);
    lemma_sanitize_concat(a, seq![u] + b, false, false);
    let st = sanitize_state(a, false, false);
    lemma_sanitize_concat(x, b, st.0, st.1);
    lemma_sanitize_concat(seq![u], b, st.0, st.1);
    lemma_sanitize_skipped(x, st.0, st.1);
    assert(unrepresentable(seq![u]));
    lemma_sanitize_skipped(seq![u], st.0, st.1);
}

/// The fold table, letter by letter: each accented letter below is spelled
/// with the ASCII letters given beside it, in the same case (`ä`, `ö`, `ü`
/// and `ß` as in German, `æ` and `œ` as their two letters).
pub proof fn lemma_fold_table(c: char)
    ensures
        (c == 'ą' || c == 'á' || c == 'à' || c == 'â' || c == 'ã' || c == 'å') ==> folded_diacritic(c) == Some(seq!['a']),
        (c == 'Ą' || c == 'Á' || c == 'À' || c == 'Â' || c == 'Ã' || c == 'Å') ==> folded_diacritic(c) == Some(seq!['A']),
        (c == 'ä' || c == 'æ') ==> folded_diacritic(c) == Some(seq!['a', 'e']),
        (c == 'Ä' || c == 'Æ') ==> folded_diacritic(c) == Some(seq!['A', 'e']),
        (c == 'ć' || c == 'ç' || c == 'č') ==> folded_diacritic(c) == Some(seq!['c']),
        (c == 'Ć' || c == 'Ç' || c == 'Č') ==> folded_diacritic(c) == Some(seq!['C']),
        (c == 'ę' || c == 'é' || c == 'è' || c == 'ê' || c == 'ë' || c == 'ě') ==> folded_diacritic(c) == Some(seq!['e']),
        (c == 'Ę' || c == 'É' || c == 'È' || c == 'Ê' || c == 'Ë' || c == 'Ě') ==> folded_diacritic(c) == Some(seq!['E']),
        (c == 'í' || c == 'ì' || c == 'î' || c == 'ï') ==> folded_diacritic(c) == Some(seq!['i']),
        (c == 'Í' || c == 'Ì' || c == 'Î' || c == 'Ï') ==> folded_diacritic(c) == Some(seq!['I']),
        (c == 'ł') ==> folded_diacritic(c) == Some(seq!['l']),
        (c == 'Ł') ==> folded_diacritic(c) == Some(seq!['L']),
        (c == 'ń' || c == 'ñ' || c == 'ň') ==> folded_diacritic(c) == Some(seq!['n']),
        (c == 'Ń' || c == 'Ñ' || c == 'Ň') ==> folded_diacritic(c) == Some(seq!['N']),
        (c == 'ó' || c == 'ò' || c == 'ô' || c == 'õ' || c == 'ø') ==> folded_diacritic(c) == Some(seq!['o']),
        (c == 'Ó' || c == 'Ò' || c == 'Ô' || c == 'Õ' || c == 'Ø') ==> folded_diacritic(c) == Some(seq!['O']),
        (c == 'ö' || c == 'œ') ==> folded_diacritic(c) == Some(seq!['o', 'e']),
        (c == 'Ö' || c == 'Œ') ==> folded_diacritic(c) == Some(seq!['O', 'e']),
        (c == 'ś' || c == 'š') ==> folded_diacritic(c) == Some(seq!['s']),
        (c == 'Ś' || c == 'Š') ==> folded_diacritic(c) == Some(seq!['S']),
        (c == 'ß') ==> folded_diacritic(c) == Some(seq!['s', 's']),
        (c == 'ú' || c == 'ù' || c == 'û') ==> folded_diacritic(c) == Some(seq!['u']),
        (c == 'Ú' || c == 'Ù' || c == 'Û') ==> folded_diacritic(c) == Some(seq!['U']),
        (c == 'ü') ==> folded_diacritic(c) == Some(seq!['u', 'e']),
        (c == 'Ü') ==> folded_diacritic(c) == Some(seq!['U', 'e']),
        (c == 'ý' || c == 'ÿ') ==> folded_diacritic(c) == Some(seq!['y']),
        (c == 'Ý') ==> folded_diacritic(c) == Some(seq!['Y']),
        (c == 'ź' || c == 'ż' || c == 'ž') ==> folded_diacritic(c) == Some(seq!['z']),
        (c == 'Ź' || c == 'Ż' || c == 'Ž') ==> folded_diacritic(c) == Some(seq!['Z']),
{
}

/// A name made only of atom characters and of letters of the fold table gets
/// no filler: its keyword holds exactly as many `_` as the name.
pub proof fn lemma_sanitize_representable(name: Seq<char>)
    requires
        forall|i: int| 0 <= i < name.len() ==> #[trigger] keyword_piece(name[i]) is Some,
        name.len() > 0,
    ensures
        count_of(sanitized_keyword(name), '_') == count_of(name, '_'),
{
    lemma_sanitize_from_representable(name, false);
    assert(keyword_piece(name[0]) is Some);
    lemma_count_concat(keyword_piece(name[0])->0, sanitize_from(name.drop_first(), true, false), '_');
    assert(sanitize_from(name, false, false) == Seq::<char>::empty() + keyword_piece(name[0])->0
        + sanitize_from(name.drop_first(), true, false));
    assert(Seq::<char>::empty() + keyword_piece(name[0])->0 =~= keyword_piece(name[0])->0);
    assert(keyword_piece(name[0])->0.len() > 0);
}

proof fn lemma_sanitize_from_representable(s: Seq<char>, started: bool)
    requires
        forall|i: int| 0 <= i < s.len() ==> #[trigger] keyword_piece(s[i]) is Some,
    ensures
        count_of(sanitize_from(s, started, false), '_') == count_of(s, '_'),
    decreases s.len(),
{
    if s.len() > 0 {
        let c = s[0];
        assert(keyword_piece(c) is Some);
        let p = keyword_piece(c)->0;
        assert forall|i: int| 0 <= i < s.drop_first().len() implies #[trigger] keyword_piece(
            s.drop_first()[i],
        ) is Some by {
            assert(s.drop_first()[i] == s[i + 1]);
        }
        lemma_sanitize_from_representable(s.drop_first(), true);
        let rest = sanitize_from(s.drop_first(), true, false);
        assert(sanitize_from(s, started, false) == Seq::<char>::empty() + p + rest);
        assert(Seq::<char>::empty() + p + rest =~= p + rest);
        lemma_count_concat(p, rest, '_');
        assert(count_of(s, '_') == (if c == '_' { 1nat } else { 0nat }) + count_of(
            s.drop_first(),
            '_',
        ));
        if is_atom_char(c) {
            assert(p =~= seq![c]);
            assert(p[0] == c);
            assert(p.drop_first() =~= Seq::<char>::empty());
            assert(count_of(p.drop_first(), '_') == 0);
        } else {
            assert(c != '_');
            lemma_fold_table(c);
            assert(forall|i: int| 0 <= i < p.len() ==> p[i] != '_');
            lemma_count_zero(p, '_');
        }
    }
}

fn is_atom(c: char) -> (b: bool)
    ensures
        b == is_atom_char(c),
{
    ('0' <= c && c <= '9') || ('a' <= c && c <= 'z') || ('A' <= c && c <= 'Z') || c == '-' || c
        == '_' || c == '.' || c == '$'
}

/// ASCII fold for the Latin diacritics a European mailbox is likely to carry
/// (Polish, German, and the common Western European set — `ä`/`ö`/`ü`/`ß`
/// use the German transliteration convention). Hand-rolled on purpose: a full
/// Unicode normalization crate is not worth a dependency for a cosmetic
/// mapping, and anything unlisted just becomes a `_` in the caller.
fn fold_diacritic(c: char) -> (f: Option<&'static str>)
    ensures
        match f {
            Some(s) => folded_diacritic(c) == Some(s@),
            None => folded_diacritic(c) is None,
        },
{
    proof {
        reveal_strlit("A");
        reveal_strlit("Ae");
        reveal_strlit("C");
        reveal_strlit("E");
        reveal_strlit("I");
        reveal_strlit("L");
        reveal_strlit("N");
        reveal_strlit("O");
        reveal_strlit("Oe");
        reveal_strlit("S");
        reveal_strlit("U");
        reveal_strlit("Ue");
        reveal_strlit("Y");
        reveal_strlit("Z");
        reveal_strlit("a");
        reveal_strlit("ae");
        reveal_strlit("c");
        reveal_strlit("e");
        reveal_strlit("i");
        reveal_strlit("l");
        reveal_strlit("n");
        reveal_strlit("o");
        reveal_strlit("oe");
        reveal_strlit("s");
        reveal_strlit("ss");
        reveal_strlit("u");
        reveal_strlit("ue");
        reveal_strlit("y");
        reveal_strlit("z");
    }
    match c {
        'ą' | 'á' | 'à' | 'â' | 'ã' | 'å' => Some("a"),
        'Ą' | 'Á' | 'À' | 'Â' | 'Ã' | 'Å' => Some("A"),
        'ä' | 'æ' => Some("ae"),
        'Ä' | 'Æ' => Some("Ae"),
        'ć' | 'ç' | 'č' => Some("c"),
        'Ć' | 'Ç' | 'Č' => Some("C"),
        'ę' | 'é' | 'è' | 'ê' | 'ë' | 'ě' => Some("e"),
        'Ę' | 'É' | 'È' | 'Ê' | 'Ë' | 'Ě' => Some("E"),
        'í' | 'ì' | 'î' | 'ï' => Some("i"),
        'Í' | 'Ì' | 'Î' | 'Ï' => Some("I"),
        'ł' => Some("l"),
        'Ł' => Some("L"),
        'ń' | 'ñ' | 'ň' => Some("n"),
        'Ń' | 'Ñ' | 'Ň' => Some("N"),
        'ó' | 'ò' | 'ô' | 'õ' | 'ø' => Some("o"),
        'Ó' | 'Ò' | 'Ô' | 'Õ' | 'Ø' => Some("O"),
        'ö' | 'œ' => Some("oe"),
        'Ö' | 'Œ' => Some("Oe"),
        'ś' | 'š' => Some("s"),
        'Ś' | 'Š' => Some("S"),
        'ß' => Some("ss"),
        'ú' | 'ù' | 'û' => Some("u"),
        'Ú' | 'Ù' | 'Û' => Some("U"),
        'ü' => Some("ue"),
        'Ü' => Some("Ue"),
        'ý' | 'ÿ' => Some("y"),
        'Ý' => Some("Y"),
        'ź' | 'ż' | 'ž' => Some("z"),
        'Ź' | 'Ż' | 'Ž' => Some("Z"),
        _ => None,
    }
}

/// Turn a label display name into an IMAP keyword atom.
///
/// Flag keywords are atoms (RFC 3501): ASCII, no spaces, parentheses,
/// brackets, quotes, `%`, `*`, `\`, or control characters. The mapping is
/// deterministic — same name, same atom — and lossy on purpose: common Latin
/// diacritics fold to ASCII, every other run of unrepresentable characters
/// collapses into a single `_`. The registry disambiguates collisions, so
/// lossiness here is cosmetic, not semantic. `$` is kept: it is a valid atom
/// character and the conventional keyword prefix — Thunderbird's built-in
/// tags are `$label1`…`$label5`, and those must round-trip unchanged.
pub fn sanitize_keyword(name: &str) -> (keyword: String)
    ensures
        keyword@ == sanitized_keyword(name@),
        keyword@.len() > 0,
        forall|i: int| 0 <= i < keyword@.len() ==> is_atom_char(#[trigger] keyword@[i]),
{
    proof {
        lemma_sanitized_keyword_is_atom(name@);
    }
    let mut out = String::new();
    // A pending separator: set while skipping a run of unrepresentable
    // characters, flushed as one `_` only if more atom characters follow —
    // that way atoms never start or end with the filler.
    let mut gap = false;
    assert(name@.skip(0) =~= name@);
    assert(out@ + sanitize_from(name@, false, false) =~= sanitize_from(name@, false, false));
    for c in it: name.chars()
        invariant
            it.seq() == name@,
            gap ==> out@.len() > 0,
            sanitize_from(name@, false, false) == out@ + sanitize_from(
                name@.skip(it.index() as int),
                out@.len() > 0,
                gap,
            ),
    {
        let ghost s = name@.skip(it.index() as int);
        let ghost old_out = out@;
        assert(s[0] == c);
        assert(s.drop_first() =~= name@.skip(it.index() + 1));
        if is_atom(c) {
            if gap {
                push_char(&mut out, '_');
                gap = false;
            }
            push_char(&mut out, c);
        } else {
            match fold_diacritic(c) {
                Some(f) => {
                    if gap {
                        push_char(&mut out, '_');
                        gap = false;
                    }
                    out.append(f);
                },
                None => {
                    gap = !out.as_str().is_empty();
                },
            }
        }
        assert(keyword_piece(c) matches Some(p) ==> p.len() > 0);
    }
    assert(name@.skip(name@.len() as int) =~= Seq::<char>::empty());
    if out.as_str().is_empty() {
        proof {
            reveal_strlit("Label");
        }
        "Label".to_string()
    } else {
        out
    }
}

} // verus!
