//! Tuta labels ↔ IMAP keywords.
//!
//! Tuta models labels as `MailSet`s with `kind == Label`; IMAP models the same
//! concept as custom per-message flags — "keywords" (RFC 3501). The
//! [`LabelRegistry`] owns the mapping between the two. It is rebuilt by the
//! syncer / event handler whenever the server's label list changes, lives in
//! the `MailStore`, and is only ever *read* by the IMAP layer (store-backed
//! principle: no API calls on the IMAP read path).
use vstd::prelude::*;

use crate::text::{
    ascii_lower, decimal, eq_ignore_ascii_case, lemma_ascii_lower_eq, lemma_decimal_digits,
    lemma_decimal_injective, lemma_lex_lt_is_code_point_order, lemma_lex_lt_total, lex_lt,
    precedes_by_code_point, push_char, push_decimal, to_ascii_lowercase,
};

pub mod order;
pub mod sanitize;

pub use sanitize::sanitize_keyword;

use order::{
    distinct_ids, is_sorted_by_id, lemma_distinct_ids_permuted, lemma_sort_by_id,
    lemma_sort_by_id_len, lemma_sorted_unique, sort_by_id, sort_labels_by_id,
};
use sanitize::{is_atom_char, lemma_sanitized_keyword_is_atom, sanitized_keyword};

verus! {

/// A Tuta label (`MailSet` with `kind == Label`) as the bridge sees it.
#[derive(Clone, Debug)]
pub struct LabelInfo {
    /// `MailSet` element id — the stable key `Mail.sets` references.
    pub id: String,
    /// `MailSet` list id — with `id` it forms the label's `IdTuple`, which
    /// `ApplyLabelService` takes on the write path.
    pub list_id: String,
    /// Display name as entered in the Tuta app, e.g. `Package Tracking`.
    pub name: String,
    /// `#rrggbb` display color (kept for the Apple Mail flag mapping, phase 4).
    pub color: Option<String>,
}

/// What a [`LabelInfo`] holds, as character sequences.
pub struct LabelInfoView {
    pub id: Seq<char>,
    pub list_id: Seq<char>,
    pub name: Seq<char>,
    pub color: Option<Seq<char>>,
}

impl View for LabelInfo {
    type V = LabelInfoView;

    open spec fn view(&self) -> LabelInfoView {
        LabelInfoView {
            id: self.id@,
            list_id: self.list_id@,
            name: self.name@,
            color: match self.color {
                Some(c) => Some(c@),
                None => None,
            },
        }
    }
}

/// A label's full `IdTuple`: its list id and its element id, the pair that
/// the Tuta SDK's `IdTupleGenerated` carries.
#[derive(Clone, Debug)]
pub struct IdTuple {
    pub list_id: String,
    pub element_id: String,
}

impl LabelInfo {
    /// The label's full `IdTuple`, as `ApplyLabelService` and `Mail.sets`
    /// reference it.
    pub fn id_tuple(&self) -> (t: IdTuple)
        ensures
            t.list_id@ == self.list_id@,
            t.element_id@ == self.id@,
    {
        IdTuple { list_id: self.list_id.clone(), element_id: self.id.clone() }
    }
}

/// The views of a sequence of labels.
pub open spec fn label_views(labels: Seq<LabelInfo>) -> Seq<LabelInfoView> {
    labels.map_values(|l: LabelInfo| l@)
}

/// Color for bridge-created labels. Empty means "no explicit color": the
/// Tuta apps render it with their theme default — the exact value the app
/// itself submits when the user creates a label without touching the color
/// picker.
pub const DEFAULT_LABEL_COLOR: &'static str = "";

/// One label with its assigned IMAP keyword atom.
#[derive(Clone, Debug)]
pub struct LabelEntry {
    pub info: LabelInfo,
    pub keyword: String,
}

/// What a [`LabelEntry`] holds.
pub struct LabelEntryView {
    pub info: LabelInfoView,
    pub keyword: Seq<char>,
}

impl View for LabelEntry {
    type V = LabelEntryView;

    open spec fn view(&self) -> LabelEntryView {
        LabelEntryView { info: self.info@, keyword: self.keyword@ }
    }
}

/// The views of a sequence of entries.
pub open spec fn entry_views(entries: Seq<LabelEntry>) -> Seq<LabelEntryView> {
    entries.map_values(|e: LabelEntry| e@)
}

/// The views of a sequence of strings.
pub open spec fn string_views(strings: Seq<String>) -> Seq<Seq<char>> {
    strings.map_values(|s: String| s@)
}

/// The `n`-th keyword tried for a label whose sanitized name is `base`: the
/// bare atom first, then `base_2`, `base_3`, ….
pub open spec fn candidate_keyword(base: Seq<char>, n: nat) -> Seq<char> {
    if n <= 1 {
        base
    } else {
        base + seq!['_'] + decimal(n)
    }
}

/// The first suffix number from `n` on whose candidate keyword, in lower
/// case, is not `taken` yet.
pub open spec fn first_free_suffix(base: Seq<char>, taken: Seq<Seq<char>>, n: nat) -> nat
    decreases taken.len() + 2 - n,
{
    if n > taken.len() + 1 {
        n
    } else if taken.contains(ascii_lower(candidate_keyword(base, n))) {
        first_free_suffix(base, taken, n + 1)
    } else {
        n
    }
}

/// The keywords of entries in lower case: the form in which clients, which
/// compare flags case-insensitively, tell them apart.
pub open spec fn lowered_keywords(entries: Seq<LabelEntryView>) -> Seq<Seq<char>> {
    entries.map_values(|e: LabelEntryView| ascii_lower(e.keyword))
}

/// The entries for labels taken in the given order: each label gets the first
/// candidate keyword that does not collide, case-insensitively, with one
/// given before it.
pub open spec fn assigned_entries(sorted: Seq<LabelInfoView>) -> Seq<LabelEntryView>
    decreases sorted.len(),
{
    if sorted.len() == 0 {
        seq![]
    } else {
        let prev = assigned_entries(sorted.drop_last());
        let info = sorted.last();
        let base = sanitized_keyword(info.name);
        let n = first_free_suffix(base, lowered_keywords(prev), 1);
        prev.push(LabelEntryView { info: info, keyword: candidate_keyword(base, n) })
    }
}

/// The entries of the registry built from `labels`: the labels in order of
/// their ids, each with its keyword.
pub open spec fn registry_entries(labels: Seq<LabelInfoView>) -> Seq<LabelEntryView> {
    assigned_entries(sort_by_id(labels))
}

/// The position of the last entry that `matches`.
pub open spec fn last_matching(
    entries: Seq<LabelEntryView>,
    matches: spec_fn(LabelEntryView) -> bool,
) -> Option<int>
    decreases entries.len(),
{
    if entries.len() == 0 {
        None
    } else if matches(entries.last()) {
        Some(entries.len() - 1)
    } else {
        last_matching(entries.drop_last(), matches)
    }
}

/// Whether an entry is the one of the label with element id `id`.
pub open spec fn has_id(id: Seq<char>) -> spec_fn(LabelEntryView) -> bool {
    |e: LabelEntryView| e.info.id == id
}

/// Whether an entry's keyword is `keyword` up to ASCII case.
pub open spec fn has_keyword(keyword: Seq<char>) -> spec_fn(LabelEntryView) -> bool {
    |e: LabelEntryView| ascii_lower(e.keyword) == ascii_lower(keyword)
}

/// The entry whose element id is `id`, the last one if several are.
pub open spec fn entry_with_id(entries: Seq<LabelEntryView>, id: Seq<char>) -> Option<int> {
    last_matching(entries, has_id(id))
}

/// The entry whose keyword is `keyword` up to ASCII case, the last one if
/// several are.
pub open spec fn entry_with_keyword(entries: Seq<LabelEntryView>, keyword: Seq<char>) -> Option<
    int,
> {
    last_matching(entries, has_keyword(keyword))
}

/// Scanning from the end: past entries that do not match, the last match is
/// the last match among those before.
proof fn lemma_last_matching_scan(
    entries: Seq<LabelEntryView>,
    matches: spec_fn(LabelEntryView) -> bool,
    i: int,
)
    requires
        0 <= i <= entries.len(),
        forall|j: int| i <= j < entries.len() ==> !matches(#[trigger] entries[j]),
    ensures
        last_matching(entries, matches) == last_matching(entries.take(i), matches),
    decreases entries.len(),
{
    if i == entries.len() {
        assert(entries.take(i) =~= entries);
    } else {
        assert(!matches(entries[entries.len() - 1]));
        lemma_last_matching_scan(entries.drop_last(), matches, i);
        assert(entries.drop_last().take(i) =~= entries.take(i));
    }
}

/// ASCII folding keeps `_` and digits, so a suffixed candidate folds to the
/// folded base with the same suffix.
proof fn lemma_lower_candidate(base: Seq<char>, n: nat)
    requires
        n >= 2,
    ensures
        ascii_lower(candidate_keyword(base, n)) == ascii_lower(base) + seq!['_'] + decimal(n),
{
    lemma_decimal_digits(n);
    let c = candidate_keyword(base, n);
    let r = ascii_lower(base) + seq!['_'] + decimal(n);
    assert forall|i: int| 0 <= i < c.len() implies ascii_lower(c)[i] == r[i] by {
        if i > base.len() {
            assert(c[i] == decimal(n)[i - base.len() - 1]);
        }
    }
    assert(ascii_lower(c) =~= r);
}

/// Different suffix numbers give candidates that differ even up to case.
proof fn lemma_candidates_distinct(base: Seq<char>, j: nat, k: nat)
    requires
        1 <= j < k,
    ensures
        ascii_lower(candidate_keyword(base, j)) != ascii_lower(candidate_keyword(base, k)),
{
    lemma_lower_candidate(base, k);
    lemma_decimal_digits(k);
    let lb = ascii_lower(base);
    if j >= 2 {
        lemma_lower_candidate(base, j);
        lemma_decimal_digits(j);
        if ascii_lower(candidate_keyword(base, j)) == ascii_lower(candidate_keyword(base, k)) {
            let a = lb + seq!['_'] + decimal(j);
            let b = lb + seq!['_'] + decimal(k);
            assert(a.skip(lb.len() + 1int) =~= decimal(j));
            assert(b.skip(lb.len() + 1int) =~= decimal(k));
            lemma_decimal_injective(j, k);
        }
    } else {
        assert(ascii_lower(candidate_keyword(base, j)).len() == base.len());
    }
}

/// Candidates one to `n` that are all taken need `n` taken keywords.
proof fn lemma_taken_bound(base: Seq<char>, taken: Seq<Seq<char>>, n: nat)
    requires
        forall|j: nat|
            1 <= j <= n ==> taken.contains(#[trigger] ascii_lower(candidate_keyword(base, j))),
    ensures
        n <= taken.len(),
    decreases n,
{
    if n > 0 {
        let last = ascii_lower(candidate_keyword(base, n));
        assert(taken.contains(last));
        let k = choose|k: int| 0 <= k < taken.len() && taken[k] == last;
        let rest = taken.remove(k);
        assert forall|j: nat| 1 <= j <= (n - 1) as nat implies rest.contains(
            #[trigger] ascii_lower(candidate_keyword(base, j)),
        ) by {
            let v = ascii_lower(candidate_keyword(base, j));
            assert(taken.contains(v));
            let m = choose|m: int| 0 <= m < taken.len() && taken[m] == v;
            lemma_candidates_distinct(base, j, n);
            if m < k {
                assert(rest[m] == v);
            } else {
                assert(rest[m - 1] == v);
            }
        }
        lemma_taken_bound(base, rest, (n - 1) as nat);
    }
}

/// The suffix that `first_free_suffix` picks is free, and every one before
/// it, from `n` on, is taken.
proof fn lemma_first_free_suffix(base: Seq<char>, taken: Seq<Seq<char>>, n: nat)
    requires
        1 <= n,
        forall|j: nat|
            1 <= j < n ==> taken.contains(#[trigger] ascii_lower(candidate_keyword(base, j))),
    ensures
        n <= first_free_suffix(base, taken, n) <= taken.len() + 1,
        !taken.contains(ascii_lower(candidate_keyword(base, first_free_suffix(base, taken, n)))),
        forall|j: nat|
            1 <= j < first_free_suffix(base, taken, n) ==> taken.contains(
                #[trigger] ascii_lower(candidate_keyword(base, j)),
            ),
    decreases taken.len() + 2 - n,
{
    if n > taken.len() + 1 {
        lemma_taken_bound(base, taken, (n - 1) as nat);
    } else if taken.contains(ascii_lower(candidate_keyword(base, n))) {
        lemma_first_free_suffix(base, taken, n + 1);
    }
}

/// `base` followed by `_` and the numeral of `n`.
fn suffixed_keyword(base: &String, n: u32) -> (keyword: String)
    requires
        n >= 2,
    ensures
        keyword@ == candidate_keyword(base@, n as nat),
{
    let mut keyword = base.clone();
    push_char(&mut keyword, '_');
    push_decimal(&mut keyword, n);
    assert(base@.push('_') =~= base@ + seq!['_']);
    keyword
}

/// Whether `s` is one of `strings`.
fn contains_string(strings: &Vec<String>, s: &String) -> (found: bool)
    ensures
        found == string_views(strings@).contains(s@),
{
    let n = strings.len();
    let mut i: usize = 0;
    while i < n
        invariant
            n == strings@.len(),
            i <= n,
            forall|j: int| 0 <= j < i ==> strings@[j]@ != s@,
        decreases n - i,
    {
        if strings[i] == *s {
            assert(string_views(strings@)[i as int] == s@);
            return true;
        }
        i = i + 1;
    }
    assert forall|j: int| 0 <= j < n implies string_views(strings@)[j] != s@ by {
        assert(string_views(strings@)[j] == strings@[j]@);
    }
    false
}

/// The first candidate keyword for `base` that is free of `taken`, and its
/// lower-case form. Clients compare flags case-insensitively (RFC 3501
/// semantics; Thunderbird lowercases keywords), so two labels whose atoms
/// differ only in case would be indistinguishable — that is a collision too.
fn free_keyword(base: &String, taken: &Vec<String>) -> (found: (String, String))
    requires
        taken@.len() < u32::MAX,
    ensures
        found.0@ == candidate_keyword(base@, first_free_suffix(base@, string_views(taken@), 1)),
        found.1@ == ascii_lower(found.0@),
{
    let ghost t = string_views(taken@);
    let mut n: u32 = 1;
    let mut keyword = base.clone();
    let mut lowered = to_ascii_lowercase(keyword.as_str());
    while contains_string(taken, &lowered)
        invariant
            t == string_views(taken@),
            t.len() == taken@.len(),
            taken@.len() < u32::MAX,
            1 <= n <= t.len() + 1,
            keyword@ == candidate_keyword(base@, n as nat),
            lowered@ == ascii_lower(keyword@),
            forall|j: nat|
                1 <= j < n ==> t.contains(#[trigger] ascii_lower(candidate_keyword(base@, j))),
            first_free_suffix(base@, t, 1) == first_free_suffix(base@, t, n as nat),
        decreases t.len() + 1 - n,
    {
        proof {
            lemma_taken_bound(base@, t, n as nat);
        }
        n = n + 1;
        keyword = suffixed_keyword(base, n);
        lowered = to_ascii_lowercase(keyword.as_str());
    }
    (keyword, lowered)
}

/// Bidirectional label ↔ keyword map. Lookups go through the registry in both
/// directions; keyword atoms are never "de-sanitized" back into label names.
#[derive(Clone, Debug)]
pub struct LabelRegistry {
    entries: Vec<LabelEntry>,
}

impl View for LabelRegistry {
    type V = Seq<LabelEntryView>;

    closed spec fn view(&self) -> Seq<LabelEntryView> {
        entry_views(self.entries@)
    }
}

impl Default for LabelRegistry {
    fn default() -> (registry: Self)
        ensures
            registry@ == Seq::<LabelEntryView>::empty(),
    {
        let registry = LabelRegistry { entries: Vec::new() };
        assert(registry@ =~= Seq::<LabelEntryView>::empty());
        registry
    }
}

impl LabelRegistry {
    /// The registry of `labels`: each label, in order of element id, with the
    /// first of its candidate keywords (sanitized name, then `_2`, `_3`, …)
    /// that no label before it has taken, compared case-insensitively.
    pub fn new(labels: Vec<LabelInfo>) -> (registry: Self)
        requires
            labels@.len() <= u32::MAX,
        ensures
            registry@ == registry_entries(label_views(labels@)),
    {
        let ghost all = label_views(labels@);
        // Sort by element id — Tuta's generated ids are time-ordered, so this
        // is creation order. That makes collision suffixes deterministic
        // across restarts: the oldest label keeps the bare atom, later
        // clashes get `_2`, `_3`, … regardless of enumeration order.
        let mut rest = sort_labels_by_id(labels);
        let ghost sorted = sort_by_id(all);
        proof {
            lemma_sort_by_id_len(all);
        }
        let mut entries: Vec<LabelEntry> = Vec::new();
        let mut taken: Vec<String> = Vec::new();
        let ghost mut k: int = 0;
        assert(sorted.take(0) =~= Seq::<LabelInfoView>::empty());
        assert(label_views(rest@) =~= sorted.skip(0));
        assert(entry_views(entries@) =~= Seq::<LabelEntryView>::empty());
        assert(string_views(taken@) =~= Seq::<Seq<char>>::empty());
        while rest.len() > 0
            invariant
                0 <= k <= sorted.len(),
                sorted.len() == all.len(),
                all.len() <= u32::MAX,
                label_views(rest@) == sorted.skip(k),
                entry_views(entries@) == assigned_entries(sorted.take(k)),
                string_views(taken@) == lowered_keywords(entry_views(entries@)),
                taken@.len() == k,
            decreases rest@.len(),
        {
            let ghost old_raw = rest@;
            let ghost old_rest = label_views(rest@);
            assert(old_rest.len() == rest@.len());
            let info = rest.remove(0);
            assert(old_rest[0] == info@);
            assert(info@ == sorted[k]);
            let base = sanitize_keyword(info.name.as_str());
            let (keyword, lowered) = free_keyword(&base, &taken);
            let ghost prev = entry_views(entries@);
            let ghost old_taken = taken@;
            let ghost kw = keyword@;
            let ghost lw = lowered@;
            taken.push(lowered);
            entries.push(LabelEntry { info, keyword });
            assert(sorted.take(k + 1).drop_last() =~= sorted.take(k));
            assert(entry_views(entries@) =~= prev.push(entries@[k]@));
            assert(string_views(taken@) =~= string_views(old_taken).push(lw));
            assert(entries@[k]@.keyword == kw);
            assert(lowered_keywords(prev.push(entries@[k]@)) =~= lowered_keywords(prev).push(
                ascii_lower(kw),
            ));
            assert(string_views(taken@) =~= lowered_keywords(entry_views(entries@)));
            assert(rest@ =~= old_raw.drop_first());
            assert forall|i: int| 0 <= i < rest@.len() implies label_views(rest@)[i] == sorted.skip(
                k + 1,
            )[i] by {
                assert(old_rest[i + 1] == old_raw[i + 1]@);
            }
            assert(label_views(rest@) =~= sorted.skip(k + 1));
            proof {
                k = k + 1;
            }
        }
        assert(sorted.take(k) =~= sorted);
        LabelRegistry { entries }
    }

    /// Keyword atoms in registry order, for the FLAGS advertisement.
    pub fn keywords(&self) -> (keywords: Vec<&str>)
        ensures
            keywords@.map_values(|k: &str| k@) == self@.map_values(|e: LabelEntryView| e.keyword),
    {
        let n = self.entries.len();
        let mut keywords: Vec<&str> = Vec::new();
        let mut i: usize = 0;
        while i < n
            invariant
                n == self.entries@.len(),
                i <= n,
                keywords@.len() == i,
                forall|j: int| 0 <= j < i ==> keywords@[j]@ == self.entries@[j].keyword@,
            decreases n - i,
        {
            keywords.push(self.entries[i].keyword.as_str());
            i = i + 1;
        }
        assert(keywords@.map_values(|k: &str| k@) =~= self@.map_values(|e: LabelEntryView| e.keyword));
        keywords
    }

    /// Keyword for a label's `MailSet` element id. `None` when the id is not
    /// a known label — `Mail.sets` also carries the mail's folder, which is
    /// exactly the entry this lookup is meant to skip.
    pub fn keyword_for_label(&self, label_element_id: &str) -> (keyword: Option<&str>)
        ensures
            match entry_with_id(self@, label_element_id@) {
                Some(i) => keyword is Some && keyword->0@ == self@[i].keyword,
                None => keyword is None,
            },
    {
        let key = label_element_id.to_owned();
        let ghost matches = has_id(label_element_id@);
        let mut i = self.entries.len();
        while i > 0
            invariant
                i <= self.entries@.len(),
                key@ == label_element_id@,
                matches == has_id(label_element_id@),
                forall|j: int| i <= j < self@.len() ==> !matches(#[trigger] self@[j]),
            decreases i,
        {
            i = i - 1;
            assert(self@[i as int] == self.entries@[i as int]@);
            if self.entries[i].info.id == key {
                proof {
                    lemma_last_matching_scan(self@, matches, i + 1);
                }
                return Some(self.entries[i].keyword.as_str());
            }
            assert(!matches(self@[i as int]));
        }
        proof {
            lemma_last_matching_scan(self@, matches, 0);
        }
        None
    }

    /// Label for a keyword atom a client sent in STORE. Case-insensitive:
    /// flags compare case-insensitively per RFC 3501, and Thunderbird
    /// lowercases every keyword it stores.
    pub fn label_for_keyword(&self, keyword: &str) -> (label: Option<&LabelInfo>)
        ensures
            match entry_with_keyword(self@, keyword@) {
                Some(i) => label is Some && label->0@ == self@[i].info,
                None => label is None,
            },
    {
        let key = to_ascii_lowercase(keyword);
        let ghost matches = has_keyword(keyword@);
        let mut i = self.entries.len();
        while i > 0
            invariant
                i <= self.entries@.len(),
                key@ == ascii_lower(keyword@),
                matches == has_keyword(keyword@),
                forall|j: int| i <= j < self@.len() ==> !matches(#[trigger] self@[j]),
            decreases i,
        {
            i = i - 1;
            assert(self@[i as int] == self.entries@[i as int]@);
            if to_ascii_lowercase(self.entries[i].keyword.as_str()) == key {
                proof {
                    lemma_last_matching_scan(self@, matches, i + 1);
                }
                return Some(&self.entries[i].info);
            }
            assert(!matches(self@[i as int]));
        }
        proof {
            lemma_last_matching_scan(self@, matches, 0);
        }
        None
    }

    /// The entries, in registry order.
    pub fn entries(&self) -> (entries: &[LabelEntry])
        ensures
            entry_views(entries@) == self@,
    {
        self.entries.as_slice()
    }

    /// Whether the registry has no labels.
    pub fn is_empty(&self) -> (empty: bool)
        ensures
            empty == (self@.len() == 0),
    {
        self.entries.len() == 0
    }
}

/// `keyword` is one of the candidates for a label named `name`: its
/// sanitized name, bare or with a suffix `_2`, `_3`, ….
pub open spec fn is_keyword_for(keyword: Seq<char>, name: Seq<char>) -> bool {
    exists|n: nat| n >= 1 && keyword == candidate_keyword(sanitized_keyword(name), n)
}

/// Assigning keywords keeps the labels in the order given, gives each one of
/// its own candidates, and no two of them the same keyword up to case.
proof fn lemma_assigned_entries(sorted: Seq<LabelInfoView>)
    ensures
        assigned_entries(sorted).len() == sorted.len(),
        forall|i: int| 0 <= i < sorted.len() ==> #[trigger] assigned_entries(sorted)[i].info == sorted[i],
        forall|i: int|
            0 <= i < sorted.len() ==> is_keyword_for(
                #[trigger] assigned_entries(sorted)[i].keyword,
                sorted[i].name,
            ),
        forall|i: int, j: int|
            0 <= i < j < sorted.len() ==> ascii_lower(#[trigger] assigned_entries(sorted)[i].keyword)
                != ascii_lower(#[trigger] assigned_entries(sorted)[j].keyword),
        forall|i: int|
            0 <= i < sorted.len() && !lowered_keywords(assigned_entries(sorted).take(i)).contains(
                ascii_lower(sanitized_keyword(sorted[i].name)),
            ) ==> #[trigger] assigned_entries(sorted)[i].keyword == sanitized_keyword(
                sorted[i].name,
            ),
    decreases sorted.len(),
{
    if sorted.len() > 0 {
        let prev_sorted = sorted.drop_last();
        lemma_assigned_entries(prev_sorted);
        let prev = assigned_entries(prev_sorted);
        let e = assigned_entries(sorted);
        let info = sorted.last();
        let base = sanitized_keyword(info.name);
        let taken = lowered_keywords(prev);
        lemma_first_free_suffix(base, taken, 1);
        let n = first_free_suffix(base, taken, 1);
        assert(e == prev.push(LabelEntryView { info: info, keyword: candidate_keyword(base, n) }));
        assert(is_keyword_for(e[sorted.len() - 1].keyword, info.name));
        assert forall|i: int| 0 <= i < sorted.len() implies is_keyword_for(
            #[trigger] e[i].keyword,
            sorted[i].name,
        ) by {
            if i < prev.len() {
                assert(e[i] == prev[i]);
                assert(sorted[i] == prev_sorted[i]);
            }
        }
        assert forall|i: int, j: int| 0 <= i < j < sorted.len() implies ascii_lower(
            #[trigger] e[i].keyword,
        ) != ascii_lower(#[trigger] e[j].keyword) by {
            assert(e[i] == prev[i]);
            if j == prev.len() {
                assert(taken[i] == ascii_lower(prev[i].keyword));
            } else {
                assert(e[j] == prev[j]);
            }
        }
        assert(e.take(prev.len() as int) =~= prev);
        assert forall|i: int|
            0 <= i < sorted.len() && !lowered_keywords(e.take(i)).contains(
                ascii_lower(sanitized_keyword(sorted[i].name)),
            ) implies #[trigger] e[i].keyword == sanitized_keyword(sorted[i].name) by {
            if i < prev.len() {
                assert(e[i] == prev[i]);
                assert(sorted[i] == prev_sorted[i]);
                assert(e.take(i) =~= prev.take(i));
            }
        }
    }
}

/// The entries assigned to the first `k` labels are the first `k` entries.
proof fn lemma_assigned_prefix(sorted: Seq<LabelInfoView>, k: int)
    requires
        0 <= k <= sorted.len(),
    ensures
        assigned_entries(sorted.take(k)) == assigned_entries(sorted).take(k),
    decreases sorted.len(),
{
    lemma_assigned_entries(sorted);
    if k == sorted.len() {
        assert(sorted.take(k) =~= sorted);
        assert(assigned_entries(sorted).take(k) =~= assigned_entries(sorted));
    } else {
        let init = sorted.drop_last();
        assert(sorted.take(k) =~= init.take(k));
        lemma_assigned_prefix(init, k);
        lemma_assigned_entries(init);
        assert(assigned_entries(sorted).take(k) =~= assigned_entries(init).take(k));
    }
}

/// Each label gets the first of its candidates that is free: its keyword is
/// its sanitized name with some suffix number `n` (none for `n` = 1), every
/// candidate before it is, up to ASCII case, the keyword of an older entry,
/// and its own is not.
pub proof fn lemma_registry_first_free(labels: Seq<LabelInfoView>)
    ensures
        forall|i: int|
            #![trigger registry_entries(labels)[i]]
            0 <= i < labels.len() ==> exists|n: nat|
                #![trigger candidate_keyword(sanitized_keyword(registry_entries(labels)[i].info.name), n)]
                {
                    &&& n >= 1
                    &&& candidate_keyword(sanitized_keyword(registry_entries(labels)[i].info.name), n)
                        == registry_entries(labels)[i].keyword
                    &&& forall|j: nat|
                        1 <= j < n ==> lowered_keywords(registry_entries(labels).take(i)).contains(
                            #[trigger] ascii_lower(
                                candidate_keyword(
                                    sanitized_keyword(registry_entries(labels)[i].info.name),
                                    j,
                                ),
                            ),
                        )
                    &&& !lowered_keywords(registry_entries(labels).take(i)).contains(
                        ascii_lower(registry_entries(labels)[i].keyword),
                    )
                },
{
    let e = registry_entries(labels);
    let sorted = sort_by_id(labels);
    lemma_sort_by_id_len(labels);
    lemma_assigned_entries(sorted);
    assert forall|i: int| #![trigger e[i]] 0 <= i < labels.len() implies exists|n: nat|
        #![trigger candidate_keyword(sanitized_keyword(e[i].info.name), n)]
        {
            &&& n >= 1
            &&& candidate_keyword(sanitized_keyword(e[i].info.name), n) == e[i].keyword
            &&& forall|j: nat|
                1 <= j < n ==> lowered_keywords(e.take(i)).contains(
                    #[trigger] ascii_lower(candidate_keyword(sanitized_keyword(e[i].info.name), j)),
                )
            &&& !lowered_keywords(e.take(i)).contains(ascii_lower(e[i].keyword))
        } by {
        let part = sorted.take(i + 1);
        lemma_assigned_prefix(sorted, i + 1);
        lemma_assigned_prefix(sorted, i);
        assert(part.drop_last() =~= sorted.take(i));
        assert(part.last() == sorted[i]);
        assert(e[i].info == sorted[i]);
        let base = sanitized_keyword(e[i].info.name);
        let older = lowered_keywords(e.take(i));
        assert(assigned_entries(part.drop_last()) == e.take(i));
        lemma_first_free_suffix(base, older, 1);
        let n = first_free_suffix(base, older, 1);
        assert(assigned_entries(part) == e.take(i).push(
            LabelEntryView { info: sorted[i], keyword: candidate_keyword(base, n) },
        ));
        assert(e.take(i + 1)[i] == e[i]);
        assert(candidate_keyword(base, n) == e[i].keyword);
    }
}

/// The registry built from `labels` holds exactly those labels, in order of
/// their ids; each keyword is one of its label's candidates (the sanitized
/// name, or it with a suffix `_n`), and no two keywords are the same up to
/// ASCII case, so clients that compare flags case-insensitively can tell all
/// labels apart. A label whose bare atom no older label has taken keeps it.
pub proof fn lemma_registry_entries(labels: Seq<LabelInfoView>)
    ensures
        registry_entries(labels).len() == labels.len(),
        registry_entries(labels).map_values(|e: LabelEntryView| e.info) == sort_by_id(labels),
        is_sorted_by_id(sort_by_id(labels)),
        sort_by_id(labels).to_multiset() == labels.to_multiset(),
        forall|i: int|
            0 <= i < labels.len() ==> is_keyword_for(
                #[trigger] registry_entries(labels)[i].keyword,
                registry_entries(labels)[i].info.name,
            ),
        forall|i: int, j: int|
            0 <= i < j < labels.len() ==> ascii_lower(#[trigger] registry_entries(labels)[i].keyword)
                != ascii_lower(#[trigger] registry_entries(labels)[j].keyword),
        forall|i: int|
            0 <= i < labels.len() && !lowered_keywords(registry_entries(labels).take(i)).contains(
                ascii_lower(sanitized_keyword(registry_entries(labels)[i].info.name)),
            ) ==> #[trigger] registry_entries(labels)[i].keyword == sanitized_keyword(
                registry_entries(labels)[i].info.name,
            ),
        forall|i: int|
            0 <= i < labels.len() ==> #[trigger] registry_entries(labels)[i].keyword.len() > 0,
        forall|i: int, c: int|
            0 <= i < labels.len() && 0 <= c < registry_entries(labels)[i].keyword.len()
                ==> is_atom_char(#[trigger] registry_entries(labels)[i].keyword[c]),
{
    let sorted = sort_by_id(labels);
    let e = registry_entries(labels);
    lemma_sort_by_id_len(labels);
    lemma_sort_by_id(labels);
    lemma_assigned_entries(sorted);
    assert(e.map_values(|x: LabelEntryView| x.info) =~= sorted);
    assert forall|i: int| 0 <= i < labels.len() implies #[trigger] e[i].keyword.len() > 0 && (
    forall|c: int| 0 <= c < e[i].keyword.len() ==> is_atom_char(#[trigger] e[i].keyword[c])) by {
        assert(is_keyword_for(e[i].keyword, e[i].info.name));
        let n = choose|n: nat|
            n >= 1 && e[i].keyword == candidate_keyword(sanitized_keyword(e[i].info.name), n);
        lemma_candidate_is_atom(e[i].info.name, n);
    }
}

/// Every candidate keyword for a name is a non-empty atom.
proof fn lemma_candidate_is_atom(name: Seq<char>, n: nat)
    ensures
        candidate_keyword(sanitized_keyword(name), n).len() > 0,
        forall|c: int|
            0 <= c < candidate_keyword(sanitized_keyword(name), n).len() ==> is_atom_char(
                #[trigger] candidate_keyword(sanitized_keyword(name), n)[c],
            ),
{
    let base = sanitized_keyword(name);
    lemma_sanitized_keyword_is_atom(name);
    lemma_decimal_digits(n);
    let k = candidate_keyword(base, n);
    if n >= 2 {
        assert forall|c: int| 0 <= c < k.len() implies is_atom_char(#[trigger] k[c]) by {
            if c < base.len() {
                assert(k[c] == base[c]);
            } else if c > base.len() {
                assert(k[c] == decimal(n)[c - base.len() - 1]);
            }
        }
    }
}

/// What `last_matching` finds matches, and where it finds nothing nothing
/// does.
pub proof fn lemma_last_matching(
    entries: Seq<LabelEntryView>,
    matches: spec_fn(LabelEntryView) -> bool,
)
    ensures
        last_matching(entries, matches) matches Some(i) ==> 0 <= i < entries.len() && matches(
            entries[i],
        ),
        last_matching(entries, matches) is None ==> forall|j: int|
            0 <= j < entries.len() ==> !matches(#[trigger] entries[j]),
    decreases entries.len(),
{
    if entries.len() > 0 {
        let init = entries.drop_last();
        lemma_last_matching(init, matches);
        if last_matching(entries, matches) is None {
            assert(!matches(entries[entries.len() - 1]));
            assert forall|j: int| 0 <= j < entries.len() implies !matches(#[trigger] entries[j]) by {
                if j < init.len() {
                    assert(init[j] == entries[j]);
                }
            }
        }
    }
}

/// The registry has an entry with a given element id exactly when one of
/// the labels it was built from has that id; so a folder id, which no label
/// has, finds nothing.
pub proof fn lemma_registry_id_lookup_complete(labels: Seq<LabelInfoView>, id: Seq<char>)
    ensures
        (entry_with_id(registry_entries(labels), id) is Some) == (exists|j: int|
            0 <= j < labels.len() && (#[trigger] labels[j]).id == id),
        entry_with_id(registry_entries(labels), id) matches Some(i) ==> registry_entries(
            labels,
        )[i].info.id == id,
{
    broadcast use vstd::seq_lib::group_to_multiset_ensures;

    let e = registry_entries(labels);
    let sorted = sort_by_id(labels);
    lemma_registry_entries(labels);
    lemma_assigned_entries(sorted);
    lemma_last_matching(e, has_id(id));
    if exists|j: int| 0 <= j < labels.len() && (#[trigger] labels[j]).id == id {
        let j = choose|j: int| 0 <= j < labels.len() && (#[trigger] labels[j]).id == id;
        assert(labels.to_multiset().count(labels[j]) > 0);
        assert(sorted.contains(labels[j]));
        let k = choose|k: int| 0 <= k < sorted.len() && sorted[k] == labels[j];
        assert(e[k].info == sorted[k]);
        assert(has_id(id)(e[k]));
    }
    if entry_with_id(e, id) is Some {
        let i = entry_with_id(e, id)->0;
        assert(e[i].info == sorted[i]);
        assert(sorted.to_multiset().count(sorted[i]) > 0);
        assert(labels.contains(sorted[i]));
    }
}

/// Looking up any spelling of an entry's keyword that is equal to it up to
/// ASCII case finds that entry.
pub proof fn lemma_registry_keyword_lookup(labels: Seq<LabelInfoView>, i: int, keyword: Seq<char>)
    requires
        0 <= i < registry_entries(labels).len(),
        ascii_lower(keyword) == ascii_lower(registry_entries(labels)[i].keyword),
    ensures
        entry_with_keyword(registry_entries(labels), keyword) == Some(i),
{
    let e = registry_entries(labels);
    lemma_registry_entries(labels);
    let m = has_keyword(keyword);
    assert forall|j: int| i + 1 <= j < e.len() implies !m(#[trigger] e[j]) by {
        assert(ascii_lower(e[i].keyword) != ascii_lower(e[j].keyword));
    }
    lemma_last_matching_scan(e, m, i + 1);
    assert(e.take(i + 1).last() == e[i]);
}

/// Where labels have distinct element ids, looking up an entry's id finds
/// that entry.
pub proof fn lemma_registry_id_lookup(labels: Seq<LabelInfoView>, i: int)
    requires
        distinct_ids(labels),
        0 <= i < registry_entries(labels).len(),
    ensures
        entry_with_id(registry_entries(labels), registry_entries(labels)[i].info.id) == Some(i),
{
    let e = registry_entries(labels);
    let sorted = sort_by_id(labels);
    lemma_registry_entries(labels);
    lemma_assigned_entries(sorted);
    lemma_distinct_ids_permuted(labels, sorted);
    let m = has_id(e[i].info.id);
    assert forall|j: int| i + 1 <= j < e.len() implies !m(#[trigger] e[j]) by {
        assert(e[i].info == sorted[i] && e[j].info == sorted[j]);
        assert(sorted[i].id != sorted[j].id);
    }
    lemma_last_matching_scan(e, m, i + 1);
    assert(e.take(i + 1).last() == e[i]);
}

/// The registry does not depend on the order in which the labels are
/// enumerated, as long as no two of them share an element id: the oldest
/// label keeps the bare atom, later clashes get `_2`, `_3`, ….
pub proof fn lemma_registry_independent_of_order(p: Seq<LabelInfoView>, q: Seq<LabelInfoView>)
    requires
        p.to_multiset() == q.to_multiset(),
        distinct_ids(p),
    ensures
        registry_entries(p) == registry_entries(q),
{
    lemma_sort_by_id(p);
    lemma_sort_by_id(q);
    lemma_distinct_ids_permuted(p, sort_by_id(p));
    lemma_distinct_ids_permuted(p, sort_by_id(q));
    lemma_sorted_unique(sort_by_id(p), sort_by_id(q));
}

/// The registry lists its labels by element id in code-point order (the byte
/// order of the ids, as `String::cmp` sorts them): of two entries with
/// different ids, the earlier one's id comes first. Tuta's ids are
/// time-ordered, so the older label comes first and keeps the bare atom.
pub proof fn lemma_registry_in_id_order(labels: Seq<LabelInfoView>)
    ensures
        forall|i: int, j: int|
            0 <= i < j < labels.len() && (#[trigger] registry_entries(labels)[i]).info.id
                != (#[trigger] registry_entries(labels)[j]).info.id ==> precedes_by_code_point(
                registry_entries(labels)[i].info.id,
                registry_entries(labels)[j].info.id,
            ),
{
    let e = registry_entries(labels);
    let sorted = sort_by_id(labels);
    lemma_registry_entries(labels);
    assert forall|i: int, j: int|
        0 <= i < j < labels.len() && (#[trigger] e[i]).info.id != (#[trigger] e[j]).info.id
            implies precedes_by_code_point(e[i].info.id, e[j].info.id) by {
        assert(e.map_values(|x: LabelEntryView| x.info)[i] == sorted[i]);
        assert(e.map_values(|x: LabelEntryView| x.info)[j] == sorted[j]);
        assert(!lex_lt(sorted[j].id, sorted[i].id));
        lemma_lex_lt_total(e[i].info.id, e[j].info.id);
        lemma_lex_lt_is_code_point_order(e[i].info.id, e[j].info.id);
    }
}

/// Keywords are matched as clients compare flags: any spelling of an entry's
/// keyword that differs from it only in the case of ASCII letters finds that
/// entry (`shopping` finds the label advertised as `Shopping`), and no two
/// entries have keywords that differ only so.
pub proof fn lemma_registry_keywords_ignore_case(labels: Seq<LabelInfoView>, i: int, keyword: Seq<char>)
    requires
        0 <= i < registry_entries(labels).len(),
    ensures
        eq_ignore_ascii_case(keyword, registry_entries(labels)[i].keyword) ==> entry_with_keyword(
            registry_entries(labels),
            keyword,
        ) == Some(i),
        forall|j: int|
            0 <= j < registry_entries(labels).len() && j != i ==> !eq_ignore_ascii_case(
                registry_entries(labels)[i].keyword,
                #[trigger] registry_entries(labels)[j].keyword,
            ),
{
    let e = registry_entries(labels);
    lemma_registry_entries(labels);
    lemma_ascii_lower_eq(keyword, e[i].keyword);
    if eq_ignore_ascii_case(keyword, e[i].keyword) {
        lemma_registry_keyword_lookup(labels, i, keyword);
    }
    assert forall|j: int| 0 <= j < e.len() && j != i implies !eq_ignore_ascii_case(
        e[i].keyword,
        #[trigger] e[j].keyword,
    ) by {
        lemma_ascii_lower_eq(e[i].keyword, e[j].keyword);
        if i < j {
            assert(ascii_lower(e[i].keyword) != ascii_lower(e[j].keyword));
        } else {
            assert(ascii_lower(e[j].keyword) != ascii_lower(e[i].keyword));
        }
    }
}

} // verus!
