//! Turning source vocabulary lists into a dataset: cleaning translations
//! into definitions and merging the entries of several lists by headword.

use vstd::prelude::*;

use crate::dictionary::{
    chars_eq, dedupe_preserve_order, deduped, normalize_tags, normalized_tags, DictionaryEntry,
    PersistedDictionary, Tag,
};
use crate::text::{
    chars_lt, chars_of, compare_chars, cut_start_index, lemma_cut_len, english_key,
    normalize_english_chars, split_by, split_chars, string_of, trim, trim_chars, trim_chars_with,
    trim_punct, trim_start, views,
};

verus! {

/// The bracket that closes `open`, for the brackets that annotate a
/// translation: `[...]`, `(...)` and `（...）`.
pub open spec fn closing_bracket(open: char) -> Option<char> {
    if open == '[' {
        Some(']')
    } else if open == '(' {
        Some(')')
    } else if open == '（' {
        Some('）')
    } else {
        None
    }
}

/// The position of the first `c` in `s`.
pub open spec fn first_index(s: Seq<char>, c: char) -> Option<int>
    decreases s.len(),
{
    if s.len() == 0 {
        None
    } else if s[0] == c {
        Some(0)
    } else {
        match first_index(s.drop_first(), c) {
            Some(k) => Some(k + 1),
            None => None,
        }
    }
}

/// What follows a leading bracket group such as `[计]`: the text after the
/// first closing bracket, when `s` starts with an opening bracket that is
/// closed.
pub open spec fn after_bracket_group(s: Seq<char>) -> Option<Seq<char>> {
    if s.len() == 0 {
        None
    } else {
        match closing_bracket(s[0]) {
            None => None,
            Some(close) => match first_index(s, close) {
                None => None,
                Some(k) => Some(s.skip(k + 1)),
            },
        }
    }
}

/// `first_index` finds an occurrence, and only misses when there is none.
pub proof fn lemma_first_index_bounds(s: Seq<char>, c: char)
    ensures
        first_index(s, c) matches Some(k) ==> 0 <= k < s.len() && s[k] == c,
        first_index(s, c) is None ==> !s.contains(c),
    decreases s.len(),
{
    if s.len() > 0 {
        lemma_first_index_bounds(s.drop_first(), c);
        if first_index(s, c) is None {
            if s.contains(c) {
                let j = choose|j: int| 0 <= j < s.len() && s[j] == c;
                assert(s.drop_first()[j - 1] == c);
            }
        }
    }
}

/// Leading bracket groups removed one after another, trimming after each.
pub open spec fn strip_bracket_groups(s: Seq<char>) -> Seq<char>
    decreases s.len(),
{
    match after_bracket_group(s) {
        Some(rest) => {
            proof {
                lemma_after_bracket_group_shorter(s);
                lemma_cut_len(rest, false);
            }
            strip_bracket_groups(trim(rest))
        },
        None => s,
    }
}

/// A bracket group removed leaves a shorter text.
pub proof fn lemma_after_bracket_group_shorter(s: Seq<char>)
    ensures
        after_bracket_group(s) matches Some(rest) ==> rest.len() < s.len(),
{
    if s.len() > 0 {
        if let Some(close) = closing_bracket(s[0]) {
            lemma_first_index_bounds(s, close);
        }
    }
}

/// The part-of-speech markers that may start a translation, in the order
/// they are tried.
pub open spec fn pos_prefixes() -> Seq<Seq<char>> {
    seq![
        seq!['n', '.'],
        seq!['v', '.'],
        seq!['v', 't', '.'],
        seq!['v', 'i', '.'],
        seq!['a', 'd', 'j', '.'],
        seq!['a', 'd', 'v', '.'],
        seq!['p', 'r', 'e', 'p', '.'],
        seq!['p', 'r', 'o', 'n', '.'],
        seq!['c', 'o', 'n', 'j', '.'],
        seq!['i', 'n', 't', '.'],
        seq!['n', 'u', 'm', '.'],
        seq!['a', 'r', 't', '.'],
        seq!['a', 'u', 'x', '.'],
    ]
}

/// Whether `s` starts with `p`.
pub open spec fn starts_with(s: Seq<char>, p: Seq<char>) -> bool {
    p.len() <= s.len() && s.take(p.len() as int) == p
}

/// What follows the first of the markers `ps` that `s` starts with, without
/// leading whitespace.
pub open spec fn after_marker(s: Seq<char>, ps: Seq<Seq<char>>) -> Option<Seq<char>>
    decreases ps.len(),
{
    if ps.len() == 0 {
        None
    } else if starts_with(s, ps[0]) {
        Some(trim_start(s.skip(ps[0].len() as int)))
    } else {
        after_marker(s, ps.drop_first())
    }
}

/// A marker removed leaves a shorter text.
pub proof fn lemma_after_marker_shorter(s: Seq<char>, ps: Seq<Seq<char>>)
    requires
        forall|i: int| 0 <= i < ps.len() ==> #[trigger] ps[i].len() > 0,
    ensures
        after_marker(s, ps) matches Some(rest) ==> rest.len() < s.len(),
    decreases ps.len(),
{
    if ps.len() > 0 {
        if starts_with(s, ps[0]) {
            lemma_cut_len(s.skip(ps[0].len() as int), false);
        } else {
            lemma_after_marker_shorter(s, ps.drop_first());
        }
    }
}

/// Leading part-of-speech markers removed one after another, trimming after
/// each.
pub open spec fn strip_markers(s: Seq<char>) -> Seq<char>
    decreases s.len(),
{
    match after_marker(s, pos_prefixes()) {
        Some(rest) => {
            proof {
                lemma_after_marker_shorter(s, pos_prefixes());
                lemma_cut_len(rest, false);
            }
            strip_markers(trim(rest))
        },
        None => s,
    }
}

/// A translation without its leading annotations: trimmed, then bracket
/// groups removed, then part-of-speech markers removed.
pub open spec fn strip_noise(s: Seq<char>) -> Seq<char> {
    strip_markers(strip_bracket_groups(trim(s)))
}

/// The characters that separate the definitions of one translation.
pub open spec fn definition_separators() -> Seq<char> {
    seq!['；', ';', '，', ',', '、']
}

/// The definitions cut out of the pieces of a translation, in order, empty
/// ones dropped.
pub open spec fn cleaned_pieces(pieces: Seq<Seq<char>>) -> Seq<Seq<char>>
    decreases pieces.len(),
{
    if pieces.len() == 0 {
        Seq::empty()
    } else {
        let acc = cleaned_pieces(pieces.drop_last());
        let t = trim_punct(strip_noise(pieces.last()));
        if t.len() == 0 {
            acc
        } else {
            acc.push(t)
        }
    }
}

/// The definitions of a raw translation: the annotations stripped, the rest
/// split at separators, each piece stripped again and cut of whitespace and
/// edge punctuation, empty pieces dropped.
pub open spec fn translation_definitions(raw: Seq<char>) -> Seq<Seq<char>> {
    let cleaned = strip_noise(raw);
    if cleaned.len() == 0 {
        Seq::empty()
    } else {
        cleaned_pieces(split_by(cleaned, definition_separators()))
    }
}

fn first_index_exec(s: &Vec<char>, c: char) -> (r: Option<usize>)
    ensures
        match (r, first_index(s@, c)) {
            (Some(a), Some(b)) => a == b,
            (None, None) => true,
            _ => false,
        },
{
    let n = s.len();
    let mut i: usize = 0;
    assert(s@.skip(0) == s@);
    while i < n
        invariant
            i <= n,
            n == s@.len(),
            forall|k: int| 0 <= k < i ==> s@[k] != c,
            first_index(s@, c) == match first_index(s@.skip(i as int), c) {
                Some(k) => Some(k + i),
                None => None,
            },
        decreases n - i,
    {
        if s[i] == c {
            assert(s@.skip(i as int)[0] == c);
            return Some(i);
        }
        assert(s@.skip(i as int).drop_first() == s@.skip(i + 1));
        i += 1;
    }
    None
}

fn skip_chars(s: &Vec<char>, from: usize) -> (r: Vec<char>)
    requires
        from <= s@.len(),
    ensures
        r@ == s@.skip(from as int),
{
    let n = s.len();
    let mut r: Vec<char> = Vec::new();
    for k in from..n
        invariant
            n == s@.len(),
            from <= k <= n,
            r@ == s@.subrange(from as int, k as int),
    {
        r.push(s[k]);
        assert(s@.subrange(from as int, k + 1) == s@.subrange(from as int, k as int).push(
            s@[k as int],
        ));
    }
    r
}

/// The text after a leading bracket group, if the text starts with one.
fn strip_leading_bracket_group(input: &Vec<char>) -> (r: Option<Vec<char>>)
    ensures
        match (r, after_bracket_group(input@)) {
            (Some(a), Some(b)) => a@ == b,
            (None, None) => true,
            _ => false,
        },
{
    if input.len() == 0 {
        return None;
    }
    let open = input[0];
    let close = if open == '[' {
        ']'
    } else if open == '(' {
        ')'
    } else if open == '（' {
        '）'
    } else {
        return None;
    };
    match first_index_exec(input, close) {
        Some(k) => {
            proof {
                lemma_first_index_bounds(input@, close);
            }
            Some(skip_chars(input, k + 1))
        },
        None => None,
    }
}

fn starts_with_exec(s: &Vec<char>, p: &Vec<char>) -> (r: bool)
    ensures
        r == starts_with(s@, p@),
{
    if p.len() > s.len() {
        return false;
    }
    let m = p.len();
    for k in 0..m
        invariant
            m == p@.len(),
            m <= s@.len(),
            s@.take(k as int) == p@.take(k as int),
    {
        if s[k] != p[k] {
            assert(s@.take(m as int)[k as int] != p@[k as int]);
            assert(p@.take(m as int) == p@);
            return false;
        }
        assert(s@.take(k + 1) == s@.take(k as int).push(s@[k as int]));
        assert(p@.take(k + 1) == p@.take(k as int).push(p@[k as int]));
    }
    assert(p@.take(m as int) == p@);
    true
}

fn marker_list() -> (r: Vec<Vec<char>>)
    ensures
        views(r@) == pos_prefixes(),
{
    let r: Vec<Vec<char>> = vec![
        vec!['n', '.'],
        vec!['v', '.'],
        vec!['v', 't', '.'],
        vec!['v', 'i', '.'],
        vec!['a', 'd', 'j', '.'],
        vec!['a', 'd', 'v', '.'],
        vec!['p', 'r', 'e', 'p', '.'],
        vec!['p', 'r', 'o', 'n', '.'],
        vec!['c', 'o', 'n', 'j', '.'],
        vec!['i', 'n', 't', '.'],
        vec!['n', 'u', 'm', '.'],
        vec!['a', 'r', 't', '.'],
        vec!['a', 'u', 'x', '.'],
    ];
    assert(views(r@) =~= pos_prefixes());
    r
}

/// The text after a leading part-of-speech marker, without leading
/// whitespace, if the text starts with one.
fn strip_part_of_speech_prefix(input: &Vec<char>) -> (r: Option<Vec<char>>)
    ensures
        match (r, after_marker(input@, pos_prefixes())) {
            (Some(a), Some(b)) => a@ == b,
            (None, None) => true,
            _ => false,
        },
{
    let markers = marker_list();
    let n = markers.len();
    let ghost ps = pos_prefixes();
    assert(ps.skip(0) == ps);
    for i in 0..n
        invariant
            n == markers@.len(),
            ps == pos_prefixes(),
            views(markers@) == ps,
            after_marker(input@, ps) == after_marker(input@, ps.skip(i as int)),
    {
        let ghost rest_ps = ps.skip(i as int);
        assert(rest_ps[0] == markers@[i as int]@);
        assert(rest_ps.drop_first() == ps.skip(i + 1));
        if starts_with_exec(input, &markers[i]) {
            let rest = skip_chars(input, markers[i].len());
            let k = cut_start_index(&rest, false);
            return Some(skip_chars(&rest, k));
        }
    }
    None
}

/// A translation without its leading annotations.
#[verifier::spinoff_prover]
fn strip_leading_noise(input: &Vec<char>) -> (r: Vec<char>)
    ensures
        r@ == strip_noise(input@),
{
    let mut current = trim_chars(input);
    let ghost start = current@;
    loop
        invariant
            strip_bracket_groups(start) == strip_bracket_groups(current@),
        ensures
            strip_bracket_groups(start) == current@,
        decreases current@.len(),
    {
        match strip_leading_bracket_group(&current) {
            Some(stripped) => {
                proof {
                    lemma_after_bracket_group_shorter(current@);
                    lemma_cut_len(stripped@, false);
                }
                current = trim_chars(&stripped);
            },
            None => {
                break ;
            },
        }
    }
    let ghost middle = current@;
    loop
        invariant
            strip_markers(middle) == strip_markers(current@),
        ensures
            strip_markers(middle) == current@,
        decreases current@.len(),
    {
        match strip_part_of_speech_prefix(&current) {
            Some(next) => {
                proof {
                    lemma_after_marker_shorter(current@, pos_prefixes());
                    lemma_cut_len(next@, false);
                }
                current = trim_chars(&next);
            },
            None => {
                break ;
            },
        }
    }
    current
}

fn separator_list() -> (r: Vec<char>)
    ensures
        r@ == definition_separators(),
{
    let r: Vec<char> = vec!['；', ';', '，', ',', '、'];
    assert(r@ =~= definition_separators());
    r
}

/// A definition without whitespace and edge punctuation at either end.
fn trim_edge_punctuation(input: &Vec<char>) -> (r: Vec<char>)
    ensures
        r@ == trim_punct(input@),
{
    trim_chars_with(input, true)
}

/// The definitions in a raw translation.
#[verifier::spinoff_prover]
fn split_translation(raw: &str) -> (r: Vec<String>)
    ensures
        r.deep_view() == translation_definitions(raw@),
{
    let cleaned = strip_leading_noise(&chars_of(raw));
    let mut r: Vec<String> = Vec::new();
    if cleaned.len() == 0 {
        assert(r.deep_view() =~= Seq::<Seq<char>>::empty());
        return r;
    }
    let pieces = split_chars(&cleaned, &separator_list());
    let ghost ps = views(pieces@);
    let n = pieces.len();
    for i in 0..n
        invariant
            n == pieces@.len(),
            ps == views(pieces@),
            r.deep_view() == cleaned_pieces(ps.take(i as int)),
    {
        let part = trim_edge_punctuation(&strip_leading_noise(&pieces[i]));
        assert(ps.take(i + 1).drop_last() == ps.take(i as int));
        assert(ps.take(i + 1).last() == pieces@[i as int]@);
        if part.len() > 0 {
            let ghost before = r.deep_view();
            r.push(string_of(&part));
            assert(r.deep_view() =~= before.push(part@));
        }
    }
    assert(ps.take(n as int) == ps);
    r
}


/// A source vocabulary list and the tag that its entries get, if any.
#[derive(Debug, Clone, PartialEq, Eq)]
pub struct SourceDocument {
    pub tag: Option<Tag>,
    pub entries: Vec<SourceDictionaryEntry>,
}

/// One word of a source list with its translations and phrases.
#[derive(Debug, Clone, PartialEq, Eq)]
pub struct SourceDictionaryEntry {
    pub word: String,
    pub translations: Vec<SourceTranslation>,
    pub phrases: Vec<SourcePhrase>,
}

/// One translation of a source word, with its part of speech if given.
#[derive(Debug, Clone, PartialEq, Eq)]
pub struct SourceTranslation {
    pub translation: String,
    pub kind: Option<String>,
}

/// A phrase listed under a source word, with its translation.
#[derive(Debug, Clone, PartialEq, Eq)]
pub struct SourcePhrase {
    pub phrase: String,
    pub translation: String,
}

/// What one accepted source entry gives the dataset: its canonical
/// headword, the definitions of its translations and the tag of its list.
pub struct Contribution {
    pub headword: Seq<char>,
    pub definitions: Seq<Seq<char>>,
    pub tags: Seq<Tag>,
}

/// A canonical headword is kept when it is one non-empty word: the built-in
/// dataset holds no phrases.
pub open spec fn is_single_word(h: Seq<char>) -> bool {
    h.len() > 0 && !h.contains(' ')
}

/// The tag of a list as a sequence of tags.
pub open spec fn tag_list(tag: Option<Tag>) -> Seq<Tag> {
    match tag {
        Some(t) => seq![t],
        None => Seq::empty(),
    }
}

/// The definitions of all translations of an entry, in order.
pub open spec fn entry_definitions(ts: Seq<SourceTranslation>) -> Seq<Seq<char>>
    decreases ts.len(),
{
    if ts.len() == 0 {
        Seq::empty()
    } else {
        entry_definitions(ts.drop_last()) + translation_definitions(ts.last().translation@)
    }
}

/// The contributions of the entries of one list, in order; entries whose
/// canonical headword is empty or has several words give none, and phrases
/// give none.
pub open spec fn list_contributions(tag: Option<Tag>, es: Seq<SourceDictionaryEntry>) -> Seq<
    Contribution,
>
    decreases es.len(),
{
    if es.len() == 0 {
        Seq::empty()
    } else {
        let acc = list_contributions(tag, es.drop_last());
        let h = english_key(es.last().word@);
        if is_single_word(h) {
            acc.push(
                Contribution {
                    headword: h,
                    definitions: entry_definitions(es.last().translations@),
                    tags: tag_list(tag),
                },
            )
        } else {
            acc
        }
    }
}

/// The contributions of all lists, list after list.
pub open spec fn contributions(docs: Seq<SourceDocument>) -> Seq<Contribution>
    decreases docs.len(),
{
    if docs.len() == 0 {
        Seq::empty()
    } else {
        contributions(docs.drop_last()) + list_contributions(
            docs.last().tag,
            docs.last().entries@,
        )
    }
}

/// The headwords of contributions.
pub open spec fn headwords(cs: Seq<Contribution>) -> Seq<Seq<char>> {
    cs.map_values(|c: Contribution| c.headword)
}

/// The definitions that the contributions give headword `h`, in order.
pub open spec fn collected_definitions(cs: Seq<Contribution>, h: Seq<char>) -> Seq<Seq<char>>
    decreases cs.len(),
{
    if cs.len() == 0 {
        Seq::empty()
    } else {
        collected_definitions(cs.drop_last(), h) + if cs.last().headword == h {
            cs.last().definitions
        } else {
            Seq::empty()
        }
    }
}

/// The tags that the contributions give headword `h`, in order.
pub open spec fn collected_tags(cs: Seq<Contribution>, h: Seq<char>) -> Seq<Tag>
    decreases cs.len(),
{
    if cs.len() == 0 {
        Seq::empty()
    } else {
        collected_tags(cs.drop_last(), h) + if cs.last().headword == h {
            cs.last().tags
        } else {
            Seq::empty()
        }
    }
}

/// Keys in strictly increasing code point order, hence distinct.
pub open spec fn strictly_sorted(keys: Seq<Seq<char>>) -> bool {
    forall|i: int, j: int| 0 <= i < j < keys.len() ==> chars_lt(#[trigger] keys[i], #[trigger] keys[j])
}

/// `entries` is the dataset that the contributions make: one entry per
/// distinct headword, in increasing headword order, each with the
/// deduplicated definitions and the normalized tags given to its headword.
pub open spec fn is_merged_from(entries: Seq<DictionaryEntry>, cs: Seq<Contribution>) -> bool {
    let keys = entries.map_values(|e: DictionaryEntry| e.headword@);
    &&& strictly_sorted(keys)
    &&& forall|x: Seq<char>| keys.contains(x) <==> headwords(cs).contains(x)
    &&& forall|i: int|
        0 <= i < entries.len() ==> (#[trigger] entries[i]).definitions.deep_view() == deduped(
            collected_definitions(cs, entries[i].headword@),
        ) && entries[i].tags@ == normalized_tags(collected_tags(cs, entries[i].headword@))
}

proof fn lemma_collected_absent(cs: Seq<Contribution>, h: Seq<char>)
    requires
        !headwords(cs).contains(h),
    ensures
        collected_definitions(cs, h) == Seq::<Seq<char>>::empty(),
        collected_tags(cs, h) == Seq::<Tag>::empty(),
    decreases cs.len(),
{
    if cs.len() > 0 {
        assert(headwords(cs.drop_last()) == headwords(cs).drop_last());
        if headwords(cs.drop_last()).contains(h) {
            let k = choose|k: int| 0 <= k < headwords(cs.drop_last()).len() && headwords(cs.drop_last())[k] == h;
            assert(headwords(cs)[k] == h);
        }
        assert(headwords(cs)[cs.len() - 1] == cs.last().headword);
        lemma_collected_absent(cs.drop_last(), h);
    }
}

proof fn lemma_seq_insert_contains<A>(s: Seq<A>, i: int, v: A, x: A)
    requires
        0 <= i <= s.len(),
    ensures
        s.insert(i, v).contains(x) <==> (s.contains(x) || x == v),
{
    let t = s.insert(i, v);
    if x == v {
        assert(t[i] == v);
    }
    if s.contains(x) {
        let k = choose|k: int| 0 <= k < s.len() && s[k] == x;
        if k < i {
            assert(t[k] == x);
        } else {
            assert(t[k + 1] == x);
        }
    }
    if t.contains(x) {
        let k = choose|k: int| 0 <= k < t.len() && t[k] == x;
        if k < i {
            assert(s[k] == x);
        } else if k > i {
            assert(s[k - 1] == x);
        }
    }
}

proof fn lemma_push_contains<A>(s: Seq<A>, v: A, x: A)
    ensures
        s.push(v).contains(x) <==> (s.contains(x) || x == v),
{
    lemma_seq_insert_contains(s, s.len() as int, v, x);
    assert(s.insert(s.len() as int, v) == s.push(v));
}

/// Finds where `h` belongs among strictly sorted keys: the position of the
/// first key that does not sort before it, and whether that key is `h`.
#[verifier::spinoff_prover]
fn locate(keys: &Vec<Vec<char>>, h: &Vec<char>) -> (r: (usize, bool))
    requires
        strictly_sorted(views(keys@)),
    ensures
        r.0 <= keys@.len(),
        forall|k: int| 0 <= k < r.0 ==> chars_lt(#[trigger] views(keys@)[k], h@),
        forall|k: int| r.0 < k < keys@.len() ==> chars_lt(h@, #[trigger] views(keys@)[k]),
        r.1 == (r.0 < keys@.len() && views(keys@)[r.0 as int] == h@),
        !r.1 && r.0 < keys@.len() ==> chars_lt(h@, views(keys@)[r.0 as int]),
{
    let ghost ks = views(keys@);
    let n = keys.len();
    let mut lo: usize = 0;
    let mut hi: usize = n;
    while lo < hi
        invariant
            lo <= hi <= n,
            n == keys@.len(),
            ks == views(keys@),
            strictly_sorted(ks),
            forall|k: int| 0 <= k < lo ==> chars_lt(#[trigger] ks[k], h@),
            forall|k: int| hi <= k < n ==> !chars_lt(#[trigger] ks[k], h@),
        decreases hi - lo,
    {
        let mid = lo + (hi - lo) / 2;
        let c = compare_chars(&keys[mid], h);
        assert(ks[mid as int] == keys@[mid as int]@);
        if c == -1 {
            assert forall|k: int| 0 <= k < mid + 1 implies chars_lt(#[trigger] ks[k], h@) by {
                if k < mid {
                    crate::text::lemma_chars_lt_transitive(ks[k], ks[mid as int], h@);
                }
            }
            lo = mid + 1;
        } else {
            assert forall|k: int| mid <= k < n implies !chars_lt(#[trigger] ks[k], h@) by {
                if k > mid && chars_lt(ks[k], h@) {
                    crate::text::lemma_chars_lt_transitive(ks[mid as int], ks[k], h@);
                    crate::text::lemma_chars_lt_asymmetric(ks[mid as int], h@);
                }
                if k == mid {
                    if c == 0 {
                        crate::text::lemma_chars_lt_irreflexive(h@);
                    } else {
                        crate::text::lemma_chars_lt_asymmetric(h@, ks[mid as int]);
                    }
                }
            }
            hi = mid;
        }
    }
    let found = lo < n && chars_eq(&keys[lo], h);
    proof {
        if lo < n {
            assert(ks[lo as int] == keys@[lo as int]@);
            if !found {
                crate::text::lemma_chars_lt_total(ks[lo as int], h@);
            }
        }
        assert forall|k: int| lo < k < n implies chars_lt(h@, #[trigger] ks[k]) by {
            assert(chars_lt(ks[lo as int], ks[k]));
            if ks[k] == h@ {
                assert(chars_lt(ks[lo as int], h@));
            }
            crate::text::lemma_chars_lt_total(ks[k], h@);
        }
    }
    (lo, found)
}

#[verifier::spinoff_prover]
proof fn lemma_insert_sorted(keys: Seq<Seq<char>>, lo: int, h: Seq<char>)
    requires
        0 <= lo <= keys.len(),
        strictly_sorted(keys),
        forall|k: int| 0 <= k < lo ==> chars_lt(#[trigger] keys[k], h),
        forall|k: int| lo <= k < keys.len() ==> chars_lt(h, #[trigger] keys[k]),
    ensures
        strictly_sorted(keys.insert(lo, h)),
{
    let t = keys.insert(lo, h);
    assert forall|i: int, j: int| 0 <= i < j < t.len() implies chars_lt(#[trigger] t[i], #[trigger] t[j]) by {
        if j < lo {
            assert(t[i] == keys[i] && t[j] == keys[j]);
        } else if j == lo {
            assert(t[i] == keys[i]);
        } else if i < lo {
            assert(t[i] == keys[i] && t[j] == keys[j - 1]);
            crate::text::lemma_chars_lt_transitive(keys[i], h, keys[j - 1]);
        } else if i == lo {
            assert(t[j] == keys[j - 1]);
        } else {
            assert(t[i] == keys[i - 1] && t[j] == keys[j - 1]);
        }
    }
}


/// The merge state: sorted distinct headwords with the definitions and tags
/// gathered for each so far.
spec fn merge_state(
    keys: Seq<Vec<char>>,
    defs: Seq<Vec<String>>,
    tags: Seq<Vec<Tag>>,
    cs: Seq<Contribution>,
) -> bool {
    &&& keys.len() == defs.len()
    &&& keys.len() == tags.len()
    &&& strictly_sorted(views(keys))
    &&& forall|x: Seq<char>| views(keys).contains(x) <==> headwords(cs).contains(x)
    &&& forall|i: int|
        0 <= i < keys.len() ==> (#[trigger] defs[i]).deep_view() == collected_definitions(
            cs,
            keys[i]@,
        ) && tags[i]@ == collected_tags(cs, keys[i]@)
}

#[verifier::spinoff_prover]
fn push_entry(
    keys: &mut Vec<Vec<char>>,
    defs: &mut Vec<Vec<String>>,
    tags: &mut Vec<Vec<Tag>>,
    h: Vec<char>,
    d: Vec<String>,
    t: Vec<Tag>,
    Ghost(cs): Ghost<Seq<Contribution>>,
)
    requires
        merge_state(old(keys)@, old(defs)@, old(tags)@, cs),
    ensures
        merge_state(
            final(keys)@,
            final(defs)@,
            final(tags)@,
            cs.push(Contribution { headword: h@, definitions: d.deep_view(), tags: t@ }),
        ),
{
    let ghost c = Contribution { headword: h@, definitions: d.deep_view(), tags: t@ };
    let ghost cs2 = cs.push(c);
    assert(cs2.drop_last() == cs);
    assert(headwords(cs2) =~= headwords(cs).push(h@));
    assert forall|x: Seq<char>| headwords(cs2).contains(x) <==> (headwords(cs).contains(x) || x == h@) by {
        lemma_push_contains(headwords(cs), h@, x);
    }
    let (lo, found) = locate(keys, &h);
    let ghost old_keys = views(keys@);
    assert forall|i: int| 0 <= i < old_keys.len() && i != lo implies old_keys[i] != h@ by {
        if i < lo {
            crate::text::lemma_chars_lt_irreflexive(h@);
        } else {
            crate::text::lemma_chars_lt_irreflexive(h@);
        }
    }
    if found {
        let mut dd = defs.remove(lo);
        let mut d2 = d;
        dd.append(&mut d2);
        defs.insert(lo, dd);
        let mut tt = tags.remove(lo);
        let mut t2 = t;
        tt.append(&mut t2);
        tags.insert(lo, tt);
        proof {
            assert(views(keys@)[lo as int] == h@);
            assert(views(keys@).contains(h@));
            assert(headwords(cs).contains(h@));
            assert forall|x: Seq<char>| views(keys@).contains(x) <==> headwords(cs2).contains(x) by {
                assert(views(keys@).contains(x) <==> headwords(cs).contains(x));
                assert(headwords(cs2).contains(x) <==> (headwords(cs).contains(x) || x == h@));
            }
            assert(keys@.len() == defs@.len() && keys@.len() == tags@.len());
            assert forall|i: int|
                0 <= i < keys@.len() implies (#[trigger] defs@[i]).deep_view()
                == collected_definitions(cs2, keys@[i]@) && tags@[i]@ == collected_tags(
                cs2,
                keys@[i]@,
            ) by {
                assert(views(keys@)[i] == keys@[i]@);
                if i == lo {
                    assert(defs@[i].deep_view() =~= old(defs)@[i].deep_view() + d.deep_view());
                    assert(tags@[i]@ =~= old(tags)@[i]@ + t@);
                } else {
                    assert(defs@[i] == old(defs)@[i]);
                    assert(tags@[i] == old(tags)@[i]);
                }
            }
        }
    } else {
        proof {
            assert forall|k: int| lo <= k < old_keys.len() implies chars_lt(h@, #[trigger] old_keys[k]) by {
            }
            lemma_insert_sorted(old_keys, lo as int, h@);
            if old_keys.contains(h@) {
                let k = choose|k: int| 0 <= k < old_keys.len() && old_keys[k] == h@;
                if k == lo {
                } else {
                    assert(old_keys[k] != h@);
                }
            }
            assert(!headwords(cs).contains(h@));
            lemma_collected_absent(cs, h@);
        }
        let ghost hv = h@;
        let ghost dv = d.deep_view();
        let ghost tv = t@;
        let ghost od = defs@;
        let ghost ot = tags@;
        let ghost ok = keys@;
        keys.insert(lo, h);
        defs.insert(lo, d);
        tags.insert(lo, t);
        proof {
            assert(views(keys@) =~= old_keys.insert(lo as int, hv));
            assert forall|x: Seq<char>| views(keys@).contains(x) <==> headwords(cs2).contains(x) by {
                lemma_seq_insert_contains(old_keys, lo as int, hv, x);
            }
            assert(collected_definitions(cs2, hv) =~= dv);
            assert(collected_tags(cs2, hv) =~= tv);
            assert forall|i: int|
                0 <= i < keys@.len() implies (#[trigger] defs@[i]).deep_view()
                == collected_definitions(cs2, keys@[i]@) && tags@[i]@ == collected_tags(
                cs2,
                keys@[i]@,
            ) by {
                if i < lo {
                    assert(keys@[i] == ok[i] && defs@[i] == od[i] && tags@[i] == ot[i]);
                    assert(old_keys[i] == ok[i]@);
                    assert(od[i].deep_view() == collected_definitions(cs, ok[i]@));
                } else if i > lo {
                    assert(keys@[i] == ok[i - 1] && defs@[i] == od[i - 1] && tags@[i] == ot[i
                        - 1]);
                    assert(old_keys[i - 1] == ok[i - 1]@);
                    assert(od[i - 1].deep_view() == collected_definitions(cs, ok[i - 1]@));
                } else {
                    assert(keys@[i]@ == hv && defs@[i].deep_view() == dv && tags@[i]@ == tv);
                }
            }
        }
    }
}

fn is_single_word_exec(h: &Vec<char>) -> (r: bool)
    ensures
        r == is_single_word(h@),
{
    if h.len() == 0 {
        return false;
    }
    let n = h.len();
    for i in 0..n
        invariant
            n == h@.len(),
            forall|k: int| 0 <= k < i ==> h@[k] != ' ',
    {
        if h[i] == ' ' {
            assert(h@[i as int] == ' ');
            return false;
        }
    }
    true
}

fn source_definitions(entry: &SourceDictionaryEntry) -> (r: Vec<String>)
    ensures
        r.deep_view() == entry_definitions(entry.translations@),
{
    let mut defs: Vec<String> = Vec::new();
    let n = entry.translations.len();
    for t in 0..n
        invariant
            n == entry.translations@.len(),
            defs.deep_view() == entry_definitions(entry.translations@.take(t as int)),
    {
        let mut parts = split_translation(entry.translations[t].translation.as_str());
        let ghost before = defs.deep_view();
        let ghost added = parts.deep_view();
        defs.append(&mut parts);
        assert(defs.deep_view() =~= before + added);
        assert(entry.translations@.take(t + 1).drop_last() == entry.translations@.take(t as int));
    }
    assert(entry.translations@.take(n as int) == entry.translations@);
    defs
}

/// Merges the source lists into a dataset: one entry per distinct canonical
/// single-word headword, in increasing headword order, with the definitions
/// of all its translations (deduplicated) and the tags of the lists it
/// appears in. Phrases and multi-word headwords are left out.
#[verifier::spinoff_prover]
pub fn build_persisted_dictionary(documents: &Vec<SourceDocument>) -> (r: PersistedDictionary)
    ensures
        is_merged_from(r.entries@, contributions(documents@)),
{
    let mut keys: Vec<Vec<char>> = Vec::new();
    let mut defs: Vec<Vec<String>> = Vec::new();
    let mut tags: Vec<Vec<Tag>> = Vec::new();
    let ghost mut processed: Seq<Contribution> = Seq::empty();
    assert(views(keys@) =~= Seq::<Seq<char>>::empty());
    assert(headwords(processed) =~= Seq::<Seq<char>>::empty());
    let nd = documents.len();
    for di in 0..nd
        invariant
            nd == documents@.len(),
            merge_state(keys@, defs@, tags@, processed),
            processed == contributions(documents@.take(di as int)),
    {
        let doc = &documents[di];
        let ne = doc.entries.len();
        let ghost base = processed;
        assert(list_contributions(doc.tag, doc.entries@.take(0)) =~= Seq::<Contribution>::empty());
        for ei in 0..ne
            invariant
                ne == doc.entries@.len(),
                merge_state(keys@, defs@, tags@, processed),
                processed == base + list_contributions(doc.tag, doc.entries@.take(ei as int)),
        {
            let entry = &doc.entries[ei];
            let h = normalize_english_chars(&chars_of(entry.word.as_str()));
            let ghost es = doc.entries@.take(ei + 1);
            assert(es.drop_last() == doc.entries@.take(ei as int));
            assert(es.last() == *entry);
            if is_single_word_exec(&h) {
                let d = source_definitions(entry);
                let t: Vec<Tag> = match doc.tag {
                    Some(tag) => vec![tag],
                    None => Vec::new(),
                };
                assert(t@ =~= tag_list(doc.tag));
                let ghost c = Contribution { headword: h@, definitions: d.deep_view(), tags: t@ };
                push_entry(&mut keys, &mut defs, &mut tags, h, d, t, Ghost(processed));
                proof {
                    processed = processed.push(c);
                }
            }
        }
        assert(doc.entries@.take(ne as int) == doc.entries@);
        assert(documents@.take(di + 1).drop_last() == documents@.take(di as int));
        assert(documents@.take(di + 1).last() == *doc);
    }
    assert(documents@.take(nd as int) == documents@);
    let mut entries: Vec<DictionaryEntry> = Vec::new();
    let n = keys.len();
    for i in 0..n
        invariant
            n == keys@.len(),
            merge_state(keys@, defs@, tags@, processed),
            entries@.len() == i,
            forall|k: int| 0 <= k < i ==> (#[trigger] entries@[k]).headword@ == keys@[k]@,
            forall|k: int|
                0 <= k < i ==> (#[trigger] entries@[k]).definitions.deep_view() == deduped(
                    defs@[k].deep_view(),
                ) && entries@[k].tags@ == normalized_tags(tags@[k]@),
    {
        entries.push(
            DictionaryEntry {
                headword: string_of(&keys[i]),
                definitions: dedupe_preserve_order(&defs[i]),
                tags: normalize_tags(&tags[i]),
            },
        );
    }
    proof {
        let ks = entries@.map_values(|e: DictionaryEntry| e.headword@);
        assert(ks =~= views(keys@));
    }
    PersistedDictionary { entries }
}


/// Counts over the source lists.
#[derive(Debug, Clone, PartialEq, Eq)]
pub struct SourceSummary {
    pub unique_headwords: usize,
    pub ignored_unique_phrases: usize,
    pub ignored_multi_word_headwords: usize,
    pub total_exact_query_keys: usize,
}

/// The canonical headwords of several words in a list, in order.
pub open spec fn list_multi_word_headwords(es: Seq<SourceDictionaryEntry>) -> Seq<Seq<char>>
    decreases es.len(),
{
    if es.len() == 0 {
        Seq::empty()
    } else {
        let acc = list_multi_word_headwords(es.drop_last());
        let h = english_key(es.last().word@);
        if h.len() > 0 && h.contains(' ') {
            acc.push(h)
        } else {
            acc
        }
    }
}

/// The canonical headwords of several words in all lists.
pub open spec fn multi_word_headwords(docs: Seq<SourceDocument>) -> Seq<Seq<char>>
    decreases docs.len(),
{
    if docs.len() == 0 {
        Seq::empty()
    } else {
        multi_word_headwords(docs.drop_last()) + list_multi_word_headwords(docs.last().entries@)
    }
}

/// The non-empty canonical forms of some phrases, in order.
pub open spec fn phrase_keys(ps: Seq<SourcePhrase>) -> Seq<Seq<char>>
    decreases ps.len(),
{
    if ps.len() == 0 {
        Seq::empty()
    } else {
        let acc = phrase_keys(ps.drop_last());
        let p = english_key(ps.last().phrase@);
        if p.len() > 0 {
            acc.push(p)
        } else {
            acc
        }
    }
}

/// The non-empty canonical phrases of a list, in order.
pub open spec fn list_phrase_keys(es: Seq<SourceDictionaryEntry>) -> Seq<Seq<char>>
    decreases es.len(),
{
    if es.len() == 0 {
        Seq::empty()
    } else {
        list_phrase_keys(es.drop_last()) + phrase_keys(es.last().phrases@)
    }
}

/// The non-empty canonical phrases of all lists, in order.
pub open spec fn all_phrase_keys(docs: Seq<SourceDocument>) -> Seq<Seq<char>>
    decreases docs.len(),
{
    if docs.len() == 0 {
        Seq::empty()
    } else {
        all_phrase_keys(docs.drop_last()) + list_phrase_keys(docs.last().entries@)
    }
}

/// A strictly sorted key list that holds exactly the keys of `source`.
spec fn key_set_of(keys: Seq<Vec<char>>, source: Seq<Seq<char>>) -> bool {
    &&& strictly_sorted(views(keys))
    &&& forall|x: Seq<char>| views(keys).contains(x) <==> source.contains(x)
}

#[verifier::spinoff_prover]
fn add_key(keys: &mut Vec<Vec<char>>, key: Vec<char>, Ghost(source): Ghost<Seq<Seq<char>>>)
    requires
        key_set_of(old(keys)@, source),
    ensures
        key_set_of(final(keys)@, source.push(key@)),
{
    assert forall|x: Seq<char>| source.push(key@).contains(x) <==> (source.contains(x) || x == key@) by {
        lemma_push_contains(source, key@, x);
    }
    let (lo, found) = locate(keys, &key);
    if found {
        assert(views(keys@)[lo as int] == key@);
        assert(views(keys@).contains(key@));
        assert forall|x: Seq<char>| views(keys@).contains(x) <==> source.push(key@).contains(x) by {
            lemma_push_contains(source, key@, x);
        }
        return ;
    }
    let ghost old_keys = views(keys@);
    proof {
        lemma_insert_sorted(old_keys, lo as int, key@);
    }
    let ghost k2 = key@;
    keys.insert(lo, key);
    proof {
        assert(views(keys@) =~= old_keys.insert(lo as int, k2));
        assert forall|x: Seq<char>| views(keys@).contains(x) <==> source.push(k2).contains(x) by {
            lemma_seq_insert_contains(old_keys, lo as int, k2, x);
            lemma_push_contains(source, k2, x);
            assert(old_keys.contains(x) <==> source.contains(x));
        }
    }
}

proof fn lemma_key_set_count(keys: Seq<Vec<char>>, source: Seq<Seq<char>>)
    requires
        key_set_of(keys, source),
    ensures
        keys.len() == source.to_set().len(),
{
    let ks = views(keys);
    assert forall|i: int, j: int| 0 <= i < ks.len() && 0 <= j < ks.len() && i != j implies ks[i]
        != ks[j] by {
        if i < j {
            assert(chars_lt(ks[i], ks[j]));
        } else {
            assert(chars_lt(ks[j], ks[i]));
        }
        crate::text::lemma_chars_lt_irreflexive(ks[i]);
    }
    assert(ks.no_duplicates());
    ks.unique_seq_to_set();
    assert(ks.to_set() =~= source.to_set());
}

fn empty_key_set(Ghost(source): Ghost<Seq<Seq<char>>>) -> (r: Vec<Vec<char>>)
    requires
        source.len() == 0,
    ensures
        key_set_of(r@, source),
{
    let r: Vec<Vec<char>> = Vec::new();
    assert(views(r@) =~= Seq::<Seq<char>>::empty());
    r
}

/// Counts the distinct single-word headwords, the distinct phrases and the
/// distinct multi-word headwords of the source lists; only the single-word
/// headwords become lookup keys.
#[verifier::spinoff_prover]
pub fn summarize_source_documents(documents: &Vec<SourceDocument>) -> (r: SourceSummary)
    ensures
        r.unique_headwords == headwords(contributions(documents@)).to_set().len(),
        r.ignored_unique_phrases == all_phrase_keys(documents@).to_set().len(),
        r.ignored_multi_word_headwords == multi_word_headwords(documents@).to_set().len(),
        r.total_exact_query_keys == r.unique_headwords,
{
    let ghost mut hs: Seq<Seq<char>> = Seq::empty();
    let ghost mut ps: Seq<Seq<char>> = Seq::empty();
    let ghost mut ms: Seq<Seq<char>> = Seq::empty();
    let mut heads = empty_key_set(Ghost(hs));
    let mut phrases = empty_key_set(Ghost(ps));
    let mut multi = empty_key_set(Ghost(ms));
    let nd = documents.len();
    for di in 0..nd
        invariant
            nd == documents@.len(),
            key_set_of(heads@, hs),
            key_set_of(phrases@, ps),
            key_set_of(multi@, ms),
            hs == headwords(contributions(documents@.take(di as int))),
            ps == all_phrase_keys(documents@.take(di as int)),
            ms == multi_word_headwords(documents@.take(di as int)),
    {
        let doc = &documents[di];
        let ne = doc.entries.len();
        let ghost (hb, pb, mb) = (hs, ps, ms);
        assert(list_contributions(doc.tag, doc.entries@.take(0)) =~= Seq::<Contribution>::empty());
        assert(headwords(list_contributions(doc.tag, doc.entries@.take(0))) =~= Seq::<Seq<char>>::empty());
        assert(hb + Seq::<Seq<char>>::empty() == hb);
        assert(pb + Seq::<Seq<char>>::empty() == pb);
        assert(mb + Seq::<Seq<char>>::empty() == mb);
        for ei in 0..ne
            invariant
                ne == doc.entries@.len(),
                key_set_of(heads@, hs),
                key_set_of(phrases@, ps),
                key_set_of(multi@, ms),
                hs == hb + headwords(list_contributions(doc.tag, doc.entries@.take(ei as int))),
                ps == pb + list_phrase_keys(doc.entries@.take(ei as int)),
                ms == mb + list_multi_word_headwords(doc.entries@.take(ei as int)),
        {
            let entry = &doc.entries[ei];
            let ghost es = doc.entries@.take(ei + 1);
            assert(es.drop_last() == doc.entries@.take(ei as int));
            assert(es.last() == *entry);
            let h = normalize_english_chars(&chars_of(entry.word.as_str()));
            let ghost hv = h@;
            if is_single_word_exec(&h) {
                add_key(&mut heads, h, Ghost(hs));
                proof {
                    hs = hs.push(hv);
                    assert(headwords(list_contributions(doc.tag, es)) =~= headwords(
                        list_contributions(doc.tag, doc.entries@.take(ei as int)),
                    ).push(hv));
                }
            } else if h.len() > 0 {
                add_key(&mut multi, h, Ghost(ms));
                proof {
                    ms = ms.push(hv);
                }
            }
            let np = entry.phrases.len();
            let ghost pe = ps;
            assert(phrase_keys(entry.phrases@.take(0)) =~= Seq::<Seq<char>>::empty());
            for pi in 0..np
                invariant
                    np == entry.phrases@.len(),
                    key_set_of(phrases@, ps),
                    ps == pe + phrase_keys(entry.phrases@.take(pi as int)),
            {
                let p = normalize_english_chars(&chars_of(entry.phrases[pi].phrase.as_str()));
                let ghost pv = p@;
                assert(entry.phrases@.take(pi + 1).drop_last() == entry.phrases@.take(pi as int));
                if p.len() > 0 {
                    add_key(&mut phrases, p, Ghost(ps));
                    proof {
                        ps = ps.push(pv);
                    }
                }
            }
            assert(entry.phrases@.take(np as int) == entry.phrases@);
            assert(ps == pb + list_phrase_keys(es));
        }
        assert(doc.entries@.take(ne as int) == doc.entries@);
        assert(documents@.take(di + 1).drop_last() == documents@.take(di as int));
        assert(documents@.take(di + 1).last() == *doc);
        assert(headwords(contributions(documents@.take(di + 1))) =~= headwords(
            contributions(documents@.take(di as int)),
        ) + headwords(list_contributions(doc.tag, doc.entries@)));
    }
    assert(documents@.take(nd as int) == documents@);
    proof {
        lemma_key_set_count(heads@, hs);
        lemma_key_set_count(phrases@, ps);
        lemma_key_set_count(multi@, ms);
    }
    SourceSummary {
        unique_headwords: heads.len(),
        ignored_unique_phrases: phrases.len(),
        ignored_multi_word_headwords: multi.len(),
        total_exact_query_keys: heads.len(),
    }
}


/// The source files read from the `json` directory of a vocabulary
/// repository, in order, with the tag that each gives its entries.
pub open spec fn source_files() -> Seq<(Seq<char>, Option<Tag>)> {
    seq![
        ("1-初中-顺序.json"@, Some(Tag::Common3500)),
        ("2-高中-顺序.json"@, None),
        ("3-CET4-顺序.json"@, Some(Tag::Cet4)),
        ("4-CET6-顺序.json"@, Some(Tag::Cet6)),
        ("5-考研-顺序.json"@, None),
        ("6-托福-顺序.json"@, None),
        ("7-SAT-顺序.json"@, None),
    ]
}

/// The source files to read and the tag of each.
pub fn source_file_specs() -> (r: Vec<(String, Option<Tag>)>)
    ensures
        r@.len() == source_files().len(),
        forall|i: int|
            0 <= i < r@.len() ==> (#[trigger] r@[i]).0@ == source_files()[i].0 && r@[i].1
                == source_files()[i].1,
{
    let mut r: Vec<(String, Option<Tag>)> = Vec::new();
    r.push((string_of(&chars_of("1-初中-顺序.json")), Some(Tag::Common3500)));
    r.push((string_of(&chars_of("2-高中-顺序.json")), None));
    r.push((string_of(&chars_of("3-CET4-顺序.json")), Some(Tag::Cet4)));
    r.push((string_of(&chars_of("4-CET6-顺序.json")), Some(Tag::Cet6)));
    r.push((string_of(&chars_of("5-考研-顺序.json")), None));
    r.push((string_of(&chars_of("6-托福-顺序.json")), None));
    r.push((string_of(&chars_of("7-SAT-顺序.json")), None));
    r
}


proof fn lemma_list_contributions_single(tag: Option<Tag>, es: Seq<SourceDictionaryEntry>)
    ensures
        forall|k: int|
            0 <= k < list_contributions(tag, es).len() ==> is_single_word(
                (#[trigger] list_contributions(tag, es)[k]).headword,
            ),
    decreases es.len(),
{
    if es.len() > 0 {
        lemma_list_contributions_single(tag, es.drop_last());
        let a = list_contributions(tag, es.drop_last());
        let all = list_contributions(tag, es);
        assert forall|k: int| 0 <= k < all.len() implies is_single_word((#[trigger] all[k]).headword) by {
            if k < a.len() {
                assert(all[k] == a[k]);
            }
        }
    }
}

proof fn lemma_contributions_single(docs: Seq<SourceDocument>)
    ensures
        forall|k: int|
            0 <= k < contributions(docs).len() ==> is_single_word(
                (#[trigger] contributions(docs)[k]).headword,
            ),
    decreases docs.len(),
{
    if docs.len() > 0 {
        lemma_contributions_single(docs.drop_last());
        lemma_list_contributions_single(docs.last().tag, docs.last().entries@);
        let a = contributions(docs.drop_last());
        let b = list_contributions(docs.last().tag, docs.last().entries@);
        assert forall|k: int| 0 <= k < contributions(docs).len() implies is_single_word(
            (#[trigger] contributions(docs)[k]).headword,
        ) by {
            if k < a.len() {
                assert(contributions(docs)[k] == a[k]);
            } else {
                assert(contributions(docs)[k] == b[k - a.len()]);
            }
        }
    }
}

/// The dataset built from source lists holds single words only: no phrase
/// and no multi-word headword becomes an entry.
pub proof fn merged_headwords_are_single_words(
    entries: Seq<DictionaryEntry>,
    docs: Seq<SourceDocument>,
)
    requires
        is_merged_from(entries, contributions(docs)),
    ensures
        forall|i: int| 0 <= i < entries.len() ==> is_single_word((#[trigger] entries[i]).headword@),
{
    let cs = contributions(docs);
    lemma_contributions_single(docs);
    let keys = entries.map_values(|e: DictionaryEntry| e.headword@);
    assert forall|i: int| 0 <= i < entries.len() implies is_single_word((#[trigger] entries[i]).headword@) by {
        assert(keys[i] == entries[i].headword@);
        assert(keys.contains(entries[i].headword@));
        assert(headwords(cs).contains(entries[i].headword@));
        let k = choose|k: int| 0 <= k < headwords(cs).len() && headwords(cs)[k] == entries[i].headword@;
        assert(headwords(cs)[k] == cs[k].headword);
    }
}

/// A part-of-speech marker: lowercase letters followed by a full stop.
spec fn marker_shaped(p: Seq<char>) -> bool {
    &&& p.len() >= 2
    &&& p.last() == '.'
    &&& forall|k: int| 0 <= k < p.len() - 1 ==> 'a' <= #[trigger] p[k] <= 'z'
}

proof fn lemma_markers_are_shaped()
    ensures
        forall|i: int| 0 <= i < pos_prefixes().len() ==> marker_shaped(#[trigger] pos_prefixes()[i]),
{
    let ps = pos_prefixes();
    assert(marker_shaped(ps[0]));
    assert(marker_shaped(ps[1]));
    assert(marker_shaped(ps[2]));
    assert(marker_shaped(ps[3]));
    assert(marker_shaped(ps[4]));
    assert(marker_shaped(ps[5]));
    assert(marker_shaped(ps[6]));
    assert(marker_shaped(ps[7]));
    assert(marker_shaped(ps[8]));
    assert(marker_shaped(ps[9]));
    assert(marker_shaped(ps[10]));
    assert(marker_shaped(ps[11]));
    assert(marker_shaped(ps[12]));
}

/// A text that starts with a marker and a space starts with no other marker.
proof fn lemma_marker_unique(u: Seq<char>, p: Seq<char>, q: Seq<char>)
    requires
        marker_shaped(p),
        marker_shaped(q),
        starts_with(u, p),
        starts_with(u, q),
        u.len() > p.len(),
        u[p.len() as int] == ' ',
    ensures
        q == p,
{
    let np = p.len() as int;
    let nq = q.len() as int;
    if nq > np {
        assert(u.take(nq)[np] == u[np]);
        assert(q[np] == ' ');
        if np < nq - 1 {
            assert('a' <= q[np] <= 'z');
        }
    } else if nq < np {
        assert(u.take(nq)[nq - 1] == u[nq - 1]);
        assert(u.take(np)[nq - 1] == u[nq - 1]);
        assert(p[nq - 1] == '.');
        assert('a' <= p[nq - 1] <= 'z');
    } else {
        assert(q == u.take(np));
    }
}

proof fn lemma_after_marker_finds(u: Seq<char>, ps: Seq<Seq<char>>, p: Seq<char>)
    requires
        forall|i: int| 0 <= i < ps.len() ==> marker_shaped(#[trigger] ps[i]),
        ps.contains(p),
        starts_with(u, p),
        u.len() > p.len(),
        u[p.len() as int] == ' ',
    ensures
        after_marker(u, ps) == Some(trim_start(u.skip(p.len() as int))),
    decreases ps.len(),
{
    let j = choose|j: int| 0 <= j < ps.len() && ps[j] == p;
    assert(marker_shaped(ps[j]));
    if starts_with(u, ps[0]) {
        assert(marker_shaped(ps[0]));
        lemma_marker_unique(u, p, ps[0]);
    } else {
        assert(j > 0);
        assert(ps.drop_first()[j - 1] == p);
        assert forall|i: int| 0 <= i < ps.drop_first().len() implies marker_shaped(
            #[trigger] ps.drop_first()[i],
        ) by {
            assert(ps.drop_first()[i] == ps[i + 1]);
        }
        lemma_after_marker_finds(u, ps.drop_first(), p);
    }
}

/// Trailing whitespace cut from a text that starts with a kept character:
/// the start stays, and so does anything put before it.
proof fn lemma_cut_end_after(a: Seq<char>, b: Seq<char>)
    requires
        b.len() > 0,
        !crate::text::is_ws(b[0]),
    ensures
        crate::text::cut_end(a + b, false) == a + crate::text::cut_end(b, false),
        crate::text::cut_end(b, false).len() > 0,
        crate::text::cut_end(b, false)[0] == b[0],
        !crate::text::is_ws(crate::text::cut_end(b, false).last()),
    decreases b.len(),
{
    if crate::text::is_cut(b.last(), false) {
        assert(b.len() >= 2);
        assert((a + b).last() == b.last());
        assert((a + b).drop_last() =~= a + b.drop_last());
        lemma_cut_end_after(a, b.drop_last());
    }
}

/// A translation that starts with a part-of-speech marker, a space and a CJK
/// ideograph has the same definitions as the text after the marker: the
/// markers `n.`, `v.`, `vt.`, `vi.`, `adj.`, `adv.`, `prep.`, `pron.`,
/// `conj.`, `int.`, `num.`, `art.` and `aux.` are dropped.
pub proof fn part_of_speech_marker_is_dropped(p: Seq<char>, x: Seq<char>)
    requires
        seq![
            seq!['n', '.'],
            seq!['v', '.'],
            seq!['v', 't', '.'],
            seq!['v', 'i', '.'],
            seq!['a', 'd', 'j', '.'],
            seq!['a', 'd', 'v', '.'],
            seq!['p', 'r', 'e', 'p', '.'],
            seq!['p', 'r', 'o', 'n', '.'],
            seq!['c', 'o', 'n', 'j', '.'],
            seq!['i', 'n', 't', '.'],
            seq!['n', 'u', 'm', '.'],
            seq!['a', 'r', 't', '.'],
            seq!['a', 'u', 'x', '.'],
        ].contains(p),
        x.len() > 0,
        crate::text::is_cjk(x[0]),
    ensures
        translation_definitions(p + seq![' '] + x) == translation_definitions(x),
{
    let ps = pos_prefixes();
    lemma_markers_are_shaped();
    let j = choose|j: int| 0 <= j < ps.len() && ps[j] == p;
    assert(marker_shaped(ps[j]));
    let np = p.len() as int;
    let c = x[0];
    assert(!crate::text::is_ws(c));
    assert(closing_bracket(c) is None);
    let s = p + seq![' '] + x;
    let t = crate::text::cut_end(x, false);
    lemma_cut_end_after(p + seq![' '], x);
    lemma_cut_end_after(Seq::empty(), t);
    assert(Seq::<char>::empty() + t == t);
    // the text after its whitespace is trimmed
    assert(crate::text::cut_start(x, false) == x);
    assert(trim(x) == t);
    assert(s[0] == p[0]);
    assert('a' <= p[0] <= 'z');
    assert(crate::text::cut_start(s, false) == s);
    let u = p + seq![' '] + t;
    assert(trim(s) == u);
    assert(crate::text::cut_start(t, false) == t);
    assert(trim(t) == t);
    // no bracket group leads either text
    assert(u[0] == p[0]);
    assert(after_bracket_group(u) is None);
    assert(strip_bracket_groups(u) == u);
    assert(after_bracket_group(t) is None);
    assert(strip_bracket_groups(t) == t);
    // the marker is found and dropped
    assert(u.take(np) =~= p);
    assert(u[np] == ' ');
    lemma_after_marker_finds(u, ps, p);
    let rest = seq![' '] + t;
    assert(u.skip(np) =~= rest);
    assert(rest[0] == ' ');
    assert(crate::text::is_ws(' '));
    assert(rest.drop_first() =~= t);
    assert(crate::text::cut_start(rest, false) == crate::text::cut_start(t, false));
    assert(trim_start(u.skip(np)) == t);
    assert(strip_markers(u) == strip_markers(trim(t)));
    assert(strip_noise(s) == strip_noise(x));
}

} // verus!
