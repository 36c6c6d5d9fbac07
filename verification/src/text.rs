//! Character-level text handling: conversions between strings and character
//! vectors, Unicode whitespace, trimming, whitespace collapsing and decimal
//! rendering of numbers.

use vstd::prelude::*;

verus! {

/// `String::push` appends one character at the end of the string.
pub assume_specification[ String::push ](s: &mut String, ch: char)
    ensures
        final(s)@ == old(s)@.push(ch),
;

/// Copies the characters of a string slice into a vector, in order.
pub fn chars_of(s: &str) -> (r: Vec<char>)
    ensures
        r@ == s@,
{
    let mut r: Vec<char> = Vec::new();
    for c in it: s.chars()
        invariant
            r@ == it.seq().take(it.index()),
            it.seq() == s@,
    {
        r.push(c);
    }
    r
}

/// Builds a string holding exactly the given characters.
pub fn string_of(v: &Vec<char>) -> (r: String)
    ensures
        r@ == v@,
{
    let mut r = String::new();
    let n = v.len();
    for i in 0..n
        invariant
            n == v@.len(),
            r@ == v@.take(i as int),
    {
        r.push(v[i]);
        assert(v@.take(i + 1) == v@.take(i as int).push(v@[i as int]));
    }
    assert(v@.take(n as int) == v@);
    r
}


/// The Unicode `White_Space` property, which is what `char::is_whitespace`,
/// `str::trim` and `str::split_whitespace` go by.
pub open spec fn is_ws(c: char) -> bool {
    let u = c as u32;
    ||| 0x9 <= u <= 0xD
    ||| u == 0x20
    ||| u == 0x85
    ||| u == 0xA0
    ||| u == 0x1680
    ||| 0x2000 <= u <= 0x200A
    ||| u == 0x2028
    ||| u == 0x2029
    ||| u == 0x202F
    ||| u == 0x205F
    ||| u == 0x3000
}

/// Whether a character is Unicode whitespace.
pub fn is_whitespace(c: char) -> (r: bool)
    ensures
        r == is_ws(c),
{
    let u = c as u32;
    (0x9 <= u && u <= 0xD) || u == 0x20 || u == 0x85 || u == 0xA0 || u == 0x1680 || (0x2000 <= u
        && u <= 0x200A) || u == 0x2028 || u == 0x2029 || u == 0x202F || u == 0x205F || u == 0x3000
}

/// Punctuation that is cut from both ends of a definition: colons, full
/// stops, quotation marks and apostrophes.
pub open spec fn is_edge_punct(c: char) -> bool {
    c == ':' || c == '：' || c == '.' || c == '。' || c == ' ' || c == '“' || c == '”' || c == '"'
        || c == '\''
}

/// A character that trimming removes: whitespace, and edge punctuation too
/// when `punct` holds.
pub open spec fn is_cut(c: char, punct: bool) -> bool {
    is_ws(c) || (punct && is_edge_punct(c))
}

/// The text with leading cut characters removed.
pub open spec fn cut_start(s: Seq<char>, punct: bool) -> Seq<char>
    decreases s.len(),
{
    if s.len() > 0 && is_cut(s[0], punct) {
        cut_start(s.drop_first(), punct)
    } else {
        s
    }
}

/// The text with trailing cut characters removed.
pub open spec fn cut_end(s: Seq<char>, punct: bool) -> Seq<char>
    decreases s.len(),
{
    if s.len() > 0 && is_cut(s.last(), punct) {
        cut_end(s.drop_last(), punct)
    } else {
        s
    }
}

/// The text with leading whitespace removed, as `str::trim_start` does.
pub open spec fn trim_start(s: Seq<char>) -> Seq<char> {
    cut_start(s, false)
}

/// The text with whitespace removed at both ends, as `str::trim` does.
pub open spec fn trim(s: Seq<char>) -> Seq<char> {
    cut_end(cut_start(s, false), false)
}

/// The text with whitespace and edge punctuation removed at both ends.
pub open spec fn trim_punct(s: Seq<char>) -> Seq<char> {
    cut_end(cut_start(s, true), true)
}

proof fn lemma_cut_start_skip(s: Seq<char>, i: int, punct: bool)
    requires
        0 <= i <= s.len(),
        forall|k: int| 0 <= k < i ==> is_cut(#[trigger] s[k], punct),
    ensures
        cut_start(s, punct) == cut_start(s.subrange(i, s.len() as int), punct),
    decreases i,
{
    if i > 0 {
        assert(s.drop_first() == s.subrange(1, s.len() as int));
        lemma_cut_start_skip(s.drop_first(), i - 1, punct);
        assert(s.drop_first().subrange(i - 1, s.drop_first().len() as int) == s.subrange(
            i,
            s.len() as int,
        ));
    } else {
        assert(s.subrange(0, s.len() as int) == s);
    }
}

proof fn lemma_cut_end_skip(s: Seq<char>, j: int, punct: bool)
    requires
        0 <= j <= s.len(),
        forall|k: int| j <= k < s.len() ==> is_cut(#[trigger] s[k], punct),
    ensures
        cut_end(s, punct) == cut_end(s.subrange(0, j), punct),
    decreases s.len() - j,
{
    if j < s.len() {
        assert(s.drop_last() == s.subrange(0, s.len() - 1));
        lemma_cut_end_skip(s.drop_last(), j, punct);
        assert(s.drop_last().subrange(0, j) == s.subrange(0, j));
    } else {
        assert(s.subrange(0, j) == s);
    }
}

fn is_cut_char(c: char, punct: bool) -> (r: bool)
    ensures
        r == is_cut(c, punct),
{
    is_whitespace(c) || (punct && (c == ':' || c == '：' || c == '.' || c == '。' || c == ' ' || c
        == '“' || c == '”' || c == '"' || c == '\''))
}

/// Where the text starts once leading cut characters are skipped.
pub fn cut_start_index(s: &Vec<char>, punct: bool) -> (i: usize)
    ensures
        i <= s@.len(),
        cut_start(s@, punct) == s@.subrange(i as int, s@.len() as int),
{
    let n = s.len();
    let mut i: usize = 0;
    while i < n && is_cut_char(s[i], punct)
        invariant
            i <= n,
            n == s@.len(),
            forall|k: int| 0 <= k < i ==> is_cut(#[trigger] s@[k], punct),
        decreases n - i,
    {
        i += 1;
    }
    proof {
        lemma_cut_start_skip(s@, i as int, punct);
    }
    let ghost t = s@.subrange(i as int, n as int);
    assert(cut_start(t, punct) == t);
    i
}

/// The characters of `s` without cut characters at either end.
pub fn trim_chars_with(s: &Vec<char>, punct: bool) -> (r: Vec<char>)
    ensures
        r@ == cut_end(cut_start(s@, punct), punct),
{
    let n = s.len();
    let i = cut_start_index(s, punct);
    let ghost t = s@.subrange(i as int, n as int);
    let mut j: usize = n;
    while j > i && is_cut_char(s[j - 1], punct)
        invariant
            i <= j <= n,
            n == s@.len(),
            forall|k: int| j <= k < n ==> is_cut(#[trigger] s@[k], punct),
        decreases j,
    {
        j -= 1;
    }
    proof {
        lemma_cut_end_skip(t, j - i, punct);
        assert(t.subrange(0, j - i) == s@.subrange(i as int, j as int));
    }
    let mut r: Vec<char> = Vec::new();
    let mut k: usize = i;
    while k < j
        invariant
            i <= k <= j <= n,
            n == s@.len(),
            r@ == s@.subrange(i as int, k as int),
        decreases j - k,
    {
        r.push(s[k]);
        assert(s@.subrange(i as int, k + 1) == s@.subrange(i as int, k as int).push(s@[k as int]));
        k += 1;
    }
    r
}

/// Cutting never makes a text longer.
pub proof fn lemma_cut_len(s: Seq<char>, punct: bool)
    ensures
        cut_start(s, punct).len() <= s.len(),
        cut_end(s, punct).len() <= s.len(),
        cut_end(cut_start(s, punct), punct).len() <= s.len(),
    decreases s.len(),
{
    if s.len() > 0 {
        lemma_cut_len(s.drop_first(), punct);
        lemma_cut_len(s.drop_last(), punct);
    }
    lemma_cut_end_len(cut_start(s, punct), punct);
}

proof fn lemma_cut_end_len(s: Seq<char>, punct: bool)
    ensures
        cut_end(s, punct).len() <= s.len(),
    decreases s.len(),
{
    if s.len() > 0 {
        lemma_cut_end_len(s.drop_last(), punct);
    }
}

/// The pieces of `s` between separator characters, left to right: one more
/// piece than there are separators, as `str::split` yields them.
pub open spec fn split_by(s: Seq<char>, seps: Seq<char>) -> Seq<Seq<char>>
    decreases s.len(),
{
    if s.len() == 0 {
        seq![Seq::empty()]
    } else {
        let p = split_by(s.drop_last(), seps);
        if seps.contains(s.last()) {
            p.push(Seq::empty())
        } else {
            p.update(p.len() - 1, p.last().push(s.last()))
        }
    }
}

/// The pieces of `s` between separator characters.
pub fn split_chars(s: &Vec<char>, seps: &Vec<char>) -> (r: Vec<Vec<char>>)
    ensures
        views(r@) == split_by(s@, seps@),
{
    let n = s.len();
    let mut done: Vec<Vec<char>> = Vec::new();
    let mut piece: Vec<char> = Vec::new();
    for i in 0..n
        invariant
            n == s@.len(),
            split_by(s@.take(i as int), seps@).len() >= 1,
            views(done@) == split_by(s@.take(i as int), seps@).drop_last(),
            piece@ == split_by(s@.take(i as int), seps@).last(),
    {
        let c = s[i];
        let ghost pre = s@.take(i as int);
        let ghost cur = s@.take(i + 1);
        assert(cur.drop_last() == pre);
        assert(cur.last() == c);
        let mut is_sep = false;
        let m = seps.len();
        for k in 0..m
            invariant
                m == seps@.len(),
                is_sep == seps@.take(k as int).contains(c),
        {
            if seps[k] == c {
                is_sep = true;
            }
            proof {
                let t0 = seps@.take(k as int);
                let t1 = seps@.take(k + 1);
                if seps@[k as int] == c {
                    assert(t1[k as int] == c);
                }
                if t1.contains(c) && seps@[k as int] != c {
                    let j = choose|j: int| 0 <= j < t1.len() && t1[j] == c;
                    assert(t0[j] == c);
                }
                if t0.contains(c) {
                    let j = choose|j: int| 0 <= j < t0.len() && t0[j] == c;
                    assert(t1[j] == c);
                }
            }
        }
        assert(seps@.take(m as int) == seps@);
        if is_sep {
            let ghost before = views(done@);
            done.push(piece);
            piece = Vec::new();
            proof {
                let p = split_by(pre, seps@);
                assert(split_by(cur, seps@) == p.push(Seq::empty()));
                assert(views(done@) =~= before.push(p.last()));
                assert(p.drop_last().push(p.last()) == p);
            }
        } else {
            piece.push(c);
            proof {
                let p = split_by(pre, seps@);
                assert(split_by(cur, seps@).drop_last() == p.drop_last());
            }
        }
    }
    assert(s@.take(n as int) == s@);
    let ghost all = split_by(s@, seps@);
    let ghost before = views(done@);
    done.push(piece);
    assert(views(done@) =~= before.push(all.last()));
    assert(all.drop_last().push(all.last()) == all);
    done
}

/// The characters of `s` without whitespace at either end.
pub fn trim_chars(s: &Vec<char>) -> (r: Vec<char>)
    ensures
        r@ == trim(s@),
{
    trim_chars_with(s, false)
}

/// The maximal runs of non-whitespace characters of `s`, left to right, as
/// `str::split_whitespace` yields them.
pub open spec fn words(s: Seq<char>) -> Seq<Seq<char>>
    decreases s.len(),
{
    if s.len() == 0 {
        Seq::empty()
    } else {
        let w = words(s.drop_last());
        let c = s.last();
        if is_ws(c) {
            w
        } else if s.len() > 1 && !is_ws(s[s.len() - 2]) {
            w.update(w.len() - 1, w.last().push(c))
        } else {
            w.push(seq![c])
        }
    }
}

/// The pieces joined with `sep` between consecutive pieces, as `join` on a
/// slice of strings does.
pub open spec fn join(pieces: Seq<Seq<char>>, sep: Seq<char>) -> Seq<char>
    decreases pieces.len(),
{
    if pieces.len() == 0 {
        Seq::empty()
    } else if pieces.len() == 1 {
        pieces[0]
    } else {
        join(pieces.drop_last(), sep) + sep + pieces.last()
    }
}

/// ASCII lowercasing of one character; every other character is kept.
pub open spec fn lower(c: char) -> char {
    if 'A' <= c && c <= 'Z' {
        ((c as u32) + 32) as char
    } else {
        c
    }
}

/// ASCII lowercasing of a text, as `str::to_ascii_lowercase` does.
pub open spec fn lower_seq(s: Seq<char>) -> Seq<char> {
    s.map_values(|c: char| lower(c))
}

/// An English query or headword in canonical form: whitespace runs collapsed
/// to single spaces, no whitespace at the ends, ASCII letters lowercased.
pub open spec fn english_key(s: Seq<char>) -> Seq<char> {
    lower_seq(join(words(s), seq![' ']))
}

/// A Chinese query or definition in canonical form: all whitespace removed.
pub open spec fn chinese_key(s: Seq<char>) -> Seq<char> {
    join(words(s), Seq::empty())
}

proof fn lemma_words_nonempty(s: Seq<char>)
    requires
        s.len() > 0,
        !is_ws(s.last()),
    ensures
        words(s).len() > 0,
    decreases s.len(),
{
    if s.len() > 1 && !is_ws(s[s.len() - 2]) {
        lemma_words_nonempty(s.drop_last());
    }
}

proof fn lemma_join_push(pieces: Seq<Seq<char>>, sep: Seq<char>, p: Seq<char>)
    requires
        pieces.len() > 0,
    ensures
        join(pieces.push(p), sep) == join(pieces, sep) + sep + p,
{
    assert(pieces.push(p).drop_last() == pieces);
}

proof fn lemma_join_extend_last(pieces: Seq<Seq<char>>, sep: Seq<char>, c: char)
    requires
        pieces.len() > 0,
    ensures
        join(pieces.update(pieces.len() - 1, pieces.last().push(c)), sep) == join(pieces, sep).push(c),
{
    let q = pieces.update(pieces.len() - 1, pieces.last().push(c));
    if pieces.len() > 1 {
        assert(q.drop_last() == pieces.drop_last());
        assert(q.last() == pieces.last().push(c));
    }
}

/// The words of `s` joined by `sep`.
#[verifier::spinoff_prover]
pub fn join_words(s: &Vec<char>, sep: &Vec<char>) -> (r: Vec<char>)
    ensures
        r@ == join(words(s@), sep@),
{
    let n = s.len();
    let mut r: Vec<char> = Vec::new();
    let mut pending = false;
    let mut any = false;
    for i in 0..n
        invariant
            n == s@.len(),
            any == (words(s@.take(i as int)).len() > 0),
            r@ == join(words(s@.take(i as int)), sep@),
            pending == (words(s@.take(i as int)).len() > 0 && i > 0 && is_ws(s@[i - 1])),
            i > 0 && !is_ws(s@[i - 1]) ==> words(s@.take(i as int)).len() > 0,
    {
        let c = s[i];
        let ghost pre = s@.take(i as int);
        let ghost cur = s@.take(i + 1);
        assert(cur.drop_last() == pre);
        assert(cur.last() == c);
        if is_whitespace(c) {
            if any {
                pending = true;
            }
        } else {
            if pending {
                let m = sep.len();
                for k in 0..m
                    invariant
                        m == sep@.len(),
                        r@ == join(words(pre), sep@) + sep@.take(k as int),
                {
                    r.push(sep[k]);
                    assert(sep@.take(k + 1) == sep@.take(k as int).push(sep@[k as int]));
                }
                assert(sep@.take(m as int) == sep@);
                pending = false;
                proof {
                    lemma_join_push(words(pre), sep@, seq![c]);
                    assert(join(words(pre), sep@) + sep@ + seq![c] == r@.push(c));
                }
            } else {
                proof {
                    if i > 0 && !is_ws(s@[i - 1]) {
                        assert(pre[pre.len() - 1] == s@[i - 1]);
                        lemma_join_extend_last(words(pre), sep@, c);
                    } else {
                        assert(words(pre).len() == 0);
                        assert(words(pre).push(seq![c]) == seq![seq![c]]);
                        assert(join(seq![seq![c]], sep@) == seq![c]);
                        assert(r@ == Seq::<char>::empty());
                    }
                }
            }
            r.push(c);
            any = true;
            proof {
                lemma_words_nonempty(cur);
            }
        }
    }
    assert(s@.take(n as int) == s@);
    r
}

/// ASCII lowercasing of one character.
pub fn lower_char(c: char) -> (r: char)
    ensures
        r == lower(c),
{
    if 'A' <= c && c <= 'Z' {
        let u = (c as u32) + 32;
        (u as u8) as char
    } else {
        c
    }
}

/// Canonical form of an English text, see `english_key`.
pub fn normalize_english_chars(s: &Vec<char>) -> (r: Vec<char>)
    ensures
        r@ == english_key(s@),
{
    let sep: Vec<char> = vec![' '];
    assert(sep@ == seq![' ']);
    let joined = join_words(s, &sep);
    let n = joined.len();
    let mut r: Vec<char> = Vec::new();
    for i in 0..n
        invariant
            n == joined@.len(),
            r@ == lower_seq(joined@.take(i as int)),
    {
        r.push(lower_char(joined[i]));
        assert(lower_seq(joined@.take(i + 1)) == lower_seq(joined@.take(i as int)).push(
            lower(joined@[i as int]),
        ));
    }
    assert(joined@.take(n as int) == joined@);
    r
}

/// Canonical form of a Chinese text, see `chinese_key`.
pub fn normalize_chinese_chars(s: &Vec<char>) -> (r: Vec<char>)
    ensures
        r@ == chinese_key(s@),
{
    let sep: Vec<char> = Vec::new();
    join_words(s, &sep)
}


/// The decimal digit character for `d < 10`.
pub open spec fn digit(d: nat) -> char {
    ((d + 48) as u8) as char
}

/// The decimal representation of `n`, without sign or leading zeros.
pub open spec fn decimal(n: nat) -> Seq<char>
    decreases n,
{
    if n < 10 {
        seq![digit(n)]
    } else {
        decimal(n / 10).push(digit(n % 10))
    }
}

/// The decimal representation of `n`.
pub fn decimal_chars(n: usize) -> (r: Vec<char>)
    ensures
        r@ == decimal(n as nat),
    decreases n,
{
    let d = ((n % 10) as u8 + 48) as char;
    if n < 10 {
        vec![d]
    } else {
        let mut r = decimal_chars(n / 10);
        r.push(d);
        r
    }
}

/// Appends the characters of `extra` to `v`.
pub fn push_all(v: &mut Vec<char>, extra: &Vec<char>)
    ensures
        final(v)@ == old(v)@ + extra@,
{
    let m = extra.len();
    for k in 0..m
        invariant
            m == extra@.len(),
            v@ == old(v)@ + extra@.take(k as int),
    {
        v.push(extra[k]);
        assert(extra@.take(k + 1) == extra@.take(k as int).push(extra@[k as int]));
    }
    assert(extra@.take(m as int) == extra@);
}

/// Appends the characters of a string slice to `v`.
pub fn push_str(v: &mut Vec<char>, extra: &str)
    ensures
        final(v)@ == old(v)@ + extra@,
{
    let e = chars_of(extra);
    push_all(v, &e);
}

/// A CJK Unified Ideograph: the basic block, extension A, extensions B to F,
/// or the compatibility ideographs.
pub open spec fn is_cjk(c: char) -> bool {
    let u = c as u32;
    ||| 0x4E00 <= u <= 0x9FFF
    ||| 0x3400 <= u <= 0x4DBF
    ||| 0x20000 <= u <= 0x2A6DF
    ||| 0x2A700 <= u <= 0x2B73F
    ||| 0x2B740 <= u <= 0x2B81F
    ||| 0x2B820 <= u <= 0x2CEAF
    ||| 0xF900 <= u <= 0xFAFF
}

/// Whether a text holds at least one CJK ideograph.
pub open spec fn has_cjk(s: Seq<char>) -> bool {
    exists|i: int| 0 <= i < s.len() && is_cjk(#[trigger] s[i])
}

/// Whether a character is a CJK Unified Ideograph.
pub fn is_cjk_unified_ideograph(character: char) -> (r: bool)
    ensures
        r == is_cjk(character),
{
    let u = character as u32;
    (0x4E00 <= u && u <= 0x9FFF) || (0x3400 <= u && u <= 0x4DBF) || (0x20000 <= u && u <= 0x2A6DF)
        || (0x2A700 <= u && u <= 0x2B73F) || (0x2B740 <= u && u <= 0x2B81F) || (0x2B820 <= u && u
        <= 0x2CEAF) || (0xF900 <= u && u <= 0xFAFF)
}

/// Whether the characters hold at least one CJK ideograph.
pub fn has_cjk_chars(s: &Vec<char>) -> (r: bool)
    ensures
        r == has_cjk(s@),
{
    let n = s.len();
    for i in 0..n
        invariant
            n == s@.len(),
            forall|k: int| 0 <= k < i ==> !is_cjk(#[trigger] s@[k]),
    {
        if is_cjk_unified_ideograph(s[i]) {
            return true;
        }
    }
    false
}

/// Lexicographic order of texts by code point, which is the order of `String`
/// (UTF-8 preserves code point order byte for byte).
pub open spec fn chars_lt(a: Seq<char>, b: Seq<char>) -> bool
    decreases a.len(),
{
    if a.len() == 0 {
        b.len() > 0
    } else if b.len() == 0 {
        false
    } else if a[0] != b[0] {
        a[0] < b[0]
    } else {
        chars_lt(a.drop_first(), b.drop_first())
    }
}

/// `chars_lt` is irreflexive.
pub proof fn lemma_chars_lt_irreflexive(a: Seq<char>)
    ensures
        !chars_lt(a, a),
    decreases a.len(),
{
    if a.len() > 0 {
        lemma_chars_lt_irreflexive(a.drop_first());
    }
}

/// `chars_lt` is transitive.
pub proof fn lemma_chars_lt_transitive(a: Seq<char>, b: Seq<char>, c: Seq<char>)
    requires
        chars_lt(a, b),
        chars_lt(b, c),
    ensures
        chars_lt(a, c),
    decreases a.len(),
{
    if a.len() > 0 && b.len() > 0 && c.len() > 0 && a[0] == b[0] && b[0] == c[0] {
        lemma_chars_lt_transitive(a.drop_first(), b.drop_first(), c.drop_first());
    }
}

/// Two different texts are ordered one way or the other.
pub proof fn lemma_chars_lt_total(a: Seq<char>, b: Seq<char>)
    ensures
        a == b || chars_lt(a, b) || chars_lt(b, a),
    decreases a.len(),
{
    if a.len() > 0 && b.len() > 0 && a[0] == b[0] {
        lemma_chars_lt_total(a.drop_first(), b.drop_first());
        if a.drop_first() == b.drop_first() {
            assert(a == seq![a[0]] + a.drop_first());
            assert(b == seq![b[0]] + b.drop_first());
        }
    } else if a.len() > 0 && b.len() > 0 {
        assert(a[0] < b[0] || b[0] < a[0]);
    } else if a.len() == 0 && b.len() == 0 {
        assert(a == b);
    }
}

/// `chars_lt` is asymmetric.
pub proof fn lemma_chars_lt_asymmetric(a: Seq<char>, b: Seq<char>)
    requires
        chars_lt(a, b),
    ensures
        !chars_lt(b, a),
{
    if chars_lt(b, a) {
        lemma_chars_lt_transitive(a, b, a);
        lemma_chars_lt_irreflexive(a);
    }
}

/// Three-way comparison of texts: -1 when `a` sorts first, 0 when equal, 1
/// when `b` sorts first.
#[verifier::spinoff_prover]
pub fn compare_chars(a: &Vec<char>, b: &Vec<char>) -> (r: i8)
    ensures
        r == -1 <==> chars_lt(a@, b@),
        r == 0 <==> a@ == b@,
        r == 1 <==> chars_lt(b@, a@),
        r == -1 || r == 0 || r == 1,
{
    let n = a.len();
    let m = b.len();
    let mut i: usize = 0;
    assert(a@.skip(0) == a@);
    assert(b@.skip(0) == b@);
    while i < n && i < m
        invariant
            i <= n,
            i <= m,
            n == a@.len(),
            m == b@.len(),
            a@.take(i as int) == b@.take(i as int),
            chars_lt(a@, b@) == chars_lt(a@.skip(i as int), b@.skip(i as int)),
            chars_lt(b@, a@) == chars_lt(b@.skip(i as int), a@.skip(i as int)),
        decreases n - i,
    {
        if a[i] != b[i] {
            proof {
                assert(a@.skip(i as int)[0] == a@[i as int]);
                assert(b@.skip(i as int)[0] == b@[i as int]);
                if a@ == b@ {
                    assert(a@[i as int] == b@[i as int]);
                }
            }
            if a[i] < b[i] {
                return -1;
            } else {
                return 1;
            }
        }
        proof {
            assert(a@.skip(i as int).drop_first() == a@.skip(i + 1));
            assert(b@.skip(i as int).drop_first() == b@.skip(i + 1));
            assert(a@.take(i + 1) == a@.take(i as int).push(a@[i as int]));
            assert(b@.take(i + 1) == b@.take(i as int).push(b@[i as int]));
        }
        i += 1;
    }
    proof {
        assert(a@.skip(i as int).len() == n - i);
        assert(b@.skip(i as int).len() == m - i);
    }
    if n == m {
        assert(a@ == a@.take(i as int));
        assert(b@ == b@.take(i as int));
        proof {
            lemma_chars_lt_irreflexive(a@);
        }
        0
    } else if n < m {
        proof {
            assert(a@ == a@.take(i as int));
            if a@ == b@ {
                assert(false);
            }
        }
        -1
    } else {
        proof {
            assert(b@ == b@.take(i as int));
        }
        1
    }
}


/// The views of a vector of character vectors.
pub open spec fn views(v: Seq<Vec<char>>) -> Seq<Seq<char>> {
    v.map_values(|x: Vec<char>| x@)
}

/// The pieces joined with `sep` between consecutive pieces.
pub fn join_chars(pieces: &Vec<Vec<char>>, sep: &Vec<char>) -> (r: Vec<char>)
    ensures
        r@ == join(views(pieces@), sep@),
{
    let n = pieces.len();
    let mut r: Vec<char> = Vec::new();
    for i in 0..n
        invariant
            n == pieces@.len(),
            r@ == join(views(pieces@).take(i as int), sep@),
    {
        let ghost pre = views(pieces@).take(i as int);
        let ghost cur = views(pieces@).take(i + 1);
        assert(cur.drop_last() == pre);
        assert(cur.last() == pieces@[i as int]@);
        if i > 0 {
            push_all(&mut r, sep);
        } else {
            assert(cur.len() == 1);
        }
        push_all(&mut r, &pieces[i]);
    }
    assert(views(pieces@).take(n as int) == views(pieces@));
    r
}


/// A word: a non-empty text without whitespace.
pub open spec fn is_word(p: Seq<char>) -> bool {
    p.len() > 0 && forall|i: int| 0 <= i < p.len() ==> !is_ws(#[trigger] p[i])
}

/// ASCII lowercasing keeps whitespace whitespace and is idempotent.
pub proof fn lemma_lower_keeps_ws(c: char)
    ensures
        is_ws(lower(c)) == is_ws(c),
        lower(lower(c)) == lower(c),
{
    if 'A' <= c && c <= 'Z' {
        assert((c as u32) + 32 < 0xD800);
        assert((((c as u32) + 32) as char) as u32 == (c as u32) + 32);
    }
}

proof fn lemma_lower_seq_push(s: Seq<char>, c: char)
    ensures
        lower_seq(s.push(c)) == lower_seq(s).push(lower(c)),
{
    assert(lower_seq(s.push(c)) =~= lower_seq(s).push(lower(c)));
}

proof fn lemma_lower_seq_add(a: Seq<char>, b: Seq<char>)
    ensures
        lower_seq(a + b) == lower_seq(a) + lower_seq(b),
{
    assert(lower_seq(a + b) =~= lower_seq(a) + lower_seq(b));
}

/// The words of `s` are words, in the sense of `is_word`.
pub proof fn lemma_words_are_words(s: Seq<char>)
    ensures
        forall|i: int| 0 <= i < words(s).len() ==> is_word(#[trigger] words(s)[i]),
    decreases s.len(),
{
    if s.len() > 0 {
        lemma_words_are_words(s.drop_last());
        let w = words(s.drop_last());
        let c = s.last();
        if !is_ws(c) && s.len() > 1 && !is_ws(s[s.len() - 2]) {
            lemma_words_nonempty(s.drop_last());
            assert(words(s) == w.update(w.len() - 1, w.last().push(c)));
            assert forall|i: int| 0 <= i < words(s).len() implies is_word(#[trigger] words(s)[i]) by {
                if i == w.len() - 1 {
                    let p = w.last().push(c);
                    assert forall|k: int| 0 <= k < p.len() implies !is_ws(#[trigger] p[k]) by {
                        if k < p.len() - 1 {
                            assert(p[k] == w.last()[k]);
                        }
                    }
                } else {
                    assert(words(s)[i] == w[i]);
                }
            }
        } else if !is_ws(c) {
            assert(words(s) == w.push(seq![c]));
            assert forall|i: int| 0 <= i < words(s).len() implies is_word(#[trigger] words(s)[i]) by {
                if i < w.len() {
                    assert(words(s)[i] == w[i]);
                }
            }
        }
    }
}

proof fn lemma_words_lower(s: Seq<char>)
    ensures
        words(lower_seq(s)) =~~= words(s).map_values(|p: Seq<char>| lower_seq(p)),
    decreases s.len(),
{
    let ls = lower_seq(s);
    if s.len() > 0 {
        lemma_words_lower(s.drop_last());
        assert(ls.drop_last() =~= lower_seq(s.drop_last()));
        lemma_lower_keeps_ws(s.last());
        if s.len() > 1 {
            lemma_lower_keeps_ws(s[s.len() - 2]);
            assert(ls[s.len() - 2] == lower(s[s.len() - 2]));
        }
        let w = words(s.drop_last());
        let c = s.last();
        if !is_ws(c) && s.len() > 1 && !is_ws(s[s.len() - 2]) {
            lemma_words_nonempty(s.drop_last());
            lemma_lower_seq_push(w.last(), c);
        }
    } else {
        assert(ls.len() == 0);
    }
}

proof fn lemma_join_lower(pieces: Seq<Seq<char>>, sep: Seq<char>)
    requires
        lower_seq(sep) == sep,
    ensures
        join(pieces.map_values(|p: Seq<char>| lower_seq(p)), sep) == lower_seq(join(pieces, sep)),
    decreases pieces.len(),
{
    let lp = pieces.map_values(|p: Seq<char>| lower_seq(p));
    if pieces.len() > 1 {
        lemma_join_lower(pieces.drop_last(), sep);
        assert(lp.drop_last() =~= pieces.drop_last().map_values(|p: Seq<char>| lower_seq(p)));
        lemma_lower_seq_add(join(pieces.drop_last(), sep), sep);
        lemma_lower_seq_add(join(pieces.drop_last(), sep) + sep, pieces.last());
    } else if pieces.len() == 0 {
        assert(lower_seq(Seq::<char>::empty()) =~= Seq::<char>::empty());
    }
}

proof fn lemma_lower_seq_idempotent(s: Seq<char>)
    ensures
        lower_seq(lower_seq(s)) == lower_seq(s),
{
    assert forall|i: int| 0 <= i < s.len() implies lower(lower(#[trigger] s[i])) == lower(s[i]) by {
        lemma_lower_keeps_ws(s[i]);
    }
    assert(lower_seq(lower_seq(s)) =~= lower_seq(s));
}

/// English lookup ignores ASCII case: a query and its lowercase form have
/// the same canonical form.
pub proof fn normalize_english_ignores_case(s: Seq<char>)
    ensures
        english_key(lower_seq(s)) == english_key(s),
{
    lemma_words_lower(s);
    let sp = seq![' '];
    assert(lower_seq(sp) =~= sp) by {
        lemma_lower_keeps_ws(' ');
    }
    lemma_join_lower(words(s), sp);
    assert(words(lower_seq(s)) == words(s).map_values(|p: Seq<char>| lower_seq(p)));
    lemma_lower_seq_idempotent(join(words(s), sp));
}

proof fn lemma_words_of_word(p: Seq<char>)
    requires
        is_word(p),
    ensures
        words(p) == seq![p],
    decreases p.len(),
{
    if p.len() > 1 {
        let q = p.drop_last();
        assert(is_word(q)) by {
            assert forall|i: int| 0 <= i < q.len() implies !is_ws(#[trigger] q[i]) by {
                assert(q[i] == p[i]);
            }
        }
        lemma_words_of_word(q);
        assert(p[p.len() - 2] == q.last());
        assert(!is_ws(p.last()));
        assert(q.push(p.last()) =~= p);
        assert(words(p) == seq![q].update(0, q.push(p.last())));
        assert(seq![q].update(0, q.push(p.last())) =~= seq![p]);
    } else {
        assert(!is_ws(p[0]));
        assert(p == seq![p[0]]);
        assert(p.drop_last() =~= Seq::<char>::empty());
        assert(words(p.drop_last()) == Seq::<Seq<char>>::empty());
        assert(words(p) == Seq::<Seq<char>>::empty().push(seq![p.last()]));
        assert(Seq::<Seq<char>>::empty().push(seq![p[0]]) =~= seq![p]);
    }
}

proof fn lemma_words_space_word(s: Seq<char>, b: Seq<char>)
    requires
        is_word(b),
    ensures
        words(s + seq![' '] + b) == words(s).push(b),
    decreases b.len(),
{
    let t = s + seq![' '] + b;
    assert(is_ws(' '));
    if b.len() == 1 {
        assert(t.drop_last() =~= s.push(' '));
        assert(s.push(' ').drop_last() =~= s);
        assert(t[t.len() - 2] == ' ');
        assert(words(s.push(' ')) == words(s));
        assert(words(t.drop_last()) == words(s));
        assert(t.last() == b[0]);
        assert(words(t) == words(s).push(seq![b[0]]));
        assert(b =~= seq![b[0]]);
    } else {
        let b1 = b.drop_last();
        assert(is_word(b1)) by {
            assert forall|i: int| 0 <= i < b1.len() implies !is_ws(#[trigger] b1[i]) by {
                assert(b1[i] == b[i]);
            }
        }
        lemma_words_space_word(s, b1);
        assert(t.drop_last() =~= s + seq![' '] + b1);
        assert(t[t.len() - 2] == b[b.len() - 2]);
        assert(!is_ws(b[b.len() - 2]));
        assert(!is_ws(b.last()));
        assert(b1.push(b.last()) =~= b);
        assert(words(t) == words(s).push(b1).update(words(s).len() as int, b1.push(b.last())));
        assert(words(s).push(b1).update(words(s).len() as int, b1.push(b.last())) =~= words(s).push(
            b,
        ));
    }
}

proof fn lemma_words_join(ws: Seq<Seq<char>>)
    requires
        forall|i: int| 0 <= i < ws.len() ==> is_word(#[trigger] ws[i]),
    ensures
        words(join(ws, seq![' '])) == ws,
    decreases ws.len(),
{
    if ws.len() == 1 {
        lemma_words_of_word(ws[0]);
        assert(ws =~= seq![ws[0]]);
    } else if ws.len() > 1 {
        lemma_words_join(ws.drop_last());
        lemma_words_space_word(join(ws.drop_last(), seq![' ']), ws.last());
        assert(ws.drop_last().push(ws.last()) == ws);
    } else {
        assert(words(Seq::<char>::empty()) =~= ws);
    }
}

proof fn lemma_join_ends(ws: Seq<Seq<char>>)
    requires
        ws.len() > 0,
        forall|i: int| 0 <= i < ws.len() ==> is_word(#[trigger] ws[i]),
    ensures
        join(ws, seq![' ']).len() > 0,
        join(ws, seq![' '])[0] == ws[0][0],
        join(ws, seq![' ']).last() == ws.last().last(),
    decreases ws.len(),
{
    if ws.len() > 1 {
        lemma_join_ends(ws.drop_last());
        assert(is_word(ws.last()));
    } else {
        assert(is_word(ws[0]));
    }
}

/// The canonical form of an English text is its own canonical form, and
/// trimming does not change it.
pub proof fn normalize_english_is_idempotent(s: Seq<char>)
    ensures
        english_key(english_key(s)) == english_key(s),
        trim(english_key(s)) == english_key(s),
{
    let ws = words(s);
    let sp = seq![' '];
    let j = join(ws, sp);
    let w = lower_seq(j);
    lemma_words_are_words(s);
    lemma_words_join(ws);
    lemma_words_lower(j);
    assert(words(w) == ws.map_values(|p: Seq<char>| lower_seq(p)));
    assert(lower_seq(sp) =~= sp) by {
        lemma_lower_keeps_ws(' ');
    }
    lemma_join_lower(ws, sp);
    lemma_lower_seq_idempotent(j);
    if ws.len() > 0 {
        lemma_join_ends(ws);
        assert(is_word(ws[0]));
        assert(is_word(ws.last()));
        lemma_lower_keeps_ws(j[0]);
        lemma_lower_keeps_ws(j.last());
        assert(w[0] == lower(j[0]));
        assert(w.last() == lower(j.last()));
        assert(!is_ws(w[0]));
        assert(!is_ws(w.last()));
        assert(cut_start(w, false) == w);
        assert(cut_end(w, false) == w);
    } else {
        assert(j.len() == 0);
        assert(w.len() == 0);
    }
}


/// Trimming and lowercasing commute.
pub proof fn lemma_trim_lower(s: Seq<char>)
    ensures
        trim(lower_seq(s)) == lower_seq(trim(s)),
{
    lemma_cut_start_lower(s);
    lemma_cut_end_lower(cut_start(s, false));
}

proof fn lemma_cut_start_lower(s: Seq<char>)
    ensures
        cut_start(lower_seq(s), false) == lower_seq(cut_start(s, false)),
    decreases s.len(),
{
    if s.len() > 0 {
        lemma_lower_keeps_ws(s[0]);
        assert(lower_seq(s).drop_first() =~= lower_seq(s.drop_first()));
        lemma_cut_start_lower(s.drop_first());
    } else {
        assert(lower_seq(s) =~= s);
    }
}

proof fn lemma_cut_end_lower(s: Seq<char>)
    ensures
        cut_end(lower_seq(s), false) == lower_seq(cut_end(s, false)),
    decreases s.len(),
{
    if s.len() > 0 {
        lemma_lower_keeps_ws(s.last());
        assert(lower_seq(s).drop_last() =~= lower_seq(s.drop_last()));
        lemma_cut_end_lower(s.drop_last());
    } else {
        assert(lower_seq(s) =~= s);
    }
}

/// Lowercasing neither adds nor removes CJK ideographs.
pub proof fn lemma_has_cjk_lower(s: Seq<char>)
    ensures
        has_cjk(lower_seq(s)) == has_cjk(s),
{
    if has_cjk(s) {
        let i = choose|i: int| 0 <= i < s.len() && is_cjk(s[i]);
        assert(lower_seq(s)[i] == s[i]);
    }
    if has_cjk(lower_seq(s)) {
        let i = choose|i: int| 0 <= i < lower_seq(s).len() && is_cjk(lower_seq(s)[i]);
        if 'A' <= s[i] && s[i] <= 'Z' {
            assert((s[i] as u32) + 32 < 0xD800);
            assert((((s[i] as u32) + 32) as char) as u32 == (s[i] as u32) + 32);
        }
        assert(is_cjk(s[i]));
    }
}


/// The canonical form of an English text: whitespace runs collapsed to
/// single spaces, no whitespace at the ends, ASCII letters lowercased.
pub fn normalize_english(input: &str) -> (r: String)
    ensures
        r@ == english_key(input@),
{
    string_of(&normalize_english_chars(&chars_of(input)))
}

/// The canonical form of a Chinese text: all whitespace removed.
pub fn normalize_chinese(input: &str) -> (r: String)
    ensures
        r@ == chinese_key(input@),
{
    string_of(&normalize_chinese_chars(&chars_of(input)))
}

/// Whether a text holds a CJK ideograph, which makes a query a Chinese one.
pub fn contains_chinese(input: &str) -> (r: bool)
    ensures
        r == has_cjk(input@),
{
    has_cjk_chars(&chars_of(input))
}

} // verus!
