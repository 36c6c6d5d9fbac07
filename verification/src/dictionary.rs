//! Dictionary entries, tags, the lookup engine and the rendering of lookup
//! results.

use vstd::prelude::*;

use crate::text::{
    lower_seq,
    decimal, decimal_chars, join, join_chars, push_all, push_str, views,
    chars_lt, has_cjk, has_cjk_chars,
    chars_of, compare_chars, chinese_key, normalize_chinese_chars, english_key,
    normalize_english_chars, string_of, trim, trim_chars,
};

verus! {

/// An exam or frequency list that an English headword belongs to.
#[derive(Debug, Clone, Copy, PartialEq, Eq, Hash, Structural)]
pub enum Tag {
    Common3500,
    Cet4,
    Cet6,
    Tem4,
    Tem8,
    Gre,
}

/// Position of a tag in the display chain
/// `COMMON_3500 < CET4 < CET6 < TEM4 < TEM8 < GRE`.
pub open spec fn tag_rank(tag: Tag) -> nat {
    match tag {
        Tag::Common3500 => 0,
        Tag::Cet4 => 1,
        Tag::Cet6 => 2,
        Tag::Tem4 => 3,
        Tag::Tem8 => 4,
        Tag::Gre => 5,
    }
}

/// The name under which a tag is displayed and stored.
pub open spec fn tag_name(tag: Tag) -> Seq<char> {
    match tag {
        Tag::Common3500 => "COMMON_3500"@,
        Tag::Cet4 => "CET4"@,
        Tag::Cet6 => "CET6"@,
        Tag::Tem4 => "TEM4"@,
        Tag::Tem8 => "TEM8"@,
        Tag::Gre => "GRE"@,
    }
}

/// Every tag, in display-chain order.
pub open spec fn all_tags() -> Seq<Tag> {
    seq![Tag::Common3500, Tag::Cet4, Tag::Cet6, Tag::Tem4, Tag::Tem8, Tag::Gre]
}

impl Tag {
    /// Position of the tag in the display chain.
    pub fn priority(self) -> (r: usize)
        ensures
            r == tag_rank(self),
    {
        match self {
            Tag::Common3500 => 0,
            Tag::Cet4 => 1,
            Tag::Cet6 => 2,
            Tag::Tem4 => 3,
            Tag::Tem8 => 4,
            Tag::Gre => 5,
        }
    }

    /// The displayed name of the tag.
    pub fn label(self) -> (r: &'static str)
        ensures
            r@ == tag_name(self),
    {
        match self {
            Tag::Common3500 => "COMMON_3500",
            Tag::Cet4 => "CET4",
            Tag::Cet6 => "CET6",
            Tag::Tem4 => "TEM4",
            Tag::Tem8 => "TEM8",
            Tag::Gre => "GRE",
        }
    }
}

/// The tags of a list, each once, in display-chain order.
pub open spec fn normalized_tags(tags: Seq<Tag>) -> Seq<Tag> {
    all_tags().filter(|t: Tag| tags.contains(t))
}

/// The smallest rank among the tags, or `usize::MAX` for no tag.
pub open spec fn best_rank(tags: Seq<Tag>) -> nat
    decreases tags.len(),
{
    if tags.len() == 0 {
        usize::MAX as nat
    } else {
        let r = best_rank(tags.drop_last());
        if tag_rank(tags.last()) < r {
            tag_rank(tags.last())
        } else {
            r
        }
    }
}

/// The first tag of smallest rank, if any.
pub open spec fn lowest_tag(tags: Seq<Tag>) -> Option<Tag>
    decreases tags.len(),
{
    if tags.len() == 0 {
        None
    } else {
        match lowest_tag(tags.drop_last()) {
            None => Some(tags.last()),
            Some(t) => if tag_rank(tags.last()) < tag_rank(t) {
                Some(tags.last())
            } else {
                Some(t)
            },
        }
    }
}

fn tag_in(tags: &Vec<Tag>, tag: Tag) -> (r: bool)
    ensures
        r == tags@.contains(tag),
{
    let n = tags.len();
    for i in 0..n
        invariant
            n == tags@.len(),
            forall|k: int| 0 <= k < i ==> tags@[k] != tag,
    {
        if tags[i] == tag {
            assert(tags@[i as int] == tag);
            return true;
        }
    }
    false
}

/// The tags of `tags`, each once, ordered by their rank in the display chain.
pub fn normalize_tags(tags: &Vec<Tag>) -> (r: Vec<Tag>)
    ensures
        r@ == normalized_tags(tags@),
{
    let order: Vec<Tag> = vec![Tag::Common3500, Tag::Cet4, Tag::Cet6, Tag::Tem4, Tag::Tem8, Tag::Gre];
    assert(order@ == all_tags());
    let ghost keep = |t: Tag| tags@.contains(t);
    let mut r: Vec<Tag> = Vec::new();
    for i in 0..6
        invariant
            order@ == all_tags(),
            keep == (|x: Tag| tags@.contains(x)),
            r@ == all_tags().take(i as int).filter(keep),
    {
        let t = order[i];
        let ghost pre = all_tags().take(i as int);
        let ghost cur = all_tags().take(i + 1);
        assert(cur.drop_last() == pre);
        assert(cur.last() == t);
        assert(cur.filter(keep) == if keep(t) { pre.filter(keep).push(t) } else { pre.filter(keep) }) by {
            reveal_with_fuel(Seq::filter, 1);
        }
        let present = tag_in(tags, t);
        assert(keep(t) == tags@.contains(t));
        if present {
            r.push(t);
        }
        assert(r@ == cur.filter(keep));
    }
    assert(all_tags().take(6) == all_tags());
    r
}

/// The smallest rank among the tags, `usize::MAX` when there is none.
pub fn best_tag_priority(tags: &Vec<Tag>) -> (r: usize)
    ensures
        r == best_rank(tags@),
{
    let n = tags.len();
    let mut best: usize = usize::MAX;
    for i in 0..n
        invariant
            n == tags@.len(),
            best == best_rank(tags@.take(i as int)),
    {
        let p = tags[i].priority();
        assert(tags@.take(i + 1).drop_last() == tags@.take(i as int));
        if p < best {
            best = p;
        }
    }
    assert(tags@.take(n as int) == tags@);
    best
}

/// The first tag of smallest rank, the one shown for an English lookup.
pub fn lowest_display_tag(tags: &Vec<Tag>) -> (r: Option<Tag>)
    ensures
        r == lowest_tag(tags@),
{
    let n = tags.len();
    let mut best: Option<Tag> = None;
    for i in 0..n
        invariant
            n == tags@.len(),
            best == lowest_tag(tags@.take(i as int)),
    {
        let t = tags[i];
        assert(tags@.take(i + 1).drop_last() == tags@.take(i as int));
        match best {
            None => {
                best = Some(t);
            },
            Some(b) => {
                if t.priority() < b.priority() {
                    best = Some(t);
                }
            },
        }
    }
    assert(tags@.take(n as int) == tags@);
    best
}


/// The definitions trimmed, without empty ones, each kept at its first
/// appearance only.
pub open spec fn deduped(items: Seq<Seq<char>>) -> Seq<Seq<char>>
    decreases items.len(),
{
    if items.len() == 0 {
        Seq::empty()
    } else {
        let acc = deduped(items.drop_last());
        let t = trim(items.last());
        if t.len() == 0 || acc.contains(t) {
            acc
        } else {
            acc.push(t)
        }
    }
}

/// Whether two character sequences are equal.
pub fn chars_eq(a: &Vec<char>, b: &Vec<char>) -> (r: bool)
    ensures
        r == (a@ == b@),
{
    compare_chars(a, b) == 0
}

/// Whether `item` occurs in `items`.
pub fn contains_chars(items: &Vec<Vec<char>>, item: &Vec<char>) -> (r: bool)
    ensures
        r == items@.map_values(|v: Vec<char>| v@).contains(item@),
{
    let ghost views = items@.map_values(|v: Vec<char>| v@);
    let n = items.len();
    for i in 0..n
        invariant
            n == items@.len(),
            views == items@.map_values(|v: Vec<char>| v@),
            forall|k: int| 0 <= k < i ==> views[k] != item@,
    {
        if chars_eq(&items[i], item) {
            assert(views[i as int] == item@);
            return true;
        }
    }
    false
}

/// The strings trimmed, empty ones dropped, each kept at its first
/// appearance.
pub fn dedupe_preserve_order(items: &Vec<String>) -> (r: Vec<String>)
    ensures
        r.deep_view() == deduped(items.deep_view()),
{
    let ghost src = items.deep_view();
    let mut seen: Vec<Vec<char>> = Vec::new();
    let mut r: Vec<String> = Vec::new();
    let n = items.len();
    for i in 0..n
        invariant
            n == items@.len(),
            src == items.deep_view(),
            seen@.map_values(|v: Vec<char>| v@) == deduped(src.take(i as int)),
            r.deep_view() == deduped(src.take(i as int)),
    {
        let chars = chars_of(items[i].as_str());
        let t = trim_chars(&chars);
        proof {
            assert(src.take(i + 1).drop_last() == src.take(i as int));
            assert(src.take(i + 1).last() == items@[i as int]@);
        }
        if t.len() > 0 && !contains_chars(&seen, &t) {
            let s = string_of(&t);
            r.push(s);
            seen.push(t);
            proof {
                assert(seen@.map_values(|v: Vec<char>| v@) =~= deduped(src.take(i as int)).push(t@));
                assert(r.deep_view() =~= deduped(src.take(i as int)).push(t@));
            }
        }
    }
    assert(src.take(n as int) == src);
    r
}


/// One entry of a dataset: an English headword, its Chinese definitions and
/// its tags.
#[derive(Debug, Clone, PartialEq, Eq)]
pub struct DictionaryEntry {
    pub headword: String,
    pub definitions: Vec<String>,
    pub tags: Vec<Tag>,
}

/// A whole dataset, as stored in JSON.
#[derive(Debug, Clone, PartialEq, Eq)]
pub struct PersistedDictionary {
    pub entries: Vec<DictionaryEntry>,
}

/// What the dictionary knows of one entry: its headword as given, its
/// cleaned definitions and its normalized tags.
pub struct RecordModel {
    pub headword: Seq<char>,
    pub definitions: Seq<Seq<char>>,
    pub tags: Seq<Tag>,
}

/// The record that the dictionary keeps for a dataset entry.
pub open spec fn record_of(entry: DictionaryEntry) -> RecordModel {
    RecordModel {
        headword: entry.headword@,
        definitions: deduped(entry.definitions.deep_view()),
        tags: normalized_tags(entry.tags@),
    }
}

struct EntryRecord {
    headword: String,
    normalized_headword: Vec<char>,
    definitions: Vec<String>,
    chinese_keys: Vec<Vec<char>>,
    tags: Vec<Tag>,
    best_priority: usize,
}

impl EntryRecord {
    spec fn model(self) -> RecordModel {
        RecordModel {
            headword: self.headword@,
            definitions: self.definitions.deep_view(),
            tags: self.tags@,
        }
    }

    spec fn wf(self) -> bool {
        &&& self.normalized_headword@ == english_key(self.headword@)
        &&& self.chinese_keys@.len() == self.definitions@.len()
        &&& forall|k: int|
            0 <= k < self.definitions@.len() ==> #[trigger] self.chinese_keys@[k]@
                == chinese_key(self.definitions@[k]@)
        &&& self.best_priority == best_rank(self.tags@)
    }
}

/// An in-memory dictionary: the entries in dataset order, looked up by
/// canonical English headword and by canonical Chinese definition.
pub struct Dictionary {
    entries: Vec<EntryRecord>,
}

impl View for Dictionary {
    type V = Seq<RecordModel>;

    closed spec fn view(&self) -> Seq<RecordModel> {
        self.entries@.map_values(|r: EntryRecord| r.model())
    }
}

impl Dictionary {
    #[verifier::type_invariant]
    closed spec fn records_wf(self) -> bool {
        forall|i: int| 0 <= i < self.entries@.len() ==> #[trigger] self.entries@[i].wf()
    }

    fn record_from(entry: &DictionaryEntry) -> (r: EntryRecord)
        ensures
            r.wf(),
            r.model() == record_of(*entry),
    {
        let headword = entry.headword.clone();
        let normalized_headword = normalize_english_chars(&chars_of(headword.as_str()));
        let definitions = dedupe_preserve_order(&entry.definitions);
        let mut chinese_keys: Vec<Vec<char>> = Vec::new();
        let n = definitions.len();
        for k in 0..n
            invariant
                n == definitions@.len(),
                chinese_keys@.len() == k,
                forall|j: int|
                    0 <= j < k ==> #[trigger] chinese_keys@[j]@ == chinese_key(
                        definitions@[j]@,
                    ),
        {
            let key = normalize_chinese_chars(&chars_of(definitions[k].as_str()));
            chinese_keys.push(key);
        }
        let tags = normalize_tags(&entry.tags);
        let best_priority = best_tag_priority(&tags);
        EntryRecord { headword, normalized_headword, definitions, chinese_keys, tags, best_priority }
    }

    /// Builds a dictionary from dataset entries, keeping their order. Each
    /// entry's definitions are trimmed and deduplicated and its tags
    /// normalized.
    pub fn from_entries(entries: Vec<DictionaryEntry>) -> (r: Self)
        ensures
            r@ == entries@.map_values(|e: DictionaryEntry| record_of(e)),
    {
        let mut records: Vec<EntryRecord> = Vec::new();
        let n = entries.len();
        for i in 0..n
            invariant
                n == entries@.len(),
                records@.len() == i,
                forall|j: int| 0 <= j < i ==> #[trigger] records@[j].wf(),
                forall|j: int|
                    0 <= j < i ==> #[trigger] records@[j].model() == record_of(entries@[j]),
        {
            let record = Self::record_from(&entries[i]);
            records.push(record);
        }
        let r = Dictionary { entries: records };
        assert(r@ =~= entries@.map_values(|e: DictionaryEntry| record_of(e)));
        r
    }

    /// Builds a dictionary from a whole dataset.
    pub fn from_persisted(persisted: PersistedDictionary) -> (r: Self)
        ensures
            r@ == persisted.entries@.map_values(|e: DictionaryEntry| record_of(e)),
    {
        Self::from_entries(persisted.entries)
    }
}


/// Whether a lookup went by English headword or by Chinese definition.
#[derive(Debug, Clone, Copy, PartialEq, Eq, Structural)]
pub enum QueryKind {
    English,
    Chinese,
}

/// The answer to a successful lookup.
#[derive(Debug, Clone, PartialEq, Eq)]
pub struct LookupResult {
    pub kind: QueryKind,
    pub query: String,
    pub displayed_query: String,
    pub display_tag: Option<Tag>,
    pub tags: Vec<Tag>,
    pub results: Vec<String>,
    pub total_results: usize,
}

/// Why a lookup gave no result.
#[derive(Debug, Clone, PartialEq, Eq)]
pub enum LookupError {
    EmptyQuery,
    NotFound { query: String },
}

impl LookupError {
    /// The text that describes the error.
    pub fn message(&self) -> (r: String)
        ensures
            match *self {
                LookupError::EmptyQuery => r@ == "empty query"@,
                LookupError::NotFound { query } => r@ == "未找到精确匹配: "@ + query@,
            },
    {
        match self {
            LookupError::EmptyQuery => string_of(&chars_of("empty query")),
            LookupError::NotFound { query } => {
                let mut text = chars_of("未找到精确匹配: ");
                push_str(&mut text, query.as_str());
                string_of(&text)
            },
        }
    }
}

/// At most this many Chinese reverse-lookup results are shown by default.
pub const DEFAULT_CHINESE_RESULTS: usize = 5;

/// The last record whose canonical headword is `key`: the one that an
/// English lookup of `key` finds.
pub open spec fn english_match(records: Seq<RecordModel>, key: Seq<char>) -> Option<int>
    decreases records.len(),
{
    if records.len() == 0 {
        None
    } else if english_key(records.last().headword) == key {
        Some(records.len() - 1)
    } else {
        english_match(records.drop_last(), key)
    }
}

/// `index` once for each definition whose canonical form is `key`.
pub open spec fn definition_hits(definitions: Seq<Seq<char>>, key: Seq<char>, index: usize) -> Seq<
    usize,
>
    decreases definitions.len(),
{
    if definitions.len() == 0 {
        Seq::empty()
    } else {
        let h = definition_hits(definitions.drop_last(), key, index);
        if chinese_key(definitions.last()) == key {
            h.push(index)
        } else {
            h
        }
    }
}

/// The records that a Chinese lookup of `key` matches, in record order, each
/// once per matching definition.
pub open spec fn chinese_matches(records: Seq<RecordModel>, key: Seq<char>) -> Seq<usize>
    decreases records.len(),
{
    if records.len() == 0 {
        Seq::empty()
    } else {
        chinese_matches(records.drop_last(), key) + definition_hits(
            records.last().definitions,
            key,
            (records.len() - 1) as usize,
        )
    }
}

/// Record `a` ranks no later than record `b`: a smaller best tag rank first,
/// then the canonical headword in code point order.
pub open spec fn rank_le(records: Seq<RecordModel>, a: usize, b: usize) -> bool {
    let pa = best_rank(records[a as int].tags);
    let pb = best_rank(records[b as int].tags);
    pa < pb || (pa == pb && !chars_lt(
        english_key(records[b as int].headword),
        english_key(records[a as int].headword),
    ))
}

/// Where `x` goes into the ranked sequence `s`: after every element that
/// ranks no later than it.
pub open spec fn insert_position(records: Seq<RecordModel>, s: Seq<usize>, x: usize) -> int
    decreases s.len(),
{
    if s.len() == 0 {
        0
    } else if rank_le(records, s.last(), x) {
        s.len() as int
    } else {
        insert_position(records, s.drop_last(), x)
    }
}

/// The matches in ranked order; equally ranked matches keep their order.
pub open spec fn ranked(records: Seq<RecordModel>, m: Seq<usize>) -> Seq<usize>
    decreases m.len(),
{
    if m.len() == 0 {
        Seq::empty()
    } else {
        let r = ranked(records, m.drop_last());
        r.insert(insert_position(records, r, m.last()), m.last())
    }
}

/// How many reverse-lookup results are shown out of `total`.
pub open spec fn shown_count(total: nat, show_all: bool) -> nat {
    if show_all || total <= DEFAULT_CHINESE_RESULTS {
        total
    } else {
        DEFAULT_CHINESE_RESULTS as nat
    }
}

/// `res` is the answer to an English lookup of the trimmed query `q`.
pub open spec fn is_english_answer(records: Seq<RecordModel>, q: Seq<char>, res: LookupResult) -> bool {
    match english_match(records, english_key(q)) {
        None => false,
        Some(i) => {
            &&& res.kind == QueryKind::English
            &&& res.query@ == q
            &&& res.displayed_query@ == records[i].headword
            &&& res.display_tag == lowest_tag(records[i].tags)
            &&& res.tags@ == records[i].tags
            &&& res.results.deep_view() == records[i].definitions
            &&& res.total_results == records[i].definitions.len()
        },
    }
}

/// `res` is the answer to a Chinese lookup of the trimmed query `q`.
pub open spec fn is_chinese_answer(
    records: Seq<RecordModel>,
    q: Seq<char>,
    show_all: bool,
    res: LookupResult,
) -> bool {
    let order = ranked(records, chinese_matches(records, chinese_key(q)));
    &&& order.len() > 0
    &&& res.kind == QueryKind::Chinese
    &&& res.query@ == q
    &&& res.displayed_query@ == q
    &&& res.display_tag is None
    &&& res.tags@.len() == 0
    &&& res.total_results == order.len()
    &&& res.results.deep_view() == order.take(shown_count(order.len(), show_all) as int).map_values(
        |i: usize| records[i as int].headword,
    )
}

/// The outcome of looking `query` up in `records`.
pub open spec fn is_lookup_outcome(
    records: Seq<RecordModel>,
    query: Seq<char>,
    show_all: bool,
    r: Result<LookupResult, LookupError>,
) -> bool {
    let q = trim(query);
    match r {
        Err(LookupError::EmptyQuery) => q.len() == 0,
        Err(LookupError::NotFound { query: missing }) => {
            &&& q.len() > 0
            &&& missing@ == q
            &&& if has_cjk(q) {
                chinese_matches(records, chinese_key(q)).len() == 0
            } else {
                english_match(records, english_key(q)) is None
            }
        },
        Ok(res) => q.len() > 0 && if has_cjk(q) {
            is_chinese_answer(records, q, show_all, res)
        } else {
            is_english_answer(records, q, res)
        },
    }
}

proof fn lemma_insert_position_bounds(records: Seq<RecordModel>, s: Seq<usize>, x: usize)
    ensures
        0 <= insert_position(records, s, x) <= s.len(),
    decreases s.len(),
{
    if s.len() > 0 {
        lemma_insert_position_bounds(records, s.drop_last(), x);
    }
}

fn copy_strings(v: &Vec<String>) -> (r: Vec<String>)
    ensures
        r.deep_view() == v.deep_view(),
{
    let mut r: Vec<String> = Vec::new();
    let n = v.len();
    for i in 0..n
        invariant
            n == v@.len(),
            r@ == v@.take(i as int),
    {
        r.push(v[i].clone());
        assert(r@ =~= v@.take(i + 1));
    }
    assert(v@.take(n as int) == v@);
    assert(r.deep_view() =~= v.deep_view());
    r
}

fn copy_tags(v: &Vec<Tag>) -> (r: Vec<Tag>)
    ensures
        r@ == v@,
{
    let mut r: Vec<Tag> = Vec::new();
    let n = v.len();
    for i in 0..n
        invariant
            n == v@.len(),
            r@ == v@.take(i as int),
    {
        r.push(v[i]);
        assert(r@ =~= v@.take(i + 1));
    }
    assert(v@.take(n as int) == v@);
    r
}

impl Dictionary {
    /// Looks a query up: a query holding a CJK ideograph goes by Chinese
    /// definition, any other by English headword, ignoring case and extra
    /// whitespace.
    pub fn lookup(&self, query: &str, show_all: bool) -> (r: Result<LookupResult, LookupError>)
        ensures
            is_lookup_outcome(self@, query@, show_all, r),
    {
        let chars = chars_of(query);
        let trimmed_query = trim_chars(&chars);
        if trimmed_query.len() == 0 {
            return Err(LookupError::EmptyQuery);
        }
        if has_cjk_chars(&trimmed_query) {
            self.lookup_chinese(&trimmed_query, show_all)
        } else {
            self.lookup_english(&trimmed_query)
        }
    }

    #[verifier::spinoff_prover]
    fn lookup_english(&self, query: &Vec<char>) -> (r: Result<LookupResult, LookupError>)
        ensures
            match r {
                Err(LookupError::NotFound { query: missing }) => missing@ == query@
                    && english_match(self@, english_key(query@)) is None,
                Err(LookupError::EmptyQuery) => false,
                Ok(res) => is_english_answer(self@, query@, res),
            },
    {
        proof {
            use_type_invariant(self);
        }
        let key = normalize_english_chars(query);
        let ghost records = self@;
        let n = self.entries.len();
        let mut i: usize = n;
        assert(records.take(n as int) == records);
        while i > 0
            invariant
                i <= n,
                n == self.entries@.len(),
                records == self@,
                records.len() == n,
                key@ == english_key(query@),
                english_match(records, key@) == english_match(records.take(i as int), key@),
            decreases i,
        {
            proof {
                use_type_invariant(self);
            }
            assert(records.take(i as int).drop_last() == records.take(i - 1));
            assert(records.take(i as int).last() == self.entries@[i - 1].model());
            assert(self.entries@[i - 1].wf());
            if chars_eq(&self.entries[i - 1].normalized_headword, &key) {
                let entry = &self.entries[i - 1];
                assert(english_match(records, key@) == Some((i - 1) as int));
                assert(records[i - 1] == entry.model());
                let res = LookupResult {
                    kind: QueryKind::English,
                    query: string_of(query),
                    displayed_query: entry.headword.clone(),
                    display_tag: lowest_display_tag(&entry.tags),
                    tags: copy_tags(&entry.tags),
                    results: copy_strings(&entry.definitions),
                    total_results: entry.definitions.len(),
                };
                assert(res.displayed_query@ == records[i - 1].headword);
                assert(res.display_tag == lowest_tag(records[i - 1].tags));
                assert(res.tags@ == records[i - 1].tags);
                assert(res.results.deep_view() == records[i - 1].definitions);
                assert(res.total_results == records[i - 1].definitions.len());

                return Ok(res);
            }
            i -= 1;
        }
        Err(LookupError::NotFound { query: string_of(query) })
    }

    fn rank_le_exec(&self, a: usize, b: usize) -> (r: bool)
        requires
            a < self.entries@.len(),
            b < self.entries@.len(),
        ensures
            r == rank_le(self@, a, b),
    {
        proof {
            use_type_invariant(self);
            assert(self.entries@[a as int].wf());
            assert(self.entries@[b as int].wf());
        }
        let pa = self.entries[a].best_priority;
        let pb = self.entries[b].best_priority;
        pa < pb || (pa == pb && compare_chars(
            &self.entries[b].normalized_headword,
            &self.entries[a].normalized_headword,
        ) != -1)
    }

    #[verifier::spinoff_prover]
    fn lookup_chinese(&self, query: &Vec<char>, show_all: bool) -> (r: Result<
        LookupResult,
        LookupError,
    >)
        ensures
            match r {
                Err(LookupError::NotFound { query: missing }) => missing@ == query@
                    && chinese_matches(self@, chinese_key(query@)).len() == 0,
                Err(LookupError::EmptyQuery) => false,
                Ok(res) => is_chinese_answer(self@, query@, show_all, res),
            },
    {
        proof {
            use_type_invariant(self);
        }
        let key = normalize_chinese_chars(query);
        let ghost records = self@;
        let n = self.entries.len();
        let mut matches: Vec<usize> = Vec::new();
        for i in 0..n
            invariant
                n == self.entries@.len(),
                records == self@,
                records.len() == n,
                matches@ == chinese_matches(records.take(i as int), key@),
                forall|j: int| 0 <= j < matches@.len() ==> #[trigger] matches@[j] < n,
        {
            let keys = &self.entries[i].chinese_keys;
            let ghost defs = records[i as int].definitions;
            proof {
                use_type_invariant(self);
                assert(self.entries@[i as int].wf());
                assert(defs == self.entries@[i as int].definitions.deep_view());
            }
            let m = keys.len();
            for k in 0..m
                invariant
                    n == self.entries@.len(),
                    i < n,
                    records == self@,
                    records.len() == n,
                    keys == self.entries@[i as int].chinese_keys,
                    self.entries@[i as int].wf(),
                    defs == records[i as int].definitions,
                    defs == self.entries@[i as int].definitions.deep_view(),
                    m == defs.len(),
                    matches@ == chinese_matches(records.take(i as int), key@) + definition_hits(
                        defs.take(k as int),
                        key@,
                        i,
                    ),
                    forall|j: int| 0 <= j < matches@.len() ==> #[trigger] matches@[j] < n,
            {
                proof {
                    assert(defs.take(k + 1).drop_last() == defs.take(k as int));
                    assert(defs.take(k + 1).last() == defs[k as int]);
                    assert(keys@[k as int]@ == chinese_key(defs[k as int]));
                }
                if chars_eq(&keys[k], &key) {
                    matches.push(i);
                }
            }
            proof {
                assert(defs.take(m as int) == defs);
                assert(records.take(i + 1).drop_last() == records.take(i as int));
                assert(records.take(i + 1).last() == records[i as int]);
            }
        }
        assert(records.take(n as int) == records);
        if matches.len() == 0 {
            return Err(LookupError::NotFound { query: string_of(query) });
        }
        let total = matches.len();
        let mut order: Vec<usize> = Vec::new();
        for t in 0..total
            invariant
                n == self.entries@.len(),
                records == self@,
                records.len() == n,
                total == matches@.len(),
                order@ == ranked(records, matches@.take(t as int)),
                order@.len() == t,
                forall|j: int| 0 <= j < matches@.len() ==> #[trigger] matches@[j] < n,
                forall|j: int| 0 <= j < order@.len() ==> #[trigger] order@[j] < n,
        {
            let x = matches[t];
            let mut j = order.len();
            assert(order@.take(j as int) == order@);
            while j > 0 && !self.rank_le_exec(order[j - 1], x)
                invariant
                    n == self.entries@.len(),
                    records == self@,
                    x < n,
                    j <= order@.len(),
                    insert_position(records, order@, x) == insert_position(
                        records,
                        order@.take(j as int),
                        x,
                    ),
                    forall|q: int| 0 <= q < order@.len() ==> #[trigger] order@[q] < n,
                decreases j,
            {
                assert(order@.take(j as int).drop_last() == order@.take(j - 1));
                j -= 1;
            }
            proof {
                if j > 0 {
                    assert(order@.take(j as int).last() == order@[j - 1]);
                }
                assert(insert_position(records, order@, x) == j);
                assert(matches@.take(t + 1).drop_last() == matches@.take(t as int));
                assert(matches@.take(t + 1).last() == x);
            }
            order.insert(j, x);
        }
        assert(matches@.take(total as int) == matches@);
        let limit = if show_all || total <= DEFAULT_CHINESE_RESULTS {
            total
        } else {
            DEFAULT_CHINESE_RESULTS
        };
        let mut results: Vec<String> = Vec::new();
        for t in 0..limit
            invariant
                n == self.entries@.len(),
                records == self@,
                limit <= order@.len(),
                forall|j: int| 0 <= j < order@.len() ==> #[trigger] order@[j] < n,
                results@.len() == t,
                forall|k: int|
                    0 <= k < t ==> #[trigger] results@[k]@ == records[order@[k] as int].headword,
        {
            let idx = order[t];
            assert(records[idx as int] == self.entries@[idx as int].model());
            results.push(self.entries[idx].headword.clone());
        }
        assert(results.deep_view() =~= order@.take(limit as int).map_values(
            |i: usize| records[i as int].headword,
        ));
        Ok(
            LookupResult {
                kind: QueryKind::Chinese,
                query: string_of(query),
                displayed_query: string_of(query),
                display_tag: None,
                tags: Vec::new(),
                results,
                total_results: total,
            },
        )
    }
}


/// The numbered line for the `index`-th result (counting from zero).
pub open spec fn numbered_line(index: int, item: Seq<char>) -> Seq<char> {
    decimal((index + 1) as nat) + ". "@ + item
}

/// The lines that display a lookup result: the query as displayed, the
/// display tag of an English lookup, the numbered results and, for a
/// truncated Chinese lookup, a blank line and a note on how many results
/// there are.
pub open spec fn result_lines(result: LookupResult, show_all: bool) -> Seq<Seq<char>> {
    let shown = result.results@.len();
    let head = seq![result.displayed_query@];
    let tag_line = match result.display_tag {
        Some(tag) if result.kind == QueryKind::English => seq!["tags: "@ + tag_name(tag)],
        _ => Seq::empty(),
    };
    let items = Seq::new(shown, |i: int| numbered_line(i, result.results@[i]@));
    let more = if result.kind == QueryKind::Chinese && !show_all && result.total_results > shown {
        seq![
            Seq::empty(),
            decimal(shown) + " of "@ + decimal(result.total_results as nat)
                + " results, use --all to show more"@,
        ]
    } else {
        Seq::empty()
    };
    head + tag_line + items + more
}

/// Renders a lookup result as text, one line per element of `result_lines`.
#[verifier::spinoff_prover]
pub fn format_result(result: &LookupResult, show_all: bool) -> (r: String)
    ensures
        r@ == join(result_lines(*result, show_all), seq!['\n']),
{
    let ghost shown = result.results@.len();
    let ghost head = seq![result.displayed_query@];
    let ghost tag_line = match result.display_tag {
        Some(tag) if result.kind == QueryKind::English => seq!["tags: "@ + tag_name(tag)],
        _ => Seq::<Seq<char>>::empty(),
    };
    let ghost items = Seq::new(shown, |i: int| numbered_line(i, result.results@[i]@));
    let mut lines: Vec<Vec<char>> = Vec::new();
    lines.push(chars_of(result.displayed_query.as_str()));
    if result.kind == QueryKind::English {
        if let Some(tag) = result.display_tag {
            let mut line = chars_of("tags: ");
            push_str(&mut line, tag.label());
            lines.push(line);
        }
    }
    assert(views(lines@) =~= head + tag_line);
    let n = result.results.len();
    for i in 0..n
        invariant
            n == result.results@.len(),
            shown == n,
            items == Seq::new(shown, |i: int| numbered_line(i, result.results@[i]@)),
            views(lines@) == head + tag_line + items.take(i as int),
    {
        let mut line = decimal_chars(i + 1);
        push_str(&mut line, ". ");
        push_all(&mut line, &chars_of(result.results[i].as_str()));
        assert(line@ == items[i as int]);
        let ghost before = views(lines@);
        lines.push(line);
        assert(views(lines@) =~= before.push(line@));
        assert(items.take(i + 1) == items.take(i as int).push(items[i as int]));
        assert(views(lines@) =~= head + tag_line + items.take(i + 1));
    }
    assert(items.take(n as int) == items);
    if result.kind == QueryKind::Chinese && !show_all && result.total_results > n {
        lines.push(Vec::new());
        let mut line = decimal_chars(n);
        push_str(&mut line, " of ");
        push_all(&mut line, &decimal_chars(result.total_results));
        push_str(&mut line, " results, use --all to show more");
        lines.push(line);
    }
    assert(views(lines@) =~= result_lines(*result, show_all));
    let sep: Vec<char> = vec!['\n'];
    assert(sep@ == seq!['\n']);
    string_of(&join_chars(&lines, &sep))
}


proof fn lemma_rank_le_total(records: Seq<RecordModel>, a: usize, b: usize)
    ensures
        rank_le(records, a, b) || rank_le(records, b, a),
{
    let ha = english_key(records[a as int].headword);
    let hb = english_key(records[b as int].headword);
    if chars_lt(hb, ha) {
        crate::text::lemma_chars_lt_asymmetric(hb, ha);
    }
}

proof fn lemma_rank_le_transitive(records: Seq<RecordModel>, a: usize, b: usize, c: usize)
    requires
        rank_le(records, a, b),
        rank_le(records, b, c),
    ensures
        rank_le(records, a, c),
{
    let ha = english_key(records[a as int].headword);
    let hb = english_key(records[b as int].headword);
    let hc = english_key(records[c as int].headword);
    if chars_lt(hc, ha) {
        crate::text::lemma_chars_lt_total(ha, hb);
        if chars_lt(ha, hb) {
            crate::text::lemma_chars_lt_transitive(hc, ha, hb);
        }
    }
}

/// Matches in ranked order: each ranks no later than every one after it.
pub open spec fn is_ranked(records: Seq<RecordModel>, s: Seq<usize>) -> bool {
    forall|i: int, j: int| 0 <= i < j < s.len() ==> rank_le(records, #[trigger] s[i], #[trigger] s[j])
}

proof fn lemma_insert_position_splits(records: Seq<RecordModel>, s: Seq<usize>, x: usize)
    requires
        is_ranked(records, s),
    ensures
        0 <= insert_position(records, s, x) <= s.len(),
        forall|k: int| 0 <= k < insert_position(records, s, x) ==> rank_le(records, #[trigger] s[k], x),
        forall|k: int|
            insert_position(records, s, x) <= k < s.len() ==> !rank_le(records, #[trigger] s[k], x),
    decreases s.len(),
{
    if s.len() > 0 {
        if rank_le(records, s.last(), x) {
            assert forall|k: int| 0 <= k < s.len() implies rank_le(records, #[trigger] s[k], x) by {
                if k < s.len() - 1 {
                    lemma_rank_le_transitive(records, s[k], s.last(), x);
                }
            }
        } else {
            let t = s.drop_last();
            assert(is_ranked(records, t));
            lemma_insert_position_splits(records, t, x);
            assert forall|k: int| 0 <= k < insert_position(records, s, x) implies rank_le(records, #[trigger] s[k], x) by {
                assert(s[k] == t[k]);
            }
            assert forall|k: int|
                insert_position(records, s, x) <= k < s.len() implies !rank_le(records, #[trigger] s[k], x) by {
                if k < s.len() - 1 {
                    assert(s[k] == t[k]);
                }
            }
        }
    }
}

/// Chinese reverse-lookup results come out ranked: by best tag rank, then by
/// canonical headword.
#[verifier::spinoff_prover]
pub proof fn ranked_matches_are_ordered(records: Seq<RecordModel>, m: Seq<usize>)
    ensures
        is_ranked(records, ranked(records, m)),
    decreases m.len(),
{
    if m.len() > 0 {
        let r = ranked(records, m.drop_last());
        ranked_matches_are_ordered(records, m.drop_last());
        let x = m.last();
        let p = insert_position(records, r, x);
        lemma_insert_position_splits(records, r, x);
        let t = r.insert(p, x);
        assert forall|i: int, j: int| 0 <= i < j < t.len() implies rank_le(records, #[trigger] t[i], #[trigger] t[j]) by {
            if j < p {
                assert(t[i] == r[i] && t[j] == r[j]);
            } else if j == p {
                assert(t[i] == r[i]);
            } else if i < p {
                assert(t[i] == r[i] && t[j] == r[j - 1]);
            } else if i == p {
                assert(t[j] == r[j - 1]);
                lemma_rank_le_total(records, r[j - 1], x);
            } else {
                assert(t[i] == r[i - 1] && t[j] == r[j - 1]);
            }
        }
    }
}

/// Ranking neither drops nor repeats a match: the ranked matches are a
/// permutation of the matches.
pub proof fn ranked_matches_are_a_permutation(records: Seq<RecordModel>, m: Seq<usize>)
    ensures
        ranked(records, m).to_multiset() == m.to_multiset(),
    decreases m.len(),
{
    broadcast use vstd::seq_lib::group_to_multiset_ensures;

    if m.len() > 0 {
        let r = ranked(records, m.drop_last());
        ranked_matches_are_a_permutation(records, m.drop_last());
        lemma_insert_position_bounds(records, r, m.last());
        assert(m.drop_last().push(m.last()) == m);
    } else {
        assert(ranked(records, m) == m);
    }
}

/// Without `--all` a reverse lookup shows the first five of the results
/// that `--all` shows, and both report the same total.
pub proof fn default_results_are_a_prefix_of_all(
    records: Seq<RecordModel>,
    q: Seq<char>,
    shown: LookupResult,
    all: LookupResult,
)
    requires
        is_chinese_answer(records, q, false, shown),
        is_chinese_answer(records, q, true, all),
    ensures
        shown.total_results == all.total_results,
        all.results@.len() == all.total_results,
        shown.results.deep_view() == all.results.deep_view().take(
            shown_count(all.total_results as nat, false) as int,
        ),
        shown.results@.len() == if all.total_results <= DEFAULT_CHINESE_RESULTS {
            all.total_results
        } else {
            DEFAULT_CHINESE_RESULTS
        },
{
    let order = ranked(records, chinese_matches(records, chinese_key(q)));
    let n = shown_count(order.len(), false) as int;
    assert(all.results.deep_view().len() == order.len());
    assert(shown.results.deep_view().len() == n);
    assert(shown.results.deep_view() =~= all.results.deep_view().take(n));
}

/// The tag displayed for an English lookup is the entry's tag of lowest
/// rank, and there is one exactly when the entry has tags.
pub proof fn display_tag_is_lowest(tags: Seq<Tag>)
    ensures
        lowest_tag(tags) is None <==> tags.len() == 0,
        lowest_tag(tags) matches Some(t) ==> tags.contains(t) && forall|i: int|
            0 <= i < tags.len() ==> tag_rank(t) <= tag_rank(#[trigger] tags[i]),
    decreases tags.len(),
{
    if tags.len() > 0 {
        display_tag_is_lowest(tags.drop_last());
        let t = lowest_tag(tags)->0;
        assert forall|i: int| 0 <= i < tags.len() implies tag_rank(t) <= tag_rank(#[trigger] tags[i]) by {
            if i < tags.len() - 1 {
                assert(tags[i] == tags.drop_last()[i]);
            }
        }
        if t == tags.last() {
            assert(tags[tags.len() - 1] == t);
        } else {
            let u = lowest_tag(tags.drop_last())->0;
            let k = choose|k: int| 0 <= k < tags.drop_last().len() && tags.drop_last()[k] == u;
            assert(tags[k] == u);
        }
    }
}


/// English lookup is case-insensitive: a query and its lowercase form give
/// the same outcome, up to the query they echo.
pub proof fn english_lookup_ignores_case(
    records: Seq<RecordModel>,
    query: Seq<char>,
    show_all: bool,
    r1: Result<LookupResult, LookupError>,
    r2: Result<LookupResult, LookupError>,
)
    requires
        is_lookup_outcome(records, query, show_all, r1),
        is_lookup_outcome(records, lower_seq(query), show_all, r2),
        !has_cjk(trim(query)),
    ensures
        match (r1, r2) {
            (Ok(a), Ok(b)) => {
                &&& a.kind == b.kind
                &&& a.displayed_query@ == b.displayed_query@
                &&& a.display_tag == b.display_tag
                &&& a.tags@ == b.tags@
                &&& a.results.deep_view() == b.results.deep_view()
                &&& a.total_results == b.total_results
            },
            (Err(LookupError::EmptyQuery), Err(LookupError::EmptyQuery)) => true,
            (Err(LookupError::NotFound { .. }), Err(LookupError::NotFound { .. })) => true,
            _ => false,
        },
{
    let q = trim(query);
    crate::text::lemma_trim_lower(query);
    crate::text::lemma_has_cjk_lower(q);
    crate::text::normalize_english_ignores_case(q);
    assert(trim(lower_seq(query)) == lower_seq(q));
    assert(lower_seq(q).len() == q.len());
}


/// Cleaned definitions are trimmed, non-empty and distinct, and are exactly
/// the non-empty trimmed definitions given.
#[verifier::spinoff_prover]
pub proof fn deduped_definitions_are_clean(items: Seq<Seq<char>>)
    ensures
        forall|i: int, j: int|
            0 <= i < j < deduped(items).len() ==> #[trigger] deduped(items)[i] != #[trigger] deduped(
                items,
            )[j],
        forall|i: int| 0 <= i < deduped(items).len() ==> (#[trigger] deduped(items)[i]).len() > 0,
        forall|x: Seq<char>|
            deduped(items).contains(x) <==> (x.len() > 0 && exists|k: int|
                0 <= k < items.len() && trim(#[trigger] items[k]) == x),
    decreases items.len(),
{
    if items.len() > 0 {
        let prev = items.drop_last();
        deduped_definitions_are_clean(prev);
        let acc = deduped(prev);
        let t = trim(items.last());
        assert forall|x: Seq<char>|
            deduped(items).contains(x) <==> (x.len() > 0 && exists|k: int|
                0 <= k < items.len() && trim(#[trigger] items[k]) == x) by {
            if deduped(items).contains(x) {
                if acc.contains(x) {
                    let k = choose|k: int| 0 <= k < prev.len() && trim(#[trigger] prev[k]) == x;
                    assert(items[k] == prev[k]);
                } else {
                    let j = choose|j: int| 0 <= j < deduped(items).len() && deduped(items)[j] == x;
                    assert(x == t);
                    assert(trim(items[items.len() - 1]) == x);
                }
            }
            if x.len() > 0 && exists|k: int| 0 <= k < items.len() && trim(#[trigger] items[k]) == x {
                let k = choose|k: int| 0 <= k < items.len() && trim(#[trigger] items[k]) == x;
                if k < items.len() - 1 {
                    assert(prev[k] == items[k]);
                    assert(acc.contains(x));
                    let j = choose|j: int| 0 <= j < acc.len() && acc[j] == x;
                    assert(deduped(items)[j] == x);
                } else if !acc.contains(x) {
                    assert(deduped(items)[acc.len() as int] == x);
                } else {
                    let j = choose|j: int| 0 <= j < acc.len() && acc[j] == x;
                    assert(deduped(items)[j] == x);
                }
            }
        }
        if !(t.len() == 0 || acc.contains(t)) {
            assert forall|i: int, j: int|
                0 <= i < j < deduped(items).len() implies #[trigger] deduped(items)[i]
                != #[trigger] deduped(items)[j] by {
                if j == acc.len() {
                    assert(deduped(items)[i] == acc[i]);
                }
            }
        }
    }
}

/// Normalized tags hold each tag of the input once, in increasing rank.
pub proof fn normalized_tags_are_ranked(tags: Seq<Tag>)
    ensures
        forall|x: Tag| normalized_tags(tags).contains(x) <==> tags.contains(x),
        forall|i: int, j: int|
            0 <= i < j < normalized_tags(tags).len() ==> tag_rank(#[trigger] normalized_tags(tags)[i])
                < tag_rank(#[trigger] normalized_tags(tags)[j]),
{
    let p = |t: Tag| tags.contains(t);
    let all = all_tags();
    assert forall|x: Tag| normalized_tags(tags).contains(x) <==> tags.contains(x) by {
        if normalized_tags(tags).contains(x) {
            all.lemma_filter_contains_rev(p, x);
        }
        if tags.contains(x) {
            let k: int = tag_rank(x) as int;
            assert(all[k] == x);
            all.lemma_filter_contains(p, k);
        }
    }
    lemma_filter_ranked(all, p);
}

proof fn lemma_filter_ranked(s: Seq<Tag>, p: spec_fn(Tag) -> bool)
    requires
        forall|i: int, j: int| 0 <= i < j < s.len() ==> tag_rank(#[trigger] s[i]) < tag_rank(#[trigger] s[j]),
    ensures
        forall|i: int, j: int|
            0 <= i < j < s.filter(p).len() ==> tag_rank(#[trigger] s.filter(p)[i]) < tag_rank(
                #[trigger] s.filter(p)[j],
            ),
    decreases s.len(),
{
    reveal_with_fuel(Seq::filter, 1);
    if s.len() > 0 {
        let prev = s.drop_last();
        lemma_filter_ranked(prev, p);
        if p(s.last()) {
            let f = prev.filter(p);
            assert forall|i: int, j: int|
                0 <= i < j < s.filter(p).len() implies tag_rank(#[trigger] s.filter(p)[i]) < tag_rank(
                #[trigger] s.filter(p)[j],
            ) by {
                if j == f.len() {
                    assert(s.filter(p)[i] == f[i]);
                    assert(f.contains(f[i]));
                    prev.lemma_filter_contains_rev(p, f[i]);
                    assert(prev.contains(f[i]));
                    let k = choose|k: int| 0 <= k < prev.len() && prev[k] == f[i];
                    assert(s[k] == f[i]);
                    assert(s.filter(p)[j] == s[s.len() - 1]);
                } else {
                    assert(s.filter(p)[i] == f[i]);
                    assert(s.filter(p)[j] == f[j]);
                }
            }
        }
    }
}


/// English lookup is exact: it finds the last entry whose canonical
/// headword is the canonical query, and finds nothing when no entry has it.
pub proof fn english_lookup_is_exact(records: Seq<RecordModel>, key: Seq<char>)
    ensures
        english_match(records, key) matches Some(i) ==> 0 <= i < records.len() && english_key(
            records[i].headword,
        ) == key && forall|j: int|
            i < j < records.len() ==> english_key(#[trigger] records[j].headword) != key,
        english_match(records, key) is None ==> forall|j: int|
            0 <= j < records.len() ==> english_key(#[trigger] records[j].headword) != key,
    decreases records.len(),
{
    if records.len() > 0 {
        let prev = records.drop_last();
        english_lookup_is_exact(prev, key);
        assert forall|j: int| 0 <= j < prev.len() implies #[trigger] records[j] == prev[j] by {}
    }
}

proof fn lemma_definition_hits(definitions: Seq<Seq<char>>, key: Seq<char>, index: usize, x: usize)
    ensures
        definition_hits(definitions, key, index).contains(x) <==> (x == index && exists|k: int|
            0 <= k < definitions.len() && chinese_key(#[trigger] definitions[k]) == key),
    decreases definitions.len(),
{
    if definitions.len() > 0 {
        let prev = definitions.drop_last();
        lemma_definition_hits(prev, key, index, x);
        let h = definition_hits(prev, key, index);
        if chinese_key(definitions.last()) == key {
            assert(h.push(index)[h.len() as int] == index);
            if h.push(index).contains(x) && x != index {
                let k = choose|k: int| 0 <= k < h.push(index).len() && h.push(index)[k] == x;
                assert(h[k] == x);
            }
        }
        if exists|k: int| 0 <= k < definitions.len() && chinese_key(#[trigger] definitions[k]) == key {
            let k = choose|k: int| 0 <= k < definitions.len() && chinese_key(#[trigger] definitions[k]) == key;
            if k < prev.len() {
                assert(prev[k] == definitions[k]);
            }
        }
        if exists|k: int| 0 <= k < prev.len() && chinese_key(#[trigger] prev[k]) == key {
            let k = choose|k: int| 0 <= k < prev.len() && chinese_key(#[trigger] prev[k]) == key;
            assert(definitions[k] == prev[k]);
            if chinese_key(definitions.last()) == key && h.contains(x) {
                let j = choose|j: int| 0 <= j < h.len() && h[j] == x;
                assert(h.push(index)[j] == x);
            }
        }
    }
}

/// Chinese reverse lookup is exact: an entry is among the matches exactly
/// when one of its definitions has the canonical query as its canonical
/// form.
pub proof fn reverse_lookup_is_exact(records: Seq<RecordModel>, key: Seq<char>, x: usize)
    requires
        records.len() <= usize::MAX,
    ensures
        chinese_matches(records, key).contains(x) <==> (x < records.len() && exists|k: int|
            0 <= k < records[x as int].definitions.len() && chinese_key(
                #[trigger] records[x as int].definitions[k],
            ) == key),
    decreases records.len(),
{
    if records.len() > 0 {
        let prev = records.drop_last();
        let last = (records.len() - 1) as usize;
        reverse_lookup_is_exact(prev, key, x);
        lemma_definition_hits(records.last().definitions, key, last, x);
        let a = chinese_matches(prev, key);
        let b = definition_hits(records.last().definitions, key, last);
        assert(chinese_matches(records, key) == a + b);
        if (a + b).contains(x) {
            let j = choose|j: int| 0 <= j < (a + b).len() && (a + b)[j] == x;
            if j < a.len() {
                assert(a[j] == x);
            } else {
                assert(b[j - a.len()] == x);
            }
        }
        if a.contains(x) {
            let j = choose|j: int| 0 <= j < a.len() && a[j] == x;
            assert((a + b)[j] == x);
        }
        if b.contains(x) {
            let j = choose|j: int| 0 <= j < b.len() && b[j] == x;
            assert((a + b)[a.len() + j] == x);
        }
        if x < prev.len() {
            assert(records[x as int] == prev[x as int]);
        }
        if x == last {
            assert(records[x as int] == records.last());
        }
    }
}

/// Reverse-lookup results are ordered by best tag rank, and matches with the
/// same best rank come in code point order of their canonical headwords.
pub proof fn equal_rank_matches_are_alphabetical(records: Seq<RecordModel>, m: Seq<usize>)
    ensures
        forall|i: int, j: int|
            #![trigger ranked(records, m)[i], ranked(records, m)[j]]
            0 <= i < j < ranked(records, m).len() ==> {
                let a = records[ranked(records, m)[i] as int];
                let b = records[ranked(records, m)[j] as int];
                &&& best_rank(a.tags) <= best_rank(b.tags)
                &&& best_rank(a.tags) == best_rank(b.tags) ==> !chars_lt(
                    english_key(b.headword),
                    english_key(a.headword),
                )
            },
{
    ranked_matches_are_ordered(records, m);
}

/// The rendered lookup result lists every result, numbered from one, right
/// after the query line and (for an English lookup with a display tag) the
/// tag line, whether or not `--all` was given; only a truncated Chinese lookup
/// adds a blank line and a note after them.
pub proof fn every_result_is_listed(result: LookupResult, show_all: bool)
    ensures
        ({
            let lines = result_lines(result, show_all);
            let h: int = if result.kind == QueryKind::English && result.display_tag is Some {
                2
            } else {
                1
            };
            let n = result.results@.len();
            &&& lines[0] == result.displayed_query@
            &&& lines.len() == h + n + if result.kind == QueryKind::Chinese && !show_all
                && result.total_results > n {
                2int
            } else {
                0int
            }
            &&& forall|k: int|
                0 <= k < n ==> #[trigger] lines[h + k] == decimal((k + 1) as nat) + ". "@
                    + result.results@[k]@
        }),
{
    let lines = result_lines(result, show_all);
    let n = result.results@.len();
    let head = seq![result.displayed_query@];
    let tag_line = match result.display_tag {
        Some(tag) if result.kind == QueryKind::English => seq!["tags: "@ + tag_name(tag)],
        _ => Seq::<Seq<char>>::empty(),
    };
    let items = Seq::new(n, |i: int| numbered_line(i, result.results@[i]@));
    let h: int = if result.kind == QueryKind::English && result.display_tag is Some {
        2
    } else {
        1
    };
    assert((head + tag_line).len() == h);
    assert forall|k: int| 0 <= k < n implies #[trigger] lines[h + k] == decimal((k + 1) as nat)
        + ". "@ + result.results@[k]@ by {
        assert(lines[h + k] == items[k]);
    }
}

} // verus!
