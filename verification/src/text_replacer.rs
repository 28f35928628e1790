//! Emoji search and replacement from an emoji dictionary.
use vstd::prelude::*;

use crate::kana::{hiragana_seq, to_hiragana};
use crate::text::{
    chars_of, distinct_keys, graphemes, lemma_pairs_to_map, lemma_pairs_to_map_update, lines_of,
    lines_spec, pairs_to_map, spec_graphemes, split_chars, split_spec, string_from_chars, views,
};

verus! {

/// What is wrong with an emoji dictionary.
#[derive(Clone, Debug, Eq, PartialEq)]
pub enum TextReplacerError {
    MalformedLine { line: usize, field_count: usize },
}

/// An emoji found for a query.
#[derive(Clone, Debug, Eq, Hash, PartialEq)]
pub struct TextSearchResult {
    pub query: String,
    pub text: String,
}

/// An emoji that can replace the one before the cursor or in the selection.
#[derive(Clone, Debug, Eq, PartialEq)]
pub struct ReplacementCandidate {
    pub target: String,
    pub replacement: String,
    pub base: String,
}

impl ReplacementCandidate {
    /// The text that replaces the target.
    pub fn text(&self) -> (r: &str)
        ensures
            r@ == self.replacement@,
    {
        self.replacement.as_str()
    }
}

/// An emoji and its variations.
#[derive(Clone, Debug)]
struct EmojiGroup {
    base: String,
    variations: Vec<String>,
}

pub struct GroupV {
    pub base: Seq<char>,
    pub variations: Seq<Seq<char>>,
}

impl View for EmojiGroup {
    type V = GroupV;

    closed spec fn view(&self) -> GroupV {
        GroupV { base: self.base@, variations: views(self.variations@) }
    }
}

pub open spec fn group_contains(g: GroupV, emoji: Seq<char>) -> bool {
    g.base == emoji || g.variations.contains(emoji)
}

/// The emoji dictionary: the emojis of each query, the groups of variations, and the
/// emojis that are variations of another.
pub struct TextReplacer {
    emoji_search: Vec<(String, Vec<String>)>,
    emoji_groups: Vec<EmojiGroup>,
    non_base_emojis: Vec<String>,
}

pub struct ReplacerV {
    pub search: Map<Seq<char>, Seq<Seq<char>>>,
    pub groups: Seq<GroupV>,
    pub non_base: Set<Seq<char>>,
}

spec fn search_view(s: Seq<(String, Vec<String>)>) -> Seq<(Seq<char>, Seq<Seq<char>>)> {
    s.map_values(|e: (String, Vec<String>)| (e.0@, views(e.1@)))
}

spec fn groups_view(g: Seq<EmojiGroup>) -> Seq<GroupV> {
    g.map_values(|e: EmojiGroup| e@)
}

impl View for TextReplacer {
    type V = ReplacerV;

    closed spec fn view(&self) -> ReplacerV {
        ReplacerV {
            search: pairs_to_map(search_view(self.emoji_search@)),
            groups: groups_view(self.emoji_groups@),
            non_base: views(self.non_base_emojis@).to_set(),
        }
    }
}

/// The non-empty items of a comma-separated list.
pub open spec fn split_list_spec(value: Seq<char>) -> Seq<Seq<char>> {
    split_spec(value, ',').filter(|item: Seq<char>| item.len() > 0)
}

/// Adds `base` and its variations to the emojis of each query.
pub open spec fn add_queries(
    m: Map<Seq<char>, Seq<Seq<char>>>,
    queries: Seq<Seq<char>>,
    base: Seq<char>,
    variations: Seq<Seq<char>>,
) -> Map<Seq<char>, Seq<Seq<char>>>
    decreases queries.len(),
{
    if queries.len() == 0 {
        m
    } else {
        let m1 = add_queries(m, queries.drop_last(), base, variations);
        let q = queries.last();
        let existing = if m1.contains_key(q) {
            m1[q]
        } else {
            Seq::empty()
        };
        m1.insert(q, existing.push(base) + variations)
    }
}

/// The dictionary after one line `base<TAB>queries<TAB>variations`.
pub open spec fn add_line(r: ReplacerV, fields: Seq<Seq<char>>) -> ReplacerV {
    let base = fields[0];
    let variations = split_list_spec(fields[2]);
    ReplacerV {
        search: add_queries(r.search, split_list_spec(fields[1]), base, variations),
        groups: r.groups.push(GroupV { base, variations }),
        non_base: r.non_base + variations.to_set(),
    }
}

pub open spec fn empty_replacer() -> ReplacerV {
    ReplacerV { search: Map::empty(), groups: Seq::empty(), non_base: Set::empty() }
}

proof fn lemma_group_step(groups: Seq<GroupV>, emoji: Seq<char>, i: int)
    requires
        0 <= i < groups.len(),
        group_of(groups.take(i), emoji) is None,
        group_contains(groups[i], emoji),
    ensures
        group_of(groups.take(i + 1), emoji) == Some(groups[i]),
{
    assert(groups.take(i + 1).drop_last() == groups.take(i));
    assert(groups.take(i + 1).last() == groups[i]);
}

proof fn lemma_group_prefix(groups: Seq<GroupV>, emoji: Seq<char>, n: int)
    requires
        0 <= n <= groups.len(),
        group_of(groups.take(n), emoji) is Some,
    ensures
        group_of(groups, emoji) == group_of(groups.take(n), emoji),
    decreases groups.len() - n,
{
    if n < groups.len() {
        assert(groups.take(n + 1).drop_last() == groups.take(n));
        lemma_group_prefix(groups, emoji, n + 1);
    } else {
        assert(groups.take(n) == groups);
    }
}

proof fn lemma_parse_err(lines: Seq<Seq<char>>, k: int, m: int)
    requires
        1 <= k <= m,
        parse_upto(lines, k) is Err,
    ensures
        parse_upto(lines, m) == parse_upto(lines, k),
    decreases m - k,
{
    if k < m {
        lemma_parse_err(lines, k + 1, m);
    }
}

/// The dictionary of the first `k` lines, or the first (one-based) line that does not have
/// three tab-separated fields; empty lines are skipped.
pub open spec fn parse_upto(lines: Seq<Seq<char>>, k: int) -> Result<ReplacerV, (int, int)>
    decreases k,
{
    if k <= 0 {
        Ok(empty_replacer())
    } else {
        match parse_upto(lines, k - 1) {
            Err(e) => Err(e),
            Ok(r) => {
                let line = lines[k - 1];
                if line.len() == 0 {
                    Ok(r)
                } else {
                    let fields = split_spec(line, '\t');
                    if fields.len() != 3 {
                        Err((k, fields.len() as int))
                    } else {
                        Ok(add_line(r, fields))
                    }
                }
            },
        }
    }
}

pub open spec fn parse_spec(contents: Seq<char>) -> Result<ReplacerV, (int, int)> {
    parse_upto(lines_spec(contents), lines_spec(contents).len() as int)
}

/// Unicode lower-case mapping of a text (`str::to_lowercase`).
pub uninterp spec fn spec_lowercase(s: Seq<char>) -> Seq<char>;

/// `str::to_lowercase`: the result is the lower-case mapping of `s`, named
/// `spec_lowercase`; its character tables are not restated here.
#[verifier::external_body]
pub(crate) fn lowercase(s: &str) -> (r: String)
    ensures
        r@ == spec_lowercase(s@),
{
    s.to_lowercase()
}

/// A query as the dictionary is keyed: lower case, with katakana as hiragana.
pub open spec fn normalize_spec(q: Seq<char>) -> Seq<char> {
    hiragana_seq(spec_lowercase(q))
}

fn normalize_query(value: &str) -> (r: String)
    ensures
        r@ == normalize_spec(value@),
{
    let lower = lowercase(value);
    to_hiragana(lower.as_str())
}

/// The emojis shown for a query: all of them, or only those that are no variation.
pub open spec fn search_spec(r: ReplacerV, query: Seq<char>, ignore_non_base: bool) -> Seq<
    Seq<char>,
> {
    let q = normalize_spec(query);
    let all = if r.search.contains_key(q) {
        r.search[q]
    } else {
        Seq::empty()
    };
    all.filter(|e: Seq<char>| !ignore_non_base || !r.non_base.contains(e))
}

/// The grapheme replaced: the selected one, or else the one before the cursor.
pub open spec fn target_spec(left: Seq<char>, center: Seq<char>) -> Option<Seq<char>> {
    let cg = spec_graphemes(center);
    if cg.len() == 1 {
        Some(cg[0])
    } else {
        let lg = spec_graphemes(left);
        if lg.len() > 0 {
            Some(lg.last())
        } else {
            None
        }
    }
}

/// The first group holding the emoji.
pub open spec fn group_of(groups: Seq<GroupV>, emoji: Seq<char>) -> Option<GroupV>
    decreases groups.len(),
{
    if groups.len() == 0 {
        None
    } else {
        match group_of(groups.drop_last(), emoji) {
            Some(g) => Some(g),
            None => if group_contains(groups.last(), emoji) {
                Some(groups.last())
            } else {
                None
            },
        }
    }
}

/// The other members of a group, base first.
pub open spec fn alternatives(g: GroupV, emoji: Seq<char>) -> Seq<Seq<char>> {
    seq![g.base].add(g.variations).filter(|item: Seq<char>| item != emoji)
}

pub open spec fn replacements_spec(r: ReplacerV, left: Seq<char>, center: Seq<char>) -> Seq<
    (Seq<char>, Seq<char>, Seq<char>),
> {
    match target_spec(left, center) {
        None => Seq::empty(),
        Some(t) => match group_of(r.groups, t) {
            None => Seq::empty(),
            Some(g) => alternatives(g, t).map_values(
                |a: Seq<char>| (t, a, g.base),
            ),
        },
    }
}

pub open spec fn candidates_view(c: Seq<ReplacementCandidate>) -> Seq<
    (Seq<char>, Seq<char>, Seq<char>),
> {
    c.map_values(|x: ReplacementCandidate| (x.target@, x.replacement@, x.base@))
}

fn split_list(value: &Vec<char>) -> (out: Vec<String>)
    ensures
        views(out@) == split_list_spec(value@),
{
    let parts = split_chars(value.as_slice(), ',');
    let ghost pv = parts@.map_values(|v: Vec<char>| v@);
    let mut out: Vec<String> = Vec::new();
    let mut i: usize = 0;
    while i < parts.len()
        invariant
            i <= parts@.len(),
            pv == parts@.map_values(|v: Vec<char>| v@),
            pv == split_spec(value@, ','),
            views(out@) == pv.take(i as int).filter(|item: Seq<char>| item.len() > 0),
        decreases parts@.len() - i,
    {
        proof {
            reveal(Seq::filter);
            assert(pv.take(i + 1).drop_last() == pv.take(i as int));
            assert(pv.take(i + 1).last() == parts@[i as int]@);
        }
        if parts[i].len() > 0 {
            let ghost before = views(out@);
            let item = string_from_chars(parts[i].as_slice());
            out.push(item);
            assert(views(out@) == before.push(parts@[i as int]@));
        }
        i = i + 1;
    }
    assert(pv.take(i as int) == pv);
    out
}

fn copy_strings(v: &Vec<String>) -> (out: Vec<String>)
    ensures
        views(out@) == views(v@),
{
    let mut out: Vec<String> = Vec::new();
    let mut i: usize = 0;
    while i < v.len()
        invariant
            i <= v@.len(),
            views(out@) == views(v@).take(i as int),
        decreases v@.len() - i,
    {
        out.push(v[i].clone());
        assert(views(v@).take(i + 1) == views(v@).take(i as int).push(v@[i as int]@));
        i = i + 1;
    }
    assert(views(v@).take(i as int) == views(v@));
    out
}

/// The position of `key` among the search entries.
fn find_query(entries: &Vec<(String, Vec<String>)>, key: &String) -> (r: Option<usize>)
    ensures
        match r {
            Some(j) => j < entries@.len() && search_view(entries@)[j as int].0 == key@,
            None => forall|k: int|
                0 <= k < entries@.len() ==> (#[trigger] search_view(entries@)[k]).0 != key@,
        },
{
    let mut j: usize = 0;
    while j < entries.len()
        invariant
            j <= entries@.len(),
            forall|k: int| 0 <= k < j ==> (#[trigger] search_view(entries@)[k]).0 != key@,
        decreases entries@.len() - j,
    {
        assert(search_view(entries@)[j as int].0 == entries@[j as int].0@);
        if entries[j].0 == *key {
            return Some(j);
        }
        j = j + 1;
    }
    None
}

/// Adds `base` and its variations to the emojis of one query.
fn add_query(
    entries: &mut Vec<(String, Vec<String>)>,
    query: String,
    base: &String,
    variations: &Vec<String>,
)
    requires
        distinct_keys(search_view(old(entries)@)),
    ensures
        distinct_keys(search_view(final(entries)@)),
        pairs_to_map(search_view(final(entries)@)) == ({
            let m = pairs_to_map(search_view(old(entries)@));
            let existing = if m.contains_key(query@) {
                m[query@]
            } else {
                Seq::empty()
            };
            m.insert(query@, existing.push(base@) + views(variations@))
        }),
{
    let ghost before = search_view(entries@);
    proof {
        lemma_pairs_to_map(before);
    }
    match find_query(entries, &query) {
        Some(j) => {
            let mut values = copy_strings(&entries[j].1);
            let ghost existing = views(values@);
            values.push(base.clone());
            let extra = copy_strings(variations);
            let mut k: usize = 0;
            while k < extra.len()
                invariant
                    k <= extra@.len(),
                    views(values@) == existing.push(base@) + views(extra@).take(k as int),
                decreases extra@.len() - k,
            {
                let ghost prev = views(values@);
                values.push(extra[k].clone());
                assert(views(values@) == prev.push(extra@[k as int]@));
                assert(views(extra@).take(k + 1) == views(extra@).take(k as int).push(
                    extra@[k as int]@,
                ));
                assert(views(values@) =~= existing.push(base@) + views(extra@).take(k + 1));
                k = k + 1;
            }
            assert(views(extra@).take(k as int) == views(extra@));
            let key = entries[j].0.clone();
            let ghost new_entry = (before[j as int].0, views(values@));
            entries.set(j, (key, values));
            proof {
                assert(search_view(entries@) == before.update(j as int, new_entry));
                lemma_pairs_to_map_update(before, j as int, views(values@));
                assert(pairs_to_map(before).contains_key(before[j as int].0));
                assert forall|a: int, b: int|
                    0 <= a < b < search_view(entries@).len() implies (
                #[trigger] search_view(entries@)[a]).0 != (
                #[trigger] search_view(entries@)[b]).0 by {
                    assert(before[a].0 == search_view(entries@)[a].0);
                    assert(before[b].0 == search_view(entries@)[b].0);
                }
            }
        },
        None => {
            let mut values: Vec<String> = Vec::new();
            values.push(base.clone());
            let extra = copy_strings(variations);
            let mut k: usize = 0;
            while k < extra.len()
                invariant
                    k <= extra@.len(),
                    views(values@) == seq![base@] + views(extra@).take(k as int),
                decreases extra@.len() - k,
            {
                let ghost prev = views(values@);
                values.push(extra[k].clone());
                assert(views(values@) == prev.push(extra@[k as int]@));
                assert(views(extra@).take(k + 1) == views(extra@).take(k as int).push(
                    extra@[k as int]@,
                ));
                assert(views(values@) =~= seq![base@] + views(extra@).take(k + 1));
                k = k + 1;
            }
            assert(views(extra@).take(k as int) == views(extra@));
            assert(Seq::<Seq<char>>::empty().push(base@) == seq![base@]);
            let ghost entry = (query@, views(values@));
            entries.push((query, values));
            proof {
                assert(search_view(entries@) == before.push(entry));
                assert(before.push(entry).drop_last() == before);
                if pairs_to_map(before).contains_key(entry.0) {
                    let w = choose|w: int| 0 <= w < before.len() && before[w].0 == entry.0;
                    assert(false);
                }
                assert forall|a: int, b: int|
                    0 <= a < b < search_view(entries@).len() implies (
                #[trigger] search_view(entries@)[a]).0 != (
                #[trigger] search_view(entries@)[b]).0 by {
                    if b < before.len() {
                        assert(before[a] == search_view(entries@)[a]);
                        assert(before[b] == search_view(entries@)[b]);
                    } else {
                        assert(before[a] == search_view(entries@)[a]);
                    }
                }
            }
        },
    }
}


impl TextReplacer {
    #[verifier::type_invariant]
    spec fn queries_distinct(self) -> bool {
        distinct_keys(search_view(self.emoji_search@))
    }

    /// A dictionary without entries.
    pub fn new() -> (r: Self)
        ensures
            r@ == empty_replacer(),
    {
        let r = TextReplacer {
            emoji_search: Vec::new(),
            emoji_groups: Vec::new(),
            non_base_emojis: Vec::new(),
        };
        assert(search_view(r.emoji_search@) == Seq::<(Seq<char>, Seq<Seq<char>>)>::empty());
        assert(r@.groups == Seq::<GroupV>::empty());
        assert(r@.non_base == Set::<Seq<char>>::empty());
        r
    }

    /// Whether the dictionary has no entry.
    pub fn is_empty(&self) -> (r: bool)
        ensures
            r == (self@.search.dom().len() == 0 && self@.groups.len() == 0 && self@.non_base.len()
                == 0),
    {
        proof {
            use_type_invariant(self);
            lemma_pairs_to_map(search_view(self.emoji_search@));
            let nb = views(self.non_base_emojis@);
            broadcast use vstd::seq_lib::seq_to_set_is_finite;
            if nb.len() == 0 {
                assert(nb.to_set() =~= Set::<Seq<char>>::empty());
            } else {
                assert(nb.to_set().contains(nb[0]));
                if nb.to_set().len() == 0 {
                    nb.to_set().lemma_len0_is_empty();
                }
            }
        }
        self.emoji_search.len() == 0 && self.emoji_groups.len() == 0
            && self.non_base_emojis.len() == 0
    }


    /// Reads an emoji dictionary: each non-empty line is `base<TAB>queries<TAB>variations`,
    /// the lists separated by commas; a line with another number of fields is refused with
    /// its one-based number.
    pub fn parse(contents: &str) -> (r: Result<Self, TextReplacerError>)
        ensures
            match r {
                Ok(t) => parse_spec(contents@) == Ok::<ReplacerV, (int, int)>(t@),
                Err(TextReplacerError::MalformedLine { line, field_count }) => parse_spec(contents@)
                    == Err::<ReplacerV, (int, int)>((line as int, field_count as int)),
            },
    {
        let lines = lines_of(contents);
        let ghost ls = lines@.map_values(|v: Vec<char>| v@);
        let mut search: Vec<(String, Vec<String>)> = Vec::new();
        let mut groups: Vec<EmojiGroup> = Vec::new();
        let mut non_base: Vec<String> = Vec::new();
        let mut index: usize = 0;
        proof {
            assert(search_view(search@) == Seq::<(Seq<char>, Seq<Seq<char>>)>::empty());
            assert(groups_view(groups@) == Seq::<GroupV>::empty());
            assert(views(non_base@).to_set() =~= Set::<Seq<char>>::empty());
        }
        while index < lines.len()
            invariant
                index <= lines@.len(),
                ls == lines@.map_values(|v: Vec<char>| v@),
                ls == lines_spec(contents@),
                distinct_keys(search_view(search@)),
                parse_upto(ls, index as int) == Ok::<ReplacerV, (int, int)>(
                    ReplacerV {
                        search: pairs_to_map(search_view(search@)),
                        groups: groups_view(groups@),
                        non_base: views(non_base@).to_set(),
                    },
                ),
            decreases lines@.len() - index,
        {
            let line = &lines[index];
            assert(ls[index as int] == line@);
            if line.len() > 0 {
                let fields = split_chars(line.as_slice(), '\t');
                let ghost fv = fields@.map_values(|v: Vec<char>| v@);
                if fields.len() != 3 {
                    proof {
                        lemma_parse_err(ls, index as int + 1, ls.len() as int);
                    }
                    return Err(TextReplacerError::MalformedLine { line: index + 1, field_count: fields.len() });
                }
                let ghost start = ReplacerV {
                    search: pairs_to_map(search_view(search@)),
                    groups: groups_view(groups@),
                    non_base: views(non_base@).to_set(),
                };
                assert(fv[0] == fields@[0]@ && fv[1] == fields@[1]@ && fv[2] == fields@[2]@);
                let base = string_from_chars(fields[0].as_slice());
                let variations = split_list(&fields[2]);
                let queries = split_list(&fields[1]);
                let ghost qv = views(queries@);
                let mut i: usize = 0;
                while i < queries.len()
                    invariant
                        i <= queries@.len(),
                        qv == views(queries@),
                        distinct_keys(search_view(search@)),
                        pairs_to_map(search_view(search@)) == add_queries(
                            start.search,
                            qv.take(i as int),
                            base@,
                            views(variations@),
                        ),
                    decreases queries@.len() - i,
                {
                    assert(qv.take(i + 1).drop_last() == qv.take(i as int));
                    assert(qv.take(i + 1).last() == queries@[i as int]@);
                    add_query(&mut search, queries[i].clone(), &base, &variations);
                    i = i + 1;
                }
                assert(qv.take(i as int) == qv);
                let ghost nb = views(non_base@);
                let mut k: usize = 0;
                while k < variations.len()
                    invariant
                        k <= variations@.len(),
                        views(non_base@) == nb + views(variations@).take(k as int),
                    decreases variations@.len() - k,
                {
                    let ghost prev = views(non_base@);
                    non_base.push(variations[k].clone());
                    assert(views(non_base@) == prev.push(variations@[k as int]@));
                    assert(views(variations@).take(k + 1) == views(variations@).take(k as int).push(
                        variations@[k as int]@,
                    ));
                    k = k + 1;
                }
                assert(views(variations@).take(k as int) == views(variations@));
                let ghost gv = groups_view(groups@);
                let ghost vv = views(variations@);
                let group = EmojiGroup { base, variations };
                assert(group@ == GroupV { base: fv[0], variations: split_list_spec(fv[2]) });
                groups.push(group);
                proof {
                    assert(groups_view(groups@) == gv.push(GroupV { base: fv[0], variations: vv }));
                    vstd::seq_lib::seq_to_set_distributes_over_add(nb, vv);
                    assert(split_spec(line@, '\t') == fv);
                    assert(parse_upto(ls, index as int + 1) == Ok::<ReplacerV, (int, int)>(add_line(start, fv)));
                }
            }
            index = index + 1;
        }
        assert(ls.take(index as int) == ls);
        Ok(TextReplacer { emoji_search: search, emoji_groups: groups, non_base_emojis: non_base })
    }

    /// The emojis of the normalised query, in dictionary order; with
    /// `ignore_non_base_emoji`, only those that are no variation of another.
    pub fn search(&self, query: &str, ignore_non_base_emoji: bool) -> (out: Vec<TextSearchResult>)
        ensures
            out@.map_values(|x: TextSearchResult| x.text@) == search_spec(
                self@,
                query@,
                ignore_non_base_emoji,
            ),
            forall|i: int| 0 <= i < out@.len() ==> (#[trigger] out@[i]).query@ == normalize_spec(query@),
    {
        proof {
            use_type_invariant(self);
            lemma_pairs_to_map(search_view(self.emoji_search@));
        }
        let q = normalize_query(query);
        let ghost m = self@.search;
        let ghost nb = self@.non_base;
        let ghost f = |e: Seq<char>| !ignore_non_base_emoji || !nb.contains(e);
        let mut out: Vec<TextSearchResult> = Vec::new();
        match find_query(&self.emoji_search, &q) {
            None => {
                assert(!m.contains_key(q@)) by {
                    if m.contains_key(q@) {
                        let w = choose|w: int|
                            0 <= w < search_view(self.emoji_search@).len() && search_view(
                                self.emoji_search@,
                            )[w].0 == q@;
                        assert(search_view(self.emoji_search@)[w].0 != q@);
                    }
                }
                assert(Seq::<Seq<char>>::empty().filter(f) =~= Seq::<Seq<char>>::empty()) by {
                    reveal(Seq::filter);
                }
            },
            Some(j) => {
                let values = &self.emoji_search[j].1;
                let ghost all = views(values@);
                assert(search_view(self.emoji_search@)[j as int] == (q@, all));
                assert(pairs_to_map(search_view(self.emoji_search@)).contains_key(
                    search_view(self.emoji_search@)[j as int].0,
                ));
                assert(m.contains_key(q@) && m[q@] == all);
                let mut i: usize = 0;
                while i < values.len()
                    invariant
                        i <= values@.len(),
                        all == views(values@),
                        nb == self@.non_base,
                        f == (|e: Seq<char>| !ignore_non_base_emoji || !nb.contains(e)),
                        out@.map_values(|x: TextSearchResult| x.text@) == all.take(i as int).filter(f),
                        forall|k: int| 0 <= k < out@.len() ==> (#[trigger] out@[k]).query@ == q@,
                    decreases values@.len() - i,
                {
                    proof {
                        reveal(Seq::filter);
                        assert(all.take(i + 1).drop_last() == all.take(i as int));
                        assert(all.take(i + 1).last() == values@[i as int]@);
                    }
                    let keep = !ignore_non_base_emoji || !self.is_non_base(&values[i]);
                    if keep {
                        let ghost before = out@.map_values(|x: TextSearchResult| x.text@);
                        out.push(TextSearchResult { query: q.clone(), text: values[i].clone() });
                        assert(out@.map_values(|x: TextSearchResult| x.text@) == before.push(values@[i as int]@));
                    }
                    i = i + 1;
                }
                assert(all.take(i as int) == all);
            },
        }
        out
    }

    /// Whether an emoji is a variation of another.
    fn is_non_base(&self, emoji: &String) -> (r: bool)
        ensures
            r == self@.non_base.contains(emoji@),
    {
        let ghost nb = views(self.non_base_emojis@);
        let mut i: usize = 0;
        while i < self.non_base_emojis.len()
            invariant
                i <= self.non_base_emojis@.len(),
                nb == views(self.non_base_emojis@),
                forall|k: int| 0 <= k < i ==> nb[k] != emoji@,
            decreases self.non_base_emojis@.len() - i,
        {
            if self.non_base_emojis[i] == *emoji {
                assert(nb[i as int] == emoji@);
                return true;
            }
            i = i + 1;
        }
        false
    }

    /// The other emojis of the group of the selected emoji (or, without a one-grapheme
    /// selection, of the emoji before the cursor), base first.
    pub fn replacements(&self, left: &str, center: &str, right: &str) -> (out: Vec<
        ReplacementCandidate,
    >)
        ensures
            candidates_view(out@) == replacements_spec(self@, left@, center@),
    {
        let cg = graphemes(center);
        let target = if cg.len() == 1 {
            assert(views(cg@)[0] == cg@[0]@);
            cg[0].clone()
        } else {
            let lg = graphemes(left);
            if lg.len() > 0 {
                assert(views(lg@).last() == lg@[lg@.len() - 1]@);
                lg[lg.len() - 1].clone()
            } else {
                let none: Vec<ReplacementCandidate> = Vec::new();
                assert(candidates_view(none@) =~= Seq::<(Seq<char>, Seq<char>, Seq<char>)>::empty());
                return none;
            }
        };
        let ghost t = target@;
        assert(target_spec(left@, center@) == Some(t));
        let ghost gv = groups_view(self.emoji_groups@);
        let mut gi: usize = 0;
        while gi < self.emoji_groups.len()
            invariant
                gi <= self.emoji_groups@.len(),
                gv == groups_view(self.emoji_groups@),
                t == target@,
                target_spec(left@, center@) == Some(t),
                group_of(gv.take(gi as int), t) is None,
            decreases self.emoji_groups@.len() - gi,
        {
            assert(gv.take(gi + 1).drop_last() == gv.take(gi as int));
            assert(gv.take(gi + 1).last() == self.emoji_groups@[gi as int]@);
            if self.group_has(gi, &target) {
                proof {
                    assert(gv[gi as int] == self.emoji_groups@[gi as int]@);
                    lemma_group_step(gv, t, gi as int);
                    lemma_group_prefix(gv, t, gi + 1);
                }
                return self.alternatives_of(gi, &target);
            }
            gi = gi + 1;
        }
        assert(gv.take(gi as int) == gv);
        let none: Vec<ReplacementCandidate> = Vec::new();
        assert(candidates_view(none@) =~= Seq::<(Seq<char>, Seq<char>, Seq<char>)>::empty());
        none
    }

    /// Whether group `gi` holds the emoji.
    fn group_has(&self, gi: usize, emoji: &String) -> (r: bool)
        requires
            gi < self.emoji_groups@.len(),
        ensures
            r == group_contains(self.emoji_groups@[gi as int]@, emoji@),
    {
        let g = &self.emoji_groups[gi];
        assert(self.emoji_groups@[gi as int]@ == GroupV { base: g.base@, variations: views(g.variations@) });
        if g.base == *emoji {
            return true;
        }
        let ghost vv = views(g.variations@);
        let mut i: usize = 0;
        while i < g.variations.len()
            invariant
                i <= g.variations@.len(),
                vv == views(g.variations@),
                gi < self.emoji_groups@.len(),
                self.emoji_groups@[gi as int]@ == (GroupV { base: g.base@, variations: vv }),
                g.base@ != emoji@,
                forall|k: int| 0 <= k < i ==> vv[k] != emoji@,
            decreases g.variations@.len() - i,
        {
            if g.variations[i] == *emoji {
                assert(vv[i as int] == emoji@);
                assert(vv.contains(emoji@));
                assert(group_contains(self.emoji_groups@[gi as int]@, emoji@));
                return true;
            }
            i = i + 1;
        }
        false
    }

    /// The candidates replacing the emoji by the other members of group `gi`.
    fn alternatives_of(&self, gi: usize, target: &String) -> (out: Vec<ReplacementCandidate>)
        requires
            gi < self.emoji_groups@.len(),
        ensures
            candidates_view(out@) == alternatives(self.emoji_groups@[gi as int]@, target@).map_values(
                |a: Seq<char>| (target@, a, self.emoji_groups@[gi as int]@.base),
            ),
    {
        let g = &self.emoji_groups[gi];
        assert(self.emoji_groups@[gi as int]@ == GroupV { base: g.base@, variations: views(g.variations@) });
        let ghost members = seq![g.base@].add(views(g.variations@));
        let ghost f = |item: Seq<char>| item != target@;
        let ghost base = g.base@;
        let mut out: Vec<ReplacementCandidate> = Vec::new();
        proof {
            reveal(Seq::filter);
            assert(members.take(1).drop_last() == members.take(0));
            assert(members.take(1).last() == base);
            assert(members.take(0).filter(f) =~= Seq::<Seq<char>>::empty());
        }
        if g.base != *target {
            out.push(ReplacementCandidate { target: target.clone(), replacement: g.base.clone(), base: g.base.clone() });
            assert(candidates_view(out@) =~= members.take(1).filter(f).map_values(
                |a: Seq<char>| (target@, a, base),
            ));
        } else {
            assert(candidates_view(out@) =~= members.take(1).filter(f).map_values(
                |a: Seq<char>| (target@, a, base),
            ));
        }
        let mut j: usize = 0;
        while j < g.variations.len()
            invariant
                j <= g.variations@.len(),
                members == seq![g.base@].add(views(g.variations@)),
                members.len() == g.variations@.len() + 1,
                base == g.base@,
                f == (|item: Seq<char>| item != target@),
                candidates_view(out@) == members.take(j + 1).filter(f).map_values(
                    |a: Seq<char>| (target@, a, base),
                ),
            decreases g.variations@.len() - j,
        {
            proof {
                reveal(Seq::filter);
                assert(members.take(j + 2).drop_last() == members.take(j + 1));
            }
            let item = g.variations[j].clone();
            assert(item@ == members[j + 1]);
            assert(members.take(j + 2).last() == members[j + 1]);
            if item != *target {
                let ghost before = candidates_view(out@);
                out.push(ReplacementCandidate { target: target.clone(), replacement: item, base: g.base.clone() });
                proof {
                    let kept = members.take(j + 1).filter(f);
                    assert(kept.push(members[j + 1]).map_values(|a: Seq<char>| (target@, a, base))
                        =~= kept.map_values(|a: Seq<char>| (target@, a, base)).push((target@, members[j + 1], base)));
                    assert(candidates_view(out@) =~= before.push((target@, members[j + 1], base)));
                }
            }
            j = j + 1;
        }
        assert(members.take(j + 1) == members);
        out
    }
}

} // verus!
