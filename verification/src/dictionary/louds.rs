//! Level-order unary degree sequence (LOUDS) tries over character identifiers.
use std::ops::Range;

use vstd::prelude::*;

use crate::text::{
    chars_of, distinct_keys, graphemes, lemma_pairs_to_map, lemma_pairs_to_map_update, pairs_to_map,
    push_char, spec_graphemes, spells, views,
};

verus! {

/// What is wrong with LOUDS data.
#[derive(Clone, Debug, Eq, PartialEq)]
pub enum LoudsError {
    InvalidWordLength(usize),
    MissingZeroDelimiters { needed: usize, found: usize },
    NodeTableTooLarge(usize),
    InvalidTopology { node: usize, zero_position: usize },
}

/// The identifiers of the graphemes of a character table, each keyed by its grapheme; a
/// grapheme listed twice keeps its last position.
#[derive(Debug)]
pub struct CharacterIdMap {
    ids: Vec<(String, u8)>,
}

/// The map from each grapheme of `gs` to its last position.
pub open spec fn id_map(gs: Seq<Seq<char>>) -> Map<Seq<char>, u8>
    decreases gs.len(),
{
    if gs.len() == 0 {
        Map::empty()
    } else {
        id_map(gs.drop_last()).insert(gs.last(), (gs.len() - 1) as u8)
    }
}

spec fn ids_view(v: Seq<(String, u8)>) -> Seq<(Seq<char>, u8)> {
    v.map_values(|e: (String, u8)| (e.0@, e.1))
}

impl View for CharacterIdMap {
    type V = Map<Seq<char>, u8>;

    closed spec fn view(&self) -> Map<Seq<char>, u8> {
        pairs_to_map(ids_view(self.ids@))
    }
}

/// The position of `key` among the pairs.
fn find_key(ids: &Vec<(String, u8)>, key: &String) -> (r: Option<usize>)
    ensures
        match r {
            Some(j) => j < ids@.len() && ids_view(ids@)[j as int].0 == key@,
            None => forall|k: int| 0 <= k < ids@.len() ==> (#[trigger] ids_view(ids@)[k]).0 != key@,
        },
{
    let mut j: usize = 0;
    while j < ids.len()
        invariant
            j <= ids@.len(),
            forall|k: int| 0 <= k < j ==> (#[trigger] ids_view(ids@)[k]).0 != key@,
        decreases ids@.len() - j,
    {
        assert(ids_view(ids@)[j as int].0 == ids@[j as int].0@);
        if ids[j].0 == *key {
            return Some(j);
        }
        j = j + 1;
    }
    None
}

impl CharacterIdMap {
    #[verifier::type_invariant]
    spec fn keys_distinct(self) -> bool {
        distinct_keys(ids_view(self.ids@))
    }

    /// Numbers the grapheme clusters of a character table by position; a table of more than
    /// 256 clusters is refused.
    pub fn parse(content: &str) -> (r: Result<Self, LoudsError>)
        ensures
            match r {
                Ok(m) => spec_graphemes(content@).len() <= 256 && m@ == id_map(
                    spec_graphemes(content@),
                ),
                Err(e) => spec_graphemes(content@).len() > 256 && e
                    == LoudsError::NodeTableTooLarge(spec_graphemes(content@).len() as usize),
            },
    {
        let gs = graphemes(content);
        let ghost gv = views(gs@);
        if gs.len() > 256 {
            return Err(LoudsError::NodeTableTooLarge(gs.len()));
        }
        let mut ids: Vec<(String, u8)> = Vec::new();
        let mut i: usize = 0;
        while i < gs.len()
            invariant
                i <= gs@.len() <= 256,
                gv == views(gs@),
                distinct_keys(ids_view(ids@)),
                pairs_to_map(ids_view(ids@)) == id_map(gv.take(i as int)),
            decreases gs@.len() - i,
        {
            let ghost before = ids_view(ids@);
            let index = i as u8;
            proof {
                lemma_pairs_to_map(before);
                assert(gv.take(i + 1).drop_last() == gv.take(i as int));
                assert(gv.take(i + 1).last() == gs@[i as int]@);
                assert(id_map(gv.take(i + 1)) == id_map(gv.take(i as int)).insert(gv[i as int], index));
            }
            let found = find_key(&ids, &gs[i]);
            assert(gv[i as int] == gs@[i as int]@);
            if let Some(j) = found {
                let key = ids[j].0.clone();
                ids.set(j, (key, index));
                proof {
                    assert(ids_view(ids@) == before.update(j as int, (before[j as int].0, index)));
                    lemma_pairs_to_map_update(before, j as int, index);
                    assert(pairs_to_map(ids_view(ids@)) == id_map(gv.take(i + 1)));
                    assert forall|a: int, b: int| 0 <= a < b < ids_view(ids@).len() implies (
                    #[trigger] ids_view(ids@)[a]).0 != (#[trigger] ids_view(ids@)[b]).0 by {
                        assert(before[a].0 == ids_view(ids@)[a].0);
                        assert(before[b].0 == ids_view(ids@)[b].0);
                    }
                }
            } else {
                ids.push((gs[i].clone(), index));
                proof {
                    assert(ids_view(ids@) == before.push((gs@[i as int]@, index)));
                    assert(before.push((gs@[i as int]@, index)).drop_last() == before);
                    assert(pairs_to_map(ids_view(ids@)) == id_map(gv.take(i + 1)));
                    assert forall|a: int, b: int| 0 <= a < b < ids_view(ids@).len() implies (
                    #[trigger] ids_view(ids@)[a]).0 != (#[trigger] ids_view(ids@)[b]).0 by {
                        if b < before.len() {
                            assert(before[a] == ids_view(ids@)[a] && before[b] == ids_view(ids@)[b]);
                        } else {
                            assert(before[a] == ids_view(ids@)[a]);
                        }
                    }
                }
            }
            i = i + 1;
        }
        assert(gv.take(i as int) == gv);
        Ok(CharacterIdMap { ids })
    }

    /// The identifier of a grapheme.
    pub fn id(&self, grapheme: &str) -> (r: Option<u8>)
        ensures
            match r {
                Some(v) => self@.contains_key(grapheme@) && self@[grapheme@] == v,
                None => !self@.contains_key(grapheme@),
            },
    {
        proof {
            use_type_invariant(self);
        }
        let ghost s = ids_view(self.ids@);
        let key = grapheme.to_owned();
        proof {
            lemma_pairs_to_map(s);
        }
        match find_key(&self.ids, &key) {
            Some(j) => {
                assert(s[j as int] == (self.ids@[j as int].0@, self.ids@[j as int].1));
                assert(pairs_to_map(s).contains_key(s[j as int].0));
                Some(self.ids[j].1)
            },
            None => None,
        }
    }

    /// The identifiers of the grapheme clusters of `value`, or `None` if one has none.
    pub fn encode(&self, value: &str) -> (r: Option<Vec<u8>>)
        ensures
            match r {
                Some(ids) => (forall|i: int|
                    0 <= i < spec_graphemes(value@).len() ==> self@.contains_key(
                        #[trigger] spec_graphemes(value@)[i],
                    )) && ids@ == spec_graphemes(value@).map_values(|g: Seq<char>| self@[g]),
                None => exists|i: int|
                    0 <= i < spec_graphemes(value@).len() && !self@.contains_key(
                        #[trigger] spec_graphemes(value@)[i],
                    ),
            },
    {
        let gs = graphemes(value);
        let ghost gv = views(gs@);
        let mut out: Vec<u8> = Vec::new();
        let mut i: usize = 0;
        while i < gs.len()
            invariant
                i <= gs@.len(),
                gv == views(gs@),
                gv == spec_graphemes(value@),
                forall|k: int| 0 <= k < i ==> self@.contains_key(#[trigger] gv[k]),
                out@ == gv.take(i as int).map_values(|g: Seq<char>| self@[g]),
            decreases gs@.len() - i,
        {
            assert(gv[i as int] == gs@[i as int]@);
            match self.id(gs[i].as_str()) {
                Some(v) => {
                    out.push(v);
                    assert(gv.take(i + 1).map_values(|g: Seq<char>| self@[g]) == gv.take(
                        i as int,
                    ).map_values(|g: Seq<char>| self@[g]).push(self@[gv[i as int]]));
                },
                None => {
                    return None;
                },
            }
            i = i + 1;
        }
        assert(gv.take(i as int) == gv);
        Some(out)
    }

    /// The number of distinct graphemes.
    pub fn len(&self) -> (n: usize)
        ensures
            n == self@.dom().len(),
    {
        proof {
            use_type_invariant(self);
            lemma_pairs_to_map(ids_view(self.ids@));
        }
        self.ids.len()
    }

    pub fn is_empty(&self) -> (r: bool)
        ensures
            r == (self@.dom().len() == 0),
    {
        proof {
            use_type_invariant(self);
            lemma_pairs_to_map(ids_view(self.ids@));
        }
        self.ids.len() == 0
    }
}


/// Bit `p` of LOUDS data read as little-endian 64-bit words, most significant bit first.
pub open spec fn bit_at(bits: Seq<u8>, p: int) -> u8 {
    (bits[8 * (p / 64) + 7 - (p % 64) / 8] >> ((7 - p % 8) as u8)) & 1u8
}

/// The positions of the zero bits before position `n`, in order.
pub open spec fn zeros_upto(bits: Seq<u8>, n: int) -> Seq<int>
    decreases n,
{
    if n <= 0 {
        Seq::empty()
    } else {
        let z = zeros_upto(bits, n - 1);
        if bit_at(bits, n - 1) == 0 {
            z.push(n - 1)
        } else {
            z
        }
    }
}

/// The child range of `node` from the zero delimiters: the children of `node` are the nodes
/// between its delimiter and the next one.
pub open spec fn node_range(zeros: Seq<int>, n: int, node: int) -> Result<(int, int), LoudsError> {
    let a = zeros[node - 1];
    let b = zeros[node];
    if a < node || a - node + 2 > usize::MAX {
        Err(LoudsError::InvalidTopology { node: node as usize, zero_position: a as usize })
    } else if b < node || b - node + 1 > usize::MAX {
        Err(LoudsError::InvalidTopology { node: node as usize, zero_position: b as usize })
    } else {
        let start = a - node + 2;
        let end = b - node + 1;
        Ok((if start < n { start } else { n }, if end < n { end } else { n }))
    }
}

/// The child ranges of the first `k` nodes, or the first node whose delimiters do not
/// describe a tree.
pub open spec fn ranges_upto(zeros: Seq<int>, n: int, k: int) -> Result<Seq<(int, int)>, LoudsError>
    decreases k,
{
    if k <= 1 {
        Ok(Seq::new(if k < 0 { 0 } else { k as nat }, |i: int| (0int, 0int)))
    } else {
        match ranges_upto(zeros, n, k - 1) {
            Err(e) => Err(e),
            Ok(rs) => match node_range(zeros, n, k - 1) {
                Err(e) => Err(e),
                Ok(r) => Ok(rs.push(r)),
            },
        }
    }
}

/// Parsing LOUDS data for `ids.len()` nodes: the child range of each node.
pub open spec fn parse_spec(bits: Seq<u8>, ids: Seq<u8>) -> Result<Seq<(int, int)>, LoudsError> {
    if bits.len() % 8 != 0 {
        Err(LoudsError::InvalidWordLength(bits.len() as usize))
    } else {
        let zeros = zeros_upto(bits, 8 * bits.len() as int);
        if zeros.len() < ids.len() {
            Err(
                LoudsError::MissingZeroDelimiters {
                    needed: ids.len() as usize,
                    found: zeros.len() as usize,
                },
            )
        } else {
            ranges_upto(zeros, ids.len() as int, ids.len() as int)
        }
    }
}

/// A LOUDS trie: the character identifier of each node and the range of its children.
#[derive(Clone, Debug)]
pub struct Louds {
    node_ids: Vec<u8>,
    child_ranges: Vec<Range<usize>>,
}

pub struct LoudsV {
    pub ids: Seq<u8>,
    pub ranges: Seq<(int, int)>,
}

pub open spec fn ranges_view(rs: Seq<Range<usize>>) -> Seq<(int, int)> {
    rs.map_values(|r: Range<usize>| (r.start as int, r.end as int))
}

impl View for Louds {
    type V = LoudsV;

    closed spec fn view(&self) -> LoudsV {
        LoudsV { ids: self.node_ids@, ranges: ranges_view(self.child_ranges@) }
    }
}

/// The child range of `parent`; nodes out of the table have none.
pub open spec fn child_range_spec(v: LoudsV, parent: int) -> (int, int) {
    if 0 <= parent < v.ranges.len() {
        v.ranges[parent]
    } else {
        (0, 0)
    }
}

/// The first node in `s..e` with identifier `c`.
pub open spec fn first_in(ids: Seq<u8>, c: u8, s: int, e: int) -> Option<int>
    decreases e - s,
{
    if s >= e {
        None
    } else if 0 <= s < ids.len() && ids[s] == c {
        Some(s)
    } else {
        first_in(ids, c, s + 1, e)
    }
}

pub open spec fn search_child_spec(v: LoudsV, parent: int, c: u8) -> Option<int> {
    let r = child_range_spec(v, parent);
    first_in(v.ids, c, r.0, r.1)
}

/// The node reached from `node` by following the identifiers.
pub open spec fn search_from(v: LoudsV, node: int, cids: Seq<u8>) -> Option<int>
    decreases cids.len(),
{
    if cids.len() == 0 {
        Some(node)
    } else {
        match search_child_spec(v, node, cids[0]) {
            Some(n) => search_from(v, n, cids.drop_first()),
            None => None,
        }
    }
}

pub open spec fn range_seq(r: (int, int)) -> Seq<int> {
    if r.0 < r.1 {
        Seq::new((r.1 - r.0) as nat, |i: int| r.0 + i)
    } else {
        Seq::empty()
    }
}

pub open spec fn saturating_sub(a: int, b: int) -> int {
    if a >= b {
        a - b
    } else {
        0
    }
}

/// The descendants of `parent` in breadth of its children first: its children, then for
/// each child (while no more than `max_count` were collected) that child's descendants
/// one level deeper, up to `max_depth`.
pub open spec fn desc_from(v: LoudsV, parent: int, depth: int, max_depth: int, max_count: int) -> Seq<
    int,
>
    decreases max_depth - depth, 1int, 0int,
{
    let direct = range_seq(child_range_spec(v, parent));
    if depth >= max_depth {
        direct
    } else {
        desc_loop(v, direct, 0, direct, depth, max_depth, max_count)
    }
}

pub open spec fn desc_loop(
    v: LoudsV,
    children: Seq<int>,
    i: int,
    output: Seq<int>,
    depth: int,
    max_depth: int,
    max_count: int,
) -> Seq<int>
    decreases max_depth - depth, 0int, children.len() - i,
{
    if i < 0 || i >= children.len() || output.len() > max_count || depth >= max_depth {
        output
    } else {
        desc_loop(
            v,
            children,
            i + 1,
            output + desc_from(
                v,
                children[i],
                depth + 1,
                max_depth,
                saturating_sub(max_count, output.len() as int),
            ),
            depth,
            max_depth,
            max_count,
        )
    }
}

proof fn lemma_byte_index(p: int, len: int)
    requires
        0 <= p < 8 * len,
        len % 8 == 0,
    ensures
        0 <= 8 * (p / 64) + 7 - (p % 64) / 8 < len,
{
    assert(0 <= p % 64 < 64) by (nonlinear_arith);
    assert(0 <= (p % 64) / 8 <= 7) by (nonlinear_arith)
        requires
            0 <= p % 64 < 64,
    ;
    assert(64 * (p / 64) <= p) by (nonlinear_arith)
        requires
            0 <= p,
    ;
    assert(p / 64 < len / 8) by (nonlinear_arith)
        requires
            0 <= p < 8 * len,
            len % 8 == 0,
            64 * (p / 64) <= p,
    ;
    assert(8 * (p / 64) + 8 <= len) by (nonlinear_arith)
        requires
            p / 64 < len / 8,
            len % 8 == 0,
            0 <= len,
    ;
}

proof fn lemma_zeros_prefix(bits: Seq<u8>, a: int, b: int)
    requires
        0 <= a <= b,
    ensures
        zeros_upto(bits, a).len() <= zeros_upto(bits, b).len(),
        forall|i: int|
            0 <= i < zeros_upto(bits, a).len() ==> #[trigger] zeros_upto(bits, a)[i] == zeros_upto(
                bits,
                b,
            )[i],
    decreases b - a,
{
    if a < b {
        lemma_zeros_prefix(bits, a, b - 1);
    }
}

proof fn lemma_ranges_len(zeros: Seq<int>, n: int, k: int)
    ensures
        match ranges_upto(zeros, n, k) {
            Ok(rs) => rs.len() == if k < 0 { 0 } else { k },
            Err(_) => true,
        },
    decreases k,
{
    if k > 1 {
        lemma_ranges_len(zeros, n, k - 1);
    }
}

/// Ranges of nodes `0..k`, computed from the zero positions; stops at the first node that
/// does not describe a tree.
fn child_ranges_from(zeros: &Vec<usize>, n: usize) -> (r: Result<Vec<Range<usize>>, LoudsError>)
    requires
        zeros@.len() >= n,
    ensures
        match r {
            Ok(rs) => ranges_upto(zeros@.map_values(|z: usize| z as int), n as int, n as int) == Ok::<
                Seq<(int, int)>,
                LoudsError,
            >(ranges_view(rs@)),
            Err(e) => ranges_upto(zeros@.map_values(|z: usize| z as int), n as int, n as int)
                == Err::<Seq<(int, int)>, LoudsError>(e),
        },
{
    let ghost zv = zeros@.map_values(|z: usize| z as int);
    let mut ranges: Vec<Range<usize>> = Vec::new();
    if n == 0 {
        assert(ranges_view(ranges@) == Seq::new(0, |i: int| (0int, 0int)));
        return Ok(ranges);
    }
    ranges.push(Range { start: 0, end: 0 });
    assert(ranges_view(ranges@) == Seq::new(1, |i: int| (0int, 0int)));
    let mut node: usize = 1;
    while node < n
        invariant
            1 <= node <= n,
            n <= zeros@.len(),
            zv == zeros@.map_values(|z: usize| z as int),
            ranges_upto(zv, n as int, node as int) == Ok::<Seq<(int, int)>, LoudsError>(
                ranges_view(ranges@),
            ),
        decreases n - node,
    {
        let a = zeros[node - 1];
        let b = zeros[node];
        assert(zv[node - 1] == a && zv[node as int] == b);
        let start = match a.checked_sub(node) {
            Some(x) => x.checked_add(2),
            None => None,
        };
        let start = match start {
            Some(x) => x,
            None => {
                proof {
                    lemma_ranges_err(zv, n as int, node as int + 1, n as int);
                }
                return Err(LoudsError::InvalidTopology { node, zero_position: a });
            },
        };
        let end = match b.checked_sub(node) {
            Some(x) => x.checked_add(1),
            None => None,
        };
        let end = match end {
            Some(x) => x,
            None => {
                proof {
                    lemma_ranges_err(zv, n as int, node as int + 1, n as int);
                }
                return Err(LoudsError::InvalidTopology { node, zero_position: b });
            },
        };
        let s = if start < n {
            start
        } else {
            n
        };
        let e = if end < n {
            end
        } else {
            n
        };
        let ghost before = ranges_view(ranges@);
        ranges.push(Range { start: s, end: e });
        assert(ranges_view(ranges@) == before.push((s as int, e as int)));
        node = node + 1;
    }
    Ok(ranges)
}

impl Louds {
    /// Parses LOUDS bit data for the given node identifiers.
    pub fn parse(bits: &[u8], node_ids: &[u8]) -> (r: Result<Self, LoudsError>)
        requires
            bits@.len() * 8 <= usize::MAX,
        ensures
            match r {
                Ok(l) => parse_spec(bits@, node_ids@) == Ok::<Seq<(int, int)>, LoudsError>(
                    l@.ranges,
                ) && l@.ids == node_ids@,
                Err(e) => parse_spec(bits@, node_ids@) == Err::<Seq<(int, int)>, LoudsError>(e),
            },
    {
        if bits.len() % 8 != 0 {
            return Err(LoudsError::InvalidWordLength(bits.len()));
        }
        let needed = node_ids.len();
        let total = bits.len() * 8;
        let mut zeros: Vec<usize> = Vec::new();
        let mut p: usize = 0;
        let mut enough = false;
        while p < total && !enough
            invariant
                p <= total,
                total == 8 * bits@.len(),
                bits@.len() % 8 == 0,
                zeros@.map_values(|z: usize| z as int) == zeros_upto(bits@, p as int),
                enough ==> zeros@.len() == needed && needed > 0,
            decreases total - p,
        {
            proof {
                lemma_byte_index(p as int, bits@.len() as int);
            }
            let index = 8 * (p / 64) + 7 - (p % 64) / 8;
            let shift = (7 - p % 8) as u8;
            let bit = (bits[index] >> shift) & 1u8;
            let ghost before = zeros@.map_values(|z: usize| z as int);
            if bit == 0 {
                zeros.push(p);
                assert(zeros@.map_values(|z: usize| z as int) == before.push(p as int));
                if zeros.len() == needed {
                    enough = true;
                }
            }
            p = p + 1;
        }
        let ghost all = zeros_upto(bits@, 8 * bits@.len() as int);
        proof {
            lemma_zeros_prefix(bits@, p as int, 8 * bits@.len() as int);
        }
        if zeros.len() < needed {
            return Err(LoudsError::MissingZeroDelimiters { needed, found: zeros.len() });
        }
        let ghost zv = zeros@.map_values(|z: usize| z as int);
        assert(zv.take(needed as int) == all.take(needed as int));
        proof {
            lemma_ranges_prefix(zv, all, needed as int, needed as int);
        }
        let ranges = child_ranges_from(&zeros, needed);
        match ranges {
            Ok(child_ranges) => {
                let mut ids: Vec<u8> = Vec::new();
                let mut i: usize = 0;
                while i < node_ids.len()
                    invariant
                        i <= node_ids@.len(),
                        ids@ == node_ids@.take(i as int),
                    decreases node_ids@.len() - i,
                {
                    ids.push(node_ids[i]);
                    assert(node_ids@.take(i + 1) == node_ids@.take(i as int).push(node_ids@[i as int]));
                    i = i + 1;
                }
                assert(node_ids@.take(i as int) == node_ids@);
                Ok(Louds { node_ids: ids, child_ranges })
            },
            Err(e) => Err(e),
        }
    }

    /// The children of `parent`; a node out of the table has none.
    pub fn child_range(&self, parent: usize) -> (r: Range<usize>)
        ensures
            (r.start as int, r.end as int) == child_range_spec(self@, parent as int),
    {
        if parent < self.child_ranges.len() {
            let r = &self.child_ranges[parent];
            assert(self@.ranges[parent as int] == (r.start as int, r.end as int));
            Range { start: r.start, end: r.end }
        } else {
            Range { start: 0, end: 0 }
        }
    }

    pub fn node_count(&self) -> (n: usize)
        ensures
            n == self@.ids.len(),
    {
        self.node_ids.len()
    }

    /// The first child of `parent` whose identifier is `character_id`.
    pub fn search_child(&self, parent: usize, character_id: u8) -> (r: Option<usize>)
        ensures
            match r {
                Some(i) => search_child_spec(self@, parent as int, character_id) == Some(i as int),
                None => search_child_spec(self@, parent as int, character_id) is None,
            },
    {
        let range = self.child_range(parent);
        let ghost r = child_range_spec(self@, parent as int);
        assert(r.0 == range.start && r.1 == range.end);
        assert(search_child_spec(self@, parent as int, character_id) == first_in(
            self@.ids,
            character_id,
            range.start as int,
            range.end as int,
        ));
        let mut i = range.start;
        while i < range.end
            invariant
                range.start <= i || range.start >= range.end,
                first_in(self@.ids, character_id, i as int, range.end as int) == first_in(
                    self@.ids,
                    character_id,
                    range.start as int,
                    range.end as int,
                ),
                search_child_spec(self@, parent as int, character_id) == first_in(
                    self@.ids,
                    character_id,
                    range.start as int,
                    range.end as int,
                ),
            decreases range.end - i,
        {
            if i < self.node_ids.len() && self.node_ids[i] == character_id {
                assert(first_in(self@.ids, character_id, i as int, range.end as int) == Some(i as int));
                return Some(i);
            }
            i = i + 1;
        }
        None
    }

    /// The node reached from the root by following the identifiers.
    pub fn search(&self, character_ids: &[u8]) -> (r: Option<usize>)
        ensures
            match r {
                Some(n) => search_from(self@, 1, character_ids@) == Some(n as int),
                None => search_from(self@, 1, character_ids@) is None,
            },
    {
        let mut node: usize = 1;
        let mut k: usize = 0;
        assert(character_ids@.skip(0) == character_ids@);
        while k < character_ids.len()
            invariant
                k <= character_ids@.len(),
                search_from(self@, node as int, character_ids@.skip(k as int)) == search_from(
                    self@,
                    1,
                    character_ids@,
                ),
            decreases character_ids@.len() - k,
        {
            let ghost rest = character_ids@.skip(k as int);
            assert(rest[0] == character_ids@[k as int]);
            assert(rest.drop_first() == character_ids@.skip(k + 1));
            match self.search_child(node, character_ids[k]) {
                Some(n) => {
                    node = n;
                },
                None => {
                    return None;
                },
            }
            k = k + 1;
        }
        assert(character_ids@.skip(k as int) == Seq::<u8>::empty());
        Some(node)
    }

    /// The descendants of the node reached by `character_ids`, up to `max_depth` levels
    /// below it, collected while no more than `max_count` were found at each level.
    pub fn descendants(&self, character_ids: &[u8], max_depth: usize, max_count: usize) -> (out: Vec<
        usize,
    >)
        ensures
            match search_from(self@, 1, character_ids@) {
                Some(root) => out@.map_values(|x: usize| x as int) == desc_from(
                    self@,
                    root,
                    0,
                    max_depth as int,
                    max_count as int,
                ),
                None => out@.len() == 0,
            },
    {
        match self.search(character_ids) {
            Some(root) => self.descendants_from(root, 0, max_depth, max_count),
            None => Vec::new(),
        }
    }

    fn descendants_from(&self, parent: usize, depth: usize, max_depth: usize, max_count: usize) -> (out:
        Vec<usize>)
        requires
            depth <= max_depth,
        ensures
            out@.map_values(|x: usize| x as int) == desc_from(
                self@,
                parent as int,
                depth as int,
                max_depth as int,
                max_count as int,
            ),
        decreases max_depth - depth,
    {
        let range = self.child_range(parent);
        let mut direct: Vec<usize> = Vec::new();
        let mut c = range.start;
        while c < range.end
            invariant
                range.start <= c,
                c <= range.end || c == range.start,
                direct@.map_values(|x: usize| x as int) == range_seq(
                    (range.start as int, range.end as int),
                ).take(c - range.start),
            decreases range.end - c,
        {
            direct.push(c);
            let ghost rs = range_seq((range.start as int, range.end as int));
            assert(rs.take(c - range.start + 1) == rs.take(c - range.start).push(c as int));
            c = c + 1;
        }
        let ghost dv = range_seq((range.start as int, range.end as int));
        proof {
            if range.start < range.end {
                assert(dv.take(c - range.start) == dv);
            } else {
                assert(dv == Seq::<int>::empty());
            }
        }
        let mut output: Vec<usize> = Vec::new();
        let mut k: usize = 0;
        while k < direct.len()
            invariant
                k <= direct@.len(),
                output@ == direct@.take(k as int),
            decreases direct@.len() - k,
        {
            output.push(direct[k]);
            assert(direct@.take(k + 1) == direct@.take(k as int).push(direct@[k as int]));
            k = k + 1;
        }
        assert(direct@.take(k as int) == direct@);
        assert(output@.map_values(|x: usize| x as int) == dv);
        if depth == max_depth {
            return output;
        }
        let mut i: usize = 0;
        while i < direct.len()
            invariant
                i <= direct@.len(),
                depth < max_depth,
                dv == direct@.map_values(|x: usize| x as int),
                desc_loop(
                    self@,
                    dv,
                    i as int,
                    output@.map_values(|x: usize| x as int),
                    depth as int,
                    max_depth as int,
                    max_count as int,
                ) == desc_loop(self@, dv, 0, dv, depth as int, max_depth as int, max_count as int),
            ensures
                i >= direct@.len() || output@.len() > max_count,
                desc_loop(
                    self@,
                    dv,
                    i as int,
                    output@.map_values(|x: usize| x as int),
                    depth as int,
                    max_depth as int,
                    max_count as int,
                ) == desc_loop(self@, dv, 0, dv, depth as int, max_depth as int, max_count as int),
            decreases direct@.len() - i,
        {
            if output.len() > max_count {
                break;
            }
            let more = self.descendants_from(
                direct[i],
                depth + 1,
                max_depth,
                max_count.saturating_sub(output.len()),
            );
            let ghost before = output@.map_values(|x: usize| x as int);
            let mut m: usize = 0;
            while m < more.len()
                invariant
                    m <= more@.len(),
                    output@.map_values(|x: usize| x as int) == before + more@.take(m as int).map_values(
                        |x: usize| x as int,
                    ),
                decreases more@.len() - m,
            {
                let ghost prev = output@.map_values(|x: usize| x as int);
                output.push(more[m]);
                assert(output@.map_values(|x: usize| x as int) == prev.push(more@[m as int] as int));
                assert(more@.take(m + 1).map_values(|x: usize| x as int) == more@.take(
                    m as int,
                ).map_values(|x: usize| x as int).push(more@[m as int] as int));
                m = m + 1;
            }
            assert(more@.take(m as int) == more@);
            assert(dv[i as int] == direct@[i as int] as int);
            i = i + 1;
        }
        output
    }
}

proof fn lemma_ranges_err(zeros: Seq<int>, n: int, k: int, m: int)
    requires
        1 <= k <= m,
        ranges_upto(zeros, n, k) is Err,
    ensures
        ranges_upto(zeros, n, m) == ranges_upto(zeros, n, k),
    decreases m - k,
{
    if k < m {
        lemma_ranges_err(zeros, n, k + 1, m);
    }
}

proof fn lemma_ranges_prefix(z1: Seq<int>, z2: Seq<int>, n: int, k: int)
    requires
        0 <= k <= n,
        n <= z1.len(),
        n <= z2.len(),
        z1.take(n) == z2.take(n),
    ensures
        ranges_upto(z1, n, k) == ranges_upto(z2, n, k),
    decreases k,
{
    if k > 1 {
        lemma_ranges_prefix(z1, z2, n, k - 1);
        assert(z1[k - 1] == z1.take(n)[k - 1]);
        assert(z2[k - 1] == z2.take(n)[k - 1]);
        assert(z1[k - 2] == z1.take(n)[k - 2]);
        assert(z2[k - 2] == z2.take(n)[k - 2]);
    }
}


/// The UTF-16 code units of a character.
pub open spec fn utf16_of(c: char) -> Seq<u16> {
    let v = c as u32;
    if v < 0x10000 {
        seq![v as u16]
    } else {
        let w = v - 0x10000;
        seq![(0xD800 + w / 1024) as u16, (0xDC00 + w % 1024) as u16]
    }
}

/// The UTF-16 code units of a text (`str::encode_utf16`).
pub open spec fn utf16_units(s: Seq<char>) -> Seq<u16> {
    s.map_values(|c: char| utf16_of(c)).flatten()
}

pub open spec fn hex_digit(d: int) -> char {
    "0123456789ABCDEF"@[d]
}

/// A code unit as four upper-case hexadecimal digits.
pub open spec fn hex4(u: u16) -> Seq<char> {
    seq![
        hex_digit((u / 4096) as int),
        hex_digit(((u / 256) % 16) as int),
        hex_digit(((u / 16) % 16) as int),
        hex_digit((u % 16) as int),
    ]
}

/// Parts joined with `_` between them.
pub open spec fn join_underscore(parts: Seq<Seq<char>>) -> Seq<char>
    decreases parts.len(),
{
    if parts.len() == 0 {
        Seq::empty()
    } else if parts.len() == 1 {
        parts[0]
    } else {
        join_underscore(parts.drop_last()) + seq!['_'] + parts.last()
    }
}

/// The file-system name of a dictionary: the reserved names stay, others become their
/// UTF-16 code units in hexadecimal, joined by `_` and bracketed.
pub open spec fn escaped_spec(s: Seq<char>) -> Seq<char> {
    if s == "user"@ || s == "memory"@ || s == "user_shortcuts"@ {
        s
    } else {
        seq!['['] + join_underscore(utf16_units(s).map_values(|u: u16| hex4(u))) + seq![']']
    }
}

fn utf16_exec(c: char) -> (units: Vec<u16>)
    ensures
        units@ == utf16_of(c),
{
    let v = c as u32;
    let mut units: Vec<u16> = Vec::new();
    if v < 0x10000 {
        units.push(v as u16);
    } else {
        let w = v - 0x10000;
        assert(w < 0x100000);
        units.push((0xD800 + w / 1024) as u16);
        units.push((0xDC00 + w % 1024) as u16);
    }
    units
}

fn push_hex4(out: &mut String, u: u16, digits: &Vec<char>)
    requires
        digits@ == "0123456789ABCDEF"@,
    ensures
        final(out)@ == old(out)@ + hex4(u),
{
    proof {
        reveal_strlit("0123456789ABCDEF");
    }
    let a = u / 4096;
    let b = (u / 256) % 16;
    let c = (u / 16) % 16;
    let d = u % 16;
    assert(a < 16) by (nonlinear_arith)
        requires
            a == u / 4096,
            u <= 65535,
    ;
    push_char(out, digits[a as usize]);
    push_char(out, digits[b as usize]);
    push_char(out, digits[c as usize]);
    push_char(out, digits[d as usize]);
    assert(final(out)@ =~= old(out)@ + hex4(u)) by {
        reveal_strlit("0123456789ABCDEF");
    }
}

/// The file-system name under which a dictionary is stored.
pub fn escaped_identifier(value: &str) -> (out: String)
    ensures
        out@ == escaped_spec(value@),
{
    let chars = chars_of(value);
    if spells(&chars, "user") || spells(&chars, "memory") || spells(
        &chars,
        "user_shortcuts",
    ) {
        return value.to_owned();
    }
    let mut units: Vec<u16> = Vec::new();
    let ghost parts = value@.map_values(|c: char| utf16_of(c));
    let mut i: usize = 0;
    while i < chars.len()
        invariant
            i <= chars@.len(),
            chars@ == value@,
            parts == value@.map_values(|c: char| utf16_of(c)),
            units@ == parts.take(i as int).flatten(),
        decreases chars@.len() - i,
    {
        let more = utf16_exec(chars[i]);
        let mut k: usize = 0;
        let ghost before = units@;
        while k < more.len()
            invariant
                k <= more@.len(),
                units@ == before + more@.take(k as int),
            decreases more@.len() - k,
        {
            units.push(more[k]);
            assert(more@.take(k + 1) == more@.take(k as int).push(more@[k as int]));
            k = k + 1;
        }
        proof {
            assert(more@.take(k as int) == more@);
            assert(parts.take(i + 1) == parts.take(i as int).push(parts[i as int]));
            parts.take(i as int).lemma_flatten_push(parts[i as int]);
        }
        i = i + 1;
    }
    assert(parts.take(i as int) == parts);
    let digits = chars_of("0123456789ABCDEF");
    let ghost hexes = units@.map_values(|u: u16| hex4(u));
    let mut out = String::new();
    push_char(&mut out, '[');
    let mut j: usize = 0;
    while j < units.len()
        invariant
            j <= units@.len(),
            digits@ == "0123456789ABCDEF"@,
            hexes == units@.map_values(|u: u16| hex4(u)),
            out@ == seq!['['] + join_underscore(hexes.take(j as int)),
        decreases units@.len() - j,
    {
        let ghost prev = out@;
        if j > 0 {
            push_char(&mut out, '_');
        }
        push_hex4(&mut out, units[j], &digits);
        proof {
            let t = hexes.take(j + 1);
            assert(t.drop_last() == hexes.take(j as int));
            assert(t.last() == hex4(units@[j as int]));
            if j == 0 {
                assert(join_underscore(hexes.take(0)) == Seq::<char>::empty());
                assert(out@ =~= seq!['['] + join_underscore(t));
            } else {
                assert(out@ =~= seq!['['] + join_underscore(t));
            }
        }
        j = j + 1;
    }
    push_char(&mut out, ']');
    assert(hexes.take(j as int) == hexes);
    out
}


/// The trie nodes of the prefixes of a reading, one grapheme cluster at a time up to
/// `maximum_length` clusters, with the number of clusters each covers; the walk stops at
/// the first cluster without an identifier or without a node.
pub open spec fn prefix_nodes_upto(
    ids: Map<Seq<char>, u8>,
    trie: LoudsV,
    gs: Seq<Seq<char>>,
    k: int,
) -> (Seq<(int, int)>, Seq<u8>, bool)
    decreases k,
{
    if k <= 0 {
        (Seq::empty(), Seq::empty(), true)
    } else {
        let (found, path, going) = prefix_nodes_upto(ids, trie, gs, k - 1);
        if !going {
            (found, path, false)
        } else if !ids.contains_key(gs[k - 1]) {
            (found, path, false)
        } else {
            let next = path.push(ids[gs[k - 1]]);
            match search_from(trie, 1, next) {
                Some(node) => (found.push((k, node)), next, true),
                None => (found, next, false),
            }
        }
    }
}

/// The nodes found for the prefixes of `ruby`, cut at `maximum_length` grapheme clusters.
pub open spec fn prefix_nodes_spec(
    ids: Map<Seq<char>, u8>,
    trie: LoudsV,
    ruby: Seq<char>,
    maximum_length: int,
) -> Seq<(int, int)> {
    let gs = spec_graphemes(ruby);
    let n = if maximum_length < gs.len() {
        maximum_length
    } else {
        gs.len() as int
    };
    prefix_nodes_upto(ids, trie, gs, n).0
}

/// The trie nodes of the prefixes of a reading that the dictionary can hold entries for,
/// with the number of clusters each covers.
pub fn prefix_nodes(
    character_ids: &CharacterIdMap,
    trie: &Louds,
    ruby: &str,
    maximum_length: usize,
) -> (out: Vec<(usize, usize)>)
    ensures
        out@.map_values(|p: (usize, usize)| (p.0 as int, p.1 as int)) == prefix_nodes_spec(
            character_ids@,
            trie@,
            ruby@,
            maximum_length as int,
        ),
{
    let gs = graphemes(ruby);
    let ghost gv = views(gs@);
    let n = if maximum_length < gs.len() {
        maximum_length
    } else {
        gs.len()
    };
    let mut ids: Vec<u8> = Vec::new();
    let mut out: Vec<(usize, usize)> = Vec::new();
    let mut k: usize = 0;
    assert(out@.map_values(|p: (usize, usize)| (p.0 as int, p.1 as int)) =~= Seq::<(int, int)>::empty());
    while k < n
        invariant
            k <= n <= gs@.len(),
            n == (if maximum_length < gs@.len() {
                maximum_length as int
            } else {
                gs@.len() as int
            }),
            gv == views(gs@),
            gv == spec_graphemes(ruby@),
            prefix_nodes_upto(character_ids@, trie@, gv, k as int) == (
                out@.map_values(|p: (usize, usize)| (p.0 as int, p.1 as int)),
                ids@,
                true,
            ),
        decreases n - k,
    {
        assert(gv[k as int] == gs@[k as int]@);
        let id = match character_ids.id(gs[k].as_str()) {
            None => {
                proof {
                    lemma_prefix_nodes_stopped(character_ids@, trie@, gv, k as int + 1, n as int);
                }
                return out;
            },
            Some(id) => id,
        };
        ids.push(id);
        match trie.search(ids.as_slice()) {
            None => {
                proof {
                    lemma_prefix_nodes_stopped(character_ids@, trie@, gv, k as int + 1, n as int);
                }
                return out;
            },
            Some(node) => {
                let ghost before = out@.map_values(|p: (usize, usize)| (p.0 as int, p.1 as int));
                out.push((k + 1, node));
                assert(out@.map_values(|p: (usize, usize)| (p.0 as int, p.1 as int)) =~= before.push(
                    ((k + 1) as int, node as int),
                ));
            },
        }
        k = k + 1;
    }
    out
}

proof fn lemma_prefix_nodes_stopped(
    ids: Map<Seq<char>, u8>,
    trie: LoudsV,
    gs: Seq<Seq<char>>,
    k: int,
    n: int,
)
    requires
        0 < k <= n,
        !prefix_nodes_upto(ids, trie, gs, k).2,
    ensures
        prefix_nodes_upto(ids, trie, gs, n).0 == prefix_nodes_upto(ids, trie, gs, k).0,
        !prefix_nodes_upto(ids, trie, gs, n).2,
    decreases n - k,
{
    if k < n {
        lemma_prefix_nodes_stopped(ids, trie, gs, k + 1, n);
    }
}

} // verus!
