//! Character-level string helpers shared by the library.
use vstd::prelude::*;
use unicode_segmentation::UnicodeSegmentation;

verus! {

/// Appends one character to a string (`String::push`).
#[verifier::external_body]
pub(crate) fn push_char(s: &mut String, c: char)
    ensures
        final(s)@ == old(s)@.push(c),
{
    s.push(c);
}

/// Whether a number is a Unicode scalar value.
pub open spec fn is_scalar(v: u32) -> bool {
    v <= 0x10FFFF && !(0xD800 <= v && v <= 0xDFFF)
}

/// The character whose scalar value is `v` (`char::from_u32`).
#[verifier::external_body]
pub(crate) fn scalar_to_char(v: u32) -> (c: char)
    requires
        is_scalar(v),
    ensures
        c as u32 == v,
{
    char::from_u32(v).unwrap()
}

/// Builds a string from characters (`String::from_iter`).
#[verifier::external_body]
pub(crate) fn string_from_chars(chars: &[char]) -> (s: String)
    ensures
        s@ == chars@,
{
    String::from_iter(chars)
}

/// The characters of a string, in order.
pub fn chars_of(s: &str) -> (out: Vec<char>)
    ensures
        out@ == s@,
{
    let mut out: Vec<char> = Vec::new();
    for c in it: s.chars()
        invariant
            out@ == it.history(),
    {
        out.push(c);
    }
    out
}

/// The views of a sequence of strings.
pub open spec fn views(v: Seq<String>) -> Seq<Seq<char>> {
    v.map_values(|s: String| s@)
}

/// The extended grapheme clusters of a character sequence, as computed by
/// `unicode_segmentation` (UAX #29).
pub uninterp spec fn spec_graphemes(s: Seq<char>) -> Seq<Seq<char>>;

/// Splits `s` into its extended grapheme clusters
/// (`UnicodeSegmentation::graphemes(s, true)`).
/// The result is `spec_graphemes(s@)`; the crate's iterator yields consecutive
/// non-empty slices `s[start..next]` from the start of `s` to its end, so the
/// clusters are non-empty and concatenate back to `s`.
#[verifier::external_body]
pub(crate) fn graphemes(s: &str) -> (out: Vec<String>)
    ensures
        views(out@) == spec_graphemes(s@),
        views(out@).flatten() == s@,
        forall|i: int| 0 <= i < out@.len() ==> (#[trigger] out@[i])@.len() > 0,
{
    UnicodeSegmentation::graphemes(s, true).map(|g| g.to_owned()).collect()
}

/// Concatenates strings in order.
pub fn concat_strings(parts: &[String]) -> (out: String)
    ensures
        out@ == views(parts@).flatten(),
{
    let mut out = String::new();
    let mut i: usize = 0;
    while i < parts.len()
        invariant
            i <= parts@.len(),
            out@ == views(parts@.take(i as int)).flatten(),
        decreases parts@.len() - i,
    {
        let ghost before = out@;
        out.append(parts[i].as_str());
        proof {
            assert(views(parts@.take(i + 1)) == views(parts@.take(i as int)).push(parts@[i as int]@));
            views(parts@.take(i as int)).lemma_flatten_push(parts@[i as int]@);
        }
        i = i + 1;
    }
    assert(parts@.take(i as int) == parts@);
    out
}

/// `str::split` on one separator character: the pieces between separators, in order.
pub open spec fn split_spec<A>(s: Seq<A>, sep: A) -> Seq<Seq<A>>
    decreases s.len(),
{
    if s.len() == 0 {
        seq![Seq::empty()]
    } else {
        let rest = split_spec(s.drop_last(), sep);
        if s.last() == sep {
            rest.push(Seq::empty())
        } else {
            rest.update(rest.len() - 1, rest.last().push(s.last()))
        }
    }
}

pub proof fn lemma_split_nonempty<A>(s: Seq<A>, sep: A)
    ensures
        split_spec(s, sep).len() >= 1,
    decreases s.len(),
{
    if s.len() > 0 {
        lemma_split_nonempty(s.drop_last(), sep);
    }
}

/// A line without its trailing carriage return, as `str::lines` yields it.
pub open spec fn strip_cr(line: Seq<char>) -> Seq<char> {
    if line.len() > 0 && line.last() == '\r' {
        line.drop_last()
    } else {
        line
    }
}

/// `str::lines`: the `\n`-separated lines, without a final empty line, each without a
/// trailing `\r`.
pub open spec fn lines_spec(s: Seq<char>) -> Seq<Seq<char>> {
    let parts = split_spec(s, '\n');
    let kept = if parts.last().len() == 0 {
        parts.drop_last()
    } else {
        parts
    };
    kept.map_values(|l: Seq<char>| strip_cr(l))
}

/// Splits a character slice at every `sep`.
pub fn split_chars(s: &[char], sep: char) -> (out: Vec<Vec<char>>)
    ensures
        out@.map_values(|v: Vec<char>| v@) == split_spec(s@, sep),
{
    let mut done: Vec<Vec<char>> = Vec::new();
    let mut current: Vec<char> = Vec::new();
    let mut i: usize = 0;
    while i < s.len()
        invariant
            i <= s@.len(),
            done@.map_values(|v: Vec<char>| v@).push(current@) == split_spec(s@.take(i as int), sep),
        decreases s@.len() - i,
    {
        let ghost prev_done = done@.map_values(|v: Vec<char>| v@);
        let ghost prev_current = current@;
        assert(s@.take(i + 1).drop_last() == s@.take(i as int));
        if s[i] == sep {
            let finished = current;
            done.push(finished);
            current = Vec::new();
            assert(done@.map_values(|v: Vec<char>| v@) == prev_done.push(prev_current));
        } else {
            current.push(s[i]);
            assert(done@.map_values(|v: Vec<char>| v@) == prev_done);
        }
        i = i + 1;
    }
    assert(s@.take(i as int) == s@);
    let ghost prev_done = done@.map_values(|v: Vec<char>| v@);
    done.push(current);
    assert(done@.map_values(|v: Vec<char>| v@) == prev_done.push(current@));
    done
}

/// The lines of a text (`str::lines`).
pub fn lines_of(s: &str) -> (out: Vec<Vec<char>>)
    ensures
        out@.map_values(|v: Vec<char>| v@) == lines_spec(s@),
{
    let chars = chars_of(s);
    let parts = split_chars(&chars, '\n');
    proof {
        lemma_split_nonempty(s@, '\n');
    }
    let ghost pv = parts@.map_values(|v: Vec<char>| v@);
    let keep = if parts[parts.len() - 1].len() == 0 {
        parts.len() - 1
    } else {
        parts.len()
    };
    let ghost kept = if pv.last().len() == 0 { pv.drop_last() } else { pv };
    assert(kept.len() == keep);
    let mut out: Vec<Vec<char>> = Vec::new();
    let mut i: usize = 0;
    while i < keep
        invariant
            i <= keep,
            keep <= parts@.len(),
            kept.len() == keep,
            forall|j: int| 0 <= j < keep ==> #[trigger] kept[j] == parts@[j]@,
            out@.map_values(|v: Vec<char>| v@) == kept.take(i as int).map_values(|l: Seq<char>| strip_cr(l)),
        decreases keep - i,
    {
        let line = &parts[i];
        let mut copy: Vec<char> = Vec::new();
        let n = if line.len() > 0 && line[line.len() - 1] == '\r' {
            line.len() - 1
        } else {
            line.len()
        };
        let mut k: usize = 0;
        while k < n
            invariant
                k <= n,
                n <= line@.len(),
                copy@ == line@.take(k as int),
            decreases n - k,
        {
            copy.push(line[k]);
            assert(line@.take(k + 1) == line@.take(k as int).push(line@[k as int]));
            k = k + 1;
        }
        assert(copy@ == strip_cr(line@));
        let ghost prev = out@.map_values(|v: Vec<char>| v@);
        out.push(copy);
        assert(out@.map_values(|v: Vec<char>| v@) == prev.push(strip_cr(kept[i as int])));
        assert(kept.take(i + 1).map_values(|l: Seq<char>| strip_cr(l)) == kept.take(i as int).map_values(
            |l: Seq<char>| strip_cr(l),
        ).push(strip_cr(kept[i as int])));
        i = i + 1;
    }
    assert(kept.take(i as int) == kept);
    out
}

/// The first position of `c` in `s`, if any.
pub open spec fn find_spec(s: Seq<char>, c: char) -> Option<int>
    decreases s.len(),
{
    if s.len() == 0 {
        None
    } else {
        match find_spec(s.drop_last(), c) {
            Some(i) => Some(i),
            None => if s.last() == c {
                Some(s.len() - 1)
            } else {
                None
            },
        }
    }
}

pub proof fn lemma_find(s: Seq<char>, c: char)
    ensures
        match find_spec(s, c) {
            Some(i) => 0 <= i < s.len() && s[i] == c && forall|j: int| 0 <= j < i ==> s[j] != c,
            None => forall|j: int| 0 <= j < s.len() ==> s[j] != c,
        },
    decreases s.len(),
{
    if s.len() > 0 {
        lemma_find(s.drop_last(), c);
        assert forall|j: int| 0 <= j < s.len() - 1 implies s.drop_last()[j] == s[j] by {}
    }
}

/// `str::split_once` on a character: the text before and after its first occurrence.
pub open spec fn split_once_spec(s: Seq<char>, c: char) -> Option<(Seq<char>, Seq<char>)> {
    match find_spec(s, c) {
        Some(i) => Some((s.take(i), s.skip(i + 1))),
        None => None,
    }
}

/// Finds the first occurrence of `c`.
pub fn find_char(s: &[char], c: char) -> (r: Option<usize>)
    ensures
        match r {
            Some(i) => find_spec(s@, c) == Some(i as int) && i < s@.len(),
            None => find_spec(s@, c) is None,
        },
{
    let mut i: usize = 0;
    while i < s.len()
        invariant
            i <= s@.len(),
            forall|j: int| 0 <= j < i ==> s@[j] != c,
        decreases s@.len() - i,
    {
        if s[i] == c {
            proof {
                lemma_find(s@, c);
                let f = find_spec(s@, c);
                assert(f == Some(i as int));
            }
            return Some(i);
        }
        i = i + 1;
    }
    proof {
        lemma_find(s@, c);
    }
    None
}

/// The characters of `s[from..to]`.
pub fn slice_chars(s: &[char], from: usize, to: usize) -> (out: Vec<char>)
    requires
        from <= to <= s@.len(),
    ensures
        out@ == s@.subrange(from as int, to as int),
{
    let mut out: Vec<char> = Vec::new();
    let mut i: usize = from;
    while i < to
        invariant
            from <= i <= to,
            to <= s@.len(),
            out@ == s@.subrange(from as int, i as int),
        decreases to - i,
    {
        out.push(s[i]);
        assert(s@.subrange(from as int, i + 1) == s@.subrange(from as int, i as int).push(s@[i as int]));
        i = i + 1;
    }
    out
}


/// The map that inserting the pairs in order builds.
pub open spec fn pairs_to_map<V>(s: Seq<(Seq<char>, V)>) -> Map<Seq<char>, V>
    decreases s.len(),
{
    if s.len() == 0 {
        Map::empty()
    } else {
        pairs_to_map(s.drop_last()).insert(s.last().0, s.last().1)
    }
}

/// No key occurs twice.
pub open spec fn distinct_keys<V>(s: Seq<(Seq<char>, V)>) -> bool {
    forall|i: int, j: int| 0 <= i < j < s.len() ==> (#[trigger] s[i]).0 != (#[trigger] s[j]).0
}

pub proof fn lemma_pairs_to_map<V>(s: Seq<(Seq<char>, V)>)
    requires
        distinct_keys(s),
    ensures
        pairs_to_map(s).dom().finite(),
        pairs_to_map(s).dom().len() == s.len(),
        forall|j: int| 0 <= j < s.len() ==> #[trigger] pairs_to_map(s).contains_key(s[j].0)
            && pairs_to_map(s)[s[j].0] == s[j].1,
        forall|k: Seq<char>| #[trigger]
            pairs_to_map(s).contains_key(k) ==> exists|j: int| 0 <= j < s.len() && s[j].0 == k,
    decreases s.len(),
{
    if s.len() > 0 {
        let p = s.drop_last();
        assert forall|i: int, j: int| 0 <= i < j < p.len() implies (#[trigger] p[i]).0 != (
        #[trigger] p[j]).0 by {
            assert(p[i] == s[i] && p[j] == s[j]);
        }
        lemma_pairs_to_map::<V>(p);
        let m = pairs_to_map(p);
        if m.contains_key(s.last().0) {
            let j = choose|j: int| 0 <= j < p.len() && p[j].0 == s.last().0;
            assert(p[j] == s[j]);
            assert(false);
        }
        assert forall|j: int| 0 <= j < s.len() implies #[trigger] pairs_to_map(s).contains_key(
            s[j].0,
        ) && pairs_to_map(s)[s[j].0] == s[j].1 by {
            if j < s.len() - 1 {
                assert(p[j] == s[j]);
            }
        }
        assert forall|k: Seq<char>| #[trigger]
            pairs_to_map(s).contains_key(k) implies exists|j: int| 0 <= j < s.len() && s[j].0 == k by {
            if k != s.last().0 {
                let j = choose|j: int| 0 <= j < p.len() && p[j].0 == k;
                assert(p[j] == s[j]);
            }
        }
    }
}

pub proof fn lemma_pairs_to_map_update<V>(s: Seq<(Seq<char>, V)>, j: int, v: V)
    requires
        distinct_keys(s),
        0 <= j < s.len(),
    ensures
        pairs_to_map(s.update(j, (s[j].0, v))) == pairs_to_map(s).insert(s[j].0, v),
    decreases s.len(),
{
    let u = s.update(j, (s[j].0, v));
    if j == s.len() - 1 {
        assert(u.drop_last() == s.drop_last());
        assert(pairs_to_map(u) =~= pairs_to_map(s).insert(s[j].0, v));
    } else {
        let p = s.drop_last();
        assert forall|a: int, b: int| 0 <= a < b < p.len() implies (#[trigger] p[a]).0 != (
        #[trigger] p[b]).0 by {
            assert(p[a] == s[a] && p[b] == s[b]);
        }
        lemma_pairs_to_map_update::<V>(p, j, v);
        assert(u.drop_last() == p.update(j, (p[j].0, v)));
        assert(s[j].0 != s.last().0);
        assert(pairs_to_map(u) =~= pairs_to_map(s).insert(s[j].0, v));
    }
}

pub proof fn lemma_pairs_to_map_remove<V>(s: Seq<(Seq<char>, V)>, j: int)
    requires
        distinct_keys(s),
        0 <= j < s.len(),
    ensures
        distinct_keys(s.remove(j)),
        pairs_to_map(s.remove(j)) == pairs_to_map(s).remove(s[j].0),
    decreases s.len(),
{
    let r = s.remove(j);
    let p = s.drop_last();
    assert forall|a: int, b: int| 0 <= a < b < r.len() implies (#[trigger] r[a]).0 != (
    #[trigger] r[b]).0 by {
        let sa = if a < j {
            a
        } else {
            a + 1
        };
        let sb = if b < j {
            b
        } else {
            b + 1
        };
        assert(r[a] == s[sa] && r[b] == s[sb]);
    }
    assert forall|a: int, b: int| 0 <= a < b < p.len() implies (#[trigger] p[a]).0 != (
    #[trigger] p[b]).0 by {
        assert(p[a] == s[a] && p[b] == s[b]);
    }
    if j == s.len() - 1 {
        assert(r =~= p);
        lemma_pairs_to_map::<V>(p);
        if pairs_to_map(p).contains_key(s.last().0) {
            let k = choose|k: int| 0 <= k < p.len() && p[k].0 == s.last().0;
            assert(p[k] == s[k]);
            assert(false);
        }
        assert(pairs_to_map(r) =~= pairs_to_map(s).remove(s[j].0));
    } else {
        lemma_pairs_to_map_remove::<V>(p, j);
        assert(r.drop_last() =~= p.remove(j));
        assert(r.last() == s.last());
        assert(p[j] == s[j]);
        assert(s[j].0 != s.last().0);
        assert(pairs_to_map(r) =~= pairs_to_map(s).remove(s[j].0));
    }
}

/// Whether the characters spell `lit`.
pub(crate) fn spells(tok: &[char], lit: &str) -> (r: bool)
    ensures
        r == (tok@ == lit@),
{
    let lc = chars_of(lit);
    if tok.len() != lc.len() {
        return false;
    }
    let mut i: usize = 0;
    while i < tok.len()
        invariant
            i <= tok@.len(),
            tok@.len() == lc@.len(),
            lc@ == lit@,
            forall|j: int| 0 <= j < i ==> tok@[j] == lc@[j],
        decreases tok@.len() - i,
    {
        if tok[i] != lc[i] {
            return false;
        }
        i = i + 1;
    }
    assert(tok@ == lc@);
    true
}

} // verus!
