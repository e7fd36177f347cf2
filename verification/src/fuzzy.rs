//! A small subsequence matcher for ranking rows against a typed filter.
//!
//! The candidate list is "ports open on this machine": tens of items, so a
//! greedy left-to-right scan is all the matching that is needed.

use vstd::prelude::*;

use crate::text::{char_width, chars_of, utf8_width};

verus! {

/// What `char::to_lowercase` yields for `c`: the Unicode lowercase mapping.
pub uninterp spec fn lowercase(c: char) -> Seq<char>;

/// Whether `c` has the Unicode `Alphabetic` or a numeric property
/// (`char::is_alphanumeric`).
pub uninterp spec fn alphanumeric(c: char) -> bool;

/// Whether `c` has the Unicode `Alphabetic` property (`char::is_alphabetic`).
pub uninterp spec fn alphabetic(c: char) -> bool;

/// Calls std's `char::to_lowercase` and collects what it yields; the result
/// is exactly the lowercase mapping named by `lowercase`, and, as std
/// documents (a character without a lowercase mapping yields itself), it holds
/// at least one character.
#[verifier::external_body]
fn to_lowercase(c: char) -> (r: Vec<char>)
    ensures
        r@ == lowercase(c),
        r@.len() >= 1,
{
    c.to_lowercase().collect()
}

/// Calls std's `char::is_alphanumeric`; the result is named by `alphanumeric`.
#[verifier::external_body]
fn is_alphanumeric(c: char) -> (r: bool)
    ensures
        r == alphanumeric(c),
{
    c.is_alphanumeric()
}

/// Calls std's `char::is_alphabetic`; the result is named by `alphabetic`.
#[verifier::external_body]
fn is_alphabetic(c: char) -> (r: bool)
    ensures
        r == alphabetic(c),
{
    c.is_alphabetic()
}

/// One haystack character, with the facts about it that ranking reads.
#[derive(Clone, Copy, Debug)]
pub struct Candidate {
    pub ch: char,
    /// The first character of its lowercase mapping, if it has one.
    pub lower: Option<char>,
    pub alphanumeric: bool,
    pub alphabetic: bool,
}

/// The candidate that the std character classification gives for `c`.
pub open spec fn candidate(c: char) -> Candidate {
    Candidate {
        ch: c,
        lower: if lowercase(c).len() > 0 {
            Some(lowercase(c)[0])
        } else {
            None
        },
        alphanumeric: alphanumeric(c),
        alphabetic: alphabetic(c),
    }
}

/// Every character of a haystack, classified.
pub open spec fn candidates(haystack: Seq<char>) -> Seq<Candidate> {
    haystack.map_values(|c: char| candidate(c))
}

/// The characters a query is matched by: the lowercase mappings of its
/// characters, one after another.
pub open spec fn needles(query: Seq<char>) -> Seq<char>
    decreases query.len(),
{
    if query.len() == 0 {
        seq![]
    } else {
        needles(query.drop_last()) + lowercase(query.last())
    }
}

/// Byte offset at which character `j` of `hay` starts.
pub open spec fn byte_offset(hay: Seq<Candidate>, j: int) -> nat
    decreases j,
{
    if j <= 0 {
        0
    } else {
        byte_offset(hay, j - 1) + utf8_width(hay[j - 1].ch)
    }
}

/// First position at or after `from` whose lowercase is `c`.
pub open spec fn next_match(hay: Seq<Candidate>, c: char, from: int) -> Option<int>
    decreases hay.len() - from,
{
    if from < 0 || from >= hay.len() {
        None
    } else if hay[from].lower == Some(c) {
        Some(from)
    } else {
        next_match(hay, c, from + 1)
    }
}

/// What matching position `j` earns, given the byte offset of the previous
/// match: a run of adjacent characters earns most, then the very start of the
/// haystack, then the start of a word, then a letter/digit boundary.
pub open spec fn bonus(hay: Seq<Candidate>, j: int, last: Option<int>) -> int {
    if last is Some && last->0 + 1 == byte_offset(hay, j) {
        10
    } else if byte_offset(hay, j) == 0 {
        8
    } else if j > 0 && !hay[j - 1].alphanumeric {
        6
    } else if j > 0 && hay[j - 1].alphabetic != hay[j].alphabetic {
        4
    } else {
        1
    }
}

/// Score of matching `needles` greedily from position `from` onward; every
/// skipped character costs one, and the characters left after the last match
/// cost one per eight.
pub open spec fn score_from(hay: Seq<Candidate>, needles: Seq<char>, from: int, last: Option<int>) -> Option<int>
    decreases needles.len(),
{
    if needles.len() == 0 {
        Some(-((hay.len() - from) / 8))
    } else {
        match next_match(hay, needles[0], from) {
            None => None,
            Some(j) => match score_from(hay, needles.drop_first(), j + 1, Some(byte_offset(hay, j) as int)) {
                None => None,
                Some(rest) => Some(rest + bonus(hay, j, last) - (j - from)),
            },
        }
    }
}

/// The score of `haystack` against `query`.
pub open spec fn fuzzy_score(haystack: Seq<char>, query: Seq<char>) -> Option<int> {
    if query.len() == 0 {
        Some(0)
    } else {
        score_from(candidates(haystack), needles(query), 0, None)
    }
}

/// `needles` occur in `hay` in order, at positions at or after `from`,
/// compared by the first character of each haystack character's lowercase.
pub open spec fn occurs_in_order(hay: Seq<Candidate>, needles: Seq<char>, from: int) -> bool {
    exists|idx: Seq<int>|
        #![trigger idx.len()]
        idx.len() == needles.len()
        && (forall|i: int| 0 <= i < idx.len() ==> from <= #[trigger] idx[i] < hay.len())
        && (forall|i: int, k: int| 0 <= i < k < idx.len() ==> idx[i] < idx[k])
        && (forall|i: int| 0 <= i < idx.len() ==> hay[#[trigger] idx[i]].lower == Some(needles[i]))
}

/// The first character of each haystack character's lowercase mapping.
pub open spec fn first_lowers(haystack: Seq<char>) -> Seq<char> {
    haystack.map_values(|c: char| lowercase(c)[0])
}

/// `a` is a (not necessarily contiguous) subsequence of `b`.
pub open spec fn is_subsequence(a: Seq<char>, b: Seq<char>) -> bool {
    exists|idx: Seq<int>|
        #![trigger idx.len()]
        idx.len() == a.len() && (forall|i: int| 0 <= i < idx.len() ==> 0 <= #[trigger] idx[i] < b.len())
            && (forall|i: int, k: int| 0 <= i < k < idx.len() ==> idx[i] < idx[k]) && (forall|i: int|
            0 <= i < idx.len() ==> b[#[trigger] idx[i]] == a[i])
}

/// The query, lowercased, is a subsequence of the haystack, lowercased.
pub open spec fn is_fuzzy_match(haystack: Seq<char>, query: Seq<char>) -> bool {
    occurs_in_order(candidates(haystack), needles(query), 0)
}

proof fn lemma_next_match(hay: Seq<Candidate>, c: char, from: int)
    requires
        0 <= from,
    ensures
        match next_match(hay, c, from) {
            Some(j) => from <= j < hay.len() && hay[j].lower == Some(c) && forall|t: int|
                from <= t < j ==> hay[t].lower != Some(c),
            None => forall|t: int| from <= t < hay.len() ==> hay[t].lower != Some(c),
        },
    decreases hay.len() - from,
{
    if from < hay.len() && hay[from].lower != Some(c) {
        lemma_next_match(hay, c, from + 1);
    }
}

proof fn lemma_score_some_iff_occurs(hay: Seq<Candidate>, needles: Seq<char>, from: int, last: Option<int>)
    requires
        0 <= from <= hay.len(),
    ensures
        score_from(hay, needles, from, last) is Some <==> occurs_in_order(hay, needles, from),
    decreases needles.len(),
{
    if needles.len() == 0 {
        let idx: Seq<int> = seq![];
        assert(idx.len() == needles.len());
    } else {
        lemma_next_match(hay, needles[0], from);
        match next_match(hay, needles[0], from) {
            None => {
                if occurs_in_order(hay, needles, from) {
                    let idx = choose|idx: Seq<int>|
                        #![trigger idx.len()]
                        idx.len() == needles.len()
                        && (forall|i: int| 0 <= i < idx.len() ==> from <= #[trigger] idx[i] < hay.len())
                        && (forall|i: int, k: int| 0 <= i < k < idx.len() ==> idx[i] < idx[k])
                        && (forall|i: int| 0 <= i < idx.len() ==> hay[#[trigger] idx[i]].lower == Some(needles[i]));
                    assert(hay[idx[0]].lower == Some(needles[0]));
                }
            },
            Some(j) => {
                let rest = needles.drop_first();
                let l2 = Some(byte_offset(hay, j) as int);
                lemma_score_some_iff_occurs(hay, rest, j + 1, l2);
                if score_from(hay, rest, j + 1, l2) is Some {
                    let r = choose|idx: Seq<int>|
                        #![trigger idx.len()]
                        idx.len() == rest.len()
                        && (forall|i: int| 0 <= i < idx.len() ==> j + 1 <= #[trigger] idx[i] < hay.len())
                        && (forall|i: int, k: int| 0 <= i < k < idx.len() ==> idx[i] < idx[k])
                        && (forall|i: int| 0 <= i < idx.len() ==> hay[#[trigger] idx[i]].lower == Some(rest[i]));
                    let idx = seq![j] + r;
                    assert(idx.len() == needles.len());
                    assert forall|i: int| 0 <= i < idx.len() implies from <= #[trigger] idx[i] < hay.len() by {
                        if i > 0 {
                            assert(idx[i] == r[i - 1]);
                        }
                    }
                    assert forall|i: int, k: int| 0 <= i < k < idx.len() implies idx[i] < idx[k] by {
                        assert(idx[k] == r[k - 1]);
                        if i > 0 {
                            assert(idx[i] == r[i - 1]);
                        }
                    }
                    assert forall|i: int| 0 <= i < idx.len() implies hay[#[trigger] idx[i]].lower == Some(needles[i]) by {
                        if i > 0 {
                            assert(idx[i] == r[i - 1]);
                            assert(needles[i] == rest[i - 1]);
                        }
                    }
                } else if occurs_in_order(hay, needles, from) {
                    let idx = choose|idx: Seq<int>|
                        #![trigger idx.len()]
                        idx.len() == needles.len()
                        && (forall|i: int| 0 <= i < idx.len() ==> from <= #[trigger] idx[i] < hay.len())
                        && (forall|i: int, k: int| 0 <= i < k < idx.len() ==> idx[i] < idx[k])
                        && (forall|i: int| 0 <= i < idx.len() ==> hay[#[trigger] idx[i]].lower == Some(needles[i]));
                    assert(hay[idx[0]].lower == Some(needles[0]));
                    assert(j <= idx[0]);
                    let r = idx.drop_first();
                    assert(r.len() == rest.len());
                    assert forall|i: int| 0 <= i < r.len() implies j + 1 <= #[trigger] r[i] < hay.len() by {
                        assert(r[i] == idx[i + 1]);
                        assert(idx[0] < idx[i + 1]);
                    }
                    assert forall|i: int, k: int| 0 <= i < k < r.len() implies r[i] < r[k] by {
                        assert(r[i] == idx[i + 1]);
                        assert(r[k] == idx[k + 1]);
                    }
                    assert forall|i: int| 0 <= i < r.len() implies hay[#[trigger] r[i]].lower == Some(rest[i]) by {
                        assert(r[i] == idx[i + 1]);
                    }
                    assert(occurs_in_order(hay, rest, j + 1));
                }
            },
        }
    }
}

/// `r` with `base` added to the score it holds.
pub open spec fn shifted(base: int, r: Option<int>) -> Option<int> {
    match r {
        Some(x) => Some(base + x),
        None => None,
    }
}

/// A machine score read as a mathematical one.
pub open spec fn as_int(r: Option<i32>) -> Option<int> {
    match r {
        Some(x) => Some(x as int),
        None => None,
    }
}

/// A byte offset read as a mathematical one.
pub open spec fn offset_of(l: Option<usize>) -> Option<int> {
    match l {
        Some(x) => Some(x as int),
        None => None,
    }
}

proof fn lemma_byte_offset_bound(hay: Seq<Candidate>, j: int)
    requires
        0 <= j <= hay.len(),
    ensures
        byte_offset(hay, j) <= 4 * j,
    decreases j,
{
    if j > 0 {
        lemma_byte_offset_bound(hay, j - 1);
    }
}

/// Greedy match of `needles` against classified haystack characters,
/// scored by `score_from`.
pub fn score_candidates(hay: &Vec<Candidate>, needles: &Vec<char>) -> (r: Option<i32>)
    requires
        10 * hay@.len() <= i32::MAX,
    ensures
        as_int(r) == score_from(hay@, needles@, 0, None),
{
    let mut score: i32 = 0;
    let mut pos: usize = 0;
    let mut offset: usize = 0;
    let mut last: Option<usize> = None;
    let mut k: usize = 0;
    assert(needles@.skip(0) == needles@);
    while k < needles.len()
        invariant
            10 * hay@.len() <= i32::MAX,
            k <= needles@.len(),
            pos <= hay@.len(),
            offset == byte_offset(hay@, pos as int),
            -(pos as int) <= score <= 10 * pos,
            last matches Some(l) ==> l < offset,
            score_from(hay@, needles@, 0, None) == shifted(
                score as int,
                score_from(hay@, needles@.skip(k as int), pos as int, offset_of(last)),
            ),
        decreases needles@.len() - k,
    {
        let needle = needles[k];
        let ghost start = pos as int;
        let ghost score0 = score as int;
        let ghost last0 = offset_of(last);
        assert(needles@.skip(k as int)[0] == needle);
        assert(needles@.skip(k as int).drop_first() == needles@.skip(k + 1));
        let mut found = false;
        proof {
            lemma_byte_offset_bound(hay@, pos as int);
        }
        while !found
            invariant
                10 * hay@.len() <= i32::MAX,
                k < needles@.len(),
                needles@.skip(k as int).len() > 0,
                needles@.skip(k as int)[0] == needle,
                score_from(hay@, needles@, 0, None) == shifted(
                    score0,
                    score_from(hay@, needles@.skip(k as int), start, last0),
                ),
                start <= pos <= hay@.len(),
                0 <= start,
                offset == byte_offset(hay@, pos as int),
                offset <= 4 * pos,
                -(pos as int) <= score <= 10 * pos,
                last matches Some(l) ==> l < offset,
                !found ==> last0 == offset_of(last),
                !found ==> next_match(hay@, needle, start) == next_match(hay@, needle, pos as int),
                !found ==> score == score0 - (pos - start),
                found ==> pos >= 1 && next_match(hay@, needle, start) == Some(pos - 1),
                found ==> score == score0 - (pos - 1 - start) + bonus(hay@, pos - 1, last0),
                found ==> offset_of(last) == Some(byte_offset(hay@, pos - 1) as int),
            decreases hay@.len() - pos,
        {
            proof {
                lemma_byte_offset_bound(hay@, pos as int);
            }
            if pos >= hay.len() {
                assert(next_match(hay@, needle, pos as int) is None);
                assert(score_from(hay@, needles@.skip(k as int), start, last0) is None);
                return None;
            }
            let cand = hay[pos];
            let here = offset;
            offset = offset + char_width(cand.ch);
            let matched = match cand.lower {
                Some(l) => l == needle,
                None => false,
            };
            if !matched {
                score = score - 1;
                pos = pos + 1;
            } else {
                let b: i32 = if match last {
                    Some(l) => l + 1 == here,
                    None => false,
                } {
                    10
                } else if here == 0 {
                    8
                } else if pos > 0 && !hay[pos - 1].alphanumeric {
                    6
                } else if pos > 0 && hay[pos - 1].alphabetic != cand.alphabetic {
                    4
                } else {
                    1
                };
                assert(b == bonus(hay@, pos as int, last0));
                score = score + b;
                last = Some(here);
                pos = pos + 1;
                found = true;
            }
        }
        k = k + 1;
    }
    assert(needles@.skip(k as int).len() == 0);
    let leftover = (hay.len() - pos) as i32;
    Some(score - leftover / 8)
}

/// Score `haystack` against `query`, or `None` if the query isn't a
/// subsequence of it, ignoring case. Higher is better.
pub fn score(haystack: &str, query: &str) -> (r: Option<i32>)
    requires
        10 * haystack@.len() <= i32::MAX,
    ensures
        as_int(r) == fuzzy_score(haystack@, query@),
        query@.len() == 0 ==> r == Some(0i32),
        r is Some <==> (query@.len() == 0 || is_fuzzy_match(haystack@, query@)),
        r is Some <==> (query@.len() == 0 || is_subsequence(needles(query@), first_lowers(haystack@))),
{
    if query.is_empty() {
        return Some(0);
    }
    let q = chars_of(query);
    let mut wanted: Vec<char> = Vec::new();
    let mut i: usize = 0;
    while i < q.len()
        invariant
            q@ == query@,
            i <= q@.len(),
            wanted@ == needles(q@.take(i as int)),
        decreases q@.len() - i,
    {
        let mut low = to_lowercase(q[i]);
        assert(q@.take(i + 1).drop_last() == q@.take(i as int));
        wanted.append(&mut low);
        i = i + 1;
    }
    assert(q@.take(q@.len() as int) == q@);
    let h = chars_of(haystack);
    let mut hay: Vec<Candidate> = Vec::new();
    let mut j: usize = 0;
    while j < h.len()
        invariant
            h@ == haystack@,
            j <= h@.len(),
            hay@ == candidates(h@.take(j as int)),
            forall|k: int| 0 <= k < j ==> lowercase(#[trigger] h@[k]).len() >= 1,
        decreases h@.len() - j,
    {
        let c = h[j];
        let low = to_lowercase(c);
        let lower = if low.len() > 0 {
            Some(low[0])
        } else {
            None
        };
        hay.push(Candidate {
            ch: c,
            lower,
            alphanumeric: is_alphanumeric(c),
            alphabetic: is_alphabetic(c),
        });
        assert(hay@[j as int] == candidate(c));
        assert(hay@ =~= candidates(h@.take(j + 1)));
        j = j + 1;
    }
    assert(h@.take(h@.len() as int) == h@);
    proof {
        lemma_score_some_iff_occurs(hay@, wanted@, 0, None);
        lemma_occurs_iff_subsequence(h@, wanted@);
    }
    score_candidates(&hay, &wanted)
}

proof fn lemma_occurs_iff_subsequence(h: Seq<char>, n: Seq<char>)
    requires
        forall|k: int| 0 <= k < h.len() ==> lowercase(#[trigger] h[k]).len() >= 1,
    ensures
        occurs_in_order(candidates(h), n, 0) <==> is_subsequence(n, first_lowers(h)),
{
    let hay = candidates(h);
    let f = first_lowers(h);
    assert forall|k: int| 0 <= k < h.len() implies (#[trigger] hay[k]).lower == Some(f[k]) by {
        assert(lowercase(h[k]).len() >= 1);
    }
    if occurs_in_order(hay, n, 0) {
        let idx = choose|idx: Seq<int>|
            #![trigger idx.len()]
            idx.len() == n.len() && (forall|i: int| 0 <= i < idx.len() ==> 0 <= #[trigger] idx[i] < hay.len())
                && (forall|i: int, k: int| 0 <= i < k < idx.len() ==> idx[i] < idx[k]) && (forall|i: int|
                0 <= i < idx.len() ==> hay[#[trigger] idx[i]].lower == Some(n[i]));
        assert forall|i: int| 0 <= i < idx.len() implies f[#[trigger] idx[i]] == n[i] by {
            assert(hay[idx[i]].lower == Some(f[idx[i]]));
        }
        assert(is_subsequence(n, f));
    }
    if is_subsequence(n, f) {
        let idx = choose|idx: Seq<int>|
            #![trigger idx.len()]
            idx.len() == n.len() && (forall|i: int| 0 <= i < idx.len() ==> 0 <= #[trigger] idx[i] < f.len())
                && (forall|i: int, k: int| 0 <= i < k < idx.len() ==> idx[i] < idx[k]) && (forall|i: int|
                0 <= i < idx.len() ==> f[#[trigger] idx[i]] == n[i]);
        assert forall|i: int| 0 <= i < idx.len() implies hay[#[trigger] idx[i]].lower == Some(n[i]) by {
            assert(hay[idx[i]].lower == Some(f[idx[i]]));
        }
        assert(occurs_in_order(hay, n, 0));
    }
}

/// The query counts only through its lowercase mapping: queries that
/// lowercase alike score every haystack alike.
pub proof fn lemma_query_case_is_ignored(haystack: Seq<char>, q1: Seq<char>, q2: Seq<char>)
    requires
        needles(q1) == needles(q2),
        q1.len() == 0 <==> q2.len() == 0,
    ensures
        fuzzy_score(haystack, q1) == fuzzy_score(haystack, q2),
        is_fuzzy_match(haystack, q1) == is_fuzzy_match(haystack, q2),
{
}

proof fn lemma_score_from_bounds(hay: Seq<Candidate>, needles: Seq<char>, from: int, last: Option<int>)
    requires
        0 <= from <= hay.len(),
        score_from(hay, needles, from, last) is Some,
    ensures
        2 * needles.len() - (hay.len() - from) <= score_from(hay, needles, from, last)->0,
        score_from(hay, needles, from, last)->0 <= 10 * needles.len() - (if last is None && needles.len() > 0 {
            2int
        } else {
            0int
        }),
    decreases needles.len(),
{
    if needles.len() > 0 {
        lemma_next_match(hay, needles[0], from);
        let j = next_match(hay, needles[0], from)->0;
        lemma_score_from_bounds(hay, needles.drop_first(), j + 1, Some(byte_offset(hay, j) as int));
    }
}

/// Bounds on a score: each of the `n` characters the query lowercases to
/// earns between 1 and 10 (the first at most 8), and every other haystack
/// character costs at most one.
pub proof fn lemma_score_bounds(haystack: Seq<char>, query: Seq<char>)
    requires
        needles(query).len() > 0,
        fuzzy_score(haystack, query) is Some,
    ensures
        2 * needles(query).len() - haystack.len() <= fuzzy_score(haystack, query)->0,
        fuzzy_score(haystack, query)->0 <= 10 * needles(query).len() - 2,
{
    assert(query.len() > 0);
    lemma_score_from_bounds(candidates(haystack), needles(query), 0, None);
}

proof fn lemma_byte_offset_prefix(hay: Seq<Candidate>, extra: Seq<Candidate>, j: int)
    requires
        0 <= j <= hay.len(),
    ensures
        byte_offset(hay + extra, j) == byte_offset(hay, j),
    decreases j,
{
    if j > 0 {
        lemma_byte_offset_prefix(hay, extra, j - 1);
        assert((hay + extra)[j - 1] == hay[j - 1]);
    }
}

proof fn lemma_next_match_prefix(hay: Seq<Candidate>, extra: Seq<Candidate>, c: char, from: int)
    requires
        0 <= from,
        next_match(hay, c, from) is Some,
    ensures
        next_match(hay + extra, c, from) == next_match(hay, c, from),
    decreases hay.len() - from,
{
    if from < hay.len() {
        assert((hay + extra)[from] == hay[from]);
        if hay[from].lower != Some(c) {
            lemma_next_match_prefix(hay, extra, c, from + 1);
        }
    }
}

proof fn lemma_score_from_extended(hay: Seq<Candidate>, extra: Seq<Candidate>, needles: Seq<char>, from: int, last: Option<int>)
    requires
        0 <= from <= hay.len(),
        score_from(hay, needles, from, last) is Some,
    ensures
        score_from(hay + extra, needles, from, last) is Some,
        score_from(hay + extra, needles, from, last)->0 <= score_from(hay, needles, from, last)->0,
        score_from(hay, needles, from, last)->0 - score_from(hay + extra, needles, from, last)->0 <= extra.len() / 8 + 1,
    decreases needles.len(),
{
    let all = hay + extra;
    if needles.len() == 0 {
        let l = hay.len() - from;
        let t = extra.len() as int;
        assert((l + t) / 8 - l / 8 <= t / 8 + 1) by (nonlinear_arith)
            requires
                l >= 0,
                t >= 0,
        ;
        assert(l / 8 <= (l + t) / 8) by (nonlinear_arith)
            requires
                l >= 0,
                t >= 0,
        ;
    } else {
        lemma_next_match(hay, needles[0], from);
        lemma_next_match_prefix(hay, extra, needles[0], from);
        let j = next_match(hay, needles[0], from)->0;
        lemma_byte_offset_prefix(hay, extra, j);
        if j > 0 {
            assert(all[j - 1] == hay[j - 1]);
        }
        assert(all[j] == hay[j]);
        assert(bonus(all, j, last) == bonus(hay, j, last));
        lemma_score_from_extended(hay, extra, needles.drop_first(), j + 1, Some(byte_offset(hay, j) as int));
    }
}

/// Text after the haystack never raises its score, and lowers it only by
/// the cost of the added characters left over: one per eight, plus one for
/// rounding.
pub proof fn lemma_appended_text(haystack: Seq<char>, tail: Seq<char>, query: Seq<char>)
    requires
        fuzzy_score(haystack, query) is Some,
    ensures
        fuzzy_score(haystack + tail, query) is Some,
        fuzzy_score(haystack + tail, query)->0 <= fuzzy_score(haystack, query)->0,
        fuzzy_score(haystack, query)->0 - fuzzy_score(haystack + tail, query)->0 <= tail.len() / 8 + 1,
{
    if query.len() > 0 {
        assert(candidates(haystack + tail) =~= candidates(haystack) + candidates(tail));
        lemma_score_from_extended(candidates(haystack), candidates(tail), needles(query), 0, None);
    }
}

/// `idx` are the positions a left-to-right match of `needles` lands on: each
/// needle at the first position after the previous match whose lowercase is
/// that needle.
pub open spec fn first_fit_positions(hay: Seq<Candidate>, needles: Seq<char>, idx: Seq<int>) -> bool {
    &&& idx.len() == needles.len()
    &&& forall|k: int| 0 <= k < idx.len() ==> 0 <= #[trigger] idx[k] < hay.len() && hay[idx[k]].lower == Some(needles[k])
    &&& forall|k1: int, k2: int| 0 <= k1 < k2 < idx.len() ==> #[trigger] idx[k1] < #[trigger] idx[k2]
    &&& idx.len() > 0 ==> forall|t: int| 0 <= t < idx[0] ==> (#[trigger] hay[t]).lower != Some(needles[0])
    &&& forall|k1: int, k2: int, t: int|
        #![trigger idx[k1], idx[k2], hay[t]]
        0 <= k1 && k2 == k1 + 1 && k2 < idx.len() && idx[k1] < t < idx[k2] ==> hay[t].lower != Some(needles[k2])
}

/// Byte offset of the match before the `k`-th, if there is one.
pub open spec fn previous_offset(hay: Seq<Candidate>, idx: Seq<int>, k: int) -> Option<int> {
    if k <= 0 {
        None
    } else {
        Some(byte_offset(hay, idx[k - 1]) as int)
    }
}

/// What the matches at `idx`, from the `k`-th on, earn together.
pub open spec fn bonuses(hay: Seq<Candidate>, idx: Seq<int>, k: int) -> int
    decreases idx.len() - k,
{
    if k < 0 || k >= idx.len() {
        0
    } else {
        bonus(hay, idx[k], previous_offset(hay, idx, k)) + bonuses(hay, idx, k + 1)
    }
}

proof fn lemma_score_from_positions(hay: Seq<Candidate>, needles: Seq<char>, idx: Seq<int>, k: int)
    requires
        needles.len() > 0,
        first_fit_positions(hay, needles, idx),
        0 <= k <= needles.len(),
    ensures
        ({
            let n = needles.len() as int;
            let prev = if k == 0 { -1 } else { idx[k - 1] };
            score_from(hay, needles.subrange(k, n), prev + 1, previous_offset(hay, idx, k)) == Some(
                bonuses(hay, idx, k) - (idx[n - 1] - prev - (n - k)) - (hay.len() - idx[n - 1] - 1) / 8,
            )
        }),
    decreases needles.len() - k,
{
    let n = needles.len() as int;
    let prev = if k == 0 { -1 } else { idx[k - 1] };
    let rest = needles.subrange(k, n);
    let last = previous_offset(hay, idx, k);
    let tail = (hay.len() - idx[n - 1] - 1) / 8;
    if k < n {
        let j = idx[k];
        assert(rest[0] == needles[k]);
        assert(rest.drop_first() =~= needles.subrange(k + 1, n));
        assert(next_match(hay, needles[k], prev + 1) == Some(j)) by {
            if k > 0 {
                let _ = idx[k - 1];
            }
            lemma_next_match(hay, needles[k], prev + 1);
            match next_match(hay, needles[k], prev + 1) {
                Some(m) => {
                    if m < j {
                        let _ = hay[m];
                        if k > 0 {
                            let _ = idx[k - 1];
                            assert(hay[m].lower != Some(needles[k]));
                        } else {
                            assert(hay[m].lower != Some(needles[0]));
                        }
                    }
                    if m > j {
                        let _ = hay[j];
                    }
                },
                None => {
                    let _ = hay[j];
                },
            }
        }
        lemma_score_from_positions(hay, needles, idx, k + 1);
        let inner = score_from(hay, needles.subrange(k + 1, n), j + 1, Some(byte_offset(hay, j) as int));
        assert(previous_offset(hay, idx, k + 1) == Some(byte_offset(hay, j) as int));
        assert(inner == Some(bonuses(hay, idx, k + 1) - (idx[n - 1] - j - (n - k - 1)) - tail));
        assert(score_from(hay, rest, prev + 1, last) == Some(inner->0 + bonus(hay, j, last) - (j - (prev + 1))));
        assert(bonuses(hay, idx, k) == bonus(hay, j, last) + bonuses(hay, idx, k + 1));
    } else {
        assert(rest.len() == 0);
        let _ = idx[n - 1];
        assert(score_from(hay, rest, prev + 1, last) == Some(-((hay.len() - (prev + 1)) / 8)));
    }
}

/// How a match is scored: the bonuses the matched positions earn, less one
/// for every haystack character before the last match that is not matched
/// (skipped before the first match or between matches), less one for every
/// eight characters left after the last match.
pub proof fn lemma_score_counts_every_skip(hay: Seq<Candidate>, needles: Seq<char>, idx: Seq<int>)
    requires
        needles.len() > 0,
        first_fit_positions(hay, needles, idx),
    ensures
        score_from(hay, needles, 0, None) == Some(
            bonuses(hay, idx, 0) - (idx.last() + 1 - idx.len()) - (hay.len() - idx.last() - 1) / 8,
        ),
{
    lemma_score_from_positions(hay, needles, idx, 0);
    assert(needles.subrange(0, needles.len() as int) =~= needles);
}

/// The same, for a haystack and query as text: every skipped character of
/// the haystack before the last match costs exactly one.
pub proof fn lemma_text_score_counts_every_skip(haystack: Seq<char>, query: Seq<char>, idx: Seq<int>)
    requires
        query.len() > 0,
        needles(query).len() > 0,
        first_fit_positions(candidates(haystack), needles(query), idx),
    ensures
        fuzzy_score(haystack, query) == Some(
            bonuses(candidates(haystack), idx, 0) - (idx.last() + 1 - idx.len()) - (haystack.len() - idx.last()
                - 1) / 8,
        ),
{
    lemma_score_counts_every_skip(candidates(haystack), needles(query), idx);
}

} // verus!
