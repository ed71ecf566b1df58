//! Fuzzy matching of a query against an application's search terms.
use vstd::prelude::*;
use vstd::utf8::encode_utf8;
use crate::text::{
    chars_of, string_from_chars, to_lowercase, byte_len, byte_offset, trim_str, find_chars,
    lemma_find_found, lemma_skip_drop_first, lowercase, trim, find, is_ascii_alphanumeric,
};

verus! {

/// How well a query matched: the score, and the index of the term that gave it.
#[derive(Clone, Copy, Debug, PartialEq, Eq, Structural)]
pub struct MatchScore {
    pub score: i64,
    pub start_idx: usize,
}

/// The ASCII letters and digits of `s`, in order.
pub open spec fn compact_alnum_spec(s: Seq<char>) -> Seq<char>
    decreases s.len(),
{
    if s.len() == 0 {
        s
    } else if is_ascii_alphanumeric(s.last()) {
        compact_alnum_spec(s.drop_last()).push(s.last())
    } else {
        compact_alnum_spec(s.drop_last())
    }
}

/// Keeps the ASCII letters and digits of `input`.
pub fn compact_alnum(input: &str) -> (r: String)
    ensures
        r@ == compact_alnum_spec(input@),
{
    let v = chars_of(input);
    let mut out: Vec<char> = Vec::new();
    assert(v@.take(0) =~= Seq::<char>::empty());
    for i in 0..v.len()
        invariant
            v@ == input@,
            out@ == compact_alnum_spec(v@.take(i as int)),
    {
        let c = v[i];
        assert(v@.take(i + 1).drop_last() == v@.take(i as int));
        if ('0' <= c && c <= '9') || ('a' <= c && c <= 'z') || ('A' <= c && c <= 'Z') {
            out.push(c);
        }
    }
    assert(v@.take(v.len() as int) == v@);
    string_from_chars(&out)
}

/// Whether `n` can be had from `h` by leaving characters out.
pub open spec fn is_subseq(n: Seq<char>, h: Seq<char>) -> bool
    decreases h.len(),
{
    if n.len() == 0 {
        true
    } else if h.len() == 0 {
        false
    } else if n[0] == h[0] {
        is_subseq(n.drop_first(), h.drop_first())
    } else {
        is_subseq(n, h.drop_first())
    }
}

/// The subsequence test of the matcher: a non-empty needle, no longer in bytes
/// than the haystack, whose characters occur in the haystack in order.
pub open spec fn subsequence_match(needle: Seq<char>, haystack: Seq<char>) -> bool {
    &&& needle.len() > 0
    &&& encode_utf8(needle).len() <= encode_utf8(haystack).len()
    &&& is_subseq(needle, haystack)
}

pub fn is_subsequence(needle: &str, haystack: &str) -> (r: bool)
    ensures
        r == subsequence_match(needle@, haystack@),
{
    let nb = byte_len(needle);
    let hb = byte_len(haystack);
    let n = chars_of(needle);
    if n.len() == 0 || nb > hb {
        return false;
    }
    let h = chars_of(haystack);
    let mut pos: usize = 0;
    assert(n@.skip(0) == n@);
    assert(h@.skip(0) == h@);
    for i in 0..h.len()
        invariant
            n@ == needle@,
            h@ == haystack@,
            0 <= pos < n.len(),
            encode_utf8(needle@).len() <= encode_utf8(haystack@).len(),
            is_subseq(n@, h@) == is_subseq(n@.skip(pos as int), h@.skip(i as int)),
    {
        proof {
            lemma_skip_drop_first(h@, i as int);
            lemma_skip_drop_first(n@, pos as int);
        }
        if h[i] == n[pos] {
            assert(n@.skip(pos as int)[0] == h@.skip(i as int)[0]);
            assert(is_subseq(n@.skip(pos as int), h@.skip(i as int)) == is_subseq(
                n@.skip(pos as int).drop_first(),
                h@.skip(i as int).drop_first(),
            ));
            pos += 1;
            if pos == n.len() {
                assert(n@.skip(pos as int).len() == 0);
                assert(is_subseq(n@.skip(pos as int), h@.skip(i + 1)));
                assert(is_subseq(n@, h@));
                assert(encode_utf8(needle@).len() <= encode_utf8(haystack@).len());
                return true;
            }
        }
    }
    assert(h@.skip(h.len() as int).len() == 0);
    false
}

/// The byte offset of character index `i` of `t`.
pub open spec fn byte_pos(t: Seq<char>, i: nat) -> int {
    encode_utf8(t.take(i as int)).len() as int
}

/// The score that an occurrence of `needle` in term `idx` gives: `first` for the first
/// term and `rest` for the others, less the byte offset of the first occurrence.
pub open spec fn substring_score(t: Seq<char>, needle: Seq<char>, idx: int, first: int, rest: int) -> Option<int> {
    match find(t, needle) {
        Some(i) => Some((if idx == 0 { first } else { rest }) - byte_pos(t, i)),
        None => None,
    }
}

/// Scans the candidate scores left to right, keeping the best so far; a later score
/// replaces it only if strictly greater.
pub open spec fn best_of(scores: Seq<Option<int>>, acc: (int, int)) -> (int, int)
    decreases scores.len(),
{
    if scores.len() == 0 {
        acc
    } else {
        let prev = best_of(scores.drop_last(), acc);
        match scores.last() {
            Some(s) => if s > prev.0 {
                (s, scores.len() - 1)
            } else {
                prev
            },
            None => prev,
        }
    }
}

pub open spec fn views(ts: Seq<String>) -> Seq<Seq<char>> {
    ts.map_values(|t: String| t@)
}

pub open spec fn substring_scores(terms: Seq<Seq<char>>, needle: Seq<char>, first: int, rest: int) -> Seq<Option<int>> {
    Seq::new(terms.len(), |i: int| substring_score(terms[i], needle, i, first, rest))
}

pub open spec fn subsequence_scores(terms: Seq<Seq<char>>, needle: Seq<char>) -> Seq<Option<int>> {
    Seq::new(
        terms.len(),
        |i: int|
            if subsequence_match(needle, terms[i]) {
                Some(if i == 0 { 3600int } else { 1700int })
            } else {
                None
            },
    )
}

/// The score of an already trimmed and lower-cased query `q` against an
/// application's terms: `None` when it does not match. An empty `q` matches
/// everything with score 1; otherwise the best of the substring matches in the search
/// terms (4000/3000 less the byte offset), the substring matches of the alphanumeric
/// query in the normalized terms (2000/1500 less the offset) and its subsequence
/// matches there (3600/1700), earlier wins ties.
pub open spec fn lowered_score(q: Seq<char>, terms: Seq<Seq<char>>, norm: Seq<Seq<char>>) -> Option<(int, int)> {
    if q.len() == 0 {
        Some((1, 0))
    } else {
        let nq = compact_alnum_spec(q);
        let b1 = best_of(substring_scores(terms, q, 4000, 3000), (0, usize::MAX as int));
        let b = if nq.len() > 0 {
            let b2 = best_of(substring_scores(norm, nq, 2000, 1500), b1);
            best_of(subsequence_scores(norm, nq), b2)
        } else {
            b1
        };
        if b.0 > 0 {
            Some((
                b.0,
                if b.1 == usize::MAX as int {
                    0
                } else {
                    b.1
                },
            ))
        } else {
            None
        }
    }
}

/// The score of `query` against an application's terms: that of its trimmed,
/// lower-cased form.
pub open spec fn score_spec(query: Seq<char>, terms: Seq<Seq<char>>, norm: Seq<Seq<char>>) -> Option<(int, int)> {
    lowered_score(lowercase(trim(query)), terms, norm)
}

proof fn lemma_best_of_step(scores: Seq<Option<int>>, acc: (int, int), i: int)
    requires
        0 <= i < scores.len(),
    ensures
        best_of(scores.take(i + 1), acc) == ({
            let prev = best_of(scores.take(i), acc);
            match scores[i] {
                Some(s) => if s > prev.0 {
                    (s, i)
                } else {
                    prev
                },
                None => prev,
            }
        }),
{
    assert(scores.take(i + 1).drop_last() =~= scores.take(i));
}

/// Bounds of the running best: its score only grows, and when it moved its index
/// is that of a scanned candidate.
pub proof fn lemma_best_of_bounds(scores: Seq<Option<int>>, acc: (int, int))
    ensures
        best_of(scores, acc).0 >= acc.0,
        best_of(scores, acc) == acc || (0 <= best_of(scores, acc).1 < scores.len()
            && best_of(scores, acc).0 > acc.0),
    decreases scores.len(),
{
    if scores.len() > 0 {
        lemma_best_of_bounds(scores.drop_last(), acc);
    }
}

/// One pass of the matcher over `terms`: the substring scores, updating `best`.
fn substring_pass(
    terms: &[String],
    needle: &str,
    first: i64,
    rest: i64,
    best: (i64, usize),
) -> (r: (i64, usize))
    requires
        1000 <= rest <= first <= 5000,
    ensures
        r.0 as int == best_of(substring_scores(views(terms@), needle@, first as int, rest as int), (best.0 as int, best.1 as int)).0,
        r.1 as int == best_of(substring_scores(views(terms@), needle@, first as int, rest as int), (best.0 as int, best.1 as int)).1,
{
    let ghost scores = substring_scores(views(terms@), needle@, first as int, rest as int);
    let ghost acc = (best.0 as int, best.1 as int);
    let nv = chars_of(needle);
    let mut best_score = best.0;
    let mut best_idx = best.1;
    assert(scores.take(0) =~= Seq::<Option<int>>::empty());
    for idx in 0..terms.len()
        invariant
            nv@ == needle@,
            1000 <= rest <= first <= 5000,
            scores == substring_scores(views(terms@), needle@, first as int, rest as int),
            acc == (best.0 as int, best.1 as int),
            best_score as int == best_of(scores.take(idx as int), acc).0,
            best_idx as int == best_of(scores.take(idx as int), acc).1,
    {
        proof {
            lemma_best_of_step(scores, acc, idx as int);
        }
        let term = terms[idx].as_str();
        let t = chars_of(term);
        assert(views(terms@)[idx as int] == t@);
        match find_chars(&t, &nv) {
            Some(k) => {
                proof {
                    lemma_find_found(t@, nv@);
                }
                let bound = byte_len(term);
                let pos = byte_offset(&t, k, bound);
                let base = if idx == 0 {
                    first
                } else {
                    rest
                };
                let s = base - pos as i64;
                if s > best_score {
                    best_score = s;
                    best_idx = idx;
                }
            },
            None => {},
        }
    }
    assert(scores.take(terms.len() as int) =~= scores);
    (best_score, best_idx)
}

/// The subsequence pass of the matcher over `terms`, updating `best`.
fn subsequence_pass(terms: &[String], needle: &str, best: (i64, usize)) -> (r: (i64, usize))
    ensures
        r.0 as int == best_of(subsequence_scores(views(terms@), needle@), (best.0 as int, best.1 as int)).0,
        r.1 as int == best_of(subsequence_scores(views(terms@), needle@), (best.0 as int, best.1 as int)).1,
{
    let ghost scores = subsequence_scores(views(terms@), needle@);
    let ghost acc = (best.0 as int, best.1 as int);
    let mut best_score = best.0;
    let mut best_idx = best.1;
    assert(scores.take(0) =~= Seq::<Option<int>>::empty());
    for idx in 0..terms.len()
        invariant
            scores == subsequence_scores(views(terms@), needle@),
            acc == (best.0 as int, best.1 as int),
            best_score as int == best_of(scores.take(idx as int), acc).0,
            best_idx as int == best_of(scores.take(idx as int), acc).1,
    {
        proof {
            lemma_best_of_step(scores, acc, idx as int);
        }
        assert(views(terms@)[idx as int] == terms@[idx as int]@);
        if is_subsequence(needle, terms[idx].as_str()) {
            let s: i64 = if idx == 0 {
                3600
            } else {
                1700
            };
            if s > best_score {
                best_score = s;
                best_idx = idx;
            }
        }
    }
    assert(scores.take(terms.len() as int) =~= scores);
    (best_score, best_idx)
}

/// Scores an already trimmed and lower-cased query against an application's
/// search terms and normalized terms.
pub fn score_lowered(q: &str, search_terms: &[String], normalized_terms: &[String]) -> (r: Option<MatchScore>)
    ensures
        r is Some <==> lowered_score(q@, views(search_terms@), views(normalized_terms@)) is Some,
        r matches Some(m) ==> m.score as int == lowered_score(q@, views(search_terms@), views(normalized_terms@)).unwrap().0
            && m.start_idx as int == lowered_score(q@, views(search_terms@), views(normalized_terms@)).unwrap().1,
{
    let qv = chars_of(q);
    if qv.len() == 0 {
        return Some(MatchScore { score: 1, start_idx: 0 });
    }
    let normalized_query = compact_alnum(q);
    let nqv = chars_of(normalized_query.as_str());
    let b1 = substring_pass(search_terms, q, 4000, 3000, (0, usize::MAX));
    let b = if nqv.len() > 0 {
        let b2 = substring_pass(normalized_terms, normalized_query.as_str(), 2000, 1500, b1);
        subsequence_pass(normalized_terms, normalized_query.as_str(), b2)
    } else {
        b1
    };
    if b.0 > 0 {
        Some(MatchScore { score: b.0, start_idx: if b.1 == usize::MAX { 0 } else { b.1 } })
    } else {
        None
    }
}

/// Scores `query` against an application's search terms and normalized terms: the
/// score of its trimmed, lower-cased form.
pub fn score(query: &str, search_terms: &[String], normalized_terms: &[String]) -> (r: Option<MatchScore>)
    ensures
        r is Some <==> score_spec(query@, views(search_terms@), views(normalized_terms@)) is Some,
        r matches Some(m) ==> m.score as int == score_spec(query@, views(search_terms@), views(normalized_terms@)).unwrap().0
            && m.start_idx as int == score_spec(query@, views(search_terms@), views(normalized_terms@)).unwrap().1,
{
    let t = trim_str(query);
    let q = to_lowercase(t.as_str());
    score_lowered(q.as_str(), search_terms, normalized_terms)
}

/// Whether `query` is taken as a match of every application: it is blank.
pub open spec fn matches_everything(query: Seq<char>) -> bool {
    lowercase(trim(query)).len() == 0
}

/// A blank query matches every application, with score 1 at the first term.
pub proof fn law_blank_query_matches_all(query: Seq<char>, terms: Seq<Seq<char>>, norm: Seq<Seq<char>>)
    requires
        matches_everything(query),
    ensures
        score_spec(query, terms, norm) == Some((1int, 0int)),
{
}

/// Every match has a positive score, and it names one of the application's terms.
pub proof fn law_match_is_positive(query: Seq<char>, terms: Seq<Seq<char>>, norm: Seq<Seq<char>>)
    requires
        score_spec(query, terms, norm) is Some,
    ensures
        score_spec(query, terms, norm).unwrap().0 > 0,
        score_spec(query, terms, norm).unwrap().1 < terms.len() || score_spec(query, terms, norm).unwrap().1 < norm.len()
            || (matches_everything(query) && score_spec(query, terms, norm).unwrap().1 == 0),
{
    let q = lowercase(trim(query));
    if q.len() > 0 {
        let nq = compact_alnum_spec(q);
        let s1 = substring_scores(terms, q, 4000, 3000);
        let init = (0int, usize::MAX as int);
        lemma_best_of_bounds(s1, init);
        let b1 = best_of(s1, init);
        if nq.len() > 0 {
            let s2 = substring_scores(norm, nq, 2000, 1500);
            lemma_best_of_bounds(s2, b1);
            let b2 = best_of(s2, b1);
            lemma_best_of_bounds(subsequence_scores(norm, nq), b2);
        }
    }
}


/// Whitespace around a query never changes its score.
pub proof fn law_score_ignores_surrounding_whitespace(
    pre: Seq<char>,
    query: Seq<char>,
    post: Seq<char>,
    terms: Seq<Seq<char>>,
    norm: Seq<Seq<char>>,
)
    requires
        crate::text::all_whitespace(pre),
        crate::text::all_whitespace(post),
    ensures
        score_spec(pre + query + post, terms, norm) == score_spec(query, terms, norm),
{
    crate::text::lemma_trim_surrounding_whitespace(pre, query, post);
}

/// The ASCII case of an ASCII query never changes its score.
pub proof fn law_score_ignores_ascii_case(query: Seq<char>, terms: Seq<Seq<char>>, norm: Seq<Seq<char>>)
    requires
        crate::text::is_ascii(query),
    ensures
        score_spec(crate::text::ascii_uppercase(query), terms, norm) == score_spec(query, terms, norm),
{
    let t = trim(query);
    crate::text::lemma_trim_ascii_uppercase(query);
    crate::text::lemma_trim_ascii(query);
    crate::text::lemma_ascii_uppercase_lowered(t);
}


/// The running best only grows with a better starting point.
proof fn lemma_best_of_monotone(scores: Seq<Option<int>>, a: (int, int), b: (int, int))
    requires
        a.0 <= b.0,
    ensures
        best_of(scores, a).0 <= best_of(scores, b).0,
    decreases scores.len(),
{
    if scores.len() > 0 {
        lemma_best_of_monotone(scores.drop_last(), a, b);
    }
}

/// Scanning more candidates never lowers the best score.
proof fn lemma_best_of_prefix(scores: Seq<Option<int>>, acc: (int, int), i: int)
    requires
        0 <= i <= scores.len(),
    ensures
        best_of(scores.take(i), acc).0 <= best_of(scores, acc).0,
    decreases scores.len() - i,
{
    if i < scores.len() {
        lemma_best_of_prefix(scores, acc, i + 1);
        lemma_best_of_step(scores, acc, i);
    } else {
        assert(scores.take(i) =~= scores);
    }
}

/// Appending terms after an application's terms keeps every match, and never
/// lowers its score.
pub proof fn law_more_terms_never_lower_the_score(
    query: Seq<char>,
    terms: Seq<Seq<char>>,
    more_terms: Seq<Seq<char>>,
    norm: Seq<Seq<char>>,
    more_norm: Seq<Seq<char>>,
)
    requires
        score_spec(query, terms, norm) is Some,
    ensures
        score_spec(query, terms + more_terms, norm + more_norm) is Some,
        score_spec(query, terms + more_terms, norm + more_norm).unwrap().0 >= score_spec(
            query,
            terms,
            norm,
        ).unwrap().0,
{
    let q = lowercase(trim(query));
    if q.len() > 0 {
        let nq = compact_alnum_spec(q);
        let init = (0int, usize::MAX as int);
        let s1 = substring_scores(terms, q, 4000, 3000);
        let t1 = substring_scores(terms + more_terms, q, 4000, 3000);
        assert(t1.take(terms.len() as int) =~= s1);
        lemma_best_of_prefix(t1, init, terms.len() as int);
        let b1 = best_of(s1, init);
        let c1 = best_of(t1, init);
        if nq.len() > 0 {
            let s2 = substring_scores(norm, nq, 2000, 1500);
            let t2 = substring_scores(norm + more_norm, nq, 2000, 1500);
            assert(t2.take(norm.len() as int) =~= s2);
            lemma_best_of_monotone(s2, b1, c1);
            lemma_best_of_prefix(t2, c1, norm.len() as int);
            let b2 = best_of(s2, b1);
            let c2 = best_of(t2, c1);
            let s3 = subsequence_scores(norm, nq);
            let t3 = subsequence_scores(norm + more_norm, nq);
            assert(t3.take(norm.len() as int) =~= s3);
            lemma_best_of_monotone(s3, b2, c2);
            lemma_best_of_prefix(t3, c2, norm.len() as int);
        }
    }
}

} // verus!
