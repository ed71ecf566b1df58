//! A stable ordering of ranked entries, as a permutation of their positions.
use vstd::prelude::*;
use crate::text::{
    lex_lt, lex_lt_chars, lemma_lex_lt_irreflexive, lemma_lex_lt_asymmetric,
    lemma_lex_lt_transitive, lemma_lex_lt_total,
};

verus! {

/// The sort key of an entry: its score (higher first), the index of the term that
/// matched (lower first) and its lower-cased name (by code point).
pub struct RankKey {
    pub score: i64,
    pub match_idx: usize,
    pub name: Vec<char>,
}

impl View for RankKey {
    type V = (int, int, Seq<char>);

    open spec fn view(&self) -> (int, int, Seq<char>) {
        (self.score as int, self.match_idx as int, self.name@)
    }
}

pub open spec fn key_views(v: Seq<RankKey>) -> Seq<(int, int, Seq<char>)> {
    v.map_values(|x: RankKey| x@)
}

/// Whether entry `i` of `k` comes before entry `j`: higher score, then lower term
/// index, then smaller name, then the earlier position (the order is stable).
pub open spec fn key_before(k: Seq<(int, int, Seq<char>)>, i: int, j: int) -> bool {
    let a = k[i];
    let b = k[j];
    ||| a.0 > b.0
    ||| (a.0 == b.0 && a.1 < b.1)
    ||| (a.0 == b.0 && a.1 == b.1 && lex_lt(a.2, b.2))
    ||| (a.0 == b.0 && a.1 == b.1 && a.2 == b.2 && i < j)
}

/// `p` lists every position of `k` once, in the order `key_before`.
pub open spec fn is_sorted_perm(k: Seq<(int, int, Seq<char>)>, p: Seq<int>) -> bool {
    &&& p.len() == k.len()
    &&& forall|a: int| 0 <= a < p.len() ==> 0 <= #[trigger] p[a] < k.len()
    &&& forall|a: int, b: int| 0 <= a < b < p.len() ==> #[trigger] p[a] != #[trigger] p[b]
    &&& forall|a: int, b: int|
        0 <= a < b < p.len() ==> key_before(k, #[trigger] p[a], #[trigger] p[b])
}

pub proof fn lemma_key_views_push(v: Seq<RankKey>, x: RankKey)
    ensures
        key_views(v.push(x)) == key_views(v).push(x@),
{
    assert(key_views(v.push(x)) =~= key_views(v).push(x@));
}

pub open spec fn usize_seq(p: Seq<usize>) -> Seq<int> {
    p.map_values(|x: usize| x as int)
}

pub proof fn lemma_key_before_asymmetric(k: Seq<(int, int, Seq<char>)>, i: int, j: int)
    requires
        key_before(k, i, j),
    ensures
        !key_before(k, j, i),
{
    if k[i].0 == k[j].0 && k[i].1 == k[j].1 && lex_lt(k[i].2, k[j].2) {
        lemma_lex_lt_asymmetric(k[i].2, k[j].2);
    }
    if k[i].0 == k[j].0 && k[i].1 == k[j].1 && k[i].2 == k[j].2 {
        lemma_lex_lt_irreflexive(k[i].2);
    }
}

pub proof fn lemma_key_before_transitive(k: Seq<(int, int, Seq<char>)>, i: int, j: int, l: int)
    requires
        key_before(k, i, j),
        key_before(k, j, l),
    ensures
        key_before(k, i, l),
{
    let (a, b, c) = (k[i], k[j], k[l]);
    if a.0 == b.0 && b.0 == c.0 && a.1 == b.1 && b.1 == c.1 {
        if lex_lt(a.2, b.2) && lex_lt(b.2, c.2) {
            lemma_lex_lt_transitive(a.2, b.2, c.2);
        }
    }
}

pub proof fn lemma_key_before_total(k: Seq<(int, int, Seq<char>)>, i: int, j: int)
    requires
        i != j,
    ensures
        key_before(k, i, j) || key_before(k, j, i),
{
    if k[i].2 != k[j].2 {
        lemma_lex_lt_total(k[i].2, k[j].2);
    }
}

/// Whether entry `i` comes before entry `j`.
pub fn key_before_exec(keys: &Vec<RankKey>, i: usize, j: usize) -> (r: bool)
    requires
        i < keys.len(),
        j < keys.len(),
    ensures
        r == key_before(key_views(keys@), i as int, j as int),
{
    let a = &keys[i];
    let b = &keys[j];
    if a.score != b.score {
        return a.score > b.score;
    }
    if a.match_idx != b.match_idx {
        return a.match_idx < b.match_idx;
    }
    if lex_lt_chars(&a.name, &b.name) {
        return true;
    }
    if lex_lt_chars(&b.name, &a.name) {
        proof {
            lemma_lex_lt_asymmetric(b.name@, a.name@);
        }
        return false;
    }
    proof {
        if a.name@ != b.name@ {
            lemma_lex_lt_total(a.name@, b.name@);
        }
    }
    i < j
}

/// The positions of `keys` in sorted order (an insertion sort, stable by position).
pub fn sort_indices(keys: &Vec<RankKey>) -> (p: Vec<usize>)
    ensures
        is_sorted_perm(key_views(keys@), usize_seq(p@)),
{
    let ghost k = key_views(keys@);
    let n = keys.len();
    let mut p: Vec<usize> = Vec::new();
    for i in 0..n
        invariant
            n == keys.len(),
            k == key_views(keys@),
            p.len() == i,
            forall|a: int| 0 <= a < p.len() ==> 0 <= #[trigger] p@[a] < i,
            forall|a: int, b: int| 0 <= a < b < p.len() ==> #[trigger] p@[a] != #[trigger] p@[b],
            forall|a: int, b: int|
                0 <= a < b < p.len() ==> key_before(k, #[trigger] p@[a] as int, #[trigger] p@[b] as int),
    {
        let mut j: usize = 0;
        while j < p.len() && !key_before_exec(keys, i, p[j])
            invariant
                n == keys.len(),
                i < n,
                k == key_views(keys@),
                p.len() == i,
                j <= p.len(),
                forall|a: int| 0 <= a < p.len() ==> 0 <= #[trigger] p@[a] < i,
                forall|a: int| 0 <= a < j ==> !key_before(k, i as int, #[trigger] p@[a] as int),
            decreases p.len() - j,
        {
            j += 1;
        }
        let ghost old_p = p@;
        proof {
            assert forall|a: int| 0 <= a < j implies key_before(k, #[trigger] old_p[a] as int, i as int) by {
                lemma_key_before_total(k, old_p[a] as int, i as int);
            }
            assert forall|a: int| j <= a < old_p.len() implies key_before(k, i as int, #[trigger] old_p[a] as int) by {
                if a > j {
                    lemma_key_before_transitive(k, i as int, old_p[j as int] as int, old_p[a] as int);
                }
            }
        }
        p.insert(j, i);
        assert(p@ == old_p.insert(j as int, i));
        assert forall|a: int, b: int| 0 <= a < b < p.len() implies key_before(k, #[trigger] p@[a] as int, #[trigger] p@[b] as int) by {
            if a < j as int && b < j as int {
                assert(p@[a] == old_p[a] && p@[b] == old_p[b]);
            } else if a < j as int && b == j as int {
                assert(p@[a] == old_p[a]);
            } else if a < j as int {
                assert(p@[a] == old_p[a] && p@[b] == old_p[b - 1]);
            } else if a == j as int {
                assert(p@[b] == old_p[b - 1]);
            } else {
                assert(p@[a] == old_p[a - 1] && p@[b] == old_p[b - 1]);
            }
        }
        assert forall|a: int, b: int| 0 <= a < b < p.len() implies #[trigger] p@[a] != #[trigger] p@[b] by {
            if a < j as int && b < j as int {
                assert(p@[a] == old_p[a] && p@[b] == old_p[b]);
            } else if a < j as int && b == j as int {
                assert(p@[a] == old_p[a]);
            } else if a < j as int {
                assert(p@[a] == old_p[a] && p@[b] == old_p[b - 1]);
            } else if a == j as int {
                assert(p@[b] == old_p[b - 1]);
            } else {
                assert(p@[a] == old_p[a - 1] && p@[b] == old_p[b - 1]);
            }
        }
        assert forall|a: int| 0 <= a < p.len() implies 0 <= #[trigger] p@[a] < i + 1 by {
            if a < j as int {
                assert(p@[a] == old_p[a]);
            } else if a > j as int {
                assert(p@[a] == old_p[a - 1]);
            }
        }
    }
    p
}


/// A sorted order lists every position.
pub proof fn lemma_sorted_perm_covers(k: Seq<(int, int, Seq<char>)>, p: Seq<int>, x: int)
    requires
        is_sorted_perm(k, p),
        0 <= x < k.len(),
    ensures
        exists|a: int| 0 <= a < p.len() && #[trigger] p[a] == x,
{
    assert(p.no_duplicates()) by {
        assert forall|i: int, j: int| 0 <= i < p.len() && 0 <= j < p.len() && i != j implies p[i] != p[j] by {
            if i < j {
                assert(p[i] != p[j]);
            } else {
                assert(p[j] != p[i]);
            }
        }
    }
    p.unique_seq_to_set();
    let r = vstd::set_lib::set_int_range(0, k.len() as int);
    vstd::set_lib::lemma_int_range(0, k.len() as int);
    assert(p.to_set().subset_of(r)) by {
        assert forall|y: int| p.to_set().contains(y) implies r.contains(y) by {
            assert(p.contains(y));
            let a = choose|a: int| 0 <= a < p.len() && p[a] == y;
            assert(0 <= p[a] < k.len());
        }
    }
    vstd::set_lib::lemma_subset_equality(p.to_set(), r);
    assert(r.contains(x));
    assert(p.to_set().contains(x));
    assert(p.contains(x));
}

proof fn lemma_sorted_perms_agree_on_prefix(k: Seq<(int, int, Seq<char>)>, p: Seq<int>, q: Seq<int>, m: int)
    requires
        is_sorted_perm(k, p),
        is_sorted_perm(k, q),
        0 <= m <= p.len(),
    ensures
        forall|a: int| 0 <= a < m ==> p[a] == #[trigger] q[a],
    decreases m,
{
    if m > 0 {
        lemma_sorted_perms_agree_on_prefix(k, p, q, m - 1);
        let a = m - 1;
        let x = p[a];
        let y = q[a];
        if x != y {
            lemma_sorted_perm_covers(k, q, x);
            lemma_sorted_perm_covers(k, p, y);
            let b = choose|b: int| 0 <= b < q.len() && #[trigger] q[b] == x;
            let c = choose|c: int| 0 <= c < p.len() && #[trigger] p[c] == y;
            if b < a {
                assert(p[b] == q[b]);
                assert(p[b] != p[a]);
            }
            if c < a {
                assert(p[c] == q[c]);
                assert(q[c] != q[a]);
            }
            assert(b > a && c > a);
            assert(key_before(k, p[a], p[c]));
            assert(key_before(k, q[a], q[b]));
            lemma_key_before_asymmetric(k, x, y);
        }
    }
}

/// The sorted order is unique: two orders that both list every position once in the
/// order `key_before` are the same, so a ranking is determined by its keys.
pub proof fn law_sorted_order_is_unique(k: Seq<(int, int, Seq<char>)>, p: Seq<int>, q: Seq<int>)
    requires
        is_sorted_perm(k, p),
        is_sorted_perm(k, q),
    ensures
        p == q,
{
    lemma_sorted_perms_agree_on_prefix(k, p, q, p.len() as int);
    assert(p =~= q);
}

} // verus!
