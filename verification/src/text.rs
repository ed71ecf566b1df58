//! Character-level string functions: a model of each over `Seq<char>`,
//! and an executable version proved against it.
use vstd::prelude::*;
use vstd::utf8::encode_utf8;
use vstd::utf8::encode_scalar;

verus! {

// ---------------------------------------------------------------------------
// Conversions between `str`/`String` and `Vec<char>`
// ---------------------------------------------------------------------------

/// The characters of `s`, in order.
pub fn chars_of(s: &str) -> (v: Vec<char>)
    ensures
        v@ == s@,
{
    let mut v: Vec<char> = Vec::new();
    for c in it: s.chars()
        invariant
            v@ == it.seq().take(it.index()),
            it.seq() == s@,
    {
        v.push(c);
    }
    v
}

/// Collects characters into a `String` (std's `FromIterator<&char> for String`):
/// the string holds exactly the given characters, in order.
#[verifier::external_body]
pub(crate) fn string_from_chars(v: &Vec<char>) -> (s: String)
    ensures
        s@ == v@,
{
    v.iter().collect()
}

/// What std's `str::to_lowercase` gives for a string: its Unicode lower-case
/// mapping, which depends on the string alone.
pub uninterp spec fn unicode_lowercase(s: Seq<char>) -> Seq<char>;

/// Whether every character of `s` is ASCII.
pub open spec fn is_ascii(s: Seq<char>) -> bool {
    forall|i: int| 0 <= i < s.len() ==> (#[trigger] s[i] as u32) < 128
}

/// The lower-cased form of `s`, as std's `str::to_lowercase` gives it: on ASCII
/// text, `A`..=`Z` become `a`..=`z` and all else is kept; otherwise the Unicode
/// lower-case mapping.
pub open spec fn lowercase(s: Seq<char>) -> Seq<char> {
    if is_ascii(s) {
        ascii_lowercase(s)
    } else {
        unicode_lowercase(s)
    }
}

/// std's `str::to_lowercase`: the Unicode lower-case mapping of `s`, which on ASCII
/// text maps `A`..=`Z` to `a`..=`z` and keeps every other character (the Unicode
/// lower-case of an ASCII letter is the ASCII one). Of the mapping of other text
/// nothing is claimed but that it is `unicode_lowercase` of the argument.
#[verifier::external_body]
pub(crate) fn to_lowercase(s: &str) -> (r: String)
    ensures
        r@ == unicode_lowercase(s@),
        is_ascii(s@) ==> r@ == ascii_lowercase(s@),
{
    s.to_lowercase()
}

/// std's `str::len`: the number of bytes of the UTF-8 encoding of `s`, which for
/// any string in memory is at most `isize::MAX` (no Rust allocation is larger).
#[verifier::external_body]
pub(crate) fn byte_len(s: &str) -> (n: usize)
    ensures
        n as int == encode_utf8(s@).len(),
        n <= isize::MAX,
{
    s.len()
}

pub fn copy_chars(v: &Vec<char>) -> (r: Vec<char>)
    ensures
        r@ == v@,
{
    let mut r: Vec<char> = Vec::new();
    for i in 0..v.len()
        invariant
            r@ == v@.take(i as int),
    {
        r.push(v[i]);
        assert(r@ == v@.take(i + 1));
    }
    assert(r@ == v@.take(v.len() as int));
    r
}

/// `v@.subrange(a, b)` as a new vector.
pub fn sub_chars(v: &Vec<char>, a: usize, b: usize) -> (r: Vec<char>)
    requires
        a <= b <= v.len(),
    ensures
        r@ == v@.subrange(a as int, b as int),
{
    let mut r: Vec<char> = Vec::new();
    let mut i = a;
    while i < b
        invariant
            a <= i <= b <= v.len(),
            r@ == v@.subrange(a as int, i as int),
        decreases b - i,
    {
        r.push(v[i]);
        assert(r@ == v@.subrange(a as int, i + 1));
        i += 1;
    }
    r
}

/// Appends the characters of `w` to `v`.
pub fn push_all(v: &mut Vec<char>, w: &Vec<char>)
    ensures
        final(v)@ == old(v)@ + w@,
{
    let ghost start = v@;
    for i in 0..w.len()
        invariant
            v@ == start + w@.take(i as int),
    {
        v.push(w[i]);
        assert(v@ == start + w@.take(i + 1));
    }
    assert(w@.take(w.len() as int) == w@);
}

/// Appends the characters of a string to `v`.
pub fn push_str_chars(v: &mut Vec<char>, s: &str)
    ensures
        final(v)@ == old(v)@ + s@,
{
    let w = chars_of(s);
    push_all(v, &w);
}

// ---------------------------------------------------------------------------
// Whitespace and trimming
// ---------------------------------------------------------------------------

/// The Unicode `White_Space` property, which std's `char::is_whitespace` tests.
pub open spec fn is_whitespace(c: char) -> bool {
    ||| ('\u{9}' <= c && c <= '\u{D}')
    ||| c == ' '
    ||| c == '\u{85}'
    ||| c == '\u{A0}'
    ||| c == '\u{1680}'
    ||| ('\u{2000}' <= c && c <= '\u{200A}')
    ||| c == '\u{2028}'
    ||| c == '\u{2029}'
    ||| c == '\u{202F}'
    ||| c == '\u{205F}'
    ||| c == '\u{3000}'
}

pub fn is_whitespace_char(c: char) -> (r: bool)
    ensures
        r == is_whitespace(c),
{
    ('\u{9}' <= c && c <= '\u{D}') || c == ' ' || c == '\u{85}' || c == '\u{A0}' || c == '\u{1680}'
        || ('\u{2000}' <= c && c <= '\u{200A}') || c == '\u{2028}' || c == '\u{2029}' || c
        == '\u{202F}' || c == '\u{205F}' || c == '\u{3000}'
}

/// `s` without its leading whitespace.
pub open spec fn trim_start(s: Seq<char>) -> Seq<char>
    decreases s.len(),
{
    if s.len() > 0 && is_whitespace(s[0]) {
        trim_start(s.drop_first())
    } else {
        s
    }
}

/// `s` without its trailing whitespace.
pub open spec fn trim_end(s: Seq<char>) -> Seq<char>
    decreases s.len(),
{
    if s.len() > 0 && is_whitespace(s.last()) {
        trim_end(s.drop_last())
    } else {
        s
    }
}

/// `s` without leading and trailing whitespace (std's `str::trim`).
pub open spec fn trim(s: Seq<char>) -> Seq<char> {
    trim_end(trim_start(s))
}

pub proof fn lemma_skip_drop_first<T>(s: Seq<T>, i: int)
    requires
        0 <= i < s.len(),
    ensures
        s.skip(i).drop_first() == s.skip(i + 1),
{
    assert(s.skip(i).drop_first() =~= s.skip(i + 1));
}

/// Bounds `a..b` with `v@.subrange(a, b) == trim(v@)`.
pub fn trim_bounds(v: &Vec<char>) -> (r: (usize, usize))
    ensures
        r.0 <= r.1 <= v.len(),
        v@.subrange(r.0 as int, r.1 as int) == trim(v@),
{
    let n = v.len();
    let mut a: usize = 0;
    assert(v@.skip(0) == v@);
    while a < n && is_whitespace_char(v[a])
        invariant
            a <= n == v.len(),
            trim_start(v@) == trim_start(v@.skip(a as int)),
        decreases n - a,
    {
        proof {
            lemma_skip_drop_first(v@, a as int);
        }
        a += 1;
    }
    let mut b: usize = n;
    assert(v@.skip(a as int) == v@.subrange(a as int, n as int));
    while b > a && is_whitespace_char(v[b - 1])
        invariant
            a <= b <= n == v.len(),
            trim_start(v@) == v@.subrange(a as int, n as int),
            trim(v@) == trim_end(v@.subrange(a as int, b as int)),
        decreases b,
    {
        assert(v@.subrange(a as int, b as int).drop_last() == v@.subrange(a as int, b - 1));
        b -= 1;
    }
    (a, b)
}

/// The characters of `v` without leading and trailing whitespace.
pub fn trim_chars(v: &Vec<char>) -> (r: Vec<char>)
    ensures
        r@ == trim(v@),
{
    let (a, b) = trim_bounds(v);
    sub_chars(v, a, b)
}

/// std's `str::trim`.
pub fn trim_str(s: &str) -> (r: String)
    ensures
        r@ == trim(s@),
{
    let v = chars_of(s);
    let t = trim_chars(&v);
    string_from_chars(&t)
}

/// Whether `s` holds a whitespace character.
pub open spec fn has_whitespace(s: Seq<char>) -> bool {
    exists|i: int| 0 <= i < s.len() && is_whitespace(#[trigger] s[i])
}

pub fn has_whitespace_chars(v: &Vec<char>) -> (r: bool)
    ensures
        r == has_whitespace(v@),
{
    for i in 0..v.len()
        invariant
            forall|j: int| 0 <= j < i ==> !is_whitespace(#[trigger] v@[j]),
    {
        if is_whitespace_char(v[i]) {
            return true;
        }
    }
    false
}

// ---------------------------------------------------------------------------
// ASCII case
// ---------------------------------------------------------------------------

/// ASCII lower-casing of one character: `A`..=`Z` become `a`..=`z`, all else is kept.
pub open spec fn ascii_lower(c: char) -> char {
    if 'A' <= c && c <= 'Z' {
        ((c as u32) + 32) as char
    } else {
        c
    }
}

pub fn ascii_lower_char(c: char) -> (r: char)
    ensures
        r == ascii_lower(c),
{
    if 'A' <= c && c <= 'Z' {
        let b: u8 = c as u8;
        (b + 32) as char
    } else {
        c
    }
}

/// std's `str::to_ascii_lowercase`.
pub open spec fn ascii_lowercase(s: Seq<char>) -> Seq<char> {
    s.map_values(|c: char| ascii_lower(c))
}

pub fn ascii_lowercase_chars(v: &Vec<char>) -> (r: Vec<char>)
    ensures
        r@ == ascii_lowercase(v@),
{
    let mut r: Vec<char> = Vec::new();
    for i in 0..v.len()
        invariant
            r@ == ascii_lowercase(v@.take(i as int)),
    {
        r.push(ascii_lower_char(v[i]));
        assert(ascii_lowercase(v@.take(i + 1)) =~= ascii_lowercase(v@.take(i as int)).push(
            ascii_lower(v@[i as int]),
        ));
    }
    assert(v@.take(v.len() as int) == v@);
    r
}

/// ASCII upper-casing of one character: `a`..=`z` become `A`..=`Z`, all else is kept.
pub open spec fn ascii_upper(c: char) -> char {
    if 'a' <= c && c <= 'z' {
        ((c as u32) - 32) as char
    } else {
        c
    }
}

/// std's `str::to_ascii_uppercase`.
pub open spec fn ascii_uppercase(s: Seq<char>) -> Seq<char> {
    s.map_values(|c: char| ascii_upper(c))
}

/// Whether every character of `s` is whitespace.
pub open spec fn all_whitespace(s: Seq<char>) -> bool {
    forall|i: int| 0 <= i < s.len() ==> is_whitespace(#[trigger] s[i])
}

/// Leading whitespace is trimmed away.
pub proof fn lemma_trim_start_whitespace_prefix(pre: Seq<char>, s: Seq<char>)
    requires
        all_whitespace(pre),
    ensures
        trim_start(pre + s) == trim_start(s),
    decreases pre.len(),
{
    if pre.len() > 0 {
        assert((pre + s)[0] == pre[0]);
        assert((pre + s).drop_first() =~= pre.drop_first() + s);
        assert forall|i: int| 0 <= i < pre.drop_first().len() implies is_whitespace(
            #[trigger] pre.drop_first()[i],
        ) by {
            assert(pre.drop_first()[i] == pre[i + 1]);
        }
        lemma_trim_start_whitespace_prefix(pre.drop_first(), s);
    } else {
        assert(pre + s =~= s);
    }
}

/// Trailing whitespace is trimmed away.
pub proof fn lemma_trim_end_whitespace_suffix(s: Seq<char>, post: Seq<char>)
    requires
        all_whitespace(post),
    ensures
        trim_end(s + post) == trim_end(s),
    decreases post.len(),
{
    if post.len() > 0 {
        assert((s + post).last() == post.last());
        assert((s + post).drop_last() =~= s + post.drop_last());
        assert forall|i: int| 0 <= i < post.drop_last().len() implies is_whitespace(
            #[trigger] post.drop_last()[i],
        ) by {
            assert(post.drop_last()[i] == post[i]);
        }
        lemma_trim_end_whitespace_suffix(s, post.drop_last());
    } else {
        assert(s + post =~= s);
    }
}

/// Trimming the start of `q + t` trims `q`, and goes on into `t` when `q` is blank.
pub proof fn lemma_trim_start_append(q: Seq<char>, t: Seq<char>)
    ensures
        trim_start(q + t) == if trim_start(q).len() > 0 {
            trim_start(q) + t
        } else {
            trim_start(t)
        },
    decreases q.len(),
{
    if q.len() == 0 {
        assert(q + t =~= t);
    } else {
        assert((q + t)[0] == q[0]);
        if is_whitespace(q[0]) {
            assert((q + t).drop_first() =~= q.drop_first() + t);
            lemma_trim_start_append(q.drop_first(), t);
        }
    }
}

/// Whitespace around a text does not change its trimmed form.
pub proof fn lemma_trim_surrounding_whitespace(pre: Seq<char>, q: Seq<char>, post: Seq<char>)
    requires
        all_whitespace(pre),
        all_whitespace(post),
    ensures
        trim(pre + q + post) == trim(q),
{
    assert(pre + q + post =~= pre + (q + post));
    lemma_trim_start_whitespace_prefix(pre, q + post);
    lemma_trim_start_append(q, post);
    if trim_start(q).len() > 0 {
        lemma_trim_end_whitespace_suffix(trim_start(q), post);
    } else {
        lemma_trim_start_whitespace_prefix(post, Seq::empty());
        assert(post + Seq::<char>::empty() =~= post);
    }
}

/// ASCII upper-casing keeps whitespace and non-whitespace apart.
pub proof fn lemma_ascii_upper_whitespace(c: char)
    ensures
        is_whitespace(ascii_upper(c)) == is_whitespace(c),
        (c as u32) < 128 ==> (ascii_upper(c) as u32) < 128,
        ascii_lower(ascii_upper(c)) == ascii_lower(c),
{
}

/// Trimming commutes with ASCII upper-casing.
pub proof fn lemma_trim_ascii_uppercase(s: Seq<char>)
    ensures
        trim(ascii_uppercase(s)) == ascii_uppercase(trim(s)),
{
    lemma_trim_start_ascii_uppercase(s);
    lemma_trim_end_ascii_uppercase(trim_start(s));
}

proof fn lemma_trim_start_ascii_uppercase(s: Seq<char>)
    ensures
        trim_start(ascii_uppercase(s)) == ascii_uppercase(trim_start(s)),
    decreases s.len(),
{
    if s.len() > 0 {
        lemma_ascii_upper_whitespace(s[0]);
        assert(ascii_uppercase(s)[0] == ascii_upper(s[0]));
        if is_whitespace(s[0]) {
            assert(ascii_uppercase(s).drop_first() =~= ascii_uppercase(s.drop_first()));
            lemma_trim_start_ascii_uppercase(s.drop_first());
        }
    }
}

proof fn lemma_trim_end_ascii_uppercase(s: Seq<char>)
    ensures
        trim_end(ascii_uppercase(s)) == ascii_uppercase(trim_end(s)),
    decreases s.len(),
{
    if s.len() > 0 {
        lemma_ascii_upper_whitespace(s.last());
        assert(ascii_uppercase(s).last() == ascii_upper(s.last()));
        if is_whitespace(s.last()) {
            assert(ascii_uppercase(s).drop_last() =~= ascii_uppercase(s.drop_last()));
            lemma_trim_end_ascii_uppercase(s.drop_last());
        }
    }
}

/// ASCII upper-casing keeps text ASCII, and lower-casing undoes it.
pub proof fn lemma_ascii_uppercase_lowered(s: Seq<char>)
    ensures
        is_ascii(s) ==> is_ascii(ascii_uppercase(s)),
        ascii_lowercase(ascii_uppercase(s)) == ascii_lowercase(s),
{
    assert forall|i: int| 0 <= i < s.len() implies ascii_lowercase(ascii_uppercase(s))[i]
        == ascii_lowercase(s)[i] && ((s[i] as u32) < 128 ==> (#[trigger] ascii_uppercase(s)[i] as u32)
        < 128) by {
        lemma_ascii_upper_whitespace(s[i]);
    }
    assert(ascii_lowercase(ascii_uppercase(s)) =~= ascii_lowercase(s));
}

/// Trimming keeps text ASCII.
pub proof fn lemma_trim_ascii(s: Seq<char>)
    requires
        is_ascii(s),
    ensures
        is_ascii(trim(s)),
{
    lemma_trim_start_ascii(s);
    lemma_trim_end_ascii(trim_start(s));
}

proof fn lemma_trim_start_ascii(s: Seq<char>)
    requires
        is_ascii(s),
    ensures
        is_ascii(trim_start(s)),
    decreases s.len(),
{
    if s.len() > 0 && is_whitespace(s[0]) {
        assert forall|i: int| 0 <= i < s.drop_first().len() implies (#[trigger] s.drop_first()[i] as u32)
            < 128 by {
            assert(s.drop_first()[i] == s[i + 1]);
        }
        lemma_trim_start_ascii(s.drop_first());
    }
}

proof fn lemma_trim_end_ascii(s: Seq<char>)
    requires
        is_ascii(s),
    ensures
        is_ascii(trim_end(s)),
    decreases s.len(),
{
    if s.len() > 0 && is_whitespace(s.last()) {
        assert forall|i: int| 0 <= i < s.drop_last().len() implies (#[trigger] s.drop_last()[i] as u32)
            < 128 by {
            assert(s.drop_last()[i] == s[i]);
        }
        lemma_trim_end_ascii(s.drop_last());
    }
}

/// std's `str::eq_ignore_ascii_case`.
pub open spec fn eq_ignore_ascii_case(a: Seq<char>, b: Seq<char>) -> bool {
    ascii_lowercase(a) == ascii_lowercase(b)
}

pub fn eq_ignore_ascii_case_chars(a: &Vec<char>, b: &Vec<char>) -> (r: bool)
    ensures
        r == eq_ignore_ascii_case(a@, b@),
{
    if a.len() != b.len() {
        assert(ascii_lowercase(a@).len() != ascii_lowercase(b@).len());
        return false;
    }
    for i in 0..a.len()
        invariant
            a.len() == b.len(),
            forall|j: int| 0 <= j < i ==> ascii_lower(#[trigger] a@[j]) == ascii_lower(b@[j]),
    {
        if ascii_lower_char(a[i]) != ascii_lower_char(b[i]) {
            assert(ascii_lowercase(a@)[i as int] != ascii_lowercase(b@)[i as int]);
            return false;
        }
    }
    assert(ascii_lowercase(a@) =~= ascii_lowercase(b@));
    true
}

pub open spec fn is_ascii_digit(c: char) -> bool {
    '0' <= c && c <= '9'
}

pub open spec fn is_ascii_alphanumeric(c: char) -> bool {
    ||| is_ascii_digit(c)
    ||| ('a' <= c && c <= 'z')
    ||| ('A' <= c && c <= 'Z')
}

// ---------------------------------------------------------------------------
// Prefixes, suffixes and occurrences
// ---------------------------------------------------------------------------

/// std's `str::starts_with` with a string pattern.
pub open spec fn starts_with(s: Seq<char>, p: Seq<char>) -> bool {
    p.len() <= s.len() && s.take(p.len() as int) == p
}

/// Whether `p` occurs in `v` at position `i`.
pub fn matches_at(v: &Vec<char>, p: &Vec<char>, i: usize) -> (r: bool)
    requires
        i <= v.len(),
    ensures
        r == starts_with(v@.skip(i as int), p@),
{
    if p.len() > v.len() - i {
        return false;
    }
    for j in 0..p.len()
        invariant
            p.len() <= v.len() - i,
            forall|k: int| 0 <= k < j ==> v@[i + k] == #[trigger] p@[k],
    {
        if v[i + j] != p[j] {
            assert(v@.skip(i as int).take(p.len() as int)[j as int] != p@[j as int]);
            return false;
        }
    }
    assert(v@.skip(i as int).take(p.len() as int) =~= p@);
    true
}

pub fn starts_with_chars(v: &Vec<char>, p: &Vec<char>) -> (r: bool)
    ensures
        r == starts_with(v@, p@),
{
    assert(v@.skip(0) == v@);
    matches_at(v, p, 0)
}

/// Shifts a found position by `k`.
pub open spec fn shift(o: Option<nat>, k: nat) -> Option<nat> {
    match o {
        Some(i) => Some(i + k),
        None => None,
    }
}

/// The character index of the first occurrence of `p` in `s` (std's `str::find`,
/// which gives the byte index of the same occurrence).
pub open spec fn find(s: Seq<char>, p: Seq<char>) -> Option<nat>
    decreases s.len(),
{
    if starts_with(s, p) {
        Some(0)
    } else if s.len() == 0 {
        None
    } else {
        shift(find(s.drop_first(), p), 1)
    }
}

/// std's `str::contains` with a string pattern.
pub open spec fn contains(s: Seq<char>, p: Seq<char>) -> bool {
    find(s, p) is Some
}

pub proof fn lemma_find_found(s: Seq<char>, p: Seq<char>)
    requires
        find(s, p) is Some,
    ensures
        find(s, p).unwrap() + p.len() <= s.len(),
        starts_with(s.skip(find(s, p).unwrap() as int), p),
    decreases s.len(),
{
    if starts_with(s, p) {
        assert(s.skip(0) == s);
    } else {
        lemma_find_found(s.drop_first(), p);
        let k = find(s.drop_first(), p).unwrap();
        assert(s.drop_first().skip(k as int) =~= s.skip(k + 1 as int));
    }
}

/// The first occurrence of `p` in `v`, as a character index.
pub fn find_chars(v: &Vec<char>, p: &Vec<char>) -> (r: Option<usize>)
    ensures
        r matches Some(i) ==> find(v@, p@) == Some(i as nat),
        r is None ==> find(v@, p@) is None,
{
    let n = v.len();
    assert(v@.skip(0) == v@);
    if p.len() == 0 {
        assert(v@.take(0) =~= p@);
        return Some(0);
    }
    let mut i: usize = 0;
    while i < n
        invariant
            i <= n == v.len(),
            p.len() > 0,
            find(v@, p@) == shift(find(v@.skip(i as int), p@), i as nat),
        decreases n - i,
    {
        if matches_at(v, p, i) {
            return Some(i);
        }
        proof {
            lemma_skip_drop_first(v@, i as int);
        }
        i += 1;
    }
    assert(!starts_with(v@.skip(n as int), p@));
    None
}

/// Whether `p` occurs in `v`.
pub fn contains_chars(v: &Vec<char>, p: &Vec<char>) -> (r: bool)
    ensures
        r == contains(v@, p@),
{
    find_chars(v, p).is_some()
}

/// Whether the character `c` occurs in `s`.
pub open spec fn has_char(s: Seq<char>, c: char) -> bool {
    exists|i: int| 0 <= i < s.len() && s[i] == c
}

pub fn has_char_chars(v: &Vec<char>, c: char) -> (r: bool)
    ensures
        r == has_char(v@, c),
{
    for i in 0..v.len()
        invariant
            forall|j: int| 0 <= j < i ==> v@[j] != c,
    {
        if v[i] == c {
            return true;
        }
    }
    false
}

// ---------------------------------------------------------------------------
// Trimming a repeated prefix; replacing occurrences
// ---------------------------------------------------------------------------

/// std's `str::trim_start_matches` with a string pattern: removes `p` from the front
/// as long as `s` starts with it.
pub open spec fn trim_start_matches(s: Seq<char>, p: Seq<char>) -> Seq<char>
    decreases s.len(),
{
    if p.len() > 0 && starts_with(s, p) {
        trim_start_matches(s.skip(p.len() as int), p)
    } else {
        s
    }
}

pub fn trim_start_matches_chars(v: &Vec<char>, p: &Vec<char>) -> (r: Vec<char>)
    ensures
        r@ == trim_start_matches(v@, p@),
{
    let n = v.len();
    let mut i: usize = 0;
    assert(v@.skip(0) == v@);
    while p.len() > 0 && matches_at(v, p, i)
        invariant
            i <= n == v.len(),
            trim_start_matches(v@, p@) == trim_start_matches(v@.skip(i as int), p@),
        decreases n - i,
    {
        assert(v@.skip(i as int).skip(p.len() as int) == v@.skip(i + p.len()));
        i += p.len();
    }
    assert(v@.skip(i as int) == v@.subrange(i as int, n as int));
    sub_chars(v, i, n)
}

/// std's `str::replace` with a non-empty pattern: every occurrence of `p`, taken
/// from left to right without overlap, is replaced by `r`.
pub open spec fn replace_all(s: Seq<char>, p: Seq<char>, r: Seq<char>) -> Seq<char>
    decreases s.len(),
{
    if s.len() == 0 {
        s
    } else if p.len() > 0 && starts_with(s, p) {
        r + replace_all(s.skip(p.len() as int), p, r)
    } else {
        seq![s[0]] + replace_all(s.drop_first(), p, r)
    }
}

pub fn replace_all_chars(v: &Vec<char>, p: &Vec<char>, r: &Vec<char>) -> (out: Vec<char>)
    requires
        p.len() > 0,
    ensures
        out@ == replace_all(v@, p@, r@),
{
    let n = v.len();
    let mut out: Vec<char> = Vec::new();
    let mut i: usize = 0;
    assert(v@.skip(0) == v@);
    while i < n
        invariant
            i <= n == v.len(),
            p.len() > 0,
            replace_all(v@, p@, r@) == out@ + replace_all(v@.skip(i as int), p@, r@),
        decreases n - i,
    {
        if matches_at(v, p, i) {
            assert(v@.skip(i as int).skip(p.len() as int) == v@.skip(i + p.len()));
            push_all(&mut out, r);
            i += p.len();
        } else {
            proof {
                lemma_skip_drop_first(v@, i as int);
            }
            out.push(v[i]);
            i += 1;
        }
    }
    assert(v@.skip(n as int).len() == 0);
    assert(out@ + replace_all(v@.skip(n as int), p@, r@) == out@);
    out
}

// ---------------------------------------------------------------------------
// Lines
// ---------------------------------------------------------------------------

/// The contents of a sequence of character vectors.
pub open spec fn char_seqs(v: Seq<Vec<char>>) -> Seq<Seq<char>> {
    v.map_values(|x: Vec<char>| x@)
}

/// The pieces of `s` between occurrences of `sep` (std's `str::split` with a `char`):
/// always at least one piece.
pub open spec fn split_char(s: Seq<char>, sep: char) -> Seq<Seq<char>>
    decreases s.len(),
{
    if s.len() == 0 {
        seq![Seq::<char>::empty()]
    } else {
        let prev = split_char(s.drop_last(), sep);
        if s.last() == sep {
            prev.push(Seq::<char>::empty())
        } else {
            prev.update(prev.len() - 1, prev.last().push(s.last()))
        }
    }
}

pub proof fn lemma_split_char_nonempty(s: Seq<char>, sep: char)
    ensures
        split_char(s, sep).len() >= 1,
    decreases s.len(),
{
    if s.len() > 0 {
        lemma_split_char_nonempty(s.drop_last(), sep);
    }
}

/// A line without the `'\r'` of a `"\r\n"` ending.
pub open spec fn strip_cr(l: Seq<char>) -> Seq<char> {
    if l.len() > 0 && l.last() == '\r' {
        l.drop_last()
    } else {
        l
    }
}

/// std's `str::lines`: the pieces between `'\n'`s, each that ended in `"\r\n"` without
/// its `'\r'`, and no empty last piece.
pub open spec fn lines(s: Seq<char>) -> Seq<Seq<char>> {
    let pieces = split_char(s, '\n');
    let n = if pieces.last().len() == 0 {
        pieces.len() - 1
    } else {
        pieces.len() as int
    };
    Seq::new(
        n as nat,
        |i: int|
            if i < pieces.len() - 1 {
                strip_cr(pieces[i])
            } else {
                pieces[i]
            },
    )
}

pub fn split_char_chars(v: &Vec<char>, sep: char) -> (r: Vec<Vec<char>>)
    ensures
        char_seqs(r@) == split_char(v@, sep),
{
    let mut out: Vec<Vec<char>> = Vec::new();
    let mut cur: Vec<char> = Vec::new();
    assert(v@.take(0) =~= Seq::<char>::empty());
    assert(char_seqs(out@).push(cur@) =~= seq![Seq::<char>::empty()]);
    for i in 0..v.len()
        invariant
            char_seqs(out@).push(cur@) == split_char(v@.take(i as int), sep),
    {
        let c = v[i];
        let ghost old_out = char_seqs(out@);
        let ghost old_cur = cur@;
        let ghost prev = old_out.push(old_cur);
        assert(v@.take(i + 1).drop_last() == v@.take(i as int));
        assert(v@.take(i + 1).last() == c);
        if c == sep {
            out.push(cur);
            cur = Vec::new();
            assert(char_seqs(out@) =~= old_out.push(old_cur));
            assert(char_seqs(out@).push(cur@) =~= prev.push(Seq::<char>::empty()));
        } else {
            cur.push(c);
            assert(char_seqs(out@).push(cur@) =~= prev.update(prev.len() - 1, prev.last().push(c)));
        }
    }
    assert(v@.take(v.len() as int) == v@);
    let ghost old_out = char_seqs(out@);
    let ghost old_cur = cur@;
    out.push(cur);
    assert(char_seqs(out@) =~= old_out.push(old_cur));
    out
}

/// std's `str::lines`, on characters.
pub fn lines_chars(v: &Vec<char>) -> (r: Vec<Vec<char>>)
    ensures
        char_seqs(r@) == lines(v@),
{
    let pieces = split_char_chars(v, '\n');
    proof {
        lemma_split_char_nonempty(v@, '\n');
    }
    let np = pieces.len();
    let n = if pieces[np - 1].len() == 0 {
        np - 1
    } else {
        np
    };
    let ghost ps = char_seqs(pieces@);
    let mut out: Vec<Vec<char>> = Vec::new();
    for i in 0..n
        invariant
            n <= np == pieces.len(),
            np >= 1,
            ps == char_seqs(pieces@),
            ps == split_char(v@, '\n'),
            out.len() == i,
            forall|j: int|
                0 <= j < i ==> #[trigger] char_seqs(out@)[j] == (if j < np - 1 {
                    strip_cr(ps[j])
                } else {
                    ps[j]
                }),
    {
        let p = &pieces[i];
        assert(ps[i as int] == p@);
        let l = if i < np - 1 && p.len() > 0 && p[p.len() - 1] == '\r' {
            sub_chars(p, 0, p.len() - 1)
        } else {
            copy_chars(p)
        };
        proof {
            if p@.len() > 0 {
                assert(p@.drop_last() =~= p@.subrange(0, p.len() - 1));
            }
            assert(l@ == (if i < np - 1 {
                strip_cr(ps[i as int])
            } else {
                ps[i as int]
            }));
        }
        let ghost old_out = out@;
        out.push(l);
        assert forall|j: int| 0 <= j < i implies #[trigger] char_seqs(out@)[j] == char_seqs(
            old_out,
        )[j] by {
            assert(out@[j] == old_out[j]);
        }
        assert(char_seqs(out@)[i as int] == l@);
    }
    assert(char_seqs(out@) =~= lines(v@));
    out
}

// ---------------------------------------------------------------------------
// UTF-8 lengths and ordering
// ---------------------------------------------------------------------------

/// The number of bytes of the UTF-8 encoding of `c` (std's `char::len_utf8`).
pub fn utf8_width(c: char) -> (w: usize)
    ensures
        w as int == encode_scalar(c as u32).len(),
{
    proof {
        vstd::utf8::char_is_scalar(c);
    }
    let u = c as u32;
    if u < 0x80 {
        1
    } else if u < 0x800 {
        2
    } else if u < 0x10000 {
        3
    } else {
        4
    }
}

pub proof fn lemma_encode_utf8_concat(a: Seq<char>, b: Seq<char>)
    ensures
        encode_utf8(a + b) == encode_utf8(a) + encode_utf8(b),
    decreases a.len(),
{
    if a.len() == 0 {
        assert(a + b =~= b);
        assert(encode_utf8(a) =~= Seq::<u8>::empty());
        assert(encode_utf8(a) + encode_utf8(b) =~= encode_utf8(b));
    } else {
        assert((a + b).drop_first() =~= a.drop_first() + b);
        lemma_encode_utf8_concat(a.drop_first(), b);
        assert(encode_utf8(a + b) =~= encode_scalar(a[0] as u32) + encode_utf8(a.drop_first() + b));
    }
}

/// The UTF-8 length of a prefix grows by the width of the next character.
pub proof fn lemma_encode_utf8_take(s: Seq<char>, i: int)
    requires
        0 <= i < s.len(),
    ensures
        encode_utf8(s.take(i + 1)).len() == encode_utf8(s.take(i)).len() + encode_scalar(
            s[i] as u32,
        ).len(),
        encode_utf8(s.take(i + 1)).len() <= encode_utf8(s).len(),
{
    assert(s.take(i + 1) =~= s.take(i) + seq![s[i]]);
    lemma_encode_utf8_concat(s.take(i), seq![s[i]]);
    assert(seq![s[i]].drop_first() =~= Seq::<char>::empty());
    assert(encode_utf8(Seq::<char>::empty()) =~= Seq::<u8>::empty());
    assert(encode_utf8(seq![s[i]]) =~= encode_scalar(s[i] as u32));
    assert(s =~= s.take(i + 1) + s.skip(i + 1));
    lemma_encode_utf8_concat(s.take(i + 1), s.skip(i + 1));
}

/// The byte offset of character index `i` in `v`, for a `v` whose UTF-8 length is
/// at most `bound`.
pub fn byte_offset(v: &Vec<char>, i: usize, bound: usize) -> (r: usize)
    requires
        i <= v.len(),
        encode_utf8(v@).len() <= bound,
    ensures
        r as int == encode_utf8(v@.take(i as int)).len(),
        r <= bound,
{
    let mut r: usize = 0;
    assert(v@.take(0) =~= Seq::<char>::empty());
    assert(encode_utf8(v@.take(0)) =~= Seq::<u8>::empty());
    for k in 0..i
        invariant
            i <= v.len(),
            encode_utf8(v@).len() <= bound,
            r as int == encode_utf8(v@.take(k as int)).len(),
    {
        proof {
            lemma_encode_utf8_take(v@, k as int);
        }
        r = r + utf8_width(v[k]);
    }
    proof {
        if i < v.len() {
            lemma_encode_utf8_take(v@, i as int);
        } else {
            assert(v@.take(i as int) == v@);
        }
    }
    r
}

/// Lexicographic order of character sequences by code point; for strings it is the
/// order of std's `Ord for str`, which compares UTF-8 bytes.
pub open spec fn lex_lt(a: Seq<char>, b: Seq<char>) -> bool
    decreases a.len(),
{
    if a.len() == 0 {
        b.len() > 0
    } else if b.len() == 0 {
        false
    } else if a[0] != b[0] {
        (a[0] as u32) < (b[0] as u32)
    } else {
        lex_lt(a.drop_first(), b.drop_first())
    }
}

pub fn lex_lt_chars(a: &Vec<char>, b: &Vec<char>) -> (r: bool)
    ensures
        r == lex_lt(a@, b@),
{
    let mut i: usize = 0;
    assert(a@.skip(0) == a@);
    assert(b@.skip(0) == b@);
    while i < a.len() && i < b.len()
        invariant
            i <= a.len(),
            i <= b.len(),
            lex_lt(a@, b@) == lex_lt(a@.skip(i as int), b@.skip(i as int)),
        decreases a.len() - i,
    {
        if a[i] != b[i] {
            return (a[i] as u32) < (b[i] as u32);
        }
        proof {
            lemma_skip_drop_first(a@, i as int);
            lemma_skip_drop_first(b@, i as int);
        }
        i += 1;
    }
    i == a.len() && i < b.len()
}

pub proof fn lemma_lex_lt_irreflexive(a: Seq<char>)
    ensures
        !lex_lt(a, a),
    decreases a.len(),
{
    if a.len() > 0 {
        lemma_lex_lt_irreflexive(a.drop_first());
    }
}

pub proof fn lemma_lex_lt_asymmetric(a: Seq<char>, b: Seq<char>)
    requires
        lex_lt(a, b),
    ensures
        !lex_lt(b, a),
    decreases a.len(),
{
    if a.len() > 0 && b.len() > 0 && a[0] == b[0] {
        lemma_lex_lt_asymmetric(a.drop_first(), b.drop_first());
    }
}

pub proof fn lemma_lex_lt_transitive(a: Seq<char>, b: Seq<char>, c: Seq<char>)
    requires
        lex_lt(a, b),
        lex_lt(b, c),
    ensures
        lex_lt(a, c),
    decreases a.len(),
{
    if a.len() > 0 && b.len() > 0 && c.len() > 0 && a[0] == b[0] && b[0] == c[0] {
        lemma_lex_lt_transitive(a.drop_first(), b.drop_first(), c.drop_first());
    }
}

pub proof fn lemma_lex_lt_total(a: Seq<char>, b: Seq<char>)
    requires
        a != b,
    ensures
        lex_lt(a, b) || lex_lt(b, a),
    decreases a.len(),
{
    if a.len() > 0 && b.len() > 0 {
        vstd::utf8::char_u32_cast(a[0], a[0] as u32);
        vstd::utf8::char_u32_cast(b[0], b[0] as u32);
    }
    if a.len() > 0 && b.len() > 0 && a[0] == b[0] {
        if a.drop_first() == b.drop_first() {
            assert(a =~= seq![a[0]] + a.drop_first());
            assert(b =~= seq![b[0]] + b.drop_first());
        }
        lemma_lex_lt_total(a.drop_first(), b.drop_first());
    } else if a.len() == 0 && b.len() == 0 {
        assert(a =~= b);
    }
}

} // verus!

verus! {

/// Whether two strings hold the same characters.
pub fn str_eq(a: &str, b: &str) -> (r: bool)
    ensures
        r == (a@ == b@),
{
    let x = chars_of(a);
    let y = chars_of(b);
    chars_eq(&x, &y)
}

/// Whether two character vectors are equal.
pub fn chars_eq(x: &Vec<char>, y: &Vec<char>) -> (r: bool)
    ensures
        r == (x@ == y@),
{
    if x.len() != y.len() {
        return false;
    }
    for i in 0..x.len()
        invariant
            x.len() == y.len(),
            forall|j: int| 0 <= j < i ==> x@[j] == y@[j],
    {
        if x[i] != y[i] {
            return false;
        }
    }
    assert(x@ =~= y@);
    true
}

/// Whether `s` starts with the character `c`.
pub open spec fn starts_with_char(s: Seq<char>, c: char) -> bool {
    s.len() > 0 && s[0] == c
}

pub fn starts_with_char_str(s: &str, c: char) -> (r: bool)
    ensures
        r == starts_with_char(s@, c),
{
    let v = chars_of(s);
    v.len() > 0 && v[0] == c
}

} // verus!
