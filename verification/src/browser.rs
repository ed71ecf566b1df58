//! Web addresses: recognising them, completing them, building search addresses,
//! and the command line that opens one in the default browser.
use vstd::prelude::*;
use vstd::utf8::encode_utf8;
use crate::filtering::{filter_map, lemma_filter_map_step, lemma_filter_map_take_all};
use crate::search::views;
use crate::text::{
    chars_of, string_from_chars, trim_chars, ascii_lowercase_chars, has_whitespace_chars,
    starts_with_chars, chars_eq, has_char_chars, contains_chars, replace_all_chars, push_all,
    push_str_chars, trim_start_matches_chars, lines_chars, str_eq, starts_with_char_str, char_seqs,
    split_char_chars, copy_chars, split_char, trim, ascii_lowercase, has_whitespace, starts_with, has_char, starts_with_char, contains,
    replace_all, trim_start_matches, lines, is_ascii_digit,
};

verus! {

// ---------------------------------------------------------------------------
// Percent-encoding (the `urlencoding` crate)
// ---------------------------------------------------------------------------

/// The bytes that `urlencoding::encode` keeps: ASCII letters, digits, `-`, `.`, `_`, `~`.
pub open spec fn is_unreserved(b: u8) -> bool {
    ||| (48 <= b && b <= 57)
    ||| (65 <= b && b <= 90)
    ||| (97 <= b && b <= 122)
    ||| b == 45
    ||| b == 46
    ||| b == 95
    ||| b == 126
}

/// An upper-case hexadecimal digit.
pub open spec fn hex_digit(d: u8) -> char {
    if d < 10 {
        (48 + d) as char
    } else {
        (55 + d) as char
    }
}

/// Each byte kept as its character if unreserved, else written `%XX`.
pub open spec fn percent_encode(bytes: Seq<u8>) -> Seq<char>
    decreases bytes.len(),
{
    if bytes.len() == 0 {
        Seq::empty()
    } else {
        let b = bytes[0];
        (if is_unreserved(b) {
            seq![b as char]
        } else {
            seq!['%', hex_digit(b >> 4), hex_digit(b & 15)]
        }) + percent_encode(bytes.drop_first())
    }
}

/// `urlencoding::encode`: the percent-encoding of the UTF-8 bytes of `s`.
pub open spec fn url_encode(s: Seq<char>) -> Seq<char> {
    percent_encode(encode_utf8(s))
}

/// `urlencoding::encode(s).into_owned()`: every UTF-8 byte of `s` other than an
/// ASCII letter, digit, `-`, `.`, `_` or `~` is written as `%` and two upper-case
/// hexadecimal digits; the others are kept.
#[verifier::external_body]
fn encode_query(s: &str) -> (r: String)
    ensures
        r@ == url_encode(s@),
{
    urlencoding::encode(s).into_owned()
}

// ---------------------------------------------------------------------------
// Recognising and completing addresses
// ---------------------------------------------------------------------------

/// Whether every character is an ASCII digit, `.` or `:`.
pub open spec fn all_ipv4ish(s: Seq<char>) -> bool {
    forall|i: int| 0 <= i < s.len() ==> is_ascii_digit(#[trigger] s[i]) || s[i] == '.' || s[i] == ':'
}

/// Whether a query is taken for a web address: non-empty, without whitespace, and
/// (ignoring ASCII case) starting with `http://`, `https://` or `www.`, or being
/// `localhost` or starting with `localhost:`, or made of digits, `.` and `:` with at
/// least one `.` or `:`, or holding a `.` without starting with one.
pub open spec fn looks_like_url_spec(s: Seq<char>) -> bool {
    if s.len() == 0 || has_whitespace(s) {
        false
    } else {
        let l = ascii_lowercase(s);
        ||| starts_with(l, "http://"@)
        ||| starts_with(l, "https://"@)
        ||| starts_with(l, "www."@)
        ||| l == "localhost"@
        ||| starts_with(l, "localhost:"@)
        ||| (all_ipv4ish(l) && (has_char(l, '.') || has_char(l, ':')))
        ||| (has_char(l, '.') && !starts_with_char(l, '.'))
    }
}

fn all_ipv4ish_chars(v: &Vec<char>) -> (r: bool)
    ensures
        r == all_ipv4ish(v@),
{
    for i in 0..v.len()
        invariant
            forall|j: int| 0 <= j < i ==> is_ascii_digit(#[trigger] v@[j]) || v@[j] == '.' || v@[j] == ':',
    {
        let c = v[i];
        if !(('0' <= c && c <= '9') || c == '.' || c == ':') {
            return false;
        }
    }
    true
}

/// Whether `v` starts with the literal `p`.
fn starts_with_lit(v: &Vec<char>, p: &str) -> (r: bool)
    ensures
        r == starts_with(v@, p@),
{
    let pv = chars_of(p);
    starts_with_chars(v, &pv)
}

/// Whether a query is taken for a web address.
pub fn looks_like_url(input: &str) -> (r: bool)
    ensures
        r == looks_like_url_spec(input@),
{
    let v = chars_of(input);
    if v.len() == 0 {
        return false;
    }
    if has_whitespace_chars(&v) {
        return false;
    }
    let l = ascii_lowercase_chars(&v);
    if starts_with_lit(&l, "http://") || starts_with_lit(&l, "https://") {
        return true;
    }
    if starts_with_lit(&l, "www.") {
        return true;
    }
    let lh = chars_of("localhost");
    if chars_eq(&l, &lh) || starts_with_lit(&l, "localhost:") {
        return true;
    }
    let is_ipv4ish = all_ipv4ish_chars(&l);
    if is_ipv4ish && (has_char_chars(&l, '.') || has_char_chars(&l, ':')) {
        return true;
    }
    has_char_chars(&l, '.') && !(l.len() > 0 && l[0] == '.')
}

/// A web address completed with a scheme: the trimmed input if it starts (ignoring
/// ASCII case) with `http://` or `https://`, else `https://` and the trimmed input.
pub open spec fn normalize_url_spec(s: Seq<char>) -> Seq<char> {
    let t = trim(s);
    let l = ascii_lowercase(t);
    if starts_with(l, "http://"@) || starts_with(l, "https://"@) {
        t
    } else {
        "https://"@ + t
    }
}

/// Completes a web address with a scheme.
pub fn normalize_url(input: &str) -> (r: String)
    ensures
        r@ == normalize_url_spec(input@),
{
    let v = chars_of(input);
    let t = trim_chars(&v);
    let l = ascii_lowercase_chars(&t);
    if starts_with_lit(&l, "http://") || starts_with_lit(&l, "https://") {
        return string_from_chars(&t);
    }
    let mut out = chars_of("https://");
    push_all(&mut out, &t);
    string_from_chars(&out)
}

// ---------------------------------------------------------------------------
// Search addresses
// ---------------------------------------------------------------------------

/// The search address used when no template is configured.
pub const DEFAULT_SEARCH_URL_TEMPLATE: &'static str = "https://duckduckgo.com/?q={query}";

/// The search address of `query` from a template: the encoded query replaces every
/// `{query}` if there is one, else every `%s` if there is one, else is appended.
pub open spec fn search_url_from_template(query: Seq<char>, template: Seq<char>) -> Seq<char> {
    let enc = url_encode(query);
    if contains(template, "{query}"@) {
        replace_all(template, "{query}"@, enc)
    } else if contains(template, "%s"@) {
        replace_all(template, "%s"@, enc)
    } else {
        template + enc
    }
}

/// The search address of `query`: from the template if one is given, else from
/// the default template.
pub open spec fn search_url(query: Seq<char>, template: Option<Seq<char>>) -> Seq<char> {
    match template {
        Some(t) => search_url_from_template(query, t),
        None => replace_all(DEFAULT_SEARCH_URL_TEMPLATE@, "{query}"@, url_encode(query)),
    }
}

/// The search address of `query` from a template; it always gives one.
pub fn build_search_url_from_template(query: &str, template: &str) -> (r: Option<String>)
    ensures
        r matches Some(u) && u@ == search_url_from_template(query@, template@),
{
    let encoded = encode_query(query);
    let ev = chars_of(encoded.as_str());
    let t = chars_of(template);
    let pq = chars_of("{query}");
    proof {
        reveal_strlit("{query}");
        reveal_strlit("%s");
    }
    if contains_chars(&t, &pq) {
        let out = replace_all_chars(&t, &pq, &ev);
        return Some(string_from_chars(&out));
    }
    let ps = chars_of("%s");
    if contains_chars(&t, &ps) {
        let out = replace_all_chars(&t, &ps, &ev);
        return Some(string_from_chars(&out));
    }
    let mut out = t;
    push_all(&mut out, &ev);
    Some(string_from_chars(&out))
}

pub open spec fn opt_str_view(o: Option<&str>) -> Option<Seq<char>> {
    match o {
        Some(s) => Some(s@),
        None => None,
    }
}

/// The search address of `query`, from `template_override` when given.
pub fn build_search_url(query: &str, template_override: Option<&str>) -> (r: String)
    ensures
        r@ == search_url(query@, opt_str_view(template_override)),
{
    if let Some(template) = template_override {
        if let Some(url) = build_search_url_from_template(query, template) {
            return url;
        }
    }
    let encoded = encode_query(query);
    let ev = chars_of(encoded.as_str());
    let t = chars_of(DEFAULT_SEARCH_URL_TEMPLATE);
    let pq = chars_of("{query}");
    proof {
        reveal_strlit("{query}");
    }
    let out = replace_all_chars(&t, &pq, &ev);
    string_from_chars(&out)
}

// ---------------------------------------------------------------------------
// Command lines of desktop entries
// ---------------------------------------------------------------------------

/// The words of a command line as `shlex::split` splits it (POSIX shell quoting);
/// `None` when the quoting is unbalanced. It depends on the line alone.
pub uninterp spec fn shell_words(line: Seq<char>) -> Option<Seq<Seq<char>>>;

/// `shlex::split`: the words of `line` under shell quoting, or `None` on an error.
/// Nothing is claimed of the splitting itself but that it is `shell_words` of the line.
#[verifier::external_body]
fn shlex_split(line: &str) -> (r: Option<Vec<String>>)
    ensures
        match r {
            Some(v) => shell_words(line@) == Some(views(v@)),
            None => shell_words(line@) is None,
        },
{
    shlex::split(line)
}

/// The field codes of the desktop entry specification that a launcher drops.
pub open spec fn is_listed_field_code(w: Seq<char>) -> bool {
    ||| w == "%f"@
    ||| w == "%F"@
    ||| w == "%u"@
    ||| w == "%U"@
    ||| w == "%d"@
    ||| w == "%D"@
    ||| w == "%n"@
    ||| w == "%N"@
    ||| w == "%i"@
    ||| w == "%c"@
    ||| w == "%k"@
    ||| w == "%v"@
    ||| w == "%m"@
    ||| w == "%"@
}

/// A word is kept unless it is a listed field code or starts with `%`.
pub open spec fn keep_word() -> spec_fn(Seq<char>) -> Option<Seq<char>> {
    |w: Seq<char>|
        if is_listed_field_code(w) || starts_with_char(w, '%') {
            None
        } else {
            Some(w)
        }
}

fn is_listed_field_code_str(w: &str) -> (r: bool)
    ensures
        r == is_listed_field_code(w@),
{
    str_eq(w, "%f") || str_eq(w, "%F") || str_eq(w, "%u") || str_eq(w, "%U") || str_eq(w, "%d")
        || str_eq(w, "%D") || str_eq(w, "%n") || str_eq(w, "%N") || str_eq(w, "%i") || str_eq(
        w,
        "%c",
    ) || str_eq(w, "%k") || str_eq(w, "%v") || str_eq(w, "%m") || str_eq(w, "%")
}

/// The words of a split command line without its field codes.
pub fn filter_field_codes(parts: Vec<String>) -> (r: Vec<String>)
    ensures
        views(r@) == filter_map(views(parts@), keep_word()),
{
    let ghost ws = views(parts@);
    let ghost f = keep_word();
    let mut out: Vec<String> = Vec::new();
    assert(ws.take(0) =~= Seq::<Seq<char>>::empty());
    for i in 0..parts.len()
        invariant
            ws == views(parts@),
            f == keep_word(),
            views(out@) == filter_map(ws.take(i as int), f),
    {
        proof {
            lemma_filter_map_step(ws, f, i as int);
        }
        let w = parts[i].as_str();
        assert(ws[i as int] == w@);
        if !(is_listed_field_code_str(w) || starts_with_char_str(w, '%')) {
            let s = parts[i].clone();
            let ghost old_out = out@;
            out.push(s);
            assert(views(out@) =~= views(old_out).push(s@));
        }
    }
    proof {
        lemma_filter_map_take_all(ws, f);
    }
    out
}

/// The program and arguments of a command line: its shell words without field
/// codes, or nothing when it does not split.
pub open spec fn exec_parts(line: Seq<char>) -> Seq<Seq<char>> {
    match shell_words(line) {
        Some(ws) => filter_map(ws, keep_word()),
        None => Seq::empty(),
    }
}

/// Splits the `Exec` line of a desktop entry into program and arguments.
pub fn parse_exec(exec_line: &str) -> (r: Vec<String>)
    ensures
        views(r@) == exec_parts(exec_line@),
{
    match shlex_split(exec_line) {
        Some(parts) => filter_field_codes(parts),
        None => Vec::new(),
    }
}

/// Whether one of `words` is `w`.
pub open spec fn has_word(words: Seq<Seq<char>>, w: Seq<char>) -> bool {
    exists|i: int| 0 <= i < words.len() && words[i] == w
}

/// The command that opens `url` with a browser from its `Exec` line: the words,
/// then `--new-window` if no word is that already, then the address.
pub open spec fn browser_argv(parts: Seq<Seq<char>>, url: Seq<char>) -> Seq<Seq<char>> {
    parts + (if has_word(parts, "--new-window"@) {
        Seq::<Seq<char>>::empty()
    } else {
        seq!["--new-window"@]
    }) + seq![url]
}

/// The command that the first usable `Exec=` line among `lines` gives for `url`.
pub open spec fn first_exec_command(ls: Seq<Seq<char>>, url: Seq<char>) -> Option<Seq<Seq<char>>>
    decreases ls.len(),
{
    if ls.len() == 0 {
        None
    } else {
        let l = ls[0];
        let parts = exec_parts(trim_start_matches(l, "Exec="@));
        if starts_with(l, "Exec="@) && parts.len() > 0 {
            Some(browser_argv(parts, url))
        } else {
            first_exec_command(ls.drop_first(), url)
        }
    }
}

/// The command that opens `url` with the browser that the desktop entry `contents`
/// describes: from its first `Exec=` line whose command is not empty.
pub fn browser_command(contents: &str, url: &str) -> (r: Option<Vec<String>>)
    ensures
        match first_exec_command(lines(contents@), url@) {
            Some(argv) => r matches Some(v) && views(v@) == argv,
            None => r is None,
        },
{
    let cv = chars_of(contents);
    let ls = lines_chars(&cv);
    let ghost all = lines(contents@);
    let prefix = chars_of("Exec=");
    let mut i: usize = 0;
    assert(all.skip(0) == all);
    while i < ls.len()
        invariant
            all == char_seqs(ls@),
            all == lines(contents@),
            prefix@ == "Exec="@,
            i <= ls.len(),
            first_exec_command(all, url@) == first_exec_command(all.skip(i as int), url@),
        decreases ls.len() - i,
    {
        let l = &ls[i];
        assert(all.skip(i as int)[0] == l@);
        let rest = trim_start_matches_chars(l, &prefix);
        let rs = string_from_chars(&rest);
        if starts_with_chars(l, &prefix) {
            let parts = parse_exec(rs.as_str());
            assert(views(parts@).len() == parts.len());
            assert(rs@ == trim_start_matches(l@, "Exec="@));
            if parts.len() > 0 {
                assert(first_exec_command(all.skip(i as int), url@) == Some(
                    browser_argv(exec_parts(rs@), url@),
                ));
                let mut has_new_window = false;
                for k in 0..parts.len()
                    invariant
                        has_new_window == exists|j: int| 0 <= j < k && parts@[j]@ == "--new-window"@,
                {
                    if str_eq(parts[k].as_str(), "--new-window") {
                        has_new_window = true;
                    }
                }
                assert(has_new_window == has_word(views(parts@), "--new-window"@)) by {
                    if has_new_window {
                        let j = choose|j: int| 0 <= j < parts.len() && parts@[j]@ == "--new-window"@;
                        assert(views(parts@)[j] == parts@[j]@);
                    } else {
                        assert forall|j: int| 0 <= j < views(parts@).len() implies views(parts@)[j] != "--new-window"@ by {
                            assert(views(parts@)[j] == parts@[j]@);
                        }
                    }
                }
                let mut argv = parts;
                if !has_new_window {
                    let nw = string_from_chars(&chars_of("--new-window"));
                    let ghost old_argv = argv@;
                    argv.push(nw);
                    assert(views(argv@) =~= views(old_argv).push("--new-window"@));
                }
                let u = string_from_chars(&chars_of(url));
                let ghost before = argv@;
                argv.push(u);
                assert(views(argv@) =~= views(before).push(url@));
                assert(views(argv@) =~= browser_argv(exec_parts(rest@), url@));
                return Some(argv);
            }
        }
        proof {
            crate::text::lemma_skip_drop_first(all, i as int);
        }
        i += 1;
    }
    None
}


// ---------------------------------------------------------------------------
// Program names
// ---------------------------------------------------------------------------

/// The last component of a path split at `/`, skipping empty and `.` components.
pub open spec fn last_component(pieces: Seq<Seq<char>>) -> Option<Seq<char>>
    decreases pieces.len(),
{
    if pieces.len() == 0 {
        None
    } else {
        let l = pieces.last();
        if l.len() == 0 || l == seq!['.'] {
            last_component(pieces.drop_last())
        } else {
            Some(l)
        }
    }
}

/// std's `Path::file_name` on a Unix path: its last normal component, or nothing
/// when the path ends in `..`, is a root or is empty.
pub open spec fn file_name(path: Seq<char>) -> Option<Seq<char>> {
    match last_component(split_char(path, '/')) {
        Some(c) => if c == seq!['.', '.'] {
            None
        } else {
            Some(c)
        },
        None => None,
    }
}

/// The name of the program of a command: the file name of its path, or the
/// command itself when the path has none.
pub open spec fn executable_name_spec(executable: Seq<char>) -> Seq<char> {
    match file_name(executable) {
        Some(n) => n,
        None => executable,
    }
}

pub fn executable_name(executable: &str) -> (r: String)
    ensures
        r@ == executable_name_spec(executable@),
{
    let v = chars_of(executable);
    let pieces = split_char_chars(&v, '/');
    let ghost ps = char_seqs(pieces@);
    let mut i = pieces.len();
    assert(ps.take(i as int) =~= ps);
    while i > 0
        invariant
            i <= pieces.len(),
            v@ == executable@,
            ps == char_seqs(pieces@),
            ps == split_char(executable@, '/'),
            last_component(ps) == last_component(ps.take(i as int)),
        decreases i,
    {
        let p = &pieces[i - 1];
        assert(ps.take(i as int).drop_last() =~= ps.take(i - 1));
        assert(ps.take(i as int).last() == p@);
        let dot = vec!['.'];
        assert(dot@ =~= seq!['.']);
        if p.len() == 0 || chars_eq(p, &dot) {
            i -= 1;
        } else {
            let dd = vec!['.', '.'];
            assert(dd@ =~= seq!['.', '.']);
            assert(last_component(ps) == Some(p@));
            if chars_eq(p, &dd) {
                assert(file_name(executable@) is None);
                return string_from_chars(&v);
            }
            return string_from_chars(p);
        }
    }
    string_from_chars(&v)
}

// ---------------------------------------------------------------------------
// Laws
// ---------------------------------------------------------------------------

pub proof fn lemma_trim_start_idempotent(s: Seq<char>)
    ensures
        crate::text::trim_start(crate::text::trim_start(s)) == crate::text::trim_start(s),
    decreases s.len(),
{
    if s.len() > 0 && crate::text::is_whitespace(s[0]) {
        lemma_trim_start_idempotent(s.drop_first());
    }
}

pub proof fn lemma_trim_end_keeps_start(s: Seq<char>)
    requires
        !(s.len() > 0 && crate::text::is_whitespace(s[0])),
    ensures
        crate::text::trim_start(crate::text::trim_end(s)) == crate::text::trim_end(s),
    decreases s.len(),
{
    if s.len() > 0 && crate::text::is_whitespace(s.last()) {
        if s.len() > 1 {
            lemma_trim_end_keeps_start(s.drop_last());
        } else {
            assert(s.drop_last().len() == 0);
        }
    }
}

pub proof fn lemma_trim_end_idempotent(s: Seq<char>)
    ensures
        crate::text::trim_end(crate::text::trim_end(s)) == crate::text::trim_end(s),
    decreases s.len(),
{
    if s.len() > 0 && crate::text::is_whitespace(s.last()) {
        lemma_trim_end_idempotent(s.drop_last());
    }
}

pub proof fn lemma_trim_start_no_ws(s: Seq<char>)
    ensures
        !(crate::text::trim_start(s).len() > 0 && crate::text::is_whitespace(crate::text::trim_start(s)[0])),
    decreases s.len(),
{
    if s.len() > 0 && crate::text::is_whitespace(s[0]) {
        lemma_trim_start_no_ws(s.drop_first());
    }
}

/// Trimming twice is trimming once.
pub proof fn law_trim_idempotent(s: Seq<char>)
    ensures
        trim(trim(s)) == trim(s),
{
    let a = crate::text::trim_start(s);
    lemma_trim_start_no_ws(s);
    lemma_trim_end_keeps_start(a);
    lemma_trim_end_idempotent(a);
}

/// A completed address starts, ignoring ASCII case, with `http://` or `https://`.
pub proof fn law_normalized_has_scheme(s: Seq<char>)
    ensures
        starts_with(ascii_lowercase(normalize_url_spec(s)), "http://"@) || starts_with(
            ascii_lowercase(normalize_url_spec(s)),
            "https://"@,
        ),
{
    let t = trim(s);
    let l = ascii_lowercase(t);
    if !(starts_with(l, "http://"@) || starts_with(l, "https://"@)) {
        reveal_strlit("https://");
        let u = "https://"@ + t;
        assert(ascii_lowercase(u).take(8) =~= "https://"@);
    }
}

/// Completing an address twice is completing it once.
pub proof fn law_normalize_url_idempotent(s: Seq<char>)
    ensures
        normalize_url_spec(normalize_url_spec(s)) == normalize_url_spec(s),
{
    let t = trim(s);
    let l = ascii_lowercase(t);
    law_trim_idempotent(s);
    if starts_with(l, "http://"@) || starts_with(l, "https://"@) {
    } else {
        reveal_strlit("https://");
        let u = "https://"@ + t;
        law_normalized_has_scheme(s);
        assert(u[0] == 'h');
        assert(!crate::text::is_whitespace(u[0]));
        assert(u.drop_first() =~= "ttps://"@ + t) by {
            reveal_strlit("ttps://");
        }
        // trimming `u` keeps it: its ends are not whitespace
        lemma_trim_start_no_ws(s);
        lemma_trim_end_no_ws(crate::text::trim_start(s));
        assert(trim(u) == u) by {
            lemma_trim_of_framed(u, t);
        }
    }
}

pub proof fn lemma_trim_end_no_ws(s: Seq<char>)
    ensures
        !(crate::text::trim_end(s).len() > 0 && crate::text::is_whitespace(crate::text::trim_end(s).last())),
    decreases s.len(),
{
    if s.len() > 0 && crate::text::is_whitespace(s.last()) {
        lemma_trim_end_no_ws(s.drop_last());
    }
}

proof fn lemma_trim_of_framed(u: Seq<char>, t: Seq<char>)
    requires
        u.len() > 0,
        !crate::text::is_whitespace(u[0]),
        u == "https://"@ + t,
        t.len() == 0 || !crate::text::is_whitespace(t.last()),
    ensures
        trim(u) == u,
{
    reveal_strlit("https://");
    assert(crate::text::trim_start(u) == u);
    assert(u.last() == (if t.len() == 0 { '/' } else { t.last() }));
    assert(crate::text::trim_end(u) == u);
}

/// No word of a split command line is a field code.
pub proof fn law_exec_parts_without_field_codes(line: Seq<char>, i: int)
    requires
        0 <= i < exec_parts(line).len(),
    ensures
        !starts_with_char(exec_parts(line)[i], '%'),
{
    match shell_words(line) {
        Some(ws) => lemma_kept_words(ws, i),
        None => {},
    }
}

proof fn lemma_kept_words(ws: Seq<Seq<char>>, i: int)
    requires
        0 <= i < filter_map(ws, keep_word()).len(),
    ensures
        !starts_with_char(filter_map(ws, keep_word())[i], '%'),
    decreases ws.len(),
{
    let prev = filter_map(ws.drop_last(), keep_word());
    if i < prev.len() {
        lemma_kept_words(ws.drop_last(), i);
    }
}


/// Whether a desktop-entry line is an `Exec=` line with a non-empty command.
pub open spec fn usable_exec_line(l: Seq<char>) -> bool {
    starts_with(l, "Exec="@) && exec_parts(trim_start_matches(l, "Exec="@)).len() > 0
}

/// The browser command comes from the first usable `Exec=` line: the line it comes
/// from is usable and no earlier line is; and there is none when no line is usable.
pub proof fn law_browser_command_from_first_exec_line(ls: Seq<Seq<char>>, url: Seq<char>)
    ensures
        match first_exec_command(ls, url) {
            Some(argv) => exists|i: int|
                0 <= i < ls.len() && usable_exec_line(#[trigger] ls[i]) && argv == browser_argv(
                    exec_parts(trim_start_matches(ls[i], "Exec="@)),
                    url,
                ) && forall|j: int| 0 <= j < i ==> !usable_exec_line(#[trigger] ls[j]),
            None => forall|i: int| 0 <= i < ls.len() ==> !usable_exec_line(#[trigger] ls[i]),
        },
    decreases ls.len(),
{
    if ls.len() > 0 {
        let rest = ls.drop_first();
        law_browser_command_from_first_exec_line(rest, url);
        if usable_exec_line(ls[0]) {
            assert(forall|j: int| 0 <= j < 0 ==> !usable_exec_line(#[trigger] ls[j]));
        } else {
            match first_exec_command(rest, url) {
                Some(argv) => {
                    let i = choose|i: int|
                        0 <= i < rest.len() && usable_exec_line(#[trigger] rest[i]) && argv
                            == browser_argv(exec_parts(trim_start_matches(rest[i], "Exec="@)), url)
                            && forall|j: int| 0 <= j < i ==> !usable_exec_line(#[trigger] rest[j]);
                    assert(ls[i + 1] == rest[i]);
                    assert forall|j: int| 0 <= j < i + 1 implies !usable_exec_line(#[trigger] ls[j]) by {
                        if j > 0 {
                            assert(ls[j] == rest[j - 1]);
                        }
                    }
                },
                None => {
                    assert forall|i: int| 0 <= i < ls.len() implies !usable_exec_line(#[trigger] ls[i]) by {
                        if i > 0 {
                            assert(ls[i] == rest[i - 1]);
                        }
                    }
                },
            }
        }
    }
}

/// Lines after the one that gives the browser command never change it.
pub proof fn law_later_lines_keep_the_browser_command(
    ls: Seq<Seq<char>>,
    more: Seq<Seq<char>>,
    url: Seq<char>,
)
    requires
        first_exec_command(ls, url) is Some,
    ensures
        first_exec_command(ls + more, url) == first_exec_command(ls, url),
    decreases ls.len(),
{
    assert((ls + more)[0] == ls[0]);
    if !usable_exec_line(ls[0]) {
        assert((ls + more).drop_first() =~= ls.drop_first() + more);
        law_later_lines_keep_the_browser_command(ls.drop_first(), more, url);
    }
}

/// The browser command is the `Exec` words, then `--new-window` unless a word is that
/// already, then the address last.
pub proof fn law_browser_argv_shape(parts: Seq<Seq<char>>, url: Seq<char>)
    ensures
        browser_argv(parts, url).take(parts.len() as int) == parts,
        browser_argv(parts, url).last() == url,
        has_word(browser_argv(parts, url), "--new-window"@),
        browser_argv(parts, url).len() == parts.len() + if has_word(parts, "--new-window"@) {
            1int
        } else {
            2int
        },
{
    let a = browser_argv(parts, url);
    assert(a.take(parts.len() as int) =~= parts);
    if has_word(parts, "--new-window"@) {
        let i = choose|i: int| 0 <= i < parts.len() && parts[i] == "--new-window"@;
        assert(a[i] == parts[i]);
    } else {
        assert(a[parts.len() as int] == "--new-window"@);
    }
}

} // verus!
