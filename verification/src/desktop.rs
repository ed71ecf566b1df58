//! Desktop entry files: the `[Desktop Entry]` section, the application it
//! describes, and the list of installed applications.
use vstd::prelude::*;
use crate::domain::{opt_view, copy_opt};
use crate::filtering::{filter_map, lemma_filter_map_step, lemma_filter_map_take_all};
use crate::search::views;
use crate::sort::{RankKey, key_views, sort_indices, is_sorted_perm, usize_seq, lemma_key_views_push};
use crate::text::{
    chars_of, string_from_chars, to_lowercase, trim_chars, chars_eq, eq_ignore_ascii_case_chars,
    find_chars, lemma_find_found, sub_chars, lines_chars, push_all, char_seqs, lowercase, trim,
    starts_with_char, eq_ignore_ascii_case, find, lines, lemma_skip_drop_first,
};

verus! {

pub type Pair = (Seq<char>, Seq<char>);

/// Splits `s` at its first `c`: the text before and after it.
pub open spec fn split_once(s: Seq<char>, c: char) -> Option<(Seq<char>, Seq<char>)> {
    match find(s, seq![c]) {
        Some(i) => Some((s.take(i as int), s.skip(i + 1 as int))),
        None => None,
    }
}

/// Whether `s` ends with the character `c`.
pub open spec fn ends_with_char(s: Seq<char>, c: char) -> bool {
    s.len() > 0 && s.last() == c
}

/// One line of a desktop file, given whether the `[Desktop Entry]` section is open
/// and the `(key, value)` pairs so far: blank lines and comments are skipped, a
/// `[...]` header opens or closes the section, and inside it a line `key=value`
/// adds its trimmed key and value.
pub open spec fn section_step(state: (bool, Seq<Pair>), raw: Seq<char>) -> (bool, Seq<Pair>) {
    let line = trim(raw);
    if line.len() == 0 || starts_with_char(line, '#') {
        state
    } else if starts_with_char(line, '[') && ends_with_char(line, ']') {
        (line == "[Desktop Entry]"@, state.1)
    } else if !state.0 {
        state
    } else {
        match split_once(line, '=') {
            Some(kv) => (true, state.1.push((trim(kv.0), trim(kv.1)))),
            None => state,
        }
    }
}

pub open spec fn section_fold(ls: Seq<Seq<char>>) -> (bool, Seq<Pair>)
    decreases ls.len(),
{
    if ls.len() == 0 {
        (false, Seq::empty())
    } else {
        section_step(section_fold(ls.drop_last()), ls.last())
    }
}

/// The `(key, value)` pairs of the `[Desktop Entry]` sections of a file, in order.
pub open spec fn section_pairs(contents: Seq<char>) -> Seq<Pair> {
    section_fold(lines(contents)).1
}

/// The value of `key`: that of its last pair (a later line overrides an earlier one).
pub open spec fn section_get(pairs: Seq<Pair>, key: Seq<char>) -> Option<Seq<char>>
    decreases pairs.len(),
{
    if pairs.len() == 0 {
        None
    } else if pairs.last().0 == key {
        Some(pairs.last().1)
    } else {
        section_get(pairs.drop_last(), key)
    }
}

/// The `(key, value)` pairs of the `[Desktop Entry]` section of a desktop file.
pub struct DesktopSection {
    entries: Vec<(String, String)>,
}

pub open spec fn pair_views(v: Seq<(String, String)>) -> Seq<Pair> {
    v.map_values(|p: (String, String)| (p.0@, p.1@))
}

impl View for DesktopSection {
    type V = Seq<Pair>;

    closed spec fn view(&self) -> Seq<Pair> {
        pair_views(self.entries@)
    }
}

impl DesktopSection {
    /// The value of `key`, if the section sets it.
    pub fn get(&self, key: &str) -> (r: Option<String>)
        ensures
            opt_view(r) == section_get(self@, key@),
    {
        let kv = chars_of(key);
        let mut i = self.entries.len();
        assert(self@.len() == self.entries.len());
        assert(self@.take(i as int) =~= self@);
        while i > 0
            invariant
                i <= self.entries.len(),
                kv@ == key@,
                section_get(self@, key@) == section_get(self@.take(i as int), key@),
            decreases i,
        {
            let ghost pre = self@.take(i as int);
            assert(pre.drop_last() =~= self@.take(i - 1));
            assert(pre.last() == (self.entries@[i - 1].0@, self.entries@[i - 1].1@));
            let k = chars_of(self.entries[i - 1].0.as_str());
            if chars_eq(&k, &kv) {
                return Some(self.entries[i - 1].1.clone());
            }
            i -= 1;
        }
        None
    }

    /// The number of pairs.
    pub fn len(&self) -> (r: usize)
        ensures
            r == self@.len(),
    {
        self.entries.len()
    }
}

/// The step of the section parser on one line.
fn section_line(state: &mut (bool, Vec<(String, String)>), raw: &Vec<char>)
    ensures
        (final(state).0, pair_views(final(state).1@)) == section_step(
            (old(state).0, pair_views(old(state).1@)),
            raw@,
        ),
{
    let line = trim_chars(raw);
    if line.len() == 0 || line[0] == '#' {
        return;
    }
    if line[0] == '[' && line[line.len() - 1] == ']' {
        let header = chars_of("[Desktop Entry]");
        state.0 = chars_eq(&line, &header);
        return;
    }
    if !state.0 {
        return;
    }
    let eq = vec!['='];
    assert(eq@ =~= seq!['=']);
    match find_chars(&line, &eq) {
        Some(i) => {
            proof {
                lemma_find_found(line@, eq@);
            }
            let key = sub_chars(&line, 0, i);
            let value = sub_chars(&line, i + 1, line.len());
            assert(key@ == line@.take(i as int));
            assert(value@ == line@.skip(i + 1));
            let k = trim_chars(&key);
            let v = trim_chars(&value);
            let ghost old_pairs = pair_views(state.1@);
            state.1.push((string_from_chars(&k), string_from_chars(&v)));
            assert(pair_views(state.1@) =~= old_pairs.push((k@, v@)));
        },
        None => {},
    }
}

/// The `[Desktop Entry]` section of a desktop file; `None` when it sets nothing.
pub fn parse_desktop_entry_section(contents: &str) -> (r: Option<DesktopSection>)
    ensures
        match r {
            Some(sec) => sec@ == section_pairs(contents@) && sec@.len() > 0,
            None => section_pairs(contents@).len() == 0,
        },
{
    let cv = chars_of(contents);
    let ls = lines_chars(&cv);
    let ghost all = lines(contents@);
    let mut state: (bool, Vec<(String, String)>) = (false, Vec::new());
    assert(all.take(0) =~= Seq::<Seq<char>>::empty());
    assert(pair_views(state.1@) =~= Seq::<Pair>::empty());
    for i in 0..ls.len()
        invariant
            all == char_seqs(ls@),
            (state.0, pair_views(state.1@)) == section_fold(all.take(i as int)),
    {
        assert(all.take(i + 1).drop_last() =~= all.take(i as int));
        assert(all[i as int] == ls@[i as int]@);
        section_line(&mut state, &ls[i]);
    }
    assert(all.take(ls.len() as int) =~= all);
    if state.1.len() == 0 {
        None
    } else {
        Some(DesktopSection { entries: state.1 })
    }
}

/// An application as its desktop file describes it.
#[derive(Clone, Debug)]
pub struct DesktopApp {
    pub name: String,
    pub exec_line: String,
    pub icon: Option<String>,
    pub comment: Option<String>,
    /// The lower-cased text it is found by.
    pub search_text: String,
}

pub struct EntryView {
    pub name: Seq<char>,
    pub exec_line: Seq<char>,
    pub icon: Option<Seq<char>>,
    pub comment: Option<Seq<char>>,
    pub search_text: Seq<char>,
}

impl View for DesktopApp {
    type V = EntryView;

    open spec fn view(&self) -> EntryView {
        EntryView {
            name: self.name@,
            exec_line: self.exec_line@,
            icon: opt_view(self.icon),
            comment: opt_view(self.comment),
            search_text: self.search_text@,
        }
    }
}

/// The terms the launcher finds an application by: its lower-cased name first, then
/// its search text.
pub open spec fn launcher_terms(e: EntryView) -> Seq<Seq<char>> {
    seq![lowercase(e.name), e.search_text]
}

impl DesktopApp {
    /// The application as the launcher ranks it: its name, command line and icon,
    /// found by its lower-cased name and by its search text, and by their ASCII
    /// letters and digits alone.
    pub fn to_launcher_app(&self) -> (r: crate::domain::DesktopApp)
        ensures
            r@.name == self@.name,
            r@.exec_line == self@.exec_line,
            r@.icon == self@.icon,
            r@.search_terms == launcher_terms(self@),
            r@.normalized_terms == launcher_terms(self@).map_values(
                |t: Seq<char>| crate::search::compact_alnum_spec(t),
            ),
    {
        let name_l = to_lowercase(self.name.as_str());
        let norm_name = crate::search::compact_alnum(name_l.as_str());
        let norm_text = crate::search::compact_alnum(self.search_text.as_str());
        let search_terms = vec![name_l, self.search_text.clone()];
        let normalized_terms = vec![norm_name, norm_text];
        let r = crate::domain::DesktopApp {
            name: self.name.clone(),
            exec_line: self.exec_line.clone(),
            icon: copy_opt(&self.icon),
            search_terms,
            normalized_terms,
        };
        assert(r@.search_terms =~= launcher_terms(self@));
        assert(r@.normalized_terms =~= launcher_terms(self@).map_values(
            |t: Seq<char>| crate::search::compact_alnum_spec(t),
        ));
        r
    }

    /// A copy of this application.
    pub fn duplicate(&self) -> (r: DesktopApp)
        ensures
            r@ == self@,
    {
        DesktopApp {
            name: self.name.clone(),
            exec_line: self.exec_line.clone(),
            icon: copy_opt(&self.icon),
            comment: copy_opt(&self.comment),
            search_text: self.search_text.clone(),
        }
    }
}

/// Whether `key` is set to `expect`, ignoring ASCII case.
pub open spec fn value_is(sec: Seq<Pair>, key: Seq<char>, expect: Seq<char>) -> bool {
    match section_get(sec, key) {
        Some(v) => eq_ignore_ascii_case(v, expect),
        None => false,
    }
}

/// A trimmed value, when it is not blank.
pub open spec fn nonblank(o: Option<Seq<char>>) -> Option<Seq<char>> {
    match o {
        Some(v) => if trim(v).len() > 0 {
            Some(trim(v))
        } else {
            None
        },
        None => None,
    }
}

pub open spec fn opt_seq(o: Option<Seq<char>>) -> Seq<Seq<char>> {
    match o {
        Some(v) => seq![v],
        None => Seq::empty(),
    }
}

/// The parts joined with `sep` between each two (std's `join`).
pub open spec fn join(parts: Seq<Seq<char>>, sep: Seq<char>) -> Seq<char>
    decreases parts.len(),
{
    if parts.len() == 0 {
        Seq::empty()
    } else if parts.len() == 1 {
        parts[0]
    } else {
        join(parts.drop_last(), sep) + sep + parts.last()
    }
}

/// The application that a desktop file describes: it must have a `[Desktop Entry]`
/// section of `Type` `Application` (ignoring ASCII case), not be `Hidden` or
/// `NoDisplay` (`true`, ignoring ASCII case), and have a non-blank `Name` and `Exec`.
/// Its search text is the lower-cased join, with spaces, of the name, the command,
/// the comment, the categories and the keywords that it has.
pub open spec fn desktop_app_spec(contents: Seq<char>) -> Option<EntryView> {
    let sec = section_pairs(contents);
    if sec.len() == 0 || !value_is(sec, "Type"@, "Application"@) || value_is(sec, "Hidden"@, "true"@)
        || value_is(sec, "NoDisplay"@, "true"@) {
        None
    } else {
        match (section_get(sec, "Name"@), section_get(sec, "Exec"@)) {
            (Some(n), Some(e)) => {
                let name = trim(n);
                let exec_line = trim(e);
                if name.len() == 0 || exec_line.len() == 0 {
                    None
                } else {
                    let comment = nonblank(section_get(sec, "Comment"@));
                    let icon = nonblank(section_get(sec, "Icon"@));
                    let parts = seq![name, exec_line] + opt_seq(comment) + opt_seq(
                        section_get(sec, "Categories"@),
                    ) + opt_seq(section_get(sec, "Keywords"@));
                    Some(
                        EntryView {
                            name,
                            exec_line,
                            icon,
                            comment,
                            search_text: lowercase(join(parts, " "@)),
                        },
                    )
                }
            },
            _ => None,
        }
    }
}

/// Whether `key` of `sec` is set to `expect`, ignoring ASCII case.
fn section_value_is(sec: &DesktopSection, key: &str, expect: &str) -> (r: bool)
    ensures
        r == value_is(sec@, key@, expect@),
{
    match sec.get(key) {
        Some(v) => {
            let vv = chars_of(v.as_str());
            let ev = chars_of(expect);
            eq_ignore_ascii_case_chars(&vv, &ev)
        },
        None => false,
    }
}

/// A trimmed value of `key`, when it is set and not blank.
fn nonblank_value(sec: &DesktopSection, key: &str) -> (r: Option<String>)
    ensures
        opt_view(r) == nonblank(section_get(sec@, key@)),
{
    match sec.get(key) {
        Some(v) => {
            let t = trim_chars(&chars_of(v.as_str()));
            if t.len() > 0 {
                Some(string_from_chars(&t))
            } else {
                None
            }
        },
        None => None,
    }
}

/// Joins `parts` with `sep`.
pub fn join_chars(parts: &Vec<Vec<char>>, sep: &Vec<char>) -> (r: Vec<char>)
    ensures
        r@ == join(char_seqs(parts@), sep@),
{
    let ghost ps = char_seqs(parts@);
    let mut out: Vec<char> = Vec::new();
    assert(ps.take(0) =~= Seq::<Seq<char>>::empty());
    for i in 0..parts.len()
        invariant
            ps == char_seqs(parts@),
            out@ == join(ps.take(i as int), sep@),
    {
        assert(ps.take(i + 1).drop_last() =~= ps.take(i as int));
        assert(ps[i as int] == parts@[i as int]@);
        if i > 0 {
            push_all(&mut out, sep);
        } else {
            assert(ps.take(1)[0] == ps[0]);
        }
        push_all(&mut out, &parts[i]);
    }
    assert(ps.take(parts.len() as int) =~= ps);
    out
}

/// The application that the desktop file `contents` describes, if any.
pub fn parse_desktop_file(contents: &str) -> (r: Option<DesktopApp>)
    ensures
        match desktop_app_spec(contents@) {
            Some(e) => r matches Some(a) && a@ == e,
            None => r is None,
        },
{
    let sec = match parse_desktop_entry_section(contents) {
        Some(s) => s,
        None => return None,
    };
    if !section_value_is(&sec, "Type", "Application") {
        return None;
    }
    if section_value_is(&sec, "Hidden", "true") {
        return None;
    }
    if section_value_is(&sec, "NoDisplay", "true") {
        return None;
    }
    let n = match sec.get("Name") {
        Some(n) => n,
        None => return None,
    };
    let e = match sec.get("Exec") {
        Some(e) => e,
        None => return None,
    };
    let name = trim_chars(&chars_of(n.as_str()));
    let exec_line = trim_chars(&chars_of(e.as_str()));
    if name.len() == 0 || exec_line.len() == 0 {
        return None;
    }
    let comment = nonblank_value(&sec, "Comment");
    let icon = nonblank_value(&sec, "Icon");
    let categories = sec.get("Categories");
    let keywords = sec.get("Keywords");
    let mut parts: Vec<Vec<char>> = Vec::new();
    parts.push(crate::text::copy_chars(&name));
    parts.push(crate::text::copy_chars(&exec_line));
    let ghost p2 = char_seqs(parts@);
    assert(p2 =~= seq![name@, exec_line@]);
    match &comment {
        Some(c) => {
            parts.push(chars_of(c.as_str()));
        },
        None => {},
    }
    let ghost p3 = char_seqs(parts@);
    assert(p3 =~= p2 + opt_seq(opt_view(comment)));
    match &categories {
        Some(c) => {
            parts.push(chars_of(c.as_str()));
        },
        None => {},
    }
    let ghost p4 = char_seqs(parts@);
    assert(p4 =~= p3 + opt_seq(opt_view(categories)));
    match &keywords {
        Some(c) => {
            parts.push(chars_of(c.as_str()));
        },
        None => {},
    }
    assert(char_seqs(parts@) =~= p4 + opt_seq(opt_view(keywords)));
    let sep = vec![' '];
    proof {
        reveal_strlit(" ");
    }
    assert(sep@ =~= " "@);
    let joined = join_chars(&parts, &sep);
    let js = string_from_chars(&joined);
    let search_text = to_lowercase(js.as_str());
    Some(
        DesktopApp {
            name: string_from_chars(&name),
            exec_line: string_from_chars(&exec_line),
            icon,
            comment,
            search_text,
        },
    )
}


/// The key by which installed applications are told apart: the lower-cased name,
/// `:` and the lower-cased command.
pub open spec fn app_key(a: EntryView) -> Seq<char> {
    lowercase(a.name) + ":"@ + lowercase(a.exec_line)
}

/// Whether an application of key `k` is among `s`.
pub open spec fn has_key(s: Seq<EntryView>, k: Seq<char>) -> bool {
    exists|i: int| 0 <= i < s.len() && app_key(#[trigger] s[i]) == k
}

/// The applications without those whose key an earlier one has.
pub open spec fn dedupe(s: Seq<EntryView>) -> Seq<EntryView>
    decreases s.len(),
{
    if s.len() == 0 {
        s
    } else {
        let prev = dedupe(s.drop_last());
        if has_key(prev, app_key(s.last())) {
            prev
        } else {
            prev.push(s.last())
        }
    }
}

pub open spec fn parse_hit() -> spec_fn(Seq<char>) -> Option<EntryView> {
    |c: Seq<char>| desktop_app_spec(c)
}

/// The installed applications that desktop files describe, each key once, in the
/// order of the files.
pub open spec fn installed_apps(files: Seq<Seq<char>>) -> Seq<EntryView> {
    dedupe(filter_map(files, parse_hit()))
}

/// Sort keys by lower-cased name alone.
pub open spec fn name_keys(apps: Seq<EntryView>) -> Seq<(int, int, Seq<char>)> {
    apps.map_values(|a: EntryView| (0int, 0int, lowercase(a.name)))
}

/// The applications in the order `p` of their positions.
pub open spec fn arranged(apps: Seq<EntryView>, p: Seq<int>) -> Seq<EntryView> {
    p.map_values(|k: int| apps[k])
}

pub open spec fn entry_views(v: Seq<DesktopApp>) -> Seq<EntryView> {
    v.map_values(|a: DesktopApp| a@)
}

proof fn lemma_entry_views_push(v: Seq<DesktopApp>, x: DesktopApp)
    ensures
        entry_views(v.push(x)) == entry_views(v).push(x@),
{
    assert(entry_views(v.push(x)) =~= entry_views(v).push(x@));
}

/// The key of an application.
fn key_of(a: &DesktopApp) -> (r: Vec<char>)
    ensures
        r@ == app_key(a@),
{
    let mut k = chars_of(to_lowercase(a.name.as_str()).as_str());
    k.push(':');
    proof {
        reveal_strlit(":");
    }
    let e = chars_of(to_lowercase(a.exec_line.as_str()).as_str());
    let ghost before = k@;
    push_all(&mut k, &e);
    assert(":"@ =~= seq![':']);
    k
}

/// The installed applications that the given desktop files describe: each
/// application once by key (the first file wins), sorted by lower-cased name, and
/// otherwise in the order of the files.
pub fn load_installed_apps(files: &Vec<String>) -> (r: Vec<DesktopApp>)
    ensures
        exists|p: Seq<int>|
            is_sorted_perm(name_keys(installed_apps(views(files@))), p) && entry_views(r@)
                == #[trigger] arranged(installed_apps(views(files@)), p),
{
    let ghost fs = views(files@);
    let ghost f = parse_hit();
    let mut kept: Vec<DesktopApp> = Vec::new();
    let mut seen: Vec<Vec<char>> = Vec::new();
    assert(fs.take(0) =~= Seq::<Seq<char>>::empty());
    for i in 0..files.len()
        invariant
            fs == views(files@),
            f == parse_hit(),
            entry_views(kept@) == dedupe(filter_map(fs.take(i as int), f)),
            seen.len() == kept.len(),
            forall|j: int| 0 <= j < seen.len() ==> #[trigger] seen@[j]@ == app_key(entry_views(kept@)[j]),
    {
        proof {
            lemma_filter_map_step(fs, f, i as int);
        }
        assert(fs[i as int] == files@[i as int]@);
        match parse_desktop_file(files[i].as_str()) {
            Some(app) => {
                let ghost prev = filter_map(fs.take(i as int), f);
                let ghost kv = entry_views(kept@);
                assert(filter_map(fs.take(i + 1), f) == prev.push(app@));
                assert(prev.push(app@).drop_last() =~= prev);
                let key = key_of(&app);
                let mut found = false;
                for j in 0..seen.len()
                    invariant
                        seen.len() == kept.len(),
                        kv == entry_views(kept@),
                        forall|m: int| 0 <= m < seen.len() ==> #[trigger] seen@[m]@ == app_key(kv[m]),
                        found == exists|m: int| 0 <= m < j && app_key(kv[m]) == key@,
                {
                    if chars_eq(&seen[j], &key) {
                        found = true;
                    }
                }
                assert(found == has_key(kv, app_key(app@))) by {
                    if found {
                        let m = choose|m: int| 0 <= m < seen.len() && app_key(kv[m]) == key@;
                        assert(app_key(kv[m]) == app_key(app@));
                    }
                }
                if !found {
                    let ghost old_kept = kept@;
                    let ghost old_seen = seen@;
                    kept.push(app);
                    seen.push(key);
                    proof {
                        lemma_entry_views_push(old_kept, app);
                        assert forall|m: int| 0 <= m < seen.len() implies #[trigger] seen@[m]@ == app_key(entry_views(kept@)[m]) by {
                            if m < old_seen.len() {
                                assert(seen@[m] == old_seen[m]);
                            }
                        }
                    }
                }
            },
            None => {},
        }
    }
    proof {
        lemma_filter_map_take_all(fs, f);
    }
    let ghost apps = installed_apps(fs);
    assert(entry_views(kept@) == apps);
    let mut keys: Vec<RankKey> = Vec::new();
    for i in 0..kept.len()
        invariant
            entry_views(kept@) == apps,
            key_views(keys@) == name_keys(apps.take(i as int)),
    {
        let name_l = chars_of(to_lowercase(kept[i].name.as_str()).as_str());
        let kk = RankKey { score: 0, match_idx: 0, name: name_l };
        let ghost old_keys = keys@;
        keys.push(kk);
        proof {
            lemma_key_views_push(old_keys, kk);
        }
        assert(apps[i as int] == kept@[i as int]@);
        assert(key_views(keys@) =~= name_keys(apps.take(i + 1)));
    }
    assert(apps.take(kept.len() as int) =~= apps);
    let p = sort_indices(&keys);
    let mut out: Vec<DesktopApp> = Vec::new();
    for k in 0..p.len()
        invariant
            entry_views(kept@) == apps,
            is_sorted_perm(key_views(keys@), usize_seq(p@)),
            key_views(keys@) == name_keys(apps),
            entry_views(out@) == usize_seq(p@).take(k as int).map_values(|j: int| apps[j]),
    {
        assert(usize_seq(p@)[k as int] == p@[k as int] as int);
        let j = p[k];
        let e = kept[j].duplicate();
        let ghost old_out = out@;
        out.push(e);
        proof {
            lemma_entry_views_push(old_out, e);
            assert(apps[j as int] == kept@[j as int]@);
        }
        assert(entry_views(out@) =~= usize_seq(p@).take(k + 1).map_values(|j: int| apps[j]));
    }
    assert(usize_seq(p@).take(p.len() as int) =~= usize_seq(p@));
    assert(entry_views(out@) == arranged(apps, usize_seq(p@)));
    out
}

/// Among the installed applications no two have the same key.
pub proof fn law_installed_keys_unique(files: Seq<Seq<char>>, i: int, j: int)
    requires
        0 <= i < j < installed_apps(files).len(),
    ensures
        app_key(installed_apps(files)[i]) != app_key(installed_apps(files)[j]),
{
    lemma_dedupe_unique(filter_map(files, parse_hit()), i, j);
}

proof fn lemma_dedupe_unique(s: Seq<EntryView>, i: int, j: int)
    requires
        0 <= i < j < dedupe(s).len(),
    ensures
        app_key(dedupe(s)[i]) != app_key(dedupe(s)[j]),
    decreases s.len(),
{
    let prev = dedupe(s.drop_last());
    if has_key(prev, app_key(s.last())) {
        lemma_dedupe_unique(s.drop_last(), i, j);
    } else if j < prev.len() {
        lemma_dedupe_unique(s.drop_last(), i, j);
    } else {
        assert(dedupe(s)[i] == prev[i]);
    }
}

/// Every application that a desktop file describes is installed under its key.
pub proof fn law_installed_keys_kept(files: Seq<Seq<char>>, i: int)
    requires
        0 <= i < files.len(),
        desktop_app_spec(files[i]) is Some,
    ensures
        has_key(installed_apps(files), app_key(desktop_app_spec(files[i]).unwrap())),
{
    let f = parse_hit();
    assert(files =~= files.take(i + 1) + files.skip(i + 1));
    lemma_filter_map_step(files, f, i);
    crate::filtering::lemma_filter_map_append(files.take(i + 1), files.skip(i + 1), f);
    let a = filter_map(files.take(i + 1), f);
    lemma_dedupe_keeps_keys(a, a.len() - 1);
    lemma_dedupe_extends(a, filter_map(files.skip(i + 1), f));
}

proof fn lemma_dedupe_keeps_keys(s: Seq<EntryView>, i: int)
    requires
        0 <= i < s.len(),
    ensures
        has_key(dedupe(s), app_key(s[i])),
    decreases s.len(),
{
    let prev = dedupe(s.drop_last());
    if i < s.len() - 1 {
        lemma_dedupe_keeps_keys(s.drop_last(), i);
        let m = choose|m: int| 0 <= m < prev.len() && app_key(#[trigger] prev[m]) == app_key(s[i]);
        if !has_key(prev, app_key(s.last())) {
            assert(dedupe(s)[m] == prev[m]);
        }
    } else if !has_key(prev, app_key(s.last())) {
        assert(dedupe(s)[prev.len() as int] == s.last());
    }
}

proof fn lemma_dedupe_extends(a: Seq<EntryView>, b: Seq<EntryView>)
    ensures
        forall|k: Seq<char>| has_key(dedupe(a), k) ==> #[trigger] has_key(dedupe(a + b), k),
    decreases b.len(),
{
    if b.len() == 0 {
        assert(a + b =~= a);
    } else {
        assert((a + b).drop_last() =~= a + b.drop_last());
        lemma_dedupe_extends(a, b.drop_last());
        let prev = dedupe(a + b.drop_last());
        assert forall|k: Seq<char>| has_key(dedupe(a), k) implies #[trigger] has_key(dedupe(a + b), k) by {
            assert(has_key(prev, k));
            let m = choose|m: int| 0 <= m < prev.len() && app_key(#[trigger] prev[m]) == k;
            if !has_key(prev, app_key((a + b).last())) {
                assert(dedupe(a + b)[m] == prev[m]);
            }
        }
    }
}


/// The list of installed applications holds no two applications of the same key.
pub proof fn law_loaded_apps_keys_unique(files: Seq<Seq<char>>, p: Seq<int>, i: int, j: int)
    requires
        is_sorted_perm(name_keys(installed_apps(files)), p),
        0 <= i < j < p.len(),
    ensures
        app_key(arranged(installed_apps(files), p)[i]) != app_key(arranged(installed_apps(files), p)[j]),
{
    let apps = installed_apps(files);
    assert(p[i] != p[j]);
    if p[i] < p[j] {
        law_installed_keys_unique(files, p[i], p[j]);
    } else {
        law_installed_keys_unique(files, p[j], p[i]);
    }
}

/// The list of installed applications is sorted by lower-cased name: no
/// application's lower-cased name comes, by code point, before that of an earlier one.
pub proof fn law_loaded_apps_sorted_by_name(files: Seq<Seq<char>>, p: Seq<int>, i: int, j: int)
    requires
        is_sorted_perm(name_keys(installed_apps(files)), p),
        0 <= i < j < p.len(),
    ensures
        !crate::text::lex_lt(
            lowercase(arranged(installed_apps(files), p)[j].name),
            lowercase(arranged(installed_apps(files), p)[i].name),
        ),
{
    let apps = installed_apps(files);
    let k = name_keys(apps);
    assert(crate::sort::key_before(k, p[i], p[j]));
    let a = lowercase(apps[p[i]].name);
    let b = lowercase(apps[p[j]].name);
    assert(k[p[i]].2 == a && k[p[j]].2 == b);
    if crate::text::lex_lt(a, b) {
        crate::text::lemma_lex_lt_asymmetric(a, b);
    } else {
        crate::text::lemma_lex_lt_irreflexive(a);
    }
}


/// A key's value comes from the last pair whose key is exactly that key (so
/// `Name[de]` never answers for `Name`); a key that no pair has exactly has no value.
pub proof fn law_section_value_is_last_exact_pair(pairs: Seq<Pair>, key: Seq<char>)
    ensures
        match section_get(pairs, key) {
            Some(v) => exists|i: int|
                0 <= i < pairs.len() && #[trigger] pairs[i] == (key, v) && forall|j: int|
                    i < j < pairs.len() ==> (#[trigger] pairs[j]).0 != key,
            None => forall|i: int| 0 <= i < pairs.len() ==> (#[trigger] pairs[i]).0 != key,
        },
    decreases pairs.len(),
{
    if pairs.len() > 0 {
        let init = pairs.drop_last();
        law_section_value_is_last_exact_pair(init, key);
        if pairs.last().0 == key {
            let i = pairs.len() - 1;
            assert(pairs[i] == (key, pairs.last().1));
        } else {
            match section_get(init, key) {
                Some(v) => {
                    let i = choose|i: int|
                        0 <= i < init.len() && #[trigger] init[i] == (key, v) && forall|j: int|
                            i < j < init.len() ==> (#[trigger] init[j]).0 != key;
                    assert(pairs[i] == init[i]);
                    assert forall|j: int| i < j < pairs.len() implies (#[trigger] pairs[j]).0 != key by {
                        if j < init.len() {
                            assert(pairs[j] == init[j]);
                        }
                    }
                },
                None => {
                    assert forall|i: int| 0 <= i < pairs.len() implies (#[trigger] pairs[i]).0 != key by {
                        if i < init.len() {
                            assert(pairs[i] == init[i]);
                        }
                    }
                },
            }
        }
    }
}

/// A later line for a key sets its value; a line for any other key leaves it as it was.
pub proof fn law_section_later_line(pairs: Seq<Pair>, k: Seq<char>, v: Seq<char>, key: Seq<char>)
    ensures
        section_get(pairs.push((k, v)), key) == if k == key {
            Some(v)
        } else {
            section_get(pairs, key)
        },
{
    assert(pairs.push((k, v)).drop_last() =~= pairs);
}

} // verus!
