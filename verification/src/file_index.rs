//! The index of files under the home directory: searching it, and keeping it up to
//! date with file-system events.
use vstd::prelude::*;
use crate::text::{
    chars_of, string_from_chars, to_lowercase, trim_start_matches_chars, contains_chars, str_eq,
    starts_with_char_str, lowercase, trim_start_matches, contains, starts_with_char,
};
use crate::filtering::{filter_map, lemma_filter_map_step, lemma_filter_map_prefix, lemma_filter_map_len};
use crate::ui::{ResultItem, ResultView, result_views};

verus! {

/// Whether `c` is the name of a directory that the index leaves out.
pub open spec fn is_ignored_dir(c: Seq<char>) -> bool {
    ||| c == "node_modules"@
    ||| c == "target"@
    ||| c == ".cache"@
    ||| c == ".git"@
    ||| c == ".local"@
    ||| c == ".npm"@
    ||| c == "venv"@
    ||| c == ".venv"@
}

pub fn is_ignored_dir_name(c: &str) -> (r: bool)
    ensures
        r == is_ignored_dir(c@),
{
    str_eq(c, "node_modules") || str_eq(c, "target") || str_eq(c, ".cache") || str_eq(c, ".git")
        || str_eq(c, ".local") || str_eq(c, ".npm") || str_eq(c, "venv") || str_eq(c, ".venv")
}

/// Whether the walk of the home directory goes into, or lists, an entry of this name:
/// it is not hidden and not an ignored directory name.
pub open spec fn entry_allowed(name: Seq<char>) -> bool {
    !starts_with_char(name, '.') && !is_ignored_dir(name)
}

pub fn index_entry_allowed(name: &str) -> (r: bool)
    ensures
        r == entry_allowed(name@),
{
    !starts_with_char_str(name, '.') && !is_ignored_dir_name(name)
}

/// What a file-system event says of one path, as read when the event arrived.
pub struct PathInfo {
    /// The path, as text.
    pub path: String,
    /// Its last component, when it has one that is valid text.
    pub name: Option<String>,
    pub is_file: bool,
    pub exists: bool,
    /// Its components that are valid text.
    pub components: Vec<String>,
}

pub struct PathView {
    pub path: Seq<char>,
    pub name: Option<Seq<char>>,
    pub is_file: bool,
    pub exists: bool,
    pub components: Seq<Seq<char>>,
}

impl View for PathInfo {
    type V = PathView;

    open spec fn view(&self) -> PathView {
        PathView {
            path: self.path@,
            name: crate::domain::opt_view(self.name),
            is_file: self.is_file,
            exists: self.exists,
            components: crate::search::views(self.components@),
        }
    }
}

/// The kinds of file-system events that the index reacts to.
#[derive(Clone, Copy, Debug, PartialEq, Eq, Structural)]
pub enum FsEventKind {
    Create,
    Remove,
    /// A rename: with two paths, from the first to the second.
    Rename,
    Other,
}

pub struct FsEvent {
    pub kind: FsEventKind,
    pub paths: Vec<PathInfo>,
}

pub open spec fn path_views(v: Seq<PathInfo>) -> Seq<PathView> {
    v.map_values(|p: PathInfo| p@)
}

/// A path that the index lists: a regular file, not hidden, under no ignored directory.
pub open spec fn is_valid_file(p: PathView) -> bool {
    &&& p.is_file
    &&& p.name matches Some(n)
    &&& !starts_with_char(n, '.')
    &&& forall|k: int| 0 <= k < p.components.len() ==> !is_ignored_dir(#[trigger] p.components[k])
}

pub fn is_valid_file_info(p: &PathInfo) -> (r: bool)
    ensures
        r == is_valid_file(p@),
{
    if !p.is_file {
        return false;
    }
    match &p.name {
        Some(n) => {
            assert(p@.name == Some(n@));
            if starts_with_char_str(n.as_str(), '.') {
                return false;
            }
            for k in 0..p.components.len()
                invariant
                    forall|j: int| 0 <= j < k ==> !is_ignored_dir(#[trigger] p.components@[j]@),
            {
                if is_ignored_dir_name(p.components[k].as_str()) {
                    assert(crate::search::views(p.components@)[k as int] == p.components@[k as int]@);
                    assert(is_ignored_dir(p@.components[k as int]));
                    return false;
                }
            }
            assert forall|j: int| 0 <= j < p@.components.len() implies !is_ignored_dir(#[trigger] p@.components[j]) by {
                assert(p@.components[j] == p.components@[j]@);
            }
            true
        },
        None => false,
    }
}

pub type Entry = (Seq<char>, Seq<char>);

pub open spec fn pair_views(v: Seq<(String, String)>) -> Seq<Entry> {
    v.map_values(|p: (String, String)| (p.0@, p.1@))
}

/// Whether an entry with path `p` is in `files`.
pub open spec fn has_path(files: Seq<Entry>, p: Seq<char>) -> bool {
    exists|k: int| 0 <= k < files.len() && (#[trigger] files[k]).1 == p
}

/// `files` without the entries of path `p`.
pub open spec fn without_path(files: Seq<Entry>, p: Seq<char>) -> Seq<Entry> {
    filter_map(files, |e: Entry| if e.1 == p { None } else { Some(e) })
}

/// Adds a valid file that is not listed yet.
pub open spec fn create_step(files: Seq<Entry>, info: PathView) -> Seq<Entry> {
    if is_valid_file(info) && !has_path(files, info.path) {
        files.push((info.name.unwrap(), info.path))
    } else {
        files
    }
}

/// A path that is there again, or gone: listed if it is a valid file, else dropped.
pub open spec fn refresh_step(files: Seq<Entry>, info: PathView) -> Seq<Entry> {
    if info.exists && is_valid_file(info) {
        create_step(files, info)
    } else {
        without_path(files, info.path)
    }
}

pub open spec fn fold_create(files: Seq<Entry>, paths: Seq<PathView>) -> Seq<Entry>
    decreases paths.len(),
{
    if paths.len() == 0 {
        files
    } else {
        create_step(fold_create(files, paths.drop_last()), paths.last())
    }
}

pub open spec fn fold_remove(files: Seq<Entry>, paths: Seq<PathView>) -> Seq<Entry>
    decreases paths.len(),
{
    if paths.len() == 0 {
        files
    } else {
        without_path(fold_remove(files, paths.drop_last()), paths.last().path)
    }
}

pub open spec fn fold_refresh(files: Seq<Entry>, paths: Seq<PathView>) -> Seq<Entry>
    decreases paths.len(),
{
    if paths.len() == 0 {
        files
    } else {
        refresh_step(fold_refresh(files, paths.drop_last()), paths.last())
    }
}

/// A rename from `from` to `to`: the old path leaves, the new one is listed if it is
/// a valid file (even if already listed).
pub open spec fn rename_step(files: Seq<Entry>, from: PathView, to: PathView) -> Seq<Entry> {
    let f = without_path(files, from.path);
    if is_valid_file(to) {
        f.push((to.name.unwrap(), to.path))
    } else {
        f
    }
}

/// The index after an event.
pub open spec fn apply_event(files: Seq<Entry>, kind: FsEventKind, paths: Seq<PathView>) -> Seq<Entry> {
    match kind {
        FsEventKind::Create => fold_create(files, paths),
        FsEventKind::Remove => fold_remove(files, paths),
        FsEventKind::Rename => if paths.len() == 2 {
            rename_step(files, paths[0], paths[1])
        } else {
            fold_refresh(files, paths)
        },
        FsEventKind::Other => files,
    }
}

/// The name of a file matches when its lower-cased form contains the search text.
pub open spec fn file_hit(search: Seq<char>) -> spec_fn(Entry) -> Option<ResultView> {
    |e: Entry|
        if contains(lowercase(e.0), search) {
            Some(ResultView::File(e.0, e.1))
        } else {
            None
        }
}

/// What an entry of a listed directory says.
pub struct FolderEntry {
    /// Its name, when it is valid text.
    pub name: Option<String>,
    /// Its path, as text.
    pub path: String,
    pub is_dir: bool,
}

pub struct FolderEntryView {
    pub name: Option<Seq<char>>,
    pub path: Seq<char>,
    pub is_dir: bool,
}

impl View for FolderEntry {
    type V = FolderEntryView;

    open spec fn view(&self) -> FolderEntryView {
        FolderEntryView {
            name: crate::domain::opt_view(self.name),
            path: self.path@,
            is_dir: self.is_dir,
        }
    }
}

pub open spec fn folder_views(v: Seq<FolderEntry>) -> Seq<FolderEntryView> {
    v.map_values(|e: FolderEntry| e@)
}

/// A directory matches when its lower-cased name contains the search text.
pub open spec fn folder_hit(search: Seq<char>) -> spec_fn(FolderEntryView) -> Option<ResultView> {
    |e: FolderEntryView|
        if e.is_dir && e.name is Some && contains(lowercase(e.name.unwrap()), search) {
            Some(ResultView::Folder(e.name.unwrap(), e.path))
        } else {
            None
        }
}

/// The search text of a file query: without its leading `//`s, lower-cased.
pub open spec fn file_search_text(query: Seq<char>) -> Seq<char> {
    lowercase(trim_start_matches(query, seq!['/', '/']))
}

/// The position of the last `c` in `s`, or -1 when there is none.
pub open spec fn last_index_of(s: Seq<char>, c: char) -> int
    decreases s.len(),
{
    if s.len() == 0 {
        -1
    } else if s.last() == c {
        s.len() - 1
    } else {
        last_index_of(s.drop_last(), c)
    }
}

/// The directory that a folder query names: the query up to and including its last
/// `/` (so `/usr/lo` names `/usr/`, and `/bin` names `/`).
pub open spec fn folder_dir(query: Seq<char>) -> Seq<char> {
    query.take(last_index_of(query, '/') + 1)
}

/// The search text of a folder query: what follows its last `/`, lower-cased (so
/// `/usr/Lo` looks for `lo` in `/usr/`).
pub open spec fn folder_search_text(query: Seq<char>) -> Seq<char> {
    lowercase(query.skip(last_index_of(query, '/') + 1))
}

/// The position just after the last `/` of `q`.
fn after_last_slash(q: &Vec<char>) -> (r: usize)
    ensures
        r as int == last_index_of(q@, '/') + 1,
        r <= q.len(),
{
    let mut i = q.len();
    assert(q@.take(i as int) =~= q@);
    while i > 0
        invariant
            i <= q.len(),
            last_index_of(q@, '/') == last_index_of(q@.take(i as int), '/'),
        decreases i,
    {
        assert(q@.take(i as int).drop_last() =~= q@.take(i - 1));
        assert(q@.take(i as int).last() == q@[i - 1]);
        if q[i - 1] == '/' {
            return i;
        }
        i -= 1;
    }
    i
}

/// The directory that a folder query names, to be listed for it.
pub fn folder_query_dir(query: &str) -> (r: String)
    ensures
        r@ == folder_dir(query@),
{
    let q = chars_of(query);
    let k = after_last_slash(&q);
    let d = crate::text::sub_chars(&q, 0, k);
    assert(d@ =~= folder_dir(query@));
    string_from_chars(&d)
}

/// The lower-cased text after the last `/` of a folder query.
fn folder_filter(query: &str) -> (r: Vec<char>)
    ensures
        r@ == folder_search_text(query@),
{
    let q = chars_of(query);
    let k = after_last_slash(&q);
    let rest = crate::text::sub_chars(&q, k, q.len());
    assert(rest@ =~= query@.skip(last_index_of(query@, '/') + 1));
    let l = to_lowercase(string_from_chars(&rest).as_str());
    chars_of(l.as_str())
}

pub open spec fn min(a: int, b: int) -> int {
    if a <= b {
        a
    } else {
        b
    }
}

/// The file entries that a file query lists: the matches in index order, at most
/// `limit` of them, and at most one when `limit` is 0.
pub open spec fn ranked_files(files: Seq<Entry>, query: Seq<char>, limit: int) -> Seq<ResultView> {
    let m = filter_map(files, file_hit(file_search_text(query)));
    m.take(min(if limit == 0 { 1 } else { limit }, m.len() as int))
}

/// The folder entries that a folder query lists: the matching directories in order,
/// at most `limit` of them; with `limit` 0, those among the first entry only.
pub open spec fn ranked_folders(es: Seq<FolderEntryView>, query: Seq<char>, limit: int) -> Seq<ResultView> {
    let f = folder_hit(folder_search_text(query));
    let m = filter_map(es, f);
    if limit == 0 {
        filter_map(es.take(min(1, es.len() as int)), f)
    } else {
        m.take(min(limit, m.len() as int))
    }
}

/// The lower-cased search text of `query` without the leading repeats of `prefix`.
fn search_text(query: &str, prefix: &Vec<char>) -> (r: Vec<char>)
    ensures
        r@ == lowercase(trim_start_matches(query@, prefix@)),
{
    let q = chars_of(query);
    let t = trim_start_matches_chars(&q, prefix);
    let ts = string_from_chars(&t);
    let l = to_lowercase(ts.as_str());
    chars_of(l.as_str())
}

/// Whether the lower-cased `name` contains `search`.
fn name_matches(name: &str, search: &Vec<char>) -> (r: bool)
    ensures
        r == contains(lowercase(name@), search@),
{
    let l = to_lowercase(name);
    let lv = chars_of(l.as_str());
    contains_chars(&lv, search)
}

/// The files and folders that can be searched.
pub struct FileIndex {
    files: Vec<(String, String)>,
}

impl View for FileIndex {
    type V = Seq<Entry>;

    closed spec fn view(&self) -> Seq<Entry> {
        pair_views(self.files@)
    }
}

impl FileIndex {
    /// An index of the given `(name, path)` entries, in that order.
    pub fn new(files: Vec<(String, String)>) -> (r: Self)
        ensures
            r@ == pair_views(files@),
    {
        FileIndex { files }
    }

    /// The number of listed files.
    pub fn len(&self) -> (r: usize)
        ensures
            r == self@.len(),
    {
        self.files.len()
    }

    /// Whether an entry of path `p` is listed.
    pub fn has_path(&self, p: &String) -> (r: bool)
        ensures
            r == has_path(self@, p@),
    {
        for i in 0..self.files.len()
            invariant
                forall|k: int| 0 <= k < i ==> (#[trigger] self@[k]).1 != p@,
        {
            assert(self@[i as int] == (self.files@[i as int].0@, self.files@[i as int].1@));
            if self.files[i].1 == *p {
                return true;
            }
        }
        false
    }

    /// Drops the entries of path `p`.
    fn remove_path(&mut self, p: &String)
        ensures
            final(self)@ == without_path(old(self)@, p@),
    {
        let ghost start = self@;
        let ghost f = |e: Entry| if e.1 == p@ { None } else { Some(e) };
        let mut kept: Vec<(String, String)> = Vec::new();
        assert(start.take(0) =~= Seq::<Entry>::empty());
        for i in 0..self.files.len()
            invariant
                start == self@,
                f == (|e: Entry| if e.1 == p@ { None } else { Some(e) }),
                pair_views(kept@) == filter_map(start.take(i as int), f),
        {
            proof {
                lemma_filter_map_step(start, f, i as int);
            }
            assert(start[i as int] == (self.files@[i as int].0@, self.files@[i as int].1@));
            if self.files[i].1 == *p {
            } else {
                let e = (self.files[i].0.clone(), self.files[i].1.clone());
                let ghost old_kept = kept@;
                kept.push(e);
                assert(pair_views(kept@) =~= pair_views(old_kept).push(start[i as int]));
            }
        }
        proof {
            crate::filtering::lemma_filter_map_take_all(start, f);
        }
        self.files = kept;
    }

    /// Lists `(name, path)` last.
    fn add_entry(&mut self, name: String, path: String)
        ensures
            final(self)@ == old(self)@.push((name@, path@)),
    {
        let ghost start = self@;
        self.files.push((name, path));
        assert(self@ =~= start.push((name@, path@)));
    }

    /// Lists a valid file that is not listed yet.
    fn create_path(&mut self, info: &PathInfo)
        ensures
            final(self)@ == create_step(old(self)@, info@),
    {
        if is_valid_file_info(info) && !self.has_path(&info.path) {
            match &info.name {
                Some(name) => {
                    self.add_entry(name.clone(), info.path.clone());
                },
                None => {},
            }
        }
    }

    /// Brings the entry of a path up to date with what the file system says of it.
    fn refresh_path(&mut self, info: &PathInfo)
        ensures
            final(self)@ == refresh_step(old(self)@, info@),
    {
        if info.exists && is_valid_file_info(info) {
            self.create_path(info);
        } else {
            self.remove_path(&info.path);
        }
    }

    /// Updates the index after a file-system event: created valid files are listed
    /// (once), removed paths leave, a rename of two paths moves the entry, and a rename
    /// with other paths brings each of them up to date.
    pub fn handle_event(&mut self, event: &FsEvent)
        ensures
            final(self)@ == apply_event(old(self)@, event.kind, path_views(event.paths@)),
    {
        let ghost start = self@;
        let ghost ps = path_views(event.paths@);
        let n = event.paths.len();
        assert(ps.take(0) =~= Seq::<PathView>::empty());
        match event.kind {
            FsEventKind::Create => {
                for k in 0..n
                    invariant
                        n == event.paths.len(),
                        ps == path_views(event.paths@),
                        self@ == fold_create(start, ps.take(k as int)),
                {
                    assert(ps.take(k + 1).drop_last() =~= ps.take(k as int));
                    self.create_path(&event.paths[k]);
                }
                assert(ps.take(n as int) =~= ps);
            },
            FsEventKind::Remove => {
                for k in 0..n
                    invariant
                        n == event.paths.len(),
                        ps == path_views(event.paths@),
                        self@ == fold_remove(start, ps.take(k as int)),
                {
                    assert(ps.take(k + 1).drop_last() =~= ps.take(k as int));
                    self.remove_path(&event.paths[k].path);
                }
                assert(ps.take(n as int) =~= ps);
            },
            FsEventKind::Rename => {
                if n == 2 {
                    let from = &event.paths[0];
                    let to = &event.paths[1];
                    self.remove_path(&from.path);
                    if is_valid_file_info(to) {
                        match &to.name {
                            Some(name) => {
                                self.add_entry(name.clone(), to.path.clone());
                            },
                            None => {},
                        }
                    }
                } else {
                    for k in 0..n
                        invariant
                            n == event.paths.len(),
                            ps == path_views(event.paths@),
                            self@ == fold_refresh(start, ps.take(k as int)),
                    {
                        assert(ps.take(k + 1).drop_last() =~= ps.take(k as int));
                        self.refresh_path(&event.paths[k]);
                    }
                    assert(ps.take(n as int) =~= ps);
                }
            },
            FsEventKind::Other => {},
        }
    }

    /// The files whose lower-cased name contains the lower-cased query (without its
    /// leading `//`s), in index order; at most `limit` of them, and at most one when
    /// `limit` is 0 (the first match is taken before the limit is looked at).
    pub fn rank_files(&self, query: &str, limit: usize) -> (r: Vec<ResultItem>)
        ensures
            result_views(r@) == ranked_files(self@, query@, limit as int),
    {
        let ghost files = self@;
        let ghost f = file_hit(file_search_text(query@));
        let ghost m = filter_map(files, f);
        let ghost cap: int = if limit == 0 {
            1
        } else {
            limit as int
        };
        let prefix = vec!['/', '/'];
        assert(prefix@ =~= seq!['/', '/']);
        let search = search_text(query, &prefix);
        let n = self.files.len();
        let mut results: Vec<ResultItem> = Vec::new();
        let mut i: usize = 0;
        assert(files.take(0) =~= Seq::<Entry>::empty());
        while i < n
            invariant
                n == self.files.len(),
                files == self@,
                files == pair_views(self.files@),
                f == file_hit(search@),
                f == file_hit(file_search_text(query@)),
                m == filter_map(files, f),
                cap == (if limit == 0 { 1 } else { limit as int }),
                i <= n,
                result_views(results@) == filter_map(files.take(i as int), f),
                results.len() < cap,
            decreases n - i,
        {
            proof {
                lemma_filter_map_step(files, f, i as int);
            }
            let name = &self.files[i].0;
            let path = &self.files[i].1;
            assert(files[i as int] == (name@, path@));
            if name_matches(name.as_str(), &search) {
                let ghost old_results = results@;
                results.push(ResultItem::File { name: name.clone(), path: path.clone() });
                assert(result_views(results@) =~= result_views(old_results).push(ResultView::File(name@, path@)));
                assert(result_views(results@) == filter_map(files.take(i + 1), f));
                if results.len() >= limit {
                    proof {
                        lemma_filter_map_prefix(files, f, i + 1);
                        assert(results.len() == cap);
                        assert(result_views(results@).len() == results.len());
                        assert(min(cap, m.len() as int) == cap);
                    }
                    return results;
                }
            }
            i += 1;
        }
        proof {
            crate::filtering::lemma_filter_map_take_all(files, f);
        }
        results
    }

    /// The directories among `entries` whose lower-cased name contains the lower-cased
    /// text after the query's last `/`, in order. The entries are looked at until
    /// `limit` results are found (with `limit` 0, only the first entry is looked at).
    pub fn rank_folders(&self, query: &str, entries: &Vec<FolderEntry>, limit: usize) -> (r: Vec<ResultItem>)
        ensures
            result_views(r@) == ranked_folders(folder_views(entries@), query@, limit as int),
    {
        let ghost es = folder_views(entries@);
        let ghost f = folder_hit(folder_search_text(query@));
        let search = folder_filter(query);
        let n = entries.len();
        let mut results: Vec<ResultItem> = Vec::new();
        let mut i: usize = 0;
        assert(es.take(0) =~= Seq::<FolderEntryView>::empty());
        while i < n
            invariant
                n == entries.len(),
                es == folder_views(entries@),
                f == folder_hit(search@),
                f == folder_hit(folder_search_text(query@)),
                i <= n,
                result_views(results@) == filter_map(es.take(i as int), f),
                i > 0 ==> results.len() < limit,
            decreases n - i,
        {
            proof {
                lemma_filter_map_step(es, f, i as int);
            }
            let e = &entries[i];
            assert(es[i as int] == e@);
            if e.is_dir {
                match &e.name {
                    Some(name) => {
                        if name_matches(name.as_str(), &search) {
                            let ghost old_results = results@;
                            results.push(ResultItem::Folder { name: name.clone(), path: e.path.clone() });
                            assert(result_views(results@) =~= result_views(old_results).push(
                                ResultView::Folder(name@, e.path@),
                            ));
                        }
                    },
                    None => {},
                }
            }
            if results.len() >= limit {
                proof {
                    lemma_filter_map_prefix(es, f, i + 1);
                    assert(result_views(results@).len() == results.len());
                    if limit == 0 {
                        assert(min(1, es.len() as int) == i + 1);
                    } else {
                        assert(results.len() == limit);
                    }
                }
                return results;
            }
            i += 1;
        }
        proof {
            crate::filtering::lemma_filter_map_take_all(es, f);
            lemma_filter_map_len(es.take(0), f);
        }
        results
    }
}


// ---------------------------------------------------------------------------
// What events do to the listed paths
// ---------------------------------------------------------------------------

/// No path is listed twice.
pub open spec fn unique_paths(files: Seq<Entry>) -> bool {
    forall|i: int, j: int|
        0 <= i < j < files.len() ==> (#[trigger] files[i]).1 != (#[trigger] files[j]).1
}

proof fn lemma_has_path_push(files: Seq<Entry>, e: Entry, q: Seq<char>)
    ensures
        has_path(files.push(e), q) <==> (has_path(files, q) || e.1 == q),
{
    let fs = files.push(e);
    if has_path(files, q) {
        let k = choose|k: int| 0 <= k < files.len() && (#[trigger] files[k]).1 == q;
        assert(fs[k] == files[k]);
    }
    if has_path(fs, q) && !(e.1 == q) {
        let k = choose|k: int| 0 <= k < fs.len() && (#[trigger] fs[k]).1 == q;
        assert(k < files.len());
        assert(files[k] == fs[k]);
    }
    if e.1 == q {
        assert(fs[files.len() as int] == e);
    }
}

proof fn lemma_has_path_drop_last(files: Seq<Entry>, q: Seq<char>)
    requires
        files.len() > 0,
    ensures
        has_path(files, q) <==> (has_path(files.drop_last(), q) || files.last().1 == q),
{
    assert(files =~= files.drop_last().push(files.last()));
    lemma_has_path_push(files.drop_last(), files.last(), q);
}

proof fn lemma_unique_push(files: Seq<Entry>, e: Entry)
    requires
        unique_paths(files),
        !has_path(files, e.1),
    ensures
        unique_paths(files.push(e)),
{
    let fs = files.push(e);
    assert forall|i: int, j: int| 0 <= i < j < fs.len() implies (#[trigger] fs[i]).1 != (
    #[trigger] fs[j]).1 by {
        if j == files.len() {
            assert(fs[i] == files[i]);
        } else {
            assert(fs[i] == files[i] && fs[j] == files[j]);
        }
    }
}

/// Dropping a path leaves every other path as it was, and keeps paths unique.
proof fn lemma_without_path(files: Seq<Entry>, p: Seq<char>, q: Seq<char>)
    ensures
        has_path(without_path(files, p), q) <==> (has_path(files, q) && q != p),
        unique_paths(files) ==> unique_paths(without_path(files, p)),
    decreases files.len(),
{
    if files.len() == 0 {
        assert(!has_path(files, q));
        assert(!has_path(without_path(files, p), q));
    } else {
        let init = files.drop_last();
        let e = files.last();
        lemma_without_path(init, p, q);
        lemma_without_path(init, p, e.1);
        lemma_has_path_drop_last(files, q);
        if e.1 != p {
            lemma_has_path_push(without_path(init, p), e, q);
            if unique_paths(files) {
                assert(unique_paths(init)) by {
                    assert forall|i: int, j: int| 0 <= i < j < init.len() implies (
                    #[trigger] init[i]).1 != (#[trigger] init[j]).1 by {
                        assert(init[i] == files[i] && init[j] == files[j]);
                    }
                }
                assert(!has_path(init, e.1)) by {
                    if has_path(init, e.1) {
                        let k = choose|k: int| 0 <= k < init.len() && (#[trigger] init[k]).1 == e.1;
                        assert(files[k] == init[k]);
                        assert(files[files.len() - 1] == e);
                    }
                }
                lemma_unique_push(without_path(init, p), e);
            }
        } else {
            if unique_paths(files) {
                assert forall|i: int, j: int| 0 <= i < j < init.len() implies (
                #[trigger] init[i]).1 != (#[trigger] init[j]).1 by {
                    assert(init[i] == files[i] && init[j] == files[j]);
                }
            }
        }
    }
}

proof fn lemma_create_step(files: Seq<Entry>, info: PathView, q: Seq<char>)
    ensures
        has_path(create_step(files, info), q) <==> (has_path(files, q) || (is_valid_file(info)
            && q == info.path)),
        unique_paths(files) ==> unique_paths(create_step(files, info)),
{
    if is_valid_file(info) && !has_path(files, info.path) {
        lemma_has_path_push(files, (info.name.unwrap(), info.path), q);
        if unique_paths(files) {
            lemma_unique_push(files, (info.name.unwrap(), info.path));
        }
    }
}

proof fn lemma_fold_create(files: Seq<Entry>, paths: Seq<PathView>, q: Seq<char>)
    ensures
        has_path(fold_create(files, paths), q) <==> (has_path(files, q) || exists|k: int|
            0 <= k < paths.len() && is_valid_file(#[trigger] paths[k]) && paths[k].path == q),
        unique_paths(files) ==> unique_paths(fold_create(files, paths)),
    decreases paths.len(),
{
    if paths.len() > 0 {
        let init = paths.drop_last();
        lemma_fold_create(files, init, q);
        lemma_create_step(fold_create(files, init), paths.last(), q);
        if exists|k: int| 0 <= k < paths.len() && is_valid_file(#[trigger] paths[k]) && paths[k].path == q {
            let k = choose|k: int| 0 <= k < paths.len() && is_valid_file(#[trigger] paths[k]) && paths[k].path == q;
            if k < init.len() {
                assert(init[k] == paths[k]);
            }
        }
        if exists|k: int| 0 <= k < init.len() && is_valid_file(#[trigger] init[k]) && init[k].path == q {
            let k = choose|k: int| 0 <= k < init.len() && is_valid_file(#[trigger] init[k]) && init[k].path == q;
            assert(init[k] == paths[k]);
        }
    }
}

proof fn lemma_fold_remove(files: Seq<Entry>, paths: Seq<PathView>, q: Seq<char>)
    ensures
        has_path(fold_remove(files, paths), q) <==> (has_path(files, q) && forall|k: int|
            0 <= k < paths.len() ==> (#[trigger] paths[k]).path != q),
        unique_paths(files) ==> unique_paths(fold_remove(files, paths)),
    decreases paths.len(),
{
    if paths.len() > 0 {
        let init = paths.drop_last();
        lemma_fold_remove(files, init, q);
        lemma_without_path(fold_remove(files, init), paths.last().path, q);
        if forall|k: int| 0 <= k < init.len() ==> (#[trigger] init[k]).path != q {
            if paths.last().path != q {
                assert forall|k: int| 0 <= k < paths.len() implies (#[trigger] paths[k]).path != q by {
                    if k < init.len() {
                        assert(init[k] == paths[k]);
                    }
                }
            }
        }
        if forall|k: int| 0 <= k < paths.len() ==> (#[trigger] paths[k]).path != q {
            assert forall|k: int| 0 <= k < init.len() implies (#[trigger] init[k]).path != q by {
                assert(init[k] == paths[k]);
            }
            assert(paths[paths.len() - 1].path != q);
        }
    }
}

proof fn lemma_fold_refresh_unique(files: Seq<Entry>, paths: Seq<PathView>)
    requires
        unique_paths(files),
    ensures
        unique_paths(fold_refresh(files, paths)),
    decreases paths.len(),
{
    if paths.len() > 0 {
        let init = paths.drop_last();
        lemma_fold_refresh_unique(files, init);
        let prev = fold_refresh(files, init);
        let info = paths.last();
        if info.exists && is_valid_file(info) {
            lemma_create_step(prev, info, info.path);
        } else {
            lemma_without_path(prev, info.path, info.path);
        }
    }
}

/// A create event lists each valid file among its paths, and keeps every path that
/// was listed: afterwards a path is listed exactly when it was before or it is one of
/// the event's valid files.
pub proof fn law_create_lists_valid_files(files: Seq<Entry>, paths: Seq<PathView>, q: Seq<char>)
    ensures
        has_path(apply_event(files, FsEventKind::Create, paths), q) <==> (has_path(files, q)
            || exists|k: int|
            0 <= k < paths.len() && is_valid_file(#[trigger] paths[k]) && paths[k].path == q),
{
    lemma_fold_create(files, paths, q);
}

/// A remove event drops its paths and nothing else: afterwards a path is listed
/// exactly when it was before and the event does not name it.
pub proof fn law_remove_drops_paths(files: Seq<Entry>, paths: Seq<PathView>, q: Seq<char>)
    ensures
        has_path(apply_event(files, FsEventKind::Remove, paths), q) <==> (has_path(files, q)
            && forall|k: int| 0 <= k < paths.len() ==> (#[trigger] paths[k]).path != q),
{
    lemma_fold_remove(files, paths, q);
}

/// A rename from one path to another drops the old path and lists the new one when
/// it is a valid file; other paths stay as they were.
pub proof fn law_rename_moves_entry(files: Seq<Entry>, from: PathView, to: PathView, q: Seq<char>)
    ensures
        has_path(apply_event(files, FsEventKind::Rename, seq![from, to]), q) <==> (
        (has_path(files, q) && q != from.path) || (is_valid_file(to) && q == to.path)),
{
    let f = without_path(files, from.path);
    lemma_without_path(files, from.path, q);
    if is_valid_file(to) {
        lemma_has_path_push(f, (to.name.unwrap(), to.path), q);
    }
}

/// Events keep every path listed at most once, except a rename of two paths onto a
/// valid file that is listed already under another path: that one is listed again.
pub proof fn law_events_keep_paths_unique(files: Seq<Entry>, kind: FsEventKind, paths: Seq<PathView>)
    requires
        unique_paths(files),
        !(kind == FsEventKind::Rename && paths.len() == 2 && is_valid_file(paths[1])
            && paths[1].path != paths[0].path && has_path(files, paths[1].path)),
    ensures
        unique_paths(apply_event(files, kind, paths)),
{
    match kind {
        FsEventKind::Create => {
            lemma_fold_create(files, paths, seq![]);
        },
        FsEventKind::Remove => {
            lemma_fold_remove(files, paths, seq![]);
        },
        FsEventKind::Rename => {
            if paths.len() == 2 {
                let from = paths[0];
                let to = paths[1];
                let f = without_path(files, from.path);
                lemma_without_path(files, from.path, to.path);
                if is_valid_file(to) {
                    lemma_unique_push(f, (to.name.unwrap(), to.path));
                }
            } else {
                lemma_fold_refresh_unique(files, paths);
            }
        },
        FsEventKind::Other => {},
    }
}


/// Every entry that a file query lists is a listed file whose lower-cased name
/// contains the query's search text.
pub proof fn law_listed_files_match(files: Seq<Entry>, query: Seq<char>, limit: int, i: int)
    requires
        0 <= limit,
        0 <= i < ranked_files(files, query, limit).len(),
    ensures
        ranked_files(files, query, limit)[i] matches ResultView::File(name, path) && files.contains(
            (name, path),
        ) && contains(lowercase(name), file_search_text(query)),
{
    let f = file_hit(file_search_text(query));
    let m = filter_map(files, f);
    assert(ranked_files(files, query, limit)[i] == m[i]);
    crate::filtering::lemma_filter_map_member(files, f, i);
    let k = choose|k: int| 0 <= k < files.len() && #[trigger] f(files[k]) == Some(m[i]);
    assert(files[k] == (files[k].0, files[k].1));
}

/// Every entry that a folder query lists is a directory among the given entries
/// whose lower-cased name contains the query's search text.
pub proof fn law_listed_folders_match(es: Seq<FolderEntryView>, query: Seq<char>, limit: int, i: int)
    requires
        0 <= limit,
        0 <= i < ranked_folders(es, query, limit).len(),
    ensures
        ranked_folders(es, query, limit)[i] matches ResultView::Folder(name, path) && exists|k: int|
            0 <= k < es.len() && (#[trigger] es[k]).is_dir && es[k].name == Some(name) && es[k].path
                == path && contains(lowercase(name), folder_search_text(query)),
{
    let f = folder_hit(folder_search_text(query));
    let m = filter_map(es, f);
    if limit == 0 {
        let pre = es.take(min(1, es.len() as int));
        crate::filtering::lemma_filter_map_member(pre, f, i);
        let k = choose|k: int| 0 <= k < pre.len() && #[trigger] f(pre[k]) == Some(filter_map(pre, f)[i]);
        assert(pre[k] == es[k]);
    } else {
        assert(ranked_folders(es, query, limit)[i] == m[i]);
        crate::filtering::lemma_filter_map_member(es, f, i);
        let k = choose|k: int| 0 <= k < es.len() && #[trigger] f(es[k]) == Some(m[i]);
    }
}


/// A valid file that a create event lists is found by a file query that its
/// lower-cased name contains, as the last match, while fewer than `limit` listed
/// files match.
pub proof fn law_created_file_is_found(files: Seq<Entry>, info: PathView, query: Seq<char>, limit: int)
    requires
        is_valid_file(info),
        !has_path(files, info.path),
        contains(lowercase(info.name.unwrap()), file_search_text(query)),
        filter_map(files, file_hit(file_search_text(query))).len() < limit,
    ensures
        ranked_files(apply_event(files, FsEventKind::Create, seq![info]), query, limit).last()
            == ResultView::File(info.name.unwrap(), info.path),
{
    let f = file_hit(file_search_text(query));
    let e = (info.name.unwrap(), info.path);
    let ps = seq![info];
    assert(ps.drop_last() =~= Seq::<PathView>::empty());
    assert(ps.last() == info);
    assert(fold_create(files, ps.drop_last()) == files);
    assert(fold_create(files, ps) == files.push(e));
    assert(files.push(e).drop_last() =~= files);
    let m = filter_map(files.push(e), f);
    assert(m == filter_map(files, f).push(ResultView::File(e.0, e.1)));
    assert(m.take(min(if limit == 0 { 1 } else { limit }, m.len() as int)) =~= m);
}

/// After a remove event, a file query lists none of the removed paths.
pub proof fn law_removed_files_are_not_found(
    files: Seq<Entry>,
    paths: Seq<PathView>,
    query: Seq<char>,
    limit: int,
    i: int,
    k: int,
)
    requires
        0 <= limit,
        0 <= i < ranked_files(apply_event(files, FsEventKind::Remove, paths), query, limit).len(),
        0 <= k < paths.len(),
    ensures
        ranked_files(apply_event(files, FsEventKind::Remove, paths), query, limit)[i] matches ResultView::File(
            _,
            path,
        ) && path != paths[k].path,
{
    let after = apply_event(files, FsEventKind::Remove, paths);
    law_listed_files_match(after, query, limit, i);
    let r = ranked_files(after, query, limit)[i];
    let j = choose|j: int| 0 <= j < after.len() && after[j] == (r->File_0, r->File_1);
    assert(has_path(after, r->File_1));
    law_remove_drops_paths(files, paths, r->File_1);
}


/// A match at position `k` of `s` is kept within the first `k + 1` kept values.
proof fn lemma_filter_map_keeps<A, B>(s: Seq<A>, f: spec_fn(A) -> Option<B>, k: int, x: B)
    requires
        0 <= k < s.len(),
        f(s[k]) == Some(x),
    ensures
        ({
            let n = filter_map(s.take(k + 1), f).len();
            &&& 1 <= n <= k + 1
            &&& n <= filter_map(s, f).len()
            &&& filter_map(s, f)[n - 1] == x
        }),
{
    lemma_filter_map_step(s, f, k);
    lemma_filter_map_len(s.take(k), f);
    lemma_filter_map_prefix(s, f, k + 1);
    let pre = filter_map(s.take(k + 1), f);
    assert(pre[pre.len() - 1] == x);
    assert(filter_map(s, f).take(pre.len() as int)[pre.len() - 1] == filter_map(s, f)[pre.len() - 1]);
}

/// Every directory among the first `limit` entries whose name, lower-cased, contains
/// the query's search text is listed, whatever its name (hidden ones too).
pub proof fn law_folder_query_lists_every_match(es: Seq<FolderEntryView>, query: Seq<char>, limit: int, k: int)
    requires
        0 <= k < es.len(),
        k < limit,
        es[k].is_dir,
        es[k].name is Some,
        contains(lowercase(es[k].name.unwrap()), folder_search_text(query)),
    ensures
        ranked_folders(es, query, limit).contains(ResultView::Folder(es[k].name.unwrap(), es[k].path)),
{
    let f = folder_hit(folder_search_text(query));
    let x = ResultView::Folder(es[k].name.unwrap(), es[k].path);
    lemma_filter_map_keeps(es, f, k, x);
    let m = filter_map(es, f);
    let n = filter_map(es.take(k + 1), f).len();
    let r = ranked_folders(es, query, limit);
    assert(r == m.take(min(limit, m.len() as int)));
    assert(r[n - 1] == x);
}

/// Every listed file among the first `limit` entries whose name, lower-cased,
/// contains the query's search text is found.
pub proof fn law_file_query_lists_every_match(files: Seq<Entry>, query: Seq<char>, limit: int, k: int)
    requires
        0 <= k < files.len(),
        k < limit,
        contains(lowercase(files[k].0), file_search_text(query)),
    ensures
        ranked_files(files, query, limit).contains(ResultView::File(files[k].0, files[k].1)),
{
    let f = file_hit(file_search_text(query));
    let x = ResultView::File(files[k].0, files[k].1);
    lemma_filter_map_keeps(files, f, k, x);
    let m = filter_map(files, f);
    let n = filter_map(files.take(k + 1), f).len();
    let r = ranked_files(files, query, limit);
    assert(r == m.take(min(limit, m.len() as int)));
    assert(r[n - 1] == x);
}

} // verus!
