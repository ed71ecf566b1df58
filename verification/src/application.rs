//! The launcher: ranking installed applications against a query.
use vstd::prelude::*;
use crate::domain::{DesktopApp, AppView};
use crate::file_index::{
    FileIndex, FolderEntry, FolderEntryView, FsEvent, min, ranked_files, ranked_folders, folder_views,
};
use crate::filtering::{filter_map, lemma_filter_map_step};
use crate::search::{score, score_spec};
use crate::sort::{RankKey, key_views, sort_indices, is_sorted_perm, usize_seq, lemma_key_views_push, key_before};
use crate::text::{chars_of, to_lowercase, trim_str, lowercase, trim};
use crate::ui::{ResultItem, ResultView, result_views, QueryKind, query_kind, query_kind_spec, RESULT_LIMIT};
use crate::browser::{
    looks_like_url, normalize_url, build_search_url, looks_like_url_spec, normalize_url_spec,
    search_url, parse_exec, exec_parts,
};

verus! {

/// An application that matched a query, with its score and the index of the term
/// that matched.
pub struct RankedApp {
    pub app: DesktopApp,
    pub score: i64,
    pub match_idx: usize,
}

impl View for RankedApp {
    type V = (AppView, int, int);

    open spec fn view(&self) -> (AppView, int, int) {
        (self.app@, self.score as int, self.match_idx as int)
    }
}

impl RankedApp {
    /// A copy of this entry.
    pub fn duplicate(&self) -> (r: RankedApp)
        ensures
            r@ == self@,
    {
        RankedApp { app: self.app.duplicate(), score: self.score, match_idx: self.match_idx }
    }
}

pub open spec fn app_views(v: Seq<DesktopApp>) -> Seq<AppView> {
    v.map_values(|a: DesktopApp| a@)
}

pub open spec fn ranked_views(v: Seq<RankedApp>) -> Seq<(AppView, int, int)> {
    v.map_values(|r: RankedApp| r@)
}

proof fn lemma_ranked_views_push(v: Seq<RankedApp>, x: RankedApp)
    ensures
        ranked_views(v.push(x)) == ranked_views(v).push(x@),
{
    assert(ranked_views(v.push(x)) =~= ranked_views(v).push(x@));
}


/// An application matches the (trimmed) query when it scores.
pub open spec fn app_hit(q: Seq<char>) -> spec_fn(AppView) -> Option<(AppView, int, int)> {
    |a: AppView|
        match score_spec(q, a.search_terms, a.normalized_terms) {
            Some(m) => Some((a, m.0, m.1)),
            None => None,
        }
}

/// The applications that match the query, in their order, with score and term index.
pub open spec fn candidates(apps: Seq<AppView>, q: Seq<char>) -> Seq<(AppView, int, int)> {
    filter_map(apps, app_hit(q))
}

/// The sort keys of the matches: score, term index, lower-cased name.
pub open spec fn candidate_keys(c: Seq<(AppView, int, int)>) -> Seq<(int, int, Seq<char>)> {
    c.map_values(|x: (AppView, int, int)| (x.1, x.2, lowercase(x.0.name)))
}

/// The result of ranking `apps` against `query`, given the sorted order `p` of the
/// matches (`is_sorted_perm` admits one order only).
pub open spec fn ranking(apps: Seq<AppView>, query: Seq<char>, limit: int, p: Seq<int>) -> Seq<(AppView, int, int)> {
    let q = trim(query);
    if q.len() == 0 {
        apps.take(min(limit, apps.len() as int)).map_values(|a: AppView| (a, 0int, 0int))
    } else {
        let c = candidates(apps, q);
        p.take(min(limit, c.len() as int)).map_values(|k: int| c[k])
    }
}

/// The address that a web search for `query` opens: none for a blank query; the
/// completed address when the trimmed query looks like one; else the search address
/// of the trimmed query, from the template when there is one.
pub open spec fn web_search_target(query: Seq<char>, template: Option<Seq<char>>) -> Option<Seq<char>> {
    let q = trim(query);
    if q.len() == 0 {
        None
    } else if looks_like_url_spec(q) {
        Some(normalize_url_spec(q))
    } else {
        Some(search_url(q, template))
    }
}

/// The number of applications an application query lists: one less than the
/// list's limit, leaving room for the web search entry.
pub open spec fn app_rank_limit(limit: int) -> int {
    if limit > 0 {
        limit - 1
    } else {
        0
    }
}

/// The result entries of ranked applications.
pub open spec fn app_entries(s: Seq<(AppView, int, int)>) -> Seq<ResultView> {
    s.map_values(|x: (AppView, int, int)| ResultView::App(x.0, x.1, x.2))
}

/// Whether `p` is the order of the matches of the (twice trimmed) query.
pub open spec fn app_order(apps: Seq<AppView>, query: Seq<char>, p: Seq<int>) -> bool {
    trim(trim(query)).len() > 0 ==> is_sorted_perm(candidate_keys(candidates(apps, trim(trim(query)))), p)
}

/// The entries of an application query, given the order `p` of the matches: the
/// ranked applications, then the web search for the trimmed query.
pub open spec fn app_listing(apps: Seq<AppView>, query: Seq<char>, limit: int, p: Seq<int>) -> Seq<ResultView> {
    app_entries(ranking(apps, trim(query), app_rank_limit(limit), p)) + seq![ResultView::WebSearch(trim(query))]
}

/// The result list of a query, given the order `p` of the matching applications: the
/// files that a `//` query matches or the directories among `entries` that a `/`
/// query matches, at most `RESULT_LIMIT` of them; or the applications that any other
/// query matches, at most one less than `RESULT_LIMIT`; then the web search for the
/// trimmed query.
pub open spec fn search_listing(
    files: Seq<(Seq<char>, Seq<char>)>,
    entries: Seq<FolderEntryView>,
    apps: Seq<AppView>,
    query: Seq<char>,
    p: Seq<int>,
) -> Seq<ResultView> {
    let t = trim(query);
    match query_kind_spec(query) {
        QueryKind::Files => ranked_files(files, t, RESULT_LIMIT as int) + seq![ResultView::WebSearch(t)],
        QueryKind::Folders => ranked_folders(entries, t, RESULT_LIMIT as int) + seq![ResultView::WebSearch(t)],
        QueryKind::Apps => app_listing(apps, t, RESULT_LIMIT as int, p),
    }
}

/// What activating a result entry does.
pub enum Activation {
    /// Runs a program: the program and its arguments (nothing when empty).
    Launch { argv: Vec<String> },
    /// Opens a file or folder with its default application.
    Open { path: String },
    /// Opens an address in the web browser (nothing when there is none).
    Browse { url: Option<String> },
}

pub enum ActivationView {
    Launch(Seq<Seq<char>>),
    Open(Seq<char>),
    Browse(Option<Seq<char>>),
}

impl View for Activation {
    type V = ActivationView;

    open spec fn view(&self) -> ActivationView {
        match self {
            Activation::Launch { argv } => ActivationView::Launch(crate::search::views(argv@)),
            Activation::Open { path } => ActivationView::Open(path@),
            Activation::Browse { url } => ActivationView::Browse(crate::domain::opt_view(*url)),
        }
    }
}

/// The launcher: the installed applications, the file index and the web search
/// template.
pub struct Launcher {
    apps: Vec<DesktopApp>,
    file_index: FileIndex,
    search_template: Option<String>,
}

impl Launcher {
    /// The installed applications.
    pub closed spec fn apps_view(&self) -> Seq<AppView> {
        app_views(self.apps@)
    }

    /// The file index.
    pub closed spec fn index_view(&self) -> Seq<(Seq<char>, Seq<char>)> {
        self.file_index@
    }

    /// The web search template, if one was configured.
    pub closed spec fn template_view(&self) -> Option<Seq<char>> {
        crate::domain::opt_view(self.search_template)
    }

    /// A launcher over `apps`, with a file index and an optional web search template.
    pub fn new(apps: Vec<DesktopApp>, file_index: FileIndex, search_template: Option<String>) -> (r: Self)
        ensures
            r.apps_view() == app_views(apps@),
            r.index_view() == file_index@,
            r.template_view() == crate::domain::opt_view(search_template),
    {
        Launcher { apps, file_index, search_template }
    }

    /// The web search template, if one was configured.
    pub fn search_template(&self) -> (r: Option<&str>)
        ensures
            r matches Some(t) ==> self.template_view() == Some(t@),
            r is None ==> self.template_view() is None,
    {
        match &self.search_template {
            Some(t) => Some(t.as_str()),
            None => None,
        }
    }

    /// The number of installed applications.
    pub fn app_count(&self) -> (r: usize)
        ensures
            r == self.apps_view().len(),
    {
        self.apps.len()
    }

    /// The applications that match `query`, best first, at most `limit` of them.
    /// A blank query gives the first `limit` applications, in order, with score 0.
    /// Otherwise the matches are ordered by score (higher first), then by the index of
    /// the matching term (lower first), then by lower-cased name, and otherwise keep
    /// their order.
    pub fn rank(&self, query: &str, limit: usize) -> (r: Vec<RankedApp>)
        ensures
            exists|p: Seq<int>|
                (trim(query@).len() > 0 ==> is_sorted_perm(
                    candidate_keys(candidates(self.apps_view(), trim(query@))),
                    p,
                )) && ranked_views(r@) == #[trigger] ranking(self.apps_view(), query@, limit as int, p),
    {
        let ghost apps = self.apps_view();
        let q = trim_str(query);
        let qv = chars_of(q.as_str());
        let n = self.apps.len();
        if qv.len() == 0 {
            let m = if limit < n {
                limit
            } else {
                n
            };
            let mut out: Vec<RankedApp> = Vec::new();
            for k in 0..m
                invariant
                    m <= n == self.apps.len(),
                    apps == self.apps_view(),
                    ranked_views(out@) == apps.take(k as int).map_values(|a: AppView| (a, 0int, 0int)),
            {
                let e = RankedApp { app: self.apps[k].duplicate(), score: 0, match_idx: 0 };
                let ghost old_out = out@;
                out.push(e);
                assert(apps[k as int] == self.apps@[k as int]@);
                proof {
                    lemma_ranked_views_push(old_out, e);
                }
                assert(ranked_views(out@) =~= apps.take(k + 1).map_values(|a: AppView| (a, 0int, 0int)));
            }
            let ghost p = Seq::<int>::empty();
            assert(ranked_views(out@) == ranking(apps, query@, limit as int, p));
            return out;
        }
        let ghost f = app_hit(q@);
        let mut cands: Vec<RankedApp> = Vec::new();
        let mut keys: Vec<RankKey> = Vec::new();
        assert(apps.take(0) =~= Seq::<AppView>::empty());
        for i in 0..n
            invariant
                n == self.apps.len(),
                apps == self.apps_view(),
                f == app_hit(q@),
                ranked_views(cands@) == filter_map(apps.take(i as int), f),
                key_views(keys@) == candidate_keys(ranked_views(cands@)),
        {
            proof {
                lemma_filter_map_step(apps, f, i as int);
            }
            let a = &self.apps[i];
            assert(apps[i as int] == a@);
            match score(q.as_str(), a.search_terms.as_slice(), a.normalized_terms.as_slice()) {
                Some(ms) => {
                    let ln = to_lowercase(a.name.as_str());
                    let name_l = chars_of(ln.as_str());
                    let ghost old_c = cands@;
                    let ghost old_k = keys@;
                    let e = RankedApp { app: a.duplicate(), score: ms.score, match_idx: ms.start_idx };
                    let kk = RankKey { score: ms.score, match_idx: ms.start_idx, name: name_l };
                    cands.push(e);
                    keys.push(kk);
                    proof {
                        lemma_ranked_views_push(old_c, e);
                        lemma_key_views_push(old_k, kk);
                        assert(candidate_keys(ranked_views(old_c).push(e@)) =~= candidate_keys(
                            ranked_views(old_c),
                        ).push(kk@));
                    }
                    assert(ranked_views(cands@) == ranked_views(old_c).push((a@, ms.score as int, ms.start_idx as int)));
                },
                None => {},
            }
        }
        proof {
            crate::filtering::lemma_filter_map_take_all(apps, f);
        }
        let ghost c = ranked_views(cands@);
        let p = sort_indices(&keys);
        let nc = cands.len();
        let m = if limit < nc {
            limit
        } else {
            nc
        };
        let mut out: Vec<RankedApp> = Vec::new();
        for k in 0..m
            invariant
                m <= nc == cands.len(),
                c == ranked_views(cands@),
                is_sorted_perm(key_views(keys@), usize_seq(p@)),
                key_views(keys@) == candidate_keys(c),
                ranked_views(out@) == usize_seq(p@).take(k as int).map_values(|j: int| c[j]),
        {
            assert(usize_seq(p@)[k as int] == p@[k as int] as int);
            let j = p[k];
            let e = cands[j].duplicate();
            let ghost old_out = out@;
            out.push(e);
            proof {
                lemma_ranked_views_push(old_out, e);
                assert(c[j as int] == cands@[j as int]@);
            }
            assert(ranked_views(out@) =~= usize_seq(p@).take(k + 1).map_values(|j: int| c[j]));
        }
        assert(ranked_views(out@) == ranking(apps, query@, limit as int, usize_seq(p@)));
        out
    }

    /// The entries of an application query: the ranked applications (at most one
    /// less than `limit`), and last the web search for the trimmed query, which is
    /// always offered.
    pub fn app_results(&self, query: &str, limit: usize) -> (r: Vec<ResultItem>)
        ensures
            exists|p: Seq<int>|
                app_order(self.apps_view(), query@, p) && result_views(r@) == #[trigger] app_listing(
                    self.apps_view(),
                    query@,
                    limit as int,
                    p,
                ),
    {
        let q = trim_str(query);
        let lim = if limit > 0 {
            limit - 1
        } else {
            0
        };
        let ranked = self.rank(q.as_str(), lim);
        let ghost p = choose|p: Seq<int>|
            (trim(q@).len() > 0 ==> is_sorted_perm(candidate_keys(candidates(self.apps_view(), trim(q@))), p))
                && ranked_views(ranked@) == #[trigger] ranking(self.apps_view(), q@, lim as int, p);
        let ghost rv = ranked_views(ranked@);
        let mut out: Vec<ResultItem> = Vec::new();
        for k in 0..ranked.len()
            invariant
                rv == ranked_views(ranked@),
                out.len() == k,
                result_views(out@) == app_entries(rv.take(k as int)),
        {
            let e = ResultItem::App(ranked[k].duplicate());
            let ghost old_out = out@;
            out.push(e);
            proof {
                crate::ui::lemma_result_views_push(old_out, e);
            }
            assert(rv[k as int] == ranked@[k as int]@);
            assert(result_views(out@) =~= app_entries(rv.take(k + 1)));
        }
        assert(rv.take(ranked.len() as int) =~= rv);
        let ghost before = out@;
        let w = ResultItem::WebSearch { query: q };
        out.push(w);
        proof {
            crate::ui::lemma_result_views_push(before, w);
        }
        assert(result_views(out@) =~= result_views(before) + seq![ResultView::WebSearch(trim(query@))]);
        assert(lim as int == app_rank_limit(limit as int));
        assert(app_order(self.apps_view(), query@, p) && result_views(out@) == app_listing(
            self.apps_view(),
            query@,
            limit as int,
            p,
        ));
        out
    }

    /// The result list of a query, by what its trimmed form starts with: `//` lists
    /// the matching files and `/` the matching directories among `entries` (the
    /// entries of the directory that the query names), at most `RESULT_LIMIT` of
    /// them; anything else lists at most one less matching applications. Each list
    /// ends with the web search for the trimmed query, which is always offered.
    pub fn results(&self, query: &str, entries: &Vec<FolderEntry>) -> (r: Vec<ResultItem>)
        ensures
            exists|p: Seq<int>|
                (query_kind_spec(query@) == QueryKind::Apps ==> app_order(self.apps_view(), trim(query@), p))
                    && result_views(r@) == #[trigger] search_listing(
                    self.index_view(),
                    folder_views(entries@),
                    self.apps_view(),
                    query@,
                    p,
                ),
    {
        let q = trim_str(query);
        let ghost files = self.index_view();
        let ghost es = folder_views(entries@);
        let ghost apps = self.apps_view();
        match query_kind(query) {
            QueryKind::Files => {
                let mut r = self.rank_files(q.as_str(), RESULT_LIMIT);
                let ghost before = r@;
                let w = ResultItem::WebSearch { query: q.clone() };
                r.push(w);
                proof {
                    crate::ui::lemma_result_views_push(before, w);
                }
                assert(result_views(r@) == search_listing(files, es, apps, query@, Seq::<int>::empty()));
                r
            },
            QueryKind::Folders => {
                let mut r = self.rank_folders(q.as_str(), entries, RESULT_LIMIT);
                let ghost before = r@;
                let w = ResultItem::WebSearch { query: q.clone() };
                r.push(w);
                proof {
                    crate::ui::lemma_result_views_push(before, w);
                }
                assert(result_views(r@) == search_listing(files, es, apps, query@, Seq::<int>::empty()));
                r
            },
            QueryKind::Apps => {
                let r = self.app_results(q.as_str(), RESULT_LIMIT);
                let ghost p = choose|p: Seq<int>|
                    app_order(apps, q@, p) && result_views(r@) == #[trigger] app_listing(
                        apps,
                        q@,
                        RESULT_LIMIT as int,
                        p,
                    );
                assert(result_views(r@) == search_listing(files, es, apps, query@, p));
                r
            },
        }
    }

    /// What activating a result entry does: an application runs its command line
    /// (without field codes), a file or folder opens, a web search entry browses to
    /// the address of its query.
    pub fn activate(&self, item: &ResultItem) -> (r: Activation)
        ensures
            match item@ {
                ResultView::App(a, _, _) => r@ == ActivationView::Launch(exec_parts(a.exec_line)),
                ResultView::Folder(_, path) => r@ == ActivationView::Open(path),
                ResultView::File(_, path) => r@ == ActivationView::Open(path),
                ResultView::WebSearch(q) => r@ == ActivationView::Browse(web_search_target(q, self.template_view())),
            },
    {
        match item {
            ResultItem::App(ranked) => Activation::Launch { argv: parse_exec(ranked.app.exec_line.as_str()) },
            ResultItem::Folder { path, .. } => Activation::Open { path: path.clone() },
            ResultItem::File { path, .. } => Activation::Open { path: path.clone() },
            ResultItem::WebSearch { query } => Activation::Browse { url: self.web_search(query.as_str()) },
        }
    }

    /// The address to open for a web search of `query`, if any.
    pub fn web_search(&self, query: &str) -> (r: Option<String>)
        ensures
            crate::domain::opt_view(r) == web_search_target(query@, self.template_view()),
    {
        let q = trim_str(query);
        if chars_of(q.as_str()).len() == 0 {
            return None;
        }
        if looks_like_url(q.as_str()) {
            let u = normalize_url(q.as_str());
            Some(u)
        } else {
            let t = self.search_template();
            Some(build_search_url(q.as_str(), t))
        }
    }

    /// The files whose name contains the query: see `FileIndex::rank_files`.
    pub fn rank_files(&self, query: &str, limit: usize) -> (r: Vec<ResultItem>)
        ensures
            result_views(r@) == ranked_files(self.index_view(), query@, limit as int),
    {
        self.file_index.rank_files(query, limit)
    }

    /// The directories among `entries` whose name contains the query: see
    /// `FileIndex::rank_folders`.
    pub fn rank_folders(&self, query: &str, entries: &Vec<FolderEntry>, limit: usize) -> (r: Vec<ResultItem>)
        ensures
            result_views(r@) == ranked_folders(folder_views(entries@), query@, limit as int),
    {
        self.file_index.rank_folders(query, entries, limit)
    }

    /// Updates the file index after a file-system event: see `FileIndex::handle_event`.
    pub fn handle_file_event(&mut self, event: &FsEvent)
        ensures
            final(self).index_view() == crate::file_index::apply_event(
                old(self).index_view(),
                event.kind,
                crate::file_index::path_views(event.paths@),
            ),
            final(self).apps_view() == old(self).apps_view(),
            final(self).template_view() == old(self).template_view(),
    {
        self.file_index.handle_event(event);
    }
}


// ---------------------------------------------------------------------------
// Laws
// ---------------------------------------------------------------------------

/// An application query always offers the web search for its trimmed text, as its
/// last entry, and lists no more entries than the limit (one when the limit is 0).
pub proof fn law_web_search_always_offered(apps: Seq<AppView>, query: Seq<char>, limit: int, p: Seq<int>)
    requires
        limit >= 0,
        app_order(apps, query, p),
    ensures
        app_listing(apps, query, limit, p).len() >= 1,
        app_listing(apps, query, limit, p).last() == ResultView::WebSearch(trim(query)),
        app_listing(apps, query, limit, p).len() <= if limit > 0 { limit } else { 1 },
{
    let l = app_listing(apps, query, limit, p);
    let r = ranking(apps, trim(query), app_rank_limit(limit), p);
    let q = trim(trim(query));
    if q.len() > 0 {
        crate::filtering::lemma_filter_map_len(apps, app_hit(q));
    }
    assert(r.len() <= app_rank_limit(limit));
    assert(l[l.len() - 1] == ResultView::WebSearch(trim(query)));
}

/// Every query offers the web search, whatever it matches among applications, files
/// or folders: the result list ends with the web search for the trimmed query, after
/// at most `RESULT_LIMIT` files or folders, or at most one less applications; and
/// when the query is not blank, that entry has an address to open.
pub proof fn law_every_query_offers_web_search(
    files: Seq<(Seq<char>, Seq<char>)>,
    entries: Seq<FolderEntryView>,
    apps: Seq<AppView>,
    query: Seq<char>,
    p: Seq<int>,
    template: Option<Seq<char>>,
)
    requires
        query_kind_spec(query) == QueryKind::Apps ==> app_order(apps, trim(query), p),
    ensures
        search_listing(files, entries, apps, query, p).len() >= 1,
        search_listing(files, entries, apps, query, p).len() <= RESULT_LIMIT + 1,
        query_kind_spec(query) == QueryKind::Apps ==> search_listing(files, entries, apps, query, p).len()
            <= RESULT_LIMIT,
        search_listing(files, entries, apps, query, p).last() == ResultView::WebSearch(trim(query)),
        trim(query).len() > 0 ==> web_search_target(trim(query), template) is Some,
{
    let t = trim(query);
    crate::browser::law_trim_idempotent(query);
    if query_kind_spec(query) == QueryKind::Apps {
        law_web_search_always_offered(apps, t, RESULT_LIMIT as int, p);
    } else {
        let l = search_listing(files, entries, apps, query, p);
        assert(l[l.len() - 1] == ResultView::WebSearch(t));
    }
}

/// A query that looks like an address opens that address, completed with `https://`
/// when it has no scheme, whatever the search template.
pub proof fn law_address_queries_open_the_address(query: Seq<char>, template: Option<Seq<char>>)
    requires
        trim(query).len() > 0,
        looks_like_url_spec(trim(query)),
    ensures
        web_search_target(query, template) == Some(normalize_url_spec(trim(query))),
{
}

/// Every application that a non-blank query ranks matches that query, with the
/// score and term index it is listed with.
pub proof fn law_ranked_apps_match(apps: Seq<AppView>, query: Seq<char>, limit: int, p: Seq<int>, i: int)
    requires
        trim(query).len() > 0,
        0 <= limit,
        is_sorted_perm(candidate_keys(candidates(apps, trim(query))), p),
        0 <= i < ranking(apps, query, limit, p).len(),
    ensures
        ({
            let e = ranking(apps, query, limit, p)[i];
            &&& apps.contains(e.0)
            &&& score_spec(trim(query), e.0.search_terms, e.0.normalized_terms) == Some((e.1, e.2))
        }),
{
    let q = trim(query);
    let c = candidates(apps, q);
    let x = p[i];
    crate::filtering::lemma_filter_map_member(apps, app_hit(q), x);
    let k = choose|k: int| 0 <= k < apps.len() && #[trigger] app_hit(q)(apps[k]) == Some(c[x]);
    assert(ranking(apps, query, limit, p)[i] == c[x]);
    assert(apps[k] == c[x].0);
}

/// The applications that a non-blank query ranks come best first: by score, higher
/// first, and at equal score by the index of the matching term, lower first.
pub proof fn law_ranked_apps_best_first(apps: Seq<AppView>, query: Seq<char>, limit: int, p: Seq<int>, i: int, j: int)
    requires
        trim(query).len() > 0,
        0 <= limit,
        is_sorted_perm(candidate_keys(candidates(apps, trim(query))), p),
        0 <= i < j < ranking(apps, query, limit, p).len(),
    ensures
        ({
            let r = ranking(apps, query, limit, p);
            r[i].1 > r[j].1 || (r[i].1 == r[j].1 && r[i].2 <= r[j].2)
        }),
{
    let c = candidates(apps, trim(query));
    let k = candidate_keys(c);
    assert(key_before(k, p[i], p[j]));
    assert(ranking(apps, query, limit, p)[i] == c[p[i]]);
    assert(ranking(apps, query, limit, p)[j] == c[p[j]]);
}


/// At equal score and equal matching term, ranked applications come in order of
/// lower-cased name (by code point): a later one's lower-cased name never comes
/// before an earlier one's.
pub proof fn law_ranked_ties_by_lowercased_name(
    apps: Seq<AppView>,
    query: Seq<char>,
    limit: int,
    p: Seq<int>,
    i: int,
    j: int,
)
    requires
        trim(query).len() > 0,
        0 <= limit,
        is_sorted_perm(candidate_keys(candidates(apps, trim(query))), p),
        0 <= i < j < ranking(apps, query, limit, p).len(),
        ranking(apps, query, limit, p)[i].1 == ranking(apps, query, limit, p)[j].1,
        ranking(apps, query, limit, p)[i].2 == ranking(apps, query, limit, p)[j].2,
    ensures
        !crate::text::lex_lt(
            lowercase(ranking(apps, query, limit, p)[j].0.name),
            lowercase(ranking(apps, query, limit, p)[i].0.name),
        ),
{
    let c = candidates(apps, trim(query));
    let k = candidate_keys(c);
    assert(key_before(k, p[i], p[j]));
    assert(ranking(apps, query, limit, p)[i] == c[p[i]]);
    assert(ranking(apps, query, limit, p)[j] == c[p[j]]);
    let a = lowercase(c[p[i]].0.name);
    let b = lowercase(c[p[j]].0.name);
    assert(k[p[i]].2 == a && k[p[j]].2 == b);
    if crate::text::lex_lt(a, b) {
        crate::text::lemma_lex_lt_asymmetric(a, b);
    } else {
        crate::text::lemma_lex_lt_irreflexive(a);
    }
}

/// A query that is not blank and not an address is searched with the configured
/// template, whether it has a `{query}` place, a `%s` place or neither: the encoded
/// trimmed query fills every `{query}` if there is one, else every `%s`, else it is
/// appended to the template.
pub proof fn law_web_search_uses_the_template(query: Seq<char>, t: Seq<char>)
    requires
        trim(query).len() > 0,
        !looks_like_url_spec(trim(query)),
    ensures
        web_search_target(query, Some(t)) == Some(
            if crate::text::contains(t, "{query}"@) {
                crate::text::replace_all(t, "{query}"@, crate::browser::url_encode(trim(query)))
            } else if crate::text::contains(t, "%s"@) {
                crate::text::replace_all(t, "%s"@, crate::browser::url_encode(trim(query)))
            } else {
                t + crate::browser::url_encode(trim(query))
            },
        ),
{
}

} // verus!
