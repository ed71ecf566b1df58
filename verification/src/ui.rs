//! The launcher's result list and the choices made on it.
use vstd::prelude::*;
use crate::application::RankedApp;
use crate::domain::AppView;
use crate::text::{
    chars_of, string_from_chars, trim_str, to_lowercase, byte_len, starts_with_chars, push_str_chars,
    trim, lowercase, starts_with,
};
use vstd::utf8::encode_utf8;

verus! {

/// An entry of the result list.
pub enum ResultItem {
    App(RankedApp),
    Folder { name: String, path: String },
    File { name: String, path: String },
    WebSearch { query: String },
}

/// The contents of a result entry.
pub enum ResultView {
    App(AppView, int, int),
    Folder(Seq<char>, Seq<char>),
    File(Seq<char>, Seq<char>),
    WebSearch(Seq<char>),
}

impl View for ResultItem {
    type V = ResultView;

    open spec fn view(&self) -> ResultView {
        match self {
            ResultItem::App(r) => ResultView::App(r.app@, r.score as int, r.match_idx as int),
            ResultItem::Folder { name, path } => ResultView::Folder(name@, path@),
            ResultItem::File { name, path } => ResultView::File(name@, path@),
            ResultItem::WebSearch { query } => ResultView::WebSearch(query@),
        }
    }
}

pub open spec fn result_views(v: Seq<ResultItem>) -> Seq<ResultView> {
    v.map_values(|r: ResultItem| r@)
}

pub proof fn lemma_result_views_push(v: Seq<ResultItem>, x: ResultItem)
    ensures
        result_views(v.push(x)) == result_views(v).push(x@),
{
    assert(result_views(v.push(x)) =~= result_views(v).push(x@));
}


/// The number of entries the result list shows.
pub const RESULT_LIMIT: usize = 9;

/// What a query searches.
#[derive(Clone, Copy, Debug, PartialEq, Eq, Structural)]
pub enum QueryKind {
    /// A query starting with `//`: files.
    Files,
    /// A query starting with `/` (but not `//`): folders.
    Folders,
    /// Any other query: applications, and the web.
    Apps,
}

/// What the trimmed query searches, by its leading slashes.
pub open spec fn query_kind_spec(query: Seq<char>) -> QueryKind {
    let t = trim(query);
    if starts_with(t, seq!['/', '/']) {
        QueryKind::Files
    } else if starts_with(t, seq!['/']) {
        QueryKind::Folders
    } else {
        QueryKind::Apps
    }
}

/// What a query searches.
pub fn query_kind(query: &str) -> (r: QueryKind)
    ensures
        r == query_kind_spec(query@),
{
    let t = chars_of(trim_str(query).as_str());
    let two = vec!['/', '/'];
    let one = vec!['/'];
    assert(two@ =~= seq!['/', '/']);
    assert(one@ =~= seq!['/']);
    if starts_with_chars(&t, &two) {
        QueryKind::Files
    } else if starts_with_chars(&t, &one) {
        QueryKind::Folders
    } else {
        QueryKind::Apps
    }
}

/// The label of the web search entry: `Browse web` for an empty query, else
/// `Search web for '<query>'`.
pub open spec fn web_search_label_spec(query: Seq<char>) -> Seq<char> {
    if query.len() == 0 {
        "Browse web"@
    } else {
        "Search web for '"@ + query + "'"@
    }
}

pub fn web_search_label(query: &str) -> (r: String)
    ensures
        r@ == web_search_label_spec(query@),
{
    if chars_of(query).len() == 0 {
        return string_from_chars(&chars_of("Browse web"));
    }
    let mut v = chars_of("Search web for '");
    push_str_chars(&mut v, query);
    push_str_chars(&mut v, "'");
    string_from_chars(&v)
}

/// Whether the result list is shown: the trimmed query is not empty and there are
/// results.
pub fn should_reveal(query: &str, result_count: usize) -> (r: bool)
    ensures
        r == (trim(query@).len() > 0 && result_count > 0),
{
    chars_of(trim_str(query).as_str()).len() > 0 && result_count > 0
}

/// The row selected after moving by `delta` from row `current` in a list of `total`
/// rows: none in an empty list, else `current + delta` kept within the rows.
pub open spec fn next_selection_spec(current: int, delta: int, total: int) -> Option<int> {
    if total == 0 {
        None
    } else {
        let t = current + delta;
        Some(
            if t < 0 {
                0
            } else if t > total - 1 {
                total - 1
            } else {
                t
            },
        )
    }
}

/// The row to select after a move by `delta`.
pub fn next_selection(current: i32, delta: i32, total: usize) -> (r: Option<i32>)
    requires
        i32::MIN <= current + delta <= i32::MAX,
        total <= i32::MAX + 1,
    ensures
        match next_selection_spec(current as int, delta as int, total as int) {
            Some(n) => r == Some(n as i32),
            None => r is None,
        },
{
    if total == 0 {
        return None;
    }
    let last = (total - 1) as i32;
    let t = current + delta;
    Some(
        if t < 0 {
            0
        } else if t > last {
            last
        } else {
            t
        },
    )
}

/// The byte length of the part of `text` that the label highlights: the length of
/// `query` when it is not empty and the lower-cased `text` starts with the
/// lower-cased `query`; nothing else is highlighted.
pub open spec fn highlight_len_spec(text: Seq<char>, query: Seq<char>) -> Option<int> {
    if query.len() > 0 && starts_with(lowercase(text), lowercase(query)) {
        Some(encode_utf8(query).len() as int)
    } else {
        None
    }
}

pub fn highlight_len(text: &str, query: &str) -> (r: Option<usize>)
    ensures
        match highlight_len_spec(text@, query@) {
            Some(n) => r == Some(n as usize),
            None => r is None,
        },
{
    let q = chars_of(query);
    if q.len() == 0 {
        return None;
    }
    let lt = chars_of(to_lowercase(text).as_str());
    let lq = chars_of(to_lowercase(query).as_str());
    if starts_with_chars(&lt, &lq) {
        Some(byte_len(query))
    } else {
        None
    }
}


/// The width of the launcher window.
pub const WINDOW_WIDTH: i32 = 580;

/// Where an overlay window sits on a monitor of the given size: its left margin
/// centres the window (`(width - WINDOW_WIDTH) / 2`) and its top margin is a third
/// of the height, each at least 0.
pub open spec fn layer_margins_spec(width: int, height: int) -> (int, int) {
    (
        if width - WINDOW_WIDTH > 0 { (width - WINDOW_WIDTH) / 2 } else { 0 },
        if height > 0 { height / 3 } else { 0 },
    )
}

/// The left and top margins of the overlay window on a monitor of the given size.
pub fn layer_margins(width: i32, height: i32) -> (r: (i32, i32))
    requires
        width - WINDOW_WIDTH >= i32::MIN,
    ensures
        r.0 as int == layer_margins_spec(width as int, height as int).0,
        r.1 as int == layer_margins_spec(width as int, height as int).1,
{
    let d = width - WINDOW_WIDTH;
    let left = if d > 0 {
        d / 2
    } else {
        0
    };
    let top = if height > 0 {
        height / 3
    } else {
        0
    };
    (left, top)
}

} // verus!
