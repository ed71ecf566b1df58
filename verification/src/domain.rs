//! An installed application as the launcher sees it.
use vstd::prelude::*;
use crate::search::views;

verus! {

/// An application: its name, command line, icon, and the terms it is found by.
#[derive(Clone, Debug)]
pub struct DesktopApp {
    pub name: String,
    pub exec_line: String,
    pub icon: Option<String>,
    pub search_terms: Vec<String>,
    pub normalized_terms: Vec<String>,
}

/// The contents of a `DesktopApp`.
pub struct AppView {
    pub name: Seq<char>,
    pub exec_line: Seq<char>,
    pub icon: Option<Seq<char>>,
    pub search_terms: Seq<Seq<char>>,
    pub normalized_terms: Seq<Seq<char>>,
}

pub open spec fn opt_view(o: Option<String>) -> Option<Seq<char>> {
    match o {
        Some(s) => Some(s@),
        None => None,
    }
}

impl View for DesktopApp {
    type V = AppView;

    open spec fn view(&self) -> AppView {
        AppView {
            name: self.name@,
            exec_line: self.exec_line@,
            icon: opt_view(self.icon),
            search_terms: views(self.search_terms@),
            normalized_terms: views(self.normalized_terms@),
        }
    }
}

/// A copy of a list of strings.
pub fn copy_strings(v: &Vec<String>) -> (r: Vec<String>)
    ensures
        views(r@) == views(v@),
{
    let mut r: Vec<String> = Vec::new();
    for i in 0..v.len()
        invariant
            r.len() == i,
            views(r@) == views(v@.take(i as int)),
    {
        let s = v[i].clone();
        assert(s@ == v@[i as int]@);
        let ghost old_r = r@;
        r.push(s);
        assert(r@ == old_r.push(s));
        assert forall|k: int| 0 <= k < i + 1 implies #[trigger] views(r@)[k] == views(
            v@.take(i + 1),
        )[k] by {
            if k < i {
                assert(views(old_r)[k] == views(v@.take(i as int))[k]);
                assert(r@[k] == old_r[k]);
            }
        }
        assert(views(r@) =~= views(v@.take(i + 1)));
    }
    assert(v@.take(v.len() as int) =~= v@);
    r
}

/// A copy of an optional string.
pub fn copy_opt(o: &Option<String>) -> (r: Option<String>)
    ensures
        opt_view(r) == opt_view(*o),
{
    match o {
        Some(s) => Some(s.clone()),
        None => None,
    }
}

impl DesktopApp {
    /// A copy of this application.
    pub fn duplicate(&self) -> (r: DesktopApp)
        ensures
            r@ == self@,
    {
        DesktopApp {
            name: self.name.clone(),
            exec_line: self.exec_line.clone(),
            icon: copy_opt(&self.icon),
            search_terms: copy_strings(&self.search_terms),
            normalized_terms: copy_strings(&self.normalized_terms),
        }
    }
}

} // verus!
