//! The GitLab resource-resolution logic: deciding group vs. project from
//! fetched listings, and the pagination protocol (page-count header, ordered
//! merge of concurrently fetched pages).
//!
//! The HTTP traffic itself is performed by the embedding program; every
//! decision on the fetched data is made here.

use crate::uri_meta::{join_slash, views_of};
use vstd::prelude::*;

verus! {

/// Listing metadata of a group or project. Exactly one of `full_path`
/// (groups) and `path_with_namespace` (projects) is populated; that is the
/// sole discriminator between the two kinds.
#[derive(Debug, Default)]
pub struct GitlabResourceMeta {
    pub id: u32,
    pub full_path: Option<String>,
    pub path_with_namespace: Option<String>,
}

/// A CI/CD variable of a group or project.
#[derive(Debug, Default)]
pub struct GitlabVariable {
    pub key: String,
    pub value: String,
    pub description: Option<String>,
}

/// The characters of an optional string.
pub open spec fn opt_view(o: Option<String>) -> Option<Seq<char>> {
    match o {
        Some(s) => Some(s@),
        None => None,
    }
}

/// The mathematical content of a [`GitlabResourceMeta`].
pub open spec fn meta_view(m: GitlabResourceMeta) -> (u32, Option<Seq<char>>, Option<Seq<char>>) {
    (m.id, opt_view(m.full_path), opt_view(m.path_with_namespace))
}

/// The mathematical content of a [`GitlabVariable`].
pub open spec fn var_view(v: GitlabVariable) -> (Seq<char>, Seq<char>, Option<Seq<char>>) {
    (v.key@, v.value@, opt_view(v.description))
}

/// Clones an optional string, preserving its characters.
fn clone_opt_string(o: &Option<String>) -> (r: Option<String>)
    ensures
        opt_view(r) == opt_view(*o),
{
    match o {
        Some(s) => Some(s.clone()),
        None => None,
    }
}

impl GitlabResourceMeta {
    /// A copy with the same content.
    pub fn duplicate(&self) -> (r: Self)
        ensures
            meta_view(r) == meta_view(*self),
    {
        GitlabResourceMeta {
            id: self.id,
            full_path: clone_opt_string(&self.full_path),
            path_with_namespace: clone_opt_string(&self.path_with_namespace),
        }
    }
}

impl GitlabVariable {
    /// A copy with the same content.
    pub fn duplicate(&self) -> (r: Self)
        ensures
            var_view(r) == var_view(*self),
    {
        GitlabVariable {
            key: self.key.clone(),
            value: self.value.clone(),
            description: clone_opt_string(&self.description),
        }
    }
}

/// Whether a group entry's full path equals `path`.
pub open spec fn group_matches(m: GitlabResourceMeta, path: Seq<char>) -> bool {
    opt_view(m.full_path) == Some(path)
}

/// Whether a project entry's namespaced path equals `path`.
pub open spec fn project_matches(m: GitlabResourceMeta, path: Seq<char>) -> bool {
    opt_view(m.path_with_namespace) == Some(path)
}

/// The failure modes of resolution and of the pagination protocol.
#[derive(PartialEq, Eq, Structural, Clone, Copy, Debug)]
pub enum GapiError {
    NotPaged,
    BadPageCount,
    NoContainingGroup,
    NoResource,
}

impl GapiError {
    /// A human-readable description of the failure.
    pub fn message(&self) -> (r: String)
        ensures
            *self == GapiError::NotPaged ==> r@ == "expected paged result but got something else"@,
            *self == GapiError::NoContainingGroup ==> r@ == "no containing group found"@,
            *self == GapiError::NoResource ==> r@ == "found no gitlab resource"@,
            *self == GapiError::BadPageCount ==> r@ == "malformed page count"@,
    {
        match self {
            GapiError::NotPaged => "expected paged result but got something else".to_owned(),
            GapiError::BadPageCount => "malformed page count".to_owned(),
            GapiError::NoContainingGroup => "no containing group found".to_owned(),
            GapiError::NoResource => "found no gitlab resource".to_owned(),
        }
    }
}

/// The index of the first group entry whose full path equals `path`.
fn find_group(groups: &Vec<GitlabResourceMeta>, path: &String) -> (r: Option<usize>)
    ensures
        match r {
            Some(i) => i < groups@.len() && group_matches(groups@[i as int], path@) && (forall|
                q: int,
            |
                0 <= q < i ==> !group_matches(#[trigger] groups@[q], path@)),
            None => forall|q: int|
                0 <= q < groups@.len() ==> !group_matches(#[trigger] groups@[q], path@),
        },
{
    let mut i: usize = 0;
    while i < groups.len()
        invariant
            i <= groups@.len(),
            forall|q: int| 0 <= q < i ==> !group_matches(#[trigger] groups@[q], path@),
        decreases groups@.len() - i,
    {
        match &groups[i].full_path {
            Some(fp) => {
                if *fp == *path {
                    return Some(i);
                }
            },
            None => {},
        }
        i = i + 1;
    }
    None
}

/// What the group listing decides for a requested path.
#[derive(Debug)]
pub enum Resolution {
    /// The path itself is a group: the target resource, no project fetch
    /// needed.
    Group(GitlabResourceMeta),
    /// A containing group was found; its projects must be searched for the
    /// full path.
    NeedsProjects(GitlabResourceMeta),
    /// Neither the path nor its parent names a known group.
    NoContainingGroup,
}

/// What the group stage promises of its result, for a listing and the
/// requested segments: a `Group` is the first entry whose full path is the
/// joined path; `NeedsProjects` carries the first entry whose full path is
/// the parent path, and only when no entry has the full path;
/// `NoContainingGroup` means neither exists.
pub open spec fn resolution_post(
    groups: Seq<GitlabResourceMeta>,
    toks: Seq<Seq<char>>,
    r: Resolution,
) -> bool {
    let full = join_slash(toks);
    let parent = join_slash(toks.drop_last());
    match r {
        Resolution::Group(m) => exists|i: int|
            0 <= i < groups.len() && group_matches(#[trigger] groups[i], full) && meta_view(m)
                == meta_view(groups[i]) && (forall|q: int|
                0 <= q < i ==> !group_matches(#[trigger] groups[q], full)),
        Resolution::NeedsProjects(m) => (forall|q: int|
            0 <= q < groups.len() ==> !group_matches(#[trigger] groups[q], full)) && exists|i: int|
            0 <= i < groups.len() && group_matches(#[trigger] groups[i], parent) && meta_view(m)
                == meta_view(groups[i]) && (forall|q: int|
                0 <= q < i ==> !group_matches(#[trigger] groups[q], parent)),
        Resolution::NoContainingGroup => (forall|q: int|
            0 <= q < groups.len() ==> !group_matches(#[trigger] groups[q], full)) && (forall|q: int|
            0 <= q < groups.len() ==> !group_matches(#[trigger] groups[q], parent)),
    }
}

/// Decides, from the full group listing, whether the requested segments name
/// a group, or which containing group's projects to search next. The first
/// matching entry wins, as the listing order has it.
///
/// Only the immediate parent (the path minus its last segment) is considered
/// as a containing group: a known limitation, kept deliberately, so deeply
/// nested subgroup paths resolve only through that parent's direct projects.
pub fn resolve_groups(groups: &Vec<GitlabResourceMeta>, tokens: &Vec<String>) -> (r: Resolution)
    requires
        tokens@.len() >= 1,
    ensures
        resolution_post(groups@, views_of(tokens@), r),
{
    let full = crate::uri_meta::join_tokens(tokens.as_slice());
    if let Some(i) = find_group(groups, &full) {
        return Resolution::Group(groups[i].duplicate());
    }
    let head = vstd::slice::slice_subrange(tokens.as_slice(), 0, tokens.len() - 1);
    let parent = crate::uri_meta::join_tokens(head);
    proof {
        assert(views_of(tokens@.subrange(0, tokens@.len() - 1)) =~= views_of(tokens@).drop_last());
    }
    match find_group(groups, &parent) {
        Some(i) => Resolution::NeedsProjects(groups[i].duplicate()),
        None => Resolution::NoContainingGroup,
    }
}

/// What the project stage promises of its result: `Some` is the first
/// entry whose namespaced path is the joined path; `None` means no entry
/// has it.
pub open spec fn found_project_post(
    projects: Seq<GitlabResourceMeta>,
    toks: Seq<Seq<char>>,
    r: Option<GitlabResourceMeta>,
) -> bool {
    let full = join_slash(toks);
    match r {
        Some(m) => exists|i: int|
            0 <= i < projects.len() && project_matches(#[trigger] projects[i], full) && meta_view(m)
                == meta_view(projects[i]) && (forall|q: int|
                0 <= q < i ==> !project_matches(#[trigger] projects[q], full)),
        None => forall|q: int|
            0 <= q < projects.len() ==> !project_matches(#[trigger] projects[q], full),
    }
}

/// The first project entry whose namespaced path equals the requested path,
/// from the containing group's project listing.
pub fn find_project(projects: &Vec<GitlabResourceMeta>, tokens: &Vec<String>) -> (r: Option<
    GitlabResourceMeta,
>)
    ensures
        found_project_post(projects@, views_of(tokens@), r),
{
    let full = crate::uri_meta::join_tokens(tokens.as_slice());
    let mut i: usize = 0;
    while i < projects.len()
        invariant
            i <= projects@.len(),
            full@ == join_slash(views_of(tokens@)),
            forall|q: int| 0 <= q < i ==> !project_matches(#[trigger] projects@[q], full@),
        decreases projects@.len() - i,
    {
        match &projects[i].path_with_namespace {
            Some(p) => {
                if *p == full {
                    return Some(projects[i].duplicate());
                }
            },
            None => {},
        }
        i = i + 1;
    }
    None
}

/// Resolution scenario for a project path, both stages chained: when no
/// group's full path equals the requested path but some group's full path
/// equals its parent, the group stage can only hand over such a containing
/// group; and when the containing group's project listing holds an entry
/// whose namespaced path equals the requested path, the project stage can
/// only return such an entry, resolved as a project.
pub proof fn lemma_project_scenario(
    groups: Seq<GitlabResourceMeta>,
    toks: Seq<Seq<char>>,
    r1: Resolution,
    projects: Seq<GitlabResourceMeta>,
    r2: Option<GitlabResourceMeta>,
)
    requires
        toks.len() >= 1,
        forall|q: int|
            0 <= q < groups.len() ==> !group_matches(#[trigger] groups[q], join_slash(toks)),
        exists|i: int|
            0 <= i < groups.len() && group_matches(
                #[trigger] groups[i],
                join_slash(toks.drop_last()),
            ),
        exists|j: int|
            0 <= j < projects.len() && project_matches(#[trigger] projects[j], join_slash(toks)),
        resolution_post(groups, toks, r1),
        found_project_post(projects, toks, r2),
    ensures
        r1 matches Resolution::NeedsProjects(g) && opt_view(g.full_path) == Some(
            join_slash(toks.drop_last()),
        ),
        r2 matches Some(p) && opt_view(p.path_with_namespace) == Some(join_slash(toks)),
{
    let full = join_slash(toks);
    let parent = join_slash(toks.drop_last());
    match r1 {
        Resolution::Group(_) => {
            let i = choose|i: int|
                0 <= i < groups.len() && group_matches(#[trigger] groups[i], full);
            assert(false);
        },
        Resolution::NeedsProjects(g) => {
            let i = choose|i: int|
                0 <= i < groups.len() && group_matches(#[trigger] groups[i], parent) && meta_view(g)
                    == meta_view(groups[i]);
            assert(opt_view(g.full_path) == meta_view(g).1);
            assert(meta_view(groups[i]).1 == Some(parent));
        },
        Resolution::NoContainingGroup => {
            let i = choose|i: int|
                0 <= i < groups.len() && group_matches(#[trigger] groups[i], parent);
            assert(false);
        },
    }
    match r2 {
        Some(p) => {
            let j = choose|j: int|
                0 <= j < projects.len() && project_matches(#[trigger] projects[j], full)
                    && meta_view(p) == meta_view(projects[j]);
            assert(opt_view(p.path_with_namespace) == meta_view(p).2);
            assert(meta_view(projects[j]).2 == Some(full));
        },
        None => {
            let j = choose|j: int|
                0 <= j < projects.len() && project_matches(#[trigger] projects[j], full);
            assert(false);
        },
    }
}

/// A decimal digit.
pub open spec fn is_digit(c: char) -> bool {
    '0' <= c && c <= '9'
}

/// The value of a decimal digit.
pub open spec fn digit_val(c: char) -> int {
    c as int - '0' as int
}

/// The value of a digit string, most significant digit first.
pub open spec fn digits_val(s: Seq<char>) -> int
    decreases s.len(),
{
    if s.len() == 0 {
        0
    } else {
        digits_val(s.drop_last()) * 10 + digit_val(s.last())
    }
}

/// A number's digits: the string minus an optional leading `+` sign.
pub open spec fn digits_of(s: Seq<char>) -> Seq<char> {
    if s.len() > 0 && s[0] == '+' {
        s.drop_first()
    } else {
        s
    }
}

/// A nonempty all-digit string whose value fits.
pub open spec fn digits_ok(ds: Seq<char>) -> bool {
    ds.len() > 0 && (forall|i: int| 0 <= i < ds.len() ==> is_digit(#[trigger] ds[i]))
        && digits_val(ds) <= u32::MAX
}

/// The number a page-count header denotes: an optional `+` sign, then one or
/// more decimal digits, with a value that fits.
pub open spec fn spec_parse_u32(s: Seq<char>) -> Option<u32> {
    if digits_ok(digits_of(s)) {
        Some(digits_val(digits_of(s)) as u32)
    } else {
        None
    }
}

proof fn lemma_digits_val_nonneg(s: Seq<char>)
    requires
        forall|i: int| 0 <= i < s.len() ==> is_digit(#[trigger] s[i]),
    ensures
        digits_val(s) >= 0,
    decreases s.len(),
{
    if s.len() > 0 {
        lemma_digits_val_nonneg(s.drop_last());
    }
}

proof fn lemma_digits_val_monotone(s: Seq<char>, j: int)
    requires
        0 <= j <= s.len(),
        forall|i: int| 0 <= i < s.len() ==> is_digit(#[trigger] s[i]),
    ensures
        digits_val(s) >= digits_val(s.take(j)),
    decreases s.len() - j,
{
    if j < s.len() {
        lemma_digits_val_monotone(s, j + 1);
        assert(s.take(j + 1).drop_last() =~= s.take(j));
        assert(s.take(j + 1).last() == s[j]);
        lemma_digits_val_nonneg(s.take(j));
        assert(digits_val(s.take(j + 1)) == digits_val(s.take(j)) * 10 + digit_val(s[j]));
    } else {
        assert(s.take(j) =~= s);
    }
}

/// Parses a decimal digit string, per [`spec_parse_u32`].
fn parse_u32(s: &str) -> (r: Option<u32>)
    ensures
        r == spec_parse_u32(s@),
{
    let n = s.unicode_len();
    let mut start: usize = 0;
    if n > 0 && s.get_char(0) == '+' {
        start = 1;
    }
    let ghost ds = digits_of(s@);
    proof {
        assert(ds =~= s@.subrange(start as int, n as int));
    }
    if start == n {
        proof {
            assert(!digits_ok(ds));
        }
        return None;
    }
    let mut acc: u64 = 0;
    let mut j = start;
    while j < n
        invariant
            start <= j <= n,
            n == s@.len(),
            start == 0 || start == 1,
            ds == digits_of(s@),
            ds == s@.subrange(start as int, n as int),
            forall|i: int| start <= i < j ==> is_digit(#[trigger] s@[i]),
            acc <= u32::MAX,
            acc == digits_val(ds.take(j - start)),
        decreases n - j,
    {
        let c = s.get_char(j);
        if !('0' <= c && c <= '9') {
            proof {
                assert(ds[j - start] == s@[j as int]);
                assert(!is_digit(ds[j - start]));
                assert(!digits_ok(ds));
            }
            return None;
        }
        let d: u64 = (c as u32 as u64) - ('0' as u32 as u64);
        proof {
            assert(ds.take(j - start + 1).drop_last() =~= ds.take(j - start));
            assert(ds.take(j - start + 1).last() == s@[j as int]);
        }
        let next: u64 = acc * 10 + d;
        if next > 0xffff_ffff {
            proof {
                if digits_ok(ds) {
                    assert(ds[j - start] == s@[j as int]);
                    assert(digit_val(ds[j - start]) == d as int);
                    assert(digits_val(ds.take(j - start + 1)) == acc * 10 + d);
                    lemma_digits_val_monotone(ds, j - start + 1);
                    assert(false);
                }
                assert(!digits_ok(ds));
            }
            return None;
        }
        acc = next;
        j = j + 1;
    }
    proof {
        assert(ds.take(n - start) =~= ds);
        assert forall|i: int| 0 <= i < ds.len() implies is_digit(#[trigger] ds[i]) by {
            assert(ds[i] == s@[start + i]);
        }
        assert(digits_ok(ds));
    }
    Some(acc as u32)
}

/// Reads the total page count from the listing response's page-count header.
/// An absent header means the endpoint did not paginate, which the protocol
/// treats as an error; an unreadable count likewise.
pub fn total_pages(header: Option<&String>) -> (r: Result<u32, GapiError>)
    ensures
        match header {
            None => r == Err::<u32, GapiError>(GapiError::NotPaged),
            Some(h) => match spec_parse_u32(h@) {
                Some(n) => r == Ok::<u32, GapiError>(n),
                None => r == Err::<u32, GapiError>(GapiError::BadPageCount),
            },
        },
{
    match header {
        None => Err(GapiError::NotPaged),
        Some(h) => match parse_u32(h.as_str()) {
            Some(n) => Ok(n),
            None => Err(GapiError::BadPageCount),
        },
    }
}

/// The concatenation of the pages' items, in page order.
pub open spec fn flat<T>(pages: Seq<Seq<T>>) -> Seq<T>
    decreases pages.len(),
{
    if pages.len() == 0 {
        Seq::empty()
    } else {
        pages[0] + flat(pages.drop_first())
    }
}

/// Merges fetched pages into one list: page 1's items, then page 2's, and so
/// on — the order the pages stand in, never the order they arrived in.
pub fn merge_pages<T>(pages: Vec<Vec<T>>) -> (r: Vec<T>)
    ensures
        r@ == flat(pages@.map_values(|p: Vec<T>| p@)),
{
    let ghost all = pages@.map_values(|p: Vec<T>| p@);
    let mut r: Vec<T> = Vec::new();
    let mut rest = pages;
    proof {
        assert(r@ + flat(rest@.map_values(|p: Vec<T>| p@)) =~= flat(all));
    }
    while rest.len() > 0
        invariant
            r@ + flat(rest@.map_values(|p: Vec<T>| p@)) == flat(all),
        decreases rest@.len(),
    {
        let ghost rv = rest@.map_values(|p: Vec<T>| p@);
        let mut page = rest.remove(0);
        proof {
            assert(rest@.map_values(|p: Vec<T>| p@) =~= rv.drop_first());
            assert(flat(rv) == rv[0] + flat(rv.drop_first()));
        }
        let ghost r0 = r@;
        r.append(&mut page);
        proof {
            assert(r@ + flat(rest@.map_values(|p: Vec<T>| p@)) =~= (r0 + rv[0]) + flat(
                rv.drop_first(),
            ));
            assert((r0 + rv[0]) + flat(rv.drop_first()) =~= r0 + (rv[0] + flat(rv.drop_first())));
        }
    }
    proof {
        assert(flat(rest@.map_values(|p: Vec<T>| p@)) =~= Seq::<T>::empty());
        assert(r@ =~= r@ + Seq::<T>::empty());
    }
    r
}

} // verus!
