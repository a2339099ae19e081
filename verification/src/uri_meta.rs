//! Parsing of GitLab remote references (web URLs and git-style remotes) into
//! a normalized domain, ordered path segments, and a canonical URL.

use vstd::prelude::*;

verus! {

use vstd::slice::slice_index_get;
use vstd::string::StringExecFns;

/// Where a reference came from: a local checkout's remote URL, or a string
/// typed by the user.
#[derive(Debug)]
pub enum Source {
    Disk(String),
    Web(String),
}

impl PartialEq for Source {
    fn eq(&self, other: &Source) -> (r: bool) {
        match (self, other) {
            (Source::Disk(a), Source::Disk(b)) => *a == *b,
            (Source::Web(a), Source::Web(b)) => *a == *b,
            _ => false,
        }
    }
}

impl vstd::std_specs::cmp::PartialEqSpecImpl for Source {
    open spec fn obeys_eq_spec() -> bool {
        true
    }

    open spec fn eq_spec(&self, other: &Source) -> bool {
        match (self, other) {
            (Source::Disk(a), Source::Disk(b)) => a@ == b@,
            (Source::Web(a), Source::Web(b)) => a@ == b@,
            _ => false,
        }
    }
}

/// The kind of resource a reference points at, once known.
#[derive(PartialEq, Eq, Structural, Clone, Copy, Debug)]
pub enum Resource {
    Repo,
    Group,
}

/// Normalized form of a GitLab reference: `identifier` is the path segments
/// joined by `/` (the cache key), `url` is `domain + "/" + identifier`.
#[derive(Clone, Debug)]
pub struct UriMeta {
    pub identifier: String,
    pub url: String,
    pub domain: String,
    pub tokens: Vec<String>,
    pub resource: Option<Resource>,
}

/// The path segments of a sequence of strings, as sequences of characters.
pub open spec fn views_of(tokens: Seq<String>) -> Seq<Seq<char>> {
    tokens.map_values(|t: String| t@)
}

/// Segments joined with a single `/` between consecutive segments.
pub open spec fn join_slash(toks: Seq<Seq<char>>) -> Seq<char>
    decreases toks.len(),
{
    if toks.len() == 0 {
        Seq::empty()
    } else if toks.len() == 1 {
        toks[0]
    } else {
        toks[0] + seq!['/'] + join_slash(toks.drop_first())
    }
}

proof fn lemma_join_slash_push(toks: Seq<Seq<char>>, t: Seq<char>)
    ensures
        join_slash(toks.push(t)) == if toks.len() == 0 {
            t
        } else {
            join_slash(toks) + seq!['/'] + t
        },
    decreases toks.len(),
{
    if toks.len() == 0 {
        assert(toks.push(t) =~= seq![t]);
        assert(join_slash(seq![t]) == t);
    } else if toks.len() == 1 {
        assert(toks.push(t).drop_first() =~= seq![t]);
        assert(join_slash(seq![t]) == t);
        assert(join_slash(toks.push(t)) == toks[0] + seq!['/'] + t);
    } else {
        lemma_join_slash_push(toks.drop_first(), t);
        assert(toks.push(t).drop_first() =~= toks.drop_first().push(t));
        assert(join_slash(toks.push(t)) == toks[0] + seq!['/'] + join_slash(
            toks.drop_first().push(t),
        ));
        assert(join_slash(toks) + seq!['/'] + t == toks[0] + seq!['/'] + (join_slash(
            toks.drop_first(),
        ) + seq!['/'] + t)) by {
            assert(join_slash(toks) == toks[0] + seq!['/'] + join_slash(toks.drop_first()));
            assert((toks[0] + seq!['/'] + join_slash(toks.drop_first())) + seq!['/'] + t =~= toks[0]
                + seq!['/'] + (join_slash(toks.drop_first()) + seq!['/'] + t));
        }
    }
}

/// Joins path segments with `/`, the executable counterpart of [`join_slash`].
pub fn join_tokens(tokens: &[String]) -> (r: String)
    ensures
        r@ == join_slash(views_of(tokens@)),
{
    let mut r = String::new();
    let mut i: usize = 0;
    proof {
        assert(views_of(tokens@.take(0)) =~= Seq::<Seq<char>>::empty());
    }
    while i < tokens.len()
        invariant
            i <= tokens.len(),
            r@ == join_slash(views_of(tokens@.take(i as int))),
        decreases tokens.len() - i,
    {
        if i > 0 {
            r.append("/");
            proof {
                reveal_strlit("/");
                assert("/"@ =~= seq!['/']);
            }
        }
        let t = slice_index_get(tokens, i);
        r.append(t.as_str());
        proof {
            let prev = views_of(tokens@.take(i as int));
            lemma_join_slash_push(prev, tokens@[i as int]@);
            assert(views_of(tokens@.take(i + 1)) =~= prev.push(tokens@[i as int]@));
        }
        i = i + 1;
    }
    proof {
        assert(tokens@.take(tokens@.len() as int) =~= tokens@);
    }
    r
}

/// The characters that delimit path segments (and end a domain).
pub open spec fn is_delim(c: char) -> bool {
    c == ':' || c == '/'
}

/// The characters accepted in a domain's suffix after its last dot.
pub open spec fn is_suffix_char(c: char) -> bool {
    ('a' <= c && c <= 'z') || ('A' <= c && c <= 'Z') || ('0' <= c && c <= '9') || c == ',' || c
        == ' '
}

/// The literal marker every recognized domain starts with.
pub open spec fn gitlab_chars() -> Seq<char> {
    seq!['g', 'i', 't', 'l', 'a', 'b']
}

/// A domain occurrence: `s[p..k]` starts with `gitlab`, runs delimiter-free up
/// to the delimiter at `k`, and ends in a dot-separated suffix.
pub open spec fn domain_match_at(s: Seq<char>, p: int, k: int) -> bool {
    &&& 0 <= p
    &&& p + 6 <= k < s.len()
    &&& s.subrange(p, p + 6) == gitlab_chars()
    &&& is_delim(s[k])
    &&& forall|j: int| p <= j < k ==> !is_delim(#[trigger] s[j])
    &&& exists|d: int|
        p + 6 <= d < k && s[d] == '.' && (forall|j: int|
            d < j < k ==> is_suffix_char(#[trigger] s[j]))
}

/// Whether a domain occurrence starts at position `p`.
pub open spec fn domain_starts_at(s: Seq<char>, p: int) -> bool {
    exists|k: int| domain_match_at(s, p, k)
}

/// The first delimiter at or after position `i`, if any.
pub open spec fn first_delim_from(s: Seq<char>, i: nat) -> Option<nat>
    decreases s.len() - i,
{
    if i >= s.len() {
        None
    } else if is_delim(s[i as int]) {
        Some(i)
    } else {
        first_delim_from(s, i + 1)
    }
}

/// The first position at or after `i` where a domain occurrence starts.
pub open spec fn first_start_from(s: Seq<char>, i: nat) -> Option<nat>
    decreases s.len() - i,
{
    if i >= s.len() {
        None
    } else if domain_starts_at(s, i as int) {
        Some(i)
    } else {
        first_start_from(s, i + 1)
    }
}

/// The extracted domain: from the first domain occurrence up to (excluding)
/// the delimiter that terminates it.
pub open spec fn spec_parse_domain(s: Seq<char>) -> Option<Seq<char>> {
    match first_start_from(s, 0) {
        Some(p) => match first_delim_from(s, p) {
            Some(k) => Some(s.subrange(p as int, k as int)),
            None => None,
        },
        None => None,
    }
}

proof fn lemma_first_delim_some(s: Seq<char>, i: nat, k: nat)
    requires
        i <= k < s.len(),
        is_delim(s[k as int]),
        forall|m: int| i <= m < k ==> !is_delim(#[trigger] s[m]),
    ensures
        first_delim_from(s, i) == Some(k),
    decreases k - i,
{
    if i < k {
        lemma_first_delim_some(s, i + 1, k);
    }
}

proof fn lemma_first_delim_none(s: Seq<char>, i: nat)
    requires
        forall|m: int| i <= m < s.len() ==> !is_delim(#[trigger] s[m]),
    ensures
        first_delim_from(s, i) is None,
    decreases s.len() - i,
{
    if i < s.len() {
        lemma_first_delim_none(s, i + 1);
    }
}

proof fn lemma_first_start_some(s: Seq<char>, i: nat, p: nat)
    requires
        i <= p < s.len(),
        domain_starts_at(s, p as int),
        forall|q: int| i <= q < p ==> !domain_starts_at(s, q),
    ensures
        first_start_from(s, i) == Some(p),
    decreases p - i,
{
    if i < p {
        lemma_first_start_some(s, i + 1, p);
    }
}

proof fn lemma_first_start_none(s: Seq<char>, i: nat)
    requires
        forall|q: int| i <= q < s.len() ==> !domain_starts_at(s, q),
    ensures
        first_start_from(s, i) is None,
    decreases s.len() - i,
{
    if i < s.len() {
        lemma_first_start_none(s, i + 1);
    }
}

/// Finds the first `:` or `/` at or after `i`.
fn first_delim_exec(url: &str, i: usize) -> (r: Option<usize>)
    requires
        i <= url@.len(),
    ensures
        match r {
            Some(k) => i <= k < url@.len() && is_delim(url@[k as int]) && (forall|m: int|
                i <= m < k ==> !is_delim(#[trigger] url@[m])),
            None => forall|m: int| i <= m < url@.len() ==> !is_delim(#[trigger] url@[m]),
        },
{
    let n = url.unicode_len();
    let mut j = i;
    while j < n
        invariant
            i <= j <= n,
            n == url@.len(),
            forall|m: int| i <= m < j ==> !is_delim(#[trigger] url@[m]),
        decreases n - j,
    {
        let c = url.get_char(j);
        if c == ':' || c == '/' {
            return Some(j);
        }
        j = j + 1;
    }
    None
}

/// Decides whether a domain occurrence starts at position `p`.
fn match_at(url: &str, p: usize) -> (r: bool)
    requires
        p < url@.len(),
    ensures
        r == domain_starts_at(url@, p as int),
{
    let ghost s = url@;
    let n = url.unicode_len();
    if n - p < 7 {
        proof {
            assert forall|k: int| !domain_match_at(s, p as int, k) by {}
        }
        return false;
    }
    if !(url.get_char(p) == 'g' && url.get_char(p + 1) == 'i' && url.get_char(p + 2) == 't'
        && url.get_char(p + 3) == 'l' && url.get_char(p + 4) == 'a' && url.get_char(p + 5)
        == 'b') {
        proof {
            assert forall|k: int| !domain_match_at(s, p as int, k) by {
                if s.subrange(p as int, p + 6) == gitlab_chars() {
                    assert(s[p as int] == s.subrange(p as int, p + 6)[0]);
                    assert(s[p + 1] == s.subrange(p as int, p + 6)[1]);
                    assert(s[p + 2] == s.subrange(p as int, p + 6)[2]);
                    assert(s[p + 3] == s.subrange(p as int, p + 6)[3]);
                    assert(s[p + 4] == s.subrange(p as int, p + 6)[4]);
                    assert(s[p + 5] == s.subrange(p as int, p + 6)[5]);
                }
            }
        }
        return false;
    }
    proof {
        assert(s.subrange(p as int, p + 6) =~= gitlab_chars());
    }
    let k_opt = first_delim_exec(url, p);
    let k = match k_opt {
        Some(k) => k,
        None => {
            proof {
                assert forall|k: int| !domain_match_at(s, p as int, k) by {}
            }
            return false;
        },
    };
    // Scan backwards from the delimiter for a dot whose tail is all suffix
    // characters; positions already passed are known to be suffix characters.
    let lo = p + 6;
    if k <= lo {
        proof {
            assert forall|kk: int| !domain_match_at(s, p as int, kk) by {
                if domain_match_at(s, p as int, kk) {
                    assert(!is_delim(s[kk]) || kk >= k as int);
                    let d = choose|d: int|
                        p + 6 <= d < kk && s[d] == '.' && (forall|j: int|
                            d < j < kk ==> is_suffix_char(#[trigger] s[j]));
                    assert(is_delim(s[k as int]));
                    assert(kk == k as int || p <= k < kk);
                }
            }
        }
        return false;
    }
    let mut j = k;
    while j > lo
        invariant
            lo <= j <= k,
            p + 6 == lo,
            k < n == s.len(),
            s == url@,
            is_delim(s[k as int]),
            forall|m: int| p <= m < k ==> !is_delim(#[trigger] s[m]),
            s.subrange(p as int, p + 6) == gitlab_chars(),
            forall|m: int| j <= m < k ==> is_suffix_char(#[trigger] s[m]),
            forall|m: int| j <= m < k ==> s[m] != '.',
        decreases j,
    {
        let c = url.get_char(j - 1);
        if c == '.' {
            proof {
                let d = j - 1;
                assert(domain_match_at(s, p as int, k as int));
            }
            return true;
        }
        let suffix = ('a' <= c && c <= 'z') || ('A' <= c && c <= 'Z') || ('0' <= c && c <= '9')
            || c == ',' || c == ' ';
        if !suffix {
            proof {
                assert forall|kk: int| !domain_match_at(s, p as int, kk) by {
                    if domain_match_at(s, p as int, kk) {
                        assert(kk == k as int) by {
                            assert(is_delim(s[kk]));
                            if kk < k as int {
                                assert(!is_delim(s[kk]));
                            }
                            if kk > k as int {
                                assert(!is_delim(s[k as int]));
                            }
                        }
                        let d = choose|d: int|
                            p + 6 <= d < kk && s[d] == '.' && (forall|jj: int|
                                d < jj < kk ==> is_suffix_char(#[trigger] s[jj]));
                        if d < j - 1 {
                            assert(is_suffix_char(s[j - 1]));
                        } else if d == j - 1 {
                            assert(s[j - 1] == '.');
                        } else {
                            assert(s[d] != '.');
                        }
                    }
                }
            }
            return false;
        }
        j = j - 1;
    }
    proof {
        assert forall|kk: int| !domain_match_at(s, p as int, kk) by {
            if domain_match_at(s, p as int, kk) {
                assert(kk == k as int) by {
                    assert(is_delim(s[kk]));
                    if kk < k as int {
                        assert(!is_delim(s[kk]));
                    }
                    if kk > k as int {
                        assert(!is_delim(s[k as int]));
                    }
                }
                let d = choose|d: int|
                    p + 6 <= d < kk && s[d] == '.' && (forall|jj: int|
                        d < jj < kk ==> is_suffix_char(#[trigger] s[jj]));
                assert(s[d] != '.');
            }
        }
    }
    false
}

/// Extracts the domain from a raw reference, per [`spec_parse_domain`].
pub fn parse_domain(url: &str) -> (r: Option<String>)
    ensures
        match r {
            Some(d) => spec_parse_domain(url@) == Some(d@),
            None => spec_parse_domain(url@) is None,
        },
{
    let ghost s = url@;
    let n = url.unicode_len();
    let mut p: usize = 0;
    while p < n
        invariant
            p <= n,
            n == url@.len(),
            s == url@,
            forall|q: int| 0 <= q < p ==> !domain_starts_at(s, q),
        decreases n - p,
    {
        if match_at(url, p) {
            proof {
                lemma_first_start_some(s, 0, p as nat);
            }
            let k = match first_delim_exec(url, p) {
                Some(k) => k,
                None => {
                    proof {
                        let kk = choose|kk: int| domain_match_at(s, p as int, kk);
                        assert(is_delim(s[kk]));
                        assert(false);
                    }
                    return None;
                },
            };
            proof {
                lemma_first_delim_some(s, p as nat, k as nat);
            }
            let d = url.substring_char(p, k);
            return Some(d.to_owned());
        }
        p = p + 1;
    }
    proof {
        lemma_first_start_none(s, 0);
    }
    None
}

/// The protocol suffix stripped from a final path segment.
pub open spec fn dot_git() -> Seq<char> {
    seq!['.', 'g', 'i', 't']
}

/// Whether a segment ends in `.git`.
pub open spec fn ends_with_dot_git(t: Seq<char>) -> bool {
    t.len() >= 4 && t.subrange(t.len() - 4, t.len() as int) == dot_git()
}

/// A segment with a final `.git` removed, others unchanged.
pub open spec fn strip_dot_git(t: Seq<char>) -> Seq<char> {
    if ends_with_dot_git(t) {
        t.take(t.len() - 4)
    } else {
        t
    }
}

/// The maximal delimiter-free runs of `s` from position `i` on, `cur` being
/// the run in progress.
pub open spec fn raw_tokens_from(s: Seq<char>, i: nat, cur: Seq<char>) -> Seq<Seq<char>>
    decreases s.len() - i,
{
    if i >= s.len() {
        if cur.len() > 0 {
            seq![cur]
        } else {
            Seq::empty()
        }
    } else if is_delim(s[i as int]) {
        (if cur.len() > 0 {
            seq![cur]
        } else {
            Seq::empty()
        }) + raw_tokens_from(s, i + 1, Seq::empty())
    } else {
        raw_tokens_from(s, i + 1, cur.push(s[i as int]))
    }
}

/// All maximal delimiter-free runs of `s`, in order; empty runs are dropped.
pub open spec fn raw_tokens(s: Seq<char>) -> Seq<Seq<char>> {
    raw_tokens_from(s, 0, Seq::empty())
}

/// The extracted path segments: the raw runs minus the leading domain run,
/// with `.git` stripped from the final segment; `None` if nothing follows
/// the domain run.
pub open spec fn spec_parse_tokens(s: Seq<char>) -> Option<Seq<Seq<char>>> {
    let raw = raw_tokens(s);
    if raw.len() > 1 {
        let toks = raw.drop_first();
        Some(toks.update(toks.len() - 1, strip_dot_git(toks.last())))
    } else {
        None
    }
}

/// Collects the maximal delimiter-free runs of `url`, per [`raw_tokens`].
fn raw_tokens_exec(url: &str) -> (r: Vec<String>)
    ensures
        views_of(r@) == raw_tokens(url@),
{
    let ghost s = url@;
    let n = url.unicode_len();
    let mut toks: Vec<String> = Vec::new();
    let mut start: usize = 0;
    let mut j: usize = 0;
    proof {
        assert(views_of(toks@) =~= Seq::<Seq<char>>::empty());
        assert(s.subrange(0, 0) =~= Seq::<char>::empty());
        assert(raw_tokens(s) =~= views_of(toks@) + raw_tokens_from(s, 0nat, s.subrange(0, 0)));
    }
    while j < n
        invariant
            start <= j <= n,
            n == s.len(),
            s == url@,
            forall|m: int| start <= m < j ==> !is_delim(#[trigger] s[m]),
            raw_tokens(s) == views_of(toks@) + raw_tokens_from(
                s,
                j as nat,
                s.subrange(start as int, j as int),
            ),
        decreases n - j,
    {
        let ghost cur = s.subrange(start as int, j as int);
        let c = url.get_char(j);
        if c == ':' || c == '/' {
            if start < j {
                let t = url.substring_char(start, j);
                let ghost old_toks = toks@;
                toks.push(t.to_owned());
                proof {
                    assert(views_of(toks@) =~= views_of(old_toks).push(cur));
                    assert(raw_tokens_from(s, j as nat, cur) == seq![cur] + raw_tokens_from(
                        s,
                        (j + 1) as nat,
                        Seq::empty(),
                    ));
                    assert(views_of(old_toks) + (seq![cur] + raw_tokens_from(
                        s,
                        (j + 1) as nat,
                        Seq::empty(),
                    )) =~= views_of(toks@) + raw_tokens_from(s, (j + 1) as nat, Seq::empty()));
                    assert(s.subrange(j + 1, j + 1) =~= Seq::<char>::empty());
                }
            } else {
                proof {
                    assert(cur =~= Seq::<char>::empty());
                    assert(s.subrange(j + 1, j + 1) =~= Seq::<char>::empty());
                }
            }
            start = j + 1;
        } else {
            proof {
                assert(s.subrange(start as int, j + 1) =~= cur.push(s[j as int]));
            }
        }
        j = j + 1;
    }
    if start < n {
        let t = url.substring_char(start, n);
        let ghost old_toks = toks@;
        toks.push(t.to_owned());
        proof {
            let cur = s.subrange(start as int, n as int);
            assert(views_of(toks@) =~= views_of(old_toks).push(cur));
            assert(raw_tokens_from(s, n as nat, cur) == seq![cur]);
            assert(views_of(old_toks) + seq![cur] =~= views_of(toks@));
        }
    } else {
        proof {
            assert(s.subrange(start as int, n as int) =~= Seq::<char>::empty());
            assert(views_of(toks@) + raw_tokens_from(s, n as nat, Seq::<char>::empty()) =~= views_of(
                toks@,
            ));
        }
    }
    toks
}

/// Extracts the path segments of a raw reference, per [`spec_parse_tokens`].
pub fn parse_tokens(url: &str) -> (r: Option<Vec<String>>)
    ensures
        match r {
            Some(v) => spec_parse_tokens(url@) == Some(views_of(v@)),
            None => spec_parse_tokens(url@) is None,
        },
{
    let ghost s = url@;
    let mut toks = raw_tokens_exec(url);
    let ghost raw = raw_tokens(s);
    if toks.len() <= 1 {
        return None;
    }
    let last = match toks.pop() {
        Some(l) => l,
        None => {
            proof {
                assert(false);
            }
            return None;
        },
    };
    proof {
        assert(last@ == raw.last());
        assert(views_of(toks@) =~= raw.drop_last());
    }
    let ll = last.as_str().unicode_len();
    let stripped: String = if ll >= 4 && last.as_str().get_char(ll - 4) == '.' && last.as_str()
        .get_char(ll - 3) == 'g' && last.as_str().get_char(ll - 2) == 'i' && last.as_str().get_char(
        ll - 1,
    ) == 't' {
        proof {
            assert(last@.subrange(ll - 4, ll as int) =~= dot_git());
        }
        last.as_str().substring_char(0, ll - 4).to_owned()
    } else {
        proof {
            if ends_with_dot_git(last@) {
                let sub = last@.subrange(ll - 4, ll as int);
                assert(last@[ll - 4] == sub[0]);
                assert(last@[ll - 3] == sub[1]);
                assert(last@[ll - 2] == sub[2]);
                assert(last@[ll - 1] == sub[3]);
            }
        }
        last
    };
    proof {
        assert(stripped@ == strip_dot_git(raw.last()));
    }
    let ghost before_push = toks@;
    toks.push(stripped);
    let _domain_run = toks.remove(0);
    proof {
        let l = raw.len() as int;
        assert(views_of(before_push.push(stripped)) =~= views_of(before_push).push(
            strip_dot_git(raw.last()),
        ));
        assert(views_of(before_push).push(strip_dot_git(raw.last())) =~= raw.update(
            l - 1,
            strip_dot_git(raw.last()),
        ));
        assert(views_of(toks@) =~= raw.update(l - 1, strip_dot_git(raw.last())).drop_first());
        let spec_toks = raw.drop_first();
        assert(spec_toks.last() == raw.last());
        assert(views_of(toks@) =~= spec_toks.update(
            spec_toks.len() - 1,
            strip_dot_git(spec_toks.last()),
        ));
    }
    Some(toks)
}

/// The failure modes of reference parsing.
#[derive(PartialEq, Eq, Structural, Clone, Copy, Debug)]
pub enum UriError {
    NoDomain,
    NoTokens,
}

impl UriError {
    /// A human-readable description of the failure.
    pub fn message(&self) -> (r: String)
        ensures
            *self == UriError::NoDomain ==> r@ == "unable to parse domain"@,
            *self == UriError::NoTokens ==> r@ == "unable to parse tokens"@,
    {
        match self {
            UriError::NoDomain => "unable to parse domain".to_owned(),
            UriError::NoTokens => "unable to parse tokens".to_owned(),
        }
    }
}

/// What a successfully parsed reference must satisfy: the domain and the
/// segments come from the input, the identifier joins the segments, and the
/// URL is the domain and identifier joined by `/`.
pub open spec fn parsed_ok(input: Seq<char>, m: UriMeta) -> bool {
    &&& spec_parse_domain(input) == Some(m.domain@)
    &&& spec_parse_tokens(input) == Some(views_of(m.tokens@))
    &&& m.identifier@ == join_slash(views_of(m.tokens@))
    &&& m.url@ == m.domain@ + seq!['/'] + m.identifier@
}

/// Parses a typed URL string; the resource kind stays unknown.
pub fn from_web(path: &str) -> (r: Result<UriMeta, UriError>)
    ensures
        match r {
            Ok(m) => parsed_ok(path@, m) && m.resource is None,
            Err(e) => match e {
                UriError::NoDomain => spec_parse_domain(path@) is None,
                UriError::NoTokens => spec_parse_domain(path@) is Some && spec_parse_tokens(path@)
                    is None,
            },
        },
{
    let domain = match parse_domain(path) {
        Some(d) => d,
        None => {
            return Err(UriError::NoDomain);
        },
    };
    let tokens = match parse_tokens(path) {
        Some(t) => t,
        None => {
            return Err(UriError::NoTokens);
        },
    };
    let identifier = join_tokens(tokens.as_slice());
    let url = make_url(domain.as_str(), tokens.as_slice());
    Ok(UriMeta { identifier, url, domain, tokens, resource: None })
}

/// The raw string a source carries.
pub open spec fn source_input(source: Source) -> Seq<char> {
    match source {
        Source::Disk(u) => u@,
        Source::Web(u) => u@,
    }
}

impl UriMeta {
    /// Parses a reference. For a `Disk` source the carried string is the
    /// fetch URL of the checkout's `origin` remote, and the resolved kind is
    /// always a repository; for a `Web` source the kind stays unknown.
    pub fn new(source: &Source) -> (r: Result<Self, UriError>)
        ensures
            match r {
                Ok(m) => parsed_ok(source_input(*source), m) && m.resource == (match *source {
                    Source::Disk(_) => Some(Resource::Repo),
                    Source::Web(_) => None,
                }),
                Err(e) => match e {
                    UriError::NoDomain => spec_parse_domain(source_input(*source)) is None,
                    UriError::NoTokens => spec_parse_domain(source_input(*source)) is Some
                        && spec_parse_tokens(source_input(*source)) is None,
                },
            },
    {
        match source {
            Source::Web(url) => from_web(url.as_str()),
            Source::Disk(url) => match from_web(url.as_str()) {
                Ok(mut m) => {
                    m.resource = Some(Resource::Repo);
                    Ok(m)
                },
                Err(e) => Err(e),
            },
        }
    }
}

/// `s` with a leading `~` expanded to `home`; any other `~` stays.
pub open spec fn expand_leading_tilde(s: Seq<char>, home: Seq<char>) -> Seq<char> {
    if s.len() > 0 && s[0] == '~' {
        home + s.drop_first()
    } else {
        s
    }
}

/// Expands a leading `~` of `path` to `home`.
fn expand_leading_tilde_exec(path: &str, home: &str) -> (r: String)
    ensures
        r@ == expand_leading_tilde(path@, home@),
{
    let n = path.unicode_len();
    if n > 0 && path.get_char(0) == '~' {
        let mut r = home.to_owned();
        let tail = path.substring_char(1, n);
        r.append(tail);
        proof {
            assert(r@ =~= home@ + path@.drop_first());
        }
        r
    } else {
        path.to_owned()
    }
}

/// `s` with the delimiter that terminates its domain occurrence, when that
/// delimiter is a `:`, rewritten to `/`; everything else stays.
pub open spec fn rewrite_domain_colon(s: Seq<char>) -> Seq<char> {
    match first_start_from(s, 0) {
        Some(p) => match first_delim_from(s, p) {
            Some(k) => if s[k as int] == ':' {
                s.update(k as int, '/')
            } else {
                s
            },
            None => s,
        },
        None => s,
    }
}

/// Classifies a command-line argument. A string in which a domain is
/// recognized is a web reference, with a git-style `:` immediately after
/// the recognized domain rewritten to `/` so that git remotes and web URLs
/// parse alike; anything else is a disk path, with a leading `~` expanded
/// to the caller's home directory when one is known.
pub fn parse_source(input: &str, home: Option<&str>) -> (r: Source)
    ensures
        match r {
            Source::Web(u) => spec_parse_domain(input@) is Some && u@ == rewrite_domain_colon(
                input@,
            ),
            Source::Disk(u) => spec_parse_domain(input@) is None && u@ == (match home {
                Some(h) => expand_leading_tilde(input@, h@),
                None => input@,
            }),
        },
{
    let ghost s = input@;
    let n = input.unicode_len();
    let mut p: usize = 0;
    while p < n
        invariant
            p <= n,
            n == s.len(),
            s == input@,
            forall|q: int| 0 <= q < p ==> !domain_starts_at(s, q),
        decreases n - p,
    {
        if match_at(input, p) {
            proof {
                lemma_first_start_some(s, 0, p as nat);
            }
            let k = match first_delim_exec(input, p) {
                Some(k) => k,
                None => {
                    proof {
                        let kk = choose|kk: int| domain_match_at(s, p as int, kk);
                        assert(is_delim(s[kk]));
                        assert(false);
                    }
                    return Source::Web(input.to_owned());
                },
            };
            proof {
                lemma_first_delim_some(s, p as nat, k as nat);
            }
            let c = input.get_char(k);
            if c == ':' {
                let mut r = input.substring_char(0, k).to_owned();
                r.append("/");
                let tail = input.substring_char(k + 1, n);
                r.append(tail);
                proof {
                    reveal_strlit("/");
                    assert("/"@ =~= seq!['/']);
                    assert(r@ =~= s.update(k as int, '/'));
                }
                return Source::Web(r);
            }
            return Source::Web(input.to_owned());
        }
        p = p + 1;
    }
    proof {
        lemma_first_start_none(s, 0);
    }
    match home {
        Some(h) => Source::Disk(expand_leading_tilde_exec(input, h)),
        None => Source::Disk(input.to_owned()),
    }
}

/// A well-formed domain: starts with the `gitlab` marker, holds no
/// delimiter, and ends in a dot-separated suffix.
pub open spec fn valid_domain(d: Seq<char>) -> bool {
    &&& d.len() >= 7
    &&& d.subrange(0, 6) == gitlab_chars()
    &&& forall|j: int| 0 <= j < d.len() ==> !is_delim(#[trigger] d[j])
    &&& exists|i: int|
        6 <= i < d.len() && d[i] == '.' && (forall|j: int|
            i < j < d.len() ==> is_suffix_char(#[trigger] d[j]))
}

/// A well-formed path segment: nonempty and delimiter-free.
pub open spec fn valid_token(t: Seq<char>) -> bool {
    t.len() > 0 && (forall|j: int| 0 <= j < t.len() ==> !is_delim(#[trigger] t[j]))
}

proof fn lemma_raw_tokens_run(s: Seq<char>, i: nat, j: nat, cur: Seq<char>)
    requires
        i <= j <= s.len(),
        forall|m: int| i <= m < j ==> !is_delim(#[trigger] s[m]),
    ensures
        raw_tokens_from(s, i, cur) == raw_tokens_from(s, j, cur + s.subrange(i as int, j as int)),
    decreases j - i,
{
    if i == j {
        assert(cur + s.subrange(i as int, j as int) =~= cur);
    } else {
        lemma_raw_tokens_run(s, i + 1, j, cur.push(s[i as int]));
        assert(cur.push(s[i as int]) + s.subrange(i as int + 1, j as int) =~= cur + s.subrange(
            i as int,
            j as int,
        ));
    }
}

proof fn lemma_raw_tokens_join(s: Seq<char>, i: nat, toks: Seq<Seq<char>>)
    requires
        i <= s.len(),
        toks.len() >= 1,
        forall|m: int| 0 <= m < toks.len() ==> valid_token(#[trigger] toks[m]),
        s.subrange(i as int, s.len() as int) == join_slash(toks),
    ensures
        raw_tokens_from(s, i, Seq::empty()) == toks,
    decreases toks.len(),
{
    let t0 = toks[0];
    let join = join_slash(toks);
    assert(valid_token(t0));
    let t0l = t0.len();
    if toks.len() == 1 {
        assert(join == t0);
        assert(s.len() - i == t0l);
        assert forall|m: int| i <= m < s.len() implies !is_delim(#[trigger] s[m]) by {
            assert(s[m] == s.subrange(i as int, s.len() as int)[m - i]);
        }
        lemma_raw_tokens_run(s, i, s.len(), Seq::empty());
        assert(Seq::empty() + s.subrange(i as int, s.len() as int) =~= t0);
        assert(raw_tokens_from(s, s.len(), t0) == seq![t0]);
        assert(toks =~= seq![t0]);
    } else {
        let rest = toks.drop_first();
        assert(join == t0 + seq!['/'] + join_slash(rest));
        assert(join.len() == t0l + 1 + join_slash(rest).len());
        assert(s.len() - i == join.len());
        let mid = (i + t0l) as int;
        assert forall|m: int| i <= m < mid implies !is_delim(#[trigger] s[m]) by {
            assert(s[m] == s.subrange(i as int, s.len() as int)[m - i]);
            assert(join[m - i] == t0[m - i]);
        }
        lemma_raw_tokens_run(s, i, mid as nat, Seq::empty());
        assert(Seq::empty() + s.subrange(i as int, mid) =~= t0) by {
            assert forall|m: int| 0 <= m < t0l implies s.subrange(i as int, mid)[m] == t0[m]
                by {
                assert(s[i + m] == s.subrange(i as int, s.len() as int)[m]);
                assert(join[m] == t0[m]);
            }
        }
        assert(s[mid] == join[t0l as int]);
        assert(join[t0l as int] == '/');
        assert(is_delim(s[mid]));
        assert(raw_tokens_from(s, mid as nat, t0) == seq![t0] + raw_tokens_from(
            s,
            (mid + 1) as nat,
            Seq::empty(),
        ));
        assert(s.subrange(mid + 1, s.len() as int) =~= join_slash(rest)) by {
            assert forall|m: int| 0 <= m < join_slash(rest).len() implies s.subrange(
                mid + 1,
                s.len() as int,
            )[m] == join_slash(rest)[m] by {
                assert(s[mid + 1 + m] == s.subrange(i as int, s.len() as int)[t0l + 1 + m]);
                assert(join[t0l + 1 + m] == join_slash(rest)[m]);
            }
        }
        assert forall|m: int| 0 <= m < rest.len() implies valid_token(#[trigger] rest[m]) by {
            assert(rest[m] == toks[m + 1]);
        }
        lemma_raw_tokens_join(s, (mid + 1) as nat, rest);
        assert(seq![t0] + rest =~= toks);
    }
}

/// For every well-formed domain and segment list whose last segment does not
/// end in `.git`, parsing the canonical URL built from them yields exactly
/// that domain and exactly those segments back.
pub proof fn lemma_url_roundtrip(domain: Seq<char>, toks: Seq<Seq<char>>)
    requires
        valid_domain(domain),
        toks.len() >= 1,
        forall|m: int| 0 <= m < toks.len() ==> valid_token(#[trigger] toks[m]),
        !ends_with_dot_git(toks.last()),
    ensures
        spec_parse_domain(domain + seq!['/'] + join_slash(toks)) == Some(domain),
        spec_parse_tokens(domain + seq!['/'] + join_slash(toks)) == Some(toks),
{
    let u = domain + seq!['/'] + join_slash(toks);
    let dl = domain.len() as int;
    assert forall|m: int| 0 <= m < dl implies u[m] == domain[m] by {}
    assert(u[dl] == '/');
    // The domain occurrence at position 0, ending at the separator.
    assert(u.subrange(0, 6) =~= domain.subrange(0, 6));
    let di = choose|i: int|
        6 <= i < domain.len() && domain[i] == '.' && (forall|j: int|
            i < j < domain.len() ==> is_suffix_char(#[trigger] domain[j]));
    assert forall|j: int| di < j < dl implies is_suffix_char(#[trigger] u[j]) by {
        assert(u[j] == domain[j]);
    }
    assert forall|j: int| 0 <= j < dl implies !is_delim(#[trigger] u[j]) by {
        assert(u[j] == domain[j]);
    }
    assert(domain_match_at(u, 0, dl)) by {
        assert(u[di] == domain[di]);
    }
    assert(domain_starts_at(u, 0));
    assert(first_start_from(u, 0) == Some(0nat));
    lemma_first_delim_some(u, 0, dl as nat);
    assert(u.subrange(0, dl) =~= domain);
    // The token runs: the domain run, then the segments.
    lemma_raw_tokens_run(u, 0, dl as nat, Seq::empty());
    assert(Seq::empty() + u.subrange(0, dl) =~= domain);
    assert(is_delim(u[dl]));
    assert(domain.len() > 0);
    assert(raw_tokens_from(u, dl as nat, domain) == seq![domain] + raw_tokens_from(
        u,
        (dl + 1) as nat,
        Seq::empty(),
    ));
    assert(u.subrange(dl + 1, u.len() as int) =~= join_slash(toks));
    lemma_raw_tokens_join(u, (dl + 1) as nat, toks);
    let raw = raw_tokens(u);
    assert(raw == seq![domain] + toks);
    assert(raw.len() == 1 + toks.len());
    let toks2 = raw.drop_first();
    assert(toks2 =~= toks);
    assert(strip_dot_git(toks2.last()) == toks2.last());
    assert(toks2.update(toks2.len() - 1, toks2.last()) =~= toks);
}

/// Builds the canonical URL `domain + "/" + tokens.join("/")`.
pub fn make_url(domain: &str, tokens: &[String]) -> (r: String)
    ensures
        r@ == domain@ + seq!['/'] + join_slash(views_of(tokens@)),
{
    let mut r = domain.to_owned();
    r.append("/");
    proof {
        reveal_strlit("/");
        assert("/"@ =~= seq!['/']);
    }
    let joined = join_tokens(tokens);
    r.append(joined.as_str());
    r
}

} // verus!
