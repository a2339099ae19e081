//! The resource cache: an identifier-to-resource map over an encrypted
//! file. A resource is the fetched metadata of a group or project together
//! with a snapshot of its CI/CD variables.

use crate::cache::{
    lemma_lookup_at,
    lemma_lookup_none_iff,
    lemma_lookup_push,
    lemma_lookup_remove,
    lemma_unique_after_insert,
    lemma_unique_remove,
    load_store,
    lookup,
    unique_keys,
    Cachable,
    Loaded,
};
use crate::codec::{
    opt_len_ok,
    dec_opt_str,
    dec_str,
    dec_u32,
    dec_u64,
    decode_opt_str_exec,
    decode_str_exec,
    decode_u32_exec,
    decode_u64_exec,
    enc_opt_str,
    enc_str,
    enc_u32,
    enc_u64,
    encode_opt_str_exec,
    encode_str_exec,
    encode_u32_exec,
    encode_u64_exec,
    lemma_opt_str_roundtrip,
    lemma_str_roundtrip,
    lemma_u32_roundtrip,
    lemma_u64_roundtrip,
};
use crate::crypto::{decrypted, CryptoError, PasswdProtectedFile};
use crate::gapi::{meta_view, opt_view, var_view, GitlabResourceMeta, GitlabVariable};
use vstd::prelude::*;

verus! {

/// The mathematical content of a resource's metadata.
pub type MetaV = (u32, Option<Seq<char>>, Option<Seq<char>>);

/// The mathematical content of one variable.
pub type VarV = (Seq<char>, Seq<char>, Option<Seq<char>>);

/// The mathematical content of a cached resource.
pub type ResourceV = (MetaV, Seq<VarV>);

/// The cached unit: a resource's metadata and a snapshot of its variables.
#[derive(Debug, Default)]
pub struct Resource {
    pub meta: GitlabResourceMeta,
    pub variables: Vec<GitlabVariable>,
}

/// The mathematical content of a variable list.
pub open spec fn vars_view(vs: Seq<GitlabVariable>) -> Seq<VarV> {
    vs.map_values(|v: GitlabVariable| var_view(v))
}

/// The mathematical content of a [`Resource`].
pub open spec fn resource_view(r: Resource) -> ResourceV {
    (meta_view(r.meta), vars_view(r.variables@))
}

impl Resource {
    /// A copy with the same content.
    pub fn duplicate(&self) -> (r: Self)
        ensures
            resource_view(r) == resource_view(*self),
    {
        let mut vars: Vec<GitlabVariable> = Vec::new();
        let mut i: usize = 0;
        while i < self.variables.len()
            invariant
                i <= self.variables@.len(),
                vars@.len() == i,
                forall|m: int|
                    0 <= m < i ==> var_view(#[trigger] vars@[m]) == var_view(self.variables@[m]),
            decreases self.variables@.len() - i,
        {
            vars.push(self.variables[i].duplicate());
            i = i + 1;
        }
        proof {
            assert(vars_view(vars@) =~= vars_view(self.variables@));
        }
        Resource { meta: self.meta.duplicate(), variables: vars }
    }
}

/// A variable whose strings are encodable.
pub open spec fn var_lens_ok(v: VarV) -> bool {
    v.0.len() <= u64::MAX && v.1.len() <= u64::MAX && opt_len_ok(v.2)
}

/// A metadata record whose strings are encodable.
pub open spec fn meta_lens_ok(m: MetaV) -> bool {
    opt_len_ok(m.1) && opt_len_ok(m.2)
}

/// A resource whose strings and variable count are encodable.
pub open spec fn resource_lens_ok(r: ResourceV) -> bool {
    meta_lens_ok(r.0) && r.1.len() <= u64::MAX && (forall|m: int|
        0 <= m < r.1.len() ==> var_lens_ok(#[trigger] r.1[m]))
}

/// Entries whose identifiers and resources are encodable.
pub open spec fn rentry_lens_ok(es: Seq<(Seq<char>, ResourceV)>) -> bool {
    forall|m: int|
        0 <= m < es.len() ==> (#[trigger] es[m]).0.len() <= u64::MAX && resource_lens_ok(es[m].1)
}

/// The byte encoding of one variable.
pub open spec fn enc_var(v: VarV) -> Seq<u8> {
    enc_str(v.0) + enc_str(v.1) + enc_opt_str(v.2)
}

/// The byte encoding of a variable sequence, without its count.
pub open spec fn enc_vars(vs: Seq<VarV>) -> Seq<u8>
    decreases vs.len(),
{
    if vs.len() == 0 {
        Seq::empty()
    } else {
        enc_var(vs[0]) + enc_vars(vs.drop_first())
    }
}

/// The byte encoding of a metadata record.
pub open spec fn enc_meta(m: MetaV) -> Seq<u8> {
    enc_u32(m.0) + enc_opt_str(m.1) + enc_opt_str(m.2)
}

/// The byte encoding of a resource: its metadata, then its counted
/// variables.
pub open spec fn enc_resource(r: ResourceV) -> Seq<u8> {
    enc_meta(r.0) + enc_u64(r.1.len() as u64) + enc_vars(r.1)
}

/// The byte encoding of the entries, each an identifier then a resource.
pub open spec fn enc_rentries(es: Seq<(Seq<char>, ResourceV)>) -> Seq<u8>
    decreases es.len(),
{
    if es.len() == 0 {
        Seq::empty()
    } else {
        enc_str(es[0].0) + enc_resource(es[0].1) + enc_rentries(es.drop_first())
    }
}

/// The byte encoding of the whole map: the entry count, then the entries.
pub open spec fn enc_resource_map(es: Seq<(Seq<char>, ResourceV)>) -> Seq<u8> {
    enc_u64(es.len() as u64) + enc_rentries(es)
}

/// Reads one variable at `i`.
pub open spec fn dec_var(b: Seq<u8>, i: int) -> Option<(VarV, int)> {
    match dec_str(b, i) {
        None => None,
        Some((key, j)) => match dec_str(b, j) {
            None => None,
            Some((value, j2)) => match dec_opt_str(b, j2) {
                None => None,
                Some((desc, j3)) => Some(((key, value, desc), j3)),
            },
        },
    }
}

/// Reads `n` variables at `i`.
pub open spec fn dec_vars(b: Seq<u8>, i: int, n: nat) -> Option<(Seq<VarV>, int)>
    decreases n,
{
    if n == 0 {
        Some((Seq::empty(), i))
    } else {
        match dec_var(b, i) {
            None => None,
            Some((v, j)) => match dec_vars(b, j, (n - 1) as nat) {
                None => None,
                Some((vs, k)) => Some((seq![v] + vs, k)),
            },
        }
    }
}

/// Reads a metadata record at `i`.
pub open spec fn dec_meta(b: Seq<u8>, i: int) -> Option<(MetaV, int)> {
    match dec_u32(b, i) {
        None => None,
        Some((id, j)) => match dec_opt_str(b, j) {
            None => None,
            Some((fp, j2)) => match dec_opt_str(b, j2) {
                None => None,
                Some((pwn, j3)) => Some(((id, fp, pwn), j3)),
            },
        },
    }
}

/// Reads a resource at `i`.
pub open spec fn dec_resource(b: Seq<u8>, i: int) -> Option<(ResourceV, int)> {
    match dec_meta(b, i) {
        None => None,
        Some((m, j)) => match dec_u64(b, j) {
            None => None,
            Some((n, j2)) => match dec_vars(b, j2, n as nat) {
                None => None,
                Some((vs, k)) => Some(((m, vs), k)),
            },
        },
    }
}

/// Reads `n` entries at `i`.
pub open spec fn dec_rentries(b: Seq<u8>, i: int, n: nat) -> Option<
    (Seq<(Seq<char>, ResourceV)>, int),
>
    decreases n,
{
    if n == 0 {
        Some((Seq::empty(), i))
    } else {
        match dec_str(b, i) {
            None => None,
            Some((ident, j)) => match dec_resource(b, j) {
                None => None,
                Some((r, j2)) => match dec_rentries(b, j2, (n - 1) as nat) {
                    None => None,
                    Some((es, k)) => Some((seq![(ident, r)] + es, k)),
                },
            },
        }
    }
}

/// Reads a whole resource map; trailing bytes make the payload malformed.
pub open spec fn dec_resource_map(b: Seq<u8>) -> Option<Seq<(Seq<char>, ResourceV)>> {
    match dec_u64(b, 0) {
        None => None,
        Some((n, j)) => match dec_rentries(b, j, n as nat) {
            None => None,
            Some((es, k)) => if k == b.len() {
                Some(es)
            } else {
                None
            },
        },
    }
}

/// The map a decrypted payload denotes: its decoded entries when they are a
/// well-formed map, the empty map otherwise (cache content is disposable).
pub open spec fn loaded_resource_map(bytes: Seq<u8>) -> Seq<(Seq<char>, ResourceV)> {
    match dec_resource_map(bytes) {
        Some(es) => if unique_keys(es) {
            es
        } else {
            Seq::empty()
        },
        None => Seq::empty(),
    }
}

/// Cache round-trip: a payload that a well-formed cache persisted decodes,
/// through a fresh load, to exactly the map that was persisted — so a fresh
/// cache reconstructed from the same encrypted file returns, under every
/// identifier, the same resource the first cache held when it wrote.
pub proof fn lemma_cache_roundtrip(m: Seq<(Seq<char>, ResourceV)>, bytes: Seq<u8>, k: Seq<char>)
    requires
        unique_keys(m),
        dec_resource_map(bytes) == Some(m),
    ensures
        loaded_resource_map(bytes) == m,
        lookup(loaded_resource_map(bytes), k) == lookup(m, k),
{
}

proof fn lemma_var_roundtrip(pre: Seq<u8>, v: VarV, post: Seq<u8>)
    requires
        var_lens_ok(v),
    ensures
        dec_var(pre + enc_var(v) + post, pre.len() as int) == Some(
            (v, pre.len() as int + enc_var(v).len()),
        ),
{
    let whole = pre + enc_var(v) + post;
    assert(whole =~= pre + enc_str(v.0) + (enc_str(v.1) + enc_opt_str(v.2) + post));
    lemma_str_roundtrip(pre, v.0, enc_str(v.1) + enc_opt_str(v.2) + post);
    assert(whole =~= (pre + enc_str(v.0)) + enc_str(v.1) + (enc_opt_str(v.2) + post));
    lemma_str_roundtrip(pre + enc_str(v.0), v.1, enc_opt_str(v.2) + post);
    assert(whole =~= ((pre + enc_str(v.0)) + enc_str(v.1)) + enc_opt_str(v.2) + post);
    lemma_opt_str_roundtrip((pre + enc_str(v.0)) + enc_str(v.1), v.2, post);
}

proof fn lemma_vars_roundtrip(pre: Seq<u8>, vs: Seq<VarV>, post: Seq<u8>)
    requires
        forall|m: int| 0 <= m < vs.len() ==> var_lens_ok(#[trigger] vs[m]),
    ensures
        dec_vars(pre + enc_vars(vs) + post, pre.len() as int, vs.len()) == Some(
            (vs, pre.len() as int + enc_vars(vs).len()),
        ),
    decreases vs.len(),
{
    if vs.len() == 0 {
        assert(enc_vars(vs) =~= Seq::<u8>::empty());
        assert(vs =~= Seq::<VarV>::empty());
    } else {
        let v0 = vs[0];
        let rest = vs.drop_first();
        let whole = pre + enc_vars(vs) + post;
        assert(enc_vars(vs) == enc_var(v0) + enc_vars(rest));
        assert(whole =~= pre + enc_var(v0) + (enc_vars(rest) + post));
        lemma_var_roundtrip(pre, v0, enc_vars(rest) + post);
        assert(whole =~= (pre + enc_var(v0)) + enc_vars(rest) + post);
        assert forall|m: int| 0 <= m < rest.len() implies var_lens_ok(#[trigger] rest[m]) by {
            assert(rest[m] == vs[m + 1]);
        }
        lemma_vars_roundtrip(pre + enc_var(v0), rest, post);
        assert(seq![v0] + rest =~= vs);
    }
}

proof fn lemma_meta_roundtrip(pre: Seq<u8>, m: MetaV, post: Seq<u8>)
    requires
        meta_lens_ok(m),
    ensures
        dec_meta(pre + enc_meta(m) + post, pre.len() as int) == Some(
            (m, pre.len() as int + enc_meta(m).len()),
        ),
{
    let whole = pre + enc_meta(m) + post;
    assert(whole =~= pre + enc_u32(m.0) + (enc_opt_str(m.1) + enc_opt_str(m.2) + post));
    lemma_u32_roundtrip(pre, m.0, enc_opt_str(m.1) + enc_opt_str(m.2) + post);
    assert(whole =~= (pre + enc_u32(m.0)) + enc_opt_str(m.1) + (enc_opt_str(m.2) + post));
    lemma_opt_str_roundtrip(pre + enc_u32(m.0), m.1, enc_opt_str(m.2) + post);
    assert(whole =~= ((pre + enc_u32(m.0)) + enc_opt_str(m.1)) + enc_opt_str(m.2) + post);
    lemma_opt_str_roundtrip((pre + enc_u32(m.0)) + enc_opt_str(m.1), m.2, post);
}

proof fn lemma_resource_roundtrip(pre: Seq<u8>, r: ResourceV, post: Seq<u8>)
    requires
        resource_lens_ok(r),
    ensures
        dec_resource(pre + enc_resource(r) + post, pre.len() as int) == Some(
            (r, pre.len() as int + enc_resource(r).len()),
        ),
{
    let n = r.1.len() as u64;
    let whole = pre + enc_resource(r) + post;
    assert(whole =~= pre + enc_meta(r.0) + (enc_u64(n) + enc_vars(r.1) + post));
    lemma_meta_roundtrip(pre, r.0, enc_u64(n) + enc_vars(r.1) + post);
    assert(whole =~= (pre + enc_meta(r.0)) + enc_u64(n) + (enc_vars(r.1) + post));
    lemma_u64_roundtrip(pre + enc_meta(r.0), n, enc_vars(r.1) + post);
    assert(whole =~= ((pre + enc_meta(r.0)) + enc_u64(n)) + enc_vars(r.1) + post);
    lemma_vars_roundtrip((pre + enc_meta(r.0)) + enc_u64(n), r.1, post);
}

#[verifier::rlimit(50)]
proof fn lemma_rentries_roundtrip(pre: Seq<u8>, es: Seq<(Seq<char>, ResourceV)>, post: Seq<u8>)
    requires
        rentry_lens_ok(es),
    ensures
        dec_rentries(pre + enc_rentries(es) + post, pre.len() as int, es.len()) == Some(
            (es, pre.len() as int + enc_rentries(es).len()),
        ),
    decreases es.len(),
{
    if es.len() == 0 {
        assert(enc_rentries(es) =~= Seq::<u8>::empty());
        assert(es =~= Seq::<(Seq<char>, ResourceV)>::empty());
    } else {
        let e0 = es[0];
        let rest = es.drop_first();
        let whole = pre + enc_rentries(es) + post;
        assert(enc_rentries(es) == enc_str(e0.0) + enc_resource(e0.1) + enc_rentries(rest));
        assert(whole =~= pre + enc_str(e0.0) + (enc_resource(e0.1) + enc_rentries(rest) + post));
        lemma_str_roundtrip(pre, e0.0, enc_resource(e0.1) + enc_rentries(rest) + post);
        assert(whole =~= (pre + enc_str(e0.0)) + enc_resource(e0.1) + (enc_rentries(rest) + post));
        lemma_resource_roundtrip(pre + enc_str(e0.0), e0.1, enc_rentries(rest) + post);
        assert(whole =~= ((pre + enc_str(e0.0)) + enc_resource(e0.1)) + enc_rentries(rest) + post);
        assert(rentry_lens_ok(rest)) by {
            assert forall|m: int| 0 <= m < rest.len() implies (#[trigger] rest[m]).0.len()
                <= u64::MAX && resource_lens_ok(rest[m].1) by {
                assert(rest[m] == es[m + 1]);
            }
        }
        lemma_rentries_roundtrip((pre + enc_str(e0.0)) + enc_resource(e0.1), rest, post);
        assert(seq![(e0.0, e0.1)] + rest =~= es);
    }
}

/// Decoding an encoded resource map yields the same entries back.
pub proof fn lemma_resource_map_roundtrip(es: Seq<(Seq<char>, ResourceV)>)
    requires
        rentry_lens_ok(es),
        es.len() <= u64::MAX,
    ensures
        dec_resource_map(enc_resource_map(es)) == Some(es),
{
    let n = es.len() as u64;
    let whole = enc_resource_map(es);
    assert(whole =~= Seq::<u8>::empty() + enc_u64(n) + enc_rentries(es));
    lemma_u64_roundtrip(Seq::empty(), n, enc_rentries(es));
    assert(whole =~= enc_u64(n) + enc_rentries(es) + Seq::<u8>::empty());
    lemma_rentries_roundtrip(enc_u64(n), es, Seq::empty());
}

/// Appends one variable's encoding.
fn encode_var_exec(out: &mut Vec<u8>, v: &GitlabVariable)
    ensures
        final(out)@ == old(out)@ + enc_var(var_view(*v)),
        var_lens_ok(var_view(*v)),
{
    encode_str_exec(out, v.key.as_str());
    encode_str_exec(out, v.value.as_str());
    encode_opt_str_exec(out, &v.description);
    proof {
        assert(old(out)@ + enc_str(v.key@) + enc_str(v.value@) + enc_opt_str(
            opt_view(v.description),
        ) =~= old(out)@ + enc_var(var_view(*v)));
    }
}

/// Appends a resource's encoding.
fn encode_resource_exec(out: &mut Vec<u8>, r: &Resource)
    ensures
        final(out)@ == old(out)@ + enc_resource(resource_view(*r)),
        resource_lens_ok(resource_view(*r)),
{
    let ghost rv = resource_view(*r);
    encode_u32_exec(out, r.meta.id);
    encode_opt_str_exec(out, &r.meta.full_path);
    encode_opt_str_exec(out, &r.meta.path_with_namespace);
    proof {
        assert(out@ =~= old(out)@ + enc_meta(rv.0));
    }
    let ghost base = out@;
    encode_u64_exec(out, r.variables.len() as u64);
    let ghost base2 = out@;
    proof {
        assert(enc_vars(rv.1.take(0)) =~= Seq::<u8>::empty());
        assert(out@ =~= base2 + enc_vars(rv.1.take(0)));
    }
    let mut i: usize = 0;
    while i < r.variables.len()
        invariant
            i <= r.variables@.len(),
            rv == resource_view(*r),
            rv.1.len() == r.variables@.len(),
            out@ == base2 + enc_vars(rv.1.take(i as int)),
            forall|m: int| 0 <= m < i ==> var_lens_ok(#[trigger] rv.1[m]),
        decreases r.variables@.len() - i,
    {
        encode_var_exec(out, &r.variables[i]);
        proof {
            assert(rv.1[i as int] == var_view(r.variables@[i as int]));
            lemma_enc_vars_push(rv.1.take(i as int), rv.1[i as int]);
            assert(rv.1.take(i + 1) =~= rv.1.take(i as int).push(rv.1[i as int]));
            assert((base2 + enc_vars(rv.1.take(i as int))) + enc_var(rv.1[i as int]) =~= base2
                + enc_vars(rv.1.take(i + 1)));
        }
        i = i + 1;
    }
    proof {
        assert(rv.1.take(rv.1.len() as int) =~= rv.1);
        assert(out@ =~= old(out)@ + enc_resource(rv));
    }
}

proof fn lemma_enc_vars_push(vs: Seq<VarV>, v: VarV)
    ensures
        enc_vars(vs.push(v)) == enc_vars(vs) + enc_var(v),
    decreases vs.len(),
{
    if vs.len() == 0 {
        assert(vs.push(v)[0] == v);
        assert(vs.push(v).drop_first() =~= Seq::<VarV>::empty());
        assert(enc_vars(vs.push(v)) == enc_var(v) + enc_vars(Seq::<VarV>::empty()));
        assert(enc_var(v) + Seq::<u8>::empty() =~= enc_var(v));
        assert(enc_vars(vs) + enc_var(v) =~= enc_var(v));
    } else {
        lemma_enc_vars_push(vs.drop_first(), v);
        assert(vs.push(v).drop_first() =~= vs.drop_first().push(v));
        assert(vs.push(v)[0] == vs[0]);
        assert(enc_vars(vs.push(v)) == enc_var(vs[0]) + (enc_vars(vs.drop_first()) + enc_var(v)));
        assert(enc_var(vs[0]) + (enc_vars(vs.drop_first()) + enc_var(v)) =~= (enc_var(vs[0])
            + enc_vars(vs.drop_first())) + enc_var(v));
    }
}

/// Clones a variable list, preserving its content.
fn duplicate_vars(vs: &Vec<GitlabVariable>) -> (r: Vec<GitlabVariable>)
    ensures
        vars_view(r@) == vars_view(vs@),
{
    let mut out: Vec<GitlabVariable> = Vec::new();
    let mut i: usize = 0;
    while i < vs.len()
        invariant
            i <= vs@.len(),
            out@.len() == i,
            forall|m: int| 0 <= m < i ==> var_view(#[trigger] out@[m]) == var_view(vs@[m]),
        decreases vs@.len() - i,
    {
        out.push(vs[i].duplicate());
        i = i + 1;
    }
    proof {
        assert(vars_view(out@) =~= vars_view(vs@));
    }
    out
}

/// Reads one variable, per [`dec_var`].
fn decode_var_exec(b: &Vec<u8>, i: usize) -> (r: Option<(GitlabVariable, usize)>)
    ensures
        match r {
            Some((v, j)) => dec_var(b@, i as int) == Some((var_view(v), j as int)) && i <= j
                <= b@.len(),
            None => dec_var(b@, i as int) is None,
        },
{
    let (key, j) = match decode_str_exec(b, i) {
        Some(p) => p,
        None => {
            return None;
        },
    };
    let (value, j2) = match decode_str_exec(b, j) {
        Some(p) => p,
        None => {
            return None;
        },
    };
    let (description, j3) = match decode_opt_str_exec(b, j2) {
        Some(p) => p,
        None => {
            return None;
        },
    };
    Some((GitlabVariable { key, value, description }, j3))
}

/// Reads a metadata record, per [`dec_meta`].
fn decode_meta_exec(b: &Vec<u8>, i: usize) -> (r: Option<(GitlabResourceMeta, usize)>)
    ensures
        match r {
            Some((m, j)) => dec_meta(b@, i as int) == Some((meta_view(m), j as int)) && i <= j
                <= b@.len(),
            None => dec_meta(b@, i as int) is None,
        },
{
    let (id, j) = match decode_u32_exec(b, i) {
        Some(p) => p,
        None => {
            return None;
        },
    };
    let (full_path, j2) = match decode_opt_str_exec(b, j) {
        Some(p) => p,
        None => {
            return None;
        },
    };
    let (path_with_namespace, j3) = match decode_opt_str_exec(b, j2) {
        Some(p) => p,
        None => {
            return None;
        },
    };
    Some((GitlabResourceMeta { id, full_path, path_with_namespace }, j3))
}

/// Reads a resource, per [`dec_resource`].
fn decode_resource_exec(b: &Vec<u8>, i: usize) -> (r: Option<(Resource, usize)>)
    ensures
        match r {
            Some((res, j)) => dec_resource(b@, i as int) == Some((resource_view(res), j as int))
                && i <= j <= b@.len(),
            None => dec_resource(b@, i as int) is None,
        },
{
    let (meta, j0) = match decode_meta_exec(b, i) {
        Some(p) => p,
        None => {
            return None;
        },
    };
    let ghost mv = meta_view(meta);
    let (n, j1) = match decode_u64_exec(b, j0) {
        Some(p) => p,
        None => {
            return None;
        },
    };
    let mut vars: Vec<GitlabVariable> = Vec::new();
    let mut j = j1;
    let mut c: u64 = 0;
    proof {
        assert(vars_view(vars@) =~= Seq::<VarV>::empty());
    }
    while c < n
        invariant
            c <= n,
            i <= j0 <= j1 <= j <= b@.len(),
            mv == meta_view(meta),
            dec_meta(b@, i as int) == Some((mv, j0 as int)),
            dec_u64(b@, j0 as int) == Some((n, j1 as int)),
            dec_vars(b@, j1 as int, n as nat) == (match dec_vars(b@, j as int, (n - c) as nat) {
                Some((vs, k)) => Some((vars_view(vars@) + vs, k)),
                None => None::<(Seq<VarV>, int)>,
            }),
        decreases n - c,
    {
        let (v, j2) = match decode_var_exec(b, j) {
            Some(p) => p,
            None => {
                return None;
            },
        };
        let ghost vars_old = vars@;
        vars.push(v);
        proof {
            let m = (n - c) as nat;
            assert(vars_view(vars@) =~= vars_view(vars_old).push(var_view(vars@[vars@.len() - 1])));
            assert forall|vs: Seq<VarV>|
                vars_view(vars_old) + (seq![var_view(vars@[vars@.len() - 1])] + vs) =~= vars_view(
                    vars@,
                ) + vs by {}
        }
        j = j2;
        c = c + 1;
    }
    proof {
        assert(dec_vars(b@, j as int, 0nat) == Some((Seq::<VarV>::empty(), j as int)));
        assert(vars_view(vars@) + Seq::<VarV>::empty() =~= vars_view(vars@));
    }
    Some((Resource { meta, variables: vars }, j))
}

/// One cached entry: a resource under its identifier.
struct ResourceEntry {
    identifier: String,
    resource: Resource,
}

/// The mathematical content of an entry list.
spec fn rentries_view(es: Seq<ResourceEntry>) -> Seq<(Seq<char>, ResourceV)> {
    es.map_values(|e: ResourceEntry| (e.identifier@, resource_view(e.resource)))
}

/// Decodes a persisted resource map, per [`dec_resource_map`].
fn decode_resource_map(b: &Vec<u8>) -> (r: Option<Vec<ResourceEntry>>)
    ensures
        match r {
            Some(v) => dec_resource_map(b@) == Some(rentries_view(v@)),
            None => dec_resource_map(b@) is None,
        },
{
    let (n, j0) = match decode_u64_exec(b, 0) {
        Some(p) => p,
        None => {
            return None;
        },
    };
    let mut es: Vec<ResourceEntry> = Vec::new();
    let mut j = j0;
    let mut c: u64 = 0;
    proof {
        assert(rentries_view(es@) =~= Seq::<(Seq<char>, ResourceV)>::empty());
    }
    while c < n
        invariant
            c <= n,
            j0 <= j <= b@.len(),
            dec_u64(b@, 0) == Some((n, j0 as int)),
            dec_rentries(b@, j0 as int, n as nat) == (match dec_rentries(
                b@,
                j as int,
                (n - c) as nat,
            ) {
                Some((es2, k)) => Some((rentries_view(es@) + es2, k)),
                None => None::<(Seq<(Seq<char>, ResourceV)>, int)>,
            }),
        decreases n - c,
    {
        let (ident, j1) = match decode_str_exec(b, j) {
            Some(p) => p,
            None => {
                return None;
            },
        };
        let (res, j2) = match decode_resource_exec(b, j1) {
            Some(p) => p,
            None => {
                return None;
            },
        };
        let ghost es_old = es@;
        es.push(ResourceEntry { identifier: ident, resource: res });
        proof {
            let m = (n - c) as nat;
            let last = es@[es@.len() - 1];
            assert(rentries_view(es@) =~= rentries_view(es_old).push(
                (last.identifier@, resource_view(last.resource)),
            ));
            assert forall|es2: Seq<(Seq<char>, ResourceV)>|
                rentries_view(es_old) + (seq![(last.identifier@, resource_view(last.resource))]
                    + es2) =~= rentries_view(es@) + es2 by {}
        }
        j = j2;
        c = c + 1;
    }
    if j != b.len() {
        return None;
    }
    proof {
        assert(dec_rentries(b@, j as int, 0nat) == Some(
            (Seq::<(Seq<char>, ResourceV)>::empty(), j as int),
        ));
        assert(rentries_view(es@) + Seq::<(Seq<char>, ResourceV)>::empty() =~= rentries_view(es@));
    }
    Some(es)
}

proof fn lemma_enc_rentries_push(es: Seq<(Seq<char>, ResourceV)>, e: (Seq<char>, ResourceV))
    ensures
        enc_rentries(es.push(e)) == enc_rentries(es) + enc_str(e.0) + enc_resource(e.1),
    decreases es.len(),
{
    if es.len() == 0 {
        assert(es.push(e)[0] == e);
        assert(es.push(e).drop_first() =~= Seq::<(Seq<char>, ResourceV)>::empty());
        assert(enc_rentries(es.push(e)) == enc_str(e.0) + enc_resource(e.1) + enc_rentries(
            Seq::<(Seq<char>, ResourceV)>::empty(),
        ));
        assert(enc_str(e.0) + enc_resource(e.1) + Seq::<u8>::empty() =~= enc_str(e.0)
            + enc_resource(e.1));
        assert(enc_rentries(es) + enc_str(e.0) + enc_resource(e.1) =~= enc_str(e.0) + enc_resource(
            e.1,
        ));
    } else {
        lemma_enc_rentries_push(es.drop_first(), e);
        assert(es.push(e).drop_first() =~= es.drop_first().push(e));
        assert(es.push(e)[0] == es[0]);
        assert(enc_rentries(es.push(e)) == enc_str(es[0].0) + enc_resource(es[0].1) + (enc_rentries(
            es.drop_first(),
        ) + enc_str(e.0) + enc_resource(e.1)));
        assert(enc_str(es[0].0) + enc_resource(es[0].1) + (enc_rentries(es.drop_first()) + enc_str(
            e.0,
        ) + enc_resource(e.1)) =~= (enc_str(es[0].0) + enc_resource(es[0].1) + enc_rentries(
            es.drop_first(),
        )) + enc_str(e.0) + enc_resource(e.1));
    }
}

/// Encodes the entries for persistence.
fn encode_resource_map(es: &Vec<ResourceEntry>) -> (out: Vec<u8>)
    ensures
        out@ == enc_resource_map(rentries_view(es@)),
        rentry_lens_ok(rentries_view(es@)),
{
    let ghost ev = rentries_view(es@);
    let mut out: Vec<u8> = Vec::new();
    encode_u64_exec(&mut out, es.len() as u64);
    let ghost base = enc_u64(ev.len() as u64);
    proof {
        assert(enc_rentries(ev.take(0)) =~= Seq::<u8>::empty());
        assert(out@ =~= base + enc_rentries(ev.take(0)));
    }
    let mut i: usize = 0;
    while i < es.len()
        invariant
            i <= es@.len(),
            ev == rentries_view(es@),
            ev.len() == es@.len(),
            out@ == base + enc_rentries(ev.take(i as int)),
            base == enc_u64(ev.len() as u64),
            forall|m: int|
                0 <= m < i ==> (#[trigger] ev[m]).0.len() <= u64::MAX && resource_lens_ok(ev[m].1),
        decreases es@.len() - i,
    {
        let e = &es[i];
        encode_str_exec(&mut out, e.identifier.as_str());
        encode_resource_exec(&mut out, &e.resource);
        proof {
            assert(ev[i as int] == (es@[i as int].identifier@, resource_view(
                es@[i as int].resource,
            )));
            lemma_enc_rentries_push(ev.take(i as int), ev[i as int]);
            assert(ev.take(i + 1) =~= ev.take(i as int).push(ev[i as int]));
            assert((base + enc_rentries(ev.take(i as int)) + enc_str(ev[i as int].0))
                + enc_resource(ev[i as int].1) =~= base + (enc_rentries(ev.take(i as int))
                + enc_str(ev[i as int].0) + enc_resource(ev[i as int].1)));
        }
        i = i + 1;
    }
    proof {
        assert(ev.take(ev.len() as int) =~= ev);
    }
    out
}

/// The position of the entry carrying `identifier`, if any.
fn find_rindex(es: &Vec<ResourceEntry>, identifier: &str) -> (r: Option<usize>)
    ensures
        match r {
            Some(i) => i < es@.len() && rentries_view(es@)[i as int].0 == identifier@ && (forall|
                m: int,
            | 0 <= m < i ==> (#[trigger] rentries_view(es@)[m]).0 != identifier@),
            None => forall|m: int|
                0 <= m < es@.len() ==> (#[trigger] rentries_view(es@)[m]).0 != identifier@,
        },
{
    let ghost ev = rentries_view(es@);
    let needle = identifier.to_owned();
    let mut i: usize = 0;
    while i < es.len()
        invariant
            i <= es@.len(),
            ev == rentries_view(es@),
            ev.len() == es@.len(),
            needle@ == identifier@,
            forall|m: int| 0 <= m < i ==> (#[trigger] ev[m]).0 != identifier@,
        decreases es@.len() - i,
    {
        if es[i].identifier == needle {
            proof {
                assert(ev[i as int] == (es@[i as int].identifier@, resource_view(
                    es@[i as int].resource,
                )));
            }
            return Some(i);
        }
        proof {
            assert(ev[i as int] == (es@[i as int].identifier@, resource_view(
                es@[i as int].resource,
            )));
        }
        i = i + 1;
    }
    None
}

/// Whether the entries carry pairwise distinct identifiers.
fn rentries_unique(es: &Vec<ResourceEntry>) -> (r: bool)
    ensures
        r == unique_keys(rentries_view(es@)),
{
    let ghost ev = rentries_view(es@);
    let mut i: usize = 0;
    while i < es.len()
        invariant
            i <= es@.len(),
            ev == rentries_view(es@),
            forall|a: int, b: int|
                #![trigger ev[a], ev[b]]
                0 <= a < b < ev.len() && a < i ==> ev[a].0 != ev[b].0,
        decreases es@.len() - i,
    {
        let mut j = i + 1;
        while j < es.len()
            invariant
                i < j <= es@.len(),
                ev == rentries_view(es@),
                i < es@.len(),
                forall|b: int| #![trigger ev[b]] i < b < j ==> ev[i as int].0 != ev[b].0,
            decreases es@.len() - j,
        {
            if es[i].identifier == es[j].identifier {
                proof {
                    assert(ev[i as int].0 == ev[j as int].0);
                }
                return false;
            }
            j = j + 1;
        }
        i = i + 1;
    }
    true
}

/// The identifier a resource's metadata derives: its full path for a group,
/// its namespaced path for a project.
pub open spec fn ident_of(m: GitlabResourceMeta) -> Seq<char> {
    match m.full_path {
        Some(p) => p@,
        None => match m.path_with_namespace {
            Some(p) => p@,
            None => Seq::empty(),
        },
    }
}

/// The identifier-to-resource cache. Its map's identifiers are unique; each
/// insert is applied in memory, then persisted whole.
pub struct CachedResources {
    file: PasswdProtectedFile,
    entries: Vec<ResourceEntry>,
}

impl CachedResources {
    /// The cached map, as an association list with unique keys.
    pub closed spec fn map(&self) -> Seq<(Seq<char>, ResourceV)> {
        rentries_view(self.entries@)
    }

    /// The cache's well-formedness: no two entries share an identifier.
    pub closed spec fn wf(&self) -> bool {
        unique_keys(self.map())
    }

    /// The passphrase of the bound file.
    pub closed spec fn file_passphrase(&self) -> Seq<char> {
        self.file.passphrase_view()
    }

    /// The location of the bound file.
    pub closed spec fn file_path(&self) -> Seq<char> {
        self.file.path_view()
    }

    /// Loads the cache from the bound file's content. An absent file yields
    /// an empty cache; a payload that decrypts but does not decode to a
    /// well-formed map yields an empty cache; a payload that does not
    /// decrypt is fatal.
    pub fn new(file: PasswdProtectedFile, content: Option<&Vec<u8>>) -> (r: Result<
        CachedResources,
        CryptoError,
    >)
        ensures
            match r {
                Ok(st) => st.wf() && st.file_passphrase() == file.passphrase_view()
                    && st.file_path() == file.path_view() && (match content {
                    None => st.map() == Seq::<(Seq<char>, ResourceV)>::empty(),
                    Some(c) => match decrypted(file.passphrase_view(), c@) {
                        Some(bytes) => st.map() == loaded_resource_map(bytes),
                        None => false,
                    },
                }),
                Err(e) => e == CryptoError::DecryptError && content is Some,
            },
    {
        let loaded = match load_store(&file, content) {
            Ok(l) => l,
            Err(e) => {
                return Err(e);
            },
        };
        match loaded {
            Loaded::Fresh => {
                let st = CachedResources { file, entries: Vec::new() };
                proof {
                    assert(st.map() =~= Seq::<(Seq<char>, ResourceV)>::empty());
                }
                Ok(st)
            },
            Loaded::Bytes(b) => {
                match decode_resource_map(&b) {
                    Some(es) => {
                        if rentries_unique(&es) {
                            Ok(CachedResources { file, entries: es })
                        } else {
                            let st = CachedResources { file, entries: Vec::new() };
                            proof {
                                assert(st.map() =~= Seq::<(Seq<char>, ResourceV)>::empty());
                            }
                            Ok(st)
                        }
                    },
                    None => {
                        let st = CachedResources { file, entries: Vec::new() };
                        proof {
                            assert(st.map() =~= Seq::<(Seq<char>, ResourceV)>::empty());
                        }
                        Ok(st)
                    },
                }
            },
        }
    }

    /// A copy of the cached resource under an identifier, if any.
    pub fn get(&self, identifier: &str) -> (r: Option<Resource>)
        ensures
            match r {
                Some(res) => lookup(self.map(), identifier@) == Some(resource_view(res)),
                None => lookup(self.map(), identifier@) is None,
            },
    {
        match find_rindex(&self.entries, identifier) {
            Some(i) => {
                proof {
                    lemma_lookup_at(self.map(), identifier@, i as int);
                }
                Some(self.entries[i].resource.duplicate())
            },
            None => {
                proof {
                    lemma_lookup_none_iff(self.map(), identifier@);
                }
                None
            },
        }
    }

    /// The known identifiers, in storage order (the order is not
    /// significant).
    pub fn list(&self) -> (r: Vec<String>)
        ensures
            r@.len() == self.map().len(),
            forall|m: int| 0 <= m < r@.len() ==> (#[trigger] r@[m])@ == self.map()[m].0,
    {
        let mut r: Vec<String> = Vec::new();
        let mut i: usize = 0;
        while i < self.entries.len()
            invariant
                i <= self.entries@.len(),
                self.map().len() == self.entries@.len(),
                r@.len() == i,
                forall|m: int| 0 <= m < i ==> (#[trigger] r@[m])@ == self.map()[m].0,
            decreases self.entries@.len() - i,
        {
            r.push(self.entries[i].identifier.clone());
            proof {
                assert(self.map()[i as int] == (self.entries@[i as int].identifier@, resource_view(
                    self.entries@[i as int].resource,
                )));
            }
            i = i + 1;
        }
        r
    }

    /// Serializes and encrypts the current map; the embedding program
    /// persists the result.
    fn write(&self) -> (r: Result<Vec<u8>, CryptoError>)
        requires
            self.wf(),
        ensures
            match r {
                Ok(c) => match decrypted(self.file_passphrase(), c@) {
                    Some(bytes) => dec_resource_map(bytes) == Some(self.map())
                        && loaded_resource_map(bytes) == self.map(),
                    None => false,
                },
                Err(e) => e == CryptoError::EncryptError,
            },
    {
        let n_entries = self.entries.len();
        let bytes = encode_resource_map(&self.entries);
        proof {
            assert(self.map().len() == n_entries as int);
            lemma_resource_map_roundtrip(self.map());
        }
        self.file.write(bytes.as_slice())
    }

    /// Removes the entry under an identifier, if present, keeping every
    /// other binding as it was.
    fn remove_ident(&mut self, identifier: &str)
        requires
            old(self).wf(),
        ensures
            final(self).wf(),
            final(self).file_passphrase() == old(self).file_passphrase(),
            final(self).file_path() == old(self).file_path(),
            forall|k: Seq<char>|
                #![trigger lookup(final(self).map(), k)]
                lookup(final(self).map(), k) == if k == identifier@ {
                    None::<ResourceV>
                } else {
                    lookup(old(self).map(), k)
                },
    {
        let ghost ev0 = self.map();
        match find_rindex(&self.entries, identifier) {
            Some(idx) => {
                let _old_entry = self.entries.remove(idx);
                proof {
                    assert(rentries_view(self.entries@) =~= ev0.remove(idx as int));
                    lemma_unique_remove(ev0, idx as int);
                    assert forall|k: Seq<char>|
                        #![trigger lookup(self.map(), k)]
                        lookup(self.map(), k) == (if k == identifier@ {
                            None::<ResourceV>
                        } else {
                            lookup(ev0, k)
                        }) by {
                        lemma_lookup_remove(ev0, idx as int, k);
                    }
                }
            },
            None => {
                proof {
                    lemma_lookup_none_iff(ev0, identifier@);
                    assert forall|k: Seq<char>|
                        #![trigger lookup(self.map(), k)]
                        lookup(self.map(), k) == (if k == identifier@ {
                            None::<ResourceV>
                        } else {
                            lookup(ev0, k)
                        }) by {}
                }
            },
        }
    }

    /// Stores the fetched resource under the identifier its metadata
    /// derives (the group's full path, else the project's namespaced path),
    /// then persists the whole map. The in-memory insertion stands even when
    /// persisting fails; a failed persist is reported, not fatal.
    pub fn insert(&mut self, meta: &GitlabResourceMeta, variables: &Vec<GitlabVariable>) -> (r:
        Result<Vec<u8>, CryptoError>)
        requires
            old(self).wf(),
            meta.full_path is Some || meta.path_with_namespace is Some,
        ensures
            final(self).wf(),
            final(self).file_passphrase() == old(self).file_passphrase(),
            final(self).file_path() == old(self).file_path(),
            forall|k: Seq<char>|
                #![trigger lookup(final(self).map(), k)]
                lookup(final(self).map(), k) == if k == ident_of(*meta) {
                    Some((meta_view(*meta), vars_view(variables@)))
                } else {
                    lookup(old(self).map(), k)
                },
            match r {
                Ok(c) => match decrypted(final(self).file_passphrase(), c@) {
                    Some(bytes) => dec_resource_map(bytes) == Some(final(self).map()) && loaded_resource_map(
                        bytes,
                    ) == final(self).map(),
                    None => false,
                },
                Err(e) => e == CryptoError::EncryptError,
            },
    {
        let ghost ev0 = self.map();
        let identifier: String = match &meta.full_path {
            Some(p) => p.clone(),
            None => match &meta.path_with_namespace {
                Some(p) => p.clone(),
                None => {
                    proof {
                        assert(false);
                    }
                    String::new()
                },
            },
        };
        self.remove_ident(identifier.as_str());
        let ghost mid = self.map();
        let resource = Resource { meta: meta.duplicate(), variables: duplicate_vars(variables) };
        let ghost rv = resource_view(resource);
        self.entries.push(ResourceEntry { identifier, resource });
        proof {
            assert(self.map() =~= mid.push((ident_of(*meta), rv)));
            assert(rv == (meta_view(*meta), vars_view(variables@)));
            lemma_lookup_none_iff(mid, ident_of(*meta));
            lemma_unique_after_insert(mid, ident_of(*meta), rv);
            assert forall|k: Seq<char>|
                #![trigger lookup(self.map(), k)]
                lookup(self.map(), k) == (if k == ident_of(*meta) {
                    Some((meta_view(*meta), vars_view(variables@)))
                } else {
                    lookup(ev0, k)
                }) by {
                lemma_lookup_push(mid, k, ident_of(*meta), rv);
            }
        }
        self.write()
    }
}

impl Cachable for CachedResources {
    open spec fn persists(&self, bytes: Seq<u8>) -> bool {
        dec_resource_map(bytes) == Some(self.map())
    }

    open spec fn cache_passphrase(&self) -> Seq<char> {
        self.file_passphrase()
    }

    fn update_cache(&self) -> (r: Result<Vec<u8>, CryptoError>) {
        // Every store this crate builds is well-formed; the guard keeps this
        // trait entry point, which carries no precondition, from persisting
        // a malformed map.
        if !rentries_unique(&self.entries) {
            return Err(CryptoError::EncryptError);
        }
        self.write()
    }
}

} // verus!
