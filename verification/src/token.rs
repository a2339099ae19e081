//! The credential store: a domain-to-token map over an encrypted file.

use crate::cache::{
    lemma_lookup_at,
    lemma_lookup_none_iff,
    lemma_lookup_push,
    lemma_lookup_remove,
    lemma_unique_after_insert,
    load_store,
    lookup,
    unique_keys,
    Cachable,
    Loaded,
};
use crate::codec::{
    dec_str,
    dec_u64,
    decode_str_exec,
    decode_u64_exec,
    enc_str,
    enc_u64,
    encode_str_exec,
    encode_u64_exec,
    lemma_str_roundtrip,
    lemma_u64_roundtrip,
};
use crate::crypto::{decrypted, CryptoError, PasswdProtectedFile};
use vstd::prelude::*;

verus! {

/// One stored credential: the token issued for a domain.
#[derive(Debug)]
pub struct TokenEntry {
    pub domain: String,
    pub token: String,
}

/// The mathematical content of an entry.
pub open spec fn entry_view(e: TokenEntry) -> (Seq<char>, Seq<char>) {
    (e.domain@, e.token@)
}

/// The mathematical content of an entry list.
pub open spec fn entries_view(es: Seq<TokenEntry>) -> Seq<(Seq<char>, Seq<char>)> {
    es.map_values(|e: TokenEntry| entry_view(e))
}

/// Every string in the entries is encodable (its length fits the count
/// field).
pub open spec fn entry_lens_ok(es: Seq<(Seq<char>, Seq<char>)>) -> bool {
    forall|m: int|
        0 <= m < es.len() ==> (#[trigger] es[m]).0.len() <= u64::MAX && es[m].1.len() <= u64::MAX
}

/// The byte encoding of the entries, each a domain string then a token
/// string.
pub open spec fn enc_token_entries(es: Seq<(Seq<char>, Seq<char>)>) -> Seq<u8>
    decreases es.len(),
{
    if es.len() == 0 {
        Seq::empty()
    } else {
        enc_str(es[0].0) + enc_str(es[0].1) + enc_token_entries(es.drop_first())
    }
}

/// The byte encoding of the whole map: the entry count, then the entries.
pub open spec fn enc_token_map(es: Seq<(Seq<char>, Seq<char>)>) -> Seq<u8> {
    enc_u64(es.len() as u64) + enc_token_entries(es)
}

/// Reads `n` entries at `i`.
pub open spec fn dec_token_entries(b: Seq<u8>, i: int, n: nat) -> Option<
    (Seq<(Seq<char>, Seq<char>)>, int),
>
    decreases n,
{
    if n == 0 {
        Some((Seq::empty(), i))
    } else {
        match dec_str(b, i) {
            None => None,
            Some((d, j)) => match dec_str(b, j) {
                None => None,
                Some((t, j2)) => match dec_token_entries(b, j2, (n - 1) as nat) {
                    None => None,
                    Some((es, k)) => Some((seq![(d, t)] + es, k)),
                },
            },
        }
    }
}

/// Reads a whole token map; trailing bytes make the payload malformed.
pub open spec fn dec_token_map(b: Seq<u8>) -> Option<Seq<(Seq<char>, Seq<char>)>> {
    match dec_u64(b, 0) {
        None => None,
        Some((n, j)) => match dec_token_entries(b, j, n as nat) {
            None => None,
            Some((es, k)) => if k == b.len() {
                Some(es)
            } else {
                None
            },
        },
    }
}

/// The map a decrypted payload denotes: its decoded entries when they are a
/// well-formed map, the empty map otherwise (cache content is disposable).
pub open spec fn loaded_token_map(bytes: Seq<u8>) -> Seq<(Seq<char>, Seq<char>)> {
    match dec_token_map(bytes) {
        Some(es) => if unique_keys(es) {
            es
        } else {
            Seq::empty()
        },
        None => Seq::empty(),
    }
}

proof fn lemma_token_entries_roundtrip(pre: Seq<u8>, es: Seq<(Seq<char>, Seq<char>)>, post: Seq<u8>)
    requires
        entry_lens_ok(es),
    ensures
        dec_token_entries(pre + enc_token_entries(es) + post, pre.len() as int, es.len()) == Some(
            (es, pre.len() as int + enc_token_entries(es).len()),
        ),
    decreases es.len(),
{
    if es.len() == 0 {
        assert(enc_token_entries(es) =~= Seq::<u8>::empty());
        assert(es =~= Seq::<(Seq<char>, Seq<char>)>::empty());
    } else {
        let e0 = es[0];
        let rest = es.drop_first();
        let whole = pre + enc_token_entries(es) + post;
        assert(enc_token_entries(es) == enc_str(e0.0) + enc_str(e0.1) + enc_token_entries(rest));
        assert(whole =~= pre + enc_str(e0.0) + (enc_str(e0.1) + enc_token_entries(rest) + post));
        lemma_str_roundtrip(pre, e0.0, enc_str(e0.1) + enc_token_entries(rest) + post);
        assert(whole =~= (pre + enc_str(e0.0)) + enc_str(e0.1) + (enc_token_entries(rest) + post));
        lemma_str_roundtrip(pre + enc_str(e0.0), e0.1, enc_token_entries(rest) + post);
        assert(whole =~= ((pre + enc_str(e0.0)) + enc_str(e0.1)) + enc_token_entries(rest) + post);
        assert(entry_lens_ok(rest)) by {
            assert forall|m: int| 0 <= m < rest.len() implies (#[trigger] rest[m]).0.len()
                <= u64::MAX && rest[m].1.len() <= u64::MAX by {
                assert(rest[m] == es[m + 1]);
            }
        }
        lemma_token_entries_roundtrip((pre + enc_str(e0.0)) + enc_str(e0.1), rest, post);
        assert(seq![(e0.0, e0.1)] + rest =~= es);
    }
}

/// Decoding an encoded token map yields the same entries back.
pub proof fn lemma_token_map_roundtrip(es: Seq<(Seq<char>, Seq<char>)>)
    requires
        entry_lens_ok(es),
        es.len() <= u64::MAX,
    ensures
        dec_token_map(enc_token_map(es)) == Some(es),
{
    let n = es.len() as u64;
    let whole = enc_token_map(es);
    assert(whole =~= Seq::<u8>::empty() + enc_u64(n) + enc_token_entries(es));
    lemma_u64_roundtrip(Seq::empty(), n, enc_token_entries(es));
    assert(whole =~= enc_u64(n) + enc_token_entries(es) + Seq::<u8>::empty());
    lemma_token_entries_roundtrip(enc_u64(n), es, Seq::empty());
    assert(whole.len() == 8 + enc_token_entries(es).len());
}

/// Encodes the entries for persistence.
fn encode_token_map(es: &Vec<TokenEntry>) -> (out: Vec<u8>)
    ensures
        out@ == enc_token_map(entries_view(es@)),
        entry_lens_ok(entries_view(es@)),
{
    let ghost ev = entries_view(es@);
    let mut out: Vec<u8> = Vec::new();
    encode_u64_exec(&mut out, es.len() as u64);
    let ghost base = enc_u64(ev.len() as u64);
    proof {
        assert(enc_token_entries(ev.take(0)) =~= Seq::<u8>::empty());
        assert(out@ =~= base + enc_token_entries(ev.take(0)));
    }
    let mut i: usize = 0;
    while i < es.len()
        invariant
            i <= es@.len(),
            ev == entries_view(es@),
            ev.len() == es@.len(),
            out@ == base + enc_token_entries(ev.take(i as int)),
            base == enc_u64(ev.len() as u64),
            forall|m: int|
                0 <= m < i ==> (#[trigger] ev[m]).0.len() <= u64::MAX && ev[m].1.len() <= u64::MAX,
        decreases es@.len() - i,
    {
        let e = &es[i];
        encode_str_exec(&mut out, e.domain.as_str());
        encode_str_exec(&mut out, e.token.as_str());
        proof {
            assert(ev[i as int] == entry_view(es@[i as int]));
            assert(ev[i as int].0.len() <= u64::MAX && ev[i as int].1.len() <= u64::MAX);
            lemma_enc_token_entries_push(ev.take(i as int), ev[i as int]);
            assert(ev.take(i + 1) =~= ev.take(i as int).push(ev[i as int]));
            assert((base + enc_token_entries(ev.take(i as int)) + enc_str(ev[i as int].0))
                + enc_str(ev[i as int].1) =~= base + (enc_token_entries(ev.take(i as int))
                + enc_str(ev[i as int].0) + enc_str(ev[i as int].1)));
        }
        i = i + 1;
    }
    proof {
        assert(ev.take(ev.len() as int) =~= ev);
    }
    out
}

proof fn lemma_enc_token_entries_push(es: Seq<(Seq<char>, Seq<char>)>, e: (Seq<char>, Seq<char>))
    ensures
        enc_token_entries(es.push(e)) == enc_token_entries(es) + enc_str(e.0) + enc_str(e.1),
    decreases es.len(),
{
    if es.len() == 0 {
        assert(es.push(e)[0] == e);
        assert(es.push(e).drop_first() =~= Seq::<(Seq<char>, Seq<char>)>::empty());
        assert(enc_token_entries(es.push(e)) == enc_str(e.0) + enc_str(e.1) + enc_token_entries(
            Seq::<(Seq<char>, Seq<char>)>::empty(),
        ));
        assert(enc_str(e.0) + enc_str(e.1) + Seq::<u8>::empty() =~= enc_str(e.0) + enc_str(e.1));
        assert(enc_token_entries(es) + enc_str(e.0) + enc_str(e.1) =~= enc_str(e.0) + enc_str(e.1));
    } else {
        lemma_enc_token_entries_push(es.drop_first(), e);
        assert(es.push(e).drop_first() =~= es.drop_first().push(e));
        assert(es.push(e)[0] == es[0]);
        assert(enc_token_entries(es.push(e)) == enc_str(es[0].0) + enc_str(es[0].1) + (
        enc_token_entries(es.drop_first()) + enc_str(e.0) + enc_str(e.1)));
        assert(enc_str(es[0].0) + enc_str(es[0].1) + (enc_token_entries(es.drop_first()) + enc_str(
            e.0,
        ) + enc_str(e.1)) =~= (enc_str(es[0].0) + enc_str(es[0].1) + enc_token_entries(
            es.drop_first(),
        )) + enc_str(e.0) + enc_str(e.1));
    }
}

/// Decodes a persisted token map, per [`dec_token_map`].
fn decode_token_map(b: &Vec<u8>) -> (r: Option<Vec<TokenEntry>>)
    ensures
        match r {
            Some(v) => dec_token_map(b@) == Some(entries_view(v@)),
            None => dec_token_map(b@) is None,
        },
{
    let (n, j0) = match decode_u64_exec(b, 0) {
        Some(p) => p,
        None => {
            return None;
        },
    };
    let mut es: Vec<TokenEntry> = Vec::new();
    let mut j = j0;
    let mut c: u64 = 0;
    proof {
        assert(entries_view(es@) =~= Seq::<(Seq<char>, Seq<char>)>::empty());
    }
    while c < n
        invariant
            c <= n,
            j0 <= j <= b@.len(),
            dec_u64(b@, 0) == Some((n, j0 as int)),
            dec_token_entries(b@, j0 as int, n as nat) == (match dec_token_entries(
                b@,
                j as int,
                (n - c) as nat,
            ) {
                Some((es2, k)) => Some((entries_view(es@) + es2, k)),
                None => None::<(Seq<(Seq<char>, Seq<char>)>, int)>,
            }),
        decreases n - c,
    {
        let (d, j1) = match decode_str_exec(b, j) {
            Some(p) => p,
            None => {
                return None;
            },
        };
        let (t, j2) = match decode_str_exec(b, j1) {
            Some(p) => p,
            None => {
                return None;
            },
        };
        let ghost es_old = es@;
        es.push(TokenEntry { domain: d, token: t });
        proof {
            let m = (n - c) as nat;
            assert(entries_view(es@) =~= entries_view(es_old).push(entry_view(es@[es@.len() - 1])));
            assert forall|es2: Seq<(Seq<char>, Seq<char>)>|
                entries_view(es_old) + (seq![entry_view(es@[es@.len() - 1])] + es2) =~= entries_view(
                    es@,
                ) + es2 by {}
        }
        j = j2;
        c = c + 1;
    }
    if j != b.len() {
        return None;
    }
    proof {
        assert(dec_token_entries(b@, j as int, 0nat) == Some(
            (Seq::<(Seq<char>, Seq<char>)>::empty(), j as int),
        ));
        assert(entries_view(es@) + Seq::<(Seq<char>, Seq<char>)>::empty() =~= entries_view(es@));
    }
    Some(es)
}

/// Whether the entries carry pairwise distinct domains.
fn entries_unique(es: &Vec<TokenEntry>) -> (r: bool)
    ensures
        r == unique_keys(entries_view(es@)),
{
    let ghost ev = entries_view(es@);
    let mut i: usize = 0;
    while i < es.len()
        invariant
            i <= es@.len(),
            ev == entries_view(es@),
            forall|a: int, b: int|
                #![trigger ev[a], ev[b]]
                0 <= a < b < ev.len() && a < i ==> ev[a].0 != ev[b].0,
        decreases es@.len() - i,
    {
        let mut j = i + 1;
        while j < es.len()
            invariant
                i < j <= es@.len(),
                ev == entries_view(es@),
                i < es@.len(),
                forall|b: int| #![trigger ev[b]] i < b < j ==> ev[i as int].0 != ev[b].0,
            decreases es@.len() - j,
        {
            if es[i].domain == es[j].domain {
                proof {
                    assert(ev[i as int].0 == ev[j as int].0);
                }
                return false;
            }
            j = j + 1;
        }
        i = i + 1;
    }
    true
}

/// The domain-to-token credential store. Its map's domains are unique; each
/// mutation is applied in memory, then persisted whole.
pub struct TokenStore {
    file: PasswdProtectedFile,
    entries: Vec<TokenEntry>,
}

impl TokenStore {
    /// The stored map, as an association list with unique keys.
    pub closed spec fn map(&self) -> Seq<(Seq<char>, Seq<char>)> {
        entries_view(self.entries@)
    }

    /// The store's well-formedness: no two entries share a domain.
    pub closed spec fn wf(&self) -> bool {
        unique_keys(self.map())
    }

    /// The passphrase of the bound file.
    pub closed spec fn file_passphrase(&self) -> Seq<char> {
        self.file.passphrase_view()
    }

    /// The location of the bound file.
    pub closed spec fn file_path(&self) -> Seq<char> {
        self.file.path_view()
    }

    /// Loads the store from the bound file's content. An absent file yields
    /// an empty store; a payload that decrypts but does not decode to a
    /// well-formed map yields an empty store; a payload that does not
    /// decrypt is fatal.
    pub fn new(file: PasswdProtectedFile, content: Option<&Vec<u8>>) -> (r: Result<
        TokenStore,
        CryptoError,
    >)
        ensures
            match r {
                Ok(st) => st.wf() && st.file_passphrase() == file.passphrase_view()
                    && st.file_path() == file.path_view() && (match content {
                    None => st.map() == Seq::<(Seq<char>, Seq<char>)>::empty(),
                    Some(c) => match decrypted(file.passphrase_view(), c@) {
                        Some(bytes) => st.map() == loaded_token_map(bytes),
                        None => false,
                    },
                }),
                Err(e) => e == CryptoError::DecryptError && content is Some,
            },
    {
        let loaded = match load_store(&file, content) {
            Ok(l) => l,
            Err(e) => {
                return Err(e);
            },
        };
        match loaded {
            Loaded::Fresh => {
                let st = TokenStore { file, entries: Vec::new() };
                proof {
                    assert(st.map() =~= Seq::<(Seq<char>, Seq<char>)>::empty());
                }
                Ok(st)
            },
            Loaded::Bytes(b) => {
                match decode_token_map(&b) {
                    Some(es) => {
                        if entries_unique(&es) {
                            Ok(TokenStore { file, entries: es })
                        } else {
                            let st = TokenStore { file, entries: Vec::new() };
                            proof {
                                assert(st.map() =~= Seq::<(Seq<char>, Seq<char>)>::empty());
                            }
                            Ok(st)
                        }
                    },
                    None => {
                        let st = TokenStore { file, entries: Vec::new() };
                        proof {
                            assert(st.map() =~= Seq::<(Seq<char>, Seq<char>)>::empty());
                        }
                        Ok(st)
                    },
                }
            },
        }
    }

    /// The stored token for a domain, if any.
    pub fn get(&self, domain: &str) -> (r: Option<String>)
        ensures
            match r {
                Some(t) => lookup(self.map(), domain@) == Some(t@),
                None => lookup(self.map(), domain@) is None,
            },
    {
        match find_index(&self.entries, domain) {
            Some(i) => {
                proof {
                    lemma_lookup_at(self.map(), domain@, i as int);
                }
                Some(self.entries[i].token.clone())
            },
            None => {
                proof {
                    lemma_lookup_none_iff(self.map(), domain@);
                }
                None
            },
        }
    }

    /// The known domains, in storage order (the order is not significant).
    pub fn list_domains(&self) -> (r: Vec<String>)
        ensures
            r@.len() == self.map().len(),
            forall|m: int| 0 <= m < r@.len() ==> (#[trigger] r@[m])@ == self.map()[m].0,
    {
        let mut r: Vec<String> = Vec::new();
        let mut i: usize = 0;
        while i < self.entries.len()
            invariant
                i <= self.entries@.len(),
                self.map().len() == self.entries@.len(),
                r@.len() == i,
                forall|m: int| 0 <= m < i ==> (#[trigger] r@[m])@ == self.map()[m].0,
            decreases self.entries@.len() - i,
        {
            r.push(self.entries[i].domain.clone());
            proof {
                assert(self.map()[i as int] == entry_view(self.entries@[i as int]));
            }
            i = i + 1;
        }
        r
    }

    /// Serializes and encrypts the current map; the embedding program
    /// persists the result.
    fn write(&self) -> (r: Result<Vec<u8>, CryptoError>)
        requires
            self.wf(),
        ensures
            match r {
                Ok(c) => match decrypted(self.file_passphrase(), c@) {
                    Some(bytes) => dec_token_map(bytes) == Some(self.map()) && loaded_token_map(
                        bytes,
                    ) == self.map(),
                    None => false,
                },
                Err(e) => e == CryptoError::EncryptError,
            },
    {
        let n_entries = self.entries.len();
        let bytes = encode_token_map(&self.entries);
        proof {
            assert(self.map().len() == n_entries as int);
            lemma_token_map_roundtrip(self.map());
        }
        self.file.write(bytes.as_slice())
    }

    /// Removes the entry for a domain, if present, keeping every other
    /// binding as it was.
    fn remove_domain(&mut self, domain: &str)
        requires
            old(self).wf(),
        ensures
            final(self).wf(),
            final(self).file_passphrase() == old(self).file_passphrase(),
            final(self).file_path() == old(self).file_path(),
            forall|k: Seq<char>|
                #![trigger lookup(final(self).map(), k)]
                lookup(final(self).map(), k) == if k == domain@ {
                    None::<Seq<char>>
                } else {
                    lookup(old(self).map(), k)
                },
    {
        let ghost ev0 = self.map();
        match find_index(&self.entries, domain) {
            Some(idx) => {
                let _old_entry = self.entries.remove(idx);
                proof {
                    assert(entries_view(self.entries@) =~= ev0.remove(idx as int));
                    crate::cache::lemma_unique_remove(ev0, idx as int);
                    assert forall|k: Seq<char>|
                        #![trigger lookup(self.map(), k)]
                        lookup(self.map(), k) == (if k == domain@ {
                            None::<Seq<char>>
                        } else {
                            lookup(ev0, k)
                        }) by {
                        lemma_lookup_remove(ev0, idx as int, k);
                    }
                }
            },
            None => {
                proof {
                    lemma_lookup_none_iff(ev0, domain@);
                    assert forall|k: Seq<char>|
                        #![trigger lookup(self.map(), k)]
                        lookup(self.map(), k) == (if k == domain@ {
                            None::<Seq<char>>
                        } else {
                            lookup(ev0, k)
                        }) by {}
                }
            },
        }
    }

    /// Inserts (or replaces) the token for a domain, then persists the whole
    /// map. The in-memory insertion stands even when persisting fails; the
    /// caller decides what a failed persist means.
    pub fn add_token(&mut self, domain: &str, token: &str) -> (r: Result<Vec<u8>, CryptoError>)
        requires
            old(self).wf(),
        ensures
            final(self).wf(),
            final(self).file_passphrase() == old(self).file_passphrase(),
            final(self).file_path() == old(self).file_path(),
            forall|k: Seq<char>|
                #![trigger lookup(final(self).map(), k)]
                lookup(final(self).map(), k) == if k == domain@ {
                    Some(token@)
                } else {
                    lookup(old(self).map(), k)
                },
            match r {
                Ok(c) => match decrypted(final(self).file_passphrase(), c@) {
                    Some(bytes) => dec_token_map(bytes) == Some(final(self).map()) && loaded_token_map(
                        bytes,
                    ) == final(self).map(),
                    None => false,
                },
                Err(e) => e == CryptoError::EncryptError,
            },
    {
        let ghost ev0 = self.map();
        self.remove_domain(domain);
        let ghost mid = self.map();
        self.entries.push(TokenEntry { domain: domain.to_owned(), token: token.to_owned() });
        proof {
            assert(self.map() =~= mid.push((domain@, token@)));
            lemma_lookup_none_iff(mid, domain@);
            lemma_unique_after_insert(mid, domain@, token@);
            assert forall|k: Seq<char>|
                #![trigger lookup(self.map(), k)]
                lookup(self.map(), k) == (if k == domain@ {
                    Some(token@)
                } else {
                    lookup(ev0, k)
                }) by {
                lemma_lookup_push(mid, k, domain@, token@);
            }
        }
        self.write()
    }
}

/// The position of the entry carrying `domain`, if any.
fn find_index(entries: &Vec<TokenEntry>, domain: &str) -> (r: Option<usize>)
    ensures
        match r {
            Some(i) => i < entries@.len() && entries_view(entries@)[i as int].0 == domain@ && (
            forall|m: int| 0 <= m < i ==> (#[trigger] entries_view(entries@)[m]).0 != domain@),
            None => forall|m: int|
                0 <= m < entries@.len() ==> (#[trigger] entries_view(entries@)[m]).0 != domain@,
        },
{
    let ghost ev = entries_view(entries@);
    let needle = domain.to_owned();
    let mut i: usize = 0;
    while i < entries.len()
        invariant
            i <= entries@.len(),
            ev == entries_view(entries@),
            ev.len() == entries@.len(),
            needle@ == domain@,
            forall|m: int| 0 <= m < i ==> (#[trigger] ev[m]).0 != domain@,
        decreases entries@.len() - i,
    {
        if entries[i].domain == needle {
            proof {
                assert(ev[i as int] == entry_view(entries@[i as int]));
            }
            return Some(i);
        }
        proof {
            assert(ev[i as int] == entry_view(entries@[i as int]));
        }
        i = i + 1;
    }
    None
}

impl Cachable for TokenStore {
    open spec fn persists(&self, bytes: Seq<u8>) -> bool {
        dec_token_map(bytes) == Some(self.map())
    }

    open spec fn cache_passphrase(&self) -> Seq<char> {
        self.file_passphrase()
    }

    fn update_cache(&self) -> (r: Result<Vec<u8>, CryptoError>) {
        // Every store this crate builds is well-formed; the guard keeps this
        // trait entry point, which carries no precondition, from persisting
        // a malformed map.
        if !entries_unique(&self.entries) {
            return Err(CryptoError::EncryptError);
        }
        self.write()
    }
}

} // verus!
