//! The generic cache layer: a keyed in-memory value over an encrypted store.
//! Loading degrades to an empty default when the file is absent or its
//! payload malformed, and is fatal only when decryption itself fails; every
//! mutation is applied in memory first and then persisted whole.

use crate::crypto::{decrypted, CryptoError, PasswdProtectedFile};
use vstd::prelude::*;

verus! {

/// The value stored under `k` in an association list, searching front to
/// back.
pub open spec fn lookup<V>(entries: Seq<(Seq<char>, V)>, k: Seq<char>) -> Option<V>
    decreases entries.len(),
{
    if entries.len() == 0 {
        None
    } else if entries[0].0 == k {
        Some(entries[0].1)
    } else {
        lookup(entries.drop_first(), k)
    }
}

/// No two entries share a key.
pub open spec fn unique_keys<V>(entries: Seq<(Seq<char>, V)>) -> bool {
    forall|i: int, j: int|
        #![trigger entries[i], entries[j]]
        0 <= i < j < entries.len() ==> entries[i].0 != entries[j].0
}

/// `lookup` finds the first entry carrying `k`.
pub proof fn lemma_lookup_at<V>(entries: Seq<(Seq<char>, V)>, k: Seq<char>, i: int)
    requires
        0 <= i < entries.len(),
        entries[i].0 == k,
        forall|m: int| 0 <= m < i ==> (#[trigger] entries[m]).0 != k,
    ensures
        lookup(entries, k) == Some(entries[i].1),
    decreases i,
{
    if i > 0 {
        lemma_lookup_at(entries.drop_first(), k, i - 1);
    }
}

/// `lookup` finds nothing exactly when no entry carries `k`.
pub proof fn lemma_lookup_none_iff<V>(entries: Seq<(Seq<char>, V)>, k: Seq<char>)
    ensures
        lookup(entries, k) is None <==> (forall|m: int|
            0 <= m < entries.len() ==> (#[trigger] entries[m]).0 != k),
    decreases entries.len(),
{
    if entries.len() > 0 {
        lemma_lookup_none_iff(entries.drop_first(), k);
        let rest = entries.drop_first();
        if lookup(entries, k) is None {
            assert(lookup(rest, k) is None);
            assert forall|m: int| 0 <= m < entries.len() implies (#[trigger] entries[m]).0 != k by {
                if m > 0 {
                    assert(entries[m] == rest[m - 1]);
                }
            }
        } else {
            if entries[0].0 == k {
            } else {
                assert(lookup(rest, k) is Some);
                let m = choose|m: int| 0 <= m < rest.len() && (#[trigger] rest[m]).0 == k;
                assert(entries[m + 1] == rest[m]);
            }
        }
    }
}

/// Appending an entry leaves present keys as they were and adds the new one.
pub proof fn lemma_lookup_push<V>(entries: Seq<(Seq<char>, V)>, k: Seq<char>, d: Seq<char>, v: V)
    ensures
        lookup(entries.push((d, v)), k) == (match lookup(entries, k) {
            Some(x) => Some(x),
            None => if k == d {
                Some(v)
            } else {
                None
            },
        }),
    decreases entries.len(),
{
    if entries.len() == 0 {
        assert(entries.push((d, v)) =~= seq![(d, v)]);
        assert(seq![(d, v)][0] == (d, v));
        assert(seq![(d, v)].drop_first() =~= Seq::<(Seq<char>, V)>::empty());
        assert(lookup(Seq::<(Seq<char>, V)>::empty(), k) is None);
        assert(lookup(entries, k) is None);
        if d == k {
            assert(lookup(seq![(d, v)], k) == Some(v));
        } else {
            assert(lookup(seq![(d, v)], k) is None);
        }
    } else {
        lemma_lookup_push(entries.drop_first(), k, d, v);
        assert(entries.push((d, v)).drop_first() =~= entries.drop_first().push((d, v)));
        assert(entries.push((d, v))[0] == entries[0]);
        if entries[0].0 == k {
            assert(lookup(entries.push((d, v)), k) == Some(entries[0].1));
            assert(lookup(entries, k) == Some(entries[0].1));
        } else {
            assert(lookup(entries.push((d, v)), k) == lookup(
                entries.drop_first().push((d, v)),
                k,
            ));
            assert(lookup(entries, k) == lookup(entries.drop_first(), k));
        }
    }
}

/// Removing the entry at `i` removes exactly its key, when keys are unique.
pub proof fn lemma_lookup_remove<V>(entries: Seq<(Seq<char>, V)>, i: int, k: Seq<char>)
    requires
        unique_keys(entries),
        0 <= i < entries.len(),
    ensures
        lookup(entries.remove(i), k) == if k == entries[i].0 {
            None::<V>
        } else {
            lookup(entries, k)
        },
    decreases i,
{
    if i == 0 {
        assert(entries.remove(0) =~= entries.drop_first());
        if k == entries[0].0 {
            lemma_lookup_none_iff(entries.drop_first(), k);
            assert forall|m: int|
                0 <= m < entries.drop_first().len() implies (#[trigger] entries.drop_first()[m]).0
                != k by {
                assert(entries.drop_first()[m] == entries[m + 1]);
            }
        }
    } else {
        assert(entries.remove(i).drop_first() =~= entries.drop_first().remove(i - 1));
        assert(entries.remove(i)[0] == entries[0]);
        assert(unique_keys(entries.drop_first())) by {
            assert forall|a: int, b: int|
                #![trigger entries.drop_first()[a], entries.drop_first()[b]]
                0 <= a < b < entries.drop_first().len() implies entries.drop_first()[a].0
                != entries.drop_first()[b].0 by {
                assert(entries.drop_first()[a] == entries[a + 1]);
                assert(entries.drop_first()[b] == entries[b + 1]);
            }
        }
        assert(entries.drop_first()[i - 1] == entries[i]);
        lemma_lookup_remove(entries.drop_first(), i - 1, k);
    }
}

/// Removing an entry keeps the remaining keys unique.
pub proof fn lemma_unique_remove<V>(entries: Seq<(Seq<char>, V)>, i: int)
    requires
        unique_keys(entries),
        0 <= i < entries.len(),
    ensures
        unique_keys(entries.remove(i)),
{
    let removed = entries.remove(i);
    assert forall|a: int, b: int|
        #![trigger removed[a], removed[b]]
        0 <= a < b < removed.len() implies removed[a].0 != removed[b].0 by {
        let a2 = if a < i {
            a
        } else {
            a + 1
        };
        let b2 = if b < i {
            b
        } else {
            b + 1
        };
        assert(removed[a] == entries[a2]);
        assert(removed[b] == entries[b2]);
    }
}

/// Keys stay unique over remove-then-append of a fresh key.
pub proof fn lemma_unique_after_insert<V>(entries: Seq<(Seq<char>, V)>, d: Seq<char>, v: V)
    requires
        unique_keys(entries),
        forall|m: int| 0 <= m < entries.len() ==> (#[trigger] entries[m]).0 != d,
    ensures
        unique_keys(entries.push((d, v))),
{
    let pushed = entries.push((d, v));
    assert forall|a: int, b: int|
        #![trigger pushed[a], pushed[b]]
        0 <= a < b < pushed.len() implies pushed[a].0 != pushed[b].0 by {
        if b < entries.len() {
            assert(pushed[a] == entries[a]);
            assert(pushed[b] == entries[b]);
        } else {
            assert(pushed[a] == entries[a]);
            assert(pushed[b] == (d, v));
        }
    }
}

/// What loading the cache file produced: nothing yet (a first run), or the
/// decrypted payload.
pub enum Loaded {
    Fresh,
    Bytes(Vec<u8>),
}

/// The shared load policy: an absent or unreadable file is a normal first
/// run and yields a fresh state; a present file that does not decrypt is
/// fatal, never silently treated as empty.
pub fn load_store(file: &PasswdProtectedFile, content: Option<&Vec<u8>>) -> (r: Result<
    Loaded,
    CryptoError,
>)
    ensures
        match r {
            Ok(Loaded::Fresh) => content is None,
            Ok(Loaded::Bytes(b)) => match content {
                Some(c) => decrypted(file.passphrase_view(), c@) == Some(b@),
                None => false,
            },
            Err(e) => match content {
                Some(_) => e == CryptoError::DecryptError,
                None => false,
            },
        },
{
    match file.read(content) {
        Ok(b) => Ok(Loaded::Bytes(b)),
        Err(e) => match e {
            CryptoError::IO => Ok(Loaded::Fresh),
            _ => Err(CryptoError::DecryptError),
        },
    }
}

/// A cache that can serialize and encrypt its in-memory value for its bound
/// file; the embedding program persists the returned ciphertext whole.
pub trait Cachable {
    /// Whether a decrypted payload denotes this cache's current content.
    spec fn persists(&self, bytes: Seq<u8>) -> bool;

    /// The passphrase of the cache's bound store.
    spec fn cache_passphrase(&self) -> Seq<char>;

    /// Serializes and encrypts the current content; a returned ciphertext
    /// decrypts to a payload that denotes exactly that content.
    fn update_cache(&self) -> (r: Result<Vec<u8>, CryptoError>)
        ensures
            match r {
                Ok(c) => match decrypted(self.cache_passphrase(), c@) {
                    Some(bytes) => self.persists(bytes),
                    None => false,
                },
                Err(e) => e == CryptoError::EncryptError,
            },
    ;
}

} // verus!
