//! The byte format the caches persist: length-prefixed values, each
//! character stored as its 32-bit scalar value, lengths and counts as 64-bit
//! little-endian integers. Decoding inverts encoding exactly; any byte
//! sequence that is not an encoding decodes to nothing.

use vstd::prelude::*;

verus! {

use vstd::bytes::{
    spec_u32_to_le_bytes,
    spec_u32_from_le_bytes,
    spec_u64_to_le_bytes,
    spec_u64_from_le_bytes,
    u32_to_le_bytes,
    u32_from_le_bytes,
    u64_to_le_bytes,
    u64_from_le_bytes,
    lemma_auto_spec_u32_to_from_le_bytes,
    lemma_auto_spec_u64_to_from_le_bytes,
};
use vstd::utf8::{is_scalar, char_is_scalar, char_u32_cast};
use vstd::slice::slice_subrange;
use vstd::string::StringExecFns;

/// Relies on char::from_u32: `Some` exactly on Unicode scalar values, and
/// the inverse of the `as u32` cast.
#[verifier::external_body]
fn char_from_u32(v: u32) -> (r: Option<char>)
    ensures
        match r {
            Some(c) => is_scalar(v) && c as u32 == v,
            None => !is_scalar(v),
        },
{
    char::from_u32(v)
}

/// Relies on String::push: appends the character to the string.
#[verifier::external_body]
fn string_push(s: &mut String, c: char)
    ensures
        final(s)@ == old(s)@.push(c),
{
    s.push(c);
}

/// A 64-bit count or length, little endian.
pub open spec fn enc_u64(n: u64) -> Seq<u8> {
    spec_u64_to_le_bytes(n)
}

/// A 32-bit value, little endian.
pub open spec fn enc_u32(n: u32) -> Seq<u8> {
    spec_u32_to_le_bytes(n)
}

/// Characters, each as its scalar value.
pub open spec fn enc_chars(s: Seq<char>) -> Seq<u8>
    decreases s.len(),
{
    if s.len() == 0 {
        Seq::empty()
    } else {
        enc_u32(s[0] as u32) + enc_chars(s.drop_first())
    }
}

/// A string: its length, then its characters.
pub open spec fn enc_str(s: Seq<char>) -> Seq<u8> {
    enc_u64(s.len() as u64) + enc_chars(s)
}

/// An optional string: a presence byte, then the string if present.
pub open spec fn enc_opt_str(o: Option<Seq<char>>) -> Seq<u8> {
    match o {
        None => seq![0u8],
        Some(s) => seq![1u8] + enc_str(s),
    }
}

/// Reads a 64-bit value at `i`; `None` when fewer than 8 bytes remain.
pub open spec fn dec_u64(b: Seq<u8>, i: int) -> Option<(u64, int)> {
    if 0 <= i && i + 8 <= b.len() {
        Some((spec_u64_from_le_bytes(b.subrange(i, i + 8)), i + 8))
    } else {
        None
    }
}

/// Reads a 32-bit value at `i`; `None` when fewer than 4 bytes remain.
pub open spec fn dec_u32(b: Seq<u8>, i: int) -> Option<(u32, int)> {
    if 0 <= i && i + 4 <= b.len() {
        Some((spec_u32_from_le_bytes(b.subrange(i, i + 4)), i + 4))
    } else {
        None
    }
}

/// Reads `n` characters at `i`; `None` on truncation or a value that is no
/// Unicode scalar.
pub open spec fn dec_chars(b: Seq<u8>, i: int, n: nat) -> Option<(Seq<char>, int)>
    decreases n,
{
    if n == 0 {
        Some((Seq::empty(), i))
    } else {
        match dec_u32(b, i) {
            None => None,
            Some((v, j)) => if is_scalar(v) {
                match dec_chars(b, j, (n - 1) as nat) {
                    None => None,
                    Some((s2, k)) => Some((seq![v as char] + s2, k)),
                }
            } else {
                None
            },
        }
    }
}

/// Reads a string at `i`: its length, then that many characters.
pub open spec fn dec_str(b: Seq<u8>, i: int) -> Option<(Seq<char>, int)> {
    match dec_u64(b, i) {
        None => None,
        Some((n, j)) => dec_chars(b, j, n as nat),
    }
}

/// Reads an optional string at `i`.
pub open spec fn dec_opt_str(b: Seq<u8>, i: int) -> Option<(Option<Seq<char>>, int)> {
    if 0 <= i && i < b.len() {
        if b[i] == 0u8 {
            Some((None, i + 1))
        } else if b[i] == 1u8 {
            match dec_str(b, i + 1) {
                Some((s, j)) => Some((Some(s), j)),
                None => None,
            }
        } else {
            None
        }
    } else {
        None
    }
}

/// Decoding a 64-bit value out of its encoding, in any context, yields the
/// value back.
pub proof fn lemma_u64_roundtrip(pre: Seq<u8>, n: u64, post: Seq<u8>)
    ensures
        enc_u64(n).len() == 8,
        dec_u64(pre + enc_u64(n) + post, pre.len() as int) == Some((n, pre.len() as int + 8)),
{
    lemma_auto_spec_u64_to_from_le_bytes();
    assert((pre + enc_u64(n) + post).subrange(pre.len() as int, pre.len() as int + 8) =~= enc_u64(n));
}

/// Decoding a 32-bit value out of its encoding, in any context, yields the
/// value back.
pub proof fn lemma_u32_roundtrip(pre: Seq<u8>, n: u32, post: Seq<u8>)
    ensures
        enc_u32(n).len() == 4,
        dec_u32(pre + enc_u32(n) + post, pre.len() as int) == Some((n, pre.len() as int + 4)),
{
    lemma_auto_spec_u32_to_from_le_bytes();
    assert((pre + enc_u32(n) + post).subrange(pre.len() as int, pre.len() as int + 4) =~= enc_u32(n));
}

/// Decoding characters out of their encoding, in any context, yields them
/// back.
pub proof fn lemma_chars_roundtrip(pre: Seq<u8>, s: Seq<char>, post: Seq<u8>)
    ensures
        enc_chars(s).len() == 4 * s.len(),
        dec_chars(pre + enc_chars(s) + post, pre.len() as int, s.len()) == Some(
            (s, pre.len() as int + enc_chars(s).len()),
        ),
    decreases s.len(),
{
    if s.len() == 0 {
        assert(enc_chars(s) =~= Seq::<u8>::empty());
        assert(s =~= Seq::<char>::empty());
    } else {
        let c0 = s[0];
        let v0 = c0 as u32;
        let rest = s.drop_first();
        let whole = pre + enc_chars(s) + post;
        assert(enc_chars(s) == enc_u32(v0) + enc_chars(rest));
        assert(whole =~= pre + enc_u32(v0) + (enc_chars(rest) + post));
        lemma_u32_roundtrip(pre, v0, enc_chars(rest) + post);
        char_is_scalar(c0);
        char_u32_cast(c0, v0);
        assert(whole =~= (pre + enc_u32(v0)) + enc_chars(rest) + post);
        lemma_chars_roundtrip(pre + enc_u32(v0), rest, post);
        assert(seq![v0 as char] + rest =~= s);
        assert(dec_chars(whole, pre.len() as int, s.len()) == Some(
            (s, pre.len() as int + enc_chars(s).len()),
        ));
    }
}

/// Decoding a string out of its encoding, in any context, yields it back.
pub proof fn lemma_str_roundtrip(pre: Seq<u8>, s: Seq<char>, post: Seq<u8>)
    requires
        s.len() <= u64::MAX,
    ensures
        enc_str(s).len() == 8 + 4 * s.len(),
        dec_str(pre + enc_str(s) + post, pre.len() as int) == Some(
            (s, pre.len() as int + enc_str(s).len()),
        ),
{
    let n = s.len() as u64;
    let whole = pre + enc_str(s) + post;
    assert(whole =~= pre + enc_u64(n) + (enc_chars(s) + post));
    lemma_u64_roundtrip(pre, n, enc_chars(s) + post);
    assert(whole =~= (pre + enc_u64(n)) + enc_chars(s) + post);
    lemma_chars_roundtrip(pre + enc_u64(n), s, post);
}

/// Decoding an optional string out of its encoding, in any context, yields
/// it back.
pub proof fn lemma_opt_str_roundtrip(pre: Seq<u8>, o: Option<Seq<char>>, post: Seq<u8>)
    requires
        match o {
            Some(s) => s.len() <= u64::MAX,
            None => true,
        },
    ensures
        dec_opt_str(pre + enc_opt_str(o) + post, pre.len() as int) == Some(
            (o, pre.len() as int + enc_opt_str(o).len()),
        ),
{
    let whole = pre + enc_opt_str(o) + post;
    match o {
        None => {
            assert(whole[pre.len() as int] == 0u8);
        },
        Some(s) => {
            assert(whole[pre.len() as int] == 1u8);
            assert(whole =~= (pre + seq![1u8]) + enc_str(s) + post);
            lemma_str_roundtrip(pre + seq![1u8], s, post);
        },
    }
}

/// Appends a 64-bit value.
pub fn encode_u64_exec(out: &mut Vec<u8>, n: u64)
    ensures
        final(out)@ == old(out)@ + enc_u64(n),
{
    let mut bs = u64_to_le_bytes(n);
    out.append(&mut bs);
}

/// Appends a 32-bit value.
pub fn encode_u32_exec(out: &mut Vec<u8>, n: u32)
    ensures
        final(out)@ == old(out)@ + enc_u32(n),
{
    let mut bs = u32_to_le_bytes(n);
    out.append(&mut bs);
}

proof fn lemma_enc_chars_push(s: Seq<char>, c: char)
    ensures
        enc_chars(s.push(c)) == enc_chars(s) + enc_u32(c as u32),
    decreases s.len(),
{
    if s.len() == 0 {
        assert(s.push(c)[0] == c);
        assert(s.push(c).drop_first() =~= Seq::<char>::empty());
        assert(enc_chars(s.push(c)) == enc_u32(c as u32) + enc_chars(Seq::<char>::empty()));
        assert(enc_u32(c as u32) + Seq::<u8>::empty() =~= enc_u32(c as u32));
        assert(enc_chars(s) + enc_u32(c as u32) =~= enc_u32(c as u32));
    } else {
        lemma_enc_chars_push(s.drop_first(), c);
        assert(s.push(c).drop_first() =~= s.drop_first().push(c));
        assert(s.push(c)[0] == s[0]);
        assert(enc_chars(s.push(c)) == enc_u32(s[0] as u32) + (enc_chars(s.drop_first()) + enc_u32(
            c as u32,
        )));
        assert(enc_u32(s[0] as u32) + (enc_chars(s.drop_first()) + enc_u32(c as u32)) =~= (enc_u32(
            s[0] as u32,
        ) + enc_chars(s.drop_first())) + enc_u32(c as u32));
    }
}

/// Appends a string's encoding.
pub fn encode_str_exec(out: &mut Vec<u8>, s: &str)
    ensures
        final(out)@ == old(out)@ + enc_str(s@),
        s@.len() <= u64::MAX,
{
    let n = s.unicode_len();
    encode_u64_exec(out, n as u64);
    let ghost base = old(out)@ + enc_u64(s@.len() as u64);
    proof {
        assert(enc_chars(s@.take(0)) =~= Seq::<u8>::empty());
        assert(out@ =~= base + enc_chars(s@.take(0)));
    }
    let mut j: usize = 0;
    while j < n
        invariant
            j <= n,
            n == s@.len(),
            out@ == base + enc_chars(s@.take(j as int)),
        decreases n - j,
    {
        let c = s.get_char(j);
        encode_u32_exec(out, c as u32);
        proof {
            lemma_enc_chars_push(s@.take(j as int), s@[j as int]);
            assert(s@.take(j + 1) =~= s@.take(j as int).push(s@[j as int]));
            assert(base + enc_chars(s@.take(j as int)) + enc_u32(s@[j as int] as u32) =~= base
                + enc_chars(s@.take(j + 1)));
        }
        j = j + 1;
    }
    proof {
        assert(s@.take(n as int) =~= s@);
        assert(out@ =~= old(out)@ + enc_str(s@));
    }
}

/// An optional string whose length fits the count field.
pub open spec fn opt_len_ok(o: Option<Seq<char>>) -> bool {
    match o {
        Some(s) => s.len() <= u64::MAX,
        None => true,
    }
}

/// Appends an optional string's encoding.
pub fn encode_opt_str_exec(out: &mut Vec<u8>, o: &Option<String>)
    ensures
        final(out)@ == old(out)@ + enc_opt_str(crate::gapi::opt_view(*o)),
        opt_len_ok(crate::gapi::opt_view(*o)),
{
    match o {
        None => {
            out.push(0u8);
            proof {
                assert(old(out)@.push(0u8) =~= old(out)@ + seq![0u8]);
            }
        },
        Some(s) => {
            out.push(1u8);
            let ghost mid = out@;
            proof {
                assert(mid =~= old(out)@ + seq![1u8]);
            }
            encode_str_exec(out, s.as_str());
            proof {
                assert((old(out)@ + seq![1u8]) + enc_str(s@) =~= old(out)@ + (seq![1u8] + enc_str(
                    s@,
                )));
            }
        },
    }
}

/// Reads a 64-bit value, per [`dec_u64`].
pub fn decode_u64_exec(b: &Vec<u8>, i: usize) -> (r: Option<(u64, usize)>)
    ensures
        match r {
            Some((v, j)) => dec_u64(b@, i as int) == Some((v, j as int)) && j == i + 8 && j
                <= b@.len(),
            None => dec_u64(b@, i as int) is None,
        },
{
    if b.len() >= 8 && i <= b.len() - 8 {
        let sl = slice_subrange(b.as_slice(), i, i + 8);
        let v = u64_from_le_bytes(sl);
        Some((v, i + 8))
    } else {
        None
    }
}

/// Reads a 32-bit value, per [`dec_u32`].
pub fn decode_u32_exec(b: &Vec<u8>, i: usize) -> (r: Option<(u32, usize)>)
    ensures
        match r {
            Some((v, j)) => dec_u32(b@, i as int) == Some((v, j as int)) && j == i + 4 && j
                <= b@.len(),
            None => dec_u32(b@, i as int) is None,
        },
{
    if b.len() >= 4 && i <= b.len() - 4 {
        let sl = slice_subrange(b.as_slice(), i, i + 4);
        let v = u32_from_le_bytes(sl);
        Some((v, i + 4))
    } else {
        None
    }
}

/// Reads a string, per [`dec_str`].
pub fn decode_str_exec(b: &Vec<u8>, i: usize) -> (r: Option<(String, usize)>)
    ensures
        match r {
            Some((s, j)) => dec_str(b@, i as int) == Some((s@, j as int)) && i <= j <= b@.len(),
            None => dec_str(b@, i as int) is None,
        },
{
    let (n, j0) = match decode_u64_exec(b, i) {
        Some(p) => p,
        None => {
            return None;
        },
    };
    let mut s = String::new();
    let mut j = j0;
    let mut c: u64 = 0;
    while c < n
        invariant
            c <= n,
            i <= j0 <= j <= b@.len(),
            dec_u64(b@, i as int) == Some((n, j0 as int)),
            dec_chars(b@, j0 as int, n as nat) == (match dec_chars(
                b@,
                j as int,
                (n - c) as nat,
            ) {
                Some((s2, k)) => Some((s@ + s2, k)),
                None => None::<(Seq<char>, int)>,
            }),
        decreases n - c,
    {
        let (v, j2) = match decode_u32_exec(b, j) {
            Some(p) => p,
            None => {
                return None;
            },
        };
        let ch = match char_from_u32(v) {
            Some(ch) => ch,
            None => {
                return None;
            },
        };
        let ghost s_old = s@;
        string_push(&mut s, ch);
        proof {
            let m = (n - c) as nat;
            char_u32_cast(ch, v);
            assert(dec_chars(b@, j as int, m) == (match dec_chars(b@, j2 as int, (m - 1) as nat) {
                Some((s2, k)) => Some((seq![ch] + s2, k)),
                None => None::<(Seq<char>, int)>,
            }));
            assert(s@ =~= s_old.push(ch));
            assert forall|s2: Seq<char>| s_old + (seq![ch] + s2) =~= s@ + s2 by {}
        }
        j = j2;
        c = c + 1;
    }
    proof {
        assert(dec_chars(b@, j as int, 0nat) == Some((Seq::<char>::empty(), j as int)));
        assert(s@ + Seq::<char>::empty() =~= s@);
    }
    Some((s, j))
}

/// Reads an optional string, per [`dec_opt_str`].
pub fn decode_opt_str_exec(b: &Vec<u8>, i: usize) -> (r: Option<(Option<String>, usize)>)
    ensures
        match r {
            Some((o, j)) => dec_opt_str(b@, i as int) == Some(
                (crate::gapi::opt_view(o), j as int),
            ) && i < j <= b@.len(),
            None => dec_opt_str(b@, i as int) is None,
        },
{
    if i >= b.len() {
        return None;
    }
    let tag = b[i];
    if tag == 0u8 {
        Some((None, i + 1))
    } else if tag == 1u8 {
        match decode_str_exec(b, i + 1) {
            Some((s, j)) => Some((Some(s), j)),
            None => None,
        }
    } else {
        None
    }
}

} // verus!
