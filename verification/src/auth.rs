//! The credential gate: a username/password pair is checked against the text
//! of a hashed-password store (one `user:hash` line per user, crypt-style
//! hashes), and an authenticated identity can travel in a cookie of the
//! literal form `user:pass`. Unknown users and wrong passwords are never
//! distinguished: the check simply answers false.
use vstd::prelude::*;

use crate::types::Credentials;

verus! {

use vstd::string::StrSliceExecFns;

/// What the htpasswd verifier answers for a store text and a pair. The
/// outcome is a function of the three texts alone. (The verifier's MD5
/// reads block words in native byte order, so the name is pinned to the
/// little-endian builds this crate targets.)
pub uninterp spec fn htpasswd_check_of(store: Seq<char>, user: Seq<char>, pass: Seq<char>) -> bool;

/// The index of the first occurrence of `c` in `s`, or `s.len()` if `c`
/// does not occur.
pub open spec fn first_index(s: Seq<char>, c: char) -> int
    decreases s.len(),
{
    if s.len() == 0 {
        0
    } else if s[0] == c {
        0
    } else {
        1 + first_index(s.drop_first(), c)
    }
}

/// `p` is a prefix of `s`.
pub open spec fn has_prefix(s: Seq<char>, p: Seq<char>) -> bool {
    p.len() <= s.len() && s.take(p.len() as int) == p
}

/// The store's lines: segments split at `'\n'` alone, kept exactly as they
/// stand — the parser does not strip carriage returns, so a `'\r'` before
/// the newline stays inside the hash field.
pub open spec fn store_lines(s: Seq<char>) -> Seq<Seq<char>>
    decreases s.len(),
{
    if s.len() == 0 {
        Seq::empty()
    } else {
        let i = first_index(s, '\n');
        if 0 <= i && i < s.len() {
            seq![s.take(i)] + store_lines(s.skip(i + 1))
        } else {
            seq![s]
        }
    }
}

/// The line holds a `user:hash` entry (it contains a colon).
pub open spec fn line_has_entry(line: Seq<char>) -> bool {
    first_index(line, ':') < line.len()
}

/// The user field of an entry line: the text before the first colon.
pub open spec fn line_user(line: Seq<char>) -> Seq<char> {
    line.take(first_index(line, ':'))
}

/// The hash field of an entry line: the text after the first colon.
pub open spec fn line_hash(line: Seq<char>) -> Seq<char> {
    line.skip(first_index(line, ':') + 1)
}

/// An apr1-MD5 hash field the parser can take apart: `$apr1$`, an
/// eight-character salt, a separator, and the digest, with the first
/// fifteen characters ASCII so the parser's fixed byte offsets exist and
/// fall on character boundaries.
pub open spec fn apr1_hash_safe(hash: Seq<char>) -> bool {
    has_prefix(hash, "$apr1$"@) ==> {
        &&& hash.len() >= 15
        &&& forall|j: int| 0 <= j < 15 ==> (hash[j] as int) < 128
    }
}

/// The six-bit value of a character of the bcrypt base64 alphabet
/// (`.`, `/`, `A`–`Z`, `a`–`z`, `0`–`9`), or a negative number outside it.
pub open spec fn bcrypt_b64_val(c: char) -> int {
    let u = c as int;
    if c == '.' {
        0
    } else if c == '/' {
        1
    } else if ('A' as int) <= u <= ('Z' as int) {
        2 + (u - ('A' as int))
    } else if ('a' as int) <= u <= ('z' as int) {
        28 + (u - ('a' as int))
    } else if ('0' as int) <= u <= ('9' as int) {
        54 + (u - ('0' as int))
    } else {
        -1
    }
}

/// The value of a decimal digit character, or a negative number otherwise.
pub open spec fn digit_val(c: char) -> int {
    if ('0' as int) <= (c as int) <= ('9' as int) {
        (c as int) - ('0' as int)
    } else {
        -1
    }
}

/// A bcrypt hash field the verifier accepts without failing: the modular
/// crypt form `$2y$` + two-digit cost in 4..=31 + `$` + 22 salt and 31
/// checksum characters of the bcrypt alphabet, with the final character of
/// salt and checksum carrying no stray trailing bits.
pub open spec fn bcrypt_hash_wellformed(h: Seq<char>) -> bool {
    &&& h.len() == 60
    &&& digit_val(h[4]) >= 0
    &&& digit_val(h[5]) >= 0
    &&& 4 <= digit_val(h[4]) * 10 + digit_val(h[5]) <= 31
    &&& h[6] == '$'
    &&& forall|j: int| 7 <= j < 60 ==> bcrypt_b64_val(h[j]) >= 0
    &&& bcrypt_b64_val(h[28]) % 16 == 0
    &&& bcrypt_b64_val(h[59]) % 4 == 0
}

/// The fallback scheme (classic unix crypt) reads the first two hash
/// characters as its salt through a 96-entry table indexed by `code - 0x20`:
/// a character below `0x20` underflows and one at `0x80` indexes past the
/// table, so both must be kept out.
pub open spec fn crypt_fallback_hash_safe(h: Seq<char>) -> bool {
    forall|j: int| 0 <= j < 2 && j < h.len() ==> 0x20 <= (#[trigger] h[j] as int) < 0x80
}

/// The hash schemes the checker may run on the queried user's entry, each
/// constrained so its verifier returns instead of failing: an apr1 hash is
/// covered by `apr1_hash_safe` and a `{SHA}` hash is checked by plain
/// comparison, a bcrypt hash must be well formed, and anything else goes to
/// the unix-crypt fallback.
pub open spec fn queried_hash_safe(h: Seq<char>) -> bool {
    if has_prefix(h, "$apr1$"@) {
        true
    } else if has_prefix(h, "$2y$"@) {
        bcrypt_hash_wellformed(h)
    } else if has_prefix(h, "{SHA}"@) {
        true
    } else {
        crypt_fallback_hash_safe(h)
    }
}

/// The underlying crate can parse and check this line without failing:
/// any apr1 entry has the full shape (the parser slices every line
/// eagerly), and an entry for the queried user is safe for whichever
/// scheme its prefix selects (only that user's hash is ever verified).
pub open spec fn entry_parse_safe(line: Seq<char>, user: Seq<char>) -> bool {
    line_has_entry(line) ==> {
        &&& apr1_hash_safe(line_hash(line))
        &&& (line_user(line) == user ==> queried_hash_safe(line_hash(line)))
    }
}

/// Every line of the store can be parsed and, where it concerns `user`,
/// checked without failing. A malformed store is a deployment error: the
/// caller must refuse it before asking for a check.
pub open spec fn store_parse_safe(store: Seq<char>, user: Seq<char>) -> bool {
    forall|k: int|
        0 <= k < store_lines(store).len() ==> entry_parse_safe(
            #[trigger] store_lines(store)[k],
            user,
        )
}

/// Some line of the store is an entry for `user`.
pub open spec fn store_has_user(store: Seq<char>, user: Seq<char>) -> bool {
    exists|k: int|
        0 <= k < store_lines(store).len() && line_has_entry(#[trigger] store_lines(store)[k])
            && line_user(store_lines(store)[k]) == user
}

/// Relies on `htpasswd_verify::Htpasswd::from` followed by
/// `Htpasswd::check`: parsing the store and verifying the pair against the
/// matching entry's hash is deterministic in the three texts, and a user
/// with no entry line checks false. The preconditions keep out the inputs
/// on which the crate fails instead of answering: a truncated or
/// non-ASCII-prefixed `$apr1$` hash on any line; on the queried user's
/// line, a malformed `$2y$` hash or an out-of-table salt character in the
/// unix-crypt fallback; and a password so long that the MD5 path's 32-bit
/// bit counter could wrap.
#[verifier::external_body]
fn htpasswd_check(store: &str, user: &str, pass: &str) -> (r: bool)
    requires
        store_parse_safe(store@, user@),
        pass@.len() < 0x0800_0000,
    ensures
        r == htpasswd_check_of(store@, user@, pass@),
        r ==> store_has_user(store@, user@),
{
    htpasswd_verify::Htpasswd::from(store).check(user, pass)
}

/// The credential gate. `store` is the text of the hashed-password file
/// (reading it is the caller's concern; a missing or malformed file is a
/// deployment error, not a request error, so the caller refuses it before
/// calling, as it refuses a password beyond the hasher's machine limit).
/// False for unknown users and for mismatched passwords alike, and there
/// is no other outcome: a user without an entry can only check false,
/// through the same single boolean as a wrong password.
pub fn verify(store: &str, creds: &Credentials) -> (r: bool)
    requires
        store_parse_safe(store@, creds.user@),
        creds.pass@.len() < 0x0800_0000,
    ensures
        r == htpasswd_check_of(store@, creds.user@, creds.pass@),
        r ==> store_has_user(store@, creds.user@),
{
    htpasswd_check(store, creds.user.as_str(), creds.pass.as_str())
}

/// The cookie value has exactly one colon, at `i`.
pub open spec fn single_colon_at(v: Seq<char>, i: int) -> bool {
    &&& 0 <= i < v.len()
    &&& v[i] == ':'
    &&& forall|j: int| 0 <= j < v.len() && j != i ==> v[j] != ':'
}

/// Splits an identity cookie value of the literal form `user:pass`. Exactly
/// two colon-separated fields are required; any other shape is not an
/// identity. Credentials from a cookie must still be verified.
pub fn parse_auth_cookie(value: &str) -> (r: Option<Credentials>)
    ensures
        r matches Some(c) ==> {
            &&& value@ == c.user@ + seq![':'] + c.pass@
            &&& single_colon_at(value@, c.user@.len() as int)
        },
        forall|i0: int| single_colon_at(value@, i0) ==> r is Some,
{
    let n = value.unicode_len();
    let mut i: usize = 0;
    let mut count: usize = 0;
    let mut pos: usize = 0;
    while i < n
        invariant
            n == value@.len(),
            i <= n,
            count <= i,
            count == 0 ==> forall|j: int| 0 <= j < i ==> value@[j] != ':',
            count == 1 ==> pos < i && value@[pos as int] == ':' && forall|j: int|
                0 <= j < i && j != pos ==> value@[j] != ':',
            count >= 2 ==> exists|j1: int, j2: int|
                0 <= j1 < j2 < i && value@[j1] == ':' && value@[j2] == ':',
        decreases n - i,
    {
        let ch = value.get_char(i);
        if ch == ':' {
            if count == 0 {
                pos = i;
            } else if count == 1 {
                proof {
                    assert(0 <= pos < i && value@[pos as int] == ':' && value@[i as int] == ':');
                }
            }
            count = count + 1;
        }
        i = i + 1;
    }
    if count == 1 {
        let user = value.substring_char(0, pos);
        let pass = value.substring_char(pos + 1, n);
        proof {
            assert(value@ =~= value@.subrange(0, pos as int) + seq![value@[pos as int]]
                + value@.subrange(pos as int + 1, n as int));
        }
        Some(Credentials { user: user.to_owned(), pass: pass.to_owned() })
    } else {
        proof {
            assert forall|i0: int| !single_colon_at(value@, i0) by {
                if single_colon_at(value@, i0) {
                    if count == 0 {
                        assert(value@[i0] != ':');
                        assert(false);
                    } else {
                        let (j1, j2) = choose|j1: int, j2: int|
                            0 <= j1 < j2 < i && value@[j1] == ':' && value@[j2] == ':';
                        assert(j1 != i0 || j2 != i0);
                        assert(false);
                    }
                }
            }
        }
        None
    }
}

/// Builds the identity cookie value `user:pass` for a verified pair.
pub fn make_auth_cookie(creds: &Credentials) -> (s: String)
    ensures
        s@ == creds.user@ + seq![':'] + creds.pass@,
{
    let mut s = creds.user.clone();
    s.append(":");
    s.append(creds.pass.as_str());
    proof {
        reveal_strlit(":");
        assert(":"@ =~= seq![':']);
        assert(s@ =~= creds.user@ + seq![':'] + creds.pass@);
    }
    s
}

/// A `user:pass` cookie value with colon-free fields splits one way only:
/// with `make_auth_cookie` and `parse_auth_cookie`'s contracts this gives
/// the cookie round trip for colon-free credentials.
pub proof fn lemma_cookie_split_unique(u1: Seq<char>, p1: Seq<char>, u2: Seq<char>, p2: Seq<char>)
    requires
        forall|j: int| 0 <= j < u1.len() ==> u1[j] != ':',
        forall|j: int| 0 <= j < u2.len() ==> u2[j] != ':',
        u1 + seq![':'] + p1 == u2 + seq![':'] + p2,
    ensures
        u1 == u2,
        p1 == p2,
{
    let v = u1 + seq![':'] + p1;
    assert(v[u1.len() as int] == ':');
    assert(v[u2.len() as int] == ':');
    if u1.len() < u2.len() {
        assert(v[u1.len() as int] == u2[u1.len() as int]);
        assert(false);
    }
    if u2.len() < u1.len() {
        assert(v[u2.len() as int] == u1[u2.len() as int]);
        assert(false);
    }
    assert forall|j: int| 0 <= j < u1.len() implies u1[j] == u2[j] by {
        assert(v[j] == u1[j]);
        assert(v[j] == u2[j]);
    }
    assert(u1 =~= u2);
    assert(seq![':'].len() == 1);
    assert(v.len() == u1.len() + 1 + p1.len());
    assert(v == u2 + seq![':'] + p2);
    assert(v.len() == u2.len() + 1 + p2.len());
    assert(p1.len() == p2.len());
    assert forall|j: int| 0 <= j < p1.len() implies p1[j] == p2[j] by {
        assert(v[u1.len() + 1 + j] == p1[j]);
        assert(v[u2.len() + 1 + j] == p2[j]);
    }
    assert(p1 =~= p2);
}

} // verus!
