//! Cache key generation: request canonicalization and a deterministic,
//! collision-resistant fingerprint over the request's caching-relevant parts.

use vstd::prelude::*;
use vstd::string::StringExecFns;

use crate::text::chars_of;
use crate::text::chars_lex_lt;
use crate::text::lex_lt;
use crate::text::lower_of;
use crate::text::spec_trim;
use crate::text::str_eq;
use crate::text::string_of;
use crate::text::to_lowercase;
use crate::text::to_uppercase;
use crate::text::trim_chars;
use crate::text::upper_of;
use crate::proxy::normalize::normalize_path;
use crate::proxy::normalize::spec_normalize_path;
use crate::utils::errors::AppError;

verus! {

/// View of a header list as name/value character sequences, in order.
pub open spec fn pairs_view(v: Seq<(String, String)>) -> Seq<(Seq<char>, Seq<char>)> {
    Seq::new(v.len(), |i: int| (v[i].0@, v[i].1@))
}

/// Header names that never influence the fingerprint.
pub open spec fn spec_excluded_header(name: Seq<char>) -> bool {
    ||| name == "authorization"@
    ||| name == "x-forwarded-for"@
    ||| name == "x-real-ip"@
    ||| name == "x-forwarded-proto"@
    ||| name == "x-forwarded-host"@
    ||| name == "user-agent"@
    ||| name == "accept-encoding"@
    ||| name == "connection"@
    ||| name == "cache-control"@
    ||| name == "pragma"@
}

fn is_excluded_header(name: &str) -> (r: bool)
    ensures
        r == spec_excluded_header(name@),
{
    str_eq(name, "authorization") || str_eq(name, "x-forwarded-for") || str_eq(name, "x-real-ip")
        || str_eq(name, "x-forwarded-proto") || str_eq(name, "x-forwarded-host") || str_eq(
        name,
        "user-agent",
    ) || str_eq(name, "accept-encoding") || str_eq(name, "connection") || str_eq(
        name,
        "cache-control",
    ) || str_eq(name, "pragma")
}

/// Canonical form of one header value: trimmed, then lowercased.
pub open spec fn spec_header_value(v: Seq<char>) -> Seq<char> {
    lower_of(spec_trim(v))
}

/// Normalizes a header value as the fingerprint sees it.
pub fn normalize_header_value(value: &str) -> (r: String)
    ensures
        r@ == spec_header_value(value@),
{
    let v = chars_of(value);
    let t = trim_chars(&v);
    let s = string_of(&t);
    to_lowercase(s.as_str())
}

/// Inserts a header into a name-sorted list; an equal name is replaced, so a
/// later occurrence wins.
pub open spec fn sorted_insert_header(
    s: Seq<(Seq<char>, Seq<char>)>,
    kv: (Seq<char>, Seq<char>),
) -> Seq<(Seq<char>, Seq<char>)>
    decreases s.len(),
{
    if s.len() == 0 {
        seq![kv]
    } else if lex_lt(s[0].0, kv.0) {
        seq![s[0]] + sorted_insert_header(s.drop_first(), kv)
    } else if s[0].0 == kv.0 {
        seq![kv] + s.drop_first()
    } else {
        seq![kv] + s
    }
}

/// The canonical header list: names lowercased, excluded names dropped, values
/// trimmed and lowercased, a later occurrence of a name replacing an earlier
/// one, the result sorted by name.
pub open spec fn spec_normalize_headers(hs: Seq<(Seq<char>, Seq<char>)>) -> Seq<
    (Seq<char>, Seq<char>),
>
    decreases hs.len(),
{
    if hs.len() == 0 {
        Seq::empty()
    } else {
        let prev = spec_normalize_headers(hs.drop_last());
        let name = lower_of(hs.last().0);
        if spec_excluded_header(name) {
            prev
        } else {
            sorted_insert_header(prev, (name, spec_header_value(hs.last().1)))
        }
    }
}

proof fn lemma_sorted_insert_at(
    s: Seq<(Seq<char>, Seq<char>)>,
    kv: (Seq<char>, Seq<char>),
    j: int,
)
    requires
        0 <= j <= s.len(),
        forall|k: int| 0 <= k < j ==> lex_lt(#[trigger] s[k].0, kv.0),
        j < s.len() ==> !lex_lt(s[j].0, kv.0),
    ensures
        sorted_insert_header(s, kv) == if j < s.len() && s[j].0 == kv.0 {
            s.update(j, kv)
        } else {
            s.insert(j, kv)
        },
    decreases j,
{
    if j == 0 {
        if s.len() == 0 {
            assert(sorted_insert_header(s, kv) =~= s.insert(0, kv));
        } else if s[0].0 == kv.0 {
            assert(seq![kv] + s.drop_first() =~= s.update(0, kv));
        } else {
            assert(!lex_lt(s[0].0, kv.0));
            assert(seq![kv] + s =~= s.insert(0, kv));
        }
    } else {
        let d = s.drop_first();
        assert(lex_lt(s[0].0, kv.0));
        assert(forall|k: int| 0 <= k < j - 1 ==> lex_lt(#[trigger] d[k].0, kv.0));
        lemma_sorted_insert_at(d, kv, j - 1);
        if j < s.len() && s[j].0 == kv.0 {
            assert(d[j - 1].0 == kv.0);
            assert(seq![s[0]] + d.update(j - 1, kv) =~= s.update(j, kv));
        } else {
            assert(seq![s[0]] + d.insert(j - 1, kv) =~= s.insert(j, kv));
        }
    }
}

/// Inserts one normalized header into a sorted canonical list.
fn insert_sorted_header(r: &mut Vec<(String, String)>, name: String, value: String)
    ensures
        pairs_view(final (r)@) == sorted_insert_header(pairs_view(old(r)@), (name@, value@)),
{
    let name_chars = chars_of(name.as_str());
    let mut j: usize = 0;
    loop
        invariant
            j <= r.len(),
            name_chars@ == name@,
            forall|k: int| 0 <= k < j ==> lex_lt(#[trigger] pairs_view(r@)[k].0, name@),
        ensures
            j <= r.len(),
            forall|k: int| 0 <= k < j ==> lex_lt(#[trigger] pairs_view(r@)[k].0, name@),
            j < r.len() ==> !lex_lt(pairs_view(r@)[j as int].0, name@),
        decreases r.len() - j,
    {
        if j == r.len() {
            break ;
        }
        let entry = &r[j];
        let entry_chars = chars_of(entry.0.as_str());
        if !chars_lex_lt(&entry_chars, &name_chars) {
            break ;
        }
        j = j + 1;
    }
    proof {
        lemma_sorted_insert_at(pairs_view(r@), (name@, value@), j as int);
    }
    if j < r.len() && str_eq(r[j].0.as_str(), name.as_str()) {
        let ghost before = r@;
        r.remove(j);
        r.insert(j, (name, value));
        assert(pairs_view(r@) =~= sorted_insert_header(
            pairs_view(before),
            (name@, value@),
        ));
    } else {
        let ghost before = r@;
        r.insert(j, (name, value));
        assert(pairs_view(r@) =~= sorted_insert_header(
            pairs_view(before),
            (name@, value@),
        ));
    }
}

/// Canonicalizes a header list for fingerprinting: drops excluded headers,
/// lowercases names, normalizes values, sorts by name with a later duplicate
/// winning.
pub fn normalize_headers(headers: &Vec<(String, String)>) -> (r: Vec<(String, String)>)
    ensures
        pairs_view(r@) == spec_normalize_headers(pairs_view(headers@)),
{
    let mut r: Vec<(String, String)> = Vec::new();
    let mut i: usize = 0;
    while i < headers.len()
        invariant
            i <= headers.len(),
            pairs_view(r@) == spec_normalize_headers(pairs_view(headers@).take(i as int)),
        decreases headers.len() - i,
    {
        let entry = &headers[i];
        let name = to_lowercase(entry.0.as_str());
        proof {
            assert(pairs_view(headers@).take(i as int + 1).drop_last() =~= pairs_view(
                headers@,
            ).take(i as int));
            assert(pairs_view(headers@).take(i as int + 1).last() == pairs_view(headers@)[i as int]);
        }
        if !is_excluded_header(name.as_str()) {
            let value = normalize_header_value(entry.1.as_str());
            insert_sorted_header(&mut r, name, value);
        }
        i = i + 1;
    }
    proof {
        assert(pairs_view(headers@).take(headers@.len() as int) =~= pairs_view(headers@));
    }
    r
}

/// What the SHA-256 digest of a character sequence's UTF-8 bytes renders to
/// in lowercase hexadecimal: a function of the characters alone.
pub uninterp spec fn sha256_hex_of(s: Seq<char>) -> Seq<char>;

/// A decimal digit or a lowercase `a`..`f`.
pub open spec fn is_lower_hex_char(c: char) -> bool {
    (0x30 <= (c as int) && (c as int) <= 0x39) || (0x61 <= (c as int) && (c as int) <= 0x66)
}

/// A digest rendering: exactly 64 lowercase hexadecimal characters.
pub open spec fn is_hex_digest(s: Seq<char>) -> bool {
    s.len() == 64 && forall|i: int| 0 <= i < s.len() ==> is_lower_hex_char(#[trigger] s[i])
}

/// Relies on `sha2::Sha256` (`update`, `finalize`) and its lowercase-hex
/// rendering: a 256-bit digest of the input bytes, determined by the input
/// alone and rendered as two lowercase hex digits per digest byte.
#[verifier::external_body]
fn sha256_hex(s: &str) -> (r: String)
    ensures
        r@ == sha256_hex_of(s@),
        is_hex_digest(r@),
{
    let mut hasher = <sha2::Sha256 as sha2::Digest>::new();
    sha2::Digest::update(&mut hasher, s.as_bytes());
    format!("{:x}", sha2::Digest::finalize(hasher))
}

/// The stored body digest: the literal token `empty` for an empty body, the
/// hex SHA-256 of the body otherwise.
pub open spec fn spec_body_hash(body: Seq<char>) -> Seq<char> {
    if body.len() == 0 {
        "empty"@
    } else {
        sha256_hex_of(body)
    }
}

/// Hashes a request body for the fingerprint.
pub fn hash_body(body: &str) -> (r: String)
    ensures
        r@ == spec_body_hash(body@),
        body@.len() > 0 ==> is_hex_digest(r@) && r@ != "empty"@,
{
    if body.is_empty() {
        String::from_str("empty")
    } else {
        let r = sha256_hex(body);
        proof {
            reveal_strlit("empty");
            assert(r@ != "empty"@);
        }
        r
    }
}

/// One header's contribution to the digest input: `name:value` and a
/// separator byte.
pub open spec fn spec_header_line(kv: (Seq<char>, Seq<char>)) -> Seq<char> {
    kv.0 + ":"@ + kv.1 + "\u{0}"@
}

/// The digest input of a canonical header list, in order.
pub open spec fn spec_headers_source(hs: Seq<(Seq<char>, Seq<char>)>) -> Seq<char>
    decreases hs.len(),
{
    if hs.len() == 0 {
        Seq::empty()
    } else {
        spec_headers_source(hs.drop_last()) + spec_header_line(hs.last())
    }
}

/// View of an optional borrowed string.
pub open spec fn opt_str_view(s: Option<&str>) -> Option<Seq<char>> {
    match s {
        Some(t) => Some(t@),
        None => None,
    }
}

/// Everything the fingerprint digests, in its fixed order: the lowercased
/// tenant (when present), the upper-cased method, the canonical path, the
/// canonical headers sorted by name, and the body digest, each followed by a
/// separator byte.
pub open spec fn spec_key_source(
    subdomain: Option<Seq<char>>,
    method: Seq<char>,
    path: Seq<char>,
    headers: Seq<(Seq<char>, Seq<char>)>,
    body: Seq<char>,
) -> Seq<char> {
    (match subdomain {
        Some(s) => lower_of(s) + "\u{0}"@,
        None => Seq::<char>::empty(),
    }) + upper_of(method) + "\u{0}"@ + spec_normalize_path(path) + "\u{0}"@
        + spec_headers_source(spec_normalize_headers(headers)) + spec_body_hash(body)
}

/// The final fingerprint: the SHA-256 hex digest of the key source.
pub open spec fn spec_key_hash(
    subdomain: Option<Seq<char>>,
    method: Seq<char>,
    path: Seq<char>,
    headers: Seq<(Seq<char>, Seq<char>)>,
    body: Seq<char>,
) -> Seq<char> {
    sha256_hex_of(spec_key_source(subdomain, method, path, headers, body))
}

fn append_headers_source(out: &mut String, headers: &Vec<(String, String)>)
    ensures
        final (out)@ == old(out)@ + spec_headers_source(pairs_view(headers@)),
{
    let mut i: usize = 0;
    while i < headers.len()
        invariant
            i <= headers.len(),
            out@ == old(out)@ + spec_headers_source(pairs_view(headers@).take(i as int)),
        decreases headers.len() - i,
    {
        let entry = &headers[i];
        out.append(entry.0.as_str());
        out.append(":");
        out.append(entry.1.as_str());
        out.append("\u{0}");
        proof {
            assert(pairs_view(headers@).take(i as int + 1).drop_last() =~= pairs_view(
                headers@,
            ).take(i as int));
            assert(pairs_view(headers@).take(i as int + 1).last() == pairs_view(headers@)[i as int]);
            assert(out@ =~= old(out)@ + spec_headers_source(
                pairs_view(headers@).take(i as int + 1),
            ));
        }
        i = i + 1;
    }
    proof {
        assert(pairs_view(headers@).take(headers@.len() as int) =~= pairs_view(headers@));
    }
}

/// A request fingerprint: the canonical request parts and the final digest.
#[derive(Debug, Clone)]
pub struct CacheKey {
    /// Upper-cased request method.
    pub method: String,
    /// Canonical request path.
    pub path: String,
    /// Canonical header subset, sorted by name, excluded headers dropped.
    pub normalized_headers: Vec<(String, String)>,
    /// Digest of the raw body, or the token `empty`.
    pub body_hash: String,
    /// The final digest identifying the request.
    pub key_hash: String,
}

impl CacheKey {
    /// Fingerprints a request without a tenant.
    pub fn new(
        method: &str,
        path: &str,
        headers: &Vec<(String, String)>,
        body: &str,
    ) -> (r: Result<CacheKey, AppError>)
        ensures
            r matches Ok(k) && k.method@ == upper_of(method@) && k.path@ == spec_normalize_path(
                path@,
            ) && pairs_view(k.normalized_headers@) == spec_normalize_headers(pairs_view(headers@))
                && k.body_hash@ == spec_body_hash(body@) && k.key_hash@ == spec_key_hash(
                None,
                method@,
                path@,
                pairs_view(headers@),
                body@,
            ) && is_hex_digest(k.key_hash@) && (body@.len() > 0 ==> is_hex_digest(k.body_hash@)
                && k.body_hash@ != "empty"@),
    {
        Self::new_with_subdomain(method, path, headers, body, None)
    }

    /// Fingerprints a request, separating tenants by their subdomain.
    pub fn new_with_subdomain(
        method: &str,
        path: &str,
        headers: &Vec<(String, String)>,
        body: &str,
        subdomain: Option<&str>,
    ) -> (r: Result<CacheKey, AppError>)
        ensures
            r matches Ok(k) && k.method@ == upper_of(method@) && k.path@ == spec_normalize_path(
                path@,
            ) && pairs_view(k.normalized_headers@) == spec_normalize_headers(pairs_view(headers@))
                && k.body_hash@ == spec_body_hash(body@) && k.key_hash@ == spec_key_hash(
                opt_str_view(subdomain),
                method@,
                path@,
                pairs_view(headers@),
                body@,
            ) && is_hex_digest(k.key_hash@) && (body@.len() > 0 ==> is_hex_digest(k.body_hash@)
                && k.body_hash@ != "empty"@),
    {
        let method_up = to_uppercase(method);
        let path_norm = normalize_path(path);
        let normalized_headers = normalize_headers(headers);
        let body_hash = hash_body(body);
        let mut source = String::new();
        match subdomain {
            Some(sd) => {
                let low = to_lowercase(sd);
                source.append(low.as_str());
                source.append("\u{0}");
            },
            None => {},
        }
        source.append(method_up.as_str());
        source.append("\u{0}");
        source.append(path_norm.as_str());
        source.append("\u{0}");
        append_headers_source(&mut source, &normalized_headers);
        source.append(body_hash.as_str());
        assert(source@ =~= spec_key_source(
            opt_str_view(subdomain),
            method@,
            path@,
            pairs_view(headers@),
            body@,
        ));
        let key_hash = sha256_hex(source.as_str());
        Ok(
            CacheKey {
                method: method_up,
                path: path_norm,
                normalized_headers,
                body_hash,
                key_hash,
            },
        )
    }

    /// The stored form of the key: its digest.
    pub fn to_string(&self) -> (r: String)
        ensures
            r@ == self.key_hash@,
    {
        self.key_hash.clone()
    }

    /// Rebuilds a key from its stored digest; the request parts are unknown.
    pub fn from_string(key_str: &str) -> (r: Result<CacheKey, AppError>)
        ensures
            r matches Ok(k) && k.key_hash@ == key_str@ && k.method@ == "UNKNOWN"@ && k.path@
                == "UNKNOWN"@ && k.body_hash@ == "UNKNOWN"@ && k.normalized_headers@.len() == 0,
    {
        Ok(
            CacheKey {
                method: String::from_str("UNKNOWN"),
                path: String::from_str("UNKNOWN"),
                normalized_headers: Vec::new(),
                body_hash: String::from_str("UNKNOWN"),
                key_hash: String::from_str(key_str),
            },
        )
    }
}

/// Determinism of the fingerprint: two keys built from the same request parts
/// carry the same digest.
pub proof fn lemma_generate_deterministic(
    k1: CacheKey,
    k2: CacheKey,
    subdomain: Option<Seq<char>>,
    method: Seq<char>,
    path: Seq<char>,
    headers: Seq<(Seq<char>, Seq<char>)>,
    body: Seq<char>,
)
    requires
        k1.key_hash@ == spec_key_hash(subdomain, method, path, headers, body),
        k2.key_hash@ == spec_key_hash(subdomain, method, path, headers, body),
    ensures
        k1.key_hash@ == k2.key_hash@,
{
}

/// Appending a header whose lowercased name is excluded leaves the canonical
/// header list unchanged.
pub proof fn lemma_excluded_header_dropped(
    hs: Seq<(Seq<char>, Seq<char>)>,
    kv: (Seq<char>, Seq<char>),
)
    requires
        spec_excluded_header(lower_of(kv.0)),
    ensures
        spec_normalize_headers(hs.push(kv)) == spec_normalize_headers(hs),
{
    assert(hs.push(kv).drop_last() =~= hs);
}

/// Header lists with the same names whose non-excluded values agree
/// canonicalize identically: changing only excluded header values changes
/// nothing.
pub proof fn lemma_excluded_values_ignored(
    h1: Seq<(Seq<char>, Seq<char>)>,
    h2: Seq<(Seq<char>, Seq<char>)>,
)
    requires
        h1.len() == h2.len(),
        forall|i: int| 0 <= i < h1.len() ==> (#[trigger] h1[i]).0 == h2[i].0,
        forall|i: int|
            0 <= i < h1.len() && !spec_excluded_header(lower_of((#[trigger] h1[i]).0)) ==> h1[i].1
                == h2[i].1,
    ensures
        spec_normalize_headers(h1) == spec_normalize_headers(h2),
    decreases h1.len(),
{
    if h1.len() > 0 {
        lemma_excluded_values_ignored(h1.drop_last(), h2.drop_last());
        assert(h1.last() == h1[h1.len() - 1]);
        assert(h2.last() == h2[h1.len() - 1]);
    }
}

/// Sensitivity to excluded headers, at the digest: a request that differs
/// only by one appended excluded header keeps the same fingerprint.
pub proof fn lemma_excluded_header_same_hash(
    subdomain: Option<Seq<char>>,
    method: Seq<char>,
    path: Seq<char>,
    headers: Seq<(Seq<char>, Seq<char>)>,
    kv: (Seq<char>, Seq<char>),
    body: Seq<char>,
)
    requires
        spec_excluded_header(lower_of(kv.0)),
    ensures
        spec_key_hash(subdomain, method, path, headers.push(kv), body) == spec_key_hash(
            subdomain,
            method,
            path,
            headers,
            body,
        ),
{
    lemma_excluded_header_dropped(headers, kv);
}

} // verus!
