//! The tiered, TTL-aware store: response payloads keyed by digest, an inline
//! metadata tier and a large-object tier, expiry at read time and a batch
//! cleanup sweep. The store is backed by in-process tiers and takes the
//! current time as an argument, so expiry is deterministic and testable; the
//! record interpretation that a networked backend needs is exposed as a
//! separate decision function.

use vstd::prelude::*;
use vstd::string::StringExecFns;

use crate::cache::key::CacheKey;
use crate::cache::key::pairs_view;
use crate::cache::key::opt_str_view;
use crate::cache::key::spec_body_hash;
use crate::cache::key::spec_key_hash;
use crate::cache::key::is_hex_digest;
use crate::cache::key::spec_normalize_headers;
use crate::proxy::normalize::spec_normalize_path;
use crate::text::spec_parse_u64;
use crate::text::spec_u64_digits;
use crate::text::chars_of;
use crate::text::parse_u64_chars;
use crate::text::str_eq;
use crate::text::u64_to_string;
use crate::text::upper_of;
use crate::utils::errors::AppError;
use crate::utils::errors::cache_error;

verus! {

/// How a stored response payload is physically held.
#[derive(Debug)]
pub enum StoredPayload {
    /// Embedded directly in the metadata record.
    Inline(String),
    /// Held in the blob tier under this key.
    BlobRef(String),
}

/// One metadata record of the primary tier.
#[derive(Debug)]
pub struct MetaRecord {
    /// The payload, or where to find it.
    pub payload: StoredPayload,
    /// Absolute expiry, epoch seconds.
    pub expires_at: u64,
    /// Write time, epoch seconds.
    pub created_at: u64,
}

/// Spec-level payload: the characters, or the blob key.
pub enum PayloadModel {
    /// Embedded payload text.
    Inline(Seq<char>),
    /// Key into the blob tier.
    BlobRef(Seq<char>),
}

/// Spec-level metadata record.
pub struct MetaModel {
    /// The payload, or where to find it.
    pub payload: PayloadModel,
    /// Absolute expiry, epoch seconds.
    pub expires_at: u64,
    /// Write time, epoch seconds.
    pub created_at: u64,
}

pub open spec fn payload_model(p: StoredPayload) -> PayloadModel {
    match p {
        StoredPayload::Inline(s) => PayloadModel::Inline(s@),
        StoredPayload::BlobRef(s) => PayloadModel::BlobRef(s@),
    }
}

pub open spec fn meta_model(m: MetaRecord) -> MetaModel {
    MetaModel { payload: payload_model(m.payload), expires_at: m.expires_at, created_at: m.created_at }
}

/// View of the primary tier as digest/record pairs.
pub open spec fn meta_view(v: Seq<(String, MetaRecord)>) -> Seq<(Seq<char>, MetaModel)> {
    Seq::new(v.len(), |i: int| (v[i].0@, meta_model(v[i].1)))
}

/// First value stored under `k`, if any.
pub open spec fn spec_lookup<T>(s: Seq<(Seq<char>, T)>, k: Seq<char>) -> Option<T>
    decreases s.len(),
{
    if s.len() == 0 {
        None
    } else if s[0].0 == k {
        Some(s[0].1)
    } else {
        spec_lookup(s.drop_first(), k)
    }
}

/// The association list without the first entry keyed `k`.
pub open spec fn spec_remove_key<T>(s: Seq<(Seq<char>, T)>, k: Seq<char>) -> Seq<(Seq<char>, T)>
    decreases s.len(),
{
    if s.len() == 0 {
        s
    } else if s[0].0 == k {
        s.drop_first()
    } else {
        seq![s[0]] + spec_remove_key(s.drop_first(), k)
    }
}

/// Insert-or-replace under `k`: a full overwrite, last writer wins.
pub open spec fn spec_upsert<T>(s: Seq<(Seq<char>, T)>, k: Seq<char>, x: T) -> Seq<
    (Seq<char>, T),
>
    decreases s.len(),
{
    if s.len() == 0 {
        seq![(k, x)]
    } else if s[0].0 == k {
        seq![(k, x)] + s.drop_first()
    } else {
        seq![s[0]] + spec_upsert(s.drop_first(), k, x)
    }
}

/// No key occurs twice.
pub open spec fn unique_keys<T>(s: Seq<(Seq<char>, T)>) -> bool {
    forall|i: int, j: int|
        0 <= i < j < s.len() ==> (#[trigger] s[i]).0 != (#[trigger] s[j]).0
}

pub proof fn lemma_lookup_at<T>(s: Seq<(Seq<char>, T)>, k: Seq<char>, i: int)
    requires
        0 <= i < s.len(),
        s[i].0 == k,
        forall|j: int| 0 <= j < i ==> (#[trigger] s[j]).0 != k,
    ensures
        spec_lookup(s, k) == Some(s[i].1),
    decreases i,
{
    if i > 0 {
        let d = s.drop_first();
        assert(forall|j: int| 0 <= j < i - 1 ==> (#[trigger] d[j]).0 == s[j + 1].0);
        lemma_lookup_at(d, k, i - 1);
    }
}

pub proof fn lemma_lookup_absent<T>(s: Seq<(Seq<char>, T)>, k: Seq<char>)
    requires
        forall|j: int| 0 <= j < s.len() ==> (#[trigger] s[j]).0 != k,
    ensures
        spec_lookup(s, k) is None,
    decreases s.len(),
{
    if s.len() > 0 {
        let d = s.drop_first();
        assert(forall|j: int| 0 <= j < d.len() ==> (#[trigger] d[j]).0 == s[j + 1].0);
        lemma_lookup_absent(d, k);
    }
}

pub proof fn lemma_remove_at<T>(s: Seq<(Seq<char>, T)>, k: Seq<char>, i: int)
    requires
        0 <= i < s.len(),
        s[i].0 == k,
        forall|j: int| 0 <= j < i ==> (#[trigger] s[j]).0 != k,
    ensures
        spec_remove_key(s, k) == s.remove(i),
    decreases i,
{
    if i == 0 {
        assert(s.remove(0) =~= s.drop_first());
    } else {
        let d = s.drop_first();
        assert(forall|j: int| 0 <= j < i - 1 ==> (#[trigger] d[j]).0 == s[j + 1].0);
        lemma_remove_at(d, k, i - 1);
        assert(seq![s[0]] + d.remove(i - 1) =~= s.remove(i));
    }
}

pub proof fn lemma_upsert_at<T>(s: Seq<(Seq<char>, T)>, k: Seq<char>, x: T, i: int)
    requires
        0 <= i < s.len(),
        s[i].0 == k,
        forall|j: int| 0 <= j < i ==> (#[trigger] s[j]).0 != k,
    ensures
        spec_upsert(s, k, x) == s.update(i, (k, x)),
    decreases i,
{
    if i == 0 {
        assert(seq![(k, x)] + s.drop_first() =~= s.update(0, (k, x)));
    } else {
        let d = s.drop_first();
        assert(forall|j: int| 0 <= j < i - 1 ==> (#[trigger] d[j]).0 == s[j + 1].0);
        lemma_upsert_at(d, k, x, i - 1);
        assert(seq![s[0]] + d.update(i - 1, (k, x)) =~= s.update(i, (k, x)));
    }
}

pub proof fn lemma_upsert_absent<T>(s: Seq<(Seq<char>, T)>, k: Seq<char>, x: T)
    requires
        forall|j: int| 0 <= j < s.len() ==> (#[trigger] s[j]).0 != k,
    ensures
        spec_upsert(s, k, x) == s.push((k, x)),
    decreases s.len(),
{
    if s.len() > 0 {
        let d = s.drop_first();
        assert(forall|j: int| 0 <= j < d.len() ==> (#[trigger] d[j]).0 == s[j + 1].0);
        lemma_upsert_absent(d, k, x);
        assert(seq![s[0]] + d.push((k, x)) =~= s.push((k, x)));
    }
}

pub proof fn lemma_remove_absent<T>(s: Seq<(Seq<char>, T)>, k: Seq<char>)
    requires
        forall|j: int| 0 <= j < s.len() ==> (#[trigger] s[j]).0 != k,
    ensures
        spec_remove_key(s, k) == s,
    decreases s.len(),
{
    if s.len() > 0 {
        let d = s.drop_first();
        assert(forall|j: int| 0 <= j < d.len() ==> (#[trigger] d[j]).0 == s[j + 1].0);
        lemma_remove_absent(d, k);
        assert(seq![s[0]] + d =~= s);
    }
}

/// Finds the first entry stored under `key`.
pub(crate) fn assoc_position<T>(v: &Vec<(String, T)>, key: &str) -> (r: Option<usize>)
    ensures
        match r {
            Some(i) => i < v@.len() && v@[i as int].0@ == key@ && forall|j: int|
                0 <= j < i ==> (#[trigger] v@[j]).0@ != key@,
            None => forall|j: int| 0 <= j < v@.len() ==> (#[trigger] v@[j]).0@ != key@,
        },
{
    let mut i: usize = 0;
    while i < v.len()
        invariant
            i <= v.len(),
            forall|j: int| 0 <= j < i ==> (#[trigger] v@[j]).0@ != key@,
        decreases v.len() - i,
    {
        let entry = &v[i];
        if str_eq(entry.0.as_str(), key) {
            return Some(i);
        }
        i = i + 1;
    }
    None
}

/// The blob-tier key for a digest and its expiry timestamp.
pub open spec fn spec_blob_key(digest: Seq<char>, expiry: u64) -> Seq<char> {
    "responses/"@ + digest + "/"@ + spec_u64_digits(expiry as int)
}

/// Builds the blob-tier key `responses/<digest>/<expiry>`.
pub fn blob_key_for(digest: &str, expiry: u64) -> (r: String)
    ensures
        r@ == spec_blob_key(digest@, expiry),
{
    let mut s = String::from_str("responses/");
    s.append(digest);
    s.append("/");
    let digits = u64_to_string(expiry);
    s.append(digits.as_str());
    s
}

/// The payload representation a write chooses: the blob tier when the
/// serialized size exceeds the inline cap, inline otherwise.
pub open spec fn spec_payload_choice(
    payload: Seq<char>,
    max_body_size: usize,
    digest: Seq<char>,
    expiry: u64,
) -> PayloadModel {
    if vstd::utf8::encode_utf8(payload).len() as usize > max_body_size {
        PayloadModel::BlobRef(spec_blob_key(digest, expiry))
    } else {
        PayloadModel::Inline(payload)
    }
}

/// Decides the tier for a write against an external backend pair: the blob
/// key to write under when the payload exceeds the inline cap, nothing when
/// the payload is embedded in the metadata record.
pub fn plan_payload_tier(digest: &str, payload: &str, max_body_size: usize, expiry: u64) -> (r:
    Option<String>)
    ensures
        match spec_payload_choice(payload@, max_body_size, digest@, expiry) {
            PayloadModel::BlobRef(b) => r matches Some(k) && k@ == b,
            PayloadModel::Inline(_) => r is None,
        },
{
    if payload.len() > max_body_size {
        Some(blob_key_for(digest, expiry))
    } else {
        None
    }
}

/// The tiered store over in-process tiers.
#[derive(Debug)]
pub struct CacheStore {
    meta: Vec<(String, MetaRecord)>,
    blobs: Vec<(String, String)>,
    max_body_size: usize,
    default_ttl: u64,
}

impl CacheStore {
    /// The primary (metadata) tier's contents, by digest.
    pub closed spec fn meta_entries(self) -> Seq<(Seq<char>, MetaModel)> {
        meta_view(self.meta@)
    }

    /// The blob tier's contents, by blob key.
    pub closed spec fn blob_entries(self) -> Seq<(Seq<char>, Seq<char>)> {
        pairs_view(self.blobs@)
    }

    /// The inline-tier size cap, bytes.
    pub closed spec fn spec_max_body_size(self) -> usize {
        self.max_body_size
    }

    /// The TTL used when a write carries no override, seconds.
    pub closed spec fn spec_default_ttl(self) -> u64 {
        self.default_ttl
    }

    /// Well-formed: no digest and no blob key is stored twice.
    pub closed spec fn wf(self) -> bool {
        unique_keys(self.meta_entries()) && unique_keys(self.blob_entries())
    }

    /// What well-formedness gives a caller: each tier holds a key at most
    /// once, so the association-list lemmas apply to the store's contents.
    pub proof fn lemma_wf_unique(self)
        requires
            self.wf(),
        ensures
            unique_keys(self.meta_entries()),
            unique_keys(self.blob_entries()),
    {
    }

    /// Configuration is untouched by an operation.
    pub open spec fn same_config(self, other: CacheStore) -> bool {
        self.spec_max_body_size() == other.spec_max_body_size() && self.spec_default_ttl()
            == other.spec_default_ttl()
    }

    /// An empty store with the given inline cap and default TTL.
    pub fn new_in_memory(max_body_size: usize, default_ttl: u64) -> (r: CacheStore)
        ensures
            r.wf(),
            r.meta_entries() == Seq::<(Seq<char>, MetaModel)>::empty(),
            r.blob_entries() == Seq::<(Seq<char>, Seq<char>)>::empty(),
            r.spec_max_body_size() == max_body_size,
            r.spec_default_ttl() == default_ttl,
    {
        let r = CacheStore { meta: Vec::new(), blobs: Vec::new(), max_body_size, default_ttl };
        proof {
            assert(r.meta_entries() =~= Seq::<(Seq<char>, MetaModel)>::empty());
            assert(r.blob_entries() =~= Seq::<(Seq<char>, Seq<char>)>::empty());
        }
        r
    }

    /// Fingerprints a request; the store only forwards to [`CacheKey`].
    pub fn generate_key(
        &self,
        method: &str,
        path: &str,
        headers: &Vec<(String, String)>,
        body: &str,
    ) -> (r: Result<CacheKey, AppError>)
        ensures
            r matches Ok(k) && k.key_hash@ == spec_key_hash(
                None,
                method@,
                path@,
                pairs_view(headers@),
                body@,
            ) && k.method@ == upper_of(method@) && k.path@ == spec_normalize_path(path@)
                && pairs_view(k.normalized_headers@) == spec_normalize_headers(pairs_view(headers@))
                && k.body_hash@ == spec_body_hash(body@) && is_hex_digest(k.key_hash@),
    {
        CacheKey::new(method, path, headers, body)
    }

    /// Fingerprints a request with its tenant subdomain.
    pub fn generate_key_with_subdomain(
        &self,
        method: &str,
        path: &str,
        headers: &Vec<(String, String)>,
        body: &str,
        subdomain: Option<&str>,
    ) -> (r: Result<CacheKey, AppError>)
        ensures
            r matches Ok(k) && k.key_hash@ == spec_key_hash(
                opt_str_view(subdomain),
                method@,
                path@,
                pairs_view(headers@),
                body@,
            ) && is_hex_digest(k.key_hash@),
    {
        CacheKey::new_with_subdomain(method, path, headers, body, subdomain)
    }

    /// Fingerprints a request with its tenant subdomain; a TTL override
    /// travels with the request but never influences the digest.
    pub fn generate_key_with_subdomain_and_ttl(
        &self,
        method: &str,
        path: &str,
        headers: &Vec<(String, String)>,
        body: &str,
        subdomain: Option<&str>,
        ttl_seconds: Option<u64>,
    ) -> (r: Result<CacheKey, AppError>)
        ensures
            r matches Ok(k) && k.key_hash@ == spec_key_hash(
                opt_str_view(subdomain),
                method@,
                path@,
                pairs_view(headers@),
                body@,
            ) && is_hex_digest(k.key_hash@),
    {
        let _ = ttl_seconds;
        CacheKey::new_with_subdomain(method, path, headers, body, subdomain)
    }

    /// Looks a digest up. A present, live record resolves to its payload,
    /// from whichever tier holds it. A record found expired is deleted, blob
    /// included, and reported as a miss. A live record whose blob is gone is
    /// a corrupt-entry error, never a silent miss.
    pub fn get(&mut self, cache_key: &CacheKey, now: u64) -> (r: Result<Option<String>, AppError>)
        requires
            old(self).wf(),
        ensures
            final (self).wf(),
            final (self).same_config(*old(self)),
            ({
                let k = cache_key.key_hash@;
                let mv = old(self).meta_entries();
                let bv = old(self).blob_entries();
                match spec_lookup(mv, k) {
                    None => r == Ok::<Option<String>, AppError>(None) && final (self).meta_entries() == mv && final (
                    self).blob_entries() == bv,
                    Some(m) => {
                        if m.expires_at < now {
                            &&& r == Ok::<Option<String>, AppError>(None)
                            &&& final (self).meta_entries() == spec_remove_key(mv, k)
                            &&& final (self).blob_entries() == (match m.payload {
                                PayloadModel::BlobRef(b) => spec_remove_key(bv, b),
                                PayloadModel::Inline(_) => bv,
                            })
                        } else {
                            &&& final (self).meta_entries() == mv
                            &&& final (self).blob_entries() == bv
                            &&& (match m.payload {
                                PayloadModel::Inline(s) => r matches Ok(o) && o matches Some(p)
                                    && p@ == s,
                                PayloadModel::BlobRef(b) => match spec_lookup(bv, b) {
                                    Some(pl) => r matches Ok(o) && o matches Some(p) && p@ == pl,
                                    None => r matches Err(e) && e matches AppError::Cache(_),
                                },
                            })
                        }
                    },
                }
            }),
    {
        let key_hash = cache_key.to_string();
        let ghost mv = self.meta_entries();
        let ghost bv = self.blob_entries();
        let ghost k = cache_key.key_hash@;
        match assoc_position(&self.meta, key_hash.as_str()) {
            None => {
                proof {
                    assert(forall|j: int| 0 <= j < mv.len() ==> (#[trigger] mv[j]).0 != k);
                    lemma_lookup_absent(mv, k);
                }
                Ok(None)
            },
            Some(i) => {
                proof {
                    assert(mv[i as int].0 == k);
                    assert(forall|j: int| 0 <= j < i ==> (#[trigger] mv[j]).0 != k);
                    lemma_lookup_at(mv, k, i as int);
                }
                let expired = self.meta[i].1.expires_at < now;
                if expired {
                    let blob_key: Option<String> = match &self.meta[i].1.payload {
                        StoredPayload::BlobRef(b) => Some(b.clone()),
                        StoredPayload::Inline(_) => None,
                    };
                    proof {
                        lemma_remove_at(mv, k, i as int);
                    }
                    let _removed = self.meta.remove(i);
                    assert(self.meta_entries() =~= spec_remove_key(mv, k));
                    proof {
                        assert forall|a: int, b: int|
                            0 <= a < b < self.meta_entries().len() implies (
                        #[trigger] self.meta_entries()[a]).0 != (#[trigger] self.meta_entries()[b]).0 by {
                            if b < i {
                                assert(mv[a].0 != mv[b].0);
                            } else if a < i {
                                assert(mv[a].0 != mv[b + 1].0);
                            } else {
                                assert(mv[a + 1].0 != mv[b + 1].0);
                            }
                        }
                    }
                    match blob_key {
                        Some(bk) => {
                            match assoc_position(&self.blobs, bk.as_str()) {
                                Some(bi) => {
                                    proof {
                                        assert(bv[bi as int].0 == bk@);
                                        lemma_remove_at(bv, bk@, bi as int);
                                    }
                                    let _b = self.blobs.remove(bi);
                                    assert(self.blob_entries() =~= spec_remove_key(bv, bk@));
                                    proof {
                                        assert forall|a: int, b: int|
                                            0 <= a < b < self.blob_entries().len() implies (
                                        #[trigger] self.blob_entries()[a]).0 != (
                                        #[trigger] self.blob_entries()[b]).0 by {
                                            if b < bi {
                                                assert(bv[a].0 != bv[b].0);
                                            } else if a < bi {
                                                assert(bv[a].0 != bv[b + 1].0);
                                            } else {
                                                assert(bv[a + 1].0 != bv[b + 1].0);
                                            }
                                        }
                                    }
                                },
                                None => {
                                    proof {
                                        lemma_remove_absent(bv, bk@);
                                    }
                                },
                            }
                        },
                        None => {},
                    }
                    Ok(None)
                } else {
                    let rec = &self.meta[i].1;
                    match &rec.payload {
                        StoredPayload::Inline(s) => Ok(Some(s.clone())),
                        StoredPayload::BlobRef(b) => {
                            match assoc_position(&self.blobs, b.as_str()) {
                                Some(bi) => {
                                    proof {
                                        assert(bv[bi as int].0 == b@);
                                        lemma_lookup_at(bv, b@, bi as int);
                                    }
                                    let payload = self.blobs[bi].1.clone();
                                    Ok(Some(payload))
                                },
                                None => {
                                    proof {
                                        lemma_lookup_absent(bv, b@);
                                    }
                                    Err(cache_error("cached entry references a missing blob"))
                                },
                            }
                        },
                    }
                }
            },
        }
    }

    /// Stores a payload under a digest with the default TTL.
    pub fn set(&mut self, cache_key: &CacheKey, response: &str, now: u64) -> (r: Result<
        (),
        AppError,
    >)
        requires
            old(self).wf(),
            now + old(self).spec_default_ttl() <= u64::MAX,
        ensures
            final (self).wf(),
            final (self).same_config(*old(self)),
            r == Ok::<(), AppError>(()),
            ({
                let k = cache_key.key_hash@;
                let expiry = (now + old(self).spec_default_ttl()) as u64;
                let choice = spec_payload_choice(
                    response@,
                    old(self).spec_max_body_size(),
                    k,
                    expiry,
                );
                &&& final (self).meta_entries() == spec_upsert(
                    old(self).meta_entries(),
                    k,
                    MetaModel { payload: choice, expires_at: expiry, created_at: now },
                )
                &&& final (self).blob_entries() == (if choice is BlobRef {
                    spec_upsert(old(self).blob_entries(), spec_blob_key(k, expiry), response@)
                } else {
                    old(self).blob_entries()
                })
            }),
    {
        self.set_with_ttl(cache_key, response, None, now)
    }

    /// Stores a payload under a digest. The effective TTL is the override
    /// when given, else the store's default; the record expires at `now`
    /// plus that TTL. A payload over the inline cap goes to the blob tier
    /// under a key derived from the digest and the expiry; a small one is
    /// embedded in the metadata record. The write is a full overwrite.
    pub fn set_with_ttl(
        &mut self,
        cache_key: &CacheKey,
        response: &str,
        ttl_seconds: Option<u64>,
        now: u64,
    ) -> (r: Result<(), AppError>)
        requires
            old(self).wf(),
            now + (match ttl_seconds {
                Some(t) => t,
                None => old(self).spec_default_ttl(),
            }) <= u64::MAX,
        ensures
            final (self).wf(),
            final (self).same_config(*old(self)),
            r == Ok::<(), AppError>(()),
            ({
                let k = cache_key.key_hash@;
                let ttl = match ttl_seconds {
                    Some(t) => t,
                    None => old(self).spec_default_ttl(),
                };
                let expiry = (now + ttl) as u64;
                let choice = spec_payload_choice(
                    response@,
                    old(self).spec_max_body_size(),
                    k,
                    expiry,
                );
                &&& final (self).meta_entries() == spec_upsert(
                    old(self).meta_entries(),
                    k,
                    MetaModel { payload: choice, expires_at: expiry, created_at: now },
                )
                &&& final (self).blob_entries() == (if choice is BlobRef {
                    spec_upsert(old(self).blob_entries(), spec_blob_key(k, expiry), response@)
                } else {
                    old(self).blob_entries()
                })
            }),
    {
        let key_hash = cache_key.to_string();
        let ttl = match ttl_seconds {
            Some(t) => t,
            None => self.default_ttl,
        };
        let expiry = now + ttl;
        let oversize = response.len() > self.max_body_size;
        if oversize {
            let blob_key = blob_key_for(key_hash.as_str(), expiry);
            let record = MetaRecord {
                payload: StoredPayload::BlobRef(blob_key.clone()),
                expires_at: expiry,
                created_at: now,
            };
            upsert_meta(&mut self.meta, key_hash, record);
            upsert_blob(&mut self.blobs, blob_key, String::from_str(response));
        } else {
            let record = MetaRecord {
                payload: StoredPayload::Inline(String::from_str(response)),
                expires_at: expiry,
                created_at: now,
            };
            upsert_meta(&mut self.meta, key_hash, record);
        }
        Ok(())
    }

    /// Removes a digest's record; its blob, when referenced, goes first.
    /// Deleting an absent digest is a no-op and still succeeds.
    pub fn delete(&mut self, cache_key: &CacheKey) -> (r: Result<(), AppError>)
        requires
            old(self).wf(),
        ensures
            final (self).wf(),
            final (self).same_config(*old(self)),
            r == Ok::<(), AppError>(()),
            ({
                let k = cache_key.key_hash@;
                let mv = old(self).meta_entries();
                let bv = old(self).blob_entries();
                match spec_lookup(mv, k) {
                    None => final (self).meta_entries() == mv && final (self).blob_entries() == bv,
                    Some(m) => final (self).meta_entries() == spec_remove_key(mv, k) && final (
                    self).blob_entries() == (match m.payload {
                        PayloadModel::BlobRef(b) => spec_remove_key(bv, b),
                        PayloadModel::Inline(_) => bv,
                    }),
                }
            }),
    {
        let key_hash = cache_key.to_string();
        let ghost mv = self.meta_entries();
        let ghost bv = self.blob_entries();
        let ghost k = cache_key.key_hash@;
        match assoc_position(&self.meta, key_hash.as_str()) {
            None => {
                proof {
                    lemma_lookup_absent(mv, k);
                }
                Ok(())
            },
            Some(i) => {
                proof {
                    assert(mv[i as int].0 == k);
                    lemma_lookup_at(mv, k, i as int);
                }
                let blob_key: Option<String> = match &self.meta[i].1.payload {
                    StoredPayload::BlobRef(b) => Some(b.clone()),
                    StoredPayload::Inline(_) => None,
                };
                proof {
                    lemma_remove_at(mv, k, i as int);
                }
                let _removed = self.meta.remove(i);
                assert(self.meta_entries() =~= spec_remove_key(mv, k));
                proof {
                    assert forall|a: int, b: int|
                        0 <= a < b < self.meta_entries().len() implies (
                    #[trigger] self.meta_entries()[a]).0 != (#[trigger] self.meta_entries()[b]).0 by {
                        if b < i {
                            assert(mv[a].0 != mv[b].0);
                        } else if a < i {
                            assert(mv[a].0 != mv[b + 1].0);
                        } else {
                            assert(mv[a + 1].0 != mv[b + 1].0);
                        }
                    }
                }
                match blob_key {
                    Some(bk) => {
                        match assoc_position(&self.blobs, bk.as_str()) {
                            Some(bi) => {
                                proof {
                                    assert(bv[bi as int].0 == bk@);
                                    lemma_remove_at(bv, bk@, bi as int);
                                }
                                let _b = self.blobs.remove(bi);
                                assert(self.blob_entries() =~= spec_remove_key(bv, bk@));
                                proof {
                                    assert forall|a: int, b: int|
                                        0 <= a < b < self.blob_entries().len() implies (
                                    #[trigger] self.blob_entries()[a]).0 != (
                                    #[trigger] self.blob_entries()[b]).0 by {
                                        if b < bi {
                                            assert(bv[a].0 != bv[b].0);
                                        } else if a < bi {
                                            assert(bv[a].0 != bv[b + 1].0);
                                        } else {
                                            assert(bv[a + 1].0 != bv[b + 1].0);
                                        }
                                    }
                                }
                            },
                            None => {
                                proof {
                                    lemma_remove_absent(bv, bk@);
                                }
                            },
                        }
                    },
                    None => {},
                }
                Ok(())
            },
        }
    }
}

/// The live entries of a metadata tier, in order: what a cleanup sweep keeps.
pub open spec fn spec_keep_live(s: Seq<(Seq<char>, MetaModel)>, now: u64) -> Seq<
    (Seq<char>, MetaModel),
>
    decreases s.len(),
{
    if s.len() == 0 {
        s
    } else {
        let p = spec_keep_live(s.drop_last(), now);
        if s.last().1.expires_at < now {
            p
        } else {
            p.push(s.last())
        }
    }
}

/// The blob tier after a cleanup sweep: each expired record's blob removed.
pub open spec fn spec_drop_expired_blobs(
    s: Seq<(Seq<char>, MetaModel)>,
    bv: Seq<(Seq<char>, Seq<char>)>,
    now: u64,
) -> Seq<(Seq<char>, Seq<char>)>
    decreases s.len(),
{
    if s.len() == 0 {
        bv
    } else {
        let p = spec_drop_expired_blobs(s.drop_last(), bv, now);
        if s.last().1.expires_at < now {
            match s.last().1.payload {
                PayloadModel::BlobRef(b) => spec_remove_key(p, b),
                PayloadModel::Inline(_) => p,
            }
        } else {
            p
        }
    }
}

/// How a stored record resolves to its payload: directly, or through the
/// blob tier.
pub open spec fn spec_resolve_payload(
    p: PayloadModel,
    bv: Seq<(Seq<char>, Seq<char>)>,
) -> Option<Seq<char>> {
    match p {
        PayloadModel::Inline(s) => Some(s),
        PayloadModel::BlobRef(b) => spec_lookup(bv, b),
    }
}

pub proof fn lemma_lookup_upsert_same<T>(s: Seq<(Seq<char>, T)>, k: Seq<char>, x: T)
    ensures
        spec_lookup(spec_upsert(s, k, x), k) == Some(x),
    decreases s.len(),
{
    if s.len() > 0 && s[0].0 != k {
        lemma_lookup_upsert_same(s.drop_first(), k, x);
        assert((seq![s[0]] + spec_upsert(s.drop_first(), k, x)).drop_first() =~= spec_upsert(
            s.drop_first(),
            k,
            x,
        ));
    }
}

pub proof fn lemma_lookup_remove_none<T>(s: Seq<(Seq<char>, T)>, k: Seq<char>)
    requires
        unique_keys(s),
    ensures
        spec_lookup(spec_remove_key(s, k), k) is None,
    decreases s.len(),
{
    if s.len() > 0 {
        let d = s.drop_first();
        assert(forall|j: int| 0 <= j < d.len() ==> #[trigger] d[j] == s[j + 1]);
        if s[0].0 == k {
            assert(forall|j: int| 0 <= j < d.len() ==> (#[trigger] d[j]).0 != k);
            lemma_lookup_absent(d, k);
        } else {
            assert(unique_keys(d));
            lemma_lookup_remove_none(d, k);
            assert((seq![s[0]] + spec_remove_key(d, k)).drop_first() =~= spec_remove_key(d, k));
        }
    }
}

/// TTL lifecycle and tier transparency: after a write, the record is present
/// with the written expiry; read back before the expiry has passed it
/// resolves to exactly the written payload, whichever tier holds it and
/// whatever its size; and once the record is removed, as an expired read or
/// a sweep does, a lookup of the digest finds nothing.
pub proof fn lemma_set_then_get(
    mv: Seq<(Seq<char>, MetaModel)>,
    bv: Seq<(Seq<char>, Seq<char>)>,
    k: Seq<char>,
    payload: Seq<char>,
    max_body_size: usize,
    expiry: u64,
    now: u64,
)
    requires
        unique_keys(mv),
    ensures
        ({
            let choice = spec_payload_choice(payload, max_body_size, k, expiry);
            let rec = MetaModel { payload: choice, expires_at: expiry, created_at: now };
            let mv2 = spec_upsert(mv, k, rec);
            let bv2 = if choice is BlobRef {
                spec_upsert(bv, spec_blob_key(k, expiry), payload)
            } else {
                bv
            };
            &&& spec_lookup(mv2, k) == Some(rec)
            &&& spec_resolve_payload(rec.payload, bv2) == Some(payload)
            &&& spec_lookup(spec_remove_key(mv2, k), k) is None
        }),
{
    let choice = spec_payload_choice(payload, max_body_size, k, expiry);
    let rec = MetaModel { payload: choice, expires_at: expiry, created_at: now };
    lemma_lookup_upsert_same(mv, k, rec);
    if choice is BlobRef {
        lemma_lookup_upsert_same(bv, spec_blob_key(k, expiry), payload);
    }
    let mv2 = spec_upsert(mv, k, rec);
    lemma_upsert_unique(mv, k, rec);
    lemma_lookup_remove_none(mv2, k);
}

pub proof fn lemma_upsert_unique<T>(s: Seq<(Seq<char>, T)>, k: Seq<char>, x: T)
    requires
        unique_keys(s),
    ensures
        unique_keys(spec_upsert(s, k, x)),
    decreases s.len(),
{
    let u = spec_upsert(s, k, x);
    if s.len() == 0 {
    } else if s[0].0 == k {
        let d = s.drop_first();
        assert(forall|j: int| 0 <= j < d.len() ==> #[trigger] d[j] == s[j + 1]);
        assert(u =~= seq![(k, x)] + d);
        assert forall|a: int, b: int| 0 <= a < b < u.len() implies (#[trigger] u[a]).0 != (
        #[trigger] u[b]).0 by {
            if a == 0 {
                assert(u[b] == s[b]);
                assert(s[0].0 != s[b].0);
            } else {
                assert(u[a] == s[a]);
                assert(u[b] == s[b]);
            }
        }
    } else {
        let d = s.drop_first();
        assert(forall|j: int| 0 <= j < d.len() ==> #[trigger] d[j] == s[j + 1]);
        assert(unique_keys(d));
        lemma_upsert_unique(d, k, x);
        let ud = spec_upsert(d, k, x);
        assert(u =~= seq![s[0]] + ud);
        lemma_upsert_keys(d, k, x);
        assert forall|a: int, b: int| 0 <= a < b < u.len() implies (#[trigger] u[a]).0 != (
        #[trigger] u[b]).0 by {
            if a == 0 {
                assert(u[b] == ud[b - 1]);
                assert(ud[b - 1].0 == k || (exists|j: int|
                    0 <= j < d.len() && ud[b - 1].0 == (#[trigger] d[j]).0));
            } else {
                assert(u[a] == ud[a - 1]);
                assert(u[b] == ud[b - 1]);
            }
        }
    }
}

/// Every key of an upsert result is the inserted key or one already present.
pub proof fn lemma_upsert_keys<T>(s: Seq<(Seq<char>, T)>, k: Seq<char>, x: T)
    ensures
        forall|i: int|
            0 <= i < spec_upsert(s, k, x).len() ==> ((#[trigger] spec_upsert(s, k, x)[i]).0 == k
                || exists|j: int| 0 <= j < s.len() && spec_upsert(s, k, x)[i].0 == (#[trigger] s[j]).0),
    decreases s.len(),
{
    let u = spec_upsert(s, k, x);
    if s.len() == 0 {
    } else if s[0].0 == k {
        assert forall|i: int|
            0 <= i < u.len() implies ((#[trigger] u[i]).0 == k || exists|j: int|
            0 <= j < s.len() && u[i].0 == (#[trigger] s[j]).0) by {
            if i > 0 {
                assert(u[i] == s[i]);
            }
        }
    } else {
        let d = s.drop_first();
        lemma_upsert_keys(d, k, x);
        let ud = spec_upsert(d, k, x);
        assert(u =~= seq![s[0]] + ud);
        assert forall|i: int|
            0 <= i < u.len() implies ((#[trigger] u[i]).0 == k || exists|j: int|
            0 <= j < s.len() && u[i].0 == (#[trigger] s[j]).0) by {
            if i == 0 {
                assert(u[0].0 == s[0].0);
            } else {
                assert(u[i] == ud[i - 1]);
                if ud[i - 1].0 != k {
                    let j = choose|j: int| 0 <= j < d.len() && ud[i - 1].0 == (#[trigger] d[j]).0;
                    assert(u[i].0 == s[j + 1].0);
                }
            }
        }
    }
}

impl CacheStore {
    /// The batch maintenance sweep: scans the whole primary tier, deletes
    /// every record whose expiry has passed (blob included, best-effort) and
    /// returns how many records it removed. Not part of the request path.
    pub fn cleanup_expired(&mut self, now: u64) -> (r: usize)
        requires
            old(self).wf(),
        ensures
            final (self).wf(),
            final (self).same_config(*old(self)),
            final (self).meta_entries() == spec_keep_live(old(self).meta_entries(), now),
            final (self).blob_entries() == spec_drop_expired_blobs(
                old(self).meta_entries(),
                old(self).blob_entries(),
                now,
            ),
            r + final (self).meta_entries().len() == old(self).meta_entries().len(),
    {
        let ghost mv0 = self.meta_entries();
        let ghost bv0 = self.blob_entries();
        let n = self.meta.len();
        assert(mv0.len() == n);
        proof {
            assert(mv0.take(0) =~= Seq::<(Seq<char>, MetaModel)>::empty());
            assert(mv0.skip(0) =~= mv0);
            assert(meta_view(self.meta@) =~= spec_keep_live(mv0.take(0), now) + mv0.skip(0));
        }
        let mut i: usize = 0;
        let mut removed: usize = 0;
        loop
            invariant
                i + removed <= mv0.len(),
                i <= self.meta@.len(),
                mv0.len() <= usize::MAX,
                meta_view(self.meta@) == spec_keep_live(mv0.take((i + removed) as int), now)
                    + mv0.skip((i + removed) as int),
                i == spec_keep_live(mv0.take((i + removed) as int), now).len(),
                pairs_view(self.blobs@) == spec_drop_expired_blobs(
                    mv0.take((i + removed) as int),
                    bv0,
                    now,
                ),
                unique_keys(meta_view(self.meta@)),
                unique_keys(pairs_view(self.blobs@)),
                self.max_body_size == old(self).max_body_size,
                self.default_ttl == old(self).default_ttl,
            ensures
                i + removed == mv0.len(),
                meta_view(self.meta@) == spec_keep_live(mv0, now),
                pairs_view(self.blobs@) == spec_drop_expired_blobs(mv0, bv0, now),
                i == spec_keep_live(mv0, now).len(),
                unique_keys(meta_view(self.meta@)),
                unique_keys(pairs_view(self.blobs@)),
                self.max_body_size == old(self).max_body_size,
                self.default_ttl == old(self).default_ttl,
            decreases mv0.len() - (i + removed),
        {
            let ghost j = (i + removed) as int;
            if i >= self.meta.len() {
                proof {
                    assert(mv0.skip(j).len() == 0);
                    assert(j == mv0.len());
                    assert(mv0.take(j) =~= mv0);
                }
                break ;
            }
            proof {
                assert(mv0.skip(j)[0] == mv0[j]);
                assert(meta_view(self.meta@)[i as int] == mv0[j]);
                assert(mv0.take(j + 1).drop_last() =~= mv0.take(j));
                assert(mv0.take(j + 1).last() == mv0[j]);
            }
            let ghost cur_meta = meta_view(self.meta@);
            let expired = self.meta[i].1.expires_at < now;
            if expired {
                let blob_key: Option<String> = match &self.meta[i].1.payload {
                    StoredPayload::BlobRef(b) => Some(b.clone()),
                    StoredPayload::Inline(_) => None,
                };
                let _rm = self.meta.remove(i);
                proof {
                    assert(meta_view(self.meta@) =~= cur_meta.remove(i as int));
                    assert(meta_view(self.meta@) =~= spec_keep_live(mv0.take(j + 1), now)
                        + mv0.skip(j + 1));
                    assert forall|a: int, b: int|
                        0 <= a < b < meta_view(self.meta@).len() implies (
                    #[trigger] meta_view(self.meta@)[a]).0 != (#[trigger] meta_view(self.meta@)[b]).0 by {
                        if b < i {
                            assert(cur_meta[a].0 != cur_meta[b].0);
                        } else if a < i {
                            assert(cur_meta[a].0 != cur_meta[b + 1].0);
                        } else {
                            assert(cur_meta[a + 1].0 != cur_meta[b + 1].0);
                        }
                    }
                }
                let ghost bv_prev = pairs_view(self.blobs@);
                match blob_key {
                    Some(bk) => {
                        match assoc_position(&self.blobs, bk.as_str()) {
                            Some(bi) => {
                                proof {
                                    assert(bv_prev[bi as int].0 == bk@);
                                    lemma_remove_at(bv_prev, bk@, bi as int);
                                }
                                let _b = self.blobs.remove(bi);
                                assert(pairs_view(self.blobs@) =~= spec_remove_key(bv_prev, bk@));
                                proof {
                                    assert forall|a: int, b: int|
                                        0 <= a < b < pairs_view(self.blobs@).len() implies (
                                    #[trigger] pairs_view(self.blobs@)[a]).0 != (
                                    #[trigger] pairs_view(self.blobs@)[b]).0 by {
                                        if b < bi {
                                            assert(bv_prev[a].0 != bv_prev[b].0);
                                        } else if a < bi {
                                            assert(bv_prev[a].0 != bv_prev[b + 1].0);
                                        } else {
                                            assert(bv_prev[a + 1].0 != bv_prev[b + 1].0);
                                        }
                                    }
                                }
                            },
                            None => {
                                proof {
                                    lemma_remove_absent(bv_prev, bk@);
                                }
                            },
                        }
                    },
                    None => {},
                }
                removed = removed + 1;
            } else {
                proof {
                    assert(spec_keep_live(mv0.take(j + 1), now) =~= spec_keep_live(
                        mv0.take(j),
                        now,
                    ).push(mv0[j]));
                    assert(spec_keep_live(mv0.take(j + 1), now) + mv0.skip(j + 1)
                        =~= spec_keep_live(mv0.take(j), now) + mv0.skip(j));
                }
                i = i + 1;
            }
        }
        removed
    }
}

/// What one fetched metadata record means for a read, before any blob fetch:
/// how a networked primary tier's record is interpreted. The record's TTL
/// field arrives as text; a malformed one is a corrupt entry, never a miss.
pub enum RecordOutcome {
    /// The record's TTL text does not parse: a corrupt entry.
    Corrupt,
    /// The record's expiry has passed: delete it and report a miss.
    Expired,
    /// The payload lives in the blob tier under this key.
    Blob(String),
    /// The payload is embedded in the record.
    Inline(String),
    /// The record carries neither a blob reference nor a payload.
    NoData,
}

/// Interprets a fetched metadata record: expiry first, then where the
/// payload lives.
pub fn interpret_record(
    ttl_text: Option<&str>,
    s3_key: Option<&str>,
    response: Option<&str>,
    now: u64,
) -> (r: RecordOutcome)
    ensures
        ({
            let live = match ttl_text {
                Some(t) => match spec_parse_u64(t@) {
                    Some(ts) => if ts < now {
                        None
                    } else {
                        Some(true)
                    },
                    None => Some(false),
                },
                None => Some(true),
            };
            match live {
                Some(false) => r is Corrupt,
                None => r is Expired,
                Some(true) => match s3_key {
                    Some(k) => r matches RecordOutcome::Blob(b) && b@ == k@,
                    None => match response {
                        Some(p) => r matches RecordOutcome::Inline(s) && s@ == p@,
                        None => r is NoData,
                    },
                },
            }
        }),
{
    match ttl_text {
        Some(t) => {
            let chars = chars_of(t);
            match parse_u64_chars(&chars) {
                Some(ts) => {
                    if ts < now {
                        return RecordOutcome::Expired;
                    }
                },
                None => {
                    return RecordOutcome::Corrupt;
                },
            }
        },
        None => {},
    }
    match s3_key {
        Some(k) => RecordOutcome::Blob(String::from_str(k)),
        None => match response {
            Some(p) => RecordOutcome::Inline(String::from_str(p)),
            None => RecordOutcome::NoData,
        },
    }
}

/// Insert-or-replace in the metadata tier.
fn upsert_meta(v: &mut Vec<(String, MetaRecord)>, key: String, rec: MetaRecord)
    requires
        unique_keys(meta_view(old(v)@)),
    ensures
        meta_view(final (v)@) == spec_upsert(meta_view(old(v)@), key@, meta_model(rec)),
        unique_keys(meta_view(final (v)@)),
{
    let ghost s = meta_view(v@);
    let ghost x = meta_model(rec);
    match assoc_position(v, key.as_str()) {
        Some(i) => {
            proof {
                assert(s[i as int].0 == key@);
                lemma_upsert_at(s, key@, x, i as int);
            }
            let _old = v.remove(i);
            v.insert(i, (key, rec));
            assert(meta_view(v@) =~= s.update(i as int, (key@, x)));
            proof {
                assert forall|a: int, b: int|
                    0 <= a < b < meta_view(v@).len() implies (#[trigger] meta_view(v@)[a]).0 != (
                #[trigger] meta_view(v@)[b]).0 by {
                    assert(meta_view(v@)[a].0 == s[a].0);
                    assert(meta_view(v@)[b].0 == s[b].0);
                }
            }
        },
        None => {
            proof {
                lemma_upsert_absent(s, key@, x);
            }
            v.push((key, rec));
            assert(meta_view(v@) =~= s.push((key@, x)));
            proof {
                assert forall|a: int, b: int|
                    0 <= a < b < meta_view(v@).len() implies (#[trigger] meta_view(v@)[a]).0 != (
                #[trigger] meta_view(v@)[b]).0 by {
                    if b < s.len() {
                        assert(s[a].0 != s[b].0);
                    } else {
                        assert(s[a].0 != key@);
                    }
                }
            }
        },
    }
}

/// Insert-or-replace in the blob tier.
fn upsert_blob(v: &mut Vec<(String, String)>, key: String, payload: String)
    requires
        unique_keys(pairs_view(old(v)@)),
    ensures
        pairs_view(final (v)@) == spec_upsert(pairs_view(old(v)@), key@, payload@),
        unique_keys(pairs_view(final (v)@)),
{
    let ghost s = pairs_view(v@);
    match assoc_position(v, key.as_str()) {
        Some(i) => {
            proof {
                assert(s[i as int].0 == key@);
                lemma_upsert_at(s, key@, payload@, i as int);
            }
            let _old = v.remove(i);
            v.insert(i, (key, payload));
            assert(pairs_view(v@) =~= s.update(i as int, (key@, payload@)));
            proof {
                assert forall|a: int, b: int|
                    0 <= a < b < pairs_view(v@).len() implies (#[trigger] pairs_view(v@)[a]).0 != (
                #[trigger] pairs_view(v@)[b]).0 by {
                    assert(pairs_view(v@)[a].0 == s[a].0);
                    assert(pairs_view(v@)[b].0 == s[b].0);
                }
            }
        },
        None => {
            proof {
                lemma_upsert_absent(s, key@, payload@);
            }
            v.push((key, payload));
            assert(pairs_view(v@) =~= s.push((key@, payload@)));
            proof {
                assert forall|a: int, b: int|
                    0 <= a < b < pairs_view(v@).len() implies (#[trigger] pairs_view(v@)[a]).0 != (
                #[trigger] pairs_view(v@)[b]).0 by {
                    if b < s.len() {
                        assert(s[a].0 != s[b].0);
                    } else {
                        assert(s[a].0 != key@);
                    }
                }
            }
        },
    }
}

} // verus!
