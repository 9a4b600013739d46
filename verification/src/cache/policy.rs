//! The cache policy engine: an immutable, ordered rule set answering which
//! endpoints are cacheable, with what TTL, size cap and vary headers, and
//! whether a concrete response should be stored.

use vstd::prelude::*;
use vstd::string::StringExecFns;

use crate::http::HttpResponse;
use crate::text::chars_of;
use crate::text::chars_start_with;
use crate::text::chars_contain;
use crate::text::find_char;
use crate::text::lemma_spec_find;
use crate::text::lower_of;
use crate::text::spec_contains;
use crate::text::spec_find;
use crate::text::spec_starts_with;
use crate::text::str_eq;
use crate::text::string_of;
use crate::text::subrange_chars;
use crate::text::to_lowercase;
use crate::text::to_uppercase;
use crate::text::upper_of;
use crate::cache::key::pairs_view;

verus! {

/// The overrides one endpoint rule applies to caching decisions.
#[derive(Debug, Clone)]
pub struct EndpointPolicy {
    /// TTL override, seconds.
    pub ttl: Option<u64>,
    /// Body size cap override, bytes.
    pub max_body_size: Option<usize>,
    /// Vary-header override.
    pub headers_to_vary: Option<Vec<String>>,
    /// Whether matching endpoints are cacheable at all.
    pub cacheable: bool,
    /// Methods this rule is meant for.
    pub methods: Vec<String>,
}

/// The loaded, immutable policy: global defaults and an ordered rule list.
#[derive(Debug, Clone)]
pub struct CachePolicy {
    /// Default TTL, seconds.
    pub default_ttl: u64,
    /// Default body size cap, bytes.
    pub max_body_size: usize,
    /// Default vary-header list.
    pub headers_to_vary: Vec<String>,
    /// Ordered endpoint rules: `"METHOD PATTERN"` keys with their overrides.
    /// Resolution is deterministic: an exact key match wins, then the most
    /// specific matching pattern, declaration order breaking ties.
    pub endpoint_policies: Vec<(String, EndpointPolicy)>,
}

/// View of the rule list as pattern character sequences with their policies.
pub open spec fn rules_view(v: Seq<(String, EndpointPolicy)>) -> Seq<(Seq<char>, EndpointPolicy)> {
    Seq::new(v.len(), |i: int| (v[i].0@, v[i].1))
}

/// Does `"METHOD PATTERN"` accept the request? The pattern's method part must
/// be `*` or match the method case-insensitively; its path part must be `*`,
/// a `prefix*` the path starts with, or the exact path.
pub open spec fn spec_matches_pattern(pattern: Seq<char>, method: Seq<char>, path: Seq<char>) -> bool {
    match spec_find(pattern, ' ') {
        None => false,
        Some(i) => {
            let pm = pattern.take(i);
            let pp = pattern.skip(i + 1);
            if pm != "*"@ && upper_of(pm) != upper_of(method) {
                false
            } else if pp == "*"@ {
                true
            } else if pp.len() > 0 && pp.last() == '*' {
                spec_starts_with(path, pp.drop_last())
            } else {
                pp == path
            }
        },
    }
}

/// The exact-match rule key for a request.
pub open spec fn spec_exact_key(method: Seq<char>, path: Seq<char>) -> Seq<char> {
    upper_of(method) + " "@ + path
}

/// First rule whose key is exactly `key`.
pub open spec fn spec_find_exact(
    rules: Seq<(Seq<char>, EndpointPolicy)>,
    key: Seq<char>,
) -> Option<int>
    decreases rules.len(),
{
    if rules.len() == 0 {
        None
    } else if rules[0].0 == key {
        Some(0int)
    } else {
        match spec_find_exact(rules.drop_first(), key) {
            Some(i) => Some(i + 1),
            None => None,
        }
    }
}

/// How specific a rule's path pattern is: an exact path outranks every
/// prefix pattern it can co-match with, a longer prefix outranks a shorter,
/// and `*` ranks below them all.
pub open spec fn spec_pattern_specificity(pattern: Seq<char>) -> int {
    match spec_find(pattern, ' ') {
        None => 0,
        Some(i) => {
            let pp = pattern.skip(i + 1);
            if pp == "*"@ {
                0
            } else if pp.len() > 0 && pp.last() == '*' {
                2 * (pp.len() as int - 1) + 1
            } else {
                2 * (pp.len() as int) + 2
            }
        },
    }
}

/// The matching pattern rule the scan picks: the most specific one, a tie
/// keeping the earliest declaration.
pub open spec fn spec_best_match(
    rules: Seq<(Seq<char>, EndpointPolicy)>,
    method: Seq<char>,
    path: Seq<char>,
) -> Option<int>
    decreases rules.len(),
{
    if rules.len() == 0 {
        None
    } else {
        let prev = spec_best_match(rules.drop_last(), method, path);
        let last = rules.len() - 1;
        if !spec_matches_pattern(rules[last].0, method, path) {
            prev
        } else {
            match prev {
                None => Some(last),
                Some(b) => if spec_pattern_specificity(rules[last].0) > spec_pattern_specificity(
                    rules[b].0,
                ) {
                    Some(last)
                } else {
                    Some(b)
                },
            }
        }
    }
}

/// Deterministic rule resolution: the exact key first, then the most
/// specific matching pattern, declaration order breaking ties.
pub open spec fn spec_rule_index(
    rules: Seq<(Seq<char>, EndpointPolicy)>,
    method: Seq<char>,
    path: Seq<char>,
) -> Option<int> {
    match spec_find_exact(rules, spec_exact_key(method, path)) {
        Some(i) => Some(i),
        None => spec_best_match(rules, method, path),
    }
}

/// The policy the resolution picks, if any.
pub open spec fn spec_rule_of(
    rules: Seq<(Seq<char>, EndpointPolicy)>,
    method: Seq<char>,
    path: Seq<char>,
) -> Option<EndpointPolicy> {
    match spec_rule_index(rules, method, path) {
        Some(i) => Some(rules[i].1),
        None => None,
    }
}

pub proof fn lemma_find_exact(rules: Seq<(Seq<char>, EndpointPolicy)>, key: Seq<char>)
    ensures
        match spec_find_exact(rules, key) {
            Some(i) => 0 <= i < rules.len() && rules[i].0 == key && forall|j: int|
                0 <= j < i ==> (#[trigger] rules[j]).0 != key,
            None => forall|j: int| 0 <= j < rules.len() ==> (#[trigger] rules[j]).0 != key,
        },
    decreases rules.len(),
{
    if rules.len() > 0 && rules[0].0 != key {
        let d = rules.drop_first();
        lemma_find_exact(d, key);
        match spec_find_exact(d, key) {
            Some(i) => {
                assert(rules[i + 1] == d[i]);
                assert forall|j: int| 0 <= j < i + 1 implies (#[trigger] rules[j]).0 != key by {
                    if j >= 1 {
                        assert(rules[j] == d[j - 1]);
                    }
                }
            },
            None => {
                assert forall|j: int| 0 <= j < rules.len() implies (#[trigger] rules[j]).0
                    != key by {
                    if j >= 1 {
                        assert(rules[j] == d[j - 1]);
                    }
                }
            },
        }
    }
}

/// What the pattern scan picks: a matching rule of maximal specificity,
/// and the earliest such rule; nothing only when nothing matches.
pub proof fn lemma_best_match(
    rules: Seq<(Seq<char>, EndpointPolicy)>,
    method: Seq<char>,
    path: Seq<char>,
)
    ensures
        match spec_best_match(rules, method, path) {
            Some(b) => 0 <= b < rules.len() && spec_matches_pattern(rules[b].0, method, path)
                && (forall|j: int|
                0 <= j < rules.len() && spec_matches_pattern((#[trigger] rules[j]).0, method, path)
                    ==> spec_pattern_specificity(rules[j].0) <= spec_pattern_specificity(
                    rules[b].0,
                )) && (forall|j: int|
                0 <= j < b && spec_matches_pattern((#[trigger] rules[j]).0, method, path)
                    ==> spec_pattern_specificity(rules[j].0) < spec_pattern_specificity(
                    rules[b].0,
                )),
            None => forall|j: int|
                0 <= j < rules.len() ==> !spec_matches_pattern(
                    (#[trigger] rules[j]).0,
                    method,
                    path,
                ),
        },
    decreases rules.len(),
{
    if rules.len() > 0 {
        let d = rules.drop_last();
        let last = rules.len() - 1;
        lemma_best_match(d, method, path);
        assert(forall|j: int| 0 <= j < d.len() ==> #[trigger] d[j] == rules[j]);
        let prev = spec_best_match(d, method, path);
        if !spec_matches_pattern(rules[last].0, method, path) {
            match prev {
                None => {
                    assert forall|j: int|
                        0 <= j < rules.len() implies !spec_matches_pattern(
                        (#[trigger] rules[j]).0,
                        method,
                        path,
                    ) by {
                        if j < last {
                            assert(rules[j] == d[j]);
                        }
                    }
                },
                Some(b) => {
                    assert forall|j: int|
                        0 <= j < rules.len() && spec_matches_pattern(
                            (#[trigger] rules[j]).0,
                            method,
                            path,
                        ) implies spec_pattern_specificity(rules[j].0)
                        <= spec_pattern_specificity(rules[b].0) by {
                        assert(j < last);
                        assert(rules[j] == d[j]);
                    }
                    assert forall|j: int|
                        0 <= j < b && spec_matches_pattern(
                            (#[trigger] rules[j]).0,
                            method,
                            path,
                        ) implies spec_pattern_specificity(rules[j].0)
                        < spec_pattern_specificity(rules[b].0) by {
                        assert(rules[j] == d[j]);
                    }
                },
            }
        } else {
            match prev {
                None => {
                    assert(spec_best_match(rules, method, path) == Some(last as int));
                    assert forall|j: int|
                        0 <= j < last implies !spec_matches_pattern(
                        (#[trigger] rules[j]).0,
                        method,
                        path,
                    ) by {
                        assert(rules[j] == d[j]);
                    }
                },
                Some(b) => {
                    if spec_pattern_specificity(rules[last].0) > spec_pattern_specificity(
                        rules[b].0,
                    ) {
                        assert(spec_best_match(rules, method, path) == Some(last as int));
                        assert forall|j: int|
                            0 <= j < last && spec_matches_pattern(
                                (#[trigger] rules[j]).0,
                                method,
                                path,
                            ) implies spec_pattern_specificity(rules[j].0)
                            < spec_pattern_specificity(rules[last].0) by {
                            assert(rules[j] == d[j]);
                            assert(spec_pattern_specificity(d[j].0)
                                <= spec_pattern_specificity(d[b].0));
                        }
                    } else {
                        assert(spec_best_match(rules, method, path) == Some(b));
                        assert forall|j: int|
                            0 <= j < rules.len() && spec_matches_pattern(
                                (#[trigger] rules[j]).0,
                                method,
                                path,
                            ) implies spec_pattern_specificity(rules[j].0)
                            <= spec_pattern_specificity(rules[b].0) by {
                            if j < last {
                                assert(rules[j] == d[j]);
                            }
                        }
                        assert forall|j: int|
                            0 <= j < b && spec_matches_pattern(
                                (#[trigger] rules[j]).0,
                                method,
                                path,
                            ) implies spec_pattern_specificity(rules[j].0)
                            < spec_pattern_specificity(rules[b].0) by {
                            assert(rules[j] == d[j]);
                        }
                    }
                },
            }
        }
    }
}

/// Policy precedence: when the rule list holds the request's exact
/// `"METHOD PATH"` key, resolution picks its first occurrence, whatever
/// other patterns are present and wherever they stand.
pub proof fn lemma_exact_match_precedence(
    rules: Seq<(Seq<char>, EndpointPolicy)>,
    method: Seq<char>,
    path: Seq<char>,
    j: int,
)
    requires
        0 <= j < rules.len(),
        rules[j].0 == spec_exact_key(method, path),
        forall|k: int| 0 <= k < j ==> (#[trigger] rules[k]).0 != spec_exact_key(method, path),
    ensures
        spec_rule_index(rules, method, path) == Some(j),
{
    lemma_find_exact(rules, spec_exact_key(method, path));
    match spec_find_exact(rules, spec_exact_key(method, path)) {
        Some(i) => {
            if i < j {
                assert(rules[i].0 != spec_exact_key(method, path));
            }
            if j < i {
                assert(rules[j].0 != spec_exact_key(method, path));
            }
        },
        None => {
            assert(rules[j].0 != spec_exact_key(method, path));
        },
    }
}

/// A response header forbidding storage: a `cache-control` header whose value
/// mentions `no-cache` or `no-store`.
pub open spec fn spec_no_cache_header(h: (Seq<char>, Seq<char>)) -> bool {
    lower_of(h.0) == "cache-control"@ && (spec_contains(h.1, "no-cache"@) || spec_contains(
        h.1,
        "no-store"@,
    ))
}

/// Whether a concrete response may be stored: a success status, no forbidding
/// `cache-control` header, and a body no larger than the policy's cap.
pub open spec fn spec_should_cache(p: CachePolicy, r: HttpResponse) -> bool {
    &&& 200 <= r.status_code < 300
    &&& !(exists|i: int|
        0 <= i < r.headers@.len() && spec_no_cache_header(#[trigger] pairs_view(r.headers@)[i]))
    &&& vstd::utf8::encode_utf8(r.body@).len() as usize <= p.max_body_size
}

impl CachePolicy {
    /// Resolves the rule for a request, or nothing when no rule applies.
    pub fn get_endpoint_policy(&self, method: &str, path: &str) -> (r: Option<&EndpointPolicy>)
        ensures
            match spec_rule_index(rules_view(self.endpoint_policies@), method@, path@) {
                Some(i) => r matches Some(p) && *p == rules_view(self.endpoint_policies@)[i].1,
                None => r is None,
            },
    {
        let rules = &self.endpoint_policies;
        let ghost rv = rules_view(rules@);
        let method_up = to_uppercase(method);
        let mut exact_key = method_up;
        exact_key.append(" ");
        exact_key.append(path);
        assert(exact_key@ == spec_exact_key(method@, path@));
        let mut i: usize = 0;
        assert(rv.skip(0) =~= rv);
        while i < rules.len()
            invariant
                i <= rules.len(),
                rv == rules_view(rules@),
                rules@ == self.endpoint_policies@,
                exact_key@ == spec_exact_key(method@, path@),
                spec_find_exact(rv, exact_key@) == match spec_find_exact(
                    rv.skip(i as int),
                    exact_key@,
                ) {
                    Some(k) => Some(k + i),
                    None => None::<int>,
                },
            decreases rules.len() - i,
        {
            assert(rv.skip(i as int)[0] == rv[i as int]);
            let entry = &rules[i];
            if str_eq(entry.0.as_str(), exact_key.as_str()) {
                assert(spec_find_exact(rv.skip(i as int), exact_key@) == Some(0int));
                assert(spec_find_exact(rv, exact_key@) == Some(i as int));
                assert(spec_rule_index(rv, method@, path@) == Some(i as int));
                assert(rv[i as int].1 == rules@[i as int].1);
                return Some(&entry.1);
            }
            assert(rv.skip(i as int).drop_first() =~= rv.skip(i as int + 1));
            i = i + 1;
        }
        let mut best: Option<usize> = None;
        let mut j: usize = 0;
        proof {
            assert(rv.take(0) =~= Seq::<(Seq<char>, EndpointPolicy)>::empty());
        }
        while j < rules.len()
            invariant
                j <= rules.len(),
                rv == rules_view(rules@),
                rules@ == self.endpoint_policies@,
                spec_find_exact(rv, spec_exact_key(method@, path@)) is None,
                match best {
                    Some(b) => b < j && spec_best_match(rv.take(j as int), method@, path@)
                        == Some(b as int),
                    None => spec_best_match(rv.take(j as int), method@, path@) is None,
                },
            decreases rules.len() - j,
        {
            proof {
                assert(rv.take(j as int + 1).drop_last() =~= rv.take(j as int));
                assert(rv.take(j as int + 1).last() == rv[j as int]);
                assert(forall|k: int|
                    0 <= k < j ==> #[trigger] rv.take(j as int + 1)[k] == rv[k]);
            }
            let entry = &rules[j];
            if self.matches_pattern(entry.0.as_str(), method, path) {
                match best {
                    None => {
                        best = Some(j);
                    },
                    Some(b) => {
                        let current = &rules[b];
                        if pattern_more_specific(entry.0.as_str(), current.0.as_str()) {
                            best = Some(j);
                        }
                    },
                }
            }
            j = j + 1;
        }
        proof {
            assert(rv.take(rv.len() as int) =~= rv);
        }
        match best {
            Some(b) => {
                assert(spec_rule_index(rv, method@, path@) == Some(b as int));
                assert(rv[b as int].1 == rules@[b as int].1);
                Some(&rules[b].1)
            },
            None => None,
        }
    }

    /// Does one `"METHOD PATTERN"` rule key accept the request?
    pub fn matches_pattern(&self, pattern: &str, method: &str, path: &str) -> (r: bool)
        ensures
            r == spec_matches_pattern(pattern@, method@, path@),
    {
        let pv = chars_of(pattern);
        let space = find_char(&pv, ' ');
        match space {
            None => false,
            Some(i) => {
                proof {
                    lemma_spec_find(pv@, ' ');
                }
                let pm = subrange_chars(&pv, 0, i);
                let pp = subrange_chars(&pv, i + 1, pv.len());
                assert(pm@ == pattern@.take(i as int));
                assert(pp@ =~= pattern@.skip(i as int + 1));
                let pm_s = string_of(&pm);
                let star = chars_of("*");
                let method_ok = if chars_eq_star(&pm) {
                    true
                } else {
                    let pm_up = to_uppercase(pm_s.as_str());
                    let m_up = to_uppercase(method);
                    str_eq(pm_up.as_str(), m_up.as_str())
                };
                if !method_ok {
                    false
                } else if chars_eq_star(&pp) {
                    true
                } else if pp.len() > 0 && pp[pp.len() - 1] == '*' {
                    let mut prefix = pp;
                    let _ = prefix.pop();
                    assert(prefix@ =~= pattern@.skip(i as int + 1).drop_last());
                    let path_chars = chars_of(path);
                    chars_start_with(&path_chars, &prefix)
                } else {
                    let path_chars = chars_of(path);
                    crate::text::chars_eq(&pp, &path_chars)
                }
            },
        }
    }

    /// The TTL that applies to an endpoint: the matched rule's override, else
    /// the default.
    pub fn get_ttl(&self, method: &str, path: &str) -> (r: u64)
        ensures
            r == (match spec_rule_of(rules_view(self.endpoint_policies@), method@, path@) {
                Some(ep) => match ep.ttl {
                    Some(t) => t,
                    None => self.default_ttl,
                },
                None => self.default_ttl,
            }),
    {
        match self.get_endpoint_policy(method, path) {
            Some(ep) => match ep.ttl {
                Some(t) => t,
                None => self.default_ttl,
            },
            None => self.default_ttl,
        }
    }

    /// The body size cap that applies to an endpoint.
    pub fn get_max_body_size(&self, method: &str, path: &str) -> (r: usize)
        ensures
            r == (match spec_rule_of(rules_view(self.endpoint_policies@), method@, path@) {
                Some(ep) => match ep.max_body_size {
                    Some(s) => s,
                    None => self.max_body_size,
                },
                None => self.max_body_size,
            }),
    {
        match self.get_endpoint_policy(method, path) {
            Some(ep) => match ep.max_body_size {
                Some(s) => s,
                None => self.max_body_size,
            },
            None => self.max_body_size,
        }
    }

    /// The vary-header list that applies to an endpoint.
    pub fn get_headers_to_vary(&self, method: &str, path: &str) -> (r: &Vec<String>)
        ensures
            r@ == (match spec_rule_of(rules_view(self.endpoint_policies@), method@, path@) {
                Some(ep) => match ep.headers_to_vary {
                    Some(v) => v@,
                    None => self.headers_to_vary@,
                },
                None => self.headers_to_vary@,
            }),
    {
        match self.get_endpoint_policy(method, path) {
            Some(ep) => match &ep.headers_to_vary {
                Some(v) => v,
                None => &self.headers_to_vary,
            },
            None => &self.headers_to_vary,
        }
    }

    /// Is the endpoint cacheable at all? Without a matching rule, only GET
    /// requests are.
    pub fn is_endpoint_cacheable(&self, method: &str, path: &str) -> (r: bool)
        ensures
            r == (match spec_rule_of(rules_view(self.endpoint_policies@), method@, path@) {
                Some(ep) => ep.cacheable,
                None => upper_of(method@) == "GET"@,
            }),
    {
        match self.get_endpoint_policy(method, path) {
            Some(ep) => ep.cacheable,
            None => {
                let up = to_uppercase(method);
                str_eq(up.as_str(), "GET")
            },
        }
    }

    /// May this concrete response be stored? Rejects non-success statuses,
    /// responses that forbid caching, and oversized bodies.
    pub fn should_cache(&self, response: &HttpResponse) -> (r: bool)
        ensures
            r == spec_should_cache(*self, *response),
    {
        if response.status_code < 200 || response.status_code >= 300 {
            return false;
        }
        let no_cache = chars_of("no-cache");
        let no_store = chars_of("no-store");
        let mut i: usize = 0;
        while i < response.headers.len()
            invariant
                i <= response.headers.len(),
                no_cache@ == "no-cache"@,
                no_store@ == "no-store"@,
                forall|k: int|
                    0 <= k < i ==> !spec_no_cache_header(
                        #[trigger] pairs_view(response.headers@)[k],
                    ),
            decreases response.headers.len() - i,
        {
            let entry = &response.headers[i];
            let name = to_lowercase(entry.0.as_str());
            if str_eq(name.as_str(), "cache-control") {
                let value = chars_of(entry.1.as_str());
                if chars_contain(&value, &no_cache) || chars_contain(&value, &no_store) {
                    assert(spec_no_cache_header(pairs_view(response.headers@)[i as int]));
                    return false;
                }
            }
            i = i + 1;
        }
        response.body.as_str().len() <= self.max_body_size
    }
}

/// The shape of a rule's path pattern: its specificity kind (`*`, prefix,
/// exact) and the length that ranks it, with
/// `spec_pattern_specificity == 2 * length + kind`.
fn pattern_shape(pattern: &str) -> (r: (u8, usize))
    ensures
        r.0 <= 2,
        spec_pattern_specificity(pattern@) == 2 * (r.1 as int) + (r.0 as int),
{
    let pv = chars_of(pattern);
    match find_char(&pv, ' ') {
        None => (0, 0),
        Some(i) => {
            proof {
                lemma_spec_find(pv@, ' ');
            }
            let plen = pv.len();
            assert(i < plen);
            let pp = subrange_chars(&pv, i + 1, plen);
            assert(pp@ =~= pattern@.skip(i as int + 1));
            if chars_eq_star(&pp) {
                (0, 0)
            } else if pp.len() > 0 && pp[pp.len() - 1] == '*' {
                assert(pp@.last() == '*');
                (1, pp.len() - 1)
            } else {
                (2, pp.len())
            }
        },
    }
}

/// Is the first pattern strictly more specific than the second?
fn pattern_more_specific(a: &str, b: &str) -> (r: bool)
    ensures
        r == (spec_pattern_specificity(a@) > spec_pattern_specificity(b@)),
{
    let sa = pattern_shape(a);
    let sb = pattern_shape(b);
    if sa.1 < sb.1 {
        false
    } else if sa.1 == sb.1 {
        sa.0 > sb.0
    } else {
        !(sa.1 == sb.1 + 1 && sa.0 == 0 && sb.0 == 2)
    }
}

/// Is the character vector the single character `*`?
fn chars_eq_star(v: &Vec<char>) -> (r: bool)
    ensures
        r == (v@ == "*"@),
{
    let star = chars_of("*");
    crate::text::chars_eq(v, &star)
}

impl Default for CachePolicy {
    /// The built-in policy: one hour default TTL, a ten-megabyte body cap,
    /// three vary headers, and two seed rules.
    fn default() -> (r: Self)
        ensures
            r.default_ttl == 3600,
            r.max_body_size == 10485760,
            r.headers_to_vary@.len() == 3,
            r.headers_to_vary@[0]@ == "authorization"@,
            r.headers_to_vary@[1]@ == "x-api-key"@,
            r.headers_to_vary@[2]@ == "x-user-id"@,
            r.endpoint_policies@.len() == 2,
            r.endpoint_policies@[0].0@ == "GET /api/users"@,
            r.endpoint_policies@[0].1.ttl == Some(300u64),
            r.endpoint_policies@[0].1.max_body_size == Some(1048576usize),
            r.endpoint_policies@[0].1.headers_to_vary matches Some(v) && v@.len() == 1 && v@[0]@
                == "authorization"@,
            r.endpoint_policies@[0].1.cacheable == true,
            r.endpoint_policies@[0].1.methods@.len() == 1 && r.endpoint_policies@[0].1.methods@[0]@
                == "GET"@,
            r.endpoint_policies@[1].0@ == "POST *"@,
            r.endpoint_policies@[1].1.ttl is None,
            r.endpoint_policies@[1].1.max_body_size is None,
            r.endpoint_policies@[1].1.headers_to_vary is None,
            r.endpoint_policies@[1].1.cacheable == false,
            r.endpoint_policies@[1].1.methods@.len() == 1 && r.endpoint_policies@[1].1.methods@[0]@
                == "POST"@,
    {
        let mut headers_to_vary: Vec<String> = Vec::new();
        headers_to_vary.push(String::from_str("authorization"));
        headers_to_vary.push(String::from_str("x-api-key"));
        headers_to_vary.push(String::from_str("x-user-id"));
        let mut users_vary: Vec<String> = Vec::new();
        users_vary.push(String::from_str("authorization"));
        let mut users_methods: Vec<String> = Vec::new();
        users_methods.push(String::from_str("GET"));
        let users_rule = EndpointPolicy {
            ttl: Some(300),
            max_body_size: Some(1048576),
            headers_to_vary: Some(users_vary),
            cacheable: true,
            methods: users_methods,
        };
        let mut post_methods: Vec<String> = Vec::new();
        post_methods.push(String::from_str("POST"));
        let post_rule = EndpointPolicy {
            ttl: None,
            max_body_size: None,
            headers_to_vary: None,
            cacheable: false,
            methods: post_methods,
        };
        let mut endpoint_policies: Vec<(String, EndpointPolicy)> = Vec::new();
        endpoint_policies.push((String::from_str("GET /api/users"), users_rule));
        endpoint_policies.push((String::from_str("POST *"), post_rule));
        CachePolicy { default_ttl: 3600, max_body_size: 10485760, headers_to_vary, endpoint_policies }
    }
}

} // verus!
