//! Request and response canonicalization: header name/value cleanup, path
//! normalization, and structured-JSON body normalization.

use vstd::prelude::*;
use vstd::string::StringExecFns;

use crate::http::HttpRequest;
use crate::http::HttpResponse;
use crate::http::upsert_header;
use crate::cache::key::pairs_view;
use crate::cache::store::spec_upsert;
use crate::json::Json;
use crate::json::JsonModel;
use crate::json::json_text;
use crate::json::json_view;
use crate::json::jsons_view;
use crate::json::members_view;
use crate::json::parse_json;
use crate::json::spec_parse_json;
use crate::json::to_json_string;
use crate::text::chars_lex_lt;
use crate::text::chars_of;
use crate::text::find_char;
use crate::text::is_ws_char;
use crate::text::lemma_spec_find;
use crate::text::lex_lt;
use crate::text::lower_of;
use crate::text::spec_find;
use crate::text::spec_trim;
use crate::text::spec_u64_digits;
use crate::text::str_eq;
use crate::text::string_of;
use crate::text::subrange_chars;
use crate::text::to_lowercase;
use crate::text::trim_chars;
use crate::text::trim_start_spec;
use crate::text::trim_end_spec;
use crate::text::u64_to_string;

verus! {

broadcast use vstd::seq::axiom_seq_index_decreases, vstd::std_specs::vec::axiom_vec_index_decreases, vstd::std_specs::vec::axiom_vec_decreases_to_view;

/// Canonical header name: trimmed, then lowercased.
pub open spec fn spec_header_name(name: Seq<char>) -> Seq<char> {
    lower_of(spec_trim(name))
}

/// Normalizes a header name.
pub fn normalize_header_name(name: &str) -> (r: String)
    ensures
        r@ == spec_header_name(name@),
{
    let v = chars_of(name);
    let t = trim_chars(&v);
    let s = string_of(&t);
    to_lowercase(s.as_str())
}

/// Normalizes a header value: surrounding whitespace goes, the text stays.
pub fn normalize_header_value(value: &str) -> (r: String)
    ensures
        r@ == spec_trim(value@),
{
    let v = chars_of(value);
    let t = trim_chars(&v);
    string_of(&t)
}

/// The canonical header list of a request or response: names trimmed and
/// lowercased, values trimmed, a later duplicate name replacing an earlier.
pub open spec fn spec_normalize_headers(hs: Seq<(Seq<char>, Seq<char>)>) -> Seq<
    (Seq<char>, Seq<char>),
>
    decreases hs.len(),
{
    if hs.len() == 0 {
        Seq::empty()
    } else {
        spec_upsert(
            spec_normalize_headers(hs.drop_last()),
            spec_header_name(hs.last().0),
            spec_trim(hs.last().1),
        )
    }
}

fn normalize_header_list(headers: &Vec<(String, String)>) -> (r: Vec<(String, String)>)
    ensures
        pairs_view(r@) == spec_normalize_headers(pairs_view(headers@)),
{
    let mut r: Vec<(String, String)> = Vec::new();
    let mut i: usize = 0;
    proof {
        assert(pairs_view(r@) =~= spec_normalize_headers(pairs_view(headers@).take(0)));
    }
    while i < headers.len()
        invariant
            i <= headers@.len(),
            pairs_view(r@) == spec_normalize_headers(pairs_view(headers@).take(i as int)),
        decreases headers@.len() - i,
    {
        let entry = &headers[i];
        let name = normalize_header_name(entry.0.as_str());
        let value = normalize_header_value(entry.1.as_str());
        proof {
            assert(pairs_view(headers@).take(i as int + 1).drop_last() =~= pairs_view(
                headers@,
            ).take(i as int));
            assert(pairs_view(headers@).take(i as int + 1).last() == pairs_view(headers@)[i as int]);
        }
        upsert_header(&mut r, name, value);
        i = i + 1;
    }
    proof {
        assert(pairs_view(headers@).take(headers@.len() as int) =~= pairs_view(headers@));
    }
    r
}

/// Canonical request path: trimmed, query string and fragment removed, one
/// trailing slash stripped unless the path is `/`, and a leading slash
/// forced.
pub open spec fn spec_normalize_path(p: Seq<char>) -> Seq<char> {
    let t = spec_trim(p);
    let q1 = match spec_find(t, '?') {
        Some(i) => t.take(i),
        None => t,
    };
    let q2 = match spec_find(q1, '#') {
        Some(i) => q1.take(i),
        None => q1,
    };
    let q3 = if q2.len() > 1 && q2.last() == '/' {
        q2.drop_last()
    } else {
        q2
    };
    if q3.len() == 0 || q3[0] != '/' {
        seq!['/'] + q3
    } else {
        q3
    }
}

/// Normalizes a URL path.
pub fn normalize_path(path: &str) -> (r: String)
    ensures
        r@ == spec_normalize_path(path@),
{
    let v = chars_of(path);
    let mut t = trim_chars(&v);
    let ghost t0 = t@;
    match find_char(&t, '?') {
        Some(i) => {
            proof {
                lemma_spec_find(t0, '?');
            }
            t.truncate(i);
        },
        None => {},
    }
    let ghost q1 = match spec_find(t0, '?') {
        Some(i) => t0.take(i),
        None => t0,
    };
    assert(t@ =~= q1);
    match find_char(&t, '#') {
        Some(i) => {
            proof {
                lemma_spec_find(q1, '#');
            }
            t.truncate(i);
        },
        None => {},
    }
    let ghost q2 = match spec_find(q1, '#') {
        Some(i) => q1.take(i),
        None => q1,
    };
    assert(t@ =~= q2);
    if t.len() > 1 && t[t.len() - 1] == '/' {
        assert(t@.last() == '/');
        let _ = t.pop();
    }
    let ghost q3 = if q2.len() > 1 && q2.last() == '/' {
        q2.drop_last()
    } else {
        q2
    };
    assert(t@ =~= q3);
    if t.len() == 0 || !(t[0] == '/') {
        let mut out: Vec<char> = Vec::new();
        out.push('/');
        let mut tail = t;
        out.append(&mut tail);
        assert(out@ =~= seq!['/'] + q3);
        string_of(&out)
    } else {
        string_of(&t)
    }
}

/// Path idempotence: normalizing an already-normalized path changes nothing.
/// One pass does not reach a fixed point only when it leaves a trailing
/// slash or trailing whitespace behind — a doubled trailing slash keeps one
/// slash, and a space before the query keeps the space — so those two
/// endings are excluded.
pub proof fn lemma_normalize_path_idempotent(p: Seq<char>)
    requires
        spec_normalize_path(p).len() <= 1 || (spec_normalize_path(p).last() != '/'
            && !is_ws_char(spec_normalize_path(p).last())),
    ensures
        spec_normalize_path(spec_normalize_path(p)) == spec_normalize_path(p),
{
    let n = spec_normalize_path(p);
    let t = spec_trim(p);
    let q1 = match spec_find(t, '?') {
        Some(i) => t.take(i),
        None => t,
    };
    let q2 = match spec_find(q1, '#') {
        Some(i) => q1.take(i),
        None => q1,
    };
    let q3 = if q2.len() > 1 && q2.last() == '/' {
        q2.drop_last()
    } else {
        q2
    };
    lemma_spec_find(t, '?');
    lemma_spec_find(q1, '#');
    assert(forall|j: int| 0 <= j < q1.len() ==> q1[j] == t[j]);
    assert(forall|j: int| 0 <= j < q2.len() ==> q2[j] == q1[j]);
    assert(forall|j: int| 0 <= j < q3.len() ==> q3[j] == q2[j]);
    assert(forall|j: int| 0 <= j < q3.len() ==> q3[j] != '?' && q3[j] != '#');
    assert(n.len() >= 1);
    assert(n[0] == '/');
    assert(forall|j: int| 0 <= j < n.len() ==> n[j] != '?' && n[j] != '#');
    // the second pass changes nothing: no whitespace at either end, nothing
    // to cut, no trailing slash beyond the root, and the leading slash is
    // already there
    assert(trim_start_spec(n) == n);
    if n.len() > 1 {
        assert(!is_ws_char(n.last()));
        assert(trim_end_spec(n) == n);
    } else {
        assert(n =~= seq!['/']);
        assert(trim_end_spec(n) == n);
    }
    assert(spec_trim(n) == n);
    lemma_spec_find(n, '?');
    match spec_find(n, '?') {
        Some(i) => {
            assert(n[i] == '?');
            assert(false);
        },
        None => {},
    }
    lemma_spec_find(n, '#');
    match spec_find(n, '#') {
        Some(i) => {
            assert(n[i] == '#');
            assert(false);
        },
        None => {},
    }
    if n.len() > 1 {
        assert(n.last() != '/');
    }
    assert(spec_normalize_path(n) == n);
}

/// Whitespace runs collapsed to single spaces.
pub open spec fn spec_collapse_ws(s: Seq<char>) -> Seq<char>
    decreases s.len(),
{
    if s.len() == 0 {
        Seq::empty()
    } else if is_ws_char(s[0]) {
        let d = trim_start_spec(s);
        if d.len() < s.len() {
            seq![' '] + spec_collapse_ws(d)
        } else {
            Seq::empty()
        }
    } else {
        seq![s[0]] + spec_collapse_ws(s.drop_first())
    }
}

/// Canonical string content: trimmed, internal whitespace runs collapsed to
/// one space each.
pub open spec fn spec_norm_string_value(s: Seq<char>) -> Seq<char> {
    spec_collapse_ws(spec_trim(s))
}

proof fn lemma_trim_start_len(s: Seq<char>)
    ensures
        trim_start_spec(s).len() <= s.len(),
        s.len() > 0 && is_ws_char(s[0]) ==> trim_start_spec(s).len() < s.len(),
    decreases s.len(),
{
    if s.len() > 0 && is_ws_char(s[0]) {
        lemma_trim_start_len(s.drop_first());
    }
}

fn trim_start_chars(v: &Vec<char>) -> (r: Vec<char>)
    ensures
        r@ == trim_start_spec(v@),
{
    let mut i: usize = 0;
    assert(v@.skip(0) =~= v@);
    while i < v.len() && crate::text::char_is_ws(v[i])
        invariant
            i <= v.len(),
            trim_start_spec(v@) == trim_start_spec(v@.skip(i as int)),
        decreases v.len() - i,
    {
        assert(v@.skip(i as int).drop_first() =~= v@.skip(i as int + 1));
        i = i + 1;
    }
    assert(trim_start_spec(v@) == v@.skip(i as int));
    subrange_chars(v, i, v.len())
}

fn collapse_ws_chars(v: &Vec<char>) -> (r: Vec<char>)
    ensures
        r@ == spec_collapse_ws(v@),
{
    let mut out: Vec<char> = Vec::new();
    let mut rest = subrange_chars(v, 0, v.len());
    proof {
        assert(rest@ =~= v@);
        assert(out@ + spec_collapse_ws(rest@) =~= spec_collapse_ws(v@));
    }
    loop
        invariant
            spec_collapse_ws(v@) == out@ + spec_collapse_ws(rest@),
        ensures
            spec_collapse_ws(v@) == out@,
        decreases rest@.len(),
    {
        if rest.len() == 0 {
            assert(out@ + spec_collapse_ws(rest@) =~= out@);
            break ;
        }
        let ghost rest0 = rest@;
        let ghost pre = out@;
        if crate::text::char_is_ws(rest[0]) {
            proof {
                lemma_trim_start_len(rest0);
            }
            out.push(' ');
            rest = trim_start_chars(&rest);
            proof {
                assert(pre + spec_collapse_ws(rest0) =~= out@ + spec_collapse_ws(rest@));
            }
        } else {
            out.push(rest[0]);
            let rlen = rest.len();
            rest = subrange_chars(&rest, 1, rlen);
            proof {
                assert(rest@ =~= rest0.drop_first());
                assert(pre + spec_collapse_ws(rest0) =~= out@ + spec_collapse_ws(rest@));
            }
        }
    }
    out
}

/// Normalizes one string value.
pub fn normalize_string_value(s: &str) -> (r: String)
    ensures
        r@ == spec_norm_string_value(s@),
{
    let v = chars_of(s);
    let t = trim_chars(&v);
    let c = collapse_ws_chars(&t);
    string_of(&c)
}

/// Inserts a member into a key-sorted list; an equal key goes after the
/// entries already present, keeping the sort stable.
pub open spec fn sorted_insert_member(
    s: Seq<(Seq<char>, JsonModel)>,
    kv: (Seq<char>, JsonModel),
) -> Seq<(Seq<char>, JsonModel)>
    decreases s.len(),
{
    if s.len() == 0 {
        seq![kv]
    } else if lex_lt(kv.0, s[0].0) {
        seq![kv] + s
    } else {
        seq![s[0]] + sorted_insert_member(s.drop_first(), kv)
    }
}

/// The canonical form of an object's members: members with null values
/// dropped, the rest sorted by key (stable), values normalized recursively.
pub open spec fn spec_norm_members(members: Seq<(Seq<char>, JsonModel)>) -> Seq<
    (Seq<char>, JsonModel),
>
    decreases members, 1int,
{
    if members.len() == 0 {
        Seq::empty()
    } else {
        let p = spec_norm_members(members.drop_last());
        let last = members.last();
        if last.1 is Null {
            p
        } else {
            sorted_insert_member(p, (last.0, spec_norm_json(last.1)))
        }
    }
}

/// The canonical form of a JSON tree: object members without nulls, sorted
/// by key; strings trimmed with whitespace runs collapsed; numbers and the
/// rest untouched.
pub open spec fn spec_norm_json(m: JsonModel) -> JsonModel
    decreases m, 2int,
{
    match m {
        JsonModel::Null => m,
        JsonModel::Bool(_) => m,
        JsonModel::Num(_) => m,
        JsonModel::Str(s) => JsonModel::Str(spec_norm_string_value(s)),
        JsonModel::Arr(elems) => JsonModel::Arr(
            Seq::new(
                elems.len(),
                |i: int|
                    if 0 <= i < elems.len() {
                        spec_norm_json(elems[i])
                    } else {
                        JsonModel::Null
                    },
            ),
        ),
        JsonModel::Obj(members) => JsonModel::Obj(spec_norm_members(members)),
    }
}

proof fn lemma_sorted_insert_member_at(
    s: Seq<(Seq<char>, JsonModel)>,
    kv: (Seq<char>, JsonModel),
    j: int,
)
    requires
        0 <= j <= s.len(),
        forall|k: int| 0 <= k < j ==> !lex_lt(kv.0, (#[trigger] s[k]).0),
        j < s.len() ==> lex_lt(kv.0, s[j].0),
    ensures
        sorted_insert_member(s, kv) == s.insert(j, kv),
    decreases j,
{
    if j == 0 {
        if s.len() == 0 {
            assert(sorted_insert_member(s, kv) =~= s.insert(0, kv));
        } else {
            assert(seq![kv] + s =~= s.insert(0, kv));
        }
    } else {
        let d = s.drop_first();
        assert(forall|k: int| 0 <= k < d.len() ==> #[trigger] d[k] == s[k + 1]);
        lemma_sorted_insert_member_at(d, kv, j - 1);
        assert(seq![s[0]] + d.insert(j - 1, kv) =~= s.insert(j, kv));
    }
}

fn insert_member_sorted(r: &mut Vec<(String, Json)>, key: String, value: Json)
    ensures
        members_view(final (r)@) == sorted_insert_member(
            members_view(old(r)@),
            (key@, json_view(value)),
        ),
{
    let key_chars = chars_of(key.as_str());
    let mut j: usize = 0;
    loop
        invariant
            j <= r.len(),
            key_chars@ == key@,
            forall|k: int|
                0 <= k < j ==> !lex_lt(key@, (#[trigger] members_view(r@)[k]).0),
        ensures
            j <= r.len(),
            forall|k: int|
                0 <= k < j ==> !lex_lt(key@, (#[trigger] members_view(r@)[k]).0),
            j < r.len() ==> lex_lt(key@, members_view(r@)[j as int].0),
        decreases r.len() - j,
    {
        if j == r.len() {
            break ;
        }
        let entry = &r[j];
        let entry_chars = chars_of(entry.0.as_str());
        if chars_lex_lt(&key_chars, &entry_chars) {
            break ;
        }
        j = j + 1;
    }
    proof {
        lemma_sorted_insert_member_at(members_view(r@), (key@, json_view(value)), j as int);
    }
    let ghost before = r@;
    r.insert(j, (key, value));
    assert(members_view(r@) =~= members_view(before).insert(j as int, (key@, json_view(value))));
}

/// Normalizes a JSON tree.
pub fn normalize_json_value(j: &Json) -> (r: Json)
    ensures
        json_view(r) == spec_norm_json(json_view(*j)),
    decreases *j,
{
    match j {
        Json::Null => Json::Null,
        Json::Bool(b) => Json::Bool(*b),
        Json::Num(t) => Json::Num(t.clone()),
        Json::Str(s) => Json::Str(normalize_string_value(s.as_str())),
        Json::Arr(v) => {
            let ghost elems = jsons_view(v@);
            let mut out: Vec<Json> = Vec::new();
            let mut i: usize = 0;
            while i < v.len()
                invariant
                    *j == Json::Arr(*v),
                    i <= v@.len(),
                    elems == jsons_view(v@),
                    out@.len() == i,
                    forall|k: int|
                        0 <= k < i ==> json_view(#[trigger] out@[k]) == spec_norm_json(elems[k]),
                decreases v@.len() - i,
            {
                proof {
                    assert(decreases_to!(*j => j->Arr_0));
                    assert(j->Arr_0 == *v);
                    assert(decreases_to!(*v => v@[i as int]));
                }
                let n = normalize_json_value(&v[i]);
                out.push(n);
                i = i + 1;
            }
            let result = Json::Arr(out);
            assert(json_view(result) =~~= spec_norm_json(json_view(*j))) by {
                assert(jsons_view(out@) =~= spec_norm_json(json_view(*j))->Arr_0);
            }
            result
        },
        Json::Obj(v) => {
            let ghost members = members_view(v@);
            let mut out: Vec<(String, Json)> = Vec::new();
            let mut i: usize = 0;
            proof {
                assert(members_view(out@) =~= spec_norm_members(members.take(0)));
            }
            while i < v.len()
                invariant
                    *j == Json::Obj(*v),
                    i <= v@.len(),
                    members == members_view(v@),
                    members_view(out@) == spec_norm_members(members.take(i as int)),
                decreases v@.len() - i,
            {
                proof {
                    assert(members.take(i as int + 1).drop_last() =~= members.take(i as int));
                    assert(members.take(i as int + 1).last() == members[i as int]);
                }
                let entry = &v[i];
                match &entry.1 {
                    Json::Null => {},
                    _ => {
                        proof {
                            assert(decreases_to!(*j => j->Obj_0));
                            assert(j->Obj_0 == *v);
                            assert(decreases_to!(*v => v@[i as int]));
                            assert(decreases_to!(v@[i as int] => v@[i as int].1));
                        }
                        let n = normalize_json_value(&entry.1);
                        insert_member_sorted(&mut out, entry.0.clone(), n);
                    },
                }
                i = i + 1;
            }
            proof {
                assert(members.take(members.len() as int) =~= members);
            }
            let result = Json::Obj(out);
            assert(json_view(result) =~~= spec_norm_json(json_view(*j))) by {
                assert(members_view(out@) == spec_norm_members(members));
            }
            result
        },
    }
}

/// The canonical body text: an empty body stays empty, a body that parses as
/// JSON is normalized and re-serialized, anything else passes through.
pub open spec fn spec_canonical_body(body: Seq<char>) -> Seq<char> {
    if body.len() == 0 {
        Seq::empty()
    } else {
        match spec_parse_json(body) {
            Some(m) => json_text(spec_norm_json(m)),
            None => body,
        }
    }
}

/// Normalizes a request or response body.
pub fn normalize_body(body: &str) -> (r: String)
    ensures
        r@ == spec_canonical_body(body@),
{
    if body.is_empty() {
        let r = String::new();
        assert(r@ =~= spec_canonical_body(body@));
        return r;
    }
    match parse_json(body) {
        Some(j) => {
            let n = normalize_json_value(&j);
            to_json_string(&n)
        },
        None => String::from_str(body),
    }
}

/// Canonicalizes an inbound request: headers, body and path.
pub fn normalize_request(request: &HttpRequest) -> (r: HttpRequest)
    ensures
        r.method@ == request.method@,
        r.path@ == spec_normalize_path(request.path@),
        pairs_view(r.headers@) == spec_normalize_headers(pairs_view(request.headers@)),
        r.body@ == spec_canonical_body(request.body@),
{
    HttpRequest {
        method: request.method.clone(),
        path: normalize_path(request.path.as_str()),
        headers: normalize_header_list(&request.headers),
        body: normalize_body(request.body.as_str()),
    }
}

/// Canonicalizes an upstream response: headers and body; the status stays.
pub fn normalize_response(response: &HttpResponse) -> (r: HttpResponse)
    ensures
        r.status_code == response.status_code,
        pairs_view(r.headers@) == spec_normalize_headers(pairs_view(response.headers@)),
        r.body@ == spec_canonical_body(response.body@),
{
    HttpResponse {
        status_code: response.status_code,
        headers: normalize_header_list(&response.headers),
        body: normalize_body(response.body.as_str()),
    }
}

/// Header names whose values never belong in a stored or logged record.
pub open spec fn spec_sensitive_header(name: Seq<char>) -> bool {
    ||| name == "authorization"@
    ||| name == "cookie"@
    ||| name == "x-api-key"@
    ||| name == "x-auth-token"@
    ||| name == "x-access-token"@
    ||| name == "x-csrf-token"@
    ||| name == "x-session-id"@
    ||| name == "x-user-id"@
    ||| name == "x-request-id"@
    ||| name == "x-correlation-id"@
}

fn is_sensitive_header(name: &str) -> (r: bool)
    ensures
        r == spec_sensitive_header(name@),
{
    str_eq(name, "authorization") || str_eq(name, "cookie") || str_eq(name, "x-api-key") || str_eq(
        name,
        "x-auth-token",
    ) || str_eq(name, "x-access-token") || str_eq(name, "x-csrf-token") || str_eq(
        name,
        "x-session-id",
    ) || str_eq(name, "x-user-id") || str_eq(name, "x-request-id") || str_eq(
        name,
        "x-correlation-id",
    )
}

/// The header list without its sensitive entries.
pub open spec fn spec_strip_sensitive(hs: Seq<(Seq<char>, Seq<char>)>) -> Seq<
    (Seq<char>, Seq<char>),
>
    decreases hs.len(),
{
    if hs.len() == 0 {
        Seq::empty()
    } else {
        let p = spec_strip_sensitive(hs.drop_last());
        if spec_sensitive_header(hs.last().0) {
            p
        } else {
            p.push(hs.last())
        }
    }
}

/// Removes sensitive headers from a header list.
pub fn strip_sensitive_headers(headers: &mut Vec<(String, String)>)
    ensures
        pairs_view(final (headers)@) == spec_strip_sensitive(pairs_view(old(headers)@)),
{
    let ghost hv = pairs_view(headers@);
    let mut kept: Vec<(String, String)> = Vec::new();
    let mut i: usize = 0;
    proof {
        assert(pairs_view(kept@) =~= spec_strip_sensitive(hv.take(0)));
    }
    while i < headers.len()
        invariant
            i <= headers@.len(),
            hv == pairs_view(headers@),
            pairs_view(kept@) == spec_strip_sensitive(hv.take(i as int)),
        decreases headers@.len() - i,
    {
        proof {
            assert(hv.take(i as int + 1).drop_last() =~= hv.take(i as int));
            assert(hv.take(i as int + 1).last() == hv[i as int]);
        }
        let entry = &headers[i];
        if !is_sensitive_header(entry.0.as_str()) {
            kept.push((entry.0.clone(), entry.1.clone()));
            assert(pairs_view(kept@) =~= spec_strip_sensitive(hv.take(i as int + 1)));
        }
        i = i + 1;
    }
    proof {
        assert(hv.take(hv.len() as int) =~= hv);
    }
    *headers = kept;
}

/// Adds the cache-disclosure headers a served cache hit carries.
pub fn add_cache_headers(headers: &mut Vec<(String, String)>, ttl_seconds: u64)
    ensures
        pairs_view(final (headers)@) == spec_upsert(
            spec_upsert(
                spec_upsert(
                    pairs_view(old(headers)@),
                    "cache-control"@,
                    "public, max-age="@ + spec_u64_digits(ttl_seconds as int),
                ),
                "x-cache"@,
                "HIT"@,
            ),
            "x-cache-ttl"@,
            spec_u64_digits(ttl_seconds as int),
        ),
{
    let digits = u64_to_string(ttl_seconds);
    let mut cc = String::from_str("public, max-age=");
    cc.append(digits.as_str());
    upsert_header(headers, String::from_str("cache-control"), cc);
    upsert_header(headers, String::from_str("x-cache"), String::from_str("HIT"));
    upsert_header(headers, String::from_str("x-cache-ttl"), digits);
}

} // verus!
