//! Plain request and response records: the data the cache core exchanges
//! with the network edges, and the text-level HTTP handling for the local
//! server entry point.

use vstd::prelude::*;
use vstd::string::StringExecFns;

use crate::MAX_TTL_SECONDS;
use crate::cache::key::pairs_view;
use crate::cache::store::assoc_position;
use crate::cache::store::lemma_lookup_absent;
use crate::cache::store::lemma_lookup_at;
use crate::cache::store::lemma_upsert_absent;
use crate::cache::store::lemma_upsert_at;
use crate::cache::store::spec_lookup;
use crate::cache::store::spec_upsert;
use crate::text::char_is_ws;
use crate::text::find_ws;
use crate::text::is_ws_char;
use crate::text::lemma_spec_find_ws;
use crate::text::spec_find_ws;
use crate::text::spec_u64_digits;
use crate::text::u64_to_string;
use crate::utils::errors::AppError;
use crate::utils::errors::http_error;
use crate::text::chars_of;
use crate::text::chars_start_with;
use crate::text::count_char;
use crate::text::find_char;
use crate::text::lemma_spec_find;
use crate::text::lower_of;
use crate::text::parse_u64_chars;
use crate::text::spec_count_char;
use crate::text::spec_find;
use crate::text::spec_parse_u64;
use crate::text::spec_starts_with;
use crate::text::spec_trim;
use crate::text::str_eq;
use crate::text::string_of;
use crate::text::subrange_chars;
use crate::text::to_lowercase;
use crate::text::trim_chars;

verus! {

/// An inbound request in normalized, plain form.
#[derive(Debug, Clone)]
pub struct HttpRequest {
    /// Request method, as received.
    pub method: String,
    /// Request path, possibly carrying a query string.
    pub path: String,
    /// Header list in received order; a later duplicate name wins on lookup.
    pub headers: Vec<(String, String)>,
    /// Raw request body.
    pub body: String,
}

/// An upstream (or cached) response in plain form.
#[derive(Debug, Clone)]
pub struct HttpResponse {
    /// HTTP status code.
    pub status_code: u16,
    /// Header list.
    pub headers: Vec<(String, String)>,
    /// Response body text.
    pub body: String,
}

/// View of a string list.
pub open spec fn strs_view(v: Seq<String>) -> Seq<Seq<char>> {
    Seq::new(v.len(), |i: int| v[i]@)
}

/// First `--port` flag that still has an argument after it.
pub open spec fn spec_port_flag_index(args: Seq<Seq<char>>) -> Option<int>
    decreases args.len(),
{
    if args.len() == 0 {
        None
    } else if args[0] == "--port"@ && args.len() >= 2 {
        Some(0int)
    } else {
        match spec_port_flag_index(args.drop_first()) {
            Some(i) => Some(i + 1),
            None => None,
        }
    }
}

/// What `parse_port` yields: the value after the first usable `--port` flag,
/// when it parses as a `u16`.
pub open spec fn spec_parse_port(args: Seq<Seq<char>>) -> Option<u16> {
    match spec_port_flag_index(args) {
        None => None,
        Some(i) => match spec_parse_u64(args[i + 1]) {
            Some(v) => if v <= u16::MAX {
                Some(v as u16)
            } else {
                None
            },
            None => None,
        },
    }
}

/// Reads the `--port` argument from a command line.
pub fn parse_port(args: &Vec<String>) -> (r: Option<u16>)
    ensures
        r == spec_parse_port(strs_view(args@)),
{
    let ghost av = strs_view(args@);
    let mut i: usize = 0;
    assert(av.skip(0) =~= av);
    while i < args.len()
        invariant
            i <= args.len(),
            av == strs_view(args@),
            spec_port_flag_index(av) == match spec_port_flag_index(av.skip(i as int)) {
                Some(k) => Some(k + i),
                None => None::<int>,
            },
        decreases args.len() - i,
    {
        proof {
            assert(av.skip(i as int)[0] == av[i as int]);
            if i + 1 < args.len() {
                assert(av.skip(i as int)[1] == av[i as int + 1]);
            }
        }
        let arg = &args[i];
        if str_eq(arg.as_str(), "--port") && i + 1 < args.len() {
            let digits = chars_of(args[i + 1].as_str());
            return match parse_u64_chars(&digits) {
                Some(v) => if v <= 65535 {
                    Some(v as u16)
                } else {
                    None
                },
                None => None,
            };
        }
        assert(av.skip(i as int).drop_first() =~= av.skip(i as int + 1));
        i = i + 1;
    }
    None
}

/// How many seconds one TTL unit letter stands for, and the digits before
/// it: `d`ays, `h`ours, `m`inutes, `s`econds; no letter means seconds.
pub open spec fn spec_ttl_split(t: Seq<char>) -> (Seq<char>, u64) {
    if t.len() > 0 && (t.last() == 'd' || t.last() == 'D') {
        (t.drop_last(), 86400u64)
    } else if t.len() > 0 && (t.last() == 'h' || t.last() == 'H') {
        (t.drop_last(), 3600u64)
    } else if t.len() > 0 && (t.last() == 'm' || t.last() == 'M') {
        (t.drop_last(), 60u64)
    } else if t.len() > 0 && (t.last() == 's' || t.last() == 'S') {
        (t.drop_last(), 1u64)
    } else {
        (t, 1u64)
    }
}

/// The TTL grammar: optional whitespace around `<non-negative integer><unit>`
/// with unit in `s`, `m`, `h`, `d` (case-insensitive, seconds when omitted);
/// the value must lie between one second and one year.
pub open spec fn spec_parse_ttl(s: Seq<char>) -> Result<u64, Seq<char>> {
    if s.len() == 0 {
        Err("TTL cannot be empty"@)
    } else {
        let t = spec_trim(s);
        let num = spec_ttl_split(t).0;
        let mult = spec_ttl_split(t).1;
        match spec_parse_u64(num) {
            None => Err("Invalid TTL number: "@ + num),
            Some(n) => {
                let secs = (n as int) * (mult as int);
                if secs < 1 {
                    Err("TTL must be at least 1 second"@)
                } else if secs > MAX_TTL_SECONDS {
                    Err("TTL cannot exceed 1 year"@)
                } else {
                    Ok(secs as u64)
                }
            },
        }
    }
}

/// Parses a human-readable TTL such as `30m`, `7d` or `45` into seconds.
pub fn parse_ttl_string(ttl_str: &str) -> (r: Result<u64, String>)
    ensures
        match spec_parse_ttl(ttl_str@) {
            Ok(v) => r matches Ok(x) && x == v,
            Err(m) => r matches Err(e) && e@ == m,
        },
{
    if ttl_str.is_empty() {
        return Err(String::from_str("TTL cannot be empty"));
    }
    let v = chars_of(ttl_str);
    let mut num = trim_chars(&v);
    let ghost t = spec_trim(ttl_str@);
    let mut mult: u64 = 1;
    if num.len() > 0 {
        let last = num[num.len() - 1];
        if last == 'd' || last == 'D' {
            mult = 86400;
            let _ = num.pop();
        } else if last == 'h' || last == 'H' {
            mult = 3600;
            let _ = num.pop();
        } else if last == 'm' || last == 'M' {
            mult = 60;
            let _ = num.pop();
        } else if last == 's' || last == 'S' {
            mult = 1;
            let _ = num.pop();
        }
    }
    assert(num@ =~= spec_ttl_split(t).0);
    assert(mult == spec_ttl_split(t).1);
    match parse_u64_chars(&num) {
        None => {
            let mut m = String::from_str("Invalid TTL number: ");
            let ns = string_of(&num);
            m.append(ns.as_str());
            Err(m)
        },
        Some(n) => {
            if n > MAX_TTL_SECONDS / mult {
                proof {
                    assert((n as int) * (mult as int) > MAX_TTL_SECONDS) by (nonlinear_arith)
                        requires
                            n > MAX_TTL_SECONDS / mult,
                            1 <= mult,
                            MAX_TTL_SECONDS == 31536000u64,
                    ;
                }
                return Err(String::from_str("TTL cannot exceed 1 year"));
            }
            proof {
                assert((n as int) * (mult as int) <= MAX_TTL_SECONDS) by (nonlinear_arith)
                    requires
                        n <= MAX_TTL_SECONDS / mult,
                        1 <= mult,
                        MAX_TTL_SECONDS == 31536000u64,
                ;
            }
            let secs = n * mult;
            if secs < 1 {
                Err(String::from_str("TTL must be at least 1 second"))
            } else {
                Ok(secs)
            }
        },
    }
}

/// Is this query parameter a `ttl` setting? `None` when it is not; otherwise
/// the parsed override, or `Some(None)` when its value is malformed.
pub open spec fn spec_param_ttl(param: Seq<char>) -> Option<Option<u64>> {
    match spec_find(param, '=') {
        None => None,
        Some(j) => if param.take(j) == "ttl"@ {
            Some(
                match spec_parse_ttl(param.skip(j + 1)) {
                    Ok(v) => Some(v),
                    Err(_) => None,
                },
            )
        } else {
            None
        },
    }
}

/// The TTL override carried by a query string: the first `ttl` parameter
/// decides, and a malformed value yields no override.
pub open spec fn spec_ttl_in_query(q: Seq<char>) -> Option<u64>
    decreases q.len(),
{
    match spec_find(q, '&') {
        Some(i) => if 0 <= i < q.len() {
            match spec_param_ttl(q.take(i)) {
                Some(res) => res,
                None => spec_ttl_in_query(q.skip(i + 1)),
            }
        } else {
            None
        },
        None => match spec_param_ttl(q) {
            Some(res) => res,
            None => None,
        },
    }
}

/// The TTL override in a request path's query string, if any.
pub open spec fn spec_extract_ttl(path: Seq<char>) -> Option<u64> {
    match spec_find(path, '?') {
        Some(i) => if 0 <= i < path.len() {
            spec_ttl_in_query(path.skip(i + 1))
        } else {
            None
        },
        None => None,
    }
}

fn check_ttl_param(param: &Vec<char>) -> (r: Option<Option<u64>>)
    ensures
        r == spec_param_ttl(param@),
{
    match find_char(param, '=') {
        None => None,
        Some(j) => {
            proof {
                lemma_spec_find(param@, '=');
            }
            let plen = param.len();
            assert(j < plen);
            let key = subrange_chars(param, 0, j);
            let ttl_lit = chars_of("ttl");
            if crate::text::chars_eq(&key, &ttl_lit) {
                let value = subrange_chars(param, j + 1, plen);
                let vs = string_of(&value);
                match parse_ttl_string(vs.as_str()) {
                    Ok(x) => Some(Some(x)),
                    Err(_) => Some(None),
                }
            } else {
                None
            }
        },
    }
}

/// Reads a `ttl` query parameter from a request path.
pub fn extract_ttl_from_path(path: &str) -> (r: Option<u64>)
    ensures
        r == spec_extract_ttl(path@),
{
    let v = chars_of(path);
    match find_char(&v, '?') {
        None => None,
        Some(qpos) => {
            proof {
                lemma_spec_find(v@, '?');
            }
            let vlen = v.len();
            assert(qpos < vlen);
            let mut rest = subrange_chars(&v, qpos + 1, vlen);
            loop
                invariant
                    spec_extract_ttl(path@) == spec_ttl_in_query(rest@),
                decreases rest@.len(),
            {
                match find_char(&rest, '&') {
                    Some(i) => {
                        proof {
                            lemma_spec_find(rest@, '&');
                        }
                        let rlen = rest.len();
                        assert(i < rlen);
                        let param = subrange_chars(&rest, 0, i);
                        match check_ttl_param(&param) {
                            Some(res) => {
                                return res;
                            },
                            None => {},
                        }
                        rest = subrange_chars(&rest, i + 1, rlen);
                    },
                    None => {
                        return match check_ttl_param(&rest) {
                            Some(res) => res,
                            None => None,
                        };
                    },
                }
            }
        },
    }
}

/// The tenant subdomain in a `host` header: the first label of a host with
/// at least three labels; none for `localhost`.
pub open spec fn spec_extract_subdomain(hs: Seq<(Seq<char>, Seq<char>)>) -> Option<Seq<char>> {
    match spec_lookup(hs, "host"@) {
        None => None,
        Some(h) => if spec_starts_with(h, "localhost"@) {
            None
        } else if spec_count_char(h, '.') >= 2 {
            match spec_find(h, '.') {
                Some(i) => Some(lower_of(h.take(i))),
                None => None,
            }
        } else {
            None
        },
    }
}

/// Reads the tenant subdomain out of a request's `host` header.
pub fn extract_subdomain(headers: &Vec<(String, String)>) -> (r: Option<String>)
    ensures
        match spec_extract_subdomain(pairs_view(headers@)) {
            Some(s) => r matches Some(x) && x@ == s,
            None => r is None,
        },
{
    let ghost hv = pairs_view(headers@);
    match assoc_position(headers, "host") {
        None => {
            proof {
                lemma_lookup_absent(hv, "host"@);
            }
            None
        },
        Some(i) => {
            proof {
                assert(hv[i as int].0 == "host"@);
                lemma_lookup_at(hv, "host"@, i as int);
            }
            let host = &headers[i].1;
            let hchars = chars_of(host.as_str());
            let localhost = chars_of("localhost");
            if chars_start_with(&hchars, &localhost) {
                return None;
            }
            let dots = count_char(&hchars, '.');
            if dots >= 2 {
                match find_char(&hchars, '.') {
                    Some(d) => {
                        proof {
                            lemma_spec_find(hchars@, '.');
                        }
                        let label = subrange_chars(&hchars, 0, d);
                        let ls = string_of(&label);
                        Some(to_lowercase(ls.as_str()))
                    },
                    None => None,
                }
            } else {
                None
            }
        },
    }
}

/// A line with one trailing carriage return removed, as `str::lines` does.
pub open spec fn spec_strip_cr(l: Seq<char>) -> Seq<char> {
    if l.len() > 0 && l.last() == '\r' {
        l.drop_last()
    } else {
        l
    }
}

/// What `str::lines` yields: segments between newlines, each without a
/// trailing carriage return, and no empty segment after a final newline.
pub open spec fn spec_lines(s: Seq<char>) -> Seq<Seq<char>>
    decreases s.len(),
{
    if s.len() == 0 {
        Seq::empty()
    } else {
        match spec_find(s, '\n') {
            Some(i) => if 0 <= i < s.len() {
                seq![spec_strip_cr(s.take(i))] + spec_lines(s.skip(i + 1))
            } else {
                seq![spec_strip_cr(s)]
            },
            None => seq![spec_strip_cr(s)],
        }
    }
}

fn strip_cr(line: &mut Vec<char>)
    ensures
        final (line)@ == spec_strip_cr(old(line)@),
{
    if line.len() > 0 && line[line.len() - 1] == '\r' {
        let _ = line.pop();
    }
}

/// Splits text into lines as `str::lines` does.
fn lines_of(s: &str) -> (r: Vec<String>)
    ensures
        strs_view(r@) == spec_lines(s@),
{
    let v = chars_of(s);
    let mut lines: Vec<String> = Vec::new();
    let mut rest = v;
    proof {
        assert(strs_view(lines@) + spec_lines(rest@) =~= spec_lines(s@));
    }
    loop
        invariant
            spec_lines(s@) == strs_view(lines@) + spec_lines(rest@),
        ensures
            spec_lines(s@) == strs_view(lines@),
        decreases rest@.len(),
    {
        if rest.len() == 0 {
            assert(strs_view(lines@) + spec_lines(rest@) =~= strs_view(lines@));
            break ;
        }
        let ghost pre = lines@;
        let ghost rest0 = rest@;
        match find_char(&rest, '\n') {
            Some(i) => {
                proof {
                    lemma_spec_find(rest@, '\n');
                }
                let rlen = rest.len();
                assert(i < rlen);
                let mut line = subrange_chars(&rest, 0, i);
                strip_cr(&mut line);
                lines.push(string_of(&line));
                rest = subrange_chars(&rest, i + 1, rlen);
                proof {
                    assert(strs_view(lines@) =~= strs_view(pre).push(spec_strip_cr(rest0.take(i as int))));
                    assert(strs_view(pre) + spec_lines(rest0) =~= strs_view(lines@) + spec_lines(
                        rest@,
                    ));
                }
            },
            None => {
                let mut line = rest;
                strip_cr(&mut line);
                lines.push(string_of(&line));
                rest = Vec::new();
                proof {
                    assert(spec_lines(rest0) =~= seq![spec_strip_cr(rest0)]);
                    assert(strs_view(pre) + spec_lines(rest0) =~= strs_view(lines@) + spec_lines(
                        rest@,
                    ));
                }
            },
        }
    }
    lines
}

/// Whitespace-separated tokens, as `str::split_whitespace` yields them.
pub open spec fn spec_split_ws(s: Seq<char>) -> Seq<Seq<char>>
    decreases s.len(),
{
    if s.len() == 0 {
        Seq::empty()
    } else if is_ws_char(s[0]) {
        spec_split_ws(s.drop_first())
    } else {
        match spec_find_ws(s) {
            None => seq![s],
            Some(i) => if 1 <= i < s.len() {
                seq![s.take(i)] + spec_split_ws(s.skip(i))
            } else {
                seq![s]
            },
        }
    }
}

/// Splits a character vector into whitespace-separated tokens.
fn split_ws(v: &Vec<char>) -> (r: Vec<String>)
    ensures
        strs_view(r@) == spec_split_ws(v@),
{
    let mut parts: Vec<String> = Vec::new();
    let mut rest = subrange_chars(v, 0, v.len());
    proof {
        assert(rest@ =~= v@);
        assert(strs_view(parts@) + spec_split_ws(rest@) =~= spec_split_ws(v@));
    }
    loop
        invariant
            spec_split_ws(v@) == strs_view(parts@) + spec_split_ws(rest@),
        ensures
            spec_split_ws(v@) == strs_view(parts@),
        decreases rest@.len(),
    {
        if rest.len() == 0 {
            assert(strs_view(parts@) + spec_split_ws(rest@) =~= strs_view(parts@));
            break ;
        }
        let ghost pre = parts@;
        let ghost rest0 = rest@;
        if char_is_ws(rest[0]) {
            let rlen = rest.len();
            rest = subrange_chars(&rest, 1, rlen);
            assert(rest@ =~= rest0.drop_first());
        } else {
            match find_ws(&rest) {
                None => {
                    parts.push(string_of(&rest));
                    rest = Vec::new();
                    proof {
                        assert(spec_split_ws(rest0) =~= seq![rest0]);
                        assert(strs_view(pre) + spec_split_ws(rest0) =~= strs_view(parts@)
                            + spec_split_ws(rest@));
                    }
                },
                Some(i) => {
                    proof {
                        lemma_spec_find_ws(rest@);
                    }
                    let rlen = rest.len();
                    assert(1 <= i < rlen);
                    let token = subrange_chars(&rest, 0, i);
                    parts.push(string_of(&token));
                    rest = subrange_chars(&rest, i, rlen);
                    proof {
                        assert(strs_view(parts@) =~= strs_view(pre).push(rest0.take(i as int)));
                        assert(strs_view(pre) + spec_split_ws(rest0) =~= strs_view(parts@)
                            + spec_split_ws(rest@));
                    }
                },
            }
        }
    }
    parts
}

/// The header a request line carries, when it holds a colon: the trimmed
/// name before the first colon and the trimmed value after it.
pub open spec fn spec_header_of_line(line: Seq<char>) -> Option<(Seq<char>, Seq<char>)> {
    match spec_find(line, ':') {
        None => None,
        Some(j) => if 0 <= j < line.len() {
            Some((spec_trim(line.take(j)), spec_trim(line.skip(j + 1))))
        } else {
            None
        },
    }
}

/// The headers of the lines before `end`, the request line excluded, a later
/// duplicate name replacing an earlier one.
pub open spec fn spec_collect_headers(lines: Seq<Seq<char>>, end: int) -> Seq<
    (Seq<char>, Seq<char>),
>
    decreases end,
{
    if end <= 1 {
        Seq::empty()
    } else {
        let p = spec_collect_headers(lines, end - 1);
        match spec_header_of_line(lines[end - 1]) {
            Some(kv) => spec_upsert(p, kv.0, kv.1),
            None => p,
        }
    }
}

/// Index of the first empty line, if any.
pub open spec fn spec_first_empty(lines: Seq<Seq<char>>) -> Option<int>
    decreases lines.len(),
{
    if lines.len() == 0 {
        None
    } else if lines[0].len() == 0 {
        Some(0int)
    } else {
        match spec_first_empty(lines.drop_first()) {
            Some(i) => Some(i + 1),
            None => None,
        }
    }
}

/// Lines joined with a newline between them.
pub open spec fn spec_join_nl(ls: Seq<Seq<char>>) -> Seq<char>
    decreases ls.len(),
{
    if ls.len() == 0 {
        Seq::empty()
    } else if ls.len() == 1 {
        ls[0]
    } else {
        spec_join_nl(ls.drop_last()) + "\n"@ + ls.last()
    }
}

/// Where a parsed request's body starts: after the first empty line, or at
/// the very first line when no empty line separates the headers.
pub open spec fn spec_body_start(lines: Seq<Seq<char>>) -> int {
    match spec_first_empty(lines) {
        Some(i) => i + 1,
        None => 0,
    }
}

/// The body a parsed request carries.
pub open spec fn spec_request_body(lines: Seq<Seq<char>>) -> Seq<char> {
    if spec_body_start(lines) < lines.len() {
        spec_join_nl(lines.skip(spec_body_start(lines)))
    } else {
        Seq::empty()
    }
}

pub(crate) fn upsert_header(v: &mut Vec<(String, String)>, key: String, value: String)
    ensures
        pairs_view(final (v)@) == spec_upsert(pairs_view(old(v)@), key@, value@),
{
    let ghost s = pairs_view(v@);
    match assoc_position(v, key.as_str()) {
        Some(i) => {
            proof {
                assert(s[i as int].0 == key@);
                lemma_upsert_at(s, key@, value@, i as int);
            }
            let _old = v.remove(i);
            v.insert(i, (key, value));
            assert(pairs_view(v@) =~= s.update(i as int, (key@, value@)));
        },
        None => {
            proof {
                lemma_upsert_absent(s, key@, value@);
            }
            v.push((key, value));
            assert(pairs_view(v@) =~= s.push((key@, value@)));
        },
    }
}

/// Parses a raw HTTP request text into its method, path, headers and body.
/// An empty text and a request line of fewer than three tokens are rejected.
pub fn parse_http_request(request_str: &str) -> (r: Result<HttpRequest, AppError>)
    ensures
        ({
            let lines = spec_lines(request_str@);
            if lines.len() == 0 {
                r matches Err(AppError::Http(m)) && m@ == "Empty request"@
            } else if spec_split_ws(lines[0]).len() < 3 {
                r matches Err(AppError::Http(m)) && m@ == "Invalid request line"@
            } else {
                let parts = spec_split_ws(lines[0]);
                let hend = match spec_first_empty(lines) {
                    Some(i) => i,
                    None => lines.len() as int,
                };
                r matches Ok(req) && req.method@ == parts[0] && req.path@ == parts[1]
                    && pairs_view(req.headers@) == spec_collect_headers(lines, hend) && req.body@
                    == spec_request_body(lines)
            }
        }),
{
    let lines = lines_of(request_str);
    let ghost lv = spec_lines(request_str@);
    if lines.len() == 0 {
        return Err(http_error("Empty request"));
    }
    let first = chars_of(lines[0].as_str());
    assert(first@ == lv[0]);
    let parts = split_ws(&first);
    if parts.len() < 3 {
        return Err(http_error("Invalid request line"));
    }
    let method = parts[0].clone();
    let path = parts[1].clone();
    assert(method@ == spec_split_ws(lv[0])[0]);
    assert(path@ == spec_split_ws(lv[0])[1]);
    let mut found_empty = false;
    let mut hend: usize = lines.len();
    let mut e: usize = 0;
    assert(strs_view(lines@).skip(0) =~= strs_view(lines@));
    loop
        invariant_except_break
            !found_empty,
            hend == lines@.len(),
        invariant
            e <= lines@.len(),
            lv == strs_view(lines@),
            spec_first_empty(lv) == match spec_first_empty(lv.skip(e as int)) {
                Some(k) => Some(k + e),
                None => None::<int>,
            },
        ensures
            lv == strs_view(lines@),
            found_empty ==> spec_first_empty(lv) == Some(hend as int) && hend < lines@.len(),
            !found_empty ==> spec_first_empty(lv) is None && hend == lines@.len(),
        decreases lines@.len() - e,
    {
        if e >= lines.len() {
            assert(lv.skip(e as int).len() == 0);
            break ;
        }
        assert(lv.skip(e as int)[0] == lv[e as int]);
        if lines[e].as_str().is_empty() {
            found_empty = true;
            hend = e;
            break ;
        }
        assert(lv.skip(e as int).drop_first() =~= lv.skip(e as int + 1));
        e = e + 1;
    }
    let mut headers: Vec<(String, String)> = Vec::new();
    let mut i: usize = 1;
    proof {
        assert(pairs_view(headers@) =~= spec_collect_headers(lv, 1));
    }
    while i < hend
        invariant
            1 <= i,
            i <= hend || i == 1,
            hend <= lines@.len(),
            lv == strs_view(lines@),
            pairs_view(headers@) == spec_collect_headers(lv, i as int),
        decreases hend - i,
    {
        let line = chars_of(lines[i].as_str());
        assert(line@ == lv[i as int]);
        match find_char(&line, ':') {
            Some(j) => {
                proof {
                    lemma_spec_find(line@, ':');
                }
                let llen = line.len();
                assert(j < llen);
                let key_part = subrange_chars(&line, 0, j);
                let value_part = subrange_chars(&line, j + 1, llen);
                let key_t = trim_chars(&key_part);
                let value_t = trim_chars(&value_part);
                upsert_header(&mut headers, string_of(&key_t), string_of(&value_t));
            },
            None => {},
        }
        i = i + 1;
    }
    proof {
        if hend == 1 {
            assert(spec_collect_headers(lv, 1) =~= spec_collect_headers(lv, hend as int));
        }
    }
    let bstart: usize = if found_empty {
        hend + 1
    } else {
        0
    };
    assert(bstart == spec_body_start(lv));
    let mut body = String::new();
    if bstart < lines.len() {
        body.append(lines[bstart].as_str());
        assert(body@ =~= spec_join_nl(lv.subrange(bstart as int, bstart as int + 1)));
        let mut j: usize = bstart + 1;
        while j < lines.len()
            invariant
                bstart < j,
                j <= lines@.len(),
                lv == strs_view(lines@),
                body@ == spec_join_nl(lv.subrange(bstart as int, j as int)),
            decreases lines@.len() - j,
        {
            body.append("\n");
            body.append(lines[j].as_str());
            proof {
                assert(lv.subrange(bstart as int, j as int + 1).drop_last() =~= lv.subrange(
                    bstart as int,
                    j as int,
                ));
                assert(lv.subrange(bstart as int, j as int + 1).last() == lv[j as int]);
                assert(lv.subrange(bstart as int, j as int + 1).len() >= 2);
            }
            j = j + 1;
        }
        assert(lv.subrange(bstart as int, lv.len() as int) =~= lv.skip(bstart as int));
    }
    Ok(HttpRequest { method, path, headers, body })
}

/// The stored JSON form of a response record: its status code as a number,
/// its headers as an object of strings, its body as a string.
pub open spec fn spec_response_json(r: HttpResponse) -> crate::json::JsonModel {
    crate::json::JsonModel::Obj(
        seq![
            ("statusCode"@, crate::json::JsonModel::Num(spec_u64_digits(r.status_code as int))),
            ("headers"@, crate::json::JsonModel::Obj(header_members(pairs_view(r.headers@)))),
            ("body"@, crate::json::JsonModel::Str(r.body@)),
        ],
    )
}

/// Headers as JSON object members.
pub open spec fn header_members(hs: Seq<(Seq<char>, Seq<char>)>) -> Seq<
    (Seq<char>, crate::json::JsonModel),
> {
    Seq::new(
        hs.len(),
        |i: int|
            if 0 <= i < hs.len() {
                (hs[i].0, crate::json::JsonModel::Str(hs[i].1))
            } else {
                (Seq::empty(), crate::json::JsonModel::Null)
            },
    )
}

/// Serializes a response record for storage.
pub fn response_to_json_text(r: &HttpResponse) -> (out: String)
    ensures
        out@ == crate::json::json_text(spec_response_json(*r)),
{
    let mut header_items: Vec<(String, crate::json::Json)> = Vec::new();
    let mut i: usize = 0;
    proof {
        assert(crate::json::members_view(header_items@) =~= header_members(
            pairs_view(r.headers@),
        ).take(0));
    }
    while i < r.headers.len()
        invariant
            i <= r.headers@.len(),
            crate::json::members_view(header_items@) == header_members(
                pairs_view(r.headers@),
            ).take(i as int),
        decreases r.headers@.len() - i,
    {
        let ghost pre = header_items@;
        let entry = &r.headers[i];
        header_items.push((entry.0.clone(), crate::json::Json::Str(entry.1.clone())));
        proof {
            assert(crate::json::members_view(pre).len() == pre.len());
            assert(pre.len() == i);
            assert(header_items@.len() == i + 1);
            assert forall|k: int| 0 <= k < i + 1 implies #[trigger] crate::json::members_view(
                header_items@,
            )[k] == header_members(pairs_view(r.headers@))[k] by {
                if k < i {
                    assert(header_items@[k] == pre[k]);
                    assert(crate::json::members_view(header_items@)[k]
                        == crate::json::members_view(pre)[k]);
                    assert(crate::json::members_view(pre)[k] == header_members(
                        pairs_view(r.headers@),
                    ).take(i as int)[k]);
                } else {
                    assert(header_items@[k] == (r.headers@[i as int].0, crate::json::Json::Str(
                        r.headers@[i as int].1,
                    )));
                }
            }
            assert(crate::json::members_view(header_items@) =~= header_members(
                pairs_view(r.headers@),
            ).take(i as int + 1));
        }
        i = i + 1;
    }
    proof {
        assert(header_members(pairs_view(r.headers@)).take(r.headers@.len() as int)
            =~= header_members(pairs_view(r.headers@)));
    }
    let mut items: Vec<(String, crate::json::Json)> = Vec::new();
    items.push(
        (
            String::from_str("statusCode"),
            crate::json::Json::Num(u64_to_string(r.status_code as u64)),
        ),
    );
    items.push((String::from_str("headers"), crate::json::Json::Obj(header_items)));
    items.push((String::from_str("body"), crate::json::Json::Str(r.body.clone())));
    let doc = crate::json::Json::Obj(items);
    proof {
        let iv = crate::json::members_view(doc->Obj_0@);
        assert(iv.len() == 3);
        assert(iv[0] == (
            "statusCode"@,
            crate::json::JsonModel::Num(spec_u64_digits(r.status_code as int)),
        ));
        assert(iv[1] == (
            "headers"@,
            crate::json::JsonModel::Obj(header_members(pairs_view(r.headers@))),
        ));
        assert(iv[2] == ("body"@, crate::json::JsonModel::Str(r.body@)));
        assert(iv =~= spec_response_json(*r)->Obj_0);
        assert(crate::json::json_view(doc) == crate::json::JsonModel::Obj(iv));
    }
    assert(crate::json::json_view(doc) == spec_response_json(*r));
    crate::json::to_json_string(&doc)
}

/// The body a cache hit serves: the stored record's `body` member,
/// re-serialized; `{}` when the record is not an object or has none.
pub open spec fn spec_cache_hit_body(payload: Seq<char>) -> Seq<char> {
    match crate::json::spec_parse_json(payload) {
        Some(m) => match m {
            crate::json::JsonModel::Obj(members) => match spec_lookup(members, "body"@) {
                Some(b) => crate::json::json_text(b),
                None => "{}"@,
            },
            _ => "{}"@,
        },
        None => "{}"@,
    }
}

/// Builds the response served for a cache hit: status 200 and the stored
/// record's body.
pub fn cache_hit_response(payload: &str) -> (r: HttpResponse)
    ensures
        r.status_code == 200,
        r.headers@.len() == 0,
        r.body@ == spec_cache_hit_body(payload@),
{
    let body: String = match crate::json::parse_json(payload) {
        Some(doc) => match &doc {
            crate::json::Json::Obj(members) => {
                let ghost mv = crate::json::members_view(members@);
                match assoc_position(members, "body") {
                    Some(ix) => {
                        proof {
                            assert(mv[ix as int].0 == "body"@);
                            lemma_lookup_at(mv, "body"@, ix as int);
                        }
                        crate::json::to_json_string(&members[ix].1)
                    },
                    None => {
                        proof {
                            lemma_lookup_absent(mv, "body"@);
                        }
                        String::from_str("{}")
                    },
                }
            },
            _ => String::from_str("{}"),
        },
        None => String::from_str("{}"),
    };
    HttpResponse { status_code: 200, headers: Vec::new(), body }
}

/// The reason text the local server sends with a status code.
pub open spec fn spec_status_text(code: u16) -> Seq<char> {
    if code == 200 {
        "OK"@
    } else if code == 201 {
        "Created"@
    } else if code == 400 {
        "Bad Request"@
    } else if code == 401 {
        "Unauthorized"@
    } else if code == 403 {
        "Forbidden"@
    } else if code == 404 {
        "Not Found"@
    } else if code == 500 {
        "Internal Server Error"@
    } else {
        "OK"@
    }
}

/// The response headers as wire text, one `name: value` line each.
pub open spec fn spec_headers_block(hs: Seq<(Seq<char>, Seq<char>)>) -> Seq<char>
    decreases hs.len(),
{
    if hs.len() == 0 {
        Seq::empty()
    } else {
        spec_headers_block(hs.drop_last()) + hs.last().0 + ": "@ + hs.last().1 + "\r\n"@
    }
}

/// The whole HTTP/1.1 response text: status line, headers, a computed
/// `Content-Length` over the body's bytes, `Connection: close`, and the body.
pub open spec fn spec_format_response(resp: HttpResponse) -> Seq<char> {
    "HTTP/1.1 "@ + spec_u64_digits(resp.status_code as int) + " "@ + spec_status_text(
        resp.status_code,
    ) + "\r\n"@ + spec_headers_block(pairs_view(resp.headers@)) + "Content-Length: "@
        + spec_u64_digits(vstd::utf8::encode_utf8(resp.body@).len() as usize as int) + "\r\n"@
        + "Connection: close\r\n"@ + "\r\n"@ + resp.body@
}

/// Renders a response as HTTP/1.1 wire text.
pub fn format_response(response: &HttpResponse) -> (r: String)
    ensures
        r@ == spec_format_response(*response),
{
    let mut out = String::from_str("HTTP/1.1 ");
    let code_digits = u64_to_string(response.status_code as u64);
    out.append(code_digits.as_str());
    out.append(" ");
    let code = response.status_code;
    if code == 200 {
        out.append("OK");
    } else if code == 201 {
        out.append("Created");
    } else if code == 400 {
        out.append("Bad Request");
    } else if code == 401 {
        out.append("Unauthorized");
    } else if code == 403 {
        out.append("Forbidden");
    } else if code == 404 {
        out.append("Not Found");
    } else if code == 500 {
        out.append("Internal Server Error");
    } else {
        out.append("OK");
    }
    out.append("\r\n");
    let ghost hv = pairs_view(response.headers@);
    let ghost head0 = out@;
    let mut i: usize = 0;
    proof {
        assert(out@ =~= head0 + spec_headers_block(hv.take(0)));
    }
    while i < response.headers.len()
        invariant
            i <= response.headers@.len(),
            hv == pairs_view(response.headers@),
            out@ == head0 + spec_headers_block(hv.take(i as int)),
        decreases response.headers@.len() - i,
    {
        let entry = &response.headers[i];
        out.append(entry.0.as_str());
        out.append(": ");
        out.append(entry.1.as_str());
        out.append("\r\n");
        proof {
            assert(hv.take(i as int + 1).drop_last() =~= hv.take(i as int));
            assert(hv.take(i as int + 1).last() == hv[i as int]);
            assert(out@ =~= head0 + spec_headers_block(hv.take(i as int + 1)));
        }
        i = i + 1;
    }
    proof {
        assert(hv.take(hv.len() as int) =~= hv);
    }
    out.append("Content-Length: ");
    let blen = response.body.as_str().len();
    let len_digits = u64_to_string(blen as u64);
    out.append(len_digits.as_str());
    out.append("\r\n");
    out.append("Connection: close\r\n");
    out.append("\r\n");
    out.append(response.body.as_str());
    assert(out@ =~= spec_format_response(*response));
    out
}

} // verus!
