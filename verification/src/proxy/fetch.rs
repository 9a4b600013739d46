//! The compute side of upstream forwarding: deciding which request headers
//! travel upstream and reading a header map out of a request document. The
//! outbound HTTP call itself is an external collaborator.

use vstd::prelude::*;
use vstd::string::StringExecFns;

use crate::cache::key::pairs_view;
use crate::cache::store::lemma_lookup_absent;
use crate::cache::store::lemma_lookup_at;
use crate::cache::store::spec_lookup;
use crate::json::Json;
use crate::json::JsonModel;
use crate::json::json_view;
use crate::json::members_view;
use crate::text::lower_of;
use crate::text::str_eq;
use crate::text::to_lowercase;

verus! {

/// Header names never forwarded upstream: proxy bookkeeping and hop-by-hop
/// headers.
pub open spec fn spec_hop_header(name: Seq<char>) -> bool {
    ||| name == "x-forwarded-for"@
    ||| name == "x-real-ip"@
    ||| name == "x-forwarded-proto"@
    ||| name == "x-forwarded-host"@
    ||| name == "x-forwarded-port"@
    ||| name == "x-upstream-url"@
    ||| name == "host"@
    ||| name == "connection"@
    ||| name == "upgrade"@
    ||| name == "proxy-connection"@
    ||| name == "proxy-authorization"@
}

fn is_hop_header(name: &str) -> (r: bool)
    ensures
        r == spec_hop_header(name@),
{
    str_eq(name, "x-forwarded-for") || str_eq(name, "x-real-ip") || str_eq(
        name,
        "x-forwarded-proto",
    ) || str_eq(name, "x-forwarded-host") || str_eq(name, "x-forwarded-port") || str_eq(
        name,
        "x-upstream-url",
    ) || str_eq(name, "host") || str_eq(name, "connection") || str_eq(name, "upgrade") || str_eq(
        name,
        "proxy-connection",
    ) || str_eq(name, "proxy-authorization")
}

/// The headers that may travel upstream: every entry whose lowercased name
/// is not a proxy or hop-by-hop header, kept as received.
pub open spec fn spec_filter_headers(hs: Seq<(Seq<char>, Seq<char>)>) -> Seq<
    (Seq<char>, Seq<char>),
>
    decreases hs.len(),
{
    if hs.len() == 0 {
        Seq::empty()
    } else {
        let p = spec_filter_headers(hs.drop_last());
        if spec_hop_header(lower_of(hs.last().0)) {
            p
        } else {
            p.push(hs.last())
        }
    }
}

/// Filters a request's headers down to those forwarded upstream.
pub fn filter_headers(headers: &Vec<(String, String)>) -> (r: Vec<(String, String)>)
    ensures
        pairs_view(r@) == spec_filter_headers(pairs_view(headers@)),
{
    let ghost hv = pairs_view(headers@);
    let mut kept: Vec<(String, String)> = Vec::new();
    let mut i: usize = 0;
    proof {
        assert(pairs_view(kept@) =~= spec_filter_headers(hv.take(0)));
    }
    while i < headers.len()
        invariant
            i <= headers@.len(),
            hv == pairs_view(headers@),
            pairs_view(kept@) == spec_filter_headers(hv.take(i as int)),
        decreases headers@.len() - i,
    {
        proof {
            assert(hv.take(i as int + 1).drop_last() =~= hv.take(i as int));
            assert(hv.take(i as int + 1).last() == hv[i as int]);
        }
        let entry = &headers[i];
        let low = to_lowercase(entry.0.as_str());
        if !is_hop_header(low.as_str()) {
            kept.push((entry.0.clone(), entry.1.clone()));
            assert(pairs_view(kept@) =~= spec_filter_headers(hv.take(i as int + 1)));
        }
        i = i + 1;
    }
    proof {
        assert(hv.take(hv.len() as int) =~= hv);
    }
    kept
}

/// The string-valued members of an object, in order.
pub open spec fn spec_string_members(ms: Seq<(Seq<char>, JsonModel)>) -> Seq<
    (Seq<char>, Seq<char>),
>
    decreases ms.len(),
{
    if ms.len() == 0 {
        Seq::empty()
    } else {
        let p = spec_string_members(ms.drop_last());
        match ms.last().1 {
            JsonModel::Str(s) => p.push((ms.last().0, s)),
            _ => p,
        }
    }
}

/// The header map a request document carries: the string-valued members of
/// its `headers` object, or nothing when there is none.
pub open spec fn spec_extract_headers(m: JsonModel) -> Seq<(Seq<char>, Seq<char>)> {
    match m {
        JsonModel::Obj(members) => match spec_lookup(members, "headers"@) {
            Some(h) => match h {
                JsonModel::Obj(hs) => spec_string_members(hs),
                _ => Seq::empty(),
            },
            _ => Seq::empty(),
        },
        _ => Seq::empty(),
    }
}

/// Reads the header map out of a request document.
pub fn extract_headers(request: &Json) -> (r: Vec<(String, String)>)
    ensures
        pairs_view(r@) == spec_extract_headers(json_view(*request)),
{
    let empty: Vec<(String, String)> = Vec::new();
    assert(pairs_view(empty@) =~= Seq::<(Seq<char>, Seq<char>)>::empty());
    match request {
        Json::Obj(members) => {
            let ghost mv = members_view(members@);
            match crate::cache::store::assoc_position(members, "headers") {
                None => {
                    proof {
                        lemma_lookup_absent(mv, "headers"@);
                    }
                    empty
                },
                Some(ix) => {
                    proof {
                        assert(mv[ix as int].0 == "headers"@);
                        lemma_lookup_at(mv, "headers"@, ix as int);
                    }
                    match &members[ix].1 {
                        Json::Obj(hs) => {
                            let ghost hv = members_view(hs@);
                            let mut out: Vec<(String, String)> = Vec::new();
                            let mut i: usize = 0;
                            proof {
                                assert(pairs_view(out@) =~= spec_string_members(hv.take(0)));
                            }
                            while i < hs.len()
                                invariant
                                    i <= hs@.len(),
                                    hv == members_view(hs@),
                                    pairs_view(out@) == spec_string_members(hv.take(i as int)),
                                decreases hs@.len() - i,
                            {
                                proof {
                                    assert(hv.take(i as int + 1).drop_last() =~= hv.take(i as int));
                                    assert(hv.take(i as int + 1).last() == hv[i as int]);
                                }
                                let entry = &hs[i];
                                match &entry.1 {
                                    Json::Str(s) => {
                                        out.push((entry.0.clone(), s.clone()));
                                        assert(pairs_view(out@) =~= spec_string_members(
                                            hv.take(i as int + 1),
                                        ));
                                    },
                                    _ => {},
                                }
                                i = i + 1;
                            }
                            proof {
                                assert(hv.take(hv.len() as int) =~= hv);
                            }
                            out
                        },
                        _ => empty,
                    }
                },
            }
        },
        _ => empty,
    }
}

} // verus!
