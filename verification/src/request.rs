//! The normalized request record and the rewrite algebra: how a matched
//! rule turns an inbound request into the upstream request.

use vstd::prelude::*;
use vstd::string::StrSliceExecFns;
use vstd::string::StringExecFns;

use crate::circuit::CircuitNode;
use crate::circuit::CircuitType;
use crate::conf::RuleView;
use crate::path::CircuitPath;
use crate::path::common_prefix_len;
use crate::path::ends_with;
use crate::path::first_index;
use crate::path::lemma_common_prefix_len_of_extension;
use crate::path::lemma_segments_of_text;
use crate::path::lemma_text_ends_with;
use crate::path::path_segments;
use crate::path::path_text;
use crate::path::pieces_wf;
use crate::path::segs_wf;
use crate::path::split_acc;
use crate::path::split_nonempty;
use crate::path::split_str;
use crate::path::str_ends_with;
use crate::path::str_find;
use crate::strmap::StrMap;
use crate::strmap::lemma_merge_idempotent;
use crate::strmap::merge_into;
use crate::upstream::CircuitUpstream;
use crate::upstream::spec_schema;
use crate::upstream::upstream_host;
use crate::upstream::upstream_path_segs;
use crate::upstream::upstream_text;

verus! {

/// The HTTP method of a request; anything unrecognized is `Invalid`.
#[derive(Clone, Copy, PartialEq, Eq, Structural, Debug)]
pub enum ReboundRequestType {
    Get,
    Post,
    Patch,
    Put,
    Delete,
    Head,
    Connect,
    Trace,
    Options,
    Invalid,
}

/// A normalized request: method, textual uri (no query string), the query
/// parameters and headers as maps, and an optional body.
pub struct ReboundRequest {
    pub uri: String,
    pub method: ReboundRequestType,
    pub headers: StrMap,
    pub query_params: StrMap,
    pub body: Option<Vec<u8>>,
}

/// An exact copy of a byte vector.
fn clone_bytes(b: &Vec<u8>) -> (r: Vec<u8>)
    ensures
        r@ == b@,
{
    let mut r: Vec<u8> = Vec::new();
    let n = b.len();
    let mut i: usize = 0;
    while i < n
        invariant
            n == b@.len(),
            i <= n,
            r@ == b@.take(i as int),
        decreases n - i,
    {
        r.push(b[i]);
        proof {
            assert(r@ =~= b@.take(i as int + 1));
        }
        i = i + 1;
    }
    proof {
        assert(b@.take(n as int) =~= b@);
    }
    r
}

/// The headers (or query parameters) the rewrite produces: the inbound map
/// when preserved, else nothing, with the rule's additions written over it.
pub open spec fn rewrite_headers(
    base: Map<Seq<char>, Seq<char>>,
    preserve: bool,
    adds: Seq<(Seq<char>, Seq<char>)>,
) -> Map<Seq<char>, Seq<char>> {
    merge_into(
        if preserve {
            base
        } else {
            Map::empty()
        },
        adds,
    )
}

/// The path segments the rewritten upstream URL carries: the full inbound
/// path for a bare upstream, else the upstream's mount path followed by the
/// tail of the inbound path past the matched prefix (no tail at all when the
/// rule does not preserve the path).
pub open spec fn rewritten_path_segs(
    rule: RuleView,
    req_uri: Seq<char>,
    node_segs: Seq<Seq<char>>,
) -> Seq<Seq<char>> {
    let ups = rule.upstream;
    let req_segs = path_segments(req_uri);
    if upstream_path_segs(ups).len() == 0 && !ends_with(ups, '/') {
        upstream_path_segs(ups) + req_segs
    } else if rule.preserve_path {
        upstream_path_segs(ups) + req_segs.skip(common_prefix_len(req_segs, node_segs))
    } else {
        upstream_path_segs(ups) + Seq::<Seq<char>>::empty()
    }
}

/// The directory marker the rewritten upstream URL carries.
pub open spec fn rewritten_path_dir(
    rule: RuleView,
    req_uri: Seq<char>,
    node_segs: Seq<Seq<char>>,
) -> bool {
    let ups = rule.upstream;
    if upstream_path_segs(ups).len() == 0 && !ends_with(ups, '/') {
        ends_with(req_uri, '/')
    } else if rule.preserve_path {
        ends_with(req_uri, '/')
    } else {
        false
    }
}

/// The full upstream URL the rewrite produces for a matched rule.
pub open spec fn rewrite_uri(rule: RuleView, req_uri: Seq<char>, node_segs: Seq<Seq<char>>) -> Seq<
    char,
> {
    upstream_text(
        spec_schema(rule.upstream),
        upstream_host(rule.upstream),
        rewritten_path_segs(rule, req_uri, node_segs),
        rewritten_path_dir(rule, req_uri, node_segs),
    )
}

impl ReboundRequest {
    /// The header and query maps hold one entry per name.
    pub open spec fn wf(&self) -> bool {
        self.headers.wf() && self.query_params.wf()
    }

    /// The body bytes, if any.
    pub open spec fn body_view(&self) -> Option<Seq<u8>> {
        match self.body {
            Some(b) => Some(b@),
            None => None,
        }
    }

    /// Rewrite this request per the resolved circuit node: `None` when the
    /// node is the error sentinel, else the upstream request the node's rule
    /// asks for. Method and body pass through unchanged.
    pub fn apply(&self, cnode: &CircuitNode) -> (r: Option<ReboundRequest>)
        requires
            self.wf(),
            cnode.wf(),
        ensures
            cnode.circuit_type == CircuitType::Error ==> r is None,
            cnode.circuit_type == CircuitType::Routable ==> (match (r, &cnode.rule) {
                (Some(o), Some(rl)) => {
                    &&& o.method == self.method
                    &&& o.body_view() == self.body_view()
                    &&& o.headers@ == rewrite_headers(
                        self.headers@,
                        rl@.preserve_hdrs,
                        rl@.additional_hdrs,
                    )
                    &&& o.query_params@ == rewrite_headers(
                        self.query_params@,
                        rl@.preserve_query,
                        rl@.additional_query,
                    )
                    &&& o.uri@ == rewrite_uri(rl@, self.uri@, cnode.spec_path_segs())
                    &&& o.wf()
                },
                _ => false,
            }),
    {
        match cnode.circuit_type {
            CircuitType::Error => None,
            CircuitType::Routable => {
                let rl = match &cnode.rule {
                    Some(rl) => rl,
                    None => {
                        proof {
                            assert(false);
                        }
                        return None;
                    },
                };
                let mut new_headers = if rl.preserve_hdrs {
                    self.headers.duplicate()
                } else {
                    StrMap::new()
                };
                new_headers.merge_from(&rl.additional_hdrs);
                let mut new_query = if rl.preserve_query {
                    self.query_params.duplicate()
                } else {
                    StrMap::new()
                };
                new_query.merge_from(&rl.additional_query);
                let ends_with_dir = str_ends_with(rl.upstream.as_str(), '/');
                let upstream_path = CircuitUpstream::parse(&rl.upstream);
                let req_path = CircuitPath::parse(self.uri.as_str());
                let new_uri: String = if upstream_path.path_undefined() && !ends_with_dir {
                    upstream_path.join(&req_path).to_string()
                } else {
                    let cpath = match &cnode.path {
                        Some(p) => p,
                        None => {
                            proof {
                                assert(false);
                            }
                            &req_path
                        },
                    };
                    let diff_path = if rl.preserve_path {
                        req_path.get_diff(cpath)
                    } else {
                        let empty_tail = CircuitPath {
                            ordered_path: Vec::new(),
                            is_resource_dir: false,
                        };
                        proof {
                            assert(empty_tail.segs() =~= Seq::<Seq<char>>::empty());
                        }
                        empty_tail
                    };
                    upstream_path.join(&diff_path).to_string()
                };
                let body = match &self.body {
                    Some(b) => Some(clone_bytes(b)),
                    None => None,
                };
                Some(
                    ReboundRequest {
                        uri: new_uri,
                        method: self.method,
                        headers: new_headers,
                        query_params: new_query,
                        body,
                    },
                )
            },
        }
    }
}

/// The textual uri of a raw request-target: everything before the first
/// `?`, or the whole target.
pub open spec fn uri_part(url: Seq<char>) -> Seq<char> {
    if first_index(url, '?') < 0 {
        url
    } else {
        url.take(first_index(url, '?'))
    }
}

/// The query string of a raw request-target: everything after the first
/// `?`, or nothing.
pub open spec fn query_part(url: Seq<char>) -> Seq<char> {
    if first_index(url, '?') < 0 {
        Seq::empty()
    } else {
        url.skip(first_index(url, '?') + 1)
    }
}

/// The name-value pairs the query pieces denote: each piece with a `=`
/// splits at its first `=`; pieces without one are discarded.
pub open spec fn query_pairs(pieces: Seq<Seq<char>>) -> Seq<(Seq<char>, Seq<char>)>
    decreases pieces.len(),
{
    if pieces.len() == 0 {
        Seq::empty()
    } else {
        let rest = query_pairs(pieces.drop_last());
        let p = pieces.last();
        if first_index(p, '=') >= 0 {
            rest.push((p.take(first_index(p, '=')), p.skip(first_index(p, '=') + 1)))
        } else {
            rest
        }
    }
}

/// The query parameters a raw request-target denotes, the last write to a
/// name winning. No URL-decoding is performed.
pub open spec fn query_map(url: Seq<char>) -> Map<Seq<char>, Seq<char>> {
    merge_into(Map::empty(), query_pairs(split_nonempty(query_part(url), '&')))
}

/// The name-value views of raw header pairs.
pub open spec fn raw_pairs(h: Seq<(String, String)>) -> Seq<(Seq<char>, Seq<char>)> {
    Seq::new(h.len(), |i: int| (h[i].0@, h[i].1@))
}

/// Assembles a normalized request from the raw parts of an inbound one.
pub struct ReboundIngressRequestBuilder {
    url: Option<String>,
    headers: Option<Vec<(String, String)>>,
    method: Option<ReboundRequestType>,
    body: Option<Vec<u8>>,
}

impl ReboundIngressRequestBuilder {
    /// The raw request-target handed in, if any.
    pub closed spec fn url_view(&self) -> Option<Seq<char>> {
        match self.url {
            Some(u) => Some(u@),
            None => None,
        }
    }

    /// The raw header pairs handed in, if any.
    pub closed spec fn headers_view(&self) -> Option<Seq<(Seq<char>, Seq<char>)>> {
        match self.headers {
            Some(h) => Some(raw_pairs(h@)),
            None => None,
        }
    }

    /// The method handed in, if any.
    pub closed spec fn method_view(&self) -> Option<ReboundRequestType> {
        self.method
    }

    /// The body bytes handed in, if any.
    pub closed spec fn body_view(&self) -> Option<Seq<u8>> {
        match self.body {
            Some(b) => Some(b@),
            None => None,
        }
    }

    /// A builder with nothing handed in yet.
    pub fn new() -> (r: ReboundIngressRequestBuilder)
        ensures
            r.url_view() is None,
            r.headers_view() is None,
            r.method_view() is None,
            r.body_view() is None,
    {
        ReboundIngressRequestBuilder { url: None, headers: None, method: None, body: None }
    }

    /// Hand in the raw request-target.
    pub fn with_url(&mut self, url: String)
        ensures
            final(self).url_view() == Some(url@),
            final(self).headers_view() == old(self).headers_view(),
            final(self).method_view() == old(self).method_view(),
            final(self).body_view() == old(self).body_view(),
    {
        self.url = Some(url);
    }

    /// Hand in the raw header pairs, in arrival order.
    pub fn with_headers(&mut self, hdrs: Vec<(String, String)>)
        ensures
            final(self).headers_view() == Some(raw_pairs(hdrs@)),
            final(self).url_view() == old(self).url_view(),
            final(self).method_view() == old(self).method_view(),
            final(self).body_view() == old(self).body_view(),
    {
        self.headers = Some(hdrs);
    }

    /// Hand in the method.
    pub fn with_method(&mut self, method: ReboundRequestType)
        ensures
            final(self).method_view() == Some(method),
            final(self).url_view() == old(self).url_view(),
            final(self).headers_view() == old(self).headers_view(),
            final(self).body_view() == old(self).body_view(),
    {
        self.method = Some(method);
    }

    /// Hand in the body bytes; a failed read arrives as an empty body.
    pub fn with_body(&mut self, body: Option<Vec<u8>>)
        ensures
            final(self).body_view() == (match body {
                Some(b) => Some(b@),
                None => None,
            }),
            final(self).url_view() == old(self).url_view(),
            final(self).headers_view() == old(self).headers_view(),
            final(self).method_view() == old(self).method_view(),
    {
        self.body = body;
    }

    /// The headers map: raw pairs written in order, last write winning.
    fn build_hdrs(&self) -> (r: StrMap)
        ensures
            r@ == (match self.headers_view() {
                Some(h) => merge_into(Map::<Seq<char>, Seq<char>>::empty(), h),
                None => Map::<Seq<char>, Seq<char>>::empty(),
            }),
            r.wf(),
    {
        let mut m = StrMap::new();
        let hdrs = match &self.headers {
            Some(h) => h,
            None => {
                return m;
            },
        };
        let n = hdrs.len();
        let mut i: usize = 0;
        proof {
            assert(raw_pairs(hdrs@).take(0) =~= Seq::<(Seq<char>, Seq<char>)>::empty());
        }
        while i < n
            invariant
                n == hdrs@.len(),
                i <= n,
                m@ == merge_into(
                    Map::<Seq<char>, Seq<char>>::empty(),
                    raw_pairs(hdrs@).take(i as int),
                ),
                m.wf(),
            decreases n - i,
        {
            let k = hdrs[i].0.clone();
            let v = hdrs[i].1.clone();
            m.insert(k, v);
            proof {
                let p = raw_pairs(hdrs@);
                assert(p.take(i as int + 1).drop_last() =~= p.take(i as int));
                assert(p.take(i as int + 1).last() == p[i as int]);
            }
            i = i + 1;
        }
        proof {
            assert(raw_pairs(hdrs@).take(n as int) =~= raw_pairs(hdrs@));
        }
        m
    }

    /// The method, `Invalid` when none was handed in.
    fn build_method(&self) -> (r: ReboundRequestType)
        ensures
            r == (match self.method_view() {
                Some(m) => m,
                None => ReboundRequestType::Invalid,
            }),
    {
        match &self.method {
            Some(m) => *m,
            None => ReboundRequestType::Invalid,
        }
    }

    /// The textual uri: the request-target up to its first `?`.
    fn build_uri(&self) -> (r: String)
        ensures
            r@ == (match self.url_view() {
                Some(u) => uri_part(u),
                None => Seq::<char>::empty(),
            }),
    {
        let url = match &self.url {
            Some(u) => u,
            None => {
                return String::new();
            },
        };
        match str_find(url.as_str(), '?') {
            Some(i) => {
                let r = url.as_str().substring_char(0, i).to_owned();
                proof {
                    assert(r@ =~= uri_part(url@));
                }
                r
            },
            None => url.clone(),
        }
    }

    /// The query parameters parsed from past the first `?`.
    fn build_query_params(&self) -> (r: StrMap)
        ensures
            r@ == (match self.url_view() {
                Some(u) => query_map(u),
                None => Map::<Seq<char>, Seq<char>>::empty(),
            }),
            r.wf(),
    {
        let mut m = StrMap::new();
        let url = match &self.url {
            Some(u) => u,
            None => {
                return m;
            },
        };
        let qi = match str_find(url.as_str(), '?') {
            Some(qi) => qi,
            None => {
                proof {
                    assert(query_part(url@) =~= Seq::<char>::empty());
                    assert(split_nonempty(Seq::<char>::empty(), '&') =~= Seq::<Seq<char>>::empty());
                }
                return m;
            },
        };
        let n = url.as_str().unicode_len();
        let qs = url.as_str().substring_char(qi + 1, n);
        proof {
            assert(qs@ =~= query_part(url@));
        }
        let pieces = split_str(qs, '&');
        let np = pieces.len();
        let mut i: usize = 0;
        proof {
            assert(pieces.deep_view().take(0) =~= Seq::<Seq<char>>::empty());
        }
        while i < np
            invariant
                np == pieces@.len(),
                m@ == merge_into(
                    Map::<Seq<char>, Seq<char>>::empty(),
                    query_pairs(pieces.deep_view().take(i as int)),
                ),
                m.wf(),
                i <= np,
            decreases np - i,
        {
            let ghost pv = pieces.deep_view();
            proof {
                assert(pv.take(i as int + 1).drop_last() =~= pv.take(i as int));
                assert(pv.take(i as int + 1).last() == pv[i as int]);
                assert(pv[i as int] == pieces@[i as int]@);
            }
            let piece = &pieces[i];
            match str_find(piece.as_str(), '=') {
                Some(ei) => {
                    let pn = piece.as_str().unicode_len();
                    let k = piece.as_str().substring_char(0, ei).to_owned();
                    let v = piece.as_str().substring_char(ei + 1, pn).to_owned();
                    proof {
                        assert(k@ =~= pv[i as int].take(ei as int));
                        assert(v@ =~= pv[i as int].skip(ei as int + 1));
                    }
                    m.insert(k, v);
                    proof {
                        let pr = query_pairs(pv.take(i as int));
                        let fi = first_index(pv[i as int], '=');
                        let pair = (pv[i as int].take(fi), pv[i as int].skip(fi + 1));
                        assert(query_pairs(pv.take(i as int + 1)) == pr.push(pair));
                        assert(pr.push(pair).drop_last() =~= pr);
                        assert(pr.push(pair).last() == pair);
                    }
                },
                None => {
                    proof {
                        assert(query_pairs(pv.take(i as int + 1)) == query_pairs(
                            pv.take(i as int),
                        ));
                    }
                },
            }
            i = i + 1;
        }
        proof {
            assert(pieces.deep_view().take(np as int) =~= pieces.deep_view());
        }
        m
    }

    /// The normalized request the handed-in parts denote.
    pub fn build(&self) -> (r: ReboundRequest)
        ensures
            r.uri@ == (match self.url_view() {
                Some(u) => uri_part(u),
                None => Seq::<char>::empty(),
            }),
            r.headers@ == (match self.headers_view() {
                Some(h) => merge_into(Map::<Seq<char>, Seq<char>>::empty(), h),
                None => Map::<Seq<char>, Seq<char>>::empty(),
            }),
            r.query_params@ == (match self.url_view() {
                Some(u) => query_map(u),
                None => Map::<Seq<char>, Seq<char>>::empty(),
            }),
            r.method == (match self.method_view() {
                Some(m) => m,
                None => ReboundRequestType::Invalid,
            }),
            r.body_view() == self.body_view(),
            r.wf(),
    {
        ReboundRequest {
            uri: self.build_uri(),
            headers: self.build_hdrs(),
            query_params: self.build_query_params(),
            method: self.build_method(),
            body: (match &self.body {
                Some(b) => Some(clone_bytes(b)),
                None => None,
            }),
        }
    }
}

/// A rule that adds nothing leaves preserved headers exactly as they came,
/// and leaves nothing at all when it does not preserve them. The same holds
/// of query parameters, which rewrite through the same function.
pub proof fn lemma_preserve_or_clear(base: Map<Seq<char>, Seq<char>>, adds: Seq<(Seq<char>, Seq<char>)>)
    requires
        adds.len() == 0,
    ensures
        rewrite_headers(base, true, adds) == base,
        rewrite_headers(base, false, adds) == Map::<Seq<char>, Seq<char>>::empty(),
{
}

/// Rewriting headers (or query parameters) a second time with the same rule
/// changes nothing.
pub proof fn lemma_rewrite_headers_idempotent(
    base: Map<Seq<char>, Seq<char>>,
    preserve: bool,
    adds: Seq<(Seq<char>, Seq<char>)>,
)
    ensures
        rewrite_headers(rewrite_headers(base, preserve, adds), preserve, adds) == rewrite_headers(
            base,
            preserve,
            adds,
        ),
{
    if preserve {
        lemma_merge_idempotent(base, adds);
    } else {
        lemma_merge_idempotent(Map::empty(), adds);
    }
}

/// Every piece a split produces is non-empty and free of the separator.
proof fn lemma_split_acc_wf(s: Seq<char>, sep: char, cur: Seq<char>)
    requires
        !cur.contains(sep),
    ensures
        pieces_wf(split_acc(s, sep, cur), sep),
    decreases s.len(),
{
    if s.len() == 0 {
    } else if s[0] == sep {
        lemma_split_acc_wf(s.drop_first(), sep, Seq::empty());
        let head: Seq<Seq<char>> = if cur.len() > 0 {
            seq![cur]
        } else {
            Seq::empty()
        };
        let rest = split_acc(s.drop_first(), sep, Seq::empty());
        assert forall|i: int|
            0 <= i < (head + rest).len() implies ((#[trigger] (head + rest)[i]).len() > 0 && !(head
            + rest)[i].contains(sep)) by {
            if i < head.len() {
                assert((head + rest)[i] == cur);
            } else {
                assert((head + rest)[i] == rest[i - head.len()]);
            }
        }
    } else {
        assert(!cur.push(s[0]).contains(sep)) by {
            if cur.push(s[0]).contains(sep) {
                let w = choose|w: int| 0 <= w < cur.push(s[0]).len() && cur.push(s[0])[w] == sep;
                if w < cur.len() {
                    assert(cur[w] == sep);
                } else {
                    assert(s[0] == sep);
                }
            }
        }
        lemma_split_acc_wf(s.drop_first(), sep, cur.push(s[0]));
    }
}

/// The pieces of any split are non-empty and free of the separator.
pub proof fn lemma_split_pieces_wf(s: Seq<char>, sep: char)
    ensures
        pieces_wf(split_nonempty(s, sep), sep),
{
    lemma_split_acc_wf(s, sep, Seq::empty());
}

/// Applying a rule to a request it has already rewritten — the second time
/// rooted at the rule's upstream, whose path is then a prefix of the
/// rewritten path — produces the same upstream URL again.
pub proof fn lemma_rewrite_uri_idempotent(
    rule: RuleView,
    req_uri: Seq<char>,
    node_segs: Seq<Seq<char>>,
)
    requires
        crate::upstream::upstream_host_present(rule.upstream),
    ensures
        rewrite_uri(
            rule,
            path_text(
                rewritten_path_segs(rule, req_uri, node_segs),
                rewritten_path_dir(rule, req_uri, node_segs),
            ),
            upstream_path_segs(rule.upstream),
        ) == rewrite_uri(rule, req_uri, node_segs),
{
    let ups = rule.upstream;
    let u_segs = upstream_path_segs(ups);
    let req_segs = path_segments(req_uri);
    let segs1 = rewritten_path_segs(rule, req_uri, node_segs);
    let dir1 = rewritten_path_dir(rule, req_uri, node_segs);
    let uri2 = path_text(segs1, dir1);
    // The rewritten path's segments are well formed: they come from splits.
    assert(segs_wf(segs1)) by {
        lemma_split_pieces_wf(crate::upstream::scheme_rest(ups), '/');
        lemma_split_pieces_wf(req_uri, '/');
        let all = path_segments(crate::upstream::scheme_rest(ups));
        let cpl = common_prefix_len(req_segs, node_segs);
        let tail = req_segs.skip(cpl);
        crate::path::lemma_common_prefix_len_bounds(req_segs, node_segs);
        assert(all.len() >= 1);
        assert(u_segs.len() == all.len() - 1);
        assert forall|i: int| 0 <= i < segs1.len() implies crate::path::seg_wf(
            #[trigger] segs1[i],
        ) by {
            if i < u_segs.len() {
                assert(segs1[i] == u_segs[i]);
                assert(u_segs[i] == all[i + 1]);
                assert(all[i + 1].len() > 0 && !all[i + 1].contains('/'));
            } else {
                if u_segs.len() == 0 && !ends_with(ups, '/') {
                    assert(segs1[i] == req_segs[i - u_segs.len()]);
                    assert(req_segs[i - u_segs.len()].len() > 0 && !req_segs[i
                        - u_segs.len()].contains('/'));
                } else if rule.preserve_path {
                    assert(segs1[i] == tail[i - u_segs.len()]);
                    assert(tail[i - u_segs.len()] == req_segs[i - u_segs.len() + cpl]);
                    assert(req_segs[i - u_segs.len() + cpl].len() > 0 && !req_segs[i - u_segs.len()
                        + cpl].contains('/'));
                } else {
                    assert(false);
                }
            }
        }
    }
    lemma_segments_of_text(segs1, dir1);
    lemma_text_ends_with(segs1, dir1);
    assert(path_segments(uri2) == segs1);
    assert(ends_with(uri2, '/') == dir1);
    if u_segs.len() == 0 && !ends_with(ups, '/') {
        assert(segs1 =~= req_segs);
        assert(rewritten_path_segs(rule, uri2, u_segs) =~= u_segs + req_segs);
    } else {
        let tail = if rule.preserve_path {
            req_segs.skip(common_prefix_len(req_segs, node_segs))
        } else {
            Seq::<Seq<char>>::empty()
        };
        assert(segs1 == u_segs + tail);
        lemma_common_prefix_len_of_extension(u_segs, segs1);
        assert(common_prefix_len(segs1, u_segs) == u_segs.len());
        if rule.preserve_path {
            assert(segs1.skip(u_segs.len() as int) =~= tail);
            assert(rewritten_path_segs(rule, uri2, u_segs) == u_segs + tail);
            assert(rewritten_path_dir(rule, uri2, u_segs) == dir1);
        } else {
            assert(rewritten_path_segs(rule, uri2, u_segs) =~= u_segs
                + Seq::<Seq<char>>::empty());
            assert(rewritten_path_dir(rule, uri2, u_segs) == false);
        }
    }
}

} // verus!
