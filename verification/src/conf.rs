//! The server's configuration records: listener address, worker count,
//! optional TLS material, and the ordered routing rules.

use vstd::prelude::*;

use crate::strmap::StrMap;
use crate::upstream::upstream_host_present;

verus! {

/// Headers are preserved when a rule does not say otherwise.
pub fn preserve_hdrs_default() -> (r: bool)
    ensures
        r == true,
{
    true
}

/// Query parameters are preserved when a rule does not say otherwise.
pub fn preserve_query_default() -> (r: bool)
    ensures
        r == true,
{
    true
}

/// The inbound path is forwarded when a rule does not say otherwise.
pub fn preserve_path_default() -> (r: bool)
    ensures
        r == true,
{
    true
}

/// The mathematical content of one routing rule.
#[verifier::ext_equal]
pub ghost struct RuleView {
    pub pattern: Seq<char>,
    pub preserve_hdrs: bool,
    pub additional_hdrs: Seq<(Seq<char>, Seq<char>)>,
    pub preserve_query: bool,
    pub additional_query: Seq<(Seq<char>, Seq<char>)>,
    pub preserve_path: bool,
    pub upstream: Seq<char>,
}

/// One routing rule: a path pattern, the upstream it forwards to, and the
/// transformations applied to a matched request.
pub struct ReboundRule {
    /// The path prefix this rule matches.
    pub pattern: String,
    /// Keep the inbound headers; additions are merged over them.
    pub preserve_hdrs: bool,
    /// Headers written onto the outbound request, last write winning.
    pub additional_hdrs: StrMap,
    /// Keep the inbound query parameters; additions are merged over them.
    pub preserve_query: bool,
    /// Query parameters written onto the outbound request.
    pub additional_query: StrMap,
    /// Forward the path tail past the matched prefix; otherwise forward none.
    pub preserve_path: bool,
    /// The textual upstream target, `scheme://host[:port]/path`.
    pub upstream: String,
}

impl View for ReboundRule {
    type V = RuleView;

    open spec fn view(&self) -> RuleView {
        RuleView {
            pattern: self.pattern@,
            preserve_hdrs: self.preserve_hdrs,
            additional_hdrs: self.additional_hdrs.pairs(),
            preserve_query: self.preserve_query,
            additional_query: self.additional_query.pairs(),
            preserve_path: self.preserve_path,
            upstream: self.upstream@,
        }
    }
}

impl ReboundRule {
    /// The rule's upstream names a host and its addition maps hold one
    /// entry per name.
    pub open spec fn wf(&self) -> bool {
        &&& self.additional_hdrs.wf()
        &&& self.additional_query.wf()
        &&& upstream_host_present(self.upstream@)
    }

    /// An identical rule, field for field.
    pub fn duplicate(&self) -> (r: ReboundRule)
        ensures
            r@ == self@,
            r.wf() == self.wf(),
    {
        let r = ReboundRule {
            pattern: self.pattern.clone(),
            preserve_hdrs: self.preserve_hdrs,
            additional_hdrs: self.additional_hdrs.duplicate(),
            preserve_query: self.preserve_query,
            additional_query: self.additional_query.duplicate(),
            preserve_path: self.preserve_path,
            upstream: self.upstream.clone(),
        };
        proof {
            assert(r@ =~= self@);
        }
        r
    }
}

/// Where the TLS certificate and key are found on disk.
pub struct ReboundSSL {
    /// File path of the public certificate.
    pub pub_cert: String,
    /// File path of the private key.
    pub priv_key: String,
}

/// The whole server configuration.
pub struct ReboundConf {
    /// Host name or address the server listens on.
    pub host: String,
    /// Port the server listens on.
    pub port: u16,
    /// TLS material; plain HTTP when absent.
    pub ssl: Option<ReboundSSL>,
    /// How many worker threads serve requests.
    pub workers: usize,
    /// The routing rules, in declaration order.
    pub rules: Option<Vec<ReboundRule>>,
}

} // verus!
