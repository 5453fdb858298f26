//! A rule's target: scheme, host and mount path, parsed from the textual
//! `scheme://host[:port]/path` form.

use vstd::prelude::*;
use vstd::string::StrSliceExecFns;
use vstd::string::StringExecFns;

use crate::path::CircuitPath;
use crate::path::ends_with;
use crate::path::path_segments;
use crate::path::path_text;
use crate::path::seg_wf;
use crate::path::starts_with;
use crate::path::str_starts_with;

verus! {

/// The scheme an upstream is reached over.
#[derive(Clone, Copy, PartialEq, Eq, Structural, Debug)]
pub enum CircuitUpstreamSchema {
    Http,
    Https,
}

/// The textual prefix a scheme writes in front of the host.
pub open spec fn schema_text(schema: CircuitUpstreamSchema) -> Seq<char> {
    match schema {
        CircuitUpstreamSchema::Http => "http://"@,
        CircuitUpstreamSchema::Https => "https://"@,
    }
}

/// The scheme a textual upstream names; absent a scheme prefix it is `Http`.
pub open spec fn spec_schema(s: Seq<char>) -> CircuitUpstreamSchema {
    if starts_with(s, "http://"@) {
        CircuitUpstreamSchema::Http
    } else if starts_with(s, "https://"@) {
        CircuitUpstreamSchema::Https
    } else {
        CircuitUpstreamSchema::Http
    }
}

/// The textual upstream with its scheme prefix, if any, stripped.
pub open spec fn scheme_rest(s: Seq<char>) -> Seq<char> {
    if starts_with(s, "http://"@) {
        s.skip("http://"@.len() as int)
    } else if starts_with(s, "https://"@) {
        s.skip("https://"@.len() as int)
    } else {
        s
    }
}

/// A textual upstream carries a host: something stands before the first `/`.
pub open spec fn upstream_host_present(s: Seq<char>) -> bool {
    path_segments(scheme_rest(s)).len() > 0
}

/// The host (with optional port) a textual upstream names.
pub open spec fn upstream_host(s: Seq<char>) -> Seq<char> {
    path_segments(scheme_rest(s))[0]
}

/// The mount-path segments a textual upstream names, after the host.
pub open spec fn upstream_path_segs(s: Seq<char>) -> Seq<Seq<char>> {
    path_segments(scheme_rest(s)).drop_first()
}

/// Whether the textual upstream ends in `/`.
pub open spec fn upstream_dir(s: Seq<char>) -> bool {
    ends_with(scheme_rest(s), '/')
}

/// Which scheme a textual upstream names.
pub fn get_circuit_schema(c_upstream: &String) -> (r: CircuitUpstreamSchema)
    ensures
        r == spec_schema(c_upstream@),
{
    if str_starts_with(c_upstream.as_str(), "http://") {
        CircuitUpstreamSchema::Http
    } else if str_starts_with(c_upstream.as_str(), "https://") {
        CircuitUpstreamSchema::Https
    } else {
        CircuitUpstreamSchema::Http
    }
}

impl CircuitUpstreamSchema {
    /// The textual prefix this scheme writes in front of the host.
    pub fn into_str(&self) -> (r: &str)
        ensures
            r@ == schema_text(*self),
    {
        match self {
            CircuitUpstreamSchema::Http => "http://",
            CircuitUpstreamSchema::Https => "https://",
        }
    }
}

/// A parsed rule target: scheme, host, and the path the rule mounts at.
pub struct CircuitUpstream {
    pub schema: CircuitUpstreamSchema,
    pub host: String,
    pub path: CircuitPath,
}

/// The textual form of an upstream: scheme, host, one `/`, then the mount
/// path; a bare host keeps just the trailing `/`.
pub open spec fn upstream_text(
    schema: CircuitUpstreamSchema,
    host: Seq<char>,
    segs: Seq<Seq<char>>,
    dir: bool,
) -> Seq<char> {
    schema_text(schema) + host + seq!['/'] + if segs.len() == 0 {
        Seq::<char>::empty()
    } else {
        path_text(segs, dir)
    }
}

impl CircuitUpstream {
    /// The host is a real segment and the mount path is well formed.
    pub open spec fn wf(&self) -> bool {
        seg_wf(self.host@) && self.path.wf()
    }

    /// Parse a textual upstream. The text must name a host: at least one
    /// segment after the scheme prefix.
    pub fn parse(upstream: &String) -> (r: CircuitUpstream)
        requires
            upstream_host_present(upstream@),
        ensures
            r.schema == spec_schema(upstream@),
            r.host@ == upstream_host(upstream@),
            r.path.segs() == upstream_path_segs(upstream@),
            r.path.is_resource_dir == upstream_dir(upstream@),
            r.wf(),
    {
        let schema = get_circuit_schema(upstream);
        let n = upstream.as_str().unicode_len();
        let rest: &str = if str_starts_with(upstream.as_str(), "http://") {
            proof {
                reveal_strlit("http://");
            }
            upstream.as_str().substring_char(7, n)
        } else if str_starts_with(upstream.as_str(), "https://") {
            proof {
                reveal_strlit("https://");
            }
            upstream.as_str().substring_char(8, n)
        } else {
            upstream.as_str()
        };
        proof {
            assert(rest@ =~= scheme_rest(upstream@));
        }
        let mut cpath = CircuitPath::parse(rest);
        let ghost all_segs = cpath.segs();
        let host = cpath.ordered_path.remove(0);
        proof {
            assert(cpath.segs() =~= all_segs.drop_first());
            assert(host@ == all_segs[0]);
            assert(seg_wf(host@));
        }
        CircuitUpstream { schema, host, path: cpath }
    }

    /// This upstream with `path` appended to its mount path; the directory
    /// marker is inherited from `path`.
    pub fn join(&self, path: &CircuitPath) -> (r: CircuitUpstream)
        ensures
            r.schema == self.schema,
            r.host == self.host,
            r.path.segs() == self.path.segs() + path.segs(),
            r.path.is_resource_dir == path.is_resource_dir,
    {
        CircuitUpstream { schema: self.schema, host: self.host.clone(), path: self.path.join(path) }
    }

    /// Whether this upstream has no mount path of its own.
    pub fn path_undefined(&self) -> (r: bool)
        ensures
            r == (self.path.segs().len() == 0),
    {
        self.path.ordered_path.len() == 0
    }

    /// The textual form of this upstream.
    pub fn to_string(&self) -> (r: String)
        ensures
            r@ == upstream_text(self.schema, self.host@, self.path.segs(), self.path.is_resource_dir),
    {
        let mut out = String::new();
        out.append(self.schema.into_str());
        out.append(self.host.as_str());
        proof {
            reveal_strlit("/");
            assert("/"@ =~= seq!['/']);
        }
        out.append("/");
        if self.path.ordered_path.len() > 0 {
            let p = self.path.to_string();
            out.append(p.as_str());
        } else {
            proof {
                assert(out@ + Seq::<char>::empty() =~= out@);
            }
        }
        out
    }
}

} // verus!
