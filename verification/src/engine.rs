//! The rewrite engine: resolves a request's path through the circuit and
//! applies the matched rule.

use vstd::prelude::*;

use crate::circuit::Circuit;
use crate::circuit::CircuitNode;
use crate::circuit::CircuitType;
use crate::path::CircuitPath;
use crate::path::is_prefix;
use crate::path::path_segments;
use crate::request::ReboundRequest;
use crate::request::rewrite_headers;
use crate::request::rewrite_uri;

verus! {

/// Resolves requests through an immutable circuit and rewrites them.
pub struct ReboundEngine {
    circuit: Circuit,
}

impl ReboundEngine {
    /// The circuit this engine routes over.
    pub closed spec fn spec_circuit(&self) -> Circuit {
        self.circuit
    }

    /// The engine's circuit satisfies the circuit invariant.
    pub open spec fn wf(&self) -> bool {
        self.spec_circuit().wf()
    }

    /// An engine over the given circuit.
    pub fn new(circuit: Circuit) -> (r: ReboundEngine)
        ensures
            r.spec_circuit() == circuit,
    {
        ReboundEngine { circuit }
    }

    /// Resolve the request's path and rewrite the request per the matched
    /// rule. `None` means no rule matched: the resolution ended at the error
    /// root, so every matching node claims the empty path.
    pub fn get(&mut self, req: &ReboundRequest) -> (r: Option<ReboundRequest>)
        requires
            old(self).wf(),
            req.wf(),
        ensures
            *final(self) == *old(self),
            (match r {
                None => forall|m: int|
                    0 <= m < old(self).spec_circuit().n() && is_prefix(
                        #[trigger] old(self).spec_circuit().node_path(m),
                        path_segments(req.uri@),
                    ) ==> old(self).spec_circuit().node_path(m).len() == 0,
                Some(o) => exists|nd: CircuitNode|
                    {
                        &&& #[trigger] old(self).spec_circuit().nodes@.contains(nd)
                        &&& nd.circuit_type == CircuitType::Routable
                        &&& is_prefix(nd.spec_path_segs(), path_segments(req.uri@))
                        &&& (forall|m: int|
                            0 <= m < old(self).spec_circuit().n() && is_prefix(
                                #[trigger] old(self).spec_circuit().node_path(m),
                                path_segments(req.uri@),
                            ) ==> is_prefix(
                                old(self).spec_circuit().node_path(m),
                                nd.spec_path_segs(),
                            ))
                        &&& (match nd.rule {
                            Some(rl) => {
                                &&& o.method == req.method
                                &&& o.body_view() == req.body_view()
                                &&& o.headers@ == rewrite_headers(
                                    req.headers@,
                                    rl@.preserve_hdrs,
                                    rl@.additional_hdrs,
                                )
                                &&& o.query_params@ == rewrite_headers(
                                    req.query_params@,
                                    rl@.preserve_query,
                                    rl@.additional_query,
                                )
                                &&& o.uri@ == rewrite_uri(rl@, req.uri@, nd.spec_path_segs())
                                &&& o.wf()
                            },
                            None => false,
                        })
                    },
            }),
    {
        let req_path = CircuitPath::parse(req.uri.as_str());
        let cnode = self.circuit.get_node(&req_path);
        let r = req.apply(cnode);
        proof {
            if r is None {
                assert(cnode.circuit_type == CircuitType::Error);
                assert(cnode.spec_path_segs() =~= Seq::<Seq<char>>::empty());
            } else {
                assert(cnode.circuit_type == CircuitType::Routable);
                let nd = *cnode;
                assert(self.spec_circuit().nodes@.contains(nd));
            }
        }
        r
    }
}

} // verus!
