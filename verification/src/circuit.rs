//! The routing circuit: a prefix tree of rule nodes over an error root.
//!
//! Nodes live in one vector; link `k` always points at node `k + 1`, so a
//! node's parent is `links[node - 1].from`. More specific rules hang under
//! less specific ones, and resolving a path descends from the root through
//! the first matching child at each step.

use vstd::prelude::*;

use crate::conf::ReboundRule;
use crate::path::CircuitPath;
use crate::path::is_prefix;
use crate::path::lemma_prefix_comparable;
use crate::path::lemma_prefix_same_len_eq;
use crate::path::lemma_prefix_trans;
use crate::path::path_segments;
use crate::path::segs_wf;

verus! {

/// Whether a node carries a rule or is the error sentinel.
#[derive(Clone, Copy, PartialEq, Eq, Structural, Debug)]
pub enum CircuitType {
    Routable,
    Error,
}

/// One vertex of the circuit: the error sentinel, or a rule with the path
/// it matches at.
pub struct CircuitNode {
    pub circuit_type: CircuitType,
    pub rule: Option<ReboundRule>,
    pub path: Option<CircuitPath>,
}

impl CircuitNode {
    /// The path this node claims; the error sentinel claims the empty one,
    /// which every request matches.
    pub open spec fn spec_path_segs(&self) -> Seq<Seq<char>> {
        match self.path {
            Some(p) => p.segs(),
            None => Seq::empty(),
        }
    }

    /// A routable node carries a well-formed rule and a directory-marked
    /// path; the error sentinel carries neither.
    pub open spec fn wf(&self) -> bool {
        match self.circuit_type {
            CircuitType::Error => self.rule is None && self.path is None,
            CircuitType::Routable => {
                &&& self.rule is Some
                &&& self.path is Some
                &&& (match self.path {
                    Some(p) => p.wf() && p.is_resource_dir,
                    None => false,
                })
                &&& (match self.rule {
                    Some(r) => r.wf(),
                    None => false,
                })
            },
        }
    }

    /// The error sentinel.
    pub fn error() -> (r: CircuitNode)
        ensures
            r.circuit_type == CircuitType::Error,
            r.wf(),
            r.spec_path_segs() == Seq::<Seq<char>>::empty(),
    {
        CircuitNode { circuit_type: CircuitType::Error, rule: None, path: None }
    }

    /// The routable node a rule defines: its path is the parsed pattern,
    /// uniformly marked as a directory.
    pub fn from_rule(rule: ReboundRule) -> (r: CircuitNode)
        requires
            rule.wf(),
        ensures
            r.circuit_type == CircuitType::Routable,
            r.wf(),
            (match r.rule {
                Some(ru) => ru@ == rule@,
                None => false,
            }),
            r.spec_path_segs() == path_segments(rule.pattern@),
    {
        let parsed = CircuitPath::parse(rule.pattern.as_str());
        let path = CircuitPath { ordered_path: parsed.ordered_path, is_resource_dir: true };
        CircuitNode { circuit_type: CircuitType::Routable, rule: Some(rule), path: Some(path) }
    }

    /// Whether a request path matches this node: the error sentinel matches
    /// everything, a routable node matches when its path is a prefix.
    pub fn matches(&self, other: &CircuitPath) -> (r: bool)
        requires
            self.wf(),
        ensures
            r == is_prefix(self.spec_path_segs(), other.segs()),
    {
        match self.circuit_type {
            CircuitType::Error => true,
            CircuitType::Routable => {
                match &self.path {
                    Some(p) => p.prefix_matches(other),
                    None => {
                        proof {
                            assert(false);
                        }
                        true
                    },
                }
            },
        }
    }
}

/// A directed edge of the circuit, from a node to one of its children.
#[derive(Clone, Copy, Debug)]
pub struct CircuitLink {
    pub from: usize,
    pub to: usize,
}

/// The routing circuit: the error root at index 0, one node per rule in
/// declaration order, and one parent link per rule node.
pub struct Circuit {
    pub head_index: usize,
    pub nodes: Vec<CircuitNode>,
    pub links: Vec<CircuitLink>,
}

impl Circuit {
    /// How many nodes the circuit holds.
    pub open spec fn n(&self) -> int {
        self.nodes@.len() as int
    }

    /// The path the node at `i` claims.
    pub open spec fn node_path(&self, i: int) -> Seq<Seq<char>> {
        self.nodes@[i].spec_path_segs()
    }

    /// The parent of the node at `i`: the source of its one incoming link.
    pub open spec fn parent(&self, i: int) -> int {
        self.links@[i - 1].from as int
    }

    /// The bookkeeping shape: error root at 0, link `k` into node `k + 1`
    /// from an earlier node, every node well formed.
    pub open spec fn wf_structure(&self) -> bool {
        &&& self.head_index == 0
        &&& self.nodes@.len() >= 1
        &&& self.links@.len() == self.nodes@.len() - 1
        &&& self.nodes@[0].circuit_type == CircuitType::Error
        &&& forall|i: int|
            1 <= i < self.n() ==> (#[trigger] self.nodes@[i]).circuit_type == CircuitType::Routable
        &&& forall|i: int| 0 <= i < self.n() ==> (#[trigger] self.nodes@[i]).wf()
        &&& forall|k: int|
            0 <= k < self.links@.len() ==> (#[trigger] self.links@[k]).to == k + 1
                && self.links@[k].from <= k
    }

    /// Every node's path extends its parent's path.
    pub open spec fn wf_parent_prefix(&self) -> bool {
        forall|i: int|
            1 <= i < self.n() ==> is_prefix(
                self.node_path(#[trigger] self.parent(i)),
                self.node_path(i),
            )
    }

    /// A node's parent is the deepest earlier match of its path: whatever
    /// earlier node matches into a node also matches into its parent.
    pub open spec fn wf_deepest_parent(&self) -> bool {
        forall|i: int, m: int|
            #![trigger self.node_path(m), self.node_path(i)]
            1 <= i < self.n() && 0 <= m < i && is_prefix(self.node_path(m), self.node_path(i))
                ==> is_prefix(self.node_path(m), self.node_path(self.parent(i)))
    }

    /// No node matches into a later sibling: had it matched, the later rule
    /// would have been hung below it, not beside it.
    pub open spec fn wf_sibling_order(&self) -> bool {
        forall|i: int, m: int|
            #![trigger self.node_path(m), self.node_path(i)]
            1 <= m < i < self.n() && self.parent(m) == self.parent(i) ==> !is_prefix(
                self.node_path(m),
                self.node_path(i),
            )
    }

    /// The circuit invariant: structure plus the three ordering laws the
    /// builder maintains.
    pub open spec fn wf(&self) -> bool {
        &&& self.wf_structure()
        &&& self.wf_parent_prefix()
        &&& self.wf_deepest_parent()
        &&& self.wf_sibling_order()
    }

    /// Whether `m` lies in the subtree rooted at `r`, following parent links.
    pub open spec fn in_subtree(&self, r: int, m: int) -> bool
        decreases m,
    {
        if m == r {
            true
        } else if 1 <= m && m - 1 < self.links@.len() && self.links@[m - 1].from < m {
            self.in_subtree(r, self.links@[m - 1].from as int)
        } else {
            false
        }
    }

    /// Every node path in a well-formed circuit is made of real segments.
    pub proof fn lemma_node_path_wf(&self, i: int)
        requires
            self.wf(),
            0 <= i < self.n(),
        ensures
            segs_wf(self.node_path(i)),
    {
        assert(self.nodes@[i].wf());
    }

    /// A subtree member's index is no smaller than the root's.
    proof fn lemma_subtree_index(&self, r: int, m: int)
        requires
            self.in_subtree(r, m),
        ensures
            m >= r,
        decreases m,
    {
        if m == r {
        } else {
            self.lemma_subtree_index(r, self.links@[m - 1].from as int);
        }
    }

    /// Every node lies under the error root.
    proof fn lemma_root_subtree(&self, m: int)
        requires
            self.wf(),
            0 <= m < self.n(),
        ensures
            self.in_subtree(0, m),
        decreases m,
    {
        if m == 0 {
        } else {
            assert(self.links@[m - 1].to == m);
            self.lemma_root_subtree(self.parent(m));
        }
    }

    /// A subtree root's path is a prefix of every member's path.
    proof fn lemma_ancestor_prefix(&self, r: int, m: int)
        requires
            self.wf(),
            0 <= r,
            m < self.n(),
            self.in_subtree(r, m),
        ensures
            is_prefix(self.node_path(r), self.node_path(m)),
        decreases m,
    {
        if m == r {
            assert(is_prefix(self.node_path(r), self.node_path(r)));
        } else {
            let p = self.parent(m);
            self.lemma_ancestor_prefix(r, p);
            lemma_prefix_trans(self.node_path(r), self.node_path(p), self.node_path(m));
        }
    }

    /// A strict subtree member lies under one child of the root.
    proof fn lemma_subtree_child(&self, u: int, m: int) -> (ch: int)
        requires
            self.wf(),
            0 <= u,
            m < self.n(),
            self.in_subtree(u, m),
            m != u,
        ensures
            1 <= ch < self.n(),
            self.parent(ch) == u,
            self.in_subtree(ch, m),
        decreases m,
    {
        let p = self.parent(m);
        if p == u {
            assert(self.in_subtree(m, m));
            m
        } else {
            let ch = self.lemma_subtree_child(u, p);
            assert(self.in_subtree(ch, m));
            ch
        }
    }

    /// A node whose path reaches into a subtree member, from outside and
    /// below the subtree's root, also reaches into the root itself.
    proof fn lemma_subtree_reaches(&self, c: int, cp: int, m: int)
        requires
            self.wf(),
            0 <= c < cp,
            1 <= cp < self.n(),
            m < self.n(),
            self.in_subtree(cp, m),
            is_prefix(self.node_path(c), self.node_path(m)),
        ensures
            is_prefix(self.node_path(c), self.node_path(cp)),
        decreases m,
    {
        if m == cp {
        } else {
            let p = self.parent(m);
            self.lemma_subtree_index(cp, m);
            assert(is_prefix(self.node_path(c), self.node_path(p)));
            self.lemma_subtree_reaches(c, cp, p);
        }
    }

    /// The index the resolve descent ends at for a request path: a deepest
    /// match, whose path every other matching node's path reaches into, and
    /// none of whose children match.
    fn get_node_ptr(&self, path: &CircuitPath) -> (r: usize)
        requires
            self.wf(),
        ensures
            r < self.nodes@.len(),
            is_prefix(self.node_path(r as int), path.segs()),
            forall|m: int|
                0 <= m < self.n() && is_prefix(#[trigger] self.node_path(m), path.segs())
                    ==> is_prefix(self.node_path(m), self.node_path(r as int)),
            forall|k: int|
                0 <= k < self.links@.len() && (#[trigger] self.links@[k]).from == r as int
                    ==> !is_prefix(self.node_path(k + 1), path.segs()),
    {
        let ghost q = path.segs();
        let mut current: usize = self.head_index;
        proof {
            assert(self.node_path(0) =~= Seq::<Seq<char>>::empty());
            assert forall|m: int|
                0 <= m < self.n() && is_prefix(#[trigger] self.node_path(m), q) implies is_prefix(
                self.node_path(m),
                self.node_path(current as int),
            ) || self.in_subtree(current as int, m) by {
                self.lemma_root_subtree(m);
            }
        }
        loop
            invariant
                self.wf(),
                current < self.nodes@.len(),
                is_prefix(self.node_path(current as int), q),
                q == path.segs(),
                forall|m: int|
                    0 <= m < self.n() && is_prefix(#[trigger] self.node_path(m), q) ==> is_prefix(
                        self.node_path(m),
                        self.node_path(current as int),
                    ) || self.in_subtree(current as int, m),
            decreases self.nodes@.len() - current,
        {
            let nlinks = self.links.len();
            let mut k: usize = 0;
            let mut found: usize = 0;
            let mut has_found: bool = false;
            while k < nlinks
                invariant_except_break
                    self.wf(),
                    q == path.segs(),
                    nlinks == self.links@.len(),
                    k <= nlinks,
                    current < self.nodes@.len(),
                    !has_found,
                    forall|j: int|
                        0 <= j < k && (#[trigger] self.links@[j]).from == current as int
                            ==> !is_prefix(self.node_path(j + 1), q),
                ensures
                    self.wf(),
                    q == path.segs(),
                    nlinks == self.links@.len(),
                    current < self.nodes@.len(),
                    has_found ==> 1 <= found < self.nodes@.len() && self.parent(found as int)
                        == current as int && is_prefix(self.node_path(found as int), q) && forall|
                        j: int,
                    |
                        0 <= j < found - 1 && (#[trigger] self.links@[j]).from == current as int
                            ==> !is_prefix(self.node_path(j + 1), q),
                    !has_found ==> forall|j: int|
                        0 <= j < self.links@.len() && (#[trigger] self.links@[j]).from
                            == current as int ==> !is_prefix(self.node_path(j + 1), q),
                decreases nlinks - k,
            {
                if self.links[k].from == current {
                    let child = self.links[k].to;
                    proof {
                        assert(self.links@[k as int].to == k + 1);
                    }
                    if self.nodes[child].matches(path) {
                        found = child;
                        has_found = true;
                        break ;
                    }
                }
                k = k + 1;
            }
            if has_found {
                proof {
                    let c = found as int;
                    let u = current as int;
                    assert(is_prefix(self.node_path(u), self.node_path(c)));
                    assert forall|m: int|
                        0 <= m < self.n() && is_prefix(#[trigger] self.node_path(m), q) implies
                    is_prefix(self.node_path(m), self.node_path(c)) || self.in_subtree(c, m) by {
                        if is_prefix(self.node_path(m), self.node_path(u)) {
                            lemma_prefix_trans(
                                self.node_path(m),
                                self.node_path(u),
                                self.node_path(c),
                            );
                        } else {
                            assert(self.in_subtree(u, m));
                            if m == u {
                                assert(is_prefix(self.node_path(m), self.node_path(c)));
                            } else {
                                let ch = self.lemma_subtree_child(u, m);
                                if ch == c {
                                    assert(self.in_subtree(c, m));
                                } else {
                                    self.lemma_ancestor_prefix(ch, m);
                                    lemma_prefix_trans(self.node_path(ch), self.node_path(m), q);
                                    // `ch` is a matching sibling, so the scan
                                    // found `c` at or before it.
                                    assert(self.links@[ch - 1].from == u);
                                    if ch < c {
                                        assert(!is_prefix(self.node_path(ch), q));
                                        assert(false);
                                    }
                                    assert(c < ch);
                                    assert(!is_prefix(self.node_path(c), self.node_path(ch)));
                                    self.lemma_node_path_wf(m);
                                    self.lemma_node_path_wf(c);
                                    self.lemma_node_path_wf(ch);
                                    lemma_prefix_comparable(
                                        self.node_path(m),
                                        self.node_path(c),
                                        q,
                                    );
                                    if is_prefix(self.node_path(c), self.node_path(m)) {
                                        self.lemma_subtree_reaches(c, ch, m);
                                        assert(false);
                                    }
                                    assert(is_prefix(self.node_path(m), self.node_path(c)));
                                }
                            }
                        }
                    }
                }
                current = found;
            } else {
                proof {
                    let u = current as int;
                    assert forall|m: int|
                        0 <= m < self.n() && is_prefix(#[trigger] self.node_path(m), q) implies
                    is_prefix(self.node_path(m), self.node_path(u)) by {
                        if !is_prefix(self.node_path(m), self.node_path(u)) {
                            assert(self.in_subtree(u, m));
                            assert(m != u);
                            let ch = self.lemma_subtree_child(u, m);
                            self.lemma_ancestor_prefix(ch, m);
                            lemma_prefix_trans(self.node_path(ch), self.node_path(m), q);
                            assert(self.links@[ch - 1].from == u);
                            assert(!is_prefix(self.node_path(ch), q));
                            assert(false);
                        }
                    }
                }
                return current;
            }
        }
    }

    /// The node the circuit resolves a request path to: the error sentinel
    /// when no rule matches, else a deepest matching rule node.
    pub fn get_node(&self, path: &CircuitPath) -> (r: &CircuitNode)
        requires
            self.wf(),
        ensures
            r.wf(),
            self.nodes@.contains(*r),
            is_prefix(r.spec_path_segs(), path.segs()),
            r.circuit_type == CircuitType::Routable || r.circuit_type == CircuitType::Error,
            r.circuit_type == CircuitType::Routable ==> r.rule is Some,
            forall|m: int|
                0 <= m < self.n() && is_prefix(#[trigger] self.node_path(m), path.segs())
                    ==> is_prefix(self.node_path(m), r.spec_path_segs()),
    {
        let ptr = self.get_node_ptr(path);
        let r = &self.nodes[ptr];
        proof {
            assert(self.nodes@[ptr as int] == *r);
        }
        r
    }

    /// Append a node, returning its index.
    fn add_node(&mut self, node: CircuitNode) -> (r: usize)
        ensures
            r == old(self).nodes@.len(),
            final(self).nodes@ == old(self).nodes@.push(node),
            final(self).links == old(self).links,
            final(self).head_index == old(self).head_index,
    {
        let index = self.nodes.len();
        self.nodes.push(node);
        index
    }

    /// Hang the node a rule defines under the deepest node matching its
    /// path, keeping the circuit invariant.
    fn add_rule(&mut self, rule: &ReboundRule)
        requires
            old(self).wf(),
            rule.wf(),
        ensures
            final(self).wf(),
            final(self).nodes@.len() == old(self).nodes@.len() + 1,
            forall|i: int|
                0 <= i < old(self).nodes@.len() ==> final(self).nodes@[i] == old(self).nodes@[i],
            (match final(self).nodes@[old(self).nodes@.len() as int].rule {
                Some(ru) => ru@ == rule@,
                None => false,
            }),
            final(self).node_path(old(self).nodes@.len() as int) == path_segments(rule.pattern@),
            final(self).nodes@[old(self).nodes@.len() as int].circuit_type
                == CircuitType::Routable,
    {
        let node = CircuitNode::from_rule(rule.duplicate());
        let from = match &node.path {
            Some(p) => self.get_node_ptr(p),
            None => {
                proof {
                    assert(false);
                }
                0
            },
        };
        let ghost oldc = *self;
        let ghost p = node.spec_path_segs();
        let to = self.add_node(node);
        self.links.push(CircuitLink { from, to });
        proof {
            let n1 = self.n();
            let old_n = oldc.n();
            assert(n1 == old_n + 1);
            assert(forall|i: int| 0 <= i < old_n ==> self.nodes@[i] == oldc.nodes@[i]);
            assert(forall|k: int| 0 <= k < old_n - 1 ==> self.links@[k] == oldc.links@[k]);
            assert(self.links@[old_n - 1].to == old_n);
            assert(self.links@[old_n - 1].from == from as int);
            assert forall|i: int| 0 <= i < n1 implies self.node_path(i) == oldc.node_path(i) || i
                == old_n by {}
            assert(forall|i: int| 0 <= i < old_n ==> self.node_path(i) == oldc.node_path(i));
            assert(forall|i: int| 1 <= i < old_n ==> self.parent(i) == oldc.parent(i));
            assert(self.node_path(old_n) == p);
            assert(self.parent(old_n) == from as int);
            // Structure.
            assert(self.wf_structure());
            // Parent paths.
            assert forall|i: int| 1 <= i < n1 implies is_prefix(
                self.node_path(#[trigger] self.parent(i)),
                self.node_path(i),
            ) by {
                if i < old_n {
                    assert(is_prefix(oldc.node_path(oldc.parent(i)), oldc.node_path(i)));
                } else {
                    assert(is_prefix(oldc.node_path(from as int), p));
                }
            }
            // Deepest parent.
            assert forall|i: int, m: int|
                #![trigger self.node_path(m), self.node_path(i)]
                1 <= i < n1 && 0 <= m < i && is_prefix(self.node_path(m), self.node_path(i)) implies
            is_prefix(self.node_path(m), self.node_path(self.parent(i))) by {
                if i < old_n {
                    assert(is_prefix(oldc.node_path(m), oldc.node_path(i)));
                    assert(is_prefix(oldc.node_path(m), oldc.node_path(oldc.parent(i))));
                } else {
                    assert(is_prefix(oldc.node_path(m), p));
                    assert(is_prefix(oldc.node_path(m), oldc.node_path(from as int)));
                }
            }
            // Sibling order.
            assert forall|i: int, m: int|
                #![trigger self.node_path(m), self.node_path(i)]
                1 <= m < i < n1 && self.parent(m) == self.parent(i) implies !is_prefix(
                self.node_path(m),
                self.node_path(i),
            ) by {
                if i < old_n {
                    assert(oldc.parent(m) == oldc.parent(i));
                    assert(!is_prefix(oldc.node_path(m), oldc.node_path(i)));
                } else {
                    assert(self.parent(i) == from as int);
                    assert(oldc.links@[m - 1].from == from as int);
                    assert(!is_prefix(oldc.node_path(m), p));
                }
            }
        }
    }
}

/// Builds the circuit for an ordered rules list.
pub struct CircuitBuilder {
    rules: Vec<ReboundRule>,
}

impl CircuitBuilder {
    /// The rules this builder will lay out, in declaration order.
    pub closed spec fn rules_view(&self) -> Seq<crate::conf::RuleView> {
        Seq::new(self.rules@.len() as nat, |i: int| self.rules@[i]@)
    }

    /// Every held rule is well formed.
    pub closed spec fn rules_wf(&self) -> bool {
        forall|i: int| 0 <= i < self.rules@.len() ==> (#[trigger] self.rules@[i]).wf()
    }

    /// A builder over the given rules, in their declaration order.
    pub fn new(rules: Vec<ReboundRule>) -> (r: CircuitBuilder)
        requires
            forall|i: int| 0 <= i < rules@.len() ==> (#[trigger] rules@[i]).wf(),
        ensures
            r.rules_view() == Seq::new(rules@.len() as nat, |i: int| rules@[i]@),
            r.rules_wf(),
    {
        let r = CircuitBuilder { rules };
        proof {
            assert(r.rules_view() =~= Seq::new(r.rules@.len() as nat, |i: int| r.rules@[i]@));
        }
        r
    }

    /// Lay the rules out over the error root: each rule node hangs under the
    /// deepest earlier node matching its path.
    pub fn build(&mut self) -> (c: Circuit)
        requires
            old(self).rules_wf(),
        ensures
            *final(self) == *old(self),
            c.wf(),
            c.nodes@.len() == old(self).rules_view().len() + 1,
            forall|i: int|
                1 <= i < c.nodes@.len() ==> (match (#[trigger] c.nodes@[i]).rule {
                    Some(ru) => ru@ == old(self).rules_view()[i - 1],
                    None => false,
                }) && c.node_path(i) == path_segments(old(self).rules_view()[i - 1].pattern)
                    && c.nodes@[i].circuit_type == CircuitType::Routable,
    {
        let mut circuit = Circuit { head_index: 0, nodes: Vec::new(), links: Vec::new() };
        circuit.nodes.push(CircuitNode::error());
        proof {
            assert(circuit.wf());
        }
        let n = self.rules.len();
        let mut i: usize = 0;
        while i < n
            invariant
                self == old(self),
                self.rules_wf(),
                n == self.rules@.len(),
                i <= n,
                circuit.wf(),
                circuit.nodes@.len() == i + 1,
                forall|j: int|
                    1 <= j < circuit.nodes@.len() ==> (match (#[trigger] circuit.nodes@[j]).rule {
                        Some(ru) => ru@ == self.rules@[j - 1]@,
                        None => false,
                    }) && circuit.node_path(j) == path_segments(self.rules@[j - 1].pattern@)
                        && circuit.nodes@[j].circuit_type == CircuitType::Routable,
            decreases n - i,
        {
            circuit.add_rule(&self.rules[i]);
            i = i + 1;
        }
        proof {
            assert forall|j: int| 1 <= j < circuit.nodes@.len() implies (match (
            #[trigger] circuit.nodes@[j]).rule {
                Some(ru) => ru@ == old(self).rules_view()[j - 1],
                None => false,
            }) && circuit.node_path(j) == path_segments(old(self).rules_view()[j - 1].pattern)
                && circuit.nodes@[j].circuit_type == CircuitType::Routable by {
                assert(old(self).rules_view()[j - 1] == self.rules@[j - 1]@);
            }
        }
        circuit
    }
}

/// With pairwise-distinct node paths there are no specificity ties: a match
/// at least as deep as the resolved node's is the resolved node itself.
pub proof fn lemma_most_specific_unique(c: &Circuit, q: Seq<Seq<char>>, r: int, m: int)
    requires
        c.wf(),
        0 <= r < c.n(),
        0 <= m < c.n(),
        forall|i: int, j: int|
            #![trigger c.node_path(i), c.node_path(j)]
            0 <= i < j < c.n() ==> c.node_path(i) != c.node_path(j),
        is_prefix(c.node_path(m), q),
        forall|x: int|
            0 <= x < c.n() && is_prefix(#[trigger] c.node_path(x), q) ==> is_prefix(
                c.node_path(x),
                c.node_path(r),
            ),
        c.node_path(m).len() >= c.node_path(r).len(),
    ensures
        m == r,
{
    assert(is_prefix(c.node_path(m), c.node_path(r)));
    c.lemma_node_path_wf(m);
    lemma_prefix_same_len_eq(c.node_path(m), c.node_path(r));
    if m != r {
        if m < r {
            assert(c.node_path(m) != c.node_path(r));
        } else {
            assert(c.node_path(r) != c.node_path(m));
        }
    }
}

} // verus!
