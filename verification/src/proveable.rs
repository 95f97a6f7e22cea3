//! The proof extractor: walks backwards from the root sequent through the
//! saturated frontier, recording every legal inference as a directed edge,
//! and re-validates that every sink of the resulting DAG is an identity
//! sequent.

use vstd::prelude::*;

use crate::coalesceable::{axiom_pair, frontier_wf, singleton_token};
use crate::expression::{
    Expr, Form, children_of, forms_of, lemma_forms_of, lemma_path_views, path_views,
};
use crate::order::{
    cmp_children, cmp_form, cmp_forms, contains_expr, lemma_cmp_forms_antisym, lemma_cmp_forms_eq,
    lemma_cmp_forms_trans, same_exprs, strictly_sorted,
};
use vstd::string::StringExecFns;

verus! {

broadcast use
    vstd::std_specs::vec::group_vec_axioms,
    vstd::seq::group_seq_axioms,
    vstd::set::group_set_axioms,
;

/// Whether a character sequence occurs somewhere inside another.
pub open spec fn has_substring(s: Seq<char>, sub: Seq<char>) -> bool {
    exists|off: int|
        0 <= off && off + sub.len() <= s.len() && #[trigger] s.subrange(off, off + sub.len())
            == sub
}

/// The report of an exhausted search: the one error the engine itself
/// raises, distinct from every verification report.
pub open spec fn not_coalesceable_msg() -> Seq<char> {
    "Not coalesceable"@
}

/// A legal inference from a parent sequent to a premise, as sets: weakening,
/// connective introduction, or contraction, tried in that order.
pub open spec fn is_edge_spec(s: Set<Form>, t: Set<Form>) -> bool {
    // weakening: a smaller sequent implies a larger one
    (t.subset_of(s) && s != t) || (exists|parent: Form, child: Form|
        s.difference(t) == set![parent] && t.difference(s) == set![child]
            && #[trigger] children_of(parent).contains(child))
    // contraction: the new member is an operand of a kept member
    || (s.difference(t).len() <= 1 && (exists|parent: Form, child: Form|
        t.difference(s) == set![child] && s.contains(parent) && #[trigger] children_of(
            parent,
        ).contains(child)))
}

/// The tokens of the recorded nodes, in insertion order.
pub open spec fn node_views(s: Seq<(Vec<Expr>, usize)>) -> Seq<Seq<Form>>
    decreases s,
{
    if s.len() == 0 {
        Seq::empty()
    } else {
        node_views(s.drop_last()).push(forms_of(s.last().0@))
    }
}

/// `node_views` maps the token view over its argument pointwise.
pub broadcast proof fn lemma_node_views(s: Seq<(Vec<Expr>, usize)>)
    ensures
        (#[trigger] node_views(s)).len() == s.len(),
        forall|i: int| 0 <= i < s.len() ==> node_views(s)[i] == forms_of(s[i].0@),
    decreases s.len(),
{
    if s.len() > 0 {
        lemma_node_views(s.drop_last());
    }
}

/// A proof DAG under construction: sequents keyed by insertion-ordered node
/// ids, and directed edges keyed likewise.
#[derive(Debug)]
pub struct Proof {
    root: Vec<Expr>,
    node_idx: usize,
    nodes: Vec<(Vec<Expr>, usize)>,
    edge_idx: usize,
    edges: Vec<((usize, usize), usize)>,
}

impl Proof {
    /// The internal invariant: node ids are their positions, tokens are
    /// ordered sets, no two nodes share a sequent, edges connect recorded
    /// nodes, no edge is repeated or reversed, and every edge is a legal
    /// inference.
    pub closed spec fn wf(&self) -> bool {
        &&& self.node_idx == self.nodes@.len()
        &&& forall|k: int|
            0 <= k < self.nodes@.len() ==> (#[trigger] self.nodes@[k]).1 == k
        &&& forall|k: int|
            0 <= k < self.nodes@.len() ==> strictly_sorted(#[trigger] node_views(self.nodes@)[k])
        &&& forall|k1: int, k2: int|
            0 <= k1 < k2 < self.nodes@.len() ==> node_views(self.nodes@)[k1] != node_views(
                self.nodes@,
            )[k2]
        &&& self.edge_idx == self.edges@.len()
        &&& forall|i: int|
            0 <= i < self.edges@.len() ==> (#[trigger] self.edges@[i]).1 == i
                && self.edges@[i].0.0 < self.nodes@.len() && self.edges@[i].0.1
                < self.nodes@.len() && self.edges@[i].0.0 != self.edges@[i].0.1
        &&& forall|i: int, j: int|
            0 <= i < self.edges@.len() && 0 <= j < self.edges@.len() && i != j ==> (
            #[trigger] self.edges@[i]).0 != (#[trigger] self.edges@[j]).0 && self.edges@[i].0 != (
            self.edges@[j].0.1,
            self.edges@[j].0.0,
            )
        &&& forall|i: int|
            0 <= i < self.edges@.len() ==> is_edge_spec(
                node_views(self.nodes@)[(#[trigger] self.edges@[i]).0.0 as int].to_set(),
                node_views(self.nodes@)[self.edges@[i].0.1 as int].to_set(),
            )
        &&& strictly_sorted(forms_of(self.root@))
    }

    /// The sequent of the root the extraction started from.
    pub closed spec fn root_token(&self) -> Seq<Form> {
        forms_of(self.root@)
    }

    /// The recorded sequents, in insertion order.
    pub closed spec fn tokens(&self) -> Seq<Seq<Form>> {
        node_views(self.nodes@)
    }

    /// The recorded directed edges over node ids.
    pub closed spec fn edge_set(&self) -> Set<(int, int)> {
        Set::new(
            |pr: (int, int)|
                exists|i: int|
                    0 <= i < self.edges@.len() && ((#[trigger] self.edges@[i]).0.0 as int, self.edges@[i].0.1 as int)
                        == pr,
        )
    }

    /// A directed path through the recorded edges.
    pub open spec fn is_path(es: Set<(int, int)>, p: Seq<int>, from: int, to: int) -> bool {
        p.len() >= 1 && p[0] == from && p.last() == to && (forall|i: int|
            0 <= i < p.len() - 1 ==> es.contains((#[trigger] p[i], p[i + 1])))
    }

    /// Whether a node can be reached from another along recorded edges.
    pub open spec fn reach(es: Set<(int, int)>, from: int, to: int) -> bool {
        exists|p: Seq<int>| Self::is_path(es, p, from, to)
    }

    /// Whether a node has no outgoing edge.
    pub open spec fn is_sink(es: Set<(int, int)>, id: int) -> bool {
        forall|j: int| !es.contains((id, j))
    }

    /// An axiom sequent: an atom together with its syntactic negation and
    /// nothing else.
    pub open spec fn ground_token(t: Seq<Form>) -> bool {
        t.len() >= 1 && t[0] is Atom && t == axiom_pair(t[0])
    }

    /// Every sink reachable from this node is an identity sequent.
    pub closed spec fn sinks_ground_from(&self, from: int) -> bool {
        forall|id: int|
            0 <= id < self.tokens().len() && #[trigger] Self::reach(self.edge_set(), from, id)
                && Self::is_sink(self.edge_set(), id) ==> Self::ground_token(self.tokens()[id])
    }

    /// The recorded sequents, node id by node id.
    pub fn node_list(&self) -> (r: Vec<Vec<Expr>>)
        ensures
            path_views(r@) == self.tokens(),
    {
        let mut out: Vec<Vec<Expr>> = Vec::new();
        let mut k: usize = 0;
        proof {
            lemma_node_views(self.nodes@);
        }
        while k < self.nodes.len()
            invariant
                k <= self.nodes@.len(),
                out.len() == k,
                forall|j: int|
                    0 <= j < k ==> forms_of(#[trigger] out[j]@) == node_views(self.nodes@)[j],
            decreases self.nodes@.len() - k,
        {
            proof {
                lemma_node_views(self.nodes@);
            }
            out.push(crate::expression::clone_exprs(&self.nodes[k].0));
            proof {
                lemma_forms_of(out[out.len() - 1]@);
                lemma_forms_of(self.nodes@[k as int].0@);
                assert(forms_of(out[k as int]@) =~= node_views(self.nodes@)[k as int]);
            }
            k = k + 1;
        }
        proof {
            lemma_path_views(out@);
            lemma_node_views(self.nodes@);
            assert(path_views(out@) =~= node_views(self.nodes@));
        }
        out
    }

    /// The recorded directed edges, as pairs of node ids.
    pub fn edge_list(&self) -> (r: Vec<(usize, usize)>)
        ensures
            forall|i: int|
                0 <= i < r@.len() ==> self.edge_set().contains(
                    ((#[trigger] r@[i]).0 as int, r@[i].1 as int),
                ),
            forall|pr: (int, int)|
                #[trigger] self.edge_set().contains(pr) ==> exists|i: int|
                    0 <= i < r@.len() && ((#[trigger] r@[i]).0 as int, r@[i].1 as int) == pr,
    {
        let mut out: Vec<(usize, usize)> = Vec::new();
        let mut k: usize = 0;
        while k < self.edges.len()
            invariant
                k <= self.edges@.len(),
                out.len() == k,
                forall|j: int| 0 <= j < k ==> (#[trigger] out@[j]) == self.edges@[j].0,
            decreases self.edges@.len() - k,
        {
            out.push(self.edges[k].0);
            k = k + 1;
        }
        proof {
            assert forall|i: int| 0 <= i < out@.len() implies self.edge_set().contains(
                ((#[trigger] out@[i]).0 as int, out@[i].1 as int),
            ) by {
                assert(((#[trigger] self.edges@[i]).0.0 as int, self.edges@[i].0.1 as int) == (
                out@[i].0 as int,
                out@[i].1 as int,
                ));
            }
            assert forall|pr: (int, int)| #[trigger] self.edge_set().contains(pr) implies exists|
                i: int,
            |
                0 <= i < out@.len() && ((#[trigger] out@[i]).0 as int, out@[i].1 as int) == pr by {
                let i = choose|i: int|
                    0 <= i < self.edges@.len() && ((#[trigger] self.edges@[i]).0.0 as int, self.edges@[i].0.1 as int)
                        == pr;
                assert(((#[trigger] out@[i]).0 as int, out@[i].1 as int) == pr);
            }
        }
        out
    }

    /// Edge legality: every recorded edge is a legal inference between the
    /// sequents of its endpoints.
    pub proof fn lemma_edges_legal(&self)
        requires
            self.wf(),
        ensures
            forall|a: int, b: int|
                #[trigger] self.edge_set().contains((a, b)) ==> 0 <= a < self.tokens().len() && 0
                    <= b < self.tokens().len() && is_edge_spec(
                    self.tokens()[a].to_set(),
                    self.tokens()[b].to_set(),
                ),
    {
        assert forall|a: int, b: int|
            #[trigger] self.edge_set().contains((a, b)) implies 0 <= a < self.tokens().len() && 0
            <= b < self.tokens().len() && is_edge_spec(
            self.tokens()[a].to_set(),
            self.tokens()[b].to_set(),
        ) by {
            let i = choose|i: int|
                0 <= i < self.edges@.len() && ((#[trigger] self.edges@[i]).0.0 as int, self.edges@[i].0.1 as int)
                    == (a, b);
            lemma_node_views(self.nodes@);
        }
    }

    /// A fresh proof for a root expression: the root's singleton sequent and
    /// no nodes or edges yet.
    pub fn new(root: &Expr) -> (r: Self)
        ensures
            r.wf(),
            r.root_token() == singleton_token(root@),
            r.tokens().len() == 0,
    {
        let mut rt: Vec<Expr> = Vec::new();
        rt.push(root.clone());
        let r = Proof { root: rt, node_idx: 0, nodes: Vec::new(), edge_idx: 0, edges: Vec::new() };
        proof {
            assert(forms_of(r.root@) =~= singleton_token(root@)) by {
                lemma_forms_of(r.root@);
            }
            assert(node_views(r.nodes@) =~= Seq::<Seq<Form>>::empty());
        }
        r
    }

    /// The node id of a sequent: the id it already has, or the next free id
    /// for a sequent not seen before, which is then recorded and nothing
    /// else changes.
    fn node(&mut self, t: &Vec<Expr>) -> (id: usize)
        requires
            old(self).wf(),
            strictly_sorted(forms_of(t@)),
        ensures
            final(self).wf(),
            id < final(self).tokens().len(),
            final(self).tokens()[id as int] == forms_of(t@),
            final(self).root_token() == old(self).root_token(),
            final(self).edges@ == old(self).edges@,
            old(self).tokens().contains(forms_of(t@)) ==> *final(self) == *old(self),
            !old(self).tokens().contains(forms_of(t@)) ==> final(self).tokens() == old(
                self,
            ).tokens().push(forms_of(t@)) && id == old(self).tokens().len(),
            old(self).tokens().len() <= final(self).tokens().len(),
            final(self).tokens().take(old(self).tokens().len() as int) == old(self).tokens(),
    {
        proof {
            lemma_node_views(self.nodes@);
        }
        let mut k: usize = 0;
        while k < self.nodes.len()
            invariant
                k <= self.nodes.len(),
                forall|j: int| 0 <= j < k ==> node_views(self.nodes@)[j] != forms_of(t@),
            decreases self.nodes.len() - k,
        {
            proof {
                lemma_node_views(self.nodes@);
            }
            if same_exprs(&self.nodes[k].0, t) {
                proof {
                    assert(node_views(self.nodes@)[k as int] == forms_of(t@));
                    assert(self.tokens().take(self.tokens().len() as int) =~= self.tokens());
                }
                let id = self.nodes[k].1;
                return id;
            }
            k = k + 1;
        }
        let id = self.nodes.len();
        let ghost oldnodes = self.nodes@;
        let entry = (crate::expression::clone_exprs(t), id);
        proof {
            lemma_forms_of(entry.0@);
            lemma_forms_of(t@);
            assert(forms_of(entry.0@) =~= forms_of(t@));
        }
        self.nodes.push(entry);
        self.node_idx = self.nodes.len();
        proof {
            lemma_node_views(self.nodes@);
            lemma_node_views(oldnodes);
            assert(node_views(self.nodes@) =~= node_views(oldnodes).push(forms_of(t@)));
            assert(self.tokens().take(oldnodes.len() as int) =~= node_views(oldnodes));
            assert forall|k1: int, k2: int|
                0 <= k1 < k2 < self.nodes@.len() implies node_views(self.nodes@)[k1] != node_views(
                self.nodes@,
            )[k2] by {
                if k2 == self.nodes@.len() - 1 {
                    assert(node_views(self.nodes@)[k1] == node_views(oldnodes)[k1]);
                }
            }
        }
        id
    }

    /// Records a directed edge between two nodes unless it, or its reverse,
    /// is already recorded; answers the fresh edge id if one was added.
    fn edge(&mut self, a: usize, b: usize) -> (r: Option<usize>)
        requires
            old(self).wf(),
            a < old(self).tokens().len(),
            b < old(self).tokens().len(),
            a != b,
            is_edge_spec(
                old(self).tokens()[a as int].to_set(),
                old(self).tokens()[b as int].to_set(),
            ),
        ensures
            final(self).wf(),
            final(self).tokens() == old(self).tokens(),
            final(self).root_token() == old(self).root_token(),
            r is Some ==> final(self).edge_set() == old(self).edge_set().insert(
                (a as int, b as int),
            ),
            r is None ==> *final(self) == *old(self),
            r is Some <==> !old(self).edge_set().contains((a as int, b as int)) && !old(
                self,
            ).edge_set().contains((b as int, a as int)),
    {
        let mut i: usize = 0;
        while i < self.edges.len()
            invariant
                i <= self.edges.len(),
                forall|j: int|
                    0 <= j < i ==> (#[trigger] self.edges@[j]).0 != (a, b) && self.edges@[j].0 != (
                    b,
                    a,
                    ),
            decreases self.edges.len() - i,
        {
            let pr = self.edges[i].0;
            if pr.0 == a && pr.1 == b {
                proof {
                    assert(((#[trigger] self.edges@[i as int]).0.0 as int, self.edges@[i as int].0.1 as int)
                        == (a as int, b as int));
                    assert(self.edge_set().contains((a as int, b as int)));
                }
                return None;
            }
            if pr.0 == b && pr.1 == a {
                proof {
                    assert(((#[trigger] self.edges@[i as int]).0.0 as int, self.edges@[i as int].0.1 as int)
                        == (b as int, a as int));
                    assert(self.edge_set().contains((b as int, a as int)));
                }
                return None;
            }
            i = i + 1;
        }
        proof {
            // the scan covered every recorded edge: neither direction exists
            if self.edge_set().contains((a as int, b as int)) {
                let j = choose|j: int|
                    0 <= j < self.edges@.len() && ((#[trigger] self.edges@[j]).0.0 as int, self.edges@[j].0.1 as int)
                        == (a as int, b as int);
            }
            if self.edge_set().contains((b as int, a as int)) {
                let j = choose|j: int|
                    0 <= j < self.edges@.len() && ((#[trigger] self.edges@[j]).0.0 as int, self.edges@[j].0.1 as int)
                        == (b as int, a as int);
            }
        }
        let id = self.edges.len();
        let ghost oldedges = self.edges@;
        self.edges.push(((a, b), id));
        self.edge_idx = self.edges.len();
        proof {
            assert(forall|j: int| 0 <= j < oldedges.len() ==> #[trigger] self.edges@[j] == oldedges[j]);
            assert(self.edges@.last() == ((a, b), id));
            assert forall|j1: int, j2: int|
                0 <= j1 < self.edges@.len() && 0 <= j2 < self.edges@.len() && j1 != j2 implies (
            #[trigger] self.edges@[j1]).0 != (#[trigger] self.edges@[j2]).0 && self.edges@[j1].0
                != (self.edges@[j2].0.1, self.edges@[j2].0.0) by {
                if j1 < self.edges@.len() - 1 && j2 < self.edges@.len() - 1 {
                    assert(self.edges@[j1] == oldedges[j1] && self.edges@[j2] == oldedges[j2]);
                }
            }
            assert(self.edge_set() =~= Set::new(
                |pr: (int, int)|
                    exists|i2: int|
                        0 <= i2 < oldedges.len() && ((#[trigger] oldedges[i2]).0.0 as int, oldedges[i2].0.1 as int)
                            == pr,
            ).insert((a as int, b as int))) by {
                assert forall|pr: (int, int)| #[trigger] self.edge_set().contains(pr) implies (
                exists|i2: int|
                    0 <= i2 < oldedges.len() && ((#[trigger] oldedges[i2]).0.0 as int, oldedges[i2].0.1 as int)
                        == pr) || pr == (a as int, b as int) by {
                    let i2 = choose|i2: int|
                        0 <= i2 < self.edges@.len() && ((#[trigger] self.edges@[i2]).0.0 as int, self.edges@[i2].0.1 as int)
                            == pr;
                    if i2 < self.edges@.len() - 1 {
                        assert(oldedges[i2] == self.edges@[i2]);
                    }
                }
                assert forall|pr: (int, int)|
                    (exists|i2: int|
                        0 <= i2 < oldedges.len() && ((#[trigger] oldedges[i2]).0.0 as int, oldedges[i2].0.1 as int)
                            == pr) || pr == (a as int, b as int) implies #[trigger] self.edge_set().contains(
                    pr,
                ) by {
                    if pr == (a as int, b as int) {
                        assert(((#[trigger] self.edges@[self.edges@.len() - 1]).0.0 as int, self.edges@[self.edges@.len() - 1].0.1 as int)
                            == pr);
                    } else {
                        let i2 = choose|i2: int|
                            0 <= i2 < oldedges.len() && ((#[trigger] oldedges[i2]).0.0 as int, oldedges[i2].0.1 as int)
                                == pr;
                        assert(self.edges@[i2] == oldedges[i2]);
                    }
                }
            }
        }
        proof {
            lemma_node_views(self.nodes@);
            assert(self.edge_idx == self.edges@.len());
            assert(forall|i: int|
                0 <= i < self.edges@.len() ==> (#[trigger] self.edges@[i]).1 == i);
            assert(forall|i: int|
                0 <= i < self.edges@.len() ==> (#[trigger] self.edges@[i]).0.0
                    < self.nodes@.len() && self.edges@[i].0.1 < self.nodes@.len()
                    && self.edges@[i].0.0 != self.edges@[i].0.1);
            assert forall|i: int| 0 <= i < self.edges@.len() implies is_edge_spec(
                node_views(self.nodes@)[(#[trigger] self.edges@[i]).0.0 as int].to_set(),
                node_views(self.nodes@)[self.edges@[i].0.1 as int].to_set(),
            ) by {
                if i < self.edges@.len() - 1 {
                    assert(self.edges@[i] == oldedges[i]);
                }
            }
        }
        Some(id)
    }

    /// Whether one sequent follows from another by a single legal inference:
    /// weakening, connective introduction, or contraction, tried in that
    /// order.
    pub fn is_edge(start: &Vec<Expr>, end: &Vec<Expr>) -> (r: bool)
        requires
            strictly_sorted(forms_of(start@)),
            strictly_sorted(forms_of(end@)),
        ensures
            r == is_edge_spec(forms_of(start@).to_set(), forms_of(end@).to_set()),
    {
        let ghost ss = forms_of(start@).to_set();
        let ghost ts = forms_of(end@).to_set();
        let sup = token_subset(end, start);
        let sub = token_subset(start, end);
        if sup && !sub {
            proof {
                let y = choose|y: Form|
                    forms_of(start@).contains(y) && !forms_of(end@).contains(y);
                assert(ss.contains(y) && !ts.contains(y));
                assert(ss != ts);
            }
            return true;
        }
        proof {
            if sup && sub {
                assert(ss =~= ts);
            }
        }
        let pd = token_diff(start, end);
        let cd = token_diff(end, start);
        proof {
            crate::coalesceable::lemma_sorted_set_len(forms_of(pd@));
            crate::coalesceable::lemma_sorted_set_len(forms_of(cd@));
            lemma_forms_of(pd@);
            lemma_forms_of(cd@);
            assert(forms_of(pd@).to_set() =~= ss.difference(ts));
            assert(forms_of(cd@).to_set() =~= ts.difference(ss));
        }
        if pd.len() == 1 && cd.len() == 1 {
            let parent = &pd[0];
            let child = &cd[0];
            proof {
                assert(forms_of(pd@).contains(parent@)) by {
                    assert(forms_of(pd@)[0] == parent@);
                }
                assert(forms_of(cd@).contains(child@)) by {
                    assert(forms_of(cd@)[0] == child@);
                }
                assert(ss.difference(ts) =~= set![parent@]) by {
                    assert forall|y: Form| ss.difference(ts).contains(y) implies y == parent@ by {
                        let j = choose|j: int| 0 <= j < forms_of(pd@).len() && forms_of(pd@)[j] == y;
                    }
                }
                assert(ts.difference(ss) =~= set![child@]) by {
                    assert forall|y: Form| ts.difference(ss).contains(y) implies y == child@ by {
                        let j = choose|j: int| 0 <= j < forms_of(cd@).len() && forms_of(cd@)[j] == y;
                    }
                }
            }
            let cvec = parent.children();
            if contains_expr(&cvec, child) {
                proof {
                    lemma_forms_of(cvec@);
                    assert(children_of(parent@).contains(child@));
                }
                return true;
            }
        }
        if pd.len() <= 1 && cd.len() == 1 {
            let child = &cd[0];
            proof {
                assert(forms_of(cd@)[0] == child@);
                assert(ts.difference(ss) =~= set![child@]) by {
                    assert forall|y: Form| ts.difference(ss).contains(y) implies y == child@ by {
                        let j = choose|j: int| 0 <= j < forms_of(cd@).len() && forms_of(cd@)[j] == y;
                    }
                }
            }
            let mut i: usize = 0;
            while i < start.len()
                invariant
                    i <= start.len(),
                    forall|k: int|
                        0 <= k < i ==> !children_of(#[trigger] forms_of(start@)[k]).contains(
                            child@,
                        ),
                decreases start.len() - i,
            {
                proof {
                    lemma_forms_of(start@);
                }
                let cvec = start[i].children();
                if contains_expr(&cvec, child) {
                    proof {
                        lemma_forms_of(cvec@);
                        assert(forms_of(start@).contains(forms_of(start@)[i as int]));
                        assert(ss.contains(forms_of(start@)[i as int]));
                        assert(children_of(forms_of(start@)[i as int]).contains(child@));
                    }
                    return true;
                }
                i = i + 1;
            }
            proof {
                lemma_forms_of(start@);
                // no kept member has the new one among its operands
                assert forall|parent: Form, child2: Form|
                    !(ts.difference(ss) == set![child2] && ss.contains(parent)
                        && #[trigger] children_of(parent).contains(child2)) by {
                    if ts.difference(ss) == set![child2] && ss.contains(parent) && children_of(
                        parent,
                    ).contains(child2) {
                        assert(set![child2].contains(child2));
                        assert(ts.difference(ss).contains(child2));
                        assert(child2 == child@);
                        assert(forms_of(start@).contains(parent));
                        let k = choose|k: int|
                            0 <= k < forms_of(start@).len() && forms_of(start@)[k] == parent;
                        assert(!children_of(forms_of(start@)[k]).contains(child@));
                        assert(false);
                    }
                }
            }
        }
        proof {
            // none of the three rules applies
            if is_edge_spec(ss, ts) {
                if ts.subset_of(ss) && ss != ts {
                    assert forall|y: Form|
                        forms_of(end@).contains(y) implies #[trigger] forms_of(start@).contains(
                        y,
                    ) by {
                        assert(ts.contains(y));
                    }
                    assert(sup);
                    assert(sub);
                    assert(ss =~= ts) by {
                        assert forall|y: Form| ss.contains(y) implies ts.contains(y) by {
                            assert(forms_of(start@).contains(y));
                            assert(forms_of(end@).contains(y));
                        }
                    }
                    assert(false);
                }
                if exists|parent: Form, child: Form|
                    ss.difference(ts) == set![parent] && ts.difference(ss) == set![child]
                        && #[trigger] children_of(parent).contains(child) {
                    let (parent, child) = choose|parent: Form, child: Form|
                        ss.difference(ts) == set![parent] && ts.difference(ss) == set![child]
                            && #[trigger] children_of(parent).contains(child);
                    assert(set![parent].contains(parent) && set![child].contains(child));
                    assert(ss.difference(ts).len() == 1) by {
                        assert(ss.difference(ts) =~= Set::<Form>::empty().insert(parent));
                    }
                    assert(ts.difference(ss).len() == 1) by {
                        assert(ts.difference(ss) =~= Set::<Form>::empty().insert(child));
                    }
                    assert(pd@.len() == 1 && cd@.len() == 1);
                    assert(forms_of(pd@)[0] == parent) by {
                        assert(forms_of(pd@).contains(forms_of(pd@)[0]));
                        assert(ss.difference(ts).contains(forms_of(pd@)[0]));
                    }
                    assert(forms_of(cd@)[0] == child) by {
                        assert(forms_of(cd@).contains(forms_of(cd@)[0]));
                        assert(ts.difference(ss).contains(forms_of(cd@)[0]));
                    }
                }
                if ss.difference(ts).len() <= 1 && (exists|parent: Form, child: Form|
                    ts.difference(ss) == set![child] && ss.contains(parent)
                        && #[trigger] children_of(parent).contains(child)) {
                    let (parent, child) = choose|parent: Form, child: Form|
                        ts.difference(ss) == set![child] && ss.contains(parent)
                            && #[trigger] children_of(parent).contains(child);
                    assert(set![child].contains(child));
                    assert(ts.difference(ss).len() == 1) by {
                        assert(ts.difference(ss) =~= Set::<Form>::empty().insert(child));
                    }
                    assert(pd@.len() <= 1 && cd@.len() == 1);
                }
            }
        }
        false
    }
}

impl Proof {
    /// Walks backwards from the root sequent through the saturated frontier,
    /// recording every new legal inference and recursing along it. The path
    /// of sequents already on the walk gates recursion, so the graph stays
    /// acyclic while shared structure is preserved.
    pub fn backtrack(&mut self, tokens: &Vec<Vec<Expr>>)
        requires
            old(self).wf(),
            frontier_wf(path_views(tokens@)),
        ensures
            final(self).wf(),
            final(self).root_token() == old(self).root_token(),
            old(self).tokens().len() <= final(self).tokens().len(),
            final(self).tokens().take(old(self).tokens().len() as int) == old(self).tokens(),
            forall|pr: (int, int)|
                old(self).edge_set().contains(pr) ==> final(self).edge_set().contains(pr),
            forall|id: int|
                old(self).tokens().len() <= id < final(self).tokens().len()
                    ==> (#[trigger] final(self).tokens()[id]) == old(self).root_token()
                    || path_views(tokens@).to_set().contains(final(self).tokens()[id]),
            (exists|t: Seq<Form>|
                path_views(tokens@).to_set().contains(t) && is_edge_spec(
                    old(self).root_token().to_set(),
                    t.to_set(),
                ) && t != old(self).root_token()) ==> final(self).edge_set() != Set::<(
                int,
                int,
            )>::empty(),
            forall|t: Seq<Form>|
                #[trigger] path_views(tokens@).to_set().contains(t) && t != old(self).root_token()
                    && is_edge_spec(old(self).root_token().to_set(), t.to_set()) ==> exists|
                    i: int,
                    j: int,
                |
                    #![trigger final(self).tokens()[i], final(self).tokens()[j]]
                    0 <= i < final(self).tokens().len() && 0 <= j < final(self).tokens().len()
                        && final(self).tokens()[i] == old(self).root_token()
                        && final(self).tokens()[j] == t && (final(self).edge_set().contains(
                        (i, j),
                    ) || final(self).edge_set().contains((j, i))),
    {
        let ordered = sort_tokens(tokens);
        let first = crate::expression::clone_exprs(&self.root);
        let mut path: Vec<Vec<Expr>> = Vec::new();
        path.push(first);
        proof {
            lemma_path_views(path@);
            lemma_forms_of(path@[0]@);
            lemma_forms_of(self.root@);
            assert(path_views(path@).len() == 1);
            assert(path_views(path@)[0] == forms_of(self.root@));
            assert forall|q: Seq<Form>| #[trigger] path_views(path@).contains(q) implies q
                == self.root_token() by {
                let j = choose|j: int| 0 <= j < path_views(path@).len() && path_views(path@)[j] == q;
            }
            assert(path_views(path@).contains(self.root_token())) by {
                assert(path_views(path@)[0] == self.root_token());
            }
        }
        let ghost pv = path_views(path@);
        let ghost root_tok = self.root_token();
        self.backtrack_dag(path, &ordered);
        proof {
            // the sorted frontier holds the same sequents as the given one
            assert forall|id: int|
                old(self).tokens().len() <= id < self.tokens().len() implies #[trigger] self.tokens()[id]
                == root_tok || path_views(tokens@).to_set().contains(self.tokens()[id]) by {
                if pv.contains(self.tokens()[id]) {
                } else {
                    assert(path_views(ordered@).contains(self.tokens()[id]));
                }
            }
            if exists|t: Seq<Form>|
                path_views(tokens@).to_set().contains(t) && is_edge_spec(
                    root_tok.to_set(),
                    t.to_set(),
                ) && t != root_tok {
                let t = choose|t: Seq<Form>|
                    path_views(tokens@).to_set().contains(t) && is_edge_spec(
                        root_tok.to_set(),
                        t.to_set(),
                    ) && t != root_tok;
                assert(path_views(ordered@).contains(t));
                assert(!pv.contains(t));
                assert(pv.last() == root_tok);
            }
            assert forall|t: Seq<Form>|
                #[trigger] path_views(tokens@).to_set().contains(t) && t != root_tok
                    && is_edge_spec(root_tok.to_set(), t.to_set()) implies exists|i: int, j: int|
                #![trigger self.tokens()[i], self.tokens()[j]]
                0 <= i < self.tokens().len() && 0 <= j < self.tokens().len() && self.tokens()[i]
                    == root_tok && self.tokens()[j] == t && (self.edge_set().contains((i, j))
                    || self.edge_set().contains((j, i))) by {
                assert(path_views(ordered@).contains(t));
                let k = choose|k: int|
                    0 <= k < path_views(ordered@).len() && path_views(ordered@)[k] == t;
                assert(!pv.contains(t));
                assert(pv.last() == root_tok);
                assert(!pv.contains(path_views(ordered@)[k]));
            }
        }
    }

    /// One step of the backward walk: tries every frontier sequent not yet
    /// on the path as the next premise of the path's last sequent. Every new
    /// node is drawn from the path or the frontier, nothing already recorded
    /// is lost, and whenever a legal premise off the path exists, the walk
    /// records at least one edge.
    fn backtrack_dag(&mut self, path: Vec<Vec<Expr>>, tokens: &Vec<Vec<Expr>>)
        requires
            old(self).wf(),
            frontier_wf(path_views(tokens@)),
            path@.len() >= 1,
            forall|k: int| 0 <= k < path@.len() ==> strictly_sorted(#[trigger] path_views(path@)[k]),
            forall|k1: int, k2: int|
                0 <= k1 < k2 < path@.len() ==> path_views(path@)[k1] != path_views(path@)[k2],
            forall|k: int|
                1 <= k < path@.len() ==> path_views(tokens@).contains(
                    #[trigger] path_views(path@)[k],
                ),
        ensures
            final(self).wf(),
            final(self).root_token() == old(self).root_token(),
            old(self).tokens().len() <= final(self).tokens().len(),
            final(self).tokens().take(old(self).tokens().len() as int) == old(self).tokens(),
            forall|pr: (int, int)|
                old(self).edge_set().contains(pr) ==> final(self).edge_set().contains(pr),
            forall|id: int|
                old(self).tokens().len() <= id < final(self).tokens().len() ==> path_views(
                    path@,
                ).contains(#[trigger] final(self).tokens()[id]) || path_views(tokens@).contains(
                    final(self).tokens()[id],
                ),
            (exists|t: Seq<Form>|
                path_views(tokens@).contains(t) && !path_views(path@).contains(t) && is_edge_spec(
                    path_views(path@).last().to_set(),
                    t.to_set(),
                )) ==> final(self).edge_set() != Set::<(int, int)>::empty(),
            forall|k: int|
                0 <= k < path_views(tokens@).len() && !path_views(path@).contains(
                    #[trigger] path_views(tokens@)[k],
                ) && is_edge_spec(
                    path_views(path@).last().to_set(),
                    path_views(tokens@)[k].to_set(),
                ) ==> exists|i: int, j: int|
                    #![trigger final(self).tokens()[i], final(self).tokens()[j]]
                    0 <= i < final(self).tokens().len() && 0 <= j < final(self).tokens().len()
                        && final(self).tokens()[i] == path_views(path@).last()
                        && final(self).tokens()[j] == path_views(tokens@)[k]
                        && (final(self).edge_set().contains(
                        (i, j),
                    ) || final(self).edge_set().contains((j, i))),
        decreases tokens@.len() + 1 - path@.len(),
    {
        proof {
            lemma_path_views(path@);
            lemma_path_views(tokens@);
            lemma_path_bound(path_views(path@), path_views(tokens@));
        }
        let ghost base_len = self.tokens().len();
        let current_ix = path.len() - 1;
        let mut ti: usize = 0;
        while ti < tokens.len()
            invariant
                ti <= tokens.len(),
                self.wf(),
                self.root_token() == old(self).root_token(),
                current_ix == path@.len() - 1,
                base_len == old(self).tokens().len(),
                base_len <= self.tokens().len(),
                self.tokens().take(base_len as int) == old(self).tokens(),
                forall|pr: (int, int)|
                    old(self).edge_set().contains(pr) ==> self.edge_set().contains(pr),
                forall|id: int|
                    base_len <= id < self.tokens().len() ==> path_views(path@).contains(
                        #[trigger] self.tokens()[id],
                    ) || path_views(tokens@).contains(self.tokens()[id]),
                (exists|k: int|
                    0 <= k < ti && !path_views(path@).contains(
                        #[trigger] path_views(tokens@)[k],
                    ) && is_edge_spec(
                        path_views(path@).last().to_set(),
                        path_views(tokens@)[k].to_set(),
                    )) ==> self.edge_set() != Set::<(int, int)>::empty(),
                forall|k: int|
                    0 <= k < ti && !path_views(path@).contains(
                        #[trigger] path_views(tokens@)[k],
                    ) && is_edge_spec(
                        path_views(path@).last().to_set(),
                        path_views(tokens@)[k].to_set(),
                    ) ==> exists|i: int, j: int|
                        #![trigger self.tokens()[i], self.tokens()[j]]
                        0 <= i < self.tokens().len() && 0 <= j < self.tokens().len()
                            && self.tokens()[i] == path_views(path@).last() && self.tokens()[j]
                            == path_views(tokens@)[k] && (self.edge_set().contains((i, j))
                            || self.edge_set().contains((j, i))),
            decreases tokens.len() - ti,
        {
            proof {
                lemma_path_views(path@);
                lemma_path_views(tokens@);
            }
            let ghost it_tokens = self.tokens();
            let ghost it_edges = self.edge_set();
            let next = &tokens[ti];
            let on_path = path_contains(&path, next);
            if !on_path {
                proof {
                    assert(path_views(path@)[current_ix as int] == forms_of(
                        path@[current_ix as int]@,
                    ));
                    assert(strictly_sorted(forms_of(path@[current_ix as int]@)));
                    assert(path_views(tokens@)[ti as int] == forms_of(tokens@[ti as int]@));
                    assert(strictly_sorted(forms_of(tokens@[ti as int]@)));
                }
                let legal = Self::is_edge(&path[current_ix], next);
                if legal {
                    let ghost before_a = self.tokens();
                    let a = self.node(&path[current_ix]);
                    proof {
                        lemma_take_compose(self.tokens(), before_a, old(self).tokens());
                        assert(path_views(path@).contains(path_views(path@)[current_ix as int]));
                    }
                    let ghost before_b = self.tokens();
                    let b = self.node(next);
                    proof {
                        lemma_take_compose(self.tokens(), before_b, old(self).tokens());
                        assert(path_views(tokens@).contains(path_views(tokens@)[ti as int]));
                        // distinct sequents get distinct node ids
                        assert(self.tokens()[a as int] != self.tokens()[b as int]) by {
                            assert(forms_of(next@) == path_views(tokens@)[ti as int]);
                            if forms_of(path@[current_ix as int]@) == forms_of(next@) {
                                assert(path_views(path@).contains(path_views(tokens@)[ti as int]));
                            }
                        }
                        assert(a != b);
                    }
                    let added = self.edge(a, b);
                    proof {
                        if added is Some {
                            assert(self.edge_set().contains((a as int, b as int)));
                            assert(self.edge_set() != Set::<(int, int)>::empty());
                        } else {
                            assert(it_edges.contains((a as int, b as int)) || it_edges.contains(
                                (b as int, a as int),
                            ));
                            assert(self.edge_set() != Set::<(int, int)>::empty()) by {
                                if it_edges.contains((a as int, b as int)) {
                                    assert(self.edge_set().contains((a as int, b as int)));
                                } else {
                                    assert(self.edge_set().contains((b as int, a as int)));
                                }
                            }
                        }
                    }
                    match added {
                        Some(_) => {
                            let mut next_path = clone_path(&path);
                            let pushed = crate::expression::clone_exprs(next);
                            proof {
                                lemma_forms_of(pushed@);
                                lemma_forms_of(next@);
                                assert(forms_of(pushed@) =~= forms_of(next@));
                            }
                            let ghost np0 = next_path@;
                            next_path.push(pushed);
                            proof {
                                lemma_path_views(next_path@);
                                lemma_path_views(np0);
                                lemma_path_views(path@);
                                assert(path_views(next_path@) =~= path_views(path@).push(
                                    forms_of(next@),
                                ));
                                broadcast use vstd::seq_lib::lemma_seq_contains_after_push;

                                assert forall|k1: int, k2: int|
                                    0 <= k1 < k2 < next_path@.len() implies path_views(
                                    next_path@,
                                )[k1] != path_views(next_path@)[k2] by {
                                    if k2 == next_path@.len() - 1 {
                                        if k1 >= 1 {
                                            assert(path_views(path@)[k1] == path_views(
                                                next_path@,
                                            )[k1]);
                                        } else {
                                            assert(path_views(next_path@)[0] == path_views(
                                                path@,
                                            )[0]);
                                        }
                                        assert(path_views(next_path@)[k2] == forms_of(next@));
                                        if path_views(next_path@)[k1] == forms_of(next@) {
                                            assert(path_views(path@).contains(forms_of(next@)));
                                            let j = choose|j: int|
                                                0 <= j < path@.len() && path_views(path@)[j]
                                                    == forms_of(next@);
                                            assert(forms_of(next@) == path_views(
                                                tokens@,
                                            )[ti as int]);
                                        }
                                    } else {
                                        assert(path_views(next_path@)[k1] == path_views(
                                            path@,
                                        )[k1] && path_views(next_path@)[k2] == path_views(
                                            path@,
                                        )[k2]);
                                    }
                                }
                                assert(forms_of(next@) == path_views(tokens@)[ti as int]);
                                assert(path_views(tokens@).contains(forms_of(next@)));
                                lemma_path_bound(path_views(next_path@), path_views(tokens@));
                            }
                            let ghost before_rec = self.tokens();
                            let ghost before_rec_edges = self.edge_set();
                            self.backtrack_dag(next_path, tokens);
                            proof {
                                broadcast use vstd::seq_lib::lemma_seq_contains_after_push;

                                lemma_take_compose(self.tokens(), before_rec, old(self).tokens());
                                // nodes the recursion added come from the
                                // extended path or the frontier
                                assert forall|id: int|
                                    base_len <= id < self.tokens().len() implies path_views(
                                    path@,
                                ).contains(#[trigger] self.tokens()[id]) || path_views(
                                    tokens@,
                                ).contains(self.tokens()[id]) by {
                                    if id < before_rec.len() {
                                        assert(self.tokens()[id] == self.tokens().take(
                                            before_rec.len() as int,
                                        )[id]);
                                        assert(self.tokens()[id] == before_rec[id]);
                                    } else {
                                        assert(path_views(next_path@).contains(
                                            self.tokens()[id],
                                        ) || path_views(tokens@).contains(self.tokens()[id]));
                                        if path_views(next_path@).contains(self.tokens()[id]) {
                                            if self.tokens()[id] == forms_of(next@) {
                                                assert(path_views(tokens@).contains(
                                                    self.tokens()[id],
                                                ));
                                            }
                                        }
                                    }
                                }
                                // nothing recorded is lost
                                assert forall|pr: (int, int)| it_edges.contains(pr) implies
                                self.edge_set().contains(pr) by {
                                    assert(before_rec_edges.contains(pr));
                                }
                                assert(self.edge_set() != Set::<(int, int)>::empty()) by {
                                    assert(before_rec_edges.contains((a as int, b as int))
                                        || before_rec_edges.contains((b as int, a as int)) || (
                                    added is Some && before_rec_edges.contains(
                                        (a as int, b as int),
                                    )));
                                    if before_rec_edges.contains((a as int, b as int)) {
                                        assert(self.edge_set().contains((a as int, b as int)));
                                    } else {
                                        assert(self.edge_set().contains((b as int, a as int)));
                                    }
                                }
                            }
                        },
                        None => {},
                    }
                }
            }
            proof {
                assert forall|k: int|
                    0 <= k < ti + 1 && !path_views(path@).contains(
                        #[trigger] path_views(tokens@)[k],
                    ) && is_edge_spec(
                        path_views(path@).last().to_set(),
                        path_views(tokens@)[k].to_set(),
                    ) implies self.edge_set() != Set::<(int, int)>::empty() by {
                    if k < ti {
                        assert(it_edges != Set::<(int, int)>::empty());
                        assert(exists|pr: (int, int)| it_edges.contains(pr)) by {
                            if forall|pr: (int, int)| !it_edges.contains(pr) {
                                assert(it_edges =~= Set::<(int, int)>::empty());
                            }
                        }
                        let pr = choose|pr: (int, int)| it_edges.contains(pr);
                        assert(self.edge_set().contains(pr));
                    }
                }
            }
            ti = ti + 1;
        }
    }
}

/// Prefix preservation composes: if the newest map preserves the middle one
/// as a prefix and the middle preserves the oldest, the newest preserves the
/// oldest.
proof fn lemma_take_compose(c: Seq<Seq<Form>>, b: Seq<Seq<Form>>, a: Seq<Seq<Form>>)
    requires
        a.len() <= b.len() <= c.len(),
        b.take(a.len() as int) == a,
        c.take(b.len() as int) == b,
    ensures
        c.take(a.len() as int) == a,
{
    assert(c.take(a.len() as int) =~= a) by {
        assert forall|j: int| 0 <= j < a.len() implies c.take(a.len() as int)[j] == a[j] by {
            assert(c.take(b.len() as int)[j] == b[j]);
            assert(b.take(a.len() as int)[j] == a[j]);
        }
    }
}

/// The visiting order of the backward walk: shorter sequents first, ties
/// split lexicographically. Premises shrink towards the identity sequents,
/// so the walk reaches them before wider weakenings.
pub open spec fn cmp_tokens(a: Seq<Form>, b: Seq<Form>) -> int {
    if a.len() < b.len() {
        -1
    } else if a.len() > b.len() {
        1
    } else {
        cmp_forms(a, b)
    }
}

/// Sequents that compare as equal are equal, and the comparison is reflexive.
proof fn lemma_cmp_tokens_eq(a: Seq<Form>, b: Seq<Form>)
    ensures
        cmp_tokens(a, b) == 0 ==> a == b,
        cmp_tokens(a, a) == 0,
{
    lemma_cmp_forms_eq(a, b);
    lemma_cmp_forms_eq(a, a);
}

/// Swapping the arguments negates the comparison of sequents.
proof fn lemma_cmp_tokens_antisym(a: Seq<Form>, b: Seq<Form>)
    ensures
        cmp_tokens(b, a) == -cmp_tokens(a, b),
{
    lemma_cmp_forms_antisym(a, b);
}

/// The comparison of sequents is transitive.
proof fn lemma_cmp_tokens_trans(a: Seq<Form>, b: Seq<Form>, c: Seq<Form>)
    requires
        cmp_tokens(a, b) < 0,
        cmp_tokens(b, c) < 0,
    ensures
        cmp_tokens(a, c) < 0,
{
    if a.len() == b.len() && b.len() == c.len() {
        lemma_cmp_forms_trans(a, b, c);
        if cmp_forms(a, c) == 0 {
            lemma_cmp_forms_eq(a, c);
        }
    }
}

/// A frontier strictly increasing in the visiting order.
pub open spec fn tokens_increasing(vs: Seq<Seq<Form>>) -> bool {
    forall|k1: int, k2: int|
        0 <= k1 < k2 < vs.len() ==> cmp_tokens(#[trigger] vs[k1], #[trigger] vs[k2]) < 0
}

/// Inserts a sequent into a frontier kept strictly increasing; an equal
/// sequent is dropped.
fn insert_token(v: &mut Vec<Vec<Expr>>, t: Vec<Expr>)
    requires
        tokens_increasing(path_views(old(v)@)),
        forall|k: int|
            0 <= k < old(v)@.len() ==> strictly_sorted(#[trigger] path_views(old(v)@)[k]),
        strictly_sorted(forms_of(t@)),
    ensures
        tokens_increasing(path_views(final(v)@)),
        forall|k: int|
            0 <= k < final(v)@.len() ==> strictly_sorted(#[trigger] path_views(final(v)@)[k]),
        forall|t2: Seq<Form>|
            #[trigger] path_views(final(v)@).contains(t2) <==> path_views(old(v)@).contains(t2)
                || t2 == forms_of(t@),
{
    broadcast use vstd::seq_lib::lemma_seq_contains_after_push;

    let ghost tf = forms_of(t@);
    let ghost vs = path_views(v@);
    proof {
        lemma_path_views(v@);
    }
    let mut i: usize = 0;
    while i < v.len()
        invariant
            i <= v.len(),
            vs == path_views(v@),
            vs.len() == v.len(),
            forall|j: int| 0 <= j < i ==> cmp_tokens(#[trigger] vs[j], tf) < 0,
        decreases v.len() - i,
    {
        proof {
            lemma_path_views(v@);
        }
        let c = if t.len() < v[i].len() {
            -1
        } else if t.len() > v[i].len() {
            1
        } else {
            cmp_children(&t, &v[i])
        };
        proof {
            lemma_forms_of(t@);
            lemma_forms_of(v@[i as int]@);
            assert(forms_of(v@[i as int]@) == vs[i as int]);
            assert(c as int == cmp_tokens(tf, vs[i as int]));
        }
        if c == 0 {
            proof {
                lemma_cmp_tokens_eq(tf, vs[i as int]);
                assert(vs.contains(vs[i as int]));
            }
            return ;
        }
        if c < 0 {
            let ghost oldseq = v@;
            v.insert(i, t);
            proof {
                lemma_path_views(v@);
                lemma_path_views(oldseq);
                assert(path_views(v@) =~= vs.take(i as int) + seq![tf] + vs.skip(i as int)) by {
                    assert forall|j: int| 0 <= j < v@.len() implies path_views(v@)[j] == (vs.take(
                        i as int,
                    ) + seq![tf] + vs.skip(i as int))[j] by {
                        if j < i {
                            assert(v@[j] == oldseq[j]);
                        } else if j == i {
                        } else {
                            assert(v@[j] == oldseq[j - 1]);
                        }
                    }
                }
                let nvs = path_views(v@);
                assert forall|k1: int, k2: int| 0 <= k1 < k2 < nvs.len() implies cmp_tokens(
                    #[trigger] nvs[k1],
                    #[trigger] nvs[k2],
                ) < 0 by {
                    if k1 < i && k2 < i {
                        assert(nvs[k1] == vs[k1] && nvs[k2] == vs[k2]);
                    } else if k1 < i && k2 == i {
                        assert(nvs[k1] == vs[k1] && nvs[k2] == tf);
                    } else if k1 < i && k2 > i {
                        assert(nvs[k1] == vs[k1] && nvs[k2] == vs[k2 - 1]);
                    } else if k1 == i && k2 > i {
                        assert(nvs[k1] == tf && nvs[k2] == vs[k2 - 1]);
                        if k2 - 1 > i {
                            lemma_cmp_tokens_trans(tf, vs[i as int], vs[k2 - 1]);
                        }
                    } else {
                        assert(nvs[k1] == vs[k1 - 1] && nvs[k2] == vs[k2 - 1]);
                    }
                }
                assert forall|t2: Seq<Form>| #[trigger] nvs.contains(t2) implies vs.contains(t2)
                    || t2 == tf by {
                    let j = choose|j: int| 0 <= j < nvs.len() && nvs[j] == t2;
                    if j < i {
                        assert(vs[j] == t2);
                    } else if j > i {
                        assert(vs[j - 1] == t2);
                    }
                }
                assert forall|t2: Seq<Form>| vs.contains(t2) || t2 == tf implies #[trigger] nvs.contains(
                    t2,
                ) by {
                    if t2 == tf {
                        assert(nvs[i as int] == t2);
                    } else {
                        let j = choose|j: int| 0 <= j < vs.len() && vs[j] == t2;
                        if j < i {
                            assert(nvs[j] == t2);
                        } else {
                            assert(nvs[j + 1] == t2);
                        }
                    }
                }
            }
            return ;
        }
        proof {
            lemma_cmp_tokens_antisym(tf, vs[i as int]);
        }
        i = i + 1;
    }
    let ghost oldseq = v@;
    v.push(t);
    proof {
        lemma_path_views(v@);
        lemma_path_views(oldseq);
        assert(path_views(v@) =~= vs.push(tf));
        assert forall|k1: int, k2: int| 0 <= k1 < k2 < path_views(v@).len() implies cmp_tokens(
            #[trigger] path_views(v@)[k1],
            #[trigger] path_views(v@)[k2],
        ) < 0 by {
            if k2 < vs.len() {
                assert(path_views(v@)[k1] == vs[k1] && path_views(v@)[k2] == vs[k2]);
            } else {
                assert(path_views(v@)[k1] == vs[k1] && path_views(v@)[k2] == tf);
            }
        }
    }
}

/// The frontier as an ordered set of sequents: the order the backward walk
/// visits them in.
fn sort_tokens(tokens: &Vec<Vec<Expr>>) -> (r: Vec<Vec<Expr>>)
    requires
        frontier_wf(path_views(tokens@)),
    ensures
        frontier_wf(path_views(r@)),
        forall|t2: Seq<Form>|
            #[trigger] path_views(r@).contains(t2) <==> path_views(tokens@).contains(t2),
{
    let ghost vs = path_views(tokens@);
    let mut out: Vec<Vec<Expr>> = Vec::new();
    proof {
        lemma_path_views(tokens@);
        assert forall|t2: Seq<Form>| !path_views(out@).contains(t2) by {
            if path_views(out@).contains(t2) {
                let j = choose|j: int| 0 <= j < path_views(out@).len() && path_views(out@)[j] == t2;
            }
        }
    }
    let mut k: usize = 0;
    while k < tokens.len()
        invariant
            k <= tokens.len(),
            vs == path_views(tokens@),
            vs.len() == tokens.len(),
            tokens_increasing(path_views(out@)),
            forall|j: int|
                0 <= j < out@.len() ==> strictly_sorted(#[trigger] path_views(out@)[j]),
            forall|t2: Seq<Form>|
                #[trigger] path_views(out@).contains(t2) <==> vs.take(k as int).contains(t2),
        decreases tokens.len() - k,
    {
        proof {
            lemma_path_views(tokens@);
            lemma_forms_of(tokens@[k as int]@);
        }
        let copy = crate::expression::clone_exprs(&tokens[k]);
        proof {
            lemma_forms_of(copy@);
            assert(forms_of(copy@) =~= vs[k as int]);
        }
        insert_token(&mut out, copy);
        proof {
            let tall = vs.take(k + 1);
            assert(tall.drop_last() =~= vs.take(k as int));
            assert(tall.last() == vs[k as int]);
            assert forall|t2: Seq<Form>| #[trigger] tall.contains(t2) implies vs.take(
                k as int,
            ).contains(t2) || t2 == vs[k as int] by {
                let j = choose|j: int| 0 <= j < tall.len() && tall[j] == t2;
                if j < k {
                    assert(vs.take(k as int)[j] == t2);
                }
            }
            assert forall|t2: Seq<Form>|
                vs.take(k as int).contains(t2) implies #[trigger] tall.contains(t2) by {
                let j = choose|j: int| 0 <= j < vs.take(k as int).len() && vs.take(k as int)[j]
                    == t2;
                assert(tall[j] == t2);
            }
            assert(tall.contains(vs[k as int])) by {
                assert(tall[k as int] == vs[k as int]);
            }
        }
        k = k + 1;
    }
    proof {
        lemma_path_views(out@);
        assert(vs.take(tokens@.len() as int) =~= vs);
        // strictly increasing sequents are pairwise distinct
        assert forall|k1: int, k2: int|
            0 <= k1 < k2 < path_views(out@).len() implies path_views(out@)[k1] != path_views(
            out@,
        )[k2] by {
            if path_views(out@)[k1] == path_views(out@)[k2] {
                lemma_cmp_tokens_eq(path_views(out@)[k1], path_views(out@)[k1]);
                assert(cmp_tokens(path_views(out@)[k1], path_views(out@)[k2]) < 0);
                assert(false);
            }
        }
        assert(frontier_wf(path_views(out@)));
    }
    out
}

/// A path of distinct sequents drawn, after its head, from the frontier is
/// at most one longer than the frontier.
proof fn lemma_path_bound(pv: Seq<Seq<Form>>, tv: Seq<Seq<Form>>)
    requires
        pv.len() >= 1,
        forall|k1: int, k2: int| 0 <= k1 < k2 < pv.len() ==> pv[k1] != pv[k2],
        forall|k: int| 1 <= k < pv.len() ==> tv.contains(#[trigger] pv[k]),
    ensures
        pv.len() <= tv.len() + 1,
{
    let tail = pv.drop_first();
    assert(tail.no_duplicates()) by {
        assert(forall|i: int| 0 <= i < tail.len() ==> tail[i] == pv[i + 1]);
    }
    tail.unique_seq_to_set();
    assert(tail.to_set().subset_of(tv.to_set())) by {
        assert forall|t: Seq<Form>| tail.to_set().contains(t) implies tv.to_set().contains(t) by {
            let i = choose|i: int| 0 <= i < tail.len() && tail[i] == t;
            assert(pv[i + 1] == t);
        }
    }
    vstd::seq_lib::seq_to_set_is_finite(tv);
    vstd::seq_lib::seq_to_set_is_finite(pv.drop_first());
    tv.lemma_cardinality_of_set();
    vstd::set_lib::lemma_len_subset(tail.to_set(), tv.to_set());
}

/// Whether the walk's path already holds this sequent.
fn path_contains(path: &Vec<Vec<Expr>>, t: &Vec<Expr>) -> (r: bool)
    ensures
        r == path_views(path@).contains(forms_of(t@)),
{
    proof {
        lemma_path_views(path@);
    }
    let mut k: usize = 0;
    while k < path.len()
        invariant
            k <= path.len(),
            forall|j: int| 0 <= j < k ==> path_views(path@)[j] != forms_of(t@),
        decreases path.len() - k,
    {
        proof {
            lemma_path_views(path@);
        }
        if same_exprs(&path[k], t) {
            proof {
                assert(path_views(path@)[k as int] == forms_of(t@));
                assert(path_views(path@).contains(forms_of(t@)));
            }
            return true;
        }
        k = k + 1;
    }
    proof {
        if path_views(path@).contains(forms_of(t@)) {
            let j = choose|j: int|
                0 <= j < path_views(path@).len() && path_views(path@)[j] == forms_of(t@);
        }
    }
    false
}

/// A copy of a walk path, sequent for sequent.
fn clone_path(path: &Vec<Vec<Expr>>) -> (r: Vec<Vec<Expr>>)
    ensures
        path_views(r@) == path_views(path@),
{
    let mut out: Vec<Vec<Expr>> = Vec::new();
    let mut k: usize = 0;
    while k < path.len()
        invariant
            k <= path.len(),
            out.len() == k,
            forall|j: int| 0 <= j < k ==> forms_of(#[trigger] out[j]@) == forms_of(path[j]@),
        decreases path.len() - k,
    {
        out.push(crate::expression::clone_exprs(&path[k]));
        proof {
            lemma_forms_of(out[out.len() - 1]@);
            lemma_forms_of(path[k as int]@);
            assert(forms_of(out[k as int]@) =~= forms_of(path[k as int]@));
        }
        k = k + 1;
    }
    proof {
        lemma_path_views(out@);
        lemma_path_views(path@);
        assert(path_views(out@) =~= path_views(path@));
    }
    out
}

/// How many entries of a sequence of flags are still unset.
pub open spec fn count_unset(s: Seq<bool>) -> nat
    decreases s,
{
    if s.len() == 0 {
        0
    } else {
        count_unset(s.drop_last()) + (if s.last() {
            0nat
        } else {
            1nat
        })
    }
}

/// Setting an unset flag lowers the count of unset flags by one.
proof fn lemma_count_unset_set(s: Seq<bool>, i: int)
    requires
        0 <= i < s.len(),
        !s[i],
    ensures
        count_unset(s.update(i, true)) == count_unset(s) - 1,
        count_unset(s) >= 1,
    decreases s.len(),
{
    let s2 = s.update(i, true);
    if i == s.len() - 1 {
        assert(s2.drop_last() =~= s.drop_last());
        assert(s2.last() == true && s.last() == false);
    } else {
        lemma_count_unset_set(s.drop_last(), i);
        assert(s2.drop_last() =~= s.drop_last().update(i, true));
        assert(s2.last() == s.last());
    }
}

/// Extending a path by one recorded edge keeps it a path.
#[verifier::rlimit(100)]
proof fn lemma_reach_step(es: Set<(int, int)>, from: int, a: int, b: int)
    requires
        Proof::reach(es, from, a),
        es.contains((a, b)),
    ensures
        Proof::reach(es, from, b),
{
    let p = choose|p: Seq<int>| Proof::is_path(es, p, from, a);
    let p2 = p.push(b);
    assert(Proof::is_path(es, p2, from, b)) by {
        assert(p2[0] == p[0]);
        assert(p2.last() == b);
        assert forall|i: int| 0 <= i < p2.len() - 1 implies es.contains(
            (#[trigger] p2[i], p2[i + 1]),
        ) by {
            if i < p.len() - 1 {
                assert(p2[i] == p[i] && p2[i + 1] == p[i + 1]);
            } else {
                assert(p2[i] == p.last() && p2[i + 1] == b);
            }
        }
    }
}

/// A node reached along recorded edges from a marked node is marked, when no
/// recorded edge leaves the marked region.
#[verifier::rlimit(100)]
proof fn lemma_closed_reach(es: Set<(int, int)>, marked: Seq<bool>, p: Seq<int>, from: int, to: int)
    requires
        Proof::is_path(es, p, from, to),
        0 <= from < marked.len(),
        marked[from],
        forall|a: int, b: int|
            #[trigger] es.contains((a, b)) && 0 <= a < marked.len() && marked[a] ==> 0 <= b
                < marked.len() && marked[b],
    ensures
        0 <= to < marked.len() && marked[to],
    decreases p.len(),
{
    if p.len() == 1 {
        assert(to == from);
    } else {
        let q = p.drop_last();
        assert(Proof::is_path(es, q, from, p[p.len() - 2])) by {
            assert(forall|i: int| 0 <= i < q.len() ==> q[i] == p[i]);
        }
        lemma_closed_reach(es, marked, q, from, p[p.len() - 2]);
        assert(es.contains((p[p.len() - 2], p[p.len() - 1])));
    }
}

/// A substring at a fixed offset survives appending to the text.
proof fn lemma_substring_extends(a: Seq<char>, tail: Seq<char>, off: int, sub: Seq<char>)
    requires
        0 <= off,
        off + sub.len() <= a.len(),
        a.subrange(off, off + sub.len()) == sub,
    ensures
        off + sub.len() <= (a + tail).len(),
        (a + tail).subrange(off, off + sub.len()) == sub,
{
    assert((a + tail).subrange(off, off + sub.len()) =~= sub) by {
        assert forall|j: int| 0 <= j < sub.len() implies (a + tail).subrange(
            off,
            off + sub.len(),
        )[j] == sub[j] by {
            assert((a + tail)[off + j] == a[off + j]);
            assert(a.subrange(off, off + sub.len())[j] == sub[j]);
        }
    }
}

/// Popping a node re-establishes the closure of the marked region over the
/// remaining stack, for every node but the popped one.
proof fn lemma_closure_after_pop(
    es: Set<(int, int)>,
    marked: Seq<bool>,
    stack0: Seq<usize>,
    stack: Seq<usize>,
    cur: usize,
    n: int,
)
    requires
        marked.len() == n,
        stack0.len() >= 1,
        stack == stack0.drop_last(),
        cur == stack0.last(),
        forall|a: int, b: int|
            #[trigger] es.contains((a, b)) && 0 <= a < n && marked[a] && (forall|s: int|
                0 <= s < stack0.len() ==> (#[trigger] stack0[s]) as int != a) ==> 0 <= b < n
                && marked[b],
    ensures
        forall|a: int, b: int|
            #[trigger] es.contains((a, b)) && 0 <= a < n && marked[a] && a != cur as int && (forall|
                s: int,
            |
                0 <= s < stack.len() ==> (#[trigger] stack[s]) as int != a) ==> 0 <= b < n
                && marked[b],
{
    assert forall|a: int, b: int|
        #[trigger] es.contains((a, b)) && 0 <= a < n && marked[a] && a != cur as int && (forall|
            s: int,
        |
            0 <= s < stack.len() ==> (#[trigger] stack[s]) as int != a) implies 0 <= b < n
        && marked[b] by {
        assert forall|s: int| 0 <= s < stack0.len() implies (#[trigger] stack0[s]) as int != a by {
            if s < stack0.len() - 1 {
                assert(stack[s] == stack0[s]);
            } else {
                assert(stack0[s] == cur);
            }
        }
    }
}

/// Marking a successor and stacking it preserves the closure of the marked
/// region away from the node being expanded.
proof fn lemma_closure_after_step(
    es: Set<(int, int)>,
    m_it: Seq<bool>,
    marked: Seq<bool>,
    s_it: Seq<usize>,
    stack: Seq<usize>,
    cur: usize,
    n: int,
)
    requires
        m_it.len() == n,
        marked.len() == n,
        s_it.len() <= stack.len(),
        forall|s: int| 0 <= s < s_it.len() ==> stack[s] == s_it[s],
        forall|j: int| 0 <= j < n && #[trigger] m_it[j] ==> marked[j],
        forall|j: int| 0 <= j < n && #[trigger] marked[j] && !m_it[j] ==> (exists|s: int|
            s_it.len() <= s < stack.len() && (#[trigger] stack[s]) as int == j),
        forall|a: int, b: int|
            #[trigger] es.contains((a, b)) && 0 <= a < n && m_it[a] && a != cur as int && (forall|
                s: int,
            |
                0 <= s < s_it.len() ==> (#[trigger] s_it[s]) as int != a) ==> 0 <= b < n && m_it[b],
    ensures
        forall|a: int, b: int|
            #[trigger] es.contains((a, b)) && 0 <= a < n && marked[a] && a != cur as int && (forall|
                s: int,
            |
                0 <= s < stack.len() ==> (#[trigger] stack[s]) as int != a) ==> 0 <= b < n
                && marked[b],
{
    assert forall|a: int, b: int|
        #[trigger] es.contains((a, b)) && 0 <= a < n && marked[a] && a != cur as int && (forall|
            s: int,
        |
            0 <= s < stack.len() ==> (#[trigger] stack[s]) as int != a) implies 0 <= b < n
        && marked[b] by {
        if m_it[a] {
            assert forall|s: int| 0 <= s < s_it.len() implies (#[trigger] s_it[s]) as int != a by {
                assert(stack[s] == s_it[s]);
            }
            assert(m_it[b]);
            assert(marked[b]);
        } else {
            let s = choose|s: int|
                s_it.len() <= s < stack.len() && (#[trigger] stack[s]) as int == a;
            assert(false);
        }
    }
}

impl Proof {
    /// Marks exactly the nodes reachable from the given one along recorded
    /// edges.
    #[verifier::rlimit(100)]
    fn reach_marks(&self, node: usize) -> (marked: Vec<bool>)
        requires
            self.wf(),
            node < self.tokens().len(),
        ensures
            marked@.len() == self.tokens().len(),
            forall|j: int|
                0 <= j < marked@.len() ==> (#[trigger] marked@[j] <==> Self::reach(
                    self.edge_set(),
                    node as int,
                    j,
                )),
    {

        proof {
            lemma_node_views(self.nodes@);
        }
        let ghost es = self.edge_set();
        let n = self.nodes.len();
        let mut marked: Vec<bool> = Vec::new();
        let mut f: usize = 0;
        while f < n
            invariant
                f <= n,
                marked.len() == f,
                forall|j: int| 0 <= j < f ==> !marked@[j],
            decreases n - f,
        {
            marked.push(false);
            f = f + 1;
        }
        let mut stack: Vec<usize> = Vec::new();
        marked.set(node, true);
        stack.push(node);
        proof {
            assert(stack@.len() == 1 && stack@[0] == node);
            assert(Self::reach(es, node as int, node as int)) by {
                let p = seq![node as int];
                assert(Self::is_path(es, p, node as int, node as int));
            }
        }
        while stack.len() != 0
            invariant
                marked.len() == n,
                n == self.tokens().len(),
                forall|s: int| 0 <= s < stack@.len() ==> (#[trigger] stack@[s]) < n,
                forall|s: int| 0 <= s < stack@.len() ==> marked@[#[trigger] stack@[s] as int],
                forall|j: int| 0 <= j < n && #[trigger] marked@[j] ==> Self::reach(es, node as int, j),
                marked@[node as int],
                forall|a: int, b: int|
                    #[trigger] es.contains((a, b)) && 0 <= a < n && marked@[a] && (forall|s: int|
                        0 <= s < stack@.len() ==> (#[trigger] stack@[s]) as int != a) ==> 0 <= b < n
                        && marked@[b],
            decreases count_unset(marked@), stack@.len(),
        {
            let ghost marked0 = marked@;
            let ghost stack0 = stack@;
            let cur = stack.pop().unwrap();
            proof {
                assert(stack@ == stack0.drop_last());
                assert(cur == stack0.last());
                lemma_closure_after_pop(es, marked@, stack0, stack@, cur, n as int);
            }
            let mut i: usize = 0;
            let ghost marked_before = marked@;
            while i < self.edges.len()
                invariant
                    i <= self.edges@.len(),
                    marked.len() == n,
                    n == self.tokens().len(),
                    self.wf(),
                    es == self.edge_set(),
                    cur < n,
                    forall|s: int| 0 <= s < stack@.len() ==> (#[trigger] stack@[s]) < n,
                    forall|s: int| 0 <= s < stack@.len() ==> marked@[#[trigger] stack@[s] as int],
                    forall|j: int|
                        0 <= j < n && #[trigger] marked@[j] ==> Self::reach(es, node as int, j),
                    marked@[node as int],
                    marked@[cur as int],
                    forall|j: int| 0 <= j < n && #[trigger] marked_before[j] ==> marked@[j],
                    count_unset(marked@) <= count_unset(marked_before),
                    count_unset(marked@) < count_unset(marked_before) || stack@.len()
                        < stack0.len(),
                    forall|a: int, b: int|
                        #[trigger] es.contains((a, b)) && 0 <= a < n && marked@[a] && a != cur && (
                        forall|s: int|
                            0 <= s < stack@.len() ==> (#[trigger] stack@[s]) as int != a) ==> 0 <= b
                            < n && marked@[b],
                    forall|j2: int|
                        0 <= j2 < i && (#[trigger] self.edges@[j2]).0.0 == cur ==> marked@[self.edges@[j2].0.1 as int],
                decreases self.edges@.len() - i,
            {
                let ghost m_it = marked@;
                let ghost s_it = stack@;
                let pr = self.edges[i].0;
                if pr.0 == cur {
                    let to = pr.1;
                    proof {
                        assert(es.contains((cur as int, to as int))) by {
                            assert(((#[trigger] self.edges@[i as int]).0.0 as int, self.edges@[i as int].0.1 as int)
                                == (cur as int, to as int));
                        }
                        lemma_reach_step(es, node as int, cur as int, to as int);
                    }
                    if !marked[to] {
                        let ghost mb = marked@;
                        let ghost st0 = stack@;
                        marked.set(to, true);
                        stack.push(to);
                        proof {
                            lemma_count_unset_set(mb, to as int);
                            assert(stack@[stack@.len() - 1] == to);
                            assert(forall|s: int|
                                0 <= s < st0.len() ==> #[trigger] stack@[s] == st0[s]);
                        }
                    }
                }
                proof {
                    lemma_closure_after_step(es, m_it, marked@, s_it, stack@, cur, n as int);
                }
                i = i + 1;
            }
        }
        // the marked nodes are exactly those reachable from the start
        proof {
            assert forall|j: int|
                0 <= j < n && #[trigger] Self::reach(es, node as int, j) implies marked@[j] by {
                let p = choose|p: Seq<int>| Self::is_path(es, p, node as int, j);
                lemma_closed_reach(es, marked@, p, node as int, j);
            }
        }
        marked
    }

    /// Re-validates the extracted DAG from this node: every sink reachable
    /// from it must be an identity sequent. Failures are gathered into the
    /// error report.
    #[verifier::rlimit(100)]
    pub fn walk_to_axiom(&self, node: usize) -> (r: Result<(), String>)
        requires
            self.wf(),
            node < self.tokens().len(),
        ensures
            r is Ok <==> self.sinks_ground_from(node as int),
            r is Err ==> (r->Err_0)@.len() > 0 && (r->Err_0)@[0] == 'a',
            r is Err ==> exists|id: int|
                0 <= id < self.tokens().len() && #[trigger] Self::reach(
                    self.edge_set(),
                    node as int,
                    id,
                ) && Self::is_sink(self.edge_set(), id) && !Self::ground_token(self.tokens()[id])
                    && has_substring(
                    (r->Err_0)@,
                    crate::expression::render_operands(self.tokens()[id], ", "@),
                ),
    {
        proof {
            lemma_node_views(self.nodes@);
        }
        let ghost es = self.edge_set();
        let n = self.nodes.len();
        let marked = self.reach_marks(node);
        // every marked sink must be an identity sequent
        let mut msg = String::new();
        let mut all_ok = true;
        let ghost bad_id: int = 0;
        let ghost bad_off: int = 0;
        let mut k: usize = 0;
        while k < n
            invariant
                k <= n,
                n == self.tokens().len(),
                self.wf(),
                es == self.edge_set(),
                marked.len() == n,
                forall|j: int| 0 <= j < n && #[trigger] marked@[j] ==> Self::reach(es, node as int, j),
                forall|j: int| 0 <= j < n && #[trigger] Self::reach(es, node as int, j) ==> marked@[j],
                all_ok <==> (forall|id: int|
                    0 <= id < k && #[trigger] Self::reach(es, node as int, id) && Self::is_sink(
                        es,
                        id,
                    ) ==> Self::ground_token(self.tokens()[id])),
                all_ok ==> msg@.len() == 0,
                !all_ok ==> msg@.len() > 0 && msg@[0] == 'a',
                !all_ok ==> 0 <= bad_id < n && Self::reach(es, node as int, bad_id)
                    && Self::is_sink(es, bad_id) && !Self::ground_token(self.tokens()[bad_id]),
                !all_ok ==> 0 <= bad_off && bad_off + crate::expression::render_operands(
                    self.tokens()[bad_id],
                    ", "@,
                ).len() <= msg@.len() && msg@.subrange(
                    bad_off,
                    bad_off + crate::expression::render_operands(
                        self.tokens()[bad_id],
                        ", "@,
                    ).len(),
                ) == crate::expression::render_operands(self.tokens()[bad_id], ", "@),
            decreases n - k,
        {
            if marked[k] {
                let mut has_out = false;
                let mut i: usize = 0;
                while i < self.edges.len()
                    invariant
                        i <= self.edges@.len(),
                        self.wf(),
                        es == self.edge_set(),
                        k < n,
                        has_out ==> !Self::is_sink(es, k as int),
                        !has_out ==> forall|j2: int|
                            0 <= j2 < i ==> (#[trigger] self.edges@[j2]).0.0 != k,
                    decreases self.edges@.len() - i,
                {
                    if self.edges[i].0.0 == k {
                        proof {
                            assert(es.contains((k as int, self.edges@[i as int].0.1 as int))) by {
                                assert(((#[trigger] self.edges@[i as int]).0.0 as int, self.edges@[i as int].0.1 as int)
                                    == (k as int, self.edges@[i as int].0.1 as int));
                            }
                        }
                        has_out = true;
                    }
                    i = i + 1;
                }
                if !has_out {
                    proof {
                        assert(Self::is_sink(es, k as int)) by {
                            assert forall|j: int| !es.contains((k as int, j)) by {
                                if es.contains((k as int, j)) {
                                    let i2 = choose|i2: int|
                                        0 <= i2 < self.edges@.len() && ((
                                        #[trigger] self.edges@[i2]).0.0 as int, self.edges@[i2].0.1 as int)
                                            == (k as int, j);
                                }
                            }
                        }
                    }
                    let token = &self.nodes[k].0;
                    proof {
                        lemma_node_views(self.nodes@);
                        assert(forms_of(token@) == self.tokens()[k as int]);
                    }
                    if token.len() == 0 {
                        proof {
                            lemma_forms_of(token@);
                        }
                        let ghost msg0 = msg@;
                        let ghost was_ok = all_ok;
                        all_ok = false;
                        msg.append("an empty sequent terminates a proof tree\n");
                        proof {
                            reveal_strlit("an empty sequent terminates a proof tree\n");
                            assert(msg@[0] == 'a') by {
                                if msg0.len() > 0 {
                                    assert(msg@[0] == msg0[0]);
                                }
                            }
                            if was_ok {
                                bad_id = k as int;
                                bad_off = 0;
                                assert(self.tokens()[bad_id] =~= Seq::<Form>::empty());
                                assert(crate::expression::render_operands(
                                    self.tokens()[bad_id],
                                    ", "@,
                                ) =~= Seq::<char>::empty());
                                assert(msg@.subrange(0, 0) =~= Seq::<char>::empty());
                            } else {
                                lemma_substring_extends(
                                    msg0,
                                    "an empty sequent terminates a proof tree\n"@,
                                    bad_off,
                                    crate::expression::render_operands(
                                        self.tokens()[bad_id],
                                        ", "@,
                                    ),
                                );
                            }
                        }
                    } else {
                        proof {
                            lemma_forms_of(token@);
                        }
                        let ground = token[0].axiom_set();
                        let is_atom = match &token[0] {
                            Expr::Atom(_) => true,
                            _ => false,
                        };
                        let ok_here = is_atom && same_exprs(&ground, token);
                        proof {
                            assert(forms_of(ground@) == axiom_pair(forms_of(token@)[0]));
                            assert(is_atom == forms_of(token@)[0] is Atom);
                        }
                        if !ok_here {
                            let ghost msg0 = msg@;
                            let ghost was_ok = all_ok;
                            all_ok = false;
                            let rendered = crate::expression::render_exprs(token, ", ");
                            msg.append(
                                "a sequent that is not an atom's axiom terminates a proof tree: ",
                            );
                            let ghost msg1 = msg@;
                            msg.append(rendered.as_str());
                            let ghost msg2 = msg@;
                            msg.append("\n");
                            proof {
                                reveal_strlit(
                                    "a sequent that is not an atom's axiom terminates a proof tree: ",
                                );
                                reveal_strlit("\n");
                                assert(msg@[0] == 'a') by {
                                    if msg0.len() > 0 {
                                        assert(msg@[0] == msg0[0]);
                                    }
                                }
                                if was_ok {
                                    bad_id = k as int;
                                    bad_off = msg1.len() as int;
                                    assert(msg2.subrange(
                                        bad_off,
                                        bad_off + rendered@.len(),
                                    ) =~= rendered@);
                                    lemma_substring_extends(msg2, "\n"@, bad_off, rendered@);
                                } else {
                                    lemma_substring_extends(
                                        msg0,
                                        "a sequent that is not an atom's axiom terminates a proof tree: "@,
                                        bad_off,
                                        crate::expression::render_operands(
                                            self.tokens()[bad_id],
                                            ", "@,
                                        ),
                                    );
                                    lemma_substring_extends(
                                        msg1,
                                        rendered@,
                                        bad_off,
                                        crate::expression::render_operands(
                                            self.tokens()[bad_id],
                                            ", "@,
                                        ),
                                    );
                                    lemma_substring_extends(
                                        msg2,
                                        "\n"@,
                                        bad_off,
                                        crate::expression::render_operands(
                                            self.tokens()[bad_id],
                                            ", "@,
                                        ),
                                    );
                                }
                            }
                        }
                    }
                }
            } else {
                proof {
                    if Self::reach(es, node as int, k as int) {
                        assert(marked@[k as int]);
                    }
                }
            }
            k = k + 1;
        }
        if all_ok {
            Ok(())
        } else {
            Err(msg)
        }
    }

    /// Re-validates the whole extracted DAG: looks the root sequent up and
    /// walks from it.
    pub fn verify(&self) -> (r: Result<(), String>)
        requires
            self.wf(),
        ensures
            r is Ok <==> exists|rid: int|
                0 <= rid < self.tokens().len() && self.tokens()[rid] == self.root_token()
                    && #[trigger] self.sinks_ground_from(rid),
            r is Err ==> (r->Err_0)@.len() > 0 && ((r->Err_0)@[0] == 'a' || (r->Err_0)@[0] == 'R'),
            r is Err && (r->Err_0)@[0] == 'a' ==> exists|rid: int, id: int|
                0 <= rid < self.tokens().len() && 0 <= id < self.tokens().len()
                    && self.tokens()[rid] == self.root_token() && #[trigger] Self::reach(
                    self.edge_set(),
                    rid,
                    id,
                ) && Self::is_sink(self.edge_set(), id) && !Self::ground_token(self.tokens()[id])
                    && has_substring(
                    (r->Err_0)@,
                    crate::expression::render_operands(self.tokens()[id], ", "@),
                ),
    {
        proof {
            lemma_node_views(self.nodes@);
        }
        let mut k: usize = 0;
        while k < self.nodes.len()
            invariant
                k <= self.nodes@.len(),
                self.wf(),
                forall|j: int| 0 <= j < k ==> node_views(self.nodes@)[j] != self.root_token(),
            decreases self.nodes@.len() - k,
        {
            proof {
                lemma_node_views(self.nodes@);
            }
            if same_exprs(&self.nodes[k].0, &self.root) {
                proof {
                    assert(self.tokens()[k as int] == self.root_token());
                }
                let r = self.walk_to_axiom(k);
                proof {
                    if r is Err {
                        let id = choose|id: int|
                            0 <= id < self.tokens().len() && #[trigger] Self::reach(
                                self.edge_set(),
                                k as int,
                                id,
                            ) && Self::is_sink(self.edge_set(), id) && !Self::ground_token(
                                self.tokens()[id],
                            ) && has_substring(
                                (r->Err_0)@,
                                crate::expression::render_operands(self.tokens()[id], ", "@),
                            );
                    }
                    if r is Ok {
                        assert(self.sinks_ground_from(k as int));
                    } else {
                        assert forall|rid: int|
                            !(0 <= rid < self.tokens().len() && self.tokens()[rid]
                                == self.root_token() && #[trigger] self.sinks_ground_from(
                                rid,
                            )) by {
                            if 0 <= rid < self.tokens().len() && self.tokens()[rid]
                                == self.root_token() && self.sinks_ground_from(rid) {
                                // sequents are unique, so the root id is this one
                                assert(rid == k as int) by {
                                    if rid < k {
                                        assert(node_views(self.nodes@)[rid] != self.root_token());
                                    }
                                    if rid > k {
                                        assert(node_views(self.nodes@)[k as int] != node_views(
                                            self.nodes@,
                                        )[rid]);
                                    }
                                }
                            }
                        }
                    }
                }
                return r;
            }
            k = k + 1;
        }
        proof {
            assert forall|rid: int|
                !(0 <= rid < self.tokens().len() && self.tokens()[rid] == self.root_token()
                    && #[trigger] self.sinks_ground_from(rid)) by {}
        }
        proof {
            reveal_strlit("Root node is not in nodes-map");
            assert(("Root node is not in nodes-map"@)[0] == 'R');
        }
        Err(String::from_str("Root node is not in nodes-map"))
    }
}

/// What can be proven: a root whose saturated frontier yields a proof DAG.
pub trait Proveable: View<V = Form> + Sized {
    /// The identity sequent of this value.
    fn ground(&self) -> (r: Vec<Expr>)
        ensures
            forms_of(r@) == axiom_pair(self@),
    ;

    /// Runs the coalescence search and, on success, extracts and re-validates
    /// the proof DAG. An exhausted search reports exactly that the value is
    /// not coalesceable; a successfully returned DAG holds the root sequent
    /// and every sink reachable from it is an atom's axiom; any other error
    /// is a verification report of a DAG extracted after a successful
    /// search.
    fn prove(&self) -> (r: Result<Proof, String>)
        requires
            !crate::expression::has_not(self@),
        ensures
            r is Ok ==> (r->Ok_0).wf() && (r->Ok_0).root_token() == singleton_token(self@) && (
            exists|n: nat, t: Set<Seq<Form>>|
                crate::coalesceable::engine_run(
                    self@,
                    Set::empty(),
                    crate::coalesceable::spawn_set(self@),
                    n,
                ) == crate::coalesceable::Verdict::Done(t)),
            r is Ok ==> (exists|rid: int|
                0 <= rid < (r->Ok_0).tokens().len() && (r->Ok_0).tokens()[rid] == singleton_token(
                    self@,
                ) && #[trigger] (r->Ok_0).sinks_ground_from(rid)),
            (crate::coalesceable::spawn_set(self@).is_empty() || exists|n: nat|
                crate::coalesceable::engine_run(
                    self@,
                    Set::empty(),
                    crate::coalesceable::spawn_set(self@),
                    n,
                ) == crate::coalesceable::Verdict::Failed) <==> (r is Err && (r->Err_0)@
                == not_coalesceable_msg()),
            (r is Err && (r->Err_0)@ != not_coalesceable_msg()) ==> (exists|
                n: nat,
                t: Set<Seq<Form>>,
            |
                crate::coalesceable::engine_run(
                    self@,
                    Set::empty(),
                    crate::coalesceable::spawn_set(self@),
                    n,
                ) == crate::coalesceable::Verdict::Done(t)),
    ;
}

impl Proveable for Expr {
    fn ground(&self) -> (r: Vec<Expr>) {
        self.axiom_set()
    }

    fn prove(&self) -> (r: Result<Proof, String>) {
        let searched = self.coalesce();
        match searched {
            None => {
                proof {
                    reveal_strlit("Not coalesceable");
                }
                Err(String::from_str("Not coalesceable"))
            },
            Some(tokens) => {
                proof {
                    // a successful search can never have failed, nor be empty
                    let n = choose|n: nat|
                        crate::coalesceable::engine_run(
                            self@,
                            Set::empty(),
                            crate::coalesceable::spawn_set(self@),
                            n,
                        ) == crate::coalesceable::Verdict::Done(
                            path_views(tokens@).to_set(),
                        );
                    assert forall|n2: nat|
                        crate::coalesceable::engine_run(
                            self@,
                            Set::empty(),
                            crate::coalesceable::spawn_set(self@),
                            n2,
                        ) != crate::coalesceable::Verdict::Failed by {
                        crate::coalesceable::lemma_run_exclusive(
                            self@,
                            Set::empty(),
                            crate::coalesceable::spawn_set(self@),
                            n,
                            n2,
                            path_views(tokens@).to_set(),
                        );
                    }
                    if crate::coalesceable::spawn_set(self@).is_empty() {
                        crate::coalesceable::lemma_empty_spawn_fails(self@);
                    }
                }
                let mut pf = Proof::new(self);
                pf.backtrack(&tokens);
                let checked = pf.verify();
                proof {
                    reveal_strlit("Not coalesceable");
                    assert(pf.root_token() == singleton_token(self@));
                    if checked is Err {
                        // a verification report never reads as the engine's
                        assert((checked->Err_0)@ != not_coalesceable_msg()) by {
                            assert(not_coalesceable_msg()[0] == 'N');
                        }
                    }
                }
                match checked {
                    Ok(_) => {
                        let ghost gpf = pf;
                        let out: Result<Proof, String> = Ok(pf);
                        proof {
                            let rid = choose|rid: int|
                                0 <= rid < gpf.tokens().len() && gpf.tokens()[rid]
                                    == gpf.root_token() && #[trigger] gpf.sinks_ground_from(rid);
                            assert(out->Ok_0 == gpf);
                            assert((out->Ok_0).tokens()[rid] == singleton_token(self@));
                            assert((out->Ok_0).sinks_ground_from(rid));
                        }
                        out
                    },
                    Err(e) => Err(e),
                }
            },
        }
    }
}

/// Whether every member of `a` is a member of `b`.
fn token_subset(a: &Vec<Expr>, b: &Vec<Expr>) -> (r: bool)
    ensures
        r == forall|y: Form|
            forms_of(a@).contains(y) ==> #[trigger] forms_of(b@).contains(y),
{
    proof {
        lemma_forms_of(a@);
    }
    let mut i: usize = 0;
    while i < a.len()
        invariant
            i <= a.len(),
            forall|j: int| 0 <= j < i ==> forms_of(b@).contains(#[trigger] forms_of(a@)[j]),
        decreases a.len() - i,
    {
        proof {
            lemma_forms_of(a@);
        }
        if !contains_expr(b, &a[i]) {
            proof {
                assert(forms_of(a@).contains(forms_of(a@)[i as int]));
                assert(!forms_of(b@).contains(forms_of(a@)[i as int]));
            }
            return false;
        }
        i = i + 1;
    }
    proof {
        assert forall|y: Form| forms_of(a@).contains(y) implies #[trigger] forms_of(b@).contains(
            y,
        ) by {
            let j = choose|j: int| 0 <= j < forms_of(a@).len() && forms_of(a@)[j] == y;
        }
    }
    true
}

/// The members of `a` that are not members of `b`, in order.
fn token_diff(a: &Vec<Expr>, b: &Vec<Expr>) -> (r: Vec<Expr>)
    requires
        strictly_sorted(forms_of(a@)),
    ensures
        strictly_sorted(forms_of(r@)),
        forall|y: Form|
            #[trigger] forms_of(r@).contains(y) <==> forms_of(a@).contains(y) && !forms_of(
                b@,
            ).contains(y),
{
    let ghost fs = forms_of(a@);
    let mut out: Vec<Expr> = Vec::new();
    let mut i: usize = 0;
    proof {
        lemma_forms_of(a@);
        assert forall|y: Form| !forms_of(out@).contains(y) by {
            if forms_of(out@).contains(y) {
                let j = choose|j: int| 0 <= j < forms_of(out@).len() && forms_of(out@)[j] == y;
            }
        }
    }
    while i < a.len()
        invariant
            i <= a.len(),
            strictly_sorted(forms_of(out@)),
            forall|y: Form|
                #[trigger] forms_of(out@).contains(y) <==> fs.take(i as int).contains(y)
                    && !forms_of(b@).contains(y),
        decreases a.len() - i,
    {
        proof {
            lemma_forms_of(a@);
        }
        let ghost before = forms_of(out@);
        let ghost oldseq = out@;
        let keep = !contains_expr(b, &a[i]);
        if keep {
            let e = a[i].clone();
            out.push(e);
            proof {
                lemma_forms_of(out@);
                lemma_forms_of(oldseq);
                assert(forms_of(out@) =~= before.push(fs[i as int]));
                // the appended member is above everything kept so far
                assert forall|j1: int, j2: int|
                    0 <= j1 < j2 < forms_of(out@).len() implies cmp_form(
                    #[trigger] forms_of(out@)[j1],
                    #[trigger] forms_of(out@)[j2],
                ) < 0 by {
                    if j2 == forms_of(out@).len() - 1 {
                        assert(before.contains(before[j1]));
                        assert(fs.take(i as int).contains(before[j1]));
                        let k = choose|k: int|
                            0 <= k < fs.take(i as int).len() && fs.take(i as int)[k] == before[j1];
                        assert(fs[k] == before[j1]);
                        assert(cmp_form(fs[k], fs[i as int]) < 0);
                    } else {
                        assert(forms_of(out@)[j1] == before[j1] && forms_of(out@)[j2]
                            == before[j2]);
                    }
                }
                broadcast use vstd::seq_lib::lemma_seq_contains_after_push;

            }
        }
        proof {
            broadcast use vstd::seq_lib::lemma_seq_contains_after_push;

            let tall = fs.take(i + 1);
            assert(tall.drop_last() =~= fs.take(i as int));
            assert(tall.last() == fs[i as int]);
            assert forall|y: Form| #[trigger] tall.contains(y) implies fs.take(i as int).contains(y)
                || y == fs[i as int] by {
                let k = choose|k: int| 0 <= k < tall.len() && tall[k] == y;
                if k < i {
                    assert(fs.take(i as int)[k] == y);
                }
            }
            assert forall|y: Form| fs.take(i as int).contains(y) implies #[trigger] tall.contains(
                y,
            ) by {
                let k = choose|k: int| 0 <= k < fs.take(i as int).len() && fs.take(i as int)[k] == y;
                assert(tall[k] == y);
            }
            assert(tall.contains(fs[i as int])) by {
                assert(tall[i as int] == fs[i as int]);
            }
            if !keep {
                assert(forms_of(a@).contains(forms_of(a@)[i as int]));
            }
        }
        i = i + 1;
    }
    proof {
        assert(fs.take(a@.len() as int) =~= fs);
    }
    out
}

} // verus!
