//! The coalescence engine: grows a frontier of sequents from atom-level
//! axioms by the rewrite rules `spawn`, `fire` and `project` until the
//! singleton sequent of the root expression is derived or the search space is
//! exhausted.
//!
//! A sequent (token) is an ordered set of expressions, held as a strictly
//! sorted vector; a frontier is a vector of pairwise distinct tokens.

use vstd::prelude::*;

use crate::expression::{
    Expr, Form, atoms_set, children_of, forms_of, form_of, has_not, invert, lemma_forms_of,
    lemma_path_views, lineages, lineages_seq, norm, path_views, subforms, subforms_seq,
};
use crate::order::{
    cmp_form, lemma_cmp_form_eq, lemma_sort_dedup, lemma_sorted_insert, sort_dedup, sorted_insert,
    strictly_sorted, contains_expr, insert_expr, same_exprs,
};

verus! {

broadcast use
    vstd::std_specs::vec::group_vec_axioms,
    vstd::seq::group_seq_axioms,
    vstd::set::group_set_axioms,
;

/// The sequent holding exactly the root expression.
pub open spec fn singleton_token(f: Form) -> Seq<Form> {
    seq![f]
}

/// The identity sequent of a form: the form together with its normalised
/// inverse.
pub open spec fn axiom_pair(f: Form) -> Seq<Form> {
    sort_dedup(seq![f, norm(invert(f))])
}

/// Every token is strictly sorted and no two tokens are equal: a frontier is
/// a set of sets.
pub open spec fn frontier_wf(views: Seq<Seq<Form>>) -> bool {
    (forall|k: int| 0 <= k < views.len() ==> strictly_sorted(#[trigger] views[k])) && (forall|
        k1: int,
        k2: int,
    |
        0 <= k1 < k2 < views.len() ==> views[k1] != views[k2])
}

/// Every element of every token lies in the universe `u`.
pub open spec fn frontier_in(views: Seq<Seq<Form>>, u: Set<Form>) -> bool {
    forall|k: int, e: int|
        0 <= k < views.len() && 0 <= e < views[k].len() ==> u.contains(#[trigger] views[k][e])
}

/// Removes every occurrence of a form from a sequence.
pub open spec fn remove_form(s: Seq<Form>, x: Form) -> Seq<Form>
    decreases s.len(),
{
    if s.len() == 0 {
        s
    } else if s.last() == x {
        remove_form(s.drop_last(), x)
    } else {
        remove_form(s.drop_last(), x).push(s.last())
    }
}

/// What removal does to an ordered set: order is kept and exactly the removed
/// form is gone.
pub proof fn lemma_remove_form(s: Seq<Form>, x: Form)
    requires
        strictly_sorted(s),
    ensures
        strictly_sorted(remove_form(s, x)),
        forall|y: Form| #[trigger] remove_form(s, x).contains(y) <==> s.contains(y) && y != x,
    decreases s.len(),
{
    broadcast use vstd::seq_lib::lemma_seq_contains_after_push;

    if s.len() == 0 {
        assert forall|y: Form| !s.contains(y) by {
            if s.contains(y) {
                let i = choose|i: int| 0 <= i < s.len() && s[i] == y;
            }
        }
    } else {
        let rest = s.drop_last();
        assert(strictly_sorted(rest)) by {
            assert(forall|i: int| 0 <= i < rest.len() ==> rest[i] == s[i]);
        }
        lemma_remove_form(rest, x);
        let r = remove_form(s, x);
        assert forall|y: Form| #[trigger] s.contains(y) implies rest.contains(y) || y
            == s.last() by {
            let i = choose|i: int| 0 <= i < s.len() && s[i] == y;
            if i < s.len() - 1 {
                assert(rest[i] == y);
            }
        }
        assert(forall|y: Form| rest.contains(y) ==> #[trigger] s.contains(y)) by {
            assert(forall|i: int| 0 <= i < rest.len() ==> rest[i] == s[i]);
        }
        assert(s.contains(s.last()));
        if s.last() != x {
            // the kept last element is above everything that remains
            assert forall|i: int, j: int|
                0 <= i < j < r.len() implies cmp_form(#[trigger] r[i], #[trigger] r[j]) < 0 by {
                if j < r.len() - 1 {
                    assert(remove_form(rest, x)[i] == r[i]);
                    assert(remove_form(rest, x)[j] == r[j]);
                } else {
                    assert(r[i] == remove_form(rest, x)[i]);
                    assert(remove_form(rest, x).contains(r[i]));
                    assert(rest.contains(r[i]));
                    let k = choose|k: int| 0 <= k < rest.len() && rest[k] == r[i];
                    assert(s[k] == r[i] && s[s.len() - 1] == r[j]);
                }
            }
        }
    }
}

/// The sequent obtained by exchanging a member for another: the engine's
/// parent- and sibling-token construction.
pub open spec fn token_replace(t: Seq<Form>, x: Form, y: Form) -> Seq<Form> {
    sorted_insert(remove_form(t, x), y)
}

/// The identity sequents of the atoms of the root whose inverses also occur
/// in the root: the frontier the engine starts from.
pub open spec fn spawn_set(root: Form) -> Set<Seq<Form>> {
    Set::new(
        |t: Seq<Form>|
            exists|a: Form|
                atoms_set(root).contains(a) && atoms_set(root).contains(norm(invert(a))) && t
                    == #[trigger] axiom_pair(a),
    )
}

/// The admissibility of a firing: a conjunction needs every sibling-token,
/// a disjunction needs one.
pub open spec fn fire_ok(tv: Set<Seq<Form>>, t: Seq<Form>, x: Form, p: Form) -> bool {
    if p is And {
        forall|c: Form|
            children_of(p).contains(c) ==> tv.contains(#[trigger] token_replace(t, x, c))
    } else {
        exists|c: Form|
            children_of(p).contains(c) && tv.contains(#[trigger] token_replace(t, x, c))
    }
}

/// A token of the next frontier earned by the fire rule: a member `x` of a
/// frontier token `t` is exchanged for a parent connective `p` of `x` in the
/// root, provided the sibling-tokens admit it.
pub open spec fn fire_candidate(
    root: Form,
    tv: Set<Seq<Form>>,
    t: Seq<Form>,
    x: Form,
    p: Form,
) -> bool {
    tv.contains(t) && t.contains(x) && subforms(root).contains(p) && children_of(p).contains(x)
        && fire_ok(tv, t, x, p)
}

/// One fire round: the old frontier together with every admissible
/// parent-token.
pub open spec fn fire_set(root: Form, tv: Set<Seq<Form>>) -> Set<Seq<Form>> {
    tv.union(
        Set::new(
            |t2: Seq<Form>|
                exists|t: Seq<Form>, x: Form, p: Form|
                    #[trigger] fire_candidate(root, tv, t, x, p) && t2 == token_replace(t, x, p),
        ),
    )
}

/// One projection round: the old frontier together with every widening of a
/// frontier token by one subexpression of the root.
pub open spec fn project_set(root: Form, tv: Set<Seq<Form>>) -> Set<Seq<Form>> {
    tv.union(
        Set::new(
            |t2: Seq<Form>|
                exists|t: Seq<Form>, s: Form|
                    tv.contains(t) && subforms(root).contains(s) && t2 == #[trigger] sorted_insert(
                        t,
                        s,
                    ),
        ),
    )
}

/// Whether every token of the frontier is within the dimension bound.
pub open spec fn within_bound(tv: Set<Seq<Form>>, b: nat) -> bool {
    forall|t: Seq<Form>| #[trigger] tv.contains(t) ==> t.len() <= b
}

/// The engine's verdict after a bounded number of loop iterations.
pub enum Verdict {
    Running(Set<Seq<Form>>, Set<Seq<Form>>),
    Done(Set<Seq<Form>>),
    Failed,
}

/// The engine's state after `n` iterations of the main loop, starting from a
/// previous frontier `o` and a current frontier `t`. An iteration whose
/// frontier has stabilised projects while the dimension bound allows it and
/// fails otherwise; a projection that adds nothing also fails, since the
/// frontier can never grow again.
pub open spec fn engine_run(root: Form, o: Set<Seq<Form>>, t: Set<Seq<Form>>, n: nat) -> Verdict
    decreases n,
{
    if t.contains(singleton_token(root)) {
        Verdict::Done(t)
    } else if n == 0 {
        Verdict::Running(o, t)
    } else if o == t {
        if within_bound(t, atoms_set(root).len()) {
            let tp = project_set(root, t);
            if fire_set(root, tp) == t {
                Verdict::Failed
            } else {
                engine_run(root, tp, fire_set(root, tp), (n - 1) as nat)
            }
        } else {
            Verdict::Failed
        }
    } else {
        engine_run(root, t, fire_set(root, t), (n - 1) as nat)
    }
}

/// Monotone fire: after any fire round, the previous frontier is a subset of
/// the new one.
pub proof fn lemma_fire_monotone(root: Form, tv: Set<Seq<Form>>)
    ensures
        forall|t: Seq<Form>| #[trigger] tv.contains(t) ==> fire_set(root, tv).contains(t),
{
}

/// The engine is deterministic: a run that succeeds can never fail, however
/// many iterations either run is given.
pub proof fn lemma_run_exclusive(
    root: Form,
    o: Set<Seq<Form>>,
    t: Set<Seq<Form>>,
    n1: nat,
    n2: nat,
    x: Set<Seq<Form>>,
)
    requires
        engine_run(root, o, t, n1) == Verdict::Done(x),
    ensures
        engine_run(root, o, t, n2) != Verdict::Failed,
    decreases n1,
{
    if t.contains(singleton_token(root)) {
    } else {
        if o == t {
            if within_bound(t, atoms_set(root).len()) {
                let tp = project_set(root, t);
                if fire_set(root, tp) != t && n2 > 0 {
                    lemma_run_exclusive(
                        root,
                        tp,
                        fire_set(root, tp),
                        (n1 - 1) as nat,
                        (n2 - 1) as nat,
                        x,
                    );
                }
            }
        } else {
            if n2 > 0 {
                lemma_run_exclusive(root, t, fire_set(root, t), (n1 - 1) as nat, (n2 - 1) as nat, x);
            }
        }
    }
}

/// An empty spawn fails at once: nothing can ever be fired or projected.
pub proof fn lemma_empty_spawn_fails(root: Form)
    requires
        spawn_set(root).is_empty(),
    ensures
        engine_run(root, Set::empty(), spawn_set(root), 1) == Verdict::Failed,
{
    let t = spawn_set(root);
    assert(t =~= Set::<Seq<Form>>::empty());
    assert(!t.contains(singleton_token(root)));
    assert(within_bound(t, atoms_set(root).len()));
    let tp = project_set(root, t);
    assert(tp =~= t) by {
        assert forall|t2: Seq<Form>| #[trigger] tp.contains(t2) implies t.contains(t2) by {
            if !t.contains(t2) {
                let (t0, s0) = choose|t0: Seq<Form>, s0: Form|
                    t.contains(t0) && subforms(root).contains(s0) && t2 == #[trigger] sorted_insert(
                        t0,
                        s0,
                    );
            }
        }
    }
    let f = fire_set(root, tp);
    assert(f =~= t) by {
        assert forall|t2: Seq<Form>| #[trigger] f.contains(t2) implies t.contains(t2) by {
            if !tp.contains(t2) {
                let (t0, x0, p0) = choose|t0: Seq<Form>, x0: Form, p0: Form|
                    #[trigger] fire_candidate(root, tp, t0, x0, p0) && t2 == token_replace(
                        t0,
                        x0,
                        p0,
                    );
            }
        }
    }
}

impl Expr {
    /// The identity sequent of this expression: itself and its normalised
    /// inverse, as an ordered set.
    pub fn axiom_set(&self) -> (r: Vec<Expr>)
        ensures
            forms_of(r@) == axiom_pair(self@),
    {
        let mut r: Vec<Expr> = Vec::new();
        insert_expr(&mut r, self.clone());
        insert_expr(&mut r, self.inverse().normal());
        proof {
            let pair = seq![self@, norm(invert(self@))];
            assert(pair.drop_last() =~= seq![self@]);
            assert(pair.last() == norm(invert(self@)));
            assert(seq![self@].drop_last() =~= Seq::<Form>::empty());
            assert(seq![self@].last() == self@);
            assert(forms_of(Seq::<Expr>::empty()) =~= Seq::<Form>::empty());
            assert(sort_dedup(Seq::<Form>::empty()) == Seq::<Form>::empty());
            assert(sort_dedup(seq![self@]) == sorted_insert(Seq::<Form>::empty(), self@));
            assert(axiom_pair(self@) == sorted_insert(sort_dedup(seq![self@]), norm(invert(self@))));
        }
        r
    }

    /// Whether this expression is itself an identity sequent: a two-operand disjunction
    /// of an expression and its normalised inverse.
    pub fn is_axiom(&self) -> (r: bool)
        ensures
            r == match self@ {
                Form::Or(xs) => xs.len() == 2 && exists|i: int, j: int|
                    0 <= i < 2 && 0 <= j < 2 && #[trigger] xs[j] == norm(invert(#[trigger] xs[i])),
                _ => false,
            },
    {
        match self {
            Expr::Or(subexprs) => {
                proof {
                    lemma_forms_of(subexprs@);
                }
                if subexprs.len() != 2 {
                    return false;
                }
                let mut i: usize = 0;
                while i < 2
                    invariant
                        i <= 2,
                        subexprs.len() == 2,
                        self@ is Or && self@->Or_0 == forms_of(subexprs@),
                        forms_of(subexprs@).len() == 2,
                        forall|a: int, b: int|
                            0 <= a < i && 0 <= b < 2 ==> #[trigger] forms_of(subexprs@)[b] != norm(
                                invert(#[trigger] forms_of(subexprs@)[a]),
                            ),
                    decreases 2 - i,
                {
                    proof {
                        broadcast use lemma_forms_of;

                    }
                    let inv = subexprs[i].inverse().normal();
                    if contains_expr(subexprs, &inv) {
                        proof {
                            broadcast use lemma_forms_of;

                            let xs = forms_of(subexprs@);
                            let j = choose|j: int| 0 <= j < xs.len() && xs[j] == inv@;
                            assert(xs[j] == norm(invert(xs[i as int])));
                        }
                        return true;
                    }
                    proof {
                        broadcast use lemma_forms_of;

                        let xs = forms_of(subexprs@);
                        assert forall|b: int| 0 <= b < 2 implies xs[b] != norm(
                            invert(xs[i as int]),
                        ) by {
                            if xs[b] == norm(invert(xs[i as int])) {
                                assert(xs.contains(xs[b]));
                            }
                        }
                    }
                    i = i + 1;
                }
                false
            },
            _ => false,
        }
    }

    /// The immediate operands of this expression: the operand set of a
    /// conjunction or disjunction, nothing for anything else.
    pub fn children(&self) -> (r: Vec<Expr>)
        ensures
            forms_of(r@) == children_of(self@),
    {
        match self {
            Expr::And(children) => {
                let r = crate::expression::clone_exprs(children);
                proof {
                    lemma_forms_of(r@);
                    lemma_forms_of(children@);
                    assert(forms_of(r@) =~= forms_of(children@));
                }
                r
            },
            Expr::Or(children) => {
                let r = crate::expression::clone_exprs(children);
                proof {
                    lemma_forms_of(r@);
                    lemma_forms_of(children@);
                    assert(forms_of(r@) =~= forms_of(children@));
                }
                r
            },
            _ => {
                let r: Vec<Expr> = Vec::new();
                proof {
                    assert(forms_of(r@) =~= children_of(self@));
                }
                r
            },
        }
    }

    /// The dimension bound of this expression: the number of its distinct
    /// atom and negated-atom leaves. Projection is permitted while every
    /// token is at most this large.
    pub fn dim_bound(&self) -> (r: usize)
        ensures
            r == atoms_set(self@).len(),
    {
        let atoms = self.atoms();
        proof {
            lemma_forms_of(atoms@);
            lemma_sorted_set_len(forms_of(atoms@));
            assert(forms_of(atoms@).to_set() =~= atoms_set(self@));
        }
        atoms.len()
    }
}

/// Whether the frontier holds a token with this view.
pub fn frontier_contains(tokens: &Vec<Vec<Expr>>, t: &Vec<Expr>) -> (r: bool)
    ensures
        r == path_views(tokens@).contains(forms_of(t@)),
{
    proof {
        lemma_path_views(tokens@);
    }
    let mut k: usize = 0;
    while k < tokens.len()
        invariant
            k <= tokens.len(),
            path_views(tokens@).len() == tokens.len(),
            forall|j: int| 0 <= j < k ==> path_views(tokens@)[j] != forms_of(t@),
        decreases tokens.len() - k,
    {
        proof {
            lemma_path_views(tokens@);
        }
        if same_exprs(&tokens[k], t) {
            proof {
                assert(path_views(tokens@)[k as int] == forms_of(t@));
                assert(path_views(tokens@).contains(forms_of(t@)));
            }
            return true;
        }
        k = k + 1;
    }
    proof {
        if path_views(tokens@).contains(forms_of(t@)) {
            let j = choose|j: int|
                0 <= j < path_views(tokens@).len() && path_views(tokens@)[j] == forms_of(t@);
        }
    }
    false
}

/// Adds a token to the frontier unless an equal one is already there.
pub fn frontier_insert(tokens: &mut Vec<Vec<Expr>>, t: Vec<Expr>)
    ensures
        path_views(old(tokens)@).contains(forms_of(t@)) ==> path_views(final(tokens)@)
            == path_views(old(tokens)@),
        !path_views(old(tokens)@).contains(forms_of(t@)) ==> path_views(final(tokens)@)
            == path_views(old(tokens)@).push(forms_of(t@)),
{
    let present = frontier_contains(tokens, &t);
    if !present {
        let ghost oldseq = tokens@;
        tokens.push(t);
        proof {
            lemma_path_views(tokens@);
            lemma_path_views(oldseq);
            assert(path_views(tokens@) =~= path_views(oldseq).push(forms_of(t@)));
        }
    }
}

impl Expr {
    /// The frontier the engine starts from: for every atom of this expression
    /// whose inverse also occurs in it, the identity sequent of that atom.
    pub fn spawn(&self) -> (r: Vec<Vec<Expr>>)
        ensures
            frontier_wf(path_views(r@)),
            path_views(r@).to_set() == spawn_set(self@),
            frontier_in(path_views(r@), atoms_set(self@)),
    {
        let atoms = self.atoms();
        let ghost av = forms_of(atoms@);
        let mut out: Vec<Vec<Expr>> = Vec::new();
        let mut i: usize = 0;
        proof {
            lemma_forms_of(atoms@);
            assert forall|t: Seq<Form>| !path_views(out@).contains(t) by {
                if path_views(out@).contains(t) {
                    let k = choose|k: int|
                        0 <= k < path_views(out@).len() && path_views(out@)[k] == t;
                }
            }
        }
        while i < atoms.len()
            invariant
                i <= atoms.len(),
                av == forms_of(atoms@),
                av.len() == atoms.len(),
                forall|y: Form| av.contains(y) <==> atoms_set(self@).contains(y),
                frontier_wf(path_views(out@)),
                frontier_in(path_views(out@), atoms_set(self@)),
                forall|t: Seq<Form>|
                    #[trigger] path_views(out@).contains(t) <==> exists|k: int|
                        0 <= k < i && atoms_set(self@).contains(
                            norm(invert(#[trigger] av[k])),
                        ) && t == axiom_pair(av[k]),
            decreases atoms.len() - i,
        {
            proof {
                lemma_forms_of(atoms@);
            }
            let pair = atoms[i].axiom_set();
            let ghost a = av[i as int];
            proof {
                assert(av.contains(a));
                lemma_sort_dedup(seq![a, norm(invert(a))]);
                assert(seq![a, norm(invert(a))].contains(a)) by {
                    assert(seq![a, norm(invert(a))][0] == a);
                }
                assert(seq![a, norm(invert(a))].contains(norm(invert(a)))) by {
                    assert(seq![a, norm(invert(a))][1] == norm(invert(a)));
                }
                let pair0 = seq![a, norm(invert(a))];
                assert forall|y: Form| #[trigger] pair0.contains(y) implies y == a || y == norm(
                    invert(a),
                ) by {
                    let k = choose|k: int| 0 <= k < 2 && pair0[k] == y;
                }
            }
            let mut ok = true;
            let mut e: usize = 0;
            proof {
                lemma_forms_of(pair@);
            }
            while e < pair.len()
                invariant
                    e <= pair.len(),
                    forms_of(pair@) == axiom_pair(a),
                    forms_of(pair@).len() == pair.len(),
                    av == forms_of(atoms@),
                    ok ==> forall|j: int|
                        0 <= j < e ==> av.contains(#[trigger] forms_of(pair@)[j]),
                    !ok ==> exists|j: int|
                        0 <= j < pair@.len() && !av.contains(#[trigger] forms_of(pair@)[j]),
                decreases pair.len() - e,
            {
                proof {
                    lemma_forms_of(pair@);
                }
                let hit = contains_expr(&atoms, &pair[e]);
                proof {
                    assert(pair[e as int]@ == forms_of(pair@)[e as int]);
                }
                if !hit {
                    ok = false;
                    proof {
                        assert(!av.contains(forms_of(pair@)[e as int]));
                    }
                }
                e = e + 1;
            }
            if ok {
                let ghost before = path_views(out@);
                proof {
                    // the pair's members, hence the inverse, occur in the root
                    lemma_sort_dedup(seq![a, norm(invert(a))]);
                    assert forall|y: Form| #[trigger] axiom_pair(a).contains(y) implies av.contains(
                        y,
                    ) by {
                        let j = choose|j: int|
                            0 <= j < axiom_pair(a).len() && axiom_pair(a)[j] == y;
                        assert(forms_of(pair@)[j] == y);
                    }
                    assert(axiom_pair(a).contains(norm(invert(a))));
                    assert(atoms_set(self@).contains(norm(invert(a))));
                }
                frontier_insert(&mut out, pair);
                proof {
                    lemma_spawn_insert_invariant(before, path_views(out@), a, av, atoms_set(self@), i as int);
                }
            } else {
                proof {
                    // some member of the identity pair is missing from the atoms
                    let j = choose|j: int|
                        0 <= j < pair.len() && !av.contains(#[trigger] forms_of(pair@)[j]);
                    lemma_sort_dedup(seq![a, norm(invert(a))]);
                    assert(axiom_pair(a).contains(forms_of(pair@)[j]));
                    assert(!atoms_set(self@).contains(norm(invert(a))));
                    assert forall|t: Seq<Form>|
                        #[trigger] path_views(out@).contains(t) <==> exists|k: int|
                            0 <= k < i + 1 && atoms_set(self@).contains(
                                norm(invert(#[trigger] av[k])),
                            ) && t == axiom_pair(av[k]) by {
                        if path_views(out@).contains(t) {
                            let k = choose|k: int|
                                0 <= k < i && atoms_set(self@).contains(norm(invert(#[trigger] av[k])))
                                    && t == axiom_pair(av[k]);
                        }
                        if exists|k: int|
                            0 <= k < i + 1 && atoms_set(self@).contains(
                                norm(invert(#[trigger] av[k])),
                            ) && t == axiom_pair(av[k]) {
                            let k = choose|k: int|
                                0 <= k < i + 1 && atoms_set(self@).contains(
                                    norm(invert(#[trigger] av[k])),
                                ) && t == axiom_pair(av[k]);
                            assert(k < i);
                        }
                    }
                }
            }
            i = i + 1;
        }
        proof {
            assert(path_views(out@).to_set() =~= spawn_set(self@)) by {
                assert forall|t: Seq<Form>|
                    path_views(out@).to_set().contains(t) implies spawn_set(self@).contains(t) by {
                    let k = choose|k: int|
                        0 <= k < atoms.len() && atoms_set(self@).contains(
                            norm(invert(#[trigger] av[k])),
                        ) && t == axiom_pair(av[k]);
                    assert(av.contains(av[k]));
                    assert(atoms_set(self@).contains(av[k]));
                }
                assert forall|t: Seq<Form>|
                    spawn_set(self@).contains(t) implies path_views(out@).to_set().contains(t) by {
                    let a = choose|a: Form|
                        atoms_set(self@).contains(a) && atoms_set(self@).contains(norm(invert(a)))
                            && t == #[trigger] axiom_pair(a);
                    assert(av.contains(a));
                    let k = choose|k: int| 0 <= k < av.len() && av[k] == a;
                    assert(atoms_set(self@).contains(norm(invert(av[k]))));
                    assert(path_views(out@).contains(t));
                }
            }
        }
        out
    }
}

/// Extending the spawn frontier by the identity sequent of one more
/// admissible atom.
proof fn lemma_spawn_insert_invariant(
    before: Seq<Seq<Form>>,
    after: Seq<Seq<Form>>,
    a: Form,
    av: Seq<Form>,
    atoms: Set<Form>,
    i: int,
)
    requires
        0 <= i < av.len(),
        av[i] == a,
        atoms.contains(a),
        atoms.contains(norm(invert(a))),
        strictly_sorted(axiom_pair(a)),
        forall|y: Form| #[trigger] axiom_pair(a).contains(y) ==> atoms.contains(y),
        frontier_wf(before),
        frontier_in(before, atoms),
        forall|t: Seq<Form>|
            #[trigger] before.contains(t) <==> exists|k: int|
                0 <= k < i && atoms.contains(norm(invert(#[trigger] av[k]))) && t == axiom_pair(
                    av[k],
                ),
        before.contains(axiom_pair(a)) ==> after == before,
        !before.contains(axiom_pair(a)) ==> after == before.push(axiom_pair(a)),
    ensures
        frontier_wf(after),
        frontier_in(after, atoms),
        forall|t: Seq<Form>|
            #[trigger] after.contains(t) <==> exists|k: int|
                0 <= k < i + 1 && atoms.contains(norm(invert(#[trigger] av[k]))) && t == axiom_pair(
                    av[k],
                ),
{
    broadcast use vstd::seq_lib::lemma_seq_contains_after_push;

    assert forall|t: Seq<Form>| #[trigger] after.contains(t) implies exists|k: int|
        0 <= k < i + 1 && atoms.contains(norm(invert(#[trigger] av[k]))) && t == axiom_pair(
            av[k],
        ) by {
        if before.contains(t) {
            let k = choose|k: int|
                0 <= k < i && atoms.contains(norm(invert(#[trigger] av[k]))) && t == axiom_pair(
                    av[k],
                );
        } else {
            assert(t == axiom_pair(av[i]));
        }
    }
    assert forall|t: Seq<Form>|
        (exists|k: int|
            0 <= k < i + 1 && atoms.contains(norm(invert(#[trigger] av[k]))) && t == axiom_pair(
                av[k],
            )) implies after.contains(t) by {
        let k = choose|k: int|
            0 <= k < i + 1 && atoms.contains(norm(invert(#[trigger] av[k]))) && t == axiom_pair(
                av[k],
            );
        if k < i {
            assert(before.contains(t));
        } else {
            if !before.contains(axiom_pair(a)) {
                assert(after.last() == axiom_pair(a));
                assert(after.contains(axiom_pair(a)));
            }
        }
    }
    if !before.contains(axiom_pair(a)) {
        assert forall|k1: int, k2: int| 0 <= k1 < k2 < after.len() implies after[k1]
            != after[k2] by {
            if k2 == after.len() - 1 {
                assert(before.contains(after[k1]));
                assert(after[k1] == before[k1]);
            } else {
                assert(after[k1] == before[k1] && after[k2] == before[k2]);
            }
        }
        assert forall|k: int| 0 <= k < after.len() implies strictly_sorted(#[trigger] after[k]) by {
            if k < after.len() - 1 {
                assert(after[k] == before[k]);
            }
        }
        assert forall|k: int, e: int|
            0 <= k < after.len() && 0 <= e < after[k].len() implies atoms.contains(
            #[trigger] after[k][e],
        ) by {
            if k < after.len() - 1 {
                assert(after[k] == before[k]);
            } else {
                assert(after[k] == axiom_pair(a));
                assert(axiom_pair(a).contains(after[k][e]));
            }
        }
    }
}

/// In a negation-free form, no node is a negation.
pub proof fn lemma_subforms_not_free(f: Form)
    requires
        !has_not(f),
    ensures
        forall|y: Form| #[trigger] subforms(f).contains(y) ==> !(y is Not),
    decreases f,
{
    match f {
        Form::And(xs) => {
            assert forall|y: Form| #[trigger] subforms(f).contains(y) implies !(y is Not) by {
                if y != f {
                    crate::expression::lemma_subforms_seq(xs, y);
                    let i = choose|i: int|
                        0 <= i < xs.len() && #[trigger] subforms(xs[i]).contains(y);
                    crate::expression::lemma_has_not_seq(xs);
                    lemma_subforms_not_free(xs[i]);
                }
            }
        },
        Form::Or(xs) => {
            assert forall|y: Form| #[trigger] subforms(f).contains(y) implies !(y is Not) by {
                if y != f {
                    crate::expression::lemma_subforms_seq(xs, y);
                    let i = choose|i: int|
                        0 <= i < xs.len() && #[trigger] subforms(xs[i]).contains(y);
                    crate::expression::lemma_has_not_seq(xs);
                    lemma_subforms_not_free(xs[i]);
                }
            }
        },
        _ => {
            assert forall|y: Form| #[trigger] subforms(f).contains(y) implies !(y is Not) by {}
        },
    }
}

/// Every form has its own one-step path, and one-step paths are the only
/// paths of length one.
pub proof fn lemma_lineages_shape(f: Form)
    ensures
        lineages(f).contains(seq![f]),
        forall|l: Seq<Form>|
            #[trigger] lineages(f).contains(l) ==> l.len() >= 1 && (l.len() == 1 ==> l == seq![f]),
    decreases f,
{
    match f {
        Form::And(xs) => {
            lemma_lineages_shape_seq(xs);
        },
        Form::Or(xs) => {
            lemma_lineages_shape_seq(xs);
        },
        _ => {
            assert forall|l: Seq<Form>| #[trigger] lineages(f).contains(l) implies l.len() >= 1 && (
            l.len() == 1 ==> l == seq![f]) by {}
        },
    }
}

/// Paths gathered from a sequence of forms are never empty.
proof fn lemma_lineages_shape_seq(xs: Seq<Form>)
    ensures
        forall|l: Seq<Form>| #[trigger] lineages_seq(xs).contains(l) ==> l.len() >= 1,
    decreases xs,
{
    assert forall|l: Seq<Form>| #[trigger] lineages_seq(xs).contains(l) implies l.len() >= 1 by {
        crate::expression::lemma_lineages_seq(xs, l);
        let i = choose|i: int| 0 <= i < xs.len() && #[trigger] lineages(xs[i]).contains(l);
        lemma_lineages_shape(xs[i]);
    }
}

/// A path of length at least two witnesses that its second node occurs in the
/// root and has the head among its operands.
pub proof fn lemma_adjacent_of_lineage(f: Form, l: Seq<Form>)
    requires
        !has_not(f),
        lineages(f).contains(l),
        l.len() >= 2,
    ensures
        subforms(f).contains(l[1]),
        children_of(l[1]).contains(l[0]),
    decreases f, 1int,
{
    match f {
        Form::And(xs) => {
            lemma_adjacent_of_lineage_step(f, xs, l);
        },
        Form::Or(xs) => {
            lemma_adjacent_of_lineage_step(f, xs, l);
        },
        _ => {},
    }
}

/// The connective case of `lemma_adjacent_of_lineage`.
proof fn lemma_adjacent_of_lineage_step(f: Form, xs: Seq<Form>, l: Seq<Form>)
    requires
        !has_not(f),
        f is And || f is Or,
        children_of(f) == xs,
        lineages(f) == crate::expression::extend_lineages(lineages_seq(xs), f),
        lineages(f).contains(l),
        l.len() >= 2,
    ensures
        subforms(f).contains(l[1]),
        children_of(l[1]).contains(l[0]),
    decreases f, 0int,
{
    crate::expression::lemma_has_not_seq(xs);
    let below = lineages_seq(xs);
    assert(l != seq![f]);
    assert(below.contains(l.drop_last()));
    crate::expression::lemma_lineages_seq(xs, l.drop_last());
    let i = choose|i: int| 0 <= i < xs.len() && #[trigger] lineages(xs[i]).contains(l.drop_last());
    lemma_lineages_shape(xs[i]);
    assert(subforms(f).contains(f));
    if l.len() == 2 {
        assert(l.drop_last() == seq![l[0]]) by {
            assert(l.drop_last() =~= seq![l[0]]);
        }
        assert(l.drop_last().len() == 1);
        assert(l.drop_last() == seq![xs[i]]);
        assert(seq![l[0]][0] == l[0] && seq![xs[i]][0] == xs[i]);
        assert(l[0] == xs[i]);
        assert(l[1] == l.last());
        assert(l.last() == f) by {
            if l != seq![f] {
                assert(l.len() > 0 && l.last() == f);
            }
        }
        assert(children_of(f).contains(xs[i]));
    } else {
        let l2 = l.drop_last();
        assert(l2.len() >= 2);
        lemma_adjacent_of_lineage(xs[i], l2);
        assert(l[0] == l2[0] && l[1] == l2[1]);
        crate::expression::lemma_subforms_seq(xs, l2[1]);
        assert(subforms(f).contains(l2[1]));
    }
}

/// Every occurrence of an operand relation is witnessed by a path: if `p`
/// occurs in the root and `x` is an operand of `p`, some path starts at `x`
/// and continues at `p`.
pub proof fn lemma_lineage_of_adjacent(f: Form, x: Form, p: Form)
    requires
        !has_not(f),
        subforms(f).contains(p),
        children_of(p).contains(x),
    ensures
        exists|l: Seq<Form>|
            #[trigger] lineages(f).contains(l) && l.len() >= 2 && l[0] == x && l[1] == p,
    decreases f, 1int,
{
    match f {
        Form::And(xs) => {
            lemma_lineage_of_adjacent_step(f, xs, x, p);
        },
        Form::Or(xs) => {
            lemma_lineage_of_adjacent_step(f, xs, x, p);
        },
        Form::Not(_) => {},
        Form::Atom(_) => {
            assert(subforms(f).contains(p) ==> p == f);
            assert(children_of(f) =~= Seq::<Form>::empty());
            assert(children_of(p).contains(x));
            let i = choose|i: int| 0 <= i < children_of(p).len() && children_of(p)[i] == x;
        },
        Form::NotAtom(_) => {
            assert(subforms(f).contains(p) ==> p == f);
            assert(children_of(f) =~= Seq::<Form>::empty());
            let i = choose|i: int| 0 <= i < children_of(p).len() && children_of(p)[i] == x;
        },
    }
}

/// The connective case of `lemma_lineage_of_adjacent`.
proof fn lemma_lineage_of_adjacent_step(f: Form, xs: Seq<Form>, x: Form, p: Form)
    requires
        !has_not(f),
        f is And || f is Or,
        children_of(f) == xs,
        lineages(f) == crate::expression::extend_lineages(lineages_seq(xs), f),
        subforms(f).contains(p),
        children_of(p).contains(x),
    ensures
        exists|l: Seq<Form>|
            #[trigger] lineages(f).contains(l) && l.len() >= 2 && l[0] == x && l[1] == p,
    decreases f, 0int,
{
    crate::expression::lemma_has_not_seq(xs);
    let below = lineages_seq(xs);
    if p == f {
        let i = choose|i: int| 0 <= i < xs.len() && xs[i] == x;
        lemma_lineages_shape(xs[i]);
        crate::expression::lemma_lineages_seq(xs, seq![x]);
        assert(below.contains(seq![x]));
        let l = seq![x].push(f);
        assert(l.drop_last() =~= seq![x]);
        assert(l.len() == 2 && l.last() == f);
        assert(lineages(f).contains(l));
        assert(l[0] == x && l[1] == p);
    } else {
        crate::expression::lemma_subforms_seq(xs, p);
        let i = choose|i: int| 0 <= i < xs.len() && #[trigger] subforms(xs[i]).contains(p);
        lemma_lineage_of_adjacent(xs[i], x, p);
        let l2 = choose|l2: Seq<Form>|
            #[trigger] lineages(xs[i]).contains(l2) && l2.len() >= 2 && l2[0] == x && l2[1] == p;
        crate::expression::lemma_lineages_seq(xs, l2);
        assert(below.contains(l2));
        let l = l2.push(f);
        assert(l.drop_last() =~= l2);
        assert(l.len() > 0 && l.last() == f);
        assert(lineages(f).contains(l));
        assert(l[0] == l2[0] && l[1] == l2[1]);
    }
}

/// Removes an expression from an ordered set of expressions.
fn token_remove(t: &Vec<Expr>, x: &Expr) -> (r: Vec<Expr>)
    ensures
        forms_of(r@) == remove_form(forms_of(t@), x@),
{
    let ghost fs = forms_of(t@);
    let mut out: Vec<Expr> = Vec::new();
    let mut i: usize = 0;
    proof {
        lemma_forms_of(t@);
        assert(fs.take(0) =~= Seq::<Form>::empty());
        assert(forms_of(out@) =~= Seq::<Form>::empty());
    }
    while i < t.len()
        invariant
            i <= t.len(),
            fs == forms_of(t@),
            fs.len() == t.len(),
            forms_of(out@) == remove_form(fs.take(i as int), x@),
        decreases t.len() - i,
    {
        proof {
            lemma_forms_of(t@);
        }
        let c = crate::order::cmp_expr(&t[i], x);
        proof {
            lemma_cmp_form_eq(fs[i as int], x@);
            lemma_cmp_form_eq(fs[i as int], fs[i as int]);
            assert(fs.take(i + 1).drop_last() =~= fs.take(i as int));
            assert(fs.take(i + 1).last() == fs[i as int]);
        }
        if c != 0 {
            let ghost before = forms_of(out@);
            let ghost oldseq = out@;
            let e = t[i].clone();
            out.push(e);
            proof {
                lemma_forms_of(out@);
                lemma_forms_of(oldseq);
                lemma_forms_of(t@);
                assert(forms_of(out@) =~= before.push(fs[i as int]));
            }
        }
        i = i + 1;
    }
    proof {
        assert(fs.take(t@.len() as int) =~= fs);
    }
    out
}

/// The sibling- or parent-token: the given token with `x` exchanged for `y`.
fn token_swap(t: &Vec<Expr>, x: &Expr, y: &Expr) -> (r: Vec<Expr>)
    ensures
        forms_of(r@) == token_replace(forms_of(t@), x@, y@),
{
    let mut out = token_remove(t, x);
    insert_expr(&mut out, y.clone());
    out
}

/// Whether the frontier admits firing `x` in `t` up to the connective
/// `parent`: a conjunction needs every sibling-token present, a disjunction
/// needs one.
fn check_siblings(tokens: &Vec<Vec<Expr>>, t: &Vec<Expr>, x: &Expr, parent: &Expr) -> (r: bool)
    requires
        parent@ is And || parent@ is Or,
    ensures
        r == fire_ok(path_views(tokens@).to_set(), forms_of(t@), x@, parent@),
{
    let ghost tv = path_views(tokens@).to_set();
    let siblings = parent.children();
    let ghost cs = children_of(parent@);
    proof {
        lemma_forms_of(siblings@);
    }
    let and_kind = match parent {
        Expr::And(_) => true,
        _ => false,
    };
    let mut j: usize = 0;
    while j < siblings.len()
        invariant
            j <= siblings.len(),
            forms_of(siblings@) == cs,
            cs.len() == siblings.len(),
            tv == path_views(tokens@).to_set(),
            and_kind == parent@ is And,
            and_kind ==> forall|k: int|
                0 <= k < j ==> tv.contains(
                    #[trigger] token_replace(forms_of(t@), x@, cs[k]),
                ),
            !and_kind ==> forall|k: int|
                0 <= k < j ==> !tv.contains(
                    #[trigger] token_replace(forms_of(t@), x@, cs[k]),
                ),
        decreases siblings.len() - j,
    {
        proof {
            lemma_forms_of(siblings@);
        }
        let st = token_swap(t, x, &siblings[j]);
        let present = frontier_contains(tokens, &st);
        proof {
            assert(forms_of(st@) == token_replace(forms_of(t@), x@, cs[j as int]));
            assert(tv.contains(forms_of(st@)) == path_views(tokens@).contains(forms_of(st@)));
        }
        if and_kind {
            if !present {
                proof {
                    let w = cs[j as int];
                    assert(parent@ is And);
                    assert(children_of(parent@).contains(w));
                    assert(!tv.contains(token_replace(forms_of(t@), x@, w)));
                    assert(!fire_ok(tv, forms_of(t@), x@, parent@)) by {
                        assert(children_of(parent@).contains(w) && !tv.contains(
                            token_replace(forms_of(t@), x@, w),
                        ));
                    }
                }
                return false;
            }
        } else {
            if present {
                proof {
                    let w = cs[j as int];
                    assert(!(parent@ is And));
                    assert(children_of(parent@).contains(w));
                    assert(tv.contains(token_replace(forms_of(t@), x@, w)));
                    assert(fire_ok(tv, forms_of(t@), x@, parent@)) by {
                        assert(children_of(parent@).contains(w) && tv.contains(
                            token_replace(forms_of(t@), x@, w),
                        ));
                    }
                }
                return true;
            }
        }
        j = j + 1;
    }
    proof {
        if and_kind {
            assert forall|c: Form| cs.contains(c) implies tv.contains(
                #[trigger] token_replace(forms_of(t@), x@, c),
            ) by {
                let k = choose|k: int| 0 <= k < cs.len() && cs[k] == c;
            }
        } else {
            assert forall|c: Form| cs.contains(c) implies !tv.contains(
                #[trigger] token_replace(forms_of(t@), x@, c),
            ) by {
                let k = choose|k: int| 0 <= k < cs.len() && cs[k] == c;
            }
        }
    }
    if and_kind {
        true
    } else {
        false
    }
}

/// A copy of a frontier, token for token.
fn clone_frontier(tokens: &Vec<Vec<Expr>>) -> (r: Vec<Vec<Expr>>)
    ensures
        path_views(r@) == path_views(tokens@),
{
    let mut out: Vec<Vec<Expr>> = Vec::new();
    let mut k: usize = 0;
    while k < tokens.len()
        invariant
            k <= tokens.len(),
            out.len() == k,
            forall|j: int| 0 <= j < k ==> forms_of(#[trigger] out[j]@) == forms_of(tokens[j]@),
        decreases tokens.len() - k,
    {
        out.push(crate::expression::clone_exprs(&tokens[k]));
        proof {
            lemma_forms_of(out[out.len() - 1]@);
            lemma_forms_of(tokens[k as int]@);
            assert(forms_of(out[k as int]@) =~= forms_of(tokens[k as int]@));
        }
        k = k + 1;
    }
    proof {
        lemma_path_views(out@);
        lemma_path_views(tokens@);
        assert(path_views(out@) =~= path_views(tokens@));
    }
    out
}

/// Admits into `out` every parent-token the fire rule earns by exchanging
/// `x` in `t` for a parent of `x`, scanning the root's ancestor paths.
#[verifier::rlimit(30)]
fn fire_expr(
    root: &Expr,
    lins: &Vec<Vec<Expr>>,
    tokens: &Vec<Vec<Expr>>,
    t: &Vec<Expr>,
    x: &Expr,
    out: &mut Vec<Vec<Expr>>,
)
    requires
        !has_not(root@),
        strictly_sorted(forms_of(t@)),
        path_views(tokens@).to_set().contains(forms_of(t@)),
        forms_of(t@).contains(x@),
        forall|p: Seq<Form>|
            #[trigger] path_views(lins@).contains(p) <==> crate::expression::lineages(
                root@,
            ).contains(p),
        frontier_wf(path_views(old(out)@)),
        frontier_in(path_views(old(out)@), subforms(root@)),
        frontier_in(path_views(tokens@), subforms(root@)),
        forall|t2: Seq<Form>|
            path_views(tokens@).to_set().contains(t2) ==> #[trigger] path_views(
                old(out)@,
            ).contains(t2),
    ensures
        frontier_wf(path_views(final(out)@)),
        frontier_in(path_views(final(out)@), subforms(root@)),
        path_views(old(out)@).len() <= path_views(final(out)@).len(),
        path_views(final(out)@).take(path_views(old(out)@).len() as int) == path_views(old(out)@),
        forall|t2: Seq<Form>|
            #[trigger] path_views(final(out)@).contains(t2) <==> path_views(old(out)@).contains(t2)
                || (exists|p: Form|
                #[trigger] fire_candidate(
                    root@,
                    path_views(tokens@).to_set(),
                    forms_of(t@),
                    x@,
                    p,
                ) && t2 == token_replace(forms_of(t@), x@, p)),
{
    let ghost tv = path_views(tokens@).to_set();
    let ghost tf = forms_of(t@);
    let ghost base = path_views(out@);
    let ghost lviews = path_views(lins@);
    proof {
        lemma_path_views(lins@);
    }
    let mut li: usize = 0;
    while li < lins.len()
        invariant
            li <= lins.len(),
            !has_not(root@),
            strictly_sorted(tf),
            tf == forms_of(t@),
            tv == path_views(tokens@).to_set(),
            tv.contains(tf),
            tf.contains(x@),
            lviews == path_views(lins@),
            lviews.len() == lins.len(),
            forall|p: Seq<Form>|
                #[trigger] lviews.contains(p) <==> crate::expression::lineages(root@).contains(p),
            frontier_wf(path_views(out@)),
            frontier_in(path_views(out@), subforms(root@)),
            frontier_in(path_views(tokens@), subforms(root@)),
            base.len() <= path_views(out@).len(),
            path_views(out@).take(base.len() as int) == base,
            forall|t2: Seq<Form>|
                #[trigger] path_views(out@).contains(t2) <==> base.contains(t2) || (exists|
                    k: int,
                    p: Form,
                |
                    #![trigger lviews[k], token_replace(tf, x@, p)]
                    0 <= k < li && lviews[k].len() >= 2 && lviews[k][0] == x@
                        && lviews[k][1] == p && fire_candidate(root@, tv, tf, x@, p) && t2
                        == token_replace(tf, x@, p)),
        decreases lins.len() - li,
    {
        proof {
            lemma_path_views(lins@);
            lemma_forms_of(lins[li as int]@);
        }
        let l = &lins[li];
        let ghost lv = lviews[li as int];
        let mut fired = false;
        let ghost did_p: Form = arbitrary();
        if l.len() >= 2 {
            let c = crate::order::cmp_expr(&l[0], x);
            proof {
                lemma_cmp_form_eq(lv[0], x@);
            }
            if c == 0 {
                let parent = &l[1];
                proof {
                    // the path witnesses that `parent` occurs with operand `x`
                    assert(lviews.contains(lv)) by {
                        assert(lviews[li as int] == lv);
                    }
                    assert(crate::expression::lineages(root@).contains(lv));
                    lemma_adjacent_of_lineage(root@, lv);
                    assert(subforms(root@).contains(lv[1]));
                    assert(children_of(lv[1]).contains(lv[0]));
                    lemma_subforms_not_free(root@);
                    if lv[1] is Atom || lv[1] is NotAtom {
                        assert(children_of(lv[1]) =~= Seq::<Form>::empty());
                        let i = choose|i: int|
                            0 <= i < children_of(lv[1]).len() && children_of(lv[1])[i] == lv[0];
                        assert(false);
                    }
                    assert(parent@ == lv[1]);
                }
                let parent_token = token_swap(t, x, parent);
                let already = frontier_contains(tokens, &parent_token);
                proof {
                    if already {
                        // an already-derived parent-token needs no new work
                        assert(tv.contains(token_replace(tf, x@, lv[1])));
                        assert(base.contains(token_replace(tf, x@, lv[1])));
                        assert(path_views(out@).contains(token_replace(tf, x@, lv[1])));
                    }
                }
                let ok = if already {
                    false
                } else {
                    check_siblings(tokens, t, x, parent)
                };
                if ok {
                    proof {
                        lemma_remove_form(tf, x@);
                        lemma_sorted_insert(remove_form(tf, x@), lv[1]);
                        assert(strictly_sorted(token_replace(tf, x@, lv[1])));
                        // every member of the new token occurs in the root
                        assert forall|e: int|
                            0 <= e < token_replace(tf, x@, lv[1]).len() implies subforms(
                            root@,
                        ).contains(#[trigger] token_replace(tf, x@, lv[1])[e]) by {
                            let y = token_replace(tf, x@, lv[1])[e];
                            assert(token_replace(tf, x@, lv[1]).contains(y));
                            if y != lv[1] {
                                assert(remove_form(tf, x@).contains(y));
                                assert(tf.contains(y));
                                let k0 = choose|k0: int|
                                    0 <= k0 < path_views(tokens@).len() && path_views(tokens@)[k0]
                                        == tf;
                                let e0 = choose|e0: int| 0 <= e0 < tf.len() && tf[e0] == y;
                                assert(path_views(tokens@)[k0][e0] == y);
                            }
                        }
                    }
                    let ghost before = path_views(out@);
                    frontier_insert(out, parent_token);
                    fired = true;
                    proof {
                        did_p = lv[1];
                        assert(fire_candidate(root@, tv, tf, x@, lv[1]));
                        lemma_frontier_extend(
                            base,
                            before,
                            path_views(out@),
                            token_replace(tf, x@, lv[1]),
                            subforms(root@),
                        );
                    }
                }
            }
        }
        proof {
            assert forall|t2: Seq<Form>|
                #[trigger] path_views(out@).contains(t2) <==> base.contains(t2) || (exists|
                    k: int,
                    p: Form,
                |
                    #![trigger lviews[k], token_replace(tf, x@, p)]
                    0 <= k < li + 1 && lviews[k].len() >= 2 && lviews[k][0] == x@
                        && lviews[k][1] == p && fire_candidate(root@, tv, tf, x@, p) && t2
                        == token_replace(tf, x@, p)) by {
                if path_views(out@).contains(t2) {
                    if !base.contains(t2) {
                        if fired && t2 == token_replace(tf, x@, did_p) {
                            assert(lviews[li as int].len() >= 2 && lviews[li as int][0] == x@
                                && lviews[li as int][1] == did_p);
                        } else {
                            let (k, p) = choose|k: int, p: Form|
                                #![trigger lviews[k], token_replace(tf, x@, p)]
                                0 <= k < li && lviews[k].len() >= 2 && lviews[k][0] == x@
                                    && lviews[k][1] == p && fire_candidate(root@, tv, tf, x@, p)
                                    && t2 == token_replace(tf, x@, p);
                        }
                    }
                } else {
                    if exists|k: int, p: Form|
                        #![trigger lviews[k], token_replace(tf, x@, p)]
                        0 <= k < li + 1 && lviews[k].len() >= 2 && lviews[k][0] == x@
                            && lviews[k][1] == p && fire_candidate(root@, tv, tf, x@, p) && t2
                            == token_replace(tf, x@, p) {
                        let (k, p) = choose|k: int, p: Form|
                            #![trigger lviews[k], token_replace(tf, x@, p)]
                            0 <= k < li + 1 && lviews[k].len() >= 2 && lviews[k][0] == x@
                                && lviews[k][1] == p && fire_candidate(root@, tv, tf, x@, p) && t2
                                == token_replace(tf, x@, p);
                        if k < li {
                        } else {
                            assert(lviews[li as int].len() >= 2);
                            assert(p == lviews[li as int][1]);
                            assert(path_views(out@).contains(t2));
                        }
                    }
                }
            }
        }
        li = li + 1;
    }
    proof {
        // every admissible parent is witnessed by some ancestor path
        assert forall|t2: Seq<Form>|
            #[trigger] path_views(out@).contains(t2) <==> base.contains(t2) || (exists|p: Form|
                #[trigger] fire_candidate(root@, tv, tf, x@, p) && t2 == token_replace(
                    tf,
                    x@,
                    p,
                )) by {
            if path_views(out@).contains(t2) && !base.contains(t2) {
                let (k, p) = choose|k: int, p: Form|
                    #![trigger lviews[k], token_replace(tf, x@, p)]
                    0 <= k < lviews.len() && lviews[k].len() >= 2 && lviews[k][0] == x@
                        && lviews[k][1] == p && fire_candidate(root@, tv, tf, x@, p) && t2
                        == token_replace(tf, x@, p);
                assert(fire_candidate(root@, tv, tf, x@, p) && t2 == token_replace(tf, x@, p));
            }
            if !path_views(out@).contains(t2) {
                if exists|p: Form|
                    #[trigger] fire_candidate(root@, tv, tf, x@, p) && t2 == token_replace(
                        tf,
                        x@,
                        p,
                    ) {
                    let p = choose|p: Form|
                        #[trigger] fire_candidate(root@, tv, tf, x@, p) && t2 == token_replace(
                            tf,
                            x@,
                            p,
                        );
                    lemma_lineage_of_adjacent(root@, x@, p);
                    let l = choose|l: Seq<Form>|
                        #[trigger] crate::expression::lineages(root@).contains(l) && l.len() >= 2
                            && l[0] == x@ && l[1] == p;
                    assert(lviews.contains(l));
                    let k = choose|k: int| 0 <= k < lviews.len() && lviews[k] == l;
                    assert(lviews[k].len() >= 2 && lviews[k][0] == x@ && lviews[k][1] == p);
                }
            }
        }
    }
}

/// Inserting one well-formed token extends the gathered frontier by it.
proof fn lemma_frontier_extend(
    base: Seq<Seq<Form>>,
    before: Seq<Seq<Form>>,
    after: Seq<Seq<Form>>,
    nt: Seq<Form>,
    u: Set<Form>,
)
    requires
        frontier_wf(before),
        frontier_in(before, u),
        strictly_sorted(nt),
        forall|e: int| 0 <= e < nt.len() ==> u.contains(#[trigger] nt[e]),
        before.contains(nt) ==> after == before,
        !before.contains(nt) ==> after == before.push(nt),
        base.len() <= before.len(),
        before.take(base.len() as int) == base,
    ensures
        frontier_wf(after),
        frontier_in(after, u),
        base.len() <= after.len(),
        after.take(base.len() as int) == base,
        forall|t2: Seq<Form>| #[trigger] after.contains(t2) <==> before.contains(t2) || t2 == nt,
{
    broadcast use vstd::seq_lib::lemma_seq_contains_after_push;

    if !before.contains(nt) {
        assert forall|k1: int, k2: int| 0 <= k1 < k2 < after.len() implies after[k1]
            != after[k2] by {
            if k2 == after.len() - 1 {
                assert(after[k1] == before[k1]);
                assert(before.contains(after[k1]));
            } else {
                assert(after[k1] == before[k1] && after[k2] == before[k2]);
            }
        }
        assert forall|k: int| 0 <= k < after.len() implies strictly_sorted(#[trigger] after[k]) by {
            if k < after.len() - 1 {
                assert(after[k] == before[k]);
            }
        }
        assert forall|k: int, e: int|
            0 <= k < after.len() && 0 <= e < after[k].len() implies u.contains(
            #[trigger] after[k][e],
        ) by {
            if k < after.len() - 1 {
                assert(after[k] == before[k]);
            }
        }
        assert(after.take(base.len() as int) =~= base);
        assert(after.contains(nt)) by {
            assert(after.last() == nt);
        }
    }
}


/// Admits into `out` every parent-token the fire rule earns from the token
/// `t`, member by member.
fn fire_token(
    root: &Expr,
    lins: &Vec<Vec<Expr>>,
    tokens: &Vec<Vec<Expr>>,
    t: &Vec<Expr>,
    out: &mut Vec<Vec<Expr>>,
)
    requires
        !has_not(root@),
        strictly_sorted(forms_of(t@)),
        path_views(tokens@).to_set().contains(forms_of(t@)),
        forall|p: Seq<Form>|
            #[trigger] path_views(lins@).contains(p) <==> crate::expression::lineages(
                root@,
            ).contains(p),
        frontier_wf(path_views(old(out)@)),
        frontier_in(path_views(old(out)@), subforms(root@)),
        frontier_in(path_views(tokens@), subforms(root@)),
        forall|t2: Seq<Form>|
            path_views(tokens@).to_set().contains(t2) ==> #[trigger] path_views(
                old(out)@,
            ).contains(t2),
    ensures
        frontier_wf(path_views(final(out)@)),
        frontier_in(path_views(final(out)@), subforms(root@)),
        path_views(old(out)@).len() <= path_views(final(out)@).len(),
        path_views(final(out)@).take(path_views(old(out)@).len() as int) == path_views(old(out)@),
        forall|t2: Seq<Form>|
            #[trigger] path_views(final(out)@).contains(t2) <==> path_views(old(out)@).contains(t2)
                || (exists|x: Form, p: Form|
                forms_of(t@).contains(x) && #[trigger] fire_candidate(
                    root@,
                    path_views(tokens@).to_set(),
                    forms_of(t@),
                    x,
                    p,
                ) && t2 == token_replace(forms_of(t@), x, p)),
{
    let ghost tv = path_views(tokens@).to_set();
    let ghost tf = forms_of(t@);
    let ghost base = path_views(out@);
    proof {
        lemma_forms_of(t@);
    }
    let mut xi: usize = 0;
    while xi < t.len()
        invariant
            xi <= t.len(),
            tf.len() == t.len(),
            tf == forms_of(t@),
            tv == path_views(tokens@).to_set(),
            frontier_wf(path_views(out@)),
            frontier_in(path_views(out@), subforms(root@)),
            base.len() <= path_views(out@).len(),
            path_views(out@).take(base.len() as int) == base,
            forall|t2: Seq<Form>|
                #[trigger] path_views(out@).contains(t2) <==> base.contains(t2) || (exists|
                    k: int,
                    p: Form,
                |
                    0 <= k < xi && #[trigger] fire_candidate(root@, tv, tf, tf[k], p) && t2
                        == token_replace(tf, tf[k], p)),
        decreases t.len() - xi,
    {
        proof {
            lemma_forms_of(t@);
            assert(tf.contains(tf[xi as int]));
            assert(tf[xi as int] == form_of(t@[xi as int]));
        }
        let ghost mid = path_views(out@);
        let xr = &t[xi];
        proof {
            assert(xr@ == tf[xi as int]);
            assert forall|t2: Seq<Form>| tv.contains(t2) implies #[trigger] path_views(
                out@,
            ).contains(t2) by {
                assert(base.contains(t2));
                let j = choose|j: int| 0 <= j < base.len() && base[j] == t2;
                assert(path_views(out@).take(base.len() as int)[j] == t2);
                assert(path_views(out@)[j] == t2);
            }
        }
        fire_expr(root, lins, tokens, t, xr, out);
        proof {
            assert(forall|t2: Seq<Form>|
                #[trigger] path_views(out@).contains(t2) <==> mid.contains(t2) || (exists|p: Form|
                    #[trigger] fire_candidate(root@, tv, tf, tf[xi as int], p) && t2
                        == token_replace(tf, tf[xi as int], p)));
            assert forall|t2: Seq<Form>|
                #[trigger] path_views(out@).contains(t2) <==> base.contains(t2) || (exists|
                    k: int,
                    p: Form,
                |
                    0 <= k < xi + 1 && #[trigger] fire_candidate(root@, tv, tf, tf[k], p) && t2
                        == token_replace(tf, tf[k], p)) by {
                if path_views(out@).contains(t2) {
                    if !base.contains(t2) {
                        if mid.contains(t2) {
                            let (k, p) = choose|k: int, p: Form|
                                0 <= k < xi && #[trigger] fire_candidate(root@, tv, tf, tf[k], p)
                                    && t2 == token_replace(tf, tf[k], p);
                        } else {
                            let p = choose|p: Form|
                                #[trigger] fire_candidate(root@, tv, tf, tf[xi as int], p) && t2
                                    == token_replace(tf, tf[xi as int], p);
                            assert(fire_candidate(root@, tv, tf, tf[xi as int], p));
                        }
                    }
                } else {
                    if exists|k: int, p: Form|
                        0 <= k < xi + 1 && #[trigger] fire_candidate(root@, tv, tf, tf[k], p) && t2
                            == token_replace(tf, tf[k], p) {
                        let (k, p) = choose|k: int, p: Form|
                            0 <= k < xi + 1 && #[trigger] fire_candidate(root@, tv, tf, tf[k], p)
                                && t2 == token_replace(tf, tf[k], p);
                        if k < xi {
                            assert(mid.contains(t2));
                        } else {
                            assert(fire_candidate(root@, tv, tf, tf[xi as int], p));
                        }
                    }
                }
            }
            assert(path_views(out@).take(base.len() as int) =~= base) by {
                assert(path_views(out@).take(mid.len() as int) == mid);
                assert forall|j: int| 0 <= j < base.len() implies path_views(out@).take(
                    base.len() as int,
                )[j] == base[j] by {
                    assert(path_views(out@)[j] == mid[j]);
                    assert(mid[j] == base[j]);
                }
            }
        }
        xi = xi + 1;
    }
    proof {
        assert forall|t2: Seq<Form>|
            #[trigger] path_views(out@).contains(t2) <==> base.contains(t2) || (exists|
                x: Form,
                p: Form,
            |
                tf.contains(x) && #[trigger] fire_candidate(root@, tv, tf, x, p) && t2
                    == token_replace(tf, x, p)) by {
            if path_views(out@).contains(t2) && !base.contains(t2) {
                let (k, p) = choose|k: int, p: Form|
                    0 <= k < tf.len() && #[trigger] fire_candidate(root@, tv, tf, tf[k], p) && t2
                        == token_replace(tf, tf[k], p);
                assert(tf.contains(tf[k]));
                assert(fire_candidate(root@, tv, tf, tf[k], p) && t2 == token_replace(
                    tf,
                    tf[k],
                    p,
                ));
            }
            if !path_views(out@).contains(t2) {
                if exists|x: Form, p: Form|
                    tf.contains(x) && #[trigger] fire_candidate(root@, tv, tf, x, p) && t2
                        == token_replace(tf, x, p) {
                    let (x, p) = choose|x: Form, p: Form|
                        tf.contains(x) && #[trigger] fire_candidate(root@, tv, tf, x, p) && t2
                            == token_replace(tf, x, p);
                    let k = choose|k: int| 0 <= k < tf.len() && tf[k] == x;
                    assert(fire_candidate(root@, tv, tf, tf[k], p));
                }
            }
        }
    }
}

impl Expr {
    /// One round of the fire rule: the old frontier together with every
    /// admissible parent-token. The old frontier is always preserved.
    pub fn fire(&self, tokens: &Vec<Vec<Expr>>) -> (r: Vec<Vec<Expr>>)
        requires
            !has_not(self@),
            frontier_wf(path_views(tokens@)),
            frontier_in(path_views(tokens@), subforms(self@)),
        ensures
            frontier_wf(path_views(r@)),
            frontier_in(path_views(r@), subforms(self@)),
            tokens@.len() <= r@.len(),
            path_views(r@).take(tokens@.len() as int) == path_views(tokens@),
            path_views(r@).to_set() == fire_set(self@, path_views(tokens@).to_set()),
    {
        let ghost tv = path_views(tokens@).to_set();
        let lins = self.lineage();
        let mut out = clone_frontier(tokens);
        let ghost base = path_views(tokens@);
        proof {
            lemma_path_views(tokens@);
            assert(path_views(out@).take(base.len() as int) =~= base);
        }
        let mut ti: usize = 0;
        while ti < tokens.len()
            invariant
                ti <= tokens.len(),
                base.len() == tokens.len(),
                frontier_wf(path_views(out@)),
                frontier_in(path_views(out@), subforms(self@)),
                base.len() <= path_views(out@).len(),
                path_views(out@).take(base.len() as int) == base,
                forall|t2: Seq<Form>|
                    #[trigger] path_views(out@).contains(t2) <==> base.contains(t2) || (exists|
                        k: int,
                        x: Form,
                        p: Form,
                    |
                        0 <= k < ti && base[k].contains(x) && #[trigger] fire_candidate(
                            self@,
                            tv,
                            base[k],
                            x,
                            p,
                        ) && t2 == token_replace(base[k], x, p)),
            decreases tokens.len() - ti,
        {
            proof {
                lemma_path_views(tokens@);
                assert(base[ti as int] == forms_of(tokens[ti as int]@));
                assert(base.contains(base[ti as int]));
            }
            let ghost mid = path_views(out@);
            proof {
                assert forall|t2: Seq<Form>| tv.contains(t2) implies #[trigger] path_views(
                    out@,
                ).contains(t2) by {
                    assert(base.contains(t2));
                    let j = choose|j: int| 0 <= j < base.len() && base[j] == t2;
                    assert(path_views(out@).take(base.len() as int)[j] == t2);
                    assert(path_views(out@)[j] == t2);
                }
            }
            fire_token(self, &lins, tokens, &tokens[ti], &mut out);
            proof {
                let tfk = base[ti as int];
                assert forall|t2: Seq<Form>|
                    #[trigger] path_views(out@).contains(t2) <==> base.contains(t2) || (exists|
                        k: int,
                        x: Form,
                        p: Form,
                    |
                        0 <= k < ti + 1 && base[k].contains(x) && #[trigger] fire_candidate(
                            self@,
                            tv,
                            base[k],
                            x,
                            p,
                        ) && t2 == token_replace(base[k], x, p)) by {
                    if path_views(out@).contains(t2) {
                        if !base.contains(t2) {
                            if mid.contains(t2) {
                                let (k, x, p) = choose|k: int, x: Form, p: Form|
                                    0 <= k < ti && base[k].contains(x) && #[trigger] fire_candidate(
                                        self@,
                                        tv,
                                        base[k],
                                        x,
                                        p,
                                    ) && t2 == token_replace(base[k], x, p);
                            } else {
                                let (x, p) = choose|x: Form, p: Form|
                                    tfk.contains(x) && #[trigger] fire_candidate(
                                        self@,
                                        tv,
                                        tfk,
                                        x,
                                        p,
                                    ) && t2 == token_replace(tfk, x, p);
                                assert(fire_candidate(self@, tv, base[ti as int], x, p));
                            }
                        }
                    } else {
                        if exists|k: int, x: Form, p: Form|
                            0 <= k < ti + 1 && base[k].contains(x) && #[trigger] fire_candidate(
                                self@,
                                tv,
                                base[k],
                                x,
                                p,
                            ) && t2 == token_replace(base[k], x, p) {
                            let (k, x, p) = choose|k: int, x: Form, p: Form|
                                0 <= k < ti + 1 && base[k].contains(x) && #[trigger] fire_candidate(
                                    self@,
                                    tv,
                                    base[k],
                                    x,
                                    p,
                                ) && t2 == token_replace(base[k], x, p);
                            if k < ti {
                                assert(mid.contains(t2));
                            }
                        }
                    }
                }
                assert(path_views(out@).take(base.len() as int) =~= base) by {
                    assert(path_views(out@).take(mid.len() as int) == mid);
                    assert forall|j: int| 0 <= j < base.len() implies path_views(out@).take(
                        base.len() as int,
                    )[j] == base[j] by {
                        assert(path_views(out@)[j] == mid[j]);
                        assert(mid[j] == base[j]);
                    }
                }
            }
            ti = ti + 1;
        }
        proof {
            lemma_path_views(out@);
            assert(path_views(out@).to_set() =~= fire_set(self@, tv)) by {
                assert forall|t2: Seq<Form>|
                    path_views(out@).to_set().contains(t2) implies fire_set(self@, tv).contains(
                    t2,
                ) by {
                    if !base.contains(t2) {
                        let (k, x, p) = choose|k: int, x: Form, p: Form|
                            0 <= k < base.len() && base[k].contains(x) && #[trigger] fire_candidate(
                                self@,
                                tv,
                                base[k],
                                x,
                                p,
                            ) && t2 == token_replace(base[k], x, p);
                        assert(fire_candidate(self@, tv, base[k], x, p) && t2 == token_replace(
                            base[k],
                            x,
                            p,
                        ));
                    }
                }
                assert forall|t2: Seq<Form>|
                    fire_set(self@, tv).contains(t2) implies path_views(out@).to_set().contains(
                    t2,
                ) by {
                    if tv.contains(t2) {
                        assert(base.contains(t2));
                    } else {
                        let (t, x, p) = choose|t: Seq<Form>, x: Form, p: Form|
                            #[trigger] fire_candidate(self@, tv, t, x, p) && t2 == token_replace(
                                t,
                                x,
                                p,
                            );
                        assert(tv.contains(t));
                        let k = choose|k: int| 0 <= k < base.len() && base[k] == t;
                        assert(t.contains(x));
                        assert(base[k].contains(x) && fire_candidate(self@, tv, base[k], x, p));
                        assert(path_views(out@).contains(t2));
                    }
                }
            }
        }
        out
    }

    /// One round of the project rule: the old frontier together with every
    /// widening of a frontier token by one subexpression of the root.
    pub fn project(&self, tokens: &Vec<Vec<Expr>>) -> (r: Vec<Vec<Expr>>)
        requires
            !has_not(self@),
            frontier_wf(path_views(tokens@)),
            frontier_in(path_views(tokens@), subforms(self@)),
        ensures
            frontier_wf(path_views(r@)),
            frontier_in(path_views(r@), subforms(self@)),
            tokens@.len() <= r@.len(),
            path_views(r@).take(tokens@.len() as int) == path_views(tokens@),
            path_views(r@).to_set() == project_set(self@, path_views(tokens@).to_set()),
    {
        let ghost tv = path_views(tokens@).to_set();
        let subs = self.subexprs();
        let ghost sv = forms_of(subs@);
        let mut out = clone_frontier(tokens);
        let ghost base = path_views(tokens@);
        proof {
            lemma_forms_of(subs@);
            lemma_path_views(tokens@);
            assert(path_views(out@).take(base.len() as int) =~= base);
        }
        let mut ti: usize = 0;
        while ti < tokens.len()
            invariant
                ti <= tokens.len(),
                base.len() == tokens.len(),
                sv.len() == subs.len(),
                frontier_wf(path_views(out@)),
                frontier_in(path_views(out@), subforms(self@)),
                base.len() <= path_views(out@).len(),
                path_views(out@).take(base.len() as int) == base,
                forall|t2: Seq<Form>|
                    #[trigger] path_views(out@).contains(t2) <==> base.contains(t2) || (exists|
                        k: int,
                        j: int,
                    |
                        0 <= k < ti && 0 <= j < sv.len() && t2 == #[trigger] sorted_insert(
                            base[k],
                            sv[j],
                        )),
            decreases tokens.len() - ti,
        {
            let mut si: usize = 0;
            while si < subs.len()
                invariant
                    0 <= ti < tokens.len(),
                    si <= subs.len(),
                    frontier_wf(path_views(out@)),
                    frontier_in(path_views(out@), subforms(self@)),
                    base.len() <= path_views(out@).len(),
                    path_views(out@).take(base.len() as int) == base,
                    forall|t2: Seq<Form>|
                        #[trigger] path_views(out@).contains(t2) <==> base.contains(t2) || (exists|
                            k: int,
                            j: int,
                        |
                            0 <= k < ti && 0 <= j < sv.len() && t2 == #[trigger] sorted_insert(
                                base[k],
                                sv[j],
                            )) || (exists|j: int|
                            0 <= j < si && t2 == #[trigger] sorted_insert(
                                base[ti as int],
                                sv[j],
                            )),
                decreases subs.len() - si,
            {
                proof {
                    lemma_forms_of(subs@);
                    lemma_path_views(tokens@);
                    lemma_forms_of(tokens[ti as int]@);
                }
                let mut proj = crate::expression::clone_exprs(&tokens[ti]);
                proof {
                    lemma_forms_of(proj@);
                    assert(forms_of(proj@) =~= base[ti as int]);
                }
                insert_expr(&mut proj, subs[si].clone());
                proof {
                    lemma_sorted_insert(base[ti as int], sv[si as int]);
                    // the widened token stays within the root's nodes
                    assert forall|e: int|
                        0 <= e < forms_of(proj@).len() implies subforms(self@).contains(
                        #[trigger] forms_of(proj@)[e],
                    ) by {
                        let y = forms_of(proj@)[e];
                        assert(forms_of(proj@).contains(y));
                        if y != sv[si as int] {
                            assert(base[ti as int].contains(y));
                            let e0 = choose|e0: int|
                                0 <= e0 < base[ti as int].len() && base[ti as int][e0] == y;
                            assert(base[ti as int][e0] == y);
                        } else {
                            assert(sv.contains(sv[si as int]));
                        }
                    }
                }
                let ghost before = path_views(out@);
                frontier_insert(&mut out, proj);
                proof {
                    lemma_frontier_extend(
                        base,
                        before,
                        path_views(out@),
                        sorted_insert(base[ti as int], sv[si as int]),
                        subforms(self@),
                    );
                }
                proof {
                    let nt = sorted_insert(base[ti as int], sv[si as int]);
                    assert forall|t2: Seq<Form>|
                        #[trigger] path_views(out@).contains(t2) <==> base.contains(t2) || (exists|
                            k: int,
                            j: int,
                        |
                            0 <= k < ti && 0 <= j < sv.len() && t2 == #[trigger] sorted_insert(
                                base[k],
                                sv[j],
                            )) || (exists|j: int|
                            0 <= j < si + 1 && t2 == #[trigger] sorted_insert(
                                base[ti as int],
                                sv[j],
                            )) by {
                        if path_views(out@).contains(t2) {
                            if !before.contains(t2) {
                                assert(t2 == nt);
                                assert(t2 == sorted_insert(base[ti as int], sv[si as int]));
                            } else {
                                if !base.contains(t2) {
                                    if exists|k: int, j: int|
                                        0 <= k < ti && 0 <= j < sv.len() && t2
                                            == #[trigger] sorted_insert(base[k], sv[j]) {
                                    } else {
                                        let j = choose|j: int|
                                            0 <= j < si && t2 == #[trigger] sorted_insert(
                                                base[ti as int],
                                                sv[j],
                                            );
                                    }
                                }
                            }
                        } else {
                            if exists|j: int|
                                0 <= j < si + 1 && t2 == #[trigger] sorted_insert(
                                    base[ti as int],
                                    sv[j],
                                ) {
                                let j = choose|j: int|
                                    0 <= j < si + 1 && t2 == #[trigger] sorted_insert(
                                        base[ti as int],
                                        sv[j],
                                    );
                                if j < si {
                                    assert(before.contains(t2));
                                } else {
                                    assert(t2 == nt);
                                }
                            }
                        }
                    }
                }
                si = si + 1;
            }
            proof {
                assert forall|t2: Seq<Form>|
                    #[trigger] path_views(out@).contains(t2) <==> base.contains(t2) || (exists|
                        k: int,
                        j: int,
                    |
                        0 <= k < ti + 1 && 0 <= j < sv.len() && t2 == #[trigger] sorted_insert(
                            base[k],
                            sv[j],
                        )) by {
                    if path_views(out@).contains(t2) && !base.contains(t2) {
                        if exists|k: int, j: int|
                            0 <= k < ti && 0 <= j < sv.len() && t2 == #[trigger] sorted_insert(
                                base[k],
                                sv[j],
                            ) {
                            let (k, j) = choose|k: int, j: int|
                                0 <= k < ti && 0 <= j < sv.len() && t2 == #[trigger] sorted_insert(
                                    base[k],
                                    sv[j],
                                );
                        } else {
                            let j = choose|j: int|
                                0 <= j < sv.len() && t2 == #[trigger] sorted_insert(
                                    base[ti as int],
                                    sv[j],
                                );
                        }
                    }
                    if !path_views(out@).contains(t2) {
                        if exists|k: int, j: int|
                            0 <= k < ti + 1 && 0 <= j < sv.len() && t2 == #[trigger] sorted_insert(
                                base[k],
                                sv[j],
                            ) {
                            let (k, j) = choose|k: int, j: int|
                                0 <= k < ti + 1 && 0 <= j < sv.len() && t2
                                    == #[trigger] sorted_insert(base[k], sv[j]);
                        }
                    }
                }
            }
            ti = ti + 1;
        }
        proof {
            lemma_path_views(out@);
            assert(path_views(out@).to_set() =~= project_set(self@, tv)) by {
                assert forall|t2: Seq<Form>|
                    path_views(out@).to_set().contains(t2) implies project_set(self@, tv).contains(
                    t2,
                ) by {
                    if !base.contains(t2) {
                        let (k, j) = choose|k: int, j: int|
                            0 <= k < base.len() && 0 <= j < sv.len() && t2
                                == #[trigger] sorted_insert(base[k], sv[j]);
                        assert(base.contains(base[k]));
                        assert(tv.contains(base[k]));
                        assert(sv.contains(sv[j]));
                        assert(subforms(self@).contains(sv[j]));
                    }
                }
                assert forall|t2: Seq<Form>|
                    project_set(self@, tv).contains(t2) implies path_views(out@).to_set().contains(
                    t2,
                ) by {
                    if tv.contains(t2) {
                        assert(base.contains(t2));
                    } else {
                        let (t, s) = choose|t: Seq<Form>, s: Form|
                            tv.contains(t) && subforms(self@).contains(s) && t2
                                == #[trigger] sorted_insert(t, s);
                        let k = choose|k: int| 0 <= k < base.len() && base[k] == t;
                        assert(sv.contains(s));
                        let j = choose|j: int| 0 <= j < sv.len() && sv[j] == s;
                        assert(t2 == sorted_insert(base[k], sv[j]));
                        assert(path_views(out@).contains(t2));
                    }
                }
            }
        }
        out
    }
}

/// Whether every token of the frontier is at most this large.
fn frontier_within(tokens: &Vec<Vec<Expr>>, bound: usize) -> (r: bool)
    ensures
        r == within_bound(path_views(tokens@).to_set(), bound as nat),
{
    proof {
        lemma_path_views(tokens@);
    }
    let mut k: usize = 0;
    while k < tokens.len()
        invariant
            k <= tokens.len(),
            path_views(tokens@).len() == tokens.len(),
            forall|j: int| 0 <= j < k ==> #[trigger] path_views(tokens@)[j].len() <= bound,
        decreases tokens.len() - k,
    {
        proof {
            lemma_path_views(tokens@);
            lemma_forms_of(tokens[k as int]@);
        }
        if tokens[k].len() > bound {
            proof {
                assert(path_views(tokens@).contains(path_views(tokens@)[k as int]));
                assert(path_views(tokens@).to_set().contains(path_views(tokens@)[k as int]));
            }
            return false;
        }
        k = k + 1;
    }
    proof {
        assert forall|t: Seq<Form>|
            #[trigger] path_views(tokens@).to_set().contains(t) implies t.len() <= bound by {
            let j = choose|j: int|
                0 <= j < path_views(tokens@).len() && path_views(tokens@)[j] == t;
        }
    }
    true
}

/// Every atom of a form is one of its nodes.
pub proof fn lemma_atoms_in_subforms(f: Form)
    ensures
        forall|y: Form| #[trigger] atoms_set(f).contains(y) ==> subforms(f).contains(y),
    decreases f,
{
    assert forall|y: Form| #[trigger] atoms_set(f).contains(y) implies subforms(f).contains(y) by {
        match f {
            Form::And(xs) => {
                assert(atoms_set(f) == crate::expression::atoms_seq(xs));
                crate::expression::lemma_atoms_seq(xs, y);
                let i = choose|i: int| 0 <= i < xs.len() && #[trigger] atoms_set(xs[i]).contains(y);
                lemma_atoms_in_subforms(xs[i]);
                assert(subforms(xs[i]).contains(y));
                crate::expression::lemma_subforms_seq(xs, y);
                assert(subforms_seq(xs).contains(y));
                assert(subforms(f) == subforms_seq(xs).insert(f));
            },
            Form::Or(xs) => {
                assert(atoms_set(f) == crate::expression::atoms_seq(xs));
                crate::expression::lemma_atoms_seq(xs, y);
                let i = choose|i: int| 0 <= i < xs.len() && #[trigger] atoms_set(xs[i]).contains(y);
                lemma_atoms_in_subforms(xs[i]);
                assert(subforms(xs[i]).contains(y));
                crate::expression::lemma_subforms_seq(xs, y);
                assert(subforms_seq(xs).contains(y));
                assert(subforms(f) == subforms_seq(xs).insert(f));
            },
            Form::Not(g) => {
                lemma_atoms_in_subforms(*g);
                assert(atoms_set(*g).contains(y));
                assert(subforms(*g).contains(y));
                assert(subforms(f) == subforms(*g).insert(f));
            },
            _ => {
                assert(atoms_set(f).contains(y) ==> y == f);
                assert(subforms(f).contains(f));
            },
        }
    }
}

/// A form has finitely many nodes.
pub proof fn lemma_subforms_finite(f: Form)
    ensures
        subforms(f).finite(),
    decreases f,
{
    match f {
        Form::And(xs) => lemma_subforms_seq_finite(xs),
        Form::Or(xs) => lemma_subforms_seq_finite(xs),
        Form::Not(g) => lemma_subforms_finite(*g),
        _ => {},
    }
}

/// A sequence of forms has finitely many nodes.
proof fn lemma_subforms_seq_finite(xs: Seq<Form>)
    ensures
        subforms_seq(xs).finite(),
    decreases xs,
{
    if xs.len() > 0 {
        lemma_subforms_seq_finite(xs.drop_last());
        lemma_subforms_finite(xs.last());
    }
}

/// A family of distinct subsets of a finite set is no larger than the number
/// of subsets.
proof fn lemma_family_len<A>(fam: Set<Set<A>>, u: Set<A>)
    requires
        u.finite(),
        fam.finite(),
        forall|s: Set<A>| #[trigger] fam.contains(s) ==> s.subset_of(u),
    ensures
        fam.len() <= vstd::arithmetic::power2::pow2(u.len()),
    decreases u.len(),
{
    broadcast use vstd::set_lib::group_set_lib_default, vstd::set::group_set_axioms;

    if u.len() == 0 {
        u.lemma_len0_is_empty();
        let only = Set::<Set<A>>::empty().insert(Set::<A>::empty());
        assert forall|s: Set<A>| #[trigger] fam.contains(s) implies only.contains(s) by {
            assert(s =~= Set::<A>::empty());
        }
        vstd::set_lib::lemma_len_subset(fam, only);
        assert(only.len() == 1) by {
            assert(Set::<Set<A>>::empty().len() == 0);
        }
        assert(vstd::arithmetic::power2::pow2(0) == 1) by {
            vstd::arithmetic::power::lemma_pow0(2);
        }
    } else {
        assert(exists|a: A| u.contains(a)) by {
            if forall|a: A| !u.contains(a) {
                assert(u =~= Set::<A>::empty());
            }
        }
        let a = choose|a: A| u.contains(a);
        let with_a = fam.filter(|s: Set<A>| s.contains(a));
        let without = fam.filter(|s: Set<A>| !s.contains(a));
        fam.lemma_len_filter(|s: Set<A>| s.contains(a));
        fam.lemma_len_filter(|s: Set<A>| !s.contains(a));
        assert(fam == with_a.union(without)) by {
            assert(fam =~= with_a.union(without));
        }
        vstd::set_lib::lemma_len_union(with_a, without);
        let u2 = u.remove(a);
        assert(u2.len() == u.len() - 1);
        // subsets not holding `a` are subsets of the smaller universe
        assert forall|s: Set<A>| #[trigger] without.contains(s) implies s.subset_of(u2) by {}
        lemma_family_len(without, u2);
        // subsets holding `a` inject into subsets of the smaller universe
        let g = |s: Set<A>| s.remove(a);
        let img = with_a.map(g);
        assert(vstd::relations::injective_on(g, with_a)) by {
            assert forall|s1: Set<A>, s2: Set<A>|
                with_a.contains(s1) && with_a.contains(s2) && #[trigger] g(s1) == #[trigger] g(
                    s2,
                ) implies s1 == s2 by {
                assert(s1 =~= s1.remove(a).insert(a));
                assert(s2 =~= s2.remove(a).insert(a));
            }
        }
        vstd::set_lib::lemma_map_size(with_a, img, g);
        assert forall|s: Set<A>| #[trigger] img.contains(s) implies s.subset_of(u2) by {
            let s0 = choose|s0: Set<A>| with_a.contains(s0) && g(s0) == s;
        }
        lemma_family_len(img, u2);
        assert(vstd::arithmetic::power2::pow2(u.len()) == 2 * vstd::arithmetic::power2::pow2(
            u2.len(),
        )) by {
            vstd::arithmetic::power2::lemma_pow2_unfold(u.len());
        }
    }
}

/// A well-formed frontier over a finite universe has a bounded number of
/// tokens.
proof fn lemma_frontier_card(views: Seq<Seq<Form>>, u: Set<Form>)
    requires
        frontier_wf(views),
        frontier_in(views, u),
        u.finite(),
    ensures
        views.len() <= vstd::arithmetic::power2::pow2(u.len()),
{
    assert(views.no_duplicates());
    views.unique_seq_to_set();
    let tset = views.to_set();
    let g = |t: Seq<Form>| t.to_set();
    let fam = tset.map(g);
    assert(vstd::relations::injective_on(g, tset)) by {
        assert forall|t1: Seq<Form>, t2: Seq<Form>|
            tset.contains(t1) && tset.contains(t2) && #[trigger] g(t1) == #[trigger] g(
                t2,
            ) implies t1 == t2 by {
            let k1 = choose|k1: int| 0 <= k1 < views.len() && views[k1] == t1;
            let k2 = choose|k2: int| 0 <= k2 < views.len() && views[k2] == t2;
            assert(strictly_sorted(t1) && strictly_sorted(t2));
            assert forall|y: Form| t1.contains(y) <==> t2.contains(y) by {
                assert(t1.to_set().contains(y) == t1.contains(y));
                assert(t2.to_set().contains(y) == t2.contains(y));
            }
            crate::order::lemma_sorted_same_set(t1, t2);
        }
    }
    vstd::set_lib::lemma_map_size(tset, fam, g);
    assert forall|s: Set<Form>| #[trigger] fam.contains(s) implies s.subset_of(u) by {
        let t = choose|t: Seq<Form>| tset.contains(t) && g(t) == s;
        let k = choose|k: int| 0 <= k < views.len() && views[k] == t;
        assert forall|y: Form| s.contains(y) implies u.contains(y) by {
            assert(t.contains(y));
            let e = choose|e: int| 0 <= e < t.len() && t[e] == y;
            assert(views[k][e] == y);
        }
    }
    lemma_family_len(fam, u);
}

impl Expr {
    /// The coalescence search: from the spawned frontier, fire to a fixed
    /// point, projecting when stabilised and within the dimension bound,
    /// until the singleton sequent of this expression is derived or the
    /// search space is exhausted. The result is characterised exactly by
    /// `engine_run`: some bounded number of loop iterations reaches the
    /// returned saturated frontier, or fails.
    pub fn coalesce(&self) -> (r: Option<Vec<Vec<Expr>>>)
        requires
            !has_not(self@),
        ensures
            match r {
                Some(out) => {
                    &&& frontier_wf(path_views(out@))
                    &&& path_views(out@).contains(singleton_token(self@))
                    &&& exists|n: nat|
                        engine_run(self@, Set::empty(), spawn_set(self@), n) == Verdict::Done(
                            path_views(out@).to_set(),
                        )
                },
                None => spawn_set(self@).is_empty() || exists|n: nat|
                    engine_run(self@, Set::empty(), spawn_set(self@), n) == Verdict::Failed,
            },
    {
        let ghost u = subforms(self@);
        let mut tokens = self.spawn();
        proof {
            lemma_subforms_finite(self@);
            lemma_atoms_in_subforms(self@);
            assert(frontier_in(path_views(tokens@), u));
        }
        if tokens.len() == 0 {
            proof {
                lemma_path_views(tokens@);
                assert(spawn_set(self@) =~= Set::<Seq<Form>>::empty()) by {
                    assert forall|t: Seq<Form>| !spawn_set(self@).contains(t) by {
                        if spawn_set(self@).contains(t) {
                            assert(path_views(tokens@).to_set().contains(t));
                            let k = choose|k: int|
                                0 <= k < path_views(tokens@).len() && path_views(tokens@)[k] == t;
                        }
                    }
                }
            }
            return None;
        }
        let mut singleton: Vec<Expr> = Vec::new();
        singleton.push(self.clone());
        proof {
            lemma_forms_of(singleton@);
            assert(forms_of(singleton@) =~= singleton_token(self@));
        }
        let bound = self.dim_bound();
        let mut old_len: usize = 0;
        let ghost k: nat = 0nat;
        proof {
            lemma_path_views(tokens@);
            assert(path_views(tokens@).take(0).to_set() =~= Set::<Seq<Form>>::empty()) by {
                assert forall|t: Seq<Form>| !path_views(tokens@).take(0).contains(t) by {
                    if path_views(tokens@).take(0).contains(t) {
                        let j = choose|j: int|
                            0 <= j < path_views(tokens@).take(0).len() && path_views(
                                tokens@,
                            ).take(0)[j] == t;
                    }
                }
            }
        }
        loop
            invariant
                !has_not(self@),
                u == subforms(self@),
                u.finite(),
                bound == atoms_set(self@).len(),
                forms_of(singleton@) == singleton_token(self@),
                frontier_wf(path_views(tokens@)),
                frontier_in(path_views(tokens@), u),
                old_len <= tokens.len(),
                tokens.len() == path_views(tokens@).len(),
                forall|m: nat|
                    engine_run(self@, Set::empty(), spawn_set(self@), (k + m) as nat)
                        == #[trigger] engine_run(
                        self@,
                        path_views(tokens@).take(old_len as int).to_set(),
                        path_views(tokens@).to_set(),
                        m,
                    ),
            decreases
                    vstd::arithmetic::power2::pow2(u.len()) + 1 - tokens.len(),
                    (if old_len == tokens.len() {
                        0int
                    } else {
                        1int
                    }),
        {
            proof {
                lemma_path_views(tokens@);
                lemma_frontier_card(path_views(tokens@), u);
            }
            let ghost oset = path_views(tokens@).take(old_len as int).to_set();
            let ghost tset = path_views(tokens@).to_set();
            let found = frontier_contains(&tokens, &singleton);
            if found {
                proof {
                    // zero further iterations reach the saturated frontier
                    assert(tset.contains(singleton_token(self@)));
                    assert(engine_run(self@, oset, tset, 0) == Verdict::Done(tset));
                    assert(engine_run(self@, Set::empty(), spawn_set(self@), (k + 0) as nat)
                        == Verdict::Done(tset));
                    assert(path_views(tokens@).contains(singleton_token(self@)));
                }
                return Some(tokens);
            }
            proof {
                assert(!tset.contains(singleton_token(self@))) by {
                    if tset.contains(singleton_token(self@)) {
                        let j = choose|j: int|
                            0 <= j < path_views(tokens@).len() && path_views(tokens@)[j]
                                == singleton_token(self@);
                    }
                }
                // the previous frontier equals the current one exactly when
                // the lengths agree
                lemma_prefix_set_eq(path_views(tokens@), old_len as int);
            }
            if old_len == tokens.len() {
                let ok = frontier_within(&tokens, bound);
                if !ok {
                    proof {
                        assert(engine_run(self@, oset, tset, 1) == Verdict::Failed);
                        assert(engine_run(self@, Set::empty(), spawn_set(self@), (k + 1) as nat)
                            == Verdict::Failed);
                    }
                    return None;
                }
                let projected = self.project(&tokens);
                let fired = self.fire(&projected);
                proof {
                    lemma_path_views(projected@);
                    lemma_path_views(fired@);
                }
                if fired.len() == tokens.len() {
                    proof {
                        // nothing was added: the frontier can never grow again
                        assert(projected.len() == tokens.len());
                        assert(path_views(projected@) == path_views(tokens@)) by {
                            assert(path_views(projected@).take(tokens@.len() as int) =~= path_views(
                                projected@,
                            ));
                        }
                        assert(path_views(fired@) == path_views(projected@)) by {
                            assert(path_views(fired@).take(projected@.len() as int) =~= path_views(
                                fired@,
                            ));
                        }
                        assert(fire_set(self@, project_set(self@, tset)) == tset);
                        assert(engine_run(self@, oset, tset, 1) == Verdict::Failed);
                        assert(engine_run(self@, Set::empty(), spawn_set(self@), (k + 1) as nat)
                            == Verdict::Failed);
                    }
                    return None;
                }
                let new_old_len = projected.len();
                proof {
                    // one loop iteration: project, then fire
                    let pset = path_views(projected@).to_set();
                    let fset = path_views(fired@).to_set();
                    assert(path_views(fired@).take(projected@.len() as int) == path_views(
                        projected@,
                    ));
                    assert(fset == fire_set(self@, pset));
                    assert(pset == project_set(self@, tset));
                    assert(fset != tset) by {
                        path_views(fired@).unique_seq_to_set();
                        path_views(tokens@).unique_seq_to_set();
                        assert(path_views(fired@).no_duplicates());
                        assert(path_views(tokens@).no_duplicates());
                        if fset == tset {
                            assert(fset.len() == tset.len());
                            assert(path_views(fired@).len() != path_views(tokens@).len());
                        }
                    }
                    assert forall|m: nat|
                        engine_run(self@, Set::empty(), spawn_set(self@), (k + 1 + m) as nat)
                            == #[trigger] engine_run(self@, pset, fset, m) by {
                        assert(engine_run(self@, oset, tset, (1 + m) as nat) == engine_run(
                            self@,
                            pset,
                            fset,
                            m,
                        ));
                        assert(engine_run(self@, Set::empty(), spawn_set(self@), (k + (1 + m)) as nat)
                            == engine_run(self@, oset, tset, (1 + m) as nat));
                    }
                }
                old_len = new_old_len;
                tokens = fired;
                proof {
                    k = k + 1;
                    assert(path_views(tokens@).take(old_len as int).to_set() == path_views(
                        tokens@,
                    ).take(old_len as int).to_set());
                }
            } else {
                let fired = self.fire(&tokens);
                proof {
                    let fset = path_views(fired@).to_set();
                    assert(oset != tset);
                    assert(fset == fire_set(self@, tset));
                    assert forall|m: nat|
                        engine_run(self@, Set::empty(), spawn_set(self@), (k + 1 + m) as nat)
                            == #[trigger] engine_run(self@, tset, fset, m) by {
                        assert(engine_run(self@, oset, tset, (1 + m) as nat) == engine_run(
                            self@,
                            tset,
                            fset,
                            m,
                        ));
                        assert(engine_run(self@, Set::empty(), spawn_set(self@), (k + (1 + m)) as nat)
                            == engine_run(self@, oset, tset, (1 + m) as nat));
                    }
                    // the old frontier is a prefix of the fired one
                    lemma_path_views(fired@);
                    assert(path_views(fired@).take(tokens@.len() as int) == path_views(tokens@));
                }
                let new_old_len = tokens.len();
                old_len = new_old_len;
                tokens = fired;
                proof {
                    k = k + 1;
                }
            }
            proof {
                lemma_path_views(tokens@);
                lemma_frontier_card(path_views(tokens@), u);
            }
        }
    }
}

/// A frontier of distinct tokens equals its length-`n` prefix exactly when
/// `n` is its whole length.
proof fn lemma_prefix_set_eq(views: Seq<Seq<Form>>, n: int)
    requires
        frontier_wf(views),
        0 <= n <= views.len(),
    ensures
        (views.take(n).to_set() == views.to_set()) <==> n == views.len(),
{
    assert(views.no_duplicates());
    views.unique_seq_to_set();
    let pre = views.take(n);
    assert(pre.no_duplicates()) by {
        assert(forall|i: int| 0 <= i < n ==> pre[i] == views[i]);
    }
    pre.unique_seq_to_set();
    if n == views.len() {
        assert(pre =~= views);
    } else {
        assert(pre.to_set().len() != views.to_set().len());
    }
}

/// Every atom of a form is an atom or negated-atom leaf.
pub proof fn lemma_atoms_are_leaves(f: Form)
    ensures
        forall|y: Form| #[trigger] atoms_set(f).contains(y) ==> y is Atom || y is NotAtom,
    decreases f,
{
    assert forall|y: Form| #[trigger] atoms_set(f).contains(y) implies y is Atom
        || y is NotAtom by {
        match f {
            Form::And(xs) => {
                crate::expression::lemma_atoms_seq(xs, y);
                let i = choose|i: int| 0 <= i < xs.len() && #[trigger] atoms_set(xs[i]).contains(y);
                lemma_atoms_are_leaves(xs[i]);
            },
            Form::Or(xs) => {
                crate::expression::lemma_atoms_seq(xs, y);
                let i = choose|i: int| 0 <= i < xs.len() && #[trigger] atoms_set(xs[i]).contains(y);
                lemma_atoms_are_leaves(xs[i]);
            },
            Form::Not(g) => {
                lemma_atoms_are_leaves(*g);
                assert(atoms_set(*g).contains(y));
            },
            _ => {
                assert(atoms_set(f).contains(y) ==> y == f);
            },
        }
    }
}

/// Spawn correctness: every spawned sequent has exactly two members, an atom
/// of the root and its syntactic negation, both occurring in the root.
pub proof fn lemma_spawn_correct(root: Form)
    ensures
        forall|t: Seq<Form>|
            #[trigger] spawn_set(root).contains(t) ==> t.len() == 2 && exists|a: Form|
                (a is Atom || a is NotAtom) && atoms_set(root).contains(a) && atoms_set(
                    root,
                ).contains(invert(a)) && t.contains(a) && t.contains(invert(a)) && t
                    == #[trigger] axiom_pair(a),
{
    broadcast use vstd::seq::group_seq_axioms;

    lemma_atoms_are_leaves(root);
    assert forall|t: Seq<Form>| #[trigger] spawn_set(root).contains(t) implies t.len() == 2
        && exists|a: Form|
        (a is Atom || a is NotAtom) && atoms_set(root).contains(a) && atoms_set(root).contains(
            invert(a),
        ) && t.contains(a) && t.contains(invert(a)) && t == #[trigger] axiom_pair(a) by {
        let a = choose|a: Form|
            atoms_set(root).contains(a) && atoms_set(root).contains(norm(invert(a))) && t
                == #[trigger] axiom_pair(a);
        // a leaf's inverse is the dual leaf, already normal
        assert(norm(invert(a)) == invert(a));
        let inv = invert(a);
        assert(a != inv);
        let pair0 = seq![a, inv];
        lemma_sort_dedup(pair0);
        assert(pair0[0] == a && pair0[1] == inv);
        assert(pair0.contains(a) && pair0.contains(inv));
        assert(t.contains(a) && t.contains(inv));
        // two distinct members in an ordered set: length exactly two
        assert(t == sorted_insert(sorted_insert(Seq::<Form>::empty(), a), inv)) by {
            assert(pair0.drop_last() =~= seq![a]);
            assert(pair0.last() == inv);
            assert(seq![a].drop_last() =~= Seq::<Form>::empty());
            assert(seq![a].last() == a);
            assert(sort_dedup(Seq::<Form>::empty()) == Seq::<Form>::empty());
            assert(sort_dedup(seq![a]) == sorted_insert(Seq::<Form>::empty(), a));
            assert(sort_dedup(pair0) == sorted_insert(sort_dedup(seq![a]), inv));
        }
        let one = sorted_insert(Seq::<Form>::empty(), a);
        assert(one =~= seq![a]);
        lemma_cmp_form_eq(a, a);
        assert(strictly_sorted(one));
        lemma_sorted_insert(one, inv);
        assert(!one.contains(inv)) by {
            if one.contains(inv) {
                let i = choose|i: int| 0 <= i < one.len() && one[i] == inv;
            }
        }
        assert(t.len() == 2);
    }
}

/// An ordered set without duplicates has as many elements as its set.
pub proof fn lemma_sorted_set_len(s: Seq<Form>)
    requires
        strictly_sorted(s),
    ensures
        s.to_set().finite(),
        s.to_set().len() == s.len(),
{
    assert forall|i: int, j: int| 0 <= i < j < s.len() implies s[i] != s[j] by {
        lemma_cmp_form_eq(s[i], s[i]);
    }
    s.unique_seq_to_set();
}

} // verus!
