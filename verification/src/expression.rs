//! The expression model: normalised propositional formulas whose `And`/`Or`
//! operands are held as ordered sets with unique elements (strictly sorted
//! vectors), which gives commutativity and idempotence for free.

use vstd::prelude::*;

use crate::order::{cmp_form, sort_dedup, sorted_insert, strictly_sorted};
use crate::order::{insert_expr, lemma_sorted_insert};

verus! {

broadcast use
    vstd::std_specs::vec::group_vec_axioms,
    vstd::seq::group_seq_axioms,
    vstd::set::group_set_axioms,
;

/// The mathematical model of an expression. Connective operands are sequences
/// of forms; a well-formed value keeps them strictly sorted and duplicate-free
/// under the total order `cmp_form`, so that equal sets are equal sequences.
#[verifier::ext_equal]
pub enum Form {
    And(Seq<Form>),
    Or(Seq<Form>),
    Not(Box<Form>),
    Atom(Seq<char>),
    NotAtom(Seq<char>),
}

/// An expression of propositional logic. `Not` survives only in pre-normal
/// trees; `normal` pushes every negation down to an atom.
#[derive(Debug)]
pub enum Expr {
    And(Vec<Expr>),
    Or(Vec<Expr>),
    Not(Box<Expr>),
    Atom(String),
    NotAtom(String),
}

/// The form denoted by an expression: names become character sequences and
/// operand vectors become sequences of forms.
pub open spec fn form_of(e: Expr) -> Form
    decreases e,
{
    match e {
        Expr::And(children) => Form::And(forms_of(children@)),
        Expr::Or(children) => Form::Or(forms_of(children@)),
        Expr::Not(inner) => Form::Not(Box::new(form_of(*inner))),
        Expr::Atom(name) => Form::Atom(name@),
        Expr::NotAtom(name) => Form::NotAtom(name@),
    }
}

/// The forms denoted by a sequence of expressions, element by element.
pub open spec fn forms_of(s: Seq<Expr>) -> Seq<Form>
    decreases s,
{
    if s.len() == 0 {
        Seq::empty()
    } else {
        forms_of(s.drop_last()).push(form_of(s.last()))
    }
}

/// `forms_of` maps `form_of` over its argument pointwise.
pub broadcast proof fn lemma_forms_of(s: Seq<Expr>)
    ensures
        (#[trigger] forms_of(s)).len() == s.len(),
        forall|i: int| 0 <= i < s.len() ==> forms_of(s)[i] == form_of(s[i]),
    decreases s.len(),
{
    if s.len() > 0 {
        lemma_forms_of(s.drop_last());
    }
}

impl View for Expr {
    type V = Form;

    open spec fn view(&self) -> Form {
        form_of(*self)
    }
}

impl PartialEq for Expr {
    /// Structural equality: two expressions are equal exactly when they
    /// denote the same form.
    fn eq(&self, other: &Self) -> (r: bool) {
        let c = crate::order::cmp_expr(self, other);
        proof {
            crate::order::lemma_cmp_form_eq(self@, other@);
        }
        c == 0
    }
}

impl vstd::std_specs::cmp::PartialEqSpecImpl for Expr {
    open spec fn obeys_eq_spec() -> bool {
        true
    }

    open spec fn eq_spec(&self, other: &Self) -> bool {
        self@ == other@
    }
}

/// Inserts every element of `zs` into the ordered set `acc`, left to right.
pub open spec fn insert_all(acc: Seq<Form>, zs: Seq<Form>) -> Seq<Form>
    decreases zs.len(),
{
    if zs.len() == 0 {
        acc
    } else {
        sorted_insert(insert_all(acc, zs.drop_last()), zs.last())
    }
}

/// De Morgan duality pushed one level down: a conjunction becomes the
/// disjunction of the inverses of its operands and dually, a negation is
/// dropped, and an atom flips.
pub open spec fn invert(f: Form) -> Form
    decreases f,
{
    match f {
        Form::And(xs) => Form::Or(invert_seq(xs)),
        Form::Or(xs) => Form::And(invert_seq(xs)),
        Form::Not(g) => *g,
        Form::Atom(n) => Form::NotAtom(n),
        Form::NotAtom(n) => Form::Atom(n),
    }
}

/// The ordered set of the inverses of the elements of `xs`.
pub open spec fn invert_seq(xs: Seq<Form>) -> Seq<Form>
    decreases xs,
{
    if xs.len() == 0 {
        Seq::empty()
    } else {
        sorted_insert(invert_seq(xs.drop_last()), invert(xs.last()))
    }
}

/// The number of nodes of a form; always at least one.
pub open spec fn fsize(f: Form) -> nat
    decreases f,
{
    match f {
        Form::And(xs) => 1 + fsum(xs),
        Form::Or(xs) => 1 + fsum(xs),
        Form::Not(g) => 1 + fsize(*g),
        Form::Atom(_) => 1,
        Form::NotAtom(_) => 1,
    }
}

/// The total number of nodes of a sequence of forms.
pub open spec fn fsum(xs: Seq<Form>) -> nat
    decreases xs,
{
    if xs.len() == 0 {
        0
    } else {
        fsum(xs.drop_last()) + fsize(xs.last())
    }
}

/// Every form has at least one node.
pub broadcast proof fn lemma_fsize_pos(f: Form)
    ensures
        #[trigger] fsize(f) >= 1,
{
}

/// Splitting the node count of a sequence at its head.
pub proof fn lemma_fsum_first(s: Seq<Form>)
    requires
        s.len() > 0,
    ensures
        fsum(s) == fsize(s[0]) + fsum(s.drop_first()),
    decreases s.len(),
{
    if s.len() == 1 {
        assert(s.drop_last() =~= Seq::<Form>::empty());
        assert(s.drop_first() =~= Seq::<Form>::empty());
    } else {
        lemma_fsum_first(s.drop_last());
        assert(s.drop_last()[0] == s[0]);
        assert(s.drop_first().drop_last() =~= s.drop_last().drop_first());
        assert(s.drop_first().last() == s.last());
        assert(fsum(s.drop_first()) == fsum(s.drop_first().drop_last()) + fsize(
            s.drop_first().last(),
        ));
    }
}

/// Prepending a form adds its node count.
pub proof fn lemma_fsum_prepend(x: Form, s: Seq<Form>)
    ensures
        fsum(seq![x] + s) == fsize(x) + fsum(s),
    decreases s.len(),
{
    if s.len() == 0 {
        assert(seq![x] + s =~= seq![x]);
        assert(seq![x].drop_last() =~= Seq::<Form>::empty());
        assert(seq![x].last() == x);
        assert(fsum(Seq::<Form>::empty()) == 0);
    } else {
        lemma_fsum_prepend(x, s.drop_last());
        assert((seq![x] + s).drop_last() =~= seq![x] + s.drop_last());
        assert((seq![x] + s).last() == s.last());
    }
}

/// Insertion adds at most the node count of the new element.
pub proof fn lemma_fsum_sorted_insert(s: Seq<Form>, x: Form)
    ensures
        fsum(sorted_insert(s, x)) <= fsum(s) + fsize(x),
    decreases s.len(),
{
    if s.len() == 0 {
        assert(seq![x].drop_last() =~= Seq::<Form>::empty());
        assert(seq![x].last() == x);
        assert(fsum(Seq::<Form>::empty()) == 0);
        assert(fsum(seq![x]) == fsize(x));
    } else {
        let c = cmp_form(x, s[0]);
        if c < 0 {
            lemma_fsum_prepend(x, s);
        } else if c == 0 {
        } else {
            lemma_fsum_sorted_insert(s.drop_first(), x);
            lemma_fsum_prepend(s[0], sorted_insert(s.drop_first(), x));
            lemma_fsum_first(s);
        }
    }
}

/// Inverting never grows a form.
pub proof fn lemma_fsize_invert(f: Form)
    ensures
        fsize(invert(f)) <= fsize(f),
    decreases f,
{
    match f {
        Form::And(xs) => lemma_fsum_invert_seq(xs),
        Form::Or(xs) => lemma_fsum_invert_seq(xs),
        Form::Not(g) => {
            lemma_fsize_pos(*g);
        },
        _ => {},
    }
}

/// Inverting never grows a sequence of forms.
pub proof fn lemma_fsum_invert_seq(xs: Seq<Form>)
    ensures
        fsum(invert_seq(xs)) <= fsum(xs),
    decreases xs,
{
    if xs.len() > 0 {
        lemma_fsum_invert_seq(xs.drop_last());
        lemma_fsize_invert(xs.last());
        lemma_fsum_sorted_insert(invert_seq(xs.drop_last()), invert(xs.last()));
    }
}

/// A normalised operand sequence of one element collapses to that element;
/// otherwise the stated connective is kept.
pub open spec fn collapse(and_kind: bool, ys: Seq<Form>) -> Form {
    if ys.len() == 1 {
        ys[0]
    } else if and_kind {
        Form::And(ys)
    } else {
        Form::Or(ys)
    }
}

/// Adds one normalised operand to an ordered operand set, splicing in the
/// operands of a same-kind connective so that nests are flattened.
pub open spec fn flat_insert(and_kind: bool, acc: Seq<Form>, y: Form) -> Seq<Form> {
    if and_kind && y is And {
        insert_all(acc, y->And_0)
    } else if !and_kind && y is Or {
        insert_all(acc, y->Or_0)
    } else {
        sorted_insert(acc, y)
    }
}

/// The normal form of `f`: negations are pushed to the atoms, same-kind nests
/// are flattened, operands are deduplicated and ordered, and one-element
/// connectives collapse.
pub open spec fn norm(f: Form) -> Form
    decreases fsize(f), 0int,
    via norm_decreases
{
    match f {
        Form::And(xs) => collapse(true, norm_seq(true, xs)),
        Form::Or(xs) => collapse(false, norm_seq(false, xs)),
        Form::Not(g) => norm(invert(*g)),
        Form::Atom(_) => f,
        Form::NotAtom(_) => f,
    }
}

/// The normalised ordered operand set of a connective with operands `xs`.
pub open spec fn norm_seq(and_kind: bool, xs: Seq<Form>) -> Seq<Form>
    decreases fsum(xs), 1int,
    via norm_seq_decreases
{
    if xs.len() == 0 {
        Seq::empty()
    } else {
        flat_insert(and_kind, norm_seq(and_kind, xs.drop_last()), norm(xs.last()))
    }
}

#[via_fn]
proof fn norm_decreases(f: Form) {
    match f {
        Form::Not(g) => {
            lemma_fsize_invert(*g);
        },
        _ => {},
    }
}

#[via_fn]
proof fn norm_seq_decreases(and_kind: bool, xs: Seq<Form>) {
    if xs.len() > 0 {
        lemma_fsize_pos(xs.last());
    }
}

/// Whether a negation node survives anywhere in a form.
pub open spec fn has_not(f: Form) -> bool
    decreases f,
{
    match f {
        Form::And(xs) => has_not_seq(xs),
        Form::Or(xs) => has_not_seq(xs),
        Form::Not(_) => true,
        Form::Atom(_) => false,
        Form::NotAtom(_) => false,
    }
}

/// Whether a negation node survives in any element of a sequence.
pub open spec fn has_not_seq(xs: Seq<Form>) -> bool
    decreases xs,
{
    if xs.len() == 0 {
        false
    } else {
        has_not_seq(xs.drop_last()) || has_not(xs.last())
    }
}

/// `has_not_seq` holds exactly when it holds of some element.
pub broadcast proof fn lemma_has_not_seq(xs: Seq<Form>)
    ensures
        #[trigger] has_not_seq(xs) <==> exists|i: int| 0 <= i < xs.len() && has_not(#[trigger] xs[i]),
    decreases xs.len(),
{
    if xs.len() > 0 {
        lemma_has_not_seq(xs.drop_last());
        assert(forall|i: int| 0 <= i < xs.len() - 1 ==> xs[i] == xs.drop_last()[i]);
        assert(xs.last() == xs[xs.len() - 1]);
    }
}

/// The names of the atoms occurring in a form.
pub open spec fn names_set(f: Form) -> Set<Seq<char>>
    decreases f,
{
    match f {
        Form::And(xs) => names_seq(xs),
        Form::Or(xs) => names_seq(xs),
        Form::Not(g) => names_set(*g),
        Form::Atom(n) => set![n],
        Form::NotAtom(n) => set![n],
    }
}

/// The names of the atoms occurring in any element of a sequence.
pub open spec fn names_seq(xs: Seq<Form>) -> Set<Seq<char>>
    decreases xs,
{
    if xs.len() == 0 {
        Set::empty()
    } else {
        names_seq(xs.drop_last()).union(names_set(xs.last()))
    }
}

/// The atom and negated-atom leaves occurring in a form.
pub open spec fn atoms_set(f: Form) -> Set<Form>
    decreases f,
{
    match f {
        Form::And(xs) => atoms_seq(xs),
        Form::Or(xs) => atoms_seq(xs),
        Form::Not(g) => atoms_set(*g),
        Form::Atom(_) => set![f],
        Form::NotAtom(_) => set![f],
    }
}

/// The atom and negated-atom leaves occurring in any element of a sequence.
pub open spec fn atoms_seq(xs: Seq<Form>) -> Set<Form>
    decreases xs,
{
    if xs.len() == 0 {
        Set::empty()
    } else {
        atoms_seq(xs.drop_last()).union(atoms_set(xs.last()))
    }
}

/// Every node of a form's syntax tree, the form itself included.
pub open spec fn subforms(f: Form) -> Set<Form>
    decreases f,
{
    match f {
        Form::And(xs) => subforms_seq(xs).insert(f),
        Form::Or(xs) => subforms_seq(xs).insert(f),
        Form::Not(g) => subforms(*g).insert(f),
        Form::Atom(_) => set![f],
        Form::NotAtom(_) => set![f],
    }
}

/// Every node of any element of a sequence of forms.
pub open spec fn subforms_seq(xs: Seq<Form>) -> Set<Form>
    decreases xs,
{
    if xs.len() == 0 {
        Set::empty()
    } else {
        subforms_seq(xs.drop_last()).union(subforms(xs.last()))
    }
}

/// The immediate operands of a connective; anything that is not a
/// conjunction or disjunction has none.
pub open spec fn children_of(f: Form) -> Seq<Form> {
    match f {
        Form::And(xs) => xs,
        Form::Or(xs) => xs,
        Form::Not(_) => Seq::empty(),
        Form::Atom(_) => Seq::empty(),
        Form::NotAtom(_) => Seq::empty(),
    }
}

/// The ancestor paths of a form: for every occurrence of every node, the
/// sequence from that node through its parents up to the root.
pub open spec fn lineages(f: Form) -> Set<Seq<Form>>
    decreases f,
{
    match f {
        Form::And(xs) => extend_lineages(lineages_seq(xs), f),
        Form::Or(xs) => extend_lineages(lineages_seq(xs), f),
        Form::Not(_) => set![seq![f]],
        Form::Atom(_) => set![seq![f]],
        Form::NotAtom(_) => set![seq![f]],
    }
}

/// Appends the root to every child path and adds the root's own path.
pub open spec fn extend_lineages(below: Set<Seq<Form>>, f: Form) -> Set<Seq<Form>> {
    Set::new(|p: Seq<Form>| p.len() > 0 && p.last() == f && below.contains(p.drop_last())).insert(
        seq![f],
    )
}

/// The ancestor paths found in any element of a sequence of forms.
pub open spec fn lineages_seq(xs: Seq<Form>) -> Set<Seq<Form>>
    decreases xs,
{
    if xs.len() == 0 {
        Set::empty()
    } else {
        lineages_seq(xs.drop_last()).union(lineages(xs.last()))
    }
}

/// The rendering of a form in the surface syntax: operands joined by their
/// connective, a negation as a tilde around parentheses, atoms by name.
pub open spec fn render_form(f: Form) -> Seq<char>
    decreases f,
{
    match f {
        Form::And(xs) => render_operands(xs, " & "@),
        Form::Or(xs) => render_operands(xs, " | "@),
        Form::Not(g) => "~("@ + render_form(*g) + ")"@,
        Form::Atom(n) => n,
        Form::NotAtom(n) => "~"@ + n,
    }
}

/// The renderings of a sequence of forms, joined by a separator.
pub open spec fn render_operands(xs: Seq<Form>, sep: Seq<char>) -> Seq<char>
    decreases xs,
{
    if xs.len() == 0 {
        Seq::empty()
    } else if xs.len() == 1 {
        render_form(xs[0])
    } else {
        render_operands(xs.drop_last(), sep) + sep + render_form(xs.last())
    }
}

/// No element has more nodes than its sequence.
pub proof fn lemma_fsum_member(s: Seq<Form>, i: int)
    requires
        0 <= i < s.len(),
    ensures
        fsize(s[i]) <= fsum(s),
    decreases s.len(),
{
    if i < s.len() - 1 {
        lemma_fsum_member(s.drop_last(), i);
        assert(s.drop_last()[i] == s[i]);
    }
}

/// `names_seq` collects exactly the names of the elements.
pub broadcast proof fn lemma_names_seq(xs: Seq<Form>, n: Seq<char>)
    ensures
        #[trigger] names_seq(xs).contains(n) <==> exists|i: int|
            0 <= i < xs.len() && #[trigger] names_set(xs[i]).contains(n),
    decreases xs.len(),
{
    if xs.len() > 0 {
        let rest = xs.drop_last();
        lemma_names_seq(rest, n);
        assert(forall|i: int| 0 <= i < xs.len() - 1 ==> xs[i] == rest[i]);
        assert(xs.last() == xs[xs.len() - 1]);
        if names_seq(xs).contains(n) {
            if names_seq(rest).contains(n) {
                let i = choose|i: int| 0 <= i < rest.len() && #[trigger] names_set(rest[i]).contains(n);
                assert(names_set(xs[i]).contains(n));
            } else {
                assert(names_set(xs[xs.len() - 1]).contains(n));
            }
        }
        if exists|i: int| 0 <= i < xs.len() && #[trigger] names_set(xs[i]).contains(n) {
            let i = choose|i: int| 0 <= i < xs.len() && #[trigger] names_set(xs[i]).contains(n);
            if i < xs.len() - 1 {
                assert(names_set(rest[i]).contains(n));
            } else {
                assert(names_seq(xs).contains(n));
            }
        }
    } else {
        assert(!names_seq(xs).contains(n));
    }
}

/// `atoms_seq` collects exactly the atoms of the elements.
pub broadcast proof fn lemma_atoms_seq(xs: Seq<Form>, y: Form)
    ensures
        #[trigger] atoms_seq(xs).contains(y) <==> exists|i: int|
            0 <= i < xs.len() && #[trigger] atoms_set(xs[i]).contains(y),
    decreases xs.len(),
{
    if xs.len() > 0 {
        let rest = xs.drop_last();
        lemma_atoms_seq(rest, y);
        assert(forall|i: int| 0 <= i < xs.len() - 1 ==> xs[i] == rest[i]);
        assert(xs.last() == xs[xs.len() - 1]);
        if atoms_seq(xs).contains(y) {
            if atoms_seq(rest).contains(y) {
                let i = choose|i: int| 0 <= i < rest.len() && #[trigger] atoms_set(rest[i]).contains(y);
                assert(atoms_set(xs[i]).contains(y));
            } else {
                assert(atoms_set(xs[xs.len() - 1]).contains(y));
            }
        }
        if exists|i: int| 0 <= i < xs.len() && #[trigger] atoms_set(xs[i]).contains(y) {
            let i = choose|i: int| 0 <= i < xs.len() && #[trigger] atoms_set(xs[i]).contains(y);
            if i < xs.len() - 1 {
                assert(atoms_set(rest[i]).contains(y));
            } else {
                assert(atoms_seq(xs).contains(y));
            }
        }
    } else {
        assert(!atoms_seq(xs).contains(y));
    }
}

/// `subforms_seq` collects exactly the nodes of the elements.
pub broadcast proof fn lemma_subforms_seq(xs: Seq<Form>, y: Form)
    ensures
        #[trigger] subforms_seq(xs).contains(y) <==> exists|i: int|
            0 <= i < xs.len() && #[trigger] subforms(xs[i]).contains(y),
    decreases xs.len(),
{
    if xs.len() > 0 {
        let rest = xs.drop_last();
        lemma_subforms_seq(rest, y);
        assert(forall|i: int| 0 <= i < xs.len() - 1 ==> xs[i] == rest[i]);
        assert(xs.last() == xs[xs.len() - 1]);
        if subforms_seq(xs).contains(y) {
            if subforms_seq(rest).contains(y) {
                let i = choose|i: int| 0 <= i < rest.len() && #[trigger] subforms(rest[i]).contains(y);
                assert(subforms(xs[i]).contains(y));
            } else {
                assert(subforms(xs[xs.len() - 1]).contains(y));
            }
        }
        if exists|i: int| 0 <= i < xs.len() && #[trigger] subforms(xs[i]).contains(y) {
            let i = choose|i: int| 0 <= i < xs.len() && #[trigger] subforms(xs[i]).contains(y);
            if i < xs.len() - 1 {
                assert(subforms(rest[i]).contains(y));
            } else {
                assert(subforms_seq(xs).contains(y));
            }
        }
    } else {
        assert(!subforms_seq(xs).contains(y));
    }
}

/// `lineages_seq` collects exactly the ancestor paths of the elements.
pub broadcast proof fn lemma_lineages_seq(xs: Seq<Form>, p: Seq<Form>)
    ensures
        #[trigger] lineages_seq(xs).contains(p) <==> exists|i: int|
            0 <= i < xs.len() && #[trigger] lineages(xs[i]).contains(p),
    decreases xs.len(),
{
    if xs.len() > 0 {
        let rest = xs.drop_last();
        lemma_lineages_seq(rest, p);
        assert(forall|i: int| 0 <= i < xs.len() - 1 ==> xs[i] == rest[i]);
        assert(xs.last() == xs[xs.len() - 1]);
        if lineages_seq(xs).contains(p) {
            if lineages_seq(rest).contains(p) {
                let i = choose|i: int| 0 <= i < rest.len() && #[trigger] lineages(rest[i]).contains(p);
                assert(lineages(xs[i]).contains(p));
            } else {
                assert(lineages(xs[xs.len() - 1]).contains(p));
            }
        }
        if exists|i: int| 0 <= i < xs.len() && #[trigger] lineages(xs[i]).contains(p) {
            let i = choose|i: int| 0 <= i < xs.len() && #[trigger] lineages(xs[i]).contains(p);
            if i < xs.len() - 1 {
                assert(lineages(rest[i]).contains(p));
            } else {
                assert(lineages_seq(xs).contains(p));
            }
        }
    } else {
        assert(!lineages_seq(xs).contains(p));
    }
}

/// Inserts every element of `add` into the ordered set `out`.
pub fn merge_exprs(out: &mut Vec<Expr>, add: &Vec<Expr>)
    requires
        strictly_sorted(forms_of(old(out)@)),
    ensures
        strictly_sorted(forms_of(final(out)@)),
        forall|y: Form|
            #![trigger forms_of(final(out)@).contains(y)]
            #![trigger forms_of(old(out)@).contains(y)]
            forms_of(final(out)@).contains(y) <==> forms_of(old(out)@).contains(y) || forms_of(
                add@,
            ).contains(y),
{
    let ghost base = forms_of(out@);
    let ghost fs = forms_of(add@);
    let mut j: usize = 0;
    proof {
        broadcast use lemma_forms_of;

        assert(fs.take(0) =~= Seq::<Form>::empty());
    }
    while j < add.len()
        invariant
            j <= add.len(),
            fs == forms_of(add@),
            fs.len() == add.len(),
            strictly_sorted(forms_of(out@)),
            forall|y: Form|
                #[trigger] forms_of(out@).contains(y) <==> base.contains(y) || fs.take(
                    j as int,
                ).contains(y),
        decreases add.len() - j,
    {
        let ghost before = forms_of(out@);
        let x = add[j].clone();
        proof {
            broadcast use lemma_forms_of;

            assert(x@ == fs[j as int]);
        }
        insert_expr(out, x);
        proof {
            broadcast use lemma_forms_of;

            lemma_sorted_insert(before, fs[j as int]);
            let ghost tall = fs.take(j + 1);
            let ghost tcur = fs.take(j as int);
            assert(tall.drop_last() =~= tcur);
            assert(tall.last() == fs[j as int]);
            assert forall|y: Form| #[trigger] tall.contains(y) implies tcur.contains(y) || y
                == fs[j as int] by {
                let k = choose|k: int| 0 <= k < tall.len() && tall[k] == y;
                if k < j {
                    assert(tcur[k] == y);
                }
            }
            assert forall|y: Form| tcur.contains(y) implies #[trigger] tall.contains(y) by {
                let k = choose|k: int| 0 <= k < tcur.len() && tcur[k] == y;
                assert(tall[k] == y);
            }
            assert(tall.contains(fs[j as int])) by {
                assert(tall[j as int] == fs[j as int]);
            }
        }
        j = j + 1;
    }
    proof {
        assert(fs.take(add@.len() as int) =~= fs);
    }
}

impl Expr {
    /// The conjunction of the given expressions, with the operands collected
    /// into an ordered set.
    pub fn and(exprs: &[Expr]) -> (r: Self)
        ensures
            r@ == Form::And(sort_dedup(forms_of(exprs@))),
    {
        Expr::And(collect_set(exprs))
    }

    /// The disjunction of the given expressions, with the operands collected
    /// into an ordered set.
    pub fn or(exprs: &[Expr]) -> (r: Self)
        ensures
            r@ == Form::Or(sort_dedup(forms_of(exprs@))),
    {
        Expr::Or(collect_set(exprs))
    }

    /// The negation of an expression, as a pre-normal tree.
    pub fn not(expr: Expr) -> (r: Self)
        ensures
            r@ == Form::Not(Box::new(expr@)),
    {
        Expr::Not(Box::new(expr))
    }

    /// Pushes De Morgan duality one level down. Alone this never produces a
    /// normal form; `inverse` then `normal` negates an expression.
    pub fn inverse(&self) -> (r: Self)
        ensures
            r@ == invert(self@),
        decreases self,
    {
        match self {
            Expr::And(subexprs) => Expr::Or(invert_children(subexprs)),
            Expr::Or(subexprs) => Expr::And(invert_children(subexprs)),
            Expr::Not(subexpr) => (**subexpr).clone(),
            Expr::Atom(name) => Expr::NotAtom(name.clone()),
            Expr::NotAtom(name) => Expr::Atom(name.clone()),
        }
    }

    /// The normal form of an expression: negations pushed to the atoms,
    /// same-kind nests flattened, operands deduplicated and ordered, and
    /// one-operand connectives collapsed.
    pub fn normal(&self) -> (r: Self)
        ensures
            r@ == norm(self@),
        decreases fsize(self@), 0int,
    {
        match self {
            Expr::And(subexprs) => Expr::normal_and(subexprs),
            Expr::Or(subexprs) => Expr::normal_or(subexprs),
            Expr::Not(expr) => {
                let inv = expr.inverse();
                proof {
                    lemma_fsize_invert(expr@);
                }
                inv.normal()
            },
            Expr::Atom(name) => Expr::Atom(name.clone()),
            Expr::NotAtom(name) => Expr::NotAtom(name.clone()),
        }
    }

    /// The names of the atoms occurring in this expression, first occurrence
    /// first, without duplicates.
    pub fn names(&self) -> (r: Vec<String>)
        ensures
            forall|i: int, j: int|
                0 <= i < j < r.len() ==> name_views(r@)[i] != name_views(r@)[j],
            forall|n: Seq<char>|
                #![trigger name_views(r@).contains(n)]
                #![trigger names_set(self@).contains(n)]
                name_views(r@).contains(n) <==> names_set(self@).contains(n),
        decreases self,
    {
        match self {
            Expr::And(subexprs) => names_children(subexprs),
            Expr::Or(subexprs) => names_children(subexprs),
            Expr::Not(expr) => expr.names(),
            Expr::Atom(name) => {
                let mut r: Vec<String> = Vec::new();
                r.push(name.clone());
                proof {
                    broadcast use lemma_name_views;

                    assert(name_views(r@) =~= seq![name@]);
                    lemma_singleton_contains_chars(name@);
                }
                r
            },
            Expr::NotAtom(name) => {
                let mut r: Vec<String> = Vec::new();
                r.push(name.clone());
                proof {
                    broadcast use lemma_name_views;

                    assert(name_views(r@) =~= seq![name@]);
                    lemma_singleton_contains_chars(name@);
                }
                r
            },
        }
    }

    /// The atom and negated-atom leaves occurring in this expression, as an
    /// ordered set.
    pub fn atoms(&self) -> (r: Vec<Expr>)
        ensures
            strictly_sorted(forms_of(r@)),
            forall|y: Form|
                #![trigger forms_of(r@).contains(y)]
                #![trigger atoms_set(self@).contains(y)]
                forms_of(r@).contains(y) <==> atoms_set(self@).contains(y),
        decreases self,
    {
        match self {
            Expr::And(subexprs) => atoms_children(subexprs),
            Expr::Or(subexprs) => atoms_children(subexprs),
            Expr::Not(expr) => expr.atoms(),
            Expr::Atom(_) => {
                let mut r: Vec<Expr> = Vec::new();
                r.push(self.clone());
                proof {
                    broadcast use lemma_forms_of;

                    assert(forms_of(r@) =~= seq![self@]);
                    lemma_singleton_contains(self@);
                }
                r
            },
            Expr::NotAtom(_) => {
                let mut r: Vec<Expr> = Vec::new();
                r.push(self.clone());
                proof {
                    broadcast use lemma_forms_of;

                    assert(forms_of(r@) =~= seq![self@]);
                    lemma_singleton_contains(self@);
                }
                r
            },
        }
    }

    /// Every node of this expression's syntax tree, itself included, as an
    /// ordered set. Defined on negation-free expressions, as every normal
    /// form is.
    pub fn subexprs(&self) -> (r: Vec<Expr>)
        requires
            !has_not(self@),
        ensures
            strictly_sorted(forms_of(r@)),
            forall|y: Form|
                #![trigger forms_of(r@).contains(y)]
                #![trigger subforms(self@).contains(y)]
                forms_of(r@).contains(y) <==> subforms(self@).contains(y),
        decreases self,
    {
        match self {
            Expr::And(subexprs) => {
                let mut out = subexprs_children(subexprs);
                let ghost before = forms_of(out@);
                insert_expr(&mut out, self.clone());
                proof {
                    lemma_sorted_insert(before, self@);
                }
                out
            },
            Expr::Or(subexprs) => {
                let mut out = subexprs_children(subexprs);
                let ghost before = forms_of(out@);
                insert_expr(&mut out, self.clone());
                proof {
                    lemma_sorted_insert(before, self@);
                }
                out
            },
            Expr::Not(_) => {
                proof {
                    assert(false);
                }
                Vec::new()
            },
            Expr::Atom(_) => {
                let mut r: Vec<Expr> = Vec::new();
                r.push(self.clone());
                proof {
                    broadcast use lemma_forms_of;

                    assert(forms_of(r@) =~= seq![self@]);
                    lemma_singleton_contains(self@);
                }
                r
            },
            Expr::NotAtom(_) => {
                let mut r: Vec<Expr> = Vec::new();
                r.push(self.clone());
                proof {
                    broadcast use lemma_forms_of;

                    assert(forms_of(r@) =~= seq![self@]);
                    lemma_singleton_contains(self@);
                }
                r
            },
        }
    }

    /// The ancestor paths of this expression: for every occurrence of every
    /// node, the path from that node through its parents up to the root.
    /// Defined on negation-free expressions, as every normal form is.
    pub fn lineage(&self) -> (r: Vec<Vec<Expr>>)
        requires
            !has_not(self@),
        ensures
            forall|p: Seq<Form>|
                #![trigger path_views(r@).contains(p)]
                #![trigger lineages(self@).contains(p)]
                path_views(r@).contains(p) <==> lineages(self@).contains(p),
        decreases self,
    {
        match self {
            Expr::And(subexprs) => lineage_children(subexprs, self),
            Expr::Or(subexprs) => lineage_children(subexprs, self),
            Expr::Not(_) => {
                proof {
                    assert(false);
                }
                Vec::new()
            },
            Expr::Atom(_) => {
                let mut path: Vec<Expr> = Vec::new();
                path.push(self.clone());
                let mut r: Vec<Vec<Expr>> = Vec::new();
                r.push(path);
                proof {
                    broadcast use lemma_forms_of, lemma_path_views;

                    assert(forms_of(r[0]@) =~= seq![self@]);
                    assert(path_views(r@) =~= seq![seq![self@]]);
                    lemma_singleton_contains_path(seq![self@]);
                }
                r
            },
            Expr::NotAtom(_) => {
                let mut path: Vec<Expr> = Vec::new();
                path.push(self.clone());
                let mut r: Vec<Vec<Expr>> = Vec::new();
                r.push(path);
                proof {
                    broadcast use lemma_forms_of, lemma_path_views;

                    assert(forms_of(r[0]@) =~= seq![self@]);
                    assert(path_views(r@) =~= seq![seq![self@]]);
                    lemma_singleton_contains_path(seq![self@]);
                }
                r
            },
        }
    }

    /// Normalises the operands of a conjunction and rebuilds it.
    fn normal_and(subexprs: &Vec<Expr>) -> (r: Expr)
        ensures
            r@ == collapse(true, norm_seq(true, forms_of(subexprs@))),
        decreases fsum(forms_of(subexprs@)), 2int,
    {
        let out = normal_operands(true, subexprs);
        proof {
            broadcast use lemma_forms_of;

        }
        if out.len() == 1 {
            let mut out = out;
            let r = out.remove(0);
            r
        } else {
            Expr::And(out)
        }
    }

    /// Normalises the operands of a disjunction and rebuilds it.
    fn normal_or(subexprs: &Vec<Expr>) -> (r: Expr)
        ensures
            r@ == collapse(false, norm_seq(false, forms_of(subexprs@))),
        decreases fsum(forms_of(subexprs@)), 2int,
    {
        let out = normal_operands(false, subexprs);
        proof {
            broadcast use lemma_forms_of;

        }
        if out.len() == 1 {
            let mut out = out;
            let r = out.remove(0);
            r
        } else {
            Expr::Or(out)
        }
    }
}

/// Normalises each operand and collects the results into an ordered set,
/// splicing in the operands of same-kind connectives.
fn normal_operands(and_kind: bool, subexprs: &Vec<Expr>) -> (r: Vec<Expr>)
    ensures
        forms_of(r@) == norm_seq(and_kind, forms_of(subexprs@)),
    decreases fsum(forms_of(subexprs@)), 1int,
{
    let ghost fs = forms_of(subexprs@);
    let mut out: Vec<Expr> = Vec::new();
    let mut i: usize = 0;
    proof {
        broadcast use lemma_forms_of;

        assert(fs.take(0) =~= Seq::<Form>::empty());
    }
    while i < subexprs.len()
        invariant
            i <= subexprs.len(),
            fs == forms_of(subexprs@),
            fs.len() == subexprs.len(),
            forms_of(out@) == norm_seq(and_kind, fs.take(i as int)),
        decreases subexprs.len() - i,
    {
        proof {
            broadcast use lemma_forms_of;

            lemma_fsum_member(fs, i as int);
        }
        let n = subexprs[i].normal();
        let ghost nf = n@;
        let ghost acc = forms_of(out@);
        let same_kind = match (&n, and_kind) {
            (Expr::And(_), true) => true,
            (Expr::Or(_), false) => true,
            _ => false,
        };
        if same_kind {
            let zs = match n {
                Expr::And(zs) => zs,
                Expr::Or(zs) => zs,
                _ => Vec::new(),
            };
            proof {
                broadcast use lemma_forms_of;

                assert(forms_of(zs@).take(0) =~= Seq::<Form>::empty());
            }
            let mut j: usize = 0;
            while j < zs.len()
                invariant
                    j <= zs.len(),
                    forms_of(out@) == insert_all(acc, forms_of(zs@).take(j as int)),
                decreases zs.len() - j,
            {
                proof {
                    broadcast use lemma_forms_of;

                }
                let z = zs[j].clone();
                insert_expr(&mut out, z);
                proof {
                    broadcast use lemma_forms_of;

                    assert(forms_of(zs@).take(j + 1).drop_last() =~= forms_of(zs@).take(j as int));
                    assert(forms_of(zs@).take(j + 1).last() == forms_of(zs@)[j as int]);
                }
                j = j + 1;
            }
            proof {
                broadcast use lemma_forms_of;

                assert(forms_of(zs@).take(zs@.len() as int) =~= forms_of(zs@));
                assert(forms_of(out@) == flat_insert(and_kind, acc, nf));
            }
        } else {
            insert_expr(&mut out, n);
            proof {
                assert(forms_of(out@) == flat_insert(and_kind, acc, nf));
            }
        }
        proof {
            assert(fs.take(i + 1).drop_last() =~= fs.take(i as int));
            assert(fs.take(i + 1).last() == fs[i as int]);
            assert(norm_seq(and_kind, fs.take(i + 1)) == flat_insert(
                and_kind,
                norm_seq(and_kind, fs.take(i as int)),
                norm(fs[i as int]),
            ));
        }
        i = i + 1;
    }
    proof {
        assert(fs.take(subexprs@.len() as int) =~= fs);
    }
    out
}

/// The character sequences denoted by a vector of names, element by element.
pub open spec fn name_views(s: Seq<String>) -> Seq<Seq<char>>
    decreases s,
{
    if s.len() == 0 {
        Seq::empty()
    } else {
        name_views(s.drop_last()).push(s.last()@)
    }
}

/// `name_views` maps the view over its argument pointwise.
pub broadcast proof fn lemma_name_views(s: Seq<String>)
    ensures
        (#[trigger] name_views(s)).len() == s.len(),
        forall|i: int| 0 <= i < s.len() ==> name_views(s)[i] == s[i]@,
    decreases s.len(),
{
    if s.len() > 0 {
        lemma_name_views(s.drop_last());
    }
}

/// The form sequences denoted by a vector of paths, element by element.
pub open spec fn path_views(s: Seq<Vec<Expr>>) -> Seq<Seq<Form>>
    decreases s,
{
    if s.len() == 0 {
        Seq::empty()
    } else {
        path_views(s.drop_last()).push(forms_of(s.last()@))
    }
}

/// `path_views` maps the view over its argument pointwise.
pub broadcast proof fn lemma_path_views(s: Seq<Vec<Expr>>)
    ensures
        (#[trigger] path_views(s)).len() == s.len(),
        forall|i: int| 0 <= i < s.len() ==> path_views(s)[i] == forms_of(s[i]@),
    decreases s.len(),
{
    if s.len() > 0 {
        lemma_path_views(s.drop_last());
    }
}

/// A one-element sequence of forms holds exactly that form.
proof fn lemma_singleton_contains(x: Form)
    ensures
        forall|y: Form| seq![x].contains(y) <==> y == x,
{
    broadcast use vstd::seq_lib::lemma_seq_contains_after_push;

    assert(seq![x] =~= Seq::<Form>::empty().push(x));
    assert forall|y: Form| Seq::<Form>::empty().contains(y) implies false by {
        let i = choose|i: int| 0 <= i < 0 && Seq::<Form>::empty()[i] == y;
    }
}

/// A one-element sequence of character sequences holds exactly that element.
proof fn lemma_singleton_contains_chars(x: Seq<char>)
    ensures
        forall|y: Seq<char>| seq![x].contains(y) <==> y == x,
{
    broadcast use vstd::seq_lib::lemma_seq_contains_after_push;

    assert(seq![x] =~= Seq::<Seq<char>>::empty().push(x));
    assert forall|y: Seq<char>| Seq::<Seq<char>>::empty().contains(y) implies false by {
        let i = choose|i: int| 0 <= i < 0 && Seq::<Seq<char>>::empty()[i] == y;
    }
}

/// A one-element sequence of paths holds exactly that path.
proof fn lemma_singleton_contains_path(x: Seq<Form>)
    ensures
        forall|y: Seq<Form>| seq![x].contains(y) <==> y == x,
{
    broadcast use vstd::seq_lib::lemma_seq_contains_after_push;

    assert(seq![x] =~= Seq::<Seq<Form>>::empty().push(x));
    assert forall|y: Seq<Form>| Seq::<Seq<Form>>::empty().contains(y) implies false by {
        let i = choose|i: int| 0 <= i < 0 && Seq::<Seq<Form>>::empty()[i] == y;
    }
}

impl Expr {
    /// Renders this expression in the surface syntax.
    pub fn render(&self) -> (r: String)
        ensures
            r@ == render_form(self@),
        decreases self,
    {
        match self {
            Expr::And(children) => render_exprs(children, " & "),
            Expr::Or(children) => render_exprs(children, " | "),
            Expr::Not(inner) => {
                let mut out = String::from_str("~(");
                let body = (**inner).render();
                out.append(body.as_str());
                out.append(")");
                out
            },
            Expr::Atom(name) => name.clone(),
            Expr::NotAtom(name) => {
                let mut out = String::from_str("~");
                out.append(name.as_str());
                out
            },
        }
    }
}

/// Renders a sequence of expressions joined by a separator.
pub fn render_exprs(children: &Vec<Expr>, sep: &str) -> (r: String)
    ensures
        r@ == render_operands(forms_of(children@), sep@),
    decreases children,
{
    proof {
        lemma_forms_of(children@);
    }
    let ghost fs = forms_of(children@);
    let mut out = String::new();
    let mut i: usize = 0;
    proof {
        assert(fs.take(0) =~= Seq::<Form>::empty());
    }
    while i < children.len()
        invariant
            i <= children.len(),
            fs == forms_of(children@),
            fs.len() == children.len(),
            out@ == render_operands(fs.take(i as int), sep@),
        decreases children.len() - i,
    {
        proof {
            lemma_forms_of(children@);
        }
        if i > 0 {
            out.append(sep);
        }
        let piece = children[i].render();
        out.append(piece.as_str());
        proof {
            assert(fs.take(i + 1).drop_last() =~= fs.take(i as int));
            assert(fs.take(i + 1).last() == fs[i as int]);
            if i == 0 {
                assert(fs.take(1)[0] == fs[0]);
            }
        }
        i = i + 1;
    }
    proof {
        assert(fs.take(children@.len() as int) =~= fs);
    }
    out
}

/// Whether some element of `v` has this name.
fn contains_name(v: &Vec<String>, x: &String) -> (r: bool)
    ensures
        r == name_views(v@).contains(x@),
{
    proof {
        broadcast use lemma_name_views;

    }
    let mut i: usize = 0;
    while i < v.len()
        invariant
            i <= v.len(),
            forall|j: int| 0 <= j < i ==> name_views(v@)[j] != x@,
        decreases v.len() - i,
    {
        proof {
            broadcast use lemma_name_views;

        }
        if v[i].eq(x) {
            proof {
                assert(name_views(v@)[i as int] == x@);
                assert(name_views(v@).contains(x@));
            }
            return true;
        }
        i = i + 1;
    }
    proof {
        broadcast use lemma_name_views;

        if name_views(v@).contains(x@) {
            let j = choose|j: int| 0 <= j < name_views(v@).len() && name_views(v@)[j] == x@;
        }
    }
    false
}

/// Collects the names of every operand, first occurrence first.
fn names_children(children: &Vec<Expr>) -> (r: Vec<String>)
    ensures
        forall|i: int, j: int| 0 <= i < j < r.len() ==> name_views(r@)[i] != name_views(r@)[j],
        forall|n: Seq<char>|
            #![trigger name_views(r@).contains(n)]
            #![trigger names_seq(forms_of(children@)).contains(n)]
            name_views(r@).contains(n) <==> names_seq(forms_of(children@)).contains(n),
    decreases children,
{
    broadcast use
        lemma_forms_of,
        lemma_name_views,
        vstd::seq_lib::lemma_seq_contains_after_push,
    ;

    let ghost fs = forms_of(children@);
    let mut out: Vec<String> = Vec::new();
    let mut i: usize = 0;
    proof {
        assert forall|n: Seq<char>| !names_seq(fs.take(0)).contains(n) by {
            assert(fs.take(0) =~= Seq::<Form>::empty());
        }
    }
    while i < children.len()
        invariant
            i <= children.len(),
            fs == forms_of(children@),
            fs.len() == children.len(),
            forall|a: int, b: int|
                0 <= a < b < out.len() ==> name_views(out@)[a] != name_views(out@)[b],
            forall|n: Seq<char>|
                #[trigger] name_views(out@).contains(n) <==> names_seq(fs.take(i as int)).contains(
                    n,
                ),
        decreases children.len() - i,
    {
        let sub = children[i].names();
        let ghost subviews = name_views(sub@);
        let mut j: usize = 0;
        proof {
            lemma_name_views(sub@);
            assert(subviews.take(0) =~= Seq::<Seq<char>>::empty());
        }
        while j < sub.len()
            invariant
                j <= sub.len(),
                subviews == name_views(sub@),
                subviews.len() == sub.len(),
                forall|a: int, b: int|
                    0 <= a < b < out.len() ==> name_views(out@)[a] != name_views(out@)[b],
                forall|n: Seq<char>|
                    #[trigger] name_views(out@).contains(n) <==> names_seq(
                        fs.take(i as int),
                    ).contains(n) || subviews.take(j as int).contains(n),
            decreases sub.len() - j,
        {
            let ghost before = name_views(out@);
            let ghost oldseq = out@;
            let nm = sub[j].clone();
            proof {
                lemma_name_views(sub@);
                assert(nm@ == subviews[j as int]);
            }
            let present = contains_name(&out, &nm);
            if !present {
                out.push(nm);
                proof {
                    lemma_name_views(out@);
                    lemma_name_views(oldseq);
                    assert(name_views(out@) =~= before.push(subviews[j as int]));
                    assert forall|n: Seq<char>|
                        #[trigger] name_views(out@).contains(n) <==> before.contains(n) || n
                            == subviews[j as int] by {
                        vstd::seq_lib::lemma_seq_contains_after_push(
                            before,
                            subviews[j as int],
                            n,
                        );
                    }
                }
            }
            proof {
                assert(name_views(out@).contains(subviews[j as int]));
            }
            proof {
                let ghost tall = subviews.take(j + 1);
                assert forall|n: Seq<char>| #[trigger] tall.contains(n) implies subviews.take(
                    j as int,
                ).contains(n) || n == subviews[j as int] by {
                    let k = choose|k: int| 0 <= k < tall.len() && tall[k] == n;
                    if k < j {
                        assert(subviews.take(j as int)[k] == n);
                    }
                }
                assert forall|n: Seq<char>|
                    subviews.take(j as int).contains(n) implies #[trigger] tall.contains(n) by {
                    let k = choose|k: int|
                        0 <= k < subviews.take(j as int).len() && subviews.take(j as int)[k] == n;
                    assert(tall[k] == n);
                }
                assert(tall.contains(subviews[j as int])) by {
                    assert(tall[j as int] == subviews[j as int]);
                }
            }
            j = j + 1;
        }
        proof {
            lemma_forms_of(children@);
            assert(subviews.take(sub@.len() as int) =~= subviews);
            assert(fs.take(i + 1).drop_last() =~= fs.take(i as int));
            assert(fs.take(i + 1).last() == fs[i as int]);
            assert(names_seq(fs.take(i + 1)) == names_seq(fs.take(i as int)).union(
                names_set(fs[i as int]),
            ));
            assert(forall|n: Seq<char>|
                #[trigger] subviews.contains(n) <==> names_set(fs[i as int]).contains(n));
        }
        i = i + 1;
    }
    proof {
        assert(fs.take(children@.len() as int) =~= fs);
    }
    out
}

/// Collects the atoms of every operand into an ordered set.
fn atoms_children(children: &Vec<Expr>) -> (r: Vec<Expr>)
    ensures
        strictly_sorted(forms_of(r@)),
        forall|y: Form|
            #![trigger forms_of(r@).contains(y)]
            #![trigger atoms_seq(forms_of(children@)).contains(y)]
            forms_of(r@).contains(y) <==> atoms_seq(forms_of(children@)).contains(y),
    decreases children,
{
    broadcast use lemma_forms_of;

    let ghost fs = forms_of(children@);
    let mut out: Vec<Expr> = Vec::new();
    let mut i: usize = 0;
    proof {
        assert forall|y: Form| !atoms_seq(fs.take(0)).contains(y) by {
            assert(fs.take(0) =~= Seq::<Form>::empty());
        }
        assert forall|y: Form| !forms_of(out@).contains(y) by {
            if forms_of(out@).contains(y) {
                let k = choose|k: int| 0 <= k < forms_of(out@).len() && forms_of(out@)[k] == y;
            }
        }
    }
    while i < children.len()
        invariant
            i <= children.len(),
            fs == forms_of(children@),
            fs.len() == children.len(),
            strictly_sorted(forms_of(out@)),
            forall|y: Form|
                forms_of(out@).contains(y) <==> atoms_seq(fs.take(i as int)).contains(y),
        decreases children.len() - i,
    {
        let ghost acc = forms_of(out@);
        let sub = children[i].atoms();
        merge_exprs(&mut out, &sub);
        proof {
            lemma_forms_of(children@);
            assert(fs.take(i + 1).drop_last() =~= fs.take(i as int));
            assert(fs.take(i + 1).last() == fs[i as int]);
            assert(atoms_seq(fs.take(i + 1)) == atoms_seq(fs.take(i as int)).union(
                atoms_set(fs[i as int]),
            ));
            assert(forall|y: Form|
                forms_of(sub@).contains(y) <==> atoms_set(fs[i as int]).contains(y));
            assert(forall|y: Form|
                forms_of(out@).contains(y) <==> acc.contains(y) || forms_of(sub@).contains(y));
            assert(forall|y: Form|
                forms_of(out@).contains(y) <==> atoms_seq(fs.take(i + 1)).contains(y));
        }
        i = i + 1;
    }
    proof {
        assert(fs.take(children@.len() as int) =~= fs);
    }
    out
}

/// Collects the nodes of every operand into an ordered set.
fn subexprs_children(children: &Vec<Expr>) -> (r: Vec<Expr>)
    requires
        !has_not_seq(forms_of(children@)),
    ensures
        strictly_sorted(forms_of(r@)),
        forall|y: Form|
            #![trigger forms_of(r@).contains(y)]
            #![trigger subforms_seq(forms_of(children@)).contains(y)]
            forms_of(r@).contains(y) <==> subforms_seq(forms_of(children@)).contains(y),
    decreases children,
{
    broadcast use lemma_forms_of, lemma_has_not_seq;

    let ghost fs = forms_of(children@);
    let mut out: Vec<Expr> = Vec::new();
    let mut i: usize = 0;
    proof {
        assert forall|y: Form| !subforms_seq(fs.take(0)).contains(y) by {
            assert(fs.take(0) =~= Seq::<Form>::empty());
        }
        assert forall|y: Form| !forms_of(out@).contains(y) by {
            if forms_of(out@).contains(y) {
                let k = choose|k: int| 0 <= k < forms_of(out@).len() && forms_of(out@)[k] == y;
            }
        }
    }
    while i < children.len()
        invariant
            i <= children.len(),
            fs == forms_of(children@),
            fs.len() == children.len(),
            !has_not_seq(fs),
            strictly_sorted(forms_of(out@)),
            forall|y: Form|
                forms_of(out@).contains(y) <==> subforms_seq(fs.take(i as int)).contains(y),
        decreases children.len() - i,
    {
        let ghost acc = forms_of(out@);
        proof {
            lemma_forms_of(children@);
            lemma_has_not_seq(fs);
            assert(!has_not(fs[i as int]));
        }
        let sub = children[i].subexprs();
        merge_exprs(&mut out, &sub);
        proof {
            lemma_forms_of(children@);
            assert(fs.take(i + 1).drop_last() =~= fs.take(i as int));
            assert(fs.take(i + 1).last() == fs[i as int]);
            assert(subforms_seq(fs.take(i + 1)) == subforms_seq(fs.take(i as int)).union(
                subforms(fs[i as int]),
            ));
            assert(forall|y: Form|
                forms_of(sub@).contains(y) <==> subforms(fs[i as int]).contains(y));
            assert(forall|y: Form|
                forms_of(out@).contains(y) <==> acc.contains(y) || forms_of(sub@).contains(y));
            assert(forall|y: Form|
                forms_of(out@).contains(y) <==> subforms_seq(fs.take(i + 1)).contains(y));
        }
        i = i + 1;
    }
    proof {
        assert(fs.take(children@.len() as int) =~= fs);
    }
    out
}

/// Collects the ancestor paths of every operand, each extended with the
/// parent, and adds the parent's own path.
fn lineage_children(children: &Vec<Expr>, root: &Expr) -> (r: Vec<Vec<Expr>>)
    requires
        !has_not_seq(forms_of(children@)),
        children_of(root@) == forms_of(children@),
        root@ is And || root@ is Or,
    ensures
        forall|p: Seq<Form>|
            #![trigger path_views(r@).contains(p)]
            #![trigger lineages(root@).contains(p)]
            path_views(r@).contains(p) <==> lineages(root@).contains(p),
    decreases children,
{
    broadcast use
        lemma_forms_of,
        lemma_path_views,
        lemma_has_not_seq,
        vstd::seq_lib::lemma_seq_contains_after_push,
    ;

    let ghost fs = forms_of(children@);
    let mut out: Vec<Vec<Expr>> = Vec::new();
    let mut i: usize = 0;
    proof {
        assert forall|p: Seq<Form>| !lineages_seq(fs.take(0)).contains(p) by {
            lemma_lineages_seq(fs.take(0), p);
            assert(fs.take(0) =~= Seq::<Form>::empty());
        }
        assert forall|p: Seq<Form>| !path_views(out@).contains(p) by {
            if path_views(out@).contains(p) {
                let k = choose|k: int| 0 <= k < path_views(out@).len() && path_views(out@)[k] == p;
            }
        }
    }
    while i < children.len()
        invariant
            i <= children.len(),
            fs == forms_of(children@),
            fs.len() == children.len(),
            !has_not_seq(fs),
            forall|p: Seq<Form>|
                #[trigger] path_views(out@).contains(p) <==> (p.len() > 0 && p.last() == root@
                    && lineages_seq(fs.take(i as int)).contains(p.drop_last())),
        decreases children.len() - i,
    {
        proof {
            lemma_forms_of(children@);
            lemma_has_not_seq(fs);
            assert(!has_not(fs[i as int]));
        }
        let ls = children[i].lineage();
        let ghost lviews = path_views(ls@);
        let mut j: usize = 0;
        proof {
            lemma_path_views(ls@);
            assert(lviews.take(0) =~= Seq::<Seq<Form>>::empty());
        }
        while j < ls.len()
            invariant
                j <= ls.len(),
                fs == forms_of(children@),
                fs.len() == children.len(),
                0 <= i < children.len(),
                lviews == path_views(ls@),
                lviews.len() == ls.len(),
                forall|p: Seq<Form>| lviews.contains(p) <==> lineages(fs[i as int]).contains(p),
                forall|p: Seq<Form>|
                    #[trigger] path_views(out@).contains(p) <==> (p.len() > 0 && p.last() == root@
                        && (lineages_seq(fs.take(i as int)).contains(p.drop_last())
                        || lviews.take(j as int).contains(p.drop_last()))),
            decreases ls.len() - j,
        {
            let ghost before = path_views(out@);
            let ghost oldseq = out@;
            let mut path = clone_exprs(&ls[j]);
            proof {
                lemma_forms_of(path@);
                lemma_forms_of(ls[j as int]@);
                assert(forms_of(path@) =~= forms_of(ls[j as int]@));
            }
            let ghost stem = path@;
            path.push(root.clone());
            proof {
                lemma_forms_of(path@);
                lemma_forms_of(stem);
                lemma_path_views(ls@);
                assert(forms_of(path@) =~= forms_of(ls[j as int]@).push(root@));
            }
            out.push(path);
            proof {
                lemma_path_views(out@);
                lemma_path_views(oldseq);
                assert(path_views(out@) =~= before.push(lviews[j as int].push(root@)));
                assert forall|p: Seq<Form>|
                    #[trigger] path_views(out@).contains(p) <==> before.contains(p) || p
                        == lviews[j as int].push(root@) by {
                    vstd::seq_lib::lemma_seq_contains_after_push(
                        before,
                        lviews[j as int].push(root@),
                        p,
                    );
                }
                let ghost lall = lviews.take(j + 1);
                assert forall|p: Seq<Form>| #[trigger] lall.contains(p) implies lviews.take(
                    j as int,
                ).contains(p) || p == lviews[j as int] by {
                    let k = choose|k: int| 0 <= k < lall.len() && lall[k] == p;
                    if k < j {
                        assert(lviews.take(j as int)[k] == p);
                    }
                }
                assert forall|p: Seq<Form>|
                    lviews.take(j as int).contains(p) implies #[trigger] lall.contains(p) by {
                    let k = choose|k: int|
                        0 <= k < lviews.take(j as int).len() && lviews.take(j as int)[k] == p;
                    assert(lall[k] == p);
                }
                assert(lall.contains(lviews[j as int])) by {
                    assert(lall[j as int] == lviews[j as int]);
                }
                let ghost q = lviews[j as int].push(root@);
                assert(q.len() > 0 && q.last() == root@);
                assert(q.drop_last() =~= lviews[j as int]);
                assert forall|p: Seq<Form>|
                    #[trigger] path_views(out@).contains(p) <==> (p.len() > 0 && p.last() == root@
                        && (lineages_seq(fs.take(i as int)).contains(p.drop_last())
                        || lall.contains(p.drop_last()))) by {
                    if path_views(out@).contains(p) {
                        if p == q {
                            assert(p.drop_last() =~= lviews[j as int]);
                        }
                    } else {
                        if p.len() > 0 && p.last() == root@ && lall.contains(p.drop_last()) {
                            if p.drop_last() == lviews[j as int] {
                                assert(p =~= q);
                            }
                        }
                    }
                }
            }
            j = j + 1;
        }
        proof {
            lemma_forms_of(children@);
            lemma_path_views(ls@);
            assert(lviews.take(ls@.len() as int) =~= lviews);
            assert(fs.take(i + 1).drop_last() =~= fs.take(i as int));
            assert(fs.take(i + 1).last() == fs[i as int]);
            assert forall|p: Seq<Form>|
                lineages_seq(fs.take(i + 1)).contains(p) <==> lineages_seq(
                fs.take(i as int),
            ).contains(p) || lineages(fs[i as int]).contains(p) by {
                lemma_lineages_seq(fs.take(i + 1), p);
            }
        }
        i = i + 1;
    }
    let mut own: Vec<Expr> = Vec::new();
    own.push(root.clone());
    let ghost final_exts = path_views(out@);
    let ghost oldseq2 = out@;
    proof {
        lemma_forms_of(own@);
        assert(forms_of(own@) =~= seq![root@]);
    }
    out.push(own);
    proof {
        lemma_path_views(out@);
        lemma_path_views(oldseq2);
        assert(fs.take(children@.len() as int) =~= fs);
        assert(path_views(out@) =~= final_exts.push(seq![root@]));
        assert forall|p: Seq<Form>|
            #[trigger] path_views(out@).contains(p) <==> final_exts.contains(p) || p == seq![
                root@,
            ] by {
            vstd::seq_lib::lemma_seq_contains_after_push(final_exts, seq![root@], p);
        }
        assert forall|p: Seq<Form>|
            #[trigger] path_views(out@).contains(p) <==> lineages(root@).contains(p) by {
            let below = lineages_seq(fs);
            if root@ is And {
                assert(lineages(root@) == extend_lineages(below, root@));
            } else {
                assert(lineages(root@) == extend_lineages(below, root@));
            }
            if path_views(out@).contains(p) {
                if p == seq![root@] {
                    assert(extend_lineages(below, root@).contains(p));
                } else {
                    assert(final_exts.contains(p));
                    assert(p.len() > 0 && p.last() == root@ && below.contains(p.drop_last()));
                    assert(extend_lineages(below, root@).contains(p));
                }
            }
            if lineages(root@).contains(p) {
                if p == seq![root@] {
                    assert(path_views(out@).contains(p));
                } else {
                    assert(p.len() > 0 && p.last() == root@ && below.contains(p.drop_last()));
                    assert(final_exts.contains(p));
                }
            }
        }
    }
    out
}

/// Collects a slice of expressions into an ordered set.
fn collect_set(exprs: &[Expr]) -> (r: Vec<Expr>)
    ensures
        forms_of(r@) == sort_dedup(forms_of(exprs@)),
{
    let ghost fs = forms_of(exprs@);
    let mut out: Vec<Expr> = Vec::new();
    let mut i: usize = 0;
    proof {
        broadcast use lemma_forms_of;

        assert(fs.take(0) =~= Seq::<Form>::empty());
    }
    while i < exprs.len()
        invariant
            i <= exprs.len(),
            fs == forms_of(exprs@),
            fs.len() == exprs.len(),
            forms_of(out@) == sort_dedup(fs.take(i as int)),
        decreases exprs.len() - i,
    {
        proof {
            broadcast use lemma_forms_of;

        }
        let x = exprs[i].clone();
        insert_expr(&mut out, x);
        proof {
            assert(fs.take(i + 1).drop_last() =~= fs.take(i as int));
            assert(fs.take(i + 1).last() == fs[i as int]);
        }
        i = i + 1;
    }
    proof {
        assert(fs.take(exprs@.len() as int) =~= fs);
    }
    out
}

/// Inverts each operand and collects the results into an ordered set.
fn invert_children(children: &Vec<Expr>) -> (r: Vec<Expr>)
    ensures
        forms_of(r@) == invert_seq(forms_of(children@)),
    decreases children,
{
    let ghost fs = forms_of(children@);
    let mut out: Vec<Expr> = Vec::new();
    let mut i: usize = 0;
    proof {
        broadcast use lemma_forms_of;

        assert(fs.take(0) =~= Seq::<Form>::empty());
    }
    while i < children.len()
        invariant
            i <= children.len(),
            fs == forms_of(children@),
            fs.len() == children.len(),
            forms_of(out@) == invert_seq(fs.take(i as int)),
        decreases children.len() - i,
    {
        proof {
            broadcast use lemma_forms_of;

        }
        let x = children[i].inverse();
        insert_expr(&mut out, x);
        proof {
            assert(fs.take(i + 1).drop_last() =~= fs.take(i as int));
            assert(fs.take(i + 1).last() == fs[i as int]);
        }
        i = i + 1;
    }
    proof {
        assert(fs.take(children@.len() as int) =~= fs);
    }
    out
}

impl Clone for Expr {
    /// A clone denotes the same form as the original.
    fn clone(&self) -> (r: Self)
        ensures
            r@ == self@,
        decreases self,
    {
        match self {
            Expr::And(children) => {
                let c = clone_exprs(children);
                let r = Expr::And(c);
                proof {
                    broadcast use lemma_forms_of;

                    assert(forms_of(c@) =~= forms_of(children@));
                }
                r
            },
            Expr::Or(children) => {
                let c = clone_exprs(children);
                let r = Expr::Or(c);
                proof {
                    broadcast use lemma_forms_of;

                    assert(forms_of(c@) =~= forms_of(children@));
                }
                r
            },
            Expr::Not(inner) => Expr::Not(Box::new((**inner).clone())),
            Expr::Atom(name) => Expr::Atom(name.clone()),
            Expr::NotAtom(name) => Expr::NotAtom(name.clone()),
        }
    }
}

pub fn clone_exprs(children: &Vec<Expr>) -> (r: Vec<Expr>)
    ensures
        r.len() == children.len(),
        forall|j: int| 0 <= j < children.len() ==> r[j]@ == children[j]@,
    decreases children,
{
    let mut out: Vec<Expr> = Vec::new();
    let mut i: usize = 0;
    while i < children.len()
        invariant
            i <= children.len(),
            out.len() == i,
            forall|j: int| 0 <= j < i ==> out[j]@ == children[j]@,
        decreases children.len() - i,
    {
        out.push(children[i].clone());
        i = i + 1;
    }
    out
}

} // verus!
