//! A total order on forms. `And`/`Or` operands and sequents are kept as
//! strictly increasing sequences under this order, so that two such sequences
//! denote the same set exactly when they are equal.

use vstd::prelude::*;

use crate::expression::{Expr, Form, forms_of, lemma_forms_of};
use vstd::string::StrSliceExecFns;

verus! {

broadcast use vstd::seq::group_seq_axioms, vstd::set::group_set_axioms;

/// Three-way lexicographic comparison of character sequences, by scalar value.
pub open spec fn cmp_chars(a: Seq<char>, b: Seq<char>) -> int
    decreases a.len(),
{
    if a.len() == 0 && b.len() == 0 {
        0
    } else if a.len() == 0 {
        -1
    } else if b.len() == 0 {
        1
    } else if (a[0] as int) < (b[0] as int) {
        -1
    } else if (a[0] as int) > (b[0] as int) {
        1
    } else {
        cmp_chars(a.drop_first(), b.drop_first())
    }
}

/// Forms are ordered by kind first: conjunctions, then disjunctions, then
/// negations, then atoms, then negated atoms.
pub open spec fn rank(f: Form) -> int {
    match f {
        Form::And(_) => 0,
        Form::Or(_) => 1,
        Form::Not(_) => 2,
        Form::Atom(_) => 3,
        Form::NotAtom(_) => 4,
    }
}

/// Three-way structural comparison of forms: by kind, then by name or by the
/// operand sequences lexicographically.
pub open spec fn cmp_form(a: Form, b: Form) -> int
    decreases a,
{
    if rank(a) != rank(b) {
        if rank(a) < rank(b) {
            -1
        } else {
            1
        }
    } else {
        match (a, b) {
            (Form::And(x), Form::And(y)) => cmp_forms(x, y),
            (Form::Or(x), Form::Or(y)) => cmp_forms(x, y),
            (Form::Not(x), Form::Not(y)) => cmp_form(*x, *y),
            (Form::Atom(x), Form::Atom(y)) => cmp_chars(x, y),
            (Form::NotAtom(x), Form::NotAtom(y)) => cmp_chars(x, y),
            _ => 0,
        }
    }
}

/// Three-way lexicographic comparison of form sequences.
pub open spec fn cmp_forms(x: Seq<Form>, y: Seq<Form>) -> int
    decreases x,
{
    if x.len() == 0 && y.len() == 0 {
        0
    } else if x.len() == 0 {
        -1
    } else if y.len() == 0 {
        1
    } else {
        let c = cmp_form(x[0], y[0]);
        if c != 0 {
            c
        } else {
            cmp_forms(x.drop_first(), y.drop_first())
        }
    }
}

/// Character sequences that compare as equal are equal, and the comparison is
/// reflexive.
pub proof fn lemma_cmp_chars_eq(a: Seq<char>, b: Seq<char>)
    ensures
        cmp_chars(a, b) == 0 ==> a == b,
        cmp_chars(a, a) == 0,
    decreases a.len(),
{
    if a.len() > 0 {
        lemma_cmp_chars_eq(a.drop_first(), a.drop_first());
        if b.len() > 0 {
            lemma_cmp_chars_eq(a.drop_first(), b.drop_first());
            if cmp_chars(a, b) == 0 {
                assert(a[0] == b[0]);
                assert(a =~= b) by {
                    assert(forall|i: int|
                        1 <= i < a.len() ==> a[i] == a.drop_first()[i - 1] && b[i]
                            == b.drop_first()[i - 1]);
                };
            }
        }
    }
}

/// Swapping the arguments negates the comparison of character sequences.
pub proof fn lemma_cmp_chars_antisym(a: Seq<char>, b: Seq<char>)
    ensures
        cmp_chars(b, a) == -cmp_chars(a, b),
    decreases a.len(),
{
    if a.len() > 0 && b.len() > 0 {
        lemma_cmp_chars_antisym(a.drop_first(), b.drop_first());
    }
}

/// The comparison of character sequences is transitive.
pub proof fn lemma_cmp_chars_trans(a: Seq<char>, b: Seq<char>, c: Seq<char>)
    requires
        cmp_chars(a, b) <= 0,
        cmp_chars(b, c) <= 0,
    ensures
        cmp_chars(a, c) <= 0,
        cmp_chars(a, c) == 0 ==> cmp_chars(a, b) == 0 && cmp_chars(b, c) == 0,
    decreases a.len(),
{
    if a.len() > 0 && b.len() > 0 && c.len() > 0 {
        if (a[0] as int) == (b[0] as int) && (b[0] as int) == (c[0] as int) {
            lemma_cmp_chars_trans(a.drop_first(), b.drop_first(), c.drop_first());
        }
    }
}

/// Forms that compare as equal are equal, and the comparison is reflexive.
pub proof fn lemma_cmp_form_eq(a: Form, b: Form)
    ensures
        cmp_form(a, b) == 0 ==> a == b,
        cmp_form(a, a) == 0,
    decreases a,
{
    match a {
        Form::And(x) => {
            if b is And {
                lemma_cmp_forms_eq(x, b->And_0);
            }
            lemma_cmp_forms_eq(x, x);
        },
        Form::Or(x) => {
            if b is Or {
                lemma_cmp_forms_eq(x, b->Or_0);
            }
            lemma_cmp_forms_eq(x, x);
        },
        Form::Not(x) => {
            if b is Not {
                lemma_cmp_form_eq(*x, *b->Not_0);
            }
            lemma_cmp_form_eq(*x, *x);
        },
        Form::Atom(x) => {
            if b is Atom {
                lemma_cmp_chars_eq(x, b->Atom_0);
            }
            lemma_cmp_chars_eq(x, x);
        },
        Form::NotAtom(x) => {
            if b is NotAtom {
                lemma_cmp_chars_eq(x, b->NotAtom_0);
            }
            lemma_cmp_chars_eq(x, x);
        },
    }
}

/// Form sequences that compare as equal are equal, and the comparison is
/// reflexive.
pub proof fn lemma_cmp_forms_eq(x: Seq<Form>, y: Seq<Form>)
    ensures
        cmp_forms(x, y) == 0 ==> x == y,
        cmp_forms(x, x) == 0,
    decreases x,
{
    if x.len() > 0 {
        lemma_cmp_form_eq(x[0], x[0]);
        lemma_cmp_forms_eq(x.drop_first(), x.drop_first());
        if y.len() > 0 {
            lemma_cmp_form_eq(x[0], y[0]);
            lemma_cmp_forms_eq(x.drop_first(), y.drop_first());
            if cmp_forms(x, y) == 0 {
                assert(x =~= y) by {
                    assert(forall|i: int|
                        1 <= i < x.len() ==> x[i] == x.drop_first()[i - 1] && y[i]
                            == y.drop_first()[i - 1]);
                };
            }
        }
    }
}

/// Swapping the arguments negates the comparison of forms.
pub proof fn lemma_cmp_form_antisym(a: Form, b: Form)
    ensures
        cmp_form(b, a) == -cmp_form(a, b),
    decreases a,
{
    match (a, b) {
        (Form::And(x), Form::And(y)) => lemma_cmp_forms_antisym(x, y),
        (Form::Or(x), Form::Or(y)) => lemma_cmp_forms_antisym(x, y),
        (Form::Not(x), Form::Not(y)) => lemma_cmp_form_antisym(*x, *y),
        (Form::Atom(x), Form::Atom(y)) => lemma_cmp_chars_antisym(x, y),
        (Form::NotAtom(x), Form::NotAtom(y)) => lemma_cmp_chars_antisym(x, y),
        _ => {},
    }
}

/// Swapping the arguments negates the comparison of form sequences.
pub proof fn lemma_cmp_forms_antisym(x: Seq<Form>, y: Seq<Form>)
    ensures
        cmp_forms(y, x) == -cmp_forms(x, y),
    decreases x,
{
    if x.len() > 0 && y.len() > 0 {
        lemma_cmp_form_antisym(x[0], y[0]);
        lemma_cmp_forms_antisym(x.drop_first(), y.drop_first());
    }
}

/// The comparison of forms is transitive.
pub proof fn lemma_cmp_form_trans(a: Form, b: Form, c: Form)
    requires
        cmp_form(a, b) <= 0,
        cmp_form(b, c) <= 0,
    ensures
        cmp_form(a, c) <= 0,
        cmp_form(a, c) == 0 ==> cmp_form(a, b) == 0 && cmp_form(b, c) == 0,
    decreases a,
{
    if rank(a) == rank(b) && rank(b) == rank(c) {
        match (a, b, c) {
            (Form::And(x), Form::And(y), Form::And(z)) => lemma_cmp_forms_trans(x, y, z),
            (Form::Or(x), Form::Or(y), Form::Or(z)) => lemma_cmp_forms_trans(x, y, z),
            (Form::Not(x), Form::Not(y), Form::Not(z)) => lemma_cmp_form_trans(*x, *y, *z),
            (Form::Atom(x), Form::Atom(y), Form::Atom(z)) => lemma_cmp_chars_trans(x, y, z),
            (Form::NotAtom(x), Form::NotAtom(y), Form::NotAtom(z)) => lemma_cmp_chars_trans(
                x,
                y,
                z,
            ),
            _ => {},
        }
    }
}

/// The comparison of form sequences is transitive.
pub proof fn lemma_cmp_forms_trans(x: Seq<Form>, y: Seq<Form>, z: Seq<Form>)
    requires
        cmp_forms(x, y) <= 0,
        cmp_forms(y, z) <= 0,
    ensures
        cmp_forms(x, z) <= 0,
        cmp_forms(x, z) == 0 ==> cmp_forms(x, y) == 0 && cmp_forms(y, z) == 0,
    decreases x,
{
    if x.len() > 0 && y.len() > 0 && z.len() > 0 {
        lemma_cmp_form_antisym(x[0], y[0]);
        lemma_cmp_form_antisym(y[0], z[0]);
        if cmp_form(x[0], y[0]) == 0 {
            lemma_cmp_form_eq(x[0], y[0]);
        }
        if cmp_form(y[0], z[0]) == 0 {
            lemma_cmp_form_eq(y[0], z[0]);
        }
        if cmp_form(x[0], y[0]) == 0 && cmp_form(y[0], z[0]) == 0 {
            lemma_cmp_forms_trans(x.drop_first(), y.drop_first(), z.drop_first());
        } else {
            lemma_cmp_form_trans(x[0], y[0], z[0]);
        }
    }
}

/// An ordered set of forms: strictly increasing, hence duplicate-free.
pub open spec fn strictly_sorted(s: Seq<Form>) -> bool {
    forall|i: int, j: int| 0 <= i < j < s.len() ==> cmp_form(#[trigger] s[i], #[trigger] s[j]) < 0
}

/// Insertion into an ordered set of forms: keeps order and uniqueness.
pub open spec fn sorted_insert(s: Seq<Form>, x: Form) -> Seq<Form>
    decreases s.len(),
{
    if s.len() == 0 {
        seq![x]
    } else {
        let c = cmp_form(x, s[0]);
        if c < 0 {
            seq![x] + s
        } else if c == 0 {
            s
        } else {
            seq![s[0]] + sorted_insert(s.drop_first(), x)
        }
    }
}

/// What insertion does to an ordered set: the result is ordered and holds
/// exactly the old elements and the new one.
#[verifier::rlimit(60)]
pub proof fn lemma_sorted_insert(s: Seq<Form>, x: Form)
    requires
        strictly_sorted(s),
    ensures
        strictly_sorted(sorted_insert(s, x)),
        forall|y: Form|
            #[trigger] sorted_insert(s, x).contains(y) <==> s.contains(y) || y == x,
        s.contains(x) ==> sorted_insert(s, x) == s,
        !s.contains(x) ==> sorted_insert(s, x).len() == s.len() + 1,
        sorted_insert(s, x).to_set() =~= s.to_set().insert(x),
    decreases s.len(),
{
    lemma_cmp_form_eq(x, x);
    if s.len() == 0 {
        assert(sorted_insert(s, x) =~= seq![x]);
        assert(seq![x][0] == x);
        assert(seq![x].contains(x));
        assert forall|y: Form| #[trigger] seq![x].contains(y) implies y == x by {
            let i = choose|i: int| 0 <= i < seq![x].len() && seq![x][i] == y;
        }
    } else {
        let c = cmp_form(x, s[0]);
        lemma_cmp_form_eq(x, s[0]);
        lemma_cmp_form_antisym(x, s[0]);
        assert(forall|i: int| 0 <= i < s.len() ==> s.contains(s[i]));
        if c < 0 {
            let r = seq![x] + s;
            assert forall|i: int, j: int| 0 <= i < j < r.len() implies cmp_form(
                r[i],
                r[j],
            ) < 0 by {
                if i == 0 {
                    if j > 1 {
                        lemma_cmp_form_trans(x, s[0], s[j - 1]);
                    }
                } else {
                    assert(r[i] == s[i - 1] && r[j] == s[j - 1]);
                }
            }
            assert(!s.contains(x)) by {
                if s.contains(x) {
                    let i = choose|i: int| 0 <= i < s.len() && s[i] == x;
                    if i > 0 {
                        assert(cmp_form(s[0], s[i]) < 0);
                        lemma_cmp_form_antisym(s[0], s[i]);
                    }
                }
            }
            assert forall|y: Form| #[trigger] r.contains(y) implies s.contains(y) || y == x by {
                let i = choose|i: int| 0 <= i < r.len() && r[i] == y;
                if i > 0 {
                    assert(r[i] == s[i - 1]);
                }
            }
            assert(r[0] == x);
            assert(r.contains(x));
            assert(forall|y: Form| s.contains(y) ==> #[trigger] r.contains(y)) by {
                assert(forall|i: int| 0 <= i < s.len() ==> r[i + 1] == s[i]);
            }
        } else if c == 0 {
            assert(x == s[0]);
            assert(s.contains(x));
        } else {
            let rest = sorted_insert(s.drop_first(), x);
            let r = seq![s[0]] + rest;
            assert(strictly_sorted(s.drop_first())) by {
                assert(forall|i: int|
                    0 <= i < s.drop_first().len() ==> s.drop_first()[i] == s[i + 1]);
            }
            lemma_sorted_insert(s.drop_first(), x);
            // every element of `rest` is above `s[0]`
            assert forall|i: int| 0 <= i < rest.len() implies cmp_form(s[0], rest[i]) < 0 by {
                assert(rest.contains(rest[i]));
                if rest[i] == x {
                    lemma_cmp_form_antisym(x, s[0]);
                } else {
                    assert(s.drop_first().contains(rest[i]));
                    let k = choose|k: int|
                        0 <= k < s.drop_first().len() && s.drop_first()[k] == rest[i];
                    assert(s[k + 1] == rest[i]);
                    assert(cmp_form(s[0], s[k + 1]) < 0);
                }
            }
            assert forall|i: int, j: int| 0 <= i < j < r.len() implies cmp_form(
                r[i],
                r[j],
            ) < 0 by {
                if i > 0 {
                    assert(r[i] == rest[i - 1] && r[j] == rest[j - 1]);
                } else {
                    assert(r[j] == rest[j - 1]);
                }
            }
            assert forall|y: Form| #[trigger] r.contains(y) implies s.contains(y) || y == x by {
                let i = choose|i: int| 0 <= i < r.len() && r[i] == y;
                if i == 0 {
                    assert(s.contains(s[0]));
                } else {
                    assert(rest.contains(r[i]));
                    if y != x {
                        assert(s.drop_first().contains(y));
                        let k = choose|k: int|
                            0 <= k < s.drop_first().len() && s.drop_first()[k] == y;
                        assert(s[k + 1] == y);
                    }
                }
            }
            assert forall|y: Form| s.contains(y) || y == x implies #[trigger] r.contains(y) by {
                if y == x {
                    assert(rest.contains(x));
                    let k = choose|k: int| 0 <= k < rest.len() && rest[k] == x;
                    assert(r[k + 1] == x);
                } else {
                    let i = choose|i: int| 0 <= i < s.len() && s[i] == y;
                    if i == 0 {
                        assert(r[0] == y);
                    } else {
                        assert(s.drop_first()[i - 1] == y);
                        assert(s.drop_first().contains(y));
                        assert(rest.contains(y));
                        let k = choose|k: int| 0 <= k < rest.len() && rest[k] == y;
                        assert(r[k + 1] == y);
                    }
                }
            }
            if s.contains(x) {
                assert(s.drop_first().contains(x)) by {
                    let i = choose|i: int| 0 <= i < s.len() && s[i] == x;
                    assert(i != 0);
                    assert(s.drop_first()[i - 1] == x);
                }
                assert(r =~= s) by {
                    assert(rest == s.drop_first());
                    assert(forall|i: int| 1 <= i < s.len() ==> r[i] == s.drop_first()[i - 1]);
                }
            }
            if !s.contains(x) {
                assert(!s.drop_first().contains(x)) by {
                    if s.drop_first().contains(x) {
                        let k = choose|k: int|
                            0 <= k < s.drop_first().len() && s.drop_first()[k] == x;
                        assert(s[k + 1] == x);
                    }
                }
            }
        }
    }
}

/// Inserting an element that is above everything in the set appends it.
pub proof fn lemma_sorted_insert_at_end(s: Seq<Form>, x: Form)
    requires
        forall|i: int| 0 <= i < s.len() ==> cmp_form(#[trigger] s[i], x) < 0,
    ensures
        sorted_insert(s, x) == s.push(x),
    decreases s.len(),
{
    if s.len() == 0 {
        assert(sorted_insert(s, x) =~= s.push(x));
    } else {
        assert(s.contains(s[0]));
        lemma_cmp_form_antisym(s[0], x);
        assert(forall|i: int| 0 <= i < s.drop_first().len() ==> s.drop_first()[i] == s[i + 1]);
        lemma_sorted_insert_at_end(s.drop_first(), x);
        assert(sorted_insert(s, x) =~= s.push(x));
    }
}

/// Two ordered sets of forms with the same elements are the same sequence.
pub proof fn lemma_sorted_same_set(s1: Seq<Form>, s2: Seq<Form>)
    requires
        strictly_sorted(s1),
        strictly_sorted(s2),
        forall|y: Form| s1.contains(y) <==> s2.contains(y),
    ensures
        s1 == s2,
    decreases s1.len(),
{
    if s1.len() == 0 {
        if s2.len() > 0 {
            assert(s2.contains(s2[0]));
        }
        assert(s1 =~= s2);
    } else {
        assert(s1.contains(s1[0]));
        assert(s2.contains(s1[0]));
        // the heads agree: each is the least element
        assert(s2[0] == s1[0]) by {
            let j = choose|j: int| 0 <= j < s2.len() && s2[j] == s1[0];
            if j > 0 {
                assert(cmp_form(s2[0], s2[j]) < 0);
                assert(s1.contains(s2[0]));
                let i = choose|i: int| 0 <= i < s1.len() && s1[i] == s2[0];
                if i == 0 {
                    lemma_cmp_form_antisym(s1[0], s2[0]);
                } else {
                    assert(cmp_form(s1[0], s1[i]) < 0);
                    lemma_cmp_form_trans(s2[0], s2[j], s1[i]);
                    lemma_cmp_form_eq(s2[0], s2[0]);
                    lemma_cmp_form_antisym(s2[0], s1[i]);
                }
            }
        }
        let t1 = s1.drop_first();
        let t2 = s2.drop_first();
        assert(strictly_sorted(t1) && strictly_sorted(t2)) by {
            assert(forall|i: int| 0 <= i < t1.len() ==> t1[i] == s1[i + 1]);
            assert(forall|i: int| 0 <= i < t2.len() ==> t2[i] == s2[i + 1]);
        }
        assert forall|y: Form| t1.contains(y) <==> t2.contains(y) by {
            lemma_tail_membership(s1, y);
            lemma_tail_membership(s2, y);
        }
        lemma_sorted_same_set(t1, t2);
        assert(s1 =~= s2) by {
            assert(forall|i: int| 1 <= i < s1.len() ==> s1[i] == t1[i - 1] && s2[i] == t2[i - 1]);
        }
    }
}

/// Sorting a sequence of forms into an ordered set: inserts left to right,
/// dropping duplicates.
pub open spec fn sort_dedup(s: Seq<Form>) -> Seq<Form>
    decreases s.len(),
{
    if s.len() == 0 {
        Seq::empty()
    } else {
        sorted_insert(sort_dedup(s.drop_last()), s.last())
    }
}

/// The sorted image of a sequence is an ordered set with the same elements.
pub proof fn lemma_sort_dedup(s: Seq<Form>)
    ensures
        strictly_sorted(sort_dedup(s)),
        forall|y: Form| #[trigger] sort_dedup(s).contains(y) <==> s.contains(y),
    decreases s.len(),
{
    if s.len() == 0 {
        assert forall|y: Form| #[trigger] s.contains(y) implies sort_dedup(s).contains(y) by {
            let i = choose|i: int| 0 <= i < s.len() && s[i] == y;
        }
    } else {
        lemma_sort_dedup(s.drop_last());
        lemma_sorted_insert(sort_dedup(s.drop_last()), s.last());
        assert forall|y: Form| #[trigger] s.contains(y) implies sort_dedup(s).contains(y) by {
            let i = choose|i: int| 0 <= i < s.len() && s[i] == y;
            if i < s.len() - 1 {
                assert(s.drop_last()[i] == y);
                assert(s.drop_last().contains(y));
            }
        }
        assert forall|y: Form| #[trigger] sort_dedup(s).contains(y) implies s.contains(y) by {
            if y != s.last() {
                assert(s.drop_last().contains(y));
                let i = choose|i: int| 0 <= i < s.drop_last().len() && s.drop_last()[i] == y;
                assert(s[i] == y);
            }
        }
    }
}

/// The rank of the kind of an expression, matching `rank` on its form.
fn rank_of(e: &Expr) -> (r: u8)
    ensures
        r as int == rank(e@),
{
    match e {
        Expr::And(_) => 0,
        Expr::Or(_) => 1,
        Expr::Not(_) => 2,
        Expr::Atom(_) => 3,
        Expr::NotAtom(_) => 4,
    }
}

/// Three-way comparison of the names of two atoms, matching `cmp_chars`.
fn cmp_names(a: &str, b: &str) -> (r: i8)
    ensures
        r as int == cmp_chars(a@, b@),
{
    let alen = a.unicode_len();
    let blen = b.unicode_len();
    proof {
        assert(a@.skip(0) =~= a@);
        assert(b@.skip(0) =~= b@);
    }
    let mut i: usize = 0;
    loop
        invariant
            i <= alen && i <= blen,
            alen == a@.len() && blen == b@.len(),
            cmp_chars(a@, b@) == cmp_chars(a@.skip(i as int), b@.skip(i as int)),
        decreases alen - i,
    {
        proof {
            assert(a@.skip(i as int).len() == alen - i);
            assert(b@.skip(i as int).len() == blen - i);
        }
        if i >= alen && i >= blen {
            return 0;
        }
        if i >= alen {
            return -1;
        }
        if i >= blen {
            return 1;
        }
        let ca = a.get_char(i);
        let cb = b.get_char(i);
        proof {
            assert(a@.skip(i as int)[0] == a@[i as int]);
            assert(b@.skip(i as int)[0] == b@[i as int]);
        }
        if (ca as u32) < (cb as u32) {
            return -1;
        }
        if (ca as u32) > (cb as u32) {
            return 1;
        }
        proof {
            assert(a@.skip(i as int).drop_first() =~= a@.skip(i + 1));
            assert(b@.skip(i as int).drop_first() =~= b@.skip(i + 1));
        }
        i = i + 1;
    }
}

/// Three-way comparison of expressions in the total order on their forms.
pub fn cmp_expr(a: &Expr, b: &Expr) -> (r: i8)
    ensures
        r as int == cmp_form(a@, b@),
    decreases a,
{
    let ra = rank_of(a);
    let rb = rank_of(b);
    if ra < rb {
        return -1;
    }
    if ra > rb {
        return 1;
    }
    match (a, b) {
        (Expr::And(x), Expr::And(y)) => cmp_children(x, y),
        (Expr::Or(x), Expr::Or(y)) => cmp_children(x, y),
        (Expr::Not(x), Expr::Not(y)) => cmp_expr(x, y),
        (Expr::Atom(x), Expr::Atom(y)) => cmp_names(x.as_str(), y.as_str()),
        (Expr::NotAtom(x), Expr::NotAtom(y)) => cmp_names(x.as_str(), y.as_str()),
        _ => 0,
    }
}

/// Three-way comparison of operand vectors, matching `cmp_forms`.
pub fn cmp_children(x: &Vec<Expr>, y: &Vec<Expr>) -> (r: i8)
    ensures
        r as int == cmp_forms(forms_of(x@), forms_of(y@)),
    decreases x,
{
    proof {
        broadcast use lemma_forms_of;

        assert(forms_of(x@).skip(0) =~= forms_of(x@));
        assert(forms_of(y@).skip(0) =~= forms_of(y@));
    }
    let mut i: usize = 0;
    loop
        invariant
            i <= x.len() && i <= y.len(),
            cmp_forms(forms_of(x@), forms_of(y@)) == cmp_forms(
                forms_of(x@).skip(i as int),
                forms_of(y@).skip(i as int),
            ),
        decreases x.len() - i,
    {
        proof {
            broadcast use lemma_forms_of;

            assert(forms_of(x@).skip(i as int).len() == x@.len() - i);
            assert(forms_of(y@).skip(i as int).len() == y@.len() - i);
        }
        if i >= x.len() && i >= y.len() {
            return 0;
        }
        if i >= x.len() {
            return -1;
        }
        if i >= y.len() {
            return 1;
        }
        let c = cmp_expr(&x[i], &y[i]);
        proof {
            broadcast use lemma_forms_of;

            assert(forms_of(x@).skip(i as int)[0] == forms_of(x@)[i as int]);
            assert(forms_of(y@).skip(i as int)[0] == forms_of(y@)[i as int]);
        }
        if c != 0 {
            return c;
        }
        proof {
            assert(forms_of(x@).skip(i as int).drop_first() =~= forms_of(x@).skip(i + 1));
            assert(forms_of(y@).skip(i as int).drop_first() =~= forms_of(y@).skip(i + 1));
        }
        i = i + 1;
    }
}

/// Splitting an insertion after a prefix of smaller elements.
proof fn lemma_sorted_insert_split(s: Seq<Form>, x: Form, i: int)
    requires
        0 <= i <= s.len(),
        forall|j: int| 0 <= j < i ==> cmp_form(#[trigger] s[j], x) < 0,
    ensures
        sorted_insert(s, x) == s.take(i) + sorted_insert(s.skip(i), x),
    decreases i,
{
    if i == 0 {
        assert(s.take(0) + sorted_insert(s.skip(0), x) =~= sorted_insert(s, x)) by {
            assert(s.skip(0) =~= s);
        }
    } else {
        lemma_cmp_form_antisym(s[0], x);
        assert(s.drop_first().skip(i - 1) =~= s.skip(i));
        assert(forall|j: int| 0 <= j < i - 1 ==> s.drop_first()[j] == s[j + 1]);
        lemma_sorted_insert_split(s.drop_first(), x, i - 1);
        assert(sorted_insert(s, x) == seq![s[0]] + sorted_insert(s.drop_first(), x));
        assert(seq![s[0]] + (s.drop_first().take(i - 1) + sorted_insert(s.skip(i), x)) =~= s.take(i)
            + sorted_insert(s.skip(i), x));
    }
}

/// Inserts an expression into an ordered set of expressions, keeping order
/// and uniqueness.
pub fn insert_expr(v: &mut Vec<Expr>, x: Expr)
    ensures
        forms_of(final(v)@) == sorted_insert(forms_of(old(v)@), x@),
{
    proof {
        broadcast use lemma_forms_of;

    }
    let ghost s = forms_of(v@);
    let mut i: usize = 0;
    while i < v.len()
        invariant
            i <= v.len(),
            s == forms_of(v@),
            s == forms_of(old(v)@),
            s.len() == v.len(),
            forall|j: int| 0 <= j < i ==> cmp_form(#[trigger] s[j], x@) < 0,
        decreases v.len() - i,
    {
        proof {
            broadcast use lemma_forms_of;

        }
        let c = cmp_expr(&x, &v[i]);
        if c == 0 {
            proof {
                broadcast use lemma_forms_of;

                lemma_cmp_form_eq(x@, s[i as int]);
                lemma_sorted_insert_split(s, x@, i as int);
                assert(s.skip(i as int)[0] == s[i as int]);
                assert(sorted_insert(s.skip(i as int), x@) == s.skip(i as int));
                assert(s.take(i as int) + s.skip(i as int) =~= s);
            }
            return;
        }
        if c < 0 {
            proof {
                broadcast use lemma_forms_of;

                lemma_sorted_insert_split(s, x@, i as int);
                assert(s.skip(i as int)[0] == s[i as int]);
                assert(sorted_insert(s.skip(i as int), x@) == seq![x@] + s.skip(i as int));
            }
            v.insert(i, x);
            proof {
                assert(forms_of(v@) =~= s.take(i as int) + (seq![x@] + s.skip(i as int))) by {
                    broadcast use lemma_forms_of;

                };
            }
            return;
        }
        proof {
            lemma_cmp_form_antisym(x@, s[i as int]);
        }
        i = i + 1;
    }
    proof {
        broadcast use lemma_forms_of;

        lemma_sorted_insert_split(s, x@, v.len() as int);
        assert(sorted_insert(s.skip(v.len() as int), x@) =~= seq![x@]);
    }
    v.push(x);
    proof {
        assert(forms_of(v@) =~= s.take(s.len() as int) + seq![x@]) by {
            broadcast use lemma_forms_of;

        };
        assert(s.take(s.len() as int) =~= s);
    }
}

/// Whether an ordered set of expressions holds an expression with this form.
pub fn contains_expr(v: &Vec<Expr>, x: &Expr) -> (r: bool)
    ensures
        r == forms_of(v@).contains(x@),
{
    proof {
        broadcast use lemma_forms_of;

    }
    let mut i: usize = 0;
    while i < v.len()
        invariant
            i <= v.len(),
            forall|j: int| 0 <= j < i ==> forms_of(v@)[j] != x@,
        decreases v.len() - i,
    {
        proof {
            broadcast use lemma_forms_of;

        }
        let c = cmp_expr(x, &v[i]);
        if c == 0 {
            proof {
                lemma_cmp_form_eq(x@, forms_of(v@)[i as int]);
                assert(forms_of(v@).contains(x@));
            }
            return true;
        }
        proof {
            lemma_cmp_form_eq(x@, x@);
            assert(forms_of(v@)[i as int] != x@);
        }
        i = i + 1;
    }
    proof {
        if forms_of(v@).contains(x@) {
            let j = choose|j: int| 0 <= j < forms_of(v@).len() && forms_of(v@)[j] == x@;
        }
    }
    false
}

/// Whether two vectors of expressions denote the same sequence of forms.
pub fn same_exprs(a: &Vec<Expr>, b: &Vec<Expr>) -> (r: bool)
    ensures
        r == (forms_of(a@) == forms_of(b@)),
{
    proof {
        broadcast use lemma_forms_of;

    }
    if a.len() != b.len() {
        proof {
            assert(forms_of(a@).len() != forms_of(b@).len());
        }
        return false;
    }
    let mut i: usize = 0;
    while i < a.len()
        invariant
            i <= a.len(),
            a.len() == b.len(),
            forall|j: int| 0 <= j < i ==> forms_of(a@)[j] == forms_of(b@)[j],
        decreases a.len() - i,
    {
        proof {
            broadcast use lemma_forms_of;

        }
        let c = cmp_expr(&a[i], &b[i]);
        if c != 0 {
            proof {
                broadcast use lemma_forms_of;

                lemma_cmp_form_eq(a@[i as int]@, a@[i as int]@);
                assert(forms_of(a@)[i as int] == a@[i as int]@);
                assert(forms_of(a@) != forms_of(b@));
            }
            return false;
        }
        proof {
            lemma_cmp_form_eq(a@[i as int]@, b@[i as int]@);
        }
        i = i + 1;
    }
    proof {
        assert(forms_of(a@) =~= forms_of(b@));
    }
    true
}

/// In an ordered set, the tail holds exactly the elements other than the head.
proof fn lemma_tail_membership(s: Seq<Form>, y: Form)
    requires
        strictly_sorted(s),
        s.len() > 0,
    ensures
        s.drop_first().contains(y) <==> s.contains(y) && y != s[0],
{
    let t = s.drop_first();
    assert(forall|i: int| 0 <= i < t.len() ==> t[i] == s[i + 1]);
    if t.contains(y) {
        let i = choose|i: int| 0 <= i < t.len() && t[i] == y;
        assert(s[i + 1] == y);
        assert(cmp_form(s[0], s[i + 1]) < 0);
        lemma_cmp_form_eq(s[0], s[0]);
    }
    if s.contains(y) && y != s[0] {
        let i = choose|i: int| 0 <= i < s.len() && s[i] == y;
        assert(i != 0);
        assert(t[i - 1] == y);
    }
}

} // verus!
