//! The laws of normalisation: `normal` is idempotent, `inverse` is an
//! involution up to normalisation, and De Morgan duality holds on normal
//! forms.

use vstd::prelude::*;

use crate::expression::{
    Form, collapse, flat_insert, fsize, fsum, insert_all, invert, invert_seq, lemma_fsize_invert,
    lemma_fsum_member, norm, norm_seq,
};
use crate::order::{
    cmp_form, lemma_cmp_form_antisym, lemma_sorted_insert, lemma_sorted_insert_at_end,
    lemma_sorted_same_set, sorted_insert, strictly_sorted,
};

verus! {

broadcast use vstd::seq::group_seq_axioms;

/// The rank a connective of this kind has under the total order on forms.
pub open spec fn kind_rank(and_kind: bool) -> int {
    if and_kind {
        0
    } else {
        1
    }
}

/// The operands a normalised form contributes to a connective of the given
/// kind: a same-kind connective is spliced, anything else stands alone.
pub open spec fn flat_parts(and_kind: bool, y: Form) -> Seq<Form> {
    if and_kind && y is And {
        y->And_0
    } else if !and_kind && y is Or {
        y->Or_0
    } else {
        seq![y]
    }
}

/// A form is normal when no negation survives and every connective holds an
/// ordered set of at least two normal operands, none of its own kind.
pub open spec fn is_normal(f: Form) -> bool
    decreases f,
{
    match f {
        Form::And(xs) => xs.len() != 1 && strictly_sorted(xs) && operands_normal(true, xs),
        Form::Or(xs) => xs.len() != 1 && strictly_sorted(xs) && operands_normal(false, xs),
        Form::Not(_) => false,
        Form::Atom(_) => true,
        Form::NotAtom(_) => true,
    }
}

/// Every operand is normal and none is a connective of the parent's kind.
pub open spec fn operands_normal(and_kind: bool, xs: Seq<Form>) -> bool
    decreases xs,
{
    if xs.len() == 0 {
        true
    } else {
        operands_normal(and_kind, xs.drop_last()) && is_normal(xs.last()) && crate::order::rank(
            xs.last(),
        ) != kind_rank(and_kind)
    }
}

/// `operands_normal` holds exactly when it holds of each element.
pub broadcast proof fn lemma_operands_normal(and_kind: bool, xs: Seq<Form>)
    ensures
        #[trigger] operands_normal(and_kind, xs) <==> (forall|i: int|
            0 <= i < xs.len() ==> is_normal(#[trigger] xs[i]) && crate::order::rank(xs[i])
                != kind_rank(and_kind)),
    decreases xs.len(),
{
    if xs.len() > 0 {
        lemma_operands_normal(and_kind, xs.drop_last());
        assert(forall|i: int| 0 <= i < xs.len() - 1 ==> xs[i] == xs.drop_last()[i]);
        assert(xs.last() == xs[xs.len() - 1]);
    }
}

/// What inserting a batch does to an ordered set: order is kept and the
/// elements are the union.
pub proof fn lemma_insert_all(acc: Seq<Form>, zs: Seq<Form>)
    requires
        strictly_sorted(acc),
    ensures
        strictly_sorted(insert_all(acc, zs)),
        forall|y: Form|
            #[trigger] insert_all(acc, zs).contains(y) <==> acc.contains(y) || zs.contains(y),
    decreases zs.len(),
{
    if zs.len() == 0 {
        assert forall|y: Form| zs.contains(y) implies false by {
            let i = choose|i: int| 0 <= i < zs.len() && zs[i] == y;
        }
    } else {
        lemma_insert_all(acc, zs.drop_last());
        lemma_sorted_insert(insert_all(acc, zs.drop_last()), zs.last());
        assert forall|y: Form| #[trigger] zs.contains(y) implies zs.drop_last().contains(y) || y
            == zs.last() by {
            let i = choose|i: int| 0 <= i < zs.len() && zs[i] == y;
            if i < zs.len() - 1 {
                assert(zs.drop_last()[i] == y);
            }
        }
        assert(forall|y: Form|
            zs.drop_last().contains(y) ==> #[trigger] zs.contains(y)) by {
            assert(forall|i: int| 0 <= i < zs.len() - 1 ==> zs[i] == zs.drop_last()[i]);
        }
        assert(zs.contains(zs.last()));
    }
}

/// A single form inserted as a batch is an ordinary insertion.
pub proof fn lemma_flat_insert_parts(and_kind: bool, acc: Seq<Form>, y: Form)
    ensures
        flat_insert(and_kind, acc, y) == insert_all(acc, flat_parts(and_kind, y)),
{
    if (and_kind && y is And) || (!and_kind && y is Or) {
    } else {
        assert(seq![y].drop_last() =~= Seq::<Form>::empty());
        assert(seq![y].last() == y);
        assert(insert_all(acc, Seq::<Form>::empty()) == acc);
        assert(insert_all(acc, seq![y]) == sorted_insert(acc, y));
    }
}

/// The normalised operand set of a connective: ordered, made of normal
/// non-same-kind operands, and holding exactly the flattened parts of the
/// normalised operands.
pub proof fn lemma_norm_seq_ok(and_kind: bool, xs: Seq<Form>)
    ensures
        strictly_sorted(norm_seq(and_kind, xs)),
        operands_normal(and_kind, norm_seq(and_kind, xs)),
        forall|y: Form|
            #[trigger] norm_seq(and_kind, xs).contains(y) <==> exists|i: int|
                0 <= i < xs.len() && flat_parts(and_kind, norm(#[trigger] xs[i])).contains(y),
    decreases fsum(xs), 1int,
{
    broadcast use lemma_operands_normal;

    if xs.len() == 0 {
        assert forall|y: Form| #[trigger] norm_seq(and_kind, xs).contains(y) implies false by {
            let i = choose|i: int|
                0 <= i < norm_seq(and_kind, xs).len() && norm_seq(and_kind, xs)[i] == y;
        }
    } else {
        let rest = xs.drop_last();
        let acc = norm_seq(and_kind, rest);
        let last = xs.last();
        let n = norm(last);
        let parts = flat_parts(and_kind, n);
        assert(fsum(xs) == fsum(rest) + fsize(last));
        crate::expression::lemma_fsize_pos(last);
        lemma_norm_seq_ok(and_kind, rest);
        lemma_norm_is_normal(last);
        lemma_flat_insert_parts(and_kind, acc, n);
        lemma_insert_all(acc, parts);
        // each part is normal and not of the parent's kind
        assert forall|j: int| 0 <= j < parts.len() implies is_normal(#[trigger] parts[j])
            && crate::order::rank(parts[j]) != kind_rank(and_kind) by {
            if and_kind && n is And {
                let zs = n->And_0;
                assert(operands_normal(true, zs));
                assert(parts[j] == zs[j]);
                assert(is_normal(zs[j]) && crate::order::rank(zs[j]) != 0);
            } else if !and_kind && n is Or {
                let zs = n->Or_0;
                assert(operands_normal(false, zs));
                assert(parts[j] == zs[j]);
                assert(is_normal(zs[j]) && crate::order::rank(zs[j]) != 1);
            } else {
                assert(parts[j] == n);
            }
        }
        let ns = norm_seq(and_kind, xs);
        assert forall|y: Form| #[trigger] ns.contains(y) implies exists|i: int|
            0 <= i < xs.len() && flat_parts(and_kind, norm(xs[i])).contains(y) by {
            if acc.contains(y) {
                let i = choose|i: int|
                    0 <= i < rest.len() && flat_parts(and_kind, norm(rest[i])).contains(y);
                assert(xs[i] == rest[i]);
                assert(flat_parts(and_kind, norm(xs[i])).contains(y));
            } else {
                assert(parts.contains(y));
                assert(xs[xs.len() - 1] == last);
                assert(flat_parts(and_kind, norm(xs[xs.len() - 1])).contains(y));
            }
        }
        assert forall|y: Form|
            (exists|i: int|
                0 <= i < xs.len() && flat_parts(and_kind, norm(#[trigger] xs[i])).contains(
                    y,
                )) implies ns.contains(y) by {
            let i = choose|i: int|
                0 <= i < xs.len() && flat_parts(and_kind, norm(xs[i])).contains(y);
            if i < xs.len() - 1 {
                assert(rest[i] == xs[i]);
                assert(flat_parts(and_kind, norm(rest[i])).contains(y));
                assert(acc.contains(y));
            } else {
                assert(parts.contains(y));
            }
        }
        // the elements of `ns` are the union, each normal and non-same-kind
        assert forall|i: int| 0 <= i < ns.len() implies is_normal(#[trigger] ns[i])
            && crate::order::rank(ns[i]) != kind_rank(and_kind) by {
            assert(ns.contains(ns[i]));
        }
    }
}

/// The normal form of any form is normal.
pub proof fn lemma_norm_is_normal(f: Form)
    ensures
        is_normal(norm(f)),
    decreases fsize(f), 0int,
{
    broadcast use lemma_operands_normal;

    match f {
        Form::And(xs) => {
            lemma_norm_seq_ok(true, xs);
            let ns = norm_seq(true, xs);
            if ns.len() == 1 {
                assert(ns.contains(ns[0]));
            }
        },
        Form::Or(xs) => {
            lemma_norm_seq_ok(false, xs);
            let ns = norm_seq(false, xs);
            if ns.len() == 1 {
                assert(ns.contains(ns[0]));
            }
        },
        Form::Not(g) => {
            lemma_fsize_invert(*g);
            lemma_norm_is_normal(invert(*g));
        },
        _ => {},
    }
}

/// Normalising a normal form gives it back.
pub proof fn lemma_norm_of_normal(f: Form)
    requires
        is_normal(f),
    ensures
        norm(f) == f,
    decreases fsize(f), 0int,
{
    broadcast use lemma_operands_normal;

    match f {
        Form::And(xs) => {
            lemma_norm_seq_of_normal(true, xs);
            assert(norm(f) == collapse(true, xs));
        },
        Form::Or(xs) => {
            lemma_norm_seq_of_normal(false, xs);
            assert(norm(f) == collapse(false, xs));
        },
        _ => {},
    }
}

/// Normalising an ordered set of normal non-same-kind operands gives it back.
proof fn lemma_norm_seq_of_normal(and_kind: bool, xs: Seq<Form>)
    requires
        strictly_sorted(xs),
        operands_normal(and_kind, xs),
    ensures
        norm_seq(and_kind, xs) == xs,
    decreases fsum(xs), 1int,
{
    broadcast use lemma_operands_normal;

    if xs.len() > 0 {
        let rest = xs.drop_last();
        let last = xs.last();
        assert(fsum(xs) == fsum(rest) + fsize(last));
        crate::expression::lemma_fsize_pos(last);
        assert(forall|i: int| 0 <= i < rest.len() ==> rest[i] == xs[i]);
        assert(last == xs[xs.len() - 1]);
        lemma_norm_seq_of_normal(and_kind, rest);
        lemma_norm_of_normal(last);
        // the last operand is not of the parent's kind, so it is not spliced
        assert(norm_seq(and_kind, xs) == sorted_insert(rest, last));
        assert forall|i: int| 0 <= i < rest.len() implies cmp_form(#[trigger] rest[i], last)
            < 0 by {
            assert(cmp_form(xs[i], xs[xs.len() - 1]) < 0);
        }
        lemma_sorted_insert_at_end(rest, last);
        assert(rest.push(last) =~= xs);
    }
}

/// Normalisation is idempotent: `normal` of a normal form changes nothing.
pub proof fn lemma_normal_idempotent(f: Form)
    ensures
        norm(norm(f)) == norm(f),
{
    lemma_norm_is_normal(f);
    lemma_norm_of_normal(norm(f));
}

/// Connectives whose operands have the same normal flattened parts normalise
/// to the same operand set.
proof fn lemma_norm_seq_same_norms(and_kind: bool, xs: Seq<Form>, ys: Seq<Form>)
    requires
        forall|i: int|
            0 <= i < xs.len() ==> exists|j: int|
                0 <= j < ys.len() && norm(#[trigger] xs[i]) == norm(#[trigger] ys[j]),
        forall|j: int|
            0 <= j < ys.len() ==> exists|i: int|
                0 <= i < xs.len() && norm(#[trigger] ys[j]) == norm(#[trigger] xs[i]),
    ensures
        norm_seq(and_kind, xs) == norm_seq(and_kind, ys),
{
    lemma_norm_seq_ok(and_kind, xs);
    lemma_norm_seq_ok(and_kind, ys);
    assert forall|y: Form|
        norm_seq(and_kind, xs).contains(y) <==> norm_seq(and_kind, ys).contains(y) by {
        if norm_seq(and_kind, xs).contains(y) {
            let i = choose|i: int|
                0 <= i < xs.len() && flat_parts(and_kind, norm(xs[i])).contains(y);
            let j = choose|j: int| 0 <= j < ys.len() && norm(xs[i]) == norm(ys[j]);
            assert(flat_parts(and_kind, norm(ys[j])).contains(y));
        }
        if norm_seq(and_kind, ys).contains(y) {
            let j = choose|j: int|
                0 <= j < ys.len() && flat_parts(and_kind, norm(ys[j])).contains(y);
            let i = choose|i: int| 0 <= i < xs.len() && norm(ys[j]) == norm(xs[i]);
            assert(flat_parts(and_kind, norm(xs[i])).contains(y));
        }
    }
    lemma_sorted_same_set(norm_seq(and_kind, xs), norm_seq(and_kind, ys));
}

/// The elements of the inverted operand set are exactly the inverses of the
/// operands.
pub proof fn lemma_invert_seq_set(xs: Seq<Form>)
    ensures
        forall|y: Form|
            #[trigger] invert_seq(xs).contains(y) <==> exists|i: int|
                0 <= i < xs.len() && invert(#[trigger] xs[i]) == y,
    decreases xs.len(),
{
    if xs.len() == 0 {
        assert forall|y: Form| #[trigger] invert_seq(xs).contains(y) implies false by {
            let i = choose|i: int| 0 <= i < invert_seq(xs).len() && invert_seq(xs)[i] == y;
        }
    } else {
        let rest = xs.drop_last();
        lemma_invert_seq_set(rest);
        lemma_invert_seq_sorted(rest);
        lemma_sorted_insert(invert_seq(rest), invert(xs.last()));
        assert(forall|i: int| 0 <= i < rest.len() ==> rest[i] == xs[i]);
        assert(xs.last() == xs[xs.len() - 1]);
        assert forall|y: Form| #[trigger] invert_seq(xs).contains(y) implies exists|i: int|
            0 <= i < xs.len() && invert(xs[i]) == y by {
            if y != invert(xs.last()) {
                let i = choose|i: int| 0 <= i < rest.len() && invert(rest[i]) == y;
                assert(invert(xs[i]) == y);
            } else {
                assert(invert(xs[xs.len() - 1]) == y);
            }
        }
        assert forall|i: int| 0 <= i < xs.len() implies invert_seq(xs).contains(
            invert(#[trigger] xs[i]),
        ) by {
            if i < xs.len() - 1 {
                assert(invert(rest[i]) == invert(xs[i]));
                assert(invert_seq(rest).contains(invert(xs[i])));
            }
        }
    }
}

/// The inverted operand set is ordered.
pub proof fn lemma_invert_seq_sorted(xs: Seq<Form>)
    ensures
        strictly_sorted(invert_seq(xs)),
    decreases xs.len(),
{
    if xs.len() > 0 {
        lemma_invert_seq_sorted(xs.drop_last());
        lemma_sorted_insert(invert_seq(xs.drop_last()), invert(xs.last()));
    }
}

/// Inverting twice preserves the normal form.
pub proof fn lemma_inverse_involution(f: Form)
    ensures
        norm(invert(invert(f))) == norm(f),
    decreases fsize(f),
{
    match f {
        Form::Atom(_) => {},
        Form::NotAtom(_) => {},
        Form::Not(g) => {
            // both sides normalise the dropped negation
            assert(invert(invert(Form::Not(g))) == invert(*g));
            assert(norm(Form::Not(g)) == norm(invert(*g)));
        },
        Form::And(xs) => {
            let ys = invert_seq(invert_seq(xs));
            assert(invert(invert(f)) == Form::And(ys));
            assert forall|i: int| 0 <= i < xs.len() implies fsize(#[trigger] xs[i]) <= fsum(xs)
                && norm(invert(invert(xs[i]))) == norm(xs[i]) by {
                lemma_fsum_member(xs, i);
                lemma_inverse_involution(xs[i]);
            }
            lemma_involution_operands(xs, ys);
            lemma_norm_seq_same_norms(true, ys, xs);
        },
        Form::Or(xs) => {
            let ys = invert_seq(invert_seq(xs));
            assert(invert(invert(f)) == Form::Or(ys));
            assert forall|i: int| 0 <= i < xs.len() implies fsize(#[trigger] xs[i]) <= fsum(xs)
                && norm(invert(invert(xs[i]))) == norm(xs[i]) by {
                lemma_fsum_member(xs, i);
                lemma_inverse_involution(xs[i]);
            }
            lemma_involution_operands(xs, ys);
            lemma_norm_seq_same_norms(false, ys, xs);
        },
    }
}

/// The operands of a twice-inverted connective normalise to the same forms as
/// the original operands.
proof fn lemma_involution_operands(xs: Seq<Form>, ys: Seq<Form>)
    requires
        ys == invert_seq(invert_seq(xs)),
        forall|i: int| 0 <= i < xs.len() ==> fsize(#[trigger] xs[i]) <= fsum(xs),
        forall|i: int|
            0 <= i < xs.len() ==> norm(invert(invert(#[trigger] xs[i]))) == norm(xs[i]),
    ensures
        forall|j: int|
            0 <= j < ys.len() ==> exists|i: int|
                0 <= i < xs.len() && norm(#[trigger] ys[j]) == norm(#[trigger] xs[i]),
        forall|i: int|
            0 <= i < xs.len() ==> exists|j: int|
                0 <= j < ys.len() && norm(#[trigger] xs[i]) == norm(#[trigger] ys[j]),
{
    let zs = invert_seq(xs);
    lemma_invert_seq_set(xs);
    lemma_invert_seq_set(zs);
    assert forall|j: int| 0 <= j < ys.len() implies exists|i: int|
        0 <= i < xs.len() && norm(#[trigger] ys[j]) == norm(xs[i]) by {
        assert(ys.contains(ys[j]));
        let k = choose|k: int| 0 <= k < zs.len() && invert(zs[k]) == ys[j];
        assert(zs.contains(zs[k]));
        let i = choose|i: int| 0 <= i < xs.len() && invert(xs[i]) == zs[k];
        assert(ys[j] == invert(invert(xs[i])));
    }
    assert forall|i: int| 0 <= i < xs.len() implies exists|j: int|
        0 <= j < ys.len() && norm(#[trigger] xs[i]) == norm(ys[j]) by {
        assert(zs.contains(invert(xs[i])));
        assert(ys.contains(invert(invert(xs[i]))));
        let j = choose|j: int| 0 <= j < ys.len() && ys[j] == invert(invert(xs[i]));
    }
}

/// De Morgan on normal forms: the normalised inverse of a conjunction is the
/// normalised disjunction of the operand inverses.
pub proof fn lemma_de_morgan_and(xs: Seq<Form>)
    ensures
        norm(invert(Form::And(xs))) == norm(Form::Or(xs.map_values(|x: Form| invert(x)))),
{
    lemma_de_morgan_seq(false, xs);
}

/// De Morgan on normal forms: the normalised inverse of a disjunction is the
/// normalised conjunction of the operand inverses.
pub proof fn lemma_de_morgan_or(xs: Seq<Form>)
    ensures
        norm(invert(Form::Or(xs))) == norm(Form::And(xs.map_values(|x: Form| invert(x)))),
{
    lemma_de_morgan_seq(true, xs);
}

/// The inverted operand set and the mapped inverses normalise alike.
proof fn lemma_de_morgan_seq(and_kind: bool, xs: Seq<Form>)
    ensures
        norm_seq(and_kind, invert_seq(xs)) == norm_seq(
            and_kind,
            xs.map_values(|x: Form| invert(x)),
        ),
{
    let zs = invert_seq(xs);
    let ws = xs.map_values(|x: Form| invert(x));
    lemma_invert_seq_set(xs);
    assert forall|j: int| 0 <= j < zs.len() implies exists|i: int|
        0 <= i < ws.len() && norm(#[trigger] zs[j]) == norm(ws[i]) by {
        assert(zs.contains(zs[j]));
        let i = choose|i: int| 0 <= i < xs.len() && invert(xs[i]) == zs[j];
        assert(ws[i] == invert(xs[i]));
    }
    assert forall|i: int| 0 <= i < ws.len() implies exists|j: int|
        0 <= j < zs.len() && norm(#[trigger] ws[i]) == norm(zs[j]) by {
        assert(ws[i] == invert(xs[i]));
        assert(zs.contains(invert(xs[i])));
        let j = choose|j: int| 0 <= j < zs.len() && zs[j] == invert(xs[i]);
    }
    lemma_norm_seq_same_norms(and_kind, zs, ws);
}

} // verus!
