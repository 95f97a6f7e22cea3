//! The parser for the infix surface syntax: atoms, `~` for negation, and the
//! left-associative binary operators `&`, `|`, `>` (implication, sugar for a
//! disjunction) and `=` (biconditional, sugar for a conjunction of two
//! disjunctions), with parentheses for grouping.

use vstd::prelude::*;

use crate::expression::{Expr, Form, form_of, forms_of};
use crate::order::sort_dedup;
use vstd::string::{StrSliceExecFns, StringExecFns};

verus! {

broadcast use vstd::seq::group_seq_axioms;

/// The position of the first occurrence of a character, if any.
pub open spec fn find_char(s: Seq<char>, c: char) -> Option<int>
    decreases s.len(),
{
    if s.len() == 0 {
        Option::None
    } else if s[0] == c {
        Option::Some(0)
    } else {
        match find_char(s.drop_first(), c) {
            Option::None => Option::None,
            Option::Some(i) => Option::Some(i + 1),
        }
    }
}

/// A found character lies in range and is the first of its kind.
pub proof fn lemma_find_char(s: Seq<char>, c: char)
    ensures
        match find_char(s, c) {
            Option::Some(i) => 0 <= i < s.len() && s[i] == c && (forall|j: int|
                0 <= j < i ==> s[j] != c),
            Option::None => forall|j: int| 0 <= j < s.len() ==> s[j] != c,
        },
    decreases s.len(),
{
    if s.len() > 0 && s[0] != c {
        lemma_find_char(s.drop_first(), c);
        assert(forall|j: int| 1 <= j < s.len() ==> s[j] == s.drop_first()[j - 1]);
    }
}

/// The input from the given position on; empty when the position is past the
/// end.
pub open spec fn rest_of(s: Seq<char>, i: int) -> Seq<char> {
    if 0 <= i < s.len() {
        s.skip(i)
    } else {
        Seq::empty()
    }
}

/// The input with its leading spaces removed.
pub open spec fn spec_trim(s: Seq<char>) -> Seq<char>
    decreases s.len(),
{
    if s.len() > 0 && s[0] == ' ' {
        spec_trim(s.drop_first())
    } else {
        s
    }
}

/// Trimming drops exactly the leading spaces.
pub proof fn lemma_trim_skip(s: Seq<char>, i: int)
    requires
        0 <= i <= s.len(),
        forall|j: int| 0 <= j < i ==> s[j] == ' ',
        i == s.len() || s[i] != ' ',
    ensures
        spec_trim(s) == s.skip(i),
    decreases i,
{
    if i == 0 {
        assert(s.skip(0) =~= s);
    } else {
        assert(forall|j: int| 0 <= j < s.drop_first().len() ==> s.drop_first()[j] == s[j + 1]);
        lemma_trim_skip(s.drop_first(), i - 1);
        assert(s.drop_first().skip(i - 1) =~= s.skip(i));
    }
}

/// The position of the close parenthesis matching the scanning rule of the
/// surface grammar: nested pairs before it are skipped over.
pub open spec fn spec_find_closing(s: Seq<char>) -> Option<int>
    decreases s.len(), 0int,
    via spec_find_closing_dec
{
    let open = find_char(s, '(');
    let close = find_char(s, ')');
    if open is Some && close is Some && open.unwrap() < close.unwrap() {
        match spec_find_closing(s.skip(open.unwrap() + 1)) {
            Option::None => Option::None,
            Option::Some(m0) => {
                let mc = open.unwrap() + 1 + m0;
                if !(0 <= m0 && mc < s.len() && s[mc] == ')') {
                    Option::None
                } else {
                    match spec_find_closing(s.skip(mc + 1)) {
                        Option::None => Option::None,
                        Option::Some(n0) => Option::Some(mc + 1 + n0),
                    }
                }
            },
        }
    } else if close is Some {
        close
    } else {
        Option::None
    }
}

#[via_fn]
proof fn spec_find_closing_dec(s: Seq<char>) {
    lemma_find_char(s, '(');
    lemma_find_char(s, ')');
}

/// A found closing parenthesis lies in range and is a closing parenthesis.
pub proof fn lemma_find_closing_bound(s: Seq<char>)
    ensures
        match spec_find_closing(s) {
            Option::Some(i) => 0 <= i < s.len() && s[i] == ')',
            Option::None => true,
        },
    decreases s.len(),
{
    lemma_find_char(s, '(');
    lemma_find_char(s, ')');
    let open = find_char(s, '(');
    let close = find_char(s, ')');
    if open is Some && close is Some && open.unwrap() < close.unwrap() {
        lemma_find_closing_bound(s.skip(open.unwrap() + 1));
        if spec_find_closing(s.skip(open.unwrap() + 1)) is Some {
            let m0 = spec_find_closing(s.skip(open.unwrap() + 1)).unwrap();
            let mc = open.unwrap() + 1 + m0;
            assert(s.skip(open.unwrap() + 1)[m0] == s[mc]);
            lemma_find_closing_bound(s.skip(mc + 1));
            if spec_find_closing(s.skip(mc + 1)) is Some {
                let n0 = spec_find_closing(s.skip(mc + 1)).unwrap();
                assert(s.skip(mc + 1)[n0] == s[mc + 1 + n0]);
            }
        }
    }
}

/// The leftmost expression of the input: a parenthesised group, a negation,
/// or an atom running to the first space, together with the index scanning
/// stopped at.
pub open spec fn spec_nongreedy(s: Seq<char>) -> Option<(Form, int)>
    decreases s.len(), 0int,
    via spec_nongreedy_dec
{
    if s.len() == 0 {
        Option::None
    } else if s[0] == '(' {
        match spec_find_closing(s.skip(1)) {
            Option::None => Option::None,
            Option::Some(i0) => {
                let index = 1 + i0;
                match spec_inner(s.subrange(1, index)) {
                    Option::None => Option::None,
                    Option::Some(e) => Option::Some((e, index)),
                }
            },
        }
    } else if s[0] == '~' {
        match spec_nongreedy(s.drop_first()) {
            Option::None => Option::None,
            Option::Some((e, i)) => Option::Some((Form::Not(Box::new(e)), i + 1)),
        }
    } else {
        match find_char(s, ' ') {
            Option::Some(i) => Option::Some((Form::Atom(s.take(i)), i)),
            Option::None => Option::Some((Form::Atom(s), s.len() as int)),
        }
    }
}

#[via_fn]
proof fn spec_nongreedy_dec(s: Seq<char>) {
    if s.len() > 0 && s[0] == '(' {
        lemma_find_closing_bound(s.skip(1));
    }
}

/// The index scanning stopped at is in range.
pub proof fn lemma_nongreedy_bound(s: Seq<char>)
    ensures
        match spec_nongreedy(s) {
            Option::Some((e, i)) => 0 <= i <= s.len(),
            Option::None => true,
        },
    decreases s.len(),
{
    if s.len() > 0 {
        if s[0] == '(' {
            lemma_find_closing_bound(s.skip(1));
        } else if s[0] == '~' {
            lemma_nongreedy_bound(s.drop_first());
        } else {
            lemma_find_char(s, ' ');
        }
    }
}

/// The binary operator joining two parsed operands: a conjunction, a
/// disjunction, an implication desugared to a disjunction, or a biconditional
/// desugared to a conjunction of two disjunctions.
pub open spec fn combine(op: char, l: Form, r: Form) -> Form {
    if op == '&' {
        Form::And(sort_dedup(seq![l, r]))
    } else if op == '|' {
        Form::Or(sort_dedup(seq![l, r]))
    } else if op == '>' {
        Form::Or(sort_dedup(seq![Form::Not(Box::new(l)), r]))
    } else {
        Form::And(
            sort_dedup(
                seq![
                    Form::Or(sort_dedup(seq![Form::Not(Box::new(l)), r])),
                    Form::Or(sort_dedup(seq![l, Form::Not(Box::new(r))])),
                ],
            ),
        )
    }
}

/// The whole grammar: a leftmost expression, then either the end of the input
/// or a binary operator and a right operand.
pub open spec fn spec_inner(s: Seq<char>) -> Option<Form>
    decreases s.len(), 1int,
    via spec_inner_dec
{
    let li = spec_trim(s);
    match spec_nongreedy(li) {
        Option::None => Option::None,
        Option::Some((le, lix)) => {
            let mid = spec_trim(rest_of(li, lix + 1));
            if mid.len() == 0 {
                Option::Some(le)
            } else if mid[0] == '&' || mid[0] == '|' || mid[0] == '>' || mid[0] == '=' {
                match spec_inner(mid.skip(1)) {
                    Option::None => Option::None,
                    Option::Some(re) => Option::Some(combine(mid[0], le, re)),
                }
            } else {
                Option::None
            }
        },
    }
}

#[via_fn]
proof fn spec_inner_dec(s: Seq<char>) {
    broadcast use lemma_trim_le;

}

/// Trimming never lengthens the input.
pub broadcast proof fn lemma_trim_le(s: Seq<char>)
    ensures
        (#[trigger] spec_trim(s)).len() <= s.len(),
    decreases s.len(),
{
    if s.len() > 0 && s[0] == ' ' {
        lemma_trim_le(s.drop_first());
    }
}

/// Values with a surface syntax.
pub trait Parseable: View<V = Form> + Sized {
    /// Parses one input line, reporting errors against the surrounding
    /// context.
    fn inner_parse(input: &str, parent: &str) -> (r: Result<Self, String>)
        ensures
            r is Ok <==> spec_inner(input@) is Some,
            r is Ok ==> (r->Ok_0)@ == spec_inner(input@).unwrap(),
    ;

    /// Parses one input line.
    fn parse(input: &str) -> (r: Result<Self, String>)
        ensures
            r is Ok <==> spec_inner(input@) is Some,
            r is Ok ==> (r->Ok_0)@ == spec_inner(input@).unwrap(),
    ;
}

impl Parseable for Expr {
    fn inner_parse(input: &str, parent: &str) -> (r: Result<Self, String>) {
        parse_at(input, parent)
    }

    fn parse(input: &str) -> (r: Result<Self, String>) {
        parse_at(input, "[root]")
    }
}

/// The position of the first occurrence of a character, if any.
fn first_index(s: &str, c: char) -> (r: Option<usize>)
    ensures
        match find_char(s@, c) {
            Option::Some(i) => r is Some && r.unwrap() as int == i,
            Option::None => r is None,
        },
{
    proof {
        lemma_find_char(s@, c);
    }
    let n = s.unicode_len();
    let mut i: usize = 0;
    while i < n
        invariant
            i <= n,
            n == s@.len(),
            forall|j: int| 0 <= j < i ==> s@[j] != c,
        decreases n - i,
    {
        if s.get_char(i) == c {
            proof {
                lemma_find_char_at(s@, c, i as int);
            }
            return Some(i);
        }
        i = i + 1;
    }
    None
}

/// The first occurrence of a character is found exactly where it stands.
proof fn lemma_find_char_at(s: Seq<char>, c: char, i: int)
    requires
        0 <= i < s.len(),
        s[i] == c,
        forall|j: int| 0 <= j < i ==> s[j] != c,
    ensures
        find_char(s, c) == Option::Some(i),
    decreases i,
{
    if i > 0 {
        assert(forall|j: int| 1 <= j < s.len() ==> s[j] == s.drop_first()[j - 1]);
        lemma_find_char_at(s.drop_first(), c, i - 1);
    }
}

/// The input with its leading spaces removed.
fn trim_lead<'a>(s: &'a str) -> (r: &'a str)
    ensures
        r@ == spec_trim(s@),
{
    let n = s.unicode_len();
    let mut i: usize = 0;
    while i < n
        invariant
            i <= n,
            n == s@.len(),
            forall|j: int| 0 <= j < i ==> s@[j] == ' ',
        decreases n - i,
    {
        if s.get_char(i) != ' ' {
            proof {
                lemma_trim_skip(s@, i as int);
            }
            return s.substring_char(i, n);
        }
        i = i + 1;
    }
    proof {
        lemma_trim_skip(s@, n as int);
    }
    s.substring_char(n, n)
}

/// The position of the close parenthesis matching the scanning rule of the
/// surface grammar: nested pairs before it are skipped over.
pub fn find_closing(input: &str) -> (r: Result<usize, String>)
    ensures
        r is Ok <==> spec_find_closing(input@) is Some,
        r is Ok ==> spec_find_closing(input@) == Option::Some((r->Ok_0) as int),
    decreases input@.len(),
{
    proof {
        lemma_find_char(input@, '(');
        lemma_find_char(input@, ')');
        lemma_find_closing_bound(input@);
    }
    let n = input.unicode_len();
    let open = first_index(input, '(');
    let close = first_index(input, ')');
    match (open, close) {
        (Some(o), Some(c)) if o < c => {
            let tail1 = input.substring_char(o + 1, n);
            proof {
                assert(tail1@ == input@.skip(o + 1));
                lemma_find_closing_bound(tail1@);
            }
            let first = find_closing(tail1);
            match first {
                Err(e) => Err(e),
                Ok(m0) => {
                    let mc = o + 1 + m0;
                    proof {
                        assert(input@.skip(o + 1)[m0 as int] == input@[mc as int]);
                    }
                    let tail2 = input.substring_char(mc + 1, n);
                    proof {
                        assert(tail2@ == input@.skip(mc + 1));
                    }
                    let second = find_closing(tail2);
                    match second {
                        Err(e) => Err(e),
                        Ok(n0) => Ok(mc + 1 + n0),
                    }
                },
            }
        },
        (_, Some(c)) => Ok(c),
        _ => Err(String::from_str("Unmatched open-close in ").concat(input)),
    }
}

/// The leftmost expression of the input: a parenthesised group, a negation,
/// or an atom running to the first space, together with the index scanning
/// stopped at.
pub fn nongreedy_parse(input: &str, parent: &str) -> (r: Result<(Expr, usize), String>)
    ensures
        r is Ok <==> spec_nongreedy(input@) is Some,
        r is Ok ==> spec_nongreedy(input@) == Option::Some(
            (((r->Ok_0).0)@, ((r->Ok_0).1) as int),
        ),
        r is Ok ==> ((r->Ok_0).1) as int <= input@.len(),
    decreases input@.len(), 3int,
{
    proof {
        lemma_nongreedy_bound(input@);
    }
    let n = input.unicode_len();
    if n == 0 {
        return Err(String::from_str("Expected expression, got empty in ").concat(parent));
    }
    let c0 = input.get_char(0);
    if c0 == '(' {
        let tail = input.substring_char(1, n);
        proof {
            assert(tail@ == input@.skip(1));
            lemma_find_closing_bound(tail@);
        }
        let closing = find_closing(tail);
        match closing {
            Err(e) => Err(e),
            Ok(i0) => {
                let index = 1 + i0;
                let middle = input.substring_char(1, index);
                proof {
                    assert(middle@ == input@.subrange(1, index as int));
                }
                let inner = parse_at(middle, input);
                match inner {
                    Err(e) => Err(e),
                    Ok(e) => Ok((e, index)),
                }
            },
        }
    } else if c0 == '~' {
        let tail = input.substring_char(1, n);
        proof {
            assert(tail@ == input@.skip(1));
            assert(tail@ == input@.drop_first());
            lemma_nongreedy_bound(tail@);
        }
        let rest = nongreedy_parse(tail, input);
        match rest {
            Err(e) => Err(e),
            Ok((e, i)) => Ok((Expr::not(e), i + 1)),
        }
    } else {
        proof {
            lemma_find_char(input@, ' ');
        }
        let space = first_index(input, ' ');
        match space {
            Some(i) => {
                let name = input.substring_char(0, i);
                proof {
                    assert(name@ == input@.subrange(0, i as int));
                    assert(name@ =~= input@.take(i as int));
                }
                Ok((Expr::Atom(String::from_str(name)), i))
            },
            None => Ok((Expr::Atom(String::from_str(input)), n)),
        }
    }
}

/// The binary operator at the head of the input, if the input goes on at all.
pub fn operator_parse(input: &str, parent: &str) -> (r: Result<Option<char>, String>)
    ensures
        input@.len() == 0 ==> r == Result::<Option<char>, String>::Ok(Option::<char>::None),
        input@.len() > 0 && (input@[0] == '&' || input@[0] == '|' || input@[0] == '>'
            || input@[0] == '=') ==> r == Result::<Option<char>, String>::Ok(
            Option::Some(input@[0]),
        ),
        input@.len() > 0 && !(input@[0] == '&' || input@[0] == '|' || input@[0] == '>'
            || input@[0] == '=') ==> r is Err,
{
    let n = input.unicode_len();
    if n == 0 {
        return Ok(None);
    }
    let c0 = input.get_char(0);
    if c0 == '&' || c0 == '|' || c0 == '>' || c0 == '=' {
        Ok(Some(c0))
    } else {
        Err(String::from_str("Expected [empty, |, &, >, =] in ").concat(parent))
    }
}

/// Joins two parsed operands with the given binary operator, desugaring the
/// implication and the biconditional.
fn combine_exprs(op: char, l: Expr, r: Expr) -> (e: Expr)
    requires
        op == '&' || op == '|' || op == '>' || op == '=',
    ensures
        e@ == combine(op, l@, r@),
{
    proof {
        broadcast use crate::expression::lemma_forms_of;

    }
    if op == '&' {
        let mut v: Vec<Expr> = Vec::new();
        v.push(l);
        v.push(r);
        let e = Expr::and(v.as_slice());
        proof {
            assert(forms_of(v@) =~= seq![v@[0]@, v@[1]@]);
        }
        e
    } else if op == '|' {
        let mut v: Vec<Expr> = Vec::new();
        v.push(l);
        v.push(r);
        let e = Expr::or(v.as_slice());
        proof {
            assert(forms_of(v@) =~= seq![v@[0]@, v@[1]@]);
        }
        e
    } else if op == '>' {
        let mut v: Vec<Expr> = Vec::new();
        v.push(Expr::not(l));
        v.push(r);
        let e = Expr::or(v.as_slice());
        proof {
            assert(forms_of(v@) =~= seq![v@[0]@, v@[1]@]);
        }
        e
    } else {
        let lneg = Expr::not(l.clone());
        let rneg = Expr::not(r.clone());
        let mut v1: Vec<Expr> = Vec::new();
        v1.push(lneg);
        v1.push(r);
        let d1 = Expr::or(v1.as_slice());
        proof {
            assert(forms_of(v1@) =~= seq![v1@[0]@, v1@[1]@]);
        }
        let mut v2: Vec<Expr> = Vec::new();
        v2.push(l);
        v2.push(rneg);
        let d2 = Expr::or(v2.as_slice());
        proof {
            assert(forms_of(v2@) =~= seq![v2@[0]@, v2@[1]@]);
        }
        let mut v: Vec<Expr> = Vec::new();
        v.push(d1);
        v.push(d2);
        let e = Expr::and(v.as_slice());
        proof {
            assert(forms_of(v@) =~= seq![v@[0]@, v@[1]@]);
        }
        e
    }
}

/// Parses a whole input: a leftmost expression, then either the end of the
/// input or a binary operator and a right operand.
fn parse_at(input: &str, parent: &str) -> (r: Result<Expr, String>)
    ensures
        r is Ok <==> spec_inner(input@) is Some,
        r is Ok ==> (r->Ok_0)@ == spec_inner(input@).unwrap(),
    decreases input@.len(), 4int,
{
    proof {
        broadcast use lemma_trim_le;

    }
    let li = trim_lead(input);
    let left = nongreedy_parse(li, parent);
    match left {
        Err(e) => Err(e),
        Ok((le, lix)) => {
            let lilen = li.unicode_len();
            let mid = if lix >= lilen {
                proof {
                    assert(rest_of(li@, lix + 1) =~= Seq::<char>::empty());
                }
                let empty_mid = li.substring_char(lilen, lilen);
                proof {
                    assert(empty_mid@ =~= spec_trim(rest_of(li@, lix + 1)));
                }
                empty_mid
            } else {
                let tail = li.substring_char(lix + 1, lilen);
                proof {
                    if lix + 1 < lilen {
                        assert(tail@ == li@.skip(lix + 1));
                        assert(rest_of(li@, lix + 1) == li@.skip(lix + 1));
                    } else {
                        assert(tail@ =~= Seq::<char>::empty());
                        assert(rest_of(li@, lix + 1) =~= Seq::<char>::empty());
                    }
                }
                trim_lead(tail)
            };
            proof {
                assert(mid@ == spec_trim(rest_of(li@, lix + 1)));
            }
            let op = operator_parse(mid, li);
            match op {
                Err(e) => Err(e),
                Ok(None) => Ok(le),
                Ok(Some(c)) => {
                    let midlen = mid.unicode_len();
                    let rest = mid.substring_char(1, midlen);
                    proof {
                        assert(rest@ == mid@.skip(1));
                    }
                    let right = parse_at(rest, li);
                    match right {
                        Err(e) => Err(e),
                        Ok(re) => Ok(combine_exprs(c, le, re)),
                    }
                },
            }
        },
    }
}

} // verus!
