use coalescence::expression::Expr;
use coalescence::parseable::Parseable;

#[test]
fn normal_idempotent() -> Result<(), String> {
    assert_eq!(Expr::parse("a | a")?.normal(), Expr::parse("a")?);

    assert_eq!(Expr::parse("a & a")?.normal(), Expr::parse("a")?);

    Ok(())
}

#[test]
fn normal_inverse() -> Result<(), String> {
    assert_eq!(Expr::parse("~(~a)")?.normal(), Expr::parse("a")?);

    Ok(())
}

#[test]
fn normal_commutative() -> Result<(), String> {
    assert_eq!(
        Expr::parse("(a | b) | c")?.normal(),
        Expr::parse("a | (b | c)")?.normal()
    );

    assert_eq!(
        Expr::parse("(a & b) & c")?.normal(),
        Expr::parse("a & (b & c)")?.normal()
    );

    Ok(())
}

#[test]
fn normal_idempotent_commutative() -> Result<(), String> {
    assert_eq!(
        Expr::parse("((a & a) & a) & (a & a) | a")?.normal(),
        Expr::parse("a")?
    );
    assert_eq!(
        Expr::parse("((a | a) | a) | (a | a) & a")?.normal(),
        Expr::parse("a")?
    );

    Ok(())
}

#[test]
fn normal_syntactic_sugar() -> Result<(), String> {
    assert_eq!(
        Expr::parse("a > b")?.normal(),
        Expr::parse("~a | b")?.normal()
    );

    assert_eq!(
        Expr::parse("a = b")?.normal(),
        Expr::parse("(a > b) & (b > a)")?.normal()
    );
    assert_eq!(
        Expr::parse("a = b")?.normal(),
        Expr::parse("(~a | b) & (~b | a)")?.normal()
    );

    Ok(())
}

#[test]
fn inverse() -> Result<(), String> {
    assert_eq!(
        Expr::parse("a")?.inverse().normal(),
        Expr::parse("~a")?.normal()
    );

    assert_eq!(Expr::parse("~a")?.inverse().normal(), Expr::parse("a")?);

    assert_eq!(
        Expr::parse("~a | ~b")?.inverse().normal(),
        Expr::parse("a & b")?
    );

    assert_eq!(
        Expr::parse("~a & ~b")?.inverse().normal(),
        Expr::parse("a | b")?
    );

    Ok(())
}

#[test]
fn names() -> Result<(), String> {
    let mut found = Expr::parse("(a & ~b) | (c & ~a)")?.names();
    found.sort();
    assert_eq!(
        found,
        vec!["a".to_string(), "b".to_string(), "c".to_string()]
    );

    Ok(())
}

#[test]
fn atoms() -> Result<(), String> {
    assert_eq!(
        Expr::parse("(a & ~b) | (c & ~a)")?.normal().atoms(),
        vec![
            Expr::Atom("a".to_string()),
            Expr::Atom("c".to_string()),
            Expr::NotAtom("a".to_string()),
            Expr::NotAtom("b".to_string())
        ]
    );

    Ok(())
}

#[test]
fn subexprs() -> Result<(), String> {
    Ok(())
}

#[test]
fn lineage() -> Result<(), String> {
    Ok(())
}

#[test]
fn inverse_involution_examples() -> Result<(), String> {
    for input in ["a", "~a", "a & b", "(a | ~b) & c", "a > (b = c)"] {
        let e = Expr::parse(input)?;
        assert_eq!(e.inverse().inverse().normal(), e.normal());
    }
    Ok(())
}

#[test]
fn normal_idempotent_examples() -> Result<(), String> {
    for input in ["a", "~(a & b)", "(a | a) & (b > c)", "a = (b = c)"] {
        let n = Expr::parse(input)?.normal();
        assert_eq!(n.normal(), n);
    }
    Ok(())
}

#[test]
fn de_morgan_examples() -> Result<(), String> {
    let conj = Expr::parse("a & b & c")?;
    let dual = Expr::or(&[
        Expr::Atom("a".to_string()).inverse(),
        Expr::Atom("b".to_string()).inverse(),
        Expr::Atom("c".to_string()).inverse(),
    ]);
    assert_eq!(conj.inverse().normal(), dual.normal());

    let disj = Expr::parse("a | ~b")?;
    let dual2 = Expr::and(&[
        Expr::Atom("a".to_string()).inverse(),
        Expr::NotAtom("b".to_string()).inverse(),
    ]);
    assert_eq!(disj.inverse().normal(), dual2.normal());
    Ok(())
}

#[test]
fn render_in_surface_syntax() -> Result<(), String> {
    assert_eq!(Expr::parse("a & b")?.render(), "a & b".to_string());
    assert_eq!(Expr::parse("~(a | b)")?.render(), "~(a | b)".to_string());
    assert_eq!(Expr::NotAtom("a".to_string()).render(), "~a".to_string());
    assert_eq!(Expr::parse("a > b")?.normal().render(), "b | ~a".to_string());
    Ok(())
}

#[test]
fn subexprs_of_conjunction() -> Result<(), String> {
    let e = Expr::parse("a & b")?;
    let subs = e.subexprs();
    assert_eq!(subs.len(), 3);
    assert!(subs.contains(&Expr::Atom("a".to_string())));
    assert!(subs.contains(&Expr::Atom("b".to_string())));
    assert!(subs.contains(&e));
    Ok(())
}

#[test]
fn lineage_of_conjunction() -> Result<(), String> {
    let e = Expr::parse("a & b")?;
    let paths = e.lineage();
    assert_eq!(paths.len(), 3);
    assert!(paths.contains(&vec![Expr::Atom("a".to_string()), e.clone()]));
    assert!(paths.contains(&vec![Expr::Atom("b".to_string()), e.clone()]));
    assert!(paths.contains(&vec![e.clone()]));
    Ok(())
}
