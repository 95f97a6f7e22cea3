use coalescence::expression::Expr;
use coalescence::parseable::Parseable;

#[test]
fn coalesce_axiom() -> Result<(), String> {
    let expr = Expr::parse("a > a")?.normal();
    let _ = expr.coalesce().ok_or("Not coalesceable")?;
    Ok(())
}

#[test]
fn coalesce_duplicate_axiom() -> Result<(), String> {
    let expr = Expr::parse("(a > a) & (a > a)")?.normal();
    let _ = expr.coalesce().ok_or("Not coalesceable")?;
    Ok(())
}

#[test]
fn coalesce_two_axioms() -> Result<(), String> {
    let expr = Expr::parse("(a > a) & (b > b)")?.normal();
    let _ = expr.coalesce().ok_or("Not coalesceable")?;
    Ok(())
}

#[test]
fn coalesce_second_axiom() -> Result<(), String> {
    let expr = Expr::parse("(a & b) | (~a & b) | (a & ~b) | (~a & ~b)")?.normal();
    let _ = expr.coalesce().ok_or("Not coalesceable")?;
    Ok(())
}

#[test]
fn coalesce_second_axiom_invalid() -> Result<(), String> {
    let expr = Expr::parse("(a & b) | (~a & b) | (a & ~b)")?.normal();
    let _ = expr
        .coalesce()
        .ok_or("Not coalesceable")
        .expect_err("False statement coalesceable");
    Ok(())
}

#[test]
fn coalesce_third_axiom() -> Result<(), String> {
    let expr = Expr::parse("(a & b & c) | (a & ~b & c) | (~a & b & c) | (~a & ~b & c) | (a & b & ~c) | (a & ~b & ~c) | (~a & b & ~c) | (~a & ~b & ~c)")?.normal();
    let _ = expr.coalesce().ok_or("Not coalesceable")?;
    Ok(())
}

#[test]
fn spawn_yields_identity_pairs() -> Result<(), String> {
    let expr = Expr::parse("(a > a) & (b > b)")?.normal();
    let frontier = expr.spawn();
    assert_eq!(frontier.len(), 2);
    for token in &frontier {
        assert_eq!(token.len(), 2);
        assert_eq!(token[0].inverse().normal(), token[1]);
    }
    Ok(())
}

#[test]
fn spawn_of_lone_atom_is_empty() -> Result<(), String> {
    let expr = Expr::parse("a")?.normal();
    assert_eq!(expr.spawn().len(), 0);
    assert!(expr.coalesce().is_none());
    Ok(())
}

#[test]
fn fire_keeps_the_old_frontier() -> Result<(), String> {
    let expr = Expr::parse("a > a")?.normal();
    let spawned = expr.spawn();
    let fired = expr.fire(&spawned);
    assert!(fired.len() >= spawned.len());
    for (k, token) in spawned.iter().enumerate() {
        assert_eq!(&fired[k], token);
    }
    Ok(())
}

#[test]
fn project_widens_tokens() -> Result<(), String> {
    let expr = Expr::parse("a > a")?.normal();
    let spawned = expr.spawn();
    let projected = expr.project(&spawned);
    assert!(projected.len() > spawned.len());
    for token in &projected {
        assert!(token.len() >= 2);
    }
    Ok(())
}

#[test]
fn dim_bound_counts_atoms() -> Result<(), String> {
    let expr = Expr::parse("(a > a) & (b > b)")?.normal();
    assert_eq!(expr.dim_bound(), 4);
    assert_eq!(Expr::parse("a & b")?.dim_bound(), 2);
    Ok(())
}

#[test]
fn axiom_set_pairs_an_expression_with_its_inverse() -> Result<(), String> {
    let a = Expr::Atom("a".to_string());
    let pair = a.axiom_set();
    assert_eq!(
        pair,
        vec![Expr::Atom("a".to_string()), Expr::NotAtom("a".to_string())]
    );
    Ok(())
}

#[test]
fn is_axiom_on_samples() -> Result<(), String> {
    assert!(Expr::parse("a > a")?.normal().is_axiom());
    assert!(!Expr::parse("a | b")?.normal().is_axiom());
    assert!(!Expr::parse("a & ~a")?.normal().is_axiom());
    Ok(())
}

#[test]
fn children_of_connectives() -> Result<(), String> {
    let e = Expr::parse("a & b")?;
    assert_eq!(
        e.children(),
        vec![Expr::Atom("a".to_string()), Expr::Atom("b".to_string())]
    );
    assert_eq!(Expr::Atom("a".to_string()).children(), Vec::<Expr>::new());
    assert_eq!(
        Expr::not(Expr::Atom("a".to_string())).children(),
        Vec::<Expr>::new()
    );
    Ok(())
}
