use coalescence::expression::Expr;
use coalescence::parseable::Parseable;
use coalescence::proveable::{Proof, Proveable};

#[test]
fn proof_axiom() -> Result<(), String> {
    let expr = Expr::parse("a > a")?.normal();
    let proof = expr.prove()?;

    assert_eq!(proof.verify(), Ok(()));

    Ok(())
}

#[test]
fn proof_duplicate_axiom() -> Result<(), String> {
    let expr = Expr::parse("(a > a) & (a > a)")?.normal();
    let proof = expr.prove()?;

    assert_eq!(proof.verify(), Ok(()));

    Ok(())
}

#[test]
fn proof_two_axioms() -> Result<(), String> {
    let expr = Expr::parse("(a > a) & (b > b)")?.normal();
    let proof = expr.prove()?;

    assert_eq!(proof.verify(), Ok(()));

    Ok(())
}

#[test]
fn proof_second_axiom() -> Result<(), String> {
    let expr = Expr::parse("(a & b) | (~a & b) | (a & ~b) | (~a & ~b)")?.normal();
    let proof = expr.prove()?;

    assert_eq!(proof.verify(), Ok(()));

    Ok(())
}

#[test]
fn proof_second_axiom_invalid() -> Result<(), String> {
    let expr = Expr::parse("(a & b) | (~a & b) | (a & ~b)")?.normal();
    let proof = expr.prove();

    let _ = proof.unwrap_err();

    Ok(())
}

#[test]
fn test_proof_axiom() -> Result<(), String> {
    let expr = Expr::parse("a > a")?.normal();
    expr.prove()?;
    Ok(())
}

#[test]
fn test_proof_duplicate_axiom() -> Result<(), String> {
    let expr = Expr::parse("(a > a) & (a > a)")?.normal();
    expr.prove()?;
    Ok(())
}

#[test]
fn test_proof_two_axioms() -> Result<(), String> {
    let expr = Expr::parse("(a > a) & (b > b)")?.normal();
    expr.prove()?;
    Ok(())
}

#[test]
fn test_proof_second_axiom() -> Result<(), String> {
    let expr = Expr::parse("(a & b) | (~a & b) | (a & ~b) | (~a & ~b)")?.normal();
    expr.prove()?;
    Ok(())
}

#[test]
fn test_proof_second_axiom_invalid() -> Result<(), String> {
    let expr = Expr::parse("(a & b) | (~a & b) | (a & ~b)")?.normal();
    let _ = expr.prove().unwrap_err();
    Ok(())
}

#[test]
fn ground_is_the_identity_pair() -> Result<(), String> {
    let a = Expr::Atom("p".to_string());
    assert_eq!(
        a.ground(),
        vec![Expr::Atom("p".to_string()), Expr::NotAtom("p".to_string())]
    );
    Ok(())
}

#[test]
fn an_empty_proof_has_no_root_node() -> Result<(), String> {
    let expr = Expr::parse("a > a")?.normal();
    let proof = Proof::new(&expr);
    assert!(proof.verify().is_err());
    Ok(())
}

#[test]
fn prove_a_lone_atom_fails() -> Result<(), String> {
    let expr = Expr::parse("a")?.normal();
    let e = expr.prove().unwrap_err();
    assert_eq!(e, "Not coalesceable".to_string());
    Ok(())
}
