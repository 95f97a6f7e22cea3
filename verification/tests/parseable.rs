use coalescence::expression::Expr;
use coalescence::parseable::Parseable;

#[test]
fn parse_atom() -> Result<(), String> {
    assert_eq!(Expr::parse("a")?, Expr::Atom("a".to_string()));

    assert_eq!(Expr::parse("alpha")?, Expr::Atom("alpha".to_string()));

    assert_eq!(Expr::parse("~a")?, Expr::not(Expr::Atom("a".to_string())));

    Ok(())
}

#[test]
fn parse_operator() -> Result<(), String> {
    assert_eq!(
        Expr::parse("a & b")?,
        Expr::and(&[Expr::Atom("a".to_string()), Expr::Atom("b".to_string())])
    );

    assert_eq!(
        Expr::parse("a | b")?,
        Expr::or(&[Expr::Atom("a".to_string()), Expr::Atom("b".to_string())])
    );

    Ok(())
}

#[test]
fn parse_syntactic_sugar() -> Result<(), String> {
    assert_eq!(
        Expr::parse("a > b")?,
        Expr::or(&[
            Expr::not(Expr::Atom("a".to_string())),
            Expr::Atom("b".to_string())
        ])
    );

    assert_eq!(
        Expr::parse("a = b")?,
        Expr::and(&[
            Expr::or(&[
                Expr::not(Expr::Atom("a".to_string())),
                Expr::Atom("b".to_string())
            ]),
            Expr::or(&[
                Expr::not(Expr::Atom("b".to_string())),
                Expr::Atom("a".to_string())
            ])
        ])
    );

    Ok(())
}

#[test]
fn parse_braces() -> Result<(), String> {
    assert_eq!(
        Expr::parse("~(a | b)")?,
        Expr::not(Expr::or(&[
            Expr::Atom("a".to_string()),
            Expr::Atom("b".to_string())
        ]))
    );

    assert_eq!(
        Expr::parse("a = b")?,
        Expr::and(&[
            Expr::or(&[
                Expr::not(Expr::Atom("a".to_string())),
                Expr::Atom("b".to_string())
            ]),
            Expr::or(&[
                Expr::not(Expr::Atom("b".to_string())),
                Expr::Atom("a".to_string())
            ])
        ])
    );

    Ok(())
}

#[test]
fn parse_empty_is_an_error() {
    assert!(Expr::parse("").is_err());
    assert!(Expr::parse("   ").is_err());
}

#[test]
fn parse_bad_operator_is_an_error() {
    assert!(Expr::parse("a ? b").is_err());
}

#[test]
fn parse_unmatched_paren_is_an_error() {
    assert!(Expr::parse("(a & b").is_err());
}
