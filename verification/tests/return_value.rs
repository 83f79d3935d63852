use iguana::grammar::symbols::{Expr, Symbol};
use iguana::grammar::transformations::return_value::{
    no_label, take_exclusion_return, undefined_precedence, with_label, ReturnShape,
};

#[test]
fn exclusion_returns_are_removed_from_labeled_and_unlabeled_alternatives() {
    for label in [Some(0), None] {
        let mut symbols = vec![Symbol::Return(with_label(Expr::Int(0), label))];
        assert_eq!(take_exclusion_return(&mut symbols), label);
        assert!(symbols.is_empty());
    }
    let mut symbols = vec![Symbol::Return(Expr::Int(0))];
    assert_eq!(take_exclusion_return(&mut symbols), None);
    assert_eq!(
        format!("{:?}", symbols),
        format!("{:?}", vec![Symbol::Return(Expr::Int(0))])
    );
}

#[test]
fn printing_uses_the_declared_return_shape() {
    for (pr, assoc, label, printed) in [
        (Expr::Int(1), Expr::Int(0), None, "1"),
        (Expr::Int(1), Expr::Int(1), None, "(1, 1)"),
        (Expr::Int(1), Expr::Int(0), Some(0), "(1, 0)"),
        (Expr::Int(1), Expr::Int(0), Some(2), "(1, 2)"),
        (Expr::Int(1), Expr::Int(1), Some(2), "(1, 1, 2)"),
        (
            undefined_precedence(),
            Expr::Int(0),
            None,
            "UNDEFINED_PRECEDENCE",
        ),
        (Expr::Int(9000), Expr::Int(0), Some(100), "(9000, 100)"),
    ] {
        let shape = ReturnShape {
            associativity: !matches!(assoc, Expr::Int(0)),
            label: label.is_some(),
        };
        assert_eq!(shape.value(pr, assoc, label).to_string(), printed);
    }
    let shape = ReturnShape {
        associativity: true,
        label: true,
    };
    assert_eq!(
        shape.value(Expr::Int(0), Expr::Int(0), None).to_string(),
        "(0, 0, NO_LABEL)"
    );
    assert_eq!(shape.binding("l").to_string(), "(l_pr, l_assoc, l_label)");
    assert_eq!(no_label().to_string(), "NO_LABEL");
}

#[test]
fn a_single_component_binds_a_single_name() {
    let shape = ReturnShape::default();
    assert_eq!(shape.binding("v").to_string(), "v_pr");
    let shape = ReturnShape { associativity: false, label: true };
    assert_eq!(shape.binding("r").to_string(), "(r_pr, r_label)");
}

#[test]
fn a_return_that_is_not_an_exclusion_pair_stays() {
    let mut symbols = vec![Symbol::Return(Expr::Tuple(vec![Expr::Int(1), Expr::Int(2), Expr::Int(3)]))];
    assert_eq!(take_exclusion_return(&mut symbols), None);
    assert_eq!(symbols.len(), 1);
    let mut symbols: Vec<Symbol> = Vec::new();
    assert_eq!(take_exclusion_return(&mut symbols), None);
    let mut symbols = vec![Symbol::Return(with_label(Expr::Int(7), Some(5)))];
    assert_eq!(take_exclusion_return(&mut symbols), Some(5));
}
