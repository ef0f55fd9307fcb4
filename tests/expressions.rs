use truth_tables::get_subexpression;
use truth_tables::Expression;
use truth_tables::ExpressionElementToken;
use truth_tables::Operator;
use truth_tables::PropositionIdentifier;

#[test]
fn test_parse_nonrecursive() {
    let expression = Expression::parse("A & B", true).unwrap();
    assert_eq!(expression.elements().len(), 2);
    assert_eq!(expression.operators().len(), 1);
    assert_eq!(expression.operators()[0], Operator::And);

    let mut proposition_num = 0;

    for proposition in expression.elements() {
        match proposition.token() {
            ExpressionElementToken::Proposition(p) => {
                match proposition_num {
                    0 => assert_eq!(p, &PropositionIdentifier::A),
                    1 => assert_eq!(p, &PropositionIdentifier::B),
                    _ => assert!(false),
                }

                assert_eq!(proposition.is_negated(), false);
            }
            ExpressionElementToken::Subexpression(_) => {
                assert!(false);
            }
        }

        proposition_num += 1;
    }
}

#[test]
fn test_evaluate_nonrecursive() {
    let mut expression = Expression::parse("A & B", true).unwrap();

    expression.set_values(0b0000);
    assert!(!expression.evaluate());

    expression.set_values(0b0010);
    assert!(!expression.evaluate());

    expression.set_values(0b0001);
    assert!(!expression.evaluate());

    expression.set_values(0b0011);
    assert!(expression.evaluate());

    expression = Expression::parse("!A & !B", true).unwrap();

    expression.set_values(0b0000);
    assert!(expression.evaluate());

    expression.set_values(0b0010);
    assert!(!expression.evaluate());

    expression.set_values(0b0001);
    assert!(!expression.evaluate());

    expression.set_values(0b0011);
    assert!(!expression.evaluate());
}

#[test]
fn test_evaluate_recursive() {
    let mut expression = Expression::parse("(A & B) | (C & D)", true).unwrap();

    for i in 0..=15 {
        expression.set_values(i);
        assert_eq!(
            expression.evaluate(),
            i == 0b1100
                || i == 0b1110
                || i == 0b1101
                || i == 0b0011
                || i == 0b1011
                || i == 0b0111
                || i == 0b1111
        );
    }
}

#[test]
fn expressions_test_get_subexpression_nested_single() {
    let expression = "((A | B) & C)";
    assert_eq!(get_subexpression(expression), "(A | B) & C");
}

#[test]
fn expressions_test_get_subexpression_nested_multi() {
    let expression = "((A | B) & C) & (D & C & A)";
    assert_eq!(get_subexpression(expression), "(A | B) & C");
}

#[test]
fn expressions_test_get_subexpression() {
    let expression = "(A | B & C)";
    assert_eq!(get_subexpression(expression), "A | B & C");
}
