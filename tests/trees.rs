use truth_tables::get_subexpression;
use truth_tables::Expression;
use truth_tables::ExpressionElementToken;
use truth_tables::Operator;

/// Writes a parsed tree back as text: elements joined by their operators, groups in
/// parentheses, negations as '!'.
fn render(expression: &Expression) -> String {
    let mut out = String::new();
    for (i, element) in expression.elements().iter().enumerate() {
        if i > 0 {
            out.push_str(match expression.operators()[i - 1] {
                Operator::And => " & ",
                Operator::Or => " | ",
            });
        }
        if element.is_negated() {
            out.push('!');
        }
        match element.token() {
            ExpressionElementToken::Proposition(p) => out.push(p.to_char()),
            ExpressionElementToken::Subexpression(s) => {
                out.push('(');
                out.push_str(&render(s));
                out.push(')');
            }
        }
    }
    out
}

#[test]
fn test_expression_nonrecursive_parse() {
    let expression = Expression::parse("A & B", true).unwrap();
    assert_eq!(expression.elements().len(), 2);
    assert_eq!(expression.operators().len(), 1);
    assert_eq!(expression.operators()[0], Operator::And);

    let mut proposition_num = 0;

    for proposition in expression.elements() {
        match proposition.token() {
            ExpressionElementToken::Proposition(p) => {
                match proposition_num {
                    0 => assert_eq!(p.to_char(), 'A'),
                    1 => assert_eq!(p.to_char(), 'B'),
                    _ => assert!(false),
                }

                assert_eq!(proposition.is_negated(), false);
            }
            ExpressionElementToken::Subexpression(_) => {
                assert!(false);
            }
        }

        proposition_num += 1;
    }
}

#[test]
fn test_expression_recursive_parse_1() {
    let text = "(A & B & !C) | (A & B | (!C | A)) & (A | B)";
    let expression = Expression::parse(text, true).unwrap();
    assert_eq!(render(&expression), text);
    assert_eq!(expression.elements().len(), 3);
    assert_eq!(expression.operators(), &vec![Operator::Or, Operator::And]);
    match expression.elements()[1].token() {
        ExpressionElementToken::Subexpression(s) => {
            assert_eq!(s.elements().len(), 3);
            assert_eq!(s.operators(), &vec![Operator::And, Operator::Or]);
            match s.elements()[2].token() {
                ExpressionElementToken::Subexpression(inner) => {
                    assert_eq!(render(inner), "!C | A");
                    assert!(inner.elements()[0].is_negated());
                }
                ExpressionElementToken::Proposition(_) => assert!(false),
            }
        }
        ExpressionElementToken::Proposition(_) => assert!(false),
    }
}

#[test]
fn test_expression_recursive_parse_2() {
    let text = "!(A & B) | ((A | !C | !D) & A) & B & C";
    let expression = Expression::parse(text, true).unwrap();
    assert_eq!(render(&expression), text);
    assert_eq!(expression.elements().len(), 4);
    assert_eq!(
        expression.operators(),
        &vec![Operator::Or, Operator::And, Operator::And]
    );
    assert!(expression.elements()[0].is_negated());
    assert!(!expression.elements()[1].is_negated());
    match expression.elements()[1].token() {
        ExpressionElementToken::Subexpression(s) => {
            assert_eq!(render(s), "(A | !C | !D) & A");
            assert_eq!(s.elements().len(), 2);
        }
        ExpressionElementToken::Proposition(_) => assert!(false),
    }
}

#[test]
fn tests_test_get_subexpression_nested_single() {
    let expression = "((A | B) & C)";
    assert_eq!(get_subexpression(expression), "(A | B) & C");
}

#[test]
fn tests_test_get_subexpression_nested_multi() {
    let expression = "((A | B) & C) & (D & C & A)";
    assert_eq!(get_subexpression(expression), "(A | B) & C");
}

#[test]
fn tests_test_get_subexpression() {
    let expression = "(A | B & C)";
    assert_eq!(get_subexpression(expression), "A | B & C");
}
