use truth_tables::decode_permutation_str;
use truth_tables::Expression;
use truth_tables::ExpressionElementToken;
use truth_tables::Operator;
use truth_tables::ParseError;
use truth_tables::PropositionIdentifier;
use truth_tables::PropositionTable;
use truth_tables::RowError;
use truth_tables::TruthTable;

fn bit(permutation: u8, i: u8) -> bool {
    PropositionIdentifier::from_int(i).mask(permutation)
}

#[test]
fn elements_outnumber_operators_by_one() {
    for text in ["A", "A | B", "!A & (B | C) & D", "((A)) + b * !c * /d", "A & | B C"] {
        let expression = Expression::parse(text, false).unwrap();
        assert_eq!(expression.elements().len(), expression.operators().len() + 1);
    }
}

#[test]
fn round_trip_through_rows() {
    let table = TruthTable::parse_rows("000, 101, 011, 111").unwrap();
    let text = table.to_expression_str();
    assert_eq!(text, "(A) | (B) | (A & B)");
    let rebuilt = TruthTable::parse_expression_str(&text).unwrap();
    for p in 0..4u8 {
        assert_eq!(rebuilt.result(p), table.result(p));
    }
}

#[test]
fn round_trip_with_three_propositions() {
    let rows = "0000, 1001, 0100, 1101, 0010, 1011, 0111, 1111";
    let table = TruthTable::parse_rows(rows).unwrap();
    let text = table.to_expression_str();
    assert_eq!(text, "(A) | (A & B) | (A & C) | (B & C) | (A & B & C)");
    let rebuilt = TruthTable::parse_expression_str(&text).unwrap();
    assert_eq!(rebuilt.propositions().len(), 3);
    for p in 0..8u8 {
        assert_eq!(rebuilt.result(p), table.result(p));
    }
}

#[test]
fn round_trip_drops_false_letters() {
    // Each conjunction lists only the letters its row sets, so a table whose true rows
    // are not closed upward comes back with more true rows.
    let table = TruthTable::parse_rows("000, 101, 011, 110").unwrap();
    let text = table.to_expression_str();
    assert_eq!(text, "(A) | (B)");
    let rebuilt = TruthTable::parse_expression_str(&text).unwrap();
    assert_eq!(table.result(3), Some(false));
    assert_eq!(rebuilt.result(3), Some(true));
}

#[test]
fn assigning_twice_gives_the_same_value() {
    let mut expression = Expression::parse("!(A & B) | C", true).unwrap();
    for p in 0..8u8 {
        expression.set_values(p);
        let once = expression.evaluate();
        expression.set_values(p);
        let twice = expression.evaluate();
        assert_eq!(once, twice);
        assert_eq!(once, !(bit(p, 0) && bit(p, 1)) || bit(p, 2));
    }
}

#[test]
fn zero_propositions_are_refused() {
    assert_eq!(
        Expression::parse("", true).err(),
        Some(ParseError::NonContiguousPropositions)
    );
    assert_eq!(TruthTable::parse_rows("1, 0").err(), Some(RowError::InvalidRowSize));
}

#[test]
fn four_propositions_are_the_most() {
    let table = TruthTable::parse_expression_str("A & B & C & D").unwrap();
    assert_eq!(table.propositions().len(), 4);
    assert_eq!(table.rows().len(), 16);
    assert_eq!(table.result(15), Some(true));
    assert_eq!(table.result(14), Some(false));
    assert_eq!(
        TruthTable::parse_rows("111111, 000000").err(),
        Some(RowError::InvalidRowSize)
    );
}

#[test]
fn negation_binds_to_one_element() {
    let mut grouped = Expression::parse("!(A & B)", true).unwrap();
    assert_eq!(grouped.elements().len(), 1);
    assert!(grouped.elements()[0].is_negated());
    let mut single = Expression::parse("!A & B", true).unwrap();
    assert!(single.elements()[0].is_negated());
    assert!(!single.elements()[1].is_negated());
    for p in 0..4u8 {
        assert_eq!(grouped.evaluate_permutation(p), !(bit(p, 0) && bit(p, 1)));
        assert_eq!(single.evaluate_permutation(p), !bit(p, 0) && bit(p, 1));
    }
}

#[test]
fn conjunction_of_two() {
    let mut expression = Expression::parse("A & B", true).unwrap();
    assert_eq!(expression.elements().len(), 2);
    assert_eq!(expression.operators(), &vec![Operator::And]);
    assert!(expression.evaluate_permutation(0b0011));
    assert!(!expression.evaluate_permutation(0b0000));
    assert!(!expression.evaluate_permutation(0b0001));
    assert!(!expression.evaluate_permutation(0b0010));
}

#[test]
fn two_groups_over_sixteen_permutations() {
    let mut expression = Expression::parse("(A & B) | (C & D)", true).unwrap();
    for p in 0..16u8 {
        let expected = (bit(p, 0) && bit(p, 1)) || (bit(p, 2) && bit(p, 3));
        assert_eq!(expression.evaluate_permutation(p), expected);
    }
    let table = TruthTable::parse_expression_str("(A & B) | (C & D)").unwrap();
    for p in 0..16u8 {
        let expected = (bit(p, 0) && bit(p, 1)) || (bit(p, 2) && bit(p, 3));
        assert_eq!(table.result(p), Some(expected));
    }
}

#[test]
fn rows_decode_in_evaluation_order() {
    let table = TruthTable::parse_rows("001, 011, 101, 111").unwrap();
    assert_eq!(table.propositions().len(), 2);
    // The first column is A, which is bit 0 of a permutation, as in evaluation.
    assert_eq!(table.result(0b00), Some(true));
    assert_eq!(table.result(0b01), Some(true));
    assert_eq!(table.result(0b10), Some(true));
    assert_eq!(table.result(0b11), Some(true));
    assert_eq!(
        table.rows(),
        vec![(0b00, true), (0b01, true), (0b10, true), (0b11, true)]
    );
    // Every row is true, so the row that sets no letter writes "()", which does not parse.
    let text = table.to_expression_str();
    assert_eq!(text, "() | (A) | (B) | (A & B)");
    assert_eq!(
        Expression::parse(&text, true).err(),
        Some(ParseError::MismatchedOperatorCount)
    );
}

#[test]
fn rows_re_evaluate_through_their_expression() {
    let rows = ["000", "011", "101", "111"];
    let table = TruthTable::parse_rows("000, 011, 101, 111").unwrap();
    let text = table.to_expression_str();
    assert_eq!(text, "(A) | (B) | (A & B)");
    let mut expression = Expression::parse(&text, true).unwrap();
    for row in rows {
        let a = row.as_bytes()[0] == b'1';
        let b = row.as_bytes()[1] == b'1';
        let p = (a as u8) | ((b as u8) << 1);
        assert_eq!(expression.evaluate_permutation(p), row.as_bytes()[2] == b'1');
    }
}

#[test]
fn default_table_writes_nothing() {
    let table = TruthTable::default();
    assert_eq!(table.to_expression_str(), "");
    assert!(table.rows().is_empty());
}

#[test]
fn unclosed_parenthesis_is_refused() {
    assert_eq!(
        Expression::parse("(A & B", true).err(),
        Some(ParseError::UnclosedParenthesis)
    );
}

#[test]
fn gap_in_letters_is_refused_only_when_validated() {
    assert_eq!(
        Expression::parse("A & C", true).err(),
        Some(ParseError::NonContiguousPropositions)
    );
    let expression = Expression::parse("A & C", false).unwrap();
    assert_eq!(expression.proposition_count(), 2);
}

#[test]
fn parse_errors() {
    assert_eq!(
        Expression::parse("A & B)", true).err(),
        Some(ParseError::UnmatchedClosingParenthesis)
    );
    assert_eq!(
        Expression::parse("A & E", true).err(),
        Some(ParseError::InvalidCharacter('E'))
    );
    assert_eq!(
        Expression::parse("A & B &", true).err(),
        Some(ParseError::MismatchedOperatorCount)
    );
    assert_eq!(
        Expression::parse("A & & B", true).err(),
        Some(ParseError::MismatchedOperatorCount)
    );
    assert_eq!(
        Expression::parse("(A & ) | B", true).err(),
        Some(ParseError::MismatchedOperatorCount)
    );
}

#[test]
fn row_errors() {
    assert_eq!(TruthTable::parse_rows("012, 011").err(), Some(RowError::InvalidCharacter));
    assert_eq!(TruthTable::parse_rows("01, 011").err(), Some(RowError::InconsistentRowLength));
    assert_eq!(TruthTable::parse_rows("").err(), Some(RowError::InvalidRowSize));
}

#[test]
fn later_row_wins_and_missing_rows_stay_empty() {
    let table = TruthTable::parse_rows("11, 10").unwrap();
    assert_eq!(table.result(1), Some(false));
    assert_eq!(table.result(0), None);
    assert_eq!(table.rows(), vec![(0b1, false)]);
}

#[test]
fn case_and_alternative_operators() {
    let mut expression = Expression::parse("a * /b + c", true).unwrap();
    assert_eq!(expression.proposition_count(), 3);
    assert_eq!(expression.operators(), &vec![Operator::And, Operator::Or]);
    for p in 0..8u8 {
        let expected = (bit(p, 0) && !bit(p, 1)) || bit(p, 2);
        assert_eq!(expression.evaluate_permutation(p), expected);
    }
}

#[test]
fn white_space_is_skipped() {
    let mut expression = Expression::parse("A\t&\r\nB\u{a0}|\u{3000}C", true).unwrap();
    assert_eq!(expression.elements().len(), 3);
    assert!(expression.evaluate_permutation(0b100));
    assert!(!expression.evaluate_permutation(0b010));
}

#[test]
fn rows_decode_to_the_evaluation_order() {
    let table = TruthTable::parse_rows("011, 101").unwrap();
    assert_eq!(decode_permutation_str("011"), 0b10);
    assert_eq!(table.result(decode_permutation_str("011")), Some(true));
    assert_eq!(table.result(decode_permutation_str("101")), Some(true));
    assert_eq!(table.result(0b00), None);
    assert_eq!(table.result(0b11), None);
}

#[test]
fn evaluation_is_left_to_right() {
    // A | B & C reads as (A | B) & C: with A true and C false it is false.
    let mut expression = Expression::parse("A | B & C", true).unwrap();
    assert!(!expression.evaluate_permutation(0b001));
    assert!(expression.evaluate_permutation(0b101));
}

#[test]
fn table_lists_rows_by_permutation() {
    let table = TruthTable::parse_expression_str("A | B").unwrap();
    assert_eq!(
        table.rows(),
        vec![(0b00, false), (0b01, true), (0b10, true), (0b11, true)]
    );
    let mut lone = TruthTable::parse_expression_str("!A & B").unwrap();
    assert_eq!(lone.rows(), vec![(0b00, false), (0b01, false), (0b10, true), (0b11, false)]);
    lone = TruthTable::parse_expression_str("A & B").unwrap();
    for (p, result) in lone.rows() {
        let a = PropositionIdentifier::A.mask(p);
        let b = PropositionIdentifier::B.mask(p);
        assert_eq!(result, a && b);
    }
    assert_eq!(table.propositions(), &vec![PropositionIdentifier::A, PropositionIdentifier::B]);
}

#[test]
fn identifiers_round_trip() {
    for i in 0..4u8 {
        let id = PropositionIdentifier::from_int(i);
        assert_eq!(PropositionIdentifier::from_char(id.to_char()), id);
        let lower = id.to_char().to_ascii_lowercase();
        assert_eq!(PropositionIdentifier::from_char(lower), id);
    }
    assert!(PropositionIdentifier::A.mask(0b0001));
    assert!(!PropositionIdentifier::A.mask(0b1000));
    assert!(PropositionIdentifier::B.mask(0b0010));
    assert!(PropositionIdentifier::D.mask(0b1000));
    assert!(!PropositionIdentifier::D.mask(0b0001));
}

#[test]
fn table_keys_and_values() {
    let mut table = PropositionTable::from_expression_str("c & a");
    assert_eq!(table.count(), 2);
    assert!(!table.validate());
    assert_eq!(table.get_value(&PropositionIdentifier::A), None);
    table.set_all(0b0001);
    assert_eq!(table.get_value(&PropositionIdentifier::A), Some(true));
    assert_eq!(table.get_value(&PropositionIdentifier::C), Some(false));
    assert_eq!(table.get_value(&PropositionIdentifier::B), None);
}

#[test]
fn nested_groups_keep_their_own_letters() {
    let expression = Expression::parse("(B) & A", true).unwrap();
    match expression.elements()[0].token() {
        ExpressionElementToken::Subexpression(s) => assert_eq!(s.proposition_count(), 1),
        ExpressionElementToken::Proposition(_) => assert!(false),
    }
    assert_eq!(expression.proposition_count(), 2);
}
