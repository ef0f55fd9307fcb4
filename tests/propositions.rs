use truth_tables::PropositionIdentifier::A;
use truth_tables::PropositionIdentifier::B;
use truth_tables::PropositionIdentifier::C;
use truth_tables::PropositionIdentifier::D;
use truth_tables::PropositionTable;

#[test]
fn test_validate_propositions() {
    let mut expression = "A";
    assert!(PropositionTable::from_expression_str(expression).validate());

    expression = "A & B";
    assert!(PropositionTable::from_expression_str(expression).validate());

    expression = "A & B & C";
    assert!(PropositionTable::from_expression_str(expression).validate());

    expression = "A & B & C & D";
    assert!(PropositionTable::from_expression_str(expression).validate());

    expression = "A & C & D";
    assert!(!PropositionTable::from_expression_str(expression).validate());

    expression = "B & C";
    assert!(!PropositionTable::from_expression_str(expression).validate());
}

#[test]
fn test_set_values() {
    let expression = "A & B & C & D";
    let mut table = PropositionTable::from_expression_str(expression);

    table.set_all(0b0000);

    assert_eq!(table.get_value(&A), Some(false));
    assert_eq!(table.get_value(&B), Some(false));
    assert_eq!(table.get_value(&C), Some(false));
    assert_eq!(table.get_value(&D), Some(false));

    table.set_all(0b1111);

    assert_eq!(table.get_value(&A), Some(true));
    assert_eq!(table.get_value(&B), Some(true));
    assert_eq!(table.get_value(&C), Some(true));
    assert_eq!(table.get_value(&D), Some(true));

    table.set_all(0b0101);

    assert_eq!(table.get_value(&A), Some(true));
    assert_eq!(table.get_value(&B), Some(false));
    assert_eq!(table.get_value(&C), Some(true));
    assert_eq!(table.get_value(&D), Some(false));
}
