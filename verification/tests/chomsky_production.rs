use formal_grammars::chomsky_production::ChomskyProduction;
use formal_grammars::model::Variable;

const VAR_A: Variable = Variable('A');
const VAR_B: Variable = Variable('B');

#[test]
fn chomsky_production_test_chomsky_production_produces() {
    assert!(ChomskyProduction::Terminal('a').produces_terminal(&'a'));
    assert!(ChomskyProduction::Terminal('a').produces_terminal(&'a'));

    assert!(!ChomskyProduction::Sequence(VAR_A, VAR_B).produces_terminal(&'a'));
}

#[test]
fn chomsky_normal_form_test_chomsky_production_produces() {
    assert!(ChomskyProduction::Terminal('a').produces_terminal(&'a'));
    assert!(ChomskyProduction::Terminal('a').produces_terminal(&'a'));

    assert!(!ChomskyProduction::Sequence(VAR_A, VAR_B).produces_terminal(&'a'));
}

#[test]
fn terminal_produces_only_its_own_symbol() {
    assert!(!ChomskyProduction::Terminal('a').produces_terminal(&'b'));
    assert!(!ChomskyProduction::Terminal('a').produces_sequence(&'A', &'B'));
}

#[test]
fn sequence_produces_only_its_own_pair() {
    let production = ChomskyProduction::Sequence(VAR_A, VAR_B);
    assert!(production.produces_sequence(&'A', &'B'));
    assert!(!production.produces_sequence(&'B', &'A'));
    assert!(!production.produces_sequence(&'A', &'A'));
    assert!(!production.produces_sequence(&'B', &'B'));
}
