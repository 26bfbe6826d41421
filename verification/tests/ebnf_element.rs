use formal_grammars::extended_backus_naur_form::ebnf_element::ExtendedBackusNaurProduction;
use formal_grammars::model::{Terminal, Variable};

const TER_1: ExtendedBackusNaurProduction = ExtendedBackusNaurProduction::Terminal(Terminal('1'));

const VAR_A: ExtendedBackusNaurProduction = ExtendedBackusNaurProduction::Variable(Variable('A'));
const VAR_B: ExtendedBackusNaurProduction = ExtendedBackusNaurProduction::Variable(Variable('B'));
const VAR_C: ExtendedBackusNaurProduction = ExtendedBackusNaurProduction::Variable(Variable('C'));

#[test]
fn test_rep_zero() {
    assert_eq!(ExtendedBackusNaurProduction::repetition_zero(VAR_A).render(), "A*");
}

#[test]
fn test_rep_one() {
    assert_eq!(ExtendedBackusNaurProduction::repetition_one(VAR_A).render(), "A+");
}

#[test]
fn test_option() {
    assert_eq!(ExtendedBackusNaurProduction::optional(VAR_A).render(), "A?");
}

#[test]
fn test_alternative() {
    assert_eq!(ExtendedBackusNaurProduction::Alternative(vec![VAR_A, VAR_B]).render(), "A | B");

    assert_eq!(ExtendedBackusNaurProduction::Alternative(vec![VAR_A, VAR_B, VAR_C]).render(), "A | B | C");

    assert_eq!(ExtendedBackusNaurProduction::Alternative(vec![VAR_A, TER_1, VAR_C]).render(), "A | '1' | C");
}

#[test]
fn test_sequence() {
    assert_eq!(ExtendedBackusNaurProduction::Sequence(vec![VAR_A, VAR_B]).render(), "A B");

    assert_eq!(ExtendedBackusNaurProduction::Sequence(vec![VAR_A, VAR_B, VAR_C]).render(), "A B C");

    assert_eq!(ExtendedBackusNaurProduction::Sequence(vec![VAR_A, TER_1, VAR_C]).render(), "A '1' C");
}

#[test]
fn leaves_and_empty_lists_have_their_text() {
    assert_eq!(ExtendedBackusNaurProduction::Epsilon.render(), "eps");
    assert_eq!(ExtendedBackusNaurProduction::epsilon().render(), "eps");
    assert_eq!(ExtendedBackusNaurProduction::terminal('x').render(), "'x'");
    assert_eq!(ExtendedBackusNaurProduction::variable('X').render(), "X");
    assert_eq!(ExtendedBackusNaurProduction::Alternative(vec![]).render(), "");
    assert_eq!(ExtendedBackusNaurProduction::Sequence(vec![VAR_A]).render(), "A");
}

#[test]
fn nested_productions_are_rendered_inside_out() {
    let production = ExtendedBackusNaurProduction::alternative(vec![
        ExtendedBackusNaurProduction::sequence(vec![
            ExtendedBackusNaurProduction::repetition_one(TER_1),
            ExtendedBackusNaurProduction::optional(VAR_A),
        ]),
        ExtendedBackusNaurProduction::repetition_zero(ExtendedBackusNaurProduction::sequence(vec![VAR_B, VAR_C])),
        ExtendedBackusNaurProduction::Epsilon,
    ]);

    assert_eq!(production.render(), "'1'+ A? | B C* | eps");
}

#[test]
fn text_is_appended_to_what_is_there() {
    let mut text = String::from("S -> ");
    ExtendedBackusNaurProduction::Sequence(vec![VAR_A, TER_1]).write_to(&mut text);
    assert_eq!(text, "S -> A '1'");
}

#[test]
fn copies_are_the_same_production() {
    let production = ExtendedBackusNaurProduction::Alternative(vec![
        ExtendedBackusNaurProduction::repetition_zero(VAR_A),
        ExtendedBackusNaurProduction::Sequence(vec![TER_1, ExtendedBackusNaurProduction::optional(VAR_B)]),
    ]);
    let copy = production.clone();

    assert_eq!(copy, production);
    assert!(copy.same_as(&production));
}

#[test]
fn different_productions_are_told_apart() {
    let zero = ExtendedBackusNaurProduction::repetition_zero(VAR_A);
    let one = ExtendedBackusNaurProduction::repetition_one(VAR_A);

    assert!(zero.same_as(&ExtendedBackusNaurProduction::repetition_zero(VAR_A)));
    assert!(!zero.same_as(&one));
    assert!(!zero.same_as(&ExtendedBackusNaurProduction::repetition_zero(VAR_B)));
    assert!(!VAR_A.same_as(&ExtendedBackusNaurProduction::terminal('A')));
    assert!(!ExtendedBackusNaurProduction::Sequence(vec![VAR_A, VAR_B])
        .same_as(&ExtendedBackusNaurProduction::Sequence(vec![VAR_B, VAR_A])));
    assert!(!ExtendedBackusNaurProduction::Sequence(vec![VAR_A, VAR_B])
        .same_as(&ExtendedBackusNaurProduction::Sequence(vec![VAR_A])));
    assert!(!ExtendedBackusNaurProduction::Sequence(vec![VAR_A, VAR_B])
        .same_as(&ExtendedBackusNaurProduction::Alternative(vec![VAR_A, VAR_B])));
    assert!(ExtendedBackusNaurProduction::Epsilon.same_as(&ExtendedBackusNaurProduction::Epsilon));
}

#[test]
fn variables_are_collected_at_any_depth() {
    let production = ExtendedBackusNaurProduction::Alternative(vec![
        ExtendedBackusNaurProduction::repetition_zero(VAR_A),
        ExtendedBackusNaurProduction::Sequence(vec![
            TER_1,
            ExtendedBackusNaurProduction::optional(VAR_B),
            ExtendedBackusNaurProduction::repetition_one(VAR_A),
        ]),
    ]);

    assert_eq!(production.variables(), vec!['A', 'B', 'A']);
    assert_eq!(TER_1.variables(), Vec::<char>::new());
}
