use formal_grammars::backus_naur_form::BackusNaurProduction as BnfProd;
use formal_grammars::extended_backus_naur_form::ebnf_element::ExtendedBackusNaurProduction as EbnfProd;
use formal_grammars::extended_backus_naur_form::element_conversion_result::{
    ElementConversionResult, ElementsConversionResult,
};
use formal_grammars::extended_backus_naur_form::grammar_normalization::{
    normalize_pending, normalize_rules,
};
use formal_grammars::extended_backus_naur_form::normalization_pass::NormalizationPass;
use formal_grammars::extended_backus_naur_form::variable_allocator::{
    ConversionError, VariableAllocator,
};
use formal_grammars::extended_backus_naur_form::{convert_element, convert_to_bnf};
use formal_grammars::model::Variable;

fn repetition_rule(sub: EbnfProd, variable: char) -> EbnfProd {
    EbnfProd::Alternative(vec![
        EbnfProd::Epsilon,
        EbnfProd::Sequence(vec![sub, EbnfProd::variable(variable)]),
    ])
}

fn plain_repetition_rule(sub: BnfProd, variable: char) -> BnfProd {
    BnfProd::Alternative(vec![
        BnfProd::Epsilon,
        BnfProd::Sequence(vec![sub, BnfProd::variable(variable)]),
    ])
}

#[test]
fn epsilon_is_kept() {
    assert_eq!(
        convert_to_bnf(&EbnfProd::Epsilon),
        Ok(ElementConversionResult::simple(BnfProd::Epsilon))
    );
}

#[test]
fn simple_result_holds_nothing_new() {
    let result = ElementConversionResult::simple(BnfProd::terminal('x'));
    assert_eq!(result.output_element, BnfProd::terminal('x'));
    assert!(result.new_variables.is_empty());
    assert!(result.new_replacers.is_empty());
    assert!(result.new_rules.is_empty());

    let results = ElementsConversionResult::empty();
    assert!(results.output_elements.is_empty());
    assert!(results.new_variables.is_empty());
    assert!(results.new_replacers.is_empty());
    assert!(results.new_rules.is_empty());
}

#[test]
fn nested_production_without_repetition_is_kept() {
    let production = EbnfProd::Sequence(vec![
        EbnfProd::optional(EbnfProd::Alternative(vec![
            EbnfProd::terminal('a'),
            EbnfProd::Epsilon,
            EbnfProd::Sequence(vec![]),
        ])),
        EbnfProd::variable('B'),
    ]);
    let expected = BnfProd::Sequence(vec![
        BnfProd::optional(BnfProd::Alternative(vec![
            BnfProd::terminal('a'),
            BnfProd::Epsilon,
            BnfProd::Sequence(vec![]),
        ])),
        BnfProd::variable('B'),
    ]);

    assert_eq!(convert_to_bnf(&production), Ok(ElementConversionResult::simple(expected)));
}

#[test]
fn repetition_gets_one_fresh_variable_and_one_rule() {
    let repetition = EbnfProd::repetition_zero(EbnfProd::terminal('1'));

    let result = convert_to_bnf(&repetition).unwrap();

    assert_eq!(result.output_element, BnfProd::variable('A'));
    assert_eq!(result.new_variables, vec!['A']);
    assert_eq!(result.new_replacers, vec![(repetition.clone(), Variable('A'))]);
    assert_eq!(
        result.new_rules,
        vec![(Variable('A'), repetition_rule(EbnfProd::terminal('1'), 'A'))]
    );
    assert_eq!(result.new_rules[0].1.render(), "eps | '1' A");
}

#[test]
fn fresh_variable_is_none_of_the_production() {
    let production = EbnfProd::Sequence(vec![
        EbnfProd::variable('B'),
        EbnfProd::repetition_zero(EbnfProd::Sequence(vec![
            EbnfProd::variable('A'),
            EbnfProd::variable('C'),
        ])),
        EbnfProd::repetition_zero(EbnfProd::variable('E')),
    ]);

    let result = convert_to_bnf(&production).unwrap();

    assert_eq!(
        result.output_element,
        BnfProd::Sequence(vec![
            BnfProd::variable('B'),
            BnfProd::variable('D'),
            BnfProd::variable('F'),
        ])
    );
    assert_eq!(result.new_variables, vec!['D', 'F']);
}

#[test]
fn same_repetition_twice_gets_one_variable() {
    let repetition = EbnfProd::repetition_zero(EbnfProd::terminal('1'));
    let production = EbnfProd::Alternative(vec![
        repetition.clone(),
        EbnfProd::Sequence(vec![EbnfProd::terminal('0'), repetition.clone()]),
        EbnfProd::optional(repetition.clone()),
    ]);

    let result = convert_to_bnf(&production).unwrap();

    assert_eq!(
        result.output_element,
        BnfProd::Alternative(vec![
            BnfProd::variable('A'),
            BnfProd::Sequence(vec![BnfProd::terminal('0'), BnfProd::variable('A')]),
            BnfProd::optional(BnfProd::variable('A')),
        ])
    );
    assert_eq!(result.new_variables, vec!['A']);
    assert_eq!(result.new_replacers, vec![(repetition, Variable('A'))]);
    assert_eq!(
        result.new_rules,
        vec![(Variable('A'), repetition_rule(EbnfProd::terminal('1'), 'A'))]
    );
}

#[test]
fn different_repetitions_get_different_variables() {
    let production = EbnfProd::Sequence(vec![
        EbnfProd::repetition_zero(EbnfProd::terminal('0')),
        EbnfProd::repetition_zero(EbnfProd::terminal('1')),
        EbnfProd::repetition_zero(EbnfProd::terminal('0')),
    ]);

    let result = convert_to_bnf(&production).unwrap();

    assert_eq!(
        result.output_element,
        BnfProd::Sequence(vec![
            BnfProd::variable('A'),
            BnfProd::variable('B'),
            BnfProd::variable('A'),
        ])
    );
    assert_eq!(result.new_variables, vec!['A', 'B']);
    assert_eq!(
        result.new_rules,
        vec![
            (Variable('A'), repetition_rule(EbnfProd::terminal('0'), 'A')),
            (Variable('B'), repetition_rule(EbnfProd::terminal('1'), 'B')),
        ]
    );
}

#[test]
fn operand_of_a_repetition_is_left_for_its_rule() {
    let inner = EbnfProd::repetition_zero(EbnfProd::terminal('a'));
    let outer = EbnfProd::repetition_zero(inner.clone());

    let result = convert_to_bnf(&outer).unwrap();

    assert_eq!(result.output_element, BnfProd::variable('A'));
    assert_eq!(result.new_variables, vec!['A']);
    assert_eq!(result.new_rules, vec![(Variable('A'), repetition_rule(inner, 'A'))]);
}

#[test]
fn one_or_more_is_one_then_zero_or_more() {
    let operands = vec![
        EbnfProd::terminal('1'),
        EbnfProd::variable('A'),
        EbnfProd::Sequence(vec![EbnfProd::variable('Q'), EbnfProd::terminal('1')]),
        EbnfProd::repetition_zero(EbnfProd::variable('B')),
        EbnfProd::repetition_one(EbnfProd::terminal('x')),
        EbnfProd::Alternative(vec![
            EbnfProd::repetition_zero(EbnfProd::terminal('x')),
            EbnfProd::optional(EbnfProd::repetition_one(EbnfProd::terminal('x'))),
        ]),
    ];

    for operand in operands {
        let repeated = EbnfProd::repetition_one(operand.clone());
        let spelled_out =
            EbnfProd::Sequence(vec![operand.clone(), EbnfProd::repetition_zero(operand)]);

        assert_eq!(convert_to_bnf(&repeated), convert_to_bnf(&spelled_out));
    }
}

#[test]
fn one_or_more_of_a_terminal() {
    let result = convert_to_bnf(&EbnfProd::repetition_one(EbnfProd::terminal('1'))).unwrap();

    assert_eq!(
        result.output_element,
        BnfProd::Sequence(vec![BnfProd::terminal('1'), BnfProd::variable('A')])
    );
    assert_eq!(result.new_variables, vec!['A']);
    assert_eq!(
        result.new_replacers,
        vec![(EbnfProd::repetition_zero(EbnfProd::terminal('1')), Variable('A'))]
    );
    assert_eq!(
        result.new_rules,
        vec![(Variable('A'), repetition_rule(EbnfProd::terminal('1'), 'A'))]
    );
}

#[test]
fn one_or_more_shares_the_variable_of_zero_or_more() {
    let production = EbnfProd::Sequence(vec![
        EbnfProd::repetition_zero(EbnfProd::terminal('1')),
        EbnfProd::repetition_one(EbnfProd::terminal('1')),
    ]);

    let result = convert_to_bnf(&production).unwrap();

    assert_eq!(
        result.output_element,
        BnfProd::Sequence(vec![
            BnfProd::variable('A'),
            BnfProd::Sequence(vec![BnfProd::terminal('1'), BnfProd::variable('A')]),
        ])
    );
    assert_eq!(result.new_variables, vec!['A']);
}

#[test]
fn pass_remembers_repetitions_from_production_to_production() {
    let repetition = EbnfProd::repetition_zero(EbnfProd::terminal('1'));
    let mut pass = NormalizationPass::new(vec!['A', 'C']);
    assert_eq!(pass.replacer_for(&repetition), None);

    let first = convert_element(&repetition, &mut pass).unwrap();
    assert_eq!(first.output_element, BnfProd::variable('B'));
    assert_eq!(first.new_variables, vec!['B']);
    assert_eq!(pass.replacer_for(&repetition), Some(Variable('B')));

    let second = convert_element(&EbnfProd::optional(repetition.clone()), &mut pass).unwrap();
    assert_eq!(
        second,
        ElementConversionResult::simple(BnfProd::optional(BnfProd::variable('B')))
    );

    let third =
        convert_element(&EbnfProd::repetition_zero(EbnfProd::terminal('2')), &mut pass).unwrap();
    assert_eq!(third.output_element, BnfProd::variable('D'));
    assert_eq!(third.new_variables, vec!['D']);
}

#[test]
fn allocator_hands_out_free_symbols_in_ascending_order() {
    let mut allocator = VariableAllocator::new(vec!['B', 'A', 'D']);

    assert!(allocator.is_in_use('A'));
    assert!(!allocator.is_in_use('C'));
    assert_eq!(allocator.next_variable(), Ok(Variable('C')));
    assert!(allocator.is_in_use('C'));
    assert_eq!(allocator.next_variable(), Ok(Variable('E')));
    assert_eq!(allocator.next_variable(), Ok(Variable('F')));
}

#[test]
fn allocator_starts_where_it_is_told() {
    let mut allocator = VariableAllocator::starting_at('x', vec!['y']);

    assert_eq!(allocator.next_variable(), Ok(Variable('x')));
    assert_eq!(allocator.next_variable(), Ok(Variable('z')));
    assert_eq!(allocator.next_variable(), Ok(Variable('{')));
}

#[test]
fn allocator_passes_over_the_surrogate_range() {
    let mut allocator = VariableAllocator::starting_at('\u{D7FF}', vec![]);

    assert_eq!(allocator.next_variable(), Ok(Variable('\u{D7FF}')));
    assert_eq!(allocator.next_variable(), Ok(Variable('\u{E000}')));
    assert_eq!(allocator.next_variable(), Ok(Variable('\u{E001}')));
}

#[test]
fn allocator_fails_when_no_symbol_is_left() {
    let mut allocator = VariableAllocator::starting_at('\u{10FFFE}', vec!['\u{10FFFF}']);

    assert_eq!(allocator.next_variable(), Ok(Variable('\u{10FFFE}')));
    assert_eq!(allocator.next_variable(), Err(ConversionError::IdentifiersExhausted));
    assert_eq!(allocator.next_variable(), Err(ConversionError::IdentifiersExhausted));
    assert!(!allocator.is_in_use('A'));

    let mut last = VariableAllocator::starting_at(char::MAX, vec![]);
    assert_eq!(last.next_variable(), Ok(Variable(char::MAX)));
    assert_eq!(last.next_variable(), Err(ConversionError::IdentifiersExhausted));
}

#[test]
fn rewriting_fails_when_no_symbol_is_left() {
    let allocator = VariableAllocator::starting_at(char::MAX, vec![]);
    let mut pass = NormalizationPass::with_allocator(allocator);
    let production = EbnfProd::Sequence(vec![
        EbnfProd::repetition_zero(EbnfProd::terminal('0')),
        EbnfProd::terminal('x'),
        EbnfProd::repetition_zero(EbnfProd::terminal('1')),
    ]);

    assert_eq!(
        convert_element(&production, &mut pass),
        Err(ConversionError::IdentifiersExhausted)
    );

    let plain = EbnfProd::optional(EbnfProd::terminal('x'));
    assert_eq!(
        convert_element(&plain, &mut pass),
        Ok(ElementConversionResult::simple(BnfProd::optional(BnfProd::terminal('x'))))
    );
    let known = EbnfProd::repetition_one(EbnfProd::terminal('0'));
    assert_eq!(
        convert_element(&known, &mut pass).map(|result| result.output_element),
        Ok(BnfProd::Sequence(vec![BnfProd::terminal('0'), BnfProd::variable(char::MAX)]))
    );
}

#[test]
fn rules_are_rewritten_with_the_rules_they_add() {
    let rules = vec![(
        Variable('S'),
        EbnfProd::Sequence(vec![
            EbnfProd::repetition_zero(EbnfProd::terminal('a')),
            EbnfProd::repetition_one(EbnfProd::terminal('b')),
        ]),
    )];

    let plain = normalize_rules(&rules).unwrap();

    assert_eq!(
        plain,
        vec![
            (
                Variable('S'),
                BnfProd::Sequence(vec![
                    BnfProd::variable('A'),
                    BnfProd::Sequence(vec![BnfProd::terminal('b'), BnfProd::variable('B')]),
                ]),
            ),
            (Variable('A'), plain_repetition_rule(BnfProd::terminal('a'), 'A')),
            (Variable('B'), plain_repetition_rule(BnfProd::terminal('b'), 'B')),
        ]
    );
}

#[test]
fn nested_repetitions_are_rewritten_rule_by_rule() {
    let rules = vec![(
        Variable('A'),
        EbnfProd::repetition_zero(EbnfProd::repetition_zero(EbnfProd::terminal('a'))),
    )];

    let plain = normalize_rules(&rules).unwrap();

    assert_eq!(
        plain,
        vec![
            (Variable('A'), BnfProd::variable('B')),
            (Variable('B'), plain_repetition_rule(BnfProd::variable('C'), 'B')),
            (Variable('C'), plain_repetition_rule(BnfProd::terminal('a'), 'C')),
        ]
    );
}

#[test]
fn rules_share_the_variables_of_their_repetitions() {
    let rules = vec![
        (Variable('S'), EbnfProd::repetition_zero(EbnfProd::variable('B'))),
        (Variable('T'), EbnfProd::optional(EbnfProd::repetition_zero(EbnfProd::variable('B')))),
        (Variable('B'), EbnfProd::terminal('b')),
    ];

    let plain = normalize_rules(&rules).unwrap();

    assert_eq!(
        plain,
        vec![
            (Variable('S'), BnfProd::variable('A')),
            (Variable('T'), BnfProd::optional(BnfProd::variable('A'))),
            (Variable('B'), BnfProd::terminal('b')),
            (Variable('A'), plain_repetition_rule(BnfProd::variable('B'), 'A')),
        ]
    );
}

#[test]
fn rules_without_repetition_are_kept() {
    let rules = vec![
        (Variable('S'), EbnfProd::Sequence(vec![EbnfProd::variable('A'), EbnfProd::terminal('b')])),
        (Variable('A'), EbnfProd::optional(EbnfProd::terminal('a'))),
    ];

    assert_eq!(
        normalize_rules(&rules),
        Ok(vec![
            (Variable('S'), BnfProd::Sequence(vec![BnfProd::variable('A'), BnfProd::terminal('b')])),
            (Variable('A'), BnfProd::optional(BnfProd::terminal('a'))),
        ])
    );
    assert_eq!(normalize_rules(&vec![]), Ok(vec![]));
}

#[test]
fn rewriting_rules_fails_when_no_symbol_is_left() {
    let rules = vec![
        (Variable('S'), EbnfProd::repetition_zero(EbnfProd::terminal('a'))),
        (Variable('T'), EbnfProd::repetition_zero(EbnfProd::terminal('b'))),
    ];
    let allocator = VariableAllocator::starting_at(char::MAX, vec!['S', 'T']);
    let mut pass = NormalizationPass::with_allocator(allocator);

    assert_eq!(
        normalize_pending(rules.clone(), &mut pass),
        Err(ConversionError::IdentifiersExhausted)
    );

    let allocator = VariableAllocator::starting_at('\u{10FFFE}', vec!['S', 'T']);
    let mut pass = NormalizationPass::with_allocator(allocator);
    assert_eq!(
        normalize_pending(rules, &mut pass),
        Ok(vec![
            (Variable('S'), BnfProd::variable('\u{10FFFE}')),
            (Variable('T'), BnfProd::variable('\u{10FFFF}')),
            (Variable('\u{10FFFE}'), plain_repetition_rule(BnfProd::terminal('a'), '\u{10FFFE}')),
            (Variable('\u{10FFFF}'), plain_repetition_rule(BnfProd::terminal('b'), '\u{10FFFF}')),
        ])
    );
}

#[test]
fn plain_productions_can_be_copied_and_compared() {
    let production = BnfProd::alternative(vec![
        BnfProd::sequence(vec![BnfProd::terminal('a'), BnfProd::variable('A')]),
        BnfProd::optional(BnfProd::Epsilon),
    ]);

    assert_eq!(production.clone(), production);
    assert_ne!(production, BnfProd::Epsilon);
}
