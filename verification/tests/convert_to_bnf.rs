use formal_grammars::backus_naur_form::BackusNaurProduction as BnfProd;
use formal_grammars::extended_backus_naur_form::convert_to_bnf;
use formal_grammars::extended_backus_naur_form::ebnf_element::ExtendedBackusNaurProduction as EbnfProd;
use formal_grammars::extended_backus_naur_form::element_conversion_result::ElementConversionResult;
use formal_grammars::model::Variable;

fn repetition_rule(sub: EbnfProd, variable: char) -> EbnfProd {
    EbnfProd::Alternative(vec![
        EbnfProd::Epsilon,
        EbnfProd::Sequence(vec![sub, EbnfProd::variable(variable)]),
    ])
}

#[test]
fn test_convert_to_bnf() {
    let test_cases: Vec<(EbnfProd, ElementConversionResult)> = vec![
        (EbnfProd::terminal('1'), ElementConversionResult::simple(BnfProd::terminal('1'))),
        (EbnfProd::variable('A'), ElementConversionResult::simple(BnfProd::variable('A'))),
        (
            EbnfProd::optional(EbnfProd::variable('A')),
            ElementConversionResult::simple(BnfProd::optional(BnfProd::variable('A'))),
        ),
        (
            EbnfProd::Alternative(vec![EbnfProd::terminal('1'), EbnfProd::variable('A')]),
            ElementConversionResult::simple(BnfProd::Alternative(vec![BnfProd::terminal('1'), BnfProd::variable('A')])),
        ),
        (
            EbnfProd::Sequence(vec![EbnfProd::terminal('1'), EbnfProd::variable('A')]),
            ElementConversionResult::simple(BnfProd::Sequence(vec![BnfProd::terminal('1'), BnfProd::variable('A')])),
        ),
        (
            EbnfProd::repetition_zero(EbnfProd::terminal('1')),
            ElementConversionResult {
                output_element: BnfProd::variable('A'),
                new_variables: vec!['A'],
                new_replacers: vec![(EbnfProd::repetition_zero(EbnfProd::terminal('1')), Variable('A'))],
                new_rules: vec![(Variable('A'), repetition_rule(EbnfProd::terminal('1'), 'A'))],
            },
        ),
    ];

    for (ebnf_element, bnf_element) in test_cases {
        assert_eq!(convert_to_bnf(&ebnf_element), Ok(bnf_element));
    }
}
