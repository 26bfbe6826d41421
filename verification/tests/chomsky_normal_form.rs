use formal_grammars::chomsky_normal_form::ChomskyGrammar;
use formal_grammars::chomsky_production::ChomskyProduction;
use formal_grammars::model::Variable;

fn seq(left: char, right: char) -> ChomskyProduction {
    ChomskyProduction::Sequence(Variable(left), Variable(right))
}

fn example_grammar() -> ChomskyGrammar {
    ChomskyGrammar::new('S')
        .with_rule('S', vec![seq('A', 'B')])
        .with_rule('A', vec![seq('C', 'D'), seq('C', 'F')])
        .with_rule('B', vec![ChomskyProduction::Terminal('c'), seq('E', 'B')])
        .with_rule('C', vec![ChomskyProduction::Terminal('a')])
        .with_rule('D', vec![ChomskyProduction::Terminal('b')])
        .with_rule('E', vec![ChomskyProduction::Terminal('c')])
        .with_rule('F', vec![seq('A', 'D')])
}

fn chomsky_row(cells: &[&[char]]) -> Vec<Vec<char>> {
    cells.iter().map(|cell| cell.to_vec()).collect::<Vec<_>>()
}

#[test]
fn test_build_table() {
    let grammar = example_grammar();

    let chomsky_table = grammar.build_table(&['a', 'a', 'a', 'b', 'b', 'b', 'c', 'c']);

    let awaited = vec![
        chomsky_row(&[&['C'], &['C'], &['C'], &['D'], &['D'], &['D'], &['B', 'E'], &['B', 'E']]),
        chomsky_row(&[&[], &[], &['A'], &[], &[], &[], &['B']]),
        chomsky_row(&[&[], &[], &['F'], &[], &[], &[]]),
        chomsky_row(&[&[], &['A'], &[], &[], &[]]),
        chomsky_row(&[&[], &['F'], &[], &[]]),
        chomsky_row(&[&['A'], &[], &[]]),
        chomsky_row(&[&['S'], &[]]),
        chomsky_row(&[&['S']]),
    ];

    assert_eq!(chomsky_table, awaited);
}

#[test]
fn test_derive() {
    let grammar = example_grammar();

    assert!(grammar.derive(&['a', 'a', 'a', 'b', 'b', 'b', 'c', 'c']));
}

#[test]
fn single_symbol_is_rejected() {
    let grammar = example_grammar();

    assert!(!grammar.derive(&['a']));
    assert_eq!(grammar.try_derive(&['a']), Some(false));
}

#[test]
fn words_outside_the_language_are_rejected() {
    let grammar = example_grammar();

    assert!(!grammar.derive(&['a', 'b']));
    assert!(!grammar.derive(&['c', 'b', 'a']));
    assert!(!grammar.derive(&['a', 'a', 'b', 'c', 'c']));
    assert!(!grammar.derive(&['a', 'b', 'c', 'x']));
}

#[test]
fn words_of_the_language_are_accepted() {
    let grammar = example_grammar();

    assert!(grammar.derive(&['a', 'b', 'c']));
    assert!(grammar.derive(&['a', 'b', 'c', 'c', 'c']));
    assert!(grammar.derive(&['a', 'a', 'b', 'b', 'c']));
}

#[test]
fn empty_word_gets_no_answer() {
    let grammar = example_grammar();

    assert_eq!(grammar.try_derive(&[]), None);
    assert_eq!(
        grammar.try_derive(&['a', 'a', 'a', 'b', 'b', 'b', 'c', 'c']),
        Some(true)
    );
}

#[test]
fn start_variable_without_rule_rejects_everything() {
    let grammar = ChomskyGrammar::new('S').with_rule('A', vec![ChomskyProduction::Terminal('a')]);

    assert!(!grammar.derive(&['a']));
    assert!(!grammar.derive(&['a', 'a']));
}

#[test]
fn table_has_one_row_for_each_length() {
    let grammar = example_grammar();
    let word = ['a', 'b', 'c', 'c', 'a', 'b', 'x', 'c', 'a'];

    for n in 1..=word.len() {
        let table = grammar.build_table(&word[..n]);
        assert_eq!(table.len(), n);
        for (i, row) in table.iter().enumerate() {
            assert_eq!(row.len(), n - i);
        }
    }
}

#[test]
fn cells_are_in_ascending_order_whatever_the_order_of_the_rules() {
    let grammar = ChomskyGrammar::new('Z')
        .with_rule('Z', vec![ChomskyProduction::Terminal('a')])
        .with_rule('M', vec![ChomskyProduction::Terminal('a')])
        .with_rule('Q', vec![ChomskyProduction::Terminal('b')])
        .with_rule('B', vec![ChomskyProduction::Terminal('a')])
        .with_rule('T', vec![seq('Z', 'Q'), ChomskyProduction::Terminal('a')])
        .with_rule('C', vec![seq('M', 'Q')]);

    assert_eq!(
        grammar.search_rules_producing_terminal(&'a'),
        vec!['B', 'M', 'T', 'Z']
    );
    assert_eq!(grammar.search_rules_producing_terminal(&'b'), vec!['Q']);
    assert_eq!(grammar.search_rules_producing_terminal(&'c'), Vec::<char>::new());
    assert_eq!(grammar.search_rules_producing_sequence(&'Z', &'Q'), vec!['T']);
    assert_eq!(grammar.search_rules_producing_sequence(&'Q', &'Z'), Vec::<char>::new());

    let table = grammar.build_table(&['a', 'b']);
    assert_eq!(
        table,
        vec![
            vec![vec!['B', 'M', 'T', 'Z'], vec!['Q']],
            vec![vec!['C', 'T']],
        ]
    );
}

#[test]
fn later_rule_replaces_the_earlier_one() {
    let grammar = ChomskyGrammar::new('S')
        .with_rule('S', vec![ChomskyProduction::Terminal('a')])
        .with_rule('S', vec![ChomskyProduction::Terminal('b')]);

    assert!(!grammar.derive(&['a']));
    assert!(grammar.derive(&['b']));
    assert_eq!(grammar.search_rules_producing_terminal(&'b'), vec!['S']);
}

#[test]
fn repeated_productions_change_nothing() {
    let grammar = ChomskyGrammar::new('S')
        .with_rule('S', vec![seq('A', 'A'), seq('A', 'A')])
        .with_rule(
            'A',
            vec![
                ChomskyProduction::Terminal('a'),
                ChomskyProduction::Terminal('a'),
            ],
        );

    assert_eq!(grammar.build_table(&['a', 'a']), vec![vec![vec!['A'], vec!['A']], vec![vec!['S']]]);
    assert!(grammar.derive(&['a', 'a']));
    assert!(!grammar.derive(&['a', 'a', 'a']));
}

#[test]
fn many_producers_of_one_terminal_come_in_ascending_order() {
    let variables = [
        'q', 'Z', 'b', 'M', 'x', 'A', 'k', 'T', 'd', 'R', 'w', 'C', 'p', 'J', 'f', 'V', 'n', 'E',
        'h', 'L',
    ];
    let mut grammar = ChomskyGrammar::new('S');
    for variable in variables {
        grammar = grammar.with_rule(variable, vec![ChomskyProduction::Terminal('t')]);
    }
    let mut expected = variables.to_vec();
    expected.sort();

    assert_eq!(grammar.search_rules_producing_terminal(&'t'), expected);
    assert_eq!(grammar.build_table(&['t']), vec![vec![expected]]);
}

#[test]
fn variables_beyond_the_surrogate_range_are_found() {
    let grammar = ChomskyGrammar::new('\u{E000}')
        .with_rule('\u{E000}', vec![seq('\u{10FFFF}', '\u{D7FF}')])
        .with_rule('\u{10FFFF}', vec![ChomskyProduction::Terminal('a')])
        .with_rule('\u{D7FF}', vec![ChomskyProduction::Terminal('b')])
        .with_rule('\u{0}', vec![ChomskyProduction::Terminal('a')]);

    assert_eq!(
        grammar.build_table(&['a', 'b']),
        vec![vec![vec!['\u{0}', '\u{10FFFF}'], vec!['\u{D7FF}']], vec![vec!['\u{E000}']]]
    );
    assert!(grammar.derive(&['a', 'b']));
}
