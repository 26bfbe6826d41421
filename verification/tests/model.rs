use formal_grammars::model::{Terminal, Variable};

const TER_1: Terminal = Terminal('1');
const VAR_A: Variable = Variable('A');

#[test]
fn test_terminal() {
    assert_eq!(TER_1.render(), "'1'");
}

#[test]
fn test_variable() {
    assert_eq!(VAR_A.render(), "A");
}

#[test]
fn terminal_text_is_appended() {
    let mut text = String::from("x = ");
    Terminal('a').write_to(&mut text);
    Variable('B').write_to(&mut text);
    assert_eq!(text, "x = 'a'B");
}
