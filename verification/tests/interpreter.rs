use logo::error::{LexError, LogoError, ParseError, RuntimeError};
use logo::{Command, Instruction, Interpreter};

fn ins(command: Command, args: Vec<isize>) -> Instruction {
    Instruction { command, args }
}

#[test]
fn runs_forward() {
    let mut interpreter = Interpreter::new();
    assert_eq!(
        interpreter.run_program("forward 10"),
        Ok(vec![ins(Command::Forward, vec![10])])
    );
}

#[test]
fn runs_repeat() {
    let mut interpreter = Interpreter::new();
    assert_eq!(
        interpreter.run_program("repeat 3 [ forward 10 ]"),
        Ok(vec![
            ins(Command::Forward, vec![10]),
            ins(Command::Forward, vec![10]),
            ins(Command::Forward, vec![10]),
        ])
    );
}

#[test]
fn keeps_variables_across_fragments() {
    let mut interpreter = Interpreter::new();
    assert_eq!(interpreter.run_program("make \"x 5"), Ok(vec![]));
    assert_eq!(
        interpreter.run_program("forward :x"),
        Ok(vec![ins(Command::Forward, vec![5])])
    );
}

#[test]
fn runs_arithmetic() {
    let mut interpreter = Interpreter::new();
    assert_eq!(
        interpreter.run_program("show 10 + 7 * 8 - 2"),
        Ok(vec![ins(Command::Show, vec![64])])
    );
}

#[test]
fn runs_a_declared_procedure() {
    let mut interpreter = Interpreter::new();
    assert_eq!(
        interpreter.run_program("to sq :s forward :s right 90 forward :s right 90 end"),
        Ok(vec![])
    );
    assert_eq!(
        interpreter.run_program("sq 10"),
        Ok(vec![
            ins(Command::Forward, vec![10]),
            ins(Command::Right, vec![90]),
            ins(Command::Forward, vec![10]),
            ins(Command::Right, vec![90]),
        ])
    );
}

#[test]
fn fails_on_an_unknown_name() {
    let mut interpreter = Interpreter::new();
    assert_eq!(
        interpreter.run_program("jump 3"),
        Err(LogoError::Runtime(RuntimeError::ProcedureNotFound {
            name: "jump".to_string()
        }))
    );
}

#[test]
fn each_stage_fails_in_its_own_way() {
    let mut interpreter = Interpreter::new();
    assert_eq!(
        interpreter.run_program("forward 10 ?"),
        Err(LogoError::Lex(LexError::UnrecognizedToken))
    );
    assert_eq!(
        interpreter.run_program("repeat 2 [ forward 10"),
        Err(LogoError::Parse(ParseError::EOF))
    );
    assert_eq!(
        interpreter.run_program("forward"),
        Err(LogoError::Runtime(RuntimeError::ArgCountMismatch {
            expected: 1
        }))
    );
}

#[test]
fn a_fragment_that_does_not_parse_changes_nothing() {
    let mut interpreter = Interpreter::new();
    assert!(interpreter.run_program("make \"x 1 repeat").is_err());
    assert_eq!(
        interpreter.run_program("forward :x"),
        Err(LogoError::Runtime(RuntimeError::VariableNotFound {
            name: "x".to_string()
        }))
    );
}

#[test]
fn interpreters_are_independent() {
    let mut one = Interpreter::new();
    let mut other = Interpreter::new();
    one.run_program("make \"x 1 to p forward :x end").unwrap();
    assert!(other.run_program("p").is_err());
    assert!(other.run_program("forward :x").is_err());
    assert_eq!(
        one.run_program("p"),
        Ok(vec![ins(Command::Forward, vec![1])])
    );
}

#[test]
fn parenthesised_grouping() {
    let mut interpreter = Interpreter::new();
    assert_eq!(
        interpreter.run_program("show (2 + 7) * (5 * (3 / 1)) show 2 + 7 * 5"),
        Ok(vec![
            ins(Command::Show, vec![135]),
            ins(Command::Show, vec![37])
        ])
    );
    assert_eq!(
        interpreter.run_program("show (10 - 4) - 3 show 10 - (4 - 3) show 10 - 4 - 3"),
        Ok(vec![
            ins(Command::Show, vec![3]),
            ins(Command::Show, vec![9]),
            ins(Command::Show, vec![3]),
        ])
    );
}

#[test]
fn error_messages() {
    let mut interpreter = Interpreter::new();
    let message = |r: Result<Vec<Instruction>, LogoError>| r.unwrap_err().to_string();
    assert_eq!(
        message(interpreter.run_program("!")),
        "Found unexpected token during lexing phase"
    );
    assert_eq!(
        message(interpreter.run_program("make")),
        "Reached EOF (End of file) while parsing"
    );
    assert_eq!(
        message(interpreter.run_program("forward :x")),
        "Variable :x has not been declared"
    );
}

#[test]
fn postfix_order_computes_the_usual_value() {
    let cases: Vec<(&str, isize)> = vec![
        ("2 + 3 * 4 - 10 / 5", 2 + 3 * 4 - 10 / 5),
        ("(2 + 3) * (4 - 10) / 5", (2 + 3) * (4 - 10) / 5),
        ("100 / 7 / 2", 100 / 7 / 2),
        ("100 / (7 / 2)", 100 / (7 / 2)),
        ("2 * 3 + 4 * 5", 2 * 3 + 4 * 5),
        ("2 * (3 + 4) * 5", 2 * (3 + 4) * 5),
        ("1 - 2 - 3", 1 - 2 - 3),
        ("1 - (2 - 3)", 1 - (2 - 3)),
        ("-7 / 2", -7 / 2),
        ("7 / -2 * -3", 7 / -2 * -3),
        ("((((5))))", 5),
        ("(1 + 2) * 3 - 4 / (1 + 1)", (1 + 2) * 3 - 4 / (1 + 1)),
        (":a * :a - :b * (:a + 1)", 6 * 6 - 4 * (6 + 1)),
    ];
    let mut interpreter = Interpreter::new();
    interpreter.run_program("make \"a 6 make \"b 4").unwrap();
    for (text, wanted) in cases {
        assert_eq!(
            interpreter.run_program(&format!("show {}", text)),
            Ok(vec![ins(Command::Show, vec![wanted])])
        );
    }
}

#[test]
fn arithmetic_fails_as_its_tree_does() {
    let mut interpreter = Interpreter::new();
    // the left operand fails first
    assert_eq!(
        interpreter.run_program("show :p + 1 / 0"),
        Err(LogoError::Runtime(RuntimeError::VariableNotFound {
            name: "p".to_string()
        }))
    );
    assert_eq!(
        interpreter.run_program("show 1 / 0 + :p"),
        Err(LogoError::Runtime(RuntimeError::DivisionByZero))
    );
    assert_eq!(
        interpreter.run_program("show 1 / (2 - 2)"),
        Err(LogoError::Runtime(RuntimeError::DivisionByZero))
    );
}
